//! What filling the template of an egg does: slots are filled, all else stays.
use crate::laws::rendering::{blank, known_at, name_char, unknown};
use crate::laws::rendering;
use crate::models::Server;
use crate::services::blueprint;
use crate::services::egg;
use crate::services::egg::EggVariable;
use crate::text;
use vstd::prelude::*;
use vstd::string::*;

verus! {

/// A name of letters, digits and underscores.
pub open spec fn is_name(name: Seq<char>) -> bool {
    name.len() > 0 && forall|i: int| 0 <= i < name.len() ==> name_char(#[trigger] name[i])
}

/// A slot as it is written.
pub open spec fn slot_text(before: Seq<char>, name: Seq<char>, after: Seq<char>) -> Seq<char> {
    seq!['{', '{'] + before + name + after + seq!['}', '}']
}

/// Whether a text starts with a slot, written so.
pub open spec fn leads(s: Seq<char>, before: Seq<char>, name: Seq<char>, after: Seq<char>) -> bool {
    &&& blank(before) && blank(after) && is_name(name)
    &&& text::begins_with(s, slot_text(before, name, after))
}

/// Whether a text starts with a slot.
pub open spec fn starts_with_slot(s: Seq<char>) -> bool {
    exists|before: Seq<char>, name: Seq<char>, after: Seq<char>| leads(s, before, name, after)
}

proof fn lemma_space_run(s: Seq<char>, i: int, to: int)
    requires
        0 <= i <= to <= s.len(),
        forall|j: int| i <= j < to ==> text::is_space(#[trigger] s[j]),
        to < s.len() ==> !text::is_space(s[to]),
    ensures
        egg::past_space(s, i) == to,
    decreases to - i,
{
    if i < to {
        assert(text::is_space(s[i]));
        lemma_space_run(s, i + 1, to);
    }
}

proof fn lemma_name_run(s: Seq<char>, i: int, to: int)
    requires
        0 <= i <= to <= s.len(),
        forall|j: int| i <= j < to ==> name_char(#[trigger] s[j]),
        to < s.len() ==> !name_char(s[to]),
    ensures
        egg::past_name(s, i) == to,
    decreases to - i,
{
    if i < to {
        assert(name_char(s[i]));
        lemma_name_run(s, i + 1, to);
    }
}

proof fn lemma_runs_are(s: Seq<char>, i: int)
    requires
        0 <= i <= s.len(),
    ensures
        i <= egg::past_space(s, i) <= s.len(),
        i <= egg::past_name(s, i) <= s.len(),
        forall|j: int| i <= j < egg::past_space(s, i) ==> text::is_space(#[trigger] s[j]),
        forall|j: int| i <= j < egg::past_name(s, i) ==> name_char(#[trigger] s[j]),
    decreases s.len() - i,
{
    if i < s.len() {
        lemma_runs_are(s, i + 1);
        assert forall|j: int| i <= j < egg::past_space(s, i) implies text::is_space(
            #[trigger] s[j],
        ) by {
            if j > i {
                assert(i + 1 <= j);
            }
        }
        assert forall|j: int| i <= j < egg::past_name(s, i) implies name_char(#[trigger] s[j]) by {
            if j > i {
                assert(i + 1 <= j);
            }
        }
    }
}

proof fn lemma_leading_is_found(
    s: Seq<char>,
    before: Seq<char>,
    name: Seq<char>,
    after: Seq<char>,
)
    requires
        leads(s, before, name, after),
    ensures
        egg::slot(s) == Some((name, slot_text(before, name, after).len() as int)),
{
    let m = slot_text(before, name, after);
    let from = 2 + before.len();
    let to = from + name.len();
    let end = to + after.len();
    assert forall|j: int| 0 <= j < m.len() implies s[j] == #[trigger] m[j] by {
        assert(s.take(m.len() as int)[j] == s[j]);
    }
    assert(s[0] == m[0] && s[1] == m[1]);
    assert forall|j: int| 2 <= j < from implies text::is_space(#[trigger] s[j]) by {
        assert(m[j] == before[j - 2]);
    }
    assert forall|j: int| from <= j < to implies name_char(#[trigger] s[j]) && s[j] == name[j
        - from] by {
        assert(m[j] == name[j - from]);
    }
    assert forall|j: int| to <= j < end implies text::is_space(#[trigger] s[j]) by {
        assert(m[j] == after[j - to]);
    }
    assert(m[end as int] == '}' && m[end as int + 1] == '}');
    assert(s[end as int] == '}' && s[end as int + 1] == '}');
    assert(name_char(s[from as int]));
    lemma_space_run(s, 2, from as int);
    if to < end {
        assert(text::is_space(s[to as int]));
    }
    lemma_name_run(s, from as int, to as int);
    lemma_space_run(s, to as int, end as int);
    assert(s.subrange(from as int, to as int) =~= name);
}

proof fn lemma_found_leads(s: Seq<char>)
    requires
        egg::slot(s) is Some,
    ensures
        starts_with_slot(s),
{
    lemma_runs_are(s, 2);
    let from = egg::past_space(s, 2);
    lemma_runs_are(s, from);
    let to = egg::past_name(s, from);
    lemma_runs_are(s, to);
    let end = egg::past_space(s, to);
    let before = s.subrange(2, from);
    let name = s.subrange(from, to);
    let after = s.subrange(to, end);
    let m = slot_text(before, name, after);
    assert(s.take(m.len() as int) =~= m);
    assert(leads(s, before, name, after));
}

/// A slot is filled with the last value under its name, or with nothing where there
/// is none, whatever white space stands in it and whatever stands behind it.
pub proof fn law_slot_is_filled(
    before: Seq<char>,
    name: Seq<char>,
    after: Seq<char>,
    rest: Seq<char>,
    env: Seq<(Seq<char>, Seq<char>)>,
    at: int,
)
    requires
        blank(before),
        blank(after),
        is_name(name),
    ensures
        known_at(env, name, at) ==> egg::filled(slot_text(before, name, after) + rest, env)
            == env[at].1 + egg::filled(rest, env),
        unknown(env, name) ==> egg::filled(slot_text(before, name, after) + rest, env)
            == egg::filled(rest, env),
{
    let m = slot_text(before, name, after);
    let s = m + rest;
    assert(s.take(m.len() as int) =~= m);
    lemma_leading_is_found(s, before, name, after);
    assert(s.skip(m.len() as int) =~= rest);
    if known_at(env, name, at) {
        rendering::lemma_known(env, name, at);
    }
    if unknown(env, name) {
        rendering::lemma_unknown(env, name);
        assert(Seq::<char>::empty() + egg::filled(rest, env) =~= egg::filled(rest, env));
    }
}

/// Text outside slots is kept: where no slot starts in the front of a template, the
/// whole is filled to that front, character for character, and what the rest is
/// filled to.
pub proof fn law_text_outside_slots_is_kept(
    front: Seq<char>,
    rest: Seq<char>,
    env: Seq<(Seq<char>, Seq<char>)>,
)
    requires
        forall|i: int| 0 <= i < front.len() ==> !starts_with_slot(#[trigger] (front + rest).skip(i)),
    ensures
        egg::filled(front + rest, env) == front + egg::filled(rest, env),
    decreases front.len(),
{
    let s = front + rest;
    if front.len() == 0 {
        assert(s =~= rest);
        assert(front + egg::filled(rest, env) =~= egg::filled(rest, env));
    } else {
        assert(s.skip(0) =~= s);
        assert(!starts_with_slot(s));
        if egg::slot(s) is Some {
            lemma_found_leads(s);
        }
        let less = front.skip(1);
        assert(s.skip(1) =~= less + rest);
        assert forall|i: int| 0 <= i < less.len() implies !starts_with_slot(
            #[trigger] (less + rest).skip(i),
        ) by {
            assert((less + rest).skip(i) =~= s.skip(i + 1));
        }
        law_text_outside_slots_is_kept(less, rest, env);
        assert(egg::filled(s, env) =~= seq![front[0]] + (less + egg::filled(rest, env)));
        assert(front =~= seq![front[0]] + less);
    }
}

/// Nothing is filled to nothing.
pub proof fn law_nothing_is_filled_to_nothing(env: Seq<(Seq<char>, Seq<char>)>)
    ensures
        egg::filled(Seq::empty(), env) == Seq::<char>::empty(),
{
}

/// What a server is told by in templates: its name, uuid, limits and port.
pub proof fn law_server_is_told(server: Server)
    ensures
        blueprint::last_value(egg::server_values(server), "SERVER_NAME"@) == Some(server.name@),
        blueprint::last_value(egg::server_values(server), "SERVER_UUID"@) == Some(server.uuid@),
        blueprint::last_value(egg::server_values(server), "SERVER_MEMORY"@) == Some(
            text::decimal(server.memory_mb as int),
        ),
        blueprint::last_value(egg::server_values(server), "SERVER_DISK"@) == Some(
            text::decimal(server.disk_mb as int),
        ),
        blueprint::last_value(egg::server_values(server), "SERVER_CPU"@) == Some(
            text::decimal(server.cpu_percent as int),
        ),
        blueprint::last_value(egg::server_values(server), "SERVER_PORT"@) == Some(
            match server.port {
                Some(p) => text::decimal(p as int),
                None => Seq::empty(),
            },
        ),
{
    reveal_strlit("SERVER_NAME");
    reveal_strlit("SERVER_UUID");
    reveal_strlit("SERVER_MEMORY");
    reveal_strlit("SERVER_DISK");
    reveal_strlit("SERVER_CPU");
    reveal_strlit("SERVER_PORT");
    let all = egg::server_values(server);
    assert forall|j: int, k: int| 0 <= j < k < 6 implies #[trigger] all[j].0 != #[trigger] all[k].0 by {
        assert(all[j].0.len() != all[k].0.len() || all[j].0[7] != all[k].0[7]);
    }
    assert forall|j: int| 0 <= j < 6 implies known_at(all, #[trigger] all[j].0, j) by {}
    rendering::lemma_known(all, all[0].0, 0);
    rendering::lemma_known(all, all[1].0, 1);
    rendering::lemma_known(all, all[2].0, 2);
    rendering::lemma_known(all, all[3].0, 3);
    rendering::lemma_known(all, all[4].0, 4);
    rendering::lemma_known(all, all[5].0, 5);
}

/// A variable has the owner's last value for its name, or the egg's where the owner
/// gave none.
pub proof fn law_owner_overrides_a_variable(
    vars: Seq<EggVariable>,
    overrides: Seq<(Seq<char>, Seq<char>)>,
    i: int,
    at: int,
)
    requires
        0 <= i < vars.len(),
    ensures
        egg::values_of(vars, overrides).len() == vars.len(),
        known_at(overrides, vars[i].env_var@, at) ==> egg::values_of(vars, overrides)[i]
            == overrides[at].1,
        unknown(overrides, vars[i].env_var@) ==> egg::values_of(vars, overrides)[i]
            == vars[i].default_value@,
{
    if known_at(overrides, vars[i].env_var@, at) {
        rendering::lemma_known(overrides, vars[i].env_var@, at);
    }
    if unknown(overrides, vars[i].env_var@) {
        rendering::lemma_unknown(overrides, vars[i].env_var@);
    }
}

/// Templates know a variable by its value, the last of a name taking precedence.
pub proof fn law_variable_is_told(vars: Seq<EggVariable>, values: Seq<Seq<char>>, i: int)
    requires
        0 <= i < vars.len() == values.len(),
        forall|j: int| i < j < vars.len() ==> (#[trigger] vars[j]).env_var@ != vars[i].env_var@,
    ensures
        known_at(egg::named_values(vars, values), vars[i].env_var@, i),
        egg::named_values(vars, values)[i].1 == values[i],
{
    let all = egg::named_values(vars, values);
    assert forall|j: int| i < j < all.len() implies (#[trigger] all[j]).0 != vars[i].env_var@ by {
        assert(vars[j].env_var@ != vars[i].env_var@);
    }
}

} // verus!
