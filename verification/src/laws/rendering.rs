//! What rendering a template does: placeholders are replaced, all else stays.
use crate::models::{BlueprintInput, Server};
use crate::services::blueprint;
use crate::services::blueprint::{Class, RenderError, Values};
use crate::text;
use vstd::prelude::*;
use vstd::string::*;

verus! {

/// A letter, a digit or an underscore.
pub open spec fn name_char(c: char) -> bool {
    'a' <= c <= 'z' || 'A' <= c <= 'Z' || '0' <= c <= '9' || c == '_'
}

/// White space alone, or nothing.
pub open spec fn blank(s: Seq<char>) -> bool {
    forall|i: int| 0 <= i < s.len() ==> text::is_space(#[trigger] s[i])
}

/// A key of small letters, a dot, and a name, with the dot at `d`.
pub open spec fn dotted_at(key: Seq<char>, d: int) -> bool {
    &&& 0 < d < key.len() - 1
    &&& key[d] == '.'
    &&& forall|i: int| 0 <= i < d ==> 'a' <= #[trigger] key[i] <= 'z'
    &&& forall|i: int| d < i < key.len() ==> name_char(#[trigger] key[i])
}

/// A key of small letters, a dot, and a name.
pub open spec fn is_key(key: Seq<char>) -> bool {
    exists|d: int| dotted_at(key, d)
}

/// A placeholder as it is written.
pub open spec fn mark(before: Seq<char>, key: Seq<char>, after: Seq<char>) -> Seq<char> {
    seq!['$', '{'] + before + key + after + seq!['}']
}

/// Whether a placeholder stands at `i`, written so.
pub open spec fn stands(
    s: Seq<char>,
    i: int,
    before: Seq<char>,
    key: Seq<char>,
    after: Seq<char>,
) -> bool {
    &&& blank(before) && blank(after) && is_key(key)
    &&& 0 <= i && i + mark(before, key, after).len() <= s.len()
    &&& s.subrange(i, i + mark(before, key, after).len()) == mark(before, key, after)
}

/// Whether a placeholder starts at `i`.
pub open spec fn starts_at(s: Seq<char>, i: int) -> bool {
    exists|before: Seq<char>, key: Seq<char>, after: Seq<char>| stands(s, i, before, key, after)
}

/// Whether the last value under a key is at `at`.
pub open spec fn known_at(pairs: Seq<(Seq<char>, Seq<char>)>, key: Seq<char>, at: int) -> bool {
    &&& 0 <= at < pairs.len()
    &&& pairs[at].0 == key
    &&& forall|j: int| at < j < pairs.len() ==> (#[trigger] pairs[j]).0 != key
}

/// Whether there is no value under a key.
pub open spec fn unknown(pairs: Seq<(Seq<char>, Seq<char>)>, key: Seq<char>) -> bool {
    forall|j: int| 0 <= j < pairs.len() ==> (#[trigger] pairs[j]).0 != key
}

/// Whether two refusals are for the same reason and the same key.
pub open spec fn same_refusal(a: RenderError, b: RenderError) -> bool {
    match (a, b) {
        (RenderError::Secret { key: k }, RenderError::Secret { key: l }) => k@ == l@,
        (RenderError::Unknown { key: k }, RenderError::Unknown { key: l }) => k@ == l@,
        _ => false,
    }
}

pub proof fn lemma_known(pairs: Seq<(Seq<char>, Seq<char>)>, key: Seq<char>, at: int)
    requires
        known_at(pairs, key, at),
    ensures
        blueprint::last_value(pairs, key) == Some(pairs[at].1),
    decreases pairs.len(),
{
    let n = pairs.len() - 1;
    if at < n {
        assert(pairs[n].0 != key);
        assert(known_at(pairs.drop_last(), key, at)) by {
            assert forall|j: int| at < j < pairs.drop_last().len() implies (
            #[trigger] pairs.drop_last()[j]).0 != key by {
                assert(pairs[j].0 != key);
            }
        }
        lemma_known(pairs.drop_last(), key, at);
    }
}

pub proof fn lemma_unknown(pairs: Seq<(Seq<char>, Seq<char>)>, key: Seq<char>)
    requires
        unknown(pairs, key),
    ensures
        blueprint::last_value(pairs, key) is None,
    decreases pairs.len(),
{
    if pairs.len() > 0 {
        assert(pairs[pairs.len() - 1].0 != key);
        assert forall|j: int| 0 <= j < pairs.drop_last().len() implies (
        #[trigger] pairs.drop_last()[j]).0 != key by {
            assert(pairs[j].0 != key);
        }
        lemma_unknown(pairs.drop_last(), key);
    }
}

proof fn lemma_run(s: Seq<char>, i: int, to: int, class: Class)
    requires
        0 <= i <= to <= s.len(),
        forall|j: int| i <= j < to ==> blueprint::in_class(#[trigger] s[j], class),
        to < s.len() ==> !blueprint::in_class(s[to], class),
    ensures
        blueprint::run_end(s, i, class) == to,
    decreases to - i,
{
    if i < to {
        assert(blueprint::in_class(s[i], class));
        lemma_run(s, i + 1, to, class);
    }
}

proof fn lemma_run_is(s: Seq<char>, i: int, class: Class)
    requires
        0 <= i <= s.len(),
    ensures
        i <= blueprint::run_end(s, i, class) <= s.len(),
        forall|j: int|
            i <= j < blueprint::run_end(s, i, class) ==> blueprint::in_class(#[trigger] s[j], class),
    decreases s.len() - i,
{
    if i < s.len() && blueprint::in_class(s[i], class) {
        lemma_run_is(s, i + 1, class);
        assert forall|j: int| i <= j < blueprint::run_end(s, i, class) implies blueprint::in_class(
            #[trigger] s[j],
            class,
        ) by {
            if j > i {
                assert(i + 1 <= j);
            }
        }
    }
}

/// What is written as a placeholder is found as one.
proof fn lemma_standing_is_found(
    s: Seq<char>,
    i: int,
    before: Seq<char>,
    key: Seq<char>,
    after: Seq<char>,
)
    requires
        stands(s, i, before, key, after),
    ensures
        blueprint::placeholder(s, i) == Some((key, i + mark(before, key, after).len())),
{
    let m = mark(before, key, after);
    let d = choose|d: int| dotted_at(key, d);
    let a = i + 2 + before.len();
    let b = a + d;
    let c = a + key.len();
    let e = c + after.len();
    assert forall|j: int| 0 <= j < m.len() implies s[i + j] == #[trigger] m[j] by {
        assert(s.subrange(i, i + m.len())[j] == s[i + j]);
    }
    assert(m[0] == '$' && m[1] == '{');
    assert(s[i + 0] == '$' && s[i + 1] == '{');
    assert forall|j: int| i + 2 <= j < a implies blueprint::in_class(#[trigger] s[j], Class::Space) by {
        assert(s[i + (j - i)] == m[j - i]);
        assert(m[j - i] == before[j - i - 2]);
    }
    assert forall|j: int| a <= j < c implies #[trigger] s[j] == key[j - a] by {
        assert(s[i + (j - i)] == m[j - i]);
        assert(m[j - i] == key[j - a]);
    }
    assert forall|j: int| c <= j < e implies blueprint::in_class(#[trigger] s[j], Class::Space) by {
        assert(s[i + (j - i)] == m[j - i]);
        assert(m[j - i] == after[j - c]);
    }
    assert(m[e - i] == '}');
    assert(s[i + (e - i)] == '}');
    assert(s[a] == key[0] && 'a' <= key[0] <= 'z');
    lemma_run(s, i + 2, a, Class::Space);
    assert forall|j: int| a <= j < b implies blueprint::in_class(#[trigger] s[j], Class::Scope) by {
        assert(s[j] == key[j - a]);
    }
    assert(s[b] == key[d]);
    lemma_run(s, a, b, Class::Scope);
    assert forall|j: int| b + 1 <= j < c implies blueprint::in_class(#[trigger] s[j], Class::Field) by {
        assert(s[j] == key[j - a]);
        assert(name_char(key[j - a]));
    }
    if e > c {
        assert(blueprint::in_class(s[c], Class::Space));
    }
    lemma_run(s, b + 1, c, Class::Field);
    lemma_run(s, c, e, Class::Space);
    assert(s.subrange(a, c) =~= key);
}

/// What is found as a placeholder is written as one.
proof fn lemma_found_stands(s: Seq<char>, i: int)
    requires
        blueprint::placeholder(s, i) is Some,
    ensures
        starts_at(s, i),
{
    let a = blueprint::run_end(s, i + 2, Class::Space);
    lemma_run_is(s, i + 2, Class::Space);
    let b = blueprint::run_end(s, a, Class::Scope);
    lemma_run_is(s, a, Class::Scope);
    let c = blueprint::run_end(s, b + 1, Class::Field);
    lemma_run_is(s, b + 1, Class::Field);
    let d = blueprint::run_end(s, c, Class::Space);
    lemma_run_is(s, c, Class::Space);
    let before = s.subrange(i + 2, a);
    let key = s.subrange(a, c);
    let after = s.subrange(c, d);
    assert(dotted_at(key, b - a)) by {
        assert forall|j: int| 0 <= j < b - a implies 'a' <= #[trigger] key[j] <= 'z' by {
            assert(blueprint::in_class(s[a + j], Class::Scope));
        }
        assert forall|j: int| b - a < j < key.len() implies name_char(#[trigger] key[j]) by {
            assert(blueprint::in_class(s[a + j], Class::Field));
        }
    }
    assert(s.subrange(i, i + mark(before, key, after).len()) =~= mark(before, key, after));
    assert(stands(s, i, before, key, after));
}

proof fn lemma_run_shift(s: Seq<char>, by: int, i: int, class: Class)
    requires
        0 <= by,
        0 <= i,
        by + i <= s.len(),
    ensures
        blueprint::run_end(s.skip(by), i, class) == blueprint::run_end(s, by + i, class) - by,
    decreases s.len() - i,
{
    if by + i < s.len() {
        assert(s.skip(by)[i] == s[by + i]);
        lemma_run_shift(s, by, i + 1, class);
    }
}

proof fn lemma_placeholder_shift(s: Seq<char>, by: int, i: int)
    requires
        0 <= by,
        0 <= i,
        by + i <= s.len(),
    ensures
        match blueprint::placeholder(s, by + i) {
            Some((key, end)) => blueprint::placeholder(s.skip(by), i) == Some((key, end - by)),
            None => blueprint::placeholder(s.skip(by), i) is None,
        },
{
    let t = s.skip(by);
    if by + i + 1 < s.len() && s[by + i] == '$' && s[by + i + 1] == '{' {
        assert(t[i] == '$' && t[i + 1] == '{');
        lemma_run_shift(s, by, i + 2, Class::Space);
        lemma_run_is(s, by + i + 2, Class::Space);
        let a = blueprint::run_end(s, by + i + 2, Class::Space);
        lemma_run_shift(s, by, a - by, Class::Scope);
        lemma_run_is(s, a, Class::Scope);
        let b = blueprint::run_end(s, a, Class::Scope);
        if b < s.len() {
            lemma_run_shift(s, by, b + 1 - by, Class::Field);
            lemma_run_is(s, b + 1, Class::Field);
            let c = blueprint::run_end(s, b + 1, Class::Field);
            lemma_run_shift(s, by, c - by, Class::Space);
            lemma_run_is(s, c, Class::Space);
            assert(t.subrange(a - by, c - by) =~= s.subrange(a, c));
        }
    }
}

proof fn lemma_replaced_shift(s: Seq<char>, by: int, i: int, ctx: Values, quote: bool)
    requires
        0 <= by,
        0 <= i,
        by + i <= s.len(),
    ensures
        blueprint::replaced(s.skip(by), i, ctx, quote) == blueprint::replaced(
            s,
            by + i,
            ctx,
            quote,
        ),
        blueprint::references(s.skip(by), i) == blueprint::references(s, by + i),
    decreases s.len() - i,
{
    if by + i < s.len() {
        lemma_placeholder_shift(s, by, i);
        blueprint::lemma_placeholder(s, by + i);
        match blueprint::placeholder(s, by + i) {
            Some((key, end)) => {
                lemma_replaced_shift(s, by, end - by, ctx, quote);
            },
            None => {
                lemma_replaced_shift(s, by, i + 1, ctx, quote);
                assert(s.skip(by)[i] == s[by + i]);
            },
        }
    }
}

proof fn lemma_kept(s: Seq<char>, i: int, to: int, ctx: Values, quote: bool)
    requires
        0 <= i <= to <= s.len(),
        forall|j: int| i <= j < to ==> !#[trigger] starts_at(s, j),
    ensures
        blueprint::replaced(s, i, ctx, quote) == s.subrange(i, to) + blueprint::replaced(
            s,
            to,
            ctx,
            quote,
        ),
        blueprint::references(s, i) == blueprint::references(s, to),
    decreases to - i,
{
    if i < to {
        assert(!starts_at(s, i));
        if blueprint::placeholder(s, i) is Some {
            lemma_found_stands(s, i);
        }
        lemma_kept(s, i + 1, to, ctx, quote);
        assert(blueprint::replaced(s, i, ctx, quote) =~= seq![s[i]] + blueprint::replaced(
            s,
            i + 1,
            ctx,
            quote,
        ));
        assert(s.subrange(i, to) =~= seq![s[i]] + s.subrange(i + 1, to));
        assert(s.subrange(i, to) + blueprint::replaced(s, to, ctx, quote) =~= seq![s[i]] + (
        s.subrange(i + 1, to) + blueprint::replaced(s, to, ctx, quote)));
    } else {
        assert(s.subrange(i, to) + blueprint::replaced(s, to, ctx, quote) =~= blueprint::replaced(
            s,
            to,
            ctx,
            quote,
        ));
    }
}

/// Text outside placeholders is kept: where no placeholder starts in the front of
/// a template, the whole renders to that front, character for character, and what
/// the rest renders to; and it is refused where the rest is, for the same reason.
pub proof fn law_text_outside_placeholders_is_kept(
    front: Seq<char>,
    rest: Seq<char>,
    ctx: Values,
    quote: bool,
    whole: Result<String, RenderError>,
    tail: Result<String, RenderError>,
)
    requires
        forall|i: int| 0 <= i < front.len() ==> !#[trigger] starts_at(front + rest, i),
        blueprint::is_rendered(front + rest, ctx, quote, whole),
        blueprint::is_rendered(rest, ctx, quote, tail),
    ensures
        match tail {
            Ok(t) => whole matches Ok(w) && w@ == front + t@,
            Err(e) => whole matches Err(f) && same_refusal(e, f),
        },
{
    let s = front + rest;
    let n = front.len() as int;
    lemma_kept(s, 0, n, ctx, quote);
    lemma_replaced_shift(s, n, 0, ctx, quote);
    assert(s.skip(n) =~= rest);
    assert(s.subrange(0, n) =~= front);
}

/// A template in which no dollar stands before a brace renders to itself.
pub proof fn law_plain_template_renders_to_itself(
    s: Seq<char>,
    ctx: Values,
    quote: bool,
    r: Result<String, RenderError>,
)
    requires
        forall|i: int| 0 <= i < s.len() - 1 ==> !(#[trigger] s[i] == '$' && s[i + 1] == '{'),
        blueprint::is_rendered(s, ctx, quote, r),
    ensures
        r matches Ok(t) && t@ == s,
{
    assert forall|i: int| 0 <= i < s.len() implies !#[trigger] starts_at(s, i) by {
        if starts_at(s, i) {
            let (b, k, a) = choose|b: Seq<char>, k: Seq<char>, a: Seq<char>| stands(s, i, b, k, a);
            let m = mark(b, k, a);
            assert(m[0] == '$' && m[1] == '{');
            assert(s.subrange(i, i + m.len())[0] == s[i]);
            assert(s.subrange(i, i + m.len())[1] == s[i + 1]);
        }
    }
    lemma_kept(s, 0, s.len() as int, ctx, quote);
    assert(s.subrange(0, s.len() as int) =~= s);
    assert(blueprint::replaced(s, s.len() as int, ctx, quote) =~= Seq::<char>::empty());
    assert(s + Seq::<char>::empty() =~= s);
    assert(blueprint::references(s, s.len() as int) =~= Seq::<Seq<char>>::empty());
}

proof fn lemma_mark_then_rest(
    before: Seq<char>,
    key: Seq<char>,
    after: Seq<char>,
    rest: Seq<char>,
    ctx: Values,
    quote: bool,
)
    requires
        blank(before),
        blank(after),
        is_key(key),
    ensures
        blueprint::replaced(mark(before, key, after) + rest, 0, ctx, quote)
            == blueprint::replacement(ctx, key, quote) + blueprint::replaced(rest, 0, ctx, quote),
        blueprint::references(mark(before, key, after) + rest, 0) == seq![key]
            + blueprint::references(rest, 0),
{
    let m = mark(before, key, after);
    let s = m + rest;
    assert(s.subrange(0, m.len() as int) =~= m);
    lemma_standing_is_found(s, 0, before, key, after);
    lemma_replaced_shift(s, m.len() as int, 0, ctx, quote);
    assert(s.skip(m.len() as int) =~= rest);
}

/// A placeholder of a known key is replaced by the last value under it, whatever
/// white space stands in it and whatever stands behind it: quoted where the
/// template is a command and the value the user's, and as it is elsewhere. The rest
/// of the template renders as it would alone, and is refused as it would be.
pub proof fn law_placeholder_is_replaced(
    before: Seq<char>,
    key: Seq<char>,
    after: Seq<char>,
    rest: Seq<char>,
    ctx: Values,
    quote: bool,
    at: int,
    whole: Result<String, RenderError>,
    tail: Result<String, RenderError>,
)
    requires
        blank(before),
        blank(after),
        is_key(key),
        known_at(ctx.values, key, at),
        blueprint::is_rendered(mark(before, key, after) + rest, ctx, quote, whole),
        blueprint::is_rendered(rest, ctx, quote, tail),
    ensures
        match tail {
            Ok(t) => whole matches Ok(w) && w@ == (if quote && (text::begins_with(key, "input."@)
                || key == "workspace.name"@) {
                blueprint::quoted(ctx.values[at].1)
            } else {
                ctx.values[at].1
            }) + t@,
            Err(e) => whole matches Err(f) && same_refusal(e, f),
        },
{
    lemma_mark_then_rest(before, key, after, rest, ctx, quote);
    lemma_known(ctx.values, key, at);
    let keys = seq![key] + blueprint::references(rest, 0);
    assert(keys.drop_first() =~= blueprint::references(rest, 0));
}

/// A placeholder without a value is refused: one of a secret input before all
/// else, one of no known key unless a secret input is asked for further on.
pub proof fn law_placeholder_without_value_is_refused(
    before: Seq<char>,
    key: Seq<char>,
    after: Seq<char>,
    rest: Seq<char>,
    ctx: Values,
    quote: bool,
    whole: Result<String, RenderError>,
    tail: Result<String, RenderError>,
)
    requires
        blank(before),
        blank(after),
        is_key(key),
        unknown(ctx.values, key),
        blueprint::is_rendered(mark(before, key, after) + rest, ctx, quote, whole),
        blueprint::is_rendered(rest, ctx, quote, tail),
    ensures
        ctx.secrets.contains(key) ==> (whole matches Err(RenderError::Secret { key: k }) && k@
            == key),
        !ctx.secrets.contains(key) ==> match tail {
            Err(RenderError::Secret { key: l }) => whole matches Err(RenderError::Secret { key: k })
                && k@ == l@,
            _ => whole matches Err(RenderError::Unknown { key: k }) && k@ == key,
        },
{
    lemma_mark_then_rest(before, key, after, rest, ctx, quote);
    lemma_unknown(ctx.values, key);
    let keys = seq![key] + blueprint::references(rest, 0);
    assert(keys.drop_first() =~= blueprint::references(rest, 0));
}

/// Whether a character means something to a shell, outside quotes.
pub open spec fn acts(c: char) -> bool {
    ||| text::is_space(c)
    ||| c == '\'' || c == '"' || c == '\\' || c == '`' || c == '$'
    ||| c == ';' || c == '&' || c == '|' || c == '<' || c == '>' || c == '(' || c == ')'
    ||| c == '*' || c == '?' || c == '[' || c == ']' || c == '{' || c == '}'
    ||| c == '!' || c == '#' || c == '~' || c == '^'
}

/// The one word that a shell reads in a text, from a place within single quotes or
/// without: none where a character acts, or a quote is left open.
pub open spec fn shell_word(s: Seq<char>, within: bool) -> Option<Seq<char>>
    decreases s.len(),
{
    if s.len() == 0 {
        if within {
            None
        } else {
            Some(Seq::empty())
        }
    } else if s[0] == '\'' {
        shell_word(s.skip(1), !within)
    } else if !within && s[0] == '\\' && s.len() > 1 {
        match shell_word(s.skip(2), within) {
            Some(w) => Some(seq![s[1]] + w),
            None => None,
        }
    } else if within || !acts(s[0]) {
        match shell_word(s.skip(1), within) {
            Some(w) => Some(seq![s[0]] + w),
            None => None,
        }
    } else {
        None
    }
}

proof fn lemma_quoted_reads_back(v: Seq<char>)
    ensures
        shell_word(blueprint::in_quotes(v) + seq!['\''], true) == Some(v),
    decreases v.len(),
{
    let end = seq!['\''];
    let s = blueprint::in_quotes(v) + end;
    if v.len() == 0 {
        assert(s =~= end);
        assert(s.skip(1) =~= Seq::<char>::empty());
        assert(v =~= Seq::<char>::empty());
    } else {
        let rest = v.drop_first();
        lemma_quoted_reads_back(rest);
        let tail = blueprint::in_quotes(rest) + end;
        assert(v =~= seq![v[0]] + rest);
        if v[0] == '\'' {
            assert(s =~= seq!['\'', '\\', '\'', '\''] + tail);
            assert(s.skip(1) =~= seq!['\\', '\'', '\''] + tail);
            assert(s.skip(1).skip(2) =~= seq!['\''] + tail);
            assert(s.skip(1).skip(2).skip(1) =~= tail);
            assert(shell_word(s.skip(1).skip(2), false) == Some(rest));
            assert(s.skip(1)[0] == '\\' && s.skip(1)[1] == '\'');
            assert(shell_word(s.skip(1), false) == Some(seq!['\''] + rest));
        } else {
            assert(s =~= seq![v[0]] + tail);
            assert(s.skip(1) =~= tail);
        }
    }
}

proof fn lemma_bare_word(v: Seq<char>)
    requires
        forall|i: int| 0 <= i < v.len() ==> !acts(#[trigger] v[i]),
    ensures
        shell_word(v, false) == Some(v),
    decreases v.len(),
{
    if v.len() == 0 {
        assert(v =~= Seq::<char>::empty());
    } else {
        let rest = v.skip(1);
        assert forall|i: int| 0 <= i < rest.len() implies !acts(#[trigger] rest[i]) by {
            assert(rest[i] == v[i + 1]);
        }
        lemma_bare_word(rest);
        assert(!acts(v[0]));
        assert(v =~= seq![v[0]] + rest);
    }
}

/// What a value is quoted to is one word to a shell, and that word is the value; a
/// value of letters, digits and `-_.,:/@=+%` alone stays as it is.
pub proof fn law_quoting_keeps_the_value(v: Seq<char>)
    ensures
        shell_word(blueprint::quoted(v), false) == Some(v),
        v.len() > 0 && (forall|i: int|
            0 <= i < v.len() ==> name_char(#[trigger] v[i]) || "-.,:/@=+%"@.contains(v[i]))
            ==> blueprint::quoted(v) == v,
{
    reveal_strlit("-.,:/@=+%");
    let safe = "-.,:/@=+%"@;
    assert(safe.len() == 9);
    if v.len() > 0 && (forall|i: int|
        0 <= i < v.len() ==> name_char(#[trigger] v[i]) || safe.contains(v[i])) {
        assert forall|i: int| 0 <= i < v.len() implies blueprint::is_inert(#[trigger] v[i]) by {
            if !name_char(v[i]) {
                let k = choose|k: int| 0 <= k < safe.len() && safe[k] == v[i];
                assert(0 <= k < 9);
            }
        }
    }
    if v.len() > 0 && blueprint::all_inert(v) {
        assert forall|i: int| 0 <= i < v.len() implies !acts(#[trigger] v[i]) by {
            assert(blueprint::is_inert(v[i]));
        }
        lemma_bare_word(v);
    } else {
        lemma_quoted_reads_back(v);
        let inner = blueprint::in_quotes(v) + seq!['\''];
        assert(blueprint::quoted(v) =~= seq!['\''] + inner);
        assert(blueprint::quoted(v).skip(1) =~= inner);
    }
}

proof fn lemma_shown(vars: Seq<BlueprintInput>, values: Seq<Seq<char>>, i: int) -> (at: int)
    requires
        0 <= i < vars.len(),
        vars[i].user_viewable,
        forall|j: int|
            i < j < vars.len() && (#[trigger] vars[j]).user_viewable ==> vars[j].env_var@
                != vars[i].env_var@,
    ensures
        known_at(blueprint::shown_inputs(vars, values), "input."@ + vars[i].env_var@, at),
        blueprint::shown_inputs(vars, values)[at].1 == values[i],
    decreases vars.len(),
{
    let less = vars.drop_last();
    let before = blueprint::shown_inputs(less, values);
    let all = blueprint::shown_inputs(vars, values);
    let key = "input."@ + vars[i].env_var@;
    if i == vars.len() - 1 {
        assert(known_at(all, key, before.len() as int));
        before.len() as int
    } else {
        assert(less[i] == vars[i]);
        assert forall|j: int|
            i < j < less.len() && (#[trigger] less[j]).user_viewable implies less[j].env_var@
            != less[i].env_var@ by {
            assert(vars[j] == less[j]);
        }
        let at = lemma_shown(less, values, i);
        let last = vars[vars.len() - 1];
        if last.user_viewable {
            let p = "input."@.len() as int;
            if "input."@ + last.env_var@ == key {
                assert(("input."@ + last.env_var@).skip(p) =~= last.env_var@);
                assert(key.skip(p) =~= vars[i].env_var@);
            }
            assert(all[at] == before[at]);
            assert forall|j: int| at < j < all.len() implies (#[trigger] all[j]).0 != key by {
                if j < before.len() {
                    assert(all[j] == before[j]);
                }
            }
        }
        at
    }
}

proof fn lemma_hidden(vars: Seq<BlueprintInput>, i: int)
    requires
        0 <= i < vars.len(),
        !vars[i].user_viewable,
    ensures
        blueprint::hidden_inputs(vars).contains("input."@ + vars[i].env_var@),
    decreases vars.len(),
{
    let before = blueprint::hidden_inputs(vars.drop_last());
    let key = "input."@ + vars[i].env_var@;
    if i < vars.len() - 1 {
        assert(vars.drop_last()[i] == vars[i]);
        lemma_hidden(vars.drop_last(), i);
        let k = choose|k: int| 0 <= k < before.len() && before[k] == key;
        assert(blueprint::hidden_inputs(vars)[k] == key);
    } else {
        assert(blueprint::hidden_inputs(vars)[before.len() as int] == key);
    }
}

proof fn lemma_only_shown(vars: Seq<BlueprintInput>, values: Seq<Seq<char>>, k: int) -> (i: int)
    requires
        0 <= k < blueprint::shown_inputs(vars, values).len(),
    ensures
        0 <= i < vars.len(),
        vars[i].user_viewable,
        blueprint::shown_inputs(vars, values)[k] == ("input."@ + vars[i].env_var@, values[i]),
    decreases vars.len(),
{
    let before = blueprint::shown_inputs(vars.drop_last(), values);
    if k < before.len() {
        let i = lemma_only_shown(vars.drop_last(), values, k);
        assert(vars.drop_last()[i] == vars[i]);
        i
    } else {
        vars.len() - 1
    }
}

/// Templates know an input that users may see by the value it was given, the last
/// of a name taking precedence.
pub proof fn law_seen_input_is_known(
    vars: Seq<BlueprintInput>,
    values: Seq<Seq<char>>,
    server: Server,
    dir: Seq<char>,
    i: int,
) -> (at: int)
    requires
        0 <= i < vars.len(),
        vars[i].user_viewable,
        forall|j: int|
            i < j < vars.len() && (#[trigger] vars[j]).user_viewable ==> vars[j].env_var@
                != vars[i].env_var@,
    ensures
        known_at(
            blueprint::context_of(vars, values, server, dir).values,
            "input."@ + vars[i].env_var@,
            at,
        ),
        blueprint::context_of(vars, values, server, dir).values[at].1 == values[i],
{
    let at = lemma_shown(vars, values, i);
    let key = "input."@ + vars[i].env_var@;
    let shown = blueprint::shown_inputs(vars, values);
    let own = blueprint::workspace_values(server, dir);
    lemma_workspace_keys(server, dir);
    reveal_strlit("input.");
    let all = blueprint::context_of(vars, values, server, dir).values;
    assert(all[at] == shown[at]);
    assert forall|j: int| at < j < all.len() implies (#[trigger] all[j]).0 != key by {
        if j < shown.len() {
            assert(all[j] == shown[j]);
        } else {
            assert(all[j] == own[j - shown.len()]);
            assert(own[j - shown.len()].0[0] == 'w');
            assert(key[0] == 'i');
        }
    }
    at
}

proof fn lemma_workspace_keys(server: Server, dir: Seq<char>)
    ensures
        forall|j: int|
            0 <= j < blueprint::workspace_values(server, dir).len() ==> (
            #[trigger] blueprint::workspace_values(server, dir)[j]).0.len() > 0
                && blueprint::workspace_values(server, dir)[j].0[0] == 'w',
{
    reveal_strlit("workspace.name");
    reveal_strlit("workspace.uuid");
    reveal_strlit("workspace.memory_mb");
    reveal_strlit("workspace.disk_mb");
    reveal_strlit("workspace.cpu_percent");
    reveal_strlit("workspace.port");
    reveal_strlit("workspace.dir");
}

/// Templates know nothing of an input that users must not see: no value that they
/// know stands under its key, and the key is kept as that of a secret.
pub proof fn law_hidden_input_is_kept_out(
    vars: Seq<BlueprintInput>,
    values: Seq<Seq<char>>,
    server: Server,
    dir: Seq<char>,
    i: int,
)
    requires
        0 <= i < vars.len(),
        forall|j: int|
            0 <= j < vars.len() && (#[trigger] vars[j]).env_var@ == vars[i].env_var@
                ==> !vars[j].user_viewable,
    ensures
        unknown(
            blueprint::context_of(vars, values, server, dir).values,
            "input."@ + vars[i].env_var@,
        ),
        blueprint::context_of(vars, values, server, dir).secrets.contains(
            "input."@ + vars[i].env_var@,
        ),
{
    let key = "input."@ + vars[i].env_var@;
    let shown = blueprint::shown_inputs(vars, values);
    let own = blueprint::workspace_values(server, dir);
    let all = blueprint::context_of(vars, values, server, dir).values;
    assert(vars[i].env_var@ == vars[i].env_var@);
    lemma_hidden(vars, i);
    lemma_workspace_keys(server, dir);
    reveal_strlit("input.");
    assert forall|j: int| 0 <= j < all.len() implies (#[trigger] all[j]).0 != key by {
        if j < shown.len() {
            assert(all[j] == shown[j]);
            let k = lemma_only_shown(vars, values, j);
            assert(("input."@ + vars[k].env_var@).skip(6) =~= vars[k].env_var@);
            assert(key.skip(6) =~= vars[i].env_var@);
        } else {
            assert(all[j] == own[j - shown.len()]);
            assert(key[0] == 'i');
        }
    }
}

/// Templates know a workspace by its name, uuid, limits, port and directory, and no
/// input can stand in for them.
pub proof fn law_workspace_is_known(
    vars: Seq<BlueprintInput>,
    values: Seq<Seq<char>>,
    server: Server,
    dir: Seq<char>,
)
    ensures
        ({
            let known = blueprint::context_of(vars, values, server, dir).values;
            &&& blueprint::last_value(known, "workspace.name"@) == Some(server.name@)
            &&& blueprint::last_value(known, "workspace.uuid"@) == Some(server.uuid@)
            &&& blueprint::last_value(known, "workspace.memory_mb"@) == Some(
                text::decimal(server.memory_mb as int),
            )
            &&& blueprint::last_value(known, "workspace.disk_mb"@) == Some(
                text::decimal(server.disk_mb as int),
            )
            &&& blueprint::last_value(known, "workspace.cpu_percent"@) == Some(
                text::decimal(server.cpu_percent as int),
            )
            &&& blueprint::last_value(known, "workspace.port"@) == Some(
                match server.port {
                    Some(p) => text::decimal(p as int),
                    None => Seq::empty(),
                },
            )
            &&& blueprint::last_value(known, "workspace.dir"@) == Some(dir)
        }),
{
    reveal_strlit("workspace.name");
    reveal_strlit("workspace.uuid");
    reveal_strlit("workspace.memory_mb");
    reveal_strlit("workspace.disk_mb");
    reveal_strlit("workspace.cpu_percent");
    reveal_strlit("workspace.port");
    reveal_strlit("workspace.dir");
    let known = blueprint::context_of(vars, values, server, dir).values;
    let n = blueprint::shown_inputs(vars, values).len() as int;
    let own = blueprint::workspace_values(server, dir);
    assert forall|j: int| 0 <= j < 7 implies known[n + j] == #[trigger] own[j] by {}
    assert forall|j: int, k: int| 0 <= j < k < 7 implies #[trigger] own[j].0 != #[trigger] own[k].0 by {
        assert(own[j].0.len() != own[k].0.len() || own[j].0[10] != own[k].0[10]);
    }
    assert forall|j: int| 0 <= j < 7 implies known_at(known, #[trigger] own[j].0, n + j) by {
        assert(known[n + j] == own[j]);
        assert forall|k: int| n + j < k < known.len() implies (#[trigger] known[k]).0 != own[j].0 by {
            assert(known[n + (k - n)] == own[k - n]);
        }
    }
    lemma_known(known, own[0].0, n);
    lemma_known(known, own[1].0, n + 1);
    lemma_known(known, own[2].0, n + 2);
    lemma_known(known, own[3].0, n + 3);
    lemma_known(known, own[4].0, n + 4);
    lemma_known(known, own[5].0, n + 5);
    lemma_known(known, own[6].0, n + 6);
}

} // verus!
