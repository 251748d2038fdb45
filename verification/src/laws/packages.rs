//! What documents are as text, what a blueprint's revisions keep, and which
//! packages are trusted.
use crate::digest;
use crate::json;
use crate::json::Doc;
use crate::laws::texts;
use crate::laws::vault;
use crate::models::Blueprint;
use crate::order;
use crate::order::Ranked;
use crate::paths;
use crate::services::registry;
use crate::services::registry::{PackageError, ProvenanceFile, RegistryPackageMeta};
use crate::services::revisions;
use crate::services::revisions::{History, PinnedServer, Revision};
use crate::text;
use vstd::prelude::*;
use vstd::string::*;

verus! {

/// A quotation mark, a backslash and a control character are escaped in a string,
/// and every other character stands for itself.
pub proof fn law_strings_are_escaped(s: Seq<char>, c: char)
    ensures
        json::escaped(Seq::empty()) == Seq::<char>::empty(),
        c == '"' ==> json::escaped(s + seq![c]) == json::escaped(s) + seq!['\\', '"'],
        c == '\\' ==> json::escaped(s + seq![c]) == json::escaped(s) + seq!['\\', '\\'],
        c == '\n' ==> json::escaped(s + seq![c]) == json::escaped(s) + seq!['\\', 'n'],
        c == '\r' ==> json::escaped(s + seq![c]) == json::escaped(s) + seq!['\\', 'r'],
        c == '\t' ==> json::escaped(s + seq![c]) == json::escaped(s) + seq!['\\', 't'],
        c == '\u{8}' ==> json::escaped(s + seq![c]) == json::escaped(s) + seq!['\\', 'b'],
        c == '\u{c}' ==> json::escaped(s + seq![c]) == json::escaped(s) + seq!['\\', 'f'],
        c == '\u{0}' ==> json::escaped(s + seq![c]) == json::escaped(s) + seq![
            '\\',
            'u',
            '0',
            '0',
            '0',
            '0',
        ],
        c == '\u{1b}' ==> json::escaped(s + seq![c]) == json::escaped(s) + seq![
            '\\',
            'u',
            '0',
            '0',
            '1',
            'b',
        ],
        c >= ' ' && c != '"' && c != '\\' ==> json::escaped(s + seq![c]) == json::escaped(s) + seq![c],
{
    assert((s + seq![c]).drop_last() =~= s);
    assert((s + seq![c]).last() == c);
    if c == '\u{0}' {
        assert(json::escaped_char(c) =~= seq!['\\', 'u', '0', '0', '0', '0']);
    }
    if c == '\u{1b}' {
        assert(json::escaped_char(c) =~= seq!['\\', 'u', '0', '0', '1', 'b']);
    }
}

/// The digits of a small number tell it.
proof fn lemma_digits_tell(a: int, b: int)
    requires
        0 <= a < 16,
        0 <= b < 16,
        digest::hex_digit(a) == digest::hex_digit(b),
    ensures
        a == b,
{
    assert((48 + a) as u8 as char as int == 48 + a);
    assert((48 + b) as u8 as char as int == 48 + b);
    assert((87 + a) as u8 as char as int == 87 + a);
    assert((87 + b) as u8 as char as int == 87 + b);
}

/// What a string begins with tells its first character.
proof fn lemma_escape_tells(c: char, d: char, x: Seq<char>, y: Seq<char>)
    requires
        json::escaped_char(c) + x == json::escaped_char(d) + y,
    ensures
        c == d,
        x == y,
{
    let ec = json::escaped_char(c);
    let ed = json::escaped_char(d);
    let s = ec + x;
    assert(s == ed + y);
    assert(s[0] == ec[0] && s[0] == ed[0]);
    if ec[0] == '\\' {
        assert(s[1] == ec[1] && s[1] == ed[1]);
        if ec[1] == 'u' {
            assert(s[4] == ec[4] && s[4] == ed[4]);
            assert(s[5] == ec[5] && s[5] == ed[5]);
            lemma_digits_tell(c as int / 16, d as int / 16);
            lemma_digits_tell(c as int % 16, d as int % 16);
        }
    }
    assert(ec.len() == ed.len());
    assert(x =~= s.skip(ec.len() as int));
    assert(y =~= s.skip(ed.len() as int));
}

/// A string begins with its first character.
proof fn lemma_escaped_front(s: Seq<char>)
    requires
        s.len() > 0,
    ensures
        json::escaped(s) == json::escaped_char(s[0]) + json::escaped(s.drop_first()),
    decreases s.len(),
{
    if s.len() == 1 {
        assert(s.drop_last() =~= Seq::<char>::empty());
        assert(s.drop_first() =~= Seq::<char>::empty());
        assert(json::escaped(s) =~= json::escaped_char(s[0]) + json::escaped(s.drop_first()));
    } else {
        let d = s.drop_last();
        lemma_escaped_front(d);
        assert(d.drop_first() =~= s.drop_first().drop_last());
        assert(s.drop_first().last() == s.last());
        assert(json::escaped(s) =~= json::escaped_char(s[0]) + json::escaped(s.drop_first()));
    }
}

/// Different texts are different strings.
pub proof fn law_strings_tell_texts_apart(a: Seq<char>, b: Seq<char>)
    ensures
        json::string_text(a) == json::string_text(b) <==> a == b,
        json::equal(Doc::Text(a), Doc::Text(b)) <==> a == b,
{
    if json::string_text(a) == json::string_text(b) {
        let ea = json::escaped(a);
        let eb = json::escaped(b);
        let s = json::string_text(a);
        assert(s.len() == ea.len() + 2);
        assert(s.len() == eb.len() + 2);
        assert(ea =~= s.subrange(1, s.len() - 1));
        assert(eb =~= s.subrange(1, s.len() - 1));
        lemma_escaped_tells(a, b);
    }
}

/// Different texts are escaped differently.
proof fn lemma_escaped_tells(a: Seq<char>, b: Seq<char>)
    requires
        json::escaped(a) == json::escaped(b),
    ensures
        a == b,
    decreases a.len(),
{
    if a.len() == 0 {
        if b.len() > 0 {
            lemma_escaped_front(b);
        }
        assert(a =~= b);
    } else {
        lemma_escaped_front(a);
        if b.len() == 0 {
            assert(false);
        }
        lemma_escaped_front(b);
        lemma_escape_tells(
            a[0],
            b[0],
            json::escaped(a.drop_first()),
            json::escaped(b.drop_first()),
        );
        lemma_escaped_tells(a.drop_first(), b.drop_first());
        assert(a =~= seq![a[0]] + a.drop_first());
        assert(b =~= seq![b[0]] + b.drop_first());
    }
}

/// A value is written as its kind asks for, and a list with its values in order.
pub proof fn law_values_are_written(t: Seq<char>, first: Doc, second: Doc)
    ensures
        json::canonical(Doc::Null) == seq!['n', 'u', 'l', 'l'],
        json::canonical(Doc::Bool(true)) == seq!['t', 'r', 'u', 'e'],
        json::canonical(Doc::Bool(false)) == seq!['f', 'a', 'l', 's', 'e'],
        json::canonical(Doc::Number(t)) == t,
        json::canonical(Doc::Text(t)) == seq!['"'] + json::escaped(t) + seq!['"'],
        json::canonical(Doc::Array(Seq::empty())) == seq!['[', ']'],
        json::canonical(Doc::Array(seq![first])) == seq!['['] + json::canonical(first) + seq![']'],
        json::canonical(Doc::Array(seq![first, second])) == seq!['['] + json::canonical(first)
            + seq![','] + json::canonical(second) + seq![']'],
{
    reveal_strlit("null");
    reveal_strlit("true");
    reveal_strlit("false");
    assert("null"@ =~= seq!['n', 'u', 'l', 'l']);
    assert("true"@ =~= seq!['t', 'r', 'u', 'e']);
    assert("false"@ =~= seq!['f', 'a', 'l', 's', 'e']);
    let none = Seq::<Doc>::empty();
    let one = seq![first];
    let two = seq![first, second];
    let c0 = Seq::<Seq<char>>::empty();
    let c1 = seq![json::canonical(first)];
    let c2 = seq![json::canonical(first), json::canonical(second)];
    assert(json::canonical_items(none) =~= c0);
    assert(one.drop_last() =~= none);
    assert(json::canonical_items(one) =~= c1);
    assert(two.drop_last() =~= one);
    assert(json::canonical_items(two) =~= c2);
    assert(c2.drop_last() =~= c1);
    assert(text::joined(c1, seq![',']) == json::canonical(first));
    assert(text::joined(c2, seq![',']) == text::joined(c1, seq![',']) + seq![',']
        + json::canonical(second));
    assert(json::canonical(Doc::Array(none)) =~= seq!['[', ']']);
    assert(json::canonical(Doc::Array(two)) =~= seq!['['] + json::canonical(first) + seq![',']
        + json::canonical(second) + seq![']']);
}

/// The members of an object are written by the order of their keys, whatever order
/// they are in.
pub proof fn law_members_are_written_in_order(k: Seq<char>, a: Doc, l: Seq<char>, b: Doc)
    requires
        text::lex_le(k, l),
        k != l,
    ensures
        json::canonical(Doc::Object(seq![(k, a), (l, b)])) == seq!['{', '"'] + json::escaped(k)
            + seq!['"', ':'] + json::canonical(a) + seq![',', '"'] + json::escaped(l) + seq!['"', ':']
            + json::canonical(b) + seq!['}'],
        json::canonical(Doc::Object(seq![(l, b), (k, a)])) == json::canonical(
            Doc::Object(seq![(k, a), (l, b)]),
        ),
{
    let ka = (k, json::canonical(a));
    let lb = (l, json::canonical(b));
    lemma_two_members(k, a, l, b);
    lemma_two_members(l, b, k, a);
    let s = seq![ka, lb];
    let t = seq![lb, ka];
    lemma_two_sorted(ka, lb);
    let x = json::entry_text(ka);
    let y = json::entry_text(lb);
    let es = seq![x, y];
    assert(json::by_key(s).map_values(|e: (Seq<char>, Seq<char>)| json::entry_text(e)) =~= es);
    assert(es.drop_last() =~= seq![x]);
    assert(text::joined(seq![x], seq![',']) == x);
    assert(text::joined(es, seq![',']) == x + seq![','] + y);
    assert(json::object_text(s) == seq!['{'] + (x + seq![','] + y) + seq!['}']);
    assert(seq!['{'] + (x + seq![','] + y) + seq!['}'] =~= seq!['{', '"'] + json::escaped(k)
        + seq!['"', ':'] + json::canonical(a) + seq![',', '"'] + json::escaped(l) + seq!['"', ':']
        + json::canonical(b) + seq!['}']);
    assert(json::object_text(t) == json::object_text(s));
}

/// The members of an object of two.
proof fn lemma_two_members(k: Seq<char>, a: Doc, l: Seq<char>, b: Doc)
    ensures
        json::canonical_members(seq![(k, a), (l, b)]) == seq![
            (k, json::canonical(a)),
            (l, json::canonical(b)),
        ],
{
    let none = Seq::<(Seq<char>, Doc)>::empty();
    let one = seq![(k, a)];
    let two = seq![(k, a), (l, b)];
    assert(one.drop_last() =~= none);
    assert(two.drop_last() =~= one);
    assert(json::canonical_members(none) =~= Seq::<(Seq<char>, Seq<char>)>::empty());
    assert(json::canonical_members(one) =~= seq![(k, json::canonical(a))]);
    assert(json::canonical_members(two) =~= seq![(k, json::canonical(a)), (l, json::canonical(b))]);
}

/// Two entries in the order of their keys.
proof fn lemma_two_sorted(a: (Seq<char>, Seq<char>), b: (Seq<char>, Seq<char>))
    requires
        text::lex_le(a.0, b.0),
        a.0 != b.0,
    ensures
        json::by_key(seq![a, b]) == seq![a, b],
        json::by_key(seq![b, a]) == seq![a, b],
{
    let none = Seq::<(Seq<char>, Seq<char>)>::empty();
    let s = seq![a, b];
    let t = seq![b, a];
    let sa = seq![a];
    let sb = seq![b];
    assert(s.drop_last() =~= sa);
    assert(t.drop_last() =~= sb);
    assert(sa.drop_last() =~= none);
    assert(sb.drop_last() =~= none);
    assert(json::by_key(none) =~= none);
    assert(json::spot(none, a.0) == 0 && json::spot(none, b.0) == 0);
    assert(json::by_key(sa) =~= sa);
    assert(json::by_key(sb) =~= sb);
    assert(json::spot(sa, b.0) == 1);
    assert(json::by_key(s) =~= s);
    lemma_lex_antisymmetric(a.0, b.0);
    assert(!text::lex_le(b.0, a.0));
    assert(json::spot(sb, a.0) == json::spot(none, a.0));
    assert(json::by_key(t) =~= s);
}

/// Of two different texts one comes first.
proof fn lemma_lex_antisymmetric(a: Seq<char>, b: Seq<char>)
    ensures
        text::lex_le(a, b) && text::lex_le(b, a) ==> a == b,
    decreases a.len(),
{
    if a.len() > 0 && b.len() > 0 && a[0] == b[0] {
        lemma_lex_antisymmetric(a.drop_first(), b.drop_first());
        if text::lex_le(a, b) && text::lex_le(b, a) {
            assert(a =~= seq![a[0]] + a.drop_first());
            assert(b =~= seq![b[0]] + b.drop_first());
        }
    } else if a.len() == 0 && b.len() == 0 {
        assert(a =~= b);
    }
}

/// A member is found under its key: the last one that was put there.
pub proof fn law_members_are_found(ms: Seq<(Seq<char>, Doc)>, k: Seq<char>, d: Doc, other: Seq<char>)
    ensures
        json::find(ms.push((k, d)), k) == Some(d),
        other != k ==> json::find(ms.push((k, d)), other) == json::find(ms, other),
        json::find(Seq::empty(), k) is None,
{
    assert(ms.push((k, d)).drop_last() =~= ms);
}

/// A value is the same as itself, and the two ways to write a zero are the same.
pub proof fn law_sameness(d: Doc)
    ensures
        json::equal(d, d),
        json::equal(Doc::Number("-0.0"@), Doc::Number("0.0"@)),
        !json::equal(Doc::Null, Doc::Bool(true)),
        !json::equal(Doc::Bool(true), Doc::Bool(false)),
{
    law_values_are_written(Seq::empty(), d, d);
    assert(seq!['n', 'u', 'l', 'l'][0] != seq!['t', 'r', 'u', 'e'][0]);
    assert(seq!['t', 'r', 'u', 'e'][0] != seq!['f', 'a', 'l', 's', 'e'][0]);
}

/// A revision is found if and only if there is one of its version.
pub proof fn law_revisions_are_found(rs: Seq<Revision>, version: i64)
    ensures
        match revisions::revision_at(rs, version) {
            Some(i) => 0 <= i < rs.len() && rs[i].version == version && forall|j: int|
                i < j < rs.len() ==> (#[trigger] rs[j]).version != version,
            None => forall|j: int| 0 <= j < rs.len() ==> (#[trigger] rs[j]).version != version,
        },
    decreases rs.len(),
{
    if rs.len() > 0 && rs.last().version != version {
        let d = rs.drop_last();
        law_revisions_are_found(d, version);
        assert forall|j: int| 0 <= j < rs.len() - 1 implies d[j] == #[trigger] rs[j] by {}
        match revisions::revision_at(d, version) {
            Some(i) => {
                assert(rs[i] == d[i]);
            },
            None => {
                assert forall|j: int| 0 <= j < rs.len() implies (#[trigger] rs[j]).version
                    != version by {
                    if j < rs.len() - 1 {
                        assert(d[j].version != version);
                    }
                }
            },
        }
    }
}

/// What differs between two contents is told of every field that one of them alone
/// has or that they have differently, and of no other.
pub proof fn law_differences_are_told(keys: Seq<Seq<char>>, a: Doc, b: Doc, k: Seq<char>)
    ensures
        revisions::differing(keys, a, b).contains(k) <==> keys.contains(k) && (match (
            json::member(a, k),
            json::member(b, k),
        ) {
            (None, None) => false,
            (None, Some(_)) => true,
            (Some(_), None) => true,
            (Some(x), Some(y)) => !json::equal(x, y),
        }),
    decreases keys.len(),
{
    let r = revisions::differing(keys, a, b);
    if keys.len() > 0 {
        let d = keys.drop_last();
        let before = revisions::differing(d, a, b);
        law_differences_are_told(d, a, b, k);
        assert(keys =~= d.push(keys.last()));
        assert(keys.contains(k) <==> d.contains(k) || k == keys.last()) by {
            if d.contains(k) {
                let i = choose|i: int| 0 <= i < d.len() && d[i] == k;
                assert(keys[i] == k);
            }
            if k == keys.last() {
                assert(keys[keys.len() - 1] == k);
            }
            if keys.contains(k) && k != keys.last() {
                let i = choose|i: int| 0 <= i < keys.len() && keys[i] == k;
                assert(d[i] == k);
            }
        }
        if revisions::differ(a, b, keys.last()) {
            assert(r == before.push(keys.last()));
            assert(r.contains(k) <==> before.contains(k) || k == keys.last()) by {
                if before.contains(k) {
                    let i = choose|i: int| 0 <= i < before.len() && before[i] == k;
                    assert(r[i] == k);
                }
                if k == keys.last() {
                    assert(r[r.len() - 1] == k);
                }
                if r.contains(k) && k != keys.last() {
                    let i = choose|i: int| 0 <= i < r.len() && r[i] == k;
                    assert(before[i] == k);
                }
            }
        }
    }
}

/// The fields that are held against each other are the ten of a blueprint.
pub proof fn law_fields_of_a_blueprint()
    ensures
        revisions::drift_keys().len() == 10,
        revisions::drift_keys().contains("name"@) && revisions::drift_keys().contains(
            "description"@,
        ) && revisions::drift_keys().contains("author"@) && revisions::drift_keys().contains(
            "category"@,
        ) && revisions::drift_keys().contains("runtime_hint"@) && revisions::drift_keys().contains(
            "startup"@,
        ) && revisions::drift_keys().contains("stop_command"@) && revisions::drift_keys().contains(
            "default_config"@,
        ) && revisions::drift_keys().contains("install_script"@) && revisions::drift_keys().contains(
            "variables"@,
        ),
{
    let k = revisions::drift_keys();
    assert(k[0] == "name"@ && k[1] == "description"@ && k[2] == "author"@ && k[3] == "category"@);
    assert(k[4] == "runtime_hint"@ && k[5] == "startup"@ && k[6] == "stop_command"@);
    assert(k[7] == "default_config"@ && k[8] == "install_script"@ && k[9] == "variables"@);
}

/// A server has drifted if it is not pinned, or is pinned to a version before the
/// present one that is kept.
pub proof fn law_drifted_servers(h: History, s: PinnedServer)
    ensures
        s.pinned_version == 0 ==> revisions::has_drift(h, s),
        s.pinned_version != 0 && s.pinned_version >= h.version ==> !revisions::has_drift(h, s),
        s.pinned_version != 0 && s.pinned_version < h.version ==> (revisions::has_drift(h, s)
            <==> exists|i: int|
            0 <= i < h.revisions@.len() && (#[trigger] h.revisions@[i]).version
                == s.pinned_version),
{
    law_revisions_are_found(h.revisions@, s.pinned_version);
}

/// A revision keeps the content, its digest and who kept it when and why.
pub proof fn law_revision_keeps_the_content(
    r: Revision,
    version: int,
    content: Doc,
    author: Seq<char>,
    note: Seq<char>,
    at: Seq<char>,
)
    requires
        revisions::keeps(r, version, content, author, note, at),
    ensures
        r.version == version && r.snapshot@ == content && r.author@ == author && r.note@ == note
            && r.created_at@ == at,
        r.digest@ == digest::sha256_hex_of(vstd::utf8::encode_utf8(json::canonical(content))),
{
}

/// A content can be restored if and only if it has every field of a blueprint: texts
/// where they are, texts or nothing where they may be, and the inputs.
pub proof fn law_restorable_contents(d: Doc)
    ensures
        revisions::restorable(d) ==> json::member(d, "name"@) is Some && json::member(
            d,
            "name"@,
        )->0 is Text && json::member(d, "startup"@)->0 is Text && json::member(
            d,
            "stop_command"@,
        )->0 is Text && json::member(d, "variables"@) is Some,
        json::member(d, "variables"@) is None ==> !revisions::restorable(d),
        json::text_member(d, "startup"@) is None ==> !revisions::restorable(d),
        json::member(d, "install_script"@) is None ==> !revisions::restorable(d),
        json::member(d, "default_config"@) is None ==> !revisions::restorable(d),
{
}

/// Two blueprints are alike only where every field that a revision keeps is the
/// same, and every field of every input.
pub proof fn law_alike_blueprints(a: Blueprint, b: Blueprint, i: int)
    requires
        revisions::alike(a, b),
    ensures
        a.name@ == b.name@ && a.description@ == b.description@ && a.author@ == b.author@
            && a.category@ == b.category@ && a.runtime_hint@ == b.runtime_hint@ && a.startup@
            == b.startup@ && a.stop_command@ == b.stop_command@,
        a.default_config is Some <==> b.default_config is Some,
        a.default_config is Some ==> a.default_config->0@ == b.default_config->0@,
        a.install_script is Some <==> b.install_script is Some,
        a.install_script is Some ==> a.install_script->0@ == b.install_script->0@,
        a.variables@.len() == b.variables@.len(),
        0 <= i < a.variables@.len() ==> {
            let x = a.variables@[i];
            let y = b.variables@[i];
            &&& x.name@ == y.name@ && x.description@ == y.description@ && x.env_var@ == y.env_var@
                && x.default_value@ == y.default_value@
            &&& x.user_viewable == y.user_viewable && x.user_editable == y.user_editable
                && x.required == y.required
            &&& x.kind is Text <==> y.kind is Text
            &&& x.kind is Number <==> y.kind is Number
            &&& x.kind is Bool <==> y.kind is Bool
            &&& x.kind is Choice <==> y.kind is Choice
            &&& x.kind is Path <==> y.kind is Path
            &&& x.kind is Choice ==> text::views(x.kind->options@) == text::views(y.kind->options@)
            &&& x.kind is Text ==> x.kind->Text_max_len == y.kind->Text_max_len && (
            x.kind->Text_pattern is Some <==> y.kind->Text_pattern is Some) && (
            x.kind->Text_pattern is Some ==> x.kind->Text_pattern->0@ == y.kind->Text_pattern->0@)
            &&& x.kind is Path ==> x.kind->Path_max_len == y.kind->Path_max_len
        },
{
    if 0 <= i < a.variables@.len() {
        let x = revisions::input_of(a.variables@[i]);
        let y = revisions::input_of(b.variables@[i]);
        assert(x == y);
        assert(x.kind == y.kind);
    }
}

/// A blueprint is alike to itself.
pub proof fn law_blueprint_is_alike_to_itself(a: Blueprint)
    ensures
        revisions::alike(a, a),
{
}

/// A package is trusted as signed if and only if it is an object with a key and a
/// signature of the right lengths in hexadecimal, its key can be read, and the
/// signature holds of all of it but the signature.
pub proof fn law_signed_packages(d: Doc)
    ensures
        registry::verdict(d) is Valid <==> {
            let k = json::text_member(d, "public_key"@);
            let s = json::text_member(d, "signature"@);
            &&& d is Object && k is Some && s is Some
            &&& digest::is_hex(k->0) && k->0.len() == 64
            &&& digest::is_hex(s->0) && s->0.len() == 128
            &&& registry::key_error(digest::hex_bytes(k->0)) is None
            &&& registry::signature_holds(
                digest::hex_bytes(k->0),
                vstd::utf8::encode_utf8(json::canonical(json::removed(d, "signature"@))),
                digest::hex_bytes(s->0),
            )
        },
        registry::verdict(d) is Unsigned <==> d is Object && json::text_member(
            d,
            "signature"@,
        ) is None,
        registry::verdict(d) is NotObject <==> !(d is Object),
{
}

/// A package is admitted if and only if it is not signed or its signature holds; and
/// what is admitted is what came.
pub proof fn law_admitted_packages(d: Doc, r: Result<json::Json, PackageError>)
    requires
        registry::is_admission(d, r),
    ensures
        r is Ok ==> r->Ok_0@ == d,
        json::text_member(d, "signature"@) is None ==> r is Ok,
        json::text_member(d, "signature"@) is Some ==> (r is Ok <==> registry::verdict(d) is Valid),
        json::text_member(d, "signature"@) is Some && registry::verdict(d) is SignatureInvalid
            ==> r == Err::<json::Json, PackageError>(PackageError::SignatureInvalid),
{
}

/// What is published without a key is the document itself. With one it bears the
/// key and a signature, and has every other member that it had.
pub proof fn law_published_packages(ms: Seq<(Seq<char>, Doc)>, seed: Seq<u8>, k: Seq<char>)
    ensures
        registry::published(Doc::Object(ms), None) == Doc::Object(ms),
        ({
            let p = registry::published(Doc::Object(ms), Some(seed));
            &&& json::text_member(p, "public_key"@) == Some(
                digest::hex_text(registry::public_key_of(seed)),
            )
            &&& json::text_member(p, "signature"@) is Some
            &&& k != "public_key"@ && k != "signature"@ ==> json::member(p, k) == json::find(ms, k)
        }),
{
    reveal_strlit("public_key");
    reveal_strlit("signature");
    assert("public_key"@[0] != "signature"@[0]);
    let key = Doc::Text(digest::hex_text(registry::public_key_of(seed)));
    let keyed = json::with_member(ms, "public_key"@, key);
    json::law_put_member_is_found(ms, "public_key"@, key, k);
    json::law_put_member_is_found(ms, "public_key"@, key, "public_key"@);
    let bare = json::without(keyed, "signature"@);
    json::law_removed_member_is_gone(keyed, "signature"@, k);
    json::law_removed_member_is_gone(keyed, "signature"@, "public_key"@);
    let sig = Doc::Text(
        digest::hex_text(registry::signature_of(seed, registry::signed_bytes(Doc::Object(keyed)))),
    );
    json::law_put_member_is_found(bare, "signature"@, sig, k);
    json::law_put_member_is_found(bare, "signature"@, sig, "public_key"@);
}

/// Whether a text is made of letters and digits alone, and there are some.
pub open spec fn is_word(s: Seq<char>) -> bool {
    s.len() > 0 && forall|i: int| 0 <= i < s.len() ==> text::is_alnum(#[trigger] s[i])
}

/// Whether a text holds neither a letter nor a digit.
pub open spec fn wordless(s: Seq<char>) -> bool {
    forall|i: int| 0 <= i < s.len() ==> !text::is_alnum(#[trigger] s[i])
}

/// An identity is made of the words of a name with a hyphen between each two,
/// whatever stands between them; a name without words gets a name of its own.
pub proof fn law_identity_of_a_name(front: Seq<char>, word: Seq<char>, gap: Seq<char>, tail: Seq<char>)
    requires
        wordless(front),
        is_word(word),
        wordless(gap),
        gap.len() > 0,
    ensures
        registry::slug_of(front) == "package"@,
        registry::slug_of(front + word) == word,
        registry::slug_of(front + word + gap) == word,
        is_word(tail) ==> registry::slug_of(front + word + gap + tail) == word + seq!['-'] + tail,
{
    let none = Seq::<Seq<char>>::empty();
    let nil = Seq::<char>::empty();
    lemma_no_pieces(front);
    lemma_one_piece(word);
    lemma_no_pieces(gap);
    lemma_dashed(front, word);
    lemma_dashed(front + word, gap);
    lemma_pieces(front, word);
    assert(none + seq![word] =~= seq![word]);
    lemma_pieces_before(front + word, gap);
    assert(registry::full_pieces(registry::dashed(front)) =~= none);
    assert(text::joined(none, seq!['-']) == nil);
    assert(text::joined(seq![word], seq!['-']) == word);
    if is_word(tail) {
        lemma_one_piece(tail);
        lemma_pieces_apart(front + word, gap, tail);
        let ps = seq![word] + seq![tail];
        assert(ps.drop_last() =~= seq![word]);
        assert(ps.last() == tail);
        assert(text::joined(ps, seq!['-']) == text::joined(seq![word], seq!['-']) + seq!['-'] + tail);
    }
}

/// Dashing goes character by character.
proof fn lemma_dashed(a: Seq<char>, b: Seq<char>)
    ensures
        registry::dashed(a + b) == registry::dashed(a) + registry::dashed(b),
{
    assert(registry::dashed(a + b) =~= registry::dashed(a) + registry::dashed(b));
}

/// A word is its only piece.
proof fn lemma_one_piece(word: Seq<char>)
    requires
        is_word(word),
    ensures
        registry::dashed(word) == word,
        registry::full_pieces(registry::dashed(word)) == seq![word],
{
    assert(registry::dashed(word) =~= word);
    assert forall|i: int| 0 <= i < word.len() implies #[trigger] word[i] != '-' by {
        assert(text::is_alnum(word[i]));
    }
    texts::law_splitting(word, '-', Seq::empty());
    lemma_kept(word);
}

/// A piece with characters is kept, and an empty one is not.
proof fn lemma_kept(p: Seq<char>)
    ensures
        p.len() > 0 ==> seq![p].filter(|q: Seq<char>| q.len() > 0) == seq![p],
        p.len() == 0 ==> seq![p].filter(|q: Seq<char>| q.len() > 0) == Seq::<Seq<char>>::empty(),
{
    reveal_with_fuel(Seq::filter, 3);
    let s = seq![p];
    let none = Seq::<Seq<char>>::empty();
    assert(s.drop_last() =~= none);
    assert(s.last() == p);
    assert(none.filter(|q: Seq<char>| q.len() > 0) =~= none);
    if p.len() > 0 {
        assert(s.filter(|q: Seq<char>| q.len() > 0) =~= seq![p]);
    } else {
        assert(s.filter(|q: Seq<char>| q.len() > 0) =~= none);
    }
}

/// Two texts with a hyphen between have the pieces of both.
proof fn lemma_hyphen(a: Seq<char>, b: Seq<char>)
    ensures
        registry::full_pieces(a + seq!['-'] + b) == registry::full_pieces(a)
            + registry::full_pieces(b),
{
    texts::law_splitting(a, '-', b);
    Seq::filter_distributes_over_add(
        text::split_on(a, '-'),
        text::split_on(b, '-'),
        |p: Seq<char>| p.len() > 0,
    );
}

/// A text without words has no pieces.
proof fn lemma_no_pieces(s: Seq<char>)
    requires
        wordless(s),
    ensures
        registry::full_pieces(registry::dashed(s)) == Seq::<Seq<char>>::empty(),
    decreases s.len(),
{
    let nil = Seq::<char>::empty();
    texts::law_splitting(nil, '-', nil);
    lemma_kept(nil);
    if s.len() == 0 {
        assert(registry::dashed(s) =~= nil);
    } else {
        let d = s.drop_first();
        assert forall|i: int| 0 <= i < d.len() implies !text::is_alnum(#[trigger] d[i]) by {
            assert(d[i] == s[i + 1]);
        }
        lemma_no_pieces(d);
        assert(!text::is_alnum(s[0]));
        assert(registry::dashed(s) =~= nil + seq!['-'] + registry::dashed(d));
        lemma_hyphen(nil, registry::dashed(d));
        assert(registry::full_pieces(nil) =~= Seq::<Seq<char>>::empty());
    }
}

/// What stands before a word without being one changes no pieces.
proof fn lemma_pieces(front: Seq<char>, word: Seq<char>)
    requires
        wordless(front),
    ensures
        registry::full_pieces(registry::dashed(front + word)) == registry::full_pieces(
            registry::dashed(word),
        ),
{
    if front.len() == 0 {
        assert(front + word =~= word);
    } else {
        let a = front.drop_last();
        assert forall|i: int| 0 <= i < a.len() implies !text::is_alnum(#[trigger] a[i]) by {
            assert(a[i] == front[i]);
        }
        lemma_no_pieces(a);
        assert(!text::is_alnum(front[front.len() - 1]));
        assert(registry::dashed(front + word) =~= registry::dashed(a) + seq!['-']
            + registry::dashed(word));
        lemma_hyphen(registry::dashed(a), registry::dashed(word));
        assert(Seq::<Seq<char>>::empty() + registry::full_pieces(registry::dashed(word))
            =~= registry::full_pieces(registry::dashed(word)));
    }
}

/// What stands behind a text without holding a word changes no pieces.
proof fn lemma_pieces_before(a: Seq<char>, gap: Seq<char>)
    requires
        wordless(gap),
        gap.len() > 0,
    ensures
        registry::full_pieces(registry::dashed(a + gap)) == registry::full_pieces(
            registry::dashed(a),
        ),
{
    let d = gap.drop_first();
    assert forall|i: int| 0 <= i < d.len() implies !text::is_alnum(#[trigger] d[i]) by {
        assert(d[i] == gap[i + 1]);
    }
    lemma_no_pieces(d);
    assert(!text::is_alnum(gap[0]));
    assert(registry::dashed(a + gap) =~= registry::dashed(a) + seq!['-'] + registry::dashed(d));
    lemma_hyphen(registry::dashed(a), registry::dashed(d));
    assert(registry::full_pieces(registry::dashed(a)) + Seq::<Seq<char>>::empty()
        =~= registry::full_pieces(registry::dashed(a)));
}

/// A gap keeps the pieces of what stands around it apart.
proof fn lemma_pieces_apart(a: Seq<char>, gap: Seq<char>, b: Seq<char>)
    requires
        wordless(gap),
        gap.len() > 0,
    ensures
        registry::full_pieces(registry::dashed(a + gap + b)) == registry::full_pieces(
            registry::dashed(a),
        ) + registry::full_pieces(registry::dashed(b)),
{
    let d = gap.drop_first();
    assert forall|i: int| 0 <= i < d.len() implies !text::is_alnum(#[trigger] d[i]) by {
        assert(d[i] == gap[i + 1]);
    }
    lemma_pieces(d, b);
    assert(!text::is_alnum(gap[0]));
    assert(registry::dashed(a + gap + b) =~= registry::dashed(a) + seq!['-'] + registry::dashed(
        d + b,
    ));
    lemma_hyphen(registry::dashed(a), registry::dashed(d + b));
}

/// An identity is valid if and only if it is made of small letters, digits and
/// hyphens, and there are some.
pub proof fn law_valid_identities(id: Seq<char>)
    ensures
        registry::valid_id(id) <==> id.len() > 0 && forall|i: int|
            0 <= i < id.len() ==> ('a' <= #[trigger] id[i] <= 'z' || '0' <= id[i] <= '9' || id[i]
                == '-'),
{
    if registry::valid_id(id) {
        assert forall|i: int| 0 <= i < id.len() implies ('a' <= #[trigger] id[i] <= 'z' || '0'
            <= id[i] <= '9' || id[i] == '-') by {
            assert(registry::id_char(id[i]));
        }
    }
}

/// Two packages, or two versions of one, lie in files of their own.
pub proof fn law_packages_have_files_of_their_own(
    root: Seq<char>,
    a: Seq<char>,
    va: i64,
    b: Seq<char>,
    vb: i64,
)
    requires
        registry::valid_id(a),
        registry::valid_id(b),
        registry::file_of(root, a, va) == registry::file_of(root, b, vb),
    ensures
        a == b,
        va == vb,
{
    reveal_strlit("@");
    reveal_strlit(".json");
    let base = paths::joined(root, "packages"@);
    let na = a + "@"@ + text::decimal(va as int) + ".json"@;
    let nb = b + "@"@ + text::decimal(vb as int) + ".json"@;
    assert(registry::id_char(a[0]) && registry::id_char(b[0]));
    assert(na[0] == a[0] && nb[0] == b[0]);
    lemma_joined_tells(base, na, nb);
    let da = text::decimal(va as int);
    let db = text::decimal(vb as int);
    assert("@"@ =~= seq!['@']);
    lemma_name_tells(a, da, b, db, ".json"@);
    text::lemma_decimal_injective(va as int, vb as int);
}

/// What a path is joined with tells the paths apart.
proof fn lemma_joined_tells(base: Seq<char>, a: Seq<char>, b: Seq<char>)
    requires
        !paths::has_root(a),
        !paths::has_root(b),
        paths::joined(base, a) == paths::joined(base, b),
    ensures
        a == b,
{
    let front = if base.len() == 0 || base.last() == '/' {
        base
    } else {
        base + seq!['/']
    };
    let f = paths::joined(base, a);
    assert(f == front + a);
    assert(f == front + b);
    assert(f.skip(front.len() as int) =~= a);
    assert((front + b).skip(front.len() as int) =~= b);
}

/// What stands before a sign and what stands behind it tell the texts apart.
proof fn lemma_name_tells(
    a: Seq<char>,
    x: Seq<char>,
    b: Seq<char>,
    y: Seq<char>,
    end: Seq<char>,
)
    requires
        registry::valid_id(a),
        registry::valid_id(b),
        a + seq!['@'] + x + end == b + seq!['@'] + y + end,
    ensures
        a == b,
        x == y,
{
    let s = a + seq!['@'] + x + end;
    let t = b + seq!['@'] + y + end;
    let la = a.len() as int;
    let lb = b.len() as int;
    assert(s[la] == '@' && t[lb] == '@');
    if la < lb {
        assert(registry::id_char(b[la]));
        assert(t[la] == b[la]);
        assert(false);
    }
    if lb < la {
        assert(registry::id_char(a[lb]));
        assert(s[lb] == a[lb]);
        assert(false);
    }
    assert(s.take(la) =~= a);
    assert(t.take(la) =~= b);
    assert(s.subrange(la + 1, s.len() - end.len()) =~= x);
    assert(t.subrange(la + 1, t.len() - end.len()) =~= y);
}

/// A file is listed if and only if its name says that it is a document, it can be
/// read, and it has an identity and a version.
pub proof fn law_listed_packages(stem: Seq<char>, d: Option<Doc>)
    ensures
        registry::is_listed((stem + ".json"@, d)) <==> d is Some && json::integer_member(
            d->0,
            "version"@,
        ) is Some && (json::text_member(d->0, "id"@) matches Some(id) && id.len() > 0),
{
    let name = stem + ".json"@;
    assert(name.skip(name.len() - ".json"@.len()) =~= ".json"@);
}

/// What a listing says of a package is what its document says.
pub proof fn law_told_of_a_package(d: Doc, m: RegistryPackageMeta)
    requires
        registry::is_meta_of(d, m),
    ensures
        json::integer_member(d, "version"@) == Some(m.version),
        json::text_member(d, "name"@) matches Some(t) ==> m.name@ == t,
        json::text_member(d, "name"@) is None ==> m.name@.len() == 0,
        json::text_member(d, "publisher"@) matches Some(t) ==> m.publisher@ == t,
        json::text_member(d, "digest"@) matches Some(t) ==> m.digest@ == t,
        m.signed <==> json::text_member(d, "signature"@) is Some,
        m.signature_valid <==> m.signed && registry::verdict(d) is Valid,
{
}

/// The newest version comes first in a listing, and of one version the one that was
/// published last; and none is left out.
pub proof fn law_newest_package_comes_first(ms: Seq<RegistryPackageMeta>, i: int, j: int)
    requires
        0 <= i < j < order::sorted(ms).len(),
    ensures
        order::sorted(ms)[i].version >= order::sorted(ms)[j].version,
        order::sorted(ms)[i].version == order::sorted(ms)[j].version ==> text::lex_le(
            order::sorted(ms)[j].published_at@,
            order::sorted(ms)[i].published_at@,
        ),
        order::sorted(ms).to_multiset() == ms.to_multiset(),
{
    assert forall|a: RegistryPackageMeta, b: RegistryPackageMeta| #[trigger]
        a.may_precede(&b) || b.may_precede(&a) by {
        text::lemma_lex_total(a.published_at@, b.published_at@);
    }
    assert forall|a: RegistryPackageMeta, b: RegistryPackageMeta, c: RegistryPackageMeta|
        #[trigger]
        a.may_precede(&b) && #[trigger] b.may_precede(&c) implies a.may_precede(&c) by {
        if a.version == b.version && b.version == c.version {
            text::lemma_lex_transitive(c.published_at@, b.published_at@, a.published_at@);
        }
    }
    order::lemma_sorted_is_ordered(ms);
    order::lemma_sorted_keeps_items(ms);
    assert(order::sorted(ms)[i].may_precede(&order::sorted(ms)[j]));
}

/// A name can stand in a path if and only if it is there, holds no slash and no two
/// dots in a row.
pub proof fn law_names_in_a_path(s: Seq<char>)
    ensures
        registry::valid_segment(s) <==> s.len() > 0 && (forall|i: int|
            0 <= i < s.len() ==> #[trigger] s[i] != '/') && (forall|i: int|
            0 <= i < s.len() - 1 ==> !(#[trigger] s[i] == '.' && s[i + 1] == '.')),
{
    let dots = seq!['.', '.'];
    if text::holds(s, dots) {
        let at = choose|at: int| text::stands_at(s, dots, at);
        assert(s.subrange(at, at + 2)[0] == s[at] && s.subrange(at, at + 2)[1] == s[at + 1]);
        assert(dots[0] == '.' && dots[1] == '.');
        assert(s[at] == '.' && s[at + 1] == '.');
    }
    if exists|i: int| 0 <= i < s.len() - 1 && #[trigger] s[i] == '.' && s[i + 1] == '.' {
        let i = choose|i: int| 0 <= i < s.len() - 1 && #[trigger] s[i] == '.' && s[i + 1] == '.';
        assert(s.subrange(i, i + 2) =~= dots);
        assert(text::stands_at(s, dots, i));
    }
    if exists|i: int| 0 <= i < s.len() && #[trigger] s[i] == '/' {
        let i = choose|i: int| 0 <= i < s.len() && #[trigger] s[i] == '/';
        assert(text::mentions(s, '/'));
    }
}

/// What a record tells of is what its file is named for, and the last record of a
/// server counts.
pub proof fn law_records_tell_of_installs(fs: Seq<ProvenanceFile>, f: ProvenanceFile, uuid: Seq<char>)
    requires
        f.name@ == uuid + ".json"@,
        !text::finishes_with(uuid, ".json"@),
    ensures
        f.record is None ==> registry::installs_told(fs.push(f)) == registry::installs_told(fs),
        f.record is Some ==> registry::installs_told(fs.push(f)) == registry::installs_told(
            fs,
        ).insert(uuid, (f.record->0.package_id@, f.record->0.version)),
        registry::installs_told(Seq::empty()) == Map::<Seq<char>, (Seq<char>, i64)>::empty(),
{
    reveal_strlit(".json");
    assert(fs.push(f).drop_last() =~= fs);
    assert(fs.push(f).last() == f);
    let n = f.name@;
    assert(n.skip(n.len() - 5) =~= ".json"@);
    assert(n.take(n.len() - 5) =~= uuid);
    assert(text::finishes_with(n, ".json"@));
    assert(registry::without_suffixes(n, ".json"@) == registry::without_suffixes(uuid, ".json"@));
    assert(registry::without_suffixes(uuid, ".json"@) == uuid);
}

/// A package bears its identity, its version, the digest of the blueprint, and the
/// blueprint.
pub proof fn law_packages_bear_their_blueprint(
    b: Blueprint,
    id: Seq<char>,
    version: i64,
    publisher: Seq<char>,
    at: Seq<char>,
    config: Doc,
    variables: Doc,
)
    ensures
        ({
            let p = registry::package_of(b, id, version, publisher, at, config, variables);
            &&& json::text_member(p, "id"@) == Some(id)
            &&& json::member(p, "version"@) == Some(Doc::Number(text::decimal(version as int)))
            &&& json::text_member(p, "name"@) == Some(b.name@)
            &&& json::text_member(p, "publisher"@) == Some(publisher)
            &&& json::text_member(p, "digest"@) == Some(
                revisions::doc_digest(revisions::document(revisions::content_of(b, variables))),
            )
            &&& json::member(p, "blueprint"@) == Some(registry::blueprint_part(b, config, variables))
            &&& json::text_member(p, "signature"@) is None
        }),
{
    reveal_strlit("schema");
    reveal_strlit("id");
    reveal_strlit("name");
    reveal_strlit("version");
    reveal_strlit("description");
    reveal_strlit("publisher");
    reveal_strlit("published_at");
    reveal_strlit("source_uuid");
    reveal_strlit("digest");
    reveal_strlit("blueprint");
    reveal_strlit("signature");
    assert("schema"@.len() != "id"@.len());
    assert("schema"@.len() != "name"@.len());
    assert("schema"@.len() != "version"@.len());
    assert("schema"@.len() != "description"@.len());
    assert("schema"@.len() != "publisher"@.len());
    assert("schema"@.len() != "published_at"@.len());
    assert("schema"@.len() != "source_uuid"@.len());
    assert("schema"@[0] != "digest"@[0]);
    assert("schema"@.len() != "blueprint"@.len());
    assert("schema"@.len() != "signature"@.len());
    assert("id"@.len() != "name"@.len());
    assert("id"@.len() != "version"@.len());
    assert("id"@.len() != "description"@.len());
    assert("id"@.len() != "publisher"@.len());
    assert("id"@.len() != "published_at"@.len());
    assert("id"@.len() != "source_uuid"@.len());
    assert("id"@.len() != "digest"@.len());
    assert("id"@.len() != "blueprint"@.len());
    assert("id"@.len() != "signature"@.len());
    assert("name"@.len() != "version"@.len());
    assert("name"@.len() != "description"@.len());
    assert("name"@.len() != "publisher"@.len());
    assert("name"@.len() != "published_at"@.len());
    assert("name"@.len() != "source_uuid"@.len());
    assert("name"@.len() != "digest"@.len());
    assert("name"@.len() != "blueprint"@.len());
    assert("name"@.len() != "signature"@.len());
    assert("version"@.len() != "description"@.len());
    assert("version"@.len() != "publisher"@.len());
    assert("version"@.len() != "published_at"@.len());
    assert("version"@.len() != "source_uuid"@.len());
    assert("version"@.len() != "digest"@.len());
    assert("version"@.len() != "blueprint"@.len());
    assert("version"@.len() != "signature"@.len());
    assert("description"@.len() != "publisher"@.len());
    assert("description"@.len() != "published_at"@.len());
    assert("description"@[0] != "source_uuid"@[0]);
    assert("description"@.len() != "digest"@.len());
    assert("description"@.len() != "blueprint"@.len());
    assert("description"@.len() != "signature"@.len());
    assert("publisher"@.len() != "published_at"@.len());
    assert("publisher"@.len() != "source_uuid"@.len());
    assert("publisher"@.len() != "digest"@.len());
    assert("publisher"@[0] != "blueprint"@[0]);
    assert("publisher"@[0] != "signature"@[0]);
    assert("published_at"@.len() != "source_uuid"@.len());
    assert("published_at"@.len() != "digest"@.len());
    assert("published_at"@.len() != "blueprint"@.len());
    assert("published_at"@.len() != "signature"@.len());
    assert("source_uuid"@.len() != "digest"@.len());
    assert("source_uuid"@.len() != "blueprint"@.len());
    assert("source_uuid"@.len() != "signature"@.len());
    assert("digest"@.len() != "blueprint"@.len());
    assert("digest"@.len() != "signature"@.len());
    assert("blueprint"@[0] != "signature"@[0]);
    let digested = Doc::Text(
        revisions::doc_digest(revisions::document(revisions::content_of(b, variables))),
    );
    let part = registry::blueprint_part(b, config, variables);
    let d0 = Doc::Object(Seq::<(Seq<char>, Doc)>::empty());
    let d1 = json::inserted(d0, "schema"@, Doc::Text(registry::REGISTRY_PACKAGE_SCHEMA@));
    let d2 = json::inserted(d1, "id"@, Doc::Text(id));
    let d3 = json::inserted(d2, "name"@, Doc::Text(b.name@));
    let d4 = json::inserted(d3, "version"@, Doc::Number(text::decimal(version as int)));
    let d5 = json::inserted(d4, "description"@, Doc::Text(b.description@));
    let d6 = json::inserted(d5, "publisher"@, Doc::Text(publisher));
    let d7 = json::inserted(d6, "published_at"@, Doc::Text(at));
    let d8 = json::inserted(d7, "source_uuid"@, Doc::Text(b.uuid@));
    let d9 = json::inserted(d8, "digest"@, digested);
    let d10 = json::inserted(d9, "blueprint"@, part);
    vault::lemma_put(d0, "schema"@, Doc::Text(registry::REGISTRY_PACKAGE_SCHEMA@), "schema"@);
    vault::lemma_put(d1, "id"@, Doc::Text(id), "id"@);
    vault::lemma_put(d2, "name"@, Doc::Text(b.name@), "id"@);
    vault::lemma_put(d2, "name"@, Doc::Text(b.name@), "name"@);
    vault::lemma_put(d3, "version"@, Doc::Number(text::decimal(version as int)), "id"@);
    vault::lemma_put(d3, "version"@, Doc::Number(text::decimal(version as int)), "version"@);
    vault::lemma_put(d3, "version"@, Doc::Number(text::decimal(version as int)), "name"@);
    vault::lemma_put(d4, "description"@, Doc::Text(b.description@), "id"@);
    vault::lemma_put(d4, "description"@, Doc::Text(b.description@), "version"@);
    vault::lemma_put(d4, "description"@, Doc::Text(b.description@), "name"@);
    vault::lemma_put(d5, "publisher"@, Doc::Text(publisher), "id"@);
    vault::lemma_put(d5, "publisher"@, Doc::Text(publisher), "version"@);
    vault::lemma_put(d5, "publisher"@, Doc::Text(publisher), "name"@);
    vault::lemma_put(d5, "publisher"@, Doc::Text(publisher), "publisher"@);
    vault::lemma_put(d6, "published_at"@, Doc::Text(at), "id"@);
    vault::lemma_put(d6, "published_at"@, Doc::Text(at), "version"@);
    vault::lemma_put(d6, "published_at"@, Doc::Text(at), "name"@);
    vault::lemma_put(d6, "published_at"@, Doc::Text(at), "publisher"@);
    vault::lemma_put(d7, "source_uuid"@, Doc::Text(b.uuid@), "id"@);
    vault::lemma_put(d7, "source_uuid"@, Doc::Text(b.uuid@), "version"@);
    vault::lemma_put(d7, "source_uuid"@, Doc::Text(b.uuid@), "name"@);
    vault::lemma_put(d7, "source_uuid"@, Doc::Text(b.uuid@), "publisher"@);
    vault::lemma_put(d8, "digest"@, digested, "id"@);
    vault::lemma_put(d8, "digest"@, digested, "version"@);
    vault::lemma_put(d8, "digest"@, digested, "name"@);
    vault::lemma_put(d8, "digest"@, digested, "publisher"@);
    vault::lemma_put(d8, "digest"@, digested, "digest"@);
    vault::lemma_put(d9, "blueprint"@, part, "id"@);
    vault::lemma_put(d9, "blueprint"@, part, "version"@);
    vault::lemma_put(d9, "blueprint"@, part, "name"@);
    vault::lemma_put(d9, "blueprint"@, part, "publisher"@);
    vault::lemma_put(d9, "blueprint"@, part, "digest"@);
    vault::lemma_put(d9, "blueprint"@, part, "blueprint"@);
    vault::lemma_put(d0, "schema"@, Doc::Text(registry::REGISTRY_PACKAGE_SCHEMA@), "signature"@);
    vault::lemma_put(d1, "id"@, Doc::Text(id), "signature"@);
    vault::lemma_put(d2, "name"@, Doc::Text(b.name@), "signature"@);
    vault::lemma_put(d3, "version"@, Doc::Number(text::decimal(version as int)), "signature"@);
    vault::lemma_put(d4, "description"@, Doc::Text(b.description@), "signature"@);
    vault::lemma_put(d5, "publisher"@, Doc::Text(publisher), "signature"@);
    vault::lemma_put(d6, "published_at"@, Doc::Text(at), "signature"@);
    vault::lemma_put(d7, "source_uuid"@, Doc::Text(b.uuid@), "signature"@);
    vault::lemma_put(d8, "digest"@, digested, "signature"@);
    vault::lemma_put(d9, "blueprint"@, part, "signature"@);
}

/// The blueprint in a package says how its servers start, stop and are installed, what
/// their configuration is, and what inputs they take.
pub proof fn law_blueprint_in_a_package(b: Blueprint, config: Doc, variables: Doc)
    ensures
        ({
            let p = registry::blueprint_part(b, config, variables);
            &&& json::text_member(p, "name"@) == Some(b.name@)
            &&& json::text_member(p, "startup"@) == Some(b.startup@)
            &&& json::text_member(p, "stop"@) == Some(b.stop_command@)
            &&& json::member(p, "config"@) == Some(config)
            &&& json::member(p, "variables"@) == Some(variables)
            &&& b.install_script is None ==> json::member(p, "install"@) == Some(Doc::Null)
            &&& b.install_script is Some ==> json::member(p, "install"@) is Some
                && json::text_member(json::member(p, "install"@)->0, "script"@) == Some(
                b.install_script->0@,
            )
        }),
{
    reveal_strlit("name");
    reveal_strlit("description");
    reveal_strlit("author");
    reveal_strlit("category");
    reveal_strlit("runtime_hint");
    reveal_strlit("startup");
    reveal_strlit("config");
    reveal_strlit("install");
    reveal_strlit("variables");
    reveal_strlit("stop");
    assert("name"@.len() != "description"@.len());
    assert("name"@.len() != "author"@.len());
    assert("name"@.len() != "category"@.len());
    assert("name"@.len() != "runtime_hint"@.len());
    assert("name"@.len() != "startup"@.len());
    assert("name"@.len() != "config"@.len());
    assert("name"@.len() != "install"@.len());
    assert("name"@.len() != "variables"@.len());
    assert("name"@[0] != "stop"@[0]);
    assert("description"@.len() != "author"@.len());
    assert("description"@.len() != "category"@.len());
    assert("description"@.len() != "runtime_hint"@.len());
    assert("description"@.len() != "startup"@.len());
    assert("description"@.len() != "config"@.len());
    assert("description"@.len() != "install"@.len());
    assert("description"@.len() != "variables"@.len());
    assert("description"@.len() != "stop"@.len());
    assert("author"@.len() != "category"@.len());
    assert("author"@.len() != "runtime_hint"@.len());
    assert("author"@.len() != "startup"@.len());
    assert("author"@[0] != "config"@[0]);
    assert("author"@.len() != "install"@.len());
    assert("author"@.len() != "variables"@.len());
    assert("author"@.len() != "stop"@.len());
    assert("category"@.len() != "runtime_hint"@.len());
    assert("category"@.len() != "startup"@.len());
    assert("category"@.len() != "config"@.len());
    assert("category"@.len() != "install"@.len());
    assert("category"@.len() != "variables"@.len());
    assert("category"@.len() != "stop"@.len());
    assert("runtime_hint"@.len() != "startup"@.len());
    assert("runtime_hint"@.len() != "config"@.len());
    assert("runtime_hint"@.len() != "install"@.len());
    assert("runtime_hint"@.len() != "variables"@.len());
    assert("runtime_hint"@.len() != "stop"@.len());
    assert("startup"@.len() != "config"@.len());
    assert("startup"@[0] != "install"@[0]);
    assert("startup"@.len() != "variables"@.len());
    assert("startup"@.len() != "stop"@.len());
    assert("config"@.len() != "install"@.len());
    assert("config"@.len() != "variables"@.len());
    assert("config"@.len() != "stop"@.len());
    assert("install"@.len() != "variables"@.len());
    assert("install"@.len() != "stop"@.len());
    assert("variables"@.len() != "stop"@.len());
    let none = Doc::Object(Seq::<(Seq<char>, Doc)>::empty());
    let install = match b.install_script {
        Some(s) => json::inserted(none, "script"@, Doc::Text(s@)),
        None => Doc::Null,
    };
    if b.install_script is Some {
        vault::lemma_put(none, "script"@, Doc::Text(b.install_script->0@), "script"@);
    }
    let d0 = Doc::Object(Seq::<(Seq<char>, Doc)>::empty());
    let d1 = json::inserted(d0, "name"@, Doc::Text(b.name@));
    let d2 = json::inserted(d1, "description"@, Doc::Text(b.description@));
    let d3 = json::inserted(d2, "author"@, Doc::Text(b.author@));
    let d4 = json::inserted(d3, "category"@, Doc::Text(b.category@));
    let d5 = json::inserted(d4, "runtime_hint"@, Doc::Text(b.runtime_hint@));
    let d6 = json::inserted(d5, "startup"@, Doc::Text(b.startup@));
    let d7 = json::inserted(d6, "config"@, config);
    let d8 = json::inserted(d7, "install"@, install);
    let d9 = json::inserted(d8, "variables"@, variables);
    let d10 = json::inserted(d9, "stop"@, Doc::Text(b.stop_command@));
    vault::lemma_put(d0, "name"@, Doc::Text(b.name@), "name"@);
    vault::lemma_put(d1, "description"@, Doc::Text(b.description@), "name"@);
    vault::lemma_put(d2, "author"@, Doc::Text(b.author@), "name"@);
    vault::lemma_put(d3, "category"@, Doc::Text(b.category@), "name"@);
    vault::lemma_put(d4, "runtime_hint"@, Doc::Text(b.runtime_hint@), "name"@);
    vault::lemma_put(d5, "startup"@, Doc::Text(b.startup@), "name"@);
    vault::lemma_put(d5, "startup"@, Doc::Text(b.startup@), "startup"@);
    vault::lemma_put(d6, "config"@, config, "name"@);
    vault::lemma_put(d6, "config"@, config, "startup"@);
    vault::lemma_put(d6, "config"@, config, "config"@);
    vault::lemma_put(d7, "install"@, install, "name"@);
    vault::lemma_put(d7, "install"@, install, "startup"@);
    vault::lemma_put(d7, "install"@, install, "config"@);
    vault::lemma_put(d7, "install"@, install, "install"@);
    vault::lemma_put(d8, "variables"@, variables, "name"@);
    vault::lemma_put(d8, "variables"@, variables, "startup"@);
    vault::lemma_put(d8, "variables"@, variables, "config"@);
    vault::lemma_put(d8, "variables"@, variables, "install"@);
    vault::lemma_put(d8, "variables"@, variables, "variables"@);
    vault::lemma_put(d9, "stop"@, Doc::Text(b.stop_command@), "name"@);
    vault::lemma_put(d9, "stop"@, Doc::Text(b.stop_command@), "startup"@);
    vault::lemma_put(d9, "stop"@, Doc::Text(b.stop_command@), "config"@);
    vault::lemma_put(d9, "stop"@, Doc::Text(b.stop_command@), "install"@);
    vault::lemma_put(d9, "stop"@, Doc::Text(b.stop_command@), "variables"@);
    vault::lemma_put(d9, "stop"@, Doc::Text(b.stop_command@), "stop"@);
}

} // verus!
