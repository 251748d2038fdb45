//! JSON documents and their one canonical text.
use crate::text;
use vstd::prelude::*;
use vstd::string::*;

verus! {

/// A JSON value. A number is kept as it is printed.
#[derive(Debug)]
pub enum Json {
    Null,
    Bool(bool),
    Number(String),
    Text(String),
    Array(Vec<Json>),
    Object(Vec<Member>),
}

/// A member of a JSON object.
#[derive(Debug)]
pub struct Member {
    pub key: String,
    pub value: Json,
}

/// A JSON value by its texts alone.
pub enum Doc {
    Null,
    Bool(bool),
    Number(Seq<char>),
    Text(Seq<char>),
    Array(Seq<Doc>),
    Object(Seq<(Seq<char>, Doc)>),
}

/// What a value says.
pub open spec fn doc_of(j: Json) -> Doc
    decreases j,
{
    match j {
        Json::Null => Doc::Null,
        Json::Bool(b) => Doc::Bool(b),
        Json::Number(t) => Doc::Number(t@),
        Json::Text(t) => Doc::Text(t@),
        Json::Array(v) => Doc::Array(docs_of(v@)),
        Json::Object(v) => Doc::Object(members_of(v@)),
    }
}

/// What some values say.
pub open spec fn docs_of(s: Seq<Json>) -> Seq<Doc>
    decreases s,
{
    if s.len() == 0 {
        Seq::empty()
    } else {
        docs_of(s.drop_last()).push(doc_of(s.last()))
    }
}

/// What some members say.
pub open spec fn members_of(s: Seq<Member>) -> Seq<(Seq<char>, Doc)>
    decreases s,
{
    if s.len() == 0 {
        Seq::empty()
    } else {
        members_of(s.drop_last()).push((s.last().key@, doc_of(s.last().value)))
    }
}

impl View for Json {
    type V = Doc;

    open spec fn view(&self) -> Doc {
        doc_of(*self)
    }
}

/// How a character stands in a JSON string.
pub open spec fn escaped_char(c: char) -> Seq<char> {
    if c == '"' {
        seq!['\\', '"']
    } else if c == '\\' {
        seq!['\\', '\\']
    } else if c == '\u{8}' {
        seq!['\\', 'b']
    } else if c == '\u{c}' {
        seq!['\\', 'f']
    } else if c == '\n' {
        seq!['\\', 'n']
    } else if c == '\r' {
        seq!['\\', 'r']
    } else if c == '\t' {
        seq!['\\', 't']
    } else if (c as int) < 32 {
        seq!['\\', 'u', '0', '0'].push(crate::digest::hex_digit(c as int / 16)).push(
            crate::digest::hex_digit(c as int % 16),
        )
    } else {
        seq![c]
    }
}

/// The characters of a JSON string between its quotes.
pub open spec fn escaped(s: Seq<char>) -> Seq<char>
    decreases s.len(),
{
    if s.len() == 0 {
        Seq::empty()
    } else {
        escaped(s.drop_last()) + escaped_char(s.last())
    }
}

/// A text as a JSON string.
pub open spec fn string_text(s: Seq<char>) -> Seq<char> {
    seq!['"'] + escaped(s) + seq!['"']
}

/// `serde_json::Value`: a document as it was read.
#[verifier::external_type_specification]
#[verifier::external_body]
pub struct ExValue(serde_json::Value);

/// What a `serde_json::Value` holds, through all its levels: a number by what its
/// `to_string` gives, the members of an object in the order of its map.
pub uninterp spec fn held(v: serde_json::Value) -> Doc;

/// The document that `serde_json::from_str` reads in a text, or why it refuses it.
pub uninterp spec fn parsed(s: Seq<char>) -> Result<Doc, Seq<char>>;

/// The document that `serde_json::from_slice` reads in some bytes, or why it
/// refuses them.
pub uninterp spec fn parsed_bytes(b: Seq<u8>) -> Result<Doc, Seq<char>>;

/// `serde_json::from_str` for a `serde_json::Value`: the document of a text, or why
/// it is none.
#[verifier::external_body]
fn read_text(s: &str) -> (r: Result<serde_json::Value, String>)
    ensures
        match r {
            Ok(v) => parsed(s@) == Ok::<Doc, Seq<char>>(held(v)),
            Err(e) => parsed(s@) == Err::<Doc, Seq<char>>(e@),
        },
{
    serde_json::from_str::<serde_json::Value>(s).map_err(|e| e.to_string())
}

/// `serde_json::from_slice` for a `serde_json::Value`: the document of some bytes,
/// or why they are none.
#[verifier::external_body]
fn read_bytes(b: &[u8]) -> (r: Result<serde_json::Value, String>)
    ensures
        match r {
            Ok(v) => parsed_bytes(b@) == Ok::<Doc, Seq<char>>(held(v)),
            Err(e) => parsed_bytes(b@) == Err::<Doc, Seq<char>>(e@),
        },
{
    serde_json::from_slice::<serde_json::Value>(b).map_err(|e| e.to_string())
}

/// The top level of a `serde_json::Value`.
enum Level<'a> {
    Null,
    Bool(bool),
    Number(String),
    Text(&'a String),
    Array(&'a Vec<serde_json::Value>),
    Object(Vec<(&'a String, &'a serde_json::Value)>),
}

/// The variants of `serde_json::Value`, one for one, with `to_string` of a
/// `serde_json::Number` and the entries of a `serde_json::Map` in its order.
#[verifier::external_body]
fn top_level(v: &serde_json::Value) -> (r: Level<'_>)
    ensures
        match r {
            Level::Null => held(*v) == Doc::Null,
            Level::Bool(b) => held(*v) == Doc::Bool(b),
            Level::Number(n) => held(*v) == Doc::Number(n@),
            Level::Text(t) => held(*v) == Doc::Text(t@),
            Level::Array(items) => held(*v) == Doc::Array(
                items@.map_values(|x: serde_json::Value| held(x)),
            ),
            Level::Object(members) => held(*v) == Doc::Object(
                members@.map_values(|m: (&String, &serde_json::Value)| (m.0@, held(*m.1))),
            ),
        },
{
    match v {
        serde_json::Value::Null => Level::Null,
        serde_json::Value::Bool(b) => Level::Bool(*b),
        serde_json::Value::Number(n) => Level::Number(n.to_string()),
        serde_json::Value::String(t) => Level::Text(t),
        serde_json::Value::Array(items) => Level::Array(items),
        serde_json::Value::Object(members) => Level::Object(members.iter().collect()),
    }
}

/// A document as it was read, level by level.
fn document(v: &serde_json::Value) -> (r: Json)
    ensures
        r@ == held(*v),
    decreases held(*v),
{
    match top_level(v) {
        Level::Null => Json::Null,
        Level::Bool(b) => Json::Bool(b),
        Level::Number(n) => Json::Number(n),
        Level::Text(t) => Json::Text(text::copy_of(t.as_str())),
        Level::Array(items) => {
            let ghost all = items@.map_values(|x: serde_json::Value| held(x));
            let mut out: Vec<Json> = Vec::new();
            let mut i: usize = 0;
            while i < items.len()
                invariant
                    i <= items.len(),
                    all == items@.map_values(|x: serde_json::Value| held(x)),
                    held(*v) == Doc::Array(all),
                    docs_of(out@) == all.take(i as int),
                decreases items.len() - i,
            {
                assert(all[i as int] == held(items@[i as int]));
                assert(decreases_to!(held(*v) => held(*v)->Array_0));
                assert(decreases_to!(held(*v)->Array_0 => held(*v)->Array_0[i as int]));
                let ghost before = out@;
                out.push(document(&items[i]));
                assert(out@.drop_last() =~= before);
                assert(all.take(i + 1) =~= all.take(i as int).push(all[i as int]));
                i += 1;
            }
            assert(all.take(all.len() as int) =~= all);
            Json::Array(out)
        },
        Level::Object(members) => {
            let ghost all = members@.map_values(
                |m: (&String, &serde_json::Value)| (m.0@, held(*m.1)),
            );
            let mut out: Vec<Member> = Vec::new();
            let mut i: usize = 0;
            while i < members.len()
                invariant
                    i <= members.len(),
                    all == members@.map_values(
                        |m: (&String, &serde_json::Value)| (m.0@, held(*m.1)),
                    ),
                    held(*v) == Doc::Object(all),
                    members_of(out@) == all.take(i as int),
                decreases members.len() - i,
            {
                assert(all[i as int] == (members@[i as int].0@, held(*members@[i as int].1)));
                assert(decreases_to!(held(*v) => held(*v)->Object_0));
                assert(decreases_to!(held(*v)->Object_0 => held(*v)->Object_0[i as int]));
                assert(decreases_to!(all[i as int] => all[i as int].1));
                let ghost before = out@;
                let (key, value) = members[i];
                out.push(Member { key: text::copy_of(key.as_str()), value: document(value) });
                assert(out@.drop_last() =~= before);
                assert(all.take(i + 1) =~= all.take(i as int).push(all[i as int]));
                i += 1;
            }
            assert(all.take(all.len() as int) =~= all);
            Json::Object(out)
        },
    }
}

/// What was read, or null where that failed.
pub open spec fn read_or_null(read: Result<Doc, Seq<char>>) -> Doc {
    match read {
        Ok(d) => d,
        Err(_) => Doc::Null,
    }
}

impl Json {
    /// What was read, or null where that failed.
    pub fn or_null(read: Result<Json, String>) -> (r: Json)
        ensures
            match read {
                Ok(j) => r == j,
                Err(_) => r == Json::Null,
            },
    {
        match read {
            Ok(j) => j,
            Err(_) => Json::Null,
        }
    }

    /// The document of a text, or why it is none.
    pub fn parse(s: &str) -> (r: Result<Json, String>)
        ensures
            match r {
                Ok(j) => parsed(s@) == Ok::<Doc, Seq<char>>(j@),
                Err(e) => parsed(s@) == Err::<Doc, Seq<char>>(e@),
            },
    {
        match read_text(s) {
            Ok(v) => Ok(document(&v)),
            Err(e) => Err(e),
        }
    }

    /// The document of some bytes, or why they are none.
    pub fn parse_bytes(b: &[u8]) -> (r: Result<Json, String>)
        ensures
            match r {
                Ok(j) => parsed_bytes(b@) == Ok::<Doc, Seq<char>>(j@),
                Err(e) => parsed_bytes(b@) == Err::<Doc, Seq<char>>(e@),
            },
    {
        match read_bytes(b) {
            Ok(v) => Ok(document(&v)),
            Err(e) => Err(e),
        }
    }
}

/// `serde_json::to_string` of a text: the JSON string for it. Quotes and
/// backslashes get a backslash, control characters their short escapes or four
/// small hexadecimal digits, and all else stands as it is.
#[verifier::external_body]
fn json_string(s: &str) -> (r: String)
    ensures
        r@ == string_text(s@),
{
    serde_json::to_string(s).expect("a text always serializes")
}

/// Place for a key among entries: behind the last one with a key that is not
/// behind it.
pub open spec fn spot(s: Seq<(Seq<char>, Seq<char>)>, key: Seq<char>) -> int
    decreases s.len(),
{
    if s.len() == 0 || text::lex_le(s.last().0, key) {
        s.len() as int
    } else {
        spot(s.drop_last(), key)
    }
}

/// Entries in the order of their keys.
pub open spec fn by_key(s: Seq<(Seq<char>, Seq<char>)>) -> Seq<(Seq<char>, Seq<char>)>
    decreases s.len(),
{
    if s.len() == 0 {
        s
    } else {
        let before = by_key(s.drop_last());
        before.insert(spot(before, s.last().0), s.last())
    }
}

/// An entry of an object as text.
pub open spec fn entry_text(e: (Seq<char>, Seq<char>)) -> Seq<char> {
    string_text(e.0) + seq![':'] + e.1
}

/// The canonical text of a value: keys in order, no white space.
pub open spec fn canonical(d: Doc) -> Seq<char>
    decreases d,
{
    match d {
        Doc::Null => "null"@,
        Doc::Bool(b) => if b {
            "true"@
        } else {
            "false"@
        },
        Doc::Number(t) => t,
        Doc::Text(t) => string_text(t),
        Doc::Array(v) => seq!['['] + text::joined(canonical_items(v), seq![',']) + seq![']'],
        Doc::Object(v) => object_text(canonical_members(v)),
    }
}

/// A number by its value: the two zeros of floating point are one.
pub open spec fn one_zero(t: Seq<char>) -> Seq<char> {
    if t == "-0.0"@ {
        "0.0"@
    } else {
        t
    }
}

/// A value in which the two zeros of floating point are one.
pub open spec fn leveled(d: Doc) -> Doc
    decreases d,
{
    match d {
        Doc::Number(t) => Doc::Number(one_zero(t)),
        Doc::Array(v) => Doc::Array(leveled_items(v)),
        Doc::Object(v) => Doc::Object(leveled_members(v)),
        other => other,
    }
}

/// Values in which the two zeros of floating point are one.
pub open spec fn leveled_items(s: Seq<Doc>) -> Seq<Doc>
    decreases s,
{
    if s.len() == 0 {
        Seq::empty()
    } else {
        leveled_items(s.drop_last()).push(leveled(s.last()))
    }
}

/// Members in which the two zeros of floating point are one.
pub open spec fn leveled_members(s: Seq<(Seq<char>, Doc)>) -> Seq<(Seq<char>, Doc)>
    decreases s,
{
    if s.len() == 0 {
        Seq::empty()
    } else {
        leveled_members(s.drop_last()).push((s.last().0, leveled(s.last().1)))
    }
}

/// Whether two values say the same, in whatever order their members are listed and
/// whatever the sign of a zero.
pub open spec fn equal(a: Doc, b: Doc) -> bool {
    canonical(leveled(a)) == canonical(leveled(b))
}

/// The text of an object with these entries.
pub open spec fn object_text(entries: Seq<(Seq<char>, Seq<char>)>) -> Seq<char> {
    seq!['{'] + text::joined(
        by_key(entries).map_values(|e: (Seq<char>, Seq<char>)| entry_text(e)),
        seq![','],
    ) + seq!['}']
}

/// The canonical texts of some values.
pub open spec fn canonical_items(s: Seq<Doc>) -> Seq<Seq<char>>
    decreases s,
{
    if s.len() == 0 {
        Seq::empty()
    } else {
        canonical_items(s.drop_last()).push(canonical(s.last()))
    }
}

/// Keys and canonical texts of some members.
pub open spec fn canonical_members(s: Seq<(Seq<char>, Doc)>) -> Seq<(Seq<char>, Seq<char>)>
    decreases s,
{
    if s.len() == 0 {
        Seq::empty()
    } else {
        canonical_members(s.drop_last()).push((s.last().0, canonical(s.last().1)))
    }
}

/// The entries of an object, by their texts.
pub open spec fn entries_of(s: Seq<(String, String)>) -> Seq<(Seq<char>, Seq<char>)> {
    s.map_values(|e: (String, String)| (e.0@, e.1@))
}

/// Puts an entry in its place among others.
fn put_entry(out: &mut Vec<(String, String)>, key: String, value: String)
    ensures
        entries_of(final(out)@) == entries_of(old(out)@).insert(
            spot(entries_of(old(out)@), key@),
            (key@, value@),
        ),
{
    let ghost es = entries_of(out@);
    let kc = text::chars_of(key.as_str());
    let mut at: usize = out.len();
    assert(es.take(at as int) =~= es);
    while at > 0
        invariant_except_break
            spot(es.take(at as int), key@) == spot(es, key@),
        invariant
            at <= out@.len(),
            es == entries_of(out@),
            kc@ == key@,
        ensures
            at == spot(es, key@),
        decreases at,
    {
        let c = text::chars_of(out[at - 1].0.as_str());
        assert(es.take(at as int).last() == es[at - 1]);
        assert(es[at - 1].0 == out@[at - 1].0@);
        if text::not_after(c.as_slice(), kc.as_slice()) {
            break ;
        }
        assert(es.take(at as int).drop_last() =~= es.take(at - 1));
        at -= 1;
    }
    out.insert(at, (key, value));
    assert(entries_of(out@) =~= es.insert(at as int, (key@, value@)));
}

/// The text of an object with these entries, given as keys and texts of values.
pub fn render_object(entries: Vec<(String, String)>) -> (r: String)
    ensures
        r@ == object_text(entries_of(entries@)),
{
    let ghost all = entries_of(entries@);
    let mut left = entries;
    let mut backwards: Vec<(String, String)> = Vec::new();
    while left.len() > 0
        invariant
            left@.len() + backwards@.len() == all.len(),
            entries_of(left@) == all.take(left@.len() as int),
            forall|i: int|
                0 <= i < backwards@.len() ==> ((#[trigger] backwards@[i]).0@, backwards@[i].1@)
                    == all[all.len() - 1 - i],
        decreases left.len(),
    {
        let ghost n = left@.len();
        let ghost before = left@;
        if let Some(e) = left.pop() {
            assert(entries_of(before)[n - 1] == (e.0@, e.1@));
            backwards.push(e);
        }
        assert(entries_of(left@) =~= all.take(left@.len() as int)) by {
            assert forall|i: int| 0 <= i < left@.len() implies entries_of(left@)[i] == all[i] by {
                assert(entries_of(before)[i] == all[i]);
            }
        }
    }
    let mut sorted: Vec<(String, String)> = Vec::new();
    assert(entries_of(sorted@) =~= by_key(all.take(0)));
    while backwards.len() > 0
        invariant
            backwards@.len() <= all.len(),
            forall|i: int|
                0 <= i < backwards@.len() ==> ((#[trigger] backwards@[i]).0@, backwards@[i].1@)
                    == all[all.len() - 1 - i],
            entries_of(sorted@) == by_key(all.take(all.len() - backwards@.len())),
        decreases backwards.len(),
    {
        let ghost done = all.len() - backwards@.len();
        if let Some(e) = backwards.pop() {
            proof {
                assert(all.take(done + 1).drop_last() =~= all.take(done as int));
                assert(all.take(done + 1).last() == all[done as int]);
            }
            put_entry(&mut sorted, e.0, e.1);
        }
    }
    assert(all.take(all.len() as int) =~= all);
    let ghost es = by_key(all);
    let mut lines: Vec<Vec<char>> = Vec::new();
    let mut i: usize = 0;
    let ghost show = |e: (Seq<char>, Seq<char>)| entry_text(e);
    assert(text::runs(lines@) =~= es.take(0).map_values(show));
    while i < sorted.len()
        invariant
            i <= sorted@.len(),
            entries_of(sorted@) == es,
            show == (|e: (Seq<char>, Seq<char>)| entry_text(e)),
            text::runs(lines@) == es.take(i as int).map_values(show),
        decreases sorted.len() - i,
    {
        assert(es[i as int] == (sorted@[i as int].0@, sorted@[i as int].1@));
        let mut line = text::chars_of(json_string(sorted[i].0.as_str()).as_str());
        line.push(':');
        text::push_all(&mut line, text::chars_of(sorted[i].1.as_str()).as_slice());
        assert(line@ =~= entry_text(es[i as int]));
        let ghost before = text::runs(lines@);
        lines.push(line);
        i += 1;
        assert(text::runs(lines@) =~= before.push(entry_text(es[i - 1])));
        assert(text::runs(lines@) =~= es.take(i as int).map_values(show));
    }
    assert(es.take(i as int) =~= es);
    let mut sep: Vec<char> = Vec::new();
    sep.push(',');
    assert(sep@ =~= seq![',']);
    let body = text::join(&lines, sep.as_slice());
    let mut out: Vec<char> = Vec::new();
    out.push('{');
    text::push_all(&mut out, body.as_slice());
    out.push('}');
    assert(out@ =~= object_text(all));
    text::string_of(out.as_slice())
}

/// The canonical text of a value: signer and verifier derive the same characters
/// from it on every machine.
pub fn canonical_json(j: &Json) -> (r: String)
    ensures
        r@ == canonical(j@),
    decreases j,
{
    match j {
        Json::Null => text::copy_of("null"),
        Json::Bool(b) => if *b {
            text::copy_of("true")
        } else {
            text::copy_of("false")
        },
        Json::Number(t) => text::copy_of(t.as_str()),
        Json::Text(t) => json_string(t.as_str()),
        Json::Array(v) => {
            let mut lines: Vec<Vec<char>> = Vec::new();
            let mut i: usize = 0;
            let ghost all = v@;
            assert(text::runs(lines@) =~= canonical_items(docs_of(all.take(0))));
            while i < v.len()
                invariant
                    i <= v@.len(),
                    all == v@,
                    decreases_to!(j => v@),
                    text::runs(lines@) == canonical_items(docs_of(all.take(i as int))),
                decreases v.len() - i,
            {
                proof {
                    assert(all.take(i + 1).drop_last() =~= all.take(i as int));
                    let ds = docs_of(all.take(i as int));
                    assert(ds.push(doc_of(all[i as int])).drop_last() =~= ds);
                    assert(decreases_to!(v@ => v@[i as int]));
                }
                let line = text::chars_of(canonical_json(&v[i]).as_str());
                let ghost before = text::runs(lines@);
                lines.push(line);
                i += 1;
                assert(text::runs(lines@) =~= before.push(line@));
            }
            assert(all.take(i as int) =~= all);
            let mut sep: Vec<char> = Vec::new();
            sep.push(',');
            assert(sep@ =~= seq![',']);
            let body = text::join(&lines, sep.as_slice());
            let mut out: Vec<char> = Vec::new();
            out.push('[');
            text::push_all(&mut out, body.as_slice());
            out.push(']');
            assert(out@ =~= canonical(j@));
            text::string_of(out.as_slice())
        },
        Json::Object(v) => {
            let mut entries: Vec<(String, String)> = Vec::new();
            let mut i: usize = 0;
            let ghost all = v@;
            assert(entries_of(entries@) =~= canonical_members(members_of(all.take(0))));
            while i < v.len()
                invariant
                    i <= v@.len(),
                    all == v@,
                    decreases_to!(j => v@),
                    entries_of(entries@) == canonical_members(members_of(all.take(i as int))),
                decreases v.len() - i,
            {
                proof {
                    assert(all.take(i + 1).drop_last() =~= all.take(i as int));
                    let ms = members_of(all.take(i as int));
                    let m = (all[i as int].key@, doc_of(all[i as int].value));
                    assert(ms.push(m).drop_last() =~= ms);
                    assert(decreases_to!(v@ => v@[i as int]));
                    assert(decreases_to!(v@[i as int] => v@[i as int].value));
                }
                let t = canonical_json(&v[i].value);
                let ghost before = entries_of(entries@);
                entries.push((text::copy_of(v[i].key.as_str()), t));
                i += 1;
                assert(entries_of(entries@) =~= before.push((all[i - 1].key@, t@)));
            }
            assert(all.take(i as int) =~= all);
            render_object(entries)
        },
    }
}

/// What some members say, one by one.
pub proof fn lemma_members(s: Seq<Member>)
    ensures
        members_of(s).len() == s.len(),
        forall|i: int|
            0 <= i < s.len() ==> #[trigger] members_of(s)[i] == (s[i].key@, doc_of(s[i].value)),
    decreases s.len(),
{
    if s.len() > 0 {
        lemma_members(s.drop_last());
        assert forall|i: int| 0 <= i < s.len() implies #[trigger] members_of(s)[i] == (
            s[i].key@,
            doc_of(s[i].value),
        ) by {
            if i < s.len() - 1 {
                assert(members_of(s.drop_last())[i] == (
                    s.drop_last()[i].key@,
                    doc_of(s.drop_last()[i].value),
                ));
            }
        }
    }
}

/// The value under a key.
pub open spec fn find(ms: Seq<(Seq<char>, Doc)>, key: Seq<char>) -> Option<Doc>
    decreases ms.len(),
{
    if ms.len() == 0 {
        None
    } else if ms.last().0 == key {
        Some(ms.last().1)
    } else {
        find(ms.drop_last(), key)
    }
}

/// The value under a key of an object; none of what is no object.
pub open spec fn member(d: Doc, key: Seq<char>) -> Option<Doc> {
    match d {
        Doc::Object(ms) => find(ms, key),
        _ => None,
    }
}

/// The text under a key, if it is one.
pub open spec fn text_member(d: Doc, key: Seq<char>) -> Option<Seq<char>> {
    match member(d, key) {
        Some(Doc::Text(t)) => Some(t),
        _ => None,
    }
}

/// Members without those under a key.
pub open spec fn without(ms: Seq<(Seq<char>, Doc)>, key: Seq<char>) -> Seq<(Seq<char>, Doc)>
    decreases ms.len(),
{
    if ms.len() == 0 {
        ms
    } else if ms.last().0 == key {
        without(ms.drop_last(), key)
    } else {
        without(ms.drop_last(), key).push(ms.last())
    }
}

/// Place for a key among members.
pub open spec fn seat(ms: Seq<(Seq<char>, Doc)>, key: Seq<char>) -> int
    decreases ms.len(),
{
    if ms.len() == 0 || text::lex_le(ms.last().0, key) {
        ms.len() as int
    } else {
        seat(ms.drop_last(), key)
    }
}

/// Members with a value under a key, in place of what was there.
pub open spec fn with_member(ms: Seq<(Seq<char>, Doc)>, key: Seq<char>, value: Doc) -> Seq<
    (Seq<char>, Doc),
> {
    without(ms, key).insert(seat(without(ms, key), key), (key, value))
}

/// A value with a member; what is no object stays as it is.
pub open spec fn inserted(d: Doc, key: Seq<char>, value: Doc) -> Doc {
    match d {
        Doc::Object(ms) => Doc::Object(with_member(ms, key, value)),
        other => other,
    }
}

/// A value without the member under a key; what is no object stays as it is.
pub open spec fn removed(d: Doc, key: Seq<char>) -> Doc {
    match d {
        Doc::Object(ms) => Doc::Object(without(ms, key)),
        other => other,
    }
}

/// The place for a key is within the members or behind them.
pub proof fn lemma_seat(ms: Seq<(Seq<char>, Doc)>, key: Seq<char>)
    ensures
        0 <= seat(ms, key) <= ms.len(),
    decreases ms.len(),
{
    if ms.len() > 0 && !text::lex_le(ms.last().0, key) {
        lemma_seat(ms.drop_last(), key);
    }
}

proof fn lemma_find_inserted(
    ms: Seq<(Seq<char>, Doc)>,
    at: int,
    key: Seq<char>,
    value: Doc,
    other: Seq<char>,
)
    requires
        0 <= at <= ms.len(),
        find(ms, key) is None,
    ensures
        find(ms.insert(at, (key, value)), other) == if other == key {
            Some(value)
        } else {
            find(ms, other)
        },
    decreases ms.len(),
{
    let big = ms.insert(at, (key, value));
    if at == ms.len() {
        assert(big.drop_last() =~= ms);
    } else {
        let less = ms.drop_last();
        lemma_find_inserted(less, at, key, value, other);
        assert(big.drop_last() =~= less.insert(at, (key, value)));
        assert(big.last() == ms.last());
    }
}

proof fn lemma_without(ms: Seq<(Seq<char>, Doc)>, key: Seq<char>, other: Seq<char>)
    ensures
        find(without(ms, key), other) == if other == key {
            None
        } else {
            find(ms, other)
        },
        without(without(ms, key), key) == without(ms, key),
    decreases ms.len(),
{
    if ms.len() > 0 {
        lemma_without(ms.drop_last(), key, other);
        if ms.last().0 != key {
            let w = without(ms.drop_last(), key);
            assert(w.push(ms.last()).drop_last() =~= w);
        }
    }
}

/// A member that was put into an object is what a look under its key finds, and
/// what a look under any other key finds stays.
pub proof fn law_put_member_is_found(
    ms: Seq<(Seq<char>, Doc)>,
    key: Seq<char>,
    value: Doc,
    other: Seq<char>,
)
    ensures
        find(with_member(ms, key, value), key) == Some(value),
        other != key ==> find(with_member(ms, key, value), other) == find(ms, other),
        without(with_member(ms, key, value), key) == without(ms, key),
{
    let w = without(ms, key);
    lemma_without(ms, key, key);
    lemma_without(ms, key, other);
    lemma_seat(w, key);
    lemma_find_inserted(w, seat(w, key), key, value, key);
    lemma_find_inserted(w, seat(w, key), key, value, other);
    lemma_without_inserted(w, seat(w, key), key, value);
}

/// A removed member is gone, and what a look under any other key finds stays.
pub proof fn law_removed_member_is_gone(
    ms: Seq<(Seq<char>, Doc)>,
    key: Seq<char>,
    other: Seq<char>,
)
    ensures
        find(without(ms, key), key) is None,
        other != key ==> find(without(ms, key), other) == find(ms, other),
        without(without(ms, key), key) == without(ms, key),
{
    lemma_without(ms, key, key);
    lemma_without(ms, key, other);
}

impl Json {
    /// A text value.
    pub fn text(s: &str) -> (r: Json)
        ensures
            r@ == Doc::Text(s@),
    {
        Json::Text(text::copy_of(s))
    }

    /// A whole number.
    pub fn integer(n: i64) -> (r: Json)
        ensures
            r@ == Doc::Number(text::decimal(n as int)),
    {
        Json::Number(text::string_of(text::decimal_i64(n).as_slice()))
    }

    /// A text, or null.
    pub fn optional(s: &Option<String>) -> (r: Json)
        ensures
            r@ == optional_text(*s),
    {
        match s {
            Some(t) => Json::text(t.as_str()),
            None => Json::Null,
        }
    }

    /// An object without members.
    pub fn object() -> (r: Json)
        ensures
            r@ == Doc::Object(Seq::<(Seq<char>, Doc)>::empty()),
    {
        let v: Vec<Member> = Vec::new();
        assert(members_of(v@) =~= Seq::<(Seq<char>, Doc)>::empty());
        Json::Object(v)
    }

    /// The value under a key of an object.
    pub fn get(&self, key: &str) -> (r: Option<&Json>)
        ensures
            match r {
                Some(j) => member(self@, key@) == Some(j@),
                None => member(self@, key@) is None,
            },
    {
        match self {
            Json::Object(v) => {
                let mut n: usize = v.len();
                proof {
                    lemma_members(v@);
                }
                let ghost ms = members_of(v@);
                assert(ms.take(n as int) =~= ms);
                while n > 0
                    invariant
                        n <= v@.len(),
                        ms == members_of(v@),
                        ms.len() == v@.len(),
                        self@ == Doc::Object(ms),
                        find(ms.take(n as int), key@) == find(ms, key@),
                        forall|i: int|
                            0 <= i < v@.len() ==> #[trigger] ms[i] == (
                                v@[i].key@,
                                doc_of(v@[i].value),
                            ),
                    decreases n,
                {
                    assert(ms.take(n as int).last() == ms[n - 1]);
                    assert(ms.take(n as int).drop_last() =~= ms.take(n - 1));
                    if text::same(v[n - 1].key.as_str(), key) {
                        return Some(&v[n - 1].value);
                    }
                    n -= 1;
                }
                None
            },
            _ => None,
        }
    }

    /// The text under a key of an object, if it is one.
    pub fn get_text(&self, key: &str) -> (r: Option<&String>)
        ensures
            match r {
                Some(s) => text_member(self@, key@) == Some(s@),
                None => text_member(self@, key@) is None,
            },
    {
        match self.get(key) {
            Some(Json::Text(t)) => Some(t),
            _ => None,
        }
    }

    /// A copy of the value.
    pub fn copy(&self) -> (r: Json)
        ensures
            r@ == self@,
        decreases self,
    {
        match self {
            Json::Null => Json::Null,
            Json::Bool(b) => Json::Bool(*b),
            Json::Number(t) => Json::Number(text::copy_of(t.as_str())),
            Json::Text(t) => Json::Text(text::copy_of(t.as_str())),
            Json::Array(v) => {
                let mut out: Vec<Json> = Vec::new();
                let mut i: usize = 0;
                while i < v.len()
                    invariant
                        i <= v@.len(),
                        decreases_to!(self => v@),
                        docs_of(out@) == docs_of(v@.take(i as int)),
                    decreases v.len() - i,
                {
                    proof {
                        assert(v@.take(i + 1).drop_last() =~= v@.take(i as int));
                        assert(decreases_to!(v@ => v@[i as int]));
                    }
                    let ghost before = out@;
                    out.push(v[i].copy());
                    i += 1;
                    assert(out@.drop_last() =~= before);
                }
                assert(v@.take(i as int) =~= v@);
                Json::Array(out)
            },
            Json::Object(v) => {
                let mut out: Vec<Member> = Vec::new();
                let mut i: usize = 0;
                while i < v.len()
                    invariant
                        i <= v@.len(),
                        decreases_to!(self => v@),
                        members_of(out@) == members_of(v@.take(i as int)),
                    decreases v.len() - i,
                {
                    proof {
                        assert(v@.take(i + 1).drop_last() =~= v@.take(i as int));
                        assert(decreases_to!(v@ => v@[i as int]));
                        assert(decreases_to!(v@[i as int] => v@[i as int].value));
                    }
                    let ghost before = out@;
                    out.push(
                        Member {
                            key: text::copy_of(v[i].key.as_str()),
                            value: v[i].value.copy(),
                        },
                    );
                    i += 1;
                    assert(out@.drop_last() =~= before);
                }
                assert(v@.take(i as int) =~= v@);
                Json::Object(out)
            },
        }
    }

    /// A copy of the value in which the two zeros of floating point are one.
    fn level(&self) -> (r: Json)
        ensures
            r@ == leveled(self@),
        decreases self,
    {
        match self {
            Json::Null => Json::Null,
            Json::Bool(b) => Json::Bool(*b),
            Json::Number(t) => if text::same(t.as_str(), "-0.0") {
                Json::Number(text::copy_of("0.0"))
            } else {
                Json::Number(text::copy_of(t.as_str()))
            },
            Json::Text(t) => Json::Text(text::copy_of(t.as_str())),
            Json::Array(v) => {
                let mut out: Vec<Json> = Vec::new();
                let mut i: usize = 0;
                assert(docs_of(v@.take(0)) =~= Seq::<Doc>::empty());
                while i < v.len()
                    invariant
                        i <= v@.len(),
                        decreases_to!(self => v@),
                        docs_of(out@) == leveled_items(docs_of(v@.take(i as int))),
                    decreases v.len() - i,
                {
                    let ghost before = out@;
                    let ghost ds = docs_of(v@.take(i as int));
                    proof {
                        assert(v@.take(i + 1).drop_last() =~= v@.take(i as int));
                        assert(decreases_to!(v@ => v@[i as int]));
                        assert(ds.push(doc_of(v@[i as int])).drop_last() =~= ds);
                    }
                    out.push(v[i].level());
                    i += 1;
                    assert(out@.drop_last() =~= before);
                }
                assert(v@.take(i as int) =~= v@);
                Json::Array(out)
            },
            Json::Object(v) => {
                let mut out: Vec<Member> = Vec::new();
                let mut i: usize = 0;
                assert(members_of(v@.take(0)) =~= Seq::<(Seq<char>, Doc)>::empty());
                while i < v.len()
                    invariant
                        i <= v@.len(),
                        decreases_to!(self => v@),
                        members_of(out@) == leveled_members(members_of(v@.take(i as int))),
                    decreases v.len() - i,
                {
                    let ghost before = out@;
                    let ghost ms = members_of(v@.take(i as int));
                    proof {
                        assert(v@.take(i + 1).drop_last() =~= v@.take(i as int));
                        assert(decreases_to!(v@ => v@[i as int]));
                        assert(decreases_to!(v@[i as int] => v@[i as int].value));
                        assert(ms.push(
                            (v@[i as int].key@, doc_of(v@[i as int].value)),
                        ).drop_last() =~= ms);
                    }
                    out.push(
                        Member {
                            key: text::copy_of(v[i].key.as_str()),
                            value: v[i].value.level(),
                        },
                    );
                    i += 1;
                    assert(out@.drop_last() =~= before);
                }
                assert(v@.take(i as int) =~= v@);
                Json::Object(out)
            },
        }
    }

    /// Whether two values say the same.
    pub fn same(&self, other: &Json) -> (r: bool)
        ensures
            r == equal(self@, other@),
    {
        let a = canonical_json(&self.level());
        let b = canonical_json(&other.level());
        text::same(a.as_str(), b.as_str())
    }
}

/// A text, or null.
pub open spec fn optional_text(s: Option<String>) -> Doc {
    match s {
        Some(t) => Doc::Text(t@),
        None => Doc::Null,
    }
}

proof fn lemma_without_inserted(ms: Seq<(Seq<char>, Doc)>, at: int, key: Seq<char>, value: Doc)
    requires
        0 <= at <= ms.len(),
    ensures
        without(ms.insert(at, (key, value)), key) == without(ms, key),
    decreases ms.len(),
{
    let big = ms.insert(at, (key, value));
    if at == ms.len() {
        assert(big.drop_last() =~= ms);
    } else {
        lemma_without_inserted(ms.drop_last(), at, key, value);
        assert(big.drop_last() =~= ms.drop_last().insert(at, (key, value)));
        assert(big.last() == ms.last());
    }
}

proof fn lemma_nothing_without(ms: Seq<(Seq<char>, Doc)>, key: Seq<char>)
    requires
        forall|i: int| 0 <= i < ms.len() ==> (#[trigger] ms[i]).0 != key,
    ensures
        without(ms, key) == ms,
    decreases ms.len(),
{
    if ms.len() > 0 {
        let less = ms.drop_last();
        assert forall|i: int| 0 <= i < less.len() implies (#[trigger] less[i]).0 != key by {
            assert(less[i] == ms[i]);
        }
        lemma_nothing_without(less, key);
        assert(ms[ms.len() - 1].0 != key);
        assert(less.push(ms.last()) =~= ms);
    }
}

/// Removes the members under a key.
fn drop_member(from: Vec<Member>, key: &str) -> (r: Vec<Member>)
    ensures
        members_of(r@) == without(members_of(from@), key@),
{
    let ghost goal = without(members_of(from@), key@);
    let mut v = from;
    let mut i: usize = 0;
    while i < v.len()
        invariant
            i <= v@.len(),
            goal == without(members_of(from@), key@),
            without(members_of(v@), key@) == goal,
            forall|j: int| 0 <= j < i ==> (#[trigger] v@[j]).key@ != key@,
        decreases v.len() - i,
    {
        if text::same(v[i].key.as_str(), key) {
            let ghost before = v@;
            let _ = v.remove(i);
            proof {
                lemma_members(before);
                lemma_members(v@);
                let ms = members_of(v@);
                let gone = doc_of(before[i as int].value);
                assert(members_of(before) =~= ms.insert(i as int, (key@, gone))) by {
                    assert forall|k: int| 0 <= k < before.len() implies members_of(before)[k]
                        == ms.insert(i as int, (key@, gone))[k] by {
                        assert(members_of(before)[k] == (
                            before[k].key@,
                            doc_of(before[k].value),
                        ));
                        if k < i {
                            assert(ms[k] == (v@[k].key@, doc_of(v@[k].value)));
                        } else if k > i {
                            assert(ms[k - 1] == (v@[k - 1].key@, doc_of(v@[k - 1].value)));
                        }
                    }
                }
                lemma_without_inserted(ms, i as int, key@, gone);
            }
        } else {
            i += 1;
        }
    }
    proof {
        lemma_members(v@);
        let ms = members_of(v@);
        assert forall|k: int| 0 <= k < ms.len() implies (#[trigger] ms[k]).0 != key@ by {
            assert(ms[k] == (v@[k].key@, doc_of(v@[k].value)));
        }
        lemma_nothing_without(ms, key@);
    }
    v
}

impl Json {
    /// The value with a member under a key, in place of what was there; what is
    /// no object stays as it is.
    pub fn insert(self, key: &str, value: Json) -> (r: Json)
        ensures
            r@ == inserted(self@, key@, value@),
    {
        match self {
            Json::Object(members) => {
                let mut v = drop_member(members, key);
                proof {
                    lemma_members(v@);
                }
                let ghost ms = members_of(v@);
                let kc = text::chars_of(key);
                let mut at: usize = v.len();
                assert(ms.take(at as int) =~= ms);
                while at > 0
                    invariant_except_break
                        seat(ms.take(at as int), key@) == seat(ms, key@),
                    invariant
                        at <= v@.len(),
                        ms == members_of(v@),
                        ms.len() == v@.len(),
                        kc@ == key@,
                        forall|k: int|
                            0 <= k < v@.len() ==> #[trigger] ms[k] == (
                                v@[k].key@,
                                doc_of(v@[k].value),
                            ),
                    ensures
                        at == seat(ms, key@),
                    decreases at,
                {
                    let c = text::chars_of(v[at - 1].key.as_str());
                    assert(ms.take(at as int).last() == ms[at - 1]);
                    if text::not_after(c.as_slice(), kc.as_slice()) {
                        break ;
                    }
                    assert(ms.take(at as int).drop_last() =~= ms.take(at - 1));
                    at -= 1;
                }
                let ghost before = v@;
                let ghost said = doc_of(value);
                v.insert(at, Member { key: text::copy_of(key), value });
                proof {
                    lemma_members(v@);
                    assert(members_of(v@) =~= ms.insert(at as int, (key@, said))) by {
                        assert forall|k: int| 0 <= k < v@.len() implies members_of(v@)[k]
                            == ms.insert(at as int, (key@, said))[k] by {
                            assert(members_of(v@)[k] == (v@[k].key@, doc_of(v@[k].value)));
                            if k < at {
                                assert(ms[k] == (before[k].key@, doc_of(before[k].value)));
                            } else if k > at {
                                assert(ms[k - 1] == (
                                    before[k - 1].key@,
                                    doc_of(before[k - 1].value),
                                ));
                            }
                        }
                    }
                }
                Json::Object(v)
            },
            other => other,
        }
    }

    /// The value without the member under a key; what is no object stays as it is.
    pub fn remove(self, key: &str) -> (r: Json)
        ensures
            r@ == removed(self@, key@),
    {
        match self {
            Json::Object(members) => Json::Object(drop_member(members, key)),
            other => other,
        }
    }
}

/// Whether entries stand in the strict order of their keys.
pub open spec fn ascending(s: Seq<(Seq<char>, Seq<char>)>) -> bool {
    forall|i: int, j: int|
        0 <= i < j < s.len() ==> text::lex_le(#[trigger] s[i].0, #[trigger] s[j].0) && s[i].0
            != s[j].0
}

/// Whether no two entries share a key.
pub open spec fn distinct_keys(s: Seq<(Seq<char>, Seq<char>)>) -> bool {
    forall|i: int, j: int| 0 <= i < j < s.len() ==> #[trigger] s[i].0 != #[trigger] s[j].0
}

proof fn lemma_lex_antisymmetric(a: Seq<char>, b: Seq<char>)
    requires
        text::lex_le(a, b),
        text::lex_le(b, a),
    ensures
        a == b,
    decreases a.len(),
{
    if a.len() > 0 && b.len() > 0 {
        lemma_lex_antisymmetric(a.drop_first(), b.drop_first());
        assert(a =~= seq![a[0]] + a.drop_first());
        assert(b =~= seq![b[0]] + b.drop_first());
    } else {
        assert(a =~= b);
    }
}

proof fn lemma_spot_order(s: Seq<(Seq<char>, Seq<char>)>, key: Seq<char>)
    requires
        ascending(s),
    ensures
        0 <= spot(s, key) <= s.len(),
        forall|i: int| 0 <= i < spot(s, key) ==> text::lex_le(#[trigger] s[i].0, key),
        forall|i: int| spot(s, key) <= i < s.len() ==> text::lex_le(key, #[trigger] s[i].0),
    decreases s.len(),
{
    if s.len() > 0 {
        if text::lex_le(s.last().0, key) {
            assert forall|i: int| 0 <= i < s.len() implies text::lex_le(#[trigger] s[i].0, key) by {
                if i < s.len() - 1 {
                    assert(text::lex_le(s[i].0, s[s.len() - 1].0));
                    text::lemma_lex_transitive(s[i].0, s.last().0, key);
                }
            }
        } else {
            let less = s.drop_last();
            assert forall|i: int, j: int| 0 <= i < j < less.len() implies text::lex_le(
                #[trigger] less[i].0,
                #[trigger] less[j].0,
            ) && less[i].0 != less[j].0 by {
                assert(less[i] == s[i] && less[j] == s[j]);
            }
            lemma_spot_order(less, key);
            text::lemma_lex_total(s.last().0, key);
            assert forall|i: int| spot(s, key) <= i < s.len() implies text::lex_le(
                key,
                #[trigger] s[i].0,
            ) by {
                if i < s.len() - 1 {
                    assert(less[i] == s[i]);
                }
            }
            assert forall|i: int| 0 <= i < spot(s, key) implies text::lex_le(
                #[trigger] s[i].0,
                key,
            ) by {
                assert(less[i] == s[i]);
            }
        }
    }
}

proof fn lemma_by_key(s: Seq<(Seq<char>, Seq<char>)>)
    requires
        distinct_keys(s),
    ensures
        ascending(by_key(s)),
        by_key(s).len() == s.len(),
        by_key(s).to_multiset() == s.to_multiset(),
        forall|i: int| 0 <= i < by_key(s).len() ==> s.contains(#[trigger] by_key(s)[i]),
    decreases s.len(),
{
    if s.len() > 0 {
        let less = s.drop_last();
        let x = s.last();
        assert forall|i: int, j: int| 0 <= i < j < less.len() implies #[trigger] less[i].0
            != #[trigger] less[j].0 by {
            assert(less[i] == s[i] && less[j] == s[j]);
        }
        lemma_by_key(less);
        let b = by_key(less);
        lemma_spot_order(b, x.0);
        let at = spot(b, x.0);
        let after = by_key(s);
        assert forall|i: int| 0 <= i < b.len() implies #[trigger] b[i].0 != x.0 by {
            assert(less.contains(b[i]));
            let k = choose|k: int| 0 <= k < less.len() && less[k] == b[i];
            assert(s[k] == b[i] && s[s.len() - 1] == x);
        }
        assert forall|i: int, j: int| 0 <= i < j < after.len() implies text::lex_le(
            #[trigger] after[i].0,
            #[trigger] after[j].0,
        ) && after[i].0 != after[j].0 by {
            if j == at {
                assert(after[i] == b[i]);
            } else if i == at {
                assert(after[j] == b[j - 1]);
            } else {
                let bi = if i < at {
                    i
                } else {
                    i - 1
                };
                let bj = if j < at {
                    j
                } else {
                    j - 1
                };
                assert(after[i] == b[bi] && after[j] == b[bj]);
            }
        }
        vstd::seq_lib::to_multiset_insert(b, at, x);
        vstd::seq_lib::to_multiset_build(less, x);
        assert(less.push(x) =~= s);
        assert forall|i: int| 0 <= i < after.len() implies s.contains(#[trigger] after[i]) by {
            if i == at {
                assert(s[s.len() - 1] == x);
            } else {
                let bi = if i < at {
                    i
                } else {
                    i - 1
                };
                assert(after[i] == b[bi]);
                assert(less.contains(b[bi]));
                let k = choose|k: int| 0 <= k < less.len() && less[k] == b[bi];
                assert(s[k] == after[i]);
            }
        }
    }
}

proof fn lemma_last_is_greatest(
    a: Seq<(Seq<char>, Seq<char>)>,
    b: Seq<(Seq<char>, Seq<char>)>,
)
    requires
        ascending(a),
        ascending(b),
        a.len() > 0,
        b.len() > 0,
        a.to_multiset() == b.to_multiset(),
    ensures
        a.last() == b.last(),
{
    a.to_multiset_ensures();
    b.to_multiset_ensures();
    assert(a.contains(a.last())) by {
        assert(a[a.len() - 1] == a.last());
    }
    assert(b.contains(b.last())) by {
        assert(b[b.len() - 1] == b.last());
    }
    assert(b.to_multiset().count(a.last()) > 0);
    assert(a.to_multiset().count(b.last()) > 0);
    let i = choose|i: int| 0 <= i < b.len() && b[i] == a.last();
    let j = choose|j: int| 0 <= j < a.len() && a[j] == b.last();
    if i < b.len() - 1 && j < a.len() - 1 {
        assert(text::lex_le(b[i].0, b[b.len() - 1].0));
        assert(text::lex_le(a[j].0, a[a.len() - 1].0));
        lemma_lex_antisymmetric(a.last().0, b.last().0);
        assert(b[i].0 != b[b.len() - 1].0);
    }
}

proof fn lemma_one_ascending_order(
    a: Seq<(Seq<char>, Seq<char>)>,
    b: Seq<(Seq<char>, Seq<char>)>,
)
    requires
        ascending(a),
        ascending(b),
        a.to_multiset() == b.to_multiset(),
    ensures
        a == b,
    decreases a.len(),
{
    a.to_multiset_ensures();
    b.to_multiset_ensures();
    assert(a.len() == b.len());
    if a.len() == 0 {
        assert(a =~= b);
    } else {
        lemma_last_is_greatest(a, b);
        let x = a.last();
        let la = a.drop_last();
        let lb = b.drop_last();
        vstd::seq_lib::to_multiset_build(la, x);
        vstd::seq_lib::to_multiset_build(lb, x);
        assert(la.push(x) =~= a);
        assert(lb.push(x) =~= b);
        assert(la.to_multiset() =~= a.to_multiset().remove(x));
        assert(lb.to_multiset() =~= b.to_multiset().remove(x));
        assert(ascending(la)) by {
            assert forall|i: int, j: int| 0 <= i < j < la.len() implies text::lex_le(
                #[trigger] la[i].0,
                #[trigger] la[j].0,
            ) && la[i].0 != la[j].0 by {
                assert(la[i] == a[i] && la[j] == a[j]);
            }
        }
        assert(ascending(lb)) by {
            assert forall|i: int, j: int| 0 <= i < j < lb.len() implies text::lex_le(
                #[trigger] lb[i].0,
                #[trigger] lb[j].0,
            ) && lb[i].0 != lb[j].0 by {
                assert(lb[i] == b[i] && lb[j] == b[j]);
            }
        }
        lemma_one_ascending_order(la, lb);
    }
}

/// The canonical text of an object does not depend on the order in which its
/// members are listed.
pub proof fn law_member_order_does_not_matter(a: Seq<(Seq<char>, Doc)>, b: Seq<(Seq<char>, Doc)>)
    requires
        distinct_keys(canonical_members(a)),
        distinct_keys(canonical_members(b)),
        canonical_members(a).to_multiset() == canonical_members(b).to_multiset(),
    ensures
        canonical(Doc::Object(a)) == canonical(Doc::Object(b)),
{
    lemma_by_key(canonical_members(a));
    lemma_by_key(canonical_members(b));
    lemma_one_ascending_order(by_key(canonical_members(a)), by_key(canonical_members(b)));
}

/// The whole number under a key, if it is one that fits.
pub open spec fn integer_member(d: Doc, key: Seq<char>) -> Option<i64> {
    match member(d, key) {
        Some(Doc::Number(t)) => text::integer_of(t),
        _ => None,
    }
}

impl Json {
    /// The whole number under a key of an object, if it is one that fits.
    pub fn get_integer(&self, key: &str) -> (r: Option<i64>)
        ensures
            r == integer_member(self@, key@),
    {
        match self.get(key) {
            Some(Json::Number(t)) => {
                let cs = text::chars_of(t.as_str());
                text::parse_i64(cs.as_slice())
            },
            _ => None,
        }
    }
}

} // verus!
