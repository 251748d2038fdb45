//! Tests of what the services share: texts, paths, documents, limits and swaps.
use voltpanel::archive::{entry_kind, masked_mode, ArchiveError, EntryKind, Extraction, Limits, MAX_ARCHIVE_ENTRIES};
use voltpanel::json::{canonical_json, Json, Member};
use voltpanel::paths;
use voltpanel::swap::{exchange_dirs, exchange_step, Outcome, SwapPhase};
use voltpanel::text;

fn chars(s: &str) -> Vec<char> {
    s.chars().collect()
}

fn back(v: &[char]) -> String {
    v.iter().collect()
}

fn all(v: Vec<Vec<char>>) -> Vec<String> {
    v.iter().map(|p| back(p)).collect()
}

#[test]
fn a_member_that_was_put_is_found() {
    let j = Json::object().insert("a", Json::integer(1)).insert("b", Json::text("x"));
    assert_eq!(j.get_integer("a"), Some(1));
    let j = j.insert("a", Json::integer(2));
    assert_eq!(j.get_integer("a"), Some(2));
    assert_eq!(canonical_json(&j), r#"{"a":2,"b":"x"}"#);
    let j = j.remove("a");
    assert!(j.get("a").is_none());
    assert_eq!(j.get_text("b").unwrap(), "x");
    assert_eq!(j.get_integer("b"), None);
}

#[test]
fn member_order_does_not_matter() {
    let m = |k: &str, n| Member { key: k.into(), value: Json::integer(n) };
    let a = Json::Object(vec![m("x", 1), m("y", 2)]);
    let b = Json::Object(vec![m("y", 2), m("x", 1)]);
    assert!(a.same(&b));
    assert_eq!(canonical_json(&a), canonical_json(&b));
    assert!(!a.same(&Json::Object(vec![m("x", 1), m("y", 3)])));
    assert!(a.copy().same(&a));
}

#[test]
fn strings_are_escaped_as_json() {
    let odd = "a\"b\\c\n\r\t\u{8}\u{c}\u{1}\u{7f}\u{e9}\u{1f600}";
    assert_eq!(canonical_json(&Json::text(odd)), serde_json::to_string(odd).unwrap());
    assert_eq!(canonical_json(&Json::Array(vec![Json::Null, Json::Bool(true), Json::optional(&None)])), "[null,true,null]");
}

#[test]
fn extraction_keeps_its_limits() {
    let mut whole =
        Extraction::new(Limits { max_entries: 2, max_file: u64::MAX, max_total: u64::MAX });
    assert_eq!(whole.begin_file(7).unwrap(), u64::MAX);
    whole.end_file(7).unwrap();
    assert_eq!(whole.begin_file(u64::MAX - 7).unwrap(), u64::MAX - 6);
    whole.end_file(u64::MAX - 6).unwrap();
    assert_eq!(whole.total, u64::MAX);
    let mut x = Extraction::new(Limits { max_entries: 2, max_file: 5, max_total: 8 });
    assert_eq!(x.admit_count(3), Err(ArchiveError::TooManyEntries { max: 2 }));
    assert_eq!([b'0', b'1', b'2', b'3', b'5', 0].map(entry_kind), {
        let (f, l, d) = (EntryKind::File, EntryKind::Link, EntryKind::Directory);
        [f, l, l, f, d, f]
    });
    x.next_entry(EntryKind::File).unwrap();
    assert_eq!(x.begin_file(6), Err(ArchiveError::TooLarge));
    assert_eq!(x.begin_file(5), Ok(6));
    x.end_file(5).unwrap();
    assert_eq!(x.begin_file(3), Ok(4));
    assert_eq!(x.end_file(4), Err(ArchiveError::TooLarge));
    let mut y = x;
    assert_eq!(y.next_entry(EntryKind::Link), Err(ArchiveError::LinkEntry));
    x.next_entry(EntryKind::Directory).unwrap();
    let err = x.next_entry(EntryKind::File).unwrap_err();
    assert_eq!(err.message(), "archive has too many entries (max 2)");
    assert_eq!(Limits::standard().max_entries, MAX_ARCHIVE_ENTRIES);
    assert_eq!(masked_mode(0o7755), 0o755);
}

#[test]
fn paths_are_taken_by_their_parts() {
    assert_eq!(paths::join("/a", "b"), "/a/b");
    assert_eq!(paths::join("/a/", "b"), "/a/b");
    assert_eq!(paths::join("/a", "/b"), "/b");
    assert_eq!(all(paths::parts_of(&chars("//a/./b/"))), vec!["a", "b"]);
    assert_eq!(paths::file_name(&chars("a/b/")).map(|v| back(&v)), Some("b".to_string()));
    assert!(paths::file_name(&chars("a/..")).is_none());
    assert!(paths::within("/a/b", "/a") && paths::within("/a", "/a"));
    assert!(!paths::within("/ab", "/a") && !paths::within("a/b", "/a"));
}

#[test]
fn texts_are_taken_by_their_characters() {
    assert_eq!(all(text::split(&chars("a,,b"), ',')), vec!["a", "", "b"]);
    assert_eq!(text::trim_string(" \u{a0}x\n"), "x");
    assert_eq!(text::byte_length("\u{e9}a"), 3);
    assert_eq!(back(&text::decimal_i64(i64::MIN)), i64::MIN.to_string());
    assert_eq!(back(&text::decimal_u64(u64::MAX)), u64::MAX.to_string());
    assert_eq!(text::parse_u64(&chars("18446744073709551615")), Some(u64::MAX));
    assert_eq!(text::parse_u64(&chars("18446744073709551616")), None);
    assert_eq!(text::parse_u64(&chars("+5")), "+5".parse::<u64>().ok());
    assert_eq!(text::parse_i64(&chars("-9223372036854775808")), Some(i64::MIN));
    assert_eq!(text::parse_i64(&chars("-")), None);
    assert_eq!(text::find(&chars("abcabc"), &chars("ca")), Some(2));
    assert_eq!(text::last_line_of(&chars("a\nb\n")).map(|v| back(&v)), Some("b".to_string()));
    for c in ['\u{1}', 'a', '\u{85}', '\u{9f}', '\u{a0}', '\u{2028}', '\u{3000}'] {
        assert_eq!(text::is_control_char(c), c.is_control(), "{c:?}");
        assert_eq!(text::is_white_space(c), c.is_whitespace(), "{c:?}");
        assert_eq!(text::width_of(c), c.len_utf8());
    }
}

#[test]
fn a_swap_without_kernel_help_keeps_a_copy_at_every_step() {
    assert_eq!(exchange_dirs(true, false), SwapPhase::Exchange);
    let mut p = exchange_step(SwapPhase::Exchange, Outcome::Unsupported, false);
    assert_eq!(p, SwapPhase::Aside);
    p = exchange_step(p, Outcome::Done, false);
    assert_eq!(p, SwapPhase::Insert);
    // The new directory cannot be moved in: the old one comes back.
    p = exchange_step(p, Outcome::Failed, false);
    assert_eq!(p, SwapPhase::Rollback);
    assert_eq!(exchange_step(p, Outcome::Done, false), SwapPhase::Refused);
    assert_eq!(exchange_step(SwapPhase::Aside, Outcome::Failed, false), SwapPhase::Refused);
}
