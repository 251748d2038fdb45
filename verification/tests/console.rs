//! Tests of the console: its ring of lines, its events and its log.
use std::collections::HashSet;
use voltpanel::services::console::{
    drop_server, merge_partial, plan_log_chunk, sanitize_log_text, warn_once,
    write_stdin, ConsoleEntry, ConsoleEvent, ConsoleHub, LineBuf, LineKind, LogPlan, StdinError,
    StdinOutcome, TooManySubscribers, BUFFER_CAP, LOG_ROTATE_BYTES, MAX_SUBSCRIBERS_PER_SERVER,
    PARTIAL_CAP, PARTIAL_TRUNC_MARKER,
};

fn event(hub: &mut ConsoleHub, chunk: &str, kind: LineKind) -> ConsoleEvent {
    hub.append(1, chunk, kind).expect("an append sends an event").event
}

fn told(e: &ConsoleEvent) -> (u64, &str, &str, bool, LineKind) {
    (e.0, e.1.as_str(), e.2.as_str(), e.3, e.4)
}

fn texts(lines: Vec<(u64, ConsoleEntry)>) -> Vec<(u64, String)> {
    lines.into_iter().map(|(s, e)| (s, e.text)).collect()
}

#[test]
fn ids_are_monotonic_across_chunks() {
    let mut hub = ConsoleHub::new();
    hub.append(1, "alpha\nbeta\n", LineKind::Runtime);
    hub.append(1, "gamma\n", LineKind::Runtime);
    let (lines, truncated) = hub.history(1, 0);
    assert!(!truncated);
    let seqs: Vec<u64> = lines.iter().map(|(s, _)| *s).collect();
    assert_eq!(seqs, vec![1, 2, 3]);
    let text: Vec<&str> = lines.iter().map(|(_, e)| e.text.as_str()).collect();
    assert_eq!(text, vec!["alpha", "beta", "gamma"]);
    assert!(lines.iter().all(|(_, e)| e.kind == LineKind::Runtime));
}

#[test]
fn history_after_known_id_returns_exactly_newer_lines() {
    let mut hub = ConsoleHub::new();
    hub.append(1, "a\nb\nc\nd\ne\n", LineKind::Runtime);
    let (lines, truncated) = hub.history(1, 2);
    assert!(!truncated);
    let expect: Vec<(u64, &str)> = vec![(3, "c"), (4, "d"), (5, "e")];
    assert_eq!(lines.len(), expect.len());
    for ((s, e), (es, el)) in lines.iter().zip(&expect) {
        assert_eq!(*s, *es);
        assert_eq!(e.text, *el);
    }
}

#[test]
fn eviction_past_capacity_reports_truncated() {
    let mut hub = ConsoleHub::new();
    for i in 0..(BUFFER_CAP + 50) {
        hub.append(1, &format!("line{i}\n"), LineKind::Runtime);
    }
    let (lines, truncated) = hub.history(1, 1);
    assert!(truncated);
    assert_eq!(lines.len(), BUFFER_CAP);
    assert_eq!(lines.first().map(|(s, _)| *s), Some(51));
    assert_eq!(lines.last().map(|(s, _)| *s), Some(550));
}

#[test]
fn id_newer_than_everything_returns_empty() {
    let mut hub = ConsoleHub::new();
    hub.append(1, "a\nb\n", LineKind::Runtime);
    let (lines, truncated) = hub.history(1, 2);
    assert!(lines.is_empty());
    assert!(!truncated);
}

#[test]
fn partial_lines_keep_their_seq_until_completed() {
    let mut hub = ConsoleHub::new();
    hub.append(1, "hel", LineKind::Runtime);
    hub.append(1, "lo\n", LineKind::Runtime);
    hub.append(1, "bye", LineKind::Runtime);
    let (lines, truncated) = hub.history(1, 0);
    assert!(!truncated);
    assert_eq!(texts(lines), vec![(1, "hello".to_string()), (2, "bye".to_string())]);
}

#[test]
fn clear_keeps_sequence_monotonic() {
    let mut hub = ConsoleHub::new();
    hub.append(1, "a\nb\nc\n", LineKind::Runtime);
    hub.clear(1);
    hub.append(1, "d\n", LineKind::Runtime);
    hub.append(1, "e\n", LineKind::Runtime);
    let (lines, truncated) = hub.history(1, 0);
    assert!(truncated, "a post-clear ring cannot resume from 0");
    let seqs: Vec<u64> = lines.iter().map(|(s, _)| *s).collect();
    assert_eq!(seqs, vec![4, 5], "seqs keep counting across clear");
}

#[test]
fn stale_cursor_after_clear_still_sees_new_lines() {
    let mut hub = ConsoleHub::new();
    hub.append(1, "a\nb\nc\n", LineKind::Runtime);
    hub.clear(1);
    hub.append(1, "d\n", LineKind::Runtime);
    let (lines, truncated) = hub.history(1, 3);
    assert!(!truncated);
    assert_eq!(texts(lines), vec![(4, "d".to_string())]);
}

#[test]
fn snapshot_reports_partial_and_last_completed() {
    let mut hub = ConsoleHub::new();
    hub.append(1, "a\n", LineKind::Runtime);
    hub.append(1, "hel", LineKind::Runtime);
    let (_, _, partial, last_ok) = hub.snapshot(1, 0);
    assert!(partial);
    assert_eq!(last_ok, 1);
    hub.append(1, "lo\n", LineKind::Runtime);
    let (lines, _, partial, last_ok) = hub.snapshot(1, 0);
    assert!(!partial);
    assert_eq!(last_ok, 2);
    assert_eq!(texts(lines), vec![(1, "a".to_string()), (2, "hello".to_string())]);
}

#[test]
fn history_resync_covers_lagged_gap() {
    let mut hub = ConsoleHub::new();
    for i in 0..300 {
        hub.append(1, &format!("l{i}\n"), LineKind::Runtime);
    }
    let (lines, _) = hub.history(1, 0);
    assert_eq!(lines.len(), 300);
    assert_eq!(lines.first().map(|(s, _)| *s), Some(1));
    assert_eq!(lines.last().map(|(s, _)| *s), Some(300));
}

#[test]
fn broadcast_chunks_carry_monotonic_seq_and_partial_flag() {
    let mut hub = ConsoleHub::new();
    let k = LineKind::Runtime;
    assert_eq!(told(&event(&mut hub, "a\n", k)), (1, "a\n", "a", false, k));
    assert_eq!(told(&event(&mut hub, "hel", k)), (2, "hel", "hel", true, k));
    assert_eq!(told(&event(&mut hub, "lo", k)), (2, "lo", "hello", true, k));
    assert_eq!(told(&event(&mut hub, "\n", k)), (2, "\n", "hello", false, k));
    assert_eq!(told(&event(&mut hub, "b\n", k)), (3, "b\n", "b", false, k));
    assert_eq!(hub.history(1, 0).0.len(), 3);
}

#[test]
fn broadcast_chunk_with_embedded_complete_line_reports_new_partial_seq() {
    let mut hub = ConsoleHub::new();
    let k = LineKind::Runtime;
    assert_eq!(told(&event(&mut hub, "a\nb", k)), (2, "a\nb", "b", true, k));
    assert_eq!(told(&event(&mut hub, "c\n", k)), (2, "c\n", "bc", false, k));
}

#[test]
fn clear_wipes_ring_and_partial_state() {
    let mut hub = ConsoleHub::new();
    hub.append(1, "hel", LineKind::Runtime);
    hub.clear(1);
    let (lines, truncated, partial, last_ok) = hub.snapshot(1, 0);
    assert!(lines.is_empty());
    assert!(!partial, "clear must drop the pending partial");
    assert_eq!(last_ok, 0);
    assert!(!truncated);
    hub.append(1, "x\n", LineKind::Runtime);
    let (lines, _, _, _) = hub.snapshot(1, 0);
    assert_eq!(texts(lines), vec![(2, "x".to_string())]);
}

#[test]
fn install_lines_are_tagged_and_replayable() {
    let mut hub = ConsoleHub::new();
    hub.append(1, "runtime line\n", LineKind::Runtime);
    hub.append(1, "fetching deps...\n", LineKind::Install);
    hub.append(1, "runtime again\n", LineKind::Runtime);
    let (lines, truncated) = hub.history(1, 0);
    assert!(!truncated);
    assert_eq!(lines.len(), 3);
    assert_eq!(lines[0].1.kind, LineKind::Runtime);
    assert_eq!(lines[0].1.text, "runtime line");
    assert_eq!(lines[1].1.kind, LineKind::Install);
    assert_eq!(lines[1].1.text, "fetching deps...");
    assert_eq!(lines[2].1.kind, LineKind::Runtime);
    assert_eq!(lines[2].1.text, "runtime again");
}

#[test]
fn broadcast_carries_install_kind() {
    let mut hub = ConsoleHub::new();
    let e = event(&mut hub, "installing...\n", LineKind::Install);
    assert_eq!(told(&e), (1, "installing...\n", "installing...", false, LineKind::Install));
    assert_eq!(e.4.event_name(), "install");
    assert_eq!(LineKind::Runtime.event_name(), "console");
}

#[test]
fn kind_switch_seals_pending_partial() {
    let mut hub = ConsoleHub::new();
    hub.append(1, "run", LineKind::Runtime);
    hub.append(1, "inst", LineKind::Install);
    hub.append(1, "all\n", LineKind::Install);
    let (lines, truncated, partial, _) = hub.snapshot(1, 0);
    assert!(!truncated);
    assert!(!partial);
    assert_eq!(lines.len(), 2);
    assert_eq!((lines[0].0, lines[0].1.text.as_str(), lines[0].1.kind), (1, "run", LineKind::Runtime));
    assert_eq!((lines[1].0, lines[1].1.text.as_str(), lines[1].1.kind), (2, "install", LineKind::Install));
}

#[test]
fn only_the_open_last_line_gains_text() {
    let mut hub = ConsoleHub::new();
    hub.append(1, "a\nb", LineKind::Runtime);
    hub.append(2, "other", LineKind::Install);
    let (before, _) = hub.history(1, 0);
    assert!(hub.append(1, "", LineKind::Runtime).is_none());
    assert_eq!(hub.history(1, 0).0, before);
    hub.append(1, "c\nd\n", LineKind::Runtime);
    let (after, _) = hub.history(1, 0);
    let shown: Vec<(u64, &str, LineKind)> =
        after.iter().map(|(seq, e)| (*seq, e.text.as_str(), e.kind)).collect();
    assert_eq!(
        shown,
        vec![
            (1, "a", LineKind::Runtime),
            (2, "bc", LineKind::Runtime),
            (3, "d", LineKind::Runtime)
        ]
    );
    hub.clear(1);
    hub.append(1, "e\n", LineKind::Install);
    assert_eq!(hub.history(1, 0).0[0].0, 4);
    assert_eq!(hub.history(2, 0).0[0].1.text, "other");
}

#[test]
fn partial_line_is_capped_and_stops_growing() {
    let mut hub = ConsoleHub::new();
    hub.append(1, &"x".repeat(PARTIAL_CAP + 100), LineKind::Runtime);
    hub.append(1, "more", LineKind::Runtime);
    hub.append(1, "end\n", LineKind::Runtime);
    let (lines, truncated) = hub.history(1, 0);
    assert!(!truncated);
    assert_eq!(lines.len(), 1);
    let text = &lines[0].1.text;
    assert_eq!(text.len(), PARTIAL_CAP + PARTIAL_TRUNC_MARKER.len());
    assert!(text.ends_with(PARTIAL_TRUNC_MARKER));
    let (_, _, full, _, _) = event(&mut hub, &"y".repeat(PARTIAL_CAP * 2), LineKind::Runtime);
    assert_eq!(full.len(), PARTIAL_CAP + PARTIAL_TRUNC_MARKER.len());
}

#[test]
fn sanitize_log_text_strips_control_sequences() {
    let clean = sanitize_log_text("ok\x07bell\x1b[31mred\x1b[0m\x1b]0;title\x07t\x00x\x7f\n");
    assert_eq!(clean, "okbellredtx\n");
    assert_eq!(sanitize_log_text("a\tb\r\nc"), "a\tb\r\nc");
    assert_eq!(sanitize_log_text("line\x1b[31"), "line");
    assert_eq!(sanitize_log_text("col"), "col");
}

#[test]
fn snapshot_after_seq_max_does_not_overflow() {
    let mut hub = ConsoleHub::new();
    hub.append(1, "a\nb\n", LineKind::Runtime);
    let (lines, truncated, partial, _) = hub.snapshot(1, u64::MAX);
    assert!(lines.is_empty());
    assert!(!truncated);
    assert!(!partial);
}

#[test]
fn broadcast_raw_is_capped_with_marker() {
    let mut hub = ConsoleHub::new();
    let (_, raw, _, _, _) = event(&mut hub, &"x".repeat(PARTIAL_CAP * 2), LineKind::Runtime);
    assert_eq!(raw.len(), PARTIAL_CAP + PARTIAL_TRUNC_MARKER.len());
    assert!(raw.ends_with(PARTIAL_TRUNC_MARKER));
}

#[test]
fn subscribe_caps_live_streams_per_server() {
    for open in 0..MAX_SUBSCRIBERS_PER_SERVER {
        assert!(ConsoleHub::subscribe(open).is_ok());
    }
    assert!(matches!(ConsoleHub::subscribe(MAX_SUBSCRIBERS_PER_SERVER), Err(TooManySubscribers)));
    assert!(ConsoleHub::subscribe(0).is_ok());
}

#[test]
fn clear_broadcasts_rebuild_marker() {
    let mut hub = ConsoleHub::new();
    let (seq, raw, _, _, _) = event(&mut hub, "a\n", LineKind::Runtime);
    assert_eq!((seq, raw.as_str()), (1, "a\n"));
    let (seq, raw, _, _, _) = hub.clear(1);
    assert_eq!(
        (seq, raw.as_str()),
        (0, ""),
        "clear must signal live subscribers with the rebuild sentinel"
    );
    let (seq, raw, _, _, _) = event(&mut hub, "b\n", LineKind::Runtime);
    assert_ne!(seq, 0);
    assert!(!raw.is_empty());
}

#[test]
fn consoles_of_servers_are_apart() {
    let mut hub = ConsoleHub::new();
    hub.append(1, "one\n", LineKind::Runtime);
    hub.append(2, "two\n", LineKind::Runtime);
    assert_eq!(texts(hub.history(1, 0).0), vec![(1, "one".to_string())]);
    drop_server(&mut hub, 1);
    assert!(hub.history(1, 0).0.is_empty());
    assert_eq!(texts(hub.history(2, 0).0), vec![(1, "two".to_string())]);
    assert!(hub.history(3, 0).0.is_empty());
}

#[test]
fn an_empty_chunk_sends_nothing() {
    let mut hub = ConsoleHub::new();
    assert!(hub.append(1, "", LineKind::Runtime).is_none());
    assert!(hub.history(1, 0).0.is_empty());
}

#[test]
fn watchers_get_the_whole_lines_of_a_chunk() {
    let mut buf = LineBuf::new();
    let a = buf.append("a\n\nb", LineKind::Runtime).unwrap();
    assert_eq!(a.completed, vec!["a"]);
    let a = buf.append("c\nd\n", LineKind::Runtime).unwrap();
    assert_eq!(a.completed, vec!["d"]);
    let a = buf.append("e\n", LineKind::Install).unwrap();
    assert!(a.completed.is_empty());
    buf.clear();
    assert!(buf.snapshot(0).0.is_empty());
}

#[test]
fn a_cut_line_takes_no_more() {
    let mut e = ConsoleEntry { text: "ab".into(), kind: LineKind::Runtime };
    assert!(!merge_partial(&mut e, false, "cd"));
    assert_eq!(e.text, "abcd");
    assert!(merge_partial(&mut e, true, "ef"));
    assert_eq!(e.text, "abcd");
    // A cut never falls inside a character.
    let mut e = ConsoleEntry { text: "x".repeat(PARTIAL_CAP - 1), kind: LineKind::Runtime };
    assert!(merge_partial(&mut e, false, "\u{e9}\u{e9}"));
    assert_eq!(e.text.len(), PARTIAL_CAP - 1 + PARTIAL_TRUNC_MARKER.len());
}

#[test]
fn the_log_is_planned_by_size() {
    match plan_log_chunk("tail\n", Some(LOG_ROTATE_BYTES)) {
        LogPlan::Write { text, rotate } => assert_eq!((text.as_str(), rotate), ("tail\n", true)),
        other => panic!("{other:?}"),
    }
    match plan_log_chunk("tail\n", Some(LOG_ROTATE_BYTES - 5)) {
        LogPlan::Write { rotate, .. } => assert!(!rotate),
        other => panic!("{other:?}"),
    }
    match plan_log_chunk("a", None) {
        LogPlan::Write { rotate, .. } => assert!(!rotate),
        other => panic!("{other:?}"),
    }
    assert!(matches!(plan_log_chunk("\x07", Some(0)), LogPlan::Skip));
}

#[test]
fn escapes_may_end_in_any_character() {
    assert_eq!(sanitize_log_text("a\x1b\u{e9}b"), "ab");
    assert_eq!(sanitize_log_text("a\x1b[31\u{4e16}b"), "ab");
    assert_eq!(sanitize_log_text("a\x1b(\u{1f600}b"), "ab");
    assert_eq!(sanitize_log_text("a\x1b]t\u{e9}\x07b\x1b[31"), "ab");
    assert_eq!(sanitize_log_text(&sanitize_log_text("x\x1b[0m\ty\x00\n")), "x\ty\n");
    match plan_log_chunk("\x1b\u{e9}z", Some(u64::MAX)) {
        LogPlan::Write { text, rotate } => assert_eq!((text.as_str(), rotate), ("z", true)),
        other => panic!("{other:?}"),
    }
}

#[test]
fn a_server_is_warned_of_once() {
    let mut warned = HashSet::new();
    assert!(warn_once(&mut warned, 4));
    assert!(!warn_once(&mut warned, 4));
    assert!(warn_once(&mut warned, 5));
}

#[test]
fn command_writes_tell_their_outcome() {
    assert_eq!(write_stdin(StdinOutcome::QueueFull), (Err(StdinError::Busy), false));
    assert_eq!(write_stdin(StdinOutcome::WriterGone), (Err(StdinError::Busy), true));
    assert_eq!(write_stdin(StdinOutcome::Answered(Ok(()))), (Ok(()), false));
    assert_eq!(
        write_stdin(StdinOutcome::Answered(Err("x".into()))),
        (Err(StdinError::WriteFailed("x".into())), false)
    );
    assert_eq!(
        write_stdin(StdinOutcome::AnswerLost),
        (Err(StdinError::WriteFailed("console command writer went away".into())), false)
    );
    assert_eq!(write_stdin(StdinOutcome::NoAnswer), (Err(StdinError::TimedOut), false));
}
