//! Tests of the agent on a node.
use voltpanel::archive::EntryKind;
use voltpanel::node_daemon::agent_files::{open_target, secure_mkdir_parents, secure_parent};
use voltpanel::node_daemon::process::{
    pipe_fault, start_inner, stop_begins, stop_step, Delivery, LaunchPhase, RestartStep,
    ShutdownStep, StopAction, StopOrder, StopPhase, Waiter, WaiterAction, DIR_SIZE_CACHE_MS,
};
use voltpanel::node_daemon::snapshot::{
    archive_member, check_archive, check_entry, decode_uploads, extract_snapshot_tar, judge_uploads,
    judge_listing, restore_snapshot_step, verify_archive, Member, Restoring, SnapshotPhase, SnapshotStep,
    UploadFault,
};
use voltpanel::node_daemon::usage::{
    capacity_measure, fs_usage, process_tree_usage, read_children, read_proc, Measure, SpecAction,
    StatLine,
};
use voltpanel::node_daemon::{
    file_operation, join_probes, list_files, listen_host, listen_is_loopback, restart_backoff,
    safe_join, secure_read, validate_uuid, write_file, DaemonConfig, DaemonError, DaemonRuntime,
    FilePlan, ManagedProcess, RawRemoteEntry, RunState, Tally, Utf8Carry,
};
use voltpanel::node_protocol::{
    FileOperation, ProvisionFile, RestoreSnapshotRequest, ServerSpec,
};
use voltpanel::services::files::NodeKind;
use voltpanel::services::pull::Ip;
use voltpanel::swap::{
    aside_name, counts_as_action, exchange_dirs, exchange_dirs_fallback, exchange_step,
    next_pass, probe_renameat2, recover_stale_dirs, renameat2_unsupported, Outcome, Recovery, RecoveryPass,
    StaleEntry, SwapPhase,
};
use base64::Engine;
use std::time::Duration;

fn test_spec(uuid: &str) -> ServerSpec {
    ServerSpec {
        uuid: uuid.to_string(),
        name: "t".into(),
        startup: "sleep 1".into(),
        stop_command: String::new(),
        memory_mb: 64,
        disk_mb: 64,
        cpu_percent: 10,
        port: None,
        ports: vec![],
        env: vec![],
        auto_restart: false,
    }
}

fn config_in(dir: &str) -> DaemonConfig {
    DaemonConfig { data_dir: dir.to_string(), ..Default::default() }
}

fn runtime_with(spec: ServerSpec) -> DaemonRuntime {
    let mut rt = DaemonRuntime::new(config_in("/d"));
    rt.provisioned(spec, 0);
    rt
}

fn encoded(data: &[u8]) -> String {
    base64::engine::general_purpose::STANDARD.encode(data)
}

/// An archive of empty entries.
fn packed(entries: &[(tar::EntryType, &str)]) -> Vec<u8> {
    let gz = flate2::write::GzEncoder::new(Vec::new(), flate2::Compression::default());
    let mut out = tar::Builder::new(gz);
    for (kind, path) in entries {
        let mut h = tar::Header::new_gnu();
        h.as_old_mut().name[..path.len()].copy_from_slice(path.as_bytes());
        h.set_entry_type(*kind);
        h.set_mode(0o644);
        h.set_size(0);
        h.set_cksum();
        out.append(&h, &[][..]).unwrap();
    }
    out.into_inner().unwrap().finish().unwrap()
}

/// The address that a literal is, and the one that it is as a socket address.
fn literal(host: &str) -> Option<Ip> {
    match url::Host::parse(host) {
        Ok(url::Host::Ipv4(a)) => {
            let o = a.octets();
            Some(Ip::V4(o[0], o[1], o[2], o[3]))
        }
        Ok(url::Host::Ipv6(a)) => Some(Ip::V6(a.segments())),
        _ => None,
    }
}

fn socket(listen: &str) -> Option<Ip> {
    let (host, _) = listen.rsplit_once(':')?;
    literal(host)
}

#[test]
fn safe_join_rejects_traversal() {
    let root = "/data/server";
    assert_eq!(safe_join(root, "files/a.txt", &vec![false, false]).unwrap(), "/data/server/files/a.txt");
    assert!(safe_join(root, "../etc/passwd", &vec![]).is_err());
    assert!(safe_join(root, "/../../root", &vec![]).is_err());
}

#[test]
fn safe_join_rejects_symlink_escape() {
    let err = safe_join("/data/server", "escape", &vec![true]).unwrap_err();
    assert_eq!(err.message(), "symlink traversal rejected at /data/server/escape");
}

#[test]
fn safe_join_stops_at_the_first_obstacle() {
    assert_eq!(join_probes("/r", "/a/./b//c"), vec!["/r/a", "/r/a/b", "/r/a/b/c"]);
    assert_eq!(join_probes("/r", "a/../b"), vec!["/r/a"]);
    assert_eq!(safe_join("/r", "", &vec![]).unwrap(), "/r");
    assert_eq!(safe_join("/r", "a/../b", &vec![false]).unwrap_err().message(), "path traversal rejected");
    assert!(matches!(safe_join("/r", "a/../b", &vec![true]), Err(DaemonError::Link { .. })));
}

#[test]
fn listen_is_loopback_classifies() {
    for lp in ["localhost:8081", "127.0.0.1:8081", "[::1]:8081"] {
        assert!(
            listen_is_loopback(lp, &socket(lp), &literal(&listen_host(lp))),
            "{lp} should be loopback"
        );
    }
    for non in ["0.0.0.0:8081", "10.0.0.5:8081", "[fe80::1]:8081", "node.local:8081"] {
        assert!(
            !listen_is_loopback(non, &socket(non), &literal(&listen_host(non))),
            "{non} should not be loopback"
        );
    }
}

#[test]
fn listening_host_is_found_without_an_address() {
    assert_eq!(listen_host("localhost:8081"), "localhost");
    assert_eq!(listen_host("[::1]"), ":");
    assert_eq!(listen_host("[abc]:1"), "abc");
    assert_eq!(listen_host("plain"), "plain");
    assert!(listen_is_loopback("LocalHost:1", &None, &None));
    assert!(listen_is_loopback("x:1", &None, &Some(Ip::V4(127, 9, 9, 9))));
    assert!(!listen_is_loopback("localhost:1", &Some(Ip::V4(10, 0, 0, 1)), &None));
}

#[test]
fn utf8_carry_joins_split_characters() {
    let mut carry = Utf8Carry::default();
    assert_eq!(carry.push(&[0xE2]), "");
    assert_eq!(carry.push(&[0x82]), "");
    assert_eq!(carry.push(&[0xAC, b'!']), "€!");
    let mut carry = Utf8Carry::default();
    let s = "héllo wörld — fin";
    let mut out = String::new();
    for b in s.as_bytes() {
        out.push_str(&carry.push(&[*b]));
    }
    assert_eq!(out, s);
}

#[test]
fn utf8_carry_handles_four_byte_and_invalid_bytes() {
    let mut carry = Utf8Carry::default();
    assert_eq!(carry.push(&[0xF0, 0x9F]), "");
    assert_eq!(carry.push(&[0x98, 0x80, b'\n']), "😀\n");
    let mut carry = Utf8Carry::default();
    assert_eq!(carry.push(b"ok\xFFbad"), "ok\u{FFFD}bad");
    assert_eq!(carry.push(b"a\xC3\x28z"), "a\u{FFFD}(z");
}

#[test]
fn carried_bytes_stand_before_the_next_chunk() {
    let mut carry = Utf8Carry::default();
    assert_eq!(carry.push(&[0xC3]), "");
    assert_eq!(carry.push(b"(z"), "\u{FFFD}(z");
    let text = "a\u{e9}\u{1f600}b".as_bytes();
    for cut in 0..=text.len() {
        let mut carry = Utf8Carry::default();
        let mut out = carry.push(&text[..cut]);
        out.push_str(&carry.push(&text[cut..]));
        assert_eq!(out.as_bytes(), text);
    }
}

#[test]
fn clear_console_keeps_cursor_monotonic() {
    let uuid = "clear-test";
    let mut rt = runtime_with(test_spec(uuid));
    rt.take_output(uuid, "before".into(), 6, false);
    let pre = rt.console(uuid, 0).unwrap().1;
    assert_eq!(pre, 1);
    rt.clear_console(uuid).unwrap();
    rt.take_output(uuid, "after".into(), 5, false);
    let (lines, post) = rt.console(uuid, pre).unwrap();
    assert_eq!(lines, vec!["after"]);
    assert!(post >= pre, "cursor rewound after clear: {pre} -> {post}");
}

#[test]
fn restart_backoff_grows_exponentially_and_caps() {
    assert_eq!(Duration::from_secs(restart_backoff(1)), Duration::from_secs(5));
    assert_eq!(Duration::from_secs(restart_backoff(2)), Duration::from_secs(10));
    assert_eq!(Duration::from_secs(restart_backoff(3)), Duration::from_secs(20));
    assert_eq!(Duration::from_secs(restart_backoff(4)), Duration::from_secs(40));
    assert_eq!(Duration::from_secs(restart_backoff(5)), Duration::from_secs(80));
    assert_eq!(Duration::from_secs(restart_backoff(6)), Duration::from_secs(120));
    assert_eq!(Duration::from_secs(restart_backoff(99)), Duration::from_secs(120));
}

#[test]
fn load_specs_quarantines_unparseable_meta() {
    let mut rt = DaemonRuntime::new(config_in("/d"));
    for bad in ["bad1.json", "bad2.json"] {
        match rt.load_spec(bad, None, 0) {
            SpecAction::Quarantine { bad: from, aside } => {
                assert_eq!(from, format!("/d/meta/{bad}"));
                assert_eq!(aside, format!("/d/meta/{bad}.corrupt"));
            }
            other => panic!("{other:?}"),
        }
    }
    assert_eq!(rt.server_counts(), (0, 0));
    assert!(matches!(rt.load_spec("note.txt", None, 0), SpecAction::Skip));
    assert!(matches!(rt.load_spec(".json", None, 0), SpecAction::Skip));
    match rt.load_spec("a.json", Some(test_spec("a")), 0) {
        SpecAction::Adopt { uuid, root } => {
            assert_eq!(uuid, "a");
            assert_eq!(root, "/d/servers/a");
        }
        other => panic!("{other:?}"),
    }
    assert!(rt.is_provisioned("a"));
}

fn stale(name: &str, kind: NodeKind, target_exists: bool) -> StaleEntry {
    StaleEntry { name: name.into(), kind, target_exists }
}

#[test]
fn recovery_restores_aside_when_live_dir_missing() {
    let step = recover_stale_dirs(
        RecoveryPass::Restore,
        &stale(".previous-abc-123", NodeKind::Directory, false),
    )
    .unwrap();
    match &step {
        Recovery::Restore { from, to } => {
            assert_eq!(from, ".previous-abc-123");
            assert_eq!(to, "abc-123");
        }
        other => panic!("{other:?}"),
    }
    assert!(counts_as_action(&step, true));
    assert!(!counts_as_action(&step, false));
}

#[test]
fn recovery_reclaims_superseded_and_staging_leftovers() {
    let entries = vec![
        stale("abc-123", NodeKind::Directory, false),
        stale(".previous-abc-123", NodeKind::Directory, true),
        stale(".restore-abc-456", NodeKind::Directory, false),
        stale(".renameat2-probe-deadbeef", NodeKind::File, false),
    ];
    let mut pass = Some(RecoveryPass::Restore);
    let mut done: Vec<String> = Vec::new();
    while let Some(p) = pass {
        for e in &entries {
            match recover_stale_dirs(p, e) {
                Some(Recovery::RemoveDirectory { name } | Recovery::RemoveFile { name }) => {
                    assert_ne!(p, RecoveryPass::Restore);
                    done.push(name)
                }
                Some(other) => panic!("{other:?}"),
                None => {}
            }
        }
        pass = next_pass(p);
    }
    assert_eq!(done, vec![".restore-abc-456", ".previous-abc-123", ".renameat2-probe-deadbeef"]);
}

#[test]
fn what_stepped_aside_for_a_removed_directory_stays() {
    // The staging directory goes first; then nothing stands where the other
    // directory would go back to.
    let staged = stale(".restore-x", NodeKind::Directory, false);
    assert!(matches!(
        recover_stale_dirs(RecoveryPass::Staged, &staged),
        Some(Recovery::RemoveDirectory { name }) if name == ".restore-x"
    ));
    let aside = stale(".previous-.restore-x", NodeKind::Directory, false);
    assert!(recover_stale_dirs(RecoveryPass::Superseded, &aside).is_none());
    let aside = stale(".previous-.restore-x", NodeKind::Directory, true);
    assert!(recover_stale_dirs(RecoveryPass::Superseded, &aside).is_some());
    assert!(recover_stale_dirs(RecoveryPass::Restore, &aside).is_none());
}

#[test]
fn recovery_leaves_unmappable_old_style_aside_alone() {
    let entry = stale(".previous-0123456789abcdef0123456789abcdef", NodeKind::Directory, false);
    let step = recover_stale_dirs(RecoveryPass::Restore, &entry).unwrap();
    assert!(matches!(step, Recovery::Inspect { .. }));
    assert!(counts_as_action(&step, true), "unmappable aside counts as a warned action");
    let mut pass = next_pass(RecoveryPass::Restore);
    while let Some(p) = pass {
        assert!(recover_stale_dirs(p, &entry).is_none(), "must not delete it");
        pass = next_pass(p);
    }
}

#[test]
fn fallback_exchange_uses_deterministic_aside_and_reclaims_it() {
    assert_eq!(aside_name("abc-123"), ".previous-abc-123");
    let p = exchange_dirs_fallback(true);
    assert_eq!(p, SwapPhase::Clear);
    let p = exchange_step(p, Outcome::Done, false);
    assert_eq!(p, SwapPhase::Aside);
    let p = exchange_step(p, Outcome::Done, false);
    assert_eq!(p, SwapPhase::Insert);
    let p = exchange_step(p, Outcome::Done, false);
    assert_eq!(p, SwapPhase::Sweep);
    assert_eq!(exchange_step(p, Outcome::Done, false), SwapPhase::Swapped);
    assert_eq!(exchange_step(SwapPhase::Insert, Outcome::Failed, false), SwapPhase::Rollback);
}

#[test]
fn unsupported_exchange_falls_back() {
    assert!(renameat2_unsupported(Some(libc::EINVAL)));
    assert!(renameat2_unsupported(Some(libc::ENOSYS)));
    assert!(renameat2_unsupported(Some(libc::EOPNOTSUPP)));
    assert!(!renameat2_unsupported(Some(libc::EACCES)));
    assert!(!renameat2_unsupported(None));
    assert!(probe_renameat2(Outcome::Done));
    assert!(!probe_renameat2(Outcome::Unsupported));
    assert!(probe_renameat2(Outcome::Failed));
    let p = exchange_dirs(true, false);
    assert_eq!(p, SwapPhase::Exchange);
    assert_eq!(exchange_step(p, Outcome::Done, false), SwapPhase::Swapped);
    assert_eq!(exchange_step(p, Outcome::Unsupported, false), SwapPhase::Aside);
    assert_eq!(exchange_step(p, Outcome::Failed, false), SwapPhase::Refused);
}

#[test]
fn snapshot_stream_and_restore_round_trip() {
    let uuid = "snap-test";
    let rt = runtime_with(test_spec(uuid));
    assert_eq!(rt.snapshot_source(uuid).unwrap(), "/d/servers/snap-test");
    let archive = vec![7u8; 100_000];
    let mut made = Tally::new(1_000_000);
    made.produce(&archive[..60_000]).unwrap();
    made.produce(&archive[60_000..]).unwrap();
    let (size, sha) = made.finish();
    assert_eq!(size as usize, archive.len());
    assert_eq!(sha.len(), 64);
    let mut read = Tally::new(1_000_000);
    read.consume(&archive).unwrap();
    assert_eq!(read.finish().1, sha);
    let plan = rt.restore_snapshot_stream(uuid, "n1").unwrap();
    assert_eq!(plan.root, "/d/servers/snap-test");
    assert_eq!(plan.staging, "/d/servers/.restore-snap-test-n1");
    let mut run = Restoring::begin(true).step(true, true);
    assert_eq!(run.phase, SnapshotPhase::Unpack);
    run.tally.consume(&archive[..100]).unwrap();
    run.tally.consume(&archive[100..]).unwrap();
    run = run.step(true, true);
    assert_eq!(run.phase, SnapshotPhase::Verify);
    assert_eq!(run.digest, sha, "the check is asked about all that was read");
    for _ in 0..3 {
        run = run.step(true, true);
    }
    assert_eq!(run.phase, SnapshotPhase::Exchange);
    assert_eq!(run.step(true, true).step(true, true).phase, SnapshotPhase::Restored);
}

#[test]
fn restore_stream_refuses_bad_verification_without_touching_live_dir() {
    let run = Restoring::begin(true).step(true, true).step(true, true);
    assert_eq!(run.phase, SnapshotPhase::Verify);
    let run = run.step(false, true);
    assert_eq!(run.phase, SnapshotPhase::Discard, "failed restore must clean its staging");
    assert_eq!(run.step(true, true).phase, SnapshotPhase::Failed);
}

#[test]
fn whole_archive_is_not_verified_again() {
    assert_eq!(
        restore_snapshot_step(SnapshotPhase::Stage, false, true, false),
        SnapshotPhase::Failed
    );
    assert_eq!(
        restore_snapshot_step(SnapshotPhase::Unpack, true, true, false),
        SnapshotPhase::Prepare
    );
    assert_eq!(
        restore_snapshot_step(SnapshotPhase::Own, true, false, false),
        SnapshotPhase::MoveIn
    );
    assert_eq!(
        restore_snapshot_step(SnapshotPhase::Prepare, false, true, false),
        SnapshotPhase::Failed
    );
    assert_eq!(
        restore_snapshot_step(SnapshotPhase::Sweep, false, true, false),
        SnapshotPhase::Restored
    );
}

#[test]
fn restore_stream_body_reader_hard_caps_at_snapshot_bound() {
    let inner = [0u8; 100];
    let mut r = Tally::new(64);
    r.consume(&inner[..32]).unwrap();
    r.consume(&inner[32..64]).unwrap();
    let err = r.consume(&inner[64..96]).expect_err("crossing the cap must error mid-stream");
    assert!(err.message().contains("exceeds upload limit"), "unexpected error: {err:?}");
}

#[test]
fn legacy_snapshot_matches_streaming_archive() {
    let rt = runtime_with(test_spec("snap-dual"));
    let streamed = b"dual-mode".to_vec();
    let mut t = Tally::new(1024);
    t.produce(&streamed).unwrap();
    let (size, sha) = t.finish();
    let legacy = rt.snapshot(&streamed, sha.clone()).unwrap();
    assert_eq!(legacy.checksum, sha);
    assert_eq!(legacy.size_bytes, size);
    assert_eq!(
        base64::engine::general_purpose::STANDARD.decode(legacy.archive_b64).unwrap(),
        streamed
    );
}

#[test]
fn provision_masks_special_file_modes() {
    let rt = runtime_with(test_spec("mode-test"));
    let made = rt
        .provision(
            "mode-test",
            vec![ProvisionFile {
                path: "s.sh".into(),
                content_b64: encoded(b"#!/bin/sh\n"),
                mode: Some(0o4755),
            }],
        )
        .unwrap();
    assert_eq!(made.root, "/d/servers/mode-test");
    assert_eq!(made.meta, "/d/meta/mode-test.json");
    assert_eq!(made.uploads[0].path, "s.sh");
    assert_eq!(made.uploads[0].bytes, b"#!/bin/sh\n");
    assert_eq!(
        made.uploads[0].mode,
        Some(0o755),
        "setuid/setgid/sticky must be stripped from provisioned modes"
    );
}

#[test]
fn archive_producer_hard_caps_the_snapshot_body() {
    let mut w = Tally::new(64);
    assert!(w.produce(&[0u8; 64]).is_ok());
    let err = w.produce(&[1u8; 8]).expect_err("crossing the cap must error mid-production");
    assert!(err.message().contains("production cap"), "unexpected error: {err:?}");
    assert_eq!(w.count, 64);
    assert_eq!(w.finish().0, 64);
}

#[test]
fn uploads_are_bounded_each_and_together() {
    let mut cfg = config_in("/d");
    cfg.max_upload_mb = 1;
    let one = vec![1u8; 700_000];
    let file = |n: &str, data: &[u8]| ProvisionFile {
        path: n.into(),
        content_b64: encoded(data),
        mode: None,
    };
    let err = decode_uploads(&cfg, vec![file("a", &one), file("b", &one)]).unwrap_err();
    assert_eq!(err.message(), "provision payload exceeds the 1 MiB aggregate upload limit");
    let err = decode_uploads(&cfg, vec![file("big", &vec![0u8; 1_048_577])]).unwrap_err();
    assert_eq!(err.message(), "file big exceeds the 1 MiB per-file upload limit");
    let bad = ProvisionFile { path: "x".into(), content_b64: "!!!!".into(), mode: None };
    assert!(decode_uploads(&cfg, vec![bad]).unwrap_err().message().contains("offset 0"));
    let fine = decode_uploads(&cfg, vec![file("a", b"1"), file("b", b"22")]).unwrap();
    assert_eq!(fine.len(), 2);
    assert_eq!(fine[1].bytes, b"22");
    assert_eq!(judge_uploads(&cfg, &vec![None]), Some(UploadFault::Encoding { at: 0 }));
    assert_eq!(judge_uploads(&cfg, &vec![Some(vec![1])]), None);
    assert!(matches!(
        DaemonRuntime::new(cfg).provision("no/uuid", vec![]),
        Err(DaemonError::InvalidUuid)
    ));
}

#[test]
fn server_uuids_are_plain_words() {
    for good in ["a", "clear-test", "A_9", &"x".repeat(64)] {
        assert!(validate_uuid(good).is_ok(), "{good}");
    }
    for bad in ["", "a/b", "..", "a b", "ü", &"x".repeat(65)] {
        assert_eq!(validate_uuid(bad).unwrap_err().message(), "invalid server uuid", "{bad}");
    }
}

#[test]
fn configuration_has_defaults_and_directories() {
    let c = DaemonConfig::default();
    assert_eq!(c.listen, "0.0.0.0:8081");
    assert_eq!(c.data_dir, "./voltd-data");
    assert_eq!(c.heartbeat_interval_secs, 15);
    assert_eq!(c.max_upload_mb, 256);
    assert!(!c.plaintext && !c.allow_http_bind);
    assert_eq!(c.max_upload_bytes(), 268_435_456);
    let c = config_in("/d");
    assert_eq!(c.servers_dir(), "/d/servers");
    assert_eq!(c.logs_dir(), "/d/logs");
    assert_eq!(c.meta_dir(), "/d/meta");
    assert_eq!(c.tls_dir(), "/d/tls");
    assert_eq!(c.ensure_dirs(), vec!["/d", "/d/servers", "/d/logs", "/d/meta"]);
    assert_eq!(c.server_root("u-1").unwrap(), "/d/servers/u-1");
    assert!(c.server_root("../u").is_err());
}

#[test]
fn console_keeps_a_thousand_pieces() {
    let mut p = ManagedProcess::new(test_spec("u"), 5);
    for i in 0..1003 {
        p.append_console(format!("l{i}"));
    }
    p.append_console(String::new());
    assert_eq!(p.console.len(), 1000);
    assert_eq!(p.console[0].text, "l3");
    assert_eq!(p.console_cursor, 1003);
    let (lines, cursor) = p.console_since(1001);
    assert_eq!(lines, vec!["l1001", "l1002"]);
    assert_eq!(cursor, 1003);
    assert_eq!(p.last_sample_ms, 5);
}

#[test]
fn error_output_is_marked() {
    let mut rt = runtime_with(test_spec("u"));
    rt.take_output("u", "oops".into(), 4, true);
    rt.take_output("u", String::new(), 2, false);
    rt.take_output("u", String::new(), 0, true);
    let (lines, _) = rt.console("u", 0).unwrap();
    assert_eq!(lines, vec!["[stderr] oops", "[stderr] "]);
    assert_eq!(rt.stats("u", 0, 0, 0).unwrap().network_rx_bytes, 6);
}

#[test]
fn launch_takes_what_the_description_says() {
    let mut spec = test_spec("u-1");
    spec.env = vec![("A".into(), "1".into())];
    spec.port = Some(25565);
    let mut rt = runtime_with(spec);
    let l = rt.start("u-1").unwrap();
    assert_eq!(l.root, "/d/servers/u-1");
    assert_eq!(l.memory_bytes, 67_108_864);
    assert_eq!(l.cpu_percent, 10);
    assert_eq!(l.startup, "sleep 1");
    assert_eq!(l.ports, vec![25565]);
    let env: Vec<String> = l.env.iter().map(|(k, v)| format!("{k}={v}")).collect();
    assert_eq!(env, vec!["A=1", "SERVER_UUID=u-1", "SERVER_NAME=t", "SERVER_MEMORY=64"]);
    assert!(matches!(rt.start("u-1"), Err(DaemonError::Busy)));
    rt.launch_failed("u-1");
    let mut spec = test_spec("u-1");
    spec.port = Some(1);
    spec.ports = vec![2, 3];
    rt.provisioned(spec, 0);
    assert_eq!(rt.start("u-1").unwrap().ports, vec![2, 3]);
}

#[test]
fn stop_is_remembered_until_a_restart() {
    let mut spec = test_spec("u");
    spec.auto_restart = true;
    let mut rt = runtime_with(spec);
    rt.start("u").unwrap();
    rt.started("u", 42, 100).unwrap();
    let s = rt.stats("u", 9, 8, 160).unwrap();
    assert_eq!((s.state.as_str(), s.pid, s.memory_bytes, s.disk_bytes, s.uptime_secs), ("running", Some(42), 9, 8, 60));
    assert!(matches!(rt.start("u"), Err(DaemonError::AlreadyRunning)));
    assert!(matches!(rt.remove_server("u"), Err(DaemonError::MustStop)));
    assert!(matches!(rt.stop("u", false).unwrap(), StopOrder::Ask { asked: 42, line: None }));
    assert_eq!(rt.stats("u", 0, 0, 0).unwrap().state, "stopping");
    let mut w = Waiter::spawn_waiter("u".into());
    assert_eq!(w.ended(&mut rt, Some(0)), WaiterAction::Done);
    let s = rt.stats("u", 9, 0, 0).unwrap();
    assert_eq!((s.state.as_str(), s.exit_code, s.memory_bytes), ("offline", Some(0), 0));
    assert_eq!(
        rt.start("u").unwrap_err().message(),
        "server stop has been requested; use the restart action to start it again"
    );
    assert!(matches!(rt.restart("u").unwrap(), StopOrder::Down { kill_group: false }));
    match rt.restart_step("u", 0).unwrap() {
        RestartStep::Launch { launch } => assert_eq!(launch.root, "/d/servers/u"),
        other => panic!("{other:?}"),
    }
    rt.started("u", 43, 200).unwrap();
    assert!(rt.is_running("u"));
}

#[test]
fn crashed_server_comes_back_a_bounded_number_of_times() {
    let mut spec = test_spec("u");
    spec.auto_restart = true;
    let mut rt = runtime_with(spec);
    rt.started("u", 7, 0).unwrap();
    let mut w = Waiter::spawn_waiter("u".into());
    assert_eq!(w.ended(&mut rt, None), WaiterAction::Sleep { secs: 5 });
    let s = rt.stats("u", 0, 0, 0).unwrap();
    assert_eq!((s.state.as_str(), s.exit_code), ("crashed", Some(-1)));
    assert_eq!(w.woke(&mut rt), WaiterAction::Start);
    assert_eq!(rt.stats("u", 0, 0, 0).unwrap().restart_count, 1);
    let mut waits = Vec::new();
    loop {
        match w.start_failed() {
            WaiterAction::Sleep { secs } => waits.push(secs),
            WaiterAction::Done => break,
            WaiterAction::Start => panic!(),
        }
    }
    assert_eq!(waits, vec![10, 20, 40, 80, 120, 120, 120, 120, 120]);
    rt.stop("u", false).unwrap();
    assert_eq!(w.woke(&mut rt), WaiterAction::Done);
}

#[test]
fn forced_stop_kills_at_once() {
    let mut rt = runtime_with(test_spec("u"));
    assert!(matches!(rt.stop("u", true).unwrap(), StopOrder::Down { kill_group: true }));
    rt.started("u", 9, 0).unwrap();
    assert!(matches!(rt.stop("u", true).unwrap(), StopOrder::Kill { victim: 9 }));
    assert!(matches!(rt.stop("none", true), Err(DaemonError::NotProvisioned)));
}

#[test]
fn stop_command_is_tried_before_signals() {
    let mut spec = test_spec("u");
    spec.stop_command = "stop".into();
    let mut rt = runtime_with(spec);
    rt.started("u", 9, 0).unwrap();
    match rt.stop("u", false).unwrap() {
        StopOrder::Ask { asked, line } => {
            assert_eq!(asked, 9);
            assert_eq!(line.as_deref(), Some("stop\n"));
        }
        other => panic!("{other:?}"),
    }
    let (a, p) = stop_step(stop_begins(true), true, 0);
    assert_eq!((a, p), (StopAction::Write { within_ms: 5000 }, StopPhase::Grace));
    assert_eq!(stop_step(p, true, 100), (StopAction::Sleep { ms: 300 }, StopPhase::Grace));
    assert_eq!(stop_step(p, false, 100), (StopAction::Nothing, StopPhase::Done));
    assert_eq!(stop_step(p, true, 5000), (StopAction::Nothing, StopPhase::Terminate));
    let (a, p) = stop_step(stop_begins(false), true, 0);
    assert_eq!((a, p), (StopAction::Terminate, StopPhase::Settle));
    let (a, p) = stop_step(p, true, 0);
    assert_eq!((a, p), (StopAction::Sleep { ms: 10_000 }, StopPhase::LastResort));
    assert_eq!(stop_step(p, true, 0), (StopAction::Kill, StopPhase::Done));
    assert_eq!(stop_step(p, false, 0), (StopAction::Nothing, StopPhase::Done));
}

#[test]
fn restart_waits_for_the_server_to_go_down() {
    let mut rt = runtime_with(test_spec("u"));
    rt.started("u", 9, 0).unwrap();
    rt.restart("u").unwrap();
    assert!(matches!(rt.restart_step("u", 15_999).unwrap(), RestartStep::Wait { ms: 100 }));
    assert_eq!(
        rt.restart_step("u", 16_000).unwrap_err().message(),
        "server did not stop within the restart window"
    );
    assert!(rt.stop("u", false).is_ok(), "the operation is over");
}

#[test]
fn launch_failures_after_the_spawn_are_reaped() {
    let mut p = LaunchPhase::Prepare;
    for _ in 0..4 {
        assert_eq!(start_inner(p, false), LaunchPhase::Failed);
        p = start_inner(p, true);
    }
    assert_eq!(p, LaunchPhase::Attach);
    for _ in 0..4 {
        assert_eq!(start_inner(p, false), LaunchPhase::Reap);
        p = start_inner(p, true);
    }
    assert_eq!(p, LaunchPhase::Running);
    assert_eq!(start_inner(LaunchPhase::Reap, true), LaunchPhase::Failed);
    assert_eq!(pipe_fault(LaunchPhase::Stdout).unwrap().message(), "missing stdout");
    assert_eq!(pipe_fault(LaunchPhase::Stderr).unwrap().message(), "missing stderr");
    assert!(pipe_fault(LaunchPhase::Spawn).is_none());
}

#[test]
fn commands_are_bounded_and_told_what_became_of_them() {
    let mut rt = runtime_with(test_spec("u"));
    assert_eq!(rt.command("u", "say hi").unwrap(), "say hi\n");
    assert_eq!(rt.command("u", "say hi\n").unwrap(), "say hi\n");
    assert_eq!(
        rt.command("u", &"x".repeat(65_537)).unwrap_err().message(),
        "command exceeds the 65536 byte limit"
    );
    assert!(rt.command("u", &"x".repeat(65_536)).is_ok());
    assert!(matches!(rt.command("v", "x"), Err(DaemonError::NotProvisioned)));
    assert!(rt.delivered("u", 7, Delivery::Written).unwrap());
    assert_eq!(rt.stats("u", 0, 0, 0).unwrap().network_tx_bytes, 7);
    for (outcome, words) in [
        (Delivery::NoWriter, "server not running or stdin unavailable"),
        (Delivery::Full, "stdin backlog full; the server process may not be draining input"),
        (Delivery::Closed, "server not running or stdin unavailable"),
        (Delivery::Failed { reason: "pipe".into() }, "stdin write failed: pipe"),
        (Delivery::Lost, "stdin writer went away"),
        (Delivery::TimedOut, "stdin write timed out"),
    ] {
        assert_eq!(rt.delivered("u", 7, outcome).unwrap_err().message(), words);
    }
}

#[test]
fn shutdown_gives_servers_time() {
    let mut rt = DaemonRuntime::new(config_in("/d"));
    for u in ["a", "b", "c"] {
        rt.provisioned(test_spec(u), 0);
    }
    rt.started("a", 1, 0).unwrap();
    rt.started("c", 2, 0).unwrap();
    let mut up = rt.running_servers();
    up.sort();
    assert_eq!(up, vec!["a", "c"]);
    assert_eq!(rt.server_counts(), (2, 3));
    assert!(matches!(rt.shutdown_servers(&up, 0, 1000), ShutdownStep::Wait { ms: 200 }));
    rt.exited("a", Some(0));
    match rt.shutdown_servers(&up, 1000, 1000) {
        ShutdownStep::Kill { stragglers } => assert_eq!(stragglers, vec!["c"]),
        other => panic!("{other:?}"),
    }
    rt.exited("c", Some(0));
    assert!(matches!(rt.shutdown_servers(&up, 0, 1000), ShutdownStep::Kill { stragglers } if stragglers.is_empty()));
    let cap = rt.capacity(10, 5, None, 4);
    assert_eq!((cap.memory_total, cap.disk_total, cap.servers_running, cap.servers_total), (10, 0, 0, 3));
}

#[test]
fn removal_names_what_goes() {
    let mut rt = runtime_with(test_spec("u"));
    let gone = rt.remove_server("u").unwrap();
    assert_eq!(gone.root, "/d/servers/u");
    assert_eq!(gone.meta, "/d/meta/u.json");
    assert!(!rt.is_provisioned("u"));
    assert_eq!(rt.console("u", 0).unwrap_err().message(), "server not provisioned");
}

#[test]
fn stop_is_kept_through_everything_but_a_restart() {
    let mut rt = runtime_with(test_spec("u"));
    rt.started("u", 3, 0).unwrap();
    rt.stop("u", false).unwrap();
    rt.take_output("u", "bye".into(), 3, false);
    rt.delivered("u", 1, Delivery::Written).unwrap();
    rt.sample("u", 1, 1).unwrap();
    rt.store_dir_size("u", 1, 1);
    rt.clear_console("u").unwrap();
    rt.provisioned(test_spec("u"), 9);
    assert!(!rt.exited("u", Some(1)), "nobody starts it again");
    assert!(!rt.backoff_over("u"));
    rt.launch_failed("u");
    assert!(matches!(rt.start("u"), Err(DaemonError::StopRequested)));
    rt.restart("u").unwrap();
    assert!(matches!(rt.restart_step("u", 0).unwrap(), RestartStep::Launch { .. }));
    rt.launch_failed("u");
    assert!(rt.start("u").is_ok());
}

#[test]
fn running_server_is_neither_packed_nor_restored() {
    let mut rt = runtime_with(test_spec("u"));
    rt.started("u", 3, 0).unwrap();
    assert_eq!(
        rt.snapshot_source("u").unwrap_err().message(),
        "server must be stopped before snapshot"
    );
    assert_eq!(
        rt.restore_snapshot_stream("u", "n").unwrap_err().message(),
        "server must be stopped before restore"
    );
}

#[test]
fn sent_archive_is_held_against_its_checksum() {
    let rt = runtime_with(test_spec("u"));
    let data = packed(&[(tar::EntryType::Regular, "world/level.dat")]);
    let mut t = Tally::new(100);
    t.produce(&data).unwrap();
    let sha = t.finish().1;
    let req = RestoreSnapshotRequest { archive_b64: encoded(&data), checksum: sha.clone() };
    let (plan, bytes) = rt.restore_snapshot("u", &req, "n").unwrap();
    assert_eq!(plan.staging, "/d/servers/.restore-u-n");
    assert_eq!(bytes, data);
    let req = RestoreSnapshotRequest { archive_b64: encoded(b"other"), checksum: sha };
    assert_eq!(
        rt.restore_snapshot("u", &req, "n").unwrap_err().message(),
        "snapshot checksum mismatch"
    );
    let mut small = config_in("/d");
    small.max_upload_mb = 0;
    assert_eq!(
        verify_archive(&small, &vec![1], "").unwrap_err().message(),
        "snapshot archive exceeds 0 MiB limit"
    );
    let req = RestoreSnapshotRequest { archive_b64: "!!!!".into(), checksum: String::new() };
    assert!(rt.restore_snapshot("u", &req, "n").unwrap_err().message().contains("offset 0"));
    assert_eq!(
        DaemonRuntime::new(small).snapshot(&[1], String::new()).unwrap_err().message(),
        "snapshot exceeds 0 MiB limit"
    );
}

#[test]
fn whole_archive_is_looked_through_first() {
    let rt = runtime_with(test_spec("u"));
    let sent = |data: &[u8]| {
        let mut t = Tally::new(100_000);
        t.produce(data).unwrap();
        let req = RestoreSnapshotRequest { archive_b64: encoded(data), checksum: t.finish().1 };
        rt.restore_snapshot("u", &req, "n").map(|(_, bytes)| bytes).map_err(|e| e.message())
    };
    let good = packed(&[(tar::EntryType::Directory, "d/"), (tar::EntryType::Regular, "d/f")]);
    assert!(check_archive(&good).is_ok());
    assert_eq!(sent(&good).unwrap(), good);
    let linked = packed(&[(tar::EntryType::Regular, "f"), (tar::EntryType::Symlink, "l")]);
    assert_eq!(
        check_archive(&linked).unwrap_err().message(),
        "snapshot contains forbidden link entry"
    );
    assert_eq!(sent(&linked).unwrap_err(), "snapshot contains forbidden link entry");
    let hard = packed(&[(tar::EntryType::Link, "l")]);
    assert_eq!(sent(&hard).unwrap_err(), "snapshot contains forbidden link entry");
    let out = packed(&[(tar::EntryType::Regular, "../f"), (tar::EntryType::Symlink, "l")]);
    assert_eq!(sent(&out).unwrap_err(), "snapshot path traversal");
    let root = packed(&[(tar::EntryType::Regular, "/etc/f")]);
    assert_eq!(sent(&root).unwrap_err(), "snapshot path traversal");
    assert_eq!(sent(b"not an archive").unwrap_err(), "invalid gzip header");
    let mut cut = good.clone();
    cut.truncate(30);
    assert!(matches!(check_archive(&cut), Err(DaemonError::Unreadable { .. })));
}

#[test]
fn first_refused_entry_comes_before_what_cannot_be_read() {
    let flaw = || Some("unexpected end of file".to_string());
    let listed = vec![(b'0', "a".to_string())];
    assert!(judge_listing(&listed, None).is_ok());
    assert_eq!(judge_listing(&listed, flaw()).unwrap_err().message(), "unexpected end of file");
    let listed = vec![
        (b'5', "a".to_string()),
        (b'7', "b/../../c".to_string()),
        (b'2', "l".to_string()),
    ];
    assert_eq!(judge_listing(&listed, flaw()).unwrap_err().message(), "snapshot path traversal");
}

#[test]
fn snapshot_entries_are_bounded_and_stay_inside() {
    let mut x = extract_snapshot_tar("/st".into());
    assert!(matches!(x.entry(EntryKind::Directory, "a/b", 0).unwrap(), SnapshotStep::Dir { dir } if dir == "/st/a/b"));
    match x.entry(EntryKind::File, "a/f", 10).unwrap() {
        SnapshotStep::File { file, cap } => {
            assert_eq!(file, "/st/a/f");
            assert_eq!(cap, 512 * 1024 * 1024 + 1);
        }
        other => panic!("{other:?}"),
    }
    assert_eq!(x.written(10, Some(0o6755)).unwrap(), Some(0o755));
    assert_eq!(
        x.entry(EntryKind::Link, "l", 0).unwrap_err().message(),
        "snapshot contains forbidden link entry"
    );
    assert_eq!(
        x.entry(EntryKind::File, "../f", 0).unwrap_err().message(),
        "snapshot path traversal"
    );
    assert_eq!(
        x.entry(EntryKind::File, "/f", 0).unwrap_err().message(),
        "snapshot path traversal"
    );
    assert_eq!(
        x.entry(EntryKind::File, "f", 512 * 1024 * 1024 + 1).unwrap_err().message(),
        "snapshot entry exceeds extraction size limits"
    );
    assert!(x.written(512 * 1024 * 1024 + 1, None).is_err());
    x.extraction.count = 10_000;
    assert_eq!(
        x.entry(EntryKind::File, "f", 0).unwrap_err().message(),
        "snapshot has too many entries (max 10000)"
    );
    assert!(check_entry(EntryKind::File, "a/./b").is_ok());
    assert_eq!(archive_member(NodeKind::Symlink, "a"), Member::Skip);
    assert_eq!(archive_member(NodeKind::Directory, ""), Member::Skip);
    assert_eq!(archive_member(NodeKind::Directory, "a"), Member::Dir);
    assert_eq!(archive_member(NodeKind::File, "a"), Member::File);
}

#[test]
fn file_changes_are_planned_below_the_root() {
    let cfg = config_in("/d");
    let plan = |op: FileOperation| file_operation(&cfg, &op);
    match plan(FileOperation::Mkdir { path: "/a/b/c".into() }).unwrap() {
        FilePlan::Mkdir { above, made, reopen } => {
            assert_eq!(above, vec!["a", "a/b"]);
            assert_eq!((made.dir.as_str(), made.name.as_str()), ("a/b", "c"));
            assert_eq!(reopen, "a/b/c");
        }
        other => panic!("{other:?}"),
    }
    match plan(FileOperation::Move { from: "x/y".into(), destination: "z//".into() }).unwrap() {
        FilePlan::Rename { source, new_above, target } => {
            assert_eq!((source.dir.as_str(), source.name.as_str()), ("x", "y"));
            assert_eq!(new_above, vec!["z"]);
            assert_eq!((target.dir.as_str(), target.name.as_str()), ("z", "y"));
        }
        other => panic!("{other:?}"),
    }
    match plan(FileOperation::Copy { from: "a".into(), to: "b".into() }).unwrap() {
        FilePlan::Copy { read, limit, copy_above, written } => {
            assert_eq!((read.as_str(), limit, written.as_str()), ("a", 268_435_456, "b"));
            assert!(copy_above.is_empty());
        }
        other => panic!("{other:?}"),
    }
    assert!(matches!(plan(FileOperation::Touch { path: "t".into() }).unwrap(), FilePlan::Touch { touched, .. } if touched == "t"));
    assert!(matches!(plan(FileOperation::Chmod { path: "t".into(), mode: 0o600 }).unwrap(), FilePlan::Chmod { bits: 0o600, .. }));
    match plan(FileOperation::Delete { path: "/t".into() }).unwrap() {
        FilePlan::Delete { gone } => assert_eq!((gone.dir.as_str(), gone.name.as_str()), (".", "t")),
        other => panic!("{other:?}"),
    }
    for (op, words) in [
        (FileOperation::Delete { path: "/".into() }, "path has no filename"),
        (FileOperation::Mkdir { path: "../a/b".into() }, "invalid path component"),
        (FileOperation::Touch { path: "./a/b".into() }, "invalid path component"),
        (FileOperation::Move { from: "..".into(), destination: "d".into() }, "invalid filename"),
        (FileOperation::Rename { from: "a".into(), to: "/".into() }, "path has no filename"),
        (FileOperation::Rename { from: "a".into(), to: "../x/b".into() }, "invalid path component"),
    ] {
        assert_eq!(plan(op).unwrap_err().message(), words);
    }
    assert_eq!(open_target("///"), ".");
    assert_eq!(secure_mkdir_parents("a").unwrap().len(), 0);
    assert_eq!(secure_parent("a").unwrap().dir, ".");
}

#[test]
fn reads_and_writes_are_bounded() {
    let mut cfg = config_in("/d");
    cfg.max_upload_mb = 1;
    assert_eq!(write_file(&cfg, "a/b", 1_048_576).unwrap(), (vec!["a".to_string()], "a/b".to_string()));
    assert_eq!(write_file(&cfg, "a", 1_048_577).unwrap_err().message(), "upload too large");
    assert!(secure_read(true, 5, 5).is_ok());
    assert_eq!(secure_read(false, 0, 5).unwrap_err().message(), "not a regular file");
    assert_eq!(secure_read(true, 6, 5).unwrap_err().message(), "file exceeds read limit");
}

#[test]
fn listing_shows_directories_first() {
    let raw = |name: &str, is_dir: bool| RawRemoteEntry {
        name: name.into(),
        is_dir,
        len: 7,
        modified: 3,
        mode: 0o644,
    };
    let l = list_files("/r", "/r/sub", &vec![raw("b", false), raw("Z", true), raw("A", false), raw("c", true)]);
    let names: Vec<&str> = l.iter().map(|e| e.name.as_str()).collect();
    assert_eq!(names, vec!["c", "Z", "A", "b"]);
    assert_eq!(l[0].path, "/sub/c");
    assert_eq!((l[0].size, l[2].size), (0, 7));
    let l = list_files("/other", "/r", &vec![raw("b", false)]);
    assert_eq!(l[0].path, "//r/b");
}

#[test]
fn kernel_tables_are_read() {
    let stat = "12 (a ) b) S 1 12 12 0 -1 4194560 100 0 0 0 7 8 0 0 20 0 1 0 5 1000 33 184 x";
    let s = read_proc(stat).unwrap();
    assert_eq!(s, StatLine { user: 7, system: 8, rss_pages: 33 });
    assert_eq!(s.usage(4096), (135_168, 15));
    assert!(read_proc("no parenthesis").is_none());
    assert!(read_proc("1 (x) S 1 2").is_none());
    assert_eq!(read_children("10 x 4294967296 11\n"), vec![10, 11]);
    assert_eq!(process_tree_usage(&vec![(1, 2), (3, 4)]), (4, 6));
    assert_eq!(process_tree_usage(&vec![(u64::MAX, 2), (3, 4)]), (u64::MAX, 6));
    assert_eq!(fs_usage(100, 40, 4096), (409_600, 245_760));
    assert_eq!(fs_usage(u64::MAX, 0, 2), (u64::MAX, u64::MAX));
    assert_eq!(capacity_measure(None), Measure::Begin);
    assert_eq!(capacity_measure(Some(4999)), Measure::Keep);
    assert_eq!(capacity_measure(Some(5000)), Measure::Refresh);
}

#[test]
fn measurements_of_a_server_are_remembered() {
    let mut p = ManagedProcess::new(test_spec("u"), 1_000);
    assert_eq!(p.sample(50, 3_000), (50, 2_000));
    assert_eq!(p.sample(40, 3_000), (0, 1));
    assert_eq!(p.cached_dir_size(20_000), None);
    p.store_dir_size(77, 20_000);
    assert_eq!(p.cached_dir_size(29_999), Some(77));
    assert_eq!(p.cached_dir_size(30_000), None);
    assert_eq!(p.state, RunState::Offline);
    assert_eq!(RunState::Crashed.as_str(), "crashed");
}

#[test]
fn samples_count_from_the_last_one() {
    let uuid = "33333333-4444-5555-6666-777777777777";
    let mut rt = runtime_with(test_spec(uuid));
    rt.sample(uuid, 100, 5_000).unwrap();
    assert_eq!(rt.sample(uuid, 160, 7_500).unwrap(), (60, 2_500));
    assert_eq!(rt.sample(uuid, 150, 7_500).unwrap(), (0, 1));
    assert!(rt.sample("11111111-2222-3333-4444-555555555555", 1, 1).is_err());
}

#[test]
fn a_directory_size_is_kept_for_a_while() {
    let uuid = "33333333-4444-5555-6666-777777777777";
    let mut rt = runtime_with(test_spec(uuid));
    rt.store_dir_size(uuid, 4_096, 1_000_000);
    assert_eq!(rt.cached_dir_size(uuid, 1_000_000), Some(4_096));
    assert_eq!(rt.cached_dir_size(uuid, 1_000_000 + DIR_SIZE_CACHE_MS - 1), Some(4_096));
    assert_eq!(rt.cached_dir_size(uuid, 1_000_000 + DIR_SIZE_CACHE_MS), None);
    assert_eq!(rt.cached_dir_size("nobody", 1_000_000), None);
}
