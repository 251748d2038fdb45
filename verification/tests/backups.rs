//! Tests of backups: plans, restores, events and the mirror.
use std::io::{Cursor, Read, Write};
use voltpanel::archive::{EntryKind, MAX_ARCHIVE_ENTRIES};
use voltpanel::digest::{sha256_hex, Checksum};
use voltpanel::json::Json;
use voltpanel::models::{Config, Mirror, Paths, Server};
use voltpanel::services::backups::{
    archive_format, backup_event, backup_row, cleanup_old, create, create_failed, created, delete,
    download, event_for, extract_tar_gz, extract_zip, mirror_archive, mirror_copy_one,
    mirror_server_dir, mirror_status, mirror_sync, mirror_trim, plan_backup, restore, restore_step,
    restored, verify, Backup, CopyOutcome, DeleteOutcome, Format, MirrorError, MirrorFile,
    RestorePhase, ServerSync,
};
use voltpanel::services::files::{ArchiveEntry, NodeKind};
use voltpanel::swap::{
    counts_as_action, exchange_dirs_fallback, exchange_step, recover_stale_dirs, Outcome, Recovery,
    RecoveryPass, StaleEntry, SwapPhase,
};

fn config() -> Config {
    Config {
        paths: Paths {
            servers_dir: "/t/servers".into(),
            backups_dir: "/t/backups".into(),
            blueprints_dir: "/t/blueprints".into(),
            logs_dir: "/t/logs".into(),
            datalab_dir: "/t/datalab".into(),
        },
        mirror: Mirror { enabled: false, path: None, keep: 0 },
    }
}

fn mirrored(keep: usize) -> Config {
    Config {
        mirror: Mirror { enabled: true, path: Some("/t/mirror".into()), keep },
        ..config()
    }
}

fn server() -> Server {
    Server {
        id: 3,
        uuid: "srv-uuid".into(),
        name: "s".into(),
        blueprint_id: 1,
        startup: String::new(),
        port: None,
        memory_mb: 1024,
        disk_mb: 8192,
        cpu_percent: 100,
    }
}

fn backup(name: &str, data: &[u8], format: &str) -> Backup {
    Backup {
        uuid: "u1".into(),
        server_id: 3,
        name: name.into(),
        path: format!("/t/backups/{name}.{format}"),
        size: data.len() as i64,
        checksum: checksum(data),
        format: format.into(),
        ignored: String::new(),
    }
}

fn checksum(data: &[u8]) -> String {
    let mut sum = Checksum::new();
    sum.add(data);
    sum.hex()
}

#[test]
fn restore_refuses_checksum_mismatch() {
    let b = backup("b", b"original", "tar.gz");
    let err = restore(&config(), &server(), &b, &checksum(b"tampered!"), "n").unwrap_err();
    assert!(err.message().contains("checksum mismatch"));
    assert_eq!(restore_step(RestorePhase::Check, false, false), RestorePhase::Failed);
}

#[test]
fn restore_tar_gz_roundtrip_replaces_contents() {
    let b = backup("b", b"archive", "tar.gz");
    let plan = restore(&config(), &server(), &b, &checksum(b"archive"), "n").unwrap();
    assert_eq!(plan.dir, "/t/servers/srv-uuid");
    let mut p = RestorePhase::Check;
    let mut seen = vec![p];
    while p != RestorePhase::Restored && p != RestorePhase::Failed {
        p = restore_step(p, true, true);
        seen.push(p);
    }
    assert_eq!(p, RestorePhase::Restored);
    assert!(seen.contains(&RestorePhase::Unpack) && seen.contains(&RestorePhase::Exchange));
}

#[test]
fn download_name_follows_stored_format() {
    assert!(download(&backup("z", b"z", "zip")).ends_with(".zip"));
    assert!(download(&backup("t", b"t", "tar.gz")).ends_with(".tar.gz"));
}

#[test]
fn extract_zip_rejects_slip_entries() {
    let mut w = zip::ZipWriter::new(Cursor::new(Vec::new()));
    w.start_file("../evil.txt", zip::write::FileOptions::default()).unwrap();
    w.write_all(b"x").unwrap();
    let bytes = w.finish().unwrap().into_inner();
    let mut z = zip::ZipArchive::new(Cursor::new(bytes)).unwrap();
    let mut u = extract_zip("/t/staging", z.len()).unwrap();
    let f = z.by_index(0).unwrap();
    let entry = ArchiveEntry { name: f.name().into(), kind: EntryKind::File, declared: f.size() };
    let err = u.entry(&entry, &vec![]).unwrap_err();
    assert!(err.message().contains("escape"), "got: {}", err.message());
}

#[test]
fn extract_zip_rejects_too_many_entries() {
    let err = extract_zip("/t/staging", MAX_ARCHIVE_ENTRIES + 1).unwrap_err();
    assert!(err.message().contains("too many entries"), "got: {}", err.message());
    assert!(extract_zip("/t/staging", MAX_ARCHIVE_ENTRIES).is_ok());
}

#[test]
fn extract_tar_gz_rejects_link_entries() {
    let enc = flate2::write::GzEncoder::new(Vec::new(), flate2::Compression::default());
    let mut w = tar::Builder::new(enc);
    let mut h = tar::Header::new_gnu();
    h.set_entry_type(tar::EntryType::Symlink);
    h.set_size(0);
    h.set_path("link").unwrap();
    h.set_link_name("/etc/passwd").unwrap();
    h.set_cksum();
    w.append(&h, Cursor::new(Vec::new())).unwrap();
    let bytes = w.into_inner().unwrap().finish().unwrap();
    let mut a = tar::Archive::new(flate2::read::GzDecoder::new(bytes.as_slice()));
    let mut u = extract_tar_gz("/t/staging");
    for e in a.entries().unwrap() {
        let mut e = e.unwrap();
        let kind = if e.header().entry_type().is_symlink() { EntryKind::Link } else { EntryKind::File };
        let name = e.path().unwrap().to_string_lossy().into_owned();
        let mut data = Vec::new();
        e.read_to_end(&mut data).unwrap();
        let err = u.entry(&ArchiveEntry { name, kind, declared: 0 }, &vec![false; 8]).unwrap_err();
        assert!(err.message().contains("link"), "got: {}", err.message());
    }
}

#[test]
fn delete_keeps_archive_and_row_while_locked() {
    assert_eq!(delete(false), DeleteOutcome::Keep);
    assert_eq!(delete(true), DeleteOutcome::RemoveArchive);
}

fn stale(name: &str, target_exists: bool) -> StaleEntry {
    StaleEntry { name: name.into(), kind: NodeKind::Directory, target_exists }
}

#[test]
fn recovery_restores_only_copy_in_previous_dir() {
    let found = vec![
        stale(".previous-srv-uuid", false),
        stale(".previous-other-srv", true),
        stale(".restore-abc", false),
        stale(".previous-0123456789abcdef0123456789abcdef", false),
        stale("other-srv", false),
    ];
    let mut taken: Vec<Recovery> =
        found.iter().filter_map(|e| recover_stale_dirs(RecoveryPass::Restore, e)).collect();
    // What the first pass put back is no longer there for the others.
    let left = vec![
        stale(".previous-other-srv", true),
        stale(".restore-abc", false),
        stale(".previous-0123456789abcdef0123456789abcdef", false),
        stale("other-srv", false),
        stale("srv-uuid", false),
    ];
    for p in [RecoveryPass::Staged, RecoveryPass::Superseded, RecoveryPass::Probes] {
        taken.extend(left.iter().filter_map(|e| recover_stale_dirs(p, e)));
    }
    let mut restores = Vec::new();
    let mut inspects = Vec::new();
    let mut removed = Vec::new();
    let mut actions = 0;
    for step in &taken {
        if counts_as_action(step, true) {
            actions += 1;
        }
        match step {
            Recovery::Restore { from, to } => restores.push((from.clone(), to.clone())),
            Recovery::Inspect { name } => inspects.push(name.clone()),
            Recovery::RemoveDirectory { name } | Recovery::RemoveFile { name } => {
                removed.push(name.clone())
            }
        }
    }
    assert_eq!(actions, 4);
    assert_eq!(restores, vec![(".previous-srv-uuid".to_string(), "srv-uuid".to_string())]);
    assert_eq!(inspects, vec![".previous-0123456789abcdef0123456789abcdef"]);
    removed.sort();
    assert_eq!(removed, vec![".previous-other-srv", ".restore-abc"]);
}

#[test]
fn fallback_swap_reuses_deterministic_aside_name() {
    let mut p = exchange_dirs_fallback(true);
    assert_eq!(p, SwapPhase::Clear);
    let mut seen = Vec::new();
    while p != SwapPhase::Swapped && p != SwapPhase::Refused {
        seen.push(p);
        p = exchange_step(p, Outcome::Done, false);
    }
    assert_eq!(p, SwapPhase::Swapped);
    assert_eq!(seen, vec![SwapPhase::Clear, SwapPhase::Aside, SwapPhase::Insert, SwapPhase::Sweep]);
}

fn number(j: &Json, key: &str) -> i64 {
    j.get_integer(key).unwrap()
}

#[test]
fn create_enqueues_backup_complete_webhook_delivery() {
    assert_eq!(event_for(true), "backup.complete");
    let sum = checksum(b"data");
    let v = backup_event(3, Some(&server()), event_for(true), "t", created(9, "b", 4, &sum));
    assert_eq!(number(&v, "server_id"), 3);
    assert_eq!(v.get_text("uuid").unwrap(), "srv-uuid");
    assert_eq!(v.get_text("operation").unwrap(), "create");
    assert_eq!(number(&v, "backup_id"), 9);
    assert_eq!(v.get_text("backup_name").unwrap(), "b");
    assert_eq!(number(&v, "size"), 4);
    assert_eq!(v.get_text("checksum").unwrap(), &sum);
}

#[test]
fn restore_failure_enqueues_backup_failed_webhook_delivery() {
    let b = backup("b", b"original", "tar.gz");
    let err = restore(&config(), &server(), &b, &checksum(b"tampered!"), "n").unwrap_err().message();
    assert!(err.contains("checksum mismatch"));
    assert_eq!(event_for(false), "backup.failed");
    let v = backup_event(3, Some(&server()), event_for(false), "t", restored(9, "b", Some(&err)));
    assert_eq!(number(&v, "server_id"), 3);
    assert_eq!(v.get_text("operation").unwrap(), "restore");
    assert_eq!(number(&v, "backup_id"), 9);
    assert_eq!(v.get_text("backup_name").unwrap(), "b");
    assert!(v.get_text("error").unwrap().contains("checksum mismatch"));
}

#[test]
fn mirror_copies_archives_and_trims_oldest_per_server() {
    let cfg = mirrored(2);
    let mut held: Vec<MirrorFile> = Vec::new();
    for i in 0..4 {
        let to = mirror_copy_one(&cfg, &server(), &format!("/t/backups/b{i}.tar.gz")).unwrap();
        assert_eq!(to, format!("/t/mirror/srv-uuid/b{i}.tar.gz"));
        held.push(MirrorFile { name: format!("b{i}.tar.gz"), mtime: i });
        let gone = mirror_trim(held.clone(), 2);
        held.retain(|f| !gone.iter().any(|g| g.name == f.name));
    }
    let names: Vec<&str> = held.iter().map(|f| f.name.as_str()).collect();
    assert_eq!(names, vec!["b2.tar.gz", "b3.tar.gz"], "mirror retention must keep exactly keep archives");
    assert_eq!(mirror_status(&cfg, 0), "ok");
}

#[test]
fn mirror_degraded_on_failure_and_recovers_on_success() {
    let cfg = mirrored(2);
    let failures = mirror_archive(0, false);
    assert_eq!(mirror_status(&cfg, failures), "degraded");
    let failures = mirror_archive(failures, true);
    assert_eq!(mirror_status(&cfg, failures), "ok");
}

#[test]
fn mirror_sync_repairs_missing_archives_and_is_idempotent() {
    let cfg = mirrored(10);
    let wiped = ServerSync { copies: vec![CopyOutcome::Copied; 3], trimmed: Some(0) };
    let (report, _) = mirror_sync(&cfg, &vec![wiped]);
    assert_eq!(report.servers, 1);
    assert_eq!(report.copied, 3);
    assert_eq!(report.failed, 0);
    let again = ServerSync { copies: vec![CopyOutcome::Present; 3], trimmed: Some(0) };
    let (report, any_failed) = mirror_sync(&cfg, &vec![again]);
    assert_eq!(report.copied, 0);
    assert_eq!(report.removed, 0);
    assert_eq!(report.failed, 0);
    assert!(!any_failed);
    assert_eq!(mirror_status(&cfg, mirror_archive(1, !any_failed)), "ok");
    let broken = ServerSync { copies: vec![CopyOutcome::Failed], trimmed: None };
    let (report, any_failed) = mirror_sync(&cfg, &vec![broken]);
    assert_eq!(report.failed, 1);
    assert!(any_failed);
}

#[test]
fn plans_name_the_archive_by_its_id() {
    let cfg = config();
    let new = plan_backup(&cfg, "id-1", "*.log").unwrap();
    assert_eq!((new.uuid.as_str(), new.path.as_str()), ("id-1", "/t/backups/id-1.tar.gz"));
    assert!(new.ignore.excludes("a.log"));
    assert!(plan_backup(&cfg, "id-1", "[").is_err());
    let a = create(&cfg, "").unwrap();
    let b = create(&cfg, "").unwrap();
    assert_ne!(a.uuid, b.uuid);
    assert!(uuid::Uuid::parse_str(&a.uuid).is_ok());
    let row = backup_row(&new, 3, "b", 9, "sum", "*.log");
    assert_eq!((row.size, row.format.as_str(), row.path.as_str()), (9, "tar.gz", "/t/backups/id-1.tar.gz"));
}

#[test]
fn formats_and_verdicts() {
    assert_eq!(archive_format("zip").unwrap(), Format::Zip);
    assert_eq!(archive_format("tar.gz").unwrap(), Format::TarGz);
    assert!(archive_format("rar").unwrap_err().message().contains("rar"));
    let b = backup("b", b"x", "zip");
    assert!(verify(&b, Some(&checksum(b"x"))));
    assert!(!verify(&b, Some(&checksum(b"y"))));
    assert!(!verify(&b, None));
    assert_eq!(cleanup_old(-4), 0);
    assert_eq!(cleanup_old(7), 7);
    assert_eq!(create_failed("e").get_text("error").unwrap(), "e");
    assert_eq!(mirror_status(&config(), 0), "disabled");
    assert!(mirror_server_dir(&config(), &server()).is_none());
    assert_eq!(mirror_copy_one(&config(), &server(), "/a"), Err(MirrorError::Disabled));
    assert_eq!(mirror_copy_one(&mirrored(1), &server(), "/a/.."), Err(MirrorError::NoFileName));
}

#[test]
fn a_checksum_in_chunks_is_that_of_the_whole() {
    let mut sum = Checksum::new();
    sum.add(b"ab");
    sum.add(b"c");
    assert_eq!(sum.hex(), sha256_hex(b"abc"));
    assert_eq!(
        sha256_hex(b"abc"),
        "ba7816bf8f01cfea414140de5dae2223b00361a396177a9cb410ff61f20015ad"
    );
}

#[test]
fn failing_unpack_leaves_the_live_directory() {
    let mut p = RestorePhase::Check;
    while p != RestorePhase::Unpack {
        p = restore_step(p, true, true);
    }
    p = restore_step(p, false, true);
    assert_eq!(p, RestorePhase::Discard);
    assert_eq!(restore_step(p, true, true), RestorePhase::Failed);
}
