//! Backups of server directories: what is recorded, when one may be restored,
//! and the offsite mirror.
pub use crate::swap::recover_stale_dirs;

use crate::archive::Limits;
use crate::json;
use crate::json::{Json, Member};
use crate::models::{Config, Server};
use crate::node_protocol;
use crate::order;
use crate::order::Ranked;
use crate::paths;
use crate::services::files;
use crate::services::files::{FileError, IgnoreList, Unpack};
use crate::text;
use vstd::prelude::*;
use vstd::string::*;

verus! {

/// Longest base64 text of a remote archive: what the largest archive takes, with
/// its padding.
pub const MAX_REMOTE_ARCHIVE_B64_CHARS: u64 = 2 * 1024 * 1024 * 1024 * 4 / 3 + 8;

/// A backup as it is recorded.
#[derive(Debug, Clone)]
pub struct Backup {
    pub uuid: String,
    pub server_id: i64,
    pub name: String,
    pub path: String,
    pub size: i64,
    pub checksum: String,
    pub format: String,
    pub ignored: String,
}

/// How an archive is packed.
#[derive(Debug, Clone, Copy, PartialEq, Eq, Structural)]
pub enum Format {
    Zip,
    TarGz,
}

/// Why a backup was not restored.
#[derive(Debug, Clone)]
pub enum RestoreError {
    ChecksumMismatch,
    UnsupportedFormat { format: String },
}

impl RestoreError {
    /// The message of a refusal.
    pub open spec fn text_of(self) -> Seq<char> {
        match self {
            RestoreError::ChecksumMismatch => "backup checksum mismatch; refusing restore"@,
            RestoreError::UnsupportedFormat { format } => "unsupported backup format: "@
                + format@,
        }
    }

    /// The message of a refusal.
    pub fn message(&self) -> (r: String)
        ensures
            r@ == self.text_of(),
    {
        match self {
            RestoreError::ChecksumMismatch => text::copy_of(
                "backup checksum mismatch; refusing restore",
            ),
            RestoreError::UnsupportedFormat { format } => {
                let mut s = text::copy_of("unsupported backup format: ");
                s.append(format.as_str());
                s
            },
        }
    }
}

/// Where a backup is written and what stays out of it.
#[derive(Debug, Clone)]
pub struct NewBackup {
    pub uuid: String,
    pub path: String,
    pub ignore: IgnoreList,
}

/// Path of the archive of a backup.
pub open spec fn archive_path(cfg: Config, uuid: Seq<char>) -> Seq<char> {
    paths::joined(cfg.paths.backups_dir@, uuid + ".tar.gz"@)
}

/// Plans a backup under a UUID. A pattern that does not parse is an error.
pub fn plan_backup(cfg: &Config, uuid: &str, ignored: &str) -> (r: Result<NewBackup, String>)
    ensures
        match r {
            Ok(b) => b.uuid@ == uuid@ && b.path@ == archive_path(*cfg, uuid@) && text::views(
                b.ignore.patterns@,
            ) == files::patterns_of(ignored@) && forall|i: int|
                0 <= i < files::patterns_of(ignored@).len() ==> files::glob_parses(
                    #[trigger] files::patterns_of(ignored@)[i],
                ),
            Err(m) => files::pattern_error(files::patterns_of(ignored@), m@),
        },
{
    match IgnoreList::parse(ignored) {
        Err(m) => Err(m),
        Ok(ignore) => {
            let mut file = text::copy_of(uuid);
            file.append(".tar.gz");
            let path = paths::join(cfg.paths.backups_dir.as_str(), file.as_str());
            Ok(NewBackup { uuid: text::copy_of(uuid), path, ignore })
        },
    }
}

/// Plans a backup under a new UUID.
pub fn create(cfg: &Config, ignored: &str) -> (r: Result<NewBackup, String>)
    ensures
        match r {
            Ok(b) => node_protocol::is_hyphenated(b.uuid@) && b.path@ == archive_path(
                *cfg,
                b.uuid@,
            ) && text::views(b.ignore.patterns@) == files::patterns_of(ignored@) && forall|i: int|
                0 <= i < files::patterns_of(ignored@).len() ==> files::glob_parses(
                    #[trigger] files::patterns_of(ignored@)[i],
                ),
            Err(m) => files::pattern_error(files::patterns_of(ignored@), m@),
        },
{
    let uuid = node_protocol::fresh_uuid();
    plan_backup(cfg, uuid.as_str(), ignored)
}

/// The record of a backup that was written.
pub fn backup_row(
    new: &NewBackup,
    server_id: i64,
    name: &str,
    size: u64,
    checksum: &str,
    ignored: &str,
) -> (r: Backup)
    requires
        size <= i64::MAX,
    ensures
        r.uuid@ == new.uuid@,
        r.server_id == server_id,
        r.name@ == name@,
        r.path@ == new.path@,
        r.size == size,
        r.checksum@ == checksum@,
        r.format@ == "tar.gz"@,
        r.ignored@ == ignored@,
{
    Backup {
        uuid: text::copy_of(new.uuid.as_str()),
        server_id,
        name: text::copy_of(name),
        path: text::copy_of(new.path.as_str()),
        size: size as i64,
        checksum: text::copy_of(checksum),
        format: text::copy_of("tar.gz"),
        ignored: text::copy_of(ignored),
    }
}

/// How an archive of a recorded format is unpacked.
pub fn archive_format(format: &str) -> (r: Result<Format, RestoreError>)
    ensures
        match r {
            Ok(f) => format@ == match f {
                Format::Zip => "zip"@,
                Format::TarGz => "tar.gz"@,
            },
            Err(e) => {
                &&& format@ != "zip"@
                &&& format@ != "tar.gz"@
                &&& e matches RestoreError::UnsupportedFormat { format: f }
                &&& f@ == format@
            },
        },
{
    if text::same(format, "zip") {
        Ok(Format::Zip)
    } else if text::same(format, "tar.gz") {
        Ok(Format::TarGz)
    } else {
        Err(RestoreError::UnsupportedFormat { format: text::copy_of(format) })
    }
}

/// Where a backup is unpacked, and what it replaces.
#[derive(Debug, Clone)]
pub struct RestorePlan {
    pub dir: String,
    pub staging: String,
}

/// Starts a restore, given the checksum of the archive as it is on disk: refused
/// where it is not the one recorded. `nonce` tells the staging directory from
/// others.
pub fn restore(cfg: &Config, server: &Server, backup: &Backup, found: &str, nonce: &str) -> (r:
    Result<RestorePlan, RestoreError>)
    ensures
        match r {
            Ok(p) => found@ == backup.checksum@ && p.dir@ == files::root_of(*cfg, *server)
                && p.staging@ == paths::joined(cfg.paths.servers_dir@, ".restore-"@ + nonce@),
            Err(e) => found@ != backup.checksum@ && e is ChecksumMismatch,
        },
{
    if !text::same(found, backup.checksum.as_str()) {
        return Err(RestoreError::ChecksumMismatch);
    }
    let mut name = text::copy_of(".restore-");
    name.append(nonce);
    Ok(
        RestorePlan {
            dir: files::server_root(cfg, server),
            staging: paths::join(cfg.paths.servers_dir.as_str(), name.as_str()),
        },
    )
}

/// Where a restore stands: what is to be done next, or how it ended.
#[derive(Debug, Clone, Copy, PartialEq, Eq, Structural)]
pub enum RestorePhase {
    /// Hold the archive against the recorded checksum.
    Check,
    /// Make the staging directory.
    Stage,
    /// Unpack the archive into it.
    Unpack,
    /// Remove the staging directory, then fail.
    Discard,
    /// Give the staged tree to the server's user.
    Isolate,
    /// Exchange the staged directory with the live one.
    Exchange,
    /// Move the staged directory into the empty place.
    MoveIn,
    /// Remove the old content.
    Sweep,
    Restored,
    Failed,
}

/// The phase that follows one that went well or not.
pub open spec fn restore_behind(p: RestorePhase, ok: bool, live_exists: bool) -> RestorePhase {
    match p {
        RestorePhase::Discard => RestorePhase::Failed,
        RestorePhase::Sweep => RestorePhase::Restored,
        RestorePhase::Restored => RestorePhase::Restored,
        RestorePhase::Failed => RestorePhase::Failed,
        RestorePhase::Unpack => if ok {
            RestorePhase::Isolate
        } else {
            RestorePhase::Discard
        },
        _ => if !ok {
            RestorePhase::Failed
        } else {
            match p {
                RestorePhase::Check => RestorePhase::Stage,
                RestorePhase::Stage => RestorePhase::Unpack,
                RestorePhase::Isolate => if live_exists {
                    RestorePhase::Exchange
                } else {
                    RestorePhase::MoveIn
                },
                RestorePhase::Exchange => RestorePhase::Sweep,
                RestorePhase::MoveIn => RestorePhase::Restored,
                other => other,
            }
        },
    }
}

/// Goes on with a restore.
pub fn restore_step(p: RestorePhase, ok: bool, live_exists: bool) -> (r: RestorePhase)
    ensures
        r == restore_behind(p, ok, live_exists),
{
    match p {
        RestorePhase::Discard | RestorePhase::Failed => RestorePhase::Failed,
        RestorePhase::Sweep | RestorePhase::Restored => RestorePhase::Restored,
        RestorePhase::Unpack => if ok {
            RestorePhase::Isolate
        } else {
            RestorePhase::Discard
        },
        RestorePhase::Check => if ok {
            RestorePhase::Stage
        } else {
            RestorePhase::Failed
        },
        RestorePhase::Stage => if ok {
            RestorePhase::Unpack
        } else {
            RestorePhase::Failed
        },
        RestorePhase::Isolate => if !ok {
            RestorePhase::Failed
        } else if live_exists {
            RestorePhase::Exchange
        } else {
            RestorePhase::MoveIn
        },
        RestorePhase::Exchange => if ok {
            RestorePhase::Sweep
        } else {
            RestorePhase::Failed
        },
        RestorePhase::MoveIn => if ok {
            RestorePhase::Restored
        } else {
            RestorePhase::Failed
        },
    }
}

/// Where a restore stands after steps that went well or not.
pub open spec fn restore_after(oks: Seq<bool>, live_exists: bool) -> RestorePhase
    decreases oks.len(),
{
    if oks.len() == 0 {
        RestorePhase::Check
    } else {
        restore_behind(restore_after(oks.drop_last(), live_exists), oks.last(), live_exists)
    }
}

/// Whether a phase touches the live directory, or comes behind one that did.
pub open spec fn touches_live(p: RestorePhase) -> bool {
    p == RestorePhase::Exchange || p == RestorePhase::MoveIn || p == RestorePhase::Sweep || p
        == RestorePhase::Restored
}

/// The live directory is touched only after the checksum was found right, the
/// archive unpacked in full and its tree given to the server's user.
pub proof fn law_live_directory_waits_for_a_good_archive(oks: Seq<bool>, live_exists: bool)
    requires
        touches_live(restore_after(oks, live_exists)),
    ensures
        oks.len() >= 4,
        oks[0] && oks[1] && oks[2] && oks[3],
    decreases oks.len(),
{
    if oks.len() > 0 {
        let less = oks.drop_last();
        if touches_live(restore_after(less, live_exists)) {
            law_live_directory_waits_for_a_good_archive(less, live_exists);
            assert(oks[0] == less[0] && oks[1] == less[1] && oks[2] == less[2] && oks[3]
                == less[3]);
        } else {
            assert(restore_after(less, live_exists) == RestorePhase::Isolate);
            lemma_phase_counts(less, live_exists);
        }
    }
}

proof fn lemma_phase_counts(oks: Seq<bool>, live_exists: bool)
    ensures
        ({
            let p = restore_after(oks, live_exists);
            &&& p == RestorePhase::Check ==> oks.len() == 0
            &&& p == RestorePhase::Stage ==> oks.len() == 1 && oks[0]
            &&& p == RestorePhase::Unpack ==> oks.len() == 2 && oks[0] && oks[1]
            &&& p == RestorePhase::Isolate ==> oks.len() == 3 && oks[0] && oks[1] && oks[2]
        }),
    decreases oks.len(),
{
    if oks.len() > 0 {
        lemma_phase_counts(oks.drop_last(), live_exists);
    }
}

/// Starts unpacking a backup's zip archive of `entries` entries.
pub fn extract_zip(staging: &str, entries: usize) -> (r: Result<Unpack, FileError>)
    ensures
        match r {
            Ok(u) => entries <= crate::archive::MAX_ARCHIVE_ENTRIES && u.dest@ == staging@
                && !u.backslashes && u.extraction.limits == crate::archive::standard_limits()
                && u.extraction.count == 0 && u.extraction.total == 0 && u.wf(),
            Err(e) => e == FileError::Archive(
                crate::archive::ArchiveError::TooManyEntries {
                    max: crate::archive::MAX_ARCHIVE_ENTRIES,
                },
            ) && entries > crate::archive::MAX_ARCHIVE_ENTRIES,
        },
{
    match files::unzip_into_bounded(staging, entries, Limits::standard()) {
        Err(e) => Err(e),
        Ok(u) => Ok(Unpack { dest: u.dest, backslashes: false, extraction: u.extraction }),
    }
}

/// Starts unpacking a backup's tar archive.
pub fn extract_tar_gz(staging: &str) -> (r: Unpack)
    ensures
        r.dest@ == staging@,
        !r.backslashes,
        r.extraction.limits == crate::archive::standard_limits(),
        r.extraction.count == 0,
        r.extraction.total == 0,
        r.wf(),
{
    files::extract_tar_gz_into(staging)
}

/// The name to suggest for a downloaded backup.
pub fn download(backup: &Backup) -> (r: String)
    ensures
        r@ == backup.name@ + "."@ + (if backup.format@ == "tar.gz"@ {
            "tar.gz"@
        } else {
            "zip"@
        }),
{
    let mut s = text::copy_of(backup.name.as_str());
    s.append(".");
    if text::same(backup.format.as_str(), "tar.gz") {
        s.append("tar.gz");
    } else {
        s.append("zip");
    }
    s
}

/// Whether a backup on disk is what was recorded, given its checksum; none where
/// the archive is missing.
pub fn verify(backup: &Backup, found: Option<&str>) -> (r: bool)
    ensures
        r == match found {
            Some(c) => c@ == backup.checksum@,
            None => false,
        },
{
    match found {
        Some(c) => text::same(c, backup.checksum.as_str()),
        None => false,
    }
}

/// How many backups a rotation keeps.
pub fn cleanup_old(keep: i64) -> (r: u64)
    ensures
        r == (if keep < 0 {
            0
        } else {
            keep as int
        }),
{
    if keep < 0 {
        0
    } else {
        keep as u64
    }
}

/// What follows a request to delete a backup.
#[derive(Debug, Clone, Copy, PartialEq, Eq, Structural)]
pub enum DeleteOutcome {
    /// The record is gone: remove the archive.
    RemoveArchive,
    /// The record stays, and so does the archive.
    Keep,
}

/// The archive goes only once its record is gone, which a lock prevents.
pub fn delete(record_removed: bool) -> (r: DeleteOutcome)
    ensures
        r == (if record_removed {
            DeleteOutcome::RemoveArchive
        } else {
            DeleteOutcome::Keep
        }),
{
    if record_removed {
        DeleteOutcome::RemoveArchive
    } else {
        DeleteOutcome::Keep
    }
}

/// The members of an object put into a value, one by one.
pub open spec fn merged(base: json::Doc, extra: Seq<(Seq<char>, json::Doc)>) -> json::Doc
    decreases extra.len(),
{
    if extra.len() == 0 {
        base
    } else {
        json::inserted(merged(base, extra.drop_last()), extra.last().0, extra.last().1)
    }
}

/// The event that every backup event starts from.
pub open spec fn event_base(
    server_id: i64,
    server: Option<Server>,
    event: Seq<char>,
    timestamp: Seq<char>,
) -> json::Doc {
    let none = json::Doc::Object(Seq::empty());
    let d = json::inserted(none, "event"@, json::Doc::Text(event));
    let d = json::inserted(d, "server_id"@, json::Doc::Number(text::decimal(server_id as int)));
    let d = json::inserted(
        d,
        "uuid"@,
        match server {
            Some(s) => json::Doc::Text(s.uuid@),
            None => json::Doc::Null,
        },
    );
    let d = json::inserted(
        d,
        "server_name"@,
        match server {
            Some(s) => json::Doc::Text(s.name@),
            None => json::Doc::Null,
        },
    );
    json::inserted(d, "timestamp"@, json::Doc::Text(timestamp))
}

/// The payload of a backup event: the server it is about, the time, and what the
/// event adds.
pub fn backup_event(
    server_id: i64,
    server: Option<&Server>,
    event: &str,
    timestamp: &str,
    extra: Json,
) -> (r: Json)
    ensures
        ({
            let base = event_base(
                server_id,
                match server {
                    Some(s) => Some(*s),
                    None => None,
                },
                event@,
                timestamp@,
            );
            r@ == match extra@ {
                json::Doc::Object(ms) => merged(base, ms),
                _ => base,
            }
        }),
{
    let d = Json::object();
    let d = d.insert("event", Json::text(event));
    let d = d.insert("server_id", Json::integer(server_id));
    let uuid = match server {
        Some(s) => Json::text(s.uuid.as_str()),
        None => Json::Null,
    };
    let d = d.insert("uuid", uuid);
    let name = match server {
        Some(s) => Json::text(s.name.as_str()),
        None => Json::Null,
    };
    let d = d.insert("server_name", name);
    let d = d.insert("timestamp", Json::text(timestamp));
    match extra {
        Json::Object(members) => merge_members(d, &members),
        _ => d,
    }
}

/// Puts copies of members into a value.
fn merge_members(base: Json, members: &Vec<Member>) -> (r: Json)
    ensures
        r@ == merged(base@, json::members_of(members@)),
{
    let ghost start = base@;
    let ghost all = json::members_of(members@);
    proof {
        json::lemma_members(members@);
    }
    let mut d = base;
    let mut i: usize = 0;
    assert(all.take(0) =~= Seq::<(Seq<char>, json::Doc)>::empty());
    while i < members.len()
        invariant
            i <= members@.len(),
            all == json::members_of(members@),
            all.len() == members@.len(),
            forall|k: int|
                0 <= k < members@.len() ==> #[trigger] all[k] == (
                    members@[k].key@,
                    json::doc_of(members@[k].value),
                ),
            d@ == merged(start, all.take(i as int)),
        decreases members.len() - i,
    {
        assert(all.take(i + 1).drop_last() =~= all.take(i as int));
        assert(all.take(i + 1).last() == all[i as int]);
        d = d.insert(members[i].key.as_str(), members[i].value.copy());
        i += 1;
    }
    assert(all.take(i as int) =~= all);
    d
}

/// What an event adds for a backup that was written, or was not.
pub open spec fn create_extra(
    outcome: Result<(i64, u64, Seq<char>), Seq<char>>,
    name: Seq<char>,
) -> json::Doc {
    let d = json::inserted(
        json::Doc::Object(Seq::empty()),
        "operation"@,
        json::Doc::Text("create"@),
    );
    match outcome {
        Ok((id, size, checksum)) => {
            let d = json::inserted(d, "backup_id"@, json::Doc::Number(text::decimal(id as int)));
            let d = json::inserted(d, "backup_name"@, json::Doc::Text(name));
            let d = json::inserted(d, "size"@, json::Doc::Number(text::decimal(size as int)));
            json::inserted(d, "checksum"@, json::Doc::Text(checksum))
        },
        Err(m) => json::inserted(d, "error"@, json::Doc::Text(m)),
    }
}

/// What an event adds for a backup that was restored, or was not.
pub open spec fn restore_extra(id: i64, name: Seq<char>, error: Option<Seq<char>>) -> json::Doc {
    let d = json::inserted(
        json::Doc::Object(Seq::empty()),
        "operation"@,
        json::Doc::Text("restore"@),
    );
    let d = json::inserted(d, "backup_id"@, json::Doc::Number(text::decimal(id as int)));
    let d = json::inserted(d, "backup_name"@, json::Doc::Text(name));
    match error {
        Some(m) => json::inserted(d, "error"@, json::Doc::Text(m)),
        None => d,
    }
}

/// Name of the event for an outcome.
pub open spec fn event_name(ok: bool) -> Seq<char> {
    if ok {
        "backup.complete"@
    } else {
        "backup.failed"@
    }
}

/// Name of the event for an outcome.
pub fn event_for(ok: bool) -> (r: &'static str)
    ensures
        r@ == event_name(ok),
{
    if ok {
        "backup.complete"
    } else {
        "backup.failed"
    }
}

/// What an event adds for a backup that was written.
pub fn created(id: i64, name: &str, size: u64, checksum: &str) -> (r: Json)
    ensures
        r@ == create_extra(Ok((id, size, checksum@)), name@),
{
    let d = Json::object().insert("operation", Json::text("create"));
    let d = d.insert("backup_id", Json::integer(id));
    let d = d.insert("backup_name", Json::text(name));
    let digits = text::string_of(text::decimal_u64(size).as_slice());
    let d = d.insert("size", Json::Number(digits));
    d.insert("checksum", Json::text(checksum))
}

/// What an event adds for a backup that could not be written.
pub fn create_failed(error: &str) -> (r: Json)
    ensures
        r@ == create_extra(Err(error@), Seq::empty()),
{
    let d = Json::object().insert("operation", Json::text("create"));
    d.insert("error", Json::text(error))
}

/// What an event adds for a backup that was restored, or was not.
pub fn restored(id: i64, name: &str, error: Option<&str>) -> (r: Json)
    ensures
        r@ == restore_extra(
            id,
            name@,
            match error {
                Some(m) => Some(m@),
                None => None,
            },
        ),
{
    let d = Json::object().insert("operation", Json::text("restore"));
    let d = d.insert("backup_id", Json::integer(id));
    let d = d.insert("backup_name", Json::text(name));
    match error {
        Some(m) => d.insert("error", Json::text(m)),
        None => d,
    }
}

/// Health of the mirror.
pub fn mirror_status(cfg: &Config, failures: u64) -> (r: &'static str)
    ensures
        r@ == (if !cfg.mirror.enabled {
            "disabled"@
        } else if failures == 0 {
            "ok"@
        } else {
            "degraded"@
        }),
{
    if !cfg.mirror.enabled {
        "disabled"
    } else if failures == 0 {
        "ok"
    } else {
        "degraded"
    }
}

/// Directory of a server's archives in the mirror.
pub open spec fn mirror_dir(cfg: Config, server: Server) -> Option<Seq<char>> {
    if cfg.mirror.enabled && cfg.mirror.path is Some {
        Some(paths::joined(cfg.mirror.path->0@, server.uuid@))
    } else {
        None
    }
}

/// Directory of a server's archives in the mirror; none without a mirror.
pub fn mirror_server_dir(cfg: &Config, server: &Server) -> (r: Option<String>)
    ensures
        match r {
            Some(s) => mirror_dir(*cfg, *server) == Some(s@),
            None => mirror_dir(*cfg, *server) is None,
        },
{
    if !cfg.mirror.enabled {
        return None;
    }
    match &cfg.mirror.path {
        Some(p) => Some(paths::join(p.as_str(), server.uuid.as_str())),
        None => None,
    }
}

/// Why an archive cannot be mirrored.
#[derive(Debug, Clone, Copy, PartialEq, Eq, Structural)]
pub enum MirrorError {
    Disabled,
    NoFileName,
}

/// Where the mirror keeps a copy of an archive.
pub fn mirror_copy_one(cfg: &Config, server: &Server, archive: &str) -> (r: Result<
    String,
    MirrorError,
>)
    ensures
        match r {
            Ok(s) => mirror_dir(*cfg, *server) is Some && paths::last_name(archive@) is Some && s@
                == paths::joined(mirror_dir(*cfg, *server)->0, paths::last_name(archive@)->0),
            Err(e) => if mirror_dir(*cfg, *server) is None {
                e == MirrorError::Disabled
            } else {
                e == MirrorError::NoFileName && paths::last_name(archive@) is None
            },
        },
{
    let dir = match mirror_server_dir(cfg, server) {
        Some(d) => d,
        None => {
            return Err(MirrorError::Disabled);
        },
    };
    let cs = text::chars_of(archive);
    match paths::file_name(cs.as_slice()) {
        None => Err(MirrorError::NoFileName),
        Some(n) => {
            let name = text::string_of(n.as_slice());
            Ok(paths::join(dir.as_str(), name.as_str()))
        },
    }
}

/// A file of the mirror; `mtime` orders files by their age, the oldest first.
#[derive(Debug, Clone)]
pub struct MirrorFile {
    pub name: String,
    pub mtime: i128,
}

impl Ranked for MirrorFile {
    open spec fn may_precede(&self, other: &Self) -> bool {
        self.mtime <= other.mtime
    }

    fn precedes(&self, other: &Self) -> (r: bool) {
        self.mtime <= other.mtime
    }
}

/// Whether a file of the mirror is an archive.
pub open spec fn is_archive(f: MirrorFile) -> bool {
    text::finishes_with(f.name@, ".tar.gz"@)
}

/// The archives among some files, oldest first.
pub open spec fn archives(fs: Seq<MirrorFile>) -> Seq<MirrorFile> {
    order::sorted(fs.filter(|f: MirrorFile| is_archive(f)))
}

/// How many of `n` archives are too many.
pub open spec fn excess(n: nat, keep: usize) -> int {
    if n > keep {
        n - keep
    } else {
        0
    }
}

/// The files to remove from a server's mirror: the oldest archives beyond those
/// to keep.
pub fn mirror_trim(files: Vec<MirrorFile>, keep: usize) -> (r: Vec<MirrorFile>)
    ensures
        r@ == archives(files@).take(excess(archives(files@).len(), keep)),
{
    let ghost all = files@;
    let ghost test = |f: MirrorFile| is_archive(f);
    let suffix = text::chars_of(".tar.gz");
    let mut rest = files;
    let mut backwards: Vec<MirrorFile> = Vec::new();
    while rest.len() > 0
        invariant
            rest@.len() + backwards@.len() == all.len(),
            rest@ == all.take(rest@.len() as int),
            forall|i: int| 0 <= i < backwards@.len() ==> backwards@[i] == all[all.len() - 1 - i],
        decreases rest.len(),
    {
        if let Some(f) = rest.pop() {
            backwards.push(f);
        }
        assert(rest@ =~= all.take(rest@.len() as int));
    }
    let mut found: Vec<MirrorFile> = Vec::new();
    assert(all.take(0).filter(test) =~= Seq::<MirrorFile>::empty()) by {
        reveal(Seq::filter);
    }
    while backwards.len() > 0
        invariant
            backwards@.len() <= all.len(),
            test == (|f: MirrorFile| is_archive(f)),
            suffix@ == ".tar.gz"@,
            forall|i: int| 0 <= i < backwards@.len() ==> backwards@[i] == all[all.len() - 1 - i],
            found@ == all.take(all.len() - backwards@.len()).filter(test),
        decreases backwards.len(),
    {
        let ghost done = all.len() - backwards@.len();
        if let Some(f) = backwards.pop() {
            proof {
                assert(all.take(done + 1) =~= all.take(done as int).push(f));
                all.take(done as int).lemma_filter_push(f, test);
            }
            let cs = text::chars_of(f.name.as_str());
            if text::ends_with(cs.as_slice(), suffix.as_slice()) {
                found.push(f);
            }
        }
    }
    assert(all.take(all.len() as int) =~= all);
    let mut sorted = order::sort(found);
    let ghost whole = sorted@;
    let n: usize = if sorted.len() > keep {
        sorted.len() - keep
    } else {
        0
    };
    sorted.truncate(n);
    assert(sorted@ =~= whole.take(n as int));
    sorted
}

/// Trimming a mirror leaves as many archives as are to be kept, or all, and none
/// of those removed is younger than one that stays.
pub proof fn law_trim_keeps_the_youngest(fs: Seq<MirrorFile>, keep: usize)
    ensures
        ({
            let all = archives(fs);
            let n = excess(all.len(), keep);
            &&& all.len() - n == if all.len() < keep {
                all.len() as int
            } else {
                keep as int
            }
            &&& forall|i: int, j: int|
                #![trigger all[i], all[j]]
                0 <= i < n && n <= j < all.len() ==> all[i].mtime <= all[j].mtime
        }),
{
    let found = fs.filter(|f: MirrorFile| is_archive(f));
    assert forall|a: MirrorFile, b: MirrorFile, c: MirrorFile| #[trigger]
        a.may_precede(&b) && #[trigger] b.may_precede(&c) implies a.may_precede(&c) by {}
    order::lemma_sorted_is_ordered(found);
    let all = archives(fs);
    let n = excess(all.len(), keep);
    assert forall|i: int, j: int|
        #![trigger all[i], all[j]]
        0 <= i < n && n <= j < all.len() implies all[i].mtime <= all[j].mtime by {
        assert(all[i].may_precede(&all[j]));
    }
}

/// A mirror whose archives are those that a trim left is not trimmed again.
pub proof fn law_trimmed_mirror_is_left_alone(
    fs: Seq<MirrorFile>,
    left: Seq<MirrorFile>,
    keep: usize,
)
    requires
        archives(left).to_multiset() == archives(fs).skip(
            excess(archives(fs).len(), keep),
        ).to_multiset(),
    ensures
        excess(archives(left).len(), keep) == 0,
{
    vstd::seq_lib::to_multiset_len(archives(left));
    vstd::seq_lib::to_multiset_len(archives(fs).skip(excess(archives(fs).len(), keep)));
}

/// The count of failures of the mirror after one more operation: it starts anew
/// with every success.
pub fn mirror_archive(failures: u64, ok: bool) -> (r: u64)
    ensures
        r == (if ok {
            0
        } else if failures == u64::MAX {
            0
        } else {
            failures + 1
        }),
{
    if ok || failures == u64::MAX {
        0
    } else {
        failures + 1
    }
}

/// What a re-sync of the mirror did.
#[derive(Debug, Clone, Copy, PartialEq, Eq, Structural)]
pub struct MirrorSyncReport {
    /// Servers looked at.
    pub servers: usize,
    /// Archives copied into the mirror.
    pub copied: usize,
    /// Archives removed from it.
    pub removed: usize,
    /// Archives that could not be copied.
    pub failed: usize,
}

/// What became of the copy of one archive.
#[derive(Debug, Clone, Copy, PartialEq, Eq, Structural)]
pub enum CopyOutcome {
    Copied,
    /// It was in the mirror before.
    Present,
    Failed,
}

/// What a re-sync did for one server: its archives' copies, and how many were
/// trimmed, where that worked.
#[derive(Debug, Clone)]
pub struct ServerSync {
    pub copies: Vec<CopyOutcome>,
    pub trimmed: Option<usize>,
}

/// How many copies had an outcome.
pub open spec fn count_of(copies: Seq<CopyOutcome>, outcome: CopyOutcome) -> nat
    decreases copies.len(),
{
    if copies.len() == 0 {
        0
    } else {
        count_of(copies.drop_last(), outcome) + if copies.last() == outcome {
            1nat
        } else {
            0nat
        }
    }
}

/// Sum, over servers, of the copies with an outcome.
pub open spec fn total_of(ss: Seq<ServerSync>, outcome: CopyOutcome) -> nat
    decreases ss.len(),
{
    if ss.len() == 0 {
        0
    } else {
        total_of(ss.drop_last(), outcome) + count_of(ss.last().copies@, outcome)
    }
}

/// Sum, over servers, of the archives trimmed.
pub open spec fn trimmed_of(ss: Seq<ServerSync>) -> nat
    decreases ss.len(),
{
    if ss.len() == 0 {
        0
    } else {
        trimmed_of(ss.drop_last()) + match ss.last().trimmed {
            Some(n) => n as nat,
            None => 0nat,
        }
    }
}

/// Whether anything failed at a server.
pub open spec fn had_failure(s: ServerSync) -> bool {
    s.trimmed is None || count_of(s.copies@, CopyOutcome::Failed) > 0
}

/// Sums up a re-sync of the mirror: the report, and whether anything failed.
pub fn mirror_sync(cfg: &Config, done: &Vec<ServerSync>) -> (r: (MirrorSyncReport, bool))
    requires
        total_of(done@, CopyOutcome::Copied) <= usize::MAX,
        total_of(done@, CopyOutcome::Failed) <= usize::MAX,
        trimmed_of(done@) <= usize::MAX,
    ensures
        if cfg.mirror.enabled {
            &&& r.0.servers == done@.len()
            &&& r.0.copied == total_of(done@, CopyOutcome::Copied)
            &&& r.0.removed == trimmed_of(done@)
            &&& r.0.failed == total_of(done@, CopyOutcome::Failed)
            &&& r.1 == exists|i: int| 0 <= i < done@.len() && had_failure(#[trigger] done@[i])
        } else {
            r.0 == (MirrorSyncReport { servers: 0, copied: 0, removed: 0, failed: 0 }) && !r.1
        },
{
    let mut report = MirrorSyncReport { servers: 0, copied: 0, removed: 0, failed: 0 };
    let mut any = false;
    if !cfg.mirror.enabled {
        return (report, false);
    }
    let mut i: usize = 0;
    assert(done@.take(0) =~= Seq::<ServerSync>::empty());
    while i < done.len()
        invariant
            i <= done@.len(),
            report.servers == i,
            total_of(done@, CopyOutcome::Copied) <= usize::MAX,
            total_of(done@, CopyOutcome::Failed) <= usize::MAX,
            trimmed_of(done@) <= usize::MAX,
            report.copied == total_of(done@.take(i as int), CopyOutcome::Copied),
            report.failed == total_of(done@.take(i as int), CopyOutcome::Failed),
            report.removed == trimmed_of(done@.take(i as int)),
            any == exists|k: int| 0 <= k < i && had_failure(#[trigger] done@[k]),
        decreases done.len() - i,
    {
        proof {
            assert(done@.take(i + 1).drop_last() =~= done@.take(i as int));
            lemma_sums_grow(done@, i + 1);
        }
        let (copied, failed) = count_copies(&done[i].copies);
        report.copied = report.copied + copied;
        report.failed = report.failed + failed;
        let ghost was = any;
        if failed > 0 {
            any = true;
        }
        match done[i].trimmed {
            Some(n) => {
                report.removed = report.removed + n;
            },
            None => {
                any = true;
            },
        }
        report.servers = report.servers + 1;
        assert(any == (was || had_failure(done@[i as int])));
        i += 1;
    }
    assert(done@.take(i as int) =~= done@);
    (report, any)
}

/// How many copies were made, and how many failed.
fn count_copies(copies: &Vec<CopyOutcome>) -> (r: (usize, usize))
    ensures
        r.0 == count_of(copies@, CopyOutcome::Copied),
        r.1 == count_of(copies@, CopyOutcome::Failed),
{
    let mut copied: usize = 0;
    let mut failed: usize = 0;
    let mut i: usize = 0;
    assert(copies@.take(0) =~= Seq::<CopyOutcome>::empty());
    while i < copies.len()
        invariant
            i <= copies@.len(),
            copied <= i,
            failed <= i,
            copied == count_of(copies@.take(i as int), CopyOutcome::Copied),
            failed == count_of(copies@.take(i as int), CopyOutcome::Failed),
        decreases copies.len() - i,
    {
        assert(copies@.take(i + 1).drop_last() =~= copies@.take(i as int));
        match copies[i] {
            CopyOutcome::Copied => {
                copied += 1;
            },
            CopyOutcome::Failed => {
                failed += 1;
            },
            CopyOutcome::Present => {},
        }
        i += 1;
    }
    assert(copies@.take(i as int) =~= copies@);
    (copied, failed)
}

proof fn lemma_sums_grow(ss: Seq<ServerSync>, n: int)
    requires
        0 <= n <= ss.len(),
    ensures
        total_of(ss.take(n), CopyOutcome::Copied) <= total_of(ss, CopyOutcome::Copied),
        total_of(ss.take(n), CopyOutcome::Failed) <= total_of(ss, CopyOutcome::Failed),
        trimmed_of(ss.take(n)) <= trimmed_of(ss),
    decreases ss.len() - n,
{
    if n < ss.len() {
        lemma_sums_grow(ss, n + 1);
        assert(ss.take(n + 1).drop_last() =~= ss.take(n));
    } else {
        assert(ss.take(n) =~= ss);
    }
}

/// A re-sync that finds every archive in the mirror and trims nothing reports
/// nothing copied, removed or failed.
pub proof fn law_second_sync_does_nothing(ss: Seq<ServerSync>)
    requires
        forall|i: int|
            0 <= i < ss.len() ==> (#[trigger] ss[i]).trimmed == Some(0usize) && forall|k: int|
                0 <= k < ss[i].copies@.len() ==> ss[i].copies@[k] == CopyOutcome::Present,
    ensures
        total_of(ss, CopyOutcome::Copied) == 0,
        total_of(ss, CopyOutcome::Failed) == 0,
        trimmed_of(ss) == 0,
    decreases ss.len(),
{
    if ss.len() > 0 {
        let less = ss.drop_last();
        assert forall|i: int| 0 <= i < less.len() implies (#[trigger] less[i]).trimmed == Some(
            0usize,
        ) && forall|k: int|
            0 <= k < less[i].copies@.len() ==> less[i].copies@[k] == CopyOutcome::Present by {
            assert(less[i] == ss[i]);
        }
        law_second_sync_does_nothing(less);
        assert(ss[ss.len() - 1].trimmed == Some(0usize));
        lemma_all_present(ss.last().copies@);
    }
}

proof fn lemma_all_present(copies: Seq<CopyOutcome>)
    requires
        forall|k: int| 0 <= k < copies.len() ==> copies[k] == CopyOutcome::Present,
    ensures
        count_of(copies, CopyOutcome::Copied) == 0,
        count_of(copies, CopyOutcome::Failed) == 0,
    decreases copies.len(),
{
    if copies.len() > 0 {
        lemma_all_present(copies.drop_last());
    }
}

} // verus!
