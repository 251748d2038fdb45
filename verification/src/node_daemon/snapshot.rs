//! Snapshots of a server's files, how they are put back, and the files that come
//! with a new server.
use crate::archive;
use crate::archive::{ArchiveError, EntryKind, Extraction, Limits};
use crate::digest;
use crate::digest::Checksum;
use crate::encoding;
use crate::node_daemon::config;
use crate::node_daemon::config::DaemonConfig;
use crate::node_daemon::error::DaemonError;
use crate::node_daemon::process;
use crate::node_daemon::process::DaemonRuntime;
use crate::node_protocol::{ProvisionFile, RestoreSnapshotRequest, SnapshotResponse};
use crate::paths;
use crate::services::files;
use crate::services::files::NodeKind;
use crate::text;
use vstd::prelude::*;
use vstd::string::*;

verus! {

/// Entries of a snapshot at most.
pub const MAX_SNAPSHOT_ARCHIVE_ENTRIES: usize = 10_000;

/// Bytes of one file of a snapshot at most.
pub const MAX_SNAPSHOT_FILE_BYTES: u64 = 512 * 1024 * 1024;

/// Bytes of a snapshot at most, packed and unpacked.
pub const MAX_SNAPSHOT_TOTAL_BYTES: u64 = 2 * 1024 * 1024 * 1024;

/// Bytes that pass by: their checksum, their number and how many may be.
pub struct Tally {
    pub checksum: Checksum,
    pub count: u64,
    pub max: u64,
}

impl Tally {
    /// Whether the count is that of the bytes in the checksum, and within a bound
    /// that can be exceeded.
    pub open spec fn wf(self) -> bool {
        self.count == self.checksum@.len() && self.count <= self.max < u64::MAX
    }

    /// A tally of nothing yet.
    pub fn new(max: u64) -> (r: Tally)
        requires
            max < u64::MAX,
        ensures
            r.wf(),
            r.checksum@ == Seq::<u8>::empty(),
            r.count == 0,
            r.max == max,
    {
        Tally { checksum: Checksum::new(), count: 0, max }
    }

    /// Takes bytes of an archive that is being made. What would exceed the bound
    /// is refused, and not counted.
    pub fn produce(&mut self, data: &[u8]) -> (r: Result<(), DaemonError>)
        requires
            old(self).wf(),
        ensures
            final(self).wf(),
            final(self).max == old(self).max,
            match r {
                Ok(_) => old(self).count + data@.len() <= old(self).max && final(self).checksum@
                    == old(self).checksum@ + data@,
                Err(e) => e == DaemonError::ProductionCap && old(self).count + data@.len() > old(
                    self).max && final(self).checksum@ == old(self).checksum@,
            },
    {
        let n: u64 = self.count.saturating_add(data.len() as u64);
        if n > self.max {
            return Err(DaemonError::ProductionCap);
        }
        self.checksum.add(data);
        self.count = n;
        Ok(())
    }

    /// Takes bytes of an archive that is being read. What exceeds the bound is
    /// refused, and is not part of the checksum.
    pub fn consume(&mut self, data: &[u8]) -> (r: Result<(), DaemonError>)
        requires
            old(self).wf(),
        ensures
            final(self).max == old(self).max,
            match r {
                Ok(_) => old(self).count + data@.len() <= old(self).max && final(self).wf() && final(self).checksum@ == old(self).checksum@ + data@,
                Err(e) => e == DaemonError::ArchiveCap && old(self).count + data@.len() > old(self).max && final(self).checksum@ == old(self).checksum@,
            },
    {
        let len: u64 = data.len() as u64;
        self.count = self.count.saturating_add(len);
        if len > 0 {
            if self.count > self.max {
                return Err(DaemonError::ArchiveCap);
            }
            self.checksum.add(data);
        }
        assert(len == 0 ==> old(self).checksum@ + data@ =~= old(self).checksum@);
        Ok(())
    }

    /// The number of bytes, and their checksum in hexadecimal.
    pub fn finish(self) -> (r: (u64, String))
        ensures
            r.0 == self.count,
            r.1@ == digest::sha256_hex_of(self.checksum@),
    {
        (self.count, self.checksum.hex())
    }
}

/// Whether a path in a snapshot leads out of it: it starts at the root, or a part
/// of it leads up.
pub open spec fn leads_out(p: Seq<char>) -> bool {
    paths::has_root(p) || paths::parts(p).contains(paths::up())
}

/// Whether a path in a snapshot leads out of it.
fn path_leads_out(p: &str) -> (r: bool)
    ensures
        r == leads_out(p@),
{
    let cs = text::chars_of(p);
    if cs.len() > 0 && cs[0] == '/' {
        return true;
    }
    let ps = paths::parts_of(cs.as_slice());
    let mut i: usize = 0;
    while i < ps.len()
        invariant
            i <= ps@.len(),
            cs@ == p@,
            text::runs(ps@) == paths::parts(p@),
            forall|j: int| 0 <= j < i ==> #[trigger] paths::parts(p@)[j] != paths::up(),
        decreases ps.len() - i,
    {
        assert(paths::parts(p@)[i as int] == ps@[i as int]@);
        if paths::is_up(ps[i].as_slice()) {
            return true;
        }
        i += 1;
    }
    false
}

/// Why an entry of a snapshot is refused, if so.
pub open spec fn entry_fault(kind: EntryKind, path: Seq<char>) -> Option<DaemonError> {
    if kind == EntryKind::Link {
        Some(DaemonError::LinkEntry)
    } else if leads_out(path) {
        Some(DaemonError::EntryTraversal)
    } else {
        None
    }
}

/// Refuses links in a snapshot, and paths that lead out of it.
pub fn check_entry(kind: EntryKind, path: &str) -> (r: Result<(), DaemonError>)
    ensures
        match entry_fault(kind, path@) {
            Some(e) => r == Err::<(), DaemonError>(e),
            None => r is Ok,
        },
{
    match kind {
        EntryKind::Link => {
            return Err(DaemonError::LinkEntry);
        },
        _ => {},
    }
    if path_leads_out(path) {
        return Err(DaemonError::EntryTraversal);
    }
    Ok(())
}

/// What `tar` lists of a gzip archive: the byte of the type and the path of each
/// entry, up to where it cannot read on, and why it cannot, if so.
pub uninterp spec fn tar_listing(bytes: Seq<u8>) -> (Seq<(u8, Seq<char>)>, Option<Seq<char>>);

/// Entries of an archive by their texts alone.
pub open spec fn entries_of(listed: Seq<(u8, String)>) -> Seq<(u8, Seq<char>)> {
    Seq::new(listed.len(), |i: int| (listed[i].0, listed[i].1@))
}

/// A text that may be absent, by its characters alone.
pub open spec fn text_of(s: Option<String>) -> Option<Seq<char>> {
    match s {
        Some(t) => Some(t@),
        None => None,
    }
}

/// `tar::Archive::entries` over `flate2::read::GzDecoder`: type and path of the
/// entries of an archive that is held in memory, and the error that ends them
/// early, if one does.
#[verifier::external_body]
fn list_tar_gz(bytes: &[u8]) -> (r: (Vec<(u8, String)>, Option<String>))
    ensures
        (entries_of(r.0@), text_of(r.1)) == tar_listing(bytes@),
{
    let mut archive = tar::Archive::new(flate2::read::GzDecoder::new(bytes));
    let mut listed: Vec<(u8, String)> = Vec::new();
    let entries = match archive.entries() {
        Ok(e) => e,
        Err(e) => return (listed, Some(e.to_string())),
    };
    for entry in entries {
        let e = match entry {
            Ok(e) => e,
            Err(e) => return (listed, Some(e.to_string())),
        };
        let path = String::from_utf8_lossy(&e.path_bytes()).into_owned();
        listed.push((e.header().entry_type().as_byte(), path));
    }
    (listed, None)
}

/// Why the first `n` entries of an archive are refused, if so: the first fault.
pub open spec fn listing_fault(entries: Seq<(u8, Seq<char>)>, n: int) -> Option<DaemonError>
    decreases n,
{
    if n <= 0 {
        None
    } else {
        match listing_fault(entries, n - 1) {
            Some(e) => Some(e),
            None => entry_fault(archive::kind_of_type(entries[n - 1].0), entries[n - 1].1),
        }
    }
}

/// Whether an answer is the one to what an archive lists: its first entry that is
/// refused, else why it cannot be read to its end.
pub open spec fn is_listing_answer(
    entries: Seq<(u8, Seq<char>)>,
    problem: Option<Seq<char>>,
    r: Result<(), DaemonError>,
) -> bool {
    match listing_fault(entries, entries.len() as int) {
        Some(e) => r == Err::<(), DaemonError>(e),
        None => match problem {
            Some(t) => r matches Err(DaemonError::Unreadable { flaw }) && flaw@ == t,
            None => r is Ok,
        },
    }
}

proof fn lemma_listing_fault(entries: Seq<(u8, Seq<char>)>, n: int, m: int)
    requires
        n <= m,
        listing_fault(entries, n) is Some,
    ensures
        listing_fault(entries, m) == listing_fault(entries, n),
    decreases m - n,
{
    if n < m {
        lemma_listing_fault(entries, n, m - 1);
    }
}

/// Judges an archive by what it lists.
pub fn judge_listing(listed: &Vec<(u8, String)>, problem: Option<String>) -> (r: Result<
    (),
    DaemonError,
>)
    ensures
        is_listing_answer(entries_of(listed@), text_of(problem), r),
{
    let ghost all = entries_of(listed@);
    let mut i: usize = 0;
    while i < listed.len()
        invariant
            i <= listed@.len(),
            all == entries_of(listed@),
            listing_fault(all, i as int) is None,
        decreases listed.len() - i,
    {
        let checked = check_entry(archive::entry_kind(listed[i].0), listed[i].1.as_str());
        assert(all[i as int] == (listed@[i as int].0, listed@[i as int].1@));
        if checked.is_err() {
            proof {
                lemma_listing_fault(all, i + 1, all.len() as int);
            }
            return checked;
        }
        i += 1;
    }
    match problem {
        Some(flaw) => Err(DaemonError::Unreadable { flaw }),
        None => Ok(()),
    }
}

/// Looks through an archive before anything of it is staged: links are refused,
/// and paths that lead out of it.
pub fn check_archive(bytes: &[u8]) -> (r: Result<(), DaemonError>)
    ensures
        is_listing_answer(tar_listing(bytes@).0, tar_listing(bytes@).1, r),
        r is Ok <==> tar_listing(bytes@).1 is None && forall|i: int|
            0 <= i < tar_listing(bytes@).0.len() ==> entry_fault(
                archive::kind_of_type((#[trigger] tar_listing(bytes@).0[i]).0),
                tar_listing(bytes@).0[i].1,
            ) is None,
{
    let (listed, problem) = list_tar_gz(bytes);
    proof {
        lemma_no_listing_fault(entries_of(listed@), listed@.len() as int);
    }
    judge_listing(&listed, problem)
}

proof fn lemma_no_listing_fault(entries: Seq<(u8, Seq<char>)>, n: int)
    requires
        0 <= n <= entries.len(),
    ensures
        listing_fault(entries, n) is None <==> forall|i: int|
            0 <= i < n ==> entry_fault(
                archive::kind_of_type((#[trigger] entries[i]).0),
                entries[i].1,
            ) is None,
    decreases n,
{
    if n > 0 {
        lemma_no_listing_fault(entries, n - 1);
    }
}

/// What is to be done with an entry of a snapshot.
#[derive(Debug)]
pub enum SnapshotStep {
    /// Make a directory, and those above it.
    Dir { dir: String },
    /// Write a file, following no link, of so many bytes at most.
    File { file: String, cap: u64 },
}

/// A snapshot that is being unpacked.
#[derive(Debug)]
pub struct SnapshotUnpack {
    pub staging: String,
    pub extraction: Extraction,
}

/// The limits of a snapshot.
pub open spec fn snapshot_limits() -> Limits {
    Limits {
        max_entries: MAX_SNAPSHOT_ARCHIVE_ENTRIES,
        max_file: MAX_SNAPSHOT_FILE_BYTES,
        max_total: MAX_SNAPSHOT_TOTAL_BYTES,
    }
}

/// Begins to unpack a snapshot into a staging directory.
pub fn extract_snapshot_tar(staging: String) -> (r: SnapshotUnpack)
    ensures
        r.staging == staging,
        r.extraction == (Extraction { limits: snapshot_limits(), count: 0, total: 0 }),
        r.extraction.wf(),
{
    SnapshotUnpack {
        staging,
        extraction: Extraction::new(
            Limits {
                max_entries: MAX_SNAPSHOT_ARCHIVE_ENTRIES,
                max_file: MAX_SNAPSHOT_FILE_BYTES,
                max_total: MAX_SNAPSHOT_TOTAL_BYTES,
            },
        ),
    }
}

impl SnapshotUnpack {
    /// Takes the next entry of the archive: what is to be done with it.
    pub fn entry(&mut self, kind: EntryKind, path: &str, declared: u64) -> (r: Result<
        SnapshotStep,
        DaemonError,
    >)
        requires
            old(self).extraction.wf(),
        ensures
            final(self).staging == old(self).staging,
            ({
                let x = old(self).extraction;
                let next = Extraction { count: (x.count + 1) as usize, ..x };
                if x.count == x.limits.max_entries {
                    r == Err::<SnapshotStep, DaemonError>(DaemonError::TooManyEntries)
                } else if entry_fault(kind, path@) is Some {
                    r == Err::<SnapshotStep, DaemonError>(entry_fault(kind, path@)->0)
                } else if kind == EntryKind::Directory {
                    &&& r matches Ok(SnapshotStep::Dir { dir })
                    &&& dir@ == paths::joined(old(self).staging@, path@)
                    &&& final(self).extraction == next && next.wf()
                } else if !archive::fits(x, declared) {
                    r == Err::<SnapshotStep, DaemonError>(DaemonError::EntryTooLarge)
                } else {
                    &&& r matches Ok(SnapshotStep::File { file, cap })
                    &&& file@ == paths::joined(old(self).staging@, path@)
                    &&& cap == archive::read_cap(x)
                    &&& final(self).extraction == next && next.wf()
                }
            }),
    {
        match self.extraction.next_entry(kind) {
            Ok(()) => {},
            Err(ArchiveError::TooManyEntries { .. }) => return Err(DaemonError::TooManyEntries),
            Err(_) => return Err(DaemonError::LinkEntry),
        }
        match check_entry(kind, path) {
            Ok(()) => {},
            Err(e) => return Err(e),
        }
        let target = paths::join(self.staging.as_str(), path);
        match kind {
            EntryKind::Directory => Ok(SnapshotStep::Dir { dir: target }),
            _ => match self.extraction.begin_file(declared) {
                Ok(cap) => Ok(SnapshotStep::File { file: target, cap }),
                Err(_) => Err(DaemonError::EntryTooLarge),
            },
        }
    }

    /// Takes note of the bytes that were written for a file. Returns the mode
    /// that it gets, where the archive tells one: its permission bits.
    pub fn written(&mut self, copied: u64, mode: Option<u32>) -> (r: Result<Option<u32>, DaemonError>)
        requires
            old(self).extraction.wf(),
        ensures
            final(self).staging == old(self).staging,
            final(self).extraction.wf(),
            ({
                let x = old(self).extraction;
                if archive::fits(x, copied) {
                    &&& final(self).extraction == (Extraction {
                        total: archive::total_with(x, copied),
                        ..x
                    })
                    &&& r == Ok::<Option<u32>, DaemonError>(
                        match mode {
                            Some(m) => Some(archive::plain_mode(m)),
                            None => None,
                        },
                    )
                } else {
                    &&& r == Err::<Option<u32>, DaemonError>(DaemonError::EntryTooLarge)
                    &&& final(self).extraction == x
                }
            }),
    {
        match self.extraction.end_file(copied) {
            Ok(()) => match mode {
                Some(m) => Ok(Some(archive::masked_mode(m))),
                None => Ok(None),
            },
            Err(_) => Err(DaemonError::EntryTooLarge),
        }
    }
}

/// What of a server's tree goes into a snapshot, and as what.
#[derive(Debug, Clone, Copy, PartialEq, Eq, Structural)]
pub enum Member {
    Skip,
    Dir,
    File,
}

/// What an entry of a server's tree is to its snapshot: the tree itself and what
/// is neither a directory nor a file stay out, links among them.
pub open spec fn member_of(kind: NodeKind, rel: Seq<char>) -> Member {
    if rel.len() == 0 {
        Member::Skip
    } else {
        match kind {
            NodeKind::Directory => Member::Dir,
            NodeKind::File => Member::File,
            _ => Member::Skip,
        }
    }
}

/// What an entry of a server's tree is to its snapshot.
pub fn archive_member(kind: NodeKind, rel: &str) -> (r: Member)
    ensures
        r == member_of(kind, rel@),
{
    if rel.is_empty() {
        return Member::Skip;
    }
    match kind {
        NodeKind::Directory => Member::Dir,
        NodeKind::File => Member::File,
        _ => Member::Skip,
    }
}

/// Where a snapshot is unpacked before it takes the place of the live directory.
pub open spec fn staging_of(cfg: DaemonConfig, uuid: Seq<char>, nonce: Seq<char>) -> Seq<char> {
    paths::joined(cfg.servers(), ".restore-"@ + uuid + "-"@ + nonce)
}

/// What a restore works with.
#[derive(Debug)]
pub struct SnapshotRestore {
    pub root: String,
    pub staging: String,
}

/// Why a server's files may not be packed or put back now, if so.
pub open spec fn files_fault(
    m: Map<Seq<char>, process::ManagedProcess>,
    uuid: Seq<char>,
    running: DaemonError,
) -> Option<DaemonError> {
    if !m.contains_key(uuid) {
        Some(DaemonError::NotProvisioned)
    } else if m[uuid].pid is Some {
        Some(running)
    } else if !config::is_server_uuid(uuid) {
        Some(DaemonError::InvalidUuid)
    } else {
        None
    }
}

/// Why an archive sent for a restore is refused, if so; none where the upload
/// limit holds, and the checksum is right.
pub open spec fn archive_fault(
    max_upload_mb: u64,
    bytes: Seq<u8>,
    checksum: Seq<char>,
) -> Option<DaemonError> {
    if bytes.len() > max_upload_mb * 1_048_576 {
        Some(DaemonError::ArchiveLimit { archive_mib: max_upload_mb })
    } else if digest::sha256_hex_of(bytes) != checksum {
        Some(DaemonError::ChecksumMismatch)
    } else {
        None
    }
}

/// Holds an archive that was decoded against the upload limit and its checksum.
pub fn verify_archive(config: &DaemonConfig, bytes: &Vec<u8>, checksum: &str) -> (r: Result<
    (),
    DaemonError,
>)
    requires
        config.countable(),
    ensures
        match archive_fault(config.max_upload_mb, bytes@, checksum@) {
            Some(e) => r == Err::<(), DaemonError>(e),
            None => r is Ok,
        },
{
    if bytes.len() as u64 > config.max_upload_bytes() {
        return Err(DaemonError::ArchiveLimit { archive_mib: config.max_upload_mb });
    }
    if !text::same(digest::sha256_hex(bytes.as_slice()).as_str(), checksum) {
        return Err(DaemonError::ChecksumMismatch);
    }
    Ok(())
}

impl DaemonRuntime {
    /// Where the files of a server lie that is to be packed.
    pub fn snapshot_source(&self, uuid: &str) -> (r: Result<String, DaemonError>)
        ensures
            match files_fault(self@, uuid@, DaemonError::SnapshotRunning) {
                Some(e) => r == Err::<String, DaemonError>(e),
                None => r is Ok && r->Ok_0@ == paths::joined(self.cfg().servers(), uuid@),
            },
    {
        if !self.is_provisioned(uuid) {
            return Err(DaemonError::NotProvisioned);
        }
        if self.is_running(uuid) {
            return Err(DaemonError::SnapshotRunning);
        }
        match self.config().server_root(uuid) {
            Ok(root) => Ok(root),
            Err(_) => Err(DaemonError::InvalidUuid),
        }
    }

    /// The answer to a request for a snapshot, given the archive and its
    /// checksum.
    pub fn snapshot(&self, archive: &[u8], checksum: String) -> (r: Result<
        SnapshotResponse,
        DaemonError,
    >)
        requires
            self.cfg().countable(),
        ensures
            if archive@.len() > self.cfg().max_upload_mb * 1_048_576 {
                r == Err::<SnapshotResponse, DaemonError>(
                    DaemonError::SnapshotLimit { snapshot_mib: self.cfg().max_upload_mb },
                )
            } else {
                &&& r is Ok
                &&& r->Ok_0.archive_b64@ == encoding::base64_text(archive@)
                &&& encoding::base64_bytes(r->Ok_0.archive_b64@) == Some(archive@)
                &&& r->Ok_0.size_bytes == archive@.len()
                &&& r->Ok_0.checksum == checksum
            },
    {
        let size: u64 = archive.len() as u64;
        if size > self.config().max_upload_bytes() {
            return Err(DaemonError::SnapshotLimit { snapshot_mib: self.config().max_upload_mb });
        }
        Ok(
            SnapshotResponse {
                archive_b64: encoding::base64_encode(archive),
                size_bytes: size,
                checksum,
            },
        )
    }

    /// Begins a restore from a stream: what it works with.
    pub fn restore_snapshot_stream(&self, uuid: &str, nonce: &str) -> (r: Result<
        SnapshotRestore,
        DaemonError,
    >)
        ensures
            match files_fault(self@, uuid@, DaemonError::RestoreRunning) {
                Some(e) => r == Err::<SnapshotRestore, DaemonError>(e),
                None => r is Ok && r->Ok_0.root@ == paths::joined(self.cfg().servers(), uuid@)
                    && r->Ok_0.staging@ == staging_of(self.cfg(), uuid@, nonce@),
            },
    {
        if !self.is_provisioned(uuid) {
            return Err(DaemonError::NotProvisioned);
        }
        if self.is_running(uuid) {
            return Err(DaemonError::RestoreRunning);
        }
        let root = match self.config().server_root(uuid) {
            Ok(root) => root,
            Err(_) => return Err(DaemonError::InvalidUuid),
        };
        let mut name = text::copy_of(".restore-");
        name.append(uuid);
        name.append("-");
        name.append(nonce);
        Ok(
            SnapshotRestore {
                root,
                staging: paths::join(self.config().servers_dir().as_str(), name.as_str()),
            },
        )
    }

    /// Begins a restore from an archive that was sent whole: what it works with,
    /// and the archive. The archive is held against the upload limit and its
    /// checksum, and every entry of it is looked at, before anything is touched.
    pub fn restore_snapshot(&self, uuid: &str, req: &RestoreSnapshotRequest, nonce: &str) -> (r:
        Result<(SnapshotRestore, Vec<u8>), DaemonError>)
        requires
            self.cfg().countable(),
        ensures
            match files_fault(self@, uuid@, DaemonError::RestoreRunning) {
                Some(e) => r == Err::<(SnapshotRestore, Vec<u8>), DaemonError>(e),
                None => match encoding::base64_decoded(req.archive_b64@) {
                    Err(t) => r matches Err(DaemonError::Base64 { problem }) && problem@ == t,
                    Ok(bytes) => match archive_fault(
                        self.cfg().max_upload_mb,
                        bytes,
                        req.checksum@,
                    ) {
                        Some(e) => r == Err::<(SnapshotRestore, Vec<u8>), DaemonError>(e),
                        None => match r {
                            Ok((plan, archive)) => {
                                &&& is_listing_answer(
                                    tar_listing(bytes).0,
                                    tar_listing(bytes).1,
                                    Ok(()),
                                )
                                &&& plan.root@ == paths::joined(self.cfg().servers(), uuid@)
                                &&& plan.staging@ == staging_of(self.cfg(), uuid@, nonce@)
                                &&& archive@ == bytes
                            },
                            Err(e) => is_listing_answer(
                                tar_listing(bytes).0,
                                tar_listing(bytes).1,
                                Err(e),
                            ),
                        },
                    },
                },
            },
    {
        let plan = match self.restore_snapshot_stream(uuid, nonce) {
            Ok(p) => p,
            Err(e) => return Err(e),
        };
        let bytes = match encoding::base64_decode(req.archive_b64.as_str()) {
            Ok(bytes) => bytes,
            Err(problem) => return Err(DaemonError::Base64 { problem }),
        };
        match verify_archive(self.config(), &bytes, req.checksum.as_str()) {
            Ok(()) => {},
            Err(e) => return Err(e),
        }
        match check_archive(bytes.as_slice()) {
            Ok(()) => Ok((plan, bytes)),
            Err(e) => Err(e),
        }
    }
}

/// Where a restore stands: what is to be done next, or how it ended.
#[derive(Debug, Clone, Copy, PartialEq, Eq, Structural)]
pub enum SnapshotPhase {
    /// Make the staging directory.
    Stage,
    /// Unpack the archive into it.
    Unpack,
    /// Hold what was streamed against its signature.
    Verify,
    /// Prepare the staged directory for the server.
    Prepare,
    /// Give the staged tree to the server's user.
    Own,
    /// Exchange the staged directory with the live one.
    Exchange,
    /// Move the staged directory into the empty place.
    MoveIn,
    /// Remove the old content.
    Sweep,
    /// Remove the staging directory, then fail.
    Discard,
    Restored,
    Failed,
}

/// The phase that follows one that went well or not. What is streamed can be
/// held against its signature only once it is unpacked; what was sent whole has
/// been checked before.
pub open spec fn snapshot_behind(
    p: SnapshotPhase,
    ok: bool,
    live_exists: bool,
    streamed: bool,
) -> SnapshotPhase {
    match p {
        SnapshotPhase::Stage => if ok {
            SnapshotPhase::Unpack
        } else {
            SnapshotPhase::Failed
        },
        SnapshotPhase::Unpack => if !ok {
            SnapshotPhase::Discard
        } else if streamed {
            SnapshotPhase::Verify
        } else {
            SnapshotPhase::Prepare
        },
        SnapshotPhase::Verify => if ok {
            SnapshotPhase::Prepare
        } else {
            SnapshotPhase::Discard
        },
        SnapshotPhase::Prepare => if ok {
            SnapshotPhase::Own
        } else if streamed {
            SnapshotPhase::Discard
        } else {
            SnapshotPhase::Failed
        },
        SnapshotPhase::Own => if ok {
            if live_exists {
                SnapshotPhase::Exchange
            } else {
                SnapshotPhase::MoveIn
            }
        } else if streamed {
            SnapshotPhase::Discard
        } else {
            SnapshotPhase::Failed
        },
        SnapshotPhase::Exchange => if ok {
            SnapshotPhase::Sweep
        } else {
            SnapshotPhase::Failed
        },
        SnapshotPhase::MoveIn => if ok {
            SnapshotPhase::Restored
        } else {
            SnapshotPhase::Failed
        },
        SnapshotPhase::Sweep => SnapshotPhase::Restored,
        SnapshotPhase::Discard => SnapshotPhase::Failed,
        SnapshotPhase::Restored => SnapshotPhase::Restored,
        SnapshotPhase::Failed => SnapshotPhase::Failed,
    }
}

/// Goes on with a restore.
pub fn restore_snapshot_step(p: SnapshotPhase, ok: bool, live_exists: bool, streamed: bool) -> (r:
    SnapshotPhase)
    ensures
        r == snapshot_behind(p, ok, live_exists, streamed),
{
    match p {
        SnapshotPhase::Stage => if ok {
            SnapshotPhase::Unpack
        } else {
            SnapshotPhase::Failed
        },
        SnapshotPhase::Unpack => if !ok {
            SnapshotPhase::Discard
        } else if streamed {
            SnapshotPhase::Verify
        } else {
            SnapshotPhase::Prepare
        },
        SnapshotPhase::Verify => if ok {
            SnapshotPhase::Prepare
        } else {
            SnapshotPhase::Discard
        },
        SnapshotPhase::Prepare | SnapshotPhase::Own => if !ok {
            if streamed {
                SnapshotPhase::Discard
            } else {
                SnapshotPhase::Failed
            }
        } else {
            match p {
                SnapshotPhase::Prepare => SnapshotPhase::Own,
                _ => if live_exists {
                    SnapshotPhase::Exchange
                } else {
                    SnapshotPhase::MoveIn
                },
            }
        },
        SnapshotPhase::Exchange => if ok {
            SnapshotPhase::Sweep
        } else {
            SnapshotPhase::Failed
        },
        SnapshotPhase::MoveIn => if ok {
            SnapshotPhase::Restored
        } else {
            SnapshotPhase::Failed
        },
        SnapshotPhase::Sweep | SnapshotPhase::Restored => SnapshotPhase::Restored,
        SnapshotPhase::Discard | SnapshotPhase::Failed => SnapshotPhase::Failed,
    }
}

/// The digest of the archive after a phase: it is taken once all is unpacked.
pub open spec fn digest_behind(
    p: SnapshotPhase,
    ok: bool,
    read: Seq<u8>,
    digest: Seq<char>,
) -> Seq<char> {
    if p == SnapshotPhase::Unpack && ok {
        digest::sha256_hex_of(read)
    } else {
        digest
    }
}

/// A restore under way: the phase it is in, the bytes of the archive that were
/// read, and, once they are unpacked, their digest, which the caller's check is
/// asked about.
pub struct Restoring {
    pub phase: SnapshotPhase,
    pub streamed: bool,
    pub tally: Tally,
    pub digest: String,
}

impl Restoring {
    /// A restore that begins. What is streamed is bounded as it is read; what was
    /// sent whole has been held against its limit.
    pub fn begin(streamed: bool) -> (r: Restoring)
        ensures
            r.phase == SnapshotPhase::Stage,
            r.streamed == streamed,
            r.tally.wf(),
            r.tally.checksum@ == Seq::<u8>::empty(),
            streamed ==> r.tally.max == MAX_SNAPSHOT_TOTAL_BYTES,
            !streamed ==> r.tally.max == u64::MAX - 1,
            r.digest@ == Seq::<char>::empty(),
    {
        let max: u64 = if streamed {
            MAX_SNAPSHOT_TOTAL_BYTES
        } else {
            u64::MAX - 1
        };
        Restoring {
            phase: SnapshotPhase::Stage,
            streamed,
            tally: Tally::new(max),
            digest: String::new(),
        }
    }

    /// Goes on, what the phase asks for being done or not.
    pub fn step(self, ok: bool, live_exists: bool) -> (r: Restoring)
        ensures
            r.phase == snapshot_behind(self.phase, ok, live_exists, self.streamed),
            r.streamed == self.streamed,
            r.digest@ == digest_behind(self.phase, ok, self.tally.checksum@, self.digest@),
            !(self.phase == SnapshotPhase::Unpack && ok) ==> r.tally == self.tally,
    {
        let phase = restore_snapshot_step(self.phase, ok, live_exists, self.streamed);
        if self.phase == SnapshotPhase::Unpack && ok {
            let (_, digest) = self.tally.finish();
            Restoring { phase, streamed: self.streamed, tally: Tally::new(0), digest }
        } else {
            Restoring { phase, ..self }
        }
    }
}

/// What stands in a directory while a snapshot is put back.
pub ghost enum Stand {
    Nothing,
    /// What was live before.
    Before,
    /// A part of the archive.
    Part,
    /// All that the archive holds.
    Whole,
}

/// A restore as a whole: the phase it is in, what stands in the live directory and
/// in the staging directory, the bytes that were read and the digest that was
/// taken of them, what the caller's check was asked about, and what it said.
pub ghost struct Scene {
    pub phase: SnapshotPhase,
    pub live: Stand,
    pub staging: Stand,
    pub read: Seq<u8>,
    pub digest: Seq<char>,
    pub asked: Seq<Seq<char>>,
    pub approved: bool,
}

/// What happens in a restore.
pub ghost enum RestoreEvent {
    /// Bytes of the archive are read.
    Read { bytes: Seq<u8> },
    /// What the phase asks for was done or not.
    Done { ok: bool },
}

/// A restore that begins, over a live directory or none.
pub open spec fn first_scene(live: Stand) -> Scene {
    Scene {
        phase: SnapshotPhase::Stage,
        live,
        staging: Stand::Nothing,
        read: Seq::empty(),
        digest: Seq::empty(),
        asked: Seq::empty(),
        approved: false,
    }
}

/// What an event does to the directories, and what the caller's check is asked and
/// says. Bytes are read while the archive is unpacked. A step that fails leaves
/// both directories as they were, but for an archive that is unpacked in part.
pub open spec fn scene_behind(s: Scene, e: RestoreEvent, streamed: bool) -> Scene {
    match e {
        RestoreEvent::Read { bytes } => if s.phase == SnapshotPhase::Unpack {
            Scene { read: s.read + bytes, ..s }
        } else {
            s
        },
        RestoreEvent::Done { ok } => {
            let next = Scene {
                phase: snapshot_behind(s.phase, ok, !(s.live is Nothing), streamed),
                digest: digest_behind(s.phase, ok, s.read, s.digest),
                ..s
            };
            match s.phase {
                SnapshotPhase::Stage => if ok {
                    Scene { staging: Stand::Part, ..next }
                } else {
                    next
                },
                SnapshotPhase::Unpack => if ok {
                    Scene { staging: Stand::Whole, ..next }
                } else {
                    next
                },
                SnapshotPhase::Verify => Scene {
                    asked: s.asked.push(s.digest),
                    approved: ok,
                    ..next
                },
                SnapshotPhase::Exchange => if ok {
                    Scene { live: s.staging, staging: s.live, ..next }
                } else {
                    next
                },
                SnapshotPhase::MoveIn => if ok {
                    Scene { live: s.staging, staging: Stand::Nothing, ..next }
                } else {
                    next
                },
                SnapshotPhase::Sweep | SnapshotPhase::Discard => if ok {
                    Scene { staging: Stand::Nothing, ..next }
                } else {
                    next
                },
                _ => next,
            }
        },
    }
}

/// A restore after some events, in turn.
pub open spec fn scene_after(live: Stand, es: Seq<RestoreEvent>, streamed: bool) -> Scene
    decreases es.len(),
{
    if es.len() == 0 {
        first_scene(live)
    } else {
        scene_behind(scene_after(live, es.drop_last(), streamed), es.last(), streamed)
    }
}

/// Whether a phase touches the live directory, or comes behind one that did.
pub open spec fn swaps(p: SnapshotPhase) -> bool {
    p == SnapshotPhase::Exchange || p == SnapshotPhase::MoveIn || p == SnapshotPhase::Sweep || p
        == SnapshotPhase::Restored
}

/// Whether the caller's check was asked once, about the digest of all that was
/// read, and agreed; where nothing was streamed, it was not asked.
pub open spec fn cleared(s: Scene, streamed: bool) -> bool {
    s.approved == streamed && s.asked == if streamed {
        seq![digest::sha256_hex_of(s.read)]
    } else {
        Seq::<Seq<char>>::empty()
    }
}

/// What holds of a restore in every phase.
spec fn sound(s: Scene, live: Stand, streamed: bool) -> bool {
    let unasked = s.asked.len() == 0 && !s.approved;
    match s.phase {
        SnapshotPhase::Stage => s == first_scene(live),
        SnapshotPhase::Unpack => s.live == live && s.staging is Part && unasked,
        SnapshotPhase::Verify => streamed && s.live == live && s.staging is Whole && unasked
            && s.digest == digest::sha256_hex_of(s.read),
        SnapshotPhase::Prepare | SnapshotPhase::Own => s.live == live && s.staging is Whole
            && cleared(s, streamed),
        SnapshotPhase::Exchange => s.live == live && !(live is Nothing) && s.staging is Whole
            && cleared(s, streamed),
        SnapshotPhase::MoveIn => s.live == live && live is Nothing && s.staging is Whole
            && cleared(s, streamed),
        SnapshotPhase::Sweep => s.live is Whole && s.staging == live && cleared(s, streamed),
        SnapshotPhase::Restored => s.live is Whole && cleared(s, streamed),
        SnapshotPhase::Discard | SnapshotPhase::Failed => s.live == live && (s.asked.len() == 0 || (
        streamed && s.asked == seq![digest::sha256_hex_of(s.read)])),
    }
}

proof fn lemma_sound(live: Stand, es: Seq<RestoreEvent>, streamed: bool)
    ensures
        sound(scene_after(live, es, streamed), live, streamed),
    decreases es.len(),
{
    if es.len() > 0 {
        lemma_sound(live, es.drop_last(), streamed);
        let s = scene_after(live, es.drop_last(), streamed);
        assert(s.asked.len() == 0 ==> s.asked.push(s.digest) =~= seq![s.digest]);
        assert(s.asked.len() == 0 ==> s.asked =~= Seq::<Seq<char>>::empty());
    }
}

/// However a restore goes, the live directory holds what it held, or all of the
/// archive. It changes only where the archive was unpacked in full and, where it
/// was streamed, the caller's check was asked just once before, about the SHA-256
/// of all bytes that were read, and agreed. It has changed where the restore
/// succeeds, and has not where it fails.
pub proof fn law_live_directory_waits_for_a_good_snapshot(
    live: Stand,
    es: Seq<RestoreEvent>,
    streamed: bool,
)
    requires
        live is Nothing || live is Before,
    ensures
        ({
            let s = scene_after(live, es, streamed);
            &&& s.live == live || s.live is Whole
            &&& s.live is Whole || swaps(s.phase) ==> cleared(s, streamed)
            &&& s.phase == SnapshotPhase::Restored ==> s.live is Whole
            &&& s.phase == SnapshotPhase::Failed ==> s.live == live
            &&& s.asked.len() > 0 ==> streamed && s.asked == seq![digest::sha256_hex_of(s.read)]
        }),
{
    lemma_sound(live, es, streamed);
}

/// A streamed restore in which a step before the swap fails, the caller's check
/// among them, leaves the live directory as it was and no staging directory, where
/// that could be removed.
pub proof fn law_failed_stream_is_discarded(live: Stand, es: Seq<RestoreEvent>)
    requires
        live is Nothing || live is Before,
        ({
            let p = scene_after(live, es, true).phase;
            p != SnapshotPhase::Failed && p != SnapshotPhase::Discard && !swaps(p)
        }),
    ensures
        ({
            let s = scene_after(live, es, true);
            let t = scene_behind(s, RestoreEvent::Done { ok: false }, true);
            let end = scene_behind(t, RestoreEvent::Done { ok: true }, true);
            &&& t.live == live && end.live == live
            &&& s.phase == SnapshotPhase::Stage ==> t.phase == SnapshotPhase::Failed
            &&& s.phase != SnapshotPhase::Stage ==> t.phase == SnapshotPhase::Discard
            &&& end.phase == SnapshotPhase::Failed
            &&& end.staging is Nothing
        }),
{
    lemma_sound(live, es, true);
}

/// A restore in which nothing fails, over an archive that is read in any pieces,
/// ends with all of the archive live and nothing staged.
pub proof fn law_good_snapshot_becomes_live(
    live: Stand,
    before: Seq<RestoreEvent>,
    streamed: bool,
)
    requires
        live is Nothing || live is Before,
        forall|i: int| 0 <= i < before.len() ==> (#[trigger] before[i]) != (RestoreEvent::Done {
            ok: false,
        }),
    ensures
        ({
            let s = scene_after(live, before, streamed);
            &&& s.phase != SnapshotPhase::Failed && s.phase != SnapshotPhase::Discard
            &&& s.phase == SnapshotPhase::Restored ==> s.live is Whole && s.staging is Nothing
        }),
    decreases before.len(),
{
    if before.len() > 0 {
        let less = before.drop_last();
        assert forall|i: int| 0 <= i < less.len() implies (#[trigger] less[i]) != (
        RestoreEvent::Done { ok: false }) by {
            assert(less[i] == before[i]);
        }
        law_good_snapshot_becomes_live(live, less, streamed);
        lemma_sound(live, less, streamed);
        assert(before.last() == before[before.len() - 1]);
    }
}

/// What of a server's tree goes into a snapshot comes back under the same path:
/// its entry is not refused, and is unpacked at that path below the staging
/// directory.
pub proof fn law_snapshot_member_comes_back(
    node: NodeKind,
    rel: Seq<char>,
    kind: EntryKind,
    path: Seq<char>,
    staging: Seq<char>,
)
    requires
        paths::is_plain(rel),
        member_of(node, rel) == Member::Dir && kind == EntryKind::Directory || member_of(node, rel)
            == Member::File && kind == EntryKind::File,
        files::named_for(path, rel),
    ensures
        entry_fault(kind, path) is None,
        paths::parts(paths::joined(staging, path)) == paths::parts(staging) + paths::parts(rel),
{
    paths::lemma_joined_parts(staging, path);
}

/// What is unpacked from a snapshot lies below the staging directory.
pub proof fn law_snapshot_entry_stays_inside(staging: Seq<char>, path: Seq<char>, kind: EntryKind)
    requires
        entry_fault(kind, path) is None,
    ensures
        paths::is_within(paths::joined(staging, path), staging),
        paths::parts(paths::joined(staging, path)) == paths::parts(staging) + paths::parts(path),
        forall|i: int| 0 <= i < paths::parts(path).len() ==> #[trigger] paths::parts(path)[i]
            != paths::up(),
{
    paths::lemma_joined_within(staging, path);
    paths::lemma_joined_parts(staging, path);
}

/// A file that comes with a new server.
#[derive(Debug)]
pub struct Upload {
    pub path: String,
    /// The mode that it gets, if any: permission bits alone.
    pub mode: Option<u32>,
    pub bytes: Vec<u8>,
}

/// The smaller of two numbers.
pub open spec fn least(a: int, b: int) -> int {
    if a < b {
        a
    } else {
        b
    }
}

/// Bytes that a new server's files may have, each and together.
pub open spec fn upload_bound(max_upload_mb: u64) -> int {
    least(max_upload_mb * 1_048_576, u64::MAX as int)
}

/// Bytes of some files together, counted up to what can be.
pub open spec fn uploaded(contents: Seq<Option<Seq<u8>>>) -> int
    decreases contents.len(),
{
    if contents.len() == 0 {
        0
    } else {
        least(
            uploaded(contents.drop_last()) + match contents.last() {
                Some(b) => b.len() as int,
                None => 0,
            },
            u64::MAX as int,
        )
    }
}

/// What stands in the way of a new server's files, if anything: the first file
/// that is no base64 text, that is too large, or that is too much.
#[derive(Debug, Clone, Copy, PartialEq, Eq, Structural)]
pub enum UploadFault {
    Encoding { at: usize },
    TooLarge { at: usize },
    TooMuch { at: usize },
}

/// What is wrong with a file among others, given those before it.
pub open spec fn fault_at(contents: Seq<Option<Seq<u8>>>, bound: int, i: int) -> Option<UploadFault> {
    match contents[i] {
        None => Some(UploadFault::Encoding { at: i as usize }),
        Some(b) => if b.len() > bound {
            Some(UploadFault::TooLarge { at: i as usize })
        } else if uploaded(contents.take(i + 1)) > bound {
            Some(UploadFault::TooMuch { at: i as usize })
        } else {
            None
        },
    }
}

/// The first fault among some files.
pub open spec fn first_fault(contents: Seq<Option<Seq<u8>>>, bound: int, n: int) -> Option<UploadFault>
    decreases n,
{
    if n <= 0 {
        None
    } else {
        match first_fault(contents, bound, n - 1) {
            Some(f) => Some(f),
            None => fault_at(contents, bound, n - 1),
        }
    }
}

/// What the files hold, where they are base64 text.
pub open spec fn contents_of(files: Seq<ProvisionFile>) -> Seq<Option<Seq<u8>>> {
    Seq::new(files.len(), |i: int| encoding::base64_bytes(files[i].content_b64@))
}

/// The error that a fault is told as.
pub open spec fn is_upload_error(
    e: DaemonError,
    f: UploadFault,
    files: Seq<ProvisionFile>,
    max_upload_mb: u64,
) -> bool {
    match f {
        UploadFault::Encoding { at } => {
            &&& e matches DaemonError::Base64 { problem }
            &&& encoding::base64_decoded(files[at as int].content_b64@) == Err::<Seq<u8>, Seq<char>>(
                problem@,
            )
        },
        UploadFault::TooLarge { at } => {
            &&& e is FileLimit
            &&& e->file@ == files[at as int].path@
            &&& e->file_mib == max_upload_mb
        },
        UploadFault::TooMuch { .. } => e == (DaemonError::PayloadLimit {
            payload_mib: max_upload_mb,
        }),
    }
}

/// Judges the files of a new server by what they decode to: the first that is no
/// base64 text, too large or too much.
pub fn judge_uploads(config: &DaemonConfig, decoded: &Vec<Option<Vec<u8>>>) -> (r: Option<UploadFault>)
    ensures
        r == first_fault(
            decoded_contents(decoded@),
            upload_bound(config.max_upload_mb),
            decoded@.len() as int,
        ),
{
    let max: u64 = if config.max_upload_mb > u64::MAX / 1_048_576 {
        u64::MAX
    } else {
        config.max_upload_mb * 1_048_576
    };
    let ghost all = decoded_contents(decoded@);
    let mut total: u64 = 0;
    let mut i: usize = 0;
    while i < decoded.len()
        invariant
            i <= decoded@.len(),
            all == decoded_contents(decoded@),
            max == upload_bound(config.max_upload_mb),
            total == uploaded(all.take(i as int)),
            first_fault(all, max as int, i as int) is None,
        decreases decoded.len() - i,
    {
        assert(all.take(i + 1).drop_last() =~= all.take(i as int));
        match &decoded[i] {
            None => {
                proof {
                    lemma_first_fault(all, max as int, i + 1, all.len() as int);
                }
                return Some(UploadFault::Encoding { at: i });
            },
            Some(bytes) => {
                let len: u64 = bytes.len() as u64;
                if len > max {
                    proof {
                        lemma_first_fault(all, max as int, i + 1, all.len() as int);
                    }
                    return Some(UploadFault::TooLarge { at: i });
                }
                total = total.saturating_add(len);
                if total > max {
                    proof {
                        lemma_first_fault(all, max as int, i + 1, all.len() as int);
                    }
                    return Some(UploadFault::TooMuch { at: i });
                }
            },
        }
        i += 1;
    }
    None
}

proof fn lemma_first_fault(contents: Seq<Option<Seq<u8>>>, bound: int, n: int, m: int)
    requires
        n <= m,
        first_fault(contents, bound, n) is Some,
    ensures
        first_fault(contents, bound, m) == first_fault(contents, bound, n),
    decreases m - n,
{
    if n < m {
        lemma_first_fault(contents, bound, n, m - 1);
    }
}

/// What some decoded files hold.
pub open spec fn decoded_contents(decoded: Seq<Option<Vec<u8>>>) -> Seq<Option<Seq<u8>>> {
    Seq::new(
        decoded.len(),
        |i: int|
            match decoded[i] {
                Some(v) => Some(v@),
                None => None,
            },
    )
}

/// A file as it is written, from what was sent.
pub open spec fn is_upload(u: Upload, f: ProvisionFile) -> bool {
    &&& u.path == f.path
    &&& u.mode == (match f.mode {
        Some(m) => Some(archive::plain_mode(m)),
        None => None,
    })
    &&& Some(u.bytes@) == encoding::base64_bytes(f.content_b64@)
}

/// Decodes the files of a new server, all of them before any is written. Each
/// one, and all together, must be within the upload limit.
pub fn decode_uploads(config: &DaemonConfig, files: Vec<ProvisionFile>) -> (r: Result<
    Vec<Upload>,
    DaemonError,
>)
    ensures
        match first_fault(
            contents_of(files@),
            upload_bound(config.max_upload_mb),
            files@.len() as int,
        ) {
            Some(f) => r is Err && is_upload_error(r->Err_0, f, files@, config.max_upload_mb),
            None => {
                &&& r is Ok
                &&& r->Ok_0@.len() == files@.len()
                &&& forall|i: int|
                    0 <= i < files@.len() ==> is_upload(#[trigger] r->Ok_0@[i], files@[i])
            },
        },
{
    let ghost all = files@;
    let mut decoded: Vec<Option<Vec<u8>>> = Vec::new();
    let mut i: usize = 0;
    while i < files.len()
        invariant
            i <= files@.len(),
            files@ == all,
            decoded@.len() == i,
            decoded_contents(decoded@) == contents_of(all).take(i as int),
        decreases files.len() - i,
    {
        let ghost before = decoded@;
        let d = match encoding::base64_decode(files[i].content_b64.as_str()) {
            Ok(v) => Some(v),
            Err(_) => None,
        };
        decoded.push(d);
        i += 1;
        assert(decoded_contents(decoded@) =~= contents_of(all).take(i as int)) by {
            assert forall|k: int| 0 <= k < i implies decoded_contents(decoded@)[k] == contents_of(
                all,
            )[k] by {
                if k < i - 1 {
                    assert(decoded_contents(before)[k] == contents_of(all).take(i - 1)[k]);
                    assert(decoded@[k] == before[k]);
                }
            }
        }
    }
    assert(decoded_contents(decoded@) =~= contents_of(all));
    match judge_uploads(config, &decoded) {
        Some(UploadFault::Encoding { at }) => {
            proof {
                lemma_fault_in_range(contents_of(all), upload_bound(config.max_upload_mb), all.len() as int);
            }
            match encoding::base64_decode(files[at].content_b64.as_str()) {
                Err(problem) => return Err(DaemonError::Base64 { problem }),
                Ok(_) => {
                    assert(contents_of(all)[at as int] is None);
                },
            }
        },
        Some(UploadFault::TooLarge { at }) => {
            proof {
                lemma_fault_in_range(contents_of(all), upload_bound(config.max_upload_mb), all.len() as int);
            }
            return Err(
                DaemonError::FileLimit {
                    file: text::copy_of(files[at].path.as_str()),
                    file_mib: config.max_upload_mb,
                },
            );
        },
        Some(UploadFault::TooMuch { at: _ }) => {
            return Err(DaemonError::PayloadLimit { payload_mib: config.max_upload_mb });
        },
        None => {},
    }
    proof {
        lemma_no_fault(contents_of(all), upload_bound(config.max_upload_mb), all.len() as int);
    }
    pair_uploads(files, decoded)
}

/// What setting a server up writes: its directory, its description and its files.
#[derive(Debug)]
pub struct Provision {
    pub root: String,
    pub meta: String,
    pub uploads: Vec<Upload>,
}

impl DaemonRuntime {
    /// Sets a server up: where it lies, and the files that come with it. A file is
    /// written only where all of them can be.
    pub fn provision(&self, uuid: &str, files: Vec<ProvisionFile>) -> (r: Result<
        Provision,
        DaemonError,
    >)
        ensures
            if !config::is_server_uuid(uuid@) {
                r == Err::<Provision, DaemonError>(DaemonError::InvalidUuid)
            } else {
                match first_fault(
                    contents_of(files@),
                    upload_bound(self.cfg().max_upload_mb),
                    files@.len() as int,
                ) {
                    Some(f) => r is Err && is_upload_error(
                        r->Err_0,
                        f,
                        files@,
                        self.cfg().max_upload_mb,
                    ),
                    None => {
                        &&& r is Ok
                        &&& r->Ok_0.root@ == paths::joined(self.cfg().servers(), uuid@)
                        &&& r->Ok_0.meta@ == paths::joined(
                            paths::joined(self.cfg().data_dir@, "meta"@),
                            uuid@ + ".json"@,
                        )
                        &&& r->Ok_0.uploads@.len() == files@.len()
                        &&& forall|i: int|
                            0 <= i < files@.len() ==> is_upload(
                                #[trigger] r->Ok_0.uploads@[i],
                                files@[i],
                            )
                    },
                }
            },
    {
        let root = match self.config().server_root(uuid) {
            Ok(root) => root,
            Err(_) => return Err(DaemonError::InvalidUuid),
        };
        match decode_uploads(self.config(), files) {
            Ok(uploads) => Ok(Provision { root, meta: self.config().spec_path(uuid), uploads }),
            Err(e) => Err(e),
        }
    }
}

proof fn lemma_fault_in_range(contents: Seq<Option<Seq<u8>>>, bound: int, n: int)
    requires
        0 <= n <= contents.len() <= usize::MAX,
    ensures
        match first_fault(contents, bound, n) {
            Some(UploadFault::Encoding { at }) => at < n && contents[at as int] is None,
            Some(UploadFault::TooLarge { at }) => at < n,
            _ => true,
        },
    decreases n,
{
    if n > 0 {
        lemma_fault_in_range(contents, bound, n - 1);
    }
}

proof fn lemma_no_fault(contents: Seq<Option<Seq<u8>>>, bound: int, n: int)
    requires
        0 <= n <= contents.len(),
        first_fault(contents, bound, n) is None,
    ensures
        forall|i: int| 0 <= i < n ==> #[trigger] contents[i] is Some,
    decreases n,
{
    if n > 0 {
        lemma_no_fault(contents, bound, n - 1);
    }
}

fn pair_uploads(files: Vec<ProvisionFile>, decoded: Vec<Option<Vec<u8>>>) -> (r: Result<
    Vec<Upload>,
    DaemonError,
>)
    requires
        decoded@.len() == files@.len(),
        decoded_contents(decoded@) == contents_of(files@),
        forall|i: int| 0 <= i < files@.len() ==> #[trigger] contents_of(files@)[i] is Some,
    ensures
        r is Ok,
        r->Ok_0@.len() == files@.len(),
        forall|i: int| 0 <= i < files@.len() ==> is_upload(#[trigger] r->Ok_0@[i], files@[i]),
{
    let ghost all = files@;
    let ghost bytes_of = decoded@;
    let mut rest = files;
    let mut left = decoded;
    let mut reversed: Vec<Upload> = Vec::new();
    while rest.len() > 0
        invariant
            rest@.len() == left@.len(),
            rest@.len() + reversed@.len() == all.len(),
            bytes_of.len() == all.len(),
            decoded_contents(bytes_of) == contents_of(all),
            forall|i: int| 0 <= i < all.len() ==> #[trigger] contents_of(all)[i] is Some,
            rest@ == all.take(rest@.len() as int),
            left@ == bytes_of.take(left@.len() as int),
            forall|i: int|
                0 <= i < reversed@.len() ==> is_upload(
                    #[trigger] reversed@[i],
                    all[all.len() - 1 - i],
                ),
        decreases rest.len(),
    {
        let ghost at = rest@.len() - 1;
        proof {
            assert(contents_of(all)[at] is Some);
            assert(decoded_contents(bytes_of)[at] == contents_of(all)[at]);
        }
        let file = rest.pop();
        let data = left.pop();
        assert(rest@ =~= all.take(rest@.len() as int));
        assert(left@ =~= bytes_of.take(left@.len() as int));
        if let Some(f) = file {
            if let Some(Some(bytes)) = data {
                let mode = match f.mode {
                    Some(m) => Some(archive::masked_mode(m)),
                    None => None,
                };
                reversed.push(Upload { path: f.path, mode, bytes });
            }
        }
    }
    let mut out: Vec<Upload> = Vec::new();
    while reversed.len() > 0
        invariant
            reversed@.len() + out@.len() == all.len(),
            forall|i: int|
                0 <= i < reversed@.len() ==> is_upload(
                    #[trigger] reversed@[i],
                    all[all.len() - 1 - i],
                ),
            forall|i: int| 0 <= i < out@.len() ==> is_upload(#[trigger] out@[i], all[i]),
        decreases reversed.len(),
    {
        let ghost k = reversed@.len() - 1;
        assert(is_upload(reversed@[k], all[all.len() - 1 - k]));
        if let Some(u) = reversed.pop() {
            out.push(u);
        }
    }
    Ok(out)
}

} // verus!
