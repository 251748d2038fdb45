//! Why the agent refuses a request.
use crate::text;
use vstd::prelude::*;
use vstd::string::*;

verus! {

/// Why the agent refuses a request.
#[derive(Debug, Clone)]
pub enum DaemonError {
    InvalidUuid,
    NotProvisioned,
    Busy,
    MustStop,
    StopRequested,
    AlreadyRunning,
    NoStdout,
    NoStderr,
    RestartWindow,
    CommandTooLong,
    NoStdin,
    Backlog,
    WriterGone,
    WriteTimedOut,
    Base64 { problem: String },
    Unreadable { flaw: String },
    UploadTooLarge,
    InvalidName,
    InvalidComponent,
    NoName,
    NotRegular,
    ReadLimit,
    Traversal,
    SnapshotRunning,
    RestoreRunning,
    ChecksumMismatch,
    LinkEntry,
    EntryTraversal,
    TooManyEntries,
    EntryTooLarge,
    ProductionCap,
    ArchiveCap,
    WriteFailed { reason: String },
    FileLimit { file: String, file_mib: u64 },
    PayloadLimit { payload_mib: u64 },
    SnapshotLimit { snapshot_mib: u64 },
    ArchiveLimit { archive_mib: u64 },
    Link { link: String },
}

impl DaemonError {
    /// The error in words.
    pub open spec fn words(self) -> Seq<char> {
        match self {
            DaemonError::InvalidUuid => "invalid server uuid"@,
            DaemonError::NotProvisioned => "server not provisioned"@,
            DaemonError::Busy => "another operation is in progress"@,
            DaemonError::MustStop => "server must be stopped before deletion"@,
            DaemonError::StopRequested => "server stop has been requested; use the restart action to start it again"@,
            DaemonError::AlreadyRunning => "server already running"@,
            DaemonError::NoStdout => "missing stdout"@,
            DaemonError::NoStderr => "missing stderr"@,
            DaemonError::RestartWindow => "server did not stop within the restart window"@,
            DaemonError::CommandTooLong => "command exceeds the 65536 byte limit"@,
            DaemonError::NoStdin => "server not running or stdin unavailable"@,
            DaemonError::Backlog => "stdin backlog full; the server process may not be draining input"@,
            DaemonError::WriterGone => "stdin writer went away"@,
            DaemonError::WriteTimedOut => "stdin write timed out"@,
            DaemonError::Base64 { problem } => problem@,
            DaemonError::Unreadable { flaw } => flaw@,
            DaemonError::UploadTooLarge => "upload too large"@,
            DaemonError::InvalidName => "invalid filename"@,
            DaemonError::InvalidComponent => "invalid path component"@,
            DaemonError::NoName => "path has no filename"@,
            DaemonError::NotRegular => "not a regular file"@,
            DaemonError::ReadLimit => "file exceeds read limit"@,
            DaemonError::Traversal => "path traversal rejected"@,
            DaemonError::SnapshotRunning => "server must be stopped before snapshot"@,
            DaemonError::RestoreRunning => "server must be stopped before restore"@,
            DaemonError::ChecksumMismatch => "snapshot checksum mismatch"@,
            DaemonError::LinkEntry => "snapshot contains forbidden link entry"@,
            DaemonError::EntryTraversal => "snapshot path traversal"@,
            DaemonError::TooManyEntries => "snapshot has too many entries (max 10000)"@,
            DaemonError::EntryTooLarge => "snapshot entry exceeds extraction size limits"@,
            DaemonError::ProductionCap => "snapshot archive exceeds the 2048 MiB production cap"@,
            DaemonError::ArchiveCap => "snapshot archive exceeds upload limit"@,
            DaemonError::WriteFailed { reason } => "stdin write failed: "@ + reason@,
            DaemonError::FileLimit { file, file_mib } => "file "@ + file@ + " exceeds the "@
                + text::decimal(file_mib as int) + " MiB per-file upload limit"@,
            DaemonError::PayloadLimit { payload_mib } => "provision payload exceeds the "@
                + text::decimal(payload_mib as int) + " MiB aggregate upload limit"@,
            DaemonError::SnapshotLimit { snapshot_mib } => "snapshot exceeds "@ + text::decimal(
                snapshot_mib as int,
            ) + " MiB limit"@,
            DaemonError::ArchiveLimit { archive_mib } => "snapshot archive exceeds "@
                + text::decimal(archive_mib as int) + " MiB limit"@,
            DaemonError::Link { link } => "symlink traversal rejected at "@ + link@,
        }
    }

    /// The error in words.
    pub fn message(&self) -> (r: String)
        ensures
            r@ == self.words(),
    {
        match self {
            DaemonError::InvalidUuid => text::copy_of("invalid server uuid"),
            DaemonError::NotProvisioned => text::copy_of("server not provisioned"),
            DaemonError::Busy => text::copy_of("another operation is in progress"),
            DaemonError::MustStop => text::copy_of("server must be stopped before deletion"),
            DaemonError::StopRequested => text::copy_of("server stop has been requested; use the restart action to start it again"),
            DaemonError::AlreadyRunning => text::copy_of("server already running"),
            DaemonError::NoStdout => text::copy_of("missing stdout"),
            DaemonError::NoStderr => text::copy_of("missing stderr"),
            DaemonError::RestartWindow => text::copy_of("server did not stop within the restart window"),
            DaemonError::CommandTooLong => text::copy_of("command exceeds the 65536 byte limit"),
            DaemonError::NoStdin => text::copy_of("server not running or stdin unavailable"),
            DaemonError::Backlog => text::copy_of("stdin backlog full; the server process may not be draining input"),
            DaemonError::WriterGone => text::copy_of("stdin writer went away"),
            DaemonError::WriteTimedOut => text::copy_of("stdin write timed out"),
            DaemonError::Base64 { problem } => text::copy_of(problem.as_str()),
            DaemonError::Unreadable { flaw } => text::copy_of(flaw.as_str()),
            DaemonError::UploadTooLarge => text::copy_of("upload too large"),
            DaemonError::InvalidName => text::copy_of("invalid filename"),
            DaemonError::InvalidComponent => text::copy_of("invalid path component"),
            DaemonError::NoName => text::copy_of("path has no filename"),
            DaemonError::NotRegular => text::copy_of("not a regular file"),
            DaemonError::ReadLimit => text::copy_of("file exceeds read limit"),
            DaemonError::Traversal => text::copy_of("path traversal rejected"),
            DaemonError::SnapshotRunning => text::copy_of("server must be stopped before snapshot"),
            DaemonError::RestoreRunning => text::copy_of("server must be stopped before restore"),
            DaemonError::ChecksumMismatch => text::copy_of("snapshot checksum mismatch"),
            DaemonError::LinkEntry => text::copy_of("snapshot contains forbidden link entry"),
            DaemonError::EntryTraversal => text::copy_of("snapshot path traversal"),
            DaemonError::TooManyEntries => text::copy_of("snapshot has too many entries (max 10000)"),
            DaemonError::EntryTooLarge => text::copy_of("snapshot entry exceeds extraction size limits"),
            DaemonError::ProductionCap => text::copy_of("snapshot archive exceeds the 2048 MiB production cap"),
            DaemonError::ArchiveCap => text::copy_of("snapshot archive exceeds upload limit"),
            DaemonError::WriteFailed { reason } => {
                let mut out = text::copy_of("stdin write failed: ");
                out.append(reason.as_str());
                out
            },
            DaemonError::FileLimit { file, file_mib } => {
                let mut out = text::copy_of("file ");
                out.append(file.as_str());
                out.append(" exceeds the ");
                out.append(number(*file_mib).as_str());
                out.append(" MiB per-file upload limit");
                out
            },
            DaemonError::PayloadLimit { payload_mib } => {
                let mut out = text::copy_of("provision payload exceeds the ");
                out.append(number(*payload_mib).as_str());
                out.append(" MiB aggregate upload limit");
                out
            },
            DaemonError::SnapshotLimit { snapshot_mib } => {
                let mut out = text::copy_of("snapshot exceeds ");
                out.append(number(*snapshot_mib).as_str());
                out.append(" MiB limit");
                out
            },
            DaemonError::ArchiveLimit { archive_mib } => {
                let mut out = text::copy_of("snapshot archive exceeds ");
                out.append(number(*archive_mib).as_str());
                out.append(" MiB limit");
                out
            },
            DaemonError::Link { link } => {
                let mut out = text::copy_of("symlink traversal rejected at ");
                out.append(link.as_str());
                out
            },
        }
    }
}

fn number(n: u64) -> (r: String)
    ensures
        r@ == text::decimal(n as int),
{
    text::string_of(text::decimal_u64(n).as_slice())
}

} // verus!
