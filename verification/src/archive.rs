//! Limits of archive extraction, kept while entries are written one by one.
use crate::text;
use vstd::prelude::*;

verus! {

/// Most entries of an archive.
pub const MAX_ARCHIVE_ENTRIES: usize = 10_000;

/// Largest file of an archive, in bytes.
pub const MAX_EXTRACT_FILE_BYTES: u64 = 512 * 1024 * 1024;

/// Most bytes that an archive may unpack to.
pub const MAX_EXTRACT_TOTAL_BYTES: u64 = 2 * 1024 * 1024 * 1024;

/// Why an archive was refused.
#[derive(Debug, Clone, Copy, PartialEq, Eq, Structural)]
pub enum ArchiveError {
    TooManyEntries { max: usize },
    LinkEntry,
    TooLarge,
}

impl ArchiveError {
    /// The message of a refusal.
    pub open spec fn text_of(self) -> Seq<char> {
        match self {
            ArchiveError::TooManyEntries { max } => "archive has too many entries (max "@
                + text::decimal_nat(max as nat) + ")"@,
            ArchiveError::LinkEntry => "archive link entries are forbidden"@,
            ArchiveError::TooLarge => "archive entry exceeds extraction size limits"@,
        }
    }

    /// The message of a refusal.
    pub fn message(self) -> (r: String)
        ensures
            r@ == self.text_of(),
    {
        match self {
            ArchiveError::TooManyEntries { max } => {
                let mut out = text::copy_of("archive has too many entries (max ");
                out.append(text::string_of(text::decimal_u64(max as u64).as_slice()).as_str());
                out.append(")");
                out
            },
            ArchiveError::LinkEntry => text::copy_of("archive link entries are forbidden"),
            ArchiveError::TooLarge => text::copy_of("archive entry exceeds extraction size limits"),
        }
    }
}

/// What an archive entry is.
#[derive(Debug, Clone, Copy, PartialEq, Eq, Structural)]
pub enum EntryKind {
    File,
    Directory,
    /// A symbolic or a hard link.
    Link,
}

/// Type of a hard link in a tar archive: the digit 1.
pub const TAR_HARD_LINK: u8 = 0x31;

/// Type of a symbolic link in a tar archive: the digit 2.
pub const TAR_SYMBOLIC_LINK: u8 = 0x32;

/// Type of a directory in a tar archive: the digit 5.
pub const TAR_DIRECTORY: u8 = 0x35;

/// What an entry of a tar archive is, by the byte of its type.
pub open spec fn kind_of_type(t: u8) -> EntryKind {
    if t == TAR_HARD_LINK || t == TAR_SYMBOLIC_LINK {
        EntryKind::Link
    } else if t == TAR_DIRECTORY {
        EntryKind::Directory
    } else {
        EntryKind::File
    }
}

/// What an entry of a tar archive is, by the byte of its type: hard and symbolic
/// links are links, and what is no directory either is unpacked as a file.
pub fn entry_kind(t: u8) -> (r: EntryKind)
    ensures
        r == kind_of_type(t),
{
    if t == TAR_HARD_LINK || t == TAR_SYMBOLIC_LINK {
        EntryKind::Link
    } else if t == TAR_DIRECTORY {
        EntryKind::Directory
    } else {
        EntryKind::File
    }
}

/// Limits of one extraction.
#[derive(Debug, Clone, Copy, PartialEq, Eq, Structural)]
pub struct Limits {
    pub max_entries: usize,
    pub max_file: u64,
    pub max_total: u64,
}

impl Limits {
    /// The limits for archives of any origin.
    pub fn standard() -> (r: Limits)
        ensures
            r == standard_limits(),
    {
        Limits {
            max_entries: MAX_ARCHIVE_ENTRIES,
            max_file: MAX_EXTRACT_FILE_BYTES,
            max_total: MAX_EXTRACT_TOTAL_BYTES,
        }
    }
}

/// The limits for archives of any origin.
pub open spec fn standard_limits() -> Limits {
    Limits {
        max_entries: MAX_ARCHIVE_ENTRIES,
        max_file: MAX_EXTRACT_FILE_BYTES,
        max_total: MAX_EXTRACT_TOTAL_BYTES,
    }
}

/// An extraction under way: its limits, the entries seen and the bytes written.
#[derive(Debug, Clone, Copy, PartialEq, Eq, Structural)]
pub struct Extraction {
    pub limits: Limits,
    pub count: usize,
    pub total: u64,
}

/// Bytes written with `size` more; a count that is full stays full.
pub open spec fn total_with(x: Extraction, size: u64) -> u64 {
    if x.total + size < u64::MAX {
        (x.total + size) as u64
    } else {
        u64::MAX
    }
}

/// Whether a file of `size` bytes fits behind what was written.
pub open spec fn fits(x: Extraction, size: u64) -> bool {
    size <= x.limits.max_file && total_with(x, size) <= x.limits.max_total
}

/// Bytes to read of one entry: enough to notice that it breaks a limit, no more.
pub open spec fn read_cap(x: Extraction) -> int {
    let per_file: int = if x.limits.max_file < u64::MAX {
        x.limits.max_file + 1
    } else {
        u64::MAX as int
    };
    let left: int = if x.limits.max_total - x.total < u64::MAX {
        x.limits.max_total - x.total + 1
    } else {
        u64::MAX as int
    };
    if per_file < left {
        per_file
    } else {
        left
    }
}

impl Extraction {
    /// Within its limits so far.
    pub open spec fn wf(self) -> bool {
        self.count <= self.limits.max_entries && self.total <= self.limits.max_total
    }

    /// An extraction that has seen nothing.
    pub fn new(limits: Limits) -> (r: Extraction)
        ensures
            r == (Extraction { limits, count: 0, total: 0 }),
            r.wf(),
    {
        Extraction { limits, count: 0, total: 0 }
    }

    /// Admits an archive that says how many entries it has.
    pub fn admit_count(&self, entries: usize) -> (r: Result<(), ArchiveError>)
        ensures
            r is Ok <==> entries <= self.limits.max_entries,
            r is Err ==> r->Err_0 == (ArchiveError::TooManyEntries { max: self.limits.max_entries }),
    {
        if entries > self.limits.max_entries {
            return Err(ArchiveError::TooManyEntries { max: self.limits.max_entries });
        }
        Ok(())
    }

    /// Counts the next entry; refuses one too many, and links.
    pub fn next_entry(&mut self, kind: EntryKind) -> (r: Result<(), ArchiveError>)
        requires
            old(self).wf(),
        ensures
            match r {
                Ok(_) => kind != EntryKind::Link && *final(self) == (Extraction {
                    count: (old(self).count + 1) as usize,
                    ..*old(self)
                }) && final(self).count == old(self).count + 1 && final(self).wf(),
                Err(e) => *final(self) == *old(self) && if old(self).count
                    == old(self).limits.max_entries {
                    e == (ArchiveError::TooManyEntries { max: old(self).limits.max_entries })
                } else {
                    e == ArchiveError::LinkEntry && kind == EntryKind::Link
                },
            },
    {
        if self.count >= self.limits.max_entries {
            return Err(ArchiveError::TooManyEntries { max: self.limits.max_entries });
        }
        match kind {
            EntryKind::Link => {
                return Err(ArchiveError::LinkEntry);
            },
            _ => {},
        }
        self.count = self.count + 1;
        Ok(())
    }

    /// Admits a file by the size that its header declares, before anything is
    /// written: gives the number of bytes to read at most.
    pub fn begin_file(&self, declared: u64) -> (r: Result<u64, ArchiveError>)
        requires
            self.wf(),
        ensures
            match r {
                Ok(cap) => fits(*self, declared) && cap == read_cap(*self),
                Err(e) => e == ArchiveError::TooLarge && !fits(*self, declared),
            },
    {
        if declared > self.limits.max_file || self.total.saturating_add(declared)
            > self.limits.max_total {
            return Err(ArchiveError::TooLarge);
        }
        let per_file: u64 = self.limits.max_file.saturating_add(1);
        let left: u64 = self.limits.max_total.saturating_sub(self.total).saturating_add(1);
        if per_file < left {
            Ok(per_file)
        } else {
            Ok(left)
        }
    }

    /// Takes note of the bytes that were really written for a file.
    pub fn end_file(&mut self, copied: u64) -> (r: Result<(), ArchiveError>)
        requires
            old(self).wf(),
        ensures
            match r {
                Ok(_) => fits(*old(self), copied) && *final(self) == (Extraction {
                    total: total_with(*old(self), copied),
                    ..*old(self)
                }) && final(self).wf(),
                Err(e) => e == ArchiveError::TooLarge && !fits(*old(self), copied) && *final(self)
                    == *old(self),
            },
    {
        let total: u64 = self.total.saturating_add(copied);
        if copied > self.limits.max_file || total > self.limits.max_total {
            return Err(ArchiveError::TooLarge);
        }
        self.total = total;
        Ok(())
    }
}

/// The permission bits of a mode, without set-user-id, set-group-id and sticky.
pub open spec fn plain_mode(mode: u32) -> u32 {
    mode & 0o777
}

/// Masks a mode to its permission bits.
pub fn masked_mode(mode: u32) -> (r: u32)
    ensures
        r == plain_mode(mode),
{
    mode & 0o777
}

/// A masked mode never sets a user id, a group id or the sticky bit.
pub proof fn law_masked_mode_is_plain(mode: u32)
    ensures
        plain_mode(mode) <= 0o777,
        plain_mode(mode) & 0o7000 == 0,
{
    assert(mode & 0o777u32 <= 0o777u32) by (bit_vector);
    assert((mode & 0o777u32) & 0o7000u32 == 0) by (bit_vector);
}

/// Bytes written so far and, however its header lies, those of the entry under
/// way exceed the total limit by one byte at most.
pub proof fn law_extraction_is_bounded(x: Extraction, copied: int)
    requires
        x.wf(),
        0 <= copied <= read_cap(x),
    ensures
        x.total + copied <= x.limits.max_total + 1,
        copied <= x.limits.max_file + 1,
{
}

} // verus!
