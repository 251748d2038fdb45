//! File manager: rules for paths, listings and archives of a server's files.
pub use crate::services::pull::{
    cancel_pull, check_resolved_addrs, finish_pull, ip_is_blocked, local_pull, parse_pull_url,
    prepare_pull, pull_status, remote_pull, url_basename, PullHandle, PullState, PullStatus,
    PullTarget,
};

use crate::archive;
use crate::archive::{ArchiveError, EntryKind, Extraction, Limits};
use crate::encoding;
use crate::models::{Config, Server};
use crate::order;
use crate::order::Ranked;
use crate::paths;
use crate::text;
use vstd::prelude::*;
use vstd::slice::*;
use vstd::string::*;

verus! {

/// Why a file request was refused.
#[derive(Debug, Clone, Copy, PartialEq, Eq, Structural)]
pub enum FileError {
    Traversal,
    Escapes,
    ArchiveSymlink,
    ArchiveEscapes,
    ArchiveAbsolute,
    ArchiveNoName,
    SourceNoName,
    DestinationNoName,
    NoName,
    RootDeletion,
    IsDirectory,
    TooLargeInline,
    CopyIntoItself,
    DirectoryDownload,
    Archive(ArchiveError),
}

impl FileError {
    /// The message of a refusal.
    pub open spec fn text_of(self) -> Seq<char> {
        match self {
            FileError::Traversal => "path traversal not allowed"@,
            FileError::Escapes => "path escapes server directory"@,
            FileError::ArchiveSymlink => "archive path contains symlink"@,
            FileError::ArchiveEscapes => "archive entry escapes destination"@,
            FileError::ArchiveAbsolute => "archive entry uses an absolute path"@,
            FileError::ArchiveNoName => "archive entry has no file name"@,
            FileError::SourceNoName => "source has no file name"@,
            FileError::DestinationNoName => "destination has no file name"@,
            FileError::NoName => "path has no file name"@,
            FileError::RootDeletion => "refusing to delete the server root"@,
            FileError::IsDirectory => "is a directory"@,
            FileError::TooLargeInline => "file too large to view inline"@,
            FileError::CopyIntoItself => "cannot copy a directory into itself"@,
            FileError::DirectoryDownload => "cannot download a directory as a file"@,
            FileError::Archive(e) => e.text_of(),
        }
    }

    /// The message of a refusal.
    pub fn message(self) -> (r: String)
        ensures
            r@ == self.text_of(),
    {
        match self {
            FileError::Traversal => text::copy_of("path traversal not allowed"),
            FileError::Escapes => text::copy_of("path escapes server directory"),
            FileError::ArchiveSymlink => text::copy_of("archive path contains symlink"),
            FileError::ArchiveEscapes => text::copy_of("archive entry escapes destination"),
            FileError::ArchiveAbsolute => text::copy_of("archive entry uses an absolute path"),
            FileError::ArchiveNoName => text::copy_of("archive entry has no file name"),
            FileError::SourceNoName => text::copy_of("source has no file name"),
            FileError::DestinationNoName => text::copy_of("destination has no file name"),
            FileError::NoName => text::copy_of("path has no file name"),
            FileError::RootDeletion => text::copy_of("refusing to delete the server root"),
            FileError::IsDirectory => text::copy_of("is a directory"),
            FileError::TooLargeInline => text::copy_of("file too large to view inline"),
            FileError::CopyIntoItself => text::copy_of("cannot copy a directory into itself"),
            FileError::DirectoryDownload => text::copy_of("cannot download a directory as a file"),
            FileError::Archive(e) => e.message(),
        }
    }
}

/// One entry of a directory listing.
#[derive(Debug, Clone)]
pub struct FileEntry {
    pub name: String,
    pub path: String,
    pub size: u64,
    pub modified: String,
    pub is_dir: bool,
    pub is_symlink: bool,
    pub mode: u32,
    pub mime: String,
    pub extension: String,
}

/// Directory of a server's files.
pub fn server_root(cfg: &Config, server: &Server) -> (r: String)
    ensures
        r@ == root_of(*cfg, *server),
{
    paths::join(cfg.paths.servers_dir.as_str(), server.uuid.as_str())
}

/// Directory of a server's files.
pub open spec fn root_of(cfg: Config, server: Server) -> Seq<char> {
    paths::joined(cfg.paths.servers_dir@, server.uuid@)
}

/// Whether a path leads up somewhere.
pub open spec fn leads_up(s: Seq<char>) -> bool {
    paths::parts(s).contains(paths::up())
}

/// Whether a path leads up somewhere.
fn goes_up(s: &[char]) -> (r: bool)
    ensures
        r == leads_up(s@),
{
    let ps = paths::parts_of(s);
    let ghost all = paths::parts(s@);
    let mut i: usize = 0;
    while i < ps.len()
        invariant
            i <= ps@.len(),
            text::runs(ps@) == all,
            all == paths::parts(s@),
            forall|j: int| 0 <= j < i ==> all[j] != paths::up(),
        decreases ps.len() - i,
    {
        assert(all[i as int] == ps@[i as int]@);
        if paths::is_up(ps[i].as_slice()) {
            assert(all.contains(paths::up()));
            return true;
        }
        i += 1;
    }
    false
}

/// The path that a request stands for, before links are looked at: below the
/// server's directory, whatever slashes the request starts with.
pub open spec fn requested(cfg: Config, server: Server, rel: Seq<char>) -> Seq<char> {
    paths::joined(root_of(cfg, server), paths::unrooted(rel))
}

/// The path that a request stands for; refused where it leads up.
pub fn requested_path(cfg: &Config, server: &Server, rel: &str) -> (r: Result<String, FileError>)
    ensures
        match r {
            Ok(p) => p@ == requested(*cfg, *server, rel@) && !leads_up(p@),
            Err(e) => e == FileError::Traversal && leads_up(requested(*cfg, *server, rel@)),
        },
{
    let cs = text::chars_of(rel);
    let tail = text::string_of(paths::strip_root(cs.as_slice()));
    let p = paths::join(server_root(cfg, server).as_str(), tail.as_str());
    let pc = text::chars_of(p.as_str());
    if goes_up(pc.as_slice()) {
        return Err(FileError::Traversal);
    }
    Ok(p)
}

/// What looking through links made of a path: the real paths of the path itself,
/// of its parent, of the parent's parent and so on, of each that exists.
#[derive(Debug, Clone)]
pub struct Canonical {
    pub known: Vec<Option<String>>,
}

/// How many parts lie between the end of a path and what exists of it, given the
/// real paths from its `from`th ancestor on.
pub open spec fn missing_parts(known: Seq<Option<String>>, from: int) -> int
    decreases known.len() - from,
{
    if from >= known.len() || known[from] is Some {
        from
    } else {
        missing_parts(known, from + 1)
    }
}

/// The real path as far as the path exists: that of the deepest ancestor that
/// does, with the parts behind it; the path itself where nothing of it exists.
pub open spec fn real_path(p: Seq<char>, c: Canonical) -> Seq<char> {
    let ps = paths::parts(p);
    let k = missing_parts(c.known@, 0);
    if k >= c.known@.len() || k > ps.len() {
        p
    } else if k == 0 {
        c.known@[0]->0@
    } else {
        paths::joined(c.known@[k]->0@, paths::path_text(false, ps.skip(ps.len() - k)))
    }
}

/// The real path as far as the path exists.
pub fn canonical_maybe(p: &str, c: &Canonical) -> (r: String)
    ensures
        r@ == real_path(p@, *c),
{
    let mut k: usize = 0;
    while k < c.known.len() && c.known[k].is_none()
        invariant
            k <= c.known@.len(),
            missing_parts(c.known@, 0) == missing_parts(c.known@, k as int),
        decreases c.known.len() - k,
    {
        k += 1;
    }
    let cs = text::chars_of(p);
    let ps = paths::parts_of(cs.as_slice());
    if k >= c.known.len() || k > ps.len() {
        return text::copy_of(p);
    }
    match &c.known[k] {
        None => text::copy_of(p),
        Some(base) => if k == 0 {
            text::copy_of(base.as_str())
        } else {
            let behind = runs_behind(&ps, ps.len() - k);
            paths::join(base.as_str(), paths::path_of(false, &behind).as_str())
        },
    }
}

/// Resolves a request inside the server's directory, given what looking through
/// links makes of the path and of the directory: refused where the request leads
/// up, and where the real path lies outside.
pub fn resolve(
    cfg: &Config,
    server: &Server,
    rel: &str,
    path: &Canonical,
    root: &Option<String>,
) -> (r: Result<String, FileError>)
    ensures
        ({
            let p = requested(*cfg, *server, rel@);
            let real_root = if root is Some {
                root->0@
            } else {
                root_of(*cfg, *server)
            };
            match r {
                Ok(s) => s@ == p && !leads_up(p) && paths::is_within(
                    real_path(p, *path),
                    real_root,
                ),
                Err(e) => if leads_up(p) {
                    e == FileError::Traversal
                } else {
                    e == FileError::Escapes && !paths::is_within(real_path(p, *path), real_root)
                },
            }
        }),
{
    match requested_path(cfg, server, rel) {
        Err(e) => Err(e),
        Ok(p) => {
            let abs = canonical_maybe(p.as_str(), path);
            let root_abs = match root {
                Some(s) => text::copy_of(s.as_str()),
                None => server_root(cfg, server),
            };
            if paths::within(abs.as_str(), root_abs.as_str()) {
                Ok(p)
            } else {
                Err(FileError::Escapes)
            }
        },
    }
}

/// The parts to walk down from a server's directory for a request.
pub fn walk_parts(rel: &str) -> (r: Result<Vec<String>, FileError>)
    ensures
        match r {
            Ok(v) => text::views(v@) == paths::parts(rel@) && !leads_up(rel@),
            Err(e) => e == FileError::Traversal && leads_up(rel@),
        },
{
    let cs = text::chars_of(rel);
    if goes_up(cs.as_slice()) {
        return Err(FileError::Traversal);
    }
    let ps = paths::parts_of(cs.as_slice());
    let ghost all = paths::parts(rel@);
    let mut out: Vec<String> = Vec::new();
    let mut i: usize = 0;
    assert(text::views(out@) =~= all.take(0));
    while i < ps.len()
        invariant
            i <= ps@.len(),
            text::runs(ps@) == all,
            text::views(out@) == all.take(i as int),
        decreases ps.len() - i,
    {
        assert(all[i as int] == ps@[i as int]@);
        let ghost before = text::views(out@);
        out.push(text::string_of(ps[i].as_slice()));
        assert(text::views(out@) =~= before.push(all[i as int]));
        i += 1;
        assert(text::views(out@) =~= all.take(i as int));
    }
    assert(all.take(i as int) =~= all);
    Ok(out)
}

/// What opening one part of a walk, links not followed, came to.
#[derive(Debug, Clone, Copy, PartialEq, Eq, Structural)]
pub enum Opened {
    Yes,
    NotFound,
    Failed,
}

/// What a walk does next.
#[derive(Debug, Clone, Copy, PartialEq, Eq, Structural)]
pub enum WalkAction {
    /// Go on below what was opened.
    Descend,
    /// What was opened is what the request asked for.
    Finish,
    /// Make the directory, then open it.
    MakeDirectory,
    /// Pass the error on.
    Fail,
}

/// The next step of a walk at part `index` of `count`: only directories on the
/// way are made, and only where the request allows it.
pub fn walk_step(index: usize, count: usize, create_parents: bool, opened: Opened) -> (r: WalkAction)
    requires
        index < count,
    ensures
        r == match opened {
            Opened::Yes => if index + 1 == count {
                WalkAction::Finish
            } else {
                WalkAction::Descend
            },
            Opened::NotFound => if index + 1 < count && create_parents {
                WalkAction::MakeDirectory
            } else {
                WalkAction::Fail
            },
            Opened::Failed => WalkAction::Fail,
        },
{
    let last = index + 1 == count;
    match opened {
        Opened::Yes => if last {
            WalkAction::Finish
        } else {
            WalkAction::Descend
        },
        Opened::NotFound => if !last && create_parents {
            WalkAction::MakeDirectory
        } else {
            WalkAction::Fail
        },
        Opened::Failed => WalkAction::Fail,
    }
}

/// Path, below the server's directory, of what a request's last part lies in.
pub open spec fn parent_of(rel: Seq<char>) -> Seq<char> {
    paths::parent_text(paths::unrooted(rel))
}

/// Path, below the server's directory, of what a request's last part lies in.
pub fn parent_rel(rel: &str) -> (r: String)
    ensures
        r@ == parent_of(rel@),
{
    let cs = text::chars_of(rel);
    text::string_of(paths::parent(paths::strip_root(cs.as_slice())).as_slice())
}

/// The last part of a request.
pub open spec fn name_of(rel: Seq<char>) -> Option<Seq<char>> {
    paths::last_name(paths::unrooted(rel))
}

/// The last part of a request.
fn request_name(rel: &str) -> (r: Option<String>)
    ensures
        match r {
            Some(s) => name_of(rel@) == Some(s@),
            None => name_of(rel@) is None,
        },
{
    let cs = text::chars_of(rel);
    match paths::file_name(paths::strip_root(cs.as_slice())) {
        Some(n) => Some(text::string_of(n.as_slice())),
        None => None,
    }
}

/// A move or a copy between two directories of a server.
#[derive(Debug, Clone)]
pub struct Transfer {
    pub from_dir: String,
    pub from_name: String,
    pub to_dir: String,
    pub to_name: String,
}

/// Whether `t` is the transfer of one request to another.
pub open spec fn is_transfer(t: Transfer, from: Seq<char>, to: Seq<char>) -> bool {
    &&& t.from_dir@ == parent_of(from)
    &&& Some(t.from_name@) == name_of(from)
    &&& t.to_dir@ == parent_of(to)
    &&& Some(t.to_name@) == name_of(to)
}

/// The transfer of one request to another.
fn transfer(from: &str, to: &str) -> (r: Result<Transfer, FileError>)
    ensures
        match r {
            Ok(t) => is_transfer(t, from@, to@),
            Err(e) => if name_of(from@) is None {
                e == FileError::SourceNoName
            } else {
                e == FileError::DestinationNoName && name_of(to@) is None
            },
        },
{
    let from_name = match request_name(from) {
        Some(n) => n,
        None => {
            return Err(FileError::SourceNoName);
        },
    };
    let to_name = match request_name(to) {
        Some(n) => n,
        None => {
            return Err(FileError::DestinationNoName);
        },
    };
    Ok(Transfer { from_dir: parent_rel(from), from_name, to_dir: parent_rel(to), to_name })
}

/// Whether two requests name the same entry of the same directory.
pub open spec fn same_place(from: Seq<char>, to: Seq<char>) -> bool {
    parent_of(from) == parent_of(to) && name_of(from) == name_of(to)
}

/// Plans a rename: nothing is to be done where both requests name one place.
pub fn rename(from: &str, to: &str) -> (r: Result<Option<Transfer>, FileError>)
    ensures
        match r {
            Ok(None) => name_of(from@) is Some && same_place(from@, to@),
            Ok(Some(t)) => is_transfer(t, from@, to@) && !same_place(from@, to@),
            Err(e) => if name_of(from@) is None {
                e == FileError::SourceNoName
            } else {
                e == FileError::DestinationNoName && name_of(to@) is None
            },
        },
{
    match transfer(from, to) {
        Err(e) => Err(e),
        Ok(t) => {
            if text::same(t.from_dir.as_str(), t.to_dir.as_str()) && text::same(
                t.from_name.as_str(),
                t.to_name.as_str(),
            ) {
                Ok(None)
            } else {
                Ok(Some(t))
            }
        },
    }
}

/// Plans a move into a directory: the entry keeps its name.
pub fn move_into(from: &str, dest_dir: &str) -> (r: Result<Transfer, FileError>)
    ensures
        match r {
            Ok(t) => t.from_dir@ == parent_of(from@) && Some(t.from_name@) == name_of(from@)
                && t.to_dir@ == paths::unrooted(dest_dir@) && t.to_name@ == t.from_name@,
            Err(e) => e == FileError::SourceNoName && name_of(from@) is None,
        },
{
    match request_name(from) {
        None => Err(FileError::SourceNoName),
        Some(name) => {
            let to_name = text::copy_of(name.as_str());
            let cs = text::chars_of(dest_dir);
            Ok(
                Transfer {
                    from_dir: parent_rel(from),
                    from_name: name,
                    to_dir: text::string_of(paths::strip_root(cs.as_slice())),
                    to_name,
                },
            )
        },
    }
}

/// Plans a copy, given the real paths of source and destination: refused where
/// the destination lies in the source.
pub fn copy(from: &str, to: &str, real_from: &str, real_to: &str) -> (r: Result<Transfer, FileError>)
    ensures
        match r {
            Ok(t) => is_transfer(t, from@, to@) && !paths::is_within(real_to@, real_from@),
            Err(e) => if paths::is_within(real_to@, real_from@) {
                e == FileError::CopyIntoItself
            } else if name_of(from@) is None {
                e == FileError::SourceNoName
            } else {
                e == FileError::DestinationNoName && name_of(to@) is None
            },
        },
{
    if paths::within(real_to, real_from) {
        return Err(FileError::CopyIntoItself);
    }
    transfer(from, to)
}

/// What stands at an entry, links not followed.
#[derive(Debug, Clone, Copy, PartialEq, Eq, Structural)]
pub enum NodeKind {
    File,
    Directory,
    Symlink,
    Other,
}

/// How an entry is copied.
#[derive(Debug, Clone, Copy, PartialEq, Eq, Structural)]
pub enum CopyAction {
    /// Make a link with the same target; the target is never looked at.
    Relink,
    /// Make the directory and copy what it holds.
    Descend,
    /// Copy the bytes, with these permission bits.
    CopyBytes { mode: u32 },
}

/// How an entry with a mode is copied.
pub fn copy_action(kind: NodeKind, mode: u32) -> (r: CopyAction)
    ensures
        r == match kind {
            NodeKind::Symlink => CopyAction::Relink,
            NodeKind::Directory => CopyAction::Descend,
            _ => CopyAction::CopyBytes { mode: archive::plain_mode(mode) },
        },
{
    match kind {
        NodeKind::Symlink => CopyAction::Relink,
        NodeKind::Directory => CopyAction::Descend,
        _ => CopyAction::CopyBytes { mode: archive::masked_mode(mode) },
    }
}

/// Whether a directory entry is one of the two that every directory has.
pub fn is_dot_entry(name: &[u8]) -> (r: bool)
    ensures
        r == (name@ == seq![0x2eu8] || name@ == seq![0x2eu8, 0x2e]),
{
    let r = (name.len() == 1 && name[0] == 0x2e) || (name.len() == 2 && name[0] == 0x2e && name[1]
        == 0x2e);
    proof {
        if name@.len() == 1 && name@[0] == 0x2e {
            assert(name@ =~= seq![0x2eu8]);
        }
        if name@.len() == 2 && name@[0] == 0x2e && name@[1] == 0x2e {
            assert(name@ =~= seq![0x2eu8, 0x2e]);
        }
    }
    r
}

/// An entry of one of a server's directories.
#[derive(Debug, Clone)]
pub struct Place {
    pub dir: String,
    pub name: String,
}

/// Plans a deletion: the server's directory itself is never deleted.
pub fn delete(rel: &str) -> (r: Result<Place, FileError>)
    ensures
        ({
            let trimmed = paths::unrooted(rel@);
            let root = trimmed.len() == 0 || trimmed == "."@ || trimmed == ".."@;
            match r {
                Ok(p) => !root && p.dir@ == parent_of(rel@) && Some(p.name@) == name_of(rel@),
                Err(e) => if root {
                    e == FileError::RootDeletion
                } else {
                    e == FileError::NoName && name_of(rel@) is None
                },
            }
        }),
{
    let cs = text::chars_of(rel);
    let trimmed = text::string_of(paths::strip_root(cs.as_slice()));
    if trimmed.as_str().is_empty() || text::same(trimmed.as_str(), ".") || text::same(
        trimmed.as_str(),
        "..",
    ) {
        return Err(FileError::RootDeletion);
    }
    match request_name(rel) {
        None => Err(FileError::NoName),
        Some(name) => Ok(Place { dir: parent_rel(rel), name }),
    }
}

/// The permission bits that a request may set.
pub fn chmod(mode: u32) -> (r: u32)
    ensures
        r == archive::plain_mode(mode),
{
    archive::masked_mode(mode)
}

/// Admits a file for viewing.
pub fn read_file(is_dir: bool, len: u64, max_bytes: usize) -> (r: Result<(), FileError>)
    ensures
        match r {
            Ok(_) => !is_dir && len <= max_bytes,
            Err(e) => if is_dir {
                e == FileError::IsDirectory
            } else {
                e == FileError::TooLargeInline && len > max_bytes
            },
        },
{
    if is_dir {
        return Err(FileError::IsDirectory);
    }
    if len > max_bytes as u64 {
        return Err(FileError::TooLargeInline);
    }
    Ok(())
}

/// Admits a file for download: gives the name to suggest.
pub fn download_file(rel: &str, is_dir: bool) -> (r: Result<String, FileError>)
    ensures
        match r {
            Ok(name) => !is_dir && name@ == match paths::last_name(rel@) {
                Some(n) => n,
                None => Seq::empty(),
            },
            Err(e) => is_dir && e == FileError::DirectoryDownload,
        },
{
    if is_dir {
        return Err(FileError::DirectoryDownload);
    }
    let cs = text::chars_of(rel);
    match paths::file_name(cs.as_slice()) {
        Some(n) => Ok(text::string_of(n.as_slice())),
        None => Ok(String::new()),
    }
}

/// Where an archive entry ends up: `stack` holds the parts reached so far, `ps`
/// the parts still to go, `links` says of each place that is stepped into whether
/// a symbolic link stands there (what it does not speak of is none).
pub open spec fn landing(
    stack: Seq<Seq<char>>,
    ps: Seq<Seq<char>>,
    links: Seq<bool>,
) -> Result<Seq<Seq<char>>, FileError>
    decreases ps.len(),
{
    if ps.len() == 0 {
        Ok(stack)
    } else if ps[0] == paths::up() {
        if stack.len() == 0 {
            Err(FileError::ArchiveEscapes)
        } else {
            landing(stack.drop_last(), ps.drop_first(), links)
        }
    } else if links.len() > 0 && links[0] {
        Err(FileError::ArchiveSymlink)
    } else {
        landing(
            stack.push(ps[0]),
            ps.drop_first(),
            if links.len() > 0 {
                links.drop_first()
            } else {
                links
            },
        )
    }
}

/// The places that an archive entry steps into, in order, up to where it leaves
/// the file system's root.
pub open spec fn steps(stack: Seq<Seq<char>>, ps: Seq<Seq<char>>) -> Seq<Seq<Seq<char>>>
    decreases ps.len(),
{
    if ps.len() == 0 {
        Seq::empty()
    } else if ps[0] == paths::up() {
        if stack.len() == 0 {
            Seq::empty()
        } else {
            steps(stack.drop_last(), ps.drop_first())
        }
    } else {
        seq![stack.push(ps[0])] + steps(stack.push(ps[0]), ps.drop_first())
    }
}

/// Where an archive entry lands below `dest`, as parts.
pub open spec fn entry_landing(dest: Seq<char>, name: Seq<char>, links: Seq<bool>) -> Result<
    Seq<Seq<char>>,
    FileError,
> {
    if paths::has_root(name) {
        Err(FileError::ArchiveAbsolute)
    } else {
        match landing(paths::parts(dest), paths::parts(name), links) {
            Err(e) => Err(e),
            Ok(out) => if paths::parts(dest).is_prefix_of(out) {
                Ok(out)
            } else {
                Err(FileError::ArchiveEscapes)
            },
        }
    }
}

/// Copies a run of characters.
fn copy_run(s: &[char]) -> (r: Vec<char>)
    ensures
        r@ == s@,
{
    let mut out: Vec<char> = Vec::new();
    text::push_all(&mut out, s);
    assert(out@ =~= s@);
    out
}

/// Whether `ps` starts with `base`.
fn has_prefix(base: &Vec<Vec<char>>, ps: &Vec<Vec<char>>) -> (r: bool)
    ensures
        r == text::runs(base@).is_prefix_of(text::runs(ps@)),
{
    let ghost b = text::runs(base@);
    let ghost p = text::runs(ps@);
    if base.len() > ps.len() {
        return false;
    }
    let mut i: usize = 0;
    while i < base.len()
        invariant
            i <= base@.len() <= ps@.len(),
            b == text::runs(base@),
            p == text::runs(ps@),
            forall|j: int| 0 <= j < i ==> b[j] == p[j],
        decreases base.len() - i,
    {
        assert(b[i as int] == base@[i as int]@ && p[i as int] == ps@[i as int]@);
        if !text::same_chars(base[i].as_slice(), ps[i].as_slice()) {
            assert(!b.is_prefix_of(p)) by {
                if b.is_prefix_of(p) {
                    assert(p.subrange(0, b.len() as int)[i as int] == b[i as int]);
                }
            }
            return false;
        }
        i += 1;
    }
    assert(p.subrange(0, b.len() as int) =~= b);
    true
}

/// Walks an archive entry's parts.
fn land(from: Vec<Vec<char>>, ps: &Vec<Vec<char>>, links: &Vec<bool>) -> (r: Result<
    Vec<Vec<char>>,
    FileError,
>)
    ensures
        match (r, landing(text::runs(from@), text::runs(ps@), links@)) {
            (Ok(a), Ok(b)) => text::runs(a@) == b,
            (Err(a), Err(b)) => a == b,
            _ => false,
        },
{
    let ghost goal = landing(text::runs(from@), text::runs(ps@), links@);
    let ghost all = text::runs(ps@);
    let mut stack = from;
    let mut used: usize = 0;
    let mut i: usize = 0;
    assert(all.skip(0) =~= all);
    assert(links@.skip(0) =~= links@);
    while i < ps.len()
        invariant
            i <= ps@.len(),
            used <= links@.len(),
            all == text::runs(ps@),
            goal == landing(text::runs(from@), text::runs(ps@), links@),
            landing(text::runs(stack@), all.skip(i as int), links@.skip(used as int)) == goal,
        decreases ps.len() - i,
    {
        proof {
            assert(all.skip(i as int)[0] == ps@[i as int]@);
            assert(all.skip(i as int).drop_first() =~= all.skip(i + 1));
        }
        if paths::is_up(ps[i].as_slice()) {
            let ghost before = text::runs(stack@);
            match stack.pop() {
                None => {
                    return Err(FileError::ArchiveEscapes);
                },
                Some(_) => {
                    assert(text::runs(stack@) =~= before.drop_last());
                },
            }
        } else {
            if used < links.len() {
                assert(links@.skip(used as int)[0] == links@[used as int]);
                assert(links@.skip(used as int).drop_first() =~= links@.skip(used + 1));
                if links[used] {
                    return Err(FileError::ArchiveSymlink);
                }
                used += 1;
            }
            let ghost before = text::runs(stack@);
            stack.push(copy_run(ps[i].as_slice()));
            assert(text::runs(stack@) =~= before.push(all[i as int]));
        }
        i += 1;
    }
    assert(all.skip(i as int).len() == 0);
    Ok(stack)
}

/// The paths that an archive entry steps into below `dest`: what stands there is
/// to be looked at, without following links, before the entry is joined.
pub fn probe_paths(dest: &str, name: &str) -> (r: Vec<String>)
    ensures
        text::views(r@) == (if paths::has_root(name@) {
            Seq::empty()
        } else {
            steps(paths::parts(dest@), paths::parts(name@)).map_values(
                |s: Seq<Seq<char>>| paths::path_text(paths::has_root(dest@), s),
            )
        }),
{
    let d = text::chars_of(dest);
    let n = text::chars_of(name);
    let root = d.len() > 0 && d[0] == '/';
    let mut out: Vec<String> = Vec::new();
    if n.len() > 0 && n[0] == '/' {
        assert(text::views(out@) =~= Seq::<Seq<char>>::empty());
        return out;
    }
    let mut stack = paths::parts_of(d.as_slice());
    let ps = paths::parts_of(n.as_slice());
    let ghost all = paths::parts(name@);
    let ghost show = |s: Seq<Seq<char>>| paths::path_text(paths::has_root(dest@), s);
    let ghost goal = steps(paths::parts(dest@), all).map_values(show);
    let mut i: usize = 0;
    assert(all.skip(0) =~= all);
    assert(text::views(out@) + goal =~= goal);
    while i < ps.len()
        invariant
            i <= ps@.len(),
            all == text::runs(ps@),
            root == paths::has_root(dest@),
            show == (|s: Seq<Seq<char>>| paths::path_text(paths::has_root(dest@), s)),
            goal == steps(paths::parts(dest@), paths::parts(name@)).map_values(show),
            !paths::has_root(name@),
            text::views(out@) + steps(text::runs(stack@), all.skip(i as int)).map_values(show)
                == goal,
        decreases ps.len() - i,
    {
        proof {
            assert(all.skip(i as int)[0] == ps@[i as int]@);
            assert(all.skip(i as int).drop_first() =~= all.skip(i + 1));
        }
        let ghost before = text::runs(stack@);
        if paths::is_up(ps[i].as_slice()) {
            match stack.pop() {
                None => {
                    assert(text::views(out@) =~= goal);
                    return out;
                },
                Some(_) => {
                    assert(text::runs(stack@) =~= before.drop_last());
                },
            }
        } else {
            stack.push(copy_run(ps[i].as_slice()));
            assert(text::runs(stack@) =~= before.push(all[i as int]));
            let ghost seen = text::views(out@);
            out.push(paths::path_of(root, &stack));
            proof {
                let now = text::runs(stack@);
                let rest = steps(now, all.skip(i + 1));
                assert(text::views(out@) =~= seen.push(show(now)));
                assert((seq![now] + rest).map_values(show) =~= seq![show(now)] + rest.map_values(
                    show,
                ));
                assert(text::views(out@) + rest.map_values(show) =~= seen + (seq![show(now)]
                    + rest.map_values(show)));
            }
        }
        i += 1;
    }
    assert(text::views(out@) =~= goal);
    out
}

/// Joins an archive entry's name onto `dest`, given whether a symbolic link stands
/// at each of the entry's `probe_paths`: dots are resolved by name, and whatever
/// would leave `dest` is refused.
pub fn safe_join(dest: &str, name: &str, links: &Vec<bool>) -> (r: Result<String, FileError>)
    ensures
        match entry_landing(dest@, name@, links@) {
            Ok(out) => r is Ok && r->Ok_0@ == paths::path_text(paths::has_root(dest@), out),
            Err(e) => r == Err::<String, FileError>(e),
        },
{
    match join_parts(dest, name, links) {
        Err(e) => Err(e),
        Ok(out) => {
            let d = text::chars_of(dest);
            let root = d.len() > 0 && d[0] == '/';
            Ok(paths::path_of(root, &out))
        },
    }
}

/// Joins an archive entry's name onto `dest`, as parts.
fn join_parts(dest: &str, name: &str, links: &Vec<bool>) -> (r: Result<Vec<Vec<char>>, FileError>)
    ensures
        match (r, entry_landing(dest@, name@, links@)) {
            (Ok(a), Ok(b)) => text::runs(a@) == b,
            (Err(a), Err(b)) => a == b,
            _ => false,
        },
{
    let d = text::chars_of(dest);
    let n = text::chars_of(name);
    if n.len() > 0 && n[0] == '/' {
        return Err(FileError::ArchiveAbsolute);
    }
    let base = paths::parts_of(d.as_slice());
    let stack = paths::parts_of(d.as_slice());
    let ps = paths::parts_of(n.as_slice());
    match land(stack, &ps, links) {
        Err(e) => Err(e),
        Ok(out) => if has_prefix(&base, &out) {
            Ok(out)
        } else {
            Err(FileError::ArchiveEscapes)
        },
    }
}

proof fn lemma_landing_counts(stack: Seq<Seq<char>>, ps: Seq<Seq<char>>, links: Seq<bool>)
    requires
        paths::all_count(stack),
        paths::all_count(ps),
    ensures
        landing(stack, ps, links) is Ok ==> paths::all_count(landing(stack, ps, links)->Ok_0),
    decreases ps.len(),
{
    if ps.len() > 0 {
        let rest = ps.drop_first();
        assert(paths::all_count(rest)) by {
            assert forall|i: int| 0 <= i < rest.len() implies paths::counts(#[trigger] rest[i])
                && !text::mentions(rest[i], '/') by {
                assert(rest[i] == ps[i + 1]);
            }
        }
        assert(paths::counts(ps[0]) && !text::mentions(ps[0], '/'));
        if ps[0] == paths::up() {
            if stack.len() > 0 {
                let less = stack.drop_last();
                assert forall|i: int| 0 <= i < less.len() implies paths::counts(#[trigger] less[i])
                    && !text::mentions(less[i], '/') by {
                    assert(less[i] == stack[i]);
                }
                lemma_landing_counts(less, rest, links);
            }
        } else {
            let more = stack.push(ps[0]);
            assert forall|i: int| 0 <= i < more.len() implies paths::counts(#[trigger] more[i])
                && !text::mentions(more[i], '/') by {
                if i < stack.len() {
                    assert(more[i] == stack[i]);
                }
            }
            lemma_landing_counts(more, rest, links);
            if links.len() > 0 {
                lemma_landing_counts(more, rest, links.drop_first());
            }
        }
    }
}

/// An archive entry that is joined onto `dest` lies within `dest`, whatever its
/// name.
pub proof fn law_joined_entry_stays_inside(dest: Seq<char>, name: Seq<char>, links: Seq<bool>)
    requires
        entry_landing(dest, name, links) is Ok,
    ensures
        paths::is_within(
            paths::path_text(paths::has_root(dest), entry_landing(dest, name, links)->Ok_0),
            dest,
        ),
{
    paths::lemma_parts_count(dest);
    paths::lemma_parts_count(name);
    lemma_landing_counts(paths::parts(dest), paths::parts(name), links);
    paths::lemma_path_text(paths::has_root(dest), entry_landing(dest, name, links)->Ok_0);
}

proof fn lemma_link_on_the_way(
    stack: Seq<Seq<char>>,
    ps: Seq<Seq<char>>,
    links: Seq<bool>,
    k: int,
)
    requires
        0 <= k < links.len(),
        k < steps(stack, ps).len(),
        links[k],
    ensures
        landing(stack, ps, links) is Err,
    decreases ps.len(),
{
    if ps.len() > 0 {
        if ps[0] == paths::up() {
            if stack.len() > 0 {
                lemma_link_on_the_way(stack.drop_last(), ps.drop_first(), links, k);
            }
        } else if !links[0] {
            lemma_link_on_the_way(
                stack.push(ps[0]),
                ps.drop_first(),
                links.drop_first(),
                k - 1,
            );
        }
    }
}

/// An archive entry that steps into a symbolic link is never joined.
pub proof fn law_link_on_the_way_is_refused(
    dest: Seq<char>,
    name: Seq<char>,
    links: Seq<bool>,
    k: int,
)
    requires
        0 <= k < links.len(),
        k < steps(paths::parts(dest), paths::parts(name)).len(),
        links[k],
    ensures
        entry_landing(dest, name, links) is Err,
{
    if !paths::has_root(name) {
        lemma_link_on_the_way(paths::parts(dest), paths::parts(name), links, k);
    }
}

/// Every request stands for a path within the server's directory, as far as names
/// go.
pub proof fn law_request_lies_below_root(cfg: Config, server: Server, rel: Seq<char>)
    ensures
        paths::is_within(requested(cfg, server, rel), root_of(cfg, server)),
{
    paths::lemma_unrooted(rel);
    paths::lemma_joined_within(root_of(cfg, server), paths::unrooted(rel));
}

/// What to do with an archive entry.
#[derive(Debug, Clone)]
pub enum UnpackStep {
    /// Make this directory, below the destination.
    Directory { rel: String },
    /// Write a file: `name` in the directory `dir` below the destination, `cap`
    /// bytes at most.
    File { dir: String, name: String, cap: u64 },
}

/// An archive that is being unpacked into `dest`.
#[derive(Debug, Clone)]
pub struct Unpack {
    pub dest: String,
    /// Whether backslashes in entry names are separators.
    pub backslashes: bool,
    pub extraction: Extraction,
}

/// Path, below the destination, of an entry that landed at `out`.
pub open spec fn entry_path(u: Unpack, out: Seq<Seq<char>>) -> Seq<char> {
    let rel = paths::path_text(false, out.skip(paths::parts(u.dest@).len() as int));
    if u.backslashes {
        text::swapped(rel, '\\', '/')
    } else {
        rel
    }
}

/// An entry of an archive, as its header gives it.
#[derive(Debug, Clone)]
pub struct ArchiveEntry {
    pub name: String,
    pub kind: EntryKind,
    pub declared: u64,
}

/// Why an entry is refused, if it is: one too many, a link, a name that leaves
/// the destination, a size over the limits, no name.
pub open spec fn entry_error(u: Unpack, e: ArchiveEntry, links: Seq<bool>) -> Option<FileError> {
    let x = u.extraction;
    if x.count == x.limits.max_entries {
        Some(FileError::Archive(ArchiveError::TooManyEntries { max: x.limits.max_entries }))
    } else if e.kind == EntryKind::Link {
        Some(FileError::Archive(ArchiveError::LinkEntry))
    } else {
        match entry_landing(u.dest@, e.name@, links) {
            Err(err) => Some(err),
            Ok(out) => if e.kind == EntryKind::Directory {
                None
            } else if !archive::fits(x, e.declared) {
                Some(FileError::Archive(ArchiveError::TooLarge))
            } else if paths::last_name(entry_path(u, out)) is None {
                Some(FileError::ArchiveNoName)
            } else {
                None
            },
        }
    }
}

/// Whether `s` is the step for an entry that landed at `out`.
pub open spec fn is_unpack_step(
    u: Unpack,
    e: ArchiveEntry,
    out: Seq<Seq<char>>,
    s: UnpackStep,
) -> bool {
    let rel = entry_path(u, out);
    match s {
        UnpackStep::Directory { rel: r } => e.kind == EntryKind::Directory && r@ == rel,
        UnpackStep::File { dir, name, cap } => e.kind == EntryKind::File && dir@ == parent_of(rel)
            && Some(name@) == paths::last_name(rel) && cap == archive::read_cap(u.extraction),
    }
}

/// `ps` without its first `n` runs.
fn runs_behind(ps: &Vec<Vec<char>>, n: usize) -> (r: Vec<Vec<char>>)
    requires
        n <= ps@.len(),
    ensures
        text::runs(r@) == text::runs(ps@).skip(n as int),
{
    let mut out: Vec<Vec<char>> = Vec::new();
    let mut i: usize = n;
    let ghost all = text::runs(ps@);
    assert(text::runs(out@) =~= all.subrange(n as int, n as int));
    while i < ps.len()
        invariant
            n <= i <= ps@.len(),
            all == text::runs(ps@),
            text::runs(out@) == all.subrange(n as int, i as int),
        decreases ps.len() - i,
    {
        let ghost before = text::runs(out@);
        out.push(copy_run(ps[i].as_slice()));
        assert(text::runs(out@) =~= before.push(all[i as int]));
        i += 1;
        assert(text::runs(out@) =~= all.subrange(n as int, i as int));
    }
    assert(all.subrange(n as int, i as int) =~= all.skip(n as int));
    out
}

impl Unpack {
    /// Well formed while its extraction is.
    pub open spec fn wf(self) -> bool {
        self.extraction.wf()
    }

    /// Takes the next entry, given whether a symbolic link stands at each of its
    /// `probe_paths`.
    pub fn entry(&mut self, e: &ArchiveEntry, links: &Vec<bool>) -> (r: Result<
        UnpackStep,
        FileError,
    >)
        requires
            old(self).wf(),
        ensures
            match r {
                Ok(s) => entry_error(*old(self), *e, links@) is None && is_unpack_step(
                    *old(self),
                    *e,
                    entry_landing(old(self).dest@, e.name@, links@)->Ok_0,
                    s,
                ) && *final(self) == (Unpack {
                    extraction: final(self).extraction,
                    ..*old(self)
                }) && final(self).extraction == (Extraction {
                    count: (old(self).extraction.count + 1) as usize,
                    ..old(self).extraction
                }) && final(self).wf(),
                Err(err) => entry_error(*old(self), *e, links@) == Some(err) && *final(self) == (
                Unpack { extraction: final(self).extraction, ..*old(self) })
                    && final(self).extraction == (Extraction {
                    count: final(self).extraction.count,
                    ..old(self).extraction
                }) && final(self).wf(),
            },
    {
        let ghost before = *self;
        match self.extraction.next_entry(e.kind) {
            Err(err) => {
                return Err(FileError::Archive(err));
            },
            Ok(_) => {},
        }
        let out = match join_parts(self.dest.as_str(), e.name.as_str(), links) {
            Err(err) => {
                return Err(err);
            },
            Ok(out) => out,
        };
        let d = text::chars_of(self.dest.as_str());
        let n: usize = paths::parts_of(d.as_slice()).len();
        proof {
            assert(n == paths::parts(self.dest@).len());
            assert(paths::parts(self.dest@).is_prefix_of(text::runs(out@)));
        }
        let below = runs_behind(&out, n);
        let plain = paths::path_of(false, &below);
        let rel = if self.backslashes {
            let cs = text::chars_of(plain.as_str());
            text::string_of(text::swap_char(cs.as_slice(), '\\', '/').as_slice())
        } else {
            plain
        };
        assert(rel@ == entry_path(before, text::runs(out@)));
        if e.kind == EntryKind::Directory {
            return Ok(UnpackStep::Directory { rel });
        }
        let cap: u64 = match self.extraction.begin_file(e.declared) {
            Err(err) => {
                return Err(FileError::Archive(err));
            },
            Ok(cap) => cap,
        };
        let rc = text::chars_of(rel.as_str());
        match paths::file_name(rc.as_slice()) {
            None => Err(FileError::ArchiveNoName),
            Some(name) => Ok(
                UnpackStep::File {
                    dir: parent_rel(rel.as_str()),
                    name: text::string_of(name.as_slice()),
                    cap,
                },
            ),
        }
    }

    /// Takes note of the bytes that were written for a file, and gives the
    /// permission bits for it where its header has a mode.
    pub fn written(&mut self, copied: u64, mode: Option<u32>) -> (r: Result<
        Option<u32>,
        FileError,
    >)
        requires
            old(self).wf(),
        ensures
            match r {
                Ok(m) => archive::fits(old(self).extraction, copied) && *final(self) == (Unpack {
                    extraction: final(self).extraction,
                    ..*old(self)
                }) && final(self).extraction == (Extraction {
                    total: archive::total_with(old(self).extraction, copied),
                    ..old(self).extraction
                }) && final(self).wf() && m == (match mode {
                    Some(b) => Some(archive::plain_mode(b)),
                    None => None,
                }),
                Err(e) => e == FileError::Archive(ArchiveError::TooLarge) && !archive::fits(
                    old(self).extraction,
                    copied,
                ) && *final(self) == *old(self),
            },
    {
        match self.extraction.end_file(copied) {
            Err(err) => Err(FileError::Archive(err)),
            Ok(_) => match mode {
                Some(b) => Ok(Some(archive::masked_mode(b))),
                None => Ok(None),
            },
        }
    }
}

/// Starts unpacking a zip archive of `entries` entries under given limits.
pub fn unzip_into_bounded(dest: &str, entries: usize, limits: Limits) -> (r: Result<
    Unpack,
    FileError,
>)
    ensures
        match r {
            Ok(u) => entries <= limits.max_entries && u.dest@ == dest@ && u.backslashes
                && u.extraction == (Extraction { limits, count: 0, total: 0 }) && u.wf(),
            Err(e) => e == FileError::Archive(
                ArchiveError::TooManyEntries { max: limits.max_entries },
            ) && entries > limits.max_entries,
        },
{
    let extraction = Extraction::new(limits);
    match extraction.admit_count(entries) {
        Err(e) => Err(FileError::Archive(e)),
        Ok(_) => Ok(Unpack { dest: text::copy_of(dest), backslashes: true, extraction }),
    }
}

/// Starts unpacking a zip archive of `entries` entries.
pub fn unzip_into(dest: &str, entries: usize) -> (r: Result<Unpack, FileError>)
    ensures
        match r {
            Ok(u) => entries <= archive::MAX_ARCHIVE_ENTRIES && u.dest@ == dest@ && u.backslashes
                && u.extraction == (Extraction {
                limits: archive::standard_limits(),
                count: 0,
                total: 0,
            }) && u.wf(),
            Err(e) => e == FileError::Archive(
                ArchiveError::TooManyEntries { max: archive::MAX_ARCHIVE_ENTRIES },
            ) && entries > archive::MAX_ARCHIVE_ENTRIES,
        },
{
    unzip_into_bounded(dest, entries, Limits::standard())
}

/// Starts unpacking a tar archive under given limits.
pub fn extract_tar_gz_bounded(dest: &str, limits: Limits) -> (r: Unpack)
    ensures
        r.dest@ == dest@,
        !r.backslashes,
        r.extraction == (Extraction { limits, count: 0, total: 0 }),
        r.wf(),
{
    Unpack { dest: text::copy_of(dest), backslashes: false, extraction: Extraction::new(limits) }
}

/// Starts unpacking a tar archive.
pub fn extract_tar_gz_into(dest: &str) -> (r: Unpack)
    ensures
        r.dest@ == dest@,
        !r.backslashes,
        r.extraction == (Extraction { limits: archive::standard_limits(), count: 0, total: 0 }),
        r.wf(),
{
    extract_tar_gz_bounded(dest, Limits::standard())
}

/// Whether `glob::Pattern::new` takes a pattern.
pub uninterp spec fn glob_parses(pattern: Seq<char>) -> bool;

/// What `glob::Pattern::matches` says of a text; false of every text for a
/// pattern that does not parse.
pub uninterp spec fn glob_matches(pattern: Seq<char>, s: Seq<char>) -> bool;

/// `glob::Pattern::new`: whether a pattern parses.
#[verifier::external_body]
fn glob_is_valid(pattern: &str) -> (r: bool)
    ensures
        r == glob_parses(pattern@),
{
    glob::Pattern::new(pattern).is_ok()
}

/// `glob::Pattern::matches`: whether a pattern that parses matches a text.
#[verifier::external_body]
fn glob_match(pattern: &str, s: &str) -> (r: bool)
    ensures
        r == glob_matches(pattern@, s@),
{
    match glob::Pattern::new(pattern) {
        Ok(p) => p.matches(s),
        Err(_) => false,
    }
}

/// Glob patterns that keep paths out of an archive. A directory that matches is
/// left out whole.
#[derive(Debug, Clone)]
pub struct IgnoreList {
    pub patterns: Vec<String>,
}

/// Whether a line, trimmed, holds a pattern: it is no blank and no comment.
pub open spec fn is_pattern_line(line: Seq<char>) -> bool {
    line.len() > 0 && line[0] != '#'
}

/// The pattern of a trimmed line: without `./` before and one slash behind.
pub open spec fn line_pattern(line: Seq<char>) -> Seq<char> {
    let l = if text::begins_with(line, seq!['.', '/']) {
        line.skip(2)
    } else {
        line
    };
    if l.len() > 0 && l.last() == '/' {
        l.drop_last()
    } else {
        l
    }
}

/// The patterns that some lines hold.
pub open spec fn line_patterns(lines: Seq<Seq<char>>) -> Seq<Seq<char>>
    decreases lines.len(),
{
    if lines.len() == 0 {
        Seq::empty()
    } else {
        let before = line_patterns(lines.drop_last());
        let line = text::trimmed(lines.last());
        if is_pattern_line(line) {
            before.push(line_pattern(line))
        } else {
            before
        }
    }
}

/// The patterns of a list, one a line.
pub open spec fn patterns_of(spec: Seq<char>) -> Seq<Seq<char>> {
    line_patterns(text::split_on(spec, '\n'))
}

/// The pattern of a trimmed line.
fn pattern_of_line(line: &[char]) -> (r: Vec<char>)
    ensures
        r@ == line_pattern(line@),
{
    let mut from: usize = 0;
    let mut to: usize = line.len();
    let dotted = line.len() >= 2 && line[0] == '.' && line[1] == '/';
    assert(dotted == text::begins_with(line@, seq!['.', '/'])) by {
        if dotted {
            assert(line@.subrange(0, 2) =~= seq!['.', '/']);
        }
        if text::begins_with(line@, seq!['.', '/']) {
            assert(line@.subrange(0, 2)[0] == line@[0] && line@.subrange(0, 2)[1] == line@[1]);
        }
    }
    if dotted {
        from = 2;
    }
    if to > from && line[to - 1] == '/' {
        to = to - 1;
    }
    let r = copy_run(slice_subrange(line, from, to));
    assert(r@ =~= line_pattern(line@));
    r
}

/// Why a list was refused: its first pattern that does not parse.
pub open spec fn pattern_error(ps: Seq<Seq<char>>, message: Seq<char>) -> bool {
    exists|i: int|
        0 <= i < ps.len() && !glob_parses(#[trigger] ps[i]) && (forall|j: int|
            0 <= j < i ==> glob_parses(#[trigger] ps[j])) && message
            == "invalid ignore pattern: "@ + ps[i]
}

/// What of a path follows its last slash.
pub open spec fn base_name(rel: Seq<char>) -> Seq<char> {
    text::split_on(rel, '/').last()
}

/// Whether one pattern excludes a path: it matches the path or, where it holds
/// no slash, the last part of it.
pub open spec fn pattern_hits(pattern: Seq<char>, whole: bool, base: bool) -> bool {
    whole || (!text::mentions(pattern, '/') && base)
}

/// Whether some patterns exclude a path.
pub open spec fn excluded(patterns: Seq<Seq<char>>, rel: Seq<char>) -> bool {
    exists|i: int|
        0 <= i < patterns.len() && pattern_hits(
            #[trigger] patterns[i],
            glob_matches(patterns[i], rel),
            glob_matches(patterns[i], base_name(rel)),
        )
}

/// Whether one pattern excludes a path, given whether it matches the path and
/// the last part of it.
pub fn pattern_excludes(pattern: &str, whole: bool, base: bool) -> (r: bool)
    ensures
        r == pattern_hits(pattern@, whole, base),
{
    let cs = text::chars_of(pattern);
    whole || (!text::contains_char(cs.as_slice(), '/') && base)
}

/// The patterns of a list, one a line: blanks and comments are passed over.
pub fn parse_patterns(spec: &str) -> (r: Vec<String>)
    ensures
        text::views(r@) == patterns_of(spec@),
{
    let cs = text::chars_of(spec);
    let lines = text::split(cs.as_slice(), '\n');
    let ghost all = text::split_on(spec@, '\n');
    let mut out: Vec<String> = Vec::new();
    let mut i: usize = 0;
    assert(text::views(out@) =~= line_patterns(all.take(0)));
    while i < lines.len()
        invariant
            i <= lines@.len(),
            text::runs(lines@) == all,
            text::views(out@) == line_patterns(all.take(i as int)),
        decreases lines.len() - i,
    {
        proof {
            assert(all[i as int] == lines@[i as int]@);
            assert(all.take(i + 1).drop_last() =~= all.take(i as int));
        }
        let line = text::trim(lines[i].as_slice());
        if line.len() > 0 && line[0] != '#' {
            let ghost before = text::views(out@);
            out.push(text::string_of(pattern_of_line(line).as_slice()));
            assert(text::views(out@) =~= before.push(line_pattern(line@)));
        }
        i += 1;
    }
    assert(all.take(i as int) =~= all);
    out
}

impl IgnoreList {
    /// The list that excludes nothing.
    pub fn none() -> (r: IgnoreList)
        ensures
            text::views(r.patterns@) == Seq::<Seq<char>>::empty(),
    {
        let patterns: Vec<String> = Vec::new();
        assert(text::views(patterns@) =~= Seq::<Seq<char>>::empty());
        IgnoreList { patterns }
    }

    /// Reads a list, one pattern a line. A pattern that does not parse is an
    /// error, so that a slip cannot archive what was meant to stay out.
    pub fn parse(spec: &str) -> (r: Result<IgnoreList, String>)
        ensures
            match r {
                Ok(l) => text::views(l.patterns@) == patterns_of(spec@) && forall|i: int|
                    0 <= i < patterns_of(spec@).len() ==> glob_parses(
                        #[trigger] patterns_of(spec@)[i],
                    ),
                Err(m) => pattern_error(patterns_of(spec@), m@),
            },
    {
        let patterns = parse_patterns(spec);
        let ghost ps = patterns_of(spec@);
        let mut i: usize = 0;
        while i < patterns.len()
            invariant
                i <= patterns@.len(),
                text::views(patterns@) == ps,
                ps == patterns_of(spec@),
                forall|j: int| 0 <= j < i ==> glob_parses(#[trigger] ps[j]),
            decreases patterns.len() - i,
        {
            assert(ps[i as int] == patterns@[i as int]@);
            if !glob_is_valid(patterns[i].as_str()) {
                let mut m = text::copy_of("invalid ignore pattern: ");
                m.append(patterns[i].as_str());
                return Err(m);
            }
            i += 1;
        }
        Ok(IgnoreList { patterns })
    }

    /// Whether the list excludes nothing.
    pub fn is_empty(&self) -> (r: bool)
        ensures
            r == (self.patterns@.len() == 0),
    {
        self.patterns.len() == 0
    }

    /// Whether a path, relative to the archive's root, is excluded.
    pub fn excludes(&self, rel: &str) -> (r: bool)
        ensures
            r == excluded(text::views(self.patterns@), rel@),
    {
        let cs = text::chars_of(rel);
        let mut pieces = text::split(cs.as_slice(), '/');
        let ghost all = text::split_on(rel@, '/');
        proof {
            text::lemma_split_len(rel@, '/');
        }
        let ghost runs = text::runs(pieces@);
        let base = match pieces.pop() {
            Some(p) => {
                assert(runs.last() == p@);
                text::string_of(p.as_slice())
            },
            None => String::new(),
        };
        assert(base@ == base_name(rel@));
        let ghost ps = text::views(self.patterns@);
        let mut i: usize = 0;
        while i < self.patterns.len()
            invariant
                i <= self.patterns@.len(),
                ps == text::views(self.patterns@),
                base@ == base_name(rel@),
                forall|j: int|
                    0 <= j < i ==> !pattern_hits(
                        #[trigger] ps[j],
                        glob_matches(ps[j], rel@),
                        glob_matches(ps[j], base_name(rel@)),
                    ),
            decreases self.patterns.len() - i,
        {
            assert(ps[i as int] == self.patterns@[i as int]@);
            let p = self.patterns[i].as_str();
            if pattern_excludes(p, glob_match(p, rel), glob_match(p, base.as_str())) {
                assert(pattern_hits(
                    ps[i as int],
                    glob_matches(ps[i as int], rel@),
                    glob_matches(ps[i as int], base_name(rel@)),
                ));
                return true;
            }
            i += 1;
        }
        false
    }
}

/// What opening a directory entry, links not followed, gave.
#[derive(Debug, Clone, Copy, PartialEq, Eq, Structural)]
pub enum OpenedAs {
    /// A symbolic link: it was not opened.
    Link,
    Failed,
    /// An open file or directory; `device` and `inode` tell it from any other.
    Node { device: u64, inode: u64, kind: NodeKind, len: u64, mode: u32, mtime: Option<u64> },
}

/// A directory entry that a walk came upon.
#[derive(Debug, Clone)]
pub struct SeenEntry {
    pub name: String,
    pub opened: OpenedAs,
}

/// What a walk does with a directory entry.
#[derive(Debug, Clone)]
pub enum PackAction {
    Skip,
    /// Pass the error on.
    Fail,
    /// Add the directory, then walk it.
    Directory { rel: String, mode: u32, mtime: Option<u64> },
    /// Add the file.
    File { rel: String, len: u64, mode: u32, mtime: Option<u64> },
}

/// Path of an entry of the directory `base`, relative to the archive's root.
pub open spec fn child_path(base: Seq<char>, name: Seq<char>) -> Seq<char> {
    if base.len() == 0 {
        name
    } else {
        base + seq!['/'] + name
    }
}

/// Whether a name is one of the two that every directory has.
pub open spec fn is_dots(name: Seq<char>) -> bool {
    name == "."@ || name == ".."@
}

/// Whether a walk in the directory `base` takes an entry in: it was opened, is a
/// file or a directory, is not the archive being written, and is not excluded.
pub open spec fn takes_in(
    base: Seq<char>,
    device: u64,
    inode: u64,
    patterns: Seq<Seq<char>>,
    e: SeenEntry,
) -> bool {
    &&& !is_dots(e.name@)
    &&& e.opened is Node
    &&& (e.opened->Node_kind == NodeKind::File || e.opened->Node_kind == NodeKind::Directory)
    &&& !(e.opened->Node_device == device && e.opened->Node_inode == inode)
    &&& !excluded(patterns, child_path(base, e.name@))
}

/// Whether `a` is what a walk in `base` does with an entry.
pub open spec fn is_pack_action(
    base: Seq<char>,
    device: u64,
    inode: u64,
    patterns: Seq<Seq<char>>,
    e: SeenEntry,
    a: PackAction,
) -> bool {
    let o = e.opened;
    if !is_dots(e.name@) && o is Failed {
        a is Fail
    } else if !takes_in(base, device, inode, patterns, e) {
        a is Skip
    } else if o->Node_kind == NodeKind::Directory {
        a matches PackAction::Directory { rel, mode, mtime } && rel@ == child_path(base, e.name@)
            && mode == archive::plain_mode(o->Node_mode) && mtime == o->Node_mtime
    } else {
        a matches PackAction::File { rel, len, mode, mtime } && rel@ == child_path(base, e.name@)
            && len == o->Node_len && mode == archive::plain_mode(o->Node_mode) && mtime
            == o->Node_mtime
    }
}

/// A walk over a directory tree that fills an archive. The directories it is in
/// lie one below the other, from the archive's root on.
#[derive(Debug, Clone)]
pub struct PackWalk {
    pub dirs: Vec<String>,
    pub device: u64,
    pub inode: u64,
    pub ignore: IgnoreList,
    /// Bytes of the files added.
    pub total: u64,
}

/// Whether `sub` is an entry of the directory `base`.
pub open spec fn is_child(base: Seq<char>, sub: Seq<char>) -> bool {
    exists|name: Seq<char>| !is_dots(name) && sub == #[trigger] child_path(base, name)
}

impl PackWalk {
    /// Starts at the archive's root; each directory on the way is an entry of the
    /// one before, and none is excluded.
    pub open spec fn wf(self) -> bool {
        let ds = text::views(self.dirs@);
        &&& ds.len() > 0 ==> ds[0].len() == 0
        &&& forall|i: int|
            0 < i < ds.len() ==> is_child(ds[i - 1], #[trigger] ds[i]) && !excluded(
                text::views(self.ignore.patterns@),
                ds[i],
            )
    }

    /// Whether the directories on the way are plain paths: they are where the
    /// entries that the walk came upon had names.
    pub open spec fn plain(self) -> bool {
        forall|i: int|
            0 <= i < self.dirs@.len() ==> paths::is_plain(#[trigger] text::views(self.dirs@)[i])
    }

    /// The directory that the walk is in.
    pub open spec fn here(self) -> Seq<char> {
        text::views(self.dirs@).last()
    }

    /// A walk that fills the archive file with this device and inode number.
    pub fn new(device: u64, inode: u64, ignore: IgnoreList) -> (r: PackWalk)
        ensures
            text::views(r.dirs@) == seq![Seq::<char>::empty()],
            r.device == device,
            r.inode == inode,
            r.ignore == ignore,
            r.total == 0,
            r.wf(),
            r.plain(),
    {
        proof {
            paths::lemma_nothing_is_plain();
        }
        let mut dirs: Vec<String> = Vec::new();
        let root = String::new();
        assert(root@ =~= Seq::<char>::empty());
        dirs.push(root);
        assert(text::views(dirs@) =~= seq![Seq::<char>::empty()]);
        PackWalk { dirs, device, inode, ignore, total: 0 }
    }

    /// Takes an entry of the directory that the walk is in. A directory that is
    /// taken in becomes the one that the walk is in.
    pub fn entry(&mut self, e: &SeenEntry) -> (r: PackAction)
        requires
            old(self).wf(),
            old(self).dirs@.len() > 0,
        ensures
            is_pack_action(
                old(self).here(),
                old(self).device,
                old(self).inode,
                text::views(old(self).ignore.patterns@),
                *e,
                r,
            ),
            final(self).wf(),
            old(self).plain() && paths::is_name(e.name@) ==> final(self).plain(),
            final(self).device == old(self).device,
            final(self).inode == old(self).inode,
            final(self).ignore == old(self).ignore,
            text::views(final(self).dirs@) == match r {
                PackAction::Directory { rel, .. } => text::views(old(self).dirs@).push(rel@),
                _ => text::views(old(self).dirs@),
            },
            final(self).total == match r {
                PackAction::File { len, .. } => if old(self).total + len <= u64::MAX {
                    old(self).total + len
                } else {
                    u64::MAX as int
                },
                _ => old(self).total as int,
            },
    {
        if text::same(e.name.as_str(), ".") || text::same(e.name.as_str(), "..") {
            return PackAction::Skip;
        }
        let ghost ds = text::views(self.dirs@);
        let base = &self.dirs[self.dirs.len() - 1];
        assert(base@ == ds.last());
        let rel = if base.as_str().is_empty() {
            text::copy_of(e.name.as_str())
        } else {
            let mut s = text::copy_of(base.as_str());
            s.push('/');
            s.append(e.name.as_str());
            s
        };
        assert(rel@ =~= child_path(base@, e.name@));
        match e.opened {
            OpenedAs::Link => PackAction::Skip,
            OpenedAs::Failed => PackAction::Fail,
            OpenedAs::Node { device, inode, kind, len, mode, mtime } => {
                if device == self.device && inode == self.inode {
                    return PackAction::Skip;
                }
                if self.ignore.excludes(rel.as_str()) {
                    return PackAction::Skip;
                }
                match kind {
                    NodeKind::Directory => {
                        let shown = text::copy_of(rel.as_str());
                        self.dirs.push(rel);
                        proof {
                            let now = text::views(self.dirs@);
                            assert(now =~= ds.push(shown@));
                            assert(is_child(ds.last(), shown@));
                            if old(self).plain() && paths::is_name(e.name@) {
                                assert(paths::is_plain(ds[ds.len() - 1]));
                                paths::lemma_plain_child(ds.last(), e.name@);
                                assert forall|i: int| 0 <= i < now.len() implies paths::is_plain(
                                    #[trigger] now[i],
                                ) by {
                                    if i < ds.len() {
                                        assert(now[i] == ds[i]);
                                    }
                                }
                            }
                            assert forall|i: int| 0 < i < now.len() implies is_child(
                                now[i - 1],
                                #[trigger] now[i],
                            ) && !excluded(text::views(self.ignore.patterns@), now[i]) by {
                                if i < ds.len() {
                                    assert(now[i] == ds[i] && now[i - 1] == ds[i - 1]);
                                }
                            }
                        }
                        PackAction::Directory { rel: shown, mode: archive::masked_mode(mode), mtime }
                    },
                    NodeKind::File => {
                        self.total = self.total.saturating_add(len);
                        PackAction::File { rel, len, mode: archive::masked_mode(mode), mtime }
                    },
                    _ => PackAction::Skip,
                }
            },
        }
    }

    /// Leaves the directory that the walk is in, at its end. True when it was the
    /// archive's root: the walk is done.
    pub fn leave(&mut self) -> (r: bool)
        requires
            old(self).wf(),
            old(self).dirs@.len() > 0,
        ensures
            text::views(final(self).dirs@) == text::views(old(self).dirs@).drop_last(),
            r == (old(self).dirs@.len() == 1),
            final(self).wf(),
            old(self).plain() ==> final(self).plain(),
            final(self).device == old(self).device,
            final(self).inode == old(self).inode,
            final(self).ignore == old(self).ignore,
            final(self).total == old(self).total,
    {
        let ghost ds = text::views(self.dirs@);
        self.dirs.pop();
        proof {
            let now = text::views(self.dirs@);
            assert(now =~= ds.drop_last());
            if old(self).plain() {
                assert forall|i: int| 0 <= i < now.len() implies paths::is_plain(
                    #[trigger] now[i],
                ) by {
                    assert(now[i] == ds[i]);
                }
            }
            assert forall|i: int| 0 < i < now.len() implies is_child(now[i - 1], #[trigger] now[i])
                && !excluded(text::views(self.ignore.patterns@), now[i]) by {
                assert(now[i] == ds[i] && now[i - 1] == ds[i - 1]);
            }
        }
        self.dirs.len() == 0
    }
}

/// Starts filling a zip archive; what is added in all is its total.
pub fn zip_dir(device: u64, inode: u64) -> (r: PackWalk)
    ensures
        r.wf(),
        text::views(r.dirs@) == seq![Seq::<char>::empty()],
        r.device == device,
        r.inode == inode,
        text::views(r.ignore.patterns@) == Seq::<Seq<char>>::empty(),
        r.total == 0,
{
    PackWalk::new(device, inode, IgnoreList::none())
}

/// Starts filling a tar archive with everything.
pub fn tar_gz_dir(device: u64, inode: u64) -> (r: PackWalk)
    ensures
        r.wf(),
        text::views(r.dirs@) == seq![Seq::<char>::empty()],
        r.device == device,
        r.inode == inode,
        text::views(r.ignore.patterns@) == Seq::<Seq<char>>::empty(),
        r.total == 0,
{
    tar_gz_dir_excluding(device, inode, IgnoreList::none())
}

/// Starts filling a tar archive with what a list does not exclude.
pub fn tar_gz_dir_excluding(device: u64, inode: u64, ignore: IgnoreList) -> (r: PackWalk)
    ensures
        r.wf(),
        text::views(r.dirs@) == seq![Seq::<char>::empty()],
        r.device == device,
        r.inode == inode,
        r.ignore == ignore,
        r.total == 0,
{
    PackWalk::new(device, inode, ignore)
}

proof fn lemma_landing_is_straight(
    stack: Seq<Seq<char>>,
    ps: Seq<Seq<char>>,
    links: Seq<bool>,
)
    requires
        !ps.contains(paths::up()),
        !links.contains(true),
    ensures
        landing(stack, ps, links) == Ok::<Seq<Seq<char>>, FileError>(stack + ps),
    decreases ps.len(),
{
    if ps.len() > 0 {
        let rest = ps.drop_first();
        assert(ps[0] != paths::up());
        assert(!rest.contains(paths::up())) by {
            if rest.contains(paths::up()) {
                let i = choose|i: int| 0 <= i < rest.len() && rest[i] == paths::up();
                assert(ps[i + 1] == paths::up());
            }
        }
        if links.len() > 0 {
            assert(!links[0]);
            let less = links.drop_first();
            assert(!less.contains(true)) by {
                if less.contains(true) {
                    let i = choose|i: int| 0 <= i < less.len() && less[i];
                    assert(links[i + 1]);
                }
            }
            lemma_landing_is_straight(stack.push(ps[0]), rest, less);
        } else {
            lemma_landing_is_straight(stack.push(ps[0]), rest, links);
        }
        assert(stack.push(ps[0]) + rest =~= stack + ps);
    } else {
        assert(stack + ps =~= stack);
    }
}

/// Whether an entry of an archive is named for a path: in the archive, that of a
/// directory may end with a slash.
pub open spec fn named_for(name: Seq<char>, rel: Seq<char>) -> bool {
    !paths::has_root(name) && paths::parts(name) == paths::parts(rel)
}

/// An entry that is named for a plain path comes back under that path, where no
/// link is on the way: it lands at the parts of the destination and those of the
/// path, and is made or written at that path below the destination. Of a zip
/// archive, where backslashes are separators, a path without any.
pub proof fn law_packed_name_comes_back(
    u: Unpack,
    rel: Seq<char>,
    name: Seq<char>,
    links: Seq<bool>,
)
    requires
        paths::is_plain(rel),
        rel.len() > 0,
        named_for(name, rel),
        !links.contains(true),
        u.backslashes ==> !text::mentions(rel, '\\'),
    ensures
        entry_landing(u.dest@, name, links) == Ok::<Seq<Seq<char>>, FileError>(
            paths::parts(u.dest@) + paths::parts(rel),
        ),
        entry_path(u, paths::parts(u.dest@) + paths::parts(rel)) == rel,
        child_path(parent_of(rel), paths::parts(rel).last()) == rel,
        paths::last_name(rel) == Some(paths::parts(rel).last()),
{
    let base = paths::parts(u.dest@);
    let ps = paths::parts(rel);
    lemma_landing_is_straight(base, ps, links);
    assert((base + ps).subrange(0, base.len() as int) =~= base);
    assert((base + ps).skip(base.len() as int) =~= ps);
    if u.backslashes {
        assert(text::swapped(rel, '\\', '/') =~= rel) by {
            assert forall|i: int| 0 <= i < rel.len() implies rel[i] != '\\' by {
                assert(!text::mentions(rel, '\\'));
            }
        }
    }
    paths::lemma_plain_parent(rel);
    let less = ps.drop_last();
    let dir = parent_of(rel);
    if less.len() > 0 {
        paths::lemma_parts_count(rel);
        paths::lemma_joined_is_something(less, ps);
        assert(child_path(dir, ps.last()) =~= rel);
    } else {
        assert(dir =~= Seq::<char>::empty());
        assert(ps =~= seq![ps.last()]);
        assert(rel =~= ps.last());
    }
}

/// What a walk takes in is unpacked under the same path: the entry that it adds to
/// an archive is refused for nothing but the limits, a directory is made at its
/// path and a file is written at its path, below the destination.
pub proof fn law_packed_entry_is_unpacked(
    base: Seq<char>,
    device: u64,
    inode: u64,
    patterns: Seq<Seq<char>>,
    seen: SeenEntry,
    a: PackAction,
    u: Unpack,
    e: ArchiveEntry,
    links: Seq<bool>,
    s: UnpackStep,
)
    requires
        paths::is_plain(base),
        paths::is_name(seen.name@),
        is_pack_action(base, device, inode, patterns, seen, a),
        ({
            let rel = child_path(base, seen.name@);
            ||| a is File && e.kind == EntryKind::File && named_for(e.name@, rel) && archive::fits(
                u.extraction,
                e.declared,
            )
            ||| a is Directory && e.kind == EntryKind::Directory && named_for(e.name@, rel)
        }),
        u.extraction.count < u.extraction.limits.max_entries,
        !links.contains(true),
        u.backslashes ==> !text::mentions(child_path(base, seen.name@), '\\'),
    ensures
        entry_error(u, e, links) is None,
        is_unpack_step(u, e, entry_landing(u.dest@, e.name@, links)->Ok_0, s) ==> match s {
            UnpackStep::Directory { rel } => a matches PackAction::Directory { rel: packed, .. }
                && rel@ == packed@,
            UnpackStep::File { dir, name, .. } => a matches PackAction::File { rel: packed, .. }
                && child_path(dir@, name@) == packed@,
        },
{
    let rel = child_path(base, seen.name@);
    paths::lemma_plain_child(base, seen.name@);
    law_packed_name_comes_back(u, rel, e.name@, links);
}

/// The extraction after some entries, each as long as its header says.
pub open spec fn extraction_after(x: Extraction, es: Seq<ArchiveEntry>) -> Extraction
    decreases es.len(),
{
    if es.len() == 0 {
        x
    } else {
        let before = extraction_after(x, es.drop_last());
        let counted = Extraction { count: (before.count + 1) as usize, ..before };
        if es.last().kind == EntryKind::File {
            Extraction { total: archive::total_with(counted, es.last().declared), ..counted }
        } else {
            counted
        }
    }
}

/// Bytes of the files among some entries.
pub open spec fn declared_sum(es: Seq<ArchiveEntry>) -> int
    decreases es.len(),
{
    if es.len() == 0 {
        0
    } else {
        declared_sum(es.drop_last()) + if es.last().kind == EntryKind::File {
            es.last().declared as int
        } else {
            0
        }
    }
}

proof fn lemma_extraction_after(x: Extraction, es: Seq<ArchiveEntry>)
    requires
        x.count == 0,
        x.total == 0,
        es.len() <= x.limits.max_entries,
        declared_sum(es) <= x.limits.max_total,
    ensures
        extraction_after(x, es).count == es.len(),
        extraction_after(x, es).total == declared_sum(es),
        extraction_after(x, es).limits == x.limits,
        declared_sum(es) >= 0,
    decreases es.len(),
{
    if es.len() > 0 {
        lemma_declared_sum(es.drop_last());
        lemma_extraction_after(x, es.drop_last());
    }
}

proof fn lemma_declared_sum(es: Seq<ArchiveEntry>)
    ensures
        declared_sum(es) >= 0,
        forall|i: int|
            0 <= i < es.len() ==> #[trigger] declared_sum(es.take(i)) + (if es[i].kind
                == EntryKind::File {
                es[i].declared as int
            } else {
                0
            }) <= declared_sum(es),
    decreases es.len(),
{
    if es.len() > 0 {
        let less = es.drop_last();
        lemma_declared_sum(less);
        assert forall|i: int| 0 <= i < es.len() implies #[trigger] declared_sum(es.take(i)) + (
        if es[i].kind == EntryKind::File {
            es[i].declared as int
        } else {
            0
        }) <= declared_sum(es) by {
            if i < less.len() {
                assert(less.take(i) =~= es.take(i));
                assert(less[i] == es[i]);
                assert(declared_sum(less.take(i)) <= declared_sum(less));
            } else {
                assert(es.take(i) =~= less);
            }
        }
    }
}

/// An archive whose entries are named for plain paths and keep within the limits,
/// in number, each and together, is unpacked to its end where no link is in the
/// way: no entry is refused, neither before it is written nor after.
pub proof fn law_archive_within_limits_is_unpacked(
    u: Unpack,
    es: Seq<ArchiveEntry>,
    rels: Seq<Seq<char>>,
    links: Seq<bool>,
    i: int,
)
    requires
        u.extraction.count == 0,
        u.extraction.total == 0,
        es.len() <= u.extraction.limits.max_entries,
        declared_sum(es) <= u.extraction.limits.max_total,
        0 <= i < es.len() == rels.len(),
        es[i].kind != EntryKind::Link,
        es[i].kind == EntryKind::File ==> es[i].declared <= u.extraction.limits.max_file,
        paths::is_plain(rels[i]),
        rels[i].len() > 0,
        named_for(es[i].name@, rels[i]),
        u.backslashes ==> !text::mentions(rels[i], '\\'),
        !links.contains(true),
    ensures
        ({
            let now = Unpack { extraction: extraction_after(u.extraction, es.take(i)), ..u };
            &&& entry_error(now, es[i], links) is None
            &&& es[i].kind == EntryKind::File ==> archive::fits(
                now.extraction,
                es[i].declared,
            )
        }),
{
    lemma_declared_sum(es);
    lemma_declared_sum(es.take(i));
    assert(declared_sum(es.take(i)) <= declared_sum(es));
    lemma_extraction_after(u.extraction, es.take(i));
    let now = Unpack { extraction: extraction_after(u.extraction, es.take(i)), ..u };
    law_packed_name_comes_back(now, rels[i], es[i].name@, links);
}

/// Nothing enters an archive that is a link, the archive itself, or excluded.
pub proof fn law_archive_holds_nothing_excluded(
    base: Seq<char>,
    device: u64,
    inode: u64,
    patterns: Seq<Seq<char>>,
    e: SeenEntry,
    a: PackAction,
)
    requires
        is_pack_action(base, device, inode, patterns, e, a),
        a is Directory || a is File,
    ensures
        e.opened is Node,
        !(e.opened->Node_device == device && e.opened->Node_inode == inode),
        a matches PackAction::Directory { rel, .. } ==> !excluded(patterns, rel@),
        a matches PackAction::File { rel, .. } ==> !excluded(patterns, rel@),
{
}

/// The modes in an archive never set a user id, a group id or the sticky bit.
pub proof fn law_archive_modes_are_plain(
    base: Seq<char>,
    device: u64,
    inode: u64,
    patterns: Seq<Seq<char>>,
    e: SeenEntry,
    a: PackAction,
)
    requires
        is_pack_action(base, device, inode, patterns, e, a),
    ensures
        a matches PackAction::Directory { mode, .. } ==> mode <= 0o777,
        a matches PackAction::File { mode, .. } ==> mode <= 0o777,
{
    if e.opened is Node {
        archive::law_masked_mode_is_plain(e.opened->Node_mode);
    }
}

/// How an entry is deleted.
#[derive(Debug, Clone, Copy, PartialEq, Eq, Structural)]
pub enum DeleteAction {
    /// Remove the entry itself; a link's target is never touched.
    Unlink,
    /// Delete what the directory holds, then the directory.
    Descend,
}

/// How an entry is deleted.
pub fn delete_action(kind: NodeKind) -> (r: DeleteAction)
    ensures
        r == (if kind == NodeKind::Directory {
            DeleteAction::Descend
        } else {
            DeleteAction::Unlink
        }),
{
    match kind {
        NodeKind::Directory => DeleteAction::Descend,
        _ => DeleteAction::Unlink,
    }
}

/// Which directory to make, and where, so that a request's directory exists:
/// none for the directory that the request is relative to.
pub fn open_dir_create(rel: &str) -> (r: Result<Option<Place>, FileError>)
    ensures
        ({
            let trimmed = paths::unrooted(rel@);
            let here = trimmed.len() == 0 || trimmed == "."@;
            match r {
                Ok(None) => here,
                Ok(Some(p)) => !here && p.dir@ == parent_of(rel@) && Some(p.name@) == name_of(rel@),
                Err(e) => !here && e == FileError::NoName && name_of(rel@) is None,
            }
        }),
{
    let cs = text::chars_of(rel);
    let trimmed = text::string_of(paths::strip_root(cs.as_slice()));
    if trimmed.as_str().is_empty() || text::same(trimmed.as_str(), ".") {
        return Ok(None);
    }
    match request_name(rel) {
        None => Err(FileError::NoName),
        Some(name) => Ok(Some(Place { dir: parent_rel(rel), name })),
    }
}

/// What kind of content `mime_guess` takes a file of this name for.
pub uninterp spec fn mime_of(path: Seq<char>) -> Seq<char>;

/// `mime_guess::from_path(..).first_or_octet_stream()`: the kind of content that a
/// path's extension stands for.
#[verifier::external_body]
fn guess_mime(path: &str) -> (r: String)
    ensures
        r@ == mime_of(path@),
{
    mime_guess::from_path(path).first_or_octet_stream().to_string()
}

/// The kind of content of a server's file, by its name.
pub fn content_kind(cfg: &Config, server: &Server, rel: &str) -> (r: String)
    ensures
        r@ == mime_of(paths::joined(root_of(*cfg, *server), rel@)),
{
    let p = paths::join(server_root(cfg, server).as_str(), rel);
    guess_mime(p.as_str())
}

/// Place of the last dot of a name, or -1.
pub open spec fn last_dot(name: Seq<char>) -> int
    decreases name.len(),
{
    if name.len() == 0 {
        -1
    } else if name.last() == '.' {
        name.len() - 1
    } else {
        last_dot(name.drop_last())
    }
}

/// What follows the last dot of a file's name, unless the dot is its first
/// character.
pub open spec fn extension_of(name: Seq<char>) -> Seq<char> {
    match paths::last_name(name) {
        None => Seq::empty(),
        Some(n) => if last_dot(n) > 0 {
            n.skip(last_dot(n) + 1)
        } else {
            Seq::empty()
        },
    }
}

/// What follows the last dot of a file's name.
pub fn extension(name: &str) -> (r: String)
    ensures
        r@ == extension_of(name@),
{
    let cs = text::chars_of(name);
    match paths::file_name(cs.as_slice()) {
        None => {
            let s = String::new();
            assert(s@ =~= Seq::<char>::empty());
            s
        },
        Some(n) => {
            let mut end: usize = n.len();
            assert(n@.take(end as int) =~= n@);
            while end > 0 && n[end - 1] != '.'
                invariant
                    end <= n@.len(),
                    last_dot(n@.take(end as int)) == last_dot(n@),
                decreases end,
            {
                assert(n@.take(end as int).drop_last() =~= n@.take(end - 1));
                end -= 1;
            }
            if end > 0 {
                assert(n@.take(end as int).last() == '.');
                assert(last_dot(n@) == end - 1);
            }
            if end > 1 {
                let r = text::string_of(slice_subrange(n.as_slice(), end, n.len()));
                assert(r@ =~= n@.skip(end as int));
                r
            } else {
                let s = String::new();
                assert(s@ =~= Seq::<char>::empty());
                s
            }
        },
    }
}

/// When a file was last written.
#[derive(Debug, Clone, Copy, PartialEq, Eq, Structural)]
pub enum Modified {
    Unknown,
    /// Before 1970.
    Early,
    /// Seconds since 1970.
    At(u64),
}

/// What stands in a directory, links not followed.
#[derive(Debug, Clone)]
pub struct RawEntry {
    pub name: String,
    pub len: u64,
    pub modified: Modified,
    pub kind: NodeKind,
    pub mode: u32,
}

/// Path of an entry of the directory `dir`, as a listing shows it.
pub open spec fn shown_path(root: Seq<char>, dir: Seq<char>, name: Seq<char>) -> Seq<char> {
    let p = paths::joined(dir, name);
    let rel = if paths::is_within(p, root) {
        paths::relative_text(p, root)
    } else {
        p
    };
    seq!['/'] + text::swapped(rel, '\\', '/')
}

/// Whether `e` is the listing's entry for what stands in the directory `dir`.
pub open spec fn is_entry(root: Seq<char>, dir: Seq<char>, raw: RawEntry, e: FileEntry) -> bool {
    let is_dir = raw.kind == NodeKind::Directory;
    &&& e.name@ == raw.name@
    &&& e.path@ == shown_path(root, dir, raw.name@)
    &&& e.size == (if is_dir {
        0
    } else {
        raw.len
    })
    &&& e.modified@ == (match raw.modified {
        Modified::Unknown => Seq::empty(),
        Modified::Early => text::decimal(0),
        Modified::At(t) => text::decimal(t as int),
    })
    &&& e.is_dir == is_dir
    &&& e.is_symlink == (raw.kind == NodeKind::Symlink)
    &&& e.mode == raw.mode
    &&& e.mime@ == (if is_dir {
        "inode/directory"@
    } else {
        mime_of(raw.name@)
    })
    &&& e.extension@ == extension_of(raw.name@)
}

/// The listing's entry for what stands in the directory `dir`.
fn entry_for(root: &str, dir: &str, raw: &RawEntry) -> (r: FileEntry)
    ensures
        is_entry(root@, dir@, *raw, r),
{
    let p = paths::join(dir, raw.name.as_str());
    let rel = match paths::relative_to(p.as_str(), root) {
        Some(v) => v,
        None => text::chars_of(p.as_str()),
    };
    let mut shown: Vec<char> = Vec::new();
    shown.push('/');
    text::push_all(&mut shown, text::swap_char(rel.as_slice(), '\\', '/').as_slice());
    assert(shown@ =~= shown_path(root@, dir@, raw.name@));
    let is_dir = raw.kind == NodeKind::Directory;
    let modified = match raw.modified {
        Modified::Unknown => {
            let s = String::new();
            assert(s@ =~= Seq::<char>::empty());
            s
        },
        Modified::Early => text::string_of(text::decimal_u64(0).as_slice()),
        Modified::At(t) => text::string_of(text::decimal_u64(t).as_slice()),
    };
    FileEntry {
        name: text::copy_of(raw.name.as_str()),
        path: text::string_of(shown.as_slice()),
        size: if is_dir {
            0
        } else {
            raw.len
        },
        modified,
        is_dir,
        is_symlink: raw.kind == NodeKind::Symlink,
        mode: raw.mode,
        mime: if is_dir {
            text::copy_of("inode/directory")
        } else {
            guess_mime(raw.name.as_str())
        },
        extension: extension(raw.name.as_str()),
    }
}

impl Ranked for FileEntry {
    /// Directories come first, then names in the order of their small letters.
    open spec fn may_precede(&self, other: &Self) -> bool {
        if self.is_dir != other.is_dir {
            self.is_dir
        } else {
            text::lex_le(text::lowercase_of(self.name@), text::lowercase_of(other.name@))
        }
    }

    fn precedes(&self, other: &Self) -> (r: bool) {
        if self.is_dir != other.is_dir {
            return self.is_dir;
        }
        let a = text::to_lowercase(self.name.as_str());
        let b = text::to_lowercase(other.name.as_str());
        let ac = text::chars_of(a.as_str());
        let bc = text::chars_of(b.as_str());
        text::not_after(ac.as_slice(), bc.as_slice())
    }
}

/// Whether some entries are those of a listing of the directory `dir`, in order.
pub open spec fn are_entries(
    root: Seq<char>,
    dir: Seq<char>,
    raw: Seq<RawEntry>,
    es: Seq<FileEntry>,
) -> bool {
    es.len() == raw.len() && forall|i: int|
        0 <= i < raw.len() ==> is_entry(root, dir, raw[i], #[trigger] es[i])
}

/// The listing of the directory `dir`, given what stands in it: directories
/// first, then by name.
pub fn list_dir(cfg: &Config, server: &Server, dir: &str, raw: &Vec<RawEntry>) -> (r: Vec<
    FileEntry,
>)
    ensures
        exists|es: Seq<FileEntry>|
            #![trigger order::sorted(es)]
            are_entries(root_of(*cfg, *server), dir@, raw@, es) && r@ == order::sorted(es),
{
    let root = server_root(cfg, server);
    let mut out: Vec<FileEntry> = Vec::new();
    let mut i: usize = 0;
    while i < raw.len()
        invariant
            i <= raw@.len(),
            out@.len() == i,
            forall|j: int| 0 <= j < i ==> is_entry(root@, dir@, raw@[j], #[trigger] out@[j]),
        decreases raw.len() - i,
    {
        out.push(entry_for(root.as_str(), dir, &raw[i]));
        i += 1;
    }
    order::sort(out)
}

/// A listing is in order: directories before all else, then by the small letters
/// of the names.
pub proof fn law_listing_is_ordered(es: Seq<FileEntry>)
    ensures
        forall|i: int, j: int|
            #![trigger order::sorted(es)[i], order::sorted(es)[j]]
            0 <= i < j < order::sorted(es).len() ==> order::sorted(es)[i].may_precede(
                &order::sorted(es)[j],
            ),
        order::sorted(es).to_multiset() == es.to_multiset(),
{
    assert forall|a: FileEntry, b: FileEntry| #[trigger] a.may_precede(&b) || b.may_precede(
        &a,
    ) by {
        text::lemma_lex_total(text::lowercase_of(a.name@), text::lowercase_of(b.name@));
    }
    assert forall|a: FileEntry, b: FileEntry, c: FileEntry| #[trigger]
        a.may_precede(&b) && #[trigger] b.may_precede(&c) implies a.may_precede(&c) by {
        if a.is_dir == b.is_dir && b.is_dir == c.is_dir {
            text::lemma_lex_transitive(
                text::lowercase_of(a.name@),
                text::lowercase_of(b.name@),
                text::lowercase_of(c.name@),
            );
        }
    }
    order::lemma_sorted_is_ordered(es);
    order::lemma_sorted_keeps_items(es);
}

/// The bytes of an upload in base64, to be written, or why it is none.
pub fn base64_upload(b64: &str) -> (r: Result<Vec<u8>, String>)
    ensures
        match r {
            Ok(v) => encoding::base64_decoded(b64@) == Ok::<Seq<u8>, Seq<char>>(v@),
            Err(e) => encoding::base64_decoded(b64@) == Err::<Seq<u8>, Seq<char>>(e@),
        },
{
    encoding::base64_decode(b64)
}

} // verus!
