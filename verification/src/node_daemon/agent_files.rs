//! Files of a server as the agent reaches them: below the server's directory and
//! through no link.
use crate::node_daemon::config::DaemonConfig;
use crate::node_daemon::error::DaemonError;
use crate::node_protocol::{FileOperation, RemoteFileEntry};
use crate::order;
use crate::order::Ranked;
use crate::paths;
use crate::services::files::Place;
use crate::text;
use vstd::prelude::*;
use vstd::string::*;

verus! {

/// A directory with the first parts of a path behind it.
pub open spec fn prefix(root: Seq<char>, ps: Seq<Seq<char>>, n: int) -> Seq<char>
    decreases n,
{
    if n <= 0 {
        root
    } else {
        paths::joined(prefix(root, ps, n - 1), ps[n - 1])
    }
}

/// The parts of a request below a server's directory.
pub open spec fn requested(relative: Seq<char>) -> Seq<Seq<char>> {
    paths::parts(paths::unrooted(relative))
}

/// What stops a walk down a path at a part, if anything: it leads up, or there is
/// a link.
pub open spec fn stop_at(ps: Seq<Seq<char>>, links: Seq<bool>, i: int) -> bool {
    ps[i] == paths::up() || links[i]
}

/// Place of the first part that stops a walk; the number of parts where none
/// does.
pub open spec fn first_stop(ps: Seq<Seq<char>>, links: Seq<bool>, n: int) -> int
    decreases n,
{
    if n <= 0 {
        0
    } else {
        let before = first_stop(ps, links, n - 1);
        if before < n - 1 || stop_at(ps, links, n - 1) {
            before
        } else {
            n
        }
    }
}

/// The parts of a request, as text.
fn request_parts(relative: &str) -> (r: Vec<Vec<char>>)
    ensures
        text::runs(r@) == requested(relative@),
{
    let cs = text::chars_of(relative);
    paths::parts_of(paths::strip_root(cs.as_slice()))
}

/// The places to look at for links, on the way to what a request asks for: one
/// for each part, up to the first that leads up.
pub fn join_probes(root: &str, relative: &str) -> (r: Vec<String>)
    ensures
        ({
            let ps = requested(relative@);
            &&& r@.len() == first_stop(ps, Seq::new(ps.len(), |i: int| false), ps.len() as int)
            &&& forall|i: int|
                0 <= i < r@.len() ==> (#[trigger] r@[i])@ == prefix(root@, ps, i + 1)
        }),
{
    let parts = request_parts(relative);
    let ghost ps = requested(relative@);
    let ghost none = Seq::new(ps.len(), |i: int| false);
    let mut out: Vec<String> = Vec::new();
    let mut here = text::copy_of(root);
    let mut i: usize = 0;
    while i < parts.len()
        invariant
            i <= parts@.len(),
            text::runs(parts@) == ps,
            ps == requested(relative@),
            none == Seq::new(ps.len(), |i: int| false),
            here@ == prefix(root@, ps, i as int),
            out@.len() == i,
            first_stop(ps, none, i as int) == i,
            forall|j: int| 0 <= j < i ==> (#[trigger] out@[j])@ == prefix(root@, ps, j + 1),
        decreases parts.len() - i,
    {
        assert(ps[i as int] == parts@[i as int]@);
        if paths::is_up(parts[i].as_slice()) {
            proof {
                lemma_first_stop(ps, none, i as int, ps.len() as int);
            }
            return out;
        }
        let part = text::string_of(parts[i].as_slice());
        here = paths::join(here.as_str(), part.as_str());
        out.push(text::copy_of(here.as_str()));
        i += 1;
    }
    out
}

proof fn lemma_first_stop(ps: Seq<Seq<char>>, links: Seq<bool>, i: int, n: int)
    requires
        0 <= i < n <= ps.len(),
        first_stop(ps, links, i) == i,
        stop_at(ps, links, i),
    ensures
        first_stop(ps, links, n) == i,
    decreases n,
{
    if n > i + 1 {
        lemma_first_stop(ps, links, i, n - 1);
    }
}

/// The path below a server's directory that a request asks for, given the
/// directory's real path and, for each part, whether there is a link. Nothing
/// leads up and nothing through a link.
pub fn safe_join(root: &str, relative: &str, links: &Vec<bool>) -> (r: Result<String, DaemonError>)
    requires
        ({
            let ps = requested(relative@);
            links@.len() >= first_stop(ps, Seq::new(ps.len(), |i: int| false), ps.len() as int)
        }),
    ensures
        ({
            let ps = requested(relative@);
            let at = first_stop(ps, links@, ps.len() as int);
            if at == ps.len() {
                r is Ok && r->Ok_0@ == prefix(root@, ps, ps.len() as int)
            } else if ps[at] == paths::up() {
                r == Err::<String, DaemonError>(DaemonError::Traversal)
            } else {
                r is Err && r->Err_0 is Link && r->Err_0->link@ == prefix(root@, ps, at + 1)
            }
        }),
{
    let parts = request_parts(relative);
    let ghost ps = requested(relative@);
    let ghost none = Seq::new(ps.len(), |i: int| false);
    let mut here = text::copy_of(root);
    let mut i: usize = 0;
    while i < parts.len()
        invariant
            i <= parts@.len(),
            text::runs(parts@) == ps,
            ps == requested(relative@),
            none == Seq::new(ps.len(), |i: int| false),
            links@.len() >= first_stop(ps, none, ps.len() as int),
            here@ == prefix(root@, ps, i as int),
            first_stop(ps, links@, i as int) == i,
            first_stop(ps, none, i as int) == i,
        decreases parts.len() - i,
    {
        assert(ps[i as int] == parts@[i as int]@);
        if paths::is_up(parts[i].as_slice()) {
            proof {
                lemma_first_stop(ps, links@, i as int, ps.len() as int);
            }
            return Err(DaemonError::Traversal);
        }
        proof {
            lemma_first_stop_grows(ps, none, i + 1, ps.len() as int);
        }
        let part = text::string_of(parts[i].as_slice());
        here = paths::join(here.as_str(), part.as_str());
        if links[i] {
            proof {
                lemma_first_stop(ps, links@, i as int, ps.len() as int);
            }
            return Err(DaemonError::Link { link: here });
        }
        i += 1;
    }
    Ok(here)
}

proof fn lemma_first_stop_grows(ps: Seq<Seq<char>>, links: Seq<bool>, i: int, n: int)
    requires
        0 <= i <= n <= ps.len(),
        first_stop(ps, links, i) == i,
    ensures
        first_stop(ps, links, n) >= i,
    decreases n,
{
    if n > i {
        lemma_first_stop_grows(ps, links, i, n - 1);
    }
}

proof fn lemma_prefix_within(root: Seq<char>, ps: Seq<Seq<char>>, n: int)
    requires
        0 <= n <= ps.len(),
        paths::all_count(ps),
    ensures
        paths::is_within(prefix(root, ps, n), root),
        paths::parts(prefix(root, ps, n)) == paths::parts(root) + ps.take(n),
    decreases n,
{
    if n > 0 {
        lemma_prefix_within(root, ps, n - 1);
        let part = ps[n - 1];
        let base = prefix(root, ps, n - 1);
        assert(paths::counts(part) && !text::mentions(part, '/'));
        assert(!paths::has_root(part));
        paths::lemma_joined_within(base, part);
        paths::lemma_joined_parts(base, part);
        let one = seq![part];
        assert(paths::all_count(one));
        assert(text::joined(one, seq!['/']) =~= part) by {
            reveal_with_fuel(text::joined, 2);
        }
        paths::lemma_path_text(false, one);
        assert(paths::parts(part) =~= one);
        assert(paths::parts(root) + ps.take(n) =~= paths::parts(root) + ps.take(n - 1) + one);
        let all = paths::parts(prefix(root, ps, n));
        assert(all.subrange(0, paths::parts(root).len() as int) =~= paths::parts(root));
    } else {
        assert(ps.take(0) =~= Seq::<Seq<char>>::empty());
        assert(paths::parts(root) + ps.take(0) =~= paths::parts(root));
        assert(paths::parts(root).subrange(0, paths::parts(root).len() as int) =~= paths::parts(
            root,
        ));
    }
}

/// What a request is granted lies below the server's directory: its parts are
/// those of the directory and of the request, and none leads up or is a link.
pub proof fn law_granted_path_stays_below(root: Seq<char>, relative: Seq<char>, links: Seq<bool>)
    requires
        first_stop(requested(relative), links, requested(relative).len() as int) == requested(
            relative,
        ).len(),
    ensures
        ({
            let ps = requested(relative);
            &&& paths::is_within(prefix(root, ps, ps.len() as int), root)
            &&& paths::parts(prefix(root, ps, ps.len() as int)) == paths::parts(root) + ps
            &&& forall|i: int|
                0 <= i < ps.len() ==> #[trigger] ps[i] != paths::up() && !links[i]
        }),
{
    let ps = requested(relative);
    paths::lemma_parts_count(paths::unrooted(relative));
    lemma_prefix_within(root, ps, ps.len() as int);
    assert(ps.take(ps.len() as int) =~= ps);
    lemma_no_stop(ps, links, ps.len() as int);
}

proof fn lemma_no_stop(ps: Seq<Seq<char>>, links: Seq<bool>, n: int)
    requires
        0 <= n <= ps.len(),
        first_stop(ps, links, n) == n,
    ensures
        forall|i: int| 0 <= i < n ==> #[trigger] ps[i] != paths::up() && !links[i],
    decreases n,
{
    if n > 0 {
        lemma_first_stop_bound(ps, links, n - 1);
        lemma_no_stop(ps, links, n - 1);
    }
}

proof fn lemma_first_stop_bound(ps: Seq<Seq<char>>, links: Seq<bool>, n: int)
    requires
        0 <= n,
    ensures
        first_stop(ps, links, n) <= n,
    decreases n,
{
    if n > 0 {
        lemma_first_stop_bound(ps, links, n - 1);
    }
}

/// What is opened for a request, relative to the server's directory.
pub open spec fn opened(relative: Seq<char>) -> Seq<char> {
    if paths::unrooted(relative).len() == 0 {
        seq!['.']
    } else {
        paths::unrooted(relative)
    }
}

/// What is opened for a request, relative to the server's directory: the request
/// without the slashes in front, or the directory itself.
pub fn open_target(relative: &str) -> (r: String)
    ensures
        r@ == opened(relative@),
{
    let cs = text::chars_of(relative);
    let rel = paths::strip_root(cs.as_slice());
    if rel.len() == 0 {
        let mut dot = String::new();
        dot.push('.');
        assert(dot@ =~= seq!['.']);
        dot
    } else {
        text::string_of(rel)
    }
}

/// The path above what a request asks for.
pub open spec fn above(relative: Seq<char>) -> Seq<char> {
    paths::parent_text(paths::unrooted(relative))
}

/// Whether all directories above what a request asks for have names.
pub open spec fn named_above(relative: Seq<char>) -> bool {
    !paths::starts_here(above(relative)) && !paths::parts(above(relative)).contains(paths::up())
}

/// The first parts of a path as a path, with nothing in front.
pub open spec fn first_parts(ps: Seq<Seq<char>>, n: int) -> Seq<char> {
    prefix(Seq::empty(), ps, n)
}

/// The directories that must be there for a file to be written, from the top
/// down. Each is opened below the server's directory, and made where it is not
/// there.
pub fn secure_mkdir_parents(relative: &str) -> (r: Result<Vec<String>, DaemonError>)
    ensures
        if named_above(relative@) {
            let ps = paths::parts(above(relative@));
            &&& r is Ok
            &&& r->Ok_0@.len() == ps.len()
            &&& forall|i: int|
                0 <= i < ps.len() ==> (#[trigger] r->Ok_0@[i])@ == first_parts(ps, i + 1)
        } else {
            r == Err::<Vec<String>, DaemonError>(DaemonError::InvalidComponent)
        },
{
    let cs = text::chars_of(relative);
    let rel = paths::strip_root(cs.as_slice());
    let parent = paths::parent(rel);
    if parent.len() > 0 && parent[0] == '.' && (parent.len() == 1 || parent[1] == '/') {
        return Err(DaemonError::InvalidComponent);
    }
    let parts = paths::parts_of(parent.as_slice());
    let ghost ps = paths::parts(above(relative@));
    let mut out: Vec<String> = Vec::new();
    let mut here = String::new();
    assert(here@ =~= Seq::<char>::empty());
    let mut i: usize = 0;
    while i < parts.len()
        invariant
            i <= parts@.len(),
            text::runs(parts@) == ps,
            ps == paths::parts(above(relative@)),
            !paths::starts_here(above(relative@)),
            here@ == first_parts(ps, i as int),
            out@.len() == i,
            forall|j: int| 0 <= j < i ==> #[trigger] ps[j] != paths::up(),
            forall|j: int| 0 <= j < i ==> (#[trigger] out@[j])@ == first_parts(ps, j + 1),
        decreases parts.len() - i,
    {
        assert(ps[i as int] == parts@[i as int]@);
        if paths::is_up(parts[i].as_slice()) {
            assert(ps.contains(paths::up()));
            return Err(DaemonError::InvalidComponent);
        }
        let part = text::string_of(parts[i].as_slice());
        here = paths::join(here.as_str(), part.as_str());
        out.push(text::copy_of(here.as_str()));
        i += 1;
    }
    assert(!ps.contains(paths::up()));
    Ok(out)
}

/// Where an entry is: the directory that is opened for it, and its name there.
pub open spec fn is_place(p: Place, relative: Seq<char>) -> bool {
    &&& paths::last_name(paths::unrooted(relative)) == Some(p.name@)
    &&& p.dir@ == opened(above(relative))
}

/// Where an entry is that a request speaks of.
pub fn secure_parent(relative: &str) -> (r: Result<Place, DaemonError>)
    ensures
        match r {
            Ok(p) => is_place(p, relative@),
            Err(e) => e == DaemonError::NoName && paths::last_name(paths::unrooted(relative@))
                is None,
        },
{
    let cs = text::chars_of(relative);
    let rel = paths::strip_root(cs.as_slice());
    match paths::file_name(rel) {
        None => Err(DaemonError::NoName),
        Some(name) => {
            let parent = text::string_of(paths::parent(rel).as_slice());
            Ok(
                Place {
                    dir: open_target(parent.as_str()),
                    name: text::string_of(name.as_slice()),
                },
            )
        },
    }
}

/// What a change to a server's files comes down to.
#[derive(Debug)]
pub enum FilePlan {
    /// Make the directories above, then the directory; one that is there is
    /// fine.
    Mkdir { above: Vec<String>, made: Place, reopen: String },
    /// Make the directories above, then open the file to append nothing to it.
    Touch { made_above: Vec<String>, touched: String },
    /// Make the directories above the new place, then rename.
    Rename { source: Place, new_above: Vec<String>, target: Place },
    /// Read a regular file of so many bytes at most, then write it anew.
    Copy { read: String, limit: u64, copy_above: Vec<String>, written: String },
    Delete { gone: Place },
    Chmod { changed: String, bits: u32 },
}

/// Whether directories are those above what a request asks for.
pub open spec fn are_above(dirs: Seq<String>, relative: Seq<char>) -> bool {
    let ps = paths::parts(above(relative));
    &&& named_above(relative)
    &&& dirs.len() == ps.len()
    &&& forall|i: int| 0 <= i < ps.len() ==> (#[trigger] dirs[i])@ == first_parts(ps, i + 1)
}

/// Why something cannot be renamed, if so.
pub open spec fn rename_fault(from: Seq<char>, to: Seq<char>) -> Option<DaemonError> {
    if paths::last_name(paths::unrooted(from)) is None {
        Some(DaemonError::NoName)
    } else if paths::last_name(paths::unrooted(to)) is None {
        Some(DaemonError::NoName)
    } else if !named_above(to) {
        Some(DaemonError::InvalidComponent)
    } else {
        None
    }
}

/// Whether a plan renames one path to another.
pub open spec fn renames(plan: FilePlan, from: Seq<char>, to: Seq<char>) -> bool {
    &&& plan matches FilePlan::Rename { source, new_above, target }
    &&& is_place(source, from)
    &&& are_above(new_above@, to)
    &&& is_place(target, to)
}

fn plan_rename(from: &str, to: &str) -> (r: Result<FilePlan, DaemonError>)
    ensures
        match rename_fault(from@, to@) {
            Some(e) => r == Err::<FilePlan, DaemonError>(e),
            None => r is Ok && renames(r->Ok_0, from@, to@),
        },
{
    let source = match secure_parent(from) {
        Ok(p) => p,
        Err(e) => return Err(e),
    };
    let target = match secure_parent(to) {
        Ok(p) => p,
        Err(e) => return Err(e),
    };
    match secure_mkdir_parents(to) {
        Ok(dirs) => Ok(FilePlan::Rename { source, new_above: dirs, target }),
        Err(e) => Err(e),
    }
}

/// The path that something has after it was moved into a directory.
pub open spec fn moved_to(destination: Seq<char>, name: Seq<char>) -> Seq<char> {
    crate::nodes::unslashed(destination) + seq!['/'] + name
}

/// Whether a plan is that of a change, or an error the answer to it.
pub open spec fn planned(
    r: Result<FilePlan, DaemonError>,
    op: FileOperation,
    max_upload_mb: u64,
) -> bool {
    match op {
        FileOperation::Mkdir { path } => if paths::last_name(paths::unrooted(path@)) is None {
            r == Err::<FilePlan, DaemonError>(DaemonError::NoName)
        } else if !named_above(path@) {
            r == Err::<FilePlan, DaemonError>(DaemonError::InvalidComponent)
        } else {
            &&& r matches Ok(FilePlan::Mkdir { above, made, reopen })
            &&& are_above(above@, path@)
            &&& is_place(made, path@)
            &&& reopen@ == opened(path@)
        },
        FileOperation::Touch { path } => if !named_above(path@) {
            r == Err::<FilePlan, DaemonError>(DaemonError::InvalidComponent)
        } else {
            &&& r matches Ok(FilePlan::Touch { made_above, touched })
            &&& are_above(made_above@, path@)
            &&& touched@ == opened(path@)
        },
        FileOperation::Rename { from, to } => match rename_fault(from@, to@) {
            Some(e) => r == Err::<FilePlan, DaemonError>(e),
            None => r is Ok && renames(r->Ok_0, from@, to@),
        },
        FileOperation::Copy { from, to } => if !named_above(to@) {
            r == Err::<FilePlan, DaemonError>(DaemonError::InvalidComponent)
        } else {
            &&& r matches Ok(FilePlan::Copy { read, limit, copy_above, written })
            &&& read@ == opened(from@)
            &&& limit == max_upload_mb * 1_048_576
            &&& are_above(copy_above@, to@)
            &&& written@ == opened(to@)
        },
        FileOperation::Move { from, destination } => match paths::last_name(from@) {
            None => r == Err::<FilePlan, DaemonError>(DaemonError::InvalidName),
            Some(name) => match rename_fault(from@, moved_to(destination@, name)) {
                Some(e) => r == Err::<FilePlan, DaemonError>(e),
                None => r is Ok && renames(r->Ok_0, from@, moved_to(destination@, name)),
            },
        },
        FileOperation::Delete { path } => if paths::last_name(paths::unrooted(path@)) is None {
            r == Err::<FilePlan, DaemonError>(DaemonError::NoName)
        } else {
            r matches Ok(FilePlan::Delete { gone }) && is_place(gone, path@)
        },
        FileOperation::Chmod { path, mode } => {
            &&& r matches Ok(FilePlan::Chmod { changed, bits })
            &&& changed@ == opened(path@)
            &&& bits == mode
        },
    }
}

/// Plans a change to a server's files.
pub fn file_operation(config: &DaemonConfig, operation: &FileOperation) -> (r: Result<
    FilePlan,
    DaemonError,
>)
    requires
        operation is Copy ==> config.countable(),
    ensures
        planned(r, *operation, config.max_upload_mb),
{
    match operation {
        FileOperation::Mkdir { path } => {
            let made = match secure_parent(path.as_str()) {
                Ok(p) => p,
                Err(e) => return Err(e),
            };
            match secure_mkdir_parents(path.as_str()) {
                Ok(dirs) => Ok(
                    FilePlan::Mkdir { above: dirs, made, reopen: open_target(path.as_str()) },
                ),
                Err(e) => Err(e),
            }
        },
        FileOperation::Touch { path } => match secure_mkdir_parents(path.as_str()) {
            Ok(dirs) => Ok(
                FilePlan::Touch { made_above: dirs, touched: open_target(path.as_str()) },
            ),
            Err(e) => Err(e),
        },
        FileOperation::Rename { from, to } => plan_rename(from.as_str(), to.as_str()),
        FileOperation::Copy { from, to } => match secure_mkdir_parents(to.as_str()) {
            Ok(dirs) => Ok(
                FilePlan::Copy {
                    read: open_target(from.as_str()),
                    limit: config.max_upload_bytes(),
                    copy_above: dirs,
                    written: open_target(to.as_str()),
                },
            ),
            Err(e) => Err(e),
        },
        FileOperation::Move { from, destination } => {
            let cs = text::chars_of(from.as_str());
            match paths::file_name(cs.as_slice()) {
                None => Err(DaemonError::InvalidName),
                Some(name) => {
                    let mut to: Vec<char> = text::chars_of(
                        crate::nodes::trim_slashes(destination.as_str()).as_str(),
                    );
                    to.push('/');
                    text::push_all(&mut to, name.as_slice());
                    assert(to@ =~= moved_to(destination@, name@));
                    let to_text = text::string_of(to.as_slice());
                    plan_rename(from.as_str(), to_text.as_str())
                },
            }
        },
        FileOperation::Delete { path } => match secure_parent(path.as_str()) {
            Ok(p) => Ok(FilePlan::Delete { gone: p }),
            Err(e) => Err(e),
        },
        FileOperation::Chmod { path, mode } => Ok(
            FilePlan::Chmod { changed: open_target(path.as_str()), bits: *mode },
        ),
    }
}

/// Whether what was opened may be read whole.
pub fn secure_read(is_file: bool, len: u64, max: u64) -> (r: Result<(), DaemonError>)
    ensures
        if !is_file {
            r == Err::<(), DaemonError>(DaemonError::NotRegular)
        } else if len > max {
            r == Err::<(), DaemonError>(DaemonError::ReadLimit)
        } else {
            r is Ok
        },
{
    if !is_file {
        return Err(DaemonError::NotRegular);
    }
    if len > max {
        return Err(DaemonError::ReadLimit);
    }
    Ok(())
}

/// Plans to write a file of so many bytes: the directories above it, and what is
/// opened.
pub fn write_file(config: &DaemonConfig, path: &str, len: u64) -> (r: Result<
    (Vec<String>, String),
    DaemonError,
>)
    requires
        config.countable(),
    ensures
        if len > config.max_upload_mb * 1_048_576 {
            r == Err::<(Vec<String>, String), DaemonError>(DaemonError::UploadTooLarge)
        } else if !named_above(path@) {
            r == Err::<(Vec<String>, String), DaemonError>(DaemonError::InvalidComponent)
        } else {
            r is Ok && are_above((r->Ok_0).0@, path@) && (r->Ok_0).1@ == opened(path@)
        },
{
    if len > config.max_upload_bytes() {
        return Err(DaemonError::UploadTooLarge);
    }
    match secure_mkdir_parents(path) {
        Ok(dirs) => Ok((dirs, open_target(path))),
        Err(e) => Err(e),
    }
}

/// What stands in a directory of a server.
#[derive(Debug)]
pub struct RawRemoteEntry {
    pub name: String,
    pub is_dir: bool,
    pub len: u64,
    /// Seconds since 1970 of its last change; 0 where that is not known.
    pub modified: i64,
    pub mode: u32,
}

/// Path of an entry, as a listing shows it.
pub open spec fn listed_path(root: Seq<char>, dir: Seq<char>, name: Seq<char>) -> Seq<char> {
    let p = paths::joined(dir, name);
    seq!['/'] + (if paths::is_within(p, root) {
        paths::relative_text(p, root)
    } else {
        p
    })
}

/// Whether `e` is the listing's entry for what stands in a directory.
pub open spec fn is_remote_entry(
    root: Seq<char>,
    dir: Seq<char>,
    raw: RawRemoteEntry,
    e: RemoteFileEntry,
) -> bool {
    &&& e.name@ == raw.name@
    &&& e.path@ == listed_path(root, dir, raw.name@)
    &&& e.is_dir == raw.is_dir
    &&& e.size == (if raw.is_dir {
        0
    } else {
        raw.len
    })
    &&& e.modified == raw.modified
    &&& e.mode == raw.mode
}

fn remote_entry(root: &str, dir: &str, raw: &RawRemoteEntry) -> (r: RemoteFileEntry)
    ensures
        is_remote_entry(root@, dir@, *raw, r),
{
    let p = paths::join(dir, raw.name.as_str());
    let rel = match paths::relative_to(p.as_str(), root) {
        Some(v) => v,
        None => text::chars_of(p.as_str()),
    };
    let mut shown: Vec<char> = Vec::new();
    shown.push('/');
    text::push_all(&mut shown, rel.as_slice());
    assert(shown@ =~= listed_path(root@, dir@, raw.name@));
    RemoteFileEntry {
        name: text::copy_of(raw.name.as_str()),
        path: text::string_of(shown.as_slice()),
        is_dir: raw.is_dir,
        size: if raw.is_dir {
            0
        } else {
            raw.len
        },
        modified: raw.modified,
        mode: raw.mode,
    }
}

impl Ranked for RemoteFileEntry {
    /// Directories come first, then names in the order of their small letters.
    open spec fn may_precede(&self, other: &Self) -> bool {
        if self.is_dir != other.is_dir {
            self.is_dir
        } else {
            text::lex_le(text::lowercase_of(self.name@), text::lowercase_of(other.name@))
        }
    }

    fn precedes(&self, other: &Self) -> (r: bool) {
        if self.is_dir != other.is_dir {
            return self.is_dir;
        }
        let a = text::to_lowercase(self.name.as_str());
        let b = text::to_lowercase(other.name.as_str());
        let ac = text::chars_of(a.as_str());
        let bc = text::chars_of(b.as_str());
        text::not_after(ac.as_slice(), bc.as_slice())
    }
}

/// The listing of a directory of a server, given what stands in it: directories
/// first, then by name.
pub fn list_files(root: &str, dir: &str, raw: &Vec<RawRemoteEntry>) -> (r: Vec<RemoteFileEntry>)
    ensures
        exists|es: Seq<RemoteFileEntry>|
            #![trigger order::sorted(es)]
            es.len() == raw@.len() && (forall|i: int|
                0 <= i < raw@.len() ==> is_remote_entry(root@, dir@, raw@[i], #[trigger] es[i]))
                && r@ == order::sorted(es),
{
    let mut out: Vec<RemoteFileEntry> = Vec::new();
    let mut i: usize = 0;
    while i < raw.len()
        invariant
            i <= raw@.len(),
            out@.len() == i,
            forall|j: int| 0 <= j < i ==> is_remote_entry(root@, dir@, raw@[j], #[trigger] out@[j]),
        decreases raw.len() - i,
    {
        out.push(remote_entry(root, dir, &raw[i]));
        i += 1;
    }
    order::sort(out)
}

} // verus!
