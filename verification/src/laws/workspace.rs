//! What becomes of a request for a file of a server.
use crate::archive;
use crate::archive::{ArchiveError, EntryKind};
use crate::laws::archives;
use crate::node_daemon::agent_files;
use crate::paths;
use crate::services::files;
use crate::services::files::{
    ArchiveEntry, Canonical, FileEntry, FileError, Modified, NodeKind, RawEntry, Transfer, Unpack,
    UnpackStep,
};
use crate::text;
use vstd::prelude::*;
use vstd::string::*;

verus! {

/// The first part of a text and what follows its slash.
proof fn lemma_first_piece(s: Seq<char>)
    requires
        s.len() > 0,
    ensures
        ({
            let n = paths::piece_len(s);
            &&& 0 <= n <= s.len()
            &&& archives::slashless(s.take(n))
            &&& n < s.len() ==> s == s.take(n) + seq!['/'] + paths::behind_piece(s)
            &&& n == s.len() ==> s == s.take(n) && paths::behind_piece(s).len() == 0
        }),
    decreases s.len(),
{
    let n = paths::piece_len(s);
    if s[0] != '/' {
        let d = s.drop_first();
        if d.len() > 0 {
            lemma_first_piece(d);
            assert(s.take(n).drop_first() =~= d.take(n - 1));
            assert forall|i: int| 0 <= i < s.take(n).len() implies #[trigger] s.take(n)[i]
                != '/' by {
                if i > 0 {
                    assert(s.take(n)[i] == d.take(n - 1)[i - 1]);
                }
            }
            if n < s.len() {
                assert(d[n - 1] == '/') by {
                    let e = d.take(n - 1) + seq!['/'] + paths::behind_piece(d);
                    assert(d == e);
                    assert(e[n - 1] == '/');
                }
                assert(s[n] == '/');
            }
        }
    } else {
        assert(s.take(0) =~= Seq::<char>::empty());
    }
    if n < s.len() {
        assert(s =~= s.take(n) + seq!['/'] + paths::behind_piece(s));
    } else {
        assert(s =~= s.take(n));
    }
}

/// The parts of a text are its first piece, where that is one, and those that
/// follow.
proof fn lemma_parts_by_piece(s: Seq<char>)
    requires
        s.len() > 0,
    ensures
        ({
            let p = s.take(paths::piece_len(s));
            paths::parts(s) == if paths::counts(p) {
                seq![p] + paths::parts(paths::behind_piece(s))
            } else {
                paths::parts(paths::behind_piece(s))
            }
        }),
{
    lemma_first_piece(s);
    let n = paths::piece_len(s);
    let p = s.take(n);
    let b = paths::behind_piece(s);
    let none = Seq::<char>::empty();
    archives::law_paths_are_their_parts(p, b);
    if n == s.len() {
        assert(b =~= none);
        if paths::counts(p) {
            assert(seq![p] + paths::parts(b) =~= seq![p]);
        } else if p.len() == 0 {
            assert(p =~= none);
        }
    } else if !paths::counts(p) {
        if p.len() == 0 {
            assert(p =~= none);
        }
        assert(paths::parts(p) + paths::parts(b) =~= paths::parts(b));
    }
}

/// What is skipped in front of a part is no part.
proof fn lemma_from_part(s: Seq<char>)
    ensures
        paths::parts(paths::from_part(s)) == paths::parts(s),
        paths::from_part(s).len() > 0 ==> paths::counts(
            paths::from_part(s).take(paths::piece_len(paths::from_part(s))),
        ),
    decreases s.len(),
{
    if s.len() > 0 && !paths::counts(s.take(paths::piece_len(s))) {
        paths::lemma_piece_len(s);
        lemma_parts_by_piece(s);
        lemma_from_part(paths::behind_piece(s));
    }
}

/// What stands behind the first parts of a path holds the others.
proof fn lemma_behind_parts(s: Seq<char>, n: nat)
    requires
        n <= paths::parts(s).len(),
    ensures
        paths::parts(paths::behind_parts(s, n)) == paths::parts(s).skip(n as int),
    decreases n,
{
    lemma_from_part(s);
    if n == 0 {
        assert(paths::parts(s).skip(0) =~= paths::parts(s));
    } else {
        let f = paths::from_part(s);
        if f.len() == 0 {
            archives::law_paths_are_their_parts(f, f);
            assert(f =~= Seq::<char>::empty());
            assert(false);
        }
        lemma_parts_by_piece(f);
        let b = paths::behind_piece(f);
        let p = f.take(paths::piece_len(f));
        assert(paths::parts(s) == seq![p] + paths::parts(b));
        lemma_behind_parts(b, (n - 1) as nat);
        assert(paths::parts(s).skip(n as int) =~= paths::parts(b).skip(n - 1));
    }
}

/// The last piece of a text and what stands before its slash.
proof fn lemma_last_piece(s: Seq<char>)
    requires
        s.len() > 0,
    ensures
        ({
            let n = s.len() - paths::tail_len(s);
            &&& 0 <= n <= s.len()
            &&& archives::slashless(s.skip(n))
            &&& n > 0 ==> s == paths::without_tail(s) + seq!['/'] + s.skip(n)
            &&& n == 0 ==> s == s.skip(n) && paths::without_tail(s).len() == 0
        }),
    decreases s.len(),
{
    let n = s.len() - paths::tail_len(s);
    if s.last() != '/' {
        let d = s.drop_last();
        if d.len() > 0 {
            lemma_last_piece(d);
            assert(d.len() - paths::tail_len(d) == n);
            assert forall|i: int| 0 <= i < s.skip(n).len() implies #[trigger] s.skip(n)[i]
                != '/' by {
                if i < d.skip(n).len() {
                    assert(s.skip(n)[i] == d.skip(n)[i]);
                } else {
                    assert(s.skip(n)[i] == s.last());
                }
            }
            if n > 0 {
                assert(d[n - 1] == '/') by {
                    let e = paths::without_tail(d) + seq!['/'] + d.skip(n);
                    assert(d == e);
                    assert(paths::without_tail(d).len() == n - 1);
                    assert(e[n - 1] == '/');
                }
                assert(s[n - 1] == '/');
            }
        } else {
            assert(s.skip(0)[0] == s.last());
        }
    } else {
        assert(s.skip(n).len() == 0);
    }
    if n > 0 {
        assert(s =~= paths::without_tail(s) + seq!['/'] + s.skip(n));
    } else {
        assert(s =~= s.skip(n));
    }
}

/// What is dropped behind a part is no part.
proof fn lemma_to_part(s: Seq<char>)
    ensures
        paths::parts(paths::to_part(s)) == paths::parts(s),
    decreases s.len(),
{
    if s.len() > 0 && !paths::counts(s.skip(s.len() - paths::tail_len(s))) {
        paths::lemma_tail_len(s);
        lemma_last_piece(s);
        let n = s.len() - paths::tail_len(s);
        let p = s.skip(n);
        let w = paths::without_tail(s);
        let none = Seq::<char>::empty();
        archives::law_paths_are_their_parts(w, p);
        archives::law_paths_are_their_parts(p, none);
        if p.len() == 0 {
            assert(p =~= none);
        }
        assert(paths::parts(p).len() == 0);
        if n > 0 {
            assert(paths::parts(w) + paths::parts(p) =~= paths::parts(w));
        } else {
            assert(w =~= none);
        }
        lemma_to_part(w);
    }
}

/// A path below another is told by the parts that it has behind it.
pub proof fn law_relative_path(path: Seq<char>, base: Seq<char>)
    requires
        paths::is_within(path, base),
    ensures
        paths::parts(paths::relative_text(path, base)) == paths::parts(path).skip(
            paths::parts(base).len() as int,
        ),
{
    lemma_behind_parts(path, paths::parts(base).len());
    lemma_to_part(paths::behind_parts(path, paths::parts(base).len()));
}

/// A listing shows an entry by its path below the root of its server.
pub proof fn law_shown_path(root: Seq<char>, dir: Seq<char>, name: Seq<char>)
    requires
        paths::is_within(dir, root),
        dir.len() > 0,
        paths::is_name(name),
    ensures
        paths::parts(agent_files::listed_path(root, dir, name)) == paths::parts(
            dir,
        ).skip(paths::parts(root).len() as int).push(name),
{
    let p = paths::joined(dir, name);
    let none = Seq::<char>::empty();
    assert(name[0] != '/') by {
        assert(!text::mentions(name, '/'));
        if name[0] == '/' {
            assert(text::mentions(name, '/'));
        }
    }
    assert forall|i: int| 0 <= i < name.len() implies #[trigger] name[i] != '/' by {
        if name[i] == '/' {
            assert(text::mentions(name, '/'));
        }
    }
    archives::law_joining_paths(dir, name);
    archives::law_paths_are_their_parts(name, none);
    assert(paths::parts(p) =~= paths::parts(dir).push(name));
    let b = paths::parts(root);
    assert(b.is_prefix_of(paths::parts(p))) by {
        assert(b =~= paths::parts(dir).subrange(0, b.len() as int));
        assert(paths::parts(p).subrange(0, b.len() as int) =~= b);
    }
    assert(p[0] == dir[0]);
    assert(paths::is_within(p, root));
    law_relative_path(p, root);
    let rel = paths::relative_text(p, root);
    archives::law_paths_are_their_parts(none, rel);
    assert(none + seq!['/'] + rel =~= seq!['/'] + rel);
    assert(Seq::<Seq<char>>::empty() + paths::parts(rel) =~= paths::parts(rel));
    assert(paths::parts(p).skip(b.len() as int) =~= paths::parts(dir).skip(b.len() as int).push(
        name,
    ));
}

/// The real place of a path is where it is known to be. Where only what it lies in
/// is known, it is what is missing behind that; and where nothing is known, it is
/// the path itself.
pub proof fn law_real_place(p: Seq<char>, c: Canonical, k: int)
    ensures
        (forall|j: int| 0 <= j < c.known@.len() ==> #[trigger] c.known@[j] is None)
            ==> files::real_path(p, c) == p,
        c.known@.len() > 0 && c.known@[0] is Some ==> files::real_path(p, c) == c.known@[0]->0@,
        0 < k < c.known@.len() && k <= paths::parts(p).len() && c.known@[k] is Some && (forall|
            j: int,
        |
            0 <= j < k ==> #[trigger] c.known@[j] is None) ==> files::real_path(p, c)
            == paths::joined(
            c.known@[k]->0@,
            text::joined(
                paths::parts(p).subrange(paths::parts(p).len() - k, paths::parts(p).len() as int),
                seq!['/'],
            ),
        ),
{
    let known = c.known@;
    if forall|j: int| 0 <= j < known.len() ==> #[trigger] known[j] is None {
        lemma_missing(known, 0, known.len() as int);
    }
    if 0 < k < known.len() && known[k] is Some && (forall|j: int|
        0 <= j < k ==> #[trigger] known[j] is None) {
        lemma_missing(known, 0, k);
        let ps = paths::parts(p);
        if k <= ps.len() {
            assert(ps.skip(ps.len() - k) =~= ps.subrange(ps.len() - k, ps.len() as int));
        }
    }
}

/// How many parts of a path are missing.
proof fn lemma_missing(known: Seq<Option<String>>, from: int, k: int)
    requires
        0 <= from <= k <= known.len(),
        k < known.len() ==> known[k] is Some,
        forall|j: int| 0 <= j < k ==> #[trigger] known[j] is None,
    ensures
        files::missing_parts(known, from) == k,
    decreases k - from,
{
    if from < k {
        assert(known[from] is None);
        lemma_missing(known, from + 1, k);
    }
}

/// A transfer leads from the name of one path, in the directory that holds it, to
/// the name of the other.
pub proof fn law_transfers(
    t: Transfer,
    dir: Seq<char>,
    name: Seq<char>,
    to_dir: Seq<char>,
    to_name: Seq<char>,
)
    requires
        paths::is_plain(dir) && dir.len() > 0 && paths::is_name(name),
        paths::is_plain(to_dir) && to_dir.len() > 0 && paths::is_name(to_name),
        files::is_transfer(t, dir + seq!['/'] + name, seq!['/'] + to_dir + seq!['/'] + to_name),
    ensures
        t.from_dir@ == dir && t.from_name@ == name,
        t.to_dir@ == to_dir && t.to_name@ == to_name,
{
    let a = dir + seq!['/'] + name;
    let b = to_dir + seq!['/'] + to_name;
    paths::lemma_plain_child(dir, name);
    paths::lemma_plain_child(to_dir, to_name);
    paths::lemma_plain_parent(a);
    paths::lemma_plain_parent(b);
    archives::law_requests_start_at_the_root(b);
    assert(seq!['/'] + to_dir + seq!['/'] + to_name =~= seq!['/'] + b);
    assert(paths::parts(dir).push(name).drop_last() =~= paths::parts(dir));
    assert(paths::parts(to_dir).push(to_name).drop_last() =~= paths::parts(to_dir));
}

/// Two plain paths are one place if and only if they are the same.
pub proof fn law_one_place(a: Seq<char>, b: Seq<char>)
    requires
        paths::is_plain(a) && a.len() > 0,
        paths::is_plain(b) && b.len() > 0,
    ensures
        files::same_place(a, b) <==> a == b,
{
    paths::lemma_plain_parent(a);
    paths::lemma_plain_parent(b);
    if files::same_place(a, b) {
        let pa = paths::parts(a);
        let pb = paths::parts(b);
        lemma_firsts_count(a);
        lemma_firsts_count(b);
        paths::lemma_path_text(false, pa.drop_last());
        paths::lemma_path_text(false, pb.drop_last());
        assert(pa.drop_last() == pb.drop_last());
        assert(pa =~= pa.drop_last().push(pa.last()));
        assert(pb =~= pb.drop_last().push(pb.last()));
    }
}

/// The first parts of a path are parts.
proof fn lemma_firsts_count(s: Seq<char>)
    requires
        paths::parts(s).len() > 0,
    ensures
        paths::all_count(paths::parts(s).drop_last()),
{
    paths::lemma_parts_count(s);
    let ps = paths::parts(s);
    assert forall|i: int| 0 <= i < ps.drop_last().len() implies paths::counts(
        #[trigger] ps.drop_last()[i],
    ) && !text::mentions(ps.drop_last()[i], '/') by {
        assert(ps.drop_last()[i] == ps[i]);
    }
}

/// An entry lands part by part: a name goes down, two dots go up, and neither a link
/// on the way nor the top is passed.
pub proof fn law_landing(
    at: Seq<Seq<char>>,
    part: Seq<char>,
    rest: Seq<Seq<char>>,
    link: bool,
    links: Seq<bool>,
)
    ensures
        files::landing(at, Seq::empty(), links) == Ok::<Seq<Seq<char>>, FileError>(at),
        part == seq!['.', '.'] && at.len() > 0 ==> files::landing(at, seq![part] + rest, links)
            == files::landing(at.drop_last(), rest, links),
        part == seq!['.', '.'] && at.len() == 0 ==> files::landing(at, seq![part] + rest, links)
            == Err::<Seq<Seq<char>>, FileError>(FileError::ArchiveEscapes),
        part != seq!['.', '.'] && !link ==> files::landing(
            at,
            seq![part] + rest,
            seq![link] + links,
        ) == files::landing(at.push(part), rest, links),
        part != seq!['.', '.'] && link ==> files::landing(
            at,
            seq![part] + rest,
            seq![link] + links,
        ) == Err::<Seq<Seq<char>>, FileError>(FileError::ArchiveSymlink),
{
    let ps = seq![part] + rest;
    let ls = seq![link] + links;
    assert(ps[0] == part);
    assert(ps.drop_first() =~= rest);
    assert(ls[0] == link);
    assert(ls.drop_first() =~= links);
}

/// An entry with a root is refused, and so is one that lands outside.
pub proof fn law_entries_land_inside(dest: Seq<char>, name: Seq<char>, links: Seq<bool>)
    ensures
        name.len() > 0 && name[0] == '/' ==> files::entry_landing(dest, name, links) == Err::<
            Seq<Seq<char>>,
            FileError,
        >(FileError::ArchiveAbsolute),
        files::entry_landing(dest, name, links) matches Ok(out) ==> !(name.len() > 0 && name[0]
            == '/') && paths::parts(dest).len() <= out.len() && out.take(
            paths::parts(dest).len() as int,
        ) == paths::parts(dest) && files::landing(paths::parts(dest), paths::parts(name), links)
            == Ok::<Seq<Seq<char>>, FileError>(out),
        !(name.len() > 0 && name[0] == '/') && (files::landing(
            paths::parts(dest),
            paths::parts(name),
            links,
        ) matches Ok(out) && paths::parts(dest).is_prefix_of(out)) ==> files::entry_landing(
            dest,
            name,
            links,
        ) is Ok,
{
    if files::entry_landing(dest, name, links) is Ok {
        let out = files::entry_landing(dest, name, links)->Ok_0;
        let b = paths::parts(dest);
        assert(out.take(b.len() as int) =~= out.subrange(0, b.len() as int));
    }
}

/// An entry of an archive is refused for the first that is wrong with it: one too
/// many, a link, a place outside, too large, or no name.
pub proof fn law_refused_entries(u: Unpack, e: ArchiveEntry, links: Seq<bool>)
    ensures
        ({
            let f = files::entry_error(u, e, links);
            let x = u.extraction;
            let full = x.count == x.limits.max_entries;
            let place = files::entry_landing(u.dest@, e.name@, links);
            &&& full ==> f == Some(
                FileError::Archive(ArchiveError::TooManyEntries { max: x.limits.max_entries }),
            )
            &&& !full && e.kind == EntryKind::Link ==> f == Some(
                FileError::Archive(ArchiveError::LinkEntry),
            )
            &&& !full && e.kind != EntryKind::Link && place is Err ==> f == Some(place->Err_0)
            &&& !full && e.kind == EntryKind::Directory && place is Ok ==> f is None
            &&& !full && e.kind == EntryKind::File && place is Ok && !archive::fits(x, e.declared)
                ==> f == Some(FileError::Archive(ArchiveError::TooLarge))
            &&& f is None ==> !full && e.kind != EntryKind::Link && place is Ok
        }),
{
}

/// An entry that is taken is written where it lands: a directory as one, a file into
/// its directory under its name and within what is left.
pub proof fn law_taken_entries(u: Unpack, e: ArchiveEntry, rel: Seq<char>, links: Seq<bool>, s: UnpackStep)
    requires
        paths::is_plain(rel),
        rel.len() > 0,
        !(e.name@.len() > 0 && e.name@[0] == '/'),
        paths::parts(e.name@) == paths::parts(rel),
        !links.contains(true),
        !u.backslashes,
        files::is_unpack_step(u, e, files::entry_landing(u.dest@, e.name@, links)->Ok_0, s),
    ensures
        e.kind == EntryKind::Directory ==> (s matches UnpackStep::Directory { rel: r } && r@ == rel),
        e.kind == EntryKind::File ==> (s matches UnpackStep::File { dir, name, cap }
            && paths::parts(rel).last() == name@ && files::child_path(dir@, name@) == rel && cap
            == archive::read_cap(u.extraction)),
{
    files::law_packed_name_comes_back(u, rel, e.name@, links);
    paths::lemma_plain_parent(rel);
}

/// An entry of a listing tells what is there.
pub proof fn law_listed_entries(root: Seq<char>, dir: Seq<char>, raw: RawEntry, e: FileEntry)
    requires
        files::is_entry(root, dir, raw, e),
    ensures
        e.name@ == raw.name@ && e.mode == raw.mode,
        e.is_dir <==> raw.kind == NodeKind::Directory,
        e.is_symlink <==> raw.kind == NodeKind::Symlink,
        e.is_dir ==> e.size == 0 && e.mime@ == "inode/directory"@,
        !e.is_dir ==> e.size == raw.len && e.mime@ == files::mime_of(raw.name@),
        raw.modified is Unknown ==> e.modified@.len() == 0,
        raw.modified matches Modified::At(t) ==> e.modified@ == text::decimal(t as int),
        e.extension@ == files::extension_of(raw.name@),
        e.path@.len() > 0 && e.path@[0] == '/',
{
}

/// A listing shows a path with slashes between its parts, whichever way they lean.
pub proof fn law_shown_path_has_slashes(root: Seq<char>, dir: Seq<char>, name: Seq<char>)
    ensures
        files::shown_path(root, dir, name) == text::swapped(
            agent_files::listed_path(root, dir, name),
            '\\',
            '/',
        ),
{
    assert(files::shown_path(root, dir, name) =~= text::swapped(
        agent_files::listed_path(root, dir, name),
        '\\',
        '/',
    ));
}

} // verus!
