//! What paths are, what an archive takes in, and what it gives back.
use crate::archive;
use crate::archive::{EntryKind, Extraction};
use crate::laws::rendering::blank;
use crate::laws::texts;
use crate::order;
use crate::order::Ranked;
use crate::paths;
use crate::services::files;
use crate::services::files::{FileEntry, NodeKind, OpenedAs, PackAction, SeenEntry};
use crate::text;
use vstd::prelude::*;
use vstd::string::*;

verus! {

/// Whether a text holds no slash.
pub open spec fn slashless(s: Seq<char>) -> bool {
    forall|i: int| 0 <= i < s.len() ==> #[trigger] s[i] != '/'
}

/// A path is its parts: a slash keeps two paths apart, and a text without one is a
/// part, unless it is empty or a dot.
pub proof fn law_paths_are_their_parts(a: Seq<char>, b: Seq<char>)
    ensures
        paths::parts(a + seq!['/'] + b) == paths::parts(a) + paths::parts(b),
        slashless(a) && a.len() > 0 && a != seq!['.'] ==> paths::parts(a) == seq![a],
        paths::parts(Seq::empty()) == Seq::<Seq<char>>::empty(),
        paths::parts(seq!['.']) == Seq::<Seq<char>>::empty(),
{
    paths::lemma_parts_of_both(a, b);
    assert(a + seq!['/'] + b =~= a.push('/') + b);
    let none = Seq::<char>::empty();
    let dot = seq!['.'];
    let keep = |p: Seq<char>| paths::counts(p);
    texts::law_splitting(none, '/', none);
    texts::law_splitting(dot, '/', none);
    lemma_one_kept(none, keep);
    lemma_one_kept(dot, keep);
    if slashless(a) && a.len() > 0 && a != dot {
        texts::law_splitting(a, '/', none);
        lemma_one_kept(a, keep);
    }
}

proof fn lemma_one_kept(x: Seq<char>, keep: spec_fn(Seq<char>) -> bool)
    ensures
        seq![x].filter(keep) == if keep(x) {
            seq![x]
        } else {
            Seq::empty()
        },
{
    reveal_with_fuel(Seq::filter, 3);
    assert(seq![x].drop_last() =~= Seq::<Seq<char>>::empty());
    assert(seq![x].last() == x);
    let none = Seq::<Seq<char>>::empty();
    assert(none.filter(keep) =~= none);
    assert(none.push(x) =~= seq![x]);
}

/// A path that is joined to another stands behind it, with one slash between; one
/// with a root stands alone.
pub proof fn law_joining_paths(base: Seq<char>, part: Seq<char>)
    ensures
        part.len() > 0 && part[0] == '/' ==> paths::joined(base, part) == part,
        !(part.len() > 0 && part[0] == '/') ==> paths::parts(paths::joined(base, part))
            == paths::parts(base) + paths::parts(part),
        !(part.len() > 0 && part[0] == '/') && base.len() > 0 && base.last() != '/'
            ==> paths::joined(base, part) == base + seq!['/'] + part,
        !(part.len() > 0 && part[0] == '/') && base.len() > 0 && base.last() == '/'
            ==> paths::joined(base, part) == base + part,
{
    if !(part.len() > 0 && part[0] == '/') {
        paths::lemma_joined_parts(base, part);
    }
}

/// Slashes in front of a request are dropped, and nothing else.
pub proof fn law_requests_start_at_the_root(s: Seq<char>)
    ensures
        paths::unrooted(seq!['/'] + s) == paths::unrooted(s),
        !(s.len() > 0 && s[0] == '/') ==> paths::unrooted(s) == s,
{
    assert((seq!['/'] + s).drop_first() =~= s);
}

/// A path leads up exactly where one of its parts is two dots.
pub proof fn law_leading_up(a: Seq<char>, b: Seq<char>, s: Seq<char>, k: int)
    ensures
        files::leads_up(a + seq!['/', '.', '.', '/'] + b),
        files::leads_up(seq!['.', '.']),
        files::leads_up(s) ==> paths::parts(s).contains(seq!['.', '.']),
        0 <= k < paths::parts(s).len() && paths::parts(s)[k] == seq!['.', '.'] ==> files::leads_up(s),
{
    let up = seq!['.', '.'];
    law_paths_are_their_parts(up, b);
    law_paths_are_their_parts(a, up + seq!['/'] + b);
    assert(a + seq!['/', '.', '.', '/'] + b =~= a + seq!['/'] + (up + seq!['/'] + b));
    let ps = paths::parts(a + seq!['/', '.', '.', '/'] + b);
    assert(ps =~= paths::parts(a) + (seq![up] + paths::parts(b)));
    assert(ps[paths::parts(a).len() as int] == up);
    assert(paths::parts(up)[0] == up);
}

/// A path lies within another exactly where it has its root and goes on from its
/// parts.
pub proof fn law_lying_within(base: Seq<char>, path: Seq<char>, k: int)
    ensures
        paths::is_within(path, base) && 0 <= k < paths::parts(base).len() ==> k < paths::parts(
            path,
        ).len() && paths::parts(path)[k] == paths::parts(base)[k],
        paths::is_within(path, base) ==> (path.len() > 0 && path[0] == '/') == (base.len() > 0
            && base[0] == '/'),
        paths::is_within(base, base),
        (path.len() > 0 && path[0] == '/') == (base.len() > 0 && base[0] == '/') && paths::parts(
            base,
        ).len() <= paths::parts(path).len() && paths::parts(path).take(
            paths::parts(base).len() as int,
        ) == paths::parts(base) ==> paths::is_within(path, base),
{
    let b = paths::parts(base);
    let p = paths::parts(path);
    if paths::is_within(path, base) && 0 <= k < b.len() {
        assert(b[k] == p.subrange(0, b.len() as int)[k]);
    }
    assert(b.subrange(0, b.len() as int) =~= b);
    if b.len() <= p.len() {
        assert(p.subrange(0, b.len() as int) =~= p.take(b.len() as int));
    }
}

/// A path that some pattern matches whole is excluded, whatever the pattern holds.
pub proof fn law_matched_path_is_excluded(patterns: Seq<Seq<char>>, rel: Seq<char>, i: int)
    requires
        0 <= i < patterns.len(),
        files::glob_matches(patterns[i], rel),
    ensures
        files::excluded(patterns, rel),
{
    assert(files::pattern_hits(
        patterns[i],
        files::glob_matches(patterns[i], rel),
        files::glob_matches(patterns[i], files::base_name(rel)),
    ));
}

proof fn lemma_base_name(dir: Seq<char>, base: Seq<char>)
    requires
        slashless(base),
    ensures
        files::base_name(base) == base,
        files::base_name(dir + seq!['/'] + base) == base,
{
    texts::law_splitting(base, '/', Seq::empty());
    texts::law_splitting(dir, '/', base);
    let all = text::split_on(dir, '/') + seq![base];
    assert(all.last() == base);
}

/// A pattern without a slash excludes what it matches at any depth.
pub proof fn law_matched_name_is_excluded_anywhere(
    patterns: Seq<Seq<char>>,
    dir: Seq<char>,
    base: Seq<char>,
    i: int,
)
    requires
        0 <= i < patterns.len(),
        slashless(patterns[i]),
        slashless(base),
        files::glob_matches(patterns[i], base),
    ensures
        files::excluded(patterns, base),
        files::excluded(patterns, dir + seq!['/'] + base),
{
    let rel = dir + seq!['/'] + base;
    lemma_base_name(dir, base);
    assert(!text::mentions(patterns[i], '/'));
    assert(files::pattern_hits(
        patterns[i],
        files::glob_matches(patterns[i], rel),
        files::glob_matches(patterns[i], files::base_name(rel)),
    ));
    law_matched_path_is_excluded(patterns, base, i);
}

/// What is excluded is matched: whole by some pattern, or in its last part by one
/// without a slash. What no pattern matches stays.
pub proof fn law_only_matched_paths_are_excluded(
    patterns: Seq<Seq<char>>,
    dir: Seq<char>,
    base: Seq<char>,
) -> (i: int)
    requires
        slashless(base),
    ensures
        files::excluded(patterns, dir + seq!['/'] + base) ==> 0 <= i < patterns.len() && (
        files::glob_matches(patterns[i], dir + seq!['/'] + base) || slashless(patterns[i])
            && files::glob_matches(patterns[i], base)),
        (forall|k: int| 0 <= k < patterns.len() ==> !files::glob_matches(#[trigger] patterns[k], base))
            ==> !files::excluded(patterns, base),
        !files::excluded(Seq::empty(), base),
{
    let rel = dir + seq!['/'] + base;
    lemma_base_name(dir, base);
    if files::excluded(patterns, rel) {
        let i = choose|i: int|
            0 <= i < patterns.len() && files::pattern_hits(
                #[trigger] patterns[i],
                files::glob_matches(patterns[i], rel),
                files::glob_matches(patterns[i], files::base_name(rel)),
            );
        if !files::glob_matches(patterns[i], rel) {
            assert forall|k: int| 0 <= k < patterns[i].len() implies #[trigger] patterns[i][k]
                != '/' by {
                assert(!text::mentions(patterns[i], '/'));
            }
        }
        i
    } else {
        0
    }
}

proof fn lemma_line_patterns_both(a: Seq<Seq<char>>, b: Seq<Seq<char>>)
    ensures
        files::line_patterns(a + b) == files::line_patterns(a) + files::line_patterns(b),
    decreases b.len(),
{
    if b.len() == 0 {
        assert(a + b =~= a);
        assert(files::line_patterns(a) + files::line_patterns(b) =~= files::line_patterns(a));
    } else {
        lemma_line_patterns_both(a, b.drop_last());
        assert((a + b).drop_last() =~= a + b.drop_last());
        assert((a + b).last() == b.last());
        assert(files::line_patterns(a + b) =~= files::line_patterns(a) + files::line_patterns(b));
    }
}

/// A list of patterns is read line by line.
pub proof fn law_patterns_are_read_line_by_line(a: Seq<char>, b: Seq<char>)
    ensures
        files::patterns_of(a + seq!['\n'] + b) == files::patterns_of(a) + files::patterns_of(b),
{
    texts::law_splitting(a, '\n', b);
    lemma_line_patterns_both(text::split_on(a, '\n'), text::split_on(b, '\n'));
}

proof fn lemma_one_line(line: Seq<char>)
    requires
        forall|i: int| 0 <= i < line.len() ==> #[trigger] line[i] != '\n',
    ensures
        files::patterns_of(line) == (if text::trimmed(line).len() > 0 && text::trimmed(line)[0]
            != '#' {
            seq![files::line_pattern(text::trimmed(line))]
        } else {
            Seq::empty()
        }),
{
    texts::law_splitting(line, '\n', Seq::empty());
    let one = seq![line];
    assert(one.drop_last() =~= Seq::<Seq<char>>::empty());
    assert(one.last() == line);
    assert(files::line_patterns(Seq::empty()) =~= Seq::<Seq<char>>::empty());
    assert(files::patterns_of(line) =~= (if text::trimmed(line).len() > 0 && text::trimmed(line)[0]
        != '#' {
        seq![files::line_pattern(text::trimmed(line))]
    } else {
        Seq::empty()
    }));
}

/// A line holds its pattern, without the white space around it, a leading `./` and a
/// slash at its end; blank lines and comments hold none.
pub proof fn law_line_holds_its_pattern(a: Seq<char>, m: Seq<char>, b: Seq<char>)
    requires
        blank(a),
        blank(b),
        forall|i: int| 0 <= i < a.len() ==> #[trigger] a[i] != '\n',
        forall|i: int| 0 <= i < m.len() ==> #[trigger] m[i] != '\n',
        forall|i: int| 0 <= i < b.len() ==> #[trigger] b[i] != '\n',
        m.len() > 0 ==> !text::is_space(m[0]) && !text::is_space(m.last()),
    ensures
        m.len() == 0 || m[0] == '#' ==> files::patterns_of(a + m + b) == Seq::<Seq<char>>::empty(),
        m.len() > 0 && m[0] != '#' && m[0] != '.' && m.last() != '/' ==> files::patterns_of(
            a + m + b,
        ) == seq![m],
        m.len() > 0 && m[0] != '#' && m[0] != '.' && m.last() == '/' ==> files::patterns_of(
            a + m + b,
        ) == seq![m.drop_last()],
        m.len() > 2 && m[0] == '.' && m[1] == '/' && m.last() != '/' ==> files::patterns_of(
            a + m + b,
        ) == seq![m.skip(2)],
        m.len() > 1 && m[0] == '.' && m[1] != '/' && m.last() != '/' ==> files::patterns_of(
            a + m + b,
        ) == seq![m],
{
    let line = a + m + b;
    texts::law_trimming_takes_the_ends_off(a, m, b);
    assert forall|i: int| 0 <= i < line.len() implies #[trigger] line[i] != '\n' by {
        if i < a.len() {
            assert(line[i] == a[i]);
        } else if i < a.len() + m.len() {
            assert(line[i] == m[i - a.len()]);
        } else {
            assert(line[i] == b[i - a.len() - m.len()]);
        }
    }
    lemma_one_line(line);
    if m.len() >= 2 {
        assert(m.take(2)[0] == m[0] && m.take(2)[1] == m[1]);
        if m[0] == '.' && m[1] == '/' {
            assert(m.take(2) =~= seq!['.', '/']);
        }
        if m.len() > 2 {
            assert(m.skip(2).last() == m.last());
        }
    }
    if text::begins_with(m, seq!['.', '/']) {
        assert(m.take(2)[0] == '.' && m.take(2)[1] == '/');
    }
}

/// An archive takes in every file and directory that is not excluded and not the
/// archive itself, under its own name below the directory it is in, with its size,
/// its time and its permissions. It takes in nothing else.
pub proof fn law_archive_takes_in_what_is_not_excluded(
    base: Seq<char>,
    device: u64,
    inode: u64,
    patterns: Seq<Seq<char>>,
    e: SeenEntry,
    a: PackAction,
)
    requires
        files::is_pack_action(base, device, inode, patterns, e, a),
        e.name@ != seq!['.'],
        e.name@ != seq!['.', '.'],
    ensures
        ({
            let path = if base.len() == 0 {
                e.name@
            } else {
                base + seq!['/'] + e.name@
            };
            match e.opened {
                OpenedAs::Link => a is Skip,
                OpenedAs::Failed => a is Fail,
                OpenedAs::Node { device: d, inode: n, kind, len, mode, mtime } => if (d == device
                    && n == inode) || files::excluded(patterns, path) || !(kind == NodeKind::File
                    || kind == NodeKind::Directory) {
                    a is Skip
                } else if kind == NodeKind::File {
                    a matches PackAction::File { rel, len: l, mode: m, mtime: t } && rel@ == path
                        && l == len && m == mode & 0o777 && t == mtime
                } else {
                    a matches PackAction::Directory { rel, mode: m, mtime: t } && rel@ == path && m
                        == mode & 0o777 && t == mtime
                },
            }
        }),
{
    reveal_strlit(".");
    reveal_strlit("..");
    assert("."@ =~= seq!['.']);
    assert(".."@ =~= seq!['.', '.']);
}

/// Permissions keep their nine bits, and lose all others.
pub proof fn law_permissions_are_kept(mode: u32)
    ensures
        mode <= 0o777 ==> archive::plain_mode(mode) == mode,
        archive::plain_mode(mode) == mode % 512,
{
    assert(mode <= 0o777 ==> mode & 0o777 == mode) by (bit_vector);
    assert(mode & 0o777 == mode % 512) by (bit_vector);
}

/// An entry of a tar archive is a link, a directory or a file by its type.
pub proof fn law_entry_types(t: u8)
    ensures
        (archive::kind_of_type(t) == EntryKind::Link) == (t == 49 || t == 50),
        (archive::kind_of_type(t) == EntryKind::Directory) == (t == 53),
        archive::kind_of_type(0) == EntryKind::File && archive::kind_of_type(48) == EntryKind::File,
{
}

/// What is unpacked fits where it is no larger than a file may be and the total stays
/// within its limit; one byte more is read than may be kept, so that an excess shows.
pub proof fn law_unpacked_sizes(x: Extraction, size: u64)
    requires
        x.wf(),
        x.limits.max_total < u64::MAX,
        x.limits.max_file < u64::MAX,
    ensures
        archive::fits(x, size) <==> size <= x.limits.max_file && x.total + size
            <= x.limits.max_total,
        archive::fits(x, size) ==> archive::total_with(x, size) == x.total + size && size
            < archive::read_cap(x),
        archive::read_cap(x) <= x.limits.max_file + 1,
        archive::read_cap(x) <= x.limits.max_total - x.total + 1,
        archive::read_cap(x) == x.limits.max_file + 1 || archive::read_cap(x) == x.limits.max_total
            - x.total + 1,
        archive::standard_limits().max_entries == 10_000,
        archive::standard_limits().max_file == 512 * 1024 * 1024,
        archive::standard_limits().max_total == 2 * 1024 * 1024 * 1024,
{
}

/// A listing has its directories first, and then its files, each by the small
/// letters of their names.
pub proof fn law_directories_lead_a_listing(es: Seq<FileEntry>, i: int, j: int)
    requires
        0 <= i < j < order::sorted(es).len(),
    ensures
        order::sorted(es)[j].is_dir ==> order::sorted(es)[i].is_dir,
        order::sorted(es)[j].is_dir == order::sorted(es)[i].is_dir ==> text::lex_le(
            text::lowercase_of(order::sorted(es)[i].name@),
            text::lowercase_of(order::sorted(es)[j].name@),
        ),
        order::sorted(es).to_multiset() == es.to_multiset(),
{
    files::law_listing_is_ordered(es);
    assert(order::sorted(es)[i].may_precede(&order::sorted(es)[j]));
}

proof fn lemma_last_dot(a: Seq<char>, b: Seq<char>)
    requires
        forall|i: int| 0 <= i < b.len() ==> #[trigger] b[i] != '.',
    ensures
        files::last_dot(a.push('.') + b) == a.len(),
        files::last_dot(b) == -1,
    decreases b.len(),
{
    if b.len() == 0 {
        assert(a.push('.') + b =~= a.push('.'));
    } else {
        let less = b.drop_last();
        assert forall|i: int| 0 <= i < less.len() implies #[trigger] less[i] != '.' by {
            assert(less[i] == b[i]);
        }
        lemma_last_dot(a, less);
        assert((a.push('.') + b).drop_last() =~= a.push('.') + less);
        assert(b[b.len() - 1] != '.');
    }
}

/// The extension of a file is what follows the last dot of its name; a name without a
/// dot, or with one in front alone, has none.
pub proof fn law_extensions(stem: Seq<char>, ext: Seq<char>)
    requires
        slashless(stem),
        slashless(ext),
        forall|i: int| 0 <= i < ext.len() ==> #[trigger] ext[i] != '.',
        ext.len() > 0,
    ensures
        stem.len() > 0 ==> files::extension_of(stem + seq!['.'] + ext) == ext,
        files::extension_of(ext) == Seq::<char>::empty(),
        files::extension_of(seq!['.'] + ext) == Seq::<char>::empty(),
{
    let whole = stem + seq!['.'] + ext;
    assert(whole =~= stem.push('.') + ext);
    lemma_last_dot(stem, ext);
    assert(slashless(whole)) by {
        assert forall|i: int| 0 <= i < whole.len() implies #[trigger] whole[i] != '/' by {
            if i < stem.len() {
                assert(whole[i] == stem[i]);
            } else if i > stem.len() {
                assert(whole[i] == ext[i - stem.len() - 1]);
            }
        }
    }
    assert(whole.last() == ext.last() && ext[ext.len() - 1] != '.');
    assert(whole != seq!['.'] && whole != seq!['.', '.']) by {
        assert(seq!['.'].last() == '.' && seq!['.', '.'].last() == '.');
    }
    law_paths_are_their_parts(whole, ext);
    assert(whole.skip(stem.len() as int + 1) =~= ext);
    assert(ext != seq!['.'] && ext != seq!['.', '.']) by {
        assert(ext[0] != '.');
        assert(seq!['.'][0] == '.' && seq!['.', '.'][0] == '.');
    }
    law_paths_are_their_parts(ext, ext);
    let hidden = seq!['.'] + ext;
    let none = Seq::<char>::empty();
    assert(hidden =~= none.push('.') + ext);
    lemma_last_dot(none, ext);
    assert(slashless(hidden)) by {
        assert forall|i: int| 0 <= i < hidden.len() implies #[trigger] hidden[i] != '/' by {
            if i > 0 {
                assert(hidden[i] == ext[i - 1]);
            }
        }
    }
    assert(hidden.last() == ext.last());
    assert(hidden != seq!['.'] && hidden != seq!['.', '.']) by {
        assert(seq!['.'].last() == '.' && seq!['.', '.'].last() == '.');
    }
    law_paths_are_their_parts(hidden, ext);
}

} // verus!
