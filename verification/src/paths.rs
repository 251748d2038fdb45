//! Paths as text, in the Unix manner: parts between slashes, where empty parts
//! and single dots mean nothing.
use crate::text;
use vstd::prelude::*;
use vstd::slice::*;
use vstd::string::*;

verus! {

/// Whether a path starts at the root.
pub open spec fn has_root(s: Seq<char>) -> bool {
    s.len() > 0 && s[0] == '/'
}

/// Whether a piece between slashes is a part of the path.
pub open spec fn counts(p: Seq<char>) -> bool {
    p.len() > 0 && p != seq!['.']
}

/// The part that leads one level up.
pub open spec fn up() -> Seq<char> {
    seq!['.', '.']
}

/// The parts of a path.
pub open spec fn parts(s: Seq<char>) -> Seq<Seq<char>> {
    text::split_on(s, '/').filter(|p: Seq<char>| counts(p))
}

/// `base` with `part` behind it; `part` alone where it starts at the root.
pub open spec fn joined(base: Seq<char>, part: Seq<char>) -> Seq<char> {
    if has_root(part) {
        part
    } else if base.len() == 0 || base.last() == '/' {
        base + part
    } else {
        base + seq!['/'] + part
    }
}

/// The last part of a path, unless it leads up.
pub open spec fn last_name(s: Seq<char>) -> Option<Seq<char>> {
    if parts(s).len() > 0 && parts(s).last() != up() {
        Some(parts(s).last())
    } else {
        None
    }
}

/// Whether `path` is `base` or lies below it.
pub open spec fn is_within(path: Seq<char>, base: Seq<char>) -> bool {
    has_root(path) == has_root(base) && parts(base).is_prefix_of(parts(path))
}

/// `s` without the slashes that it starts with.
pub open spec fn unrooted(s: Seq<char>) -> Seq<char>
    decreases s.len(),
{
    if s.len() > 0 && s[0] == '/' {
        unrooted(s.drop_first())
    } else {
        s
    }
}

/// `base` with `part` behind it.
pub fn join(base: &str, part: &str) -> (r: String)
    ensures
        r@ == joined(base@, part@),
{
    let b = text::chars_of(base);
    let p = text::chars_of(part);
    if p.len() > 0 && p[0] == '/' {
        return text::copy_of(part);
    }
    let mut out = text::copy_of(base);
    if b.len() > 0 && b[b.len() - 1] != '/' {
        out.push('/');
    }
    out.append(part);
    assert(out@ =~= joined(base@, part@));
    out
}

/// Removes the slashes that a text starts with.
pub fn strip_root(s: &[char]) -> (r: &[char])
    ensures
        r@ == unrooted(s@),
{
    let mut i: usize = 0;
    assert(s@.skip(0) =~= s@);
    while i < s.len() && s[i] == '/'
        invariant
            i <= s@.len(),
            unrooted(s@.skip(i as int)) == unrooted(s@),
        decreases s.len() - i,
    {
        assert(s@.skip(i as int).drop_first() =~= s@.skip(i + 1));
        i += 1;
    }
    assert(s@.subrange(i as int, s@.len() as int) =~= s@.skip(i as int));
    slice_subrange(s, i, s.len())
}

/// The parts of a path.
pub fn parts_of(s: &[char]) -> (r: Vec<Vec<char>>)
    ensures
        text::runs(r@) == parts(s@),
{
    let pieces = text::split(s, '/');
    let ghost ps = text::split_on(s@, '/');
    let ghost keep = |p: Seq<char>| counts(p);
    let mut out: Vec<Vec<char>> = Vec::new();
    let mut i: usize = 0;
    assert(ps.take(0).filter(keep) =~= Seq::<Seq<char>>::empty()) by {
        reveal(Seq::filter);
    }
    assert(text::runs(out@) =~= Seq::<Seq<char>>::empty());
    while i < pieces.len()
        invariant
            i <= pieces@.len(),
            text::runs(pieces@) == ps,
            keep == (|p: Seq<char>| counts(p)),
            text::runs(out@) == ps.take(i as int).filter(keep),
        decreases pieces.len() - i,
    {
        proof {
            assert(ps[i as int] == pieces@[i as int]@);
            assert(ps.take(i + 1) =~= ps.take(i as int).push(ps[i as int]));
            ps.take(i as int).lemma_filter_push(ps[i as int], keep);
        }
        let piece = &pieces[i];
        let dot = piece.len() == 1 && piece[0] == '.';
        assert(dot == (ps[i as int] == seq!['.'])) by {
            if dot {
                assert(ps[i as int] =~= seq!['.']);
            }
        }
        if piece.len() > 0 && !dot {
            let mut copy: Vec<char> = Vec::new();
            text::push_all(&mut copy, piece.as_slice());
            let ghost before = text::runs(out@);
            out.push(copy);
            assert(text::runs(out@) =~= before.push(ps[i as int]));
        }
        i += 1;
    }
    assert(ps.take(i as int) =~= ps);
    out
}

/// Whether a run is the part that leads up.
pub fn is_up(p: &[char]) -> (r: bool)
    ensures
        r == (p@ == up()),
{
    let r = p.len() == 2 && p[0] == '.' && p[1] == '.';
    assert(r == (p@ == up())) by {
        if r {
            assert(p@ =~= up());
        }
    }
    r
}

/// The last part of a path, unless it leads up.
pub fn file_name(s: &[char]) -> (r: Option<Vec<char>>)
    ensures
        match r {
            Some(v) => last_name(s@) == Some(v@),
            None => last_name(s@) is None,
        },
{
    let mut ps = parts_of(s);
    let ghost all = parts(s@);
    match ps.pop() {
        None => {
            assert(all.len() == 0);
            None
        },
        Some(p) => {
            assert(all.last() == p@) by {
                assert(text::runs(ps@.push(p)).len() == all.len());
                assert(text::runs(ps@.push(p)).last() == p@);
            }
            if is_up(p.as_slice()) {
                None
            } else {
                Some(p)
            }
        },
    }
}

/// Whether `path` is `base` or lies below it.
pub fn within(path: &str, base: &str) -> (r: bool)
    ensures
        r == is_within(path@, base@),
{
    let p = text::chars_of(path);
    let b = text::chars_of(base);
    let rooted_p = p.len() > 0 && p[0] == '/';
    let rooted_b = b.len() > 0 && b[0] == '/';
    if rooted_p != rooted_b {
        return false;
    }
    let pp = parts_of(p.as_slice());
    let bp = parts_of(b.as_slice());
    let ghost ps = parts(path@);
    let ghost bs = parts(base@);
    if bp.len() > pp.len() {
        assert(!bs.is_prefix_of(ps));
        return false;
    }
    let mut i: usize = 0;
    while i < bp.len()
        invariant
            i <= bp@.len() <= pp@.len(),
            ps == parts(path@),
            bs == parts(base@),
            text::runs(pp@) == ps,
            text::runs(bp@) == bs,
            forall|j: int| 0 <= j < i ==> ps[j] == bs[j],
        decreases bp.len() - i,
    {
        assert(ps[i as int] == pp@[i as int]@ && bs[i as int] == bp@[i as int]@);
        if !text::same_chars(pp[i].as_slice(), bp[i].as_slice()) {
            assert(!bs.is_prefix_of(ps)) by {
                if bs.is_prefix_of(ps) {
                    assert(ps.subrange(0, bs.len() as int)[i as int] == bs[i as int]);
                }
            }
            return false;
        }
        i += 1;
    }
    assert(ps.subrange(0, bs.len() as int) =~= bs);
    true
}

/// Parts as a path again.
pub open spec fn path_text(root: bool, ps: Seq<Seq<char>>) -> Seq<char> {
    if root {
        seq!['/'] + text::joined(ps, seq!['/'])
    } else {
        text::joined(ps, seq!['/'])
    }
}

/// Parts as a path again.
pub fn path_of(root: bool, ps: &Vec<Vec<char>>) -> (r: String)
    ensures
        r@ == path_text(root, text::runs(ps@)),
{
    let mut sep: Vec<char> = Vec::new();
    sep.push('/');
    assert(sep@ =~= seq!['/']);
    let body = text::join(ps, sep.as_slice());
    let mut out: Vec<char> = Vec::new();
    if root {
        out.push('/');
    }
    text::push_all(&mut out, body.as_slice());
    assert(out@ =~= path_text(root, text::runs(ps@)));
    text::string_of(out.as_slice())
}

/// Whether some texts can all be parts of a path.
pub open spec fn all_count(ps: Seq<Seq<char>>) -> bool {
    forall|i: int|
        0 <= i < ps.len() ==> counts(#[trigger] ps[i]) && !text::mentions(ps[i], '/')
}

/// A split piece holds no separator.
pub proof fn lemma_pieces_have_no_separator(s: Seq<char>, sep: char)
    ensures
        forall|i: int|
            0 <= i < text::split_on(s, sep).len() ==> !text::mentions(
                #[trigger] text::split_on(s, sep)[i],
                sep,
            ),
    decreases s.len(),
{
    text::lemma_split_len(s, sep);
    if s.len() > 0 {
        lemma_pieces_have_no_separator(s.drop_last(), sep);
        let before = text::split_on(s.drop_last(), sep);
        text::lemma_split_len(s.drop_last(), sep);
        let after = text::split_on(s, sep);
        assert forall|i: int| 0 <= i < after.len() implies !text::mentions(
            #[trigger] after[i],
            sep,
        ) by {
            if s.last() == sep {
                if i < before.len() {
                    assert(after[i] == before[i]);
                }
            } else if i < before.len() - 1 {
                assert(after[i] == before[i]);
            } else {
                let p = before.last();
                assert(!text::mentions(before[before.len() - 1], sep));
                assert(after[i] == p.push(s.last()));
                assert forall|j: int| 0 <= j < after[i].len() implies after[i][j] != sep by {
                    if j < p.len() {
                        assert(p[j] == after[i][j]);
                    }
                }
            }
        }
    }
}

/// The parts of a path can be parts.
pub proof fn lemma_parts_count(s: Seq<char>)
    ensures
        all_count(parts(s)),
{
    let keep = |p: Seq<char>| counts(p);
    let pieces = text::split_on(s, '/');
    lemma_pieces_have_no_separator(s, '/');
    assert forall|i: int| 0 <= i < parts(s).len() implies counts(#[trigger] parts(s)[i])
        && !text::mentions(parts(s)[i], '/') by {
        pieces.lemma_filter_pred(keep, i);
        assert(pieces.filter(keep).contains(parts(s)[i]));
        pieces.lemma_filter_contains_rev(keep, parts(s)[i]);
        let j = choose|j: int| 0 <= j < pieces.len() && pieces[j] == parts(s)[i];
        assert(!text::mentions(pieces[j], '/'));
    }
}

/// Splitting texts that were joined gives them again.
proof fn lemma_split_joined(ps: Seq<Seq<char>>)
    requires
        ps.len() > 0,
        all_count(ps),
    ensures
        text::split_on(text::joined(ps, seq!['/']), '/') == ps,
    decreases ps.len(),
{
    if ps.len() == 1 {
        assert(!text::mentions(ps[0], '/'));
        text::lemma_split_piece(ps[0], '/', Seq::empty());
        assert(ps =~= seq![ps[0]]);
    } else {
        let firsts = ps.drop_last();
        assert(all_count(firsts)) by {
            assert forall|i: int| 0 <= i < firsts.len() implies counts(#[trigger] firsts[i])
                && !text::mentions(firsts[i], '/') by {
                assert(firsts[i] == ps[i]);
            }
        }
        lemma_split_joined(firsts);
        let head = text::joined(firsts, seq!['/']);
        let last = ps.last();
        assert(!text::mentions(ps[ps.len() - 1], '/'));
        lemma_split_append(head, last);
        assert(text::joined(ps, seq!['/']) =~= head.push('/') + last);
        assert(firsts.push(last) =~= ps);
    }
}

/// Splitting a text with a slash and a part behind it.
proof fn lemma_split_append(head: Seq<char>, last: Seq<char>)
    requires
        !text::mentions(last, '/'),
    ensures
        text::split_on(head.push('/') + last, '/') == text::split_on(head, '/').push(last),
    decreases last.len(),
{
    let whole = head.push('/') + last;
    if last.len() == 0 {
        assert(whole =~= head.push('/'));
        assert(whole.drop_last() =~= head);
        assert(last =~= Seq::<char>::empty());
    } else {
        let shorter = last.drop_last();
        assert(!text::mentions(shorter, '/')) by {
            assert forall|i: int| 0 <= i < shorter.len() implies shorter[i] != '/' by {
                assert(last[i] == shorter[i]);
            }
        }
        lemma_split_append(head, shorter);
        assert(whole.drop_last() =~= head.push('/') + shorter);
        assert(last[last.len() - 1] != '/');
        let before = text::split_on(head, '/').push(shorter);
        assert(before.drop_last() =~= text::split_on(head, '/'));
        assert(shorter.push(last.last()) =~= last);
    }
}

/// Texts that all can be parts are left whole by the choice of parts.
proof fn lemma_all_kept(ps: Seq<Seq<char>>)
    requires
        all_count(ps),
    ensures
        ps.filter(|p: Seq<char>| counts(p)) == ps,
    decreases ps.len(),
{
    reveal(Seq::filter);
    if ps.len() > 0 {
        let firsts = ps.drop_last();
        assert(all_count(firsts)) by {
            assert forall|i: int| 0 <= i < firsts.len() implies counts(#[trigger] firsts[i])
                && !text::mentions(firsts[i], '/') by {
                assert(firsts[i] == ps[i]);
            }
        }
        lemma_all_kept(firsts);
        assert(counts(ps[ps.len() - 1]));
        assert(firsts.push(ps.last()) =~= ps);
    }
}

/// A path made of parts has those parts.
pub proof fn lemma_path_text(root: bool, ps: Seq<Seq<char>>)
    requires
        all_count(ps),
    ensures
        parts(path_text(root, ps)) == ps,
        has_root(path_text(root, ps)) == root,
{
    let body = text::joined(ps, seq!['/']);
    let keep = |p: Seq<char>| counts(p);
    if ps.len() == 0 {
        assert(body =~= Seq::<char>::empty());
        assert(text::split_on(body, '/') =~= seq![Seq::<char>::empty()]);
        reveal_with_fuel(Seq::filter, 3);
        assert(parts(body) =~= ps) by {
            assert(seq![Seq::<char>::empty()].drop_last() =~= Seq::<Seq<char>>::empty());
        }
        if root {
            assert(path_text(root, ps) =~= seq!['/']);
            let t = seq!['/'];
            assert(t.drop_last() =~= Seq::<char>::empty());
            let sp = text::split_on(t, '/');
            assert(sp =~= seq![Seq::<char>::empty(), Seq::<char>::empty()]);
            assert(sp.drop_last() =~= seq![Seq::<char>::empty()]);
            assert(parts(t) =~= ps);
        }
    } else {
        lemma_split_joined(ps);
        lemma_all_kept(ps);
        assert(counts(ps[0]) && !text::mentions(ps[0], '/'));
        lemma_joined_starts(ps);
        if root {
            let empty = Seq::<char>::empty();
            text::lemma_split_piece(empty, '/', body);
            assert(path_text(root, ps) =~= empty.push('/') + body);
            let pieces = seq![empty] + ps;
            Seq::filter_distributes_over_add(seq![empty], ps, keep);
            reveal_with_fuel(Seq::filter, 3);
            assert(seq![empty].drop_last() =~= Seq::<Seq<char>>::empty());
            assert(seq![empty].filter(keep) =~= Seq::<Seq<char>>::empty());
            assert(pieces.filter(keep) =~= ps);
        }
    }
}

/// A joined path starts as its first part does.
proof fn lemma_joined_starts(ps: Seq<Seq<char>>)
    requires
        ps.len() > 0,
        ps[0].len() > 0,
    ensures
        text::joined(ps, seq!['/']).len() > 0,
        text::joined(ps, seq!['/'])[0] == ps[0][0],
    decreases ps.len(),
{
    if ps.len() > 1 {
        assert(ps.drop_last()[0] == ps[0]);
        lemma_joined_starts(ps.drop_last());
    }
}

/// Length of the piece before the first slash.
pub open spec fn piece_len(s: Seq<char>) -> int
    decreases s.len(),
{
    if s.len() == 0 || s[0] == '/' {
        0
    } else {
        1 + piece_len(s.drop_first())
    }
}

/// What stands behind the first slash; nothing where there is none.
pub open spec fn behind_piece(s: Seq<char>) -> Seq<char> {
    if piece_len(s) < s.len() {
        s.skip(piece_len(s) + 1)
    } else {
        Seq::empty()
    }
}

/// `s` from its first part on.
pub open spec fn from_part(s: Seq<char>) -> Seq<char>
    decreases s.len(),
{
    if s.len() == 0 || counts(s.take(piece_len(s))) {
        s
    } else {
        proof {
            lemma_piece_len(s);
        }
        from_part(behind_piece(s))
    }
}

/// Cutting what means nothing off the front once is enough.
proof fn lemma_from_part_settled(s: Seq<char>)
    ensures
        from_part(from_part(s)) == from_part(s),
    decreases s.len(),
{
    if s.len() > 0 && !counts(s.take(piece_len(s))) {
        lemma_piece_len(s);
        lemma_from_part_settled(behind_piece(s));
    }
}

/// Length of the piece behind the last slash.
pub open spec fn tail_len(s: Seq<char>) -> int
    decreases s.len(),
{
    if s.len() == 0 || s.last() == '/' {
        0
    } else {
        1 + tail_len(s.drop_last())
    }
}

/// `s` without its last piece and the slash before it.
pub open spec fn without_tail(s: Seq<char>) -> Seq<char> {
    if tail_len(s) < s.len() {
        s.take(s.len() - tail_len(s) - 1)
    } else {
        Seq::empty()
    }
}

/// `s` up to its last part.
pub open spec fn to_part(s: Seq<char>) -> Seq<char>
    decreases s.len(),
{
    if s.len() == 0 || counts(s.skip(s.len() - tail_len(s))) {
        s
    } else {
        proof {
            lemma_tail_len(s);
        }
        to_part(without_tail(s))
    }
}

/// The last piece lies within the text.
pub proof fn lemma_tail_len(s: Seq<char>)
    ensures
        0 <= tail_len(s) <= s.len(),
        without_tail(s).len() <= s.len(),
        s.len() > 0 ==> without_tail(s).len() < s.len(),
    decreases s.len(),
{
    if s.len() > 0 {
        lemma_tail_len(s.drop_last());
    }
}

/// The first piece lies within the text.
pub proof fn lemma_piece_len(s: Seq<char>)
    ensures
        0 <= piece_len(s) <= s.len(),
    decreases s.len(),
{
    if s.len() > 0 {
        lemma_piece_len(s.drop_first());
    }
}

/// Whether a path starts with the current directory: a dot alone or before a
/// slash.
pub open spec fn starts_here(s: Seq<char>) -> bool {
    s.len() > 0 && s[0] == '.' && (s.len() == 1 || s[1] == '/')
}

/// The path above a relative path: everything up to the part before its last
/// one; nothing where there is no such part. A dot in front stays.
pub open spec fn parent_text(s: Seq<char>) -> Seq<char> {
    if starts_here(s) {
        let body = to_part(s.skip(1));
        if body.len() == 0 {
            Seq::empty()
        } else {
            seq!['.'] + to_part(without_tail(body))
        }
    } else {
        to_part(without_tail(to_part(s)))
    }
}

/// Place behind the piece that starts at `from`.
fn piece_end(s: &[char], from: usize) -> (r: usize)
    requires
        from <= s@.len(),
    ensures
        r == from + piece_len(s@.skip(from as int)),
        from <= r <= s@.len(),
{
    let mut i: usize = from;
    while i < s.len() && s[i] != '/'
        invariant
            from <= i <= s@.len(),
            i - from + piece_len(s@.skip(i as int)) == piece_len(s@.skip(from as int)),
        decreases s.len() - i,
    {
        assert(s@.skip(i as int).drop_first() =~= s@.skip(i + 1));
        i += 1;
    }
    i
}

/// Whether a run can be a part.
fn is_part(p: &[char]) -> (r: bool)
    ensures
        r == counts(p@),
{
    let dot = p.len() == 1 && p[0] == '.';
    assert(dot == (p@ == seq!['.'])) by {
        if dot {
            assert(p@ =~= seq!['.']);
        }
    }
    p.len() > 0 && !dot
}

/// Cuts what means nothing off the front.
pub fn trim_front(s: &[char]) -> (r: &[char])
    ensures
        r@ == from_part(s@),
{
    let mut i: usize = 0;
    assert(s@.skip(0) =~= s@);
    while i < s.len()
        invariant
            i <= s@.len(),
            from_part(s@.skip(i as int)) == from_part(s@),
        decreases s.len() - i,
    {
        let ghost rest = s@.skip(i as int);
        let end = piece_end(s, i);
        assert(s@.subrange(i as int, end as int) =~= rest.take(piece_len(rest)));
        if is_part(slice_subrange(s, i, end)) {
            assert(s@.subrange(i as int, s@.len() as int) =~= rest);
            return slice_subrange(s, i, s.len());
        }
        if end < s.len() {
            assert(s@.skip(end + 1) =~= behind_piece(rest));
            i = end + 1;
        } else {
            assert(s@.skip(end as int) =~= behind_piece(rest));
            i = end;
        }
    }
    assert(s@.skip(i as int) =~= Seq::<char>::empty());
    assert(s@.subrange(i as int, i as int) =~= Seq::<char>::empty());
    slice_subrange(s, i, i)
}

/// Place where the last piece of the first `end` characters starts.
fn tail_start(s: &[char], end: usize) -> (r: usize)
    requires
        end <= s@.len(),
    ensures
        r == end - tail_len(s@.take(end as int)),
        r <= end,
{
    let mut i: usize = end;
    while i > 0 && s[i - 1] != '/'
        invariant
            i <= end <= s@.len(),
            end - i + tail_len(s@.take(i as int)) == tail_len(s@.take(end as int)),
        decreases i,
    {
        assert(s@.take(i as int).drop_last() =~= s@.take(i - 1));
        assert(s@.take(i as int).last() == s@[i - 1]);
        i -= 1;
    }
    if i > 0 {
        assert(s@.take(i as int).last() == s@[i - 1]);
    }
    i
}

/// Cuts what means nothing off the end.
pub fn trim_back(s: &[char]) -> (r: &[char])
    ensures
        r@ == to_part(s@),
{
    let mut n: usize = s.len();
    assert(s@.take(n as int) =~= s@);
    while n > 0
        invariant
            n <= s@.len(),
            to_part(s@.take(n as int)) == to_part(s@),
        decreases n,
    {
        let ghost cur = s@.take(n as int);
        let start = tail_start(s, n);
        assert(s@.subrange(start as int, n as int) =~= cur.skip(cur.len() - tail_len(cur)));
        if is_part(slice_subrange(s, start, n)) {
            assert(s@.subrange(0, n as int) =~= cur);
            return slice_subrange(s, 0, n);
        }
        if start > 0 {
            assert(s@.take(start - 1) =~= without_tail(cur));
            n = start - 1;
        } else {
            assert(s@.take(0) =~= without_tail(cur));
            n = 0;
        }
    }
    assert(s@.take(0) =~= Seq::<char>::empty());
    assert(s@.subrange(0, 0) =~= Seq::<char>::empty());
    slice_subrange(s, 0, 0)
}

/// Cuts the last piece and the slash before it off.
fn drop_tail(s: &[char]) -> (r: &[char])
    ensures
        r@ == without_tail(s@),
{
    assert(s@.take(s@.len() as int) =~= s@);
    let start = tail_start(s, s.len());
    let n: usize = if start > 0 {
        start - 1
    } else {
        0
    };
    assert(s@.subrange(0, n as int) =~= without_tail(s@));
    slice_subrange(s, 0, n)
}

/// The path above a relative path.
pub fn parent(s: &[char]) -> (r: Vec<char>)
    ensures
        r@ == parent_text(s@),
{
    let mut out: Vec<char> = Vec::new();
    let here = s.len() > 0 && s[0] == '.' && (s.len() == 1 || s[1] == '/');
    if here {
        assert(s@.subrange(1, s@.len() as int) =~= s@.skip(1));
        let body = trim_back(slice_subrange(s, 1, s.len()));
        if body.len() > 0 {
            out.push('.');
            text::push_all(&mut out, trim_back(drop_tail(body)));
            assert(out@ =~= parent_text(s@));
        }
    } else {
        text::push_all(&mut out, trim_back(drop_tail(trim_back(s))));
        assert(out@ =~= parent_text(s@));
    }
    out
}

/// What is left of a path behind its first `n` parts.
pub open spec fn behind_parts(s: Seq<char>, n: nat) -> Seq<char>
    decreases n,
{
    if n == 0 {
        from_part(s)
    } else {
        behind_parts(behind_piece(from_part(s)), (n - 1) as nat)
    }
}

/// A path relative to another one above it.
pub open spec fn relative_text(path: Seq<char>, base: Seq<char>) -> Seq<char> {
    to_part(behind_parts(path, parts(base).len()))
}

/// A path relative to `base`, if it lies within it.
pub fn relative_to(path: &str, base: &str) -> (r: Option<Vec<char>>)
    ensures
        match r {
            Some(v) => is_within(path@, base@) && v@ == relative_text(path@, base@),
            None => !is_within(path@, base@),
        },
{
    if !within(path, base) {
        return None;
    }
    let p = text::chars_of(path);
    let b = text::chars_of(base);
    let n: usize = parts_of(b.as_slice()).len();
    assert(n == parts(base@).len());
    let mut rest = trim_front(p.as_slice());
    proof {
        lemma_from_part_settled(path@);
    }
    let mut left: usize = n;
    while left > 0
        invariant
            left <= n,
            rest@ == from_part(rest@),
            behind_parts(rest@, left as nat) == behind_parts(path@, n as nat),
        decreases left,
    {
        let end = piece_end(rest, 0);
        assert(rest@.skip(0) =~= rest@);
        let behind = if end < rest.len() {
            slice_subrange(rest, end + 1, rest.len())
        } else {
            slice_subrange(rest, end, end)
        };
        assert(behind@ =~= behind_piece(rest@));
        rest = trim_front(behind);
        proof {
            lemma_from_part_settled(behind@);
            reveal_with_fuel(behind_parts, 2);
        }
        left = left - 1;
    }
    let mut out: Vec<char> = Vec::new();
    text::push_all(&mut out, trim_back(rest));
    assert(out@ =~= to_part(rest@));
    Some(out)
}

/// The parts of two paths with a slash between them are those of each.
pub proof fn lemma_parts_of_both(a: Seq<char>, b: Seq<char>)
    ensures
        parts(a.push('/') + b) == parts(a) + parts(b),
{
    let keep = |p: Seq<char>| counts(p);
    text::lemma_split_both(a, '/', b);
    Seq::filter_distributes_over_add(text::split_on(a, '/'), text::split_on(b, '/'), keep);
}

proof fn lemma_no_parts()
    ensures
        parts(Seq::empty()) == Seq::<Seq<char>>::empty(),
{
    assert(all_count(Seq::empty()));
    lemma_path_text(false, Seq::empty());
    assert(path_text(false, Seq::empty()) =~= Seq::<char>::empty());
}

/// The parts of a path with one that has no root behind it.
pub proof fn lemma_joined_parts(base: Seq<char>, part: Seq<char>)
    requires
        !has_root(part),
    ensures
        parts(joined(base, part)) == parts(base) + parts(part),
{
    lemma_no_parts();
    let none = Seq::<Seq<char>>::empty();
    if base.len() == 0 {
        assert(base =~= Seq::empty());
        assert(joined(base, part) =~= part);
        assert(parts(base) + parts(part) =~= parts(part));
    } else if base.last() == '/' {
        let less = base.drop_last();
        assert(less.push('/') + part =~= joined(base, part));
        assert(less.push('/') + Seq::empty() =~= base);
        lemma_parts_of_both(less, part);
        lemma_parts_of_both(less, Seq::empty());
        assert(parts(less) + none =~= parts(less));
    } else {
        assert(base.push('/') + part =~= joined(base, part));
        lemma_parts_of_both(base, part);
    }
}

/// What has no root lies, behind a path, within that path.
pub proof fn lemma_joined_within(base: Seq<char>, part: Seq<char>)
    requires
        !has_root(part),
    ensures
        is_within(joined(base, part), base),
{
    lemma_joined_parts(base, part);
    let whole = parts(base) + parts(part);
    assert(whole.subrange(0, parts(base).len() as int) =~= parts(base));
    if base.len() > 0 {
        assert(joined(base, part)[0] == base[0]);
    }
}

/// What is stripped of its slashes has no root.
pub proof fn lemma_unrooted(s: Seq<char>)
    ensures
        !has_root(unrooted(s)),
    decreases s.len(),
{
    if s.len() > 0 && s[0] == '/' {
        lemma_unrooted(s.drop_first());
    }
}

/// Whether a relative path is nothing but its parts, none of which leads up.
pub open spec fn is_plain(s: Seq<char>) -> bool {
    s == path_text(false, parts(s)) && !parts(s).contains(up())
}

/// Whether a text can be the name of a directory entry other than the two that
/// every directory has.
pub open spec fn is_name(name: Seq<char>) -> bool {
    counts(name) && name != up() && !text::mentions(name, '/')
}

/// A plain path with a name behind it is plain.
pub proof fn lemma_plain_child(base: Seq<char>, name: Seq<char>)
    requires
        is_plain(base),
        is_name(name),
    ensures
        ({
            let child = if base.len() == 0 {
                name
            } else {
                base + seq!['/'] + name
            };
            &&& is_plain(child)
            &&& child.len() > 0
            &&& parts(child) == parts(base).push(name)
            &&& child == path_text(false, parts(base).push(name))
        }),
{
    let ps = parts(base);
    let more = ps.push(name);
    lemma_parts_count(base);
    assert(all_count(more)) by {
        assert forall|i: int| 0 <= i < more.len() implies counts(#[trigger] more[i])
            && !text::mentions(more[i], '/') by {
            if i < ps.len() {
                assert(more[i] == ps[i]);
            }
        }
    }
    lemma_path_text(false, more);
    assert(more.drop_last() =~= ps);
    if base.len() == 0 {
        lemma_no_parts();
        assert(base =~= Seq::<char>::empty());
        assert(path_text(false, more) =~= name);
    } else {
        assert(ps.len() > 0) by {
            if ps.len() == 0 {
                assert(path_text(false, ps) =~= Seq::<char>::empty());
            }
        }
        assert(path_text(false, more) =~= base + seq!['/'] + name);
    }
    assert(!more.contains(up())) by {
        if more.contains(up()) {
            let i = choose|i: int| 0 <= i < more.len() && more[i] == up();
            assert(i < ps.len());
            assert(ps[i] == up());
        }
    }
}

proof fn lemma_tail_is_last(front: Seq<char>, last: Seq<char>)
    requires
        !text::mentions(last, '/'),
    ensures
        tail_len(last) == last.len(),
        tail_len(front.push('/') + last) == last.len(),
    decreases last.len(),
{
    let whole = front.push('/') + last;
    if last.len() > 0 {
        let less = last.drop_last();
        assert(!text::mentions(less, '/')) by {
            assert forall|i: int| 0 <= i < less.len() implies less[i] != '/' by {
                assert(last[i] == less[i]);
            }
        }
        lemma_tail_is_last(front, less);
        assert(whole.drop_last() =~= front.push('/') + less);
        assert(last[last.len() - 1] != '/');
    } else {
        assert(whole.last() == '/');
    }
}

proof fn lemma_joined_prefix(ps: Seq<Seq<char>>)
    requires
        ps.len() > 0,
    ensures
        text::joined(ps, seq!['/']).len() >= ps[0].len(),
        text::joined(ps, seq!['/']).take(ps[0].len() as int) == ps[0],
    decreases ps.len(),
{
    let j = text::joined(ps, seq!['/']);
    if ps.len() > 1 {
        let less = ps.drop_last();
        assert(less[0] == ps[0]);
        lemma_joined_prefix(less);
        let front = text::joined(less, seq!['/']);
        assert(j.take(ps[0].len() as int) =~= front.take(ps[0].len() as int));
    } else {
        assert(j.take(ps[0].len() as int) =~= ps[0]);
    }
}

proof fn lemma_joined_tail(ps: Seq<Seq<char>>)
    requires
        ps.len() > 0,
        all_count(ps),
    ensures
        ({
            let s = text::joined(ps, seq!['/']);
            &&& s.len() > 0
            &&& to_part(s) == s
            &&& without_tail(s) == text::joined(ps.drop_last(), seq!['/'])
        }),
{
    let s = text::joined(ps, seq!['/']);
    let less = ps.drop_last();
    let front = text::joined(less, seq!['/']);
    let last = ps.last();
    assert(counts(ps[ps.len() - 1]) && !text::mentions(ps[ps.len() - 1], '/'));
    lemma_tail_is_last(front, last);
    if ps.len() > 1 {
        assert(s =~= front.push('/') + last);
        assert(s.skip(s.len() - last.len()) =~= last);
        assert(s.take(s.len() - last.len() - 1) =~= front);
    } else {
        assert(s =~= last);
        assert(s.skip(0) =~= last);
        assert(front =~= Seq::<char>::empty());
    }
}

/// What a plain path lies in is its parts but the last, joined, and its name is
/// the last.
pub proof fn lemma_plain_parent(s: Seq<char>)
    requires
        is_plain(s),
        s.len() > 0,
    ensures
        parts(s).len() > 0,
        unrooted(s) == s,
        !has_root(s),
        parent_text(s) == path_text(false, parts(s).drop_last()),
        last_name(s) == Some(parts(s).last()),
{
    let ps = parts(s);
    lemma_parts_count(s);
    assert(ps.len() > 0) by {
        if ps.len() == 0 {
            assert(path_text(false, ps) =~= Seq::<char>::empty());
        }
    }
    lemma_path_text(false, ps);
    lemma_joined_tail(ps);
    lemma_joined_prefix(ps);
    let first = ps[0];
    assert(counts(first) && !text::mentions(first, '/'));
    assert(s.take(first.len() as int)[0] == s[0]);
    assert(!starts_here(s)) by {
        if starts_here(s) {
            if first.len() == 1 {
                assert(first =~= seq!['.']);
            } else {
                assert(s.take(first.len() as int)[1] == s[1]);
                assert(first[1] != '/');
            }
        }
    }
    let less = ps.drop_last();
    let front = text::joined(less, seq!['/']);
    if less.len() > 0 {
        assert(all_count(less)) by {
            assert forall|i: int| 0 <= i < less.len() implies counts(#[trigger] less[i])
                && !text::mentions(less[i], '/') by {
                assert(less[i] == ps[i]);
            }
        }
        lemma_joined_tail(less);
    } else {
        assert(front =~= Seq::<char>::empty());
    }
    assert(ps[ps.len() - 1] != up()) by {
        if ps[ps.len() - 1] == up() {
            assert(ps.contains(up()));
        }
    }
}

/// No path at all is a plain one.
pub proof fn lemma_nothing_is_plain()
    ensures
        is_plain(Seq::empty()),
{
    lemma_no_parts();
    assert(path_text(false, Seq::empty()) =~= Seq::<char>::empty());
}

/// Some of the first parts of a path, joined, are not nothing.
pub proof fn lemma_joined_is_something(firsts: Seq<Seq<char>>, ps: Seq<Seq<char>>)
    requires
        firsts.len() > 0,
        ps.len() > 0,
        firsts == ps.drop_last(),
        all_count(ps),
    ensures
        text::joined(firsts, seq!['/']).len() > 0,
{
    assert(firsts[0] == ps[0]);
    assert(counts(ps[0]));
    lemma_joined_starts(firsts);
}

} // verus!
