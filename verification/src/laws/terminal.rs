//! What becomes of the output of a server: the lines of its console and the text
//! of its log.
use crate::laws::texts;
use crate::services::console;
use crate::services::console::{BufModel, ConsoleEvent, Line, LineKind, Snapshot};
use crate::text;
use vstd::prelude::*;
use vstd::string::*;

verus! {

/// A printable character, a tab and a line end come out as they are, and other
/// control characters do not come out.
pub proof fn law_characters_of_the_log(c: char, rest: Seq<char>)
    ensures
        c == '\t' || c == '\n' || c == '\r' || ' ' <= c <= '~' || c >= '\u{80}'
            ==> console::sanitized(seq![c] + rest) == seq![c] + console::sanitized(rest),
        c <= '\u{8}' || c == '\u{b}' || c == '\u{c}' || '\u{e}' <= c <= '\u{1a}' || '\u{1c}' <= c
            <= '\u{1f}' || c == '\u{7f}' ==> console::sanitized(seq![c] + rest)
            == console::sanitized(rest),
        console::sanitized(Seq::empty()) == Seq::<char>::empty(),
{
    assert((seq![c] + rest).drop_first() =~= rest);
}

/// Whether every character of a text lies between two.
pub open spec fn within(s: Seq<char>, lo: char, hi: char) -> bool {
    forall|i: int| 0 <= i < s.len() ==> lo <= #[trigger] s[i] <= hi
}

/// How far a run of characters goes.
proof fn lemma_leading(run: Seq<char>, rest: Seq<char>, lo: char, hi: char)
    requires
        within(run, lo, hi),
        rest.len() > 0 ==> !(lo <= rest[0] <= hi),
    ensures
        console::leading(run + rest, lo, hi) == run.len(),
    decreases run.len(),
{
    let s = run + rest;
    if run.len() > 0 {
        let d = run.drop_first();
        assert(s[0] == run[0]);
        assert forall|i: int| 0 <= i < d.len() implies lo <= #[trigger] d[i] <= hi by {
            assert(d[i] == run[i + 1]);
        }
        lemma_leading(d, rest, lo, hi);
        assert(s.drop_first() =~= d + rest);
    } else {
        assert(s =~= rest);
    }
}

/// A control sequence, such as one that sets a color, does not come out: neither
/// its parameters nor the letter that ends it. What follows it does.
pub proof fn law_control_sequence_is_dropped(
    params: Seq<char>,
    middle: Seq<char>,
    last: char,
    rest: Seq<char>,
)
    requires
        within(params, '0', '?'),
        within(middle, ' ', '/'),
        '@' <= last <= '~',
    ensures
        console::sanitized(seq!['\u{1b}', '['] + params + middle + seq![last] + rest)
            == console::sanitized(rest),
{
    let s = seq!['\u{1b}', '['] + params + middle + seq![last] + rest;
    let t = s.drop_first();
    let tail = seq![last] + rest;
    assert(t.skip(1) =~= params + (middle + tail));
    if middle.len() > 0 {
        assert((middle + tail)[0] == middle[0]);
        assert(' ' <= middle[0] <= '/');
    } else {
        assert((middle + tail)[0] == last);
    }
    lemma_leading(params, middle + tail, '0', '?');
    let n = 1 + params.len();
    assert(t.skip(n as int) =~= middle + tail);
    lemma_leading(middle, tail, ' ', '/');
    assert(console::csi_final(t) == n + middle.len());
    assert(console::escape_len(t) == n + middle.len() + 1);
    assert(s.skip(1 + console::escape_len(t)) =~= rest);
    assert(s[0] == '\u{1b}');
}

/// How long the text of a string sequence is.
proof fn lemma_string(body: Seq<char>, rest: Seq<char>)
    requires
        forall|i: int|
            0 <= i < body.len() ==> #[trigger] body[i] != '\u{7}' && body[i] != '\u{1b}',
    ensures
        console::string_len(body + seq!['\u{7}'] + rest) == body.len(),
        console::string_len(body + seq!['\u{1b}', '\\'] + rest) == body.len() + 2,
    decreases body.len(),
{
    let a = body + seq!['\u{7}'] + rest;
    let b = body + seq!['\u{1b}', '\\'] + rest;
    if body.len() > 0 {
        let d = body.drop_first();
        assert forall|i: int| 0 <= i < d.len() implies #[trigger] d[i] != '\u{7}' && d[i]
            != '\u{1b}' by {
            assert(d[i] == body[i + 1]);
        }
        lemma_string(d, rest);
        assert(a[0] == body[0] && b[0] == body[0]);
        assert(a.drop_first() =~= d + seq!['\u{7}'] + rest);
        assert(b.drop_first() =~= d + seq!['\u{1b}', '\\'] + rest);
    } else {
        assert(a[0] == '\u{7}');
        assert(b[0] == '\u{1b}' && b[1] == '\\');
    }
}

/// A string sequence, such as one that sets the title of a window, does not come
/// out, whether a bell or a terminator ends it. What follows it does.
pub proof fn law_string_sequence_is_dropped(opener: char, body: Seq<char>, rest: Seq<char>)
    requires
        opener == ']' || opener == 'P' || opener == '^' || opener == '_',
        forall|i: int|
            0 <= i < body.len() ==> #[trigger] body[i] != '\u{7}' && body[i] != '\u{1b}',
    ensures
        console::sanitized(seq!['\u{1b}', opener] + body + seq!['\u{7}'] + rest)
            == console::sanitized(rest),
        console::sanitized(seq!['\u{1b}', opener] + body + seq!['\u{1b}', '\\'] + rest)
            == console::sanitized(rest),
{
    lemma_string(body, rest);
    let a = seq!['\u{1b}', opener] + body + seq!['\u{7}'] + rest;
    let b = seq!['\u{1b}', opener] + body + seq!['\u{1b}', '\\'] + rest;
    assert(a.drop_first().skip(1) =~= body + seq!['\u{7}'] + rest);
    assert(b.drop_first().skip(1) =~= body + seq!['\u{1b}', '\\'] + rest);
    let bell = seq!['\u{7}'] + rest;
    assert(a.skip(1 + console::escape_len(a.drop_first())) =~= bell);
    assert(bell.drop_first() =~= rest);
    assert(console::sanitized(bell) == console::sanitized(rest));
    assert(b.skip(1 + console::escape_len(b.drop_first())) =~= rest);
}

/// A short escape does not come out: one that picks characters is three characters
/// long, any other two.
pub proof fn law_short_escape_is_dropped(c: char, picked: char, rest: Seq<char>)
    requires
        c != '[' && c != ']' && c != 'P' && c != '^' && c != '_',
    ensures
        '(' <= c <= '+' ==> console::sanitized(seq!['\u{1b}', c, picked] + rest)
            == console::sanitized(rest),
        !('(' <= c <= '+') ==> console::sanitized(seq!['\u{1b}', c] + rest) == console::sanitized(
            rest,
        ),
{
    let a = seq!['\u{1b}', c, picked] + rest;
    let b = seq!['\u{1b}', c] + rest;
    if '(' <= c <= '+' {
        assert(console::escape_len(a.drop_first()) == 2);
        assert(a.skip(3) =~= rest);
    } else {
        assert(console::escape_len(b.drop_first()) == 1);
        assert(b.skip(2) =~= rest);
    }
}

/// What is cut off is cut as late as it can be, between characters.
proof fn lemma_fitting(s: Seq<char>, room: int)
    requires
        0 <= room,
    ensures
        0 <= console::fitting(s, room) <= s.len(),
        text::byte_len(s.take(console::fitting(s, room))) <= room,
        console::fitting(s, room) < s.len() ==> text::byte_len(
            s.take(console::fitting(s, room) + 1),
        ) > room,
    decreases s.len(),
{
    let n = console::fitting(s, room);
    if s.len() == 0 {
        assert(s.take(0).len() == 0);
    } else if text::char_width(s[0]) > room {
        assert(s.take(0).len() == 0);
        let one = s.take(1);
        assert(one[0] == s[0]);
        assert(one.drop_first().len() == 0);
    } else {
        let d = s.drop_first();
        lemma_fitting(d, room - text::char_width(s[0]));
        assert(s.take(n).drop_first() =~= d.take(n - 1));
        assert(s.take(n)[0] == s[0]);
        if n < s.len() {
            assert(s.take(n + 1).drop_first() =~= d.take(n));
            assert(s.take(n + 1)[0] == s[0]);
        }
    }
}

/// An open line grows by what comes in until it holds 64 KiB. What goes beyond is
/// cut off, as late as can be, and a mark says so.
pub proof fn law_open_line_is_cut_at_its_bound(have: Seq<char>, add: Seq<char>)
    requires
        text::byte_len(have) <= 65_536,
    ensures
        ({
            let (t, cut) = console::merged(have, false, add);
            &&& text::byte_len(have) + text::byte_len(add) <= 65_536 <==> !cut
            &&& !cut ==> t == have + add
            &&& cut ==> exists|n: int|
                0 <= n < add.len() && t == #[trigger] (have + add.take(n) + "…[truncated]"@)
                    && text::byte_len(have) + text::byte_len(add.take(n)) <= 65_536
                    && text::byte_len(have) + text::byte_len(add.take(n + 1)) > 65_536
        }),
{
    let room = 65_536 - text::byte_len(have);
    lemma_fitting(add, room);
    if text::byte_len(add) > room {
        let n = console::fitting(add, room);
        if n == add.len() {
            assert(add.take(n) =~= add);
        }
        assert(console::merged(have, false, add).0 == have + add.take(n) + "…[truncated]"@);
    }
}

/// The lines that stay are the newest ones, as many as there is room for.
pub proof fn law_newest_lines_stay(lines: Seq<Line>, n: int)
    requires
        n >= 0,
    ensures
        lines.len() <= n ==> console::newest(lines, n) == lines,
        lines.len() > n ==> console::newest(lines, n).len() == n && forall|i: int|
            0 <= i < n ==> #[trigger] console::newest(lines, n)[i] == lines[lines.len() - n + i],
{
}

/// A whole line that comes in is added, in full and with the next number, behind
/// those that are there.
pub proof fn law_whole_line_is_added(b: BufModel, line: Seq<char>, kind: LineKind)
    requires
        b.wf(),
        !b.partial,
        line.len() > 0,
        forall|i: int| 0 <= i < line.len() ==> #[trigger] line[i] != '\n',
    ensures
        ({
            let c = console::appended(b, line + seq!['\n'], kind);
            &&& c.next_seq == b.next_seq + 1 && c.last_ok == b.next_seq && !c.partial
            &&& c.lines.len() > 0 && c.lines.last() == (Line { seq: b.next_seq, text: line, kind })
            &&& b.lines.len() < 500 ==> c.lines.drop_last() == b.lines
            &&& b.lines.len() == 500 ==> c.lines.drop_last() == b.lines.drop_first()
        }),
{
    let chunk = line + seq!['\n'];
    let none = Seq::<char>::empty();
    assert(chunk + none =~= chunk);
    texts::law_splitting(line, '\n', none);
    texts::law_splitting(none, '\n', none);
    let parts = text::split_on(chunk, '\n');
    assert(parts =~= seq![line, none]);
    assert(!console::continues(b, kind));
    assert(chunk.last() == '\n');
    assert(parts.subrange(0, 1) =~= seq![line]);
    lemma_one_kept(line);
    assert(console::added(b, chunk, kind) == seq![line]);
    let kept = console::newest(b.lines, 499);
    assert(console::continued(b, chunk, kind) == kept);
    let all = kept + console::numbered(seq![line], b.next_seq, kind);
    assert(all =~= kept.push(Line { seq: b.next_seq, text: line, kind }));
    assert(!console::opens(b, chunk, kind));
    assert(console::newest(all, 500) =~= all);
    assert(all.drop_last() =~= kept);
    if b.lines.len() == 500 {
        assert(kept =~= b.lines.drop_first());
    }
}

/// A text with characters is no blank line.
proof fn lemma_one_kept(line: Seq<char>)
    requires
        line.len() > 0,
    ensures
        console::nonempty(seq![line]) == seq![line],
{
    reveal(Seq::filter);
    let s = seq![line];
    assert(s.drop_last() =~= Seq::<Seq<char>>::empty());
    assert(s.last() == line);
    assert(console::nonempty(s) =~= seq![line]);
}

/// Nothing is kept of nothing.
proof fn lemma_none_kept(none: Seq<Seq<char>>)
    requires
        none.len() == 0,
    ensures
        console::nonempty(none) == Seq::<Seq<char>>::empty(),
{
    reveal(Seq::filter);
}

/// A line that has not ended yet is added with the next number and stays open.
pub proof fn law_open_line_is_added(b: BufModel, line: Seq<char>, kind: LineKind)
    requires
        b.wf(),
        !b.partial,
        0 < line.len(),
        text::byte_len(line) <= 65_536,
        forall|i: int| 0 <= i < line.len() ==> #[trigger] line[i] != '\n',
    ensures
        ({
            let c = console::appended(b, line, kind);
            &&& c.next_seq == b.next_seq + 1 && c.last_ok == b.last_ok
            &&& c.partial && c.partial_kind == Some(kind) && !c.partial_truncated
            &&& c.lines.len() > 0 && c.lines.last() == (Line { seq: b.next_seq, text: line, kind })
            &&& b.lines.len() < 500 ==> c.lines.drop_last() == b.lines
            &&& b.lines.len() == 500 ==> c.lines.drop_last() == b.lines.drop_first()
        }),
{
    let none = Seq::<char>::empty();
    texts::law_splitting(line, '\n', none);
    let parts = text::split_on(line, '\n');
    assert(parts =~= seq![line]);
    assert(!console::continues(b, kind));
    assert(line.last() == line[line.len() - 1]);
    assert(parts.subrange(0, 0).len() == 0);
    lemma_none_kept(parts.subrange(0, 0));
    assert(console::added(b, line, kind).len() == 0);
    law_open_line_is_cut_at_its_bound(none, line);
    assert(none + line =~= line);
    let kept = console::newest(b.lines, 499);
    let all = (kept + console::numbered(console::added(b, line, kind), b.next_seq, kind)).push(
        Line { seq: b.next_seq, text: line, kind },
    );
    assert(kept + console::numbered(console::added(b, line, kind), b.next_seq, kind) =~= kept);
    assert(all =~= kept.push(Line { seq: b.next_seq, text: line, kind }));
    assert(console::opens(b, line, kind));
    assert(console::newest(all, 500) =~= all);
    assert(all.drop_last() =~= kept);
    if b.lines.len() == 500 {
        assert(kept =~= b.lines.drop_first());
    }
}

/// The end of an open line goes to that line, which keeps its number and closes.
pub proof fn law_open_line_is_closed(b: BufModel, rest: Seq<char>, kind: LineKind)
    requires
        b.wf(),
        b.partial,
        !b.partial_truncated,
        b.partial_kind == Some(kind),
        text::byte_len(b.lines.last().text) + text::byte_len(rest) <= 65_536,
        forall|i: int| 0 <= i < rest.len() ==> #[trigger] rest[i] != '\n',
    ensures
        ({
            let c = console::appended(b, rest + seq!['\n'], kind);
            &&& c.next_seq == b.next_seq && !c.partial
            &&& c.last_ok == b.lines.last().seq
            &&& c.lines.len() > 0 && c.lines.last() == (Line {
                text: b.lines.last().text + rest,
                ..b.lines.last()
            })
        }),
{
    let chunk = rest + seq!['\n'];
    let none = Seq::<char>::empty();
    assert(chunk + none =~= chunk);
    texts::law_splitting(rest, '\n', none);
    texts::law_splitting(none, '\n', none);
    let parts = text::split_on(chunk, '\n');
    assert(parts =~= seq![rest, none]);
    assert(console::continues(b, kind));
    assert(chunk.last() == '\n');
    assert(parts.subrange(1, 1).len() == 0);
    lemma_none_kept(parts.subrange(1, 1));
    law_open_line_is_cut_at_its_bound(b.lines.last().text, rest);
    let kept = console::newest(b.lines, 499);
    assert(kept.last() == b.lines.last());
    let closed = console::continued(b, chunk, kind);
    assert(closed.last() == (Line { text: b.lines.last().text + rest, ..b.lines.last() }));
    let fresh = console::added(b, chunk, kind);
    assert(fresh.len() == 0);
    let all = closed + console::numbered(fresh, b.next_seq, kind);
    assert(all =~= closed);
    assert(!console::opens(b, chunk, kind));
    assert(console::newest(all, 500) =~= all);
}

/// A reader has lost lines if and only if the oldest line that is left is not the
/// one behind the last that they read, nor an earlier one.
pub proof fn law_lost_lines(b: BufModel, after: u64)
    requires
        b.wf(),
        after < u64::MAX,
    ensures
        console::lost(b, after) <==> b.lines.len() > 0 && after + 1 < b.lines[0].seq,
        b.lines.len() == 0 ==> !console::lost(b, after),
{
}

/// A console that was cleared holds nothing and goes on counting.
pub proof fn law_cleared_console(b: BufModel)
    ensures
        console::cleared(b).lines.len() == 0,
        console::cleared(b).next_seq == b.next_seq,
        !console::cleared(b).partial && !console::cleared(b).partial_truncated,
{
}

/// A listener is told what came in, whole where it is not too long, the line that is
/// the last by now, and whether that is still open.
pub proof fn law_listeners_are_told(e: ConsoleEvent, b: BufModel, chunk: Seq<char>, kind: LineKind)
    requires
        console::is_event(e, b, chunk, kind),
    ensures
        text::byte_len(chunk) <= 65_536 ==> e.1@ == chunk,
        b.lines.len() > 0 ==> e.0 == b.lines[b.lines.len() - 1].seq && e.2@ == b.lines[b.lines.len()
            - 1].text,
        e.3 == b.partial && e.4 == kind,
{
}

/// A reader gets every line behind the last that they read, and all that is left
/// where some were lost.
pub proof fn law_readers_get_what_is_new(s: Snapshot, b: BufModel, after: u64, i: int)
    requires
        console::is_snapshot(s, b, after),
        0 <= i < b.lines.len(),
    ensures
        s.1 <==> console::lost(b, after),
        s.1 ==> console::ring(s.0@) == b.lines,
        !s.1 && b.lines[i].seq > after ==> console::ring(s.0@).contains(b.lines[i]),
        !s.1 && b.lines[i].seq <= after ==> !console::ring(s.0@).contains(b.lines[i]),
        s.2 == b.partial && s.3 == b.last_ok,
{
    if !s.1 {
        let f = |l: Line| l.seq > after as int;
        let r = console::ring(s.0@);
        assert(r == b.lines.filter(f));
        if b.lines[i].seq > after {
            b.lines.lemma_filter_contains(f, i);
        } else if r.contains(b.lines[i]) {
            let k = choose|k: int| 0 <= k < r.len() && r[k] == b.lines[i];
            b.lines.lemma_filter_pred(f, k);
            assert(f(r[k]));
        }
    }
}

/// The pieces of two texts are kept as they are kept apart.
proof fn lemma_nonempty_adds(a: Seq<Seq<char>>, b: Seq<Seq<char>>)
    ensures
        console::nonempty(a + b) == console::nonempty(a) + console::nonempty(b),
{
    Seq::filter_distributes_over_add(a, b, |p: Seq<char>| p.len() > 0);
}

/// Numbers go on from one text to the next.
proof fn lemma_numbered(x: Seq<char>, ts: Seq<Seq<char>>, from: int, kind: LineKind)
    ensures
        console::numbered(seq![x] + ts, from, kind) == seq![(Line { seq: from, text: x, kind })]
            + console::numbered(ts, from + 1, kind),
{
    assert(console::numbered(seq![x] + ts, from, kind) =~= seq![
        (Line { seq: from, text: x, kind }),
    ] + console::numbered(ts, from + 1, kind));
}

/// What comes in at once is taken line by line: a whole line and what follows it do
/// to a console what they do one after the other.
pub proof fn law_output_is_taken_line_by_line(
    b: BufModel,
    line: Seq<char>,
    rest: Seq<char>,
    kind: LineKind,
)
    requires
        b.wf(),
        !(b.partial && b.partial_kind == Some(kind)),
        b.lines.len() < 499,
        line.len() > 0,
        forall|i: int| 0 <= i < line.len() ==> #[trigger] line[i] != '\n',
        rest.len() > 0,
    ensures
        console::appended(b, line + seq!['\n'] + rest, kind) == console::appended(
            console::appended(b, line + seq!['\n'], kind),
            rest,
            kind,
        ),
{
    let whole = line + seq!['\n'] + rest;
    let first = line + seq!['\n'];
    let none = Seq::<char>::empty();
    texts::law_splitting(line, '\n', rest);
    texts::law_splitting(line, '\n', none);
    texts::law_splitting(none, '\n', none);
    assert(first + none =~= first);
    text::lemma_split_len(rest, '\n');
    let more = text::split_on(rest, '\n');
    let parts = text::split_on(whole, '\n');
    assert(parts == seq![line] + more);
    assert(text::split_on(first, '\n') =~= seq![line, none]);
    assert(whole.last() == rest.last());
    assert(first.last() == '\n');
    lemma_one_kept(line);
    assert(seq![line, none].subrange(0, 1) =~= seq![line]);
    assert(console::added(b, first, kind) == seq![line]);
    let c = console::appended(b, first, kind);
    let x = Line { seq: b.next_seq, text: line, kind };
    assert(console::numbered(seq![line], b.next_seq, kind) =~= seq![x]);
    assert(c.lines =~= b.lines + seq![x]);
    assert(c.next_seq == b.next_seq + 1 && c.last_ok == b.next_seq && !c.partial);
    assert(!console::continues(c, kind));
    let lasts = more.subrange(0, more.len() - 1);
    let fresh = console::nonempty(lasts);
    assert(console::added(c, rest, kind) == fresh);
    assert(parts.subrange(0, parts.len() - 1) =~= seq![line] + lasts);
    lemma_nonempty_adds(seq![line], lasts);
    assert(console::added(b, whole, kind) == seq![line] + fresh);
    lemma_numbered(line, fresh, b.next_seq, kind);
    assert(b.lines + (seq![x] + console::numbered(fresh, b.next_seq + 1, kind)) =~= c.lines
        + console::numbered(fresh, c.next_seq, kind));
    assert(parts.last() == more.last());
}

/// So is the end of an open line and what follows it.
pub proof fn law_open_line_is_closed_first(
    b: BufModel,
    head: Seq<char>,
    rest: Seq<char>,
    kind: LineKind,
)
    requires
        b.wf(),
        b.partial && b.partial_kind == Some(kind),
        b.lines.len() < 500,
        forall|i: int| 0 <= i < head.len() ==> #[trigger] head[i] != '\n',
        rest.len() > 0,
    ensures
        console::appended(b, head + seq!['\n'] + rest, kind) == console::appended(
            console::appended(b, head + seq!['\n'], kind),
            rest,
            kind,
        ),
{
    let whole = head + seq!['\n'] + rest;
    let first = head + seq!['\n'];
    let none = Seq::<char>::empty();
    texts::law_splitting(head, '\n', rest);
    texts::law_splitting(head, '\n', none);
    texts::law_splitting(none, '\n', none);
    assert(first + none =~= first);
    text::lemma_split_len(rest, '\n');
    let more = text::split_on(rest, '\n');
    let parts = text::split_on(whole, '\n');
    assert(parts == seq![head] + more);
    assert(text::split_on(first, '\n') =~= seq![head, none]);
    assert(whole.last() == rest.last());
    assert(first.last() == '\n');
    assert(console::continues(b, kind));
    lemma_none_kept(seq![head, none].subrange(1, 1));
    assert(console::added(b, first, kind).len() == 0);
    let c = console::appended(b, first, kind);
    let closed = console::continued(b, first, kind);
    assert(parts[0] == head);
    assert(console::continued(b, whole, kind) == closed);
    assert(closed + console::numbered(console::added(b, first, kind), b.next_seq, kind) =~= closed);
    assert(c.lines =~= closed);
    assert(c.next_seq == b.next_seq && !c.partial && c.last_ok == b.lines.last().seq);
    assert(!console::continues(c, kind));
    let lasts = more.subrange(0, more.len() - 1);
    assert(parts.subrange(1, parts.len() - 1) =~= lasts);
    assert(console::added(b, whole, kind) == console::added(c, rest, kind));
    assert(parts.last() == more.last());
}

} // verus!
