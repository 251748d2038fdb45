//! Console service: per-server line ring, live events and log chunks.
use crate::text;
use vstd::prelude::*;
use vstd::string::*;

verus! {

/// What produced a console line: runtime output from the server process, or
/// install-script output.
#[derive(Debug, Clone, Copy, PartialEq, Eq, Structural)]
pub enum LineKind {
    Runtime,
    Install,
}

impl LineKind {
    /// Name of the stream event that delivers lines of this kind.
    pub open spec fn event_name_spec(self) -> Seq<char> {
        match self {
            LineKind::Runtime => "console"@,
            LineKind::Install => "install"@,
        }
    }

    /// Event name used to deliver lines of this kind.
    pub fn event_name(self) -> (r: &'static str)
        ensures
            r@ == self.event_name_spec(),
    {
        match self {
            LineKind::Runtime => "console",
            LineKind::Install => "install",
        }
    }
}

/// One complete console line: its text plus the stream it came from.
#[derive(Debug, Clone, PartialEq, Eq)]
pub struct ConsoleEntry {
    pub text: String,
    pub kind: LineKind,
}

/// A console line as it is handed to a consumer.
#[derive(Debug, Clone)]
pub struct ConsoleLine {
    pub server_id: i64,
    pub line: String,
    pub at: String,
}

/// Lines kept per server.
pub const BUFFER_CAP: usize = 500;

/// Size past which a server's log file is rotated.
pub const LOG_ROTATE_BYTES: u64 = 64 * 1024 * 1024;

/// Cap, in bytes, for an unterminated partial line.
pub const PARTIAL_CAP: usize = 64 * 1024;

/// Mark at the end of a line that was cut at the cap.
pub const PARTIAL_TRUNC_MARKER: &'static str = "…[truncated]";

/// Live subscribers allowed per server.
pub const MAX_SUBSCRIBERS_PER_SERVER: usize = 8;

/// Time cap, in seconds, on one write to a child's standard input.
pub const COMMAND_WRITE_TIMEOUT_SECS: u64 = 5;

/// One ring line: sequence id, text and stream.
pub ghost struct Line {
    pub seq: int,
    pub text: Seq<char>,
    pub kind: LineKind,
}

/// The mathematical state of one server's console.
#[verifier::ext_equal]
pub ghost struct BufModel {
    pub next_seq: int,
    pub last_ok: int,
    pub lines: Seq<Line>,
    pub partial: bool,
    pub partial_kind: Option<LineKind>,
    pub partial_truncated: bool,
}

/// The lines that a vector of numbered entries holds.
pub open spec fn ring(v: Seq<(u64, ConsoleEntry)>) -> Seq<Line> {
    Seq::new(v.len(), |i: int| (Line { seq: v[i].0 as int, text: v[i].1.text@, kind: v[i].1.kind }))
}

/// How many characters of `s`, from the front, fit into `room` bytes.
pub open spec fn fitting(s: Seq<char>, room: int) -> int
    decreases s.len(),
{
    if s.len() == 0 || text::char_width(s[0]) > room {
        0
    } else {
        1 + fitting(s.drop_first(), room - text::char_width(s[0]))
    }
}

/// The text and the truncation mark of a line `have` after `add` continued it:
/// cut at the cap with the marker, and closed to anything further once cut.
pub open spec fn merged(have: Seq<char>, truncated: bool, add: Seq<char>) -> (Seq<char>, bool) {
    let room = if text::byte_len(have) > PARTIAL_CAP {
        0int
    } else {
        PARTIAL_CAP - text::byte_len(have)
    };
    if truncated {
        (have, true)
    } else if text::byte_len(add) > room {
        (have + add.take(fitting(add, room)) + PARTIAL_TRUNC_MARKER@, true)
    } else {
        (have + add, false)
    }
}

proof fn lemma_fitting(s: Seq<char>, room: int)
    requires
        0 <= room,
    ensures
        0 <= fitting(s, room) <= s.len(),
        text::byte_len(s.take(fitting(s, room))) <= room,
    decreases s.len(),
{
    if s.len() == 0 || text::char_width(s[0]) > room {
        assert(s.take(0) =~= Seq::<char>::empty());
    } else {
        let t = s.drop_first();
        let n = fitting(t, room - text::char_width(s[0]));
        lemma_fitting(t, room - text::char_width(s[0]));
        assert(s.take(1 + n).drop_first() =~= t.take(n));
    }
}

/// A continued line stays within the cap, or within the cap and the marker
/// where it was cut.
proof fn lemma_merged_bounded(have: Seq<char>, truncated: bool, add: Seq<char>)
    requires
        !truncated ==> text::byte_len(have) <= PARTIAL_CAP,
        truncated ==> text::byte_len(have) <= PARTIAL_CAP + text::byte_len(PARTIAL_TRUNC_MARKER@),
    ensures
        ({
            let (t, cut) = merged(have, truncated, add);
            &&& !cut ==> text::byte_len(t) <= PARTIAL_CAP
            &&& cut ==> text::byte_len(t) <= PARTIAL_CAP + text::byte_len(PARTIAL_TRUNC_MARKER@)
        }),
{
    if !truncated {
        let room = PARTIAL_CAP - text::byte_len(have);
        lemma_fitting(add, room);
        let part = add.take(fitting(add, room));
        text::lemma_byte_len_add(have, part);
        text::lemma_byte_len_add(have + part, PARTIAL_TRUNC_MARKER@);
        text::lemma_byte_len_add(have, add);
    }
}

/// Appends `add` to the in-flight partial line `entry`, capping the total at
/// [`PARTIAL_CAP`] bytes, and tells whether the line is now cut.
pub fn merge_partial(entry: &mut ConsoleEntry, truncated: bool, add: &str) -> (r: bool)
    ensures
        (final(entry).text@, r) == merged(old(entry).text@, truncated, add@),
        final(entry).kind == old(entry).kind,
{
    if truncated {
        return true;
    }
    let have = text::byte_length(entry.text.as_str());
    let room: usize = PARTIAL_CAP.saturating_sub(have);
    if text::byte_length(add) > room {
        let cs = text::chars_of(add);
        let ghost before = entry.text@;
        let mut left: usize = room;
        let mut i: usize = 0;
        assert(cs@.skip(0) =~= cs@);
        while i < cs.len() && text::width_of(cs[i]) <= left
            invariant
                i <= cs@.len(),
                i + fitting(cs@.skip(i as int), left as int) == fitting(cs@, room as int),
                entry.text@ == before + cs@.take(i as int),
                entry.kind == old(entry).kind,
            decreases cs.len() - i,
        {
            proof {
                assert(cs@.skip(i as int).drop_first() =~= cs@.skip(i + 1));
                assert(cs@.take(i + 1) =~= cs@.take(i as int).push(cs@[i as int]));
            }
            left = left - text::width_of(cs[i]);
            entry.text.push(cs[i]);
            i += 1;
        }
        assert(i == fitting(cs@, room as int));
        entry.text.append(PARTIAL_TRUNC_MARKER);
        true
    } else {
        entry.text.append(add);
        truncated
    }
}

/// Per-server console line store: monotonic sequence ids over a bounded ring.
#[derive(Debug, Clone)]
pub struct LineBuf {
    /// Id of the next line.
    next_seq: u64,
    /// Id of the last complete line, 0 while there is none.
    last_ok: u64,
    /// Numbered lines, ascending.
    lines: Vec<(u64, ConsoleEntry)>,
    /// Whether the last line is unterminated.
    partial: bool,
    /// Stream of the last unterminated line.
    partial_kind: Option<LineKind>,
    /// Whether the last unterminated line was cut at the cap.
    partial_truncated: bool,
}

/// A live console event: id of the last ring line, raw chunk, text of the last
/// ring line, whether the chunk leaves a line unterminated, and its stream.
pub type ConsoleEvent = (u64, String, String, bool, LineKind);

/// What an append hands on: the lines that console watchers look at, and the
/// event for live subscribers.
#[derive(Debug)]
pub struct Appended {
    pub completed: Vec<String>,
    pub event: ConsoleEvent,
}

impl View for LineBuf {
    type V = BufModel;

    closed spec fn view(&self) -> BufModel {
        BufModel {
            next_seq: self.next_seq as int,
            last_ok: self.last_ok as int,
            lines: ring(self.lines@),
            partial: self.partial,
            partial_kind: self.partial_kind,
            partial_truncated: self.partial_truncated,
        }
    }
}

impl BufModel {
    /// The state of a console that has seen nothing.
    pub open spec fn fresh() -> BufModel {
        BufModel {
            next_seq: 1,
            last_ok: 0,
            lines: Seq::empty(),
            partial: false,
            partial_kind: None,
            partial_truncated: false,
        }
    }

    /// Ids are consecutive and end just below the next id, the ring is bounded,
    /// and an unterminated line is the last one and within the cap.
    pub open spec fn wf(self) -> bool {
        &&& 1 <= self.next_seq
        &&& 0 <= self.last_ok < self.next_seq
        &&& self.lines.len() <= BUFFER_CAP
        &&& self.lines.len() < self.next_seq
        &&& forall|i: int|
            0 <= i < self.lines.len() ==> (#[trigger] self.lines[i]).seq == self.next_seq
                - self.lines.len() + i
        &&& self.partial ==> {
            &&& self.lines.len() > 0
            &&& self.partial_kind == Some(self.lines.last().kind)
            &&& !self.partial_truncated ==> text::byte_len(self.lines.last().text) <= PARTIAL_CAP
            &&& self.partial_truncated ==> text::byte_len(self.lines.last().text) <= PARTIAL_CAP
                + text::byte_len(PARTIAL_TRUNC_MARKER@)
        }
    }
}

/// The last `n` lines.
pub open spec fn newest(lines: Seq<Line>, n: int) -> Seq<Line> {
    if lines.len() > n {
        lines.skip(lines.len() - n)
    } else {
        lines
    }
}

/// The non-empty ones of some texts.
pub open spec fn nonempty(parts: Seq<Seq<char>>) -> Seq<Seq<char>> {
    parts.filter(|p: Seq<char>| p.len() > 0)
}

/// Texts as consecutive lines of one stream.
pub open spec fn numbered(texts: Seq<Seq<char>>, from: int, kind: LineKind) -> Seq<Line> {
    Seq::new(texts.len(), |i: int| (Line { seq: from + i, text: texts[i], kind }))
}

/// Whether a chunk of stream `kind` continues the unterminated line of `b`.
pub open spec fn continues(b: BufModel, kind: LineKind) -> bool {
    b.partial && b.partial_kind == Some(kind)
}

/// The complete lines that a chunk adds: what stands before its last newline,
/// without what completes an unterminated line, and without empty lines.
pub open spec fn added(b: BufModel, chunk: Seq<char>, kind: LineKind) -> Seq<Seq<char>> {
    let parts = text::split_on(chunk, '\n');
    let from: int = if continues(b, kind) && parts.len() > 1 {
        1
    } else {
        0
    };
    nonempty(parts.subrange(from, parts.len() - 1))
}

/// Whether a chunk leaves a line of its own unterminated: it does not end in a
/// newline, nor is it all of it a continuation.
pub open spec fn opens(b: BufModel, chunk: Seq<char>, kind: LineKind) -> bool {
    chunk.last() != '\n' && !(continues(b, kind) && text::split_on(chunk, '\n').len() == 1)
}

/// The ring just before a chunk's own lines come: room is made for one line,
/// and the unterminated line takes what continues it.
pub open spec fn continued(b: BufModel, chunk: Seq<char>, kind: LineKind) -> Seq<Line> {
    let kept = newest(b.lines, BUFFER_CAP - 1);
    if continues(b, kind) {
        let head = text::split_on(chunk, '\n')[0];
        kept.drop_last().push(
            Line { text: merged(kept.last().text, b.partial_truncated, head).0, ..kept.last() },
        )
    } else {
        kept
    }
}

/// The state of a console after a chunk of output.
pub open spec fn appended(b: BufModel, chunk: Seq<char>, kind: LineKind) -> BufModel {
    let parts = text::split_on(chunk, '\n');
    let head_cut = if continues(b, kind) {
        merged(newest(b.lines, BUFFER_CAP - 1).last().text, b.partial_truncated, parts[0]).1
    } else {
        false
    };
    let fresh = added(b, chunk, kind);
    let tail = merged(Seq::empty(), false, parts.last());
    let closed_lines = continued(b, chunk, kind) + numbered(fresh, b.next_seq, kind);
    let all = if opens(b, chunk, kind) {
        closed_lines.push(Line { seq: b.next_seq + fresh.len(), text: tail.0, kind })
    } else {
        closed_lines
    };
    if chunk.len() == 0 {
        b
    } else {
        BufModel {
            next_seq: b.next_seq + fresh.len() + if opens(b, chunk, kind) {
                1int
            } else {
                0int
            },
            last_ok: if fresh.len() > 0 {
                b.next_seq + fresh.len() - 1
            } else if b.partial && (!continues(b, kind) || parts.len() > 1) {
                b.lines.last().seq
            } else {
                b.last_ok
            },
            lines: newest(all, BUFFER_CAP as int),
            partial: chunk.last() != '\n',
            partial_kind: if chunk.last() != '\n' {
                Some(kind)
            } else {
                b.partial_kind
            },
            partial_truncated: if opens(b, chunk, kind) {
                tail.1
            } else {
                b.partial_truncated || head_cut
            },
        }
    }
}

/// The raw chunk as subscribers see it: cut at the cap like a partial line.
pub open spec fn capped(chunk: Seq<char>) -> Seq<char> {
    if text::byte_len(chunk) > PARTIAL_CAP {
        merged(Seq::empty(), false, chunk).0
    } else {
        chunk
    }
}

/// The event for live subscribers after a chunk left the console in state `b`.
pub open spec fn is_event(e: ConsoleEvent, b: BufModel, chunk: Seq<char>, kind: LineKind) -> bool {
    &&& e.0 == if b.lines.len() > 0 {
        b.lines.last().seq
    } else {
        b.last_ok
    }
    &&& e.1@ == capped(chunk)
    &&& e.2@ == if b.lines.len() > 0 {
        b.lines.last().text
    } else {
        Seq::empty()
    }
    &&& e.3 == b.partial
    &&& e.4 == kind
}


/// Drops the oldest lines until at most `n` are left.
fn keep_newest(lines: &mut Vec<(u64, ConsoleEntry)>, n: usize)
    ensures
        ring(final(lines)@) == newest(ring(old(lines)@), n as int),
{
    if lines.len() > n {
        let cut: usize = lines.len() - n;
        let ghost before = lines@;
        let kept = lines.split_off(cut);
        *lines = kept;
        assert(ring(lines@) =~= newest(ring(before), n as int));
    }
}

/// A copy of one entry.
fn copy_entry(e: &ConsoleEntry) -> (r: ConsoleEntry)
    ensures
        r.text@ == e.text@,
        r.kind == e.kind,
{
    ConsoleEntry { text: text::copy_of(e.text.as_str()), kind: e.kind }
}

proof fn lemma_ring_push(v: Seq<(u64, ConsoleEntry)>, e: (u64, ConsoleEntry))
    ensures
        ring(v.push(e)) == ring(v).push(
            Line { seq: e.0 as int, text: e.1.text@, kind: e.1.kind },
        ),
{
    assert(ring(v.push(e)) =~= ring(v).push(
        Line { seq: e.0 as int, text: e.1.text@, kind: e.1.kind },
    ));
}

proof fn lemma_numbered_push(texts: Seq<Seq<char>>, t: Seq<char>, from: int, kind: LineKind)
    ensures
        numbered(texts.push(t), from, kind) == numbered(texts, from, kind).push(
            Line { seq: from + texts.len(), text: t, kind },
        ),
{
    assert(numbered(texts.push(t), from, kind) =~= numbered(texts, from, kind).push(
        Line { seq: from + texts.len(), text: t, kind },
    ));
}

proof fn lemma_nonempty_step(parts: Seq<Seq<char>>, a: int, i: int)
    requires
        0 <= a <= i < parts.len(),
    ensures
        nonempty(parts.subrange(a, i + 1)) == if parts[i].len() > 0 {
            nonempty(parts.subrange(a, i)).push(parts[i])
        } else {
            nonempty(parts.subrange(a, i))
        },
        nonempty(parts.subrange(a, i)).len() <= i - a,
{
    let p = |p: Seq<char>| p.len() > 0;
    assert(parts.subrange(a, i + 1) =~= parts.subrange(a, i).push(parts[i]));
    parts.subrange(a, i).lemma_filter_push(parts[i], p);
    parts.subrange(a, i).lemma_filter_len(p);
}

/// What follows the last newline of a chunk is empty only where the chunk is
/// empty or ends in a newline.
proof fn lemma_split_last(s: Seq<char>, sep: char)
    requires
        s.len() > 0,
    ensures
        s.last() == sep ==> text::split_on(s, sep).last().len() == 0 && text::split_on(s, sep).len()
            > 1,
        s.last() != sep ==> text::split_on(s, sep).last().len() > 0,
{
    text::lemma_split_len(s.drop_last(), sep);
}

impl LineBuf {
    /// A console that has seen nothing.
    pub fn new() -> (r: LineBuf)
        ensures
            r@ == BufModel::fresh(),
            r@.wf(),
    {
        let r = LineBuf {
            next_seq: 1,
            last_ok: 0,
            lines: Vec::new(),
            partial: false,
            partial_kind: None,
            partial_truncated: false,
        };
        assert(ring(r.lines@) =~= Seq::<Line>::empty());
        r
    }

    /// Appends raw output: splits it into lines, numbers them, keeps the ring
    /// bounded, and hands back what watchers and subscribers are told.
    #[verifier::spinoff_prover]
    #[verifier::rlimit(40)]
    pub fn append(&mut self, chunk: &str, kind: LineKind) -> (r: Option<Appended>)
        requires
            old(self)@.wf(),
            old(self)@.next_seq + text::split_on(chunk@, '\n').len() <= u64::MAX,
        ensures
            final(self)@ == appended(old(self)@, chunk@, kind),
            final(self)@.wf(),
            match r {
                None => chunk@.len() == 0,
                Some(a) => chunk@.len() > 0 && is_event(a.event, final(self)@, chunk@, kind)
                    && text::views(a.completed@) == if kind == LineKind::Runtime {
                    added(old(self)@, chunk@, kind)
                } else {
                    Seq::empty()
                },
            },
    {
        let ghost b = self@;
        if chunk.is_empty() {
            assert(self@ =~= appended(b, chunk@, kind));
            return None;
        }
        let cs = text::chars_of(chunk);
        let parts = text::split(cs.as_slice(), '\n');
        let ghost ps = text::split_on(chunk@, '\n');
        proof {
            text::lemma_split_len(chunk@, '\n');
            lemma_split_last(chunk@, '\n');
            law_append_keeps_wf(b, chunk@, kind);
        }
        let complete: usize = parts.len() - 1;
        let ends_open = cs[cs.len() - 1] != '\n';
        keep_newest(&mut self.lines, BUFFER_CAP - 1);
        let ghost kept = ring(self.lines@);
        let mut start: usize = 0;
        if self.partial {
            let same_stream = match self.partial_kind {
                Some(k) => k == kind,
                None => false,
            };
            let (seq, mut entry) = self.lines.pop().unwrap();
            let ghost kept_vec = self.lines@;
            if same_stream {
                let head = text::string_of(parts[0].as_slice());
                assert(head@ == ps[0]);
                if merge_partial(&mut entry, self.partial_truncated, head.as_str()) {
                    self.partial_truncated = true;
                }
                if complete >= 1 {
                    self.last_ok = seq;
                }
                start = 1;
            } else {
                self.last_ok = seq;
            }
            self.partial = false;
            self.lines.push((seq, entry));
            proof {
                lemma_ring_push(kept_vec, (seq, entry));
                assert(ring(kept_vec) =~= kept.drop_last());
            }
        }
        assert(ring(self.lines@) =~= continued(b, chunk@, kind));
        let ghost base = continued(b, chunk@, kind);
        let ghost from: int = if continues(b, kind) && ps.len() > 1 {
            1
        } else {
            0
        };
        let ghost after_head = *self;
        let mut completed: Vec<String> = Vec::new();
        let watch = match kind {
            LineKind::Runtime => true,
            LineKind::Install => false,
        };
        let mut i: usize = if start < complete {
            start
        } else {
            complete
        };
        assert(i == from || i == complete);
        assert(nonempty(ps.subrange(i as int, i as int)) =~= Seq::<Seq<char>>::empty()) by {
            reveal(Seq::filter);
        }
        let ghost first = i as int;
        assert(added(b, chunk@, kind) == nonempty(ps.subrange(first, complete as int)));
        assert(ring(self.lines@) =~= base + numbered(
            nonempty(ps.subrange(first, first)),
            b.next_seq,
            kind,
        ));
        assert(text::views(completed@) =~= Seq::<Seq<char>>::empty());
        while i < complete
            invariant
                first <= i <= complete,
                0 <= first,
                complete == ps.len() - 1,
                text::runs(parts@) == ps,
                b.next_seq + ps.len() <= u64::MAX,
                watch == (kind == LineKind::Runtime),
                ring(self.lines@) == base + numbered(
                    nonempty(ps.subrange(first, i as int)),
                    b.next_seq,
                    kind,
                ),
                self.next_seq == b.next_seq + nonempty(ps.subrange(first, i as int)).len(),
                nonempty(ps.subrange(first, i as int)).len() <= i - first,
                self.last_ok == if nonempty(ps.subrange(first, i as int)).len() > 0 {
                    self.next_seq - 1
                } else {
                    after_head.last_ok as int
                },
                self.partial == after_head.partial,
                self.partial_kind == after_head.partial_kind,
                self.partial_truncated == after_head.partial_truncated,
                text::views(completed@) == if watch {
                    nonempty(ps.subrange(first, i as int))
                } else {
                    Seq::empty()
                },
            decreases complete - i,
        {
            let ghost texts = nonempty(ps.subrange(first, i as int));
            proof {
                lemma_nonempty_step(ps, first, i as int);
                assert(ps[i as int] == parts@[i as int]@);
            }
            if parts[i].len() > 0 {
                let seq: u64 = self.next_seq;
                let line = text::string_of(parts[i].as_slice());
                if watch {
                    let ghost before = text::views(completed@);
                    completed.push(text::copy_of(line.as_str()));
                    assert(text::views(completed@) =~= before.push(ps[i as int]));
                }
                let entry = ConsoleEntry { text: line, kind };
                proof {
                    lemma_ring_push(self.lines@, (seq, entry));
                    lemma_numbered_push(texts, ps[i as int], b.next_seq, kind);
                }
                self.lines.push((seq, entry));
                self.next_seq = seq + 1;
                self.last_ok = seq;
                assert(ring(self.lines@) =~= base + numbered(
                    texts.push(ps[i as int]),
                    b.next_seq,
                    kind,
                ));
            }
            i += 1;
        }
        let ghost fresh = added(b, chunk@, kind);
        let ghost closed_lines = base + numbered(fresh, b.next_seq, kind);
        assert(ring(self.lines@) == closed_lines);
        if ends_open {
            let already_merged = start == 1 && complete == 0;
            if !already_merged {
                let seq: u64 = self.next_seq;
                let tail = text::string_of(parts[complete].as_slice());
                assert(tail@ == ps.last());
                let mut entry = ConsoleEntry { text: String::new(), kind };
                self.partial_truncated = merge_partial(&mut entry, false, tail.as_str());
                proof {
                    lemma_ring_push(self.lines@, (seq, entry));
                }
                self.lines.push((seq, entry));
                self.next_seq = seq + 1;
            }
            self.partial = true;
            self.partial_kind = Some(kind);
        }
        keep_newest(&mut self.lines, BUFFER_CAP);
        assert(self@ =~= appended(b, chunk@, kind));
        let n: usize = self.lines.len();
        let (live_seq, live_full) = if n > 0 {
            (self.lines[n - 1].0, text::copy_of(self.lines[n - 1].1.text.as_str()))
        } else {
            (self.last_ok, String::new())
        };
        let raw = if text::byte_length(chunk) > PARTIAL_CAP {
            let mut cut = ConsoleEntry { text: String::new(), kind };
            let _ = merge_partial(&mut cut, false, chunk);
            cut.text
        } else {
            text::copy_of(chunk)
        };
        Some(Appended { completed, event: (live_seq, raw, live_full, self.partial, kind) })
    }
}

/// A chunk of output keeps the console well formed: ids stay consecutive and
/// below the next id, the ring stays bounded, and so does an unterminated line.
pub proof fn law_append_keeps_wf(b: BufModel, chunk: Seq<char>, kind: LineKind)
    requires
        b.wf(),
    ensures
        appended(b, chunk, kind).wf(),
{
    if chunk.len() > 0 {
        let parts = text::split_on(chunk, '\n');
        let kept = newest(b.lines, BUFFER_CAP - 1);
        let fresh = added(b, chunk, kind);
        let base = continued(b, chunk, kind);
        let closed_lines = base + numbered(fresh, b.next_seq, kind);
        let after = appended(b, chunk, kind);
        text::lemma_split_len(chunk, '\n');
        lemma_split_last(chunk, '\n');
        if continues(b, kind) {
            assert(kept.last() == b.lines.last());
            lemma_merged_bounded(kept.last().text, b.partial_truncated, parts[0]);
        }
        assert(text::byte_len(Seq::<char>::empty()) == 0);
        lemma_merged_bounded(Seq::empty(), false, parts.last());
        assert(base.len() == kept.len());
        assert forall|i: int| 0 <= i < closed_lines.len() implies (
        #[trigger] closed_lines[i]).seq == b.next_seq - base.len() + i by {
            if i < base.len() {
                assert(base[i].seq == kept[i].seq);
                assert(kept[i] == b.lines[i + b.lines.len() - kept.len()]);
            }
        }
        assert forall|i: int| 0 <= i < after.lines.len() implies (#[trigger] after.lines[i]).seq
            == after.next_seq - after.lines.len() + i by {}
        if !opens(b, chunk, kind) && after.partial {
            assert(parts.len() == 1);
            assert(fresh =~= Seq::<Seq<char>>::empty()) by {
                assert(parts.subrange(0, 0) =~= Seq::<Seq<char>>::empty());
                reveal(Seq::filter);
            }
            assert(closed_lines =~= base);
        }
    }
}

/// Whether the ring lost ids that a client at `after` has not seen.
pub open spec fn lost(b: BufModel, after: u64) -> bool {
    b.lines.len() > 0 && b.lines[0].seq > after + 1 && after < u64::MAX
}

/// The lines with an id above `after`.
pub open spec fn newer(lines: Seq<Line>, after: int) -> Seq<Line> {
    lines.filter(|l: Line| l.seq > after)
}

/// What a client that resumes after id `after` is given: the whole ring where
/// it lost ids the client needs, else the newer lines; whether ids were lost;
/// whether the last line is unterminated; and the id of the last complete line.
pub type Snapshot = (Vec<(u64, ConsoleEntry)>, bool, bool, u64);

/// Whether `s` is the snapshot of `b` for a client at `after`.
pub open spec fn is_snapshot(s: Snapshot, b: BufModel, after: u64) -> bool {
    &&& s.1 == lost(b, after)
    &&& ring(s.0@) == if lost(b, after) {
        b.lines
    } else {
        newer(b.lines, after as int)
    }
    &&& s.2 == b.partial
    &&& s.3 == b.last_ok
}

/// The state of a console after its history was cleared: ids go on.
pub open spec fn cleared(b: BufModel) -> BufModel {
    BufModel { next_seq: b.next_seq, ..BufModel::fresh() }
}

impl LineBuf {
    /// Snapshot for a client that resumes after id `after_seq`.
    pub fn snapshot(&self, after_seq: u64) -> (r: Snapshot)
        ensures
            is_snapshot(r, self@, after_seq),
    {
        let truncated = if self.lines.len() > 0 {
            self.lines[0].0 > after_seq.saturating_add(1)
        } else {
            false
        };
        let mut out: Vec<(u64, ConsoleEntry)> = Vec::new();
        let mut i: usize = 0;
        let ghost all = ring(self.lines@);
        let ghost p = |l: Line| l.seq > after_seq;
        assert(ring(out@) =~= all.take(0));
        assert(all.take(0).filter(p) =~= all.take(0)) by {
            reveal(Seq::filter);
        }
        while i < self.lines.len()
            invariant
                i <= self.lines@.len(),
                all == ring(self.lines@),
                p == (|l: Line| l.seq > after_seq),
                ring(out@) == if truncated {
                    all.take(i as int)
                } else {
                    all.take(i as int).filter(p)
                },
            decreases self.lines.len() - i,
        {
            let seq: u64 = self.lines[i].0;
            proof {
                assert(all.take(i + 1) =~= all.take(i as int).push(all[i as int]));
                all.take(i as int).lemma_filter_push(all[i as int], p);
            }
            if truncated || seq > after_seq {
                let entry = copy_entry(&self.lines[i].1);
                proof {
                    lemma_ring_push(out@, (seq, entry));
                }
                out.push((seq, entry));
            }
            i += 1;
        }
        assert(all.take(i as int) =~= all);
        (out, truncated, self.partial, self.last_ok)
    }

    /// Forgets every line and any unterminated one; ids stay monotonic.
    pub fn clear(&mut self)
        ensures
            final(self)@ == cleared(old(self)@),
            old(self)@.wf() ==> final(self)@.wf(),
    {
        let ghost b = self@;
        self.lines.clear();
        self.partial = false;
        self.partial_kind = None;
        self.partial_truncated = false;
        self.last_ok = 0;
        assert(self@ =~= cleared(b));
    }
}

/// `dashmap::DashMap`: the map from server ids to console buffers.
#[verifier::external_type_specification]
#[verifier::external_body]
#[verifier::reject_recursive_types(K)]
#[verifier::reject_recursive_types(V)]
#[verifier::reject_recursive_types(S)]
pub struct ExDashMap<K, V, S>(dashmap::DashMap<K, V, S>);

/// The map without any console.
pub open spec fn no_consoles() -> Map<i64, BufModel> {
    Map::empty()
}

/// What a map of console buffers holds, each buffer by its state.
pub uninterp spec fn buffers_of(m: dashmap::DashMap<i64, LineBuf>) -> Map<i64, BufModel>;

/// `DashMap::new` makes an empty map.
#[verifier::external_body]
fn buffers_new() -> (m: dashmap::DashMap<i64, LineBuf>)
    ensures
        buffers_of(m) == no_consoles(),
{
    dashmap::DashMap::new()
}

/// `DashMap::insert` puts a value under a key in place of any it had.
#[verifier::external_body]
fn buffers_insert(m: &mut dashmap::DashMap<i64, LineBuf>, key: i64, value: LineBuf)
    ensures
        buffers_of(*final(m)) == buffers_of(*old(m)).insert(key, value@),
{
    m.insert(key, value);
}

/// `DashMap::remove` takes a key's value out of the map and hands it back.
#[verifier::external_body]
fn buffers_remove(m: &mut dashmap::DashMap<i64, LineBuf>, key: i64) -> (r: Option<LineBuf>)
    ensures
        buffers_of(*final(m)) == buffers_of(*old(m)).remove(key),
        match r {
            Some(b) => buffers_of(*old(m)).contains_key(key) && b@ == buffers_of(*old(m))[key],
            None => !buffers_of(*old(m)).contains_key(key),
        },
{
    m.remove(&key).map(|entry| entry.1)
}

/// `DashMap::view` hands a key's value to a function, here to
/// [`LineBuf::snapshot`], and gives back what it returns.
#[verifier::external_body]
fn buffers_view(m: &dashmap::DashMap<i64, LineBuf>, key: i64, after_seq: u64) -> (r: Option<
    Snapshot,
>)
    ensures
        match r {
            Some(s) => buffers_of(*m).contains_key(key) && is_snapshot(
                s,
                buffers_of(*m)[key],
                after_seq,
            ),
            None => !buffers_of(*m).contains_key(key),
        },
{
    m.view(&key, |_, buf| buf.snapshot(after_seq))
}

/// Failure modes of a console command.
#[derive(Debug, Clone, PartialEq, Eq)]
pub enum StdinError {
    /// The writer queue is full or the writer is gone.
    Busy,
    /// The child did not take the write in time.
    TimedOut,
    /// The write itself failed.
    WriteFailed(String),
}

/// The subscriber cap was reached for a server's live console stream.
#[derive(Debug, Clone, Copy, PartialEq, Eq)]
pub struct TooManySubscribers;

/// The consoles of all servers.
pub struct ConsoleHub {
    buffers: dashmap::DashMap<i64, LineBuf>,
}

impl View for ConsoleHub {
    type V = Map<i64, BufModel>;

    closed spec fn view(&self) -> Map<i64, BufModel> {
        buffers_of(self.buffers)
    }
}

/// The console of one server: fresh while nothing was appended.
pub open spec fn console_of(hub: Map<i64, BufModel>, server_id: i64) -> BufModel {
    if hub.contains_key(server_id) {
        hub[server_id]
    } else {
        BufModel::fresh()
    }
}

/// Every console of the hub is well formed.
pub open spec fn hub_wf(hub: Map<i64, BufModel>) -> bool {
    forall|id: i64| hub.contains_key(id) ==> (#[trigger] hub[id]).wf()
}

/// The hub after a chunk of output of one server.
pub open spec fn hub_appended(
    hub: Map<i64, BufModel>,
    server_id: i64,
    chunk: Seq<char>,
    kind: LineKind,
) -> Map<i64, BufModel> {
    if chunk.len() == 0 {
        hub
    } else {
        hub.insert(server_id, appended(console_of(hub, server_id), chunk, kind))
    }
}

impl ConsoleHub {
    /// A hub without any console.
    pub fn new() -> (r: ConsoleHub)
        ensures
            r@ == Map::<i64, BufModel>::empty(),
            hub_wf(r@),
    {
        ConsoleHub { buffers: buffers_new() }
    }

    /// Appends raw output of one server; see [`LineBuf::append`]. An empty
    /// chunk changes nothing.
    pub fn append(&mut self, server_id: i64, chunk: &str, kind: LineKind) -> (r: Option<Appended>)
        requires
            hub_wf(old(self)@),
            console_of(old(self)@, server_id).next_seq + text::split_on(chunk@, '\n').len()
                <= u64::MAX,
        ensures
            final(self)@ == hub_appended(old(self)@, server_id, chunk@, kind),
            hub_wf(final(self)@),
            match r {
                None => chunk@.len() == 0,
                Some(a) => chunk@.len() > 0 && is_event(
                    a.event,
                    final(self)@[server_id],
                    chunk@,
                    kind,
                ) && text::views(a.completed@) == if kind == LineKind::Runtime {
                    added(console_of(old(self)@, server_id), chunk@, kind)
                } else {
                    Seq::empty()
                },
            },
    {
        if chunk.is_empty() {
            return None;
        }
        let ghost before = self@;
        let mut buf = match buffers_remove(&mut self.buffers, server_id) {
            Some(b) => b,
            None => LineBuf::new(),
        };
        let r = buf.append(chunk, kind);
        buffers_insert(&mut self.buffers, server_id, buf);
        assert(self@ =~= before.insert(
            server_id,
            appended(console_of(before, server_id), chunk@, kind),
        ));
        r
    }

    /// Snapshot of one server's console for a client that resumes after id
    /// `after_seq`; empty where the server has no console.
    pub fn snapshot(&self, server_id: i64, after_seq: u64) -> (r: Snapshot)
        ensures
            self@.contains_key(server_id) ==> is_snapshot(r, self@[server_id], after_seq),
            !self@.contains_key(server_id) ==> r.0@.len() == 0 && !r.1 && !r.2 && r.3 == 0,
    {
        match buffers_view(&self.buffers, server_id, after_seq) {
            Some(s) => s,
            None => (Vec::new(), false, false, 0),
        }
    }

    /// The lines and the truncation mark of [`ConsoleHub::snapshot`].
    pub fn history(&self, server_id: i64, after_seq: u64) -> (r: (Vec<(u64, ConsoleEntry)>, bool))
        ensures
            r.1 == lost(console_of(self@, server_id), after_seq),
            ring(r.0@) == if r.1 {
                console_of(self@, server_id).lines
            } else {
                newer(console_of(self@, server_id).lines, after_seq as int)
            },
    {
        let (lines, truncated, _, _) = self.snapshot(server_id, after_seq);
        proof {
            if !self@.contains_key(server_id) {
                reveal(Seq::filter);
                assert(ring(lines@) =~= newer(Seq::empty(), after_seq as int));
            }
        }
        (lines, truncated)
    }

    /// Clears one server's history and tells subscribers to rebuild: the event
    /// has id 0 and an empty chunk.
    pub fn clear(&mut self, server_id: i64) -> (event: ConsoleEvent)
        ensures
            final(self)@ == if old(self)@.contains_key(server_id) {
                old(self)@.insert(server_id, cleared(old(self)@[server_id]))
            } else {
                old(self)@
            },
            hub_wf(old(self)@) ==> hub_wf(final(self)@),
            event.0 == 0,
            event.1@.len() == 0,
            event.2@.len() == 0,
            !event.3,
            event.4 == LineKind::Runtime,
    {
        let ghost before = self@;
        match buffers_remove(&mut self.buffers, server_id) {
            Some(b) => {
                let mut buf = b;
                buf.clear();
                buffers_insert(&mut self.buffers, server_id, buf);
                assert(self@ =~= before.insert(server_id, cleared(before[server_id])));
            },
            None => {
                assert(self@ =~= before);
            },
        }
        (0, String::new(), String::new(), false, LineKind::Runtime)
    }

    /// Admits one more live subscriber where fewer than the cap are connected.
    pub fn subscribe(receivers: usize) -> (r: Result<(), TooManySubscribers>)
        ensures
            r is Ok <==> receivers < MAX_SUBSCRIBERS_PER_SERVER,
    {
        if receivers >= MAX_SUBSCRIBERS_PER_SERVER {
            return Err(TooManySubscribers);
        }
        Ok(())
    }
}

/// Forgets the console of a deleted server.
pub fn drop_server(hub: &mut ConsoleHub, server_id: i64)
    ensures
        final(hub)@ == old(hub)@.remove(server_id),
        hub_wf(old(hub)@) ==> hub_wf(final(hub)@),
{
    let _ = buffers_remove(&mut hub.buffers, server_id);
}

/// The escape character that starts a terminal control sequence.
pub const ESC: char = '\x1b';

/// How many characters, from the front, have codes between `lo` and `hi`.
pub open spec fn leading(s: Seq<char>, lo: char, hi: char) -> nat
    decreases s.len(),
{
    if s.len() > 0 && lo <= s[0] <= hi {
        1 + leading(s.drop_first(), lo, hi)
    } else {
        0
    }
}

/// Length of the text of a string-type sequence and its terminator: up to a
/// bell, which stays, or through an escape, with the backslash that makes it a
/// string terminator.
pub open spec fn string_len(s: Seq<char>) -> nat
    decreases s.len(),
{
    if s.len() == 0 || s[0] == '\x07' {
        0
    } else if s[0] == ESC {
        if s.len() > 1 && s[1] == '\\' {
            2
        } else {
            1
        }
    } else {
        1 + string_len(s.drop_first())
    }
}

/// Place, behind an escape and `[`, of the character that ends a control
/// sequence: after its parameters and intermediates.
pub open spec fn csi_final(s: Seq<char>) -> int {
    let params = 1 + leading(s.skip(1), '\x30', '\x3f');
    (params + leading(s.skip(params as int), '\x20', '\x2f')) as int
}

/// How many characters behind an escape belong to its sequence: a control
/// sequence with its final character, a string-type sequence, a character set
/// designator, or a single character.
pub open spec fn escape_len(s: Seq<char>) -> int {
    if s.len() == 0 {
        0
    } else if s[0] == '[' {
        if csi_final(s) < s.len() {
            csi_final(s) + 1
        } else {
            csi_final(s)
        }
    } else if s[0] == ']' || s[0] == 'P' || s[0] == '^' || s[0] == '_' {
        1 + string_len(s.skip(1)) as int
    } else if '(' <= s[0] <= '+' && s.len() >= 2 {
        2
    } else {
        1
    }
}

proof fn lemma_leading(s: Seq<char>, lo: char, hi: char)
    ensures
        leading(s, lo, hi) <= s.len(),
    decreases s.len(),
{
    if s.len() > 0 {
        lemma_leading(s.drop_first(), lo, hi);
    }
}

proof fn lemma_string_len(s: Seq<char>)
    ensures
        string_len(s) <= s.len(),
    decreases s.len(),
{
    if s.len() > 0 {
        lemma_string_len(s.drop_first());
    }
}

/// A sequence behind an escape lies within the chunk.
pub proof fn lemma_escape_len(s: Seq<char>)
    ensures
        0 <= escape_len(s) <= s.len(),
        s.len() > 0 && s[0] == '[' ==> 1 <= csi_final(s) <= s.len(),
{
    if s.len() > 0 {
        lemma_leading(s.skip(1), '\x30', '\x3f');
        lemma_leading(
            s.skip((1 + leading(s.skip(1), '\x30', '\x3f')) as int),
            '\x20',
            '\x2f',
        );
        lemma_string_len(s.skip(1));
    }
}

/// Whether a character is dropped on its own: a control character of ASCII
/// other than tab, newline and carriage return.
pub open spec fn is_dropped(c: char) -> bool {
    (c < '\x20' && c != '\t' && c != '\n' && c != '\r') || c == '\x7f'
}

/// A chunk without terminal control sequences and control characters.
pub open spec fn sanitized(s: Seq<char>) -> Seq<char>
    decreases s.len(),
{
    if s.len() == 0 {
        s
    } else if s[0] == ESC {
        proof {
            lemma_escape_len(s.drop_first());
        }
        sanitized(s.skip(1 + escape_len(s.drop_first())))
    } else if is_dropped(s[0]) {
        sanitized(s.drop_first())
    } else {
        seq![s[0]] + sanitized(s.drop_first())
    }
}

/// Place of the first character, from `from` on, whose code is not between
/// `lo` and `hi`.
fn skip_range(cs: &[char], from: usize, lo: char, hi: char) -> (r: usize)
    requires
        from <= cs@.len(),
    ensures
        r == from + leading(cs@.skip(from as int), lo, hi),
        r <= cs@.len(),
{
    let mut i: usize = from;
    while i < cs.len() && lo <= cs[i] && cs[i] <= hi
        invariant
            from <= i <= cs@.len(),
            i - from + leading(cs@.skip(i as int), lo, hi) == leading(cs@.skip(from as int), lo, hi),
        decreases cs.len() - i,
    {
        assert(cs@.skip(i as int).drop_first() =~= cs@.skip(i + 1));
        i += 1;
    }
    i
}

/// Place behind the text of a string-type sequence that starts at `from`.
fn skip_string(cs: &[char], from: usize) -> (r: usize)
    requires
        from <= cs@.len(),
    ensures
        r == from + string_len(cs@.skip(from as int)),
        r <= cs@.len(),
{
    let mut i: usize = from;
    while i < cs.len() && cs[i] != '\x07'
        invariant
            from <= i <= cs@.len(),
            i - from + string_len(cs@.skip(i as int)) == string_len(cs@.skip(from as int)),
        decreases cs.len() - i,
    {
        assert(cs@.skip(i as int).drop_first() =~= cs@.skip(i + 1));
        if cs[i] == ESC {
            if i + 1 < cs.len() && cs[i + 1] == '\\' {
                return i + 2;
            }
            return i + 1;
        }
        i += 1;
    }
    i
}

/// Place behind the sequence whose escape stands just before `from`.
fn skip_escape(cs: &[char], from: usize) -> (r: usize)
    requires
        from <= cs@.len(),
    ensures
        r == from + escape_len(cs@.skip(from as int)),
        r <= cs@.len(),
{
    let ghost s = cs@.skip(from as int);
    if from == cs.len() {
        return from;
    }
    let c = cs[from];
    if c == '[' {
        let params = skip_range(cs, from + 1, '\x30', '\x3f');
        assert(s.skip(1) =~= cs@.skip(from + 1));
        let last = skip_range(cs, params, '\x20', '\x2f');
        assert(s.skip(params - from) =~= cs@.skip(params as int));
        if last < cs.len() {
            last + 1
        } else {
            last
        }
    } else if c == ']' || c == 'P' || c == '^' || c == '_' {
        assert(s.skip(1) =~= cs@.skip(from + 1));
        skip_string(cs, from + 1)
    } else if '(' <= c && c <= '+' && cs.len() - from >= 2 {
        from + 2
    } else {
        from + 1
    }
}

/// Neutralizes terminal control sequences in a chunk before it is persisted:
/// control characters other than tab, newline and carriage return are dropped,
/// and any sequence behind an escape is removed whole.
pub fn sanitize_log_text(chunk: &str) -> (r: String)
    ensures
        r@ == sanitized(chunk@),
{
    let cs = text::chars_of(chunk);
    let mut out = String::new();
    let mut i: usize = 0;
    assert(cs@.skip(0) =~= cs@);
    while i < cs.len()
        invariant
            i <= cs@.len(),
            out@ + sanitized(cs@.skip(i as int)) == sanitized(cs@),
        decreases cs.len() - i,
    {
        let ghost s = cs@.skip(i as int);
        assert(s.drop_first() =~= cs@.skip(i + 1));
        let c = cs[i];
        if c == ESC {
            let next = skip_escape(cs.as_slice(), i + 1);
            assert(s.skip(1 + escape_len(s.drop_first())) =~= cs@.skip(next as int));
            i = next;
        } else if (c < '\x20' && c != '\t' && c != '\n' && c != '\r') || c == '\x7f' {
            i += 1;
        } else {
            let ghost before = out@;
            out.push(c);
            i += 1;
            assert(out@ + sanitized(cs@.skip(i as int)) =~= before + (seq![c] + sanitized(
                cs@.skip(i as int),
            )));
        }
    }
    assert(cs@.skip(i as int) =~= Seq::<char>::empty());
    assert(out@ + Seq::<char>::empty() =~= out@);
    out
}

/// What the log writer does with one chunk.
#[derive(Debug)]
pub enum LogPlan {
    /// Nothing of the chunk is left to write.
    Skip,
    /// Append `text`; rotate the log first where `rotate` says so.
    Write { text: String, rotate: bool },
}

/// Plans the write of one chunk to a log of `current` bytes (unknown where its
/// length could not be read): the log is rotated where the sanitized chunk would
/// push it past the limit.
pub fn plan_log_chunk(chunk: &str, current: Option<u64>) -> (r: LogPlan)
    ensures
        match r {
            LogPlan::Skip => sanitized(chunk@).len() == 0,
            LogPlan::Write { text, rotate } => text@ == sanitized(chunk@) && text@.len() > 0
                && rotate == (current is Some && current->0 + text::byte_len(text@)
                > LOG_ROTATE_BYTES),
        },
{
    let text = sanitize_log_text(chunk);
    if text.as_str().is_empty() {
        return LogPlan::Skip;
    }
    let rotate = match current {
        Some(len) => {
            let more: u64 = text::byte_length(text.as_str()) as u64;
            len.saturating_add(more) > LOG_ROTATE_BYTES
        },
        None => false,
    };
    LogPlan::Write { text, rotate }
}

/// Marks a server as warned about, and tells whether it was not before: only the
/// first failure of a server is reported.
pub fn warn_once(warned: &mut std::collections::HashSet<i64>, server_id: i64) -> (first: bool)
    ensures
        final(warned)@ == old(warned)@.insert(server_id),
        first == !old(warned)@.contains(server_id),
{
    broadcast use vstd::std_specs::hash::group_hash_axioms;

    warned.insert(server_id)
}

/// What became of a command handed to a server's standard-input writer.
#[derive(Debug)]
pub enum StdinOutcome {
    /// The writer's queue was full.
    QueueFull,
    /// The writer had ended.
    WriterGone,
    /// The write was done, or failed with a message.
    Answered(Result<(), String>),
    /// The writer dropped the command without an answer.
    AnswerLost,
    /// No answer came in time.
    NoAnswer,
}

/// The result of a console command, and whether the server's writer is stale
/// and has to be replaced.
pub fn write_stdin(outcome: StdinOutcome) -> (r: (Result<(), StdinError>, bool))
    ensures
        r.1 == (outcome is WriterGone),
        match outcome {
            StdinOutcome::QueueFull => r.0 == Err::<(), StdinError>(StdinError::Busy),
            StdinOutcome::WriterGone => r.0 == Err::<(), StdinError>(StdinError::Busy),
            StdinOutcome::Answered(Ok(_)) => r.0 is Ok,
            StdinOutcome::Answered(Err(e)) => r.0 == Err::<(), StdinError>(
                StdinError::WriteFailed(e),
            ),
            StdinOutcome::AnswerLost => r.0 matches Err(StdinError::WriteFailed(m)) && m@
                == "console command writer went away"@,
            StdinOutcome::NoAnswer => r.0 == Err::<(), StdinError>(StdinError::TimedOut),
        },
{
    match outcome {
        StdinOutcome::QueueFull => (Err(StdinError::Busy), false),
        StdinOutcome::WriterGone => (Err(StdinError::Busy), true),
        StdinOutcome::Answered(Ok(_)) => (Ok(()), false),
        StdinOutcome::Answered(Err(e)) => (Err(StdinError::WriteFailed(e)), false),
        StdinOutcome::AnswerLost => (
            Err(StdinError::WriteFailed(text::copy_of("console command writer went away"))),
            false,
        ),
        StdinOutcome::NoAnswer => (Err(StdinError::TimedOut), false),
    }
}

/// Ids are never used twice: the next id never falls, and a ring line with an
/// id below the old next id is a line that was there before.
pub proof fn law_ids_never_come_back(b: BufModel, chunk: Seq<char>, kind: LineKind, i: int)
    requires
        b.wf(),
        0 <= i < appended(b, chunk, kind).lines.len(),
    ensures
        appended(b, chunk, kind).next_seq >= b.next_seq,
        appended(b, chunk, kind).lines[i].seq < b.next_seq ==> exists|j: int|
            0 <= j < b.lines.len() && (#[trigger] b.lines[j]).seq == appended(
                b,
                chunk,
                kind,
            ).lines[i].seq,
{
    law_append_keeps_wf(b, chunk, kind);
    let after = appended(b, chunk, kind);
    if chunk.len() > 0 && after.lines[i].seq < b.next_seq {
        let base = continued(b, chunk, kind);
        let kept = newest(b.lines, BUFFER_CAP - 1);
        let fresh = added(b, chunk, kind);
        let at = after.lines[i].seq - (b.next_seq - b.lines.len());
        assert(base.len() == kept.len());
        let all = if opens(b, chunk, kind) {
            (base + numbered(fresh, b.next_seq, kind)).push(
                Line {
                    seq: b.next_seq + fresh.len(),
                    text: merged(Seq::empty(), false, text::split_on(chunk, '\n').last()).0,
                    kind,
                },
            )
        } else {
            base + numbered(fresh, b.next_seq, kind)
        };
        let place = i + all.len() - after.lines.len();
        assert(after.lines[i] == all[place]);
        if place >= base.len() {
            assert(all[place].seq >= b.next_seq);
        }
        assert(all[place] == base[place]);
        assert(base[place].seq == kept[place].seq);
        assert(kept[place] == b.lines[place + b.lines.len() - kept.len()]);
    }
}

/// A client whose cursor the ring still covers is given every later line, in
/// order and without a gap.
pub proof fn law_history_is_gapless(b: BufModel, after: u64)
    requires
        b.wf(),
        b.lines.len() > 0,
        !lost(b, after),
        after < b.next_seq <= u64::MAX,
    ensures
        newer(b.lines, after as int).len() == b.next_seq - 1 - after,
        forall|i: int|
            0 <= i < newer(b.lines, after as int).len() ==> (#[trigger] newer(
                b.lines,
                after as int,
            )[i]).seq == after + 1 + i,
{
    let first = b.next_seq - b.lines.len();
    assert(b.lines[0].seq == first);
    let cut = after + 1 - first;
    lemma_newer_is_suffix(b.lines, after as int, cut);
}

/// Where ids come in ascending order, the lines above an id are a suffix.
proof fn lemma_newer_is_suffix(lines: Seq<Line>, after: int, cut: int)
    requires
        0 <= cut <= lines.len(),
        forall|i: int| 0 <= i < cut ==> (#[trigger] lines[i]).seq <= after,
        forall|i: int| cut <= i < lines.len() ==> (#[trigger] lines[i]).seq > after,
    ensures
        newer(lines, after) == lines.skip(cut),
    decreases lines.len(),
{
    reveal(Seq::filter);
    if lines.len() == 0 {
        assert(lines.skip(cut) =~= lines);
    } else if cut == lines.len() {
        lemma_newer_is_suffix(lines.drop_last(), after, cut - 1);
        assert(lines.skip(cut) =~= Seq::<Line>::empty());
        assert(lines.drop_last().skip(cut - 1) =~= Seq::<Line>::empty());
    } else {
        lemma_newer_is_suffix(lines.drop_last(), after, cut);
        assert(lines.skip(cut) =~= lines.drop_last().skip(cut).push(lines.last()));
    }
}

/// A chunk without a newline that continues the unterminated line takes no new
/// id: the line keeps its own, and stays the last one.
pub proof fn law_continuation_keeps_id(b: BufModel, chunk: Seq<char>, kind: LineKind)
    requires
        b.wf(),
        continues(b, kind),
        chunk.len() > 0,
        text::split_on(chunk, '\n').len() == 1,
    ensures
        appended(b, chunk, kind).next_seq == b.next_seq,
        appended(b, chunk, kind).lines.last().seq == b.lines.last().seq,
        appended(b, chunk, kind).lines.last().text == merged(
            b.lines.last().text,
            b.partial_truncated,
            chunk,
        ).0,
{
    let parts = text::split_on(chunk, '\n');
    lemma_split_last(chunk, '\n');
    lemma_split_whole(chunk, '\n');
    assert(added(b, chunk, kind) =~= Seq::<Seq<char>>::empty()) by {
        assert(parts.subrange(0, 0) =~= Seq::<Seq<char>>::empty());
        reveal(Seq::filter);
    }
    let base = continued(b, chunk, kind);
    assert(base + numbered(Seq::empty(), b.next_seq, kind) =~= base);
}

/// A text without separator is its own only piece.
proof fn lemma_split_whole(s: Seq<char>, sep: char)
    requires
        text::split_on(s, sep).len() == 1,
    ensures
        text::split_on(s, sep) == seq![s],
    decreases s.len(),
{
    if s.len() > 0 {
        text::lemma_split_len(s.drop_last(), sep);
        lemma_split_whole(s.drop_last(), sep);
        assert(s.drop_last().push(s.last()) =~= s);
        assert(text::split_on(s, sep) =~= seq![s]);
    } else {
        assert(s =~= Seq::<char>::empty());
    }
}

/// A chunk of one stream never changes an unterminated line of the other: the
/// lines that stay in the ring stay as they are, and the line counts as complete.
pub proof fn law_streams_never_mix(b: BufModel, chunk: Seq<char>, kind: LineKind, i: int)
    requires
        b.wf(),
        b.partial,
        b.partial_kind != Some(kind),
        chunk.len() > 0,
        0 <= i < b.lines.len(),
    ensures
        appended(b, chunk, kind).last_ok >= b.lines.last().seq,
        forall|j: int|
            0 <= j < appended(b, chunk, kind).lines.len() && (#[trigger] appended(
                b,
                chunk,
                kind,
            ).lines[j]).seq == b.lines[i].seq ==> appended(b, chunk, kind).lines[j] == b.lines[i],
{
    law_append_keeps_wf(b, chunk, kind);
    let after = appended(b, chunk, kind);
    let base = continued(b, chunk, kind);
    let fresh = added(b, chunk, kind);
    assert forall|j: int| 0 <= j < after.lines.len() && (#[trigger] after.lines[j]).seq
        == b.lines[i].seq implies after.lines[j] == b.lines[i] by {
        let all = if opens(b, chunk, kind) {
            (base + numbered(fresh, b.next_seq, kind)).push(
                Line {
                    seq: b.next_seq + fresh.len(),
                    text: merged(Seq::empty(), false, text::split_on(chunk, '\n').last()).0,
                    kind,
                },
            )
        } else {
            base + numbered(fresh, b.next_seq, kind)
        };
        let place = j + all.len() - after.lines.len();
        assert(after.lines[j] == all[place]);
        if place >= base.len() {
            assert(all[place].seq >= b.next_seq);
        }
        assert(all[place] == base[place]);
        assert(base[place] == b.lines[place + b.lines.len() - base.len()]);
    }
}

/// A line of the ring keeps its stream for good, and what it says: only the last
/// line, while it is unterminated, gains text, and only of its own stream.
pub proof fn law_lines_stay_as_they_are(
    b: BufModel,
    chunk: Seq<char>,
    kind: LineKind,
    i: int,
    j: int,
)
    requires
        b.wf(),
        0 <= i < b.lines.len(),
        0 <= j < appended(b, chunk, kind).lines.len(),
        appended(b, chunk, kind).lines[j].seq == b.lines[i].seq,
    ensures
        ({
            let was = b.lines[i];
            let is = appended(b, chunk, kind).lines[j];
            &&& is.kind == was.kind
            &&& was.text.is_prefix_of(is.text)
            &&& is != was ==> b.partial && i == b.lines.len() - 1 && was.kind == kind
        }),
{
    law_append_keeps_wf(b, chunk, kind);
    let after = appended(b, chunk, kind);
    if chunk.len() > 0 {
        let base = continued(b, chunk, kind);
        let kept = newest(b.lines, BUFFER_CAP - 1);
        let fresh = added(b, chunk, kind);
        let all = if opens(b, chunk, kind) {
            (base + numbered(fresh, b.next_seq, kind)).push(
                Line {
                    seq: b.next_seq + fresh.len(),
                    text: merged(Seq::empty(), false, text::split_on(chunk, '\n').last()).0,
                    kind,
                },
            )
        } else {
            base + numbered(fresh, b.next_seq, kind)
        };
        let place = j + all.len() - after.lines.len();
        assert(base.len() == kept.len());
        assert(after.lines[j] == all[place]);
        if place >= base.len() {
            assert(all[place].seq >= b.next_seq);
        }
        assert(all[place] == base[place]);
        assert(kept[place] == b.lines[place + b.lines.len() - kept.len()]);
        assert(kept[place].seq == b.lines[i].seq);
        if continues(b, kind) && place == base.len() - 1 {
            let head = text::split_on(chunk, '\n')[0];
            let have = kept.last().text;
            let (grown, _) = merged(have, b.partial_truncated, head);
            assert(base[place].text == grown);
            assert(grown.take(have.len() as int) =~= have);
            assert(have.is_prefix_of(grown));
        } else {
            assert(base[place] == kept[place]);
        }
    }
}

/// At most [`BUFFER_CAP`] lines are kept of a server, and their ids rise from each
/// to the next.
pub proof fn law_ring_is_bounded_and_in_order(hub: Map<i64, BufModel>, server_id: i64)
    requires
        hub_wf(hub),
    ensures
        console_of(hub, server_id).lines.len() <= BUFFER_CAP,
        forall|i: int, j: int|
            0 <= i < j < console_of(hub, server_id).lines.len() ==> (#[trigger] console_of(
                hub,
                server_id,
            ).lines[i]).seq < (#[trigger] console_of(hub, server_id).lines[j]).seq,
{
    if hub.contains_key(server_id) {
        assert(hub[server_id].wf());
    }
}

/// What happens to a hub.
pub ghost enum HubOp {
    Append { server_id: i64, chunk: Seq<char>, kind: LineKind },
    Clear { server_id: i64 },
}

/// The hub after some of it, in turn.
pub open spec fn hub_after(hub: Map<i64, BufModel>, ops: Seq<HubOp>) -> Map<i64, BufModel>
    decreases ops.len(),
{
    if ops.len() == 0 {
        hub
    } else {
        let before = hub_after(hub, ops.drop_last());
        match ops.last() {
            HubOp::Append { server_id, chunk, kind } => hub_appended(
                before,
                server_id,
                chunk,
                kind,
            ),
            HubOp::Clear { server_id } => if before.contains_key(server_id) {
                before.insert(server_id, cleared(before[server_id]))
            } else {
                before
            },
        }
    }
}

/// Whatever is appended and cleared meanwhile, a line either was there before,
/// with its stream and all that it said, or has an id above every earlier one.
pub proof fn law_new_lines_have_new_ids(
    hub: Map<i64, BufModel>,
    ops: Seq<HubOp>,
    server_id: i64,
    j: int,
)
    requires
        hub_wf(hub),
        0 <= j < console_of(hub_after(hub, ops), server_id).lines.len(),
    ensures
        ({
            let was = console_of(hub, server_id);
            let line = console_of(hub_after(hub, ops), server_id).lines[j];
            ||| line.seq >= was.next_seq && forall|i: int|
                0 <= i < was.lines.len() ==> (#[trigger] was.lines[i]).seq < line.seq
            ||| exists|i: int| #[trigger] was_line(was, line, i)
        }),
{
    lemma_hub_after(hub, ops, server_id);
    let was = console_of(hub, server_id);
    let line = console_of(hub_after(hub, ops), server_id).lines[j];
    if line.seq >= was.next_seq {
        assert forall|i: int| 0 <= i < was.lines.len() implies (#[trigger] was.lines[i]).seq
            < line.seq by {
            assert(was.wf());
        }
    } else {
        assert(is_known(was, line));
    }
}

/// Whether a line is the one at place `i`, with what it gained since.
pub open spec fn was_line(was: BufModel, line: Line, i: int) -> bool {
    0 <= i < was.lines.len() && was.lines[i].seq == line.seq && was.lines[i].kind == line.kind
        && was.lines[i].text.is_prefix_of(line.text)
}

/// Whether a line has an id that was not given out yet, or was there before.
spec fn is_known(was: BufModel, line: Line) -> bool {
    line.seq >= was.next_seq || exists|i: int| #[trigger] was_line(was, line, i)
}

proof fn lemma_hub_after(hub: Map<i64, BufModel>, ops: Seq<HubOp>, server_id: i64)
    requires
        hub_wf(hub),
    ensures
        console_of(hub, server_id).wf(),
        hub_wf(hub_after(hub, ops)),
        console_of(hub_after(hub, ops), server_id).wf(),
        console_of(hub_after(hub, ops), server_id).next_seq >= console_of(hub, server_id).next_seq,
        forall|j: int|
            0 <= j < console_of(hub_after(hub, ops), server_id).lines.len() ==> is_known(
                console_of(hub, server_id),
                #[trigger] console_of(hub_after(hub, ops), server_id).lines[j],
            ),
    decreases ops.len(),
{
    let was = console_of(hub, server_id);
    if hub.contains_key(server_id) {
        assert(hub[server_id].wf());
    }
    if ops.len() == 0 {
        assert forall|j: int| 0 <= j < was.lines.len() implies is_known(
            was,
            #[trigger] was.lines[j],
        ) by {
            assert(was_line(was, was.lines[j], j));
        }
    } else {
        lemma_hub_after(hub, ops.drop_last(), server_id);
        let before = hub_after(hub, ops.drop_last());
        let after = hub_after(hub, ops);
        let b = console_of(before, server_id);
        match ops.last() {
            HubOp::Append { server_id: id, chunk, kind } => {
                let c = console_of(before, id);
                if before.contains_key(id) {
                    assert(before[id].wf());
                }
                law_append_keeps_wf(c, chunk, kind);
                if id == server_id && chunk.len() > 0 {
                    let a = appended(b, chunk, kind);
                    assert forall|j: int| 0 <= j < a.lines.len() implies is_known(
                        was,
                        #[trigger] a.lines[j],
                    ) by {
                        law_ids_never_come_back(b, chunk, kind, j);
                        if a.lines[j].seq < b.next_seq {
                            let k = choose|k: int|
                                0 <= k < b.lines.len() && (#[trigger] b.lines[k]).seq
                                    == a.lines[j].seq;
                            law_lines_stay_as_they_are(b, chunk, kind, k, j);
                            assert(is_known(was, b.lines[k]));
                            if b.lines[k].seq < was.next_seq {
                                let i = choose|i: int| #[trigger] was_line(was, b.lines[k], i);
                                let (x, y, z) = (
                                    was.lines[i].text,
                                    b.lines[k].text,
                                    a.lines[j].text,
                                );
                                assert(z.take(x.len() as int) =~= y.take(x.len() as int));
                                assert(was_line(was, a.lines[j], i));
                            }
                        }
                    }
                }
            },
            HubOp::Clear { server_id: id } => {},
        }
    }
}

/// Output of one server leaves the consoles of all others as they are, and no
/// output leaves all of them as they are.
pub proof fn law_output_stays_with_its_server(
    hub: Map<i64, BufModel>,
    server_id: i64,
    other: i64,
    chunk: Seq<char>,
    kind: LineKind,
)
    ensures
        other != server_id ==> console_of(hub_appended(hub, server_id, chunk, kind), other)
            == console_of(hub, other),
        chunk.len() == 0 ==> hub_appended(hub, server_id, chunk, kind) == hub,
{
}

/// A line that was cut takes nothing more, whatever its writer goes on to send.
pub proof fn law_cut_line_stops_growing(have: Seq<char>, add: Seq<char>)
    ensures
        merged(have, true, add) == (have, true),
{
}

/// After a clear, a cursor from before it misses nothing: every line that comes
/// later has a higher id, so it is handed out.
pub proof fn law_clear_keeps_ids(b: BufModel, chunk: Seq<char>, kind: LineKind, after: u64)
    requires
        b.wf(),
        after < b.next_seq,
    ensures
        newer(appended(cleared(b), chunk, kind).lines, after as int) == appended(
            cleared(b),
            chunk,
            kind,
        ).lines,
{
    let c = cleared(b);
    let lines = appended(c, chunk, kind).lines;
    law_append_keeps_wf(c, chunk, kind);
    assert forall|i: int| 0 <= i < lines.len() implies (#[trigger] lines[i]).seq > after by {
        law_ids_never_come_back(c, chunk, kind, i);
    }
    lemma_newer_is_suffix(lines, after as int, 0);
    assert(lines.skip(0) =~= lines);
}

/// The event of a chunk is never taken for the mark of a clear, which has an
/// empty chunk.
pub proof fn law_event_is_no_clear_mark(
    e: ConsoleEvent,
    b: BufModel,
    chunk: Seq<char>,
    kind: LineKind,
)
    requires
        chunk.len() > 0,
        is_event(e, b, chunk, kind),
    ensures
        e.1@.len() > 0,
{
    reveal_strlit("…[truncated]");
}

/// What is persisted cannot drive a terminal: it holds no escape and no control
/// character but tab, newline and carriage return.
pub proof fn law_persisted_text_is_inert(s: Seq<char>, i: int)
    requires
        0 <= i < sanitized(s).len(),
    ensures
        sanitized(s)[i] != ESC,
        !is_dropped(sanitized(s)[i]),
    decreases s.len(),
{
    if s.len() > 0 {
        lemma_escape_len(s.drop_first());
        if s[0] == ESC {
            law_persisted_text_is_inert(s.skip(1 + escape_len(s.drop_first())), i);
        } else if is_dropped(s[0]) {
            law_persisted_text_is_inert(s.drop_first(), i);
        } else if i > 0 {
            law_persisted_text_is_inert(s.drop_first(), i - 1);
        }
    }
}

/// Text without control characters is persisted as it is.
pub proof fn law_plain_text_is_kept(s: Seq<char>)
    requires
        forall|i: int| 0 <= i < s.len() ==> s[i] != ESC && !is_dropped(#[trigger] s[i]),
    ensures
        sanitized(s) == s,
    decreases s.len(),
{
    if s.len() > 0 {
        law_plain_text_is_kept(s.drop_first());
        assert(seq![s[0]] + s.drop_first() =~= s);
    }
}

/// What was persisted once is persisted again as it is.
pub proof fn law_persisted_text_is_kept(s: Seq<char>)
    ensures
        sanitized(sanitized(s)) == sanitized(s),
{
    let r = sanitized(s);
    assert forall|i: int| 0 <= i < r.len() implies r[i] != ESC && !is_dropped(#[trigger] r[i]) by {
        law_persisted_text_is_inert(s, i);
    }
    law_plain_text_is_kept(r);
}

/// Whether `at` gives, in order, places of `s` that hold the characters of `r`.
pub open spec fn stands_at(r: Seq<char>, s: Seq<char>, at: Seq<int>) -> bool {
    &&& at.len() == r.len()
    &&& forall|i: int| 0 <= i < at.len() ==> 0 <= #[trigger] at[i] < s.len() && s[at[i]] == r[i]
    &&& forall|i: int, j: int| 0 <= i < j < at.len() ==> #[trigger] at[i] < #[trigger] at[j]
}

/// What is persisted are characters of the chunk, in their order: nothing is
/// added and nothing moves.
pub proof fn law_persisted_text_is_picked(s: Seq<char>) -> (at: Seq<int>)
    ensures
        stands_at(sanitized(s), s, at),
    decreases s.len(),
{
    if s.len() == 0 {
        Seq::empty()
    } else {
        lemma_escape_len(s.drop_first());
        let n: int = if s[0] == ESC {
            1 + escape_len(s.drop_first())
        } else {
            1
        };
        assert(s.skip(1) =~= s.drop_first());
        let rest = law_persisted_text_is_picked(s.skip(n));
        let moved = Seq::new(rest.len(), |i: int| rest[i] + n);
        if s[0] == ESC || is_dropped(s[0]) {
            moved
        } else {
            seq![0int] + moved
        }
    }
}

} // verus!
