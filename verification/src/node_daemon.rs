//! The agent on a node: console decoding, supervision of servers, their files
//! and their snapshots.
pub mod agent_files;
pub mod config;
pub mod error;
pub mod process;
pub mod snapshot;
pub mod usage;

pub use agent_files::{
    file_operation, join_probes, list_files, safe_join, secure_read, write_file, FilePlan,
    RawRemoteEntry,
};
pub use config::{
    listen_host, listen_is_loopback, restart_backoff, validate_uuid, DaemonConfig,
};
pub use error::DaemonError;
pub use process::{DaemonRuntime, ManagedProcess, RunState};
pub use snapshot::{SnapshotUnpack, Tally};


use crate::text;
use vstd::prelude::*;
use vstd::slice::*;
use vstd::string::*;
use vstd::utf8::*;

verus! {

/// Length in bytes of the UTF-8 sequence whose first byte is `lead`.
pub open spec fn seq_len(lead: u8) -> int {
    if lead <= 0x7f {
        1
    } else if 0xc0 <= lead <= 0xdf {
        2
    } else if 0xe0 <= lead <= 0xef {
        3
    } else {
        4
    }
}

/// Length in bytes of the UTF-8 sequence whose first byte is `lead`.
fn utf8_seq_len(lead: u8) -> (r: usize)
    ensures
        r == seq_len(lead),
{
    if lead <= 0x7f {
        1
    } else if 0xc0 <= lead && lead <= 0xdf {
        2
    } else if 0xe0 <= lead && lead <= 0xef {
        3
    } else {
        4
    }
}

/// Whether `b1` can follow `b0` in a multi-byte character: no overlong form, no
/// surrogate, nothing above the last code point.
pub open spec fn can_follow(b0: u8, b1: u8) -> bool {
    if b0 == 0xe0 {
        0xa0 <= b1 <= 0xbf
    } else if b0 == 0xed {
        0x80 <= b1 <= 0x9f
    } else if b0 == 0xf0 {
        0x90 <= b1 <= 0xbf
    } else if b0 == 0xf4 {
        0x80 <= b1 <= 0x8f
    } else {
        0x80 <= b1 <= 0xbf
    }
}

/// How many bytes, from the front, can begin one multi-byte character.
pub open spec fn opening(bytes: Seq<u8>) -> int {
    if bytes.len() == 0 || !(0xc2 <= bytes[0] <= 0xf4) {
        0
    } else if bytes.len() < 2 || !can_follow(bytes[0], bytes[1]) {
        1
    } else if seq_len(bytes[0]) == 2 {
        2
    } else if bytes.len() < 3 || !is_continuation_byte(bytes[2]) {
        2
    } else if seq_len(bytes[0]) == 3 {
        3
    } else if bytes.len() < 4 || !is_continuation_byte(bytes[3]) {
        3
    } else {
        4
    }
}

/// Text and left-over bytes of a lossy decoding: each ill-formed run becomes one
/// replacement character, and a character that the input only begins is left over.
pub open spec fn lossy(bytes: Seq<u8>) -> (Seq<char>, Seq<u8>)
    decreases bytes.len(),
{
    if bytes.len() == 0 {
        (Seq::empty(), Seq::empty())
    } else if valid_first_scalar(bytes) {
        let rest = lossy(bytes.skip(length_of_first_scalar(bytes)));
        (seq![decode_first_scalar(bytes) as char] + rest.0, rest.1)
    } else if opening(bytes) == bytes.len() {
        (Seq::empty(), bytes)
    } else {
        let rest = lossy(
            bytes.skip(
                if opening(bytes) == 0 {
                    1
                } else {
                    opening(bytes)
                },
            ),
        );
        (seq!['\u{FFFD}'] + rest.0, rest.1)
    }
}

/// Text and carried bytes of the next chunk: the carried bytes stand in front of
/// it.
pub open spec fn pushed(carried: Seq<u8>, chunk: Seq<u8>) -> (Seq<char>, Seq<u8>) {
    lossy(carried + chunk)
}

/// Whether some bytes are what a decoding leaves over: no text comes of them yet.
pub open spec fn at_rest(bytes: Seq<u8>) -> bool {
    lossy(bytes) == (Seq::<char>::empty(), bytes)
}

/// Incremental UTF-8 decoder for byte-chunked console streams: an incomplete
/// character at the end of a chunk is kept and completed by the next one.
pub struct Utf8Carry {
    pending: Vec<u8>,
}

impl View for Utf8Carry {
    type V = Seq<u8>;

    closed spec fn view(&self) -> Seq<u8> {
        self.pending@
    }
}

impl Default for Utf8Carry {
    fn default() -> (r: Utf8Carry)
        ensures
            r@ == Seq::<u8>::empty(),
    {
        Utf8Carry { pending: Vec::new() }
    }
}

/// The first bytes are one character exactly where they are one by themselves.
proof fn lemma_first_scalar_alone(bytes: Seq<u8>, n: int)
    requires
        0 < n <= bytes.len(),
        n == seq_len(bytes[0]),
    ensures
        valid_utf8(bytes.take(n)) == valid_first_scalar(bytes),
        valid_first_scalar(bytes) ==> {
            &&& length_of_first_scalar(bytes) == n
            &&& decode_utf8(bytes.take(n)) == seq![decode_first_scalar(bytes) as char]
        },
{
    let t = bytes.take(n);
    assert(t[0] == bytes[0]);
    assert(n >= 2 ==> t[1] == bytes[1]);
    assert(n >= 3 ==> t[2] == bytes[2]);
    assert(n >= 4 ==> t[3] == bytes[3]);
    if valid_first_scalar(t) {
        assert(pop_first_scalar(t) =~= Seq::<u8>::empty());
        assert(valid_utf8(pop_first_scalar(t)));
        assert(decode_utf8(pop_first_scalar(t)) =~= Seq::<char>::empty());
        assert(decode_utf8(t) =~= seq![decode_first_scalar(bytes) as char]);
    }
}

/// What is left over is at rest, and shorter than a character.
proof fn lemma_left_over(bytes: Seq<u8>)
    ensures
        at_rest(lossy(bytes).1),
        lossy(bytes).1.len() <= 3,
    decreases bytes.len(),
{
    if bytes.len() > 0 {
        if valid_first_scalar(bytes) {
            lemma_left_over(bytes.skip(length_of_first_scalar(bytes)));
        } else if opening(bytes) == bytes.len() {
            if opening(bytes) == seq_len(bytes[0]) {
                lemma_opened_is_valid(bytes);
            }
        } else {
            lemma_left_over(
                bytes.skip(
                    if opening(bytes) == 0 {
                        1
                    } else {
                        opening(bytes)
                    },
                ),
            );
        }
    }
}

/// Bytes that open a character all the way are one.
proof fn lemma_opened_is_valid(bytes: Seq<u8>)
    requires
        bytes.len() > 0,
        opening(bytes) == seq_len(bytes[0]),
    ensures
        valid_first_scalar(bytes),
{
    let b0 = bytes[0];
    let b1 = bytes[1];
    if seq_len(b0) == 2 {
        assert(0xc2 <= b0 <= 0xdf && 0x80 <= b1 <= 0xbf ==> 0x80 <= ((((b0 & 0x1f) as u32) << 6) | ((
        b1 & 0x3f) as u32)) < 0x800) by (bit_vector);
    } else if seq_len(b0) == 3 {
        let b2 = bytes[2];
        assert(0xe0 <= b0 <= 0xef && 0x80 <= b1 <= 0xbf && 0x80 <= b2 <= 0xbf && (b0 == 0xe0 ==> b1
            >= 0xa0) && (b0 == 0xed ==> b1 <= 0x9f) ==> 0x800 <= ((((b0 & 0x0f) as u32) << 12) | (((
        b1 & 0x3f) as u32) << 6) | ((b2 & 0x3f) as u32)) && !(0xd800 <= ((((b0 & 0x0f) as u32)
            << 12) | (((b1 & 0x3f) as u32) << 6) | ((b2 & 0x3f) as u32)) <= 0xdfff)) by (bit_vector);
    } else {
        let b2 = bytes[2];
        let b3 = bytes[3];
        assert(0xf0 <= b0 <= 0xf4 && 0x80 <= b1 <= 0xbf && 0x80 <= b2 <= 0xbf && 0x80 <= b3 <= 0xbf
            && (b0 == 0xf0 ==> b1 >= 0x90) && (b0 == 0xf4 ==> b1 <= 0x8f) ==> 0x10000 <= ((((b0
            & 0x07) as u32) << 18) | (((b1 & 0x3f) as u32) << 12) | (((b2 & 0x3f) as u32) << 6) | ((
        b3 & 0x3f) as u32)) <= 0x10ffff) by (bit_vector);
    }
}

impl Utf8Carry {
    #[verifier::type_invariant]
    spec fn carries(self) -> bool {
        at_rest(self.pending@)
    }

    /// Decodes the next chunk: returns the text it completed and keeps any
    /// incomplete character for the next call.
    pub fn push(&mut self, bytes: &[u8]) -> (r: String)
        ensures
            (r@, final(self)@) == pushed(old(self)@, bytes@),
    {
        proof {
            lemma_left_over(self.pending@ + bytes@);
        }
        if self.pending.len() == 0 {
            assert(self.pending@ + bytes@ =~= bytes@);
            let (out, tail) = Self::decode(bytes);
            self.pending = tail;
            return out;
        }
        let mut whole: Vec<u8> = Vec::new();
        text::push_all(&mut whole, self.pending.as_slice());
        text::push_all(&mut whole, bytes);
        assert(whole@ =~= self.pending@ + bytes@);
        let (out, tail) = Self::decode(whole.as_slice());
        self.pending = tail;
        out
    }

    /// The text and the left-over bytes of a lossy decoding.
    fn decode(bytes: &[u8]) -> (r: (String, Vec<u8>))
        ensures
            (r.0@, r.1@) == lossy(bytes@),
    {
        let mut out = String::new();
        let mut tail: Vec<u8> = Vec::new();
        let mut i: usize = 0;
        proof {
            assert(bytes@.skip(0) =~= bytes@);
            assert(out@ + lossy(bytes@).0 =~= lossy(bytes@).0);
        }
        while i < bytes.len()
            invariant_except_break
                i <= bytes@.len(),
                out@ + lossy(bytes@.skip(i as int)).0 == lossy(bytes@).0,
                tail@.len() == 0,
                lossy(bytes@.skip(i as int)).1 == lossy(bytes@).1,
            ensures
                out@ == lossy(bytes@).0,
                tail@ == lossy(bytes@).1,
            decreases bytes.len() - i,
        {
            let ghost rest = bytes@.skip(i as int);
            let n: usize = utf8_seq_len(bytes[i]);
            if n <= bytes.len() - i {
                proof {
                    lemma_first_scalar_alone(rest, n as int);
                    assert(bytes@.subrange(i as int, i + n) =~= rest.take(n as int));
                    assert(bytes@.skip(i + n) =~= rest.skip(n as int));
                }
                let got = text::utf8_str(slice_subrange(bytes, i, i + n));
                if let Some(s) = got {
                    let ghost before = out@;
                    out.append(s);
                    proof {
                        assert(before + (s@ + lossy(rest.skip(n as int)).0) =~= out@ + lossy(
                            rest.skip(n as int),
                        ).0);
                    }
                    i += n;
                    continue;
                }
            }
            assert(!valid_first_scalar(rest));
            let opened = Self::opening_at(bytes, i);
            if opened == bytes.len() - i {
                text::push_all(&mut tail, slice_subrange(bytes, i, bytes.len()));
                assert(bytes@.subrange(i as int, bytes@.len() as int) =~= rest);
                assert(tail@ =~= rest);
                assert(out@ + Seq::<char>::empty() =~= out@);
                break;
            }
            let bad: usize = if opened == 0 {
                1
            } else {
                opened
            };
            let ghost before = out@;
            out.push('\u{FFFD}');
            proof {
                assert(bytes@.skip(i + bad) =~= rest.skip(bad as int));
                assert(before + (seq!['\u{FFFD}'] + lossy(rest.skip(bad as int)).0) =~= out@ + lossy(
                    rest.skip(bad as int),
                ).0);
            }
            i += bad;
            proof {
                if i == bytes@.len() {
                    assert(bytes@.skip(i as int) =~= Seq::<u8>::empty());
                    assert(out@ + Seq::<char>::empty() =~= out@);
                }
            }
        }
        (out, tail)
    }

    /// How many bytes from `i` on can begin one multi-byte character.
    fn opening_at(bytes: &[u8], i: usize) -> (r: usize)
        requires
            i < bytes@.len(),
        ensures
            r == opening(bytes@.skip(i as int)),
            r <= bytes@.len() - i,
    {
        let ghost rest = bytes@.skip(i as int);
        let left: usize = bytes.len() - i;
        let b0 = bytes[i];
        if b0 < 0xc2 || b0 > 0xf4 {
            return 0;
        }
        if left < 2 {
            return 1;
        }
        let b1 = bytes[i + 1];
        let fits = if b0 == 0xe0 {
            0xa0 <= b1 && b1 <= 0xbf
        } else if b0 == 0xed {
            0x80 <= b1 && b1 <= 0x9f
        } else if b0 == 0xf0 {
            0x90 <= b1 && b1 <= 0xbf
        } else if b0 == 0xf4 {
            0x80 <= b1 && b1 <= 0x8f
        } else {
            0x80 <= b1 && b1 <= 0xbf
        };
        if !fits {
            return 1;
        }
        let n: usize = utf8_seq_len(b0);
        if n == 2 || left < 3 || bytes[i + 2] < 0x80 || bytes[i + 2] > 0xbf {
            return 2;
        }
        if n == 3 || left < 4 || bytes[i + 3] < 0x80 || bytes[i + 3] > 0xbf {
            return 3;
        }
        4
    }
}

/// Text and carried bytes after a run of chunks.
pub open spec fn decoded(carried: Seq<u8>, chunks: Seq<Seq<u8>>) -> (Seq<char>, Seq<u8>)
    decreases chunks.len(),
{
    if chunks.len() == 0 {
        (Seq::empty(), carried)
    } else {
        let first = pushed(carried, chunks[0]);
        let rest = decoded(first.1, chunks.drop_first());
        (first.0 + rest.0, rest.1)
    }
}

/// The bytes of a run of chunks.
pub open spec fn together(chunks: Seq<Seq<u8>>) -> Seq<u8>
    decreases chunks.len(),
{
    if chunks.len() == 0 {
        Seq::empty()
    } else {
        chunks[0] + together(chunks.drop_first())
    }
}

/// A proper part, from the front, of a character opens it.
proof fn lemma_part_opens(bytes: Seq<u8>, k: int)
    requires
        valid_first_scalar(bytes),
        0 < k < length_of_first_scalar(bytes),
        k <= bytes.len(),
    ensures
        opening(bytes.take(k)) == k,
        seq_len(bytes[0]) == length_of_first_scalar(bytes),
{
    let b0 = bytes[0];
    let b1 = bytes[1];
    if seq_len(b0) == 2 {
        assert(0xc0 <= b0 < 0xc2 && 0x80 <= b1 <= 0xbf ==> ((((b0 & 0x1f) as u32) << 6) | ((b1 & 0x3f)
            as u32)) < 0x80) by (bit_vector);
    } else if seq_len(b0) == 3 {
        let b2 = bytes[2];
        assert(b0 == 0xe0 && 0x80 <= b1 < 0xa0 && 0x80 <= b2 <= 0xbf ==> ((((b0 & 0x0f) as u32) << 12)
            | (((b1 & 0x3f) as u32) << 6) | ((b2 & 0x3f) as u32)) < 0x800) by (bit_vector);
        assert(b0 == 0xed && 0x9f < b1 <= 0xbf && 0x80 <= b2 <= 0xbf ==> 0xd800 <= ((((b0 & 0x0f)
            as u32) << 12) | (((b1 & 0x3f) as u32) << 6) | ((b2 & 0x3f) as u32)) <= 0xdfff)
            by (bit_vector);
    } else {
        let b2 = bytes[2];
        let b3 = bytes[3];
        assert(b0 == 0xf0 && 0x80 <= b1 < 0x90 && 0x80 <= b2 <= 0xbf && 0x80 <= b3 <= 0xbf ==> ((((b0
            & 0x07) as u32) << 18) | (((b1 & 0x3f) as u32) << 12) | (((b2 & 0x3f) as u32) << 6) | ((
        b3 & 0x3f) as u32)) < 0x10000) by (bit_vector);
        assert((b0 == 0xf4 && 0x8f < b1 <= 0xbf || 0xf5 <= b0 <= 0xf7 && 0x80 <= b1 <= 0xbf) && 0x80
            <= b2 <= 0xbf && 0x80 <= b3 <= 0xbf ==> ((((b0 & 0x07) as u32) << 18) | (((b1 & 0x3f)
            as u32) << 12) | (((b2 & 0x3f) as u32) << 6) | ((b3 & 0x3f) as u32)) > 0x10ffff)
            by (bit_vector);
    }
}

/// Bytes that do not form a character, and more than open one, stay so whatever
/// follows them.
proof fn lemma_broken_stays(a: Seq<u8>, b: Seq<u8>)
    requires
        a.len() > 0,
        !valid_first_scalar(a),
        opening(a) < a.len(),
    ensures
        !valid_first_scalar(a + b),
        opening(a + b) == opening(a),
{
    let full = a + b;
    let k = opening(a);
    assert(full[0] == a[0]);
    assert(k >= 1 && a.len() > 1 ==> full[1] == a[1]);
    assert(a.len() > 2 ==> full[2] == a[2]);
    assert(a.len() > 3 ==> full[3] == a[3]);
    if k == seq_len(a[0]) {
        lemma_opened_is_valid(a);
    }
    assert(opening(full) == k);
    if valid_first_scalar(full) {
        let n = length_of_first_scalar(full);
        if n == 1 {
            assert(valid_first_scalar(a));
        } else if k + 1 < n {
            lemma_part_opens(full, k + 1);
            let t = full.take(k + 1);
            assert(t[0] == full[0]);
            assert(k >= 1 ==> t[1] == full[1]);
            assert(k >= 2 ==> t[2] == full[2]);
        } else {
            lemma_part_opens(full, 1);
        }
    }
}

/// What a decoding leaves over, in front of what follows, decodes as all of it
/// together.
proof fn lemma_lossy_of_both(a: Seq<u8>, b: Seq<u8>)
    ensures
        lossy(a + b) == (
            lossy(a).0 + lossy(lossy(a).1 + b).0,
            lossy(lossy(a).1 + b).1,
        ),
    decreases a.len(),
{
    let full = a + b;
    if a.len() == 0 || (!valid_first_scalar(a) && opening(a) == a.len()) {
        assert(lossy(a).1 + b =~= full);
        assert(lossy(a).0 + lossy(full).0 =~= lossy(full).0);
    } else {
        let n = if valid_first_scalar(a) {
            length_of_first_scalar(a)
        } else if opening(a) == 0 {
            1
        } else {
            opening(a)
        };
        if valid_first_scalar(a) {
            assert(full[0] == a[0]);
            assert(n >= 2 ==> full[1] == a[1]);
            assert(n >= 3 ==> full[2] == a[2]);
            assert(n >= 4 ==> full[3] == a[3]);
            assert(valid_first_scalar(full));
        } else {
            lemma_broken_stays(a, b);
        }
        assert(full.skip(n) =~= a.skip(n) + b);
        lemma_lossy_of_both(a.skip(n), b);
        let t = lossy(a.skip(n));
        let first = lossy(a).0.take(1);
        assert(lossy(a).0 =~= first + t.0);
        assert(first + (t.0 + lossy(t.1 + b).0) =~= (first + t.0) + lossy(t.1 + b).0);
    }
}

/// Bytes that reach the decoder in chunks, cut anywhere, even within a character,
/// come out as if they had come whole, whatever the bytes are.
pub proof fn law_chunks_decode_as_one(carried: Seq<u8>, chunks: Seq<Seq<u8>>)
    requires
        at_rest(carried),
    ensures
        decoded(carried, chunks) == lossy(carried + together(chunks)),
        at_rest(decoded(carried, chunks).1),
    decreases chunks.len(),
{
    if chunks.len() == 0 {
        assert(carried + together(chunks) =~= carried);
    } else {
        let rest = together(chunks.drop_first());
        let first = carried + chunks[0];
        assert(carried + together(chunks) =~= first + rest);
        lemma_left_over(first);
        law_chunks_decode_as_one(lossy(first).1, chunks.drop_first());
        lemma_lossy_of_both(first, rest);
    }
}

/// The decoding of a text that is cut somewhere: its longest part that is whole
/// comes out, and the rest is left over.
proof fn lemma_lossy_of_cut(p: Seq<u8>, rest: Seq<u8>)
    requires
        valid_utf8(p + rest),
    ensures
        ({
            let m = p.len() - lossy(p).1.len();
            &&& 0 <= m
            &&& valid_utf8(p.take(m))
            &&& lossy(p).0 == decode_utf8(p.take(m))
            &&& lossy(p).1 == p.skip(m)
            &&& forall|k: int| m < k <= p.len() ==> !valid_utf8(#[trigger] p.take(k))
        }),
    decreases p.len(),
{
    let full = p + rest;
    if p.len() > 0 {
        let n = length_of_first_scalar(full);
        if n <= p.len() {
            assert(valid_first_scalar(p));
            assert(length_of_first_scalar(p) == n);
            let q = p.skip(n);
            assert(pop_first_scalar(full) =~= q + rest);
            lemma_lossy_of_cut(q, rest);
            let m = p.len() - lossy(p).1.len();
            let t = p.take(m);
            assert(m >= n);
            assert(valid_first_scalar(t));
            assert(pop_first_scalar(t) =~= q.take(m - n));
            assert(q.skip(m - n) =~= p.skip(m));
            assert(lossy(p).0 == decode_utf8(t));
            assert forall|k: int| m < k <= p.len() implies !valid_utf8(#[trigger] p.take(k)) by {
                let u = p.take(k);
                if valid_utf8(u) {
                    assert(valid_first_scalar(u));
                    assert(pop_first_scalar(u) =~= q.take(k - n));
                    assert(!valid_utf8(q.take(k - n)));
                }
            }
        } else {
            lemma_part_opens(full, p.len() as int);
            assert(full.take(p.len() as int) =~= p);
            assert(!valid_first_scalar(p));
            assert(p.take(0) =~= Seq::<u8>::empty());
            assert(p.skip(0) =~= p);
            assert(lossy(p).0 =~= decode_utf8(p.take(0)));
            assert forall|k: int| 0 < k <= p.len() implies !valid_utf8(#[trigger] p.take(k)) by {
                let u = p.take(k);
                assert(u[0] == full[0]);
                assert(!valid_first_scalar(u));
            }
        }
    } else {
        assert(p.take(0) =~= Seq::<u8>::empty());
        assert(p.skip(0) =~= p);
        assert(lossy(p).0 =~= decode_utf8(p.take(0)));
    }
}

/// Where a text is cut never shows: of what came of it so far, in chunks of any
/// size, the longest part that is whole characters is out, and at most three
/// bytes are held back. Once all of it came, all of it is out.
pub proof fn law_cut_text_comes_out(s: Seq<u8>, n: int, chunks: Seq<Seq<u8>>)
    requires
        valid_utf8(s),
        0 <= n <= s.len(),
        together(chunks) == s.take(n),
    ensures
        ({
            let p = s.take(n);
            let d = decoded(Seq::empty(), chunks);
            let m = n - d.1.len();
            &&& 0 <= m && n - m <= 3
            &&& valid_utf8(p.take(m))
            &&& forall|k: int| m < k <= n ==> !valid_utf8(#[trigger] p.take(k))
            &&& d == (decode_utf8(p.take(m)), p.skip(m))
            &&& n == s.len() ==> d == (decode_utf8(s), Seq::<u8>::empty())
        }),
{
    let p = s.take(n);
    assert(Seq::<u8>::empty() + p =~= p);
    law_chunks_decode_as_one(Seq::empty(), chunks);
    assert(p + s.skip(n) =~= s);
    lemma_lossy_of_cut(p, s.skip(n));
    lemma_left_over(p);
    if n == s.len() {
        assert(p =~= s);
        assert(p.take(n) =~= s);
        let m = n - lossy(p).1.len();
        assert(m == n);
    }
}

/// At most three bytes are ever carried over.
pub proof fn law_carry_is_short(carried: Seq<u8>, chunk: Seq<u8>)
    ensures
        pushed(carried, chunk).1.len() <= 3,
{
    lemma_left_over(carried + chunk);
}

} // verus!
