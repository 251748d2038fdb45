//! Text helpers: every function here is stated over the sequence of
//! characters that a string holds.
use vstd::prelude::*;
use vstd::slice::*;
use vstd::string::*;
use vstd::utf8::*;

verus! {

/// `String::push` appends one character to the end of the string.
pub assume_specification[ String::push ](s: &mut String, ch: char)
    ensures
        final(s)@ == old(s)@.push(ch),
;

/// The characters of a string, in order.
pub fn chars_of(s: &str) -> (r: Vec<char>)
    ensures
        r@ == s@,
{
    let mut v: Vec<char> = Vec::new();
    for c in it: s.chars()
        invariant
            v@ == s@.take(it.index() as int),
            it.seq() == s@,
    {
        v.push(c);
    }
    v
}

/// The string made of the given characters.
pub fn string_of(cs: &[char]) -> (r: String)
    ensures
        r@ == cs@,
{
    let mut out = String::new();
    let mut i: usize = 0;
    while i < cs.len()
        invariant
            i <= cs@.len(),
            out@ == cs@.take(i as int),
        decreases cs.len() - i,
    {
        out.push(cs[i]);
        i += 1;
    }
    out
}

/// An owned copy of a string.
pub fn copy_of(s: &str) -> (r: String)
    ensures
        r@ == s@,
{
    s.to_owned()
}

/// Appends every item of `more` to `out`.
pub fn push_all<T: Copy>(out: &mut Vec<T>, more: &[T])
    ensures
        final(out)@ == old(out)@ + more@,
{
    let ghost before = out@;
    let mut i: usize = 0;
    while i < more.len()
        invariant
            i <= more@.len(),
            out@ == before + more@.take(i as int),
        decreases more.len() - i,
    {
        out.push(more[i]);
        i += 1;
    }
}

/// Whether two character runs are equal.
pub fn same_chars(a: &[char], b: &[char]) -> (r: bool)
    ensures
        r == (a@ == b@),
{
    if a.len() != b.len() {
        return false;
    }
    let mut i: usize = 0;
    while i < a.len()
        invariant
            i <= a@.len(),
            a@.len() == b@.len(),
            a@.take(i as int) == b@.take(i as int),
        decreases a.len() - i,
    {
        if a[i] != b[i] {
            assert(a@[i as int] != b@[i as int]);
            return false;
        }
        i += 1;
        assert(a@.take(i as int) =~= b@.take(i as int));
    }
    assert(a@.take(i as int) =~= a@);
    assert(b@.take(i as int) =~= b@);
    true
}

/// Whether two byte runs are equal.
pub fn same_bytes(a: &[u8], b: &[u8]) -> (r: bool)
    ensures
        r == (a@ == b@),
{
    if a.len() != b.len() {
        return false;
    }
    let mut i: usize = 0;
    while i < a.len()
        invariant
            i <= a@.len(),
            a@.len() == b@.len(),
            a@.take(i as int) == b@.take(i as int),
        decreases a.len() - i,
    {
        if a[i] != b[i] {
            assert(a@[i as int] != b@[i as int]);
            return false;
        }
        i += 1;
        assert(a@.take(i as int) =~= b@.take(i as int));
    }
    assert(a@.take(i as int) =~= a@);
    assert(b@.take(i as int) =~= b@);
    true
}

/// Whether two strings hold the same characters.
pub fn same(a: &str, b: &str) -> (r: bool)
    ensures
        r == (a@ == b@),
{
    let r = same_bytes(a.as_bytes(), b.as_bytes());
    proof {
        encode_utf8_decode_utf8(a@);
        encode_utf8_decode_utf8(b@);
    }
    r
}

/// Bytes that one character takes in UTF-8.
pub open spec fn char_width(c: char) -> nat {
    let u = c as u32;
    if u < 0x80 {
        1
    } else if u < 0x800 {
        2
    } else if u < 0x10000 {
        3
    } else {
        4
    }
}

/// Bytes that a text takes in UTF-8.
pub open spec fn byte_len(s: Seq<char>) -> nat
    decreases s.len(),
{
    if s.len() == 0 {
        0
    } else {
        char_width(s[0]) + byte_len(s.drop_first())
    }
}

/// The UTF-8 encoding of a text is as long as [`byte_len`] says.
pub proof fn lemma_byte_len_encoded(s: Seq<char>)
    ensures
        encode_utf8(s).len() == byte_len(s),
    decreases s.len(),
{
    if s.len() > 0 {
        char_is_scalar(s[0]);
        lemma_byte_len_encoded(s.drop_first());
    }
}

/// Appending texts adds up their byte lengths.
pub proof fn lemma_byte_len_add(a: Seq<char>, b: Seq<char>)
    ensures
        byte_len(a + b) == byte_len(a) + byte_len(b),
    decreases a.len(),
{
    if a.len() == 0 {
        assert(a + b =~= b);
    } else {
        assert((a + b).drop_first() =~= a.drop_first() + b);
        lemma_byte_len_add(a.drop_first(), b);
    }
}

/// The width of one character in UTF-8.
pub fn width_of(c: char) -> (r: usize)
    ensures
        r == char_width(c),
        1 <= r <= 4,
{
    let u = c as u32;
    if u < 0x80 {
        1
    } else if u < 0x800 {
        2
    } else if u < 0x10000 {
        3
    } else {
        4
    }
}

/// Length of a string in bytes.
pub fn byte_length(s: &str) -> (r: usize)
    ensures
        r == byte_len(s@),
{
    proof {
        lemma_byte_len_encoded(s@);
    }
    s.as_bytes().len()
}

/// The pieces of `s` between the separators: one more than there are
/// separators.
pub open spec fn split_on(s: Seq<char>, sep: char) -> Seq<Seq<char>>
    decreases s.len(),
{
    if s.len() == 0 {
        seq![Seq::<char>::empty()]
    } else {
        let before = split_on(s.drop_last(), sep);
        if s.last() == sep {
            before.push(Seq::<char>::empty())
        } else {
            before.drop_last().push(before.last().push(s.last()))
        }
    }
}

/// A split has one piece at least, and as many as separators plus one.
pub proof fn lemma_split_len(s: Seq<char>, sep: char)
    ensures
        split_on(s, sep).len() >= 1,
        split_on(s, sep).len() <= s.len() + 1,
    decreases s.len(),
{
    if s.len() > 0 {
        lemma_split_len(s.drop_last(), sep);
    }
}

/// The views of a vector of strings.
pub open spec fn views(v: Seq<String>) -> Seq<Seq<char>> {
    Seq::new(v.len(), |i: int| v[i]@)
}

/// The views of a vector of character runs.
pub open spec fn runs(v: Seq<Vec<char>>) -> Seq<Seq<char>> {
    Seq::new(v.len(), |i: int| v[i]@)
}

/// Splits a text at every `sep`.
pub fn split(s: &[char], sep: char) -> (r: Vec<Vec<char>>)
    ensures
        runs(r@) == split_on(s@, sep),
{
    let mut done: Vec<Vec<char>> = Vec::new();
    let mut cur: Vec<char> = Vec::new();
    let mut i: usize = 0;
    assert(s@.take(0) =~= Seq::<char>::empty());
    assert(runs(done@).push(cur@) =~= seq![Seq::<char>::empty()]);
    while i < s.len()
        invariant
            i <= s@.len(),
            runs(done@).push(cur@) == split_on(s@.take(i as int), sep),
        decreases s.len() - i,
    {
        let c = s[i];
        let ghost old_runs = runs(done@).push(cur@);
        proof {
            assert(s@.take(i + 1).drop_last() =~= s@.take(i as int));
            assert(s@.take(i + 1).last() == c);
        }
        if c == sep {
            done.push(cur);
            cur = Vec::new();
            assert(runs(done@) =~= old_runs);
        } else {
            cur.push(c);
            assert(runs(done@) =~= old_runs.drop_last());
        }
        i += 1;
    }
    assert(s@.take(i as int) =~= s@);
    let ghost last = cur@;
    let ghost firsts = runs(done@);
    done.push(cur);
    assert(runs(done@) =~= firsts.push(last));
    done
}

/// The characters with Unicode's `White_Space` property.
pub open spec fn is_space(c: char) -> bool {
    let u = c as u32;
    ||| 0x09 <= u <= 0x0d
    ||| u == 0x20
    ||| u == 0x85
    ||| u == 0xa0
    ||| u == 0x1680
    ||| 0x2000 <= u <= 0x200a
    ||| u == 0x2028
    ||| u == 0x2029
    ||| u == 0x202f
    ||| u == 0x205f
    ||| u == 0x3000
}

/// Whether a character is white space.
pub fn is_white_space(c: char) -> (r: bool)
    ensures
        r == is_space(c),
{
    let u: u32 = c as u32;
    (0x09 <= u && u <= 0x0d) || u == 0x20 || u == 0x85 || u == 0xa0 || u == 0x1680 || (0x2000 <= u
        && u <= 0x200a) || u == 0x2028 || u == 0x2029 || u == 0x202f || u == 0x205f || u == 0x3000
}

/// The characters of Unicode's general category `Cc`.
pub open spec fn is_control(c: char) -> bool {
    let u = c as u32;
    u <= 0x1f || 0x7f <= u <= 0x9f
}

/// Whether a character is a control character.
pub fn is_control_char(c: char) -> (r: bool)
    ensures
        r == is_control(c),
{
    let u: u32 = c as u32;
    u <= 0x1f || (0x7f <= u && u <= 0x9f)
}

/// `s` without the white space it starts with.
pub open spec fn trim_start(s: Seq<char>) -> Seq<char>
    decreases s.len(),
{
    if s.len() > 0 && is_space(s[0]) {
        trim_start(s.drop_first())
    } else {
        s
    }
}

/// `s` without the white space it ends with.
pub open spec fn trim_end(s: Seq<char>) -> Seq<char>
    decreases s.len(),
{
    if s.len() > 0 && is_space(s.last()) {
        trim_end(s.drop_last())
    } else {
        s
    }
}

/// `s` without the white space around it.
pub open spec fn trimmed(s: Seq<char>) -> Seq<char> {
    trim_end(trim_start(s))
}

/// The run without the white space around it.
pub fn trim(s: &[char]) -> (r: &[char])
    ensures
        r@ == trimmed(s@),
{
    let mut a: usize = 0;
    assert(s@.skip(0) =~= s@);
    while a < s.len() && is_white_space(s[a])
        invariant
            a <= s@.len(),
            trim_start(s@.skip(a as int)) == trim_start(s@),
        decreases s.len() - a,
    {
        assert(s@.skip(a as int).drop_first() =~= s@.skip(a + 1));
        a += 1;
    }
    let mut b: usize = s.len();
    let ghost t = s@.skip(a as int);
    assert(trim_start(s@) == t);
    assert(t =~= s@.subrange(a as int, b as int));
    while b > a && is_white_space(s[b - 1])
        invariant
            a <= b <= s@.len(),
            trim_end(s@.subrange(a as int, b as int)) == trim_end(t),
        decreases b,
    {
        assert(s@.subrange(a as int, b as int).drop_last() =~= s@.subrange(a as int, b - 1));
        b -= 1;
    }
    slice_subrange(s, a, b)
}

/// The string without the white space around it.
pub fn trim_string(s: &str) -> (r: String)
    ensures
        r@ == trimmed(s@),
{
    let cs = chars_of(s);
    string_of(trim(cs.as_slice()))
}

/// Whether `s` begins with `p`.
pub open spec fn begins_with(s: Seq<char>, p: Seq<char>) -> bool {
    p.len() <= s.len() && s.take(p.len() as int) == p
}

/// Whether `s` ends with `p`.
pub open spec fn finishes_with(s: Seq<char>, p: Seq<char>) -> bool {
    p.len() <= s.len() && s.skip(s.len() - p.len()) == p
}

/// Whether `p` stands in `s` at position `at`.
pub open spec fn stands_at(s: Seq<char>, p: Seq<char>, at: int) -> bool {
    0 <= at && at + p.len() <= s.len() && s.subrange(at, at + p.len()) == p
}

/// Whether `p` stands anywhere in `s`.
pub open spec fn holds(s: Seq<char>, p: Seq<char>) -> bool {
    exists|at: int| stands_at(s, p, at)
}

/// Whether `p` stands in `s` at position `at`.
pub fn match_at(s: &[char], p: &[char], at: usize) -> (r: bool)
    ensures
        r == stands_at(s@, p@, at as int),
{
    if at > s.len() || p.len() > s.len() - at {
        return false;
    }
    same_chars(slice_subrange(s, at, at + p.len()), p)
}

/// Whether a text begins with another.
pub fn starts_with(s: &[char], p: &[char]) -> (r: bool)
    ensures
        r == begins_with(s@, p@),
{
    if p.len() > s.len() {
        return false;
    }
    assert(s@.subrange(0, p@.len() as int) =~= s@.take(p@.len() as int));
    same_chars(slice_subrange(s, 0, p.len()), p)
}

/// Whether a text ends with another.
pub fn ends_with(s: &[char], p: &[char]) -> (r: bool)
    ensures
        r == finishes_with(s@, p@),
{
    if p.len() > s.len() {
        return false;
    }
    assert(s@.subrange(s@.len() - p@.len(), s@.len() as int) =~= s@.skip(s@.len() - p@.len()));
    same_chars(slice_subrange(s, s.len() - p.len(), s.len()), p)
}

/// The first place where `p` stands in `s`, if there is one.
pub fn find(s: &[char], p: &[char]) -> (r: Option<usize>)
    ensures
        match r {
            Some(at) => stands_at(s@, p@, at as int) && forall|j: int|
                0 <= j < at ==> !stands_at(s@, p@, j),
            None => !holds(s@, p@),
        },
{
    let mut at: usize = 0;
    while at < s.len()
        invariant
            at <= s@.len(),
            forall|j: int| 0 <= j < at ==> !stands_at(s@, p@, j),
        decreases s.len() - at,
    {
        if match_at(s, p, at) {
            return Some(at);
        }
        at += 1;
    }
    if match_at(s, p, at) {
        return Some(at);
    }
    None
}

/// Whether a character is a decimal digit of ASCII.
pub open spec fn is_digit(c: char) -> bool {
    '0' <= c <= '9'
}

/// Whether a character is a letter of ASCII.
pub open spec fn is_letter(c: char) -> bool {
    'a' <= c <= 'z' || 'A' <= c <= 'Z'
}

/// Whether a character is a letter or a digit of ASCII.
pub open spec fn is_alnum(c: char) -> bool {
    is_digit(c) || is_letter(c)
}

/// Whether a character is a letter or a digit of ASCII.
pub fn is_ascii_alnum(c: char) -> (r: bool)
    ensures
        r == is_alnum(c),
{
    ('0' <= c && c <= '9') || ('a' <= c && c <= 'z') || ('A' <= c && c <= 'Z')
}

/// A capital letter of ASCII made small; any other character as it is.
pub open spec fn lower_char(c: char) -> char {
    if 'A' <= c <= 'Z' {
        ((c as u8) + 32) as u8 as char
    } else {
        c
    }
}

/// A small letter of ASCII made capital; any other character as it is.
pub open spec fn upper_char(c: char) -> char {
    if 'a' <= c <= 'z' {
        ((c as u8) - 32) as u8 as char
    } else {
        c
    }
}

/// A text with its ASCII letters made small.
pub open spec fn lowered(s: Seq<char>) -> Seq<char> {
    Seq::new(s.len(), |i: int| lower_char(s[i]))
}

/// A text with its ASCII letters made capital.
pub open spec fn uppered(s: Seq<char>) -> Seq<char> {
    Seq::new(s.len(), |i: int| upper_char(s[i]))
}

/// Makes one character small.
pub fn lower_of(c: char) -> (r: char)
    ensures
        r == lower_char(c),
{
    if 'A' <= c && c <= 'Z' {
        let b: u8 = c as u8;
        (b + 32) as char
    } else {
        c
    }
}

/// Makes one character capital.
pub fn upper_of(c: char) -> (r: char)
    ensures
        r == upper_char(c),
{
    if 'a' <= c && c <= 'z' {
        let b: u8 = c as u8;
        (b - 32) as char
    } else {
        c
    }
}

/// Makes the ASCII letters of a text small.
pub fn to_lower(s: &[char]) -> (r: Vec<char>)
    ensures
        r@ == lowered(s@),
{
    let mut out: Vec<char> = Vec::new();
    let mut i: usize = 0;
    while i < s.len()
        invariant
            i <= s@.len(),
            out@ == lowered(s@.take(i as int)),
        decreases s.len() - i,
    {
        out.push(lower_of(s[i]));
        i += 1;
        assert(out@ =~= lowered(s@.take(i as int)));
    }
    assert(s@.take(i as int) =~= s@);
    out
}

/// Makes the ASCII letters of a text capital.
pub fn to_upper(s: &[char]) -> (r: Vec<char>)
    ensures
        r@ == uppered(s@),
{
    let mut out: Vec<char> = Vec::new();
    let mut i: usize = 0;
    while i < s.len()
        invariant
            i <= s@.len(),
            out@ == uppered(s@.take(i as int)),
        decreases s.len() - i,
    {
        out.push(upper_of(s[i]));
        i += 1;
        assert(out@ =~= uppered(s@.take(i as int)));
    }
    assert(s@.take(i as int) =~= s@);
    out
}

/// The decimal digit of a number below ten.
pub open spec fn digit_char(d: int) -> char {
    (48 + d) as u8 as char
}

/// A natural number in decimal.
pub open spec fn decimal_nat(n: nat) -> Seq<char>
    decreases n,
{
    if n < 10 {
        seq![digit_char(n as int)]
    } else {
        decimal_nat(n / 10).push(digit_char((n % 10) as int))
    }
}

/// An integer in decimal, with a minus sign where it is negative.
pub open spec fn decimal(n: int) -> Seq<char> {
    if n < 0 {
        seq!['-'] + decimal_nat((-n) as nat)
    } else {
        decimal_nat(n as nat)
    }
}

/// Writes a number in decimal.
pub fn decimal_u64(n: u64) -> (r: Vec<char>)
    ensures
        r@ == decimal_nat(n as nat),
    decreases n,
{
    let digit: u8 = (n % 10) as u8;
    if n < 10 {
        let mut out: Vec<char> = Vec::new();
        out.push((48 + digit) as char);
        assert(out@ =~= decimal_nat(n as nat));
        out
    } else {
        let mut out = decimal_u64(n / 10);
        out.push((48 + digit) as char);
        out
    }
}

/// Writes a signed number in decimal.
pub fn decimal_i64(n: i64) -> (r: Vec<char>)
    ensures
        r@ == decimal(n as int),
{
    if n < 0 {
        let magnitude: u64 = if n == i64::MIN {
            9223372036854775808
        } else {
            (-n) as u64
        };
        let mut out: Vec<char> = Vec::new();
        out.push('-');
        let digits = decimal_u64(magnitude);
        push_all(&mut out, digits.as_slice());
        assert(out@ =~= decimal(n as int));
        out
    } else {
        decimal_u64(n as u64)
    }
}

/// Texts one after another with `sep` between them.
pub open spec fn joined(parts: Seq<Seq<char>>, sep: Seq<char>) -> Seq<char>
    decreases parts.len(),
{
    if parts.len() == 0 {
        Seq::empty()
    } else if parts.len() == 1 {
        parts[0]
    } else {
        joined(parts.drop_last(), sep) + sep + parts.last()
    }
}

/// Joins texts with a separator.
pub fn join(parts: &Vec<Vec<char>>, sep: &[char]) -> (r: Vec<char>)
    ensures
        r@ == joined(runs(parts@), sep@),
{
    let mut out: Vec<char> = Vec::new();
    let mut i: usize = 0;
    while i < parts.len()
        invariant
            i <= parts@.len(),
            out@ == joined(runs(parts@).take(i as int), sep@),
        decreases parts.len() - i,
    {
        proof {
            assert(runs(parts@).take(i + 1).drop_last() =~= runs(parts@).take(i as int));
        }
        if i > 0 {
            push_all(&mut out, sep);
        }
        push_all(&mut out, parts[i].as_slice());
        i += 1;
        assert(out@ =~= joined(runs(parts@).take(i as int), sep@));
    }
    assert(runs(parts@).take(i as int) =~= runs(parts@));
    out
}

/// `std::str::from_utf8` gives the text that bytes encode, if they are UTF-8.
#[verifier::external_body]
pub(crate) fn utf8_str(bytes: &[u8]) -> (r: Option<&str>)
    ensures
        match r {
            Some(s) => valid_utf8(bytes@) && s@ == decode_utf8(bytes@),
            None => !valid_utf8(bytes@),
        },
{
    std::str::from_utf8(bytes).ok()
}

/// The text of some ASCII bytes.
pub open spec fn ascii_text(bytes: Seq<u8>) -> Seq<char> {
    Seq::new(bytes.len(), |i: int| bytes[i] as char)
}

/// ASCII bytes are UTF-8, one character each.
pub proof fn lemma_ascii_bytes(bytes: Seq<u8>)
    requires
        forall|i: int| 0 <= i < bytes.len() ==> #[trigger] bytes[i] < 0x80,
    ensures
        valid_utf8(bytes),
        decode_utf8(bytes) == ascii_text(bytes),
        encode_utf8(ascii_text(bytes)) == bytes,
{
    let t = ascii_text(bytes);
    assert(is_ascii_chars(t)) by {
        assert forall|i: int| 0 <= i < t.len() implies '\0' <= (#[trigger] t[i]) <= '\u{7f}' by {
            assert(bytes[i] < 0x80);
        }
    }
    is_ascii_chars_encode_utf8(t);
    assert(encode_utf8(t) =~= bytes);
    encode_utf8_valid_utf8(t);
    encode_utf8_decode_utf8(t);
}

/// Whether a text holds a character.
pub open spec fn mentions(s: Seq<char>, c: char) -> bool {
    exists|i: int| 0 <= i < s.len() && s[i] == c
}

/// Whether a text holds a character.
pub fn contains_char(s: &[char], c: char) -> (r: bool)
    ensures
        r == mentions(s@, c),
{
    let mut i: usize = 0;
    while i < s.len()
        invariant
            i <= s@.len(),
            forall|j: int| 0 <= j < i ==> s@[j] != c,
        decreases s.len() - i,
    {
        if s[i] == c {
            return true;
        }
        i += 1;
    }
    false
}

/// Splitting behind a piece without separator, a separator and more.
pub proof fn lemma_split_piece(a: Seq<char>, sep: char, b: Seq<char>)
    requires
        !mentions(a, sep),
    ensures
        split_on(a, sep) == seq![a],
        split_on(a.push(sep) + b, sep) == seq![a] + split_on(b, sep),
    decreases a.len() + b.len(),
{
    if b.len() == 0 {
        if a.len() > 0 {
            assert(!mentions(a.drop_last(), sep)) by {
                assert forall|i: int| 0 <= i < a.drop_last().len() implies a.drop_last()[i] != sep by {
                    assert(a[i] == a.drop_last()[i]);
                }
            }
            lemma_split_piece(a.drop_last(), sep, Seq::empty());
            assert(a.last() != sep) by {
                assert(a[a.len() - 1] == a.last());
            }
            assert(a.drop_last().push(a.last()) =~= a);
            assert(split_on(a, sep) =~= seq![a]);
        } else {
            assert(a =~= Seq::<char>::empty());
        }
        let whole = a.push(sep) + b;
        assert(whole.drop_last() =~= a);
        assert(b =~= Seq::<char>::empty());
        assert(split_on(whole, sep) =~= seq![a] + split_on(b, sep));
    } else {
        lemma_split_piece(a, sep, b.drop_last());
        let whole = a.push(sep) + b;
        assert(whole.drop_last() =~= a.push(sep) + b.drop_last());
        lemma_split_len(b.drop_last(), sep);
        let inner = split_on(b.drop_last(), sep);
        assert((seq![a] + inner).last() == inner.last());
        assert((seq![a] + inner).drop_last() =~= seq![a] + inner.drop_last());
        assert(split_on(whole, sep) =~= seq![a] + split_on(b, sep));
    }
}

/// The value that some decimal digits stand for.
pub open spec fn digits_value(s: Seq<char>) -> nat
    decreases s.len(),
{
    if s.len() == 0 {
        0
    } else {
        10 * digits_value(s.drop_last()) + (s.last() as int - 48) as nat
    }
}

/// Reading a number written in decimal gives the number.
pub proof fn lemma_decimal_nat_value(n: nat)
    ensures
        digits_value(decimal_nat(n)) == n,
        decimal_nat(n).len() > 0,
        is_digit(decimal_nat(n)[0]),
    decreases n,
{
    if n < 10 {
        assert(decimal_nat(n).drop_last() =~= Seq::<char>::empty());
        assert(digits_value(Seq::<char>::empty()) == 0);
    } else {
        lemma_decimal_nat_value(n / 10);
        assert(decimal_nat(n).drop_last() =~= decimal_nat(n / 10));
    }
}

/// Numbers that are written alike are equal.
pub proof fn lemma_decimal_injective(a: int, b: int)
    requires
        decimal(a) == decimal(b),
    ensures
        a == b,
{
    let pa = if a < 0 {
        (-a) as nat
    } else {
        a as nat
    };
    let pb = if b < 0 {
        (-b) as nat
    } else {
        b as nat
    };
    lemma_decimal_nat_value(pa);
    lemma_decimal_nat_value(pb);
    if a < 0 {
        assert(decimal(a)[0] == '-');
        assert(decimal(a).drop_first() =~= decimal_nat(pa));
    }
    if b < 0 {
        assert(decimal(b)[0] == '-');
        assert(decimal(b).drop_first() =~= decimal_nat(pb));
    }
}

/// What the lower case of a text is by Unicode's rules.
pub uninterp spec fn lowercase_of(s: Seq<char>) -> Seq<char>;

/// Whether a text holds no capital letter of ASCII.
pub open spec fn no_capitals(s: Seq<char>) -> bool {
    forall|i: int| 0 <= i < s.len() ==> !('A' <= #[trigger] s[i] <= 'Z')
}

/// `str::to_lowercase`: the lower case of a text by Unicode's rules, in which no
/// capital letter of ASCII is left; of ASCII text, its letters made small.
#[verifier::external_body]
pub(crate) fn to_lowercase(s: &str) -> (r: String)
    ensures
        r@ == lowercase_of(s@),
        no_capitals(r@),
        is_ascii_chars(s@) ==> r@ == lowered(s@),
{
    s.to_lowercase()
}

/// Whether `a` comes before `b` in the order of their characters, or is `b`.
pub open spec fn lex_le(a: Seq<char>, b: Seq<char>) -> bool
    decreases a.len(),
{
    if a.len() == 0 {
        true
    } else if b.len() == 0 {
        false
    } else if a[0] == b[0] {
        lex_le(a.drop_first(), b.drop_first())
    } else {
        a[0] < b[0]
    }
}

/// Whether `a` comes before `b` in the order of their characters, or is `b`.
pub fn not_after(a: &[char], b: &[char]) -> (r: bool)
    ensures
        r == lex_le(a@, b@),
{
    let mut i: usize = 0;
    assert(a@.skip(0) =~= a@);
    assert(b@.skip(0) =~= b@);
    while i < a.len() && i < b.len() && a[i] == b[i]
        invariant
            i <= a@.len(),
            i <= b@.len(),
            lex_le(a@.skip(i as int), b@.skip(i as int)) == lex_le(a@, b@),
        decreases a.len() - i,
    {
        assert(a@.skip(i as int).drop_first() =~= a@.skip(i + 1));
        assert(b@.skip(i as int).drop_first() =~= b@.skip(i + 1));
        i += 1;
    }
    if i == a.len() {
        true
    } else if i == b.len() {
        false
    } else {
        a[i] < b[i]
    }
}

/// Any two texts are in order one way or the other.
pub proof fn lemma_lex_total(a: Seq<char>, b: Seq<char>)
    ensures
        lex_le(a, b) || lex_le(b, a),
    decreases a.len(),
{
    if a.len() > 0 && b.len() > 0 && a[0] == b[0] {
        lemma_lex_total(a.drop_first(), b.drop_first());
    }
}

/// The order of texts carries over.
pub proof fn lemma_lex_transitive(a: Seq<char>, b: Seq<char>, c: Seq<char>)
    requires
        lex_le(a, b),
        lex_le(b, c),
    ensures
        lex_le(a, c),
    decreases a.len(),
{
    if a.len() > 0 && b.len() > 0 && c.len() > 0 && a[0] == b[0] && b[0] == c[0] {
        lemma_lex_transitive(a.drop_first(), b.drop_first(), c.drop_first());
    }
}

/// A text with every `from` replaced by `to`.
pub open spec fn swapped(s: Seq<char>, from: char, to: char) -> Seq<char> {
    Seq::new(
        s.len(),
        |i: int|
            if s[i] == from {
                to
            } else {
                s[i]
            },
    )
}

/// Replaces every `from` by `to`.
pub fn swap_char(s: &[char], from: char, to: char) -> (r: Vec<char>)
    ensures
        r@ == swapped(s@, from, to),
{
    let mut out: Vec<char> = Vec::new();
    let mut i: usize = 0;
    while i < s.len()
        invariant
            i <= s@.len(),
            out@ == swapped(s@.take(i as int), from, to),
        decreases s.len() - i,
    {
        if s[i] == from {
            out.push(to);
        } else {
            out.push(s[i]);
        }
        i += 1;
        assert(out@ =~= swapped(s@.take(i as int), from, to));
    }
    assert(s@.take(i as int) =~= s@);
    out
}

/// Splitting two texts with a separator between them splits each of them.
pub proof fn lemma_split_both(a: Seq<char>, sep: char, b: Seq<char>)
    ensures
        split_on(a.push(sep) + b, sep) == split_on(a, sep) + split_on(b, sep),
    decreases b.len(),
{
    let whole = a.push(sep) + b;
    lemma_split_len(a, sep);
    lemma_split_len(b, sep);
    if b.len() == 0 {
        assert(whole =~= a.push(sep));
        assert(whole.drop_last() =~= a);
        assert(split_on(whole, sep) =~= split_on(a, sep) + split_on(b, sep));
    } else {
        let less = b.drop_last();
        lemma_split_both(a, sep, less);
        lemma_split_len(less, sep);
        assert(whole.drop_last() =~= a.push(sep) + less);
        let l = split_on(a, sep);
        let r = split_on(less, sep);
        assert((l + r).last() == r.last());
        assert((l + r).drop_last() =~= l + r.drop_last());
        assert(split_on(whole, sep) =~= l + split_on(b, sep));
    }
}

/// Whether a text is digits alone, at least one.
pub open spec fn all_digits(s: Seq<char>) -> bool {
    s.len() > 0 && forall|i: int| 0 <= i < s.len() ==> is_digit(#[trigger] s[i])
}

/// The digits of a number's text: without the plus sign that it may start with.
pub open spec fn unsigned(s: Seq<char>) -> Seq<char> {
    if s.len() > 0 && s[0] == '+' {
        s.drop_first()
    } else {
        s
    }
}

/// The number that a decimal text stands for, where it fits 64 bits.
pub open spec fn number_of(s: Seq<char>) -> Option<u64> {
    if all_digits(unsigned(s)) && digits_value(unsigned(s)) <= u64::MAX {
        Some(digits_value(unsigned(s)) as u64)
    } else {
        None
    }
}

proof fn lemma_digits_grow(s: Seq<char>, n: int)
    requires
        all_digits(s),
        0 <= n <= s.len(),
    ensures
        digits_value(s.take(n)) <= digits_value(s),
    decreases s.len() - n,
{
    if n < s.len() {
        lemma_digits_grow(s, n + 1);
        assert(s.take(n + 1).drop_last() =~= s.take(n));
        assert(is_digit(s[n]));
    } else {
        assert(s.take(n) =~= s);
    }
}

/// Reads a decimal number.
pub fn parse_u64(s: &[char]) -> (r: Option<u64>)
    ensures
        r == number_of(s@),
{
    let from: usize = if s.len() > 0 && s[0] == '+' {
        1
    } else {
        0
    };
    let digits = slice_subrange(s, from, s.len());
    assert(digits@ =~= unsigned(s@));
    if digits.len() == 0 {
        return None;
    }
    let mut j: usize = 0;
    while j < digits.len()
        invariant
            j <= digits@.len(),
            digits@ == unsigned(s@),
            forall|k: int| 0 <= k < j ==> is_digit(#[trigger] digits@[k]),
        decreases digits.len() - j,
    {
        if digits[j] < '0' || digits[j] > '9' {
            assert(!is_digit(digits@[j as int]));
            return None;
        }
        j += 1;
    }
    let mut n: u64 = 0;
    let mut i: usize = 0;
    assert(digits@.take(0) =~= Seq::<char>::empty());
    while i < digits.len()
        invariant
            i <= digits@.len(),
            all_digits(digits@),
            digits@ == unsigned(s@),
            n == digits_value(digits@.take(i as int)),
        decreases digits.len() - i,
    {
        proof {
            assert(is_digit(digits@[i as int]));
            assert(digits@.take(i + 1).drop_last() =~= digits@.take(i as int));
            lemma_digits_grow(digits@, i + 1);
        }
        let d: u64 = digits[i] as u64 - '0' as u64;
        if n > (u64::MAX - d) / 10 {
            assert(n * 10 + d > u64::MAX) by (nonlinear_arith)
                requires
                    n > (u64::MAX - d) / 10,
                    d <= 9,
            ;
            return None;
        }
        n = n * 10 + d;
        i += 1;
    }
    assert(digits@.take(i as int) =~= digits@);
    Some(n)
}

/// The last line of a text, without its end; none of an empty text.
pub open spec fn last_line(s: Seq<char>) -> Option<Seq<char>> {
    if s.len() == 0 {
        None
    } else if s.last() == '\n' {
        let line = split_on(s.drop_last(), '\n').last();
        if line.len() > 0 && line.last() == '\r' {
            Some(line.drop_last())
        } else {
            Some(line)
        }
    } else {
        Some(split_on(s, '\n').last())
    }
}

/// The last line of a text, without its end.
pub fn last_line_of(s: &[char]) -> (r: Option<Vec<char>>)
    ensures
        match r {
            Some(v) => last_line(s@) == Some(v@),
            None => last_line(s@) is None,
        },
{
    if s.len() == 0 {
        return None;
    }
    let ended = s[s.len() - 1] == '\n';
    let to: usize = if ended {
        s.len() - 1
    } else {
        s.len()
    };
    let body = slice_subrange(s, 0, to);
    assert(body@ =~= if ended {
        s@.drop_last()
    } else {
        s@
    });
    let mut pieces = split(body, '\n');
    proof {
        lemma_split_len(body@, '\n');
    }
    let ghost all = runs(pieces@);
    match pieces.pop() {
        None => None,
        Some(p) => {
            assert(all.last() == p@);
            let mut line = p;
            if ended && line.len() > 0 && line[line.len() - 1] == '\r' {
                let ghost before = line@;
                line.pop();
                assert(line@ =~= before.drop_last());
            }
            Some(line)
        },
    }
}

/// The digits of a whole number's text: without the minus sign that it may start
/// with.
pub open spec fn magnitude(s: Seq<char>) -> Seq<char> {
    if s.len() > 0 && s[0] == '-' {
        s.drop_first()
    } else {
        s
    }
}

/// The whole number that a decimal text stands for, where it fits 64 bits with a
/// sign.
pub open spec fn integer_of(s: Seq<char>) -> Option<i64> {
    let v = digits_value(magnitude(s));
    if !all_digits(magnitude(s)) {
        None
    } else if s[0] == '-' {
        if v <= 0x8000_0000_0000_0000 {
            Some((0 - v) as i64)
        } else {
            None
        }
    } else if v <= i64::MAX {
        Some(v as i64)
    } else {
        None
    }
}

/// Reads a whole number.
pub fn parse_i64(s: &[char]) -> (r: Option<i64>)
    ensures
        r == integer_of(s@),
{
    let negative = s.len() > 0 && s[0] == '-';
    let from: usize = if negative {
        1
    } else {
        0
    };
    let digits = slice_subrange(s, from, s.len());
    assert(digits@ =~= magnitude(s@));
    if digits.len() == 0 {
        return None;
    }
    if digits[0] < '0' || digits[0] > '9' {
        assert(!is_digit(digits@[0]));
        return None;
    }
    assert(unsigned(digits@) == digits@);
    match parse_u64(digits) {
        None => {
            assert(all_digits(digits@) ==> digits_value(digits@) > u64::MAX);
            None
        },
        Some(v) => if negative {
            if v < 0x8000_0000_0000_0000 {
                Some(-(v as i64))
            } else if v == 0x8000_0000_0000_0000 {
                Some(i64::MIN)
            } else {
                None
            }
        } else if v <= 0x7fff_ffff_ffff_ffff {
            Some(v as i64)
        } else {
            None
        },
    }
}

} // verus!
