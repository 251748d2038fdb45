//! Digests, message authentication and hexadecimal text.
use hmac::Mac;
use sha2::Digest;
use vstd::prelude::*;
use vstd::string::*;

verus! {

/// What SHA-256 makes of some bytes.
pub uninterp spec fn sha256_of(data: Seq<u8>) -> Seq<u8>;

/// What HMAC-SHA256 makes of a key and a message.
pub uninterp spec fn hmac_sha256_of(key: Seq<u8>, message: Seq<u8>) -> Seq<u8>;

/// `sha2::Sha256::digest`: the SHA-256 digest of the data, 32 bytes long.
#[verifier::external_body]
pub(crate) fn sha256(data: &[u8]) -> (r: Vec<u8>)
    ensures
        r@ == sha256_of(data@),
        r@.len() == 32,
{
    sha2::Sha256::digest(data).to_vec()
}

/// `hmac::Hmac<Sha256>`, keyed, fed and finalized: the authentication code of
/// the message, 32 bytes long. Every key length is accepted.
#[verifier::external_body]
pub(crate) fn hmac_sha256(key: &[u8], message: &[u8]) -> (r: Vec<u8>)
    ensures
        r@ == hmac_sha256_of(key@, message@),
        r@.len() == 32,
{
    let mut mac = hmac::Hmac::<sha2::Sha256>::new_from_slice(key).expect("any key length");
    mac.update(message);
    mac.finalize().into_bytes().to_vec()
}

/// `Mac::verify_slice` of `hmac::Hmac<Sha256>`: whether the tag is the whole
/// authentication code of the message.
#[verifier::external_body]
pub(crate) fn hmac_matches(key: &[u8], message: &[u8], tag: &[u8]) -> (r: bool)
    ensures
        r == (tag@ == hmac_sha256_of(key@, message@)),
{
    let mut mac = hmac::Hmac::<sha2::Sha256>::new_from_slice(key).expect("any key length");
    mac.update(message);
    mac.verify_slice(tag).is_ok()
}

/// The small hexadecimal digit of a number below sixteen.
pub open spec fn hex_digit(n: int) -> char {
    if n < 10 {
        (48 + n) as u8 as char
    } else {
        (87 + n) as u8 as char
    }
}

/// The value of a hexadecimal digit, small or capital.
pub open spec fn hex_value(c: char) -> Option<int> {
    if '0' <= c <= '9' {
        Some(c as int - 48)
    } else if 'a' <= c <= 'f' {
        Some(c as int - 87)
    } else if 'A' <= c <= 'F' {
        Some(c as int - 55)
    } else {
        None
    }
}

/// Bytes as hexadecimal text: two small digits each.
pub open spec fn hex_text(data: Seq<u8>) -> Seq<char> {
    Seq::new(
        2 * data.len(),
        |i: int|
            if i % 2 == 0 {
                hex_digit(data[i / 2] as int / 16)
            } else {
                hex_digit(data[i / 2] as int % 16)
            },
    )
}

/// Whether a text is hexadecimal: an even number of digits.
pub open spec fn is_hex(s: Seq<char>) -> bool {
    s.len() % 2 == 0 && forall|i: int| 0 <= i < s.len() ==> hex_value(#[trigger] s[i]) is Some
}

/// The bytes that a hexadecimal text stands for.
pub open spec fn hex_bytes(s: Seq<char>) -> Seq<u8> {
    Seq::new(
        s.len() / 2,
        |i: int| (16 * hex_value(s[2 * i])->0 + hex_value(s[2 * i + 1])->0) as u8,
    )
}

/// `hex::encode`: the bytes as hexadecimal text in small digits.
#[verifier::external_body]
pub(crate) fn hex_encode(data: &[u8]) -> (r: String)
    ensures
        r@ == hex_text(data@),
{
    hex::encode(data)
}

/// `hex::decode`: the bytes that a hexadecimal text stands for; it fails on an
/// odd length and on anything but digits.
#[verifier::external_body]
pub(crate) fn hex_decode(s: &str) -> (r: Option<Vec<u8>>)
    ensures
        match r {
            Some(v) => is_hex(s@) && v@ == hex_bytes(s@),
            None => !is_hex(s@),
        },
{
    hex::decode(s).ok()
}

/// Reading back what hexadecimal text was made of gives the bytes again, and
/// the text has two digits per byte.
pub proof fn law_hex_round_trip(data: Seq<u8>)
    ensures
        is_hex(hex_text(data)),
        hex_bytes(hex_text(data)) == data,
        hex_text(data).len() == 2 * data.len(),
{
    let s = hex_text(data);
    assert forall|i: int| 0 <= i < s.len() implies hex_value(#[trigger] s[i]) is Some by {
        let b = data[i / 2] as int;
        assert(0 <= b / 16 < 16 && 0 <= b % 16 < 16);
    }
    assert forall|i: int| 0 <= i < data.len() implies hex_bytes(s)[i] == data[i] by {
        let b = data[i] as int;
        assert((2 * i) / 2 == i && (2 * i + 1) / 2 == i);
        assert((2 * i) % 2 == 0 && (2 * i + 1) % 2 == 1);
        assert(hex_value(s[2 * i]) == Some(b / 16));
        assert(hex_value(s[2 * i + 1]) == Some(b % 16));
    }
    assert(hex_bytes(s) =~= data);
}

/// Whether a byte is a hexadecimal digit of ASCII.
pub open spec fn is_hex_byte(b: u8) -> bool {
    0x30 <= b <= 0x39 || 0x41 <= b <= 0x46 || 0x61 <= b <= 0x66
}

/// Whether all bytes are hexadecimal digits of ASCII.
pub open spec fn all_hex(bytes: Seq<u8>) -> bool {
    forall|i: int| 0 <= i < bytes.len() ==> is_hex_byte(#[trigger] bytes[i])
}

/// Whether all bytes are hexadecimal digits of ASCII.
pub fn all_hex_digits(bytes: &[u8]) -> (r: bool)
    ensures
        r == all_hex(bytes@),
{
    let mut i: usize = 0;
    while i < bytes.len()
        invariant
            i <= bytes@.len(),
            forall|j: int| 0 <= j < i ==> is_hex_byte(#[trigger] bytes@[j]),
        decreases bytes.len() - i,
    {
        let b = bytes[i];
        if !((0x30 <= b && b <= 0x39) || (0x41 <= b && b <= 0x46) || (0x61 <= b && b <= 0x66)) {
            assert(!is_hex_byte(bytes@[i as int]));
            return false;
        }
        i += 1;
    }
    true
}

/// SHA-256 of some bytes in hexadecimal.
pub open spec fn sha256_hex_of(data: Seq<u8>) -> Seq<char> {
    hex_text(sha256_of(data))
}

/// SHA-256 of some bytes in hexadecimal.
pub fn sha256_hex(data: &[u8]) -> (r: String)
    ensures
        r@ == sha256_hex_of(data@),
        r@.len() == 64,
{
    let d = sha256(data);
    proof {
        law_hex_round_trip(d@);
    }
    hex_encode(d.as_slice())
}

/// `sha2::Sha256` as a running digest: it is fed bytes and finished once. Verus
/// cannot name the outside type, an alias for a generic one, in a declaration.
#[verifier::external_body]
pub struct RunningDigest {
    inner: sha2::Sha256,
}

/// The bytes that a running digest was fed so far.
pub uninterp spec fn fed_to(d: RunningDigest) -> Seq<u8>;

impl RunningDigest {
    /// `Sha256::new`: a digest that was fed nothing.
    #[verifier::external_body]
    pub(crate) fn start() -> (d: RunningDigest)
        ensures
            fed_to(d) == Seq::<u8>::empty(),
    {
        RunningDigest { inner: sha2::Sha256::new() }
    }

    /// `Digest::update`: feeds bytes behind those before.
    #[verifier::external_body]
    pub(crate) fn feed(&mut self, data: &[u8])
        ensures
            fed_to(*final(self)) == fed_to(*old(self)) + data@,
    {
        self.inner.update(data);
    }

    /// `Digest::finalize`: the SHA-256 digest of all bytes fed.
    #[verifier::external_body]
    pub(crate) fn finish(self) -> (r: Vec<u8>)
        ensures
            r@ == sha256_of(fed_to(self)),
            r@.len() == 32,
    {
        self.inner.finalize().to_vec()
    }
}

/// A SHA-256 checksum over bytes that come in chunks.
pub struct Checksum {
    digest: RunningDigest,
}

impl View for Checksum {
    type V = Seq<u8>;

    /// The bytes that were added.
    closed spec fn view(&self) -> Seq<u8> {
        fed_to(self.digest)
    }
}

impl Checksum {
    /// A checksum over nothing yet.
    pub fn new() -> (r: Checksum)
        ensures
            r@ == Seq::<u8>::empty(),
    {
        Checksum { digest: RunningDigest::start() }
    }

    /// Adds a chunk.
    pub fn add(&mut self, chunk: &[u8])
        ensures
            final(self)@ == old(self)@ + chunk@,
    {
        self.digest.feed(chunk);
    }

    /// The checksum in hexadecimal of everything that was added.
    pub fn hex(self) -> (r: String)
        ensures
            r@ == sha256_hex_of(self@),
            r@.len() == 64,
    {
        let d = self.digest.finish();
        proof {
            law_hex_round_trip(d@);
        }
        hex_encode(d.as_slice())
    }
}

} // verus!
