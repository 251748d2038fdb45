//! Wire protocol between the panel and the `voltd` execution agent.
//!
//! Requests are authenticated with HMAC-SHA256 over
//! `NODE_ID\nMETHOD\nPATH\nTIMESTAMP\nNONCE\nSHA256(BODY)`, responses over
//! `NODE_ID\nMETHOD\nPATH\nSTATUS\nNONCE\nSHA256(BODY)`, with the nonce of the
//! request echoed.
use crate::digest;
use crate::text;
use vstd::prelude::*;
use vstd::slice::*;
use vstd::string::*;
use vstd::utf8::*;

verus! {

pub const SIGNATURE_HEADER: &'static str = "x-volt-signature";

pub const TIMESTAMP_HEADER: &'static str = "x-volt-timestamp";

pub const NONCE_HEADER: &'static str = "x-volt-nonce";

pub const NODE_ID_HEADER: &'static str = "x-volt-node";

/// Longest difference between the clocks, in seconds, at which a signed request
/// is still accepted.
pub const MAX_CLOCK_SKEW_SECS: i64 = 90;

/// Header by which a request asks for a streamed transfer.
pub const STREAM_HEADER: &'static str = "x-volt-stream";

/// Magic of the footer behind a streamed body.
pub const STREAM_FOOTER_MAGIC: &'static str = "VOLTSTREAM1";

/// Length of the footer: newline, magic, newline, 64 digits, newline.
pub const STREAM_FOOTER_LEN: usize = 1 + 11 + 1 + 64 + 1;

/// Why a message was not accepted.
#[derive(Debug, Clone, Copy, PartialEq, Eq, Structural)]
pub enum ProtocolError {
    Expired,
    InvalidNodeId,
    InvalidSignatureEncoding,
    SignatureMismatch,
    MisaddressedSignature,
    ResponseMismatch,
    InvalidResponseEncoding,
    ShortStream,
    MalformedFooter,
}

impl ProtocolError {
    /// The message of an error.
    pub open spec fn text_of(self) -> Seq<char> {
        match self {
            ProtocolError::Expired => "signed request expired"@,
            ProtocolError::InvalidNodeId => "invalid node id"@,
            ProtocolError::InvalidSignatureEncoding => "invalid signature encoding"@,
            ProtocolError::SignatureMismatch => "signature mismatch"@,
            ProtocolError::MisaddressedSignature => {
                "malformed or misaddressed response signature"@
            },
            ProtocolError::ResponseMismatch => "response signature mismatch"@,
            ProtocolError::InvalidResponseEncoding => "invalid response signature encoding"@,
            ProtocolError::ShortStream => {
                "streaming response body is shorter than its signature footer"@
            },
            ProtocolError::MalformedFooter => "malformed streaming footer"@,
        }
    }

    /// The message of an error.
    pub fn message(self) -> (r: &'static str)
        ensures
            r@ == self.text_of(),
    {
        match self {
            ProtocolError::Expired => "signed request expired",
            ProtocolError::InvalidNodeId => "invalid node id",
            ProtocolError::InvalidSignatureEncoding => "invalid signature encoding",
            ProtocolError::SignatureMismatch => "signature mismatch",
            ProtocolError::MisaddressedSignature => "malformed or misaddressed response signature",
            ProtocolError::ResponseMismatch => "response signature mismatch",
            ProtocolError::InvalidResponseEncoding => "invalid response signature encoding",
            ProtocolError::ShortStream => {
                "streaming response body is shorter than its signature footer"
            },
            ProtocolError::MalformedFooter => "malformed streaming footer",
        }
    }
}

/// What a signed request carries in its headers.
#[derive(Debug, Clone)]
pub struct SignedHeaders {
    pub node_id: String,
    pub timestamp: i64,
    pub nonce: String,
    pub signature: String,
}

/// SHA-256 of a body in hexadecimal.
pub fn body_hash(body: &[u8]) -> (r: String)
    ensures
        r@ == digest::sha256_hex_of(body@),
        r@.len() == 64,
{
    digest::sha256_hex(body)
}

/// The six lines that a message is authenticated by: node, method in capitals,
/// path, a number, nonce and body hash.
pub open spec fn canonical_text(
    node_id: Seq<char>,
    method: Seq<char>,
    path: Seq<char>,
    number: int,
    nonce: Seq<char>,
    hash: Seq<char>,
) -> Seq<char> {
    node_id + seq!['\n'] + text::uppered(method) + seq!['\n'] + path + seq!['\n'] + text::decimal(
        number,
    ) + seq!['\n'] + nonce + seq!['\n'] + hash
}

/// Puts the six lines together.
fn six_lines(
    node_id: &str,
    method: &str,
    path: &str,
    number: i64,
    nonce: &str,
    hash: &str,
) -> (r: String)
    ensures
        r@ == canonical_text(node_id@, method@, path@, number as int, nonce@, hash@),
{
    let upper = text::to_upper(text::chars_of(method).as_slice());
    let digits = text::decimal_i64(number);
    let mut out = text::copy_of(node_id);
    out.push('\n');
    out.append(text::string_of(upper.as_slice()).as_str());
    out.push('\n');
    out.append(path);
    out.push('\n');
    out.append(text::string_of(digits.as_slice()).as_str());
    out.push('\n');
    out.append(nonce);
    out.push('\n');
    out.append(hash);
    assert(out@ =~= canonical_text(node_id@, method@, path@, number as int, nonce@, hash@));
    out
}

/// The text that a request's signature covers, from the hash of its body.
pub fn canonical_hash(
    node_id: &str,
    method: &str,
    path: &str,
    timestamp: i64,
    nonce: &str,
    sha256_hex: &str,
) -> (r: String)
    ensures
        r@ == canonical_text(node_id@, method@, path@, timestamp as int, nonce@, sha256_hex@),
{
    six_lines(node_id, method, path, timestamp, nonce, sha256_hex)
}

/// The text that a request's signature covers.
pub fn canonical(
    node_id: &str,
    method: &str,
    path: &str,
    timestamp: i64,
    nonce: &str,
    body: &[u8],
) -> (r: String)
    ensures
        r@ == canonical_text(
            node_id@,
            method@,
            path@,
            timestamp as int,
            nonce@,
            digest::sha256_hex_of(body@),
        ),
{
    canonical_hash(node_id, method, path, timestamp, nonce, body_hash(body).as_str())
}

/// The signature of a text under a secret: its authentication code in
/// hexadecimal.
pub open spec fn signature_of(secret: Seq<char>, payload: Seq<char>) -> Seq<char> {
    digest::hex_text(digest::hmac_sha256_of(encode_utf8(secret), encode_utf8(payload)))
}

/// Signs a text.
fn sign_text(secret: &str, payload: &str) -> (r: String)
    ensures
        r@ == signature_of(secret@, payload@),
        r@.len() == 64,
{
    let mac = digest::hmac_sha256(secret.as_bytes(), payload.as_bytes());
    proof {
        digest::law_hex_round_trip(mac@);
    }
    digest::hex_encode(mac.as_slice())
}

/// `chrono::Utc::now().timestamp()`: seconds since the epoch. Nothing is
/// claimed of the clock.
#[verifier::external_body]
fn unix_now() -> (r: i64) {
    chrono::Utc::now().timestamp()
}

/// Whether a text is 32 small hexadecimal digits.
pub open spec fn is_nonce(s: Seq<char>) -> bool {
    s.len() == 32 && forall|i: int|
        0 <= i < s.len() ==> ('0' <= #[trigger] s[i] <= '9' || 'a' <= s[i] <= 'f')
}

/// `uuid::Uuid::new_v4().simple()`: a random identifier as 32 small hexadecimal
/// digits.
#[verifier::external_body]
pub(crate) fn fresh_nonce() -> (r: String)
    ensures
        is_nonce(r@),
{
    uuid::Uuid::new_v4().simple().to_string()
}

/// Whether a text is a UUID in its hyphenated form: 36 characters, small
/// hexadecimal digits but for four hyphens.
pub open spec fn is_hyphenated(s: Seq<char>) -> bool {
    s.len() == 36 && forall|i: int|
        0 <= i < s.len() ==> if i == 8 || i == 13 || i == 18 || i == 23 {
            #[trigger] s[i] == '-'
        } else {
            '0' <= s[i] <= '9' || 'a' <= s[i] <= 'f'
        }
}

/// `uuid::Uuid::new_v4()` as text: a random identifier in its hyphenated form,
/// which `uuid::Uuid::parse_str` reads.
#[verifier::external_body]
pub(crate) fn fresh_uuid() -> (r: String)
    ensures
        is_hyphenated(r@),
        uuid_text(r@),
{
    uuid::Uuid::new_v4().to_string()
}

/// The signed headers of a request made at `timestamp` with `nonce`.
pub fn headers_for(
    secret: &str,
    method: &str,
    path: &str,
    body_sha256_hex: &str,
    node_id: &str,
    timestamp: i64,
    nonce: String,
) -> (r: SignedHeaders)
    ensures
        r.node_id@ == node_id@,
        r.timestamp == timestamp,
        r.nonce == nonce,
        r.signature@ == signature_of(
            secret@,
            canonical_text(
                node_id@,
                method@,
                path@,
                timestamp as int,
                nonce@,
                body_sha256_hex@,
            ),
        ),
        r.signature@.len() == 64,
{
    let payload = canonical_hash(
        node_id,
        method,
        path,
        timestamp,
        nonce.as_str(),
        body_sha256_hex,
    );
    let signature = sign_text(secret, payload.as_str());
    SignedHeaders { node_id: text::copy_of(node_id), timestamp, nonce, signature }
}

/// Whether headers are what signing a request for `node_id` gives, whatever the
/// time and the nonce were.
pub open spec fn is_signed(
    h: SignedHeaders,
    secret: Seq<char>,
    method: Seq<char>,
    path: Seq<char>,
    hash: Seq<char>,
    node_id: Seq<char>,
) -> bool {
    &&& h.node_id@ == node_id
    &&& is_nonce(h.nonce@)
    &&& h.signature@ == signature_of(
        secret,
        canonical_text(node_id, method, path, h.timestamp as int, h.nonce@, hash),
    )
    &&& h.signature@.len() == 64
}

/// Signs a request from the hash of its body, now and with a fresh nonce.
pub fn sign_body_hash(
    secret: &str,
    method: &str,
    path: &str,
    body_sha256_hex: &str,
    node_id: &str,
) -> (r: Result<SignedHeaders, ProtocolError>)
    ensures
        r is Ok,
        is_signed(r->Ok_0, secret@, method@, path@, body_sha256_hex@, node_id@),
{
    let timestamp = unix_now();
    let nonce = fresh_nonce();
    Ok(headers_for(secret, method, path, body_sha256_hex, node_id, timestamp, nonce))
}

/// Signs a request.
pub fn sign(secret: &str, method: &str, path: &str, body: &[u8], node_id: &str) -> (r: Result<
    SignedHeaders,
    ProtocolError,
>)
    ensures
        r is Ok,
        is_signed(
            r->Ok_0,
            secret@,
            method@,
            path@,
            digest::sha256_hex_of(body@),
            node_id@,
        ),
{
    sign_body_hash(secret, method, path, body_hash(body).as_str(), node_id)
}

/// A signed request whose body is still to be checked: its headers passed.
#[derive(Debug, Clone)]
pub struct PendingRequest {
    pub node_id: String,
    pub timestamp: i64,
    pub nonce: String,
    pub signature: Vec<u8>,
}

/// Whether a text is a UUID in one of the forms that the `uuid` crate reads.
pub uninterp spec fn uuid_text(s: Seq<char>) -> bool;

/// `uuid::Uuid::parse_str`: whether a text is a UUID.
#[verifier::external_body]
fn is_uuid(s: &str) -> (r: bool)
    ensures
        r == uuid_text(s@),
{
    uuid::Uuid::parse_str(s).is_ok()
}

/// Whether two times are within the accepted difference.
pub open spec fn in_window(now: i64, timestamp: i64) -> bool {
    -MAX_CLOCK_SKEW_SECS <= now - timestamp <= MAX_CLOCK_SKEW_SECS
}

/// What the header checks say of a request, given whether its node id is a
/// UUID: too old or too new first, then the node id, then the signature's form.
pub open spec fn pending_error(
    h: SignedHeaders,
    now: i64,
    node_id_is_uuid: bool,
) -> Option<ProtocolError> {
    if !in_window(now, h.timestamp) {
        Some(ProtocolError::Expired)
    } else if !node_id_is_uuid {
        Some(ProtocolError::InvalidNodeId)
    } else if !digest::is_hex(h.signature@) {
        Some(ProtocolError::InvalidSignatureEncoding)
    } else {
        None
    }
}

/// Whether `p` is the pending request of some headers.
pub open spec fn is_pending(p: PendingRequest, h: SignedHeaders) -> bool {
    &&& p.node_id@ == h.node_id@
    &&& p.timestamp == h.timestamp
    &&& p.nonce@ == h.nonce@
    &&& p.signature@ == digest::hex_bytes(h.signature@)
}

/// The header checks, given whether the node id is a UUID.
pub fn check_headers(headers: &SignedHeaders, now: i64, node_id_is_uuid: bool) -> (r: Result<
    PendingRequest,
    ProtocolError,
>)
    ensures
        match r {
            Ok(p) => pending_error(*headers, now, node_id_is_uuid) is None && is_pending(
                p,
                *headers,
            ),
            Err(e) => pending_error(*headers, now, node_id_is_uuid) == Some(e),
        },
{
    let apart: i128 = now as i128 - headers.timestamp as i128;
    if apart > MAX_CLOCK_SKEW_SECS as i128 || apart < -(MAX_CLOCK_SKEW_SECS as i128) {
        return Err(ProtocolError::Expired);
    }
    if !node_id_is_uuid {
        return Err(ProtocolError::InvalidNodeId);
    }
    match digest::hex_decode(headers.signature.as_str()) {
        None => Err(ProtocolError::InvalidSignatureEncoding),
        Some(signature) => Ok(
            PendingRequest {
                node_id: text::copy_of(headers.node_id.as_str()),
                timestamp: headers.timestamp,
                nonce: text::copy_of(headers.nonce.as_str()),
                signature,
            },
        ),
    }
}

/// Runs every check of a signed request that does not need its body.
pub fn verify_pending(headers: &SignedHeaders, now: i64) -> (r: Result<
    PendingRequest,
    ProtocolError,
>)
    ensures
        match r {
            Ok(p) => pending_error(*headers, now, uuid_text(headers.node_id@)) is None
                && is_pending(p, *headers),
            Err(e) => pending_error(*headers, now, uuid_text(headers.node_id@)) == Some(e),
        },
{
    check_headers(headers, now, is_uuid(headers.node_id.as_str()))
}

/// Whether a tag is the authentication code of a text under a secret.
pub open spec fn authentic(secret: Seq<char>, payload: Seq<char>, tag: Seq<u8>) -> bool {
    tag == digest::hmac_sha256_of(encode_utf8(secret), encode_utf8(payload))
}

/// Finishes the check of a pending request with the hash of its body.
pub fn complete_verify(
    secret: &str,
    method: &str,
    path: &str,
    pending: &PendingRequest,
    body_sha256_hex: &str,
) -> (r: Result<(), ProtocolError>)
    ensures
        r is Ok <==> authentic(
            secret@,
            canonical_text(
                pending.node_id@,
                method@,
                path@,
                pending.timestamp as int,
                pending.nonce@,
                body_sha256_hex@,
            ),
            pending.signature@,
        ),
        r is Err ==> r->Err_0 == ProtocolError::SignatureMismatch,
{
    let payload = canonical_hash(
        pending.node_id.as_str(),
        method,
        path,
        pending.timestamp,
        pending.nonce.as_str(),
        body_sha256_hex,
    );
    if digest::hmac_matches(
        secret.as_bytes(),
        payload.as_str().as_bytes(),
        pending.signature.as_slice(),
    ) {
        Ok(())
    } else {
        Err(ProtocolError::SignatureMismatch)
    }
}

/// What the check of a whole request says: nothing where it is accepted.
pub open spec fn request_error(
    secret: Seq<char>,
    method: Seq<char>,
    path: Seq<char>,
    hash: Seq<char>,
    h: SignedHeaders,
    now: i64,
    node_id_is_uuid: bool,
) -> Option<ProtocolError> {
    if pending_error(h, now, node_id_is_uuid) is Some {
        pending_error(h, now, node_id_is_uuid)
    } else if !authentic(
        secret,
        canonical_text(h.node_id@, method, path, h.timestamp as int, h.nonce@, hash),
        digest::hex_bytes(h.signature@),
    ) {
        Some(ProtocolError::SignatureMismatch)
    } else {
        None
    }
}

/// Checks a signed request.
pub fn verify(
    secret: &str,
    method: &str,
    path: &str,
    body: &[u8],
    headers: &SignedHeaders,
    now: i64,
) -> (r: Result<(), ProtocolError>)
    ensures
        ({
            let error = request_error(
                secret@,
                method@,
                path@,
                digest::sha256_hex_of(body@),
                *headers,
                now,
                uuid_text(headers.node_id@),
            );
            match r {
                Ok(_) => error is None,
                Err(e) => error == Some(e),
            }
        }),
{
    match verify_pending(headers, now) {
        Ok(pending) => complete_verify(secret, method, path, &pending, body_hash(body).as_str()),
        Err(e) => Err(e),
    }
}

/// The text that a response's signature covers, from the hash of its body.
pub fn response_canonical_hash(
    node_id: &str,
    method: &str,
    path: &str,
    status: u16,
    nonce: &str,
    sha256_hex: &str,
) -> (r: String)
    ensures
        r@ == canonical_text(node_id@, method@, path@, status as int, nonce@, sha256_hex@),
{
    six_lines(node_id, method, path, status as i64, nonce, sha256_hex)
}

/// The text that a response's signature covers.
pub fn response_canonical(
    node_id: &str,
    method: &str,
    path: &str,
    status: u16,
    nonce: &str,
    body: &[u8],
) -> (r: String)
    ensures
        r@ == canonical_text(
            node_id@,
            method@,
            path@,
            status as int,
            nonce@,
            digest::sha256_hex_of(body@),
        ),
{
    response_canonical_hash(node_id, method, path, status, nonce, body_hash(body).as_str())
}

/// Signs a response envelope, serialized without its signature fields.
pub fn sign_response(
    secret: &str,
    method: &str,
    path: &str,
    status: u16,
    nonce: &str,
    body: &[u8],
    node_id: &str,
) -> (r: Result<String, ProtocolError>)
    ensures
        r is Ok,
        r->Ok_0@ == signature_of(
            secret@,
            canonical_text(
                node_id@,
                method@,
                path@,
                status as int,
                nonce@,
                digest::sha256_hex_of(body@),
            ),
        ),
        r->Ok_0@.len() == 64,
{
    let payload = response_canonical(node_id, method, path, status, nonce, body);
    Ok(sign_text(secret, payload.as_str()))
}

/// Outcome of authenticating a node's response envelope.
#[derive(Debug, Clone, Copy, PartialEq, Eq, Structural)]
pub enum ResponseAuth {
    /// The envelope carried no signature.
    Unsigned,
    /// The envelope's signature matched.
    Verified,
}

/// What stands before the signature in a signed envelope.
pub const SIGNATURE_MARK: &'static str = ",\"signature\":\"";

/// What stands between signature and nonce in a signed envelope.
pub const NONCE_MARK: &'static str = "\",\"nonce\":\"";

/// What ends a signed envelope.
pub const ENVELOPE_END: &'static str = "\"}";

/// Whether `p` stands in `s` at position `at`.
pub open spec fn bytes_at(s: Seq<u8>, p: Seq<u8>, at: int) -> bool {
    0 <= at && at + p.len() <= s.len() && s.subrange(at, at + p.len()) == p
}

/// The last position up to `from` where `p` stands in `s`.
pub open spec fn last_from(s: Seq<u8>, p: Seq<u8>, from: int) -> Option<int>
    decreases from + 1,
{
    if from < 0 {
        None
    } else if bytes_at(s, p, from) {
        Some(from)
    } else {
        last_from(s, p, from - 1)
    }
}

/// A signature block at the end of an envelope.
pub ghost struct Block {
    pub at: int,
    pub signature: Seq<u8>,
    pub nonce: Seq<u8>,
}

/// Where the next quote stands from `i` on; the end where there is none.
pub open spec fn next_quote(s: Seq<u8>, i: int) -> int
    decreases s.len() - i,
{
    if i >= s.len() || s[i] == 0x22 {
        i
    } else {
        next_quote(s, i + 1)
    }
}

/// The signature block that an envelope ends with: the last signature mark,
/// behind it a signature without quotes, the nonce mark, a nonce without quotes,
/// and the end of the envelope.
pub open spec fn block_of(raw: Seq<u8>) -> Option<Block> {
    let mark = encode_utf8(SIGNATURE_MARK@);
    let middle = encode_utf8(NONCE_MARK@);
    match last_from(raw, mark, raw.len() - mark.len()) {
        None => None,
        Some(at) => {
            let sig_at = at + mark.len();
            let sig_end = next_quote(raw, sig_at);
            let nonce_at = sig_end + middle.len();
            let end = raw.len() - 2;
            let signature = raw.subrange(sig_at, sig_end);
            let nonce = raw.subrange(nonce_at, end);
            if nonce_at <= end && raw.subrange(sig_end, nonce_at) == middle && raw.skip(end)
                == encode_utf8(ENVELOPE_END@) && !nonce.contains(0x22) {
                Some(Block { at, signature, nonce })
            } else {
                None
            }
        },
    }
}

/// Whether some bytes can be a signature: 64 hexadecimal digits.
pub open spec fn is_signature(bytes: Seq<u8>) -> bool {
    bytes.len() == 64 && digest::all_hex(bytes)
}

/// The bytes that a signature block covers: what stands before it, closed again.
pub open spec fn signed_part(raw: Seq<u8>, block: Block) -> Seq<u8> {
    raw.take(block.at).push(0x7d)
}

proof fn lemma_marks()
    ensures
        encode_utf8(SIGNATURE_MARK@) == seq![
            0x2cu8,
            0x22,
            0x73,
            0x69,
            0x67,
            0x6e,
            0x61,
            0x74,
            0x75,
            0x72,
            0x65,
            0x22,
            0x3a,
            0x22,
        ],
        encode_utf8(NONCE_MARK@) == seq![
            0x22u8,
            0x2c,
            0x22,
            0x6e,
            0x6f,
            0x6e,
            0x63,
            0x65,
            0x22,
            0x3a,
            0x22,
        ],
        encode_utf8(ENVELOPE_END@) == seq![0x22u8, 0x7d],
{
    reveal_strlit(",\"signature\":\"");
    reveal_strlit("\",\"nonce\":\"");
    reveal_strlit("\"}");
    is_ascii_chars_encode_utf8(SIGNATURE_MARK@);
    is_ascii_chars_encode_utf8(NONCE_MARK@);
    is_ascii_chars_encode_utf8(ENVELOPE_END@);
    assert(is_ascii_chars(SIGNATURE_MARK@));
    assert(is_ascii_chars(NONCE_MARK@));
    assert(is_ascii_chars(ENVELOPE_END@));
    assert(encode_utf8(SIGNATURE_MARK@) =~= seq![
        0x2cu8,
        0x22,
        0x73,
        0x69,
        0x67,
        0x6e,
        0x61,
        0x74,
        0x75,
        0x72,
        0x65,
        0x22,
        0x3a,
        0x22,
    ]);
    assert(encode_utf8(NONCE_MARK@) =~= seq![
        0x22u8,
        0x2c,
        0x22,
        0x6e,
        0x6f,
        0x6e,
        0x63,
        0x65,
        0x22,
        0x3a,
        0x22,
    ]);
    assert(encode_utf8(ENVELOPE_END@) =~= seq![0x22u8, 0x7d]);
}

/// The last position where `p` stands in `s`.
fn find_last(s: &[u8], p: &[u8]) -> (r: Option<usize>)
    ensures
        match r {
            Some(at) => last_from(s@, p@, s@.len() - p@.len()) == Some(at as int) && bytes_at(
                s@,
                p@,
                at as int,
            ),
            None => last_from(s@, p@, s@.len() - p@.len()) is None,
        },
{
    if p.len() > s.len() {
        return None;
    }
    let total: usize = s.len();
    let mut at: usize = total - p.len();
    loop
        invariant
            total == s@.len(),
            at <= s@.len() - p@.len(),
            last_from(s@, p@, at as int) == last_from(s@, p@, s@.len() - p@.len()),
        decreases at,
    {
        if text::same_bytes(slice_subrange(s, at, at + p.len()), p) {
            return Some(at);
        }
        if at == 0 {
            assert(last_from(s@, p@, -1) is None);
            return None;
        }
        at -= 1;
    }
}

/// The last position is a position, and there is no later one.
proof fn lemma_last_from(s: Seq<u8>, p: Seq<u8>, from: int)
    ensures
        match last_from(s, p, from) {
            Some(at) => at <= from && bytes_at(s, p, at) && forall|j: int|
                at < j <= from ==> !bytes_at(s, p, j),
            None => forall|j: int| 0 <= j <= from ==> !bytes_at(s, p, j),
        },
    decreases from + 1,
{
    if from >= 0 && !bytes_at(s, p, from) {
        lemma_last_from(s, p, from - 1);
    }
}

/// Finds the next quote.
fn find_quote(s: &[u8], from: usize) -> (r: usize)
    requires
        from <= s@.len(),
    ensures
        r == next_quote(s@, from as int),
        from <= r <= s@.len(),
{
    let mut i: usize = from;
    while i < s.len() && s[i] != 0x22
        invariant
            from <= i <= s@.len(),
            next_quote(s@, i as int) == next_quote(s@, from as int),
        decreases s.len() - i,
    {
        i += 1;
    }
    i
}

/// The next quote is the first place with one.
proof fn lemma_next_quote(s: Seq<u8>, i: int, j: int)
    requires
        0 <= i <= j < s.len(),
        s[j] == 0x22,
        forall|k: int| i <= k < j ==> s[k] != 0x22,
    ensures
        next_quote(s, i) == j,
    decreases j - i,
{
    if i < j {
        lemma_next_quote(s, i + 1, j);
    }
}

/// Whether some bytes hold a quote.
fn has_quote(bytes: &[u8]) -> (r: bool)
    ensures
        r == bytes@.contains(0x22),
{
    let mut i: usize = 0;
    while i < bytes.len()
        invariant
            i <= bytes@.len(),
            forall|j: int| 0 <= j < i ==> bytes@[j] != 0x22,
        decreases bytes.len() - i,
    {
        if bytes[i] == 0x22 {
            assert(bytes@[i as int] == 0x22);
            return true;
        }
        i += 1;
    }
    false
}

/// Finds the signature block at the end of an envelope and gives the bytes that
/// it covers and the signature; nothing where there is none. A block whose
/// signature is none, or with another nonce than the request's, is an error.
pub fn split_response_signature(raw: &[u8], request_nonce: &str) -> (r: Result<
    Option<(Vec<u8>, String)>,
    ProtocolError,
>)
    ensures
        match r {
            Ok(None) => !valid_utf8(raw@) || block_of(raw@) is None,
            Ok(Some((signed, signature))) => {
                &&& valid_utf8(raw@)
                &&& block_of(raw@) matches Some(b) && is_signature(b.signature) && b.nonce
                    == encode_utf8(request_nonce@) && signed@ == signed_part(raw@, b) && signature@ == text::ascii_text(
                    b.signature,
                )
            },
            Err(e) => {
                &&& e == ProtocolError::MisaddressedSignature
                &&& valid_utf8(raw@)
                &&& block_of(raw@) matches Some(b) && (!is_signature(b.signature) || b.nonce
                    != encode_utf8(request_nonce@))
            },
        },
{
    proof {
        lemma_marks();
    }
    if text::utf8_str(raw).is_none() {
        return Ok(None);
    }
    let mark = SIGNATURE_MARK.as_bytes();
    let middle = NONCE_MARK.as_bytes();
    let at: usize = match find_last(raw, mark) {
        None => {
            return Ok(None);
        },
        Some(at) => at,
    };
    let total: usize = raw.len();
    let sig_at: usize = at + mark.len();
    let sig_end = find_quote(raw, sig_at);
    if total - sig_end < middle.len() + 2 {
        return Ok(None);
    }
    let nonce_at: usize = sig_end + middle.len();
    let end: usize = raw.len() - 2;
    let signature = slice_subrange(raw, sig_at, sig_end);
    if !text::same_bytes(slice_subrange(raw, sig_end, nonce_at), middle) {
        return Ok(None);
    }
    assert(raw@.subrange(end as int, raw@.len() as int) =~= raw@.skip(end as int));
    if !text::same_bytes(slice_subrange(raw, end, raw.len()), ENVELOPE_END.as_bytes()) {
        return Ok(None);
    }
    let nonce = slice_subrange(raw, nonce_at, end);
    if has_quote(nonce) {
        return Ok(None);
    }
    if signature.len() != 64 || !digest::all_hex_digits(signature) || !text::same_bytes(
        nonce,
        request_nonce.as_bytes(),
    ) {
        return Err(ProtocolError::MisaddressedSignature);
    }
    let mut signed: Vec<u8> = Vec::new();
    text::push_all(&mut signed, slice_subrange(raw, 0, at));
    signed.push(0x7d);
    assert(raw@.subrange(0, at as int) =~= raw@.take(at as int));
    proof {
        assert forall|i: int| 0 <= i < signature@.len() implies #[trigger] signature@[i] < 0x80 by {
            assert(digest::is_hex_byte(signature@[i]));
        }
        text::lemma_ascii_bytes(signature@);
    }
    match text::utf8_str(signature) {
        Some(s) => Ok(Some((signed, text::copy_of(s)))),
        None => Ok(None),
    }
}

/// What the check of a response envelope says.
pub open spec fn response_auth(
    secret: Seq<char>,
    method: Seq<char>,
    path: Seq<char>,
    status: int,
    nonce: Seq<char>,
    raw: Seq<u8>,
    node_id: Seq<char>,
) -> Result<ResponseAuth, ProtocolError> {
    if !valid_utf8(raw) || block_of(raw) is None {
        Ok(ResponseAuth::Unsigned)
    } else {
        let b = block_of(raw)->0;
        if !is_signature(b.signature) || b.nonce != encode_utf8(nonce) {
            Err(ProtocolError::MisaddressedSignature)
        } else if authentic(
            secret,
            canonical_text(
                node_id,
                method,
                path,
                status,
                nonce,
                digest::sha256_hex_of(signed_part(raw, b)),
            ),
            digest::hex_bytes(text::ascii_text(b.signature)),
        ) {
            Ok(ResponseAuth::Verified)
        } else {
            Err(ProtocolError::ResponseMismatch)
        }
    }
}

proof fn lemma_hex_bytes_are_hex(bytes: Seq<u8>)
    requires
        digest::all_hex(bytes),
        bytes.len() % 2 == 0,
    ensures
        digest::is_hex(text::ascii_text(bytes)),
{
    let s = text::ascii_text(bytes);
    assert forall|i: int| 0 <= i < s.len() implies digest::hex_value(#[trigger] s[i]) is Some by {
        assert(digest::is_hex_byte(bytes[i]));
    }
}

/// Checks a node's response envelope before it is parsed. An envelope without a
/// signature block at its end is unsigned; one with a block is accepted only
/// where the block echoes the request's nonce and its signature is well formed
/// and right.
pub fn verify_response(
    secret: &str,
    method: &str,
    path: &str,
    status: u16,
    request_nonce: &str,
    raw: &[u8],
    node_id: &str,
) -> (r: Result<ResponseAuth, ProtocolError>)
    ensures
        r == response_auth(
            secret@,
            method@,
            path@,
            status as int,
            request_nonce@,
            raw@,
            node_id@,
        ),
{
    match split_response_signature(raw, request_nonce) {
        Err(e) => Err(e),
        Ok(None) => Ok(ResponseAuth::Unsigned),
        Ok(Some((signed_body, signature))) => {
            let payload = response_canonical(
                node_id,
                method,
                path,
                status,
                request_nonce,
                signed_body.as_slice(),
            );
            proof {
                let mark = encode_utf8(SIGNATURE_MARK@);
                lemma_last_from(raw@, mark, raw@.len() - mark.len());
                lemma_hex_bytes_are_hex(block_of(raw@)->0.signature);
            }
            match digest::hex_decode(signature.as_str()) {
                None => Err(ProtocolError::InvalidResponseEncoding),
                Some(tag) => if digest::hmac_matches(
                    secret.as_bytes(),
                    payload.as_str().as_bytes(),
                    tag.as_slice(),
                ) {
                    Ok(ResponseAuth::Verified)
                } else {
                    Err(ProtocolError::ResponseMismatch)
                },
            }
        },
    }
}

/// The footer of a streamed body: `\nVOLTSTREAM1\n<signature>\n`.
pub open spec fn footer_of(signature: Seq<u8>) -> Seq<u8> {
    seq![0x0au8] + encode_utf8(STREAM_FOOTER_MAGIC@) + seq![0x0au8] + signature + seq![0x0au8]
}

/// Builds the footer of a streamed body.
pub fn stream_footer(signature: &str) -> (r: Vec<u8>)
    ensures
        r@ == footer_of(encode_utf8(signature@)),
{
    let mut out: Vec<u8> = Vec::new();
    out.push(0x0a);
    text::push_all(&mut out, STREAM_FOOTER_MAGIC.as_bytes());
    out.push(0x0a);
    text::push_all(&mut out, signature.as_bytes());
    out.push(0x0a);
    assert(out@ =~= footer_of(encode_utf8(signature@)));
    out
}

/// The signature in the footer of a streamed body, if its last bytes are a
/// footer with 64 hexadecimal digits.
pub open spec fn footer_signature(body: Seq<u8>) -> Option<Seq<u8>> {
    let signature = body.subrange(body.len() - 65, body.len() - 1);
    if body.len() >= STREAM_FOOTER_LEN && digest::all_hex(signature) && body.skip(
        body.len() - STREAM_FOOTER_LEN,
    ) == footer_of(signature) {
        Some(signature)
    } else {
        None
    }
}

proof fn lemma_magic()
    ensures
        encode_utf8(STREAM_FOOTER_MAGIC@) == seq![
            0x56u8,
            0x4f,
            0x4c,
            0x54,
            0x53,
            0x54,
            0x52,
            0x45,
            0x41,
            0x4d,
            0x31,
        ],
{
    reveal_strlit("VOLTSTREAM1");
    assert(is_ascii_chars(STREAM_FOOTER_MAGIC@));
    is_ascii_chars_encode_utf8(STREAM_FOOTER_MAGIC@);
    assert(encode_utf8(STREAM_FOOTER_MAGIC@) =~= seq![
        0x56u8,
        0x4f,
        0x4c,
        0x54,
        0x53,
        0x54,
        0x52,
        0x45,
        0x41,
        0x4d,
        0x31,
    ]);
}

/// Splits a streamed body into archive and signature. The footer has a fixed
/// length, so the split never depends on what the archive holds.
pub fn split_stream_footer(body: &[u8]) -> (r: Result<(&[u8], &str), ProtocolError>)
    ensures
        match r {
            Ok((archive, signature)) => footer_signature(body@) matches Some(s) && signature@
                == text::ascii_text(s) && archive@ == body@.take(body@.len() - STREAM_FOOTER_LEN),
            Err(e) => if body@.len() < STREAM_FOOTER_LEN {
                e == ProtocolError::ShortStream
            } else {
                e == ProtocolError::MalformedFooter && footer_signature(body@) is None
            },
        },
{
    if body.len() < STREAM_FOOTER_LEN {
        return Err(ProtocolError::ShortStream);
    }
    proof {
        lemma_magic();
    }
    let at: usize = body.len() - STREAM_FOOTER_LEN;
    let end: usize = body.len() - 1;
    let footer = slice_subrange(body, at, body.len());
    let signature = slice_subrange(body, end - 64, end);
    if !digest::all_hex_digits(signature) {
        return Err(ProtocolError::MalformedFooter);
    }
    proof {
        assert forall|i: int| 0 <= i < signature@.len() implies #[trigger] signature@[i] < 0x80 by {
            assert(digest::is_hex_byte(signature@[i]));
        }
        text::lemma_ascii_bytes(signature@);
        assert(footer@ =~= body@.skip(at as int));
        assert(body@.subrange(0, at as int) =~= body@.take(at as int));
    }
    match text::utf8_str(signature) {
        None => Err(ProtocolError::MalformedFooter),
        Some(s) => if text::same_bytes(footer, stream_footer(s).as_slice()) {
            Ok((slice_subrange(body, 0, at), s))
        } else {
            Err(ProtocolError::MalformedFooter)
        },
    }
}

/// Signs a streamed response from the hash of its body.
pub fn sign_stream_response(
    secret: &str,
    method: &str,
    path: &str,
    status: u16,
    nonce: &str,
    body_sha256_hex: &str,
    node_id: &str,
) -> (r: Result<String, ProtocolError>)
    ensures
        r is Ok,
        r->Ok_0@ == signature_of(
            secret@,
            canonical_text(node_id@, method@, path@, status as int, nonce@, body_sha256_hex@),
        ),
        r->Ok_0@.len() == 64,
{
    let payload = response_canonical_hash(node_id, method, path, status, nonce, body_sha256_hex);
    Ok(sign_text(secret, payload.as_str()))
}

/// What the check of a streamed response's signature says: nothing where it is
/// accepted.
pub open spec fn stream_error(
    secret: Seq<char>,
    payload: Seq<char>,
    signature: Seq<char>,
) -> Option<ProtocolError> {
    if !digest::is_hex(signature) {
        Some(ProtocolError::InvalidResponseEncoding)
    } else if !authentic(secret, payload, digest::hex_bytes(signature)) {
        Some(ProtocolError::ResponseMismatch)
    } else {
        None
    }
}

/// Checks a streamed response's signature against the hash of the bytes that
/// were received.
pub fn verify_stream_response(
    secret: &str,
    method: &str,
    path: &str,
    status: u16,
    request_nonce: &str,
    body_sha256_hex: &str,
    signature: &str,
    node_id: &str,
) -> (r: Result<(), ProtocolError>)
    ensures
        ({
            let error = stream_error(
                secret@,
                canonical_text(
                    node_id@,
                    method@,
                    path@,
                    status as int,
                    request_nonce@,
                    body_sha256_hex@,
                ),
                signature@,
            );
            match r {
                Ok(_) => error is None,
                Err(e) => error == Some(e),
            }
        }),
{
    let payload = response_canonical_hash(
        node_id,
        method,
        path,
        status,
        request_nonce,
        body_sha256_hex,
    );
    match digest::hex_decode(signature) {
        None => Err(ProtocolError::InvalidResponseEncoding),
        Some(tag) => if digest::hmac_matches(
            secret.as_bytes(),
            payload.as_str().as_bytes(),
            tag.as_slice(),
        ) {
            Ok(())
        } else {
            Err(ProtocolError::ResponseMismatch)
        },
    }
}

/// Load and size of a node, as its heartbeat reports them.
#[derive(Debug, Clone)]
pub struct NodeCapacity {
    pub memory_total: u64,
    pub memory_used: u64,
    pub disk_total: u64,
    pub disk_used: u64,
    pub cpu_threads: usize,
    pub servers_running: usize,
    pub servers_total: usize,
}

/// A heartbeat of a node.
#[derive(Debug, Clone)]
pub struct NodeHeartbeat {
    pub daemon_version: String,
    pub hostname: String,
    pub os: String,
    pub arch: String,
    pub started_at: String,
    pub capacity: NodeCapacity,
    /// Fingerprint of the agent's certificate, empty for a plaintext agent.
    pub tls_fingerprint: String,
}

/// What a server needs to run on a node.
#[derive(Debug)]
pub struct ServerSpec {
    pub uuid: String,
    pub name: String,
    pub startup: String,
    pub stop_command: String,
    pub memory_mb: u64,
    pub disk_mb: u64,
    pub cpu_percent: u64,
    pub port: Option<u16>,
    pub ports: Vec<u16>,
    pub env: Vec<(String, String)>,
    pub auto_restart: bool,
}

/// A request to set a server up on a node.
#[derive(Debug)]
pub struct ProvisionRequest {
    pub spec: ServerSpec,
    pub files: Vec<ProvisionFile>,
}

/// A file that comes with a provision request.
#[derive(Debug, Clone)]
pub struct ProvisionFile {
    pub path: String,
    pub content_b64: String,
    pub mode: Option<u32>,
}

/// A request for a power action.
#[derive(Debug, Clone)]
pub struct PowerRequest {
    pub action: PowerAction,
}

/// What can be asked of a server's process.
#[derive(Debug, Clone, Copy, PartialEq, Eq, Structural)]
pub enum PowerAction {
    Start,
    Stop,
    Restart,
    Kill,
}

impl PowerAction {
    /// Stable small-letter name of an action.
    pub open spec fn name(self) -> Seq<char> {
        match self {
            PowerAction::Start => "start"@,
            PowerAction::Stop => "stop"@,
            PowerAction::Restart => "restart"@,
            PowerAction::Kill => "kill"@,
        }
    }

    /// Stable small-letter name of an action.
    pub fn as_str(self) -> (r: &'static str)
        ensures
            r@ == self.name(),
    {
        match self {
            PowerAction::Start => "start",
            PowerAction::Stop => "stop",
            PowerAction::Restart => "restart",
            PowerAction::Kill => "kill",
        }
    }
}

/// Load of one server on a node.
#[derive(Debug, Clone)]
pub struct RemoteServerStats {
    pub uuid: String,
    pub state: String,
    pub pid: Option<u32>,
    pub memory_bytes: u64,
    pub disk_bytes: u64,
    pub network_rx_bytes: u64,
    pub network_tx_bytes: u64,
    pub uptime_secs: u64,
    pub restart_count: u64,
    pub exit_code: Option<i32>,
}

/// A command for a server's console.
#[derive(Debug, Clone)]
pub struct ConsoleCommand {
    pub command: String,
}

/// Console lines of a server and the cursor behind them.
#[derive(Debug, Clone)]
pub struct ConsoleSnapshot {
    pub lines: Vec<String>,
    pub cursor: u64,
}

/// A request for a directory listing.
#[derive(Debug, Clone)]
pub struct FileListRequest {
    pub path: String,
}

/// One entry of a directory on a node.
#[derive(Debug, Clone)]
pub struct RemoteFileEntry {
    pub name: String,
    pub path: String,
    pub is_dir: bool,
    pub size: u64,
    pub modified: i64,
    pub mode: u32,
}

/// A change to a server's files.
#[derive(Debug, Clone)]
pub enum FileOperation {
    Mkdir { path: String },
    Touch { path: String },
    Rename { from: String, to: String },
    Copy { from: String, to: String },
    Move { from: String, destination: String },
    Delete { path: String },
    Chmod { path: String, mode: u32 },
}

/// A request to write a file.
#[derive(Debug, Clone)]
pub struct FileWriteRequest {
    pub path: String,
    pub content_b64: String,
    pub append: bool,
}

/// A snapshot of a server's files.
#[derive(Debug, Clone)]
pub struct SnapshotResponse {
    pub archive_b64: String,
    pub size_bytes: u64,
    pub checksum: String,
}

/// A request to restore a snapshot.
#[derive(Debug, Clone)]
pub struct RestoreSnapshotRequest {
    pub archive_b64: String,
    pub checksum: String,
}

/// Envelope of every answer of a node.
#[derive(Debug)]
pub struct NodeApiResponse<T> {
    pub ok: bool,
    pub data: Option<T>,
    pub error: Option<String>,
    /// Signature over the envelope without this field and the nonce.
    pub signature: Option<String>,
    /// The request's nonce.
    pub nonce: Option<String>,
}

impl<T> NodeApiResponse<T> {
    /// An answer with data, unsigned.
    pub fn success(data: T) -> (r: Self)
        ensures
            r.ok,
            r.data == Some(data),
            r.error is None,
            r.signature is None,
            r.nonce is None,
    {
        NodeApiResponse { ok: true, data: Some(data), error: None, signature: None, nonce: None }
    }

    /// A refusal, unsigned.
    pub fn failure(error: String) -> (r: Self)
        ensures
            !r.ok,
            r.data is None,
            r.error == Some(error),
            r.signature is None,
            r.nonce is None,
    {
        NodeApiResponse { ok: false, data: None, error: Some(error), signature: None, nonce: None }
    }
}

/// A request that was signed is accepted with the same secret, method, path and
/// body exactly while the clocks are within the window, for a node id that is a
/// UUID; and it is refused as expired outside the window.
pub proof fn law_signed_request_is_accepted(
    h: SignedHeaders,
    secret: Seq<char>,
    method: Seq<char>,
    path: Seq<char>,
    hash: Seq<char>,
    node_id: Seq<char>,
    now: i64,
)
    requires
        is_signed(h, secret, method, path, hash, node_id),
    ensures
        request_error(secret, method, path, hash, h, now, true) is None <==> in_window(
            now,
            h.timestamp,
        ),
        !in_window(now, h.timestamp) ==> request_error(secret, method, path, hash, h, now, true)
            == Some(ProtocolError::Expired),
        in_window(now, h.timestamp) ==> request_error(secret, method, path, hash, h, now, false)
            == Some(ProtocolError::InvalidNodeId),
{
    let payload = canonical_text(node_id, method, path, h.timestamp as int, h.nonce@, hash);
    digest::law_hex_round_trip(
        digest::hmac_sha256_of(encode_utf8(secret), encode_utf8(payload)),
    );
}

/// A request whose method, path, body hash, nonce, time or node differs from
/// what was signed is accepted only where the two texts have one authentication
/// code: the code that is compared is that of the request as it came.
pub proof fn law_acceptance_binds_the_request(
    h: SignedHeaders,
    secret: Seq<char>,
    method: Seq<char>,
    path: Seq<char>,
    hash: Seq<char>,
    now: i64,
    node_id_is_uuid: bool,
)
    requires
        request_error(secret, method, path, hash, h, now, node_id_is_uuid) is None,
    ensures
        digest::hex_bytes(h.signature@) == digest::hmac_sha256_of(
            encode_utf8(secret),
            encode_utf8(
                canonical_text(h.node_id@, method, path, h.timestamp as int, h.nonce@, hash),
            ),
        ),
{
}

proof fn lemma_upper_has_no_newline(s: Seq<char>)
    requires
        !text::mentions(s, '\n'),
    ensures
        !text::mentions(text::uppered(s), '\n'),
{
    let u = text::uppered(s);
    assert forall|i: int| 0 <= i < u.len() implies u[i] != '\n' by {
        assert(s[i] != '\n');
    }
}

proof fn lemma_decimal_nat_digits(n: nat)
    ensures
        forall|i: int| 0 <= i < text::decimal_nat(n).len() ==> text::is_digit(
            #[trigger] text::decimal_nat(n)[i],
        ),
        text::decimal_nat(n).len() > 0,
    decreases n,
{
    if n >= 10 {
        lemma_decimal_nat_digits(n / 10);
    }
}

proof fn lemma_decimal_has_no_newline(n: int)
    ensures
        !text::mentions(text::decimal(n), '\n'),
{
    if n < 0 {
        lemma_decimal_nat_digits((-n) as nat);
    } else {
        lemma_decimal_nat_digits(n as nat);
    }
    let d = text::decimal(n);
    assert forall|i: int| 0 <= i < d.len() implies d[i] != '\n' by {
        if n < 0 && i > 0 {
            assert(d[i] == text::decimal_nat((-n) as nat)[i - 1]);
            assert(text::is_digit(text::decimal_nat((-n) as nat)[i - 1]));
        } else if n >= 0 {
            assert(text::is_digit(text::decimal_nat(n as nat)[i]));
        }
    }
}

proof fn lemma_canonical_lines(
    node_id: Seq<char>,
    method: Seq<char>,
    path: Seq<char>,
    number: int,
    nonce: Seq<char>,
    hash: Seq<char>,
)
    requires
        !text::mentions(node_id, '\n'),
        !text::mentions(method, '\n'),
        !text::mentions(path, '\n'),
        !text::mentions(nonce, '\n'),
        !text::mentions(hash, '\n'),
    ensures
        text::split_on(canonical_text(node_id, method, path, number, nonce, hash), '\n') == seq![
            node_id,
            text::uppered(method),
            path,
            text::decimal(number),
            nonce,
            hash,
        ],
{
    lemma_upper_has_no_newline(method);
    lemma_decimal_has_no_newline(number);
    let upper = text::uppered(method);
    let digits = text::decimal(number);
    let t5 = nonce.push('\n') + hash;
    let t4 = digits.push('\n') + t5;
    let t3 = path.push('\n') + t4;
    let t2 = upper.push('\n') + t3;
    let t1 = node_id.push('\n') + t2;
    text::lemma_split_piece(hash, '\n', Seq::empty());
    text::lemma_split_piece(nonce, '\n', hash);
    text::lemma_split_piece(digits, '\n', t5);
    text::lemma_split_piece(path, '\n', t4);
    text::lemma_split_piece(upper, '\n', t3);
    text::lemma_split_piece(node_id, '\n', t2);
    assert(t1 =~= canonical_text(node_id, method, path, number, nonce, hash));
    assert(text::split_on(t1, '\n') =~= seq![node_id, upper, path, digits, nonce, hash]);
}

/// The signed text is unambiguous: among fields without newlines, two messages
/// with one signed text agree in node, method but for its case, path, time or
/// status, nonce and body hash.
pub proof fn law_canonical_text_is_unambiguous(
    node_a: Seq<char>,
    method_a: Seq<char>,
    path_a: Seq<char>,
    number_a: int,
    nonce_a: Seq<char>,
    hash_a: Seq<char>,
    node_b: Seq<char>,
    method_b: Seq<char>,
    path_b: Seq<char>,
    number_b: int,
    nonce_b: Seq<char>,
    hash_b: Seq<char>,
)
    requires
        !text::mentions(node_a, '\n') && !text::mentions(node_b, '\n'),
        !text::mentions(method_a, '\n') && !text::mentions(method_b, '\n'),
        !text::mentions(path_a, '\n') && !text::mentions(path_b, '\n'),
        !text::mentions(nonce_a, '\n') && !text::mentions(nonce_b, '\n'),
        !text::mentions(hash_a, '\n') && !text::mentions(hash_b, '\n'),
        canonical_text(node_a, method_a, path_a, number_a, nonce_a, hash_a) == canonical_text(
            node_b,
            method_b,
            path_b,
            number_b,
            nonce_b,
            hash_b,
        ),
    ensures
        node_a == node_b,
        text::uppered(method_a) == text::uppered(method_b),
        path_a == path_b,
        number_a == number_b,
        nonce_a == nonce_b,
        hash_a == hash_b,
{
    lemma_canonical_lines(node_a, method_a, path_a, number_a, nonce_a, hash_a);
    lemma_canonical_lines(node_b, method_b, path_b, number_b, nonce_b, hash_b);
    let a = seq![
        node_a,
        text::uppered(method_a),
        path_a,
        text::decimal(number_a),
        nonce_a,
        hash_a,
    ];
    let b = seq![
        node_b,
        text::uppered(method_b),
        path_b,
        text::decimal(number_b),
        nonce_b,
        hash_b,
    ];
    assert(a[0] == b[0] && a[1] == b[1] && a[2] == b[2] && a[3] == b[3] && a[4] == b[4] && a[5]
        == b[5]);
    text::lemma_decimal_injective(number_a, number_b);
}

/// The envelope that an agent sends: the signed bytes, their closing brace
/// replaced by signature and nonce.
pub open spec fn signed_envelope(body: Seq<u8>, signature: Seq<u8>, nonce: Seq<u8>) -> Seq<u8> {
    body.drop_last() + encode_utf8(SIGNATURE_MARK@) + signature + encode_utf8(NONCE_MARK@) + nonce
        + encode_utf8(ENVELOPE_END@)
}

proof fn lemma_mark_lengths()
    ensures
        encode_utf8(SIGNATURE_MARK@).len() == 14,
        encode_utf8(NONCE_MARK@).len() == 11,
        encode_utf8(ENVELOPE_END@).len() == 2,
{
    lemma_marks();
}

/// The bytes of an envelope with an appended block, from the block on.
proof fn lemma_envelope_bytes(body: Seq<u8>, signature: Seq<u8>, nonce: Seq<u8>, k: int)
    requires
        body.len() > 0,
        body.len() - 1 <= k < signed_envelope(body, signature, nonce).len(),
    ensures
        ({
            let raw = signed_envelope(body, signature, nonce);
            let i = k - (body.len() - 1);
            let m = signature.len();
            let n = nonce.len();
            &&& raw.len() == body.len() - 1 + 27 + m + n
            &&& raw[k] == if i < 14 {
                encode_utf8(SIGNATURE_MARK@)[i]
            } else if i < 14 + m {
                signature[i - 14]
            } else if i < 25 + m {
                encode_utf8(NONCE_MARK@)[i - 14 - m]
            } else if i < 25 + m + n {
                nonce[i - 25 - m]
            } else {
                encode_utf8(ENVELOPE_END@)[i - 25 - m - n]
            }
        }),
{
    lemma_mark_lengths();
}

/// Where the bytes that open a signature mark stand in the marks.
proof fn lemma_mark_bytes()
    ensures
        ({
            let mark = encode_utf8(SIGNATURE_MARK@);
            let middle = encode_utf8(NONCE_MARK@);
            let end = encode_utf8(ENVELOPE_END@);
            &&& mark.len() == 14 && mark[0] == 0x2c && mark[1] == 0x22 && mark[2] == 0x73
            &&& forall|k: int| 0 < k < 14 ==> mark[k] != 0x2c
            &&& middle.len() == 11 && middle[1] == 0x2c && middle[3] != 0x73
            &&& forall|k: int| 0 <= k < 11 && k != 1 ==> middle[k] != 0x2c
            &&& end.len() == 2 && end[0] != 0x2c && end[1] != 0x2c && end[1] != 0x73
        }),
{
    lemma_marks();
}

/// No signature mark stands behind the one that opens an appended block.
proof fn lemma_no_later_mark(body: Seq<u8>, signature: Seq<u8>, nonce: Seq<u8>, j: int)
    requires
        body.len() > 0,
        !signature.contains(0x22),
        !nonce.contains(0x22),
        body.len() - 1 < j,
    ensures
        !bytes_at(signed_envelope(body, signature, nonce), encode_utf8(SIGNATURE_MARK@), j),
{
    lemma_mark_bytes();
    let mark = encode_utf8(SIGNATURE_MARK@);
    let raw = signed_envelope(body, signature, nonce);
    if bytes_at(raw, mark, j) {
        let w = raw.subrange(j, j + 14);
        assert(raw[j] == w[0] && raw[j + 1] == w[1] && raw[j + 2] == w[2]);
        lemma_envelope_bytes(body, signature, nonce, j);
        lemma_envelope_bytes(body, signature, nonce, j + 1);
        lemma_envelope_bytes(body, signature, nonce, j + 2);
        let i = j - (body.len() - 1);
        let m = signature.len();
        if 13 <= i < 13 + m {
            assert(signature.contains(raw[j + 1]));
        } else if 24 + m <= i < 24 + m + nonce.len() {
            assert(nonce.contains(raw[j + 1]));
        }
    }
}

/// An appended signature block is found for what it is, whatever the envelope
/// before it holds, be it the mark itself.
pub proof fn law_appended_block_is_found(body: Seq<u8>, signature: Seq<u8>, nonce: Seq<u8>)
    requires
        body.len() > 0,
        body.last() == 0x7d,
        !signature.contains(0x22),
        !nonce.contains(0x22),
    ensures
        block_of(signed_envelope(body, signature, nonce)) == Some(
            Block { at: body.len() - 1, signature, nonce },
        ),
        signed_part(
            signed_envelope(body, signature, nonce),
            Block { at: body.len() - 1, signature, nonce },
        ) == body,
{
    lemma_mark_lengths();
    let mark = encode_utf8(SIGNATURE_MARK@);
    let middle = encode_utf8(NONCE_MARK@);
    let raw = signed_envelope(body, signature, nonce);
    let at = body.len() - 1;
    assert(raw.subrange(at, at + 14) =~= mark);
    assert forall|j: int| at < j implies !bytes_at(raw, mark, j) by {
        lemma_no_later_mark(body, signature, nonce, j);
    }
    lemma_last_from(raw, mark, raw.len() - mark.len());
    assert(bytes_at(raw, mark, at));
    assert(last_from(raw, mark, raw.len() - mark.len()) == Some(at));
    let m = signature.len();
    assert forall|k: int| at + 14 <= k < at + 14 + m implies raw[k] != 0x22 by {
        assert(raw[k] == signature[k - at - 14]);
    }
    lemma_marks();
    assert(raw[at + 14 + m] == middle[0]);
    lemma_next_quote(raw, at + 14, at + 14 + m);
    assert(raw.subrange(at + 14, at + 14 + m) =~= signature);
    assert(raw.subrange(at + 14 + m, at + 25 + m) =~= middle);
    assert(raw.subrange(at + 25 + m, raw.len() - 2) =~= nonce);
    assert(raw.skip(raw.len() - 2) =~= encode_utf8(ENVELOPE_END@));
    assert(signed_part(raw, Block { at, signature, nonce }) =~= body);
}

/// An envelope with an appended block is never taken for an unsigned one: where
/// the signature in it is no signature, or the nonce another, it is refused.
pub proof fn law_malformed_signature_is_refused(
    secret: Seq<char>,
    method: Seq<char>,
    path: Seq<char>,
    status: int,
    nonce: Seq<char>,
    body: Seq<u8>,
    node_id: Seq<char>,
    signature: Seq<u8>,
    echoed: Seq<u8>,
)
    requires
        body.len() > 0,
        body.last() == 0x7d,
        !signature.contains(0x22),
        !echoed.contains(0x22),
        valid_utf8(signed_envelope(body, signature, echoed)),
        !is_signature(signature) || echoed != encode_utf8(nonce),
    ensures
        response_auth(
            secret,
            method,
            path,
            status,
            nonce,
            signed_envelope(body, signature, echoed),
            node_id,
        ) == Err::<ResponseAuth, ProtocolError>(ProtocolError::MisaddressedSignature),
{
    law_appended_block_is_found(body, signature, echoed);
}

/// A response that an agent signed is accepted as verified for the request that
/// it answers.
pub proof fn law_signed_response_is_verified(
    secret: Seq<char>,
    method: Seq<char>,
    path: Seq<char>,
    status: int,
    nonce: Seq<char>,
    body: Seq<u8>,
    node_id: Seq<char>,
    signature: Seq<u8>,
)
    requires
        body.len() > 0,
        body.last() == 0x7d,
        valid_utf8(body.drop_last()),
        !encode_utf8(nonce).contains(0x22),
        text::ascii_text(signature) == signature_of(
            secret,
            canonical_text(
                node_id,
                method,
                path,
                status,
                nonce,
                digest::sha256_hex_of(body),
            ),
        ),
        signature.len() == 64,
    ensures
        response_auth(
            secret,
            method,
            path,
            status,
            nonce,
            signed_envelope(body, signature, encode_utf8(nonce)),
            node_id,
        ) == Ok::<ResponseAuth, ProtocolError>(ResponseAuth::Verified),
{
    let payload = canonical_text(
        node_id,
        method,
        path,
        status,
        nonce,
        digest::sha256_hex_of(body),
    );
    let mac = digest::hmac_sha256_of(encode_utf8(secret), encode_utf8(payload));
    digest::law_hex_round_trip(mac);
    let text_sig = text::ascii_text(signature);
    assert forall|i: int| 0 <= i < signature.len() implies digest::is_hex_byte(
        #[trigger] signature[i],
    ) by {
        assert(text_sig[i] == signature[i] as char);
        assert(digest::hex_value(text_sig[i]) is Some);
    }
    assert(!signature.contains(0x22)) by {
        if signature.contains(0x22) {
            let i = choose|i: int| 0 <= i < signature.len() && signature[i] == 0x22;
            assert(digest::is_hex_byte(signature[i]));
        }
    }
    law_appended_block_is_found(body, signature, encode_utf8(nonce));
    let mark = encode_utf8(SIGNATURE_MARK@);
    let middle = encode_utf8(NONCE_MARK@);
    let end = encode_utf8(ENVELOPE_END@);
    encode_utf8_valid_utf8(SIGNATURE_MARK@);
    encode_utf8_valid_utf8(NONCE_MARK@);
    encode_utf8_valid_utf8(ENVELOPE_END@);
    encode_utf8_valid_utf8(nonce);
    assert forall|i: int| 0 <= i < signature.len() implies #[trigger] signature[i] < 0x80 by {
        assert(digest::is_hex_byte(signature[i]));
    }
    text::lemma_ascii_bytes(signature);
    valid_utf8_concat(body.drop_last(), mark);
    valid_utf8_concat(body.drop_last() + mark, signature);
    valid_utf8_concat(body.drop_last() + mark + signature, middle);
    valid_utf8_concat(body.drop_last() + mark + signature + middle, encode_utf8(nonce));
    valid_utf8_concat(
        body.drop_last() + mark + signature + middle + encode_utf8(nonce),
        end,
    );
}

/// A streamed body with its footer splits into the archive and the signature
/// again, whatever bytes the archive holds.
pub proof fn law_stream_footer_round_trip(archive: Seq<u8>, signature: Seq<u8>)
    requires
        signature.len() == 64,
        digest::all_hex(signature),
    ensures
        footer_of(signature).len() == STREAM_FOOTER_LEN,
        footer_signature(archive + footer_of(signature)) == Some(signature),
        (archive + footer_of(signature)).take(
            (archive + footer_of(signature)).len() - STREAM_FOOTER_LEN,
        ) == archive,
{
    lemma_magic();
    let body = archive + footer_of(signature);
    assert(body.subrange(body.len() - 65, body.len() - 1) =~= signature);
    assert(body.skip(body.len() - STREAM_FOOTER_LEN) =~= footer_of(signature));
    assert(body.take(body.len() - STREAM_FOOTER_LEN) =~= archive);
}

} // verus!
