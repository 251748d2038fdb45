//! What a signed request and a signed answer are.
use crate::digest;
use crate::node_protocol;
use crate::node_protocol::{ProtocolError, ResponseAuth, SignedHeaders};
use crate::text;
use vstd::prelude::*;
use vstd::string::*;
use vstd::utf8::*;

verus! {

/// Whether a text holds no line end.
pub open spec fn one_line(s: Seq<char>) -> bool {
    forall|i: int| 0 <= i < s.len() ==> #[trigger] s[i] != '\n'
}

/// What is signed are six lines: the node, the method in capitals, the path, a
/// number, the nonce and the digest of the body.
pub proof fn law_signed_text_is_six_lines(
    node: Seq<char>,
    method: Seq<char>,
    path: Seq<char>,
    number: int,
    nonce: Seq<char>,
    hash: Seq<char>,
)
    requires
        one_line(node),
        one_line(method),
        one_line(path),
        one_line(nonce),
        one_line(hash),
    ensures
        text::split_on(
            node_protocol::canonical_text(node, method, path, number, nonce, hash),
            '\n',
        ) == seq![node, text::uppered(method), path, text::decimal(number), nonce, hash],
{
    let up = text::uppered(method);
    let n = text::decimal(number);
    assert(one_line(up)) by {
        assert forall|i: int| 0 <= i < up.len() implies #[trigger] up[i] != '\n' by {
            assert(method[i] != '\n');
            assert(up[i] == text::upper_char(method[i]));
            if 'a' <= method[i] <= 'z' {
                assert(up[i] as u32 == method[i] as u32 - 32);
            }
        }
    }
    lemma_number_is_one_line(number);
    let t5 = nonce.push('\n') + hash;
    let t4 = n.push('\n') + t5;
    let t3 = path.push('\n') + t4;
    let t2 = up.push('\n') + t3;
    let t1 = node.push('\n') + t2;
    assert(t1 =~= node_protocol::canonical_text(node, method, path, number, nonce, hash));
    text::lemma_split_piece(hash, '\n', hash);
    text::lemma_split_piece(nonce, '\n', hash);
    text::lemma_split_piece(n, '\n', t5);
    text::lemma_split_piece(path, '\n', t4);
    text::lemma_split_piece(up, '\n', t3);
    text::lemma_split_piece(node, '\n', t2);
    assert(text::split_on(t1, '\n') =~= seq![node, up, path, n, nonce, hash]);
}

proof fn lemma_digits_are_one_line(n: nat)
    ensures
        one_line(text::decimal_nat(n)),
    decreases n,
{
    if n >= 10 {
        lemma_digits_are_one_line(n / 10);
        let d = text::decimal_nat(n);
        assert forall|i: int| 0 <= i < d.len() implies #[trigger] d[i] != '\n' by {
            if i < d.len() - 1 {
                assert(d[i] == text::decimal_nat(n / 10)[i]);
            }
        }
    }
}

proof fn lemma_number_is_one_line(n: int)
    ensures
        one_line(text::decimal(n)),
{
    if n < 0 {
        lemma_digits_are_one_line((-n) as nat);
        let d = text::decimal(n);
        assert forall|i: int| 0 <= i < d.len() implies #[trigger] d[i] != '\n' by {
            if i > 0 {
                assert(d[i] == text::decimal_nat((-n) as nat)[i - 1]);
            }
        }
    } else {
        lemma_digits_are_one_line(n as nat);
    }
}

/// A request is accepted exactly where its clock is within a minute and a half of
/// ours, its node is one by its form, and its signature is the keyed digest, in
/// hexadecimal, of what it asks for under its time and its nonce.
pub proof fn law_request_is_accepted_by_its_signature(
    secret: Seq<char>,
    method: Seq<char>,
    path: Seq<char>,
    hash: Seq<char>,
    h: SignedHeaders,
    now: i64,
    is_uuid: bool,
)
    ensures
        node_protocol::request_error(secret, method, path, hash, h, now, is_uuid) is None <==> {
            &&& -90 <= now - h.timestamp <= 90
            &&& is_uuid
            &&& digest::is_hex(h.signature@)
            &&& digest::hex_bytes(h.signature@) == digest::hmac_sha256_of(
                encode_utf8(secret),
                encode_utf8(
                    node_protocol::canonical_text(
                        h.node_id@,
                        method,
                        path,
                        h.timestamp as int,
                        h.nonce@,
                        hash,
                    ),
                ),
            )
        },
        !(-90 <= now - h.timestamp <= 90) ==> node_protocol::request_error(
            secret,
            method,
            path,
            hash,
            h,
            now,
            is_uuid,
        ) == Some(ProtocolError::Expired),
{
}

/// A signature in hexadecimal is read whatever the case of its letters.
pub proof fn law_hexadecimal(s: Seq<char>, i: int)
    requires
        0 <= i < s.len(),
    ensures
        digest::is_hex(s) ==> s.len() % 2 == 0 && ('0' <= s[i] <= '9' || 'a' <= s[i] <= 'f' || 'A'
            <= s[i] <= 'F'),
        s.len() % 2 == 0 && (forall|k: int|
            0 <= k < s.len() ==> '0' <= #[trigger] s[k] <= '9' || 'a' <= s[k] <= 'f') ==> digest::is_hex(s),
        digest::hex_value('0') == Some(0int) && digest::hex_value('9') == Some(9int)
            && digest::hex_value('a') == Some(10int) && digest::hex_value('f') == Some(15int)
            && digest::hex_value('A') == Some(10int) && digest::hex_value('F') == Some(15int),
{
    if digest::is_hex(s) {
        assert(digest::hex_value(s[i]) is Some);
    }
}

/// An answer with a block of its own at its end is verified exactly where that
/// answers our nonce and holds the keyed digest of the answer without it.
pub proof fn law_answer_is_verified_by_its_signature(
    secret: Seq<char>,
    method: Seq<char>,
    path: Seq<char>,
    status: int,
    nonce: Seq<char>,
    body: Seq<u8>,
    node: Seq<char>,
    signature: Seq<u8>,
)
    requires
        body.len() > 0,
        body.last() == 0x7d,
        !signature.contains(0x22),
        !encode_utf8(nonce).contains(0x22),
        valid_utf8(
            node_protocol::signed_envelope(body, signature, encode_utf8(nonce)),
        ),
        signature.len() == 64,
        forall|i: int|
            0 <= i < 64 ==> (0x30 <= #[trigger] signature[i] <= 0x39 || 0x61 <= signature[i]
                <= 0x66),
    ensures
        node_protocol::response_auth(
            secret,
            method,
            path,
            status,
            nonce,
            node_protocol::signed_envelope(body, signature, encode_utf8(nonce)),
            node,
        ) == (if digest::hex_bytes(text::ascii_text(signature)) == digest::hmac_sha256_of(
            encode_utf8(secret),
            encode_utf8(
                node_protocol::canonical_text(
                    node,
                    method,
                    path,
                    status,
                    nonce,
                    digest::hex_text(digest::sha256_of(body)),
                ),
            ),
        ) {
            Ok::<ResponseAuth, ProtocolError>(ResponseAuth::Verified)
        } else {
            Err(ProtocolError::ResponseMismatch)
        }),
{
    node_protocol::law_appended_block_is_found(body, signature, encode_utf8(nonce));
}

proof fn lemma_no_last(s: Seq<u8>, p: Seq<u8>, from: int)
    requires
        forall|at: int| 0 <= at <= from ==> !#[trigger] node_protocol::bytes_at(s, p, at),
    ensures
        node_protocol::last_from(s, p, from) is None,
    decreases from + 1,
{
    if from >= 0 {
        assert(!node_protocol::bytes_at(s, p, from));
        lemma_no_last(s, p, from - 1);
    }
}

/// An answer that nowhere holds the mark of a signature is an unsigned one.
pub proof fn law_answer_without_a_mark_is_unsigned(
    secret: Seq<char>,
    method: Seq<char>,
    path: Seq<char>,
    status: int,
    nonce: Seq<char>,
    raw: Seq<u8>,
    node: Seq<char>,
)
    requires
        forall|at: int|
            !#[trigger] node_protocol::bytes_at(
                raw,
                encode_utf8(node_protocol::SIGNATURE_MARK@),
                at,
            ),
    ensures
        node_protocol::response_auth(secret, method, path, status, nonce, raw, node) == Ok::<
            ResponseAuth,
            ProtocolError,
        >(ResponseAuth::Unsigned),
{
    let mark = encode_utf8(node_protocol::SIGNATURE_MARK@);
    lemma_no_last(raw, mark, raw.len() - mark.len());
}

/// A streamed answer is verified exactly where its signature is the keyed digest, in
/// hexadecimal, of what it answers.
pub proof fn law_stream_is_verified_by_its_signature(
    secret: Seq<char>,
    payload: Seq<char>,
    signature: Seq<char>,
)
    ensures
        node_protocol::stream_error(secret, payload, signature) is None <==> digest::is_hex(
            signature,
        ) && digest::hex_bytes(signature) == digest::hmac_sha256_of(
            encode_utf8(secret),
            encode_utf8(payload),
        ),
        digest::is_hex(signature) && digest::hex_bytes(signature) != digest::hmac_sha256_of(
            encode_utf8(secret),
            encode_utf8(payload),
        ) ==> node_protocol::stream_error(secret, payload, signature) == Some(
            ProtocolError::ResponseMismatch,
        ),
{
}

/// A request is refused for its time first, then for its sender, then for how its
/// signature is written, then for the signature.
pub proof fn law_requests_are_refused(
    secret: Seq<char>,
    method: Seq<char>,
    path: Seq<char>,
    hash: Seq<char>,
    h: SignedHeaders,
    now: i64,
    is_uuid: bool,
)
    ensures
        ({
            let e = node_protocol::request_error(secret, method, path, hash, h, now, is_uuid);
            let early = now - h.timestamp < -90;
            let late = now - h.timestamp > 90;
            &&& early || late ==> e == Some(ProtocolError::Expired)
            &&& !early && !late && !is_uuid ==> e == Some(ProtocolError::InvalidNodeId)
            &&& !early && !late && is_uuid && !digest::is_hex(h.signature@) ==> e == Some(
                ProtocolError::InvalidSignatureEncoding,
            )
            &&& !early && !late && is_uuid && digest::is_hex(h.signature@) && e is Some ==> e
                == Some(ProtocolError::SignatureMismatch)
        }),
{
}

/// What is kept of a request until its body is read is what it was signed with.
pub proof fn law_pending_requests(p: node_protocol::PendingRequest, h: SignedHeaders)
    requires
        node_protocol::is_pending(p, h),
    ensures
        p.node_id@ == h.node_id@ && p.timestamp == h.timestamp && p.nonce@ == h.nonce@,
        p.signature@ == digest::hex_bytes(h.signature@),
{
}

/// A footer that is cut off, or whose signature is no digest, is no footer.
pub proof fn law_footers(body: Seq<u8>)
    ensures
        body.len() < 78 ==> node_protocol::footer_signature(body) is None,
        node_protocol::footer_signature(body) matches Some(s) ==> body.len() >= 78 && s.len() == 64
            && body[body.len() - 1] == 0x0a && body[body.len() - 66] == 0x0a && forall|i: int|
            0 <= i < 64 ==> #[trigger] s[i] == body[body.len() - 65 + i],
{
    if node_protocol::footer_signature(body) is Some {
        let s = node_protocol::footer_signature(body)->0;
        let f = node_protocol::footer_of(s);
        let t = body.skip(body.len() - 78);
        assert(t == f);
        assert(t[77] == body[body.len() - 1]);
        assert(f[f.len() - 1] == 0x0a);
        assert(t[12] == body[body.len() - 66]);
        assert(f.len() == 78);
        assert(f[f.len() - 66] == 0x0a);
    }
}

} // verus!
