//! Base64 with the standard alphabet and padding.
use base64::engine::Engine;
use vstd::prelude::*;

verus! {

/// The base64 text of some bytes.
pub uninterp spec fn base64_text(data: Seq<u8>) -> Seq<char>;

/// What decoding a text gives: its bytes, or why it is no base64.
pub uninterp spec fn base64_decoded(s: Seq<char>) -> Result<Seq<u8>, Seq<char>>;

/// The bytes that a base64 text stands for, if it is one.
pub open spec fn base64_bytes(s: Seq<char>) -> Option<Seq<u8>> {
    match base64_decoded(s) {
        Ok(data) => Some(data),
        Err(_) => None,
    }
}

/// `base64::engine::general_purpose::STANDARD.encode`: the text of some bytes,
/// which decodes to them again.
#[verifier::external_body]
pub(crate) fn base64_encode(data: &[u8]) -> (r: String)
    ensures
        r@ == base64_text(data@),
        base64_bytes(r@) == Some(data@),
{
    base64::engine::general_purpose::STANDARD.encode(data)
}

/// `base64::engine::general_purpose::STANDARD.decode`: the bytes of a text, or why
/// it has none.
#[verifier::external_body]
pub(crate) fn base64_decode(s: &str) -> (r: Result<Vec<u8>, String>)
    ensures
        match r {
            Ok(v) => base64_decoded(s@) == Ok::<Seq<u8>, Seq<char>>(v@),
            Err(e) => base64_decoded(s@) == Err::<Seq<u8>, Seq<char>>(e@),
        },
{
    base64::engine::general_purpose::STANDARD.decode(s).map_err(|e| e.to_string())
}

} // verus!
