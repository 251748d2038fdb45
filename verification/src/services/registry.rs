//! The registry of blueprint packages: their documents, signatures, files and
//! origins.
use crate::digest;
use crate::json;
use crate::json::Json;
use crate::models::Blueprint;
use crate::order;
use crate::order::Ranked;
use crate::paths;
use crate::services::pull;
use crate::services::pull::{Header, PullNext};
use crate::services::revisions;
use crate::text;
use ed25519_dalek::{Signer, Verifier};
use vstd::prelude::*;
use vstd::slice::*;
use vstd::string::*;
use vstd::utf8::*;

verus! {

/// The form of package documents.
pub const REGISTRY_PACKAGE_SCHEMA: &'static str = "voltspec.registry.package.v1";

/// Why a package was refused.
#[derive(Debug, Clone)]
pub enum PackageError {
    SeedHex,
    SeedLength,
    NotObject,
    NoPublicKey,
    KeyHex,
    KeyLength,
    SignatureHex,
    SignatureLength,
    KeyInvalid { reason: String },
    SignatureInvalid,
    NoId,
    NoVersion,
    InvalidId,
    NotFound { id: String, version: i64 },
    Corrupt { id: String, version: i64, reason: String },
    Unreadable { reason: String },
}

/// Name of a version of a package.
pub open spec fn package_label(id: Seq<char>, version: i64) -> Seq<char> {
    "registry package '"@ + id + "@v"@ + text::decimal(version as int) + "'"@
}

/// Name of a version of a package.
fn label(id: &str, version: i64) -> (r: String)
    ensures
        r@ == package_label(id@, version),
{
    let mut s = text::copy_of("registry package '");
    s.append(id);
    s.append("@v");
    let n = text::string_of(text::decimal_i64(version).as_slice());
    s.append(n.as_str());
    s.append("'");
    s
}

impl PackageError {
    /// The message of a refusal.
    pub open spec fn text_of(self) -> Seq<char> {
        match self {
            PackageError::SeedHex => "registry signing key is not valid hex"@,
            PackageError::SeedLength =>
                "registry signing key must be exactly 32 bytes (64 hex chars)"@,
            PackageError::NotObject => "registry package is not a JSON object"@,
            PackageError::NoPublicKey => "signed package is missing its public_key"@,
            PackageError::KeyHex => "package public_key is not valid hex"@,
            PackageError::KeyLength => "package public_key must be 32 bytes"@,
            PackageError::SignatureHex => "package signature is not valid hex"@,
            PackageError::SignatureLength => "package signature must be 64 bytes"@,
            PackageError::KeyInvalid { reason } => "package public_key is invalid: "@ + reason@,
            PackageError::SignatureInvalid =>
                "package signature is invalid (tampered or signed by a different key)"@,
            PackageError::NoId => "registry package has no id"@,
            PackageError::NoVersion => "registry package has no version"@,
            PackageError::InvalidId => "invalid registry package id"@,
            PackageError::NotFound { id, version } => package_label(id@, version)
                + " not found"@,
            PackageError::Corrupt { id, version, reason } => package_label(id@, version)
                + " is corrupt: "@ + reason@,
            PackageError::Unreadable { reason } => "remote registry returned invalid JSON: "@
                + reason@,
        }
    }

    /// The message of a refusal.
    pub fn message(&self) -> (r: String)
        ensures
            r@ == self.text_of(),
    {
        match self {
            PackageError::SeedHex => text::copy_of("registry signing key is not valid hex"),
            PackageError::SeedLength => text::copy_of(
                "registry signing key must be exactly 32 bytes (64 hex chars)",
            ),
            PackageError::NotObject => text::copy_of("registry package is not a JSON object"),
            PackageError::NoPublicKey => text::copy_of("signed package is missing its public_key"),
            PackageError::KeyHex => text::copy_of("package public_key is not valid hex"),
            PackageError::KeyLength => text::copy_of("package public_key must be 32 bytes"),
            PackageError::SignatureHex => text::copy_of("package signature is not valid hex"),
            PackageError::SignatureLength => text::copy_of("package signature must be 64 bytes"),
            PackageError::KeyInvalid { reason } => {
                let mut s = text::copy_of("package public_key is invalid: ");
                s.append(reason.as_str());
                s
            },
            PackageError::SignatureInvalid => text::copy_of(
                "package signature is invalid (tampered or signed by a different key)",
            ),
            PackageError::NoId => text::copy_of("registry package has no id"),
            PackageError::NoVersion => text::copy_of("registry package has no version"),
            PackageError::InvalidId => text::copy_of("invalid registry package id"),
            PackageError::NotFound { id, version } => {
                let mut s = label(id.as_str(), *version);
                s.append(" not found");
                s
            },
            PackageError::Corrupt { id, version, reason } => {
                let mut s = label(id.as_str(), *version);
                s.append(" is corrupt: ");
                s.append(reason.as_str());
                s
            },
            PackageError::Unreadable { reason } => {
                let mut s = text::copy_of("remote registry returned invalid JSON: ");
                s.append(reason.as_str());
                s
            },
        }
    }
}

/// The public key of an ed25519 seed.
pub uninterp spec fn public_key_of(seed: Seq<u8>) -> Seq<u8>;

/// The ed25519 signature of a message under a seed.
pub uninterp spec fn signature_of(seed: Seq<u8>, message: Seq<u8>) -> Seq<u8>;

/// Why `VerifyingKey::from_bytes` refuses bytes as a public key; none where it
/// takes them.
pub uninterp spec fn key_error(key: Seq<u8>) -> Option<Seq<char>>;

/// Whether a signature of a message holds under a public key, by
/// `Verifier::verify`.
pub uninterp spec fn signature_holds(key: Seq<u8>, message: Seq<u8>, sig: Seq<u8>) -> bool;

/// `SigningKey::from_bytes` and `VerifyingKey::to_bytes` of `ed25519_dalek`: the
/// public key of a seed, 32 bytes that are taken as a public key.
#[verifier::external_body]
fn ed_public(seed: &[u8]) -> (r: Vec<u8>)
    requires
        seed@.len() == 32,
    ensures
        r@ == public_key_of(seed@),
        r@.len() == 32,
        key_error(r@) is None,
{
    let bytes: [u8; 32] = seed.try_into().expect("32 bytes");
    ed25519_dalek::SigningKey::from_bytes(&bytes).verifying_key().to_bytes().to_vec()
}

/// `Signer::sign` of `ed25519_dalek::SigningKey`: the signature of a message, 64
/// bytes that hold under the seed's public key.
#[verifier::external_body]
fn ed_sign(seed: &[u8], message: &[u8]) -> (r: Vec<u8>)
    requires
        seed@.len() == 32,
    ensures
        r@ == signature_of(seed@, message@),
        r@.len() == 64,
        signature_holds(public_key_of(seed@), message@, r@),
{
    let bytes: [u8; 32] = seed.try_into().expect("32 bytes");
    ed25519_dalek::SigningKey::from_bytes(&bytes).sign(message).to_bytes().to_vec()
}

/// `ed25519_dalek::VerifyingKey::from_bytes`: why bytes are refused as a public
/// key, if they are.
#[verifier::external_body]
fn ed_key_refusal(key: &[u8]) -> (r: Option<String>)
    requires
        key@.len() == 32,
    ensures
        match r {
            Some(s) => key_error(key@) == Some(s@),
            None => key_error(key@) is None,
        },
{
    let bytes: [u8; 32] = key.try_into().expect("32 bytes");
    ed25519_dalek::VerifyingKey::from_bytes(&bytes).err().map(|e| e.to_string())
}

/// `Verifier::verify` of `ed25519_dalek::VerifyingKey`: whether a signature of a
/// message holds under a public key; false for a key that is refused.
#[verifier::external_body]
fn ed_verify(key: &[u8], message: &[u8], sig: &[u8]) -> (r: bool)
    requires
        key@.len() == 32,
        sig@.len() == 64,
    ensures
        r == signature_holds(key@, message@, sig@),
{
    let key: [u8; 32] = key.try_into().expect("32 bytes");
    let sig: [u8; 64] = sig.try_into().expect("64 bytes");
    match ed25519_dalek::VerifyingKey::from_bytes(&key) {
        Ok(k) => k.verify(message, &ed25519_dalek::Signature::from_bytes(&sig)).is_ok(),
        Err(_) => false,
    }
}

/// The panel's key to sign packages with.
#[derive(Debug, Clone)]
pub struct SigningKey {
    pub seed: Vec<u8>,
}

impl SigningKey {
    /// A seed is 32 bytes.
    pub open spec fn wf(self) -> bool {
        self.seed@.len() == 32
    }
}

/// Reads a key from its 64 hexadecimal digits.
pub fn signing_key_from_hex(hex_key: &str) -> (r: Result<SigningKey, PackageError>)
    ensures
        ({
            let t = text::trimmed(hex_key@);
            match r {
                Ok(k) => digest::is_hex(t) && k.seed@ == digest::hex_bytes(t) && k.wf(),
                Err(e) => if !digest::is_hex(t) {
                    e is SeedHex
                } else {
                    e is SeedLength && t.len() != 64
                },
            }
        }),
{
    let t = text::trim_string(hex_key);
    match digest::hex_decode(t.as_str()) {
        None => Err(PackageError::SeedHex),
        Some(seed) => if seed.len() == 32 {
            Ok(SigningKey { seed })
        } else {
            Err(PackageError::SeedLength)
        },
    }
}

/// The public key of a key, as hexadecimal digits.
pub fn public_key_hex(key: &SigningKey) -> (r: String)
    requires
        key.wf(),
    ensures
        r@ == digest::hex_text(public_key_of(key.seed@)),
{
    digest::hex_encode(ed_public(key.seed.as_slice()).as_slice())
}

/// A short name of a public key to tell publishers apart by.
pub fn public_key_fingerprint(public_hex: &str) -> (r: String)
    ensures
        r@ == if digest::is_hex(public_hex@) {
            digest::sha256_hex_of(digest::hex_bytes(public_hex@)).take(16)
        } else {
            Seq::empty()
        },
{
    match digest::hex_decode(public_hex) {
        Some(bytes) => {
            let d = digest::sha256(bytes.as_slice());
            proof {
                digest::law_hex_round_trip(d@);
            }
            let h = digest::hex_encode(d.as_slice());
            let cs = text::chars_of(h.as_str());
            let r = text::string_of(slice_subrange(cs.as_slice(), 0, 16));
            assert(r@ =~= digest::sha256_hex_of(digest::hex_bytes(public_hex@)).take(16));
            r
        },
        None => {
            let s = String::new();
            assert(s@ =~= Seq::<char>::empty());
            s
        },
    }
}

/// The bytes that a signature of a document is over: its canonical text without
/// the signature.
pub open spec fn signed_bytes(d: json::Doc) -> Seq<u8> {
    encode_utf8(json::canonical(json::removed(d, "signature"@)))
}

/// Signs a document: gives it without any signature, and the signature.
pub fn sign_package_doc(doc: Json, key: &SigningKey) -> (r: (Json, String))
    requires
        key.wf(),
    ensures
        r.0@ == json::removed(doc@, "signature"@),
        r.1@ == digest::hex_text(signature_of(key.seed@, signed_bytes(doc@))),
        signature_holds(
            public_key_of(key.seed@),
            signed_bytes(doc@),
            signature_of(key.seed@, signed_bytes(doc@)),
        ),
        signature_of(key.seed@, signed_bytes(doc@)).len() == 64,
{
    let plain = doc.remove("signature");
    let message = json::canonical_json(&plain);
    let sig = ed_sign(key.seed.as_slice(), message.as_str().as_bytes());
    let hex = digest::hex_encode(sig.as_slice());
    (plain, hex)
}

/// What holding a document against its signature says.
pub enum Verdict {
    Unsigned,
    Valid,
    NotObject,
    NoPublicKey,
    KeyHex,
    KeyLength,
    SignatureHex,
    SignatureLength,
    KeyInvalid(Seq<char>),
    SignatureInvalid,
}

/// What holding a document against its signature says, given why its key is
/// refused, if it is, and whether the signature holds.
pub open spec fn verdict_with(d: json::Doc, refusal: Option<Seq<char>>, holds: bool) -> Verdict {
    let sig = json::text_member(d, "signature"@);
    let key = json::text_member(d, "public_key"@);
    if !(d is Object) {
        Verdict::NotObject
    } else if sig is None {
        Verdict::Unsigned
    } else if key is None {
        Verdict::NoPublicKey
    } else if !digest::is_hex(key->0) {
        Verdict::KeyHex
    } else if key->0.len() != 64 {
        Verdict::KeyLength
    } else if !digest::is_hex(sig->0) {
        Verdict::SignatureHex
    } else if sig->0.len() != 128 {
        Verdict::SignatureLength
    } else if refusal is Some {
        Verdict::KeyInvalid(refusal->0)
    } else if holds {
        Verdict::Valid
    } else {
        Verdict::SignatureInvalid
    }
}

/// What holding a document against its signature says.
pub open spec fn verdict(d: json::Doc) -> Verdict {
    let key = digest::hex_bytes(json::text_member(d, "public_key"@)->0);
    let sig = digest::hex_bytes(json::text_member(d, "signature"@)->0);
    verdict_with(d, key_error(key), signature_holds(key, signed_bytes(d), sig))
}

/// Whether a result tells what was found of a signature: true where it holds, false
/// where there is none, and an error where it does not.
pub open spec fn is_answer(v: Verdict, r: Result<bool, PackageError>) -> bool {
    match r {
        Ok(signed) => v == if signed {
            Verdict::Valid
        } else {
            Verdict::Unsigned
        },
        Err(PackageError::NotObject) => v is NotObject,
        Err(PackageError::NoPublicKey) => v is NoPublicKey,
        Err(PackageError::KeyHex) => v is KeyHex,
        Err(PackageError::KeyLength) => v is KeyLength,
        Err(PackageError::SignatureHex) => v is SignatureHex,
        Err(PackageError::SignatureLength) => v is SignatureLength,
        Err(PackageError::KeyInvalid { reason }) => v == Verdict::KeyInvalid(reason@),
        Err(PackageError::SignatureInvalid) => v is SignatureInvalid,
        Err(_) => false,
    }
}

/// Judges a signed document by why its key is refused, if it is, and whether the
/// signature holds.
pub fn judge_signature(refusal: Option<String>, holds: bool) -> (r: Result<bool, PackageError>)
    ensures
        match r {
            Ok(signed) => refusal is None && holds && signed,
            Err(PackageError::KeyInvalid { reason }) => refusal is Some && reason@
                == refusal->0@,
            Err(e) => refusal is None && !holds && e is SignatureInvalid,
        },
{
    match refusal {
        Some(reason) => Err(PackageError::KeyInvalid { reason }),
        None => if holds {
            Ok(true)
        } else {
            Err(PackageError::SignatureInvalid)
        },
    }
}

/// Holds a document against its signature, where it has one.
pub fn verify_package_signature(doc: &Json) -> (r: Result<bool, PackageError>)
    ensures
        is_answer(verdict(doc@), r),
{
    match doc {
        Json::Object(_) => {},
        _ => {
            return Err(PackageError::NotObject);
        },
    }
    let sig_hex = match doc.get_text("signature") {
        Some(s) => s,
        None => {
            return Ok(false);
        },
    };
    let key_hex = match doc.get_text("public_key") {
        Some(s) => s,
        None => {
            return Err(PackageError::NoPublicKey);
        },
    };
    let key = match digest::hex_decode(key_hex.as_str()) {
        Some(v) => v,
        None => {
            return Err(PackageError::KeyHex);
        },
    };
    if key.len() != 32 {
        return Err(PackageError::KeyLength);
    }
    let sig = match digest::hex_decode(sig_hex.as_str()) {
        Some(v) => v,
        None => {
            return Err(PackageError::SignatureHex);
        },
    };
    if sig.len() != 64 {
        return Err(PackageError::SignatureLength);
    }
    let plain = doc.copy().remove("signature");
    let message = json::canonical_json(&plain);
    let holds = ed_verify(key.as_slice(), message.as_str().as_bytes(), sig.as_slice());
    judge_signature(ed_key_refusal(key.as_slice()), holds)
}

/// Whether a document says that it is signed.
pub fn package_is_signed(doc: &Json) -> (r: bool)
    ensures
        r == (json::text_member(doc@, "signature"@) is Some),
{
    doc.get_text("signature").is_some()
}

/// A text with everything but letters and digits of ASCII replaced by dashes.
pub open spec fn dashed(s: Seq<char>) -> Seq<char> {
    Seq::new(
        s.len(),
        |i: int|
            if text::is_alnum(s[i]) {
                s[i]
            } else {
                '-'
            },
    )
}

/// The pieces of a text between dashes that hold something.
pub open spec fn full_pieces(s: Seq<char>) -> Seq<Seq<char>> {
    text::split_on(s, '-').filter(|p: Seq<char>| p.len() > 0)
}

/// A package's id for a name in small letters: each run of anything but letters
/// and digits becomes one dash.
pub open spec fn slug_of(lower: Seq<char>) -> Seq<char> {
    let s = text::joined(full_pieces(dashed(lower)), seq!['-']);
    if s.len() == 0 {
        "package"@
    } else {
        s
    }
}

/// A package's id for a name in small letters.
pub fn slug(lower: &str) -> (r: String)
    ensures
        r@ == slug_of(lower@),
{
    let cs = text::chars_of(lower);
    let mut d: Vec<char> = Vec::new();
    let mut i: usize = 0;
    while i < cs.len()
        invariant
            i <= cs@.len(),
            cs@ == lower@,
            d@ == dashed(lower@.take(i as int)),
        decreases cs.len() - i,
    {
        if text::is_ascii_alnum(cs[i]) {
            d.push(cs[i]);
        } else {
            d.push('-');
        }
        i += 1;
        assert(d@ =~= dashed(lower@.take(i as int)));
    }
    assert(lower@.take(i as int) =~= lower@);
    let pieces = text::split(d.as_slice(), '-');
    let ghost all = text::split_on(d@, '-');
    let ghost test = |p: Seq<char>| p.len() > 0;
    let mut kept: Vec<Vec<char>> = Vec::new();
    let mut k: usize = 0;
    assert(all.take(0).filter(test) =~= Seq::<Seq<char>>::empty()) by {
        reveal(Seq::filter);
    }
    assert(text::runs(kept@) =~= Seq::<Seq<char>>::empty());
    while k < pieces.len()
        invariant
            k <= pieces@.len(),
            text::runs(pieces@) == all,
            test == (|p: Seq<char>| p.len() > 0),
            text::runs(kept@) == all.take(k as int).filter(test),
        decreases pieces.len() - k,
    {
        proof {
            assert(all[k as int] == pieces@[k as int]@);
            assert(all.take(k + 1) =~= all.take(k as int).push(all[k as int]));
            all.take(k as int).lemma_filter_push(all[k as int], test);
        }
        if pieces[k].len() > 0 {
            let mut copy: Vec<char> = Vec::new();
            text::push_all(&mut copy, pieces[k].as_slice());
            assert(copy@ =~= all[k as int]);
            let ghost before = text::runs(kept@);
            kept.push(copy);
            assert(text::runs(kept@) =~= before.push(all[k as int]));
        }
        k += 1;
    }
    assert(all.take(k as int) =~= all);
    let mut sep: Vec<char> = Vec::new();
    sep.push('-');
    assert(sep@ =~= seq!['-']);
    let s = text::join(&kept, sep.as_slice());
    if s.len() == 0 {
        text::copy_of("package")
    } else {
        text::string_of(s.as_slice())
    }
}

/// A package's id for the name of a blueprint.
pub fn package_id_from_name(name: &str) -> (r: String)
    ensures
        r@ == slug_of(text::lowercase_of(name@)),
        is_ascii_chars(name@) ==> r@ == slug_of(text::lowered(name@)),
        valid_id(r@),
        neat(r@),
{
    let lower = text::to_lowercase(name);
    proof {
        law_slug_is_a_valid_id(lower@);
        law_slug_is_kept(lower@);
    }
    slug(lower.as_str())
}

/// Whether a character may stand in a package's id.
pub open spec fn id_char(c: char) -> bool {
    'a' <= c <= 'z' || '0' <= c <= '9' || c == '-'
}

/// Whether a text can be a package's id, and so a part of a file's name.
pub open spec fn valid_id(id: Seq<char>) -> bool {
    id.len() > 0 && forall|i: int| 0 <= i < id.len() ==> id_char(#[trigger] id[i])
}

/// Whether a text can be a package's id.
pub fn valid_package_id(id: &str) -> (r: bool)
    ensures
        r == valid_id(id@),
{
    let cs = text::chars_of(id);
    let mut i: usize = 0;
    while i < cs.len()
        invariant
            i <= cs@.len(),
            cs@ == id@,
            forall|k: int| 0 <= k < i ==> id_char(#[trigger] cs@[k]),
        decreases cs.len() - i,
    {
        let c = cs[i];
        if !((c >= 'a' && c <= 'z') || (c >= '0' && c <= '9') || c == '-') {
            assert(!id_char(id@[i as int]));
            return false;
        }
        i += 1;
    }
    cs.len() > 0
}

/// Whether every character of a text passes a test.
spec fn all_of(s: Seq<char>, ok: spec_fn(char) -> bool) -> bool {
    forall|i: int| 0 <= i < s.len() ==> ok(#[trigger] s[i])
}

proof fn lemma_pieces_of(s: Seq<char>, ok: spec_fn(char) -> bool)
    requires
        all_of(s, ok),
    ensures
        forall|i: int|
            0 <= i < text::split_on(s, '-').len() ==> all_of(
                #[trigger] text::split_on(s, '-')[i],
                ok,
            ),
    decreases s.len(),
{
    text::lemma_split_len(s, '-');
    let after = text::split_on(s, '-');
    if s.len() == 0 {
        assert forall|i: int| 0 <= i < after.len() implies all_of(#[trigger] after[i], ok) by {
            assert(after[i].len() == 0);
        }
    } else {
        let less = s.drop_last();
        assert forall|i: int| 0 <= i < less.len() implies ok(#[trigger] less[i]) by {
            assert(less[i] == s[i]);
        }
        lemma_pieces_of(less, ok);
        text::lemma_split_len(less, '-');
        let before = text::split_on(less, '-');
        assert(ok(s[s.len() - 1]));
        assert forall|i: int| 0 <= i < after.len() implies all_of(#[trigger] after[i], ok) by {
            if s.last() == '-' {
                if i < before.len() {
                    assert(after[i] == before[i]);
                } else {
                    assert(after[i].len() == 0);
                }
            } else if i < before.len() - 1 {
                assert(after[i] == before[i]);
            } else {
                assert(all_of(before[before.len() - 1], ok));
                assert(after[i] == before.last().push(s.last()));
            }
        }
    }
}

proof fn lemma_joined_of(ps: Seq<Seq<char>>, ok: spec_fn(char) -> bool)
    requires
        forall|i: int| 0 <= i < ps.len() ==> all_of(#[trigger] ps[i], ok),
        ok('-'),
    ensures
        all_of(text::joined(ps, seq!['-']), ok),
    decreases ps.len(),
{
    if ps.len() > 0 {
        let less = ps.drop_last();
        assert forall|i: int| 0 <= i < less.len() implies all_of(#[trigger] less[i], ok) by {
            assert(less[i] == ps[i]);
        }
        lemma_joined_of(less, ok);
        assert(all_of(ps[ps.len() - 1], ok));
    }
}

proof fn lemma_slug_chars(lower: Seq<char>, ok: spec_fn(char) -> bool)
    requires
        all_of(dashed(lower), ok),
        all_of("package"@, ok),
        ok('-'),
    ensures
        all_of(slug_of(lower), ok),
{
    let d = dashed(lower);
    lemma_pieces_of(d, ok);
    let test = |p: Seq<char>| p.len() > 0;
    let all = text::split_on(d, '-');
    let kept = full_pieces(d);
    assert forall|i: int| 0 <= i < kept.len() implies all_of(#[trigger] kept[i], ok) by {
        assert(kept.contains(kept[i]));
        all.lemma_filter_contains_rev(test, kept[i]);
        let k = choose|k: int| 0 <= k < all.len() && all[k] == kept[i];
        assert(all_of(all[k], ok));
    }
    lemma_joined_of(kept, ok);
}

/// Whether the dashes of a text stand one by one between other characters.
pub open spec fn neat(s: Seq<char>) -> bool {
    &&& s.len() > 0
    &&& s[0] != '-'
    &&& s.last() != '-'
    &&& forall|i: int| 0 <= i < s.len() - 1 && #[trigger] s[i] == '-' ==> s[i + 1] != '-'
}

/// Whether a text is a piece between dashes that holds something.
pub open spec fn full_piece(p: Seq<char>) -> bool {
    p.len() > 0 && !text::mentions(p, '-')
}

proof fn lemma_full_pieces(s: Seq<char>)
    ensures
        forall|i: int| 0 <= i < full_pieces(s).len() ==> full_piece(#[trigger] full_pieces(s)[i]),
{
    let test = |p: Seq<char>| p.len() > 0;
    let all = text::split_on(s, '-');
    let kept = full_pieces(s);
    paths::lemma_pieces_have_no_separator(s, '-');
    assert forall|i: int| 0 <= i < kept.len() implies full_piece(#[trigger] kept[i]) by {
        assert(kept.contains(kept[i]));
        all.lemma_filter_contains_rev(test, kept[i]);
        let k = choose|k: int| 0 <= k < all.len() && all[k] == kept[i];
        assert(!text::mentions(all[k], '-'));
        all.lemma_filter_pred(test, i);
    }
}

proof fn lemma_joined_pieces(ps: Seq<Seq<char>>)
    requires
        ps.len() > 0,
        forall|i: int| 0 <= i < ps.len() ==> full_piece(#[trigger] ps[i]),
    ensures
        neat(text::joined(ps, seq!['-'])),
        text::split_on(text::joined(ps, seq!['-']), '-') == ps,
    decreases ps.len(),
{
    let last = ps.last();
    assert(full_piece(ps[ps.len() - 1]));
    assert forall|k: int| 0 <= k < last.len() implies last[k] != '-' by {
        assert(!text::mentions(last, '-'));
    }
    text::lemma_split_piece(last, '-', Seq::empty());
    if ps.len() == 1 {
        assert(ps =~= seq![last]);
    } else {
        let less = ps.drop_last();
        assert forall|i: int| 0 <= i < less.len() implies full_piece(#[trigger] less[i]) by {
            assert(less[i] == ps[i]);
        }
        lemma_joined_pieces(less);
        let front = text::joined(less, seq!['-']);
        let s = text::joined(ps, seq!['-']);
        assert(s =~= front.push('-') + last);
        text::lemma_split_both(front, '-', last);
        assert(less + seq![last] =~= ps);
        assert forall|i: int| 0 <= i < s.len() - 1 && #[trigger] s[i] == '-' implies s[i + 1]
            != '-' by {
            if i < front.len() {
                assert(s[i] == front[i]);
                assert(i < front.len() - 1);
                assert(s[i + 1] == front[i + 1]);
            } else if i == front.len() {
                assert(s[i + 1] == last[0]);
            } else {
                assert(s[i] == last[i - front.len() - 1]);
            }
        }
        assert(s[0] == front[0]);
    }
}

proof fn lemma_filter_keeps_full(ps: Seq<Seq<char>>)
    requires
        forall|i: int| 0 <= i < ps.len() ==> full_piece(#[trigger] ps[i]),
    ensures
        ps.filter(|p: Seq<char>| p.len() > 0) == ps,
    decreases ps.len(),
{
    reveal(Seq::filter);
    if ps.len() > 0 {
        let less = ps.drop_last();
        assert forall|i: int| 0 <= i < less.len() implies full_piece(#[trigger] less[i]) by {
            assert(less[i] == ps[i]);
        }
        lemma_filter_keeps_full(less);
        assert(full_piece(ps[ps.len() - 1]));
        assert(less.push(ps.last()) =~= ps);
    }
}

/// The dashes of an id made from a name stand one by one between letters and
/// digits, and an id made from an id is that id.
pub proof fn law_slug_is_kept(lower: Seq<char>)
    ensures
        neat(slug_of(lower)),
        slug_of(slug_of(lower)) == slug_of(lower),
{
    let d = dashed(lower);
    let kept = full_pieces(d);
    lemma_full_pieces(d);
    let s = slug_of(lower);
    let word = "package"@;
    reveal_strlit("package");
    let ps = if kept.len() > 0 {
        kept
    } else {
        seq![word]
    };
    assert(full_piece(word));
    lemma_joined_pieces(ps);
    lemma_filter_keeps_full(ps);
    assert(text::joined(seq![word], seq!['-']) =~= word);
    assert(s == text::joined(ps, seq!['-']));
    let ok = |c: char| text::is_alnum(c) || c == '-';
    lemma_slug_chars(lower, ok);
    assert(dashed(s) =~= s) by {
        assert forall|i: int| 0 <= i < s.len() implies dashed(s)[i] == s[i] by {
            assert(ok(s[i]));
        }
    }
}

/// The id made from a name without capital letters is one that can be a part of a
/// file's name: no slash, no dots.
pub proof fn law_slug_is_a_valid_id(lower: Seq<char>)
    requires
        text::no_capitals(lower),
    ensures
        valid_id(slug_of(lower)),
{
    let d = dashed(lower);
    let ok = |c: char| id_char(c);
    assert forall|i: int| 0 <= i < d.len() implies ok(#[trigger] d[i]) by {
        assert(!('A' <= lower[i] <= 'Z'));
    }
    reveal_strlit("package");
    lemma_slug_chars(lower, ok);
    let s = slug_of(lower);
    assert forall|i: int| 0 <= i < s.len() implies id_char(#[trigger] s[i]) by {
        assert(ok(s[i]));
    }
}

/// Directory of the registry below that of the blueprints.
pub fn registry_root(base: &str) -> (r: String)
    ensures
        r@ == paths::joined(base@, "registry"@),
{
    paths::join(base, "registry")
}

/// Path of the file of a version of a package.
pub open spec fn file_of(root: Seq<char>, id: Seq<char>, version: i64) -> Seq<char> {
    paths::joined(
        paths::joined(root, "packages"@),
        id + "@"@ + text::decimal(version as int) + ".json"@,
    )
}

/// Path of the file of a version of a package.
pub fn package_path(root: &str, id: &str, version: i64) -> (r: String)
    ensures
        r@ == file_of(root@, id@, version),
{
    let dir = paths::join(root, "packages");
    let mut name = text::copy_of(id);
    name.append("@");
    let n = text::string_of(text::decimal_i64(version).as_slice());
    name.append(n.as_str());
    name.append(".json");
    paths::join(dir.as_str(), name.as_str())
}

/// The text under a key, or nothing.
pub open spec fn field_of(d: json::Doc, key: Seq<char>) -> Seq<char> {
    match json::text_member(d, key) {
        Some(t) => t,
        None => Seq::empty(),
    }
}

/// The text under a key, or nothing.
fn meta_field(doc: &Json, key: &str) -> (r: String)
    ensures
        r@ == field_of(doc@, key@),
{
    match doc.get_text(key) {
        Some(t) => text::copy_of(t.as_str()),
        None => {
            let s = String::new();
            assert(s@ =~= Seq::<char>::empty());
            s
        },
    }
}

/// The blueprint within a package. Its default configuration and its inputs are
/// given as documents.
pub open spec fn blueprint_part(b: Blueprint, config: json::Doc, variables: json::Doc) -> json::Doc {
    let none = json::Doc::Object(Seq::empty());
    let d = json::inserted(none, "name"@, json::Doc::Text(b.name@));
    let d = json::inserted(d, "description"@, json::Doc::Text(b.description@));
    let d = json::inserted(d, "author"@, json::Doc::Text(b.author@));
    let d = json::inserted(d, "category"@, json::Doc::Text(b.category@));
    let d = json::inserted(d, "runtime_hint"@, json::Doc::Text(b.runtime_hint@));
    let d = json::inserted(d, "startup"@, json::Doc::Text(b.startup@));
    let d = json::inserted(d, "config"@, config);
    let d = json::inserted(
        d,
        "install"@,
        match b.install_script {
            Some(s) => json::inserted(none, "script"@, json::Doc::Text(s@)),
            None => json::Doc::Null,
        },
    );
    let d = json::inserted(d, "variables"@, variables);
    json::inserted(d, "stop"@, json::Doc::Text(b.stop_command@))
}

/// The blueprint within a package.
fn package_blueprint_doc(b: &Blueprint, config: Json, variables: &Json) -> (r: Json)
    ensures
        r@ == blueprint_part(*b, config@, variables@),
{
    let d = Json::object().insert("name", Json::text(b.name.as_str()));
    let d = d.insert("description", Json::text(b.description.as_str()));
    let d = d.insert("author", Json::text(b.author.as_str()));
    let d = d.insert("category", Json::text(b.category.as_str()));
    let d = d.insert("runtime_hint", Json::text(b.runtime_hint.as_str()));
    let d = d.insert("startup", Json::text(b.startup.as_str()));
    let d = d.insert("config", config);
    let install = match &b.install_script {
        Some(s) => Json::object().insert("script", Json::text(s.as_str())),
        None => Json::Null,
    };
    let d = d.insert("install", install);
    let d = d.insert("variables", variables.copy());
    d.insert("stop", Json::text(b.stop_command.as_str()))
}

/// A package of a blueprint, not signed.
pub open spec fn package_of(
    b: Blueprint,
    id: Seq<char>,
    version: i64,
    publisher: Seq<char>,
    published_at: Seq<char>,
    config: json::Doc,
    variables: json::Doc,
) -> json::Doc {
    let d = json::Doc::Object(Seq::empty());
    let d = json::inserted(d, "schema"@, json::Doc::Text(REGISTRY_PACKAGE_SCHEMA@));
    let d = json::inserted(d, "id"@, json::Doc::Text(id));
    let d = json::inserted(d, "name"@, json::Doc::Text(b.name@));
    let d = json::inserted(d, "version"@, json::Doc::Number(text::decimal(version as int)));
    let d = json::inserted(d, "description"@, json::Doc::Text(b.description@));
    let d = json::inserted(d, "publisher"@, json::Doc::Text(publisher));
    let d = json::inserted(d, "published_at"@, json::Doc::Text(published_at));
    let d = json::inserted(d, "source_uuid"@, json::Doc::Text(b.uuid@));
    let d = json::inserted(
        d,
        "digest"@,
        json::Doc::Text(revisions::doc_digest(revisions::document(revisions::content_of(b, variables)))),
    );
    json::inserted(d, "blueprint"@, blueprint_part(b, config, variables))
}

/// The default configuration of a blueprint as a document: null where it has none,
/// or what it has is none.
pub open spec fn config_of(b: Blueprint) -> json::Doc {
    match b.default_config {
        Some(c) => json::read_or_null(json::parsed(c@)),
        None => json::Doc::Null,
    }
}

/// Makes the package of a blueprint, not signed. `variables` are its inputs as a
/// document.
pub fn build_package_doc(
    b: &Blueprint,
    version: i64,
    publisher: &str,
    published_at: &str,
    variables: &Json,
) -> (r: Json)
    ensures
        r@ == package_of(
            *b,
            slug_of(text::lowercase_of(b.name@)),
            version,
            publisher@,
            published_at@,
            config_of(*b),
            variables@,
        ),
{
    let config = match &b.default_config {
        Some(c) => Json::or_null(Json::parse(c.as_str())),
        None => Json::Null,
    };
    package_with_config(b, version, publisher, published_at, config, variables)
}

/// Makes the package of a blueprint, not signed, given its default configuration
/// and its inputs as documents.
pub fn package_with_config(
    b: &Blueprint,
    version: i64,
    publisher: &str,
    published_at: &str,
    config: Json,
    variables: &Json,
) -> (r: Json)
    ensures
        r@ == package_of(
            *b,
            slug_of(text::lowercase_of(b.name@)),
            version,
            publisher@,
            published_at@,
            config@,
            variables@,
        ),
{
    let id = package_id_from_name(b.name.as_str());
    let d = Json::object().insert("schema", Json::text(REGISTRY_PACKAGE_SCHEMA));
    let d = d.insert("id", Json::text(id.as_str()));
    let d = d.insert("name", Json::text(b.name.as_str()));
    let d = d.insert("version", Json::integer(version));
    let d = d.insert("description", Json::text(b.description.as_str()));
    let d = d.insert("publisher", Json::text(publisher));
    let d = d.insert("published_at", Json::text(published_at));
    let d = d.insert("source_uuid", Json::text(b.uuid.as_str()));
    let digest = revisions::digest_of(b, variables);
    let d = d.insert("digest", Json::text(digest.as_str()));
    let part = package_blueprint_doc(b, config, variables);
    d.insert("blueprint", part)
}

/// A package that is to be written: to `temp` first, which is then moved to
/// `path`.
#[derive(Debug)]
pub struct Publication {
    pub doc: Json,
    pub path: String,
    pub temp: String,
}

/// The document that is published: signed, where there is a key.
pub open spec fn published(d: json::Doc, seed: Option<Seq<u8>>) -> json::Doc {
    match seed {
        None => d,
        Some(s) => {
            let keyed = json::inserted(
                d,
                "public_key"@,
                json::Doc::Text(digest::hex_text(public_key_of(s))),
            );
            json::inserted(
                json::removed(keyed, "signature"@),
                "signature"@,
                json::Doc::Text(digest::hex_text(signature_of(s, signed_bytes(keyed)))),
            )
        },
    }
}

/// Why a document cannot be published.
pub open spec fn is_publish_error(d: json::Doc, e: PackageError) -> bool {
    if field_of(d, "id"@).len() == 0 {
        e is NoId
    } else {
        json::integer_member(d, "version"@) is None && e is NoVersion
    }
}

/// Signs a document.
fn sign_doc(doc: Json, key: &SigningKey) -> (r: Json)
    requires
        key.wf(),
    ensures
        r@ == published(doc@, Some(key.seed@)),
        doc@ is Object ==> verdict(r@) is Valid,
{
    let ghost before = doc@;
    let public = ed_public(key.seed.as_slice());
    let public_hex = digest::hex_encode(public.as_slice());
    let keyed = doc.insert("public_key", Json::text(public_hex.as_str()));
    let ghost k = keyed@;
    let (plain, sig) = sign_package_doc(keyed, key);
    let out = plain.insert("signature", Json::text(sig.as_str()));
    proof {
        if before is Object {
            lemma_signed_is_valid(before, key.seed@, public@);
        }
    }
    out
}

proof fn lemma_signed_is_valid(d: json::Doc, seed: Seq<u8>, public: Seq<u8>)
    requires
        d is Object,
        public == public_key_of(seed),
        public.len() == 32,
        key_error(public) is None,
        ({
            let keyed = json::inserted(
                d,
                "public_key"@,
                json::Doc::Text(digest::hex_text(public)),
            );
            let sig = signature_of(seed, signed_bytes(keyed));
            sig.len() == 64 && signature_holds(public, signed_bytes(keyed), sig)
        }),
    ensures
        verdict(published(d, Some(seed))) is Valid,
{
    let keyed = json::inserted(d, "public_key"@, json::Doc::Text(digest::hex_text(public)));
    let sig = signature_of(seed, signed_bytes(keyed));
    let plain = json::removed(keyed, "signature"@);
    let done = json::inserted(plain, "signature"@, json::Doc::Text(digest::hex_text(sig)));
    assert("signature"@ != "public_key"@) by {
        reveal_strlit("signature");
        reveal_strlit("public_key");
        assert("signature"@.len() != "public_key"@.len());
    }
    json::law_put_member_is_found(
        d->Object_0,
        "public_key"@,
        json::Doc::Text(digest::hex_text(public)),
        "signature"@,
    );
    json::law_removed_member_is_gone(keyed->Object_0, "signature"@, "public_key"@);
    json::law_put_member_is_found(
        plain->Object_0,
        "signature"@,
        json::Doc::Text(digest::hex_text(sig)),
        "public_key"@,
    );
    digest::law_hex_round_trip(public);
    digest::law_hex_round_trip(sig);
    assert(json::removed(done, "signature"@) == plain);
    assert(signed_bytes(done) == signed_bytes(keyed));
}

/// Prepares a package for publication: signed where there is a key, with the file
/// that it goes to. What a key signed holds against its own signature.
pub fn publish_package(root: &str, doc: Json, seed_hex: Option<&str>, nonce: &str) -> (r: Result<
    Publication,
    PackageError,
>)
    ensures
        ({
            let t = match seed_hex {
                Some(h) => text::trimmed(h@),
                None => Seq::empty(),
            };
            let seed = match seed_hex {
                Some(_) => Some(digest::hex_bytes(t)),
                None => None,
            };
            let done = published(doc@, seed);
            match r {
                Ok(p) => {
                    &&& p.doc@ == done
                    &&& seed_hex is Some ==> digest::is_hex(t) && verdict(p.doc@) is Valid
                    &&& field_of(done, "id"@).len() > 0
                    &&& json::integer_member(done, "version"@) is Some
                    &&& p.path@ == file_of(
                        root@,
                        field_of(done, "id"@),
                        json::integer_member(done, "version"@)->0,
                    )
                    &&& p.temp@ == p.path@ + "."@ + nonce@ + ".tmp"@
                },
                Err(e) => if seed_hex is Some && !digest::is_hex(t) {
                    e is SeedHex
                } else if seed_hex is Some && t.len() != 64 {
                    e is SeedLength
                } else {
                    is_publish_error(done, e)
                },
            }
        }),
{
    let doc = match seed_hex {
        None => doc,
        Some(h) => match signing_key_from_hex(h) {
            Err(e) => {
                return Err(e);
            },
            Ok(key) => {
                proof {
                    lemma_kind_stays(doc@, Some(key.seed@));
                }
                sign_doc(doc, &key)
            },
        },
    };
    let id = meta_field(&doc, "id");
    if id.as_str().is_empty() {
        return Err(PackageError::NoId);
    }
    let version = match doc.get_integer("version") {
        Some(v) => v,
        None => {
            return Err(PackageError::NoVersion);
        },
    };
    let path = package_path(root, id.as_str(), version);
    let mut temp = text::copy_of(path.as_str());
    temp.append(".");
    temp.append(nonce);
    temp.append(".tmp");
    Ok(Publication { doc, path, temp })
}

proof fn lemma_kind_stays(d: json::Doc, seed: Option<Seq<u8>>)
    ensures
        published(d, seed) is Object == (d is Object),
{
}

/// What the registry's list says of a package.
#[derive(Debug, Clone)]
pub struct RegistryPackageMeta {
    pub id: String,
    pub name: String,
    pub version: i64,
    pub publisher: String,
    pub description: String,
    pub published_at: String,
    pub digest: String,
    pub source_uuid: String,
    pub signed: bool,
    pub signature_valid: bool,
}

/// A file among the packages, and its text, where it could be read.
#[derive(Debug)]
pub struct PackageFile {
    pub name: String,
    pub text: Option<String>,
}

/// A file among the packages, and the document in it, where there is one.
#[derive(Debug)]
pub struct PackageRead {
    pub name: String,
    pub doc: Option<Json>,
}

/// The name of a file and the document in its text.
pub open spec fn seen_in(f: PackageFile) -> (Seq<char>, Option<json::Doc>) {
    (
        f.name@,
        match f.text {
            Some(t) => match json::parsed(t@) {
                Ok(d) => Some(d),
                Err(_) => None,
            },
            None => None,
        },
    )
}

/// The name of a file and the document that was read in it.
pub open spec fn read_in(f: PackageRead) -> (Seq<char>, Option<json::Doc>) {
    (
        f.name@,
        match f.doc {
            Some(j) => Some(j@),
            None => None,
        },
    )
}

/// Whether a file, told by its name and its document, is a package that the list
/// tells of.
pub open spec fn is_listed(f: (Seq<char>, Option<json::Doc>)) -> bool {
    &&& text::finishes_with(f.0, ".json"@)
    &&& f.1 is Some
    &&& json::integer_member(f.1->0, "version"@) is Some
    &&& field_of(f.1->0, "id"@).len() > 0
}

/// Whether `m` is what the list says of a document.
pub open spec fn is_meta_of(d: json::Doc, m: RegistryPackageMeta) -> bool {
    &&& m.id@ == field_of(d, "id"@)
    &&& m.name@ == field_of(d, "name"@)
    &&& json::integer_member(d, "version"@) == Some(m.version)
    &&& m.publisher@ == field_of(d, "publisher"@)
    &&& m.description@ == field_of(d, "description"@)
    &&& m.published_at@ == field_of(d, "published_at"@)
    &&& m.digest@ == field_of(d, "digest"@)
    &&& m.source_uuid@ == field_of(d, "source_uuid"@)
    &&& m.signed == (json::text_member(d, "signature"@) is Some)
    &&& m.signature_valid == (m.signed && verdict(d) is Valid)
}

impl Ranked for RegistryPackageMeta {
    /// The newest version comes first, then what was published last.
    open spec fn may_precede(&self, other: &Self) -> bool {
        if self.version != other.version {
            self.version > other.version
        } else {
            text::lex_le(other.published_at@, self.published_at@)
        }
    }

    fn precedes(&self, other: &Self) -> (r: bool) {
        if self.version != other.version {
            return self.version > other.version;
        }
        let a = text::chars_of(other.published_at.as_str());
        let b = text::chars_of(self.published_at.as_str());
        text::not_after(a.as_slice(), b.as_slice())
    }
}

/// What the list says of a file, if it tells of it.
fn meta_of(f: &PackageRead) -> (r: Option<RegistryPackageMeta>)
    ensures
        match r {
            Some(m) => is_listed(read_in(*f)) && is_meta_of(read_in(*f).1->0, m),
            None => !is_listed(read_in(*f)),
        },
{
    let name = text::chars_of(f.name.as_str());
    let suffix = text::chars_of(".json");
    if !text::ends_with(name.as_slice(), suffix.as_slice()) {
        return None;
    }
    let doc = match &f.doc {
        Some(d) => d,
        None => {
            return None;
        },
    };
    let version = match doc.get_integer("version") {
        Some(v) => v,
        None => {
            return None;
        },
    };
    let id = meta_field(doc, "id");
    if id.as_str().is_empty() {
        return None;
    }
    let signed = package_is_signed(doc);
    let signature_valid = signed && match verify_package_signature(doc) {
        Ok(v) => v,
        Err(_) => false,
    };
    Some(
        RegistryPackageMeta {
            id,
            name: meta_field(doc, "name"),
            version,
            publisher: meta_field(doc, "publisher"),
            description: meta_field(doc, "description"),
            published_at: meta_field(doc, "published_at"),
            digest: meta_field(doc, "digest"),
            source_uuid: meta_field(doc, "source_uuid"),
            signed,
            signature_valid,
        },
    )
}

/// The files that the list tells of.
pub open spec fn listed_files(fs: Seq<(Seq<char>, Option<json::Doc>)>) -> Seq<
    (Seq<char>, Option<json::Doc>),
> {
    fs.filter(|f: (Seq<char>, Option<json::Doc>)| is_listed(f))
}

/// Whether some entries are those for files that are listed, in order.
pub open spec fn are_metas(
    fs: Seq<(Seq<char>, Option<json::Doc>)>,
    ms: Seq<RegistryPackageMeta>,
) -> bool {
    ms.len() == listed_files(fs).len() && forall|i: int|
        0 <= i < ms.len() ==> is_meta_of(listed_files(fs)[i].1->0, #[trigger] ms[i])
}

/// The list of packages, the newest version first. What cannot be read is passed
/// over, so that one bad file never blanks the list.
pub fn list_registry_packages(files: &Vec<PackageFile>) -> (r: Vec<RegistryPackageMeta>)
    ensures
        exists|ms: Seq<RegistryPackageMeta>|
            #![trigger order::sorted(ms)]
            are_metas(files@.map_values(|f: PackageFile| seen_in(f)), ms) && r@ == order::sorted(ms),
{
    let ghost all = files@.map_values(|f: PackageFile| seen_in(f));
    let mut read: Vec<PackageRead> = Vec::new();
    let mut i: usize = 0;
    while i < files.len()
        invariant
            i <= files@.len(),
            all == files@.map_values(|f: PackageFile| seen_in(f)),
            read@.len() == i,
            forall|k: int| 0 <= k < i ==> read_in(#[trigger] read@[k]) == all[k],
        decreases files.len() - i,
    {
        let doc = match &files[i].text {
            Some(t) => match Json::parse(t.as_str()) {
                Ok(j) => Some(j),
                Err(_) => None,
            },
            None => None,
        };
        read.push(PackageRead { name: text::copy_of(files[i].name.as_str()), doc });
        i += 1;
    }
    assert(read@.map_values(|f: PackageRead| read_in(f)) =~= all);
    list_read_packages(&read)
}

/// The list of packages, given the documents in their files, the newest version
/// first.
pub fn list_read_packages(files: &Vec<PackageRead>) -> (r: Vec<RegistryPackageMeta>)
    ensures
        exists|ms: Seq<RegistryPackageMeta>|
            #![trigger order::sorted(ms)]
            are_metas(files@.map_values(|f: PackageRead| read_in(f)), ms) && r@ == order::sorted(ms),
{
    let ghost test = |f: (Seq<char>, Option<json::Doc>)| is_listed(f);
    let ghost all = files@.map_values(|f: PackageRead| read_in(f));
    let mut out: Vec<RegistryPackageMeta> = Vec::new();
    let mut i: usize = 0;
    assert(all.take(0).filter(test) =~= Seq::<(Seq<char>, Option<json::Doc>)>::empty()) by {
        reveal(Seq::filter);
    }
    while i < files.len()
        invariant
            i <= files@.len(),
            all == files@.map_values(|f: PackageRead| read_in(f)),
            test == (|f: (Seq<char>, Option<json::Doc>)| is_listed(f)),
            out@.len() == all.take(i as int).filter(test).len(),
            forall|k: int|
                0 <= k < out@.len() ==> is_meta_of(
                    all.take(i as int).filter(test)[k].1->0,
                    #[trigger] out@[k],
                ),
        decreases files.len() - i,
    {
        proof {
            assert(all.take(i + 1) =~= all.take(i as int).push(all[i as int]));
            all.take(i as int).lemma_filter_push(all[i as int], test);
        }
        if let Some(m) = meta_of(&files[i]) {
            out.push(m);
        }
        i += 1;
    }
    assert(all.take(i as int) =~= all);
    assert(are_metas(all, out@));
    order::sort(out)
}

/// What was found where a package should be.
#[derive(Debug)]
pub enum FoundPackage {
    Missing,
    /// Something that is no JSON.
    Corrupt { reason: String },
    Found { doc: Json },
}

/// Path of a package that is asked for, if its id is one.
pub fn package_to_load(root: &str, id: &str, version: i64) -> (r: Result<String, PackageError>)
    ensures
        match r {
            Ok(p) => valid_id(id@) && p@ == file_of(root@, id@, version),
            Err(e) => !valid_id(id@) && e is InvalidId,
        },
{
    if !valid_package_id(id) {
        return Err(PackageError::InvalidId);
    }
    Ok(package_path(root, id, version))
}

/// Takes a package by the text of its file, where there is one: what is no document
/// is refused, and so is one whose signature does not hold; one without a signature
/// is not.
pub fn load_registry_package(id: &str, version: i64, text: Option<&str>) -> (r: Result<
    Json,
    PackageError,
>)
    ensures
        match text {
            None => r matches Err(PackageError::NotFound { id: i, version: v }) && i@ == id@ && v
                == version,
            Some(t) => match json::parsed(t@) {
                Err(e) => r matches Err(PackageError::Corrupt { id: i, version: v, reason })
                    && i@ == id@ && v == version && reason@ == e,
                Ok(d) => is_admission(d, r),
            },
        },
{
    let found = match text {
        None => FoundPackage::Missing,
        Some(t) => match Json::parse(t) {
            Ok(doc) => FoundPackage::Found { doc },
            Err(reason) => FoundPackage::Corrupt { reason },
        },
    };
    load_found_package(id, version, found)
}

/// Whether a document is admitted, unless it has a signature that does not hold.
pub open spec fn is_admission(d: json::Doc, r: Result<Json, PackageError>) -> bool {
    match r {
        Ok(j) => j@ == d && (json::text_member(d, "signature"@) is None || verdict(d) is Valid),
        Err(e) => is_answer(verdict(d), Err(e)) && json::text_member(d, "signature"@) is Some,
    }
}

/// Takes a package that was found: one whose signature does not hold is refused,
/// one without a signature is not.
pub fn load_found_package(id: &str, version: i64, found: FoundPackage) -> (r: Result<
    Json,
    PackageError,
>)
    ensures
        match found {
            FoundPackage::Missing => r matches Err(PackageError::NotFound { id: i, version: v })
                && i@ == id@ && v == version,
            FoundPackage::Corrupt { reason } => r matches Err(
                PackageError::Corrupt { id: i, version: v, reason: m },
            ) && i@ == id@ && v == version && m@ == reason@,
            FoundPackage::Found { doc } => is_admission(doc@, r),
        },
{
    match found {
        FoundPackage::Missing => Err(PackageError::NotFound { id: text::copy_of(id), version }),
        FoundPackage::Corrupt { reason } => Err(
            PackageError::Corrupt { id: text::copy_of(id), version, reason },
        ),
        FoundPackage::Found { doc } => admit_package(doc),
    }
}

/// Admits what was fetched from elsewhere: a document, unless it has a signature
/// that does not hold.
pub fn admit_fetched(body: &[u8]) -> (r: Result<Json, PackageError>)
    ensures
        match json::parsed_bytes(body@) {
            Err(e) => r matches Err(PackageError::Unreadable { reason }) && reason@ == e,
            Ok(d) => is_admission(d, r),
        },
{
    match Json::parse_bytes(body) {
        Ok(doc) => admit_package(doc),
        Err(reason) => Err(PackageError::Unreadable { reason }),
    }
}

/// Admits a document unless it has a signature that does not hold.
pub fn admit_package(doc: Json) -> (r: Result<Json, PackageError>)
    ensures
        is_admission(doc@, r),
{
    if package_is_signed(&doc) {
        match verify_package_signature(&doc) {
            Err(e) => {
                return Err(e);
            },
            Ok(_) => {},
        }
    }
    Ok(doc)
}

/// Where a local blueprint came from.
#[derive(Debug, Clone)]
pub struct PackageProvenance {
    pub package_id: String,
    pub version: i64,
    pub source_url: Option<String>,
    pub public_key: Option<String>,
    pub signature: Option<String>,
    pub verified: bool,
    pub installed_at: String,
}

/// Whether a text can be a part of a file's name.
pub open spec fn valid_segment(uuid: Seq<char>) -> bool {
    uuid.len() > 0 && !text::mentions(uuid, '/') && !text::holds(uuid, seq!['.', '.'])
}

/// Whether a text can be a part of a file's name.
pub fn valid_uuid_segment(uuid: &str) -> (r: bool)
    ensures
        r == valid_segment(uuid@),
{
    let cs = text::chars_of(uuid);
    let mut dots: Vec<char> = Vec::new();
    dots.push('.');
    dots.push('.');
    assert(dots@ =~= seq!['.', '.']);
    cs.len() > 0 && !text::contains_char(cs.as_slice(), '/') && text::find(
        cs.as_slice(),
        dots.as_slice(),
    ).is_none()
}

/// Path of the record of where a local blueprint came from, if its uuid can be a
/// part of a file's name.
pub fn provenance_path(root: &str, local_uuid: &str) -> (r: Option<String>)
    ensures
        match r {
            Some(p) => valid_segment(local_uuid@) && p@ == paths::joined(
                paths::joined(root@, "provenance"@),
                local_uuid@ + ".json"@,
            ),
            None => !valid_segment(local_uuid@),
        },
{
    if !valid_uuid_segment(local_uuid) {
        return None;
    }
    let dir = paths::join(root, "provenance");
    let mut name = text::copy_of(local_uuid);
    name.append(".json");
    Some(paths::join(dir.as_str(), name.as_str()))
}

/// Most redirects of a fetch.
pub const REGISTRY_FETCH_MAX_REDIRECTS: usize = 5;

/// Why a fetch was stopped.
#[derive(Debug, Clone)]
pub enum FetchError {
    NoLocation,
    UnreadableLocation,
    InvalidRedirect { reason: String },
    Status { status: u16 },
    TooLarge { cap: usize },
    TooManyRedirects { max: usize },
}

/// A fetch of a package under way: `requests` counts those made, `received` the
/// bytes of the body.
#[derive(Debug, Clone)]
pub struct RegistryFetch {
    pub cap: usize,
    pub max_redirects: usize,
    pub requests: usize,
    pub received: usize,
}

impl RegistryFetch {
    /// Requests and bytes within their limits.
    pub open spec fn wf(self) -> bool {
        self.requests <= self.max_redirects + 1 && self.received <= self.cap && self.max_redirects
            < usize::MAX
    }

    /// A fetch of at most `cap` bytes.
    pub fn fetch_registry_package(cap: usize) -> (r: RegistryFetch)
        ensures
            r == (RegistryFetch {
                cap,
                max_redirects: REGISTRY_FETCH_MAX_REDIRECTS,
                requests: 0,
                received: 0,
            }),
            r.wf(),
    {
        RegistryFetch {
            cap,
            max_redirects: REGISTRY_FETCH_MAX_REDIRECTS,
            requests: 0,
            received: 0,
        }
    }

    /// Before a request: refused after too many redirects.
    pub fn request(&mut self) -> (r: Result<(), FetchError>)
        requires
            old(self).wf(),
        ensures
            final(self).wf(),
            match r {
                Ok(_) => old(self).requests <= old(self).max_redirects && *final(self) == (
                RegistryFetch { requests: (old(self).requests + 1) as usize, ..*old(self) }),
                Err(e) => *final(self) == *old(self) && old(self).requests
                    > old(self).max_redirects && e == (FetchError::TooManyRedirects {
                    max: old(self).max_redirects,
                }),
            },
    {
        if self.requests > self.max_redirects {
            return Err(FetchError::TooManyRedirects { max: self.max_redirects });
        }
        self.requests = self.requests + 1;
        Ok(())
    }

    /// Judges a response to a request of `url`.
    pub fn response(&self, url: &str, status: u16, location: &Header) -> (r: Result<
        PullNext,
        FetchError,
    >)
        ensures
            if 300 <= status <= 399 {
                match *location {
                    Header::Missing => r == Err::<PullNext, FetchError>(FetchError::NoLocation),
                    Header::Unreadable => r == Err::<PullNext, FetchError>(
                        FetchError::UnreadableLocation,
                    ),
                    Header::Text(s) => match pull::url_joined(url@, s@) {
                        Ok(u) => r matches Ok(PullNext::Redirect { url: n }) && n@ == u,
                        Err(m) => r matches Err(FetchError::InvalidRedirect { reason }) && reason@
                            == m,
                    },
                }
            } else if 200 <= status <= 299 {
                r matches Ok(PullNext::Body)
            } else {
                r == Err::<PullNext, FetchError>(FetchError::Status { status })
            },
    {
        if status >= 300 && status <= 399 {
            return match location {
                Header::Missing => Err(FetchError::NoLocation),
                Header::Unreadable => Err(FetchError::UnreadableLocation),
                Header::Text(s) => match pull::join_url(url, s.as_str()) {
                    Ok(next) => Ok(PullNext::Redirect { url: next }),
                    Err(reason) => Err(FetchError::InvalidRedirect { reason }),
                },
            };
        }
        if status < 200 || status > 299 {
            return Err(FetchError::Status { status });
        }
        Ok(PullNext::Body)
    }

    /// Takes a piece of the body, before it is kept.
    pub fn chunk(&mut self, len: usize) -> (r: Result<(), FetchError>)
        requires
            old(self).wf(),
        ensures
            final(self).wf(),
            match r {
                Ok(_) => old(self).received + len <= old(self).cap && *final(self) == (
                RegistryFetch { received: (old(self).received + len) as usize, ..*old(self) }),
                Err(e) => *final(self) == *old(self) && old(self).received + len > old(self).cap
                    && e == (FetchError::TooLarge { cap: old(self).cap }),
            },
    {
        if len > self.cap - self.received {
            return Err(FetchError::TooLarge { cap: self.cap });
        }
        self.received = self.received + len;
        Ok(())
    }
}

/// A blueprint that was installed from a package.
#[derive(Debug, Clone)]
pub struct Install {
    pub uuid: String,
    pub package_id: String,
    pub version: i64,
}

/// A record of where a blueprint came from, and the file it is in; none where it
/// could not be read.
#[derive(Debug, Clone)]
pub struct ProvenanceFile {
    pub name: String,
    pub record: Option<PackageProvenance>,
}

/// A name without the suffixes that it ends with.
pub open spec fn without_suffixes(s: Seq<char>, suffix: Seq<char>) -> Seq<char>
    decreases s.len(),
{
    if suffix.len() > 0 && text::finishes_with(s, suffix) {
        without_suffixes(s.take(s.len() - suffix.len()), suffix)
    } else {
        s
    }
}

/// Whether a file tells of an install.
pub open spec fn tells(f: ProvenanceFile) -> bool {
    text::finishes_with(f.name@, ".json"@) && f.record is Some
}

/// The uuid of the blueprint that a file tells of.
pub open spec fn uuid_told(f: ProvenanceFile) -> Seq<char> {
    without_suffixes(f.name@, ".json"@)
}

/// Package and version by the uuids of the blueprints that some files tell of: the
/// last file that tells of one counts.
pub open spec fn installs_told(fs: Seq<ProvenanceFile>) -> Map<Seq<char>, (Seq<char>, i64)>
    decreases fs.len(),
{
    if fs.len() == 0 {
        Map::empty()
    } else {
        let before = installs_told(fs.drop_last());
        let f = fs.last();
        if tells(f) {
            before.insert(uuid_told(f), (f.record->0.package_id@, f.record->0.version))
        } else {
            before
        }
    }
}

/// Whether a list is that of some installs: no uuid occurs twice.
pub open spec fn lists_installs(r: Seq<Install>, m: Map<Seq<char>, (Seq<char>, i64)>) -> bool {
    &&& forall|i: int, j: int|
        0 <= i < j < r.len() ==> (#[trigger] r[i]).uuid@ != (#[trigger] r[j]).uuid@
    &&& forall|i: int|
        0 <= i < r.len() ==> m.contains_key((#[trigger] r[i]).uuid@) && m[r[i].uuid@] == (
            r[i].package_id@,
            r[i].version,
        )
    &&& forall|u: Seq<char>| #[trigger]
        m.contains_key(u) ==> exists|i: int| 0 <= i < r.len() && (#[trigger] r[i]).uuid@ == u
}

/// Puts an install into a list, in place of one of the same uuid.
fn put_install(list: &mut Vec<Install>, e: Install, Ghost(m): Ghost<
    Map<Seq<char>, (Seq<char>, i64)>,
>)
    requires
        lists_installs(old(list)@, m),
    ensures
        lists_installs(final(list)@, m.insert(e.uuid@, (e.package_id@, e.version))),
{
    let ghost before = list@;
    let ghost after = m.insert(e.uuid@, (e.package_id@, e.version));
    let mut i: usize = 0;
    while i < list.len()
        invariant
            i <= list@.len(),
            list@ == before,
            lists_installs(before, m),
            after == m.insert(e.uuid@, (e.package_id@, e.version)),
            forall|k: int| 0 <= k < i ==> (#[trigger] list@[k]).uuid@ != e.uuid@,
        decreases list.len() - i,
    {
        if text::same(list[i].uuid.as_str(), e.uuid.as_str()) {
            list.set(i, e);
            proof {
                assert forall|u: Seq<char>| #[trigger] after.contains_key(u) implies exists|k: int|
                    0 <= k < list@.len() && (#[trigger] list@[k]).uuid@ == u by {
                    if u == e.uuid@ {
                        assert(list@[i as int].uuid@ == u);
                    } else {
                        assert(m.contains_key(u));
                        let k = choose|k: int|
                            0 <= k < before.len() && (#[trigger] before[k]).uuid@ == u;
                        assert(list@[k].uuid@ == u);
                    }
                }
            }
            return ;
        }
        i += 1;
    }
    list.push(e);
    proof {
        assert forall|u: Seq<char>| #[trigger] after.contains_key(u) implies exists|k: int|
            0 <= k < list@.len() && (#[trigger] list@[k]).uuid@ == u by {
            if u == e.uuid@ {
                assert(list@[before.len() as int].uuid@ == u);
            } else {
                assert(m.contains_key(u));
                let k = choose|k: int| 0 <= k < before.len() && (#[trigger] before[k]).uuid@ == u;
                assert(list@[k].uuid@ == u);
            }
        }
    }
}

/// A name without the `.json` that it ends with.
fn trim_json(name: &str) -> (r: String)
    ensures
        r@ == without_suffixes(name@, ".json"@),
{
    let cs = text::chars_of(name);
    let suffix = text::chars_of(".json");
    proof {
        reveal_strlit(".json");
    }
    let mut n: usize = cs.len();
    assert(cs@.take(n as int) =~= cs@);
    loop
        invariant
            n <= cs@.len(),
            suffix@ == ".json"@,
            suffix@.len() == 5,
            without_suffixes(cs@.take(n as int), ".json"@) == without_suffixes(name@, ".json"@),
        ensures
            cs@.take(n as int) == without_suffixes(name@, ".json"@),
            n <= cs@.len(),
        decreases n,
    {
        let head = slice_subrange(cs.as_slice(), 0, n);
        assert(head@ =~= cs@.take(n as int));
        if !text::ends_with(head, suffix.as_slice()) {
            break ;
        }
        assert(head@.take(head@.len() - 5) =~= cs@.take(n - 5));
        n -= 5;
    }
    let r = text::string_of(slice_subrange(cs.as_slice(), 0, n));
    assert(r@ =~= cs@.take(n as int));
    r
}

/// What the records tell of local blueprints that were installed from packages:
/// each blueprint once, by the last file that tells of it.
pub fn local_registry_installs(files: &Vec<ProvenanceFile>) -> (r: Vec<Install>)
    ensures
        lists_installs(r@, installs_told(files@)),
{
    let suffix = text::chars_of(".json");
    let mut out: Vec<Install> = Vec::new();
    let mut i: usize = 0;
    assert(files@.take(0) =~= Seq::<ProvenanceFile>::empty());
    while i < files.len()
        invariant
            i <= files@.len(),
            suffix@ == ".json"@,
            lists_installs(out@, installs_told(files@.take(i as int))),
        decreases files.len() - i,
    {
        let ghost told = installs_told(files@.take(i as int));
        assert(files@.take(i + 1).drop_last() =~= files@.take(i as int));
        let name = text::chars_of(files[i].name.as_str());
        if text::ends_with(name.as_slice(), suffix.as_slice()) {
            if let Some(p) = &files[i].record {
                let e = Install {
                    uuid: trim_json(files[i].name.as_str()),
                    package_id: text::copy_of(p.package_id.as_str()),
                    version: p.version,
                };
                put_install(&mut out, e, Ghost(told));
            }
        }
        i += 1;
    }
    assert(files@.take(i as int) =~= files@);
    out
}

} // verus!
