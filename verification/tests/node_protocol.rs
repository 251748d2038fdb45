//! Tests of the signed protocol between panel and nodes.
use voltpanel::node_protocol::{
    body_hash, canonical, canonical_hash, check_headers, complete_verify, headers_for,
    response_canonical, response_canonical_hash, sign, sign_body_hash, sign_response,
    sign_stream_response, split_response_signature, split_stream_footer, stream_footer, verify,
    verify_pending, verify_response, verify_stream_response, NodeApiResponse, PowerAction,
    ProtocolError, ResponseAuth, SignedHeaders, STREAM_FOOTER_LEN, STREAM_FOOTER_MAGIC,
};

const NODE_A: &str = "11111111-1111-4111-8111-111111111111";

const SNAP_PATH: &str = "/v1/servers/u/snapshot";

/// An envelope as an agent sends it: signed without its signature fields, which
/// are then put at its end.
fn signed_wire(
    secret: &str,
    method: &str,
    path: &str,
    status: u16,
    nonce: &str,
    envelope: &str,
) -> String {
    let sig = sign_response(secret, method, path, status, nonce, envelope.as_bytes(), NODE_A)
        .unwrap();
    format!(
        "{},\"signature\":\"{}\",\"nonce\":\"{}\"}}",
        &envelope[..envelope.len() - 1],
        sig,
        nonce
    )
}

#[test]
fn signature_round_trip_and_tamper_detection() {
    let body = br#"{"action":"start"}"#;
    let signed = sign(
        "secret",
        "POST",
        "/v1/servers/a/power",
        body,
        "11111111-1111-4111-8111-111111111111",
    )
    .unwrap();
    verify(
        "secret",
        "POST",
        "/v1/servers/a/power",
        body,
        &signed,
        signed.timestamp,
    )
    .unwrap();
    assert!(verify(
        "secret",
        "POST",
        "/v1/servers/a/power",
        b"tampered",
        &signed,
        signed.timestamp
    )
    .is_err());
    assert!(verify(
        "secret",
        "POST",
        "/v1/servers/a/power",
        body,
        &signed,
        signed.timestamp + 91
    )
    .is_err());
}

#[test]
fn canonical_string_is_stable_wire_format() {
    let hash = body_hash(b"hi");
    assert_eq!(
        canonical("node-a", "post", "/v1/x", 1234, "n1", b"hi"),
        format!("node-a\nPOST\n/v1/x\n1234\nn1\n{hash}")
    );
    assert_eq!(
        canonical("node-b", "GET", "/v1/y", 0, "", b""),
        format!("node-b\nGET\n/v1/y\n0\n\n{}", body_hash(b""))
    );
}

#[test]
fn signature_binds_the_node_identity() {
    let body = b"{}";
    let signed = sign(
        "secret",
        "POST",
        "/v1/x",
        body,
        "11111111-1111-4111-8111-111111111111",
    )
    .unwrap();
    verify("secret", "POST", "/v1/x", body, &signed, signed.timestamp).unwrap();
    let mut spoofed = signed.clone();
    spoofed.node_id = "22222222-2222-4222-8222-222222222222".into();
    assert!(
        verify("secret", "POST", "/v1/x", body, &spoofed, signed.timestamp).is_err(),
        "a signature minted for one node must not verify for another"
    );
}

#[test]
fn timestamp_skew_check_is_overflow_free() {
    let body = b"x";
    let mut headers = SignedHeaders {
        node_id: "33333333-3333-4333-8333-333333333333".into(),
        timestamp: 0,
        nonce: "n".into(),
        signature: "00".repeat(32),
    };
    headers.timestamp = i64::MIN;
    assert!(verify("s", "GET", "/", body, &headers, 0).is_err());
    headers.timestamp = i64::MAX;
    assert!(verify("s", "GET", "/", body, &headers, 0).is_err());
    headers.timestamp = 0;
    assert!(verify("s", "GET", "/", body, &headers, i64::MAX).is_err());
    assert!(verify("s", "GET", "/", body, &headers, i64::MIN).is_err());
    let signed = sign(
        "s",
        "GET",
        "/",
        body,
        "33333333-3333-4333-8333-333333333333",
    )
    .unwrap();
    assert!(verify("s", "GET", "/", body, &signed, signed.timestamp - 90).is_ok());
    assert!(verify("s", "GET", "/", body, &signed, signed.timestamp + 90).is_ok());
    assert!(verify("s", "GET", "/", body, &signed, signed.timestamp - 91).is_err());
    assert!(verify("s", "GET", "/", body, &signed, signed.timestamp + 91).is_err());
}

#[test]
fn rotated_secret_invalidates_old_hmac() {
    let body = br#"{"a":1}"#;
    let signed = sign(
        "old-secret",
        "POST",
        "/v1/servers/u/power",
        body,
        "44444444-4444-4444-8444-444444444444",
    )
    .unwrap();
    assert!(verify(
        "new-secret",
        "POST",
        "/v1/servers/u/power",
        body,
        &signed,
        signed.timestamp,
    )
    .is_err());
    let resigned = sign(
        "new-secret",
        "POST",
        "/v1/servers/u/power",
        body,
        "44444444-4444-4444-8444-444444444444",
    )
    .unwrap();
    verify(
        "new-secret",
        "POST",
        "/v1/servers/u/power",
        body,
        &resigned,
        resigned.timestamp,
    )
    .unwrap();
}

#[test]
fn response_canonical_string_is_pinned_wire_format() {
    let hash = body_hash(b"hi");
    assert_eq!(
        response_canonical(NODE_A, "post", "/v1/x", 200, "n1", b"hi"),
        format!("{NODE_A}\nPOST\n/v1/x\n200\nn1\n{hash}")
    );
    assert_eq!(
        response_canonical(NODE_A, "GET", "/v1/y", 500, "", b""),
        format!("{NODE_A}\nGET\n/v1/y\n500\n\n{}", body_hash(b""))
    );
}

#[test]
fn unsigned_response_is_reported_unsigned() {
    let wire = r#"{"ok":true,"data":{"status":"ok"},"error":null}"#;
    assert_eq!(
        verify_response(
            "secret",
            "GET",
            "/v1/health",
            200,
            "req-nonce-1",
            wire.as_bytes(),
            NODE_A,
        )
        .unwrap(),
        ResponseAuth::Unsigned
    );
}

#[test]
fn marker_inside_unsigned_payload_is_not_treated_as_signed() {
    let marker = ",\"signature\":\"";
    let plain = r#"{"ok":true,"data":{"status":"ok","signature":"noise"},"error":null}"#;
    assert!(plain.contains(marker), "fixture must contain the marker substring");
    assert_eq!(
        verify_response(
            "secret",
            "GET",
            "/v1/health",
            200,
            "req-nonce-1",
            plain.as_bytes(),
            NODE_A,
        )
        .unwrap(),
        ResponseAuth::Unsigned
    );
    let hex = "ab".repeat(32);
    let nested = format!(
        r#"{{"ok":true,"data":{{"severity":"high","signature":"{hex}","nonce":"req-nonce-1"}},"error":null}}"#
    );
    assert!(nested.contains(marker));
    assert_eq!(
        verify_response(
            "secret",
            "GET",
            "/v1/health",
            200,
            "req-nonce-1",
            nested.as_bytes(),
            NODE_A,
        )
        .unwrap(),
        ResponseAuth::Unsigned
    );
}

#[test]
fn verify_rejects_non_uuid_node_id_before_accepting() {
    let signed = sign("s", "GET", "/v1/x", b"x", "not-a-uuid").unwrap();
    assert!(verify("s", "GET", "/v1/x", b"x", &signed, signed.timestamp).is_err());
}

#[test]
fn stream_footer_round_trip_and_tamper_detection() {
    let archive = b"gzip-archive-bytes";
    let sha = body_hash(archive);
    let sig = sign_stream_response("secret", "GET", SNAP_PATH, 200, "req-nonce", &sha, NODE_A)
        .unwrap();
    let mut wire = archive.to_vec();
    wire.extend_from_slice(&stream_footer(&sig));
    let (got_archive, got_sig) = split_stream_footer(&wire).unwrap();
    assert_eq!(got_archive, archive);
    assert_eq!(got_sig, sig);
    verify_stream_response(
        "secret", "GET", SNAP_PATH, 200, "req-nonce", &sha, got_sig, NODE_A,
    )
    .unwrap();
    let mut tampered = archive.to_vec();
    tampered[5] ^= 0x01;
    assert!(
        verify_stream_response(
            "secret",
            "GET",
            SNAP_PATH,
            200,
            "req-nonce",
            &body_hash(&tampered),
            got_sig,
            NODE_A,
        )
        .is_err(),
        "a modified stream must fail the MAC"
    );
    assert!(
        verify_stream_response(
            "secret", "GET", SNAP_PATH, 200, "other-nonce", &sha, got_sig, NODE_A,
        )
        .is_err(),
        "the streaming signature must bind the request nonce"
    );
    assert!(
        verify_stream_response(
            "secret", "GET", "/v1/other", 200, "req-nonce", &sha, got_sig, NODE_A,
        )
        .is_err()
    );
    assert!(
        verify_stream_response(
            "secret", "GET", SNAP_PATH, 500, "req-nonce", &sha, got_sig, NODE_A,
        )
        .is_err()
    );
}

#[test]
fn stream_footer_is_fixed_length_and_rejects_malformed() {
    let sig = "ab".repeat(32);
    let footer = stream_footer(&sig);
    assert_eq!(footer.len(), STREAM_FOOTER_LEN);
    for cut in [0usize, 1, 10, footer.len() - 1] {
        assert!(
            split_stream_footer(&footer[..cut]).is_err(),
            "a truncated body must be rejected (cut={cut})"
        );
    }
    assert!(split_stream_footer(&stream_footer("zz")).is_err());
    let bad_magic = format!("\nNOTSTREAM\n{sig}\n");
    assert!(split_stream_footer(bad_magic.as_bytes()).is_err());
    let no_trailing = format!("\n{STREAM_FOOTER_MAGIC}\n{sig}");
    assert!(split_stream_footer(no_trailing.as_bytes()).is_err());
}

#[test]
fn response_canonical_hash_matches_envelope_canonical() {
    assert_eq!(
        response_canonical(NODE_A, "GET", SNAP_PATH, 200, "n1", b"hi"),
        response_canonical_hash(NODE_A, "GET", SNAP_PATH, 200, "n1", &body_hash(b"hi"))
    );
    assert_eq!(
        canonical(NODE_A, "post", "/v1/x", 1234, "n1", b"hi"),
        canonical_hash(NODE_A, "post", "/v1/x", 1234, "n1", &body_hash(b"hi"))
    );
}

#[test]
fn sign_body_hash_matches_sign_for_the_same_body() {
    let body = b"the-archive";
    let sha = body_hash(body);
    assert_eq!(
        canonical(NODE_A, "POST", SNAP_PATH, 1234, "fixed-nonce", body),
        canonical_hash(NODE_A, "POST", SNAP_PATH, 1234, "fixed-nonce", &sha),
        "body-hash signing must produce the same canonical string"
    );
    let signed = sign_body_hash("secret", "POST", SNAP_PATH, &sha, NODE_A).unwrap();
    verify("secret", "POST", SNAP_PATH, body, &signed, signed.timestamp).unwrap();
}

#[test]
fn pending_verify_defers_only_the_body_mac() {
    let body = b"the-archive";
    let signed = sign("s", "POST", SNAP_PATH, body, NODE_A).unwrap();
    let pending =
        verify_pending(&signed, signed.timestamp).expect("structural checks must pass");
    assert!(
        verify_pending(&signed, signed.timestamp + 91).is_err(),
        "timestamp skew must be rejected before the body is read"
    );
    complete_verify("s", "POST", SNAP_PATH, &pending, &body_hash(body)).unwrap();
    assert!(
        complete_verify("s", "POST", SNAP_PATH, &pending, &body_hash(b"other")).is_err(),
        "a body different from the one signed must fail the deferred MAC"
    );
    assert!(
        complete_verify("s", "POST", "/v1/other", &pending, &body_hash(body)).is_err(),
        "the deferred MAC must still bind the path"
    );
}

#[test]
fn verify_is_unchanged_when_split_into_pending_and_complete() {
    let body = br#"{"action":"start"}"#;
    let signed = sign("secret", "POST", SNAP_PATH, body, NODE_A).unwrap();
    verify("secret", "POST", SNAP_PATH, body, &signed, signed.timestamp).unwrap();
    assert!(verify("secret", "POST", SNAP_PATH, b"tampered", &signed, signed.timestamp).is_err());
}

#[test]
fn response_signing_round_trip_and_tamper_detection() {
    let envelope = r#"{"ok":true,"data":{"status":"ok"},"error":null}"#;
    let wire = signed_wire("secret", "GET", "/v1/health", 200, "req-nonce-1", envelope);
    assert_eq!(
        verify_response("secret", "GET", "/v1/health", 200, "req-nonce-1", wire.as_bytes(), NODE_A)
            .unwrap(),
        ResponseAuth::Verified
    );
    let forged = wire.replace(r#"{"status":"ok"}"#, r#"{"status":"owned"}"#);
    assert!(
        verify_response("secret", "GET", "/v1/health", 200, "req-nonce-1", forged.as_bytes(), NODE_A)
            .is_err(),
        "a modified response body must be rejected"
    );
    assert!(
        verify_response("secret", "GET", "/v1/health", 200, "other-nonce", wire.as_bytes(), NODE_A)
            .is_err(),
        "the echoed nonce must match the request's nonce"
    );
    assert!(
        verify_response("secret", "GET", "/v1/other", 200, "req-nonce-1", wire.as_bytes(), NODE_A)
            .is_err()
    );
}

#[test]
fn signed_response_whose_payload_contains_the_marker_still_verifies() {
    let envelope = r#"{"ok":true,"data":{"a":1,"signature":"noise"},"error":null}"#;
    let wire = signed_wire("secret", "GET", "/v1/health", 200, "req-nonce-1", envelope);
    assert!(wire.contains(",\"signature\":\"noise\""));
    assert_eq!(
        verify_response("secret", "GET", "/v1/health", 200, "req-nonce-1", wire.as_bytes(), NODE_A)
            .unwrap(),
        ResponseAuth::Verified
    );
}

#[test]
fn body_hash_is_sha256_in_hexadecimal() {
    assert_eq!(
        body_hash(b"abc"),
        "ba7816bf8f01cfea414140de5dae2223b00361a396177a9cb410ff61f20015ad"
    );
}

#[test]
fn signature_is_hmac_sha256_of_the_canonical_text() {
    let h = headers_for("key", "get", "/p", &body_hash(b""), NODE_A, 5, "n".to_string());
    assert_eq!(h.node_id, NODE_A);
    assert_eq!(h.timestamp, 5);
    assert_eq!(h.nonce, "n");
    assert_eq!(h.signature.len(), 64);
    assert!(verify("key", "GET", "/p", b"", &h, 5).is_ok());
    let again = headers_for("key", "GET", "/p", &body_hash(b""), NODE_A, 5, "n".to_string());
    assert_eq!(h.signature, again.signature);
}

#[test]
fn each_refusal_has_its_own_error() {
    let h = headers_for("key", "GET", "/p", &body_hash(b""), NODE_A, 1000, "n".to_string());
    assert_eq!(verify("key", "GET", "/p", b"", &h, 1091).unwrap_err(), ProtocolError::Expired);
    let mut other = h.clone();
    other.node_id = "plainly-not".to_string();
    assert_eq!(verify("key", "GET", "/p", b"", &other, 1000).unwrap_err(), ProtocolError::InvalidNodeId);
    let mut broken = h.clone();
    broken.signature = "xyz".to_string();
    assert_eq!(
        verify("key", "GET", "/p", b"", &broken, 1000).unwrap_err(),
        ProtocolError::InvalidSignatureEncoding
    );
    assert_eq!(
        verify("other", "GET", "/p", b"", &h, 1000).unwrap_err(),
        ProtocolError::SignatureMismatch
    );
    assert_eq!(split_stream_footer(b"short").unwrap_err(), ProtocolError::ShortStream);
    let long = [b'x'; 200];
    assert_eq!(split_stream_footer(&long).unwrap_err(), ProtocolError::MalformedFooter);
    assert!(!ProtocolError::Expired.message().is_empty());
}

#[test]
fn header_check_takes_the_id_verdict_as_given() {
    let h = headers_for("key", "GET", "/p", &body_hash(b""), "any", 10, "n".to_string());
    assert!(check_headers(&h, 10, true).is_ok());
    assert_eq!(check_headers(&h, 10, false).unwrap_err(), ProtocolError::InvalidNodeId);
}

#[test]
fn appended_signature_block_is_split_off() {
    let envelope = r#"{"ok":true,"data":null,"error":null}"#;
    let wire = signed_wire("secret", "GET", "/x", 200, "n-1", envelope);
    let (body, sig) = split_response_signature(wire.as_bytes(), "n-1").unwrap().unwrap();
    assert_eq!(body, envelope.as_bytes());
    assert_eq!(sig.len(), 64);
    assert!(split_response_signature(envelope.as_bytes(), "n-1").unwrap().is_none());
}

#[test]
fn malformed_tail_signature_is_refused() {
    let raw = br#"{"ok":true,"data":null,"error":null,"signature":"zz","nonce":"n1"}"#;
    let err = verify_response("secret", "GET", "/v1/health", 200, "n1", raw, NODE_A).unwrap_err();
    assert_eq!(err, ProtocolError::MisaddressedSignature);
}

#[test]
fn fresh_nonces_differ() {
    let a = sign("s", "GET", "/", b"", NODE_A).unwrap();
    let b = sign("s", "GET", "/", b"", NODE_A).unwrap();
    assert_ne!(a.nonce, b.nonce);
    assert!(a.timestamp > 1_600_000_000);
}

#[test]
fn envelopes_carry_data_or_an_error() {
    let good = NodeApiResponse::success(7);
    assert!(good.ok && good.data == Some(7) && good.error.is_none());
    let bad: NodeApiResponse<i32> = NodeApiResponse::failure("no".to_string());
    assert!(!bad.ok && bad.data.is_none() && bad.error.as_deref() == Some("no"));
    assert!(bad.signature.is_none() && bad.nonce.is_none());
}

#[test]
fn power_actions_have_stable_names() {
    assert_eq!(PowerAction::Start.as_str(), "start");
    assert_eq!(PowerAction::Stop.as_str(), "stop");
    assert_eq!(PowerAction::Restart.as_str(), "restart");
    assert_eq!(PowerAction::Kill.as_str(), "kill");
}
