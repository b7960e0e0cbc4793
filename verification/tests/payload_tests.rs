//! The signed-payload pipeline and checksum checking.

use hexpm::{read_and_check_body, verify_signed_payload, ApiError};
use std::io::Write;

/// An RSA-2048 public key whose private half signed the test payload.
const PUBLIC_KEY_PEM: &str = "-----BEGIN PUBLIC KEY-----\nMIIBIjANBgkqhkiG9w0BAQEFAAOCAQ8AMIIBCgKCAQEAlBV2Rj4XIDzqpXQqfecH\nW3wmGcq26QyVs5hohTD+AyXbnp9n46D+xtjEXWzt5pzCcwdU+rOyTFnawV3CI7re\n+CwoZKxQ5RUc9tHoxggeyD0Bw7xWLh/ifc5fSl1hpAcSYP6JNOsev3AZpCcQYYbA\n2Ds16b/ZeBrO9qnPwYdgGXryl6P8dYMeZptL2QEmZoOxIVRrri4SeogI8AM6lpDO\nUPzYPVfPmc+q6J3CXHvzCy/siknpR2p/tWD+cOm5akp35X+QBTBBWHlVzkuntK9K\nbfNU1Id35i/aE5AWBTq4pEWgq041bRm/Fl4DZfXcCAjy5bT9rJ147nfjgGzMINPk\nwwIDAQAB\n-----END PUBLIC KEY-----\n";

const PAYLOAD: &[u8] = b"test payload bytes for the registry";

/// RSA PKCS#1 v1.5 signature over the SHA-512 digest of PAYLOAD.
const SIGNATURE_HEX: &str = "07c7053320c5a896c43c30a96e0d2d9bbe64ae3e3afb1913d4be39d73d730e78826edfb2bd85685f8896118a61471923d1a3881973f5dcd15eba9b7cd69c0eb13375220ab3e79c32ac22b7f4bc13adf50097a6c6e5e834192cc9f603b91cf6a46b407a093978770109213f895e3bd1fcab3cf50153aa3a4f5f4029d6f4c8171c2f888a944155f570b8610d55b653af4a4d4f399ef4871bcf7e3144bc7784beda66e57f40b858fe9d87367e0d7523d24d3582e6082a99626e33cb5b67788ddfd604689135bf6173c5a648c4ca1942db80443fe92da7d03b4d57bf52faed56b94090a5862f72218b19e5633dc915b634bdd9472e3c5f7bed87d326384757c8a4d9";

fn varint(mut n: usize, out: &mut Vec<u8>) {
    loop {
        let b = (n & 0x7f) as u8;
        n >>= 7;
        if n == 0 {
            out.push(b);
            return;
        }
        out.push(b | 0x80);
    }
}

fn envelope(payload: &[u8], signature: &[u8]) -> Vec<u8> {
    let mut out = Vec::new();
    out.push(0x0a);
    varint(payload.len(), &mut out);
    out.extend_from_slice(payload);
    out.push(0x12);
    varint(signature.len(), &mut out);
    out.extend_from_slice(signature);
    out
}

fn gzip(data: &[u8]) -> Vec<u8> {
    let mut encoder = flate2::write::GzEncoder::new(Vec::new(), flate2::Compression::default());
    encoder.write_all(data).unwrap();
    encoder.finish().unwrap()
}

fn signed_body() -> Vec<u8> {
    let signature = base16::decode(SIGNATURE_HEX).unwrap();
    gzip(&envelope(PAYLOAD, &signature))
}

#[test]
fn correctly_signed_payload_is_returned_verbatim() {
    let body = signed_body();
    let pem = PUBLIC_KEY_PEM.as_bytes().to_vec();
    let got = verify_signed_payload(&body, &pem).unwrap();
    assert_eq!(got, PAYLOAD);
}

#[test]
fn flipping_payload_bits_fails_the_signature() {
    let signature = base16::decode(SIGNATURE_HEX).unwrap();
    let pem = PUBLIC_KEY_PEM.as_bytes().to_vec();
    for bit in [0usize, 7, 100] {
        let mut tampered = PAYLOAD.to_vec();
        tampered[bit / 8] ^= 1 << (bit % 8);
        let body = gzip(&envelope(&tampered, &signature));
        match verify_signed_payload(&body, &pem) {
            Err(ApiError::IncorrectPayloadSignature) => {}
            other => panic!("expected a signature failure, got {:?}", other),
        }
    }
}

#[test]
fn flipping_signature_bits_fails_the_signature() {
    let pem = PUBLIC_KEY_PEM.as_bytes().to_vec();
    for bit in [0usize, 9, 2047] {
        let mut signature = base16::decode(SIGNATURE_HEX).unwrap();
        signature[bit / 8] ^= 1 << (bit % 8);
        let body = gzip(&envelope(PAYLOAD, &signature));
        match verify_signed_payload(&body, &pem) {
            Err(ApiError::IncorrectPayloadSignature) => {}
            other => panic!("expected a signature failure, got {:?}", other),
        }
    }
}

#[test]
fn envelope_fields_may_come_in_any_order() {
    let signature = base16::decode(SIGNATURE_HEX).unwrap();
    let pem = PUBLIC_KEY_PEM.as_bytes().to_vec();
    // Signature field first, payload second.
    let mut reordered = Vec::new();
    reordered.push(0x12);
    varint(signature.len(), &mut reordered);
    reordered.extend_from_slice(&signature);
    reordered.push(0x0a);
    varint(PAYLOAD.len(), &mut reordered);
    reordered.extend_from_slice(PAYLOAD);
    let got = verify_signed_payload(&gzip(&reordered), &pem).unwrap();
    assert_eq!(got, PAYLOAD);
}

#[test]
fn unknown_envelope_fields_are_skipped() {
    let signature = base16::decode(SIGNATURE_HEX).unwrap();
    let pem = PUBLIC_KEY_PEM.as_bytes().to_vec();
    let mut with_extra = Vec::new();
    // Field 3, varint wire type: skipped.
    with_extra.push(0x18);
    with_extra.push(0x2a);
    // Field 4, varint wire type, a full 64-bit value: also skipped.
    with_extra.push(0x20);
    with_extra.extend_from_slice(&[0xff, 0xff, 0xff, 0xff, 0xff, 0xff, 0xff, 0xff, 0xff, 0x01]);
    with_extra.extend_from_slice(&envelope(PAYLOAD, &signature));
    let got = verify_signed_payload(&gzip(&with_extra), &pem).unwrap();
    assert_eq!(got, PAYLOAD);
}

#[test]
fn non_minimal_varint_encodings_are_accepted() {
    let signature = base16::decode(SIGNATURE_HEX).unwrap();
    let pem = PUBLIC_KEY_PEM.as_bytes().to_vec();
    let mut body = Vec::new();
    // The payload tag (10) written in three bytes instead of one.
    body.extend_from_slice(&[0x8a, 0x80, 0x00]);
    varint(PAYLOAD.len(), &mut body);
    body.extend_from_slice(PAYLOAD);
    body.push(0x12);
    varint(signature.len(), &mut body);
    body.extend_from_slice(&signature);
    let got = verify_signed_payload(&gzip(&body), &pem).unwrap();
    assert_eq!(got, PAYLOAD);
}

#[test]
fn oversized_varints_are_rejected() {
    let pem = PUBLIC_KEY_PEM.as_bytes().to_vec();
    // A varint that never terminates within ten bytes.
    let unterminated = gzip(&[0x80; 11]);
    assert!(verify_signed_payload(&unterminated, &pem).is_err());
    // A skipped varint holding more than 64 bits.
    let mut too_wide = vec![0x20u8];
    too_wide.extend_from_slice(&[0xff, 0xff, 0xff, 0xff, 0xff, 0xff, 0xff, 0xff, 0xff, 0x02]);
    assert!(verify_signed_payload(&gzip(&too_wide), &pem).is_err());
}

#[test]
fn garbage_bodies_are_rejected() {
    let pem = PUBLIC_KEY_PEM.as_bytes().to_vec();
    let not_gzip = vec![1u8, 2, 3];
    assert!(verify_signed_payload(&not_gzip, &pem).is_err());
    let not_protobuf = gzip(&[0xffu8, 0xff, 0xff]);
    assert!(verify_signed_payload(&not_protobuf, &pem).is_err());
}

#[test]
fn bad_pem_is_rejected() {
    let body = signed_body();
    let pem = b"not a pem".to_vec();
    match verify_signed_payload(&body, &pem) {
        Err(ApiError::IncorrectPayloadSignature) => {}
        other => panic!("expected a signature failure, got {:?}", other),
    }
}

#[test]
fn matching_checksum_returns_the_body() {
    let body = b"hello tarball".to_vec();
    let checksum =
        base16::decode("497951f4b3b69f43be3d0622217da228c77f3125a1e20b397724de4ec61ea4fb")
            .unwrap();
    let got = read_and_check_body(&body, &checksum).unwrap();
    assert_eq!(got, body);
}

#[test]
fn wrong_checksum_is_rejected() {
    let body = b"hello tarball".to_vec();
    let mut checksum =
        base16::decode("497951f4b3b69f43be3d0622217da228c77f3125a1e20b397724de4ec61ea4fb")
            .unwrap();
    checksum[0] ^= 1;
    match read_and_check_body(&body, &checksum) {
        Err(ApiError::IncorrectChecksum) => {}
        other => panic!("expected a checksum failure, got {:?}", other),
    }
    let truncated = checksum[..31].to_vec();
    match read_and_check_body(&body, &truncated) {
        Err(ApiError::IncorrectChecksum) => {}
        other => panic!("expected a checksum failure, got {:?}", other),
    }
}
