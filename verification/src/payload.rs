//! Verification of signed repository payloads: decompress, decode the
//! signature envelope, check the RSA signature, and check tarball
//! checksums.
//!
//! The envelope is a two-field length-delimited message
//! `{ payload = 1, signature = 2 }` in protobuf wire format; its decoder
//! is verified here. Compression and cryptography come from outside
//! crates through trusted wrappers.

use vstd::prelude::*;

use std::io::Read;
use x509_parser::prelude::FromDer;

use crate::api::ApiError;
use crate::proto::signed::Signed;

verus! {

// ---------------------------------------------------------------------------
// Trusted wrappers around compression and cryptography.
// ---------------------------------------------------------------------------

/// What gzip decompression yields on the given bytes, if anything: a
/// function of the input alone.
pub uninterp spec fn gunzip_of(data: Seq<u8>) -> Option<Seq<u8>>;

/// Relies on flate2's GzDecoder: decompression is a function of the input
/// bytes, and `read_to_end` returns all of it or fails.
#[verifier::external_body]
fn gunzip(data: &Vec<u8>) -> (r: Result<Vec<u8>, ()>)
    ensures
        match r {
            Result::Ok(out) => gunzip_of(data@) == Option::Some(out@),
            Result::Err(()) => gunzip_of(data@) is None,
        },
{
    let mut decoder = flate2::read::GzDecoder::new(data.as_slice());
    let mut out = Vec::new();
    match decoder.read_to_end(&mut out) {
        Ok(_) => Ok(out),
        Err(_) => Err(()),
    }
}

/// The SHA-256 digest of the given bytes.
pub uninterp spec fn sha256_of(data: Seq<u8>) -> Seq<u8>;

/// Relies on ring's digest with the SHA-256 algorithm: the digest is a
/// function of the input bytes.
#[verifier::external_body]
fn sha256(data: &Vec<u8>) -> (r: Vec<u8>)
    ensures
        r@ == sha256_of(data@),
{
    ring::digest::digest(&ring::digest::SHA256, data.as_slice()).as_ref().to_vec()
}

/// The DER contents of the first PEM block of the given bytes, if any.
pub uninterp spec fn pem_contents_of(data: Seq<u8>) -> Option<Seq<u8>>;

/// Relies on x509-parser's parse_x509_pem: the decoded block is a
/// function of the input bytes.
#[verifier::external_body]
fn pem_to_der(data: &Vec<u8>) -> (r: Result<Vec<u8>, ()>)
    ensures
        match r {
            Result::Ok(out) => pem_contents_of(data@) == Option::Some(out@),
            Result::Err(()) => pem_contents_of(data@) is None,
        },
{
    match x509_parser::pem::parse_x509_pem(data.as_slice()) {
        Ok((_, pem)) => Ok(pem.contents),
        Err(_) => Err(()),
    }
}

/// The subject public key bits of a DER SubjectPublicKeyInfo, if the DER
/// parses.
pub uninterp spec fn spki_key_of(der: Seq<u8>) -> Option<Seq<u8>>;

/// Relies on x509-parser's SubjectPublicKeyInfo::from_der: the extracted
/// key bits are a function of the input bytes.
#[verifier::external_body]
fn der_to_public_key(der: &Vec<u8>) -> (r: Result<Vec<u8>, ()>)
    ensures
        match r {
            Result::Ok(out) => spki_key_of(der@) == Option::Some(out@),
            Result::Err(()) => spki_key_of(der@) is None,
        },
{
    match x509_parser::prelude::SubjectPublicKeyInfo::from_der(der.as_slice()) {
        Ok((_, spki)) => Ok(spki.subject_public_key.data.to_vec()),
        Err(_) => Err(()),
    }
}

/// Whether `signature` is a valid RSA PKCS#1 v1.5 signature over the
/// SHA-512 digest of `message` under the given public key: a function of
/// the three inputs.
pub uninterp spec fn rsa_pkcs1_sha512_ok(key: Seq<u8>, message: Seq<u8>, signature: Seq<u8>) -> bool;

/// Relies on ring's UnparsedPublicKey::verify with the
/// RSA_PKCS1_2048_8192_SHA512 algorithm: verification is a function of
/// key, message and signature.
#[verifier::external_body]
fn rsa_verify(key: &Vec<u8>, message: &Vec<u8>, signature: &Vec<u8>) -> (r: bool)
    ensures
        r == rsa_pkcs1_sha512_ok(key@, message@, signature@),
{
    ring::signature::UnparsedPublicKey::new(
        &ring::signature::RSA_PKCS1_2048_8192_SHA512,
        key.as_slice(),
    ).verify(message.as_slice(), signature.as_slice()).is_ok()
}

// ---------------------------------------------------------------------------
// The signature envelope, in protobuf wire format.
// ---------------------------------------------------------------------------

/// A varint read at `i`, at most `fuel` bytes long: its raw value (a
/// plain number; whether it fits a width is for the caller to say) and
/// where it ends. `None` when no byte within the fuel ends the varint.
pub open spec fn small_varint(s: Seq<u8>, i: int, fuel: int) -> Option<(int, int)>
    decreases fuel,
{
    if fuel <= 0 || i < 0 || i >= s.len() {
        Option::None
    } else if s[i] < 128 {
        Option::Some((s[i] as int, i + 1))
    } else {
        match small_varint(s, i + 1, fuel - 1) {
            Option::None => Option::None,
            Option::Some((v, e)) => Option::Some((s[i] - 128 + 128 * v, e)),
        }
    }
}

/// A varint value never goes below zero.
proof fn lemma_small_varint_nonneg(s: Seq<u8>, i: int, fuel: int)
    ensures
        small_varint(s, i, fuel) matches Some(p) ==> p.0 >= 0,
    decreases fuel,
{
    if fuel > 0 && 0 <= i < s.len() && s[i] >= 128 {
        lemma_small_varint_nonneg(s, i + 1, fuel - 1);
    }
}

/// The position scanning continues at; in every well-formed input this is
/// exactly `e`.
pub open spec fn wire_next(s: Seq<u8>, i: int, e: int) -> int {
    if i < e <= s.len() {
        e
    } else {
        s.len() as int
    }
}

/// The payload and signature fields of the envelope, read from `i` on:
/// length-delimited fields one and two, where the last occurrence wins
/// and fields of other numbers are skipped. `None` on malformed input:
/// a varint without a terminator within ten bytes or holding more than
/// 64 bits, a length beyond the remaining input, a truncated fixed-width
/// field, or one of the retired group wire types, which this decoder
/// rejects rather than skips.
pub open spec fn envelope_fields(
    s: Seq<u8>,
    i: int,
    payload: Seq<u8>,
    signature: Seq<u8>,
) -> Option<(Seq<u8>, Seq<u8>)>
    decreases s.len() - i,
{
    if i < 0 || i > s.len() {
        Option::None
    } else if i == s.len() {
        Option::Some((payload, signature))
    } else {
        match small_varint(s, i, 10) {
            Option::None => Option::None,
            Option::Some((tag, j)) => {
                if tag >= 0x10000000000000000 {
                    Option::None
                } else {
                let wire = tag % 8;
                let field = tag / 8;
                if wire == 2 {
                    match small_varint(s, j, 10) {
                        Option::None => Option::None,
                        Option::Some((len, k)) => {
                            if len > s.len() - k {
                                Option::None
                            } else {
                                let data = s.subrange(k, k + len);
                                if field == 1 {
                                    envelope_fields(s, wire_next(s, i, k + len), data, signature)
                                } else if field == 2 {
                                    envelope_fields(s, wire_next(s, i, k + len), payload, data)
                                } else {
                                    envelope_fields(s, wire_next(s, i, k + len), payload, signature)
                                }
                            }
                        },
                    }
                } else if wire == 0 {
                    match small_varint(s, j, 10) {
                        Option::None => Option::None,
                        Option::Some((v, e)) => {
                            if v >= 0x10000000000000000 {
                                Option::None
                            } else {
                                envelope_fields(s, wire_next(s, i, e), payload, signature)
                            }
                        },
                    }
                } else if wire == 1 {
                    if j + 8 <= s.len() {
                        envelope_fields(s, wire_next(s, i, j + 8), payload, signature)
                    } else {
                        Option::None
                    }
                } else if wire == 5 {
                    if j + 4 <= s.len() {
                        envelope_fields(s, wire_next(s, i, j + 4), payload, signature)
                    } else {
                        Option::None
                    }
                } else {
                    Option::None
                }
                }
            },
        }
    }
}

/// What decoding the whole envelope yields: both fields default to empty.
pub open spec fn envelope_of(s: Seq<u8>) -> Option<(Seq<u8>, Seq<u8>)> {
    envelope_fields(s, 0, Seq::empty(), Seq::empty())
}

/// Read a varint of at most ten bytes: where it ends, and its value when
/// it fits in 64 bits (`None` in that slot when it does not).
fn read_varint(s: &Vec<u8>, i: usize) -> (r: Option<(Option<u64>, usize)>)
    requires
        i <= s@.len(),
    ensures
        match r {
            Option::Some((ov, e)) => small_varint(s@, i as int, 10) matches Some(p) && p.1 == e
                && i < e <= s@.len() && (ov matches Some(v) ==> p.0 == v) && (ov is None ==> p.0
                >= 0x10000000000000000),
            Option::None => small_varint(s@, i as int, 10) is None,
        },
{
    read_varint_rec(s, i, 10)
}

fn read_varint_rec(s: &Vec<u8>, i: usize, fuel: u8) -> (r: Option<(Option<u64>, usize)>)
    requires
        i <= s@.len(),
        fuel <= 10,
    ensures
        match r {
            Option::Some((ov, e)) => small_varint(s@, i as int, fuel as int) matches Some(p)
                && p.1 == e && i < e <= s@.len() && (ov matches Some(v) ==> p.0 == v) && (
            ov is None ==> p.0 >= 0x10000000000000000),
            Option::None => small_varint(s@, i as int, fuel as int) is None,
        },
    decreases fuel,
{
    if fuel == 0 || i >= s.len() {
        return None;
    }
    let b = s[i];
    if b < 128 {
        return Some((Some(b as u64), i + 1));
    }
    match read_varint_rec(s, i + 1, fuel - 1) {
        Option::None => None,
        Option::Some((ov, e)) => {
            let low = (b - 128) as u64;
            let ghost inner = small_varint(s@, i + 1, fuel - 1)->Some_0.0;
            proof {
                lemma_small_varint_nonneg(s@, i + 1, fuel - 1);
            }
            let val = match ov {
                Option::Some(v) => {
                    if v <= (0xffffffffffffffffu64 - low) / 128 {
                        proof {
                            vstd::arithmetic::div_mod::lemma_fundamental_div_mod(
                                0xffffffffffffffff - low,
                                128,
                            );
                        }
                        Option::Some(low + 128 * v)
                    } else {
                        proof {
                            vstd::arithmetic::div_mod::lemma_fundamental_div_mod(
                                0xffffffffffffffff - low,
                                128,
                            );
                            assert(128 * inner >= 128 * (((0xffffffffffffffff - low) as int) / 128
                                + 1));
                        }
                        Option::None
                    }
                },
                Option::None => {
                    proof {
                        assert(128 * inner >= inner) by (nonlinear_arith)
                            requires
                                inner >= 0,
                        ;
                    }
                    Option::None
                },
            };
            Some((val, e))
        },
    }
}

/// Decode the signature envelope: its payload and signature fields.
pub fn decode_envelope(s: &Vec<u8>) -> (r: Result<Signed, ApiError>)
    ensures
        match r {
            Result::Ok(signed) => envelope_of(s@) == Option::Some(
                (signed.payload@, signed.signature@),
            ),
            Result::Err(e) => envelope_of(s@) is None && e is InvalidProtobuf,
        },
{
    let n = s.len();
    let mut payload: Vec<u8> = Vec::new();
    let mut signature: Vec<u8> = Vec::new();
    let mut i: usize = 0;
    loop
        invariant
            0 <= i <= n,
            n == s@.len(),
            envelope_of(s@) == envelope_fields(s@, i as int, payload@, signature@),
        decreases n - i,
    {
        if i == n {
            return Result::Ok(Signed { payload, signature });
        }
        let (tag, j) = match read_varint(s, i) {
            Option::Some((Option::Some(v), e)) => (v, e),
            Option::Some((Option::None, _)) => {
                return Result::Err(ApiError::InvalidProtobuf(protobuf_error_message()));
            },
            Option::None => {
                return Result::Err(ApiError::InvalidProtobuf(protobuf_error_message()));
            },
        };
        let wire = tag % 8;
        let field = tag / 8;
        if wire == 2 {
            let (len, k) = match read_varint(s, j) {
                Option::Some((Option::Some(v), e)) => (v, e),
                Option::Some((Option::None, e)) => {
                    // A length of 64 bits or more cannot fit the input.
                    return Result::Err(ApiError::InvalidProtobuf(protobuf_error_message()));
                },
                Option::None => {
                    return Result::Err(ApiError::InvalidProtobuf(protobuf_error_message()));
                },
            };
            if len > (n - k) as u64 {
                return Result::Err(ApiError::InvalidProtobuf(protobuf_error_message()));
            }
            let len_usize = len as usize;
            let end = k + len_usize;
            let data = copy_range(s, k, end);
            if field == 1 {
                payload = data;
            } else if field == 2 {
                signature = data;
            }
            assert(wire_next(s@, i as int, end as int) == end);
            i = end;
        } else if wire == 0 {
            let e = match read_varint(s, j) {
                Option::Some((Option::Some(_), e)) => e,
                Option::Some((Option::None, _)) => {
                    return Result::Err(ApiError::InvalidProtobuf(protobuf_error_message()));
                },
                Option::None => {
                    return Result::Err(ApiError::InvalidProtobuf(protobuf_error_message()));
                },
            };
            assert(wire_next(s@, i as int, e as int) == e);
            i = e;
        } else if wire == 1 {
            if n - j < 8 {
                return Result::Err(ApiError::InvalidProtobuf(protobuf_error_message()));
            }
            assert(wire_next(s@, i as int, j + 8) == j + 8);
            i = j + 8;
        } else if wire == 5 {
            if n - j < 4 {
                return Result::Err(ApiError::InvalidProtobuf(protobuf_error_message()));
            }
            assert(wire_next(s@, i as int, j + 4) == j + 4);
            i = j + 4;
        } else {
            return Result::Err(ApiError::InvalidProtobuf(protobuf_error_message()));
        }
    }
}

fn protobuf_error_message() -> (r: String) {
    let mut s = String::new();
    s.append("failed to decode the signed envelope");
    s
}

/// Copy the bytes at `[from, to)`.
fn copy_range(s: &Vec<u8>, from: usize, to: usize) -> (r: Vec<u8>)
    requires
        from <= to <= s@.len(),
    ensures
        r@ == s@.subrange(from as int, to as int),
{
    let mut out: Vec<u8> = Vec::new();
    let mut i: usize = from;
    while i < to
        invariant
            from <= i <= to <= s@.len(),
            out@ =~= s@.subrange(from as int, i as int),
        decreases to - i,
    {
        out.push(s[i]);
        assert(out@ =~= s@.subrange(from as int, i + 1));
        i = i + 1;
    }
    out
}

// ---------------------------------------------------------------------------
// The verification pipeline.
// ---------------------------------------------------------------------------

/// Whether the key of the given PEM vouches for the signature over the
/// payload: the PEM parses, its contents hold a subject public key, and
/// the RSA check passes.
pub open spec fn key_vouches(pem: Seq<u8>, payload: Seq<u8>, signature: Seq<u8>) -> bool {
    match pem_contents_of(pem) {
        Option::None => false,
        Option::Some(der) => match spki_key_of(der) {
            Option::None => false,
            Option::Some(key) => rsa_pkcs1_sha512_ok(key, payload, signature),
        },
    }
}

/// Whether a body decompresses to an envelope whose payload is genuinely
/// signed under the public key of the given PEM.
pub open spec fn signed_payload_of(body: Seq<u8>, pem: Seq<u8>) -> Option<Seq<u8>> {
    match gunzip_of(body) {
        Option::None => Option::None,
        Option::Some(inner) => match envelope_of(inner) {
            Option::None => Option::None,
            Option::Some((payload, signature)) => if key_vouches(pem, payload, signature) {
                Option::Some(payload)
            } else {
                Option::None
            },
        },
    }
}

/// Run the verification pipeline on a downloaded body: decompress it,
/// decode the envelope, and check the signature under the given PEM
/// public key. On success the envelope's payload comes back verbatim; on
/// any mismatch the payload is withheld.
pub fn verify_signed_payload(body: &Vec<u8>, pem_public_key: &Vec<u8>) -> (r: Result<
    Vec<u8>,
    ApiError,
>)
    ensures
        r matches Ok(p) ==> signed_payload_of(body@, pem_public_key@) == Option::Some(p@),
        r is Ok <==> signed_payload_of(body@, pem_public_key@) is Some,
        r matches Err(e) ==> match e {
            ApiError::Io(_) => gunzip_of(body@) is None,
            ApiError::InvalidProtobuf(_) => gunzip_of(body@) matches Some(inner) && envelope_of(
                inner,
            ) is None,
            ApiError::IncorrectPayloadSignature => gunzip_of(body@) matches Some(inner)
                && envelope_of(inner) matches Some(fields) && !key_vouches(
                pem_public_key@,
                fields.0,
                fields.1,
            ),
            _ => false,
        },
{
    let inner = match gunzip(body) {
        Result::Ok(x) => x,
        Result::Err(()) => {
            let mut m = String::new();
            m.append("failed to decompress the payload");
            return Result::Err(ApiError::Io(m));
        },
    };
    let signed = match decode_envelope(&inner) {
        Result::Ok(x) => x,
        Result::Err(e) => {
            return Result::Err(e);
        },
    };
    let payload = signed.payload;
    let signature = signed.signature;
    let der = match pem_to_der(pem_public_key) {
        Result::Ok(x) => x,
        Result::Err(()) => {
            return Result::Err(ApiError::IncorrectPayloadSignature);
        },
    };
    let key = match der_to_public_key(&der) {
        Result::Ok(x) => x,
        Result::Err(()) => {
            return Result::Err(ApiError::IncorrectPayloadSignature);
        },
    };
    if rsa_verify(&key, &payload, &signature) {
        Result::Ok(payload)
    } else {
        Result::Err(ApiError::IncorrectPayloadSignature)
    }
}

/// Check that a body has the given SHA-256 digest; hand the body back
/// unchanged when it does, and report a checksum mismatch when it does
/// not.
pub fn read_and_check_body(body: &Vec<u8>, checksum: &Vec<u8>) -> (r: Result<Vec<u8>, ApiError>)
    ensures
        r is Ok <==> sha256_of(body@) == checksum@,
        r matches Ok(b) ==> b@ == body@,
        r matches Err(e) ==> e is IncorrectChecksum,
{
    let digest = sha256(body);
    if digest.len() != checksum.len() {
        proof {
            assert(digest@ != checksum@);
        }
        return Result::Err(ApiError::IncorrectChecksum);
    }
    let mut i: usize = 0;
    while i < digest.len()
        invariant
            0 <= i <= digest@.len(),
            digest@.len() == checksum@.len(),
            digest@ == sha256_of(body@),
            forall|j: int| 0 <= j < i ==> digest@[j] == checksum@[j],
        decreases digest@.len() - i,
    {
        if digest[i] != checksum[i] {
            proof {
                assert(digest@ != checksum@);
            }
            return Result::Err(ApiError::IncorrectChecksum);
        }
        i = i + 1;
    }
    assert(digest@ =~= checksum@);
    Result::Ok(copy_range(body, 0, body.len()))
}

} // verus!
