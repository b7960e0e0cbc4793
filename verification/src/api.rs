//! The error taxonomy of the registry API, identifier validation, and the
//! translation of HTTP status codes into that taxonomy. Building and
//! sending the requests themselves is left to the caller; only the
//! decisions live here.

use vstd::prelude::*;

verus! {

/// Everything that can go wrong talking to the registry. Failures of
/// outside machinery (JSON, I/O, protobuf) carry a printable message.
#[derive(Debug)]
pub enum ApiError {
    /// A response body could not be read as the expected JSON.
    Json(String),
    /// Reading or decompressing a body failed.
    Io(String),
    /// The rate limit for the API has been exceeded for this address.
    RateLimited,
    /// Invalid username and password combination.
    InvalidCredentials,
    /// A response with a status code no branch expects; carries the
    /// status and the body as text.
    UnexpectedResponse(u16, String),
    /// The given package name is not valid.
    InvalidPackageNameFormat(String),
    /// The payload signature does not match the downloaded payload.
    IncorrectPayloadSignature,
    /// A protobuf payload could not be decoded.
    InvalidProtobuf(String),
    /// A version string in an unexpected format.
    InvalidVersionFormat(String),
    /// The resource was not found.
    NotFound,
    /// A version requirement string in an unexpected format.
    InvalidVersionRequirementFormat(String),
    /// Downloaded data did not have the expected checksum.
    IncorrectChecksum,
    /// The given API key was not valid.
    InvalidApiKey,
    /// The account is not authorized for this action.
    Forbidden,
    /// The caller must explicitly express the intention to replace the
    /// release.
    NotReplacing,
    /// A release can only be modified up to one hour after publication.
    LateModification,
}

impl ApiError {
    /// Whether this error reports a missing resource.
    pub fn is_not_found(&self) -> (r: bool)
        ensures
            r == (*self is NotFound),
    {
        matches!(self, ApiError::NotFound)
    }
}

/// Relies on String::from_utf8_lossy: the text is a function of the
/// bytes.
pub uninterp spec fn lossy_text_of(b: Seq<u8>) -> Seq<char>;

/// Relies on String::from_utf8_lossy to turn a response body into
/// printable text.
#[verifier::external_body]
fn body_text(body: &Vec<u8>) -> (r: String)
    ensures
        r@ == lossy_text_of(body@),
{
    String::from_utf8_lossy(body.as_slice()).to_string()
}

fn unexpected_response(status: u16, body: &Vec<u8>) -> (r: ApiError)
    ensures
        r == ApiError::UnexpectedResponse(status, r->UnexpectedResponse_1),
        r->UnexpectedResponse_1@ == lossy_text_of(body@),
{
    ApiError::UnexpectedResponse(status, body_text(body))
}

// ---------------------------------------------------------------------------
// Identifier validation.
// ---------------------------------------------------------------------------

/// A lower-case ASCII letter.
pub open spec fn is_lower_alpha(c: char) -> bool {
    'a' as u32 <= c as u32 && c as u32 <= 'z' as u32
}

/// A word character: a letter, a digit or an underscore.
pub open spec fn is_word_char(c: char) -> bool {
    crate::version::is_digit_char(c) || ('A' as u32 <= c as u32 && c as u32 <= 'Z' as u32) || (
    'a' as u32 <= c as u32 && c as u32 <= 'z' as u32) || c == '_'
}

/// A valid package name: a lower-case letter followed by word characters.
pub open spec fn valid_package_name(s: Seq<char>) -> bool {
    s.len() > 0 && is_lower_alpha(s[0]) && forall|k: int|
        1 <= k < s.len() ==> is_word_char(#[trigger] s[k])
}

/// A character allowed in a version string handed to the API.
pub open spec fn is_version_string_char(c: char) -> bool {
    is_word_char(c) || c == '.' || c == '-'
}

/// A version string the API accepts: non-empty, over letters, digits and
/// `._-`.
pub open spec fn valid_version_string(s: Seq<char>) -> bool {
    s.len() > 0 && forall|k: int| 0 <= k < s.len() ==> is_version_string_char(#[trigger] s[k])
}

/// Check a package name and version string before they are spliced into a
/// request path.
pub fn validate_package_and_version(package: &str, version: &str) -> (r: Result<(), ApiError>)
    ensures
        r is Ok <==> valid_package_name(package@) && valid_version_string(version@),
        r matches Err(e) ==> if !valid_package_name(package@) {
            e matches ApiError::InvalidPackageNameFormat(p) && p@ == package@
        } else {
            e matches ApiError::InvalidVersionFormat(v) && v@ == version@
        },
{
    let pn = package.unicode_len();
    let mut package_ok = pn > 0;
    if package_ok {
        let c0 = package.get_char(0);
        let u = c0 as u32;
        package_ok = 97 <= u && u <= 122;
        let mut k: usize = 1;
        while k < pn && package_ok
            invariant
                1 <= k <= pn,
                pn == package@.len(),
                package_ok == (is_lower_alpha(package@[0]) && forall|j: int|
                    1 <= j < k ==> is_word_char(#[trigger] package@[j])),
            decreases pn - k,
        {
            let c = package.get_char(k);
            let u2 = c as u32;
            let word = (48 <= u2 && u2 <= 57) || (65 <= u2 && u2 <= 90) || (97 <= u2 && u2 <= 122)
                || c == '_';
            package_ok = package_ok && word;
            k = k + 1;
        }
    }
    if !package_ok {
        return Result::Err(ApiError::InvalidPackageNameFormat(package.to_owned()));
    }
    let vn = version.unicode_len();
    let mut version_ok = vn > 0;
    let mut k: usize = 0;
    while k < vn && version_ok
        invariant
            0 <= k <= vn,
            vn == version@.len(),
            version_ok ==> vn > 0,
            vn > 0 ==> version_ok == (forall|j: int|
                0 <= j < k ==> is_version_string_char(#[trigger] version@[j])),
        decreases vn - k,
    {
        let c = version.get_char(k);
        let u2 = c as u32;
        let ok = (48 <= u2 && u2 <= 57) || (65 <= u2 && u2 <= 90) || (97 <= u2 && u2 <= 122) || c
            == '_' || c == '.' || c == '-';
        version_ok = version_ok && ok;
        k = k + 1;
    }
    if !version_ok {
        return Result::Err(ApiError::InvalidVersionFormat(version.to_owned()));
    }
    Result::Ok(())
}

// ---------------------------------------------------------------------------
// Status-code translation, one function per response family.
// ---------------------------------------------------------------------------

/// The statuses of key management: `201` creates, `200`/`204` succeed
/// otherwise, `401` means bad credentials.
pub fn create_api_key_status(status: u16, body: &Vec<u8>) -> (r: Result<(), ApiError>)
    ensures
        r is Ok <==> status == 201,
        r matches Err(e) ==> match status {
            429u16 => e is RateLimited,
            401u16 => e is InvalidCredentials,
            _ => e matches ApiError::UnexpectedResponse(st, t) && st == status && t@
                == lossy_text_of(body@),
        },
{
    if status == 201 {
        Result::Ok(())
    } else if status == 429 {
        Result::Err(ApiError::RateLimited)
    } else if status == 401 {
        Result::Err(ApiError::InvalidCredentials)
    } else {
        Result::Err(unexpected_response(status, body))
    }
}

/// The statuses of key removal and release retirement: `200` or `204`
/// succeed, `401` means bad credentials.
pub fn credentialed_action_status(status: u16, body: &Vec<u8>) -> (r: Result<(), ApiError>)
    ensures
        r is Ok <==> (status == 200 || status == 204),
        r matches Err(e) ==> match status {
            429u16 => e is RateLimited,
            401u16 => e is InvalidCredentials,
            _ => e matches ApiError::UnexpectedResponse(st, t) && st == status && t@
                == lossy_text_of(body@),
        },
{
    if status == 200 || status == 204 {
        Result::Ok(())
    } else if status == 429 {
        Result::Err(ApiError::RateLimited)
    } else if status == 401 {
        Result::Err(ApiError::InvalidCredentials)
    } else {
        Result::Err(unexpected_response(status, body))
    }
}

/// The statuses of repository reads: `200` succeeds, and both `403` and
/// `404` hide the resource.
pub fn repository_read_status(status: u16, body: &Vec<u8>) -> (r: Result<(), ApiError>)
    ensures
        r is Ok <==> status == 200,
        r matches Err(e) ==> match status {
            403u16 => e is NotFound,
            404u16 => e is NotFound,
            _ => e matches ApiError::UnexpectedResponse(st, t) && st == status && t@
                == lossy_text_of(body@),
        },
{
    if status == 200 {
        Result::Ok(())
    } else if status == 403 || status == 404 {
        Result::Err(ApiError::NotFound)
    } else {
        Result::Err(unexpected_response(status, body))
    }
}

/// The status of the repository's whole-registry versions listing: only
/// `200` succeeds, and everything else is unexpected.
pub fn repository_versions_status(status: u16, body: &Vec<u8>) -> (r: Result<(), ApiError>)
    ensures
        r is Ok <==> status == 200,
        r matches Err(e) ==> e matches ApiError::UnexpectedResponse(st, t) && st == status && t@
            == lossy_text_of(body@),
{
    if status == 200 {
        Result::Ok(())
    } else {
        Result::Err(unexpected_response(status, body))
    }
}

/// The statuses of key-authenticated endpoints: the given statuses
/// succeed, `401` means a bad API key, `403` is forbidden.
pub fn keyed_endpoint_status(status: u16, ok_a: u16, ok_b: u16, body: &Vec<u8>) -> (r: Result<
    (),
    ApiError,
>)
    ensures
        r is Ok <==> (status == ok_a || status == ok_b),
        r matches Err(e) ==> match status {
            404u16 => e is NotFound,
            429u16 => e is RateLimited,
            401u16 => e is InvalidApiKey,
            403u16 => e is Forbidden,
            _ => e matches ApiError::UnexpectedResponse(st, t) && st == status && t@
                == lossy_text_of(body@),
        },
{
    if status == ok_a || status == ok_b {
        Result::Ok(())
    } else if status == 404 {
        Result::Err(ApiError::NotFound)
    } else if status == 429 {
        Result::Err(ApiError::RateLimited)
    } else if status == 401 {
        Result::Err(ApiError::InvalidApiKey)
    } else if status == 403 {
        Result::Err(ApiError::Forbidden)
    } else {
        Result::Err(unexpected_response(status, body))
    }
}

// ---------------------------------------------------------------------------
// The publish endpoint's refusal bodies.
// ---------------------------------------------------------------------------

/// Whether `p` occurs in `s` as a contiguous run.
pub open spec fn has_substring(s: Seq<char>, p: Seq<char>) -> bool {
    exists|k: int| 0 <= k <= s.len() - p.len() && #[trigger] s.subrange(k, k + p.len()) == p
}

/// Whether `p` occurs in `s`, by scanning every start position.
fn contains_substring(s: &String, p: &str) -> (r: bool)
    ensures
        r == has_substring(s@, p@),
{
    let n = s.as_str().unicode_len();
    let m = p.unicode_len();
    if m > n {
        proof {
            assert(!has_substring(s@, p@));
        }
        return false;
    }
    let mut k: usize = 0;
    while k <= n - m
        invariant
            0 <= k <= n - m + 1,
            m <= n,
            n == s@.len(),
            m == p@.len(),
            forall|j: int| 0 <= j < k ==> #[trigger] s@.subrange(j, j + p@.len()) != p@,
        decreases n + 1 - k,
    {
        let mut j: usize = 0;
        let mut all = true;
        while j < m && all
            invariant
                0 <= j <= m,
                k + m <= n,
                n == s@.len(),
                m == p@.len(),
                all == (forall|t: int| 0 <= t < j ==> s@[k + t] == p@[t]),
            decreases m - j,
        {
            let a = s.as_str().get_char(k + j);
            let b = p.get_char(j);
            proof {
                vstd::utf8::char_u32_cast(a, a as u32);
                vstd::utf8::char_u32_cast(b, b as u32);
            }
            if a as u32 != b as u32 {
                all = false;
            } else {
                assert(s@[k + j] == p@[j as int]);
            }
            j = j + 1;
        }
        if all {
            proof {
                assert(s@.subrange(k as int, k + p@.len()) =~= p@);
            }
            return true;
        }
        proof {
            if s@.subrange(k as int, k + p@.len()) == p@ {
                assert forall|t: int| 0 <= t < j implies s@[k + t] == p@[t] by {
                    assert(s@.subrange(k as int, k + p@.len())[t] == s@[k + t]);
                }
            }
        }
        k = k + 1;
    }
    false
}

/// The statuses of publishing a release: `200` or `201` succeed, and a
/// `422` refusal distinguishes a missing replace flag from a late
/// modification by its body.
pub fn publish_package_status(status: u16, body: &Vec<u8>) -> (r: Result<(), ApiError>)
    ensures
        r is Ok <==> (status == 200 || status == 201),
        r matches Err(e) ==> match status {
            404u16 => e is NotFound,
            429u16 => e is RateLimited,
            401u16 => e is InvalidApiKey,
            403u16 => e is Forbidden,
            422u16 => if has_substring(lossy_text_of(body@), "--replace"@) {
                e is NotReplacing
            } else {
                e is LateModification
            },
            _ => e matches ApiError::UnexpectedResponse(st, t) && st == status && t@
                == lossy_text_of(body@),
        },
{
    if status == 200 || status == 201 {
        Result::Ok(())
    } else if status == 404 {
        Result::Err(ApiError::NotFound)
    } else if status == 429 {
        Result::Err(ApiError::RateLimited)
    } else if status == 401 {
        Result::Err(ApiError::InvalidApiKey)
    } else if status == 403 {
        Result::Err(ApiError::Forbidden)
    } else if status == 422 {
        let text = body_text(body);
        if contains_substring(&text, "--replace") {
            Result::Err(ApiError::NotReplacing)
        } else {
            Result::Err(ApiError::LateModification)
        }
    } else {
        Result::Err(unexpected_response(status, body))
    }
}

} // verus!
