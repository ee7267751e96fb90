//! Validation of forum webhook requests: the content type must be JSON,
//! and the event signature header must carry a well-formed hex-encoded
//! signature.  Reading the request itself is the HTTP layer's business;
//! these functions decide, from the header values handed to them.

use vstd::prelude::*;

verus! {

/// Why a webhook request was rejected.
#[derive(Clone, Copy, Debug, Eq, PartialEq, Structural)]
pub enum DiscourseEventError {
    BadMimeType,
    MalformedQuery,
    Unauthorized,
}

/// Whether the string parses as a media type equal to `application/json`.
pub uninterp spec fn is_application_json(s: Seq<char>) -> bool;

/// Relies on mime's `str::parse::<Mime>` and `Mime`'s `PartialEq`: both
/// depend on the characters of the string alone.
#[verifier::external_body]
fn content_type_is_json(ct: &str) -> (r: bool)
    ensures
        r == is_application_json(ct@),
{
    match ct.parse::<mime::Mime>() {
        Ok(m) => m == mime::APPLICATION_JSON,
        Err(_) => false,
    }
}

/// Check that a request's `Content-Type` header declares JSON.
pub fn check_json_type(content_type: Option<&str>) -> (r: Result<(), DiscourseEventError>)
    ensures
        match content_type {
            Some(ct) => if is_application_json(ct@) {
                r == Ok::<(), DiscourseEventError>(())
            } else {
                r == Err::<(), DiscourseEventError>(DiscourseEventError::BadMimeType)
            },
            None => r == Err::<(), DiscourseEventError>(DiscourseEventError::BadMimeType),
        },
{
    match content_type {
        Some(ct) => if content_type_is_json(ct) {
            Ok(())
        } else {
            Err(DiscourseEventError::BadMimeType)
        },
        None => Err(DiscourseEventError::BadMimeType),
    }
}

/// The byte is an ASCII hex digit.
pub open spec fn is_hex_digit(b: u8) -> bool {
    (48 <= b <= 57) || (65 <= b <= 70) || (97 <= b <= 102)
}

/// The value of one ASCII hex digit.
pub open spec fn hex_val(b: u8) -> u8 {
    if 48 <= b <= 57 {
        (b - 48) as u8
    } else if 65 <= b <= 70 {
        (b - 55) as u8
    } else {
        (b - 87) as u8
    }
}

/// An even-length string of ASCII hex digits.
pub open spec fn valid_hex(s: Seq<u8>) -> bool {
    s.len() % 2 == 0 && (forall|i: int| 0 <= i < s.len() ==> is_hex_digit(#[trigger] s[i]))
}

/// The bytes a hex string denotes, one per digit pair.
pub open spec fn hex_bytes(s: Seq<u8>) -> Seq<u8> {
    Seq::new(s.len() / 2, |i: int| (hex_val(s[2 * i]) * 16 + hex_val(s[2 * i + 1])) as u8)
}

/// Relies on hex::decode: it succeeds exactly on an even-length string
/// of hex digits, and yields one byte per digit pair, high digit first.
#[verifier::external_body]
fn hex_decode(h: &Vec<u8>) -> (r: Option<Vec<u8>>)
    ensures
        match r {
            Some(v) => valid_hex(h@) && v@ == hex_bytes(h@),
            None => !valid_hex(h@),
        },
{
    match hex::decode(h) {
        Ok(v) => Some(v),
        Err(_) => None,
    }
}

/// The signature header's expected shape: `sha256=` and then the hex
/// digits.
pub open spec fn has_sig_prefix(s: Seq<u8>) -> bool {
    &&& s.len() >= 7
    &&& s[0] == 115
    &&& s[1] == 104
    &&& s[2] == 97
    &&& s[3] == 50
    &&& s[4] == 53
    &&& s[5] == 54
    &&& s[6] == 61
}

/// Extract the signature bytes from the event-signature header value:
/// the value must exist, start with `sha256=`, and continue with an
/// even-length string of hex digits; anything else is `Unauthorized`.
pub fn get_signature(value: Option<&Vec<u8>>) -> (r: Result<Vec<u8>, DiscourseEventError>)
    ensures
        match value {
            None => r == Err::<Vec<u8>, DiscourseEventError>(DiscourseEventError::Unauthorized),
            Some(v) => {
                if has_sig_prefix(v@) && valid_hex(v@.skip(7)) {
                    match r {
                        Ok(sig) => sig@ == hex_bytes(v@.skip(7)),
                        Err(_) => false,
                    }
                } else {
                    r == Err::<Vec<u8>, DiscourseEventError>(DiscourseEventError::Unauthorized)
                }
            },
        },
{
    let v = match value {
        Some(v) => v,
        None => {
            return Err(DiscourseEventError::Unauthorized);
        },
    };
    if v.len() < 7 {
        return Err(DiscourseEventError::Unauthorized);
    }
    if !(v[0] == 115 && v[1] == 104 && v[2] == 97 && v[3] == 50 && v[4] == 53 && v[5] == 54 && v[6]
        == 61) {
        return Err(DiscourseEventError::Unauthorized);
    }
    let mut tail: Vec<u8> = Vec::new();
    let mut i: usize = 7;
    while i < v.len()
        invariant
            7 <= i <= v@.len(),
            v@.len() >= 7,
            tail@ =~= v@.subrange(7, i as int),
        decreases v@.len() - i,
    {
        tail.push(v[i]);
        i += 1;
    }
    proof {
        assert(tail@ =~= v@.skip(7));
    }
    match hex_decode(&tail) {
        Some(sig) => Ok(sig),
        None => Err(DiscourseEventError::Unauthorized),
    }
}

} // verus!
