//! Identifiers and timestamps drawn from the host: random UUIDs and the
//! current time, behind trusted wrappers.
use vstd::prelude::*;
use crate::note::plain_field;

verus! {

/// Relies on `uuid::Uuid::new_v4` and its `Display`: a fresh random
/// identifier in the hyphenated form, 36 characters of lowercase
/// hexadecimal digits and hyphens. Nothing is assumed of which identifier
/// comes back, only of its shape.
#[verifier::external_body]
pub fn new_note_id() -> (r: String)
    ensures
        r@.len() == 36,
        plain_field(r@),
{
    uuid::Uuid::new_v4().to_string()
}

/// Relies on `chrono::Utc::now` and `DateTime::to_rfc3339`: the current
/// time as a non-empty RFC 3339 text of digits, letters and punctuation,
/// holding no quote, backslash or newline. Nothing is assumed of which
/// instant comes back.
#[verifier::external_body]
pub fn now_rfc3339() -> (r: String)
    ensures
        r@.len() > 0,
        plain_field(r@),
{
    chrono::Utc::now().to_rfc3339()
}

} // verus!
