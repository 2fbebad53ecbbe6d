//! Content fingerprints and webhook signatures, computed by outside
//! cryptographic crates behind trusted wrappers.
use vstd::prelude::*;
use sha2::Digest;
use hmac::KeyInit;
use hmac::Mac;

verus! {

/// A lowercase hexadecimal digit.
pub open spec fn is_lower_hex(c: char) -> bool {
    (('0' as int) <= (c as int) && (c as int) <= ('9' as int)) || (('a' as int) <= (c as int)
        && (c as int) <= ('f' as int))
}

/// A 64-character lowercase hexadecimal text: the shape of an encoded
/// SHA-256 digest.
pub open spec fn is_sha256_hex(s: Seq<char>) -> bool {
    s.len() == 64 && forall|i: int| 0 <= i < s.len() ==> is_lower_hex(#[trigger] s[i])
}

/// The lowercase hexadecimal SHA-256 digest of a text. Named, not
/// defined: the digest is a function of the hashed text alone.
pub uninterp spec fn fingerprint_of(data: Seq<char>) -> Seq<char>;

/// Relies on `sha2::Sha256` (`Digest::new`, `update`, `finalize`: a
/// deterministic 32-byte digest of the fed bytes, title bytes immediately
/// followed by content bytes with no separator) and `hex::encode` (two
/// lowercase hexadecimal digits per byte): the fingerprint depends on the
/// concatenation of title and content alone, and is 64 lowercase
/// hexadecimal digits.
#[verifier::external_body]
pub fn compute_sync_hash(title: &str, content: &str) -> (r: String)
    ensures
        r@ == fingerprint_of(title@ + content@),
        is_sha256_hex(r@),
{
    let mut hasher = sha2::Sha256::new();
    hasher.update(title.as_bytes());
    hasher.update(content.as_bytes());
    hex::encode(hasher.finalize())
}

/// The lowercase hexadecimal HMAC-SHA-256 tag of a message under a secret.
/// Named, not defined: the tag is a function of secret and message alone
/// (it is keyed, so it is not a function of their concatenation).
pub uninterp spec fn hmac_sha256_hex_of(secret: Seq<char>, message: Seq<char>) -> Seq<char>;

/// Relies on `hmac::Hmac<sha2::Sha256>` (`Mac::new_from_slice`, which
/// accepts keys of any length for HMAC, `update`, `finalize`) and
/// `hex::encode`: the authentication tag of the message under the secret,
/// 64 lowercase hexadecimal digits.
#[verifier::external_body]
pub fn webhook_signature(secret: &str, message: &str) -> (r: String)
    ensures
        r@ == hmac_sha256_hex_of(secret@, message@),
        is_sha256_hex(r@),
{
    let mut mac = <hmac::Hmac<sha2::Sha256> as KeyInit>::new_from_slice(secret.as_bytes())
        .expect("HMAC accepts any key length");
    mac.update(message.as_bytes());
    hex::encode(mac.finalize().into_bytes())
}

} // verus!
