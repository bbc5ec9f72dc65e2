//! The calls into the outside cryptographic crates and into std that vstd
//! does not specify. Each item here is trusted: its contract is believed,
//! not proved.

use hmac::Mac;
use rand::RngCore;
use sha2::{Digest, Sha256};
use vstd::prelude::*;

verus! {

/// The SHA-256 digest of a byte string (sha2's `Sha256`).
pub uninterp spec fn sha256_digest(data: Seq<u8>) -> [u8; 32];

/// The HMAC-SHA256 tag of `msg` under `key` (hmac's `Hmac<Sha256>`).
pub uninterp spec fn hmac_sha256_tag(key: Seq<u8>, msg: Seq<u8>) -> [u8; 32];

/// Calls `Sha256::digest` (sha2 0.10). Claimed: the result is the digest
/// named `sha256_digest` of the input.
#[verifier::external_body]
pub(crate) fn sha256(data: &[u8]) -> (digest: [u8; 32])
    ensures
        digest == sha256_digest(data@),
{
    Sha256::digest(data).into()
}

/// Calls `Hmac::<Sha256>::new_from_slice`, `update` and `finalize`
/// (hmac 0.12). `new_from_slice` accepts a key of any length in that
/// crate's source, so the `expect` never fires. Claimed: the tag is the
/// one named `hmac_sha256_tag` for this key and message.
#[verifier::external_body]
pub(crate) fn hmac_sha256(key: &[u8], msg: &[u8]) -> (tag: [u8; 32])
    ensures
        tag == hmac_sha256_tag(key@, msg@),
{
    let mut mac = hmac::Hmac::<Sha256>::new_from_slice(key).expect("HMAC takes keys of any length");
    mac.update(msg);
    mac.finalize().into_bytes().into()
}

/// Calls `rand::thread_rng().fill_bytes` (rand 0.8) on sixteen bytes.
/// Nothing is claimed of the bytes: they come from the operating system's
/// randomness.
#[verifier::external_body]
pub(crate) fn random_iv() -> [u8; 16] {
    let mut iv = [0u8; 16];
    rand::thread_rng().fill_bytes(&mut iv);
    iv
}

/// Calls `rand::random::<[u8; 16]>()` (rand 0.8). Nothing is claimed of
/// the bytes.
#[verifier::external_body]
pub(crate) fn random_key_bytes() -> [u8; 16] {
    rand::random()
}

/// Calls std's `String::from_utf8`, whose documentation says it succeeds
/// exactly on valid UTF-8 and then holds the characters the bytes encode.
#[verifier::external_body]
pub(crate) fn string_from_utf8(bytes: Vec<u8>) -> (s: Option<String>)
    ensures
        s.is_some() == vstd::utf8::valid_utf8(bytes@),
        s matches Some(t) ==> t@ == vstd::utf8::decode_utf8(bytes@),
{
    String::from_utf8(bytes).ok()
}


/// Calls std's `String::push`, which appends one character.
#[verifier::external_body]
pub(crate) fn push_char(s: &mut String, c: char)
    ensures
        final(s)@ == old(s)@.push(c),
{
    s.push(c);
}

} // verus!
