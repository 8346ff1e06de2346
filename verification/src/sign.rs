//! Keyed signing of token payloads.
//!
//! The access-token signature is an HMAC-SHA512 digest of the payload
//! under the process-wide symmetric key. The digest itself is computed by
//! the `hmac` crate; its value is referred to abstractly as
//! [`hmac_sha512_of`], a pure function of the key and payload.

use vstd::prelude::*;

verus! {

pub uninterp spec fn hmac_sha512_of(key: Seq<u8>, msg: Seq<char>) -> Seq<u8>;

/// Relies on `hmac::Hmac<sha2::Sha512>` (`Mac::update` / `Mac::finalize`):
/// the digest is a pure function of the key bytes and the message
/// (here the message's UTF-8 encoding, itself a function of its characters),
/// and is always 64 bytes long. `new_from_slice` accepts keys of any
/// length for HMAC, so it cannot fail.
#[verifier::external_body]
pub(crate) fn hmac_sha512(key: &Vec<u8>, msg: &str) -> (r: Vec<u8>)
    ensures
        r@ == hmac_sha512_of(key@, msg@),
        r@.len() == 64,
{
    let mut mac = <hmac::Hmac<sha2::Sha512> as hmac::KeyInit>::new_from_slice(key.as_slice()).unwrap();
    hmac::Mac::update(&mut mac, msg.as_bytes());
    hmac::Mac::finalize(mac).into_bytes().to_vec()
}

/// Relies on `hmac`'s `Mac::verify_slice`: it succeeds exactly when `tag`
/// equals the full 64-byte HMAC-SHA512 digest of the message under the key,
/// compared in constant time.
#[verifier::external_body]
pub(crate) fn hmac_sha512_verify(key: &Vec<u8>, msg: &str, tag: &Vec<u8>) -> (r: bool)
    ensures
        r == (tag@ == hmac_sha512_of(key@, msg@)),
{
    let mac = <hmac::Hmac<sha2::Sha512> as hmac::KeyInit>::new_from_slice(key.as_slice()).unwrap();
    let mut mac = mac;
    hmac::Mac::update(&mut mac, msg.as_bytes());
    hmac::Mac::verify_slice(mac, tag.as_slice()).is_ok()
}

} // verus!
