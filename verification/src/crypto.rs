//! The AEAD layer of the store: AES-256-GCM sealing and opening behind
//! trusted wrappers, base64 transport encoding, and key material.
//!
//! A sealed record is `nonce (12 bytes) || ciphertext || tag (16 bytes)`,
//! base64-encoded for storage.  Losing the key makes every sealed record
//! permanently unrecoverable: there is deliberately no recovery path.

use vstd::prelude::*;

use crate::host::{now_unix_millis, random_bytes};

use aes_gcm::aead::{Aead, KeyInit};
use base64::Engine;

verus! {

/// What AES-256-GCM sealing yields for a key, nonce, and plaintext: the
/// ciphertext with its 16-byte tag.  A function of its arguments alone.
pub uninterp spec fn gcm_seal(key: Seq<u8>, nonce: Seq<u8>, data: Seq<u8>) -> Seq<u8>;

/// What AES-256-GCM opening yields for a key, nonce, and ciphertext:
/// the plaintext when the tag authenticates, nothing otherwise.
pub uninterp spec fn gcm_open(key: Seq<u8>, nonce: Seq<u8>, ct: Seq<u8>) -> Option<Seq<u8>>;

/// Relies on `aes_gcm::Aes256Gcm` through `Aead::encrypt`: deterministic
/// in key, nonce, and plaintext; appends the 16-byte tag; opening the
/// result under the same key and nonce returns the plaintext; and it
/// fails only on plaintexts longer than 2^36 bytes.
#[verifier::external_body]
pub(crate) fn aead_seal(key: &Vec<u8>, nonce: &Vec<u8>, data: &Vec<u8>) -> (r: Result<
    Vec<u8>,
    (),
>)
    requires
        key@.len() == 32,
        nonce@.len() == 12,
    ensures
        match r {
            Result::Ok(ct) => ct@ == gcm_seal(key@, nonce@, data@) && ct@.len() == data@.len() + 16
                && gcm_open(key@, nonce@, ct@) == Option::Some(data@),
            Result::Err(_) => data@.len() > 0x1000000000,
        },
{
    let k = aes_gcm::Key::<aes_gcm::Aes256Gcm>::from_slice(key.as_slice());
    let cipher = aes_gcm::Aes256Gcm::new(k);
    let n = aes_gcm::Nonce::from_slice(nonce.as_slice());
    cipher.encrypt(n, data.as_slice()).map_err(|_| ())
}

/// Relies on `aes_gcm::Aes256Gcm` through `Aead::decrypt`: deterministic
/// in key, nonce, and ciphertext, and it returns a plaintext exactly when
/// the tag authenticates.
#[verifier::external_body]
pub(crate) fn aead_open(key: &Vec<u8>, nonce: &Vec<u8>, ct: &Vec<u8>) -> (r: Result<Vec<u8>, ()>)
    requires
        key@.len() == 32,
        nonce@.len() == 12,
    ensures
        match r {
            Result::Ok(pt) => gcm_open(key@, nonce@, ct@) == Option::Some(pt@),
            Result::Err(_) => gcm_open(key@, nonce@, ct@) is None,
        },
{
    let k = aes_gcm::Key::<aes_gcm::Aes256Gcm>::from_slice(key.as_slice());
    let cipher = aes_gcm::Aes256Gcm::new(k);
    let n = aes_gcm::Nonce::from_slice(nonce.as_slice());
    cipher.decrypt(n, ct.as_slice()).map_err(|_| ())
}

/// What the standard base64 alphabet (with padding) encodes a byte string
/// to.  A function of the bytes alone.
pub uninterp spec fn b64_of(data: Seq<u8>) -> Seq<char>;

/// What base64 decoding yields: the bytes, or nothing on malformed input.
pub uninterp spec fn b64_parse(s: Seq<char>) -> Option<Seq<u8>>;

/// Relies on the `base64` crate's `STANDARD` engine `encode`:
/// deterministic, and inverted by the engine's own `decode`.
#[verifier::external_body]
pub(crate) fn b64_encode(data: &Vec<u8>) -> (r: String)
    ensures
        r@ == b64_of(data@),
        b64_parse(r@) == Option::Some(data@),
{
    base64::engine::general_purpose::STANDARD.encode(data.as_slice())
}

/// Relies on the `base64` crate's `STANDARD` engine `decode`:
/// deterministic in the input string.
#[verifier::external_body]
pub(crate) fn b64_decode(s: &str) -> (r: Result<Vec<u8>, ()>)
    ensures
        match r {
            Result::Ok(v) => b64_parse(s@) == Option::Some(v@),
            Result::Err(_) => b64_parse(s@) is None,
        },
{
    base64::engine::general_purpose::STANDARD.decode(s).map_err(|_| ())
}

/// A fresh 256-bit key: strong random bytes when the host provides them,
/// and a timestamp-derived value (a documented reduced-security
/// degradation, not a silent guarantee) when it does not.  Key creation
/// never fails.
pub(crate) fn fresh_key() -> (r: Vec<u8>)
    ensures
        r@.len() == 32,
{
    match random_bytes(32) {
        Option::Some(v) => v,
        Option::None => {
            let now = now_unix_millis();
            let mut key: Vec<u8> = Vec::new();
            let mut i: u64 = 0;
            while i < 4
                invariant
                    i <= 4,
                    key@.len() == 8 * i,
                decreases 4 - i,
            {
                crate::state::push_le_bytes_u64(&mut key, now.wrapping_add(i));
                i = i + 1;
            }
            key
        },
    }
}

/// A fresh 96-bit nonce, or nothing when the host's random source fails:
/// sealing must never fall back to a fixed nonce, since nonce reuse
/// breaks the AEAD's guarantees.
pub(crate) fn fresh_nonce() -> (r: Option<Vec<u8>>)
    ensures
        r matches Option::Some(v) ==> v@.len() == 12,
{
    random_bytes(12)
}

} // verus!
