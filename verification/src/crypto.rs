//! Authenticated encryption of fragment values, random bytes, and erasure
//! of secret-bearing buffers. The outside calls live behind trusted
//! wrappers; everything stated about them is what the crates' own
//! documentation promises.

use crate::error::QshardError;
use aes_gcm::aead::{Aead, AeadCore, KeyInit, OsRng};
use aes_gcm::{Aes256Gcm, Key, Nonce};
use rand::RngCore;
use vstd::prelude::*;
use zeroize::Zeroize;

verus! {

/// What AES-256-GCM opening returns for a key and a `nonce ‖ ciphertext ‖
/// tag` blob. Decryption is a pure function of the two, so the result only
/// gets a name; `None` stands for an authentication failure.
pub uninterp spec fn aead_open(key: Seq<u8>, data: Seq<u8>) -> Option<Seq<u8>>;

/// Relies on `Aes256Gcm::generate_key`: a fresh 256-bit key drawn from the
/// operating system's entropy source.
#[verifier::external_body]
pub fn generate_key() -> (r: Vec<u8>)
    ensures
        r@.len() == 32,
{
    Aes256Gcm::generate_key(&mut OsRng).to_vec()
}

/// Relies on rand's `ThreadRng::fill_bytes`: fills the buffer from a
/// cryptographically secure generator. Only the length is promised.
#[verifier::external_body]
pub fn fill_random(n: usize) -> (r: Vec<u8>)
    ensures
        r@.len() == n,
{
    let mut buf = vec![0u8; n];
    rand::thread_rng().fill_bytes(&mut buf);
    buf
}

/// Relies on zeroize's `Zeroize for Vec<u8>`: overwrites the buffer with
/// zeros, then clears it.
#[verifier::external_body]
pub fn wipe(buf: &mut Vec<u8>)
    ensures
        final(buf)@.len() == 0,
{
    buf.zeroize();
}

/// Relies on zeroize's `Zeroize for Vec<Vec<u8>>`: overwrites every row
/// with zeros, then clears the vector.
#[verifier::external_body]
pub fn wipe_all(bufs: &mut Vec<Vec<u8>>)
    ensures
        final(bufs)@.len() == 0,
{
    bufs.zeroize();
}

/// Relies on zeroize's `Zeroize for Vec<(u8, Vec<u8>)>` (tuples of
/// zeroizable parts): overwrites every index and value, then clears the
/// vector.
#[verifier::external_body]
pub fn wipe_pairs(bufs: &mut Vec<(u8, Vec<u8>)>)
    ensures
        final(bufs)@.len() == 0,
{
    bufs.zeroize();
}

/// Relies on aes_gcm's `Aead::encrypt` (AES-256-GCM): encrypts under a
/// fresh random 12-byte nonce, appends the 16-byte tag, and prepends the
/// nonce; opening the result with the same key returns the plaintext. The
/// cipher refuses only plaintexts beyond 2^36 bytes, so success is owed
/// below that bound.
#[verifier::external_body]
pub fn encrypt(plaintext: &[u8], key: &[u8]) -> (r: Result<Vec<u8>, QshardError>)
    requires
        key@.len() == 32,
    ensures
        r matches Ok(c) ==> c@.len() == plaintext@.len() + 28 && aead_open(key@, c@) == Some(
            plaintext@,
        ),
        r matches Err(e) ==> e == QshardError::Crypto,
        plaintext@.len() <= 0x1000000000 ==> r is Ok,
{
    let cipher = Aes256Gcm::new(Key::<Aes256Gcm>::from_slice(key));
    let nonce = Aes256Gcm::generate_nonce(&mut OsRng);
    match cipher.encrypt(&nonce, plaintext) {
        Ok(ct) => {
            let mut out = nonce.to_vec();
            out.extend_from_slice(&ct);
            Ok(out)
        },
        Err(_) => Err(QshardError::Crypto),
    }
}

/// Relies on aes_gcm's `Aead::decrypt` (AES-256-GCM): deterministic
/// authenticated opening of a `nonce ‖ ciphertext ‖ tag` blob. Success and
/// result are exactly `aead_open` of the inputs.
#[verifier::external_body]
fn aead_decrypt(data: &[u8], key: &[u8]) -> (r: Result<Vec<u8>, QshardError>)
    requires
        key@.len() == 32,
        data@.len() >= 12,
    ensures
        r matches Ok(p) ==> aead_open(key@, data@) == Some(p@),
        r matches Err(e) ==> e == QshardError::Crypto && aead_open(key@, data@) is None,
        aead_open(key@, data@) is Some ==> r is Ok,
{
    let cipher = Aes256Gcm::new(Key::<Aes256Gcm>::from_slice(key));
    let (nonce_bytes, ct) = data.split_at(12);
    match cipher.decrypt(Nonce::from_slice(nonce_bytes), ct) {
        Ok(p) => Ok(p),
        Err(_) => Err(QshardError::Crypto),
    }
}

/// Opens a sealed fragment value. Fails with a cryptographic error on a
/// wrong key, corrupted bytes, or a blob too short to carry a nonce.
pub fn decrypt(data: &[u8], key: &[u8]) -> (r: Result<Vec<u8>, QshardError>)
    requires
        key@.len() == 32,
    ensures
        r matches Ok(p) ==> data@.len() >= 12 && aead_open(key@, data@) == Some(p@),
        r matches Err(e) ==> e == QshardError::Crypto && (data@.len() < 12 || aead_open(
            key@,
            data@,
        ) is None),
        data@.len() >= 12 && aead_open(key@, data@) is Some ==> r is Ok,
{
    if data.len() < 12 {
        return Err(QshardError::Crypto);
    }
    aead_decrypt(data, key)
}

} // verus!
