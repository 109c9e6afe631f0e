//! Authenticated encryption of whole payloads with AES-256-GCM.
use vstd::prelude::*;

use crate::crypto::secret::SecretKey;
use crate::error::EnvcipherError;

verus! {

/// Length of an AES-256 key in bytes.
pub const KEY_LEN: usize = 32;

/// Length of a GCM nonce in bytes.
pub const NONCE_LEN: usize = 12;

/// Longest plaintext that AES-GCM accepts, in bytes.
pub const PLAINTEXT_MAX: u64 = 68719476736;

/// What AES-256-GCM decryption yields for a key, a nonce and a ciphertext
/// with its tag: the plaintext when the tag verifies, nothing otherwise.
pub uninterp spec fn gcm_open(key: Seq<u8>, nonce: Seq<u8>, ciphertext: Seq<u8>) -> Option<Seq<u8>>;

/// The outcome of deciphering, as `aes_decipher` reports it.
pub open spec fn deciphered(key: Seq<u8>, nonce: Seq<u8>, ciphertext: Seq<u8>) -> Result<Seq<u8>, EnvcipherError> {
    match gcm_open(key, nonce, ciphertext) {
        Some(p) => Ok(p),
        None => Err(EnvcipherError::Decipherment),
    }
}

/// Relies on `rand::rng()` and `RngCore::fill_bytes`: `n` bytes from the
/// thread-local cryptographically secure generator.
#[verifier::external_body]
fn random_bytes(n: usize) -> (r: Vec<u8>)
    ensures
        r@.len() == n,
{
    let mut buf = vec![0u8; n];
    rand::RngCore::fill_bytes(&mut rand::rng(), &mut buf);
    buf
}

/// Relies on aes-gcm's `Aes256Gcm::encrypt`: it refuses only a plaintext over
/// `P_MAX` bytes, appends a 16-byte tag, and what it returns opens again under
/// the same key and nonce.
#[verifier::external_body]
fn gcm_seal(key: &[u8; 32], nonce: &[u8; 12], plaintext: &[u8]) -> (r: Option<Vec<u8>>)
    ensures
        plaintext@.len() <= PLAINTEXT_MAX ==> r is Some,
        r matches Some(c) ==> c@.len() == plaintext@.len() + 16,
        r matches Some(c) ==> gcm_open(key@, nonce@, c@) == Some(plaintext@),
{
    let cipher = <aes_gcm::Aes256Gcm as aes_gcm::KeyInit>::new(key.into());
    aes_gcm::aead::Aead::encrypt(&cipher, nonce.into(), plaintext).ok()
}

/// Relies on aes-gcm's `Aes256Gcm::decrypt`: the plaintext when the tag
/// verifies, an error otherwise; the tag is the last 16 bytes, so a shorter
/// ciphertext never opens and the plaintext is 16 bytes shorter.
#[verifier::external_body]
fn gcm_unseal(key: &[u8; 32], nonce: &[u8; 12], ciphertext: &[u8]) -> (r: Option<Vec<u8>>)
    ensures
        match r {
            Some(p) => gcm_open(key@, nonce@, ciphertext@) == Some(p@),
            None => gcm_open(key@, nonce@, ciphertext@) is None,
        },
        r matches Some(p) ==> p@.len() + 16 == ciphertext@.len(),
        ciphertext@.len() < 16 ==> r is None,
{
    let cipher = <aes_gcm::Aes256Gcm as aes_gcm::KeyInit>::new(key.into());
    aes_gcm::aead::Aead::decrypt(&cipher, nonce.into(), ciphertext).ok()
}

/// Copies the first twelve bytes of `v` into an array.
pub fn nonce_from(v: &Vec<u8>) -> (r: [u8; 12])
    requires
        v@.len() == 12,
    ensures
        r@ == v@,
{
    let mut a = [0u8; 12];
    let mut i: usize = 0;
    while i < 12
        invariant
            i <= 12 == v@.len(),
            forall|j: int| 0 <= j < i ==> a@[j] == v@[j],
        decreases 12 - i,
    {
        a[i] = v[i];
        i = i + 1;
    }
    assert(a@ =~= v@);
    a
}

/// A key holding the thirty-two bytes of `v`.
pub fn key_from(v: &Vec<u8>) -> (r: SecretKey)
    requires
        v@.len() == 32,
    ensures
        r.0@ == v@,
{
    let mut a = [0u8; 32];
    let mut i: usize = 0;
    while i < 32
        invariant
            i <= 32 == v@.len(),
            forall|j: int| 0 <= j < i ==> a@[j] == v@[j],
        decreases 32 - i,
    {
        a[i] = v[i];
        i = i + 1;
    }
    assert(a@ =~= v@);
    SecretKey::new(a)
}

/// A fresh key: thirty-two bytes drawn from the secure random source.
pub fn generate_key() -> (r: SecretKey)
    ensures
        r.0@.len() == 32,
{
    let v = random_bytes(KEY_LEN);
    key_from(&v)
}

/// A fresh nonce from the secure random source.
pub fn generate_nonce() -> (r: [u8; 12])
    ensures
        r@.len() == 12,
{
    let v = random_bytes(NONCE_LEN);
    nonce_from(&v)
}

/// Enciphers `plaintext` under a fresh nonce; returns the ciphertext (tag
/// included) and that nonce. Deciphering them with the same key gives
/// `plaintext` back.
pub fn aes_encipher(key: &SecretKey, plaintext: &[u8]) -> (r: Result<(Vec<u8>, [u8; 12]), EnvcipherError>)
    ensures
        plaintext@.len() <= PLAINTEXT_MAX <==> r is Ok,
        r is Err ==> r == Err::<(Vec<u8>, [u8; 12]), EnvcipherError>(EnvcipherError::Encipherment),
        r matches Ok((c, n)) ==> deciphered(key.0@, n@, c@) == Ok::<Seq<u8>, EnvcipherError>(plaintext@),
        r matches Ok((c, n)) ==> c@.len() == plaintext@.len() + 16,
{
    if plaintext.len() as u64 > PLAINTEXT_MAX {
        return Err(EnvcipherError::Encipherment);
    }
    let nonce = generate_nonce();
    match gcm_seal(&key.0, &nonce, plaintext) {
        Some(c) => Ok((c, nonce)),
        None => Err(EnvcipherError::Encipherment),
    }
}

/// Deciphers and authenticates; any mismatch of key, nonce or ciphertext
/// gives the one error `Decipherment`.
pub fn aes_decipher(key: &SecretKey, nonce: &[u8; 12], ciphertext: &[u8]) -> (r: Result<Vec<u8>, EnvcipherError>)
    ensures
        match r {
            Ok(p) => deciphered(key.0@, nonce@, ciphertext@) == Ok::<Seq<u8>, EnvcipherError>(p@),
            Err(e) => deciphered(key.0@, nonce@, ciphertext@) == Err::<Seq<u8>, EnvcipherError>(e),
        },
{
    match gcm_unseal(&key.0, nonce, ciphertext) {
        Some(p) => Ok(p),
        None => Err(EnvcipherError::Decipherment),
    }
}

} // verus!
