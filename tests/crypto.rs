use envcipher::crypto::aead::{aes_decipher, aes_encipher, generate_key, generate_nonce};
use envcipher::crypto::secret::SecretKey;
use envcipher::error::EnvcipherError;

#[test]
fn round_trip_encryption() {
    let key = generate_key();
    let plaintext = b"DATABASE_URL=postgres://localhost/mydb";

    let (ciphertext, nonce) = aes_encipher(&key, plaintext).unwrap();
    let decrypted = aes_decipher(&key, &nonce, &ciphertext).unwrap();

    assert_eq!(plaintext.as_slice(), decrypted.as_slice());
}

#[test]
fn wrong_key_fails() {
    let key1 = generate_key();
    let key2 = generate_key();
    let plaintext = b"SECRET=hunter2";

    let (ciphertext, nonce) = aes_encipher(&key1, plaintext).unwrap();
    let result = aes_decipher(&key2, &nonce, &ciphertext);

    assert!(result.is_err());
}

#[test]
fn corrupted_ciphertext_fails() {
    let key = generate_key();
    let plaintext = b"API_KEY=abc123";

    let (mut ciphertext, nonce) = aes_encipher(&key, plaintext).unwrap();

    // Flip a bit in the ciphertext.
    ciphertext[0] ^= 0x01;

    let result = aes_decipher(&key, &nonce, &ciphertext);
    assert!(result.is_err());
}

#[test]
fn wrong_nonce_fails() {
    let key = generate_key();
    let plaintext = b"TOKEN=xyz";

    let (ciphertext, _nonce) = aes_encipher(&key, plaintext).unwrap();
    let wrong_nonce = generate_nonce();

    let result = aes_decipher(&key, &wrong_nonce, &ciphertext);
    assert!(result.is_err());
}

#[test]
fn empty_plaintext_works() {
    let key = generate_key();
    let plaintext = b"";

    let (ciphertext, nonce) = aes_encipher(&key, plaintext).unwrap();
    let decrypted = aes_decipher(&key, &nonce, &ciphertext).unwrap();

    assert!(decrypted.is_empty());
}

#[test]
fn unique_nonces_generated() {
    // Nonces should be different each time.
    let nonce1 = generate_nonce();
    let nonce2 = generate_nonce();

    assert_ne!(nonce1, nonce2);
}

#[test]
fn ciphertext_carries_tag_and_differs_from_plaintext() {
    let key = generate_key();
    let plaintext = b"A=1";
    let (ciphertext, _) = aes_encipher(&key, plaintext).unwrap();
    assert_eq!(ciphertext.len(), plaintext.len() + 16);
    assert_ne!(&ciphertext[..3], plaintext.as_slice());
}

#[test]
fn every_single_bit_flip_fails_authentication() {
    let key = generate_key();
    let (ciphertext, nonce) = aes_encipher(&key, b"K=v").unwrap();
    for i in 0..ciphertext.len() {
        for bit in 0..8 {
            let mut tampered = ciphertext.clone();
            tampered[i] ^= 1u8 << bit;
            assert_eq!(aes_decipher(&key, &nonce, &tampered), Err(EnvcipherError::Decipherment));
        }
    }
}

#[test]
fn fixed_key_decipher_is_deterministic() {
    let key = SecretKey::new([7u8; 32]);
    let (ciphertext, nonce) = aes_encipher(&key, b"X=y").unwrap();
    let again = SecretKey::new([7u8; 32]);
    assert_eq!(aes_decipher(&again, &nonce, &ciphertext).unwrap(), b"X=y".to_vec());
}

#[test]
fn wipe_zeroes_key() {
    let mut key = SecretKey::new([9u8; 32]);
    key.wipe();
    assert_eq!(key.as_bytes(), [0u8; 32].as_slice());
}
