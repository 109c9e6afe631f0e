use envcipher::crypto::aead::generate_key;
use envcipher::crypto::secret::SecretKey;
use envcipher::error::{EnvcipherError, FormatFault};
use envcipher::keystore::retrieve_key_from_store as retrieve_key;
use envcipher::keystore::{
    decode_key, delete_key, deletion_result, import_key, key_exists, key_from_read, key_presence,
    store_key, stored_form, StoreDelete, StoreRead,
};

fn test_hash() -> String {
    format!("test_{}", rand::random::<u32>())
}

#[test]
fn store_and_retrieve_key() {
    let hash = test_hash();
    let key = generate_key();
    assert!(!key_exists(&hash).unwrap());

    store_key(&hash, &key).unwrap();
    let retrieved = retrieve_key(&hash).unwrap();

    assert_eq!(key.as_bytes(), retrieved.as_bytes());

    // Cleanup
    delete_key(&hash).unwrap();
}

#[test]
fn overwrite_existing_key() {
    let hash = test_hash();
    let key1 = generate_key();
    let key2 = generate_key();
    assert!(!key_exists(&hash).unwrap());

    store_key(&hash, &key1).unwrap();
    store_key(&hash, &key2).unwrap();

    let retrieved = retrieve_key(&hash).unwrap();
    assert_eq!(key2.as_bytes(), retrieved.as_bytes());

    // Cleanup
    delete_key(&hash).unwrap();
}

#[test]
fn retrieve_nonexistent_key_fails() {
    let hash = test_hash();

    let result = retrieve_key(&hash);
    assert!(result.is_err());
}

#[test]
fn key_exists_check() {
    let hash = test_hash();
    let key = generate_key();

    assert!(!key_exists(&hash).unwrap());

    store_key(&hash, &key).unwrap();
    assert!(key_exists(&hash).unwrap());

    delete_key(&hash).unwrap();
    assert!(!key_exists(&hash).unwrap());
}

#[test]
fn delete_nonexistent_key_succeeds() {
    let hash = test_hash();

    // Should not error even if key doesn't exist.
    let result = delete_key(&hash);
    assert!(result.is_ok());
}

#[test]
fn import_of_31_bytes_is_refused() {
    // 31 bytes of 0x01, base64
    let material = "AQEBAQEBAQEBAQEBAQEBAQEBAQEBAQEBAQEBAQEBAQ==";
    let hash = test_hash();
    assert_eq!(
        import_key(&hash, material),
        Err(EnvcipherError::InvalidFormat(FormatFault::KeyLength))
    );
    assert_eq!(import_key(&hash, "not base64!"), Err(EnvcipherError::InvalidFormat(FormatFault::KeyEncoding)));
}

#[test]
fn key_material_round_trips_through_stored_form() {
    let key = SecretKey::new([3u8; 32]);
    let text = stored_form(&key);
    assert_eq!(text, "AwMDAwMDAwMDAwMDAwMDAwMDAwMDAwMDAwMDAwMDAwM=");
    assert_eq!(decode_key(&text).unwrap().as_bytes(), [3u8; 32].as_slice());
    assert_eq!(decode_key("AAAA").err(), Some(EnvcipherError::InvalidFormat(FormatFault::KeyLength)));
}

#[test]
fn store_outcomes_map_to_results() {
    assert_eq!(key_presence(StoreRead::Found("x".to_string())), Ok(true));
    assert_eq!(key_presence(StoreRead::Missing), Ok(false));
    assert_eq!(
        key_presence(StoreRead::Failed("locked".to_string())),
        Err(EnvcipherError::KeychainAccess("locked".to_string()))
    );
    assert_eq!(key_from_read(StoreRead::Missing).err(), Some(EnvcipherError::NotInitialized));
    assert_eq!(
        key_from_read(StoreRead::Found("AAAA".to_string())).err(),
        Some(EnvcipherError::InvalidFormat(FormatFault::KeyLength))
    );
    assert_eq!(deletion_result(StoreDelete::Missing), Ok(()));
    assert_eq!(deletion_result(StoreDelete::Deleted), Ok(()));
    assert!(deletion_result(StoreDelete::Failed("e".to_string())).is_err());
}
