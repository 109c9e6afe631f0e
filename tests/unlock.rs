use envcipher::crypto::aead::{aes_encipher, generate_key};
use envcipher::crypto::secret::SecretKey;
use envcipher::env::parser::{classify, format_enciphered_text, EncryptionState};
use envcipher::error::EnvcipherError;
use envcipher::unlock::{lock_text, open_envelope, salvage_lines, unlock_text, unwind_layers};

fn envelope(key: &SecretKey, text: &str) -> String {
    let (c, n) = aes_encipher(key, text.as_bytes()).unwrap();
    format_enciphered_text(&n, &c)
}

#[test]
fn lock_then_unlock_scenario() {
    let key = generate_key();
    let content = "DATABASE_URL=postgres://localhost/mydb";
    let locked = lock_text(&key, content).unwrap();
    assert!(locked.starts_with("ENVCIPHER:v1:"));
    assert_eq!(classify(&locked), EncryptionState::Enciphered);
    let (plain, layers) = unlock_text(&key, &locked).unwrap();
    assert_eq!(plain, content);
    assert_eq!(layers, 1);
}

#[test]
fn nested_envelopes_unwind_two_layers() {
    let key = generate_key();
    let inner = envelope(&key, "SECRET=1\n");
    let outer = envelope(&key, &inner);
    let (plain, layers) = unwind_layers(&key, &outer).unwrap();
    assert_eq!(plain, "SECRET=1\n");
    assert_eq!(layers, 2);
}

#[test]
fn mixed_content_is_salvaged_line_by_line() {
    let key = generate_key();
    let line = envelope(&key, "SECRET=1");
    let content = format!("{}FOO=bar\n", line);
    assert_eq!(classify(&content), EncryptionState::CorruptedMixed);
    let (plain, layers) = unwind_layers(&key, &content).unwrap();
    assert_eq!(plain, "SECRET=1\nFOO=bar\n");
    assert_eq!(layers, 1);
}

#[test]
fn unopenable_lines_are_kept_verbatim() {
    let key = generate_key();
    let other = generate_key();
    let foreign = envelope(&other, "X=1");
    let content = format!("A=1\n{}", foreign);
    let (plain, layers) = unwind_layers(&key, &content).unwrap();
    assert_eq!(plain, content);
    assert_eq!(layers, 0);
    let (out, progress) = salvage_lines(&key, "  ENVCIPHER:v1:bad  \n\nB=2").unwrap();
    assert_eq!(out, "  ENVCIPHER:v1:bad  \nB=2\n");
    assert!(!progress);
}

#[test]
fn plaintext_unwinds_to_itself() {
    let key = generate_key();
    for text in ["", "A=1\n", "  spaced  \n\n"] {
        let (plain, layers) = unwind_layers(&key, text).unwrap();
        assert_eq!(plain, text);
        assert_eq!(layers, 0);
    }
}

#[test]
fn wrong_key_on_whole_envelope_fails() {
    let key = generate_key();
    let other = generate_key();
    let locked = envelope(&other, "A=1");
    assert_eq!(unwind_layers(&key, &locked), Err(EnvcipherError::Decipherment));
}

#[test]
fn non_utf8_plaintext_is_reported() {
    let key = generate_key();
    let (c, n) = aes_encipher(&key, &[0xff, 0xfe]).unwrap();
    let locked = format_enciphered_text(&n, &c);
    assert_eq!(unwind_layers(&key, &locked), Err(EnvcipherError::NonUtf8Plaintext));
}

#[test]
fn layer_count_is_bounded() {
    let key = generate_key();
    let mut text = String::from("A=1\n");
    for _ in 0..12 {
        text = envelope(&key, &text);
    }
    let (rest, layers) = unwind_layers(&key, &text).unwrap();
    assert_eq!(layers, 10);
    assert_eq!(classify(&rest), EncryptionState::Enciphered);
}

#[test]
fn lock_refuses_envelope_and_unlock_refuses_plain() {
    let key = generate_key();
    let locked = lock_text(&key, "A=1").unwrap();
    assert_eq!(lock_text(&key, &locked), Err(EnvcipherError::AlreadyEnciphered));
    assert_eq!(unlock_text(&key, "A=1"), Err(EnvcipherError::NotEnciphered));
}

#[test]
fn open_envelope_reads_one_layer() {
    let key = generate_key();
    let locked = envelope(&key, "A=1\n");
    assert_eq!(open_envelope(&key, &locked).unwrap(), "A=1\n");
    assert_eq!(
        open_envelope(&key, "A=1"),
        Err(EnvcipherError::InvalidFormat(envcipher::error::FormatFault::MissingPrefix))
    );
}
