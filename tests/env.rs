use envcipher::crypto::aead::NONCE_LEN;
use envcipher::env::locate::{find_env_file, DirProbe};
use envcipher::env::parser::{
    classify, format_enciphered_text, has_corrupted_format, hash_directory_path, is_enciphered,
    parse_enciphered_file, parse_env_content, EncryptionState,
};
use envcipher::error::{EnvcipherError, FormatFault};

fn probe(has_env_file: bool, has_vcs_marker: bool, is_home: bool) -> DirProbe {
    DirProbe { has_env_file, has_vcs_marker, is_home }
}

#[test]
fn find_env_in_current_dir() {
    let chain = vec![probe(true, false, false), probe(false, false, false)];
    assert_eq!(find_env_file(&chain), Some(0));
}

#[test]
fn find_env_in_parent_dir() {
    // deep, nested, then the directory holding the file
    let chain = vec![probe(false, false, false), probe(false, false, false), probe(true, false, false)];
    assert_eq!(find_env_file(&chain), Some(2));
}

#[test]
fn stop_at_git_root() {
    let chain = vec![probe(false, true, false), probe(true, false, false)];
    assert_eq!(find_env_file(&chain), None);
}

#[test]
fn stop_at_home_and_root() {
    let chain = vec![probe(false, false, false), probe(false, false, true), probe(true, false, false)];
    assert_eq!(find_env_file(&chain), None);
    let chain = vec![probe(false, false, false), probe(false, false, false)];
    assert_eq!(find_env_file(&chain), None);
    // the file beside the marker is still found
    let chain = vec![probe(true, true, false)];
    assert_eq!(find_env_file(&chain), Some(0));
}

#[test]
fn is_enciphered_detection() {
    assert!(is_enciphered("ENVCIPHER:v1:abc:def"));
    assert!(!is_enciphered("DATABASE_URL=postgres://..."));
    assert!(!is_enciphered(""));
}

#[test]
fn format_and_parse_round_trip() {
    let nonce = [1u8; NONCE_LEN];
    let ciphertext = vec![10, 20, 30, 40, 50];

    let formatted = format_enciphered_text(&nonce, &ciphertext);
    let (parsed_nonce, parsed_ciphertext) = parse_enciphered_file(&formatted).unwrap();

    assert_eq!(nonce, parsed_nonce);
    assert_eq!(ciphertext, parsed_ciphertext);
}

#[test]
fn parse_invalid_format_errors() {
    // Missing prefix
    assert!(parse_enciphered_file("abc:def").is_err());

    // Wrong part count
    assert!(parse_enciphered_file("ENVCIPHER:v1:only_one_part").is_err());

    // Invalid base64
    assert!(parse_enciphered_file("ENVCIPHER:v1:!!!:???").is_err());
}

#[test]
fn parse_faults_are_named() {
    let bad = |f| Err(EnvcipherError::InvalidFormat(f));
    assert_eq!(parse_enciphered_file("abc:def"), bad(FormatFault::MissingPrefix));
    assert_eq!(parse_enciphered_file("ENVCIPHER:v1:only_one_part"), bad(FormatFault::FieldCount));
    assert_eq!(parse_enciphered_file("ENVCIPHER:v1:a:b:c"), bad(FormatFault::FieldCount));
    assert_eq!(parse_enciphered_file("ENVCIPHER:v1:!!!:???"), bad(FormatFault::NonceEncoding));
    // "AAAA" decodes to three bytes, not twelve
    assert_eq!(parse_enciphered_file("ENVCIPHER:v1:AAAA:AAAA"), bad(FormatFault::NonceLength));
    assert_eq!(
        parse_enciphered_file("ENVCIPHER:v1:AQEBAQEBAQEBAQEB:???"),
        bad(FormatFault::CiphertextEncoding)
    );
}

#[test]
fn envelope_text_is_exact() {
    let formatted = format_enciphered_text(&[1u8; NONCE_LEN], &[10, 20, 30, 40, 50]);
    assert_eq!(formatted, "ENVCIPHER:v1:AQEBAQEBAQEBAQEB:ChQeKDI=\n");
    let (n, c) = parse_enciphered_file("  ENVCIPHER:v1:AQEBAQEBAQEBAQEB:ChQeKDI=  \n\n").unwrap();
    assert_eq!(n, [1u8; NONCE_LEN]);
    assert_eq!(c, vec![10, 20, 30, 40, 50]);
    let empty = format_enciphered_text(&[0u8; NONCE_LEN], &[]);
    assert_eq!(parse_enciphered_file(&empty).unwrap().1, Vec::<u8>::new());
}

#[test]
fn classification_of_contents() {
    let line = format_enciphered_text(&[1u8; NONCE_LEN], &[10, 20, 30]);
    assert_eq!(classify(&line), EncryptionState::Enciphered);
    assert_eq!(classify(""), EncryptionState::Plaintext);
    assert_eq!(classify("FOO=bar\n# ENVCIPHER:v1:x:y\n"), EncryptionState::Plaintext);
    let mixed = format!("FOO=bar\n{}", line);
    assert_eq!(classify(&mixed), EncryptionState::CorruptedMixed);
    assert_eq!(classify("ENVCIPHER:v1:abc:def"), EncryptionState::CorruptedMixed);
    assert_eq!(classify(&format!("{}{}", line, line)), EncryptionState::CorruptedMixed);
}

#[test]
fn corrupted_format_detection() {
    let line = format_enciphered_text(&[1u8; NONCE_LEN], &[10, 20, 30]);
    assert!(!has_corrupted_format(&line));
    assert!(!has_corrupted_format("FOO=bar"));
    assert!(has_corrupted_format(&format!("FOO=bar\n{}", line)));
    assert!(has_corrupted_format("ENVCIPHER:v1:only_one_part"));
}

#[test]
fn hash_produces_consistent_output() {
    let path = "/some/project/path";
    let hash1 = hash_directory_path(path);
    let hash2 = hash_directory_path(path);

    assert_eq!(hash1, hash2);
    assert_eq!(hash1.len(), 16);
}

#[test]
fn hash_differs_for_different_paths() {
    let hash1 = hash_directory_path("/path/one");
    let hash2 = hash_directory_path("/path/two");

    assert_ne!(hash1, hash2);
}

#[test]
fn hash_is_sha256_prefix_in_hex() {
    // SHA-256("abc") = ba7816bf8f01cfea...
    assert_eq!(hash_directory_path("abc"), "ba7816bf8f01cfea");
    assert_ne!(hash_directory_path("/p"), hash_directory_path("/p/"));
    assert!(hash_directory_path("/x").chars().all(|c| c.is_ascii_hexdigit() && !c.is_ascii_uppercase()));
}

#[test]
fn parse_env_content_handles_quotes_and_comments() {
    let content = r#"
        # Comment
        KEY=VALUE
        QUOTED="hello world"
        SINGLE='foo bar'
        EMPTY=
        "#;

    let vars = parse_env_content(content);
    assert_eq!(vars.len(), 4);
    assert_eq!(vars[0], ("KEY".to_string(), "VALUE".to_string()));
    assert_eq!(vars[1], ("QUOTED".to_string(), "hello world".to_string()));
    assert_eq!(vars[2], ("SINGLE".to_string(), "foo bar".to_string()));
    assert_eq!(vars[3], ("EMPTY".to_string(), "".to_string()));
}

#[test]
fn parse_env_content_edges() {
    let vars = parse_env_content("A = b = c \nNOEQUALS\n\"\nQ=\"\nM=\"x'\n");
    assert_eq!(
        vars,
        vec![
            ("A".to_string(), "b = c".to_string()),
            ("Q".to_string(), "\"".to_string()),
            ("M".to_string(), "\"x'".to_string()),
        ]
    );
    assert!(parse_env_content("").is_empty());
}

#[test]
fn padded_envelope_still_classifies_as_enciphered() {
    let line = format_enciphered_text(&[2u8; NONCE_LEN], &[1, 2, 3, 4]);
    let padded = format!("\n  \t{}\n\n   ", line);
    assert_eq!(classify(&padded), EncryptionState::Enciphered);
    assert!(is_enciphered(&padded));
    assert!(!is_enciphered("A=1\n\nB=ENVCIPHER:v1:x:y\n"));
}
