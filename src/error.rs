use vstd::prelude::*;

verus! {

/// Why an envelope, or key material, was refused.
#[derive(Debug, Clone, Copy, PartialEq, Eq, Structural)]
pub enum FormatFault {
    /// The text does not begin with `ENVCIPHER:v1:`.
    MissingPrefix,
    /// The text after the prefix is not two fields split by one colon.
    FieldCount,
    /// The nonce field is not valid base64.
    NonceEncoding,
    /// The nonce does not decode to twelve bytes.
    NonceLength,
    /// The ciphertext field is not valid base64.
    CiphertextEncoding,
    /// Key material is not valid base64.
    KeyEncoding,
    /// Key material does not decode to thirty-two bytes.
    KeyLength,
}

/// Every failure the library reports.
#[derive(Debug, PartialEq, Eq)]
pub enum EnvcipherError {
    /// The credential store could not be reached or refused the request.
    KeychainAccess(String),
    /// The cipher refused to encipher the payload.
    Encipherment,
    /// The authentication tag did not verify: wrong key, wrong nonce or tampering.
    Decipherment,
    /// Deciphered bytes are not UTF-8 text.
    NonUtf8Plaintext,
    /// No `.env` file within the project, searched from the given directory.
    EnvNotFound(String),
    AlreadyEnciphered,
    NotEnciphered,
    /// No key is stored for the project.
    NotInitialized,
    AlreadyInitialized,
    Io(String),
    EditorFailed(String),
    InvalidFormat(FormatFault),
}

} // verus!
