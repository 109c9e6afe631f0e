pub mod aead;
pub mod secret;
