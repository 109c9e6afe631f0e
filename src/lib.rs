//! Keeps a project's `.env` file enciphered at rest, with the key held in the
//! platform credential store under an identity derived from the project directory.
pub mod crypto;
pub mod env;
pub mod error;
pub mod keystore;
pub mod unlock;
