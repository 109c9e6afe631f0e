//! One key per project identity in the platform credential store, kept there
//! as base64 text under the service `envcipher`.
use vstd::prelude::*;

use crate::crypto::aead::key_from;
use crate::crypto::secret::SecretKey;
use crate::env::parser::{base64_bytes, base64_decode, base64_encode, base64_text};
use crate::error::{EnvcipherError, FormatFault};

verus! {

#[verifier::external_type_specification]
#[verifier::external_body]
pub struct ExEntry(keyring::Entry);

/// The service under which every key is filed.
pub const SERVICE_NAME: &'static str = "envcipher";

/// What reading an entry of the store gave.
#[derive(Debug, PartialEq, Eq)]
pub enum StoreRead {
    Found(String),
    Missing,
    Failed(String),
}

/// What deleting an entry of the store gave.
#[derive(Debug, PartialEq, Eq)]
pub enum StoreDelete {
    Deleted,
    Missing,
    Failed(String),
}

/// Relies on `keyring::Entry::new`: an entry for a service and a user, or the
/// store's error as text.
#[verifier::external_body]
fn open_entry(service: &str, user: &str) -> (r: Result<keyring::Entry, String>) {
    keyring::Entry::new(service, user).map_err(|e| e.to_string())
}

/// Relies on `keyring::Entry::get_password`: the stored text, `NoEntry` when
/// there is none, or another error.
#[verifier::external_body]
fn read_password(entry: &keyring::Entry) -> (r: StoreRead) {
    match entry.get_password() {
        Ok(p) => StoreRead::Found(p),
        Err(keyring::Error::NoEntry) => StoreRead::Missing,
        Err(e) => StoreRead::Failed(e.to_string()),
    }
}

/// Relies on `keyring::Entry::set_password`: stores the text, replacing any.
#[verifier::external_body]
fn write_password(entry: &keyring::Entry, password: &str) -> (r: Result<(), String>) {
    entry.set_password(password).map_err(|e| e.to_string())
}

/// Relies on `keyring::Entry::delete_credential`: removes the entry, `NoEntry`
/// when there was none, or another error.
#[verifier::external_body]
fn remove_credential(entry: &keyring::Entry) -> (r: StoreDelete) {
    match entry.delete_credential() {
        Ok(()) => StoreDelete::Deleted,
        Err(keyring::Error::NoEntry) => StoreDelete::Missing,
        Err(e) => StoreDelete::Failed(e.to_string()),
    }
}

/// The key that base64 text stands for, or why it is refused.
pub open spec fn decoded_key(text: Seq<char>) -> Result<Seq<u8>, FormatFault> {
    match base64_bytes(text) {
        None => Err(FormatFault::KeyEncoding),
        Some(b) => if b.len() != 32 {
            Err(FormatFault::KeyLength)
        } else {
            Ok(b)
        },
    }
}

/// Reads key material given as base64 text; it must be exactly 32 bytes.
pub fn decode_key(text: &str) -> (r: Result<SecretKey, EnvcipherError>)
    ensures
        match r {
            Ok(k) => decoded_key(text@) == Ok::<Seq<u8>, FormatFault>(k.0@),
            Err(e) => exists|f: FormatFault| e == EnvcipherError::InvalidFormat(f)
                && decoded_key(text@) == Err::<Seq<u8>, FormatFault>(f),
        },
{
    let bytes = match base64_decode(text) {
        Some(b) => b,
        None => {
            return Err(EnvcipherError::InvalidFormat(FormatFault::KeyEncoding));
        },
    };
    if bytes.len() != 32 {
        return Err(EnvcipherError::InvalidFormat(FormatFault::KeyLength));
    }
    Ok(key_from(&bytes))
}

/// The text under which a key is stored: its base64 form.
pub fn stored_form(key: &SecretKey) -> (r: String)
    ensures
        r@ == base64_text(key.0@),
        decoded_key(r@) == Ok::<Seq<u8>, FormatFault>(key.0@),
{
    base64_encode(key.as_bytes())
}

/// Whether a read found a key; a failed read is an access error.
pub fn key_presence(read: StoreRead) -> (r: Result<bool, EnvcipherError>)
    ensures
        match read {
            StoreRead::Found(_) => r == Ok::<bool, EnvcipherError>(true),
            StoreRead::Missing => r == Ok::<bool, EnvcipherError>(false),
            StoreRead::Failed(m) => r == Err::<bool, EnvcipherError>(EnvcipherError::KeychainAccess(m)),
        },
{
    match read {
        StoreRead::Found(_) => Ok(true),
        StoreRead::Missing => Ok(false),
        StoreRead::Failed(m) => Err(EnvcipherError::KeychainAccess(m)),
    }
}

/// The key that a read gives: a missing entry means the project is not
/// initialized, and stored text must decode to 32 bytes.
pub fn key_from_read(read: StoreRead) -> (r: Result<SecretKey, EnvcipherError>)
    ensures
        match read {
            StoreRead::Found(t) => match r {
                Ok(k) => decoded_key(t@) == Ok::<Seq<u8>, FormatFault>(k.0@),
                Err(e) => exists|f: FormatFault| e == EnvcipherError::InvalidFormat(f)
                    && decoded_key(t@) == Err::<Seq<u8>, FormatFault>(f),
            },
            StoreRead::Missing => r matches Err(EnvcipherError::NotInitialized),
            StoreRead::Failed(m) => r matches Err(EnvcipherError::KeychainAccess(x)) && x == m,
        },
{
    match read {
        StoreRead::Found(t) => decode_key(t.as_str()),
        StoreRead::Missing => Err(EnvcipherError::NotInitialized),
        StoreRead::Failed(m) => Err(EnvcipherError::KeychainAccess(m)),
    }
}

/// Deleting succeeds also when there was nothing to delete.
pub fn deletion_result(outcome: StoreDelete) -> (r: Result<(), EnvcipherError>)
    ensures
        match outcome {
            StoreDelete::Deleted => r is Ok,
            StoreDelete::Missing => r is Ok,
            StoreDelete::Failed(m) => r matches Err(EnvcipherError::KeychainAccess(x)) && x == m,
        },
{
    match outcome {
        StoreDelete::Deleted => Ok(()),
        StoreDelete::Missing => Ok(()),
        StoreDelete::Failed(m) => Err(EnvcipherError::KeychainAccess(m)),
    }
}

fn entry_for(directory_hash: &str) -> (r: Result<keyring::Entry, EnvcipherError>)
    ensures
        r matches Err(e) ==> e is KeychainAccess,
{
    match open_entry(SERVICE_NAME, directory_hash) {
        Ok(e) => Ok(e),
        Err(m) => Err(EnvcipherError::KeychainAccess(m)),
    }
}

/// Whether a key is stored for the identity; absence is no error.
pub fn key_exists(directory_hash: &str) -> (r: Result<bool, EnvcipherError>)
    ensures
        r matches Err(e) ==> e is KeychainAccess,
{
    let entry = entry_for(directory_hash)?;
    key_presence(read_password(&entry))
}

/// Stores the key for the identity, replacing any earlier one.
pub fn store_key(directory_hash: &str, key: &SecretKey) -> (r: Result<(), EnvcipherError>)
    ensures
        r matches Err(e) ==> e is KeychainAccess,
{
    let entry = entry_for(directory_hash)?;
    let text = stored_form(key);
    match write_password(&entry, text.as_str()) {
        Ok(()) => Ok(()),
        Err(m) => Err(EnvcipherError::KeychainAccess(m)),
    }
}

/// The key stored for the identity.
pub fn retrieve_key_from_store(directory_hash: &str) -> (r: Result<SecretKey, EnvcipherError>)
    ensures
        r matches Err(e) ==> (e is KeychainAccess || e is NotInitialized || e is InvalidFormat),
        r matches Ok(k) ==> k.0@.len() == 32,
{
    let entry = entry_for(directory_hash)?;
    key_from_read(read_password(&entry))
}

/// Removes the key for the identity; removing an absent key succeeds.
pub fn delete_key(directory_hash: &str) -> (r: Result<(), EnvcipherError>)
    ensures
        r matches Err(e) ==> e is KeychainAccess,
{
    let entry = entry_for(directory_hash)?;
    deletion_result(remove_credential(&entry))
}

/// Imports base64 key material for the identity. Material that is not valid
/// base64 or not exactly 32 bytes is refused before anything is stored.
pub fn import_key(directory_hash: &str, material: &str) -> (r: Result<(), EnvcipherError>)
    ensures
        decoded_key(material@) matches Err(f) ==> r == Err::<(), EnvcipherError>(EnvcipherError::InvalidFormat(f)),
        r matches Err(EnvcipherError::InvalidFormat(f)) ==> decoded_key(material@) == Err::<Seq<u8>, FormatFault>(f),
        r matches Err(e) ==> (e is KeychainAccess || e is InvalidFormat),
{
    let key = match decode_key(material) {
        Ok(k) => k,
        Err(e) => {
            return Err(e);
        },
    };
    store_key(directory_hash, &key)
}

} // verus!
