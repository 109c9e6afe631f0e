//! The key, wiped from memory when it is dropped.
use vstd::prelude::*;

verus! {

/// A 256-bit key. Its bytes are overwritten with zeros when it is dropped.
pub struct SecretKey(pub [u8; 32]);

/// Relies on `zeroize::Zeroize` for byte arrays: every byte is overwritten
/// with zero, by writes the compiler does not remove.
#[verifier::external_body]
fn zeroize_bytes(b: &mut [u8; 32])
    ensures
        forall|i: int| 0 <= i < 32 ==> final(b)@[i] == 0u8,
    opens_invariants none
    no_unwind
{
    zeroize::Zeroize::zeroize(b)
}

impl SecretKey {
    pub fn new(key: [u8; 32]) -> (r: Self)
        ensures
            r.0@ == key@,
    {
        SecretKey(key)
    }

    pub fn as_bytes(&self) -> (r: &[u8])
        ensures
            r@ == self.0@,
            r@.len() == 32,
    {
        self.0.as_slice()
    }

    /// Overwrites every byte of the key with zero.
    pub fn wipe(&mut self)
        ensures
            forall|i: int| 0 <= i < 32 ==> final(self).0@[i] == 0u8,
        opens_invariants none
        no_unwind
    {
        zeroize_bytes(&mut self.0);
    }
}

impl Drop for SecretKey {
    fn drop(&mut self)
        opens_invariants none
        no_unwind
    {
        self.wipe();
    }
}

} // verus!
