//! Public keys that fragments are bound to.
use vstd::prelude::*;
use rsa::traits::PublicKeyParts;
use crate::codec::bytes_equal;

verus! {

/// An RSA public key as plain values: its modulus and its public exponent,
/// each as big-endian bytes.
#[derive(Clone, Debug, PartialEq, Eq)]
pub struct PublicKey {
    pub modulus: Vec<u8>,
    pub exponent: Vec<u8>,
}

impl View for PublicKey {
    type V = (Seq<u8>, Seq<u8>);

    open spec fn view(&self) -> (Seq<u8>, Seq<u8>) {
        (self.modulus@, self.exponent@)
    }
}

impl PublicKey {
    /// Whether two keys are the same key.
    pub fn same(&self, other: &PublicKey) -> (r: bool)
        ensures
            r == (self@ == other@),
    {
        bytes_equal(self.modulus.as_slice(), other.modulus.as_slice())
            && bytes_equal(self.exponent.as_slice(), other.exponent.as_slice())
    }
}

/// The size in bits of the key that a channel's first fragment is bound to.
pub const FRAGMENT_KEY_BITS: usize = 256;

/// Relies on `rsa::RsaPrivateKey::new` (with the operating system's random
/// source) and `RsaPrivateKey::to_public_key`: the public half of a freshly
/// generated key pair of `bits` bits, as modulus and exponent bytes; `None`
/// when generation fails. Nothing is known of the key.
#[verifier::external_body]
pub(crate) fn fresh_public_key(bits: usize) -> (r: Option<PublicKey>) {
    match rsa::RsaPrivateKey::new(&mut chacha20poly1305::aead::OsRng, bits) {
        Ok(k) => {
            let p = k.to_public_key();
            Some(PublicKey { modulus: p.n().to_bytes_be(), exponent: p.e().to_bytes_be() })
        },
        Err(_) => None,
    }
}

} // verus!
