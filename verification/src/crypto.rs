//! Keys and signatures over secp256k1, held as their bytes.

use vstd::prelude::*;
use ecdsa::signature::Verifier;
use k256::Secp256k1;
use crate::u256::le_bytes;

verus! {

/// Whether `signature` (the 64 bytes `r || s`) is a valid ECDSA signature by
/// the SEC1-encoded secp256k1 key `key` of the message `message`.
pub uninterp spec fn ecdsa_verifies(key: Seq<u8>, message: Seq<u8>, signature: Seq<u8>) -> bool;

/// Parses `key` with `ecdsa::VerifyingKey::<Secp256k1>::from_sec1_bytes` and `signature`
/// with `ecdsa::Signature::<Secp256k1>::from_slice`, then calls `Verifier::verify` on the
/// message. A key or signature that does not parse verifies nothing. The result is
/// named, not stated.
#[verifier::external_body]
fn ecdsa_verify(key: &[u8; 33], message: &[u8; 32], signature: &[u8; 64]) -> (r: bool)
    ensures
        r == ecdsa_verifies(key@, message@, signature@),
{
    match (
        ecdsa::VerifyingKey::<Secp256k1>::from_sec1_bytes(key),
        ecdsa::Signature::<Secp256k1>::from_slice(signature),
    ) {
        (Ok(k), Ok(s)) => k.verify(message, &s).is_ok(),
        _ => false,
    }
}

/// An ECDSA signature over secp256k1: the 64 bytes `r || s`.
#[derive(Clone, Copy, Debug)]
pub struct Signature(pub [u8; 64]);

/// A secp256k1 public key in compressed SEC1 form.
#[derive(Clone, Copy, Debug)]
pub struct PublicKey(pub [u8; 33]);

/// A secp256k1 private key: its 32-byte scalar.
#[derive(Clone, Copy, Debug)]
pub struct PrivateKey(pub [u8; 32]);

impl Signature {
    /// Whether this is a signature by `pubkey` of the 32 bytes of `hash`
    /// (least significant byte first).
    pub fn verify(&self, hash: &crate::sha256::Hash, pubkey: &PublicKey) -> (r: bool)
        ensures
            r == ecdsa_verifies(pubkey.0@, le_bytes(hash@, 32), self.0@),
    {
        let message = hash.to_bytes();
        ecdsa_verify(&pubkey.0, &message, &self.0)
    }
}

} // verus!
