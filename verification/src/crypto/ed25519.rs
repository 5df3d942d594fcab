//! Ed25519 keys and signatures, through `ed25519-dalek`. Keys and signatures
//! travel as plain bytes; the curve arithmetic is the crate's.

use vstd::prelude::*;
use ed25519_dalek::{Keypair, PublicKey, SecretKey, Signature, Signer, Verifier};
use rand::RngCore;

verus! {

/// The public key `ed25519-dalek` derives from a 32-byte secret key.
pub uninterp spec fn ed25519_public_key(secret: Seq<u8>) -> Seq<u8>;

/// `Keypair::from_bytes` accepts the bytes.
pub uninterp spec fn ed25519_keypair_parses(bytes: Seq<u8>) -> bool;

/// The signature `ed25519-dalek` makes over `msg` with the key pair
/// `secret ++ public`.
pub uninterp spec fn ed25519_signature(secret: Seq<u8>, public: Seq<u8>, msg: Seq<u8>) -> Seq<u8>;

/// `ed25519-dalek` accepts `sig` as a signature over `msg` by `public`.
pub uninterp spec fn ed25519_verifies(public: Seq<u8>, msg: Seq<u8>, sig: Seq<u8>) -> bool;

/// Fills 32 bytes from the operating system's generator (`rand::rngs::OsRng`).
/// Trusted: nothing is stated of the bytes (they are random).
#[verifier::external_body]
pub(crate) fn random_seed() -> (seed: [u8; 32]) {
    let mut seed = [0u8; 32];
    rand::rngs::OsRng.fill_bytes(&mut seed);
    seed
}

/// Calls `PublicKey::from(&SecretKey)` on the secret key made from `secret`.
/// Trusted: the result is a function of `secret` alone, and `Keypair::from_bytes`
/// accepts the secret followed by it: any 32 bytes make a secret key, and the
/// public key is the compression of a curve point, which always decompresses.
#[verifier::external_body]
pub(crate) fn public_key_of(secret: &[u8; 32]) -> (public: [u8; 32])
    ensures
        public@ == ed25519_public_key(secret@),
        ed25519_keypair_parses(secret@ + public@),
{
    match SecretKey::from_bytes(secret) {
        Ok(s) => PublicKey::from(&s).to_bytes(),
        Err(_) => [0u8; 32],
    }
}

/// Calls `Keypair::from_bytes` and returns the key pair's secret and public bytes.
/// Trusted: acceptance is a function of the bytes; the crate refuses any length
/// but 64, and an accepted key pair is the first 32 bytes (secret) and the last
/// 32 bytes (public).
#[verifier::external_body]
pub(crate) fn keypair_from_bytes(bytes: &[u8]) -> (r: Option<([u8; 32], [u8; 32])>)
    ensures
        r is Some <==> ed25519_keypair_parses(bytes@),
        r is Some ==> bytes@.len() == 64,
        r is Some ==> r.unwrap().0@ == bytes@.subrange(0, 32) && r.unwrap().1@ == bytes@.subrange(32, 64),
{
    match Keypair::from_bytes(bytes) {
        Ok(k) => Some((k.secret.to_bytes(), k.public.to_bytes())),
        Err(_) => None,
    }
}

/// Calls `Signer::sign` on the key pair `secret ++ public`.
/// Trusted: it signs when `Keypair::from_bytes` accepts the key pair, and the
/// signature is a function of the key pair and the message (Ed25519 signing is
/// deterministic).
#[verifier::external_body]
pub(crate) fn sign_message(secret: &[u8; 32], public: &[u8; 32], msg: &[u8]) -> (sig: Option<[u8; 64]>)
    ensures
        sig is Some <==> ed25519_keypair_parses(secret@ + public@),
        sig is Some ==> sig.unwrap()@ == ed25519_signature(secret@, public@, msg@),
{
    let mut bytes = [0u8; 64];
    bytes[..32].copy_from_slice(secret);
    bytes[32..].copy_from_slice(public);
    match Keypair::from_bytes(&bytes) {
        Ok(k) => Some(k.sign(msg).to_bytes()),
        Err(_) => None,
    }
}

/// Calls `Verifier::verify` of the public key made from `public` on the signature
/// made from `sig`.
/// Trusted: the answer is a function of the key, the message and the signature.
#[verifier::external_body]
pub(crate) fn verify_signature(public: &[u8; 32], msg: &[u8], sig: &[u8; 64]) -> (ok: bool)
    ensures
        ok == ed25519_verifies(public@, msg@, sig@),
{
    match (PublicKey::from_bytes(public), Signature::from_bytes(sig)) {
        (Ok(pk), Ok(s)) => pk.verify(msg, &s).is_ok(),
        _ => false,
    }
}

} // verus!
