//! Node key pairs.

use vstd::prelude::*;
use crate::crypto::ed25519::{
    ed25519_keypair_parses, ed25519_public_key, ed25519_signature, keypair_from_bytes,
    public_key_of, random_seed, sign_message,
};

verus! {

/// An Ed25519 key pair, as its secret and public key bytes. `ed25519-dalek`
/// always accepts the pair (see `well_formed`).
pub struct KeyPair {
    secret: [u8; 32],
    public: [u8; 32],
}

impl KeyPair {
    /// `Keypair::from_bytes` accepts the secret key followed by the public key.
    #[verifier::type_invariant]
    closed spec fn well_formed(self) -> bool {
        ed25519_keypair_parses(self.secret@ + self.public@)
    }

    /// The secret key bytes.
    pub closed spec fn secret_bytes(&self) -> Seq<u8> {
        self.secret@
    }

    /// The public key bytes.
    pub closed spec fn public_bytes(&self) -> Seq<u8> {
        self.public@
    }

    /// A fresh key pair: a random secret key and the public key derived from it.
    pub fn generate() -> (k: Self)
        ensures
            k.public_bytes() == ed25519_public_key(k.secret_bytes()),
            k.secret_bytes().len() == 32,
            ed25519_keypair_parses(k.secret_bytes() + k.public_bytes()),
    {
        let secret = random_seed();
        let public = public_key_of(&secret);
        KeyPair { secret, public }
    }

    /// The public key bytes.
    pub fn public(&self) -> (p: [u8; 32])
        ensures
            p@ == self.public_bytes(),
    {
        self.public
    }

    /// The secret key bytes.
    pub fn secret(&self) -> (s: [u8; 32])
        ensures
            s@ == self.secret_bytes(),
    {
        self.secret
    }

    /// The key pair in 64 bytes: the secret key, then the public key.
    pub fn to_bytes(&self) -> (b: [u8; 64])
        ensures
            b@ == self.secret_bytes() + self.public_bytes(),
    {
        let mut b = [0u8; 64];
        let mut i: usize = 0;
        while i < 32
            invariant
                i <= 32,
                forall|t: int| 0 <= t < i ==> b@[t] == self.secret@[t],
            decreases 32 - i,
        {
            b[i] = self.secret[i];
            i = i + 1;
        }
        let mut j: usize = 0;
        while j < 32
            invariant
                j <= 32,
                forall|t: int| 0 <= t < 32 ==> b@[t] == self.secret@[t],
                forall|t: int| 0 <= t < j ==> b@[32 + t] == self.public@[t],
            decreases 32 - j,
        {
            b[32 + j] = self.public[j];
            j = j + 1;
        }
        assert(b@ =~= self.secret@ + self.public@);
        b
    }

    /// Reads a key pair from 64 bytes (secret key, then public key); `None` when
    /// `ed25519-dalek` refuses them.
    pub fn from_bytes(bytes: &[u8]) -> (r: Option<Self>)
        ensures
            r is Some <==> ed25519_keypair_parses(bytes@),
            r matches Some(k) ==> bytes@.len() == 64 && k.secret_bytes() == bytes@.subrange(0, 32)
                && k.public_bytes() == bytes@.subrange(32, 64),
    {
        match keypair_from_bytes(bytes) {
            Some(parts) => {
                assert(parts.0@ + parts.1@ =~= bytes@);
                Some(KeyPair { secret: parts.0, public: parts.1 })
            },
            None => None,
        }
    }

    /// Signs `msg`. The key pair is always accepted, so a signature always comes back.
    pub fn sign(&self, msg: &[u8]) -> (sig: Option<[u8; 64]>)
        ensures
            sig is Some,
            ed25519_keypair_parses(self.secret_bytes() + self.public_bytes()),
            sig matches Some(s) ==> s@ == ed25519_signature(self.secret_bytes(), self.public_bytes(), msg@),
    {
        proof {
            use_type_invariant(self);
        }
        sign_message(&self.secret, &self.public, msg)
    }
}

/// Reading the bytes a key pair writes gives the key pair back, whenever the
/// bytes are accepted.
pub proof fn lemma_key_bytes_round_trip(k: KeyPair)
    ensures
        (k.secret_bytes() + k.public_bytes()).subrange(0, 32) == k.secret_bytes(),
        (k.secret_bytes() + k.public_bytes()).subrange(32, 64) == k.public_bytes(),
{
    assert((k.secret_bytes() + k.public_bytes()).subrange(0, 32) =~= k.secret_bytes());
    assert((k.secret_bytes() + k.public_bytes()).subrange(32, 64) =~= k.public_bytes());
}

} // verus!
