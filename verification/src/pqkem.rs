//! Byte-oriented ML-KEM-1024 (FIPS 203) keypairs for the post-quantum leg of
//! the handshake. ML-KEM is used only for the *initial* handshake (see
//! [`crate::handshake`]), giving "harvest-now, decrypt-later" protection; the
//! ongoing Double Ratchet stays classical, as in Signal's PQXDH.
use vstd::prelude::*;

use crate::crypto::{
    mlkem_decapsulate, mlkem_encapsulate, mlkem_generate, mlkem_public, spec_mlkem_decapsulate,
    spec_mlkem_public, KYBER_PRIVATE_LEN,
};
use crate::error::{Error, Result};

verus! {

/// Length of an ML-KEM-1024 encapsulation (public) key, in bytes.
pub const KYBER_PUBLIC_LEN: usize = 1568;
/// Length of an ML-KEM-1024 ciphertext, in bytes.
pub const KYBER_CIPHERTEXT_LEN: usize = 1568;
/// Length of the derived shared secret, in bytes.
pub const KYBER_SHARED_LEN: usize = 32;

/// An ML-KEM-1024 keypair, held as its encoded decapsulation key (which embeds
/// the encapsulation key).
pub struct KyberKeyPair {
    decap: Vec<u8>,
}

impl View for KyberKeyPair {
    type V = Seq<u8>;

    /// The encoded decapsulation key.
    closed spec fn view(&self) -> Seq<u8> {
        self.decap@
    }
}

impl KyberKeyPair {
    #[verifier::type_invariant]
    spec fn inv(self) -> bool {
        self.decap@.len() == KYBER_PRIVATE_LEN
    }

    /// Generate a new ML-KEM-1024 keypair from the OS CSPRNG.
    pub fn generate() -> (k: Self)
        ensures
            k@.len() == KYBER_PRIVATE_LEN,
    {
        KyberKeyPair { decap: mlkem_generate() }
    }

    /// The public (encapsulation) key, serialized to [`KYBER_PUBLIC_LEN`] bytes.
    pub fn public_bytes(&self) -> (v: Vec<u8>)
        ensures
            v@ == spec_mlkem_public(self@),
            v@.len() == KYBER_PUBLIC_LEN,
    {
        proof {
            use_type_invariant(self);
        }
        mlkem_public(self.decap.as_slice())
    }

    /// Serialize the private (decapsulation) key so an account can be persisted.
    pub fn private_bytes(&self) -> (v: Vec<u8>)
        ensures
            v@ == self@,
            v@.len() == KYBER_PRIVATE_LEN,
    {
        proof {
            use_type_invariant(self);
        }
        crate::bytes::copy_vec(&self.decap)
    }

    /// Reconstruct a keypair from previously serialized private-key bytes;
    /// [`Error::MalformedKey`] exactly when the length is wrong.
    pub fn from_private_bytes(bytes: &[u8]) -> (r: Result<Self>)
        ensures
            match r {
                Ok(k) => bytes@.len() == KYBER_PRIVATE_LEN && k@ == bytes@,
                Err(e) => bytes@.len() != KYBER_PRIVATE_LEN && e == Error::MalformedKey,
            },
    {
        if bytes.len() != KYBER_PRIVATE_LEN {
            return Err(Error::MalformedKey);
        }
        Ok(KyberKeyPair { decap: crate::bytes::slice_to_vec(bytes) })
    }

    /// Decapsulate a ciphertext to recover the shared secret;
    /// [`Error::MalformedKey`] exactly when the ciphertext length is wrong.
    pub fn decapsulate(&self, ciphertext: &[u8]) -> (r: Result<[u8; KYBER_SHARED_LEN]>)
        ensures
            match r {
                Ok(ss) => ciphertext@.len() == KYBER_CIPHERTEXT_LEN && ss@ == spec_mlkem_decapsulate(
                    self@,
                    ciphertext@,
                ),
                Err(e) => ciphertext@.len() != KYBER_CIPHERTEXT_LEN && e == Error::MalformedKey,
            },
    {
        proof {
            use_type_invariant(self);
        }
        if ciphertext.len() != KYBER_CIPHERTEXT_LEN {
            return Err(Error::MalformedKey);
        }
        Ok(mlkem_decapsulate(self.decap.as_slice(), ciphertext))
    }
}

/// Encapsulate to a peer's public key. Returns `(ciphertext, shared_secret)`;
/// [`Error::MalformedKey`] exactly when the key length is wrong.
pub fn encapsulate(public_key: &[u8]) -> (r: Result<(Vec<u8>, [u8; KYBER_SHARED_LEN])>)
    ensures
        match r {
            Ok((ct, _)) => public_key@.len() == KYBER_PUBLIC_LEN && ct@.len() == KYBER_CIPHERTEXT_LEN,
            Err(e) => public_key@.len() != KYBER_PUBLIC_LEN && e == Error::MalformedKey,
        },
{
    if public_key.len() != KYBER_PUBLIC_LEN {
        return Err(Error::MalformedKey);
    }
    Ok(mlkem_encapsulate(public_key))
}

} // verus!
