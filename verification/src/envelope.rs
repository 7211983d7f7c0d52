//! Sealed-sender envelopes (metadata protection).
//!
//! A sealed envelope hides the sender from the transport: the relay or a mesh
//! courier sees only a fresh ephemeral key and ciphertext.
//!
//! ```text
//! eph       = fresh X25519 keypair, one per envelope
//! shared    = DH(eph_secret, recipient_identity_dh)
//! seal_key  = HKDF-SHA256(salt = "Clarity-sealed-salt-v1", ikm = shared,
//!                         info = "Clarity-sealed-v1" ‖ eph_pub ‖ recipient_dh)
//! blob      = 0x01 ‖ eph_pub(32) ‖ AEAD(seal_key, plaintext, aad = eph_pub)
//! plaintext = sender_identity_ed(32) ‖ sender_identity_dh(32) ‖ payload
//! ```
//!
//! The outer layer authenticates nobody, on purpose: authenticity comes from
//! the inner Double-Ratchet/handshake payload. There is no forward secrecy at
//! this layer.
use vstd::prelude::*;

use crate::crypto::{
    aead_max_len, hkdf_sha256, spec_hkdf_sha256, spec_x25519, spec_x25519_public, x25519_dh, x25519_public,
    x25519_random_secret, zeroize_key, zeroize_vec,
};
use crate::error::{Error, Result};
use crate::identity::Account;
use crate::kdf::{aead_open, aead_seal, spec_aead_open, spec_aead_seal};
use crate::crypto::spec_ed25519_public;

verus! {

/// Version byte prefixed to every sealed envelope.
pub const SEALED_ENVELOPE_VERSION: u8 = 1;

/// Version byte plus ephemeral public key.
pub const HEADER_LEN: usize = 33;

/// Sender identity keys at the start of the sealed plaintext.
pub const INNER_PREFIX_LEN: usize = 64;

/// HKDF salt for the seal key: `"Clarity-sealed-salt-v1"`.
pub const SEALED_SALT: [u8; 22] = [67, 108, 97, 114, 105, 116, 121, 45, 115, 101, 97, 108, 101, 100, 45, 115, 97, 108, 116, 45, 118, 49];

/// HKDF info prefix for the seal key: `"Clarity-sealed-v1"`.
pub const SEALED_INFO: [u8; 17] = [67, 108, 97, 114, 105, 116, 121, 45, 115, 101, 97, 108, 101, 100, 45, 118, 49];

/// A successfully opened sealed envelope.
#[derive(Debug, Clone, PartialEq, Eq)]
pub struct OpenedEnvelope {
    /// Sender's claimed Ed25519 identity key (authenticate via the payload!).
    pub sender_identity_ed: [u8; 32],
    /// Sender's claimed X25519 identity DH key, for sealing replies.
    pub sender_identity_dh: [u8; 32],
    /// The inner payload (an encoded wire message, to this design).
    pub payload: Vec<u8>,
}

/// The per-envelope sealing key.
pub open spec fn spec_seal_key(shared: Seq<u8>, eph_pub: Seq<u8>, recipient_dh: Seq<u8>) -> Seq<u8> {
    spec_hkdf_sha256(SEALED_SALT@, shared, SEALED_INFO@ + eph_pub + recipient_dh, 32)
}

/// The envelope sealed with ephemeral secret `eph` to `recipient_dh`, around
/// the plaintext `inner`.
pub open spec fn envelope_blob(eph: Seq<u8>, recipient_dh: Seq<u8>, inner: Seq<u8>) -> Seq<u8> {
    let eph_pub = spec_x25519_public(eph);
    seq![SEALED_ENVELOPE_VERSION] + eph_pub + spec_aead_seal(
        spec_seal_key(spec_x25519(eph, recipient_dh), eph_pub, recipient_dh),
        inner,
        eph_pub,
    )
}

/// The sealed plaintext: the sender's two identity keys, then the payload.
pub open spec fn envelope_inner(sender_ed: Seq<u8>, sender_dh: Seq<u8>, payload: Seq<u8>) -> Seq<u8> {
    sender_ed + sender_dh + payload
}

fn derive_seal_key(shared: &[u8; 32], eph_pub: &[u8; 32], recipient_dh: &[u8; 32]) -> (k: [u8; 32])
    ensures
        k@ == spec_seal_key(shared@, eph_pub@, recipient_dh@),
{
    let mut info = crate::bytes::concat(SEALED_INFO.as_slice(), eph_pub.as_slice());
    crate::bytes::push_all(&mut info, recipient_dh.as_slice());
    let okm = hkdf_sha256(SEALED_SALT.as_slice(), shared.as_slice(), info.as_slice(), 32);
    let k = crate::bytes::array32_at(okm.as_slice(), 0);
    assert(okm@.subrange(0, 32) =~= okm@);
    k
}

/// Seal `payload` to a recipient's X25519 identity DH key, embedding the
/// sender's identity keys inside the encryption. The ephemeral key is fresh
/// randomness.
pub fn seal_envelope(sender: &Account, recipient_identity_dh: &[u8; 32], payload: &[u8]) -> (blob: Vec<u8>)
    requires
        payload@.len() + INNER_PREFIX_LEN < aead_max_len(),
    ensures
        blob@.len() == HEADER_LEN + INNER_PREFIX_LEN + payload@.len() + 16,
        exists|eph: Seq<u8>|
            eph.len() == 32 && spec_x25519_public(eph).len() == 32 && blob@ == #[trigger] envelope_blob(
                eph,
                recipient_identity_dh@,
                envelope_inner(
                    spec_ed25519_public(sender@.ed_seed),
                    spec_x25519_public(sender@.dh_secret),
                    payload@,
                ),
            ),
{
    let eph_secret = x25519_random_secret();
    let eph_pub = x25519_public(&eph_secret);
    let mut shared = x25519_dh(&eph_secret, recipient_identity_dh);
    let mut seal_key = derive_seal_key(&shared, &eph_pub, recipient_identity_dh);
    zeroize_key(&mut shared);

    let mut inner = crate::bytes::slice_to_vec(sender.identity_public().as_slice());
    crate::bytes::push_all(&mut inner, sender.identity_dh_public().as_slice());
    crate::bytes::push_all(&mut inner, payload);
    let ghost inner_v = inner@;

    let ciphertext = aead_seal(&seal_key, inner.as_slice(), eph_pub.as_slice());
    zeroize_key(&mut seal_key);
    zeroize_vec(&mut inner);

    let mut blob: Vec<u8> = Vec::new();
    blob.push(SEALED_ENVELOPE_VERSION);
    crate::bytes::push_all(&mut blob, eph_pub.as_slice());
    crate::bytes::push_all(&mut blob, ciphertext.as_slice());
    proof {
        let full = envelope_inner(spec_ed25519_public(sender@.ed_seed), spec_x25519_public(sender@.dh_secret), payload@);
        assert(inner_v =~= full);
        assert(blob@ =~= envelope_blob(eph_secret@, recipient_identity_dh@, full));
        assert(blob@.len() == 1 + 32 + inner_v.len() + 16);
    }
    blob
}

/// Open a sealed envelope with the recipient's identity DH secret.
///
/// Fails opaquely ([`Error::Decrypt`]) for anything that is not a valid
/// envelope sealed to this account: too short, the wrong version byte, a
/// ciphertext that does not authenticate, or a plaintext too short to hold the
/// sender keys. An envelope sealed (with any ephemeral key) to this account's
/// identity DH key opens to exactly the sender keys and payload sealed in it.
pub fn open_envelope(recipient: &Account, blob: &[u8]) -> (r: Result<OpenedEnvelope>)
    ensures
        match r {
            Ok(env) => {
                let eph_pub = blob@.subrange(1, 33);
                let key = spec_seal_key(
                    spec_x25519(recipient@.dh_secret, eph_pub),
                    eph_pub,
                    spec_x25519_public(recipient@.dh_secret),
                );
                &&& blob@.len() > HEADER_LEN
                &&& blob@[0] == SEALED_ENVELOPE_VERSION
                &&& spec_aead_open(key, blob@.subrange(33, blob@.len() as int), eph_pub) == Some(
                    envelope_inner(env.sender_identity_ed@, env.sender_identity_dh@, env.payload@),
                )
            },
            Err(e) => {
                let eph_pub = blob@.subrange(1, 33);
                let key = spec_seal_key(
                    spec_x25519(recipient@.dh_secret, eph_pub),
                    eph_pub,
                    spec_x25519_public(recipient@.dh_secret),
                );
                &&& e == Error::Decrypt
                &&& (blob@.len() <= HEADER_LEN || blob@[0] != SEALED_ENVELOPE_VERSION || match spec_aead_open(
                    key,
                    blob@.subrange(33, blob@.len() as int),
                    eph_pub,
                ) {
                    Some(inner) => inner.len() < INNER_PREFIX_LEN,
                    None => true,
                })
            },
        },
        forall|eph: Seq<u8>, inner: Seq<u8>|
            eph.len() == 32 && spec_x25519_public(eph).len() == 32 && blob@.len() > HEADER_LEN && INNER_PREFIX_LEN <= inner.len()
                < aead_max_len() && blob@ == #[trigger] envelope_blob(
                eph,
                spec_x25519_public(recipient@.dh_secret),
                inner,
            ) ==> (r matches Ok(env) && envelope_inner(
                env.sender_identity_ed@,
                env.sender_identity_dh@,
                env.payload@,
            ) == inner),
{
    if blob.len() <= HEADER_LEN || blob[0] != SEALED_ENVELOPE_VERSION {
        proof {
            assert forall|eph: Seq<u8>, inner: Seq<u8>|
                eph.len() == 32 && spec_x25519_public(eph).len() == 32 && blob@.len() > HEADER_LEN && INNER_PREFIX_LEN <= inner.len()
                    < aead_max_len() && blob@ == #[trigger] envelope_blob(
                    eph,
                    spec_x25519_public(recipient@.dh_secret),
                    inner,
                ) implies false by {
                assert(blob@[0] == SEALED_ENVELOPE_VERSION);
            }
        }
        return Err(Error::Decrypt);
    }
    let eph_pub = crate::bytes::array32_at(blob, 1);
    let ciphertext = vstd::slice::slice_subrange(blob, HEADER_LEN, blob.len());

    let recipient_dh_pub = recipient.identity_dh_public();
    let my_dh = recipient.dh_identity();
    let mut shared = x25519_dh(&my_dh, &eph_pub);
    let ghost shared_v = shared@;
    let mut seal_key = derive_seal_key(&shared, &eph_pub, &recipient_dh_pub);
    zeroize_key(&mut shared);

    let opened = aead_open(&seal_key, ciphertext, eph_pub.as_slice());
    zeroize_key(&mut seal_key);
    proof {
        assert forall|eph: Seq<u8>, inner: Seq<u8>|
            eph.len() == 32 && spec_x25519_public(eph).len() == 32 && blob@.len() > HEADER_LEN && INNER_PREFIX_LEN <= inner.len()
                < aead_max_len() && blob@ == #[trigger] envelope_blob(
                eph,
                spec_x25519_public(recipient@.dh_secret),
                inner,
            ) implies (opened matches Ok(v) && v@ == inner) by {
            let ep = spec_x25519_public(eph);
            let rdh = spec_x25519_public(recipient@.dh_secret);
            let key = spec_seal_key(spec_x25519(eph, rdh), ep, rdh);
            assert(blob@.subrange(1, 33) =~= ep);
            assert(eph_pub@ == ep);
            assert(my_dh@ == recipient@.dh_secret);
            assert(spec_x25519(eph, spec_x25519_public(my_dh@)) == shared_v);
            assert(blob@.subrange(33, blob@.len() as int) =~= spec_aead_seal(key, inner, ep));
        }
    }
    let mut inner = match opened {
        Ok(v) => v,
        Err(e) => return Err(e),
    };
    if inner.len() < INNER_PREFIX_LEN {
        zeroize_vec(&mut inner);
        return Err(Error::Decrypt);
    }
    let sender_ed = crate::bytes::array32_at(inner.as_slice(), 0);
    let sender_dh = crate::bytes::array32_at(inner.as_slice(), 32);
    let payload = crate::bytes::slice_to_vec(vstd::slice::slice_subrange(inner.as_slice(), INNER_PREFIX_LEN, inner.len()));
    proof {
        assert(envelope_inner(sender_ed@, sender_dh@, payload@) =~= inner@);
    }
    zeroize_vec(&mut inner);
    Ok(OpenedEnvelope { sender_identity_ed: sender_ed, sender_identity_dh: sender_dh, payload })
}

} // verus!
