//! Key-derivation and AEAD helpers.
//!
//! All symmetric key schedule operations live here so the ratchet and handshake
//! code reads as protocol logic, not byte-plumbing.
//!
//! * **AEAD is XChaCha20-Poly1305**, with a fresh (key, nonce) pair expanded
//!   from every (unique) ratchet message key, so nonce reuse cannot occur.
//! * **No second MAC over the packet**: the AEAD tag already authenticates.
use vstd::prelude::*;

use crate::crypto::{
    aead_max_len, getrandom_array, hkdf_sha256, hmac_sha256, spec_hkdf_sha256, spec_hmac_sha256,
    spec_xchacha_open, spec_xchacha_seal, xchacha_open, xchacha_seal, zeroize_key, zeroize_vec,
};
use crate::error::{Error, Result};

verus! {

/// HKDF info for the root-key KDF: `"ClarityRootKDF-v1"`.
pub const ROOT_KDF_INFO: [u8; 17] = [67, 108, 97, 114, 105, 116, 121, 82, 111, 111, 116, 75, 68, 70, 45, 118, 49];

/// HKDF info for per-message AEAD material: `"ClarityMsgKey-v1"`.
pub const MSG_KEY_INFO: [u8; 16] = [67, 108, 97, 114, 105, 116, 121, 77, 115, 103, 75, 101, 121, 45, 118, 49];

/// HKDF salt for the handshake root: `"Clarity-PQXDH-salt-v1"`.
pub const PQXDH_SALT: [u8; 21] = [67, 108, 97, 114, 105, 116, 121, 45, 80, 81, 88, 68, 72, 45, 115, 97, 108, 116, 45, 118, 49];

/// HKDF info for the handshake root: `"Clarity-PQXDH-root-v1"`.
pub const PQXDH_ROOT_INFO: [u8; 21] = [67, 108, 97, 114, 105, 116, 121, 45, 80, 81, 88, 68, 72, 45, 114, 111, 111, 116, 45, 118, 49];

/// Fill a fixed-size array from the operating system CSPRNG.
pub fn random_bytes<const N: usize>() -> [u8; N] {
    getrandom_array::<N>()
}

/// The root-key KDF: `HKDF-SHA256(salt = root_key, ikm = dh_output)` expanded to
/// 64 bytes, split into (next root key, chain key).
pub open spec fn spec_kdf_rk(root_key: Seq<u8>, dh_output: Seq<u8>) -> (Seq<u8>, Seq<u8>) {
    let okm = spec_hkdf_sha256(root_key, dh_output, ROOT_KDF_INFO@, 64);
    (okm.subrange(0, 32), okm.subrange(32, 64))
}

/// The chain-key KDF: `(HMAC(ck, 0x02), HMAC(ck, 0x01))`, i.e.
/// (next chain key, message key).
pub open spec fn spec_kdf_ck(chain_key: Seq<u8>) -> (Seq<u8>, Seq<u8>) {
    (spec_hmac_sha256(chain_key, seq![2u8]), spec_hmac_sha256(chain_key, seq![1u8]))
}

/// The AEAD (key, nonce) expanded from a message key.
pub open spec fn spec_message_material(message_key: Seq<u8>) -> (Seq<u8>, Seq<u8>) {
    let okm = spec_hkdf_sha256(Seq::new(32, |i: int| 0u8), message_key, MSG_KEY_INFO@, 56);
    (okm.subrange(0, 32), okm.subrange(32, 56))
}

/// The ciphertext [`aead_seal`] produces.
pub open spec fn spec_aead_seal(message_key: Seq<u8>, plaintext: Seq<u8>, ad: Seq<u8>) -> Seq<u8> {
    let (k, n) = spec_message_material(message_key);
    spec_xchacha_seal(k, n, plaintext, ad)
}

/// The plaintext [`aead_open`] recovers, if any.
pub open spec fn spec_aead_open(message_key: Seq<u8>, ciphertext: Seq<u8>, ad: Seq<u8>) -> Option<Seq<u8>> {
    let (k, n) = spec_message_material(message_key);
    spec_xchacha_open(k, n, ciphertext, ad)
}

/// The 32-byte root the Double Ratchet starts from, for handshake key material.
pub open spec fn spec_kdf_root(ikm: Seq<u8>) -> Seq<u8> {
    spec_hkdf_sha256(PQXDH_SALT@, ikm, PQXDH_ROOT_INFO@, 32)
}

/// Root-key KDF (the asymmetric / DH ratchet step).
pub fn kdf_rk(root_key: &[u8; 32], dh_output: &[u8; 32]) -> (r: ([u8; 32], [u8; 32]))
    ensures
        (r.0@, r.1@) == spec_kdf_rk(root_key@, dh_output@),
{
    let mut okm = hkdf_sha256(root_key.as_slice(), dh_output.as_slice(), ROOT_KDF_INFO.as_slice(), 64);
    let rk = crate::bytes::array32_at(okm.as_slice(), 0);
    let ck = crate::bytes::array32_at(okm.as_slice(), 32);
    zeroize_vec(&mut okm);
    (rk, ck)
}

/// Chain-key KDF (the symmetric ratchet step). Returns
/// `(next_chain_key, message_key)`. The caller discards the old chain key;
/// that one-way step is what gives forward secrecy.
pub fn kdf_ck(chain_key: &[u8; 32]) -> (r: ([u8; 32], [u8; 32]))
    ensures
        (r.0@, r.1@) == spec_kdf_ck(chain_key@),
{
    let message_key = hmac_one(chain_key, 1);
    let next_chain = hmac_one(chain_key, 2);
    (next_chain, message_key)
}

fn hmac_one(key: &[u8; 32], input: u8) -> (tag: [u8; 32])
    ensures
        tag@ == spec_hmac_sha256(key@, seq![input]),
{
    let mut data: Vec<u8> = Vec::new();
    data.push(input);
    assert(data@ =~= seq![input]);
    hmac_sha256(key.as_slice(), data.as_slice())
}

/// Expand a per-message ratchet key into an AEAD (key, nonce) pair.
fn derive_message_material(message_key: &[u8; 32]) -> (r: ([u8; 32], [u8; 24]))
    ensures
        (r.0@, r.1@) == spec_message_material(message_key@),
{
    let salt = [0u8; 32];
    assert(salt@ =~= Seq::new(32, |i: int| 0u8));
    let mut okm = hkdf_sha256(salt.as_slice(), message_key.as_slice(), MSG_KEY_INFO.as_slice(), 56);
    let key = crate::bytes::array32_at(okm.as_slice(), 0);
    let nonce = crate::bytes::array24_at(okm.as_slice(), 32);
    zeroize_vec(&mut okm);
    (key, nonce)
}

/// AEAD-seal `plaintext` under a ratchet message key, binding `associated_data`.
pub fn aead_seal(message_key: &[u8; 32], plaintext: &[u8], associated_data: &[u8]) -> (ct: Vec<u8>)
    requires
        plaintext@.len() < aead_max_len(),
    ensures
        ct@ == spec_aead_seal(message_key@, plaintext@, associated_data@),
        ct@.len() == plaintext@.len() + 16,
{
    let (mut key, nonce) = derive_message_material(message_key);
    let ct = xchacha_seal(&key, &nonce, plaintext, associated_data);
    zeroize_key(&mut key);
    ct
}

/// AEAD-open a ciphertext produced by [`aead_seal`]. Returns [`Error::Decrypt`]
/// on any failure (bad key, tampered ciphertext, or wrong associated data).
/// Opening what [`aead_seal`] produced under the same key and associated data
/// gives back the plaintext.
pub fn aead_open(message_key: &[u8; 32], ciphertext: &[u8], associated_data: &[u8]) -> (r: Result<Vec<u8>>)
    ensures
        match r {
            Ok(v) => spec_aead_open(message_key@, ciphertext@, associated_data@) == Some(v@),
            Err(e) => e == Error::Decrypt && spec_aead_open(message_key@, ciphertext@, associated_data@) is None,
        },
        forall|p: Seq<u8>|
            p.len() < aead_max_len() && #[trigger] spec_aead_seal(message_key@, p, associated_data@)
                == ciphertext@ ==> (r matches Ok(v) && v@ == p),
{
    let (mut key, nonce) = derive_message_material(message_key);
    let pt = xchacha_open(&key, &nonce, ciphertext, associated_data);
    zeroize_key(&mut key);
    match pt {
        Some(v) => Ok(v),
        None => Err(Error::Decrypt),
    }
}

/// Compress the handshake key material into the 32-byte root seed the Double
/// Ratchet starts from.
pub fn kdf_root_from_ikm(ikm: &[u8]) -> (root: [u8; 32])
    ensures
        root@ == spec_kdf_root(ikm@),
{
    let okm = hkdf_sha256(PQXDH_SALT.as_slice(), ikm, PQXDH_ROOT_INFO.as_slice(), 32);
    let root = crate::bytes::array32_at(okm.as_slice(), 0);
    assert(okm@.subrange(0, 32) =~= okm@);
    root
}

} // verus!
