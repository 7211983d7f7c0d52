//! The cryptographic primitives this library builds on, each behind one small
//! trusted item. Every primitive comes from the RustCrypto / dalek crates; the
//! protocol code above only ever sees plain byte arrays.
//!
//! Deterministic primitives (hashes, HKDF, HMAC, X25519, Ed25519 signing,
//! ML-KEM decapsulation, AEAD) have their result *named* by an uninterpreted
//! spec function of their arguments. Random outputs (fresh keys, ML-KEM
//! encapsulation, the clock) get no name: only their shape is stated.
use vstd::prelude::*;

use base64::Engine;
use chacha20poly1305::aead::{Aead, Payload};
use chacha20poly1305::KeyInit;
use ed25519_dalek::{Signer, Verifier};
use hmac::Mac;
use ml_kem::kem::{Decapsulate, Encapsulate};
use ml_kem::{EncodedSizeUser, KemCore};
use sha2::Digest;
use zeroize::Zeroize;

verus! {

/// Largest plaintext (exclusive) that XChaCha20-Poly1305 accepts: the cipher
/// refuses a buffer of `64 * u32::MAX` bytes or more.
pub open spec fn aead_max_len() -> int {
    64 * 0xFFFF_FFFFint
}

/// The bytes of a successful result, if it is one.
pub open spec fn ok_bytes_view(r: Result<Vec<u8>, String>) -> Option<Seq<u8>> {
    match r {
        Ok(v) => Some(v@),
        Err(_) => None,
    }
}

/// The view of an optional byte vector.
pub open spec fn bytes_opt_view(o: Option<Vec<u8>>) -> Option<Seq<u8>> {
    match o {
        Some(v) => Some(v@),
        None => None,
    }
}

// ---------------------------------------------------------------- X25519

/// The X25519 public key of a 32-byte secret (`PublicKey::from(&StaticSecret)`).
pub uninterp spec fn spec_x25519_public(secret: Seq<u8>) -> Seq<u8>;

/// The X25519 shared secret of a 32-byte secret and a peer public key
/// (`StaticSecret::diffie_hellman`).
pub uninterp spec fn spec_x25519(secret: Seq<u8>, their_public: Seq<u8>) -> Seq<u8>;

/// `x25519_dalek::StaticSecret::random_from_rng(OsRng)`, as its 32 raw bytes.
/// The secret is OS randomness; nothing is claimed of its value.
#[verifier::external_body]
pub(crate) fn x25519_random_secret() -> (secret: [u8; 32]) {
    x25519_dalek::StaticSecret::random_from_rng(rand_core::OsRng).to_bytes()
}

/// `x25519_dalek::PublicKey::from(&StaticSecret::from(secret))`. The result is
/// named by [`spec_x25519_public`].
#[verifier::external_body]
pub(crate) fn x25519_public(secret: &[u8; 32]) -> (public: [u8; 32])
    ensures
        public@ == spec_x25519_public(secret@),
{
    let sk = x25519_dalek::StaticSecret::from(*secret);
    x25519_dalek::PublicKey::from(&sk).to_bytes()
}

/// `StaticSecret::from(secret).diffie_hellman(&PublicKey::from(their_public))`.
/// Besides naming the result, this states the Diffie-Hellman agreement that the
/// crate documents (`x25519(a, pub(b)) == x25519(b, pub(a))`): when the peer's
/// public key is derived from a secret `peer`, the peer computes the same
/// shared secret against our public key.
#[verifier::external_body]
pub(crate) fn x25519_dh(secret: &[u8; 32], their_public: &[u8; 32]) -> (shared: [u8; 32])
    ensures
        shared@ == spec_x25519(secret@, their_public@),
        forall|peer: Seq<u8>|
            peer.len() == 32 && their_public@ == spec_x25519_public(peer) ==> #[trigger] spec_x25519(
                peer,
                spec_x25519_public(secret@),
            ) == shared@,
{
    let sk = x25519_dalek::StaticSecret::from(*secret);
    sk.diffie_hellman(&x25519_dalek::PublicKey::from(*their_public)).to_bytes()
}

// --------------------------------------------------------------- Ed25519

/// The Ed25519 verifying key of a 32-byte signing seed.
pub uninterp spec fn spec_ed25519_public(seed: Seq<u8>) -> Seq<u8>;

/// The (deterministic) Ed25519 signature of `msg` under a signing seed.
pub uninterp spec fn spec_ed25519_sign(seed: Seq<u8>, msg: Seq<u8>) -> Seq<u8>;

/// Whether 32 bytes decompress to a valid Ed25519 verifying key.
pub uninterp spec fn spec_ed25519_key_valid(public: Seq<u8>) -> bool;

/// Whether `sig` is a valid Ed25519 signature of `msg` under `public`.
pub uninterp spec fn spec_ed25519_verify(public: Seq<u8>, msg: Seq<u8>, sig: Seq<u8>) -> bool;

/// `ed25519_dalek::SigningKey::generate(&mut OsRng)`, as its 32-byte seed.
/// Random; nothing is claimed of the value.
#[verifier::external_body]
pub(crate) fn ed25519_generate() -> (seed: [u8; 32]) {
    ed25519_dalek::SigningKey::generate(&mut rand_core::OsRng).to_bytes()
}

/// `SigningKey::from_bytes(seed).verifying_key().to_bytes()`. A key derived
/// from a seed is a valid curve point, so it always passes
/// `VerifyingKey::from_bytes`.
#[verifier::external_body]
pub(crate) fn ed25519_public(seed: &[u8; 32]) -> (public: [u8; 32])
    ensures
        public@ == spec_ed25519_public(seed@),
        spec_ed25519_key_valid(public@),
{
    ed25519_dalek::SigningKey::from_bytes(seed).verifying_key().to_bytes()
}

/// `SigningKey::from_bytes(seed).sign(msg).to_bytes()`. Ed25519 signing is
/// deterministic; the crate documents that a signature verifies under the
/// signer's own verifying key, which the second clause states.
#[verifier::external_body]
pub(crate) fn ed25519_sign(seed: &[u8; 32], msg: &[u8]) -> (sig: [u8; 64])
    ensures
        sig@ == spec_ed25519_sign(seed@, msg@),
        spec_ed25519_verify(spec_ed25519_public(seed@), msg@, sig@),
{
    ed25519_dalek::SigningKey::from_bytes(seed).sign(msg).to_bytes()
}

/// Whether `VerifyingKey::from_bytes(public)` succeeds.
#[verifier::external_body]
pub(crate) fn ed25519_key_valid(public: &[u8; 32]) -> (valid: bool)
    ensures
        valid == spec_ed25519_key_valid(public@),
{
    ed25519_dalek::VerifyingKey::from_bytes(public).is_ok()
}

/// `VerifyingKey::verify(msg, &Signature::from_bytes(sig)).is_ok()` for a key
/// that decodes (the `requires`), named by [`spec_ed25519_verify`].
#[verifier::external_body]
pub(crate) fn ed25519_verify(public: &[u8; 32], msg: &[u8], sig: &[u8; 64]) -> (ok: bool)
    requires
        spec_ed25519_key_valid(public@),
    ensures
        ok == spec_ed25519_verify(public@, msg@, sig@),
{
    let vk = ed25519_dalek::VerifyingKey::from_bytes(public).unwrap();
    vk.verify(msg, &ed25519_dalek::Signature::from_bytes(sig)).is_ok()
}

// ---------------------------------------------------------- ML-KEM-1024

/// Length of an ML-KEM-1024 decapsulation (private) key, in bytes.
pub const KYBER_PRIVATE_LEN: usize = 3168;

/// The encapsulation key embedded in an ML-KEM-1024 decapsulation key.
pub uninterp spec fn spec_mlkem_public(decap: Seq<u8>) -> Seq<u8>;

/// ML-KEM-1024 decapsulation of `ciphertext` under `decap`.
pub uninterp spec fn spec_mlkem_decapsulate(decap: Seq<u8>, ciphertext: Seq<u8>) -> Seq<u8>;

/// `MlKem1024::generate(&mut OsRng)`, keeping the encoded decapsulation key.
/// Random; only its length is stated.
#[verifier::external_body]
pub(crate) fn mlkem_generate() -> (decap: Vec<u8>)
    ensures
        decap@.len() == KYBER_PRIVATE_LEN,
{
    let (decap, _encap) = ml_kem::MlKem1024::generate(&mut rand_core::OsRng);
    decap.as_bytes().to_vec()
}

/// `DecapsulationKey::from_bytes(decap).encapsulation_key().as_bytes()`.
#[verifier::external_body]
pub(crate) fn mlkem_public(decap: &[u8]) -> (public: Vec<u8>)
    requires
        decap@.len() == KYBER_PRIVATE_LEN,
    ensures
        public@ == spec_mlkem_public(decap@),
        public@.len() == 1568,
{
    let arr = ml_kem::array::Array::try_from(decap).unwrap();
    let dk = <ml_kem::MlKem1024 as KemCore>::DecapsulationKey::from_bytes(&arr);
    dk.encapsulation_key().as_bytes().to_vec()
}

/// `DecapsulationKey::from_bytes(decap).decapsulate(ciphertext)` (infallible in
/// this crate version: a bad ciphertext yields the implicit-rejection secret).
#[verifier::external_body]
pub(crate) fn mlkem_decapsulate(decap: &[u8], ciphertext: &[u8]) -> (shared: [u8; 32])
    requires
        decap@.len() == KYBER_PRIVATE_LEN,
        ciphertext@.len() == 1568,
    ensures
        shared@ == spec_mlkem_decapsulate(decap@, ciphertext@),
{
    let dk = <ml_kem::MlKem1024 as KemCore>::DecapsulationKey::from_bytes(
        &ml_kem::array::Array::try_from(decap).unwrap(),
    );
    let ss = dk.decapsulate(&ml_kem::array::Array::try_from(ciphertext).unwrap()).unwrap();
    ss.into()
}

/// `EncapsulationKey::from_bytes(public).encapsulate(&mut OsRng)`: a fresh
/// (ciphertext, shared secret) pair. Random; only the ciphertext length is
/// stated. (That decapsulating the ciphertext gives back the secret holds only
/// with overwhelming probability, so it is not stated.)
#[verifier::external_body]
pub(crate) fn mlkem_encapsulate(public: &[u8]) -> (out: (Vec<u8>, [u8; 32]))
    requires
        public@.len() == 1568,
    ensures
        out.0@.len() == 1568,
{
    let ek = <ml_kem::MlKem1024 as KemCore>::EncapsulationKey::from_bytes(
        &ml_kem::array::Array::try_from(public).unwrap(),
    );
    let (ct, ss) = ek.encapsulate(&mut rand_core::OsRng).unwrap();
    (ct.to_vec(), ss.into())
}

// ------------------------------------------------------- hashes and KDFs

/// SHA-256 of `data`.
pub uninterp spec fn spec_sha256(data: Seq<u8>) -> Seq<u8>;

/// SHA-512 of `data`.
pub uninterp spec fn spec_sha512(data: Seq<u8>) -> Seq<u8>;

/// HMAC-SHA256 of `data` under `key`.
pub uninterp spec fn spec_hmac_sha256(key: Seq<u8>, data: Seq<u8>) -> Seq<u8>;

/// HKDF-SHA256 extract (with `salt`) and expand (with `info`) to `len` bytes.
pub uninterp spec fn spec_hkdf_sha256(salt: Seq<u8>, ikm: Seq<u8>, info: Seq<u8>, len: nat) -> Seq<u8>;

/// `sha2::Sha256::digest(data)`.
#[verifier::external_body]
pub(crate) fn sha256(data: &[u8]) -> (digest: [u8; 32])
    ensures
        digest@ == spec_sha256(data@),
{
    sha2::Sha256::digest(data).into()
}

/// `sha2::Sha512::digest(data)`.
#[verifier::external_body]
pub(crate) fn sha512(data: &[u8]) -> (digest: [u8; 64])
    ensures
        digest@ == spec_sha512(data@),
{
    sha2::Sha512::digest(data).into()
}

/// `Hmac::<Sha256>::new_from_slice(key)` fed `data`, finalized (HMAC accepts
/// keys of any length).
#[verifier::external_body]
pub(crate) fn hmac_sha256(key: &[u8], data: &[u8]) -> (tag: [u8; 32])
    ensures
        tag@ == spec_hmac_sha256(key@, data@),
{
    let mut mac = <hmac::Hmac<sha2::Sha256> as Mac>::new_from_slice(key).unwrap();
    mac.update(data);
    mac.finalize().into_bytes().into()
}

/// `Hkdf::<Sha256>::new(Some(salt), ikm).expand(info, &mut okm)` into `len`
/// bytes. Expansion succeeds for every `len` up to 255 hash lengths (the
/// `requires`).
#[verifier::external_body]
pub(crate) fn hkdf_sha256(salt: &[u8], ikm: &[u8], info: &[u8], len: usize) -> (okm: Vec<u8>)
    requires
        len <= 255 * 32,
    ensures
        okm@ == spec_hkdf_sha256(salt@, ikm@, info@, len as nat),
        okm@.len() == len,
{
    let mut okm = vec![0u8; len];
    hkdf::Hkdf::<sha2::Sha256>::new(Some(salt), ikm).expand(info, &mut okm).unwrap();
    okm
}

// ---------------------------------------------------- XChaCha20-Poly1305

/// XChaCha20-Poly1305 encryption of `plaintext` with `aad`.
pub uninterp spec fn spec_xchacha_seal(key: Seq<u8>, nonce: Seq<u8>, plaintext: Seq<u8>, aad: Seq<u8>) -> Seq<u8>;

/// XChaCha20-Poly1305 decryption; `None` when authentication fails.
pub uninterp spec fn spec_xchacha_open(key: Seq<u8>, nonce: Seq<u8>, ciphertext: Seq<u8>, aad: Seq<u8>) -> Option<Seq<u8>>;

/// `XChaCha20Poly1305::new(key).encrypt(nonce, Payload { msg, aad })`. The
/// cipher refuses only over-long buffers (the `requires`); the output is the
/// ciphertext followed by a 16-byte tag.
#[verifier::external_body]
pub(crate) fn xchacha_seal(key: &[u8; 32], nonce: &[u8; 24], plaintext: &[u8], aad: &[u8]) -> (ct: Vec<u8>)
    requires
        plaintext@.len() < aead_max_len(),
    ensures
        ct@ == spec_xchacha_seal(key@, nonce@, plaintext@, aad@),
        ct@.len() == plaintext@.len() + 16,
{
    let cipher = chacha20poly1305::XChaCha20Poly1305::new(key.into());
    let nonce = chacha20poly1305::XNonce::from_slice(nonce);
    cipher.encrypt(nonce, Payload { msg: plaintext, aad }).unwrap()
}

/// `XChaCha20Poly1305::new(key).decrypt(nonce, Payload { msg, aad }).ok()`.
/// Besides naming the result, this states AEAD correctness as the crate
/// documents it: opening what was sealed under the same key, nonce and
/// associated data gives back the plaintext.
#[verifier::external_body]
pub(crate) fn xchacha_open(key: &[u8; 32], nonce: &[u8; 24], ct: &[u8], aad: &[u8]) -> (pt: Option<Vec<u8>>)
    ensures
        bytes_opt_view(pt) == spec_xchacha_open(key@, nonce@, ct@, aad@),
        forall|p: Seq<u8>|
            p.len() < aead_max_len() && #[trigger] spec_xchacha_seal(key@, nonce@, p, aad@) == ct@
                ==> bytes_opt_view(pt) == Some(p),
{
    let cipher = chacha20poly1305::XChaCha20Poly1305::new(key.into());
    let nonce = chacha20poly1305::XNonce::from_slice(nonce);
    cipher.decrypt(nonce, Payload { msg: ct, aad }).ok()
}

// ------------------------------------------------------------- randomness

/// `getrandom::getrandom` into a fresh `N`-byte array. OS randomness; nothing
/// is claimed of the value. Panics if the OS cannot provide entropy: no key
/// can be made safely without it.
#[verifier::external_body]
pub(crate) fn getrandom_array<const N: usize>() -> (bytes: [u8; N]) {
    let mut buf = [0u8; N];
    getrandom::getrandom(&mut buf).unwrap();
    buf
}

// ---------------------------------------------------------------- base64

/// Standard-alphabet, padded base64 encoding of `bytes`.
pub uninterp spec fn spec_base64_encode(bytes: Seq<u8>) -> Seq<char>;

/// Standard-alphabet base64 decoding of `text`; `None` for invalid input.
pub uninterp spec fn spec_base64_decode(text: Seq<char>) -> Option<Seq<u8>>;

/// `base64::engine::general_purpose::STANDARD.encode(bytes)`.
#[verifier::external_body]
pub(crate) fn base64_encode(bytes: &[u8]) -> (text: String)
    ensures
        text@ == spec_base64_encode(bytes@),
{
    base64::engine::general_purpose::STANDARD.encode(bytes)
}

/// `STANDARD.decode(text)`, with a decoding error turned into its message.
/// Besides naming the result, this states the documented round trip:
/// decoding an encoding gives back the bytes. The error text is not stated.
#[verifier::external_body]
pub(crate) fn base64_decode(text: &str) -> (r: Result<Vec<u8>, String>)
    ensures
        ok_bytes_view(r) == spec_base64_decode(text@),
        forall|b: Seq<u8>| #[trigger] spec_base64_encode(b) == text@ ==> ok_bytes_view(r) == Some(b),
{
    match base64::engine::general_purpose::STANDARD.decode(text) {
        Ok(v) => Ok(v),
        Err(e) => Err(e.to_string()),
    }
}

// ----------------------------------------------------- memory hygiene

/// `zeroize::Zeroize::zeroize` on a 32-byte key: every byte becomes 0.
#[verifier::external_body]
pub(crate) fn zeroize_key(key: &mut [u8; 32])
    ensures
        forall|i: int| 0 <= i < 32 ==> final(key)@[i] == 0u8,
{
    key.zeroize();
}

/// `zeroize::Zeroize::zeroize` on a byte vector: the contents are wiped and the
/// vector is left empty.
#[verifier::external_body]
pub(crate) fn zeroize_vec(v: &mut Vec<u8>)
    ensures
        final(v)@.len() == 0,
{
    v.zeroize();
}

// ------------------------------------------------------------------ clock

/// Seconds since the unix epoch from `SystemTime::now()`; a clock set before
/// 1970 reads as 0. Depends on the machine's clock; nothing is claimed.
#[verifier::external_body]
pub(crate) fn now_unix() -> (secs: u64) {
    std::time::SystemTime::now().duration_since(std::time::UNIX_EPOCH).map(|d| d.as_secs()).unwrap_or(0)
}

} // verus!
