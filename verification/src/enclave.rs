//! Trusted Execution Environment (TEE) boundary.
//!
//! All long-term and session secrets live behind a seal, and the untrusted
//! host only ever holds opaque [`Sealed`] blobs and ciphertext. The
//! [`Enclave`] is stateless between calls: sealed state goes in and new sealed
//! state comes out, which is exactly the shape one marshals across an SGX
//! `ECALL`, a TrustZone secure-world call or a StrongBox operation.
//!
//! This is a software reference of the boundary: the sealing key is drawn
//! from OS entropy and held in process memory, where a real TEE derives it in
//! hardware and never lets it out.
use vstd::prelude::*;

use crate::crypto::{aead_max_len, spec_ed25519_key_valid, spec_ed25519_public, spec_x25519_public, zeroize_vec};
use crate::error::{wire_error, Error, Result};
use crate::identity::{
    account_decodes_to, account_record_at, account_record_kyber_ok, account_view_wf, bundle_signatures_ok,
    lemma_account_bytes_readable, lemma_account_encoding_len, lemma_account_round_trip, publics_of,
    spec_account_encoding, spec_bundle, Account, AccountView, DEFAULT_ONE_TIME_PREKEYS,
};
use crate::kdf::{aead_open, aead_seal, random_bytes, spec_aead_open, spec_aead_seal};
use crate::codec::{is_prefix, FieldV};
use crate::session::{
    decrypt_error, decrypted, encodable, encrypt_error, encrypted, initiate_error, initiated, lemma_session_round_trip,
    pending_view, respond_account, respond_error, responded, spec_session_encoding, Session, SessionView,
};
use crate::wire::{Message, OneTimePrekeyPublics, PreKeyBundle};

verus! {

/// Sealing context for accounts: `"Clarity-seal-account-v1"`.
pub const SEAL_AD_ACCOUNT: [u8; 23] = [67, 108, 97, 114, 105, 116, 121, 45, 115, 101, 97, 108, 45, 97, 99, 99, 111, 117, 110, 116, 45, 118, 49];

/// Sealing context for sessions: `"Clarity-seal-session-v1"`.
pub const SEAL_AD_SESSION: [u8; 23] = [67, 108, 97, 114, 105, 116, 121, 45, 115, 101, 97, 108, 45, 115, 101, 115, 115, 105, 111, 110, 45, 118, 49];

/// An opaque, sealed blob. Only the [`Enclave`] that sealed it (the holder of
/// the sealing key) can open it. To the untrusted host this is ciphertext.
#[derive(Clone, Debug, PartialEq, Eq)]
pub struct Sealed(pub Vec<u8>);

impl Sealed {
    /// The raw sealed bytes, for the host to persist.
    pub fn as_bytes(&self) -> (b: &[u8])
        ensures
            b@ == self.0@,
    {
        self.0.as_slice()
    }

    /// Wrap raw sealed bytes read back from host storage.
    pub fn from_bytes(bytes: Vec<u8>) -> (s: Sealed)
        ensures
            s.0@ == bytes@,
    {
        Sealed(bytes)
    }
}

/// The trusted core. Owns the sealing key; exposes only sealed-in /
/// sealed-out operations.
pub struct Enclave {
    seal_key: [u8; 32],
}

impl View for Enclave {
    type V = Seq<u8>;

    /// The sealing key.
    closed spec fn view(&self) -> Seq<u8> {
        self.seal_key@
    }
}

/// `blob` opens under `key` in the account context to the encoding of the
/// live account `a`.
pub open spec fn opened_account(key: Seq<u8>, blob: Seq<u8>, a: AccountView) -> bool {
    spec_aead_open(key, blob, SEAL_AD_ACCOUNT@) matches Some(bytes) && account_decodes_to(bytes, a) && account_view_wf(
        a,
    )
}

/// Why a sealed account fails to open: it does not authenticate
/// ([`Error::Decrypt`]), holds no account record ([`Error::Wire`]), or holds
/// one with a malformed Kyber key ([`Error::MalformedKey`]).
pub open spec fn account_open_error(key: Seq<u8>, blob: Seq<u8>, e: Error) -> bool {
    match spec_aead_open(key, blob, SEAL_AD_ACCOUNT@) {
        None => e == Error::Decrypt,
        Some(bytes) => {
            ||| !account_record_at(bytes) && e is Wire
            ||| account_record_at(bytes) && !account_record_kyber_ok(bytes) && e == Error::MalformedKey
        },
    }
}

/// `blob` opens under `key` in the session context to the encoding of `v`.
pub open spec fn opened_session(key: Seq<u8>, blob: Seq<u8>, v: SessionView) -> bool {
    spec_aead_open(key, blob, SEAL_AD_SESSION@) matches Some(bytes) && encodable(v) && is_prefix(
        spec_session_encoding(v),
        bytes,
    )
}

/// Why a sealed session fails to open: it does not authenticate
/// ([`Error::Decrypt`]) or holds no session encoding ([`Error::Wire`]).
pub open spec fn session_open_error(key: Seq<u8>, blob: Seq<u8>, e: Error) -> bool {
    match spec_aead_open(key, blob, SEAL_AD_SESSION@) {
        None => e == Error::Decrypt,
        Some(bytes) => e is Wire && forall|v: SessionView|
            encodable(v) ==> !is_prefix(#[trigger] spec_session_encoding(v), bytes),
    }
}

/// `blob` is `bytes` sealed under `key` in `context`.
pub open spec fn sealed_as(key: Seq<u8>, blob: Seq<u8>, context: Seq<u8>, bytes: Seq<u8>) -> bool {
    blob == spec_aead_seal(key, bytes, context)
}

/// `blob` opens under `key` in `context` to exactly `bytes`.
pub open spec fn opens_to(key: Seq<u8>, blob: Seq<u8>, context: Seq<u8>, bytes: Seq<u8>) -> bool {
    spec_aead_open(key, blob, context) == Some(bytes)
}

/// `blob` is the sealing under `key` of the (live) account `a`.
pub open spec fn account_sealed(key: Seq<u8>, blob: Seq<u8>, a: AccountView) -> bool {
    &&& account_view_wf(a)
    &&& a.one_time_prekeys.len() <= u64::MAX
    &&& spec_account_encoding(a).len() < aead_max_len()
    &&& sealed_as(key, blob, SEAL_AD_ACCOUNT@, spec_account_encoding(a))
}

/// `blob` is the sealing under `key` of the session state `v`.
pub open spec fn session_sealed(key: Seq<u8>, blob: Seq<u8>, v: SessionView) -> bool {
    &&& encodable(v)
    &&& spec_session_encoding(v).len() < aead_max_len()
    &&& sealed_as(key, blob, SEAL_AD_SESSION@, spec_session_encoding(v))
}

/// An account the enclave sealed opens again as that very account: opening
/// it cannot fail, and the live account it yields is the one sealed.
pub proof fn lemma_sealed_account_opens(key: Seq<u8>, blob: Seq<u8>, a: AccountView, b: AccountView, e: Error)
    requires
        account_view_wf(a),
        a.one_time_prekeys.len() <= u64::MAX,
        opens_to(key, blob, SEAL_AD_ACCOUNT@, spec_account_encoding(a)),
    ensures
        !account_open_error(key, blob, e),
        opened_account(key, blob, b) ==> b == a,
{
    lemma_account_bytes_readable(a);
    if opened_account(key, blob, b) {
        lemma_account_round_trip(a, b);
    }
}

/// A session state the enclave sealed opens again as that state (the same
/// ratchet, associated data and pending handshake): opening it cannot fail.
pub proof fn lemma_sealed_session_opens(key: Seq<u8>, blob: Seq<u8>, v: SessionView, w: SessionView, e: Error)
    requires
        encodable(v),
        opens_to(key, blob, SEAL_AD_SESSION@, spec_session_encoding(v)),
    ensures
        !session_open_error(key, blob, e),
        opened_session(key, blob, w) ==> w.ratchet == v.ratchet && w.ad_prefix == v.ad_prefix && pending_view(
            w.pending,
        ) == pending_view(v.pending),
{
    let t = spec_session_encoding(v);
    assert(t.subrange(0, t.len() as int) =~= t);
    assert(is_prefix(spec_session_encoding(v), t));
    if opened_session(key, blob, w) {
        lemma_session_round_trip(v, w);
    }
}

/// The base bundle an account publishes: its bundle without a one-time
/// prekey.
pub open spec fn base_bundle(a: AccountView) -> Seq<FieldV> {
    spec_bundle(a).update(9, FieldV::OptFixed(None)).update(10, FieldV::OptU32(None))
}

/// `blob` seals (under `key`) a fresh account with the default number of
/// one-time prekeys, numbered from 0, whose identity key is `identity`.
pub open spec fn created_account(key: Seq<u8>, blob: Seq<u8>, identity: Seq<u8>) -> bool {
    exists|a: AccountView|
        a.one_time_prekeys.len() == DEFAULT_ONE_TIME_PREKEYS && a.next_opk_id == DEFAULT_ONE_TIME_PREKEYS && identity
            == spec_ed25519_public(a.ed_seed) && (forall|i: int|
            0 <= i < a.one_time_prekeys.len() ==> a.one_time_prekeys[i].0 == i) && #[trigger] account_sealed(
            key,
            blob,
            a,
        )
}

/// An account the enclave created publishes what it was created with: opening
/// it cannot fail, and its published bundle names the identity that
/// [`Enclave::create_account`] returned, passes [`crate::identity::verify_bundle`]
/// and carries no one-time prekey, while
/// the pool lists the default number of one-time prekeys with ids 0, 1, 2, …
/// in order. (The premise on opening is what [`Enclave::account_bundle`]
/// ensures.)
pub proof fn lemma_created_account_publishes(
    key: Seq<u8>,
    blob: Seq<u8>,
    identity: Seq<u8>,
    b: PreKeyBundle,
    otps: Seq<(u32, [u8; 32])>,
    e: Error,
)
    requires
        created_account(key, blob, identity),
        forall|a: AccountView| #[trigger]
            account_sealed(key, blob, a) ==> opens_to(key, blob, SEAL_AD_ACCOUNT@, spec_account_encoding(a)),
    ensures
        !account_open_error(key, blob, e),
        bundle_published(key, blob, b, otps) ==> {
            &&& b.identity_ed@ == identity
            &&& spec_ed25519_key_valid(b.identity_ed@) && bundle_signatures_ok(b)
            &&& b.one_time_prekey is None
            &&& b.one_time_prekey_id is None
            &&& otps.len() == DEFAULT_ONE_TIME_PREKEYS
            &&& forall|i: int| 0 <= i < otps.len() ==> #[trigger] otps[i].0 == i
        },
{
    let a = choose|a: AccountView|
        a.one_time_prekeys.len() == DEFAULT_ONE_TIME_PREKEYS && a.next_opk_id == DEFAULT_ONE_TIME_PREKEYS && identity
            == spec_ed25519_public(a.ed_seed) && (forall|i: int|
            0 <= i < a.one_time_prekeys.len() ==> a.one_time_prekeys[i].0 == i) && #[trigger] account_sealed(
            key,
            blob,
            a,
        );
    lemma_sealed_account_opens(key, blob, a, a, e);
    if bundle_published(key, blob, b, otps) {
        let a2 = choose|a2: AccountView|
            opened_account(key, blob, a2) && b@ == base_bundle(a2) && b.identity_ed@ == spec_ed25519_public(a2.ed_seed)
                && spec_ed25519_key_valid(b.identity_ed@) && bundle_signatures_ok(b) && #[trigger] publics_of(otps, a2);
        lemma_sealed_account_opens(key, blob, a, a2, e);
        assert(b@[9] == FieldV::OptFixed(None));
        assert(b@[10] == FieldV::OptU32(None));
        assert forall|i: int| 0 <= i < otps.len() implies #[trigger] otps[i].0 == i by {
            assert(otps[i].0 == a2.one_time_prekeys[i].0);
        }
    }
}

/// The published material of the account sealed in `blob`: its base bundle
/// (signed, with no one-time prekey) and its one-time prekey publics.
pub open spec fn bundle_published(key: Seq<u8>, blob: Seq<u8>, b: PreKeyBundle, otps: Seq<(u32, [u8; 32])>) -> bool {
    exists|a: AccountView|
        opened_account(key, blob, a) && b@ == base_bundle(a) && b.identity_ed@ == spec_ed25519_public(a.ed_seed)
            && spec_ed25519_key_valid(b.identity_ed@) && bundle_signatures_ok(b) && #[trigger] publics_of(otps, a)
}

/// The sealed account `blob` answered `m`: the account re-sealed in
/// `account_blob` and the session sealed in `session_blob` are those
/// [`Session::respond`] leaves, and `pt` is the first plaintext.
pub open spec fn responded_sealed(
    key: Seq<u8>,
    blob: Seq<u8>,
    m: Message,
    account_blob: Seq<u8>,
    session_blob: Seq<u8>,
    pt: Seq<u8>,
) -> bool {
    exists|a: AccountView, a2: AccountView, v: SessionView|
        #![trigger respond_account(a, a2, m), responded(a, m, v, pt)]
        opened_account(key, blob, a) && respond_account(a, a2, m) && responded(a, m, v, pt) && account_sealed(
            key,
            account_blob,
            a2,
        ) && session_sealed(key, session_blob, v)
}

/// The sealed session `blob` decrypted `m` to `pt`, and `new_blob` seals the
/// advanced session.
pub open spec fn decrypted_sealed(key: Seq<u8>, blob: Seq<u8>, m: Message, new_blob: Seq<u8>, pt: Seq<u8>) -> bool {
    exists|v: SessionView, w: SessionView|
        opened_session(key, blob, v) && #[trigger] decrypted(v, w, m, pt) && session_sealed(key, new_blob, w)
}

/// Whether `bytes` is short enough for the cipher to seal.
fn sealable(bytes: &Vec<u8>) -> (ok: bool)
    ensures
        ok == (bytes@.len() < aead_max_len()),
{
    (bytes.len() as u64) < 274_877_906_880u64
}

impl Enclave {
    /// Initialize a new enclave with a fresh sealing key from OS entropy.
    pub fn initialize() -> (e: Self)
        ensures
            e@.len() == 32,
    {
        Enclave { seal_key: random_bytes::<32>() }
    }

    /// Reconstruct an enclave from a previously held sealing key.
    pub fn from_seal_key(seal_key: [u8; 32]) -> (e: Self)
        ensures
            e@ == seal_key@,
    {
        Enclave { seal_key }
    }

    /// Export the sealing key (software reference only; a real TEE never lets
    /// it leave secure hardware).
    pub fn seal_key(&self) -> (k: [u8; 32])
        ensures
            k@ == self@,
    {
        self.seal_key
    }

    // --- Account operations ------------------------------------------------

    /// Create a new identity inside the enclave. Returns the sealed account
    /// (for the host to persist) and the public identity key.
    pub fn create_account(&self) -> (r: (Sealed, [u8; 32]))
        ensures
            created_account(self@, r.0.0@, r.1@),
    {
        let account = Account::generate();
        account.check_wf();
        let identity = account.identity_public();
        let bytes = account.to_bytes();
        proof {
            lemma_account_encoding_len(account@);
        }
        let sealed = self.seal_secret(SEAL_AD_ACCOUNT.as_slice(), bytes);
        assert(sealed_as(self@, sealed.0@, SEAL_AD_ACCOUNT@, spec_account_encoding(account@)));
        assert(account_view_wf(account@));
        assert(account_sealed(self@, sealed.0@, account@));
        assert(forall|i: int| 0 <= i < account@.one_time_prekeys.len() ==> account@.one_time_prekeys[i].0 == i);
        assert(account@.one_time_prekeys.len() == DEFAULT_ONE_TIME_PREKEYS);
        assert(account@.next_opk_id == DEFAULT_ONE_TIME_PREKEYS);
        assert(identity@ == spec_ed25519_public(account@.ed_seed));
        (sealed, identity)
    }

    /// The public prekey material to upload to a relay: the base bundle (no
    /// one-time prekey) and the pool of one-time prekey publics.
    pub fn account_bundle(&self, sealed_account: &Sealed) -> (r: Result<(PreKeyBundle, OneTimePrekeyPublics)>)
        ensures
            match r {
                Ok((b, otps)) => bundle_published(self@, sealed_account.0@, b, otps@),
                Err(e) => account_open_error(self@, sealed_account.0@, e),
            },
            forall|a: AccountView| #[trigger]
                account_sealed(self@, sealed_account.0@, a) ==> opens_to(
                    self@,
                    sealed_account.0@,
                    SEAL_AD_ACCOUNT@,
                    spec_account_encoding(a),
                ),
    {
        let account = match self.open_account(sealed_account) {
            Ok(a) => a,
            Err(e) => return Err(e),
        };
        let mut base = account.bundle();
        base.one_time_prekey = None;
        base.one_time_prekey_id = None;
        let otps = account.one_time_prekey_publics();
        proof {
            assert(base@ =~= base_bundle(account@));
            assert(publics_of(otps@, account@));
        }
        Ok((base, otps))
    }

    // --- Session operations (stateless: sealed in, sealed out) -------------

    /// Begin a session with a contact from their bundle, as
    /// [`Session::initiate`] does for the sealed account. Returns the sealed
    /// session state. [`Error::Wire`] also when the session state is too large
    /// for the cipher to seal.
    pub fn initiate(&self, sealed_account: &Sealed, bundle: &PreKeyBundle) -> (r: Result<Sealed>)
        ensures
            match r {
                Ok(s) => exists|a: AccountView, v: SessionView|
                    opened_account(self@, sealed_account.0@, a) && #[trigger] initiated(a, *bundle, v) && encodable(v)
                        && sealed_as(self@, s.0@, SEAL_AD_SESSION@, spec_session_encoding(v)),
                Err(e) => {
                    ||| account_open_error(self@, sealed_account.0@, e)
                    ||| exists|a: AccountView|
                        #[trigger] opened_account(self@, sealed_account.0@, a) && initiate_error(*bundle, e)
                    ||| e is Wire && exists|a: AccountView, v: SessionView|
                        opened_account(self@, sealed_account.0@, a) && #[trigger] initiated(a, *bundle, v)
                            && spec_session_encoding(v).len() >= aead_max_len()
                },
            },
            forall|a: AccountView| #[trigger]
                account_sealed(self@, sealed_account.0@, a) ==> opens_to(
                    self@,
                    sealed_account.0@,
                    SEAL_AD_ACCOUNT@,
                    spec_account_encoding(a),
                ),
    {
        let account = match self.open_account(sealed_account) {
            Ok(a) => a,
            Err(e) => return Err(e),
        };
        let session = match Session::initiate(&account, bundle) {
            Ok(s) => s,
            Err(e) => return Err(e),
        };
        let bytes = session.serialize();
        if !sealable(&bytes) {
            assert(initiated(account@, *bundle, session@));
            return Err(wire_error("session state too large to seal"));
        }
        let sealed = self.seal_secret(SEAL_AD_SESSION.as_slice(), bytes);
        assert(initiated(account@, *bundle, session@));
        Ok(sealed)
    }

    /// Accept an inbound first message, as [`Session::respond`] does for the
    /// sealed account. Returns the re-sealed account (a one-time prekey was
    /// consumed), the sealed session, and the first plaintext. [`Error::Wire`]
    /// also when a state is too large for the cipher to seal.
    pub fn respond(&self, sealed_account: &Sealed, first_message: &Message) -> (r: Result<(Sealed, Sealed, Vec<u8>)>)
        ensures
            match r {
                Ok((acct, sess, pt)) => responded_sealed(self@, sealed_account.0@, *first_message, acct.0@, sess.0@, pt@),
                Err(e) => {
                    ||| account_open_error(self@, sealed_account.0@, e)
                    ||| exists|a: AccountView|
                        #[trigger] opened_account(self@, sealed_account.0@, a) && respond_error(a, *first_message, e)
                    ||| e is Wire && exists|
                        a: AccountView,
                        a2: AccountView,
                        v: SessionView,
                        pt: Seq<u8>,
                    |
                        #![trigger respond_account(a, a2, *first_message), responded(a, *first_message, v, pt)]
                        opened_account(self@, sealed_account.0@, a) && respond_account(a, a2, *first_message)
                            && responded(a, *first_message, v, pt) && (spec_account_encoding(a2).len()
                            >= aead_max_len() || spec_session_encoding(v).len() >= aead_max_len())
                },
            },
            forall|a: AccountView| #[trigger]
                account_sealed(self@, sealed_account.0@, a) ==> opens_to(
                    self@,
                    sealed_account.0@,
                    SEAL_AD_ACCOUNT@,
                    spec_account_encoding(a),
                ),
    {
        let mut account = match self.open_account(sealed_account) {
            Ok(a) => a,
            Err(e) => return Err(e),
        };
        let ghost a0 = account@;
        let (session, plaintext) = match Session::respond(&mut account, first_message) {
            Ok(p) => p,
            Err(e) => return Err(e),
        };
        let account_bytes = account.to_bytes();
        let session_bytes = session.serialize();
        assert(respond_account(a0, account@, *first_message));
        assert(responded(a0, *first_message, session@, plaintext@));
        if !sealable(&account_bytes) || !sealable(&session_bytes) {
            return Err(wire_error("state too large to seal"));
        }
        account.check_wf();
        account.check_pool_len();
        let new_account = self.seal_secret(SEAL_AD_ACCOUNT.as_slice(), account_bytes);
        let sealed_session = self.seal_secret(SEAL_AD_SESSION.as_slice(), session_bytes);
        assert(sealed_as(self@, sealed_session.0@, SEAL_AD_SESSION@, spec_session_encoding(session@)));
        assert(account_sealed(self@, new_account.0@, account@));
        assert(session_sealed(self@, sealed_session.0@, session@));
        Ok((new_account, sealed_session, plaintext))
    }

    /// Encrypt a message with the sealed session, as [`Session::encrypt`]
    /// does. Returns the advanced sealed session and the wire message.
    /// [`Error::Wire`] also when the state is too large for the cipher to seal.
    pub fn encrypt(&self, sealed_session: &Sealed, plaintext: &[u8]) -> (r: Result<(Sealed, Message)>)
        requires
            plaintext@.len() < aead_max_len(),
        ensures
            match r {
                Ok((s, m)) => exists|v: SessionView, w: SessionView|
                    opened_session(self@, sealed_session.0@, v) && #[trigger] encrypted(v, w, plaintext@, m)
                        && session_sealed(self@, s.0@, w),
                Err(e) => {
                    ||| session_open_error(self@, sealed_session.0@, e)
                    ||| exists|v: SessionView|
                        #[trigger] opened_session(self@, sealed_session.0@, v) && encrypt_error(v, v, e)
                    ||| e is Wire && exists|v: SessionView, w: SessionView, m: Message|
                        opened_session(self@, sealed_session.0@, v) && #[trigger] encrypted(v, w, plaintext@, m)
                            && spec_session_encoding(w).len() >= aead_max_len()
                },
            },
            forall|v: SessionView| #[trigger]
                session_sealed(self@, sealed_session.0@, v) ==> opens_to(
                    self@,
                    sealed_session.0@,
                    SEAL_AD_SESSION@,
                    spec_session_encoding(v),
                ),
    {
        let mut session = match self.open_session(sealed_session) {
            Ok(s) => s,
            Err(e) => return Err(e),
        };
        let ghost v0 = session@;
        let message = match session.encrypt(plaintext) {
            Ok(m) => m,
            Err(e) => return Err(e),
        };
        let bytes = session.serialize();
        if !sealable(&bytes) {
            assert(encrypted(v0, session@, plaintext@, message));
            return Err(wire_error("session state too large to seal"));
        }
        let sealed = self.seal_secret(SEAL_AD_SESSION.as_slice(), bytes);
        assert(encrypted(v0, session@, plaintext@, message));
        Ok((sealed, message))
    }

    /// Decrypt a message with the sealed session, as [`Session::decrypt`]
    /// does. Returns the advanced sealed session and the plaintext.
    /// [`Error::Wire`] also when the state is too large for the cipher to seal.
    pub fn decrypt(&self, sealed_session: &Sealed, message: &Message) -> (r: Result<(Sealed, Vec<u8>)>)
        ensures
            match r {
                Ok((s, pt)) => decrypted_sealed(self@, sealed_session.0@, *message, s.0@, pt@),
                Err(e) => {
                    ||| session_open_error(self@, sealed_session.0@, e)
                    ||| exists|v: SessionView, w: SessionView|
                        opened_session(self@, sealed_session.0@, v) && #[trigger] decrypt_error(v, w, *message, e)
                    ||| e is Wire && exists|v: SessionView, w: SessionView, pt: Seq<u8>|
                        opened_session(self@, sealed_session.0@, v) && #[trigger] decrypted(v, w, *message, pt)
                            && spec_session_encoding(w).len() >= aead_max_len()
                },
            },
            forall|v: SessionView| #[trigger]
                session_sealed(self@, sealed_session.0@, v) ==> opens_to(
                    self@,
                    sealed_session.0@,
                    SEAL_AD_SESSION@,
                    spec_session_encoding(v),
                ),
    {
        let mut session = match self.open_session(sealed_session) {
            Ok(s) => s,
            Err(e) => return Err(e),
        };
        let ghost v0 = session@;
        let plaintext = match session.decrypt(message) {
            Ok(p) => p,
            Err(e) => {
                assert(decrypt_error(v0, session@, *message, e));
                return Err(e);
            },
        };
        let bytes = session.serialize();
        if !sealable(&bytes) {
            assert(decrypted(v0, session@, *message, plaintext@));
            return Err(wire_error("session state too large to seal"));
        }
        let sealed = self.seal_secret(SEAL_AD_SESSION.as_slice(), bytes);
        assert(decrypted(v0, session@, *message, plaintext@));
        Ok((sealed, plaintext))
    }

    // --- Sealing internals -------------------------------------------------

    fn seal_secret(&self, context: &[u8], plaintext: Vec<u8>) -> (s: Sealed)
        requires
            plaintext@.len() < aead_max_len(),
        ensures
            s.0@ == spec_aead_seal(self@, plaintext@, context@),
    {
        let mut plaintext = plaintext;
        let sealed = Sealed(aead_seal(&self.seal_key, plaintext.as_slice(), context));
        // Wipe the transient plaintext copy of the secret from memory.
        zeroize_vec(&mut plaintext);
        sealed
    }

    fn open_account(&self, sealed: &Sealed) -> (r: Result<Account>)
        ensures
            match r {
                Ok(a) => opened_account(self@, sealed.0@, a@),
                Err(e) => account_open_error(self@, sealed.0@, e),
            },
            forall|a: AccountView| #[trigger]
                account_sealed(self@, sealed.0@, a) ==> opens_to(
                    self@,
                    sealed.0@,
                    SEAL_AD_ACCOUNT@,
                    spec_account_encoding(a),
                ),
    {
        let mut bytes = match aead_open(&self.seal_key, sealed.0.as_slice(), SEAL_AD_ACCOUNT.as_slice()) {
            Ok(b) => b,
            Err(e) => return Err(e),
        };
        let account = Account::from_bytes(bytes.as_slice());
        zeroize_vec(&mut bytes);
        match account {
            Ok(a) => {
                a.check_wf();
                Ok(a)
            },
            Err(e) => Err(e),
        }
    }

    fn open_session(&self, sealed: &Sealed) -> (r: Result<Session>)
        ensures
            match r {
                Ok(s) => opened_session(self@, sealed.0@, s@),
                Err(e) => session_open_error(self@, sealed.0@, e),
            },
            forall|v: SessionView| #[trigger]
                session_sealed(self@, sealed.0@, v) ==> opens_to(
                    self@,
                    sealed.0@,
                    SEAL_AD_SESSION@,
                    spec_session_encoding(v),
                ),
    {
        let mut bytes = match aead_open(&self.seal_key, sealed.0.as_slice(), SEAL_AD_SESSION.as_slice()) {
            Ok(b) => b,
            Err(e) => return Err(e),
        };
        let session = Session::deserialize(bytes.as_slice());
        zeroize_vec(&mut bytes);
        session
    }
}

} // verus!
