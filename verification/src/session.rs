//! High-level session API: what application code actually calls.
//!
//! A [`Session`] is one end of an encrypted conversation with a single contact.
//! Create one with [`Session::initiate`] (you're reaching out) or
//! [`Session::respond`] (you received a first message), then use
//! [`Session::encrypt`] / [`Session::decrypt`] for every message after.
use vstd::prelude::*;

use crate::codec::{
    all_fit, encode_fields, field_bytes, field_key32, field_opt_key32, field_u32, field_u8, fields_view, fits,
    is_prefix, lemma_fields_unique, opt_key32_field, parse_fields, read_u32, ser_fields, some_fields_encoded,
    write_u32, Field, FieldV, Shape,
};
use crate::crypto::{
    aead_max_len, spec_ed25519_key_valid, spec_ed25519_public, spec_mlkem_decapsulate, spec_x25519_public,
};
use crate::error::{wire_error, Error, Result};
use crate::handshake::{
    consumed_for, header_one_time, initiator_ikm, initiator_root, opt_public, prekeys_known, responder_ikm,
};
use crate::identity::{bundle_signatures_ok, opk_map, verify_bundle, Account, AccountView};
use crate::kdf::{spec_aead_open, spec_aead_seal, spec_kdf_root};
use crate::pqkem::{KYBER_CIPHERTEXT_LEN, KYBER_PUBLIC_LEN};
use crate::ratchet::{
    cache_view, decrypt_key, decrypt_step, encrypt_step, header_ad, initiator_start, opt_bytes, responder_start,
    send_key, DoubleRatchet, RatchetView, SkippedKey,
};
use crate::wire::{
    handshake_header_shape_vec, handshake_header_shapes, lemma_handshake_fits, HandshakeHeader, Message,
    PreKeyBundle, RatchetHeader,
};
use vstd::bytes::spec_u32_to_le_bytes;

verus! {

/// One end of an end-to-end encrypted conversation.
pub struct Session {
    ratchet: DoubleRatchet,
    /// Associated data mixed into every message: `initiator_ed || responder_ed`.
    /// Binds the ciphertext to both identities, so a message can't be replayed
    /// into a different conversation.
    ad_prefix: Vec<u8>,
    /// Present on the initiator until the first reply arrives; carried on each
    /// outgoing message as a PreKey header so the responder can (re)establish
    /// the session even if an earlier copy was lost.
    pending_handshake: Option<HandshakeHeader>,
}

/// The mathematical state of a [`Session`].
pub struct SessionView {
    pub ratchet: RatchetView,
    pub ad_prefix: Seq<u8>,
    pub pending: Option<HandshakeHeader>,
}

impl View for Session {
    type V = SessionView;

    closed spec fn view(&self) -> SessionView {
        SessionView { ratchet: self.ratchet@, ad_prefix: self.ad_prefix@, pending: self.pending_handshake }
    }
}

/// The handshake header [`Session::initiate`] sends for `my` and `bundle`
/// (all but the ephemeral key and KEM ciphertext, which are fresh).
pub open spec fn header_for(hs: HandshakeHeader, my_ed_seed: Seq<u8>, my_dh: Seq<u8>, bundle: PreKeyBundle) -> bool {
    &&& hs.identity_ed@ == spec_ed25519_public(my_ed_seed)
    &&& hs.identity_dh@ == spec_x25519_public(my_dh)
    &&& hs.signed_prekey_id == bundle.signed_prekey_id
    &&& hs.one_time_prekey_id == bundle.one_time_prekey_id
    &&& hs.kyber_prekey_id == bundle.kyber_prekey_id
    &&& hs.kyber_ciphertext@.len() == KYBER_CIPHERTEXT_LEN
}

/// The initiator's ratchet starts from a root the handshake derived for
/// `bundle` (with the header's ephemeral key), facing the signed prekey.
pub open spec fn initiated_ratchet(r: RatchetView, hs: HandshakeHeader, my_dh: Seq<u8>, bundle: PreKeyBundle) -> bool {
    exists|root: Seq<u8>|
        #![trigger initiator_start(root, bundle.signed_prekey@, r.dh_self)]
        initiator_root(root, hs.ephemeral_dh@, my_dh, bundle) && r == initiator_start(
            root,
            bundle.signed_prekey@,
            r.dh_self,
        ) && r.dh_self.len() == 32
}

/// The root a responder derives from a handshake header.
pub open spec fn responder_root(my: crate::identity::AccountView, hs: HandshakeHeader) -> Seq<u8> {
    spec_kdf_root(responder_ikm(my, hs, header_one_time(my, hs)))
}

/// The ratchet header and ciphertext a message carries.
pub open spec fn message_header(m: Message) -> RatchetHeader {
    match m {
        Message::PreKey { header, .. } => header,
        Message::Normal { header, .. } => header,
    }
}

pub open spec fn message_ciphertext(m: Message) -> Seq<u8> {
    match m {
        Message::PreKey { ciphertext, .. } => ciphertext@,
        Message::Normal { ciphertext, .. } => ciphertext@,
    }
}

/// The key the initiator seals its first message under, for identity DH
/// secret `peer_dh`, handshake ephemeral `eph` and first ratchet secret
/// `peer_ratchet`, against responder `my` (whose ML-KEM decapsulation of the
/// header's ciphertext gives the shared KEM secret).
pub open spec fn first_message_key(
    my: crate::identity::AccountView,
    hs: HandshakeHeader,
    peer_dh: Seq<u8>,
    eph: Seq<u8>,
    peer_ratchet: Seq<u8>,
) -> Seq<u8> {
    let root = spec_kdf_root(
        initiator_ikm(
            peer_dh,
            eph,
            spec_x25519_public(my.dh_secret),
            spec_x25519_public(my.signed_prekey),
            opt_public(header_one_time(my, hs)),
            spec_mlkem_decapsulate(my.kyber, hs.kyber_ciphertext@),
        ),
    );
    send_key(initiator_start(root, spec_x25519_public(my.signed_prekey), peer_ratchet))
}

/// What a successful [`Session::initiate`] establishes: the bundle checked
/// out, and the session faces it with a pending handshake header and a ratchet
/// started from the handshake's root.
pub open spec fn initiated(me: AccountView, bundle: PreKeyBundle, s: SessionView) -> bool {
    &&& spec_ed25519_key_valid(bundle.identity_ed@)
    &&& bundle_signatures_ok(bundle)
    &&& bundle.kyber_prekey@.len() == KYBER_PUBLIC_LEN
    &&& s.ad_prefix == spec_ed25519_public(me.ed_seed) + bundle.identity_ed@
    &&& s.pending matches Some(hs) && header_for(hs, me.ed_seed, me.dh_secret, bundle) && initiated_ratchet(
        s.ratchet,
        hs,
        me.dh_secret,
        bundle,
    )
}

/// When [`Session::initiate`] fails, and with which error.
pub open spec fn initiate_error(bundle: PreKeyBundle, e: Error) -> bool {
    ||| !spec_ed25519_key_valid(bundle.identity_ed@) && e == Error::MalformedKey
    ||| spec_ed25519_key_valid(bundle.identity_ed@) && !bundle_signatures_ok(bundle) && e == Error::BadSignature
    ||| spec_ed25519_key_valid(bundle.identity_ed@) && bundle_signatures_ok(bundle) && bundle.kyber_prekey@.len()
        != KYBER_PUBLIC_LEN && e == Error::MalformedKey
}

/// The account after [`Session::respond`]: untouched unless the handshake
/// named only known prekeys, in which case the one-time prekey is consumed.
pub open spec fn respond_account(old: AccountView, new: AccountView, m: Message) -> bool {
    match m {
        Message::Normal { .. } => new == old,
        Message::PreKey { handshake, .. } => {
            &&& prekeys_known(old, handshake) ==> consumed_for(old, new, handshake)
            &&& !prekeys_known(old, handshake) ==> new == old
        },
    }
}

/// The ratchet a responder starts from for a handshake header.
pub open spec fn responder_ratchet(old: AccountView, hs: HandshakeHeader) -> RatchetView {
    responder_start(responder_root(old, hs), old.signed_prekey)
}

/// What a successful [`Session::respond`] establishes: the handshake
/// succeeded, and the first message decrypted with the responder's fresh
/// ratchet to `pt`.
pub open spec fn responded(old: AccountView, m: Message, s: SessionView, pt: Seq<u8>) -> bool {
    match m {
        Message::Normal { .. } => false,
        Message::PreKey { handshake, header, ciphertext } => {
            let start = responder_ratchet(old, handshake);
            &&& prekeys_known(old, handshake)
            &&& handshake.kyber_ciphertext@.len() == KYBER_CIPHERTEXT_LEN
            &&& s.ad_prefix == handshake.identity_ed@ + spec_ed25519_public(old.ed_seed)
            &&& s.pending is None
            &&& s.ratchet == decrypt_step(start, header, s.ratchet.dh_self).0
            &&& s.ratchet.dh_self.len() == 32
            &&& decrypt_key(start, header) matches Some(mk) && spec_aead_open(
                mk,
                ciphertext@,
                header_ad(s.ad_prefix, header),
            ) == Some(pt)
        },
    }
}

/// When [`Session::respond`] fails, and with which error.
pub open spec fn respond_error(old: AccountView, m: Message, e: Error) -> bool {
    match m {
        Message::Normal { .. } => e == Error::UnexpectedMessage,
        Message::PreKey { handshake, header, ciphertext } => {
            let start = responder_ratchet(old, handshake);
            let ad = header_ad(handshake.identity_ed@ + spec_ed25519_public(old.ed_seed), header);
            ||| !prekeys_known(old, handshake) && e == Error::UnknownPrekey
            ||| prekeys_known(old, handshake) && handshake.kyber_ciphertext@.len() != KYBER_CIPHERTEXT_LEN && e
                == Error::MalformedKey
            ||| prekeys_known(old, handshake) && handshake.kyber_ciphertext@.len() == KYBER_CIPHERTEXT_LEN && e
                == Error::Decrypt && match decrypt_key(start, header) {
                Some(mk) => spec_aead_open(mk, ciphertext@, ad) is None,
                None => true,
            }
        },
    }
}

/// A one-time prekey answers one handshake only: once [`Session::respond`]
/// has consumed it, every later first message naming it is refused with
/// [`Error::UnknownPrekey`] and leaves the account as it is.
pub proof fn lemma_one_time_prekey_used_once(
    old: AccountView,
    new: AccountView,
    m: Message,
    later: Message,
    after: AccountView,
)
    requires
        respond_account(old, new, m),
        m matches Message::PreKey { handshake, .. } && prekeys_known(old, handshake)
            && handshake.one_time_prekey_id is Some,
        later matches Message::PreKey { handshake, .. } && handshake.one_time_prekey_id == (m->handshake).one_time_prekey_id,
    ensures
        !prekeys_known(new, later->handshake),
        forall|e: Error| #[trigger] respond_error(new, later, e) ==> e == Error::UnknownPrekey,
        respond_account(new, after, later) ==> after == new,
        forall|s: SessionView, pt: Seq<u8>| !#[trigger] responded(new, later, s, pt),
{
    let id = (m->handshake).one_time_prekey_id->0;
    assert(consumed_for(old, new, m->handshake));
    assert(!opk_map(new.one_time_prekeys).contains_key(id));
}

/// What a successful [`Session::encrypt`] produces: the next message of the
/// sending chain, carrying the pending handshake header while there is one.
pub open spec fn encrypted(old: SessionView, new: SessionView, pt: Seq<u8>, m: Message) -> bool {
    let h = message_header(m);
    &&& old.ratchet.chain_send is Some
    &&& old.ratchet.n_send < u32::MAX
    &&& h.dh_pub@ == spec_x25519_public(old.ratchet.dh_self)
    &&& h.pn == old.ratchet.pn
    &&& h.n == old.ratchet.n_send
    &&& message_ciphertext(m) == spec_aead_seal(send_key(old.ratchet), pt, header_ad(old.ad_prefix, h))
    &&& match old.pending {
        Some(hs) => m matches Message::PreKey { handshake, .. } && handshake@ == hs@,
        None => m is Normal,
    }
    &&& new == (SessionView { ratchet: encrypt_step(old.ratchet), ..old })
}

/// When [`Session::encrypt`] fails: no sending chain yet, or every counter
/// value used; the session is unchanged.
pub open spec fn encrypt_error(old: SessionView, new: SessionView, e: Error) -> bool {
    &&& e == Error::UnexpectedMessage
    &&& (old.ratchet.chain_send is None || old.ratchet.n_send == u32::MAX)
    &&& new == old
}

/// The session after decrypting `m` (whatever the outcome): the ratchet moved
/// as [`decrypt_step`] says and the prefix is kept.
pub open spec fn decrypt_moved(old: SessionView, new: SessionView, m: Message) -> bool {
    &&& new.ratchet == decrypt_step(old.ratchet, message_header(m), new.ratchet.dh_self).0
    &&& new.ratchet.dh_self.len() == 32
    &&& new.ad_prefix == old.ad_prefix
}

/// What a successful [`Session::decrypt`] yields; the pending handshake is
/// dropped.
pub open spec fn decrypted(old: SessionView, new: SessionView, m: Message, pt: Seq<u8>) -> bool {
    &&& decrypt_moved(old, new, m)
    &&& new.pending is None
    &&& decrypt_key(old.ratchet, message_header(m)) matches Some(mk) && spec_aead_open(
        mk,
        message_ciphertext(m),
        header_ad(old.ad_prefix, message_header(m)),
    ) == Some(pt)
}

/// When [`Session::decrypt`] fails: always [`Error::Decrypt`], when no key is
/// found or the ciphertext does not open; the pending handshake is kept.
pub open spec fn decrypt_error(old: SessionView, new: SessionView, m: Message, e: Error) -> bool {
    &&& decrypt_moved(old, new, m)
    &&& new.pending == old.pending
    &&& e == Error::Decrypt
    &&& match decrypt_key(old.ratchet, message_header(m)) {
        Some(mk) => spec_aead_open(mk, message_ciphertext(m), header_ad(old.ad_prefix, message_header(m))) is None,
        None => true,
    }
}

/// A session announces its handshake until it hears back: an initiated
/// session holds a handshake header, every successful encrypt keeps it and
/// sends a prekey message carrying exactly it (a normal message once there is
/// none), a failed decrypt keeps it, and a successful decrypt (like a
/// responder's start) drops it for good.
pub proof fn lemma_handshake_announced_until_reply(
    me: AccountView,
    bundle: PreKeyBundle,
    started: SessionView,
    old: SessionView,
    new: SessionView,
    pt: Seq<u8>,
    m: Message,
    e: Error,
)
    ensures
        initiated(me, bundle, started) ==> started.pending is Some,
        encrypted(old, new, pt, m) ==> new.pending == old.pending && (old.pending matches Some(hs) ==> (
        m matches Message::PreKey { handshake, .. } && handshake@ == hs@)) && (old.pending is None ==> m is Normal),
        encrypt_error(old, new, e) ==> new.pending == old.pending,
        decrypt_error(old, new, m, e) ==> new.pending == old.pending,
        decrypted(old, new, m, pt) ==> new.pending is None,
{
}

/// One call on a session and what it returned.
pub enum SessionCall {
    /// `encrypt` of this plaintext gave this message.
    Encrypted(Seq<u8>, Message),
    /// `encrypt` failed with this error.
    EncryptFailed(Error),
    /// `decrypt` of this message gave this plaintext.
    Decrypted(Message, Seq<u8>),
    /// `decrypt` of this message failed with this error.
    DecryptFailed(Message, Error),
}

/// The session went from `old` to `new` by the call `c`, as the contracts
/// of [`Session::encrypt`] and [`Session::decrypt`] say.
pub open spec fn session_call(old: SessionView, new: SessionView, c: SessionCall) -> bool {
    match c {
        SessionCall::Encrypted(pt, m) => encrypted(old, new, pt, m),
        SessionCall::EncryptFailed(e) => encrypt_error(old, new, e),
        SessionCall::Decrypted(m, pt) => decrypted(old, new, m, pt),
        SessionCall::DecryptFailed(m, e) => decrypt_error(old, new, m, e),
    }
}

/// A run of calls: the `i`-th call takes `states[i]` to `states[i + 1]`.
pub open spec fn session_run(states: Seq<SessionView>, calls: Seq<SessionCall>) -> bool {
    &&& states.len() == calls.len() + 1
    &&& forall|i: int| 0 <= i < calls.len() ==> session_call(states[i], states[i + 1], #[trigger] calls[i])
}

/// Some call before the `i`-th decrypted a message.
pub open spec fn replied_before(calls: Seq<SessionCall>, i: int) -> bool {
    exists|j: int| 0 <= j < i && #[trigger] calls[j] is Decrypted
}

proof fn lemma_run_pending(states: Seq<SessionView>, calls: Seq<SessionCall>, i: int)
    requires
        session_run(states, calls),
        0 <= i < states.len(),
    ensures
        replied_before(calls, i) ==> states[i].pending is None,
        !replied_before(calls, i) ==> states[i].pending == states[0].pending,
    decreases i,
{
    if i > 0 {
        lemma_run_pending(states, calls, i - 1);
        let c = calls[i - 1];
        assert(session_call(states[i - 1], states[i], c));
        if replied_before(calls, i - 1) {
            let j = choose|j: int| 0 <= j < i - 1 && #[trigger] calls[j] is Decrypted;
            assert(calls[j] is Decrypted);
        }
        if c is Decrypted {
            assert(calls[i - 1] is Decrypted);
        }
        if !replied_before(calls, i - 1) && !(c is Decrypted) && replied_before(calls, i) {
            let j = choose|j: int| 0 <= j < i && #[trigger] calls[j] is Decrypted;
            if j < i - 1 {
                assert(calls[j] is Decrypted);
            }
        }
    }
}

/// Over any run of calls, a session announces its handshake until it hears
/// back: while no decrypt has succeeded, every message it encrypts is a
/// prekey message carrying the handshake header it started with (failed
/// decrypts change nothing here); once one has, and in a session that
/// started without a handshake (a responder's), every message is normal.
pub proof fn lemma_handshake_until_reply(states: Seq<SessionView>, calls: Seq<SessionCall>)
    requires
        session_run(states, calls),
    ensures
        forall|i: int|
            0 <= i < calls.len() && !replied_before(calls, i) ==> (#[trigger] calls[i] matches SessionCall::Encrypted(
                _,
                m,
            ) ==> match states[0].pending {
                Some(h) => m matches Message::PreKey { handshake, .. } && handshake@ == h@,
                None => m is Normal,
            }),
        forall|i: int|
            0 <= i < calls.len() && replied_before(calls, i) ==> (#[trigger] calls[i] matches SessionCall::Encrypted(
                _,
                m,
            ) ==> m is Normal),
{
    assert forall|i: int| 0 <= i < calls.len() implies (#[trigger] calls[i] matches SessionCall::Encrypted(_, m) ==> (
    !replied_before(calls, i) ==> match states[0].pending {
        Some(h) => m matches Message::PreKey { handshake, .. } && handshake@ == h@,
        None => m is Normal,
    }) && (replied_before(calls, i) ==> m is Normal)) by {
        lemma_run_pending(states, calls, i);
        assert(session_call(states[i], states[i + 1], calls[i]));
    }
}

/// A session started by answering a first message never announces a
/// handshake: it starts without one, so it only sends normal messages.
pub proof fn lemma_responder_sends_normal(me: AccountView, first: Message, s: SessionView, pt: Seq<u8>)
    requires
        responded(me, first, s, pt),
    ensures
        s.pending is None,
{
}

/// Associated-data prefix: the two identities in a fixed (initiator,
/// responder) order so both ends compute the same bytes.
fn ad_prefix(initiator_ed: &[u8; 32], responder_ed: &[u8; 32]) -> (ad: Vec<u8>)
    ensures
        ad@ == initiator_ed@ + responder_ed@,
{
    crate::bytes::concat(initiator_ed.as_slice(), responder_ed.as_slice())
}

impl Session {
    /// Begin a session with a contact, given their prekey bundle.
    ///
    /// Verifies every signature in the bundle first; a tampered bundle (e.g. a
    /// malicious prekey server swapping keys) is rejected here:
    /// [`Error::MalformedKey`] for an identity key that is not a curve point,
    /// [`Error::BadSignature`] for a failing signature, and
    /// [`Error::MalformedKey`] for a Kyber key of the wrong length.
    pub fn initiate(me: &Account, their_bundle: &PreKeyBundle) -> (r: Result<Session>)
        ensures
            match r {
                Ok(s) => initiated(me@, *their_bundle, s@),
                Err(e) => initiate_error(*their_bundle, e),
            },
    {
        match verify_bundle(their_bundle) {
            Ok(()) => {},
            Err(e) => return Err(e),
        }
        let (root, handshake_header, remote_spk) = match crate::handshake::initiate(me, their_bundle) {
            Ok(t) => t,
            Err(e) => return Err(e),
        };
        let ad = ad_prefix(&handshake_header.identity_ed, &their_bundle.identity_ed);
        let ratchet = DoubleRatchet::init_initiator(root, remote_spk);
        let s = Session { ratchet, ad_prefix: ad, pending_handshake: Some(handshake_header) };
        assert(initiator_start(root@, their_bundle.signed_prekey@, s@.ratchet.dh_self) == s@.ratchet);
        Ok(s)
    }

    /// Accept an inbound first message, establishing the session and returning
    /// the decrypted plaintext of that first message.
    ///
    /// A normal message is refused with [`Error::UnexpectedMessage`]. For a
    /// prekey message the handshake runs as [`crate::handshake::respond`] says
    /// (consuming the one-time prekey it names), the responder's ratchet starts
    /// from the derived root on its signed prekey, and the first message is
    /// decrypted with it. Whatever the initiator sealed under the keys it
    /// derived for this account's published prekeys decrypts to its plaintext.
    pub fn respond(me: &mut Account, first_message: &Message) -> (r: Result<(Session, Vec<u8>)>)
        ensures
            respond_account(old(me)@, final(me)@, *first_message),
            match r {
                Ok((s, pt)) => responded(old(me)@, *first_message, s@, pt@),
                Err(e) => respond_error(old(me)@, *first_message, e),
            },
            match *first_message {
                Message::PreKey { handshake, header, ciphertext } => forall|
                    peer_dh: Seq<u8>,
                    eph: Seq<u8>,
                    peer_ratchet: Seq<u8>,
                    p: Seq<u8>,
                |
                    peer_dh.len() == 32 && eph.len() == 32 && peer_ratchet.len() == 32 && p.len() < aead_max_len()
                        && handshake.identity_dh@ == spec_x25519_public(peer_dh) && handshake.ephemeral_dh@
                        == spec_x25519_public(eph) && header.dh_pub@ == spec_x25519_public(peer_ratchet) && header.n
                        == 0 && prekeys_known(old(me)@, handshake) && handshake.kyber_ciphertext@.len()
                        == KYBER_CIPHERTEXT_LEN && ciphertext@ == #[trigger] spec_aead_seal(
                        first_message_key(old(me)@, handshake, peer_dh, eph, peer_ratchet),
                        p,
                        header_ad(handshake.identity_ed@ + spec_ed25519_public(old(me)@.ed_seed), header),
                    ) ==> (r matches Ok((_, v)) && v@ == p),
                Message::Normal { .. } => true,
            },
    {
        let (handshake_header, header, ciphertext) = match first_message {
            Message::PreKey { handshake, header, ciphertext } => (handshake, header, ciphertext),
            Message::Normal { .. } => return Err(Error::UnexpectedMessage),
        };
        let ghost me0 = me@;
        let root = match crate::handshake::respond(me, handshake_header) {
            Ok(root) => root,
            Err(e) => return Err(e),
        };
        let my_ed = me.identity_ed_bytes();
        let ad = ad_prefix(&handshake_header.identity_ed, &my_ed);
        let spk = match me.signed_prekey(handshake_header.signed_prekey_id) {
            Ok(k) => k,
            Err(e) => return Err(e),
        };
        let mut ratchet = DoubleRatchet::init_responder(root, spk);
        let ghost start = ratchet@;
        assert(start == responder_start(responder_root(me0, *handshake_header), me0.signed_prekey));
        let decrypted = ratchet.decrypt(header, ciphertext.as_slice(), ad.as_slice());
        proof {
            assert forall|peer_dh: Seq<u8>, eph: Seq<u8>, peer_ratchet: Seq<u8>, p: Seq<u8>|
                peer_dh.len() == 32 && eph.len() == 32 && peer_ratchet.len() == 32 && p.len() < aead_max_len()
                    && handshake_header.identity_dh@ == spec_x25519_public(peer_dh)
                    && handshake_header.ephemeral_dh@ == spec_x25519_public(eph) && header.dh_pub@
                    == spec_x25519_public(peer_ratchet) && header.n == 0 && ciphertext@ == #[trigger] spec_aead_seal(
                    first_message_key(me0, *handshake_header, peer_dh, eph, peer_ratchet),
                    p,
                    header_ad(handshake_header.identity_ed@ + spec_ed25519_public(me0.ed_seed), *header),
                ) implies (decrypted matches Ok(v) && v@ == p) by {
                let ikm = initiator_ikm(
                    peer_dh,
                    eph,
                    spec_x25519_public(me0.dh_secret),
                    spec_x25519_public(me0.signed_prekey),
                    opt_public(header_one_time(me0, *handshake_header)),
                    spec_mlkem_decapsulate(me0.kyber, handshake_header.kyber_ciphertext@),
                );
                assert(root@ == spec_kdf_root(ikm));
                assert(!crate::ratchet::cache_has(start.skipped, header.dh_pub@, header.n));
                assert(crate::ratchet::ratchets_on(start, *header));
                assert(crate::crypto::spec_x25519(peer_ratchet, spec_x25519_public(start.dh_self))
                    == crate::crypto::spec_x25519(start.dh_self, header.dh_pub@));
                let s2 = crate::ratchet::spec_ratchet_step(start, header.dh_pub@, start.dh_self);
                let ck = s2.chain_recv->0;
                assert(crate::ratchet::skip_chain(s2.skipped, header.dh_pub@, ck, 0, 0) == (s2.skipped, ck, 0u32, true));
                assert(decrypt_key(start, *header) == Some(
                    first_message_key(me0, *handshake_header, peer_dh, eph, peer_ratchet),
                ));
            }
        }
        let plaintext = match decrypted {
            Ok(p) => p,
            Err(e) => return Err(e),
        };
        let session = Session { ratchet, ad_prefix: ad, pending_handshake: None };
        Ok((session, plaintext))
    }

    /// Encrypt an outgoing message. While the handshake is pending the message
    /// carries the handshake header (a prekey message); afterwards it is a
    /// normal message. Fails, leaving the session unchanged, as
    /// [`DoubleRatchet::encrypt`] does.
    pub fn encrypt(&mut self, plaintext: &[u8]) -> (r: Result<Message>)
        requires
            plaintext@.len() < aead_max_len(),
        ensures
            match r {
                Ok(m) => encrypted(old(self)@, final(self)@, plaintext@, m),
                Err(e) => encrypt_error(old(self)@, final(self)@, e),
            },
    {
        let (header, ciphertext) = match self.ratchet.encrypt(plaintext, self.ad_prefix.as_slice()) {
            Ok(p) => p,
            Err(e) => return Err(e),
        };
        let m = match &self.pending_handshake {
            Some(hs) => Message::PreKey { handshake: hs.copy(), header, ciphertext },
            None => Message::Normal { header, ciphertext },
        };
        Ok(m)
    }

    /// Decrypt an incoming message (either variant), as
    /// [`DoubleRatchet::decrypt`] says. Once a message decrypts, the pending
    /// handshake header is dropped: the peer clearly has a working session.
    pub fn decrypt(&mut self, message: &Message) -> (r: Result<Vec<u8>>)
        ensures
            match r {
                Ok(v) => decrypted(old(self)@, final(self)@, *message, v@),
                Err(e) => decrypt_error(old(self)@, final(self)@, *message, e),
            },
            decrypt_key(old(self)@.ratchet, message_header(*message)) matches Some(mk) ==> forall|p: Seq<u8>|
                p.len() < aead_max_len() && #[trigger] spec_aead_seal(
                    mk,
                    p,
                    header_ad(old(self)@.ad_prefix, message_header(*message)),
                ) == message_ciphertext(*message) ==> (r matches Ok(v) && v@ == p),
    {
        let (header, ciphertext) = match message {
            Message::PreKey { header, ciphertext, .. } => (header, ciphertext),
            Message::Normal { header, ciphertext } => (header, ciphertext),
        };
        let plaintext = match self.ratchet.decrypt(header, ciphertext.as_slice(), self.ad_prefix.as_slice()) {
            Ok(p) => p,
            Err(e) => return Err(e),
        };
        self.pending_handshake = None;
        Ok(plaintext)
    }
}

// ------------------------------------------------------------ persistence

/// One cached skipped key, packed: remote key, little-endian counter, key.
pub open spec fn pack_entry(e: (Seq<u8>, u32, Seq<u8>)) -> Seq<u8> {
    e.0 + spec_u32_to_le_bytes(e.1) + e.2
}

/// The skipped-key cache, packed entry after entry.
pub open spec fn pack_cache(c: Seq<(Seq<u8>, u32, Seq<u8>)>) -> Seq<u8>
    decreases c.len(),
{
    if c.len() == 0 {
        Seq::empty()
    } else {
        pack_cache(c.drop_last()) + pack_entry(c.last())
    }
}

/// Every cache entry holds two 32-byte keys.
pub open spec fn entries_sized(c: Seq<(Seq<u8>, u32, Seq<u8>)>) -> bool {
    forall|i: int| 0 <= i < c.len() ==> (#[trigger] c[i]).0.len() == 32 && c[i].2.len() == 32
}

/// The layout of a saved session.
pub open spec fn session_shapes() -> Seq<Shape> {
    seq![
        Shape::Fixed(32),
        Shape::Fixed(32),
        Shape::OptFixed(32),
        Shape::OptFixed(32),
        Shape::OptFixed(32),
        Shape::U32,
        Shape::U32,
        Shape::U32,
        Shape::Bytes,
        Shape::Bytes,
        Shape::U8,
        Shape::Bytes,
    ]
}

/// The encoded pending handshake header (empty when there is none).
pub open spec fn pending_bytes(p: Option<HandshakeHeader>) -> Seq<u8> {
    match p {
        Some(hs) => ser_fields(hs@),
        None => Seq::empty(),
    }
}

/// The fields of a saved session: the ratchet's keys and counters, the packed
/// skipped-key cache, the associated-data prefix, and the pending handshake
/// header behind a presence byte.
pub open spec fn session_fields(v: SessionView) -> Seq<FieldV> {
    seq![
        FieldV::Fixed(v.ratchet.root_key),
        FieldV::Fixed(v.ratchet.dh_self),
        FieldV::OptFixed(v.ratchet.dh_remote),
        FieldV::OptFixed(v.ratchet.chain_send),
        FieldV::OptFixed(v.ratchet.chain_recv),
        FieldV::U32(v.ratchet.n_send),
        FieldV::U32(v.ratchet.n_recv),
        FieldV::U32(v.ratchet.pn),
        FieldV::Bytes(pack_cache(v.ratchet.skipped)),
        FieldV::Bytes(v.ad_prefix),
        FieldV::U8(if v.pending is Some { 1u8 } else { 0u8 }),
        FieldV::Bytes(pending_bytes(v.pending)),
    ]
}

/// The bytes [`Session::serialize`] produces.
pub open spec fn spec_session_encoding(v: SessionView) -> Seq<u8> {
    ser_fields(session_fields(v))
}

/// A session state that has an encoding.
pub open spec fn encodable(v: SessionView) -> bool {
    all_fit(session_fields(v), session_shapes()) && entries_sized(v.ratchet.skipped)
}

proof fn lemma_pack_len(c: Seq<(Seq<u8>, u32, Seq<u8>)>)
    requires
        entries_sized(c),
    ensures
        pack_cache(c).len() == 68 * c.len(),
    decreases c.len(),
{
    if c.len() > 0 {
        assert(entries_sized(c.drop_last()));
        lemma_pack_len(c.drop_last());
        assert(c.last() == c[c.len() - 1]);
        vstd::bytes::lemma_auto_spec_u32_to_from_le_bytes();
        assert(spec_u32_to_le_bytes(c.last().1).len() == 4);
    }
}

proof fn lemma_session_fields_of(v: SessionView, fv: Seq<FieldV>, t: Seq<u8>)
    requires
        encodable(v),
        is_prefix(spec_session_encoding(v), t),
        all_fit(fv, session_shapes()),
        is_prefix(ser_fields(fv), t),
    ensures
        session_fields(v) == fv,
{
    lemma_fields_unique(session_fields(v), fv, session_shapes(), t);
}

/// The cache a packing came from, when every entry holds two 32-byte keys.
proof fn lemma_pack_injective(a: Seq<(Seq<u8>, u32, Seq<u8>)>, b: Seq<(Seq<u8>, u32, Seq<u8>)>)
    requires
        entries_sized(a),
        entries_sized(b),
        pack_cache(a) == pack_cache(b),
    ensures
        a == b,
    decreases a.len(),
{
    lemma_pack_len(a);
    lemma_pack_len(b);
    assert(a.len() == b.len());
    if a.len() > 0 {
        let (da, db) = (a.drop_last(), b.drop_last());
        assert(entries_sized(da));
        assert(entries_sized(db));
        lemma_pack_len(da);
        lemma_pack_len(db);
        let (ea, eb) = (a.last(), b.last());
        assert(ea == a[a.len() - 1]);
        assert(eb == b[b.len() - 1]);
        vstd::bytes::lemma_auto_spec_u32_to_from_le_bytes();
        let p = pack_cache(a);
        let k = 68 * da.len();
        assert(p == pack_cache(da) + pack_entry(ea));
        assert(pack_cache(b) == pack_cache(db) + pack_entry(eb));
        assert(pack_cache(da) =~= p.subrange(0, k as int));
        assert(pack_cache(db) =~= p.subrange(0, k as int));
        assert(pack_entry(ea) =~= p.subrange(k as int, p.len() as int));
        assert(pack_entry(eb) =~= p.subrange(k as int, p.len() as int));
        let q = pack_entry(ea);
        assert(ea.0 =~= q.subrange(0, 32));
        assert(eb.0 =~= q.subrange(0, 32));
        assert(spec_u32_to_le_bytes(ea.1) =~= q.subrange(32, 36));
        assert(spec_u32_to_le_bytes(eb.1) =~= q.subrange(32, 36));
        assert(ea.2 =~= q.subrange(36, 68));
        assert(eb.2 =~= q.subrange(36, 68));
        assert(ea.1 == eb.1) by {
            assert(vstd::bytes::spec_u32_from_le_bytes(spec_u32_to_le_bytes(ea.1)) == ea.1);
            assert(vstd::bytes::spec_u32_from_le_bytes(spec_u32_to_le_bytes(eb.1)) == eb.1);
        }
        lemma_pack_injective(da, db);
        assert(a =~= da.push(ea));
        assert(b =~= db.push(eb));
    }
}

/// The pending handshake header by its fields.
pub open spec fn pending_view(p: Option<HandshakeHeader>) -> Option<Seq<FieldV>> {
    match p {
        Some(hs) => Some(hs@),
        None => None,
    }
}

/// What [`Session::serialize`] writes, [`Session::deserialize`] reads back
/// as the same session: the same ratchet state (keys, counters and skipped
/// keys), associated data and pending handshake.
pub proof fn lemma_session_round_trip(v: SessionView, w: SessionView)
    requires
        encodable(v),
        encodable(w),
        is_prefix(spec_session_encoding(w), spec_session_encoding(v)),
    ensures
        w.ratchet == v.ratchet,
        w.ad_prefix == v.ad_prefix,
        pending_view(w.pending) == pending_view(v.pending),
{
    let t = spec_session_encoding(v);
    assert(t.subrange(0, t.len() as int) =~= t);
    lemma_session_fields_of(w, session_fields(v), t);
    let (fw, fv) = (session_fields(w), session_fields(v));
    assert(fw[8] == fv[8]);
    lemma_pack_injective(w.ratchet.skipped, v.ratchet.skipped);
    assert(fw[10] == fv[10]);
    assert(fw[11] == fv[11]);
    match (w.pending, v.pending) {
        (Some(hw), Some(hv)) => {
            lemma_handshake_fits(hw);
            lemma_handshake_fits(hv);
            let s = ser_fields(hv@);
            assert(s.subrange(0, s.len() as int) =~= s);
            lemma_fields_unique(hw@, hv@, handshake_header_shapes(), s);
        },
        _ => {},
    }
    assert(w.ratchet =~= v.ratchet);
}

fn session_shape_vec() -> (v: Vec<Shape>)
    ensures
        v@ == session_shapes(),
{
    let mut v: Vec<Shape> = Vec::new();
    v.push(Shape::Fixed(32));
    v.push(Shape::Fixed(32));
    v.push(Shape::OptFixed(32));
    v.push(Shape::OptFixed(32));
    v.push(Shape::OptFixed(32));
    v.push(Shape::U32);
    v.push(Shape::U32);
    v.push(Shape::U32);
    v.push(Shape::Bytes);
    v.push(Shape::Bytes);
    v.push(Shape::U8);
    v.push(Shape::Bytes);
    assert(v@ =~= session_shapes());
    v
}

fn pack_skipped(c: &Vec<SkippedKey>) -> (v: Vec<u8>)
    ensures
        v@ == pack_cache(cache_view(c@)),
        entries_sized(cache_view(c@)),
{
    let ghost cv = cache_view(c@);
    let mut v: Vec<u8> = Vec::new();
    let mut i: usize = 0;
    while i < c.len()
        invariant
            i <= c@.len(),
            cv == cache_view(c@),
            v@ == pack_cache(cv.subrange(0, i as int)),
        decreases c@.len() - i,
    {
        let e = &c[i];
        crate::bytes::push_all(&mut v, e.0.as_slice());
        write_u32(&mut v, e.1);
        crate::bytes::push_all(&mut v, e.2.as_slice());
        proof {
            let sub = cv.subrange(0, i + 1);
            assert(sub.drop_last() =~= cv.subrange(0, i as int));
            assert(sub.last() == cv[i as int]);
            assert(v@ =~= pack_cache(sub));
        }
        i = i + 1;
    }
    assert(cv.subrange(0, c@.len() as int) =~= cv);
    v
}

fn unpack_skipped(pk: &[u8]) -> (r: Option<Vec<SkippedKey>>)
    ensures
        match r {
            Some(c) => pack_cache(cache_view(c@)) == pk@ && entries_sized(cache_view(c@)),
            None => pk@.len() % 68 != 0,
        },
{
    if pk.len() % 68 != 0 {
        return None;
    }
    let len = pk.len();
    let count = len / 68;
    let mut c: Vec<SkippedKey> = Vec::new();
    let mut i: usize = 0;
    while i < count
        invariant
            i <= count,
            len == pk@.len(),
            count * 68 == pk@.len(),
            pack_cache(cache_view(c@)) == pk@.subrange(0, 68 * i),
            entries_sized(cache_view(c@)),
        decreases count - i,
    {
        assert((i + 1) * 68 <= count * 68) by (nonlinear_arith)
            requires
                i + 1 <= count,
        ;
        assert(i * 68 + 68 <= pk@.len());
        let off = i * 68;
        let a = crate::bytes::array32_at(pk, off);
        let n = read_u32(pk, off + 32);
        let b = crate::bytes::array32_at(pk, off + 36);
        let ghost before = cache_view(c@);
        c.push((a, n, b));
        proof {
            let after = cache_view(c@);
            assert(after.drop_last() =~= before);
            assert(after.last() == (a@, n, b@));
            assert(pk@.subrange(0, 68 * (i + 1)) =~= pk@.subrange(0, 68 * i) + pk@.subrange(off as int, off + 32)
                + pk@.subrange(off + 32, off + 36) + pk@.subrange(off + 36, off + 68));
            assert(pack_cache(after) =~= pk@.subrange(0, 68 * (i + 1)));
        }
        i = i + 1;
    }
    assert(pk@.subrange(0, 68 * count as int) =~= pk@);
    Some(c)
}

impl Session {
    /// Serialize the full session state (secret!) for encrypted-at-rest
    /// storage.
    pub fn serialize(&self) -> (out: Vec<u8>)
        ensures
            out@ == spec_session_encoding(self@),
            encodable(self@),
    {
        let (root, dh_self, remote, chain_send, chain_recv) = self.ratchet.keys();
        let (n_send, n_recv, pn) = self.ratchet.counters();
        let packed = pack_skipped(self.ratchet.skipped());
        let (tag, pb): (u8, Vec<u8>) = match &self.pending_handshake {
            Some(hs) => (1u8, encode_fields(&hs.to_fields())),
            None => (0u8, Vec::new()),
        };
        let ad = crate::bytes::copy_vec(&self.ad_prefix);
        let _l1 = packed.len();
        let _l2 = ad.len();
        let _l3 = pb.len();
        let mut fs: Vec<Field> = Vec::new();
        fs.push(Field::Fixed(crate::bytes::array_to_vec32(&root)));
        fs.push(Field::Fixed(crate::bytes::array_to_vec32(&dh_self)));
        fs.push(opt_key32_field(&remote));
        fs.push(opt_key32_field(&chain_send));
        fs.push(opt_key32_field(&chain_recv));
        fs.push(Field::U32(n_send));
        fs.push(Field::U32(n_recv));
        fs.push(Field::U32(pn));
        fs.push(Field::Bytes(packed));
        fs.push(Field::Bytes(ad));
        fs.push(Field::U8(tag));
        fs.push(Field::Bytes(pb));
        proof {
            assert(fields_view(fs@) =~= session_fields(self@));
            let sf = session_fields(self@);
            let sh = session_shapes();
            assert(fits(sf[0], sh[0]));
            assert(fits(sf[1], sh[1]));
            assert(fits(sf[2], sh[2]));
            assert(fits(sf[3], sh[3]));
            assert(fits(sf[4], sh[4]));
            assert(fits(sf[5], sh[5]));
            assert(fits(sf[6], sh[6]));
            assert(fits(sf[7], sh[7]));
            assert(fits(sf[8], sh[8]));
            assert(fits(sf[9], sh[9]));
            assert(fits(sf[10], sh[10]));
            assert(fits(sf[11], sh[11]));
            assert(all_fit(sf, sh));
        }
        encode_fields(&fs)
    }

    /// Restore a session saved by [`Session::serialize`]. Succeeds exactly when
    /// `bytes` begins with the encoding of a session state (trailing bytes are
    /// ignored); [`Error::Wire`] otherwise.
    pub fn deserialize(bytes: &[u8]) -> (r: Result<Session>)
        ensures
            match r {
                Ok(s) => encodable(s@) && is_prefix(spec_session_encoding(s@), bytes@),
                Err(e) => e is Wire && forall|v: SessionView|
                    encodable(v) ==> !is_prefix(#[trigger] spec_session_encoding(v), bytes@),
            },
    {
        let shapes = session_shape_vec();
        let (fs, _end) = match parse_fields(bytes, 0, shapes.as_slice()) {
            Some(p) => p,
            None => {
                proof {
                    assert(bytes@.skip(0) =~= bytes@);
                    assert forall|v: SessionView| encodable(v) implies !is_prefix(
                        #[trigger] spec_session_encoding(v),
                        bytes@,
                    ) by {
                        if is_prefix(spec_session_encoding(v), bytes@) {
                            assert(some_fields_encoded(session_shapes(), bytes@.skip(0)));
                        }
                    }
                }
                return Err(wire_error("malformed session"));
            },
        };
        let ghost fv = fields_view(fs@);
        proof {
            assert(bytes@.subrange(0, ser_fields(fv).len() as int) == ser_fields(fv));
            assert(is_prefix(ser_fields(fv), bytes@));
            assert(fits(fv[0], session_shapes()[0]));
            assert(fits(fv[1], session_shapes()[1]));
            assert(fits(fv[2], session_shapes()[2]));
            assert(fits(fv[3], session_shapes()[3]));
            assert(fits(fv[4], session_shapes()[4]));
            assert(fits(fv[5], session_shapes()[5]));
            assert(fits(fv[6], session_shapes()[6]));
            assert(fits(fv[7], session_shapes()[7]));
            assert(fits(fv[8], session_shapes()[8]));
            assert(fits(fv[9], session_shapes()[9]));
            assert(fits(fv[10], session_shapes()[10]));
            assert(fits(fv[11], session_shapes()[11]));
        }
        let root = field_key32(&fs[0]);
        let dh_self = field_key32(&fs[1]);
        let remote = field_opt_key32(&fs[2]);
        let chain_send = field_opt_key32(&fs[3]);
        let chain_recv = field_opt_key32(&fs[4]);
        let n_send = field_u32(&fs[5]);
        let n_recv = field_u32(&fs[6]);
        let pn = field_u32(&fs[7]);
        let packed = field_bytes(&fs[8]);
        let skipped = match unpack_skipped(packed.as_slice()) {
            Some(c) => c,
            None => {
                proof {
                    assert forall|v: SessionView| encodable(v) implies !is_prefix(
                        #[trigger] spec_session_encoding(v),
                        bytes@,
                    ) by {
                        if is_prefix(spec_session_encoding(v), bytes@) {
                            lemma_session_fields_of(v, fv, bytes@);
                            lemma_pack_len(v.ratchet.skipped);
                            assert(session_fields(v)[8] == fv[8]);
                        }
                    }
                }
                return Err(wire_error("malformed session"));
            },
        };
        let ad = field_bytes(&fs[9]);
        let tag = field_u8(&fs[10]);
        let pb = field_bytes(&fs[11]);
        let pending: Option<HandshakeHeader> = if tag == 0 && pb.len() == 0 {
            None
        } else if tag == 1 {
            let hs_shapes = handshake_header_shape_vec();
            match parse_fields(pb.as_slice(), 0, hs_shapes.as_slice()) {
                Some((hf, e2)) => {
                    if e2 != pb.len() {
                        proof {
                            assert forall|v: SessionView| encodable(v) implies !is_prefix(
                                #[trigger] spec_session_encoding(v),
                                bytes@,
                            ) by {
                                if is_prefix(spec_session_encoding(v), bytes@) {
                                    lemma_session_fields_of(v, fv, bytes@);
                                    assert(session_fields(v)[10] == fv[10]);
                                    assert(session_fields(v)[11] == fv[11]);
                                    let hs = v.pending->0;
                                    lemma_handshake_fits(hs);
                                    assert(pb@.subrange(0, pb@.len() as int) =~= pb@);
                                    assert(pb@.skip(0) =~= pb@);
                                    lemma_fields_unique(hs@, fields_view(hf@), handshake_header_shapes(), pb@);
                                }
                            }
                        }
                        return Err(wire_error("malformed session"));
                    }
                    proof {
                        assert(fits(fields_view(hf@)[0], handshake_header_shapes()[0]));
                        assert(fields_view(hf@).subrange(0, 7) =~= fields_view(hf@));
                    }
                    Some(HandshakeHeader::from_fields(&hf, 0))
                },
                None => {
                    proof {
                        assert forall|v: SessionView| encodable(v) implies !is_prefix(
                            #[trigger] spec_session_encoding(v),
                            bytes@,
                        ) by {
                            if is_prefix(spec_session_encoding(v), bytes@) {
                                lemma_session_fields_of(v, fv, bytes@);
                                assert(session_fields(v)[10] == fv[10]);
                                assert(session_fields(v)[11] == fv[11]);
                                let hs = v.pending->0;
                                lemma_handshake_fits(hs);
                                assert(pb@.subrange(0, pb@.len() as int) =~= pb@);
                                assert(pb@.skip(0) =~= pb@);
                                assert(some_fields_encoded(handshake_header_shapes(), pb@.skip(0)));
                            }
                        }
                    }
                    return Err(wire_error("malformed session"));
                },
            }
        } else {
            proof {
                assert forall|v: SessionView| encodable(v) implies !is_prefix(
                    #[trigger] spec_session_encoding(v),
                    bytes@,
                ) by {
                    if is_prefix(spec_session_encoding(v), bytes@) {
                        lemma_session_fields_of(v, fv, bytes@);
                        assert(session_fields(v)[10] == fv[10]);
                        assert(session_fields(v)[11] == fv[11]);
                    }
                }
            }
            return Err(wire_error("malformed session"));
        };
        let ratchet = DoubleRatchet::from_parts(
            root,
            dh_self,
            remote,
            chain_send,
            chain_recv,
            (n_send, n_recv, pn),
            skipped,
        );
        let s = Session { ratchet, ad_prefix: ad, pending_handshake: pending };
        proof {
            let sf = session_fields(s@);
            assert(sf[8] == fv[8]);
            assert(sf[9] == fv[9]);
            assert(sf[10] == fv[10]);
            if tag == 0 {
                assert(pb@ =~= Seq::<u8>::empty());
            } else {
                assert(pb@.subrange(0, pb@.len() as int) =~= pb@);
            }
            assert(sf[11] == fv[11]);
            assert(sf =~= fv);
        }
        Ok(s)
    }
}

} // verus!
