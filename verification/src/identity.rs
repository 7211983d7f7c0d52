//! Long-term identity and prekey management.
//!
//! An [`Account`] holds everything secret about a user: their Ed25519 identity
//! signing seed, their X25519 identity DH key, a signed prekey, an ML-KEM
//! prekey, and a pool of one-time prekeys. From it we publish a signed
//! [`PreKeyBundle`] (all public) and answer inbound handshakes.
use vstd::prelude::*;

use crate::codec::{
    all_fit, encode_fields, field_bytes, field_key32, field_u32, field_u64, fields_view, fits,
    is_prefix, lemma_fields_prefix_join, lemma_fields_prefix_split, lemma_fields_unique,
    parse_fields, ser_fields, some_fields_encoded, Field, FieldV, Shape,
};
use crate::crypto::{
    ed25519_generate, ed25519_key_valid, ed25519_public, ed25519_sign, ed25519_verify,
    spec_ed25519_key_valid, spec_ed25519_public, spec_ed25519_sign, spec_ed25519_verify,
    spec_mlkem_public, spec_x25519_public, x25519_public, x25519_random_secret, KYBER_PRIVATE_LEN,
};
use crate::error::{wire_error, Error, Result};
use crate::pqkem::KyberKeyPair;
use crate::wire::{opt_key_view, OneTimePrekeyPublics, PreKeyBundle};

verus! {

/// Signature context for the identity DH key: `"Clarity-sig-identity-dh-v1"`.
pub const SIG_CTX_IDENTITY_DH: [u8; 26] = [67, 108, 97, 114, 105, 116, 121, 45, 115, 105, 103, 45, 105, 100, 101, 110, 116, 105, 116, 121, 45, 100, 104, 45, 118, 49];
/// Signature context for the signed prekey: `"Clarity-sig-signed-prekey-v1"`.
pub const SIG_CTX_SIGNED_PREKEY: [u8; 28] = [67, 108, 97, 114, 105, 116, 121, 45, 115, 105, 103, 45, 115, 105, 103, 110, 101, 100, 45, 112, 114, 101, 107, 101, 121, 45, 118, 49];
/// Signature context for the Kyber prekey: `"Clarity-sig-kyber-prekey-v1"`.
pub const SIG_CTX_KYBER_PREKEY: [u8; 27] = [67, 108, 97, 114, 105, 116, 121, 45, 115, 105, 103, 45, 107, 121, 98, 101, 114, 45, 112, 114, 101, 107, 101, 121, 45, 118, 49];

/// Number of one-time prekeys minted for a fresh account.
pub const DEFAULT_ONE_TIME_PREKEYS: u32 = 100;

/// A user's secret key material.
pub struct Account {
    ed_signing: [u8; 32],
    dh_identity: [u8; 32],
    signed_prekey_id: u32,
    signed_prekey: [u8; 32],
    kyber_prekey_id: u32,
    kyber: KyberKeyPair,
    /// Sorted by strictly increasing id.
    one_time_prekeys: Vec<(u32, [u8; 32])>,
    next_opk_id: u32,
}

/// The mathematical content of an [`Account`].
pub struct AccountView {
    pub ed_seed: Seq<u8>,
    pub dh_secret: Seq<u8>,
    pub signed_prekey_id: u32,
    pub signed_prekey: Seq<u8>,
    pub kyber_prekey_id: u32,
    pub kyber: Seq<u8>,
    /// One-time prekeys as (id, secret), by strictly increasing id.
    pub one_time_prekeys: Seq<(u32, Seq<u8>)>,
    pub next_opk_id: u32,
}

/// `otps` lists the public halves of every one-time prekey of `a`, by
/// increasing id.
pub open spec fn publics_of(otps: Seq<(u32, [u8; 32])>, a: AccountView) -> bool {
    &&& otps.len() == a.one_time_prekeys.len()
    &&& forall|i: int|
        0 <= i < otps.len() ==> #[trigger] otps[i].0 == a.one_time_prekeys[i].0 && otps[i].1@ == spec_x25519_public(
            a.one_time_prekeys[i].1,
        )
}

/// Ids strictly increase along the pool.
pub open spec fn sorted_ids(s: Seq<(u32, Seq<u8>)>) -> bool {
    forall|i: int, j: int| 0 <= i < j < s.len() ==> s[i].0 < s[j].0
}

/// The pool as a map from id to secret.
pub open spec fn opk_map(s: Seq<(u32, Seq<u8>)>) -> Map<u32, Seq<u8>> {
    Map::new(
        |id: u32| exists|i: int| 0 <= i < s.len() && s[i].0 == id,
        |id: u32| s[choose|i: int| 0 <= i < s.len() && s[i].0 == id].1,
    )
}

pub open spec fn pool_view(p: Seq<(u32, [u8; 32])>) -> Seq<(u32, Seq<u8>)> {
    p.map_values(|e: (u32, [u8; 32])| (e.0, e.1@))
}

impl View for Account {
    type V = AccountView;

    closed spec fn view(&self) -> AccountView {
        AccountView {
            ed_seed: self.ed_signing@,
            dh_secret: self.dh_identity@,
            signed_prekey_id: self.signed_prekey_id,
            signed_prekey: self.signed_prekey@,
            kyber_prekey_id: self.kyber_prekey_id,
            kyber: self.kyber@,
            one_time_prekeys: pool_view(self.one_time_prekeys@),
            next_opk_id: self.next_opk_id,
        }
    }
}

/// Well-formedness of an account's content: key lengths and a sorted pool.
pub open spec fn account_view_wf(v: AccountView) -> bool {
    &&& v.ed_seed.len() == 32
    &&& v.dh_secret.len() == 32
    &&& v.signed_prekey.len() == 32
    &&& v.kyber.len() == KYBER_PRIVATE_LEN
    &&& sorted_ids(v.one_time_prekeys)
    &&& forall|i: int| 0 <= i < v.one_time_prekeys.len() ==> #[trigger] v.one_time_prekeys[i].1.len() == 32
}

/// `context ‖ message`, the bytes an identity signature covers.
pub open spec fn sig_input(context: Seq<u8>, message: Seq<u8>) -> Seq<u8> {
    context + message
}

/// The bundle an account publishes (its field list): every public key, each
/// signed under the identity key with its own context, plus the lowest-id
/// one-time prekey if any remain.
pub open spec fn spec_bundle(a: AccountView) -> Seq<FieldV> {
    let dh_pub = spec_x25519_public(a.dh_secret);
    let spk_pub = spec_x25519_public(a.signed_prekey);
    let kyber_pub = spec_mlkem_public(a.kyber);
    let opk = if a.one_time_prekeys.len() > 0 {
        Some(spec_x25519_public(a.one_time_prekeys[0].1))
    } else {
        None
    };
    let opk_id = if a.one_time_prekeys.len() > 0 {
        Some(a.one_time_prekeys[0].0)
    } else {
        None
    };
    seq![
        FieldV::Fixed(spec_ed25519_public(a.ed_seed)),
        FieldV::Fixed(dh_pub),
        FieldV::Bytes(spec_ed25519_sign(a.ed_seed, sig_input(SIG_CTX_IDENTITY_DH@, dh_pub))),
        FieldV::Fixed(spk_pub),
        FieldV::U32(a.signed_prekey_id),
        FieldV::Bytes(spec_ed25519_sign(a.ed_seed, sig_input(SIG_CTX_SIGNED_PREKEY@, spk_pub))),
        FieldV::Bytes(kyber_pub),
        FieldV::U32(a.kyber_prekey_id),
        FieldV::Bytes(spec_ed25519_sign(a.ed_seed, sig_input(SIG_CTX_KYBER_PREKEY@, kyber_pub))),
        FieldV::OptFixed(opk),
        FieldV::OptU32(opk_id),
    ]
}

/// One signature check of [`verify_bundle`]: a 64-byte signature that verifies.
pub open spec fn sig_ok(identity: Seq<u8>, context: Seq<u8>, message: Seq<u8>, sig: Seq<u8>) -> bool {
    sig.len() == 64 && spec_ed25519_verify(identity, sig_input(context, message), sig)
}

/// Every signature in a bundle checks out under its identity key.
pub open spec fn bundle_signatures_ok(b: PreKeyBundle) -> bool {
    &&& sig_ok(b.identity_ed@, SIG_CTX_IDENTITY_DH@, b.identity_dh@, b.identity_dh_sig@)
    &&& sig_ok(b.identity_ed@, SIG_CTX_SIGNED_PREKEY@, b.signed_prekey@, b.signed_prekey_sig@)
    &&& sig_ok(b.identity_ed@, SIG_CTX_KYBER_PREKEY@, b.kyber_prekey@, b.kyber_prekey_sig@)
}

// ------------------------------------------------------------ the record

/// The fixed fields that begin an account record.
pub open spec fn account_head_shapes() -> Seq<Shape> {
    seq![
        Shape::Fixed(32),
        Shape::Fixed(32),
        Shape::U32,
        Shape::Fixed(32),
        Shape::U32,
        Shape::Bytes,
        Shape::U64,
    ]
}

/// The shapes after the head, for a pool of `n` one-time prekeys.
pub open spec fn account_tail_shapes(n: nat) -> Seq<Shape> {
    pair_shapes(n) + seq![Shape::U32]
}

/// `n` repetitions of (id, key).
pub open spec fn pair_shapes(n: nat) -> Seq<Shape>
    decreases n,
{
    if n == 0 {
        Seq::empty()
    } else {
        pair_shapes((n - 1) as nat) + seq![Shape::U32, Shape::Fixed(32)]
    }
}

pub open spec fn account_head_fields(a: AccountView) -> Seq<FieldV> {
    seq![
        FieldV::Fixed(a.ed_seed),
        FieldV::Fixed(a.dh_secret),
        FieldV::U32(a.signed_prekey_id),
        FieldV::Fixed(a.signed_prekey),
        FieldV::U32(a.kyber_prekey_id),
        FieldV::Bytes(a.kyber),
        FieldV::U64(a.one_time_prekeys.len() as u64),
    ]
}

pub open spec fn pool_fields(p: Seq<(u32, Seq<u8>)>) -> Seq<FieldV>
    decreases p.len(),
{
    if p.len() == 0 {
        Seq::empty()
    } else {
        pool_fields(p.drop_last()) + seq![FieldV::U32(p.last().0), FieldV::Fixed(p.last().1)]
    }
}

pub proof fn lemma_pair_shapes(n: nat)
    ensures
        pair_shapes(n).len() == 2 * n,
        forall|i: int| 0 <= i < n ==> #[trigger] pair_shapes(n)[2 * i] == Shape::U32 && pair_shapes(n)[2 * i + 1] == Shape::Fixed(32),
        crate::codec::fixed_shapes(pair_shapes(n)),
        crate::codec::shapes_size(pair_shapes(n)) == 36 * n,
    decreases n,
{
    if n > 0 {
        let m = (n - 1) as nat;
        lemma_pair_shapes(m);
        let last = seq![Shape::U32, Shape::Fixed(32)];
        crate::codec::lemma_shapes_size_append(pair_shapes(m), last);
        assert(last.drop_first().drop_first() =~= Seq::<Shape>::empty());
        assert(crate::codec::shapes_size(last) == 36) by {
            assert(crate::codec::shapes_size(last.drop_first()) == 32 + crate::codec::shapes_size(last.drop_first().drop_first()));
        }
        assert forall|i: int| 0 <= i < n implies #[trigger] pair_shapes(n)[2 * i] == Shape::U32 && pair_shapes(n)[2 * i + 1] == Shape::Fixed(32) by {
            if i < m {
                assert(pair_shapes(m)[2 * i] == Shape::U32);
            }
        }
        assert forall|i: int| 0 <= i < pair_shapes(n).len() implies #[trigger] crate::codec::shape_size(pair_shapes(n)[i]) >= 0 by {
            if i < 2 * m {
                assert(crate::codec::shape_size(pair_shapes(m)[i]) >= 0);
            }
        }
    }
}

pub proof fn lemma_pool_fields(p: Seq<(u32, Seq<u8>)>)
    ensures
        pool_fields(p).len() == 2 * p.len(),
        forall|i: int| 0 <= i < p.len() ==> #[trigger] pool_fields(p)[2 * i] == FieldV::U32(p[i].0) && pool_fields(p)[2 * i + 1] == FieldV::Fixed(p[i].1),
    decreases p.len(),
{
    if p.len() > 0 {
        lemma_pool_fields(p.drop_last());
        assert forall|i: int| 0 <= i < p.len() implies #[trigger] pool_fields(p)[2 * i] == FieldV::U32(p[i].0) && pool_fields(p)[2 * i + 1] == FieldV::Fixed(p[i].1) by {
            if i < p.len() - 1 {
                assert(pool_fields(p.drop_last())[2 * i] == FieldV::U32(p.drop_last()[i].0));
            }
        }
    }
}

pub open spec fn account_tail_fields(a: AccountView) -> Seq<FieldV> {
    pool_fields(a.one_time_prekeys) + seq![FieldV::U32(a.next_opk_id)]
}

/// The bytes [`Account::to_bytes`] produces.
pub open spec fn spec_account_encoding(a: AccountView) -> Seq<u8> {
    ser_fields(account_head_fields(a) + account_tail_fields(a))
}

/// The pool a decoded record yields: ids and keys in record order, a later
/// duplicate id replacing an earlier one, kept sorted by id.
pub open spec fn pool_from_record(pairs: Seq<(u32, Seq<u8>)>) -> Map<u32, Seq<u8>>
    decreases pairs.len(),
{
    if pairs.len() == 0 {
        Map::empty()
    } else {
        pool_from_record(pairs.drop_last()).insert(pairs.last().0, pairs.last().1)
    }
}

/// Whether `a` is what [`Account::from_bytes`] builds from a record whose head
/// is `head` and whose tail is `tail`.
pub open spec fn account_from_record(a: AccountView, head: Seq<FieldV>, tail: Seq<FieldV>) -> bool {
    let n = (tail.len() - 1) / 2;
    let pairs = Seq::new(
        n as nat,
        |i: int| (
            match tail[2 * i] {
                FieldV::U32(x) => x,
                _ => 0u32,
            },
            match tail[2 * i + 1] {
                FieldV::Fixed(b) => b,
                _ => Seq::empty(),
            },
        ),
    );
    &&& head[0] == FieldV::Fixed(a.ed_seed)
    &&& head[1] == FieldV::Fixed(a.dh_secret)
    &&& head[2] == FieldV::U32(a.signed_prekey_id)
    &&& head[3] == FieldV::Fixed(a.signed_prekey)
    &&& head[4] == FieldV::U32(a.kyber_prekey_id)
    &&& head[5] == FieldV::Bytes(a.kyber)
    &&& tail[tail.len() - 1] == FieldV::U32(a.next_opk_id)
    &&& opk_map(a.one_time_prekeys) == pool_from_record(pairs)
}

impl Account {
    #[verifier::type_invariant]
    spec fn inv(self) -> bool {
        &&& sorted_ids(pool_view(self.one_time_prekeys@))
        &&& self.kyber@.len() == KYBER_PRIVATE_LEN
    }

    /// The content of a live account is always well-formed.
    pub(crate) fn check_wf(&self)
        ensures
            account_view_wf(self@),
    {
        proof {
            use_type_invariant(self);
        }
        let _k = self.kyber.private_bytes();
    }

    /// The pool of a live account has a machine-sized length.
    pub(crate) fn check_pool_len(&self)
        ensures
            self@.one_time_prekeys.len() <= u64::MAX,
    {
        let _n = self.one_time_prekeys.len();
    }

    /// Create a brand-new account with a full batch of one-time prekeys.
    pub fn generate() -> (a: Self)
        ensures
            a@.signed_prekey_id == 0,
            a@.kyber_prekey_id == 0,
            a@.next_opk_id == DEFAULT_ONE_TIME_PREKEYS,
            a@.one_time_prekeys.len() == DEFAULT_ONE_TIME_PREKEYS,
            forall|i: int| 0 <= i < a@.one_time_prekeys.len() ==> #[trigger] a@.one_time_prekeys[i].0 == i,
    {
        Self::generate_with_prekeys(DEFAULT_ONE_TIME_PREKEYS)
    }

    /// Create a new account, minting `count` one-time prekeys with ids
    /// `0..count`. All secrets are fresh OS randomness.
    pub fn generate_with_prekeys(count: u32) -> (a: Self)
        ensures
            a@.signed_prekey_id == 0,
            a@.kyber_prekey_id == 0,
            a@.next_opk_id == count,
            a@.one_time_prekeys.len() == count,
            forall|i: int| 0 <= i < a@.one_time_prekeys.len() ==> #[trigger] a@.one_time_prekeys[i].0 == i,
    {
        let ed_signing = ed25519_generate();
        let dh_identity = x25519_random_secret();
        let signed_prekey = x25519_random_secret();
        let kyber = KyberKeyPair::generate();
        let mut one_time_prekeys: Vec<(u32, [u8; 32])> = Vec::new();
        let mut id: u32 = 0;
        while id < count
            invariant
                id <= count,
                one_time_prekeys@.len() == id,
                forall|i: int| 0 <= i < id ==> #[trigger] one_time_prekeys@[i].0 == i,
            decreases count - id,
        {
            one_time_prekeys.push((id, x25519_random_secret()));
            id = id + 1;
        }
        let a = Account {
            ed_signing,
            dh_identity,
            signed_prekey_id: 0,
            signed_prekey,
            kyber_prekey_id: 0,
            kyber,
            one_time_prekeys,
            next_opk_id: count,
        };
        assert(a@.one_time_prekeys.len() == count);
        a
    }

    /// The stable public identity: the Ed25519 verifying key. This is what a
    /// contact verifies out-of-band (the safety number is derived from it).
    pub fn identity_public(&self) -> (k: [u8; 32])
        ensures
            k@ == spec_ed25519_public(self@.ed_seed),
            spec_ed25519_key_valid(k@),
    {
        ed25519_public(&self.ed_signing)
    }

    /// The X25519 identity DH public key — what sealed-sender envelopes are
    /// encrypted to. Published in the prekey bundle.
    pub fn identity_dh_public(&self) -> (k: [u8; 32])
        ensures
            k@ == spec_x25519_public(self@.dh_secret),
    {
        x25519_public(&self.dh_identity)
    }

    fn sign(&self, context: &[u8], message: &[u8]) -> (sig: Vec<u8>)
        ensures
            sig@ == spec_ed25519_sign(self@.ed_seed, sig_input(context@, message@)),
            sig_ok(spec_ed25519_public(self@.ed_seed), context@, message@, sig@),
    {
        let buf = crate::bytes::concat(context, message);
        let sig = ed25519_sign(&self.ed_signing, buf.as_slice());
        crate::bytes::slice_to_vec(sig.as_slice())
    }

    /// Publish a signed prekey bundle, including the lowest-id one-time prekey
    /// still available.
    pub fn bundle(&self) -> (b: PreKeyBundle)
        ensures
            b@ == spec_bundle(self@),
            b.identity_ed@ == spec_ed25519_public(self@.ed_seed),
            spec_ed25519_key_valid(b.identity_ed@),
            bundle_signatures_ok(b),
            (b.one_time_prekey_id is None) == (self@.one_time_prekeys.len() == 0),
            self@.one_time_prekeys.len() > 0 ==> b.one_time_prekey_id == Some(self@.one_time_prekeys[0].0) && (
            b.one_time_prekey matches Some(k) && k@ == spec_x25519_public(self@.one_time_prekeys[0].1)),
            forall|i: int|
                0 <= i < self@.one_time_prekeys.len() ==> self@.one_time_prekeys[0].0 <= #[trigger] self@.one_time_prekeys[i].0,
    {
        self.check_wf();
        let identity_dh_pub = x25519_public(&self.dh_identity);
        let signed_prekey_pub = x25519_public(&self.signed_prekey);
        let kyber_pub = self.kyber.public_bytes();
        let (one_time_prekey, one_time_prekey_id) = if self.one_time_prekeys.len() > 0 {
            let (id, sk) = self.one_time_prekeys[0];
            (Some(x25519_public(&sk)), Some(id))
        } else {
            (None, None)
        };
        let identity_ed = self.identity_public();
        let b = PreKeyBundle {
            identity_ed,
            identity_dh: identity_dh_pub,
            identity_dh_sig: self.sign(SIG_CTX_IDENTITY_DH.as_slice(), identity_dh_pub.as_slice()),
            signed_prekey: signed_prekey_pub,
            signed_prekey_id: self.signed_prekey_id,
            signed_prekey_sig: self.sign(SIG_CTX_SIGNED_PREKEY.as_slice(), signed_prekey_pub.as_slice()),
            kyber_prekey: crate::bytes::copy_vec(&kyber_pub),
            kyber_prekey_id: self.kyber_prekey_id,
            kyber_prekey_sig: self.sign(SIG_CTX_KYBER_PREKEY.as_slice(), kyber_pub.as_slice()),
            one_time_prekey,
            one_time_prekey_id,
        };
        assert(b@ =~= spec_bundle(self@));
        b
    }

    // --- Accessors used by the handshake / session layer -------------------

    /// The identity DH secret.
    pub(crate) fn dh_identity(&self) -> (k: [u8; 32])
        ensures
            k@ == self@.dh_secret,
    {
        self.dh_identity
    }

    /// The Ed25519 identity public key.
    pub(crate) fn identity_ed_bytes(&self) -> (k: [u8; 32])
        ensures
            k@ == spec_ed25519_public(self@.ed_seed),
    {
        self.identity_public()
    }

    /// The Kyber keypair.
    pub(crate) fn kyber(&self) -> (k: &KyberKeyPair)
        ensures
            k@ == self@.kyber,
    {
        &self.kyber
    }

    /// The Kyber prekey id.
    pub(crate) fn kyber_prekey_id(&self) -> (id: u32)
        ensures
            id == self@.kyber_prekey_id,
    {
        self.kyber_prekey_id
    }

    /// Look up a signed-prekey private key by id.
    pub(crate) fn signed_prekey(&self, id: u32) -> (r: Result<[u8; 32]>)
        ensures
            match r {
                Ok(k) => id == self@.signed_prekey_id && k@ == self@.signed_prekey,
                Err(e) => id != self@.signed_prekey_id && e == Error::UnknownPrekey,
            },
    {
        if id == self.signed_prekey_id {
            Ok(self.signed_prekey)
        } else {
            Err(Error::UnknownPrekey)
        }
    }

    /// Consume a one-time prekey by id, removing it from the pool. A one-time
    /// prekey is, by definition, usable exactly once.
    #[verifier::loop_isolation(false)]
    pub(crate) fn take_one_time_prekey(&mut self, id: u32) -> (r: Result<[u8; 32]>)
        ensures
            match r {
                Ok(k) => {
                    &&& opk_map(old(self)@.one_time_prekeys).contains_key(id)
                    &&& k@ == opk_map(old(self)@.one_time_prekeys)[id]
                    &&& opk_map(final(self)@.one_time_prekeys) == opk_map(old(self)@.one_time_prekeys).remove(id)
                },
                Err(e) => {
                    &&& !opk_map(old(self)@.one_time_prekeys).contains_key(id)
                    &&& e == Error::UnknownPrekey
                    &&& final(self)@ == old(self)@
                },
            },
            final(self)@.one_time_prekeys.len() == old(self)@.one_time_prekeys.len() - (if r is Ok { 1int } else { 0int }),
            final(self)@.ed_seed == old(self)@.ed_seed,
            final(self)@.dh_secret == old(self)@.dh_secret,
            final(self)@.signed_prekey_id == old(self)@.signed_prekey_id,
            final(self)@.signed_prekey == old(self)@.signed_prekey,
            final(self)@.kyber_prekey_id == old(self)@.kyber_prekey_id,
            final(self)@.kyber == old(self)@.kyber,
            final(self)@.next_opk_id == old(self)@.next_opk_id,
    {
        proof {
            use_type_invariant(&*self);
        }
        let ghost old_pool = pool_view(self.one_time_prekeys@);
        let mut i: usize = 0;
        while i < self.one_time_prekeys.len()
            invariant
                i <= self.one_time_prekeys@.len(),
                *self == *old(self),
                forall|j: int| 0 <= j < i ==> #[trigger] self.one_time_prekeys@[j].0 != id,
            decreases self.one_time_prekeys@.len() - i,
        {
            if self.one_time_prekeys[i].0 == id {
                let mut pool: Vec<(u32, [u8; 32])> = Vec::new();
                std::mem::swap(&mut pool, &mut self.one_time_prekeys);
                let (_, sk) = pool.remove(i);
                proof {
                    let new_pool = pool_view(pool@);
                    assert(old_pool[i as int].0 == id);
                    assert(new_pool =~= old_pool.remove(i as int));
                    lemma_opk_map_remove(old_pool, i as int);
                    lemma_opk_map_at(old_pool, i as int);
                }
                self.one_time_prekeys = pool;
                return Ok(sk);
            }
            i = i + 1;
        }
        proof {
            assert(!opk_map(old_pool).contains_key(id)) by {
                if opk_map(old_pool).contains_key(id) {
                    let j = choose|j: int| 0 <= j < old_pool.len() && old_pool[j].0 == id;
                    assert(self.one_time_prekeys@[j].0 != id);
                }
            }
        }
        Err(Error::UnknownPrekey)
    }

    /// Number of one-time prekeys still available (for replenishment logic).
    pub fn one_time_prekeys_remaining(&self) -> (n: usize)
        ensures
            n == self@.one_time_prekeys.len(),
    {
        self.one_time_prekeys.len()
    }

    /// Public halves of all one-time prekeys, by increasing id, for batch upload
    /// to a prekey server.
    pub fn one_time_prekey_publics(&self) -> (v: OneTimePrekeyPublics)
        ensures
            publics_of(v@, self@),
    {
        let mut v: Vec<(u32, [u8; 32])> = Vec::new();
        let mut i: usize = 0;
        while i < self.one_time_prekeys.len()
            invariant
                i <= self.one_time_prekeys@.len(),
                v@.len() == i,
                forall|j: int|
                    0 <= j < i ==> #[trigger] v@[j].0 == self.one_time_prekeys@[j].0 && v@[j].1@
                        == spec_x25519_public(self.one_time_prekeys@[j].1@),
            decreases self.one_time_prekeys@.len() - i,
        {
            let (id, sk) = self.one_time_prekeys[i];
            v.push((id, x25519_public(&sk)));
            i = i + 1;
        }
        v
    }

    /// Insert (or replace) a one-time prekey, keeping the pool sorted.
    #[verifier::loop_isolation(false)]
    fn insert_one_time_prekey(&mut self, id: u32, sk: [u8; 32])
        ensures
            opk_map(final(self)@.one_time_prekeys) == opk_map(old(self)@.one_time_prekeys).insert(id, sk@),
            final(self)@.ed_seed == old(self)@.ed_seed,
            final(self)@.dh_secret == old(self)@.dh_secret,
            final(self)@.signed_prekey_id == old(self)@.signed_prekey_id,
            final(self)@.signed_prekey == old(self)@.signed_prekey,
            final(self)@.kyber_prekey_id == old(self)@.kyber_prekey_id,
            final(self)@.kyber == old(self)@.kyber,
            final(self)@.next_opk_id == old(self)@.next_opk_id,
    {
        proof {
            use_type_invariant(&*self);
        }
        let ghost old_pool = pool_view(self.one_time_prekeys@);
        let mut i: usize = 0;
        while i < self.one_time_prekeys.len() && self.one_time_prekeys[i].0 < id
            invariant
                i <= self.one_time_prekeys@.len(),
                *self == *old(self),
                forall|j: int| 0 <= j < i ==> #[trigger] self.one_time_prekeys@[j].0 < id,
            decreases self.one_time_prekeys@.len() - i,
        {
            i = i + 1;
        }
        let replace = i < self.one_time_prekeys.len() && self.one_time_prekeys[i].0 == id;
        let mut pool: Vec<(u32, [u8; 32])> = Vec::new();
        std::mem::swap(&mut pool, &mut self.one_time_prekeys);
        if replace {
            pool.set(i, (id, sk));
            proof {
                let new_pool = pool_view(pool@);
                assert(new_pool =~= old_pool.update(i as int, (id, sk@)));
                lemma_opk_map_update(old_pool, i as int, sk@);
            }
        } else {
            pool.insert(i, (id, sk));
            proof {
                let new_pool = pool_view(pool@);
                assert(new_pool =~= old_pool.insert(i as int, (id, sk@)));
                lemma_opk_map_insert(old_pool, i as int, id, sk@);
            }
        }
        self.one_time_prekeys = pool;
    }

    /// Mint `count` additional one-time prekeys with ids `next..next + count`,
    /// returning the new ids.
    pub fn replenish_one_time_prekeys(&mut self, count: u32) -> (ids: Vec<u32>)
        requires
            old(self)@.next_opk_id + count <= u32::MAX,
        ensures
            ids@.len() == count,
            forall|i: int| 0 <= i < count ==> #[trigger] ids@[i] == old(self)@.next_opk_id + i,
            final(self)@.next_opk_id == old(self)@.next_opk_id + count,
            forall|id: u32|
                #[trigger] opk_map(final(self)@.one_time_prekeys).contains_key(id) <==> (opk_map(
                    old(self)@.one_time_prekeys,
                ).contains_key(id) || (old(self)@.next_opk_id <= id < old(self)@.next_opk_id + count)),
            forall|id: u32|
                opk_map(old(self)@.one_time_prekeys).contains_key(id) && !(old(self)@.next_opk_id <= id
                    < old(self)@.next_opk_id + count) ==> #[trigger] opk_map(final(self)@.one_time_prekeys)[id]
                    == opk_map(old(self)@.one_time_prekeys)[id],
            final(self)@.ed_seed == old(self)@.ed_seed,
            final(self)@.dh_secret == old(self)@.dh_secret,
            final(self)@.signed_prekey_id == old(self)@.signed_prekey_id,
            final(self)@.signed_prekey == old(self)@.signed_prekey,
            final(self)@.kyber_prekey_id == old(self)@.kyber_prekey_id,
            final(self)@.kyber == old(self)@.kyber,
    {
        proof {
            use_type_invariant(&*self);
        }
        let ghost start = self@;
        let mut ids: Vec<u32> = Vec::new();
        let mut k: u32 = 0;
        while k < count
            invariant
                k <= count,
                start.next_opk_id + count <= u32::MAX,
                self@.next_opk_id == start.next_opk_id + k,
                ids@.len() == k,
                forall|i: int| 0 <= i < k ==> #[trigger] ids@[i] == start.next_opk_id + i,
                forall|id: u32|
                    #[trigger] opk_map(self@.one_time_prekeys).contains_key(id) <==> (opk_map(
                        start.one_time_prekeys,
                    ).contains_key(id) || (start.next_opk_id <= id < start.next_opk_id + k)),
                forall|id: u32|
                    opk_map(start.one_time_prekeys).contains_key(id) && !(start.next_opk_id <= id
                        < start.next_opk_id + k) ==> #[trigger] opk_map(self@.one_time_prekeys)[id]
                        == opk_map(start.one_time_prekeys)[id],
                self@.ed_seed == start.ed_seed,
                self@.dh_secret == start.dh_secret,
                self@.signed_prekey_id == start.signed_prekey_id,
                self@.signed_prekey == start.signed_prekey,
                self@.kyber_prekey_id == start.kyber_prekey_id,
                self@.kyber == start.kyber,
            decreases count - k,
        {
            proof {
                use_type_invariant(&*self);
            }
            let ghost before = opk_map(self@.one_time_prekeys);
            let id = self.next_opk_id;
            self.next_opk_id = id + 1;
            let sk = x25519_random_secret();
            assert(before == opk_map(self@.one_time_prekeys));
            self.insert_one_time_prekey(id, sk);
            proof {
                let after = opk_map(self@.one_time_prekeys);
                assert(after == before.insert(id, sk@));
                assert forall|x: u32| #[trigger] after.contains_key(x) <==> (opk_map(
                    start.one_time_prekeys,
                ).contains_key(x) || (start.next_opk_id <= x < start.next_opk_id + k + 1)) by {
                    if x != id {
                        assert(after.contains_key(x) == before.contains_key(x));
                    }
                }
                assert forall|x: u32|
                    opk_map(start.one_time_prekeys).contains_key(x) && !(start.next_opk_id <= x
                        < start.next_opk_id + k + 1) implies #[trigger] after[x] == opk_map(start.one_time_prekeys)[x] by {
                    assert(x != id);
                    assert(after[x] == before[x]);
                }
            }
            ids.push(id);
            k = k + 1;
        }
        ids
    }

    // --- Persistence -------------------------------------------------------

    /// Serialize the full secret account state (for encrypted-at-rest
    /// storage). The caller MUST store the result under OS-backed protection —
    /// this is raw secret key material.
    pub fn to_bytes(&self) -> (out: Vec<u8>)
        ensures
            out@ == spec_account_encoding(self@),
            account_view_wf(self@),
            self@.one_time_prekeys.len() <= u64::MAX,
    {
        self.check_wf();
        self.check_pool_len();
        proof {
            use_type_invariant(self);
        }
        let mut fs: Vec<Field> = Vec::new();
        fs.push(Field::Fixed(crate::bytes::array_to_vec32(&self.ed_signing)));
        fs.push(Field::Fixed(crate::bytes::array_to_vec32(&self.dh_identity)));
        fs.push(Field::U32(self.signed_prekey_id));
        fs.push(Field::Fixed(crate::bytes::array_to_vec32(&self.signed_prekey)));
        fs.push(Field::U32(self.kyber_prekey_id));
        fs.push(Field::Bytes(self.kyber.private_bytes()));
        fs.push(Field::U64(self.one_time_prekeys.len() as u64));
        let ghost head = fields_view(fs@);
        assert(head =~= account_head_fields(self@));
        let mut i: usize = 0;
        while i < self.one_time_prekeys.len()
            invariant
                i <= self.one_time_prekeys@.len(),
                fs@.len() == 7 + 2 * i,
                fields_view(fs@) == head + pool_fields(pool_view(self.one_time_prekeys@).subrange(0, i as int)),
            decreases self.one_time_prekeys@.len() - i,
        {
            let (id, sk) = self.one_time_prekeys[i];
            let ghost old_fs = fields_view(fs@);
            fs.push(Field::U32(id));
            fs.push(Field::Fixed(crate::bytes::array_to_vec32(&sk)));
            assert(fields_view(fs@) =~= old_fs + seq![FieldV::U32(id), FieldV::Fixed(sk@)]);
            proof {
                let p = pool_view(self.one_time_prekeys@);
                let q = p.subrange(0, i + 1);
                assert(q.drop_last() =~= p.subrange(0, i as int));
                assert(q.last() == p[i as int]);
                assert(pool_fields(q) == pool_fields(q.drop_last()) + seq![FieldV::U32(q.last().0), FieldV::Fixed(q.last().1)]);
                assert(fields_view(fs@) =~= head + pool_fields(p.subrange(0, i + 1)));
            }
            i = i + 1;
        }
        let ghost old_fs = fields_view(fs@);
        fs.push(Field::U32(self.next_opk_id));
        proof {
            let p = pool_view(self.one_time_prekeys@);
            assert(fields_view(fs@) =~= old_fs + seq![FieldV::U32(self.next_opk_id)]);
            assert(p.subrange(0, p.len() as int) =~= p);
            assert(fields_view(fs@) =~= account_head_fields(self@) + account_tail_fields(self@));
        }
        encode_fields(&fs)
    }

    /// Restore an account previously produced by [`Account::to_bytes`].
    ///
    /// Succeeds exactly when `bytes` begins with an account record (any
    /// trailing bytes are ignored) whose Kyber key has the right length;
    /// [`Error::Wire`] when no record is there, [`Error::MalformedKey`] when the
    /// Kyber key has the wrong length.
    pub fn from_bytes(bytes: &[u8]) -> (r: Result<Self>)
        ensures
            match r {
                Ok(a) => account_decodes_to(bytes@, a@) && account_view_wf(a@),
                Err(Error::Wire(_)) => !account_record_at(bytes@),
                Err(Error::MalformedKey) => account_record_at(bytes@) && !account_record_kyber_ok(bytes@),
                Err(_) => false,
            },
    {
        let head_shapes = account_head_shape_vec();
        let (head, pos) = match parse_fields(bytes, 0, head_shapes.as_slice()) {
            Some(p) => p,
            None => {
                proof {
                    lemma_no_head_no_record(bytes@);
                }
                return Err(wire_error("malformed account"));
            },
        };
        let ghost hv = fields_view(head@);
        proof {
            assert(fits(hv[6], account_head_shapes()[6]));
        }
        let count = field_u64(&head[6]);
        let len = bytes.len();
        if count > ((len - pos) / 36) as u64 {
            proof {
                lemma_count_too_large(bytes@, hv, pos as int, count);
            }
            return Err(wire_error("malformed account"));
        }
        let n = count as usize;
        let tail_shapes = account_tail_shape_vec(n);
        let (tail, end) = match parse_fields(bytes, pos, tail_shapes.as_slice()) {
            Some(p) => p,
            None => {
                proof {
                    lemma_no_tail_no_record(bytes@, hv, pos as int, n as nat);
                }
                return Err(wire_error("malformed account"));
            },
        };
        let ghost tv = fields_view(tail@);
        proof {
            assert(bytes@.skip(0) =~= bytes@);
            assert(fits(hv[0], account_head_shapes()[0]));
            assert(fits(hv[1], account_head_shapes()[1]));
            assert(fits(hv[2], account_head_shapes()[2]));
            assert(fits(hv[3], account_head_shapes()[3]));
            assert(fits(hv[4], account_head_shapes()[4]));
            assert(fits(hv[5], account_head_shapes()[5]));
            lemma_record_found(bytes@, hv, tv, pos as int, end as int);
        }
        let kyber_bytes = field_bytes(&head[5]);
        let kyber = match KyberKeyPair::from_private_bytes(kyber_bytes.as_slice()) {
            Ok(k) => k,
            Err(e) => {
                proof {
                    lemma_record_kyber(bytes@, hv, tv);
                }
                return Err(e);
            },
        };
        let mut a = Account {
            ed_signing: field_key32(&head[0]),
            dh_identity: field_key32(&head[1]),
            signed_prekey_id: field_u32(&head[2]),
            signed_prekey: field_key32(&head[3]),
            kyber_prekey_id: field_u32(&head[4]),
            kyber,
            one_time_prekeys: Vec::new(),
            next_opk_id: 0,
        };
        let ghost pairs = Seq::new(
            n as nat,
            |i: int| (
                match tv[2 * i] {
                    FieldV::U32(x) => x,
                    _ => 0u32,
                },
                match tv[2 * i + 1] {
                    FieldV::Fixed(b) => b,
                    _ => Seq::empty(),
                },
            ),
        );
        assert(opk_map(a@.one_time_prekeys) =~= Map::empty());
        proof {
            lemma_pair_shapes(n as nat);
        }
        let mut i: usize = 0;
        while i < n
            invariant
                i <= n,
                tail@.len() == 2 * n + 1,
                tv == fields_view(tail@),
                all_fit(tv, account_tail_shapes(n as nat)),
                opk_map(a@.one_time_prekeys) == pool_from_record(pairs.subrange(0, i as int)),
                pairs.len() == n,
                pairs == Seq::new(
                    n as nat,
                    |i: int| (
                        match tv[2 * i] {
                            FieldV::U32(x) => x,
                            _ => 0u32,
                        },
                        match tv[2 * i + 1] {
                            FieldV::Fixed(b) => b,
                            _ => Seq::empty(),
                        },
                    ),
                ),
                a@.ed_seed == match hv[0] { FieldV::Fixed(b) => b, _ => Seq::empty() },
                hv[0] == FieldV::Fixed(a@.ed_seed),
                hv[1] == FieldV::Fixed(a@.dh_secret),
                hv[2] == FieldV::U32(a@.signed_prekey_id),
                hv[3] == FieldV::Fixed(a@.signed_prekey),
                hv[4] == FieldV::U32(a@.kyber_prekey_id),
                hv[5] == FieldV::Bytes(a@.kyber),
            decreases n - i,
        {
            proof {
                lemma_pair_shapes(n as nat);
                assert(account_tail_shapes(n as nat)[2 * i as int] == pair_shapes(n as nat)[2 * i as int]);
                assert(account_tail_shapes(n as nat)[2 * i + 1] == pair_shapes(n as nat)[2 * i + 1]);
            }
            assert(fits(tv[2 * i as int], account_tail_shapes(n as nat)[2 * i as int]));
            assert(fits(tv[2 * i + 1], account_tail_shapes(n as nat)[2 * i + 1]));
            let id = field_u32(&tail[2 * i]);
            let sk = field_key32(&tail[2 * i + 1]);
            a.insert_one_time_prekey(id, sk);
            proof {
                assert(pairs.subrange(0, i + 1).drop_last() =~= pairs.subrange(0, i as int));
            }
            i = i + 1;
        }
        proof {
            lemma_pair_shapes(n as nat);
        }
        assert(fits(tv[2 * n as int], account_tail_shapes(n as nat)[2 * n as int]));
        proof {
            use_type_invariant(&a);
        }
        a.next_opk_id = field_u32(&tail[2 * n]);
        proof {
            assert(pairs.subrange(0, n as int) =~= pairs);
            assert((tv.len() - 1) / 2 == n);
            assert(account_from_record(a@, hv, tv));
            assert(is_prefix(ser_fields(hv + tv), bytes@));
            assert(all_fit(hv, account_head_shapes()));
            assert(hv[6] == FieldV::U64(count));
            assert(record_tail_ok(hv, tv));
            lemma_decodes_to(bytes@, a@, hv, tv);
        }
        a.check_wf();
        Ok(a)
    }
}

proof fn lemma_pool_ser_len(p: Seq<(u32, Seq<u8>)>)
    requires
        forall|i: int| 0 <= i < p.len() ==> #[trigger] p[i].1.len() == 32,
    ensures
        ser_fields(pool_fields(p)).len() == 36 * p.len(),
    decreases p.len(),
{
    if p.len() > 0 {
        let q = p.drop_last();
        assert forall|i: int| 0 <= i < q.len() implies #[trigger] q[i].1.len() == 32 by {
            assert(q[i] == p[i]);
        }
        lemma_pool_ser_len(q);
        let last = seq![FieldV::U32(p.last().0), FieldV::Fixed(p.last().1)];
        crate::codec::lemma_ser_fields_append(pool_fields(q), last);
        vstd::bytes::lemma_auto_spec_u32_to_from_le_bytes();
        assert(last.drop_first().drop_first() =~= Seq::<FieldV>::empty());
        assert(last.drop_first() =~= seq![FieldV::Fixed(p.last().1)]);
        assert(p.last() == p[p.len() - 1]);
        assert(p[p.len() - 1].1.len() == 32);
        assert(seq![FieldV::Fixed(p.last().1)].drop_first() =~= Seq::<FieldV>::empty());
        assert(ser_fields(Seq::<FieldV>::empty()).len() == 0);
        assert(ser_fields(last.drop_first()).len() == 32);
        assert(ser_fields(last).len() == 36);
    }
}

/// An account record is 3292 bytes plus 36 per one-time prekey.
pub proof fn lemma_account_encoding_len(a: AccountView)
    requires
        account_view_wf(a),
    ensures
        spec_account_encoding(a).len() == 3292 + 36 * a.one_time_prekeys.len(),
{
    let head = account_head_fields(a);
    let tail = account_tail_fields(a);
    crate::codec::lemma_ser_fields_append(head, tail);
    crate::codec::lemma_ser_fields_append(pool_fields(a.one_time_prekeys), seq![FieldV::U32(a.next_opk_id)]);
    lemma_pool_ser_len(a.one_time_prekeys);
    vstd::bytes::lemma_auto_spec_u32_to_from_le_bytes();
    vstd::bytes::lemma_auto_spec_u64_to_from_le_bytes();
    reveal_with_fuel(ser_fields, 8);
    assert(seq![FieldV::U32(a.next_opk_id)].drop_first() =~= Seq::<FieldV>::empty());
    let h1 = head.drop_first();
    let h2 = h1.drop_first();
    let h3 = h2.drop_first();
    let h4 = h3.drop_first();
    let h5 = h4.drop_first();
    let h6 = h5.drop_first();
    let h7 = h6.drop_first();
    assert(h7 =~= Seq::<FieldV>::empty());
    assert(h6 =~= seq![FieldV::U64(a.one_time_prekeys.len() as u64)]);
    assert(ser_fields(h6).len() == 8);
    assert(h5 =~= seq![FieldV::Bytes(a.kyber)] + h6);
    assert(ser_fields(h5).len() == 8 + 3168 + 8);
    assert(ser_fields(h4).len() == 4 + 3184);
    assert(ser_fields(h3).len() == 32 + 3188);
    assert(ser_fields(h2).len() == 4 + 3220);
    assert(ser_fields(h1).len() == 32 + 3224);
    assert(ser_fields(head).len() == 3288);
}

/// `t` begins with an account record whose fields make up `a`.
pub open spec fn account_decodes_to(t: Seq<u8>, a: AccountView) -> bool {
    exists|head: Seq<FieldV>, tail: Seq<FieldV>|
        #![trigger account_from_record(a, head, tail)]
        is_prefix(ser_fields(head + tail), t) && all_fit(head, account_head_shapes()) && record_tail_ok(head, tail)
            && account_from_record(a, head, tail)
}

proof fn lemma_decodes_to(t: Seq<u8>, a: AccountView, head: Seq<FieldV>, tail: Seq<FieldV>)
    requires
        is_prefix(ser_fields(head + tail), t),
        all_fit(head, account_head_shapes()),
        record_tail_ok(head, tail),
        account_from_record(a, head, tail),
    ensures
        account_decodes_to(t, a),
{
}

/// Dropping the last entry of a sorted pool drops its id from the map.
proof fn lemma_opk_map_drop_last(s: Seq<(u32, Seq<u8>)>)
    requires
        sorted_ids(s),
        s.len() > 0,
    ensures
        opk_map(s.drop_last()) == opk_map(s).remove(s.last().0),
{
    let d = s.drop_last();
    let x = s.last().0;
    assert(sorted_ids(d));
    assert forall|id: u32| opk_map(d).dom().contains(id) <==> opk_map(s).remove(x).dom().contains(id) by {
        if opk_map(d).dom().contains(id) {
            let j = choose|j: int| 0 <= j < d.len() && d[j].0 == id;
            assert(s[j].0 == id);
            assert(s[j].0 < s[s.len() - 1].0);
        }
        if opk_map(s).remove(x).dom().contains(id) {
            let j = choose|j: int| 0 <= j < s.len() && s[j].0 == id;
            assert(j != s.len() - 1);
            assert(d[j].0 == id);
        }
    }
    assert forall|id: u32| #[trigger] opk_map(d).dom().contains(id) implies opk_map(d)[id] == opk_map(s).remove(x)[id] by {
        let j = choose|j: int| 0 <= j < d.len() && d[j].0 == id;
        lemma_opk_map_at(d, j);
        lemma_opk_map_at(s, j);
        assert(d[j] == s[j]);
    }
    assert(opk_map(d) =~= opk_map(s).remove(x));
}

/// A sorted pool is determined by its map.
proof fn lemma_opk_map_unique(s: Seq<(u32, Seq<u8>)>, t: Seq<(u32, Seq<u8>)>)
    requires
        sorted_ids(s),
        sorted_ids(t),
        opk_map(s) == opk_map(t),
    ensures
        s == t,
    decreases s.len() + t.len(),
{
    if s.len() == 0 || t.len() == 0 {
        if s.len() > 0 {
            lemma_opk_map_at(s, 0);
            assert(opk_map(t).dom().contains(s[0].0));
            assert(false);
        }
        if t.len() > 0 {
            lemma_opk_map_at(t, 0);
            assert(opk_map(s).dom().contains(t[0].0));
            assert(false);
        }
        assert(s =~= t);
    } else {
        let x = s.last().0;
        let y = t.last().0;
        lemma_opk_map_at(s, s.len() - 1);
        lemma_opk_map_at(t, t.len() - 1);
        let js = choose|j: int| 0 <= j < s.len() && s[j].0 == y;
        let jt = choose|j: int| 0 <= j < t.len() && t[j].0 == x;
        if jt < t.len() - 1 {
            assert(t[jt].0 < t[t.len() - 1].0);
        }
        if js < s.len() - 1 {
            assert(s[js].0 < s[s.len() - 1].0);
        }
        assert(x == y);
        assert(s.last() == t.last());
        lemma_opk_map_drop_last(s);
        lemma_opk_map_drop_last(t);
        assert(sorted_ids(s.drop_last()));
        assert(sorted_ids(t.drop_last()));
        lemma_opk_map_unique(s.drop_last(), t.drop_last());
        assert(s =~= s.drop_last().push(s.last()));
        assert(t =~= t.drop_last().push(t.last()));
    }
}

/// Reading a sorted pool's records back gives the pool's map.
proof fn lemma_pool_from_sorted(s: Seq<(u32, Seq<u8>)>)
    requires
        sorted_ids(s),
    ensures
        pool_from_record(s) == opk_map(s),
    decreases s.len(),
{
    if s.len() == 0 {
        assert(opk_map(s) =~= Map::empty());
    } else {
        let d = s.drop_last();
        assert(sorted_ids(d));
        lemma_pool_from_sorted(d);
        lemma_opk_map_drop_last(s);
        lemma_opk_map_at(s, s.len() - 1);
        assert(opk_map(s) =~= opk_map(s).remove(s.last().0).insert(s.last().0, s.last().1));
    }
}

/// A well-formed account's fields fit the record shapes.
proof fn lemma_account_fields_fit(a: AccountView)
    requires
        account_view_wf(a),
        a.one_time_prekeys.len() <= u64::MAX,
    ensures
        all_fit(account_head_fields(a), account_head_shapes()),
        record_tail_ok(account_head_fields(a), account_tail_fields(a)),
        all_fit(account_tail_fields(a), account_tail_shapes(a.one_time_prekeys.len())),
{
    let head = account_head_fields(a);
    assert(fits(head[0], account_head_shapes()[0]));
    assert(fits(head[1], account_head_shapes()[1]));
    assert(fits(head[2], account_head_shapes()[2]));
    assert(fits(head[3], account_head_shapes()[3]));
    assert(fits(head[4], account_head_shapes()[4]));
    assert(fits(head[5], account_head_shapes()[5]));
    assert(fits(head[6], account_head_shapes()[6]));
    let n = a.one_time_prekeys.len();
    let tail = account_tail_fields(a);
    lemma_pool_fields(a.one_time_prekeys);
    lemma_pair_shapes(n);
    let shapes = account_tail_shapes(n);
    assert forall|i: int| 0 <= i < tail.len() implies #[trigger] fits(tail[i], shapes[i]) by {
        if i < 2 * n {
            let k = i / 2;
            assert(0 <= k < n);
            assert(pool_fields(a.one_time_prekeys)[2 * k] == FieldV::U32(a.one_time_prekeys[k].0));
            assert(pair_shapes(n)[2 * k] == Shape::U32);
            assert(a.one_time_prekeys[k].1.len() == 32);
            if i % 2 == 0 {
                assert(i == 2 * k);
            } else {
                assert(i == 2 * k + 1);
            }
            assert(tail[i] == pool_fields(a.one_time_prekeys)[i]);
            assert(shapes[i] == pair_shapes(n)[i]);
        } else {
            assert(i == 2 * n);
        }
    }
    assert(head[6] == FieldV::U64(n as u64));
}

/// An account record written by [`Account::to_bytes`] is readable: it holds
/// a record with a Kyber key of the right length, so
/// [`Account::from_bytes`] does not refuse it.
pub proof fn lemma_account_bytes_readable(a: AccountView)
    requires
        account_view_wf(a),
        a.one_time_prekeys.len() <= u64::MAX,
    ensures
        account_record_at(spec_account_encoding(a)),
        account_record_kyber_ok(spec_account_encoding(a)),
{
    let head = account_head_fields(a);
    let tail = account_tail_fields(a);
    lemma_account_fields_fit(a);
    let t = spec_account_encoding(a);
    assert(t.subrange(0, t.len() as int) =~= t);
    assert(is_prefix(ser_fields(head + tail), t));
    assert(head[5] == FieldV::Bytes(a.kyber));
}

/// What [`Account::to_bytes`] writes, [`Account::from_bytes`] reads back as
/// the very same account (both ensure the premises on `a` and `b`): the
/// same identity keys, the same bundle and the same one-time prekeys, so a
/// first message sent against a bundle taken before saving is answered
/// after restoring.
pub proof fn lemma_account_round_trip(a: AccountView, b: AccountView)
    requires
        account_view_wf(a),
        account_view_wf(b),
        a.one_time_prekeys.len() <= u64::MAX,
        account_decodes_to(spec_account_encoding(a), b),
    ensures
        b == a,
        spec_bundle(b) == spec_bundle(a),
        spec_ed25519_public(b.ed_seed) == spec_ed25519_public(a.ed_seed),
        spec_x25519_public(b.dh_secret) == spec_x25519_public(a.dh_secret),
        b.one_time_prekeys == a.one_time_prekeys,
{
    let t = spec_account_encoding(a);
    let ha = account_head_fields(a);
    let ta = account_tail_fields(a);
    lemma_account_fields_fit(a);
    let (head, tail) = choose|head: Seq<FieldV>, tail: Seq<FieldV>|
        #![trigger account_from_record(b, head, tail)]
        is_prefix(ser_fields(head + tail), t) && all_fit(head, account_head_shapes()) && record_tail_ok(head, tail)
            && account_from_record(b, head, tail);
    assert(t.subrange(0, t.len() as int) =~= t);
    assert(is_prefix(ser_fields(ha + ta), t));
    lemma_fields_prefix_split(head, tail, t);
    lemma_fields_prefix_split(ha, ta, t);
    lemma_head_unique(head, ha, t);
    let n = a.one_time_prekeys.len();
    assert(head[6] == FieldV::U64(n as u64));
    assert(all_fit(tail, account_tail_shapes(n)));
    lemma_fields_unique(tail, ta, account_tail_shapes(n), t.skip(ser_fields(ha).len() as int));
    lemma_pool_fields(a.one_time_prekeys);
    lemma_pair_shapes(n);
    assert(tail.len() == 2 * n + 1);
    assert((tail.len() - 1) / 2 == n);
    let pairs = Seq::new(
        n,
        |i: int| (
            match tail[2 * i] {
                FieldV::U32(x) => x,
                _ => 0u32,
            },
            match tail[2 * i + 1] {
                FieldV::Fixed(k) => k,
                _ => Seq::empty(),
            },
        ),
    );
    assert forall|i: int| 0 <= i < n implies pairs[i] == a.one_time_prekeys[i] by {
        assert(pool_fields(a.one_time_prekeys)[2 * i] == FieldV::U32(a.one_time_prekeys[i].0));
        assert(tail[2 * i] == pool_fields(a.one_time_prekeys)[2 * i]);
        assert(tail[2 * i + 1] == pool_fields(a.one_time_prekeys)[2 * i + 1]);
    }
    assert(pairs =~= a.one_time_prekeys);
    lemma_pool_from_sorted(a.one_time_prekeys);
    assert(opk_map(b.one_time_prekeys) == opk_map(a.one_time_prekeys));
    lemma_opk_map_unique(b.one_time_prekeys, a.one_time_prekeys);
    assert(tail[tail.len() - 1] == FieldV::U32(a.next_opk_id));
}

/// Some account record is encoded at the start of `t`.
pub open spec fn account_record_at(t: Seq<u8>) -> bool {
    exists|head: Seq<FieldV>, tail: Seq<FieldV>|
        is_prefix(ser_fields(head + tail), t) && all_fit(head, account_head_shapes()) && record_tail_ok(
            head,
            tail,
        )
}

/// The tail has the shape announced by the head's count field.
pub open spec fn record_tail_ok(head: Seq<FieldV>, tail: Seq<FieldV>) -> bool {
    match head[6] {
        FieldV::U64(n) => all_fit(tail, account_tail_shapes(n as nat)),
        _ => false,
    }
}

/// The account record at the start of `t` carries a Kyber key of the right
/// length.
pub open spec fn account_record_kyber_ok(t: Seq<u8>) -> bool {
    exists|head: Seq<FieldV>, tail: Seq<FieldV>|
        is_prefix(ser_fields(head + tail), t) && all_fit(head, account_head_shapes()) && record_tail_ok(
            head,
            tail,
        ) && (head[5] matches FieldV::Bytes(k) && k.len() == KYBER_PRIVATE_LEN)
}

fn account_head_shape_vec() -> (v: Vec<Shape>)
    ensures
        v@ == account_head_shapes(),
{
    let mut v: Vec<Shape> = Vec::new();
    v.push(Shape::Fixed(32));
    v.push(Shape::Fixed(32));
    v.push(Shape::U32);
    v.push(Shape::Fixed(32));
    v.push(Shape::U32);
    v.push(Shape::Bytes);
    v.push(Shape::U64);
    assert(v@ =~= account_head_shapes());
    v
}

fn account_tail_shape_vec(n: usize) -> (v: Vec<Shape>)
    requires
        n <= usize::MAX / 4,
    ensures
        v@ == account_tail_shapes(n as nat),
{
    let mut v: Vec<Shape> = Vec::new();
    let mut i: usize = 0;
    while i < n
        invariant
            i <= n,
            n <= usize::MAX / 4,
            v@ == pair_shapes(i as nat),
        decreases n - i,
    {
        v.push(Shape::U32);
        v.push(Shape::Fixed(32));
        i = i + 1;
        assert(v@ =~= pair_shapes(i as nat));
    }
    v.push(Shape::U32);
    assert(v@ =~= account_tail_shapes(n as nat));
    v
}

// ---------------------------------------------------------- pool lemmas

proof fn lemma_opk_map_at(p: Seq<(u32, Seq<u8>)>, i: int)
    requires
        sorted_ids(p),
        0 <= i < p.len(),
    ensures
        opk_map(p).contains_key(p[i].0),
        opk_map(p)[p[i].0] == p[i].1,
{
    let id = p[i].0;
    assert(opk_map(p).dom().contains(id));
    let j = choose|j: int| 0 <= j < p.len() && p[j].0 == id;
    assert(j == i) by {
        if j < i {
            assert(p[j].0 < p[i].0);
        } else if j > i {
            assert(p[i].0 < p[j].0);
        }
    }
}

proof fn lemma_opk_map_remove(p: Seq<(u32, Seq<u8>)>, i: int)
    requires
        sorted_ids(p),
        0 <= i < p.len(),
    ensures
        opk_map(p.remove(i)) == opk_map(p).remove(p[i].0),
        sorted_ids(p.remove(i)),
{
    let q = p.remove(i);
    let id = p[i].0;
    assert(sorted_ids(q)) by {
        assert forall|a: int, b: int| 0 <= a < b < q.len() implies q[a].0 < q[b].0 by {
            let pa = if a < i { a } else { a + 1 };
            let pb = if b < i { b } else { b + 1 };
            assert(q[a] == p[pa]);
            assert(q[b] == p[pb]);
        }
    }
    assert forall|k: u32| #[trigger] opk_map(q).contains_key(k) == opk_map(p).remove(id).contains_key(k) by {
        if opk_map(q).contains_key(k) {
            let j = choose|j: int| 0 <= j < q.len() && q[j].0 == k;
            let pj = if j < i { j } else { j + 1 };
            assert(p[pj].0 == k);
            assert(pj != i);
            assert(k != id) by {
                if pj < i {
                    assert(p[pj].0 < p[i].0);
                } else {
                    assert(p[i].0 < p[pj].0);
                }
            }
        }
        if opk_map(p).remove(id).contains_key(k) {
            let j = choose|j: int| 0 <= j < p.len() && p[j].0 == k;
            assert(j != i);
            let qj = if j < i { j } else { j - 1 };
            assert(q[qj].0 == k);
        }
    }
    assert forall|k: u32| #[trigger] opk_map(q).contains_key(k) implies opk_map(q)[k] == opk_map(p)[k] by {
        let j = choose|j: int| 0 <= j < q.len() && q[j].0 == k;
        lemma_opk_map_at(q, j);
        let pj = if j < i { j } else { j + 1 };
        assert(q[j] == p[pj]);
        lemma_opk_map_at(p, pj);
    }
    assert(opk_map(q) =~= opk_map(p).remove(id));
}

proof fn lemma_opk_map_update(p: Seq<(u32, Seq<u8>)>, i: int, sk: Seq<u8>)
    requires
        sorted_ids(p),
        0 <= i < p.len(),
    ensures
        opk_map(p.update(i, (p[i].0, sk))) == opk_map(p).insert(p[i].0, sk),
        sorted_ids(p.update(i, (p[i].0, sk))),
{
    let q = p.update(i, (p[i].0, sk));
    let id = p[i].0;
    assert(sorted_ids(q)) by {
        assert forall|a: int, b: int| 0 <= a < b < q.len() implies q[a].0 < q[b].0 by {
            assert(q[a].0 == p[a].0);
            assert(q[b].0 == p[b].0);
        }
    }
    assert forall|k: u32| #[trigger] opk_map(q).contains_key(k) == opk_map(p).insert(id, sk).contains_key(k) by {
        if opk_map(q).contains_key(k) {
            let j = choose|j: int| 0 <= j < q.len() && q[j].0 == k;
            assert(p[j].0 == k);
        }
        if opk_map(p).contains_key(k) {
            let j = choose|j: int| 0 <= j < p.len() && p[j].0 == k;
            assert(q[j].0 == k);
        }
        if k == id {
            assert(q[i].0 == k);
        }
    }
    assert forall|k: u32| #[trigger] opk_map(q).contains_key(k) implies opk_map(q)[k] == opk_map(p).insert(id, sk)[k] by {
        let j = choose|j: int| 0 <= j < q.len() && q[j].0 == k;
        lemma_opk_map_at(q, j);
        if j != i {
            lemma_opk_map_at(p, j);
            assert(k != id) by {
                if j < i {
                    assert(p[j].0 < p[i].0);
                } else {
                    assert(p[i].0 < p[j].0);
                }
            }
        }
    }
    assert(opk_map(q) =~= opk_map(p).insert(id, sk));
}

proof fn lemma_opk_map_insert(p: Seq<(u32, Seq<u8>)>, i: int, id: u32, sk: Seq<u8>)
    requires
        sorted_ids(p),
        0 <= i <= p.len(),
        forall|j: int| 0 <= j < i ==> #[trigger] p[j].0 < id,
        i < p.len() ==> p[i].0 > id,
    ensures
        opk_map(p.insert(i, (id, sk))) == opk_map(p).insert(id, sk),
        sorted_ids(p.insert(i, (id, sk))),
{
    let q = p.insert(i, (id, sk));
    assert forall|j: int| i < j < p.len() implies #[trigger] p[j].0 > id by {
        assert(p[i].0 < p[j].0);
    }
    assert(sorted_ids(q)) by {
        assert forall|a: int, b: int| 0 <= a < b < q.len() implies q[a].0 < q[b].0 by {
            if a < i && b < i {
                assert(p[a].0 < p[b].0);
            } else if a < i && b == i {
            } else if a < i {
                assert(q[b] == p[b - 1]);
                assert(p[a].0 < id);
            } else if a == i {
                assert(q[b] == p[b - 1]);
            } else {
                assert(q[a] == p[a - 1]);
                assert(q[b] == p[b - 1]);
                assert(p[a - 1].0 < p[b - 1].0);
            }
        }
    }
    assert forall|k: u32| #[trigger] opk_map(q).contains_key(k) == opk_map(p).insert(id, sk).contains_key(k) by {
        if opk_map(q).contains_key(k) {
            let j = choose|j: int| 0 <= j < q.len() && q[j].0 == k;
            if j < i {
                assert(p[j].0 == k);
            } else if j > i {
                assert(p[j - 1].0 == k);
            }
        }
        if opk_map(p).contains_key(k) {
            let j = choose|j: int| 0 <= j < p.len() && p[j].0 == k;
            if j < i {
                assert(q[j].0 == k);
            } else {
                assert(q[j + 1].0 == k);
            }
        }
        if k == id {
            assert(q[i].0 == k);
        }
    }
    assert forall|k: u32| #[trigger] opk_map(q).contains_key(k) implies opk_map(q)[k] == opk_map(p).insert(id, sk)[k] by {
        let j = choose|j: int| 0 <= j < q.len() && q[j].0 == k;
        lemma_opk_map_at(q, j);
        if j < i {
            lemma_opk_map_at(p, j);
        } else if j > i {
            lemma_opk_map_at(p, j - 1);
        }
    }
    assert(opk_map(q) =~= opk_map(p).insert(id, sk));
}

// ------------------------------------------------------- record lemmas

proof fn lemma_head_unique(a: Seq<FieldV>, b: Seq<FieldV>, t: Seq<u8>)
    requires
        all_fit(a, account_head_shapes()),
        all_fit(b, account_head_shapes()),
        is_prefix(ser_fields(a), t),
        is_prefix(ser_fields(b), t),
    ensures
        a == b,
{
    lemma_fields_unique(a, b, account_head_shapes(), t);
}

proof fn lemma_no_head_no_record(t: Seq<u8>)
    requires
        !some_fields_encoded(account_head_shapes(), t.skip(0)),
    ensures
        !account_record_at(t),
{
    assert(t.skip(0) =~= t);
    if account_record_at(t) {
        let (head, tail) = choose|head: Seq<FieldV>, tail: Seq<FieldV>|
            is_prefix(ser_fields(head + tail), t) && all_fit(head, account_head_shapes()) && record_tail_ok(
                head,
                tail,
            );
        lemma_fields_prefix_split(head, tail, t);
    }
}

proof fn lemma_tail_len(tail: Seq<FieldV>, n: nat)
    requires
        all_fit(tail, account_tail_shapes(n)),
    ensures
        ser_fields(tail).len() == 36 * n + 4,
{
    lemma_pair_shapes(n);
    let ss = account_tail_shapes(n);
    crate::codec::lemma_shapes_size_append(pair_shapes(n), seq![Shape::U32]);
    assert(crate::codec::shapes_size(seq![Shape::U32]) == 4) by {
        assert(seq![Shape::U32].drop_first() =~= Seq::<Shape>::empty());
        assert(crate::codec::shapes_size(Seq::<Shape>::empty()) == 0);
    }
    assert forall|i: int| 0 <= i < ss.len() implies #[trigger] crate::codec::shape_size(ss[i]) >= 0 by {
        if i < 2 * n {
            assert(crate::codec::shape_size(pair_shapes(n)[i]) >= 0);
        }
    }
    crate::codec::lemma_fixed_ser_len(tail, ss);
}

proof fn lemma_count_too_large(t: Seq<u8>, hv: Seq<FieldV>, pos: int, count: u64)
    requires
        all_fit(hv, account_head_shapes()),
        pos == ser_fields(hv).len(),
        pos <= t.len(),
        t.subrange(0, pos) == ser_fields(hv),
        hv[6] == FieldV::U64(count),
        count > (t.len() - pos) / 36,
    ensures
        !account_record_at(t),
{
    if account_record_at(t) {
        let (head, tail) = choose|head: Seq<FieldV>, tail: Seq<FieldV>|
            is_prefix(ser_fields(head + tail), t) && all_fit(head, account_head_shapes()) && record_tail_ok(
                head,
                tail,
            );
        lemma_fields_prefix_split(head, tail, t);
        lemma_head_unique(head, hv, t);
        lemma_tail_len(tail, count as nat);
        crate::codec::lemma_ser_fields_append(head, tail);
    }
}

proof fn lemma_no_tail_no_record(t: Seq<u8>, hv: Seq<FieldV>, pos: int, n: nat)
    requires
        all_fit(hv, account_head_shapes()),
        pos == ser_fields(hv).len(),
        pos <= t.len(),
        t.subrange(0, pos) == ser_fields(hv),
        hv[6] == FieldV::U64(n as u64),
        n < 0x1_0000_0000_0000_0000,
        !some_fields_encoded(account_tail_shapes(n), t.skip(pos)),
    ensures
        !account_record_at(t),
{
    if account_record_at(t) {
        let (head, tail) = choose|head: Seq<FieldV>, tail: Seq<FieldV>|
            is_prefix(ser_fields(head + tail), t) && all_fit(head, account_head_shapes()) && record_tail_ok(
                head,
                tail,
            );
        lemma_fields_prefix_split(head, tail, t);
        lemma_head_unique(head, hv, t);
    }
}

proof fn lemma_record_found(t: Seq<u8>, hv: Seq<FieldV>, tv: Seq<FieldV>, pos: int, end: int)
    requires
        all_fit(hv, account_head_shapes()),
        pos == ser_fields(hv).len(),
        t.subrange(0, pos) == ser_fields(hv),
        record_tail_ok(hv, tv),
        end == pos + ser_fields(tv).len(),
        end <= t.len(),
        t.subrange(pos, end) == ser_fields(tv),
    ensures
        is_prefix(ser_fields(hv + tv), t),
        account_record_at(t),
{
    assert(t.skip(pos).subrange(0, ser_fields(tv).len() as int) =~= t.subrange(pos, end));
    lemma_fields_prefix_join(hv, tv, t);
}

proof fn lemma_record_kyber(t: Seq<u8>, hv: Seq<FieldV>, tv: Seq<FieldV>)
    requires
        is_prefix(ser_fields(hv + tv), t),
        all_fit(hv, account_head_shapes()),
        record_tail_ok(hv, tv),
        hv[5] matches FieldV::Bytes(k) && k.len() != KYBER_PRIVATE_LEN,
    ensures
        account_record_at(t),
        !account_record_kyber_ok(t),
{
    if account_record_kyber_ok(t) {
        let (head, tail) = choose|head: Seq<FieldV>, tail: Seq<FieldV>|
            is_prefix(ser_fields(head + tail), t) && all_fit(head, account_head_shapes()) && record_tail_ok(
                head,
                tail,
            ) && (head[5] matches FieldV::Bytes(k) && k.len() == KYBER_PRIVATE_LEN);
        lemma_fields_prefix_split(head, tail, t);
        lemma_fields_prefix_split(hv, tv, t);
        lemma_head_unique(head, hv, t);
    }
}

// ----------------------------------------------------- bundle checking

/// Verify every signature in a fetched [`PreKeyBundle`].
///
/// This is the linchpin of the "untrusted prekey server" property: the client
/// checks that all prekeys are signed by the identity key it expects, so a
/// malicious server cannot substitute its own keys to MITM the session.
/// [`Error::MalformedKey`] when the identity key is not a curve point,
/// [`Error::BadSignature`] when any signature fails.
pub fn verify_bundle(bundle: &PreKeyBundle) -> (r: Result<()>)
    ensures
        match r {
            Ok(()) => spec_ed25519_key_valid(bundle.identity_ed@) && bundle_signatures_ok(*bundle),
            Err(Error::MalformedKey) => !spec_ed25519_key_valid(bundle.identity_ed@),
            Err(Error::BadSignature) => spec_ed25519_key_valid(bundle.identity_ed@) && !bundle_signatures_ok(
                *bundle,
            ),
            Err(_) => false,
        },
{
    if !ed25519_key_valid(&bundle.identity_ed) {
        return Err(Error::MalformedKey);
    }
    verify_sig(&bundle.identity_ed, SIG_CTX_IDENTITY_DH.as_slice(), bundle.identity_dh.as_slice(), bundle.identity_dh_sig.as_slice())?;
    verify_sig(&bundle.identity_ed, SIG_CTX_SIGNED_PREKEY.as_slice(), bundle.signed_prekey.as_slice(), bundle.signed_prekey_sig.as_slice())?;
    verify_sig(&bundle.identity_ed, SIG_CTX_KYBER_PREKEY.as_slice(), bundle.kyber_prekey.as_slice(), bundle.kyber_prekey_sig.as_slice())?;
    Ok(())
}

fn verify_sig(identity: &[u8; 32], context: &[u8], message: &[u8], sig_bytes: &[u8]) -> (r: Result<()>)
    requires
        spec_ed25519_key_valid(identity@),
    ensures
        match r {
            Ok(()) => sig_ok(identity@, context@, message@, sig_bytes@),
            Err(e) => e == Error::BadSignature && !sig_ok(identity@, context@, message@, sig_bytes@),
        },
{
    if sig_bytes.len() != 64 {
        return Err(Error::BadSignature);
    }
    let sig = crate::bytes::array64_at(sig_bytes, 0);
    assert(sig@ =~= sig_bytes@);
    let buf = crate::bytes::concat(context, message);
    if ed25519_verify(identity, buf.as_slice(), &sig) {
        Ok(())
    } else {
        Err(Error::BadSignature)
    }
}

} // verus!
