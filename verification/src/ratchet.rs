//! The Double Ratchet (Signal-style), driving per-message forward secrecy and
//! break-in recovery.
//!
//! Two interlocking ratchets:
//! * a **symmetric** chain-key ratchet that advances on every message and gives
//!   forward secrecy (old message keys are deleted and cannot be rederived);
//! * a **Diffie-Hellman** ratchet that advances on each round-trip and gives
//!   future secrecy.
//!
//! Out-of-order and dropped messages are handled by caching skipped message
//! keys, bounded by [`MAX_SKIP`] per chain and by a total cache size.
use vstd::prelude::*;

use crate::crypto::{aead_max_len, spec_x25519, spec_x25519_public, x25519_dh, x25519_public, x25519_random_secret, zeroize_key};
use crate::error::{Error, Result};
use crate::kdf::{aead_open, aead_seal, kdf_ck, kdf_rk, spec_aead_open, spec_aead_seal, spec_kdf_ck, spec_kdf_rk};
use crate::wire::{spec_header_encoding, RatchetHeader};

verus! {

/// Maximum number of message keys we will skip (and cache) within a single
/// receiving chain before declaring the gap hostile.
pub const MAX_SKIP: u32 = 1000;

/// Total cap on cached skipped keys across all chains.
pub const MAX_SKIPPED_CACHE: usize = 4000;

/// A cached skipped message key: (remote ratchet key, counter, message key).
pub type SkippedKey = ([u8; 32], u32, [u8; 32]);

/// A live Double Ratchet session state.
pub struct DoubleRatchet {
    root_key: [u8; 32],
    dh_self: [u8; 32],
    dh_remote: Option<[u8; 32]>,
    chain_send: Option<[u8; 32]>,
    chain_recv: Option<[u8; 32]>,
    n_send: u32,
    n_recv: u32,
    pn: u32,
    skipped: Vec<SkippedKey>,
}

/// The mathematical state of a [`DoubleRatchet`]. Our current ratchet public
/// key is `spec_x25519_public(dh_self)`.
#[verifier::ext_equal]
pub struct RatchetView {
    pub root_key: Seq<u8>,
    pub dh_self: Seq<u8>,
    pub dh_remote: Option<Seq<u8>>,
    pub chain_send: Option<Seq<u8>>,
    pub chain_recv: Option<Seq<u8>>,
    pub n_send: u32,
    pub n_recv: u32,
    pub pn: u32,
    /// Cached skipped keys, oldest first; a lookup takes the first match.
    pub skipped: Seq<(Seq<u8>, u32, Seq<u8>)>,
}

pub open spec fn opt_bytes(o: Option<[u8; 32]>) -> Option<Seq<u8>> {
    match o {
        Some(a) => Some(a@),
        None => None,
    }
}

pub open spec fn cache_view(c: Seq<SkippedKey>) -> Seq<(Seq<u8>, u32, Seq<u8>)> {
    c.map_values(|e: SkippedKey| (e.0@, e.1, e.2@))
}

impl View for DoubleRatchet {
    type V = RatchetView;

    closed spec fn view(&self) -> RatchetView {
        RatchetView {
            root_key: self.root_key@,
            dh_self: self.dh_self@,
            dh_remote: opt_bytes(self.dh_remote),
            chain_send: opt_bytes(self.chain_send),
            chain_recv: opt_bytes(self.chain_recv),
            n_send: self.n_send,
            n_recv: self.n_recv,
            pn: self.pn,
            skipped: cache_view(self.skipped@),
        }
    }
}

// ------------------------------------------------------------ the model

/// The cache entry is the one for (`dh`, `n`).
pub open spec fn entry_for(e: (Seq<u8>, u32, Seq<u8>), dh: Seq<u8>, n: u32) -> bool {
    e.0 == dh && e.1 == n
}

/// Some cached key is stored under (`dh`, `n`).
pub open spec fn cache_has(c: Seq<(Seq<u8>, u32, Seq<u8>)>, dh: Seq<u8>, n: u32) -> bool {
    exists|i: int| 0 <= i < c.len() && entry_for(#[trigger] c[i], dh, n)
}

/// The position of the first entry for (`dh`, `n`).
pub open spec fn cache_first(c: Seq<(Seq<u8>, u32, Seq<u8>)>, dh: Seq<u8>, n: u32) -> int {
    choose|i: int|
        0 <= i < c.len() && entry_for(c[i], dh, n) && forall|j: int| 0 <= j < i ==> !entry_for(#[trigger] c[j], dh, n)
}

/// Store `mk` under (`dh`, `n`): replace the first entry for that key, or
/// append a new one.
pub open spec fn cache_insert(c: Seq<(Seq<u8>, u32, Seq<u8>)>, dh: Seq<u8>, n: u32, mk: Seq<u8>) -> Seq<(Seq<u8>, u32, Seq<u8>)> {
    if cache_has(c, dh, n) {
        c.update(cache_first(c, dh, n), (dh, n, mk))
    } else {
        c.push((dh, n, mk))
    }
}

/// Advance a receiving chain from counter `n` up to `until`, caching each
/// message key under (`remote`, counter). Stops early, reporting `false`,
/// when the cache is full. Yields (cache, chain key, counter, completed).
pub open spec fn skip_chain(
    c: Seq<(Seq<u8>, u32, Seq<u8>)>,
    remote: Seq<u8>,
    ck: Seq<u8>,
    n: u32,
    until: u32,
) -> (Seq<(Seq<u8>, u32, Seq<u8>)>, Seq<u8>, u32, bool)
    decreases until - n,
{
    if n >= until {
        (c, ck, n, true)
    } else if c.len() >= MAX_SKIPPED_CACHE {
        (c, ck, n, false)
    } else {
        skip_chain(cache_insert(c, remote, n, spec_kdf_ck(ck).1), remote, spec_kdf_ck(ck).0, (n + 1) as u32, until)
    }
}

/// Skip the receiving chain forward to `until` (caching the skipped keys);
/// `false` when the gap is hostile or the cache fills up. On a full cache the
/// counter and cache keep their progress but the chain key does not.
pub open spec fn spec_skip(s: RatchetView, until: u32) -> (RatchetView, bool) {
    match s.chain_recv {
        None => (s, true),
        Some(ck) => if until < s.n_recv {
            (s, true)
        } else if until - s.n_recv > MAX_SKIP {
            (s, false)
        } else {
            match s.dh_remote {
                None => (s, false),
                Some(remote) => {
                    let r = skip_chain(s.skipped, remote, ck, s.n_recv, until);
                    (
                        RatchetView {
                            skipped: r.0,
                            n_recv: r.2,
                            chain_recv: if r.3 { Some(r.1) } else { s.chain_recv },
                            ..s
                        },
                        r.3,
                    )
                },
            }
        },
    }
}

/// A Diffie-Hellman ratchet step against `remote`, with `fresh` as our new
/// ratchet secret.
pub open spec fn spec_ratchet_step(s: RatchetView, remote: Seq<u8>, fresh: Seq<u8>) -> RatchetView {
    let (rk1, ck_recv) = spec_kdf_rk(s.root_key, spec_x25519(s.dh_self, remote));
    let (rk2, ck_send) = spec_kdf_rk(rk1, spec_x25519(fresh, remote));
    RatchetView {
        root_key: rk2,
        dh_self: fresh,
        dh_remote: Some(remote),
        chain_send: Some(ck_send),
        chain_recv: Some(ck_recv),
        n_send: 0,
        n_recv: 0,
        pn: s.n_send,
        skipped: s.skipped,
    }
}

/// The associated data bound into a message: the session prefix, then the
/// header's canonical encoding.
pub open spec fn header_ad(prefix: Seq<u8>, h: RatchetHeader) -> Seq<u8> {
    prefix + spec_header_encoding(h)
}

/// Whether decrypting `h` performs a DH ratchet step (before the final skip).
pub open spec fn ratchets_on(s: RatchetView, h: RatchetHeader) -> bool {
    !cache_has(s.skipped, h.dh_pub@, h.n) && s.dh_remote != Some(h.dh_pub@) && spec_skip(s, h.pn).1
}

/// The state after decrypting a message with header `h` (with `fresh` as the
/// new ratchet secret if a DH step happens), and the message key to open it
/// with (`None` when decryption fails before any key is found).
pub open spec fn decrypt_step(s: RatchetView, h: RatchetHeader, fresh: Seq<u8>) -> (RatchetView, Option<Seq<u8>>) {
    if cache_has(s.skipped, h.dh_pub@, h.n) {
        let i = cache_first(s.skipped, h.dh_pub@, h.n);
        (RatchetView { skipped: s.skipped.remove(i), ..s }, Some(s.skipped[i].2))
    } else {
        let ratchet = s.dh_remote != Some(h.dh_pub@);
        let (s1, ok1) = if ratchet {
            spec_skip(s, h.pn)
        } else {
            (s, true)
        };
        if !ok1 {
            (s1, None)
        } else {
            let s2 = if ratchet {
                spec_ratchet_step(s1, h.dh_pub@, fresh)
            } else {
                s1
            };
            let (s3, ok3) = spec_skip(s2, h.n);
            if !ok3 {
                (s3, None)
            } else {
                match s3.chain_recv {
                    None => (s3, None),
                    Some(ck) => if s3.n_recv == u32::MAX {
                        (s3, None)
                    } else {
                        (
                            RatchetView {
                                chain_recv: Some(spec_kdf_ck(ck).0),
                                n_recv: (s3.n_recv + 1) as u32,
                                ..s3
                            },
                            Some(spec_kdf_ck(ck).1),
                        )
                    },
                }
            }
        }
    }
}

/// The message key decrypting `h` opens with (it does not depend on the fresh
/// ratchet secret; see [`lemma_decrypt_key`]).
pub open spec fn decrypt_key(s: RatchetView, h: RatchetHeader) -> Option<Seq<u8>> {
    decrypt_step(s, h, s.dh_self).1
}

proof fn lemma_skip_local(a: RatchetView, b: RatchetView, until: u32)
    requires
        a.chain_recv == b.chain_recv,
        a.n_recv == b.n_recv,
        a.dh_remote == b.dh_remote,
        a.skipped == b.skipped,
    ensures
        spec_skip(a, until).1 == spec_skip(b, until).1,
        spec_skip(a, until).0.chain_recv == spec_skip(b, until).0.chain_recv,
        spec_skip(a, until).0.n_recv == spec_skip(b, until).0.n_recv,
{
}

/// Which message key a decryption uses never depends on the fresh ratchet
/// secret drawn for a DH step.
pub proof fn lemma_decrypt_key(s: RatchetView, h: RatchetHeader, fresh: Seq<u8>)
    ensures
        decrypt_step(s, h, fresh).1 == decrypt_key(s, h),
{
    if !cache_has(s.skipped, h.dh_pub@, h.n) && s.dh_remote != Some(h.dh_pub@) {
        let s1 = spec_skip(s, h.pn).0;
        lemma_skip_local(spec_ratchet_step(s1, h.dh_pub@, fresh), spec_ratchet_step(s1, h.dh_pub@, s.dh_self), h.n);
    }
}

/// The state a fresh initiator starts from, given its first ratchet secret.
pub open spec fn initiator_start(root: Seq<u8>, remote: Seq<u8>, fresh: Seq<u8>) -> RatchetView {
    let (rk, cs) = spec_kdf_rk(root, spec_x25519(fresh, remote));
    RatchetView {
        root_key: rk,
        dh_self: fresh,
        dh_remote: Some(remote),
        chain_send: Some(cs),
        chain_recv: None,
        n_send: 0,
        n_recv: 0,
        pn: 0,
        skipped: Seq::empty(),
    }
}

/// The state a fresh responder starts from.
pub open spec fn responder_start(root: Seq<u8>, dh_self: Seq<u8>) -> RatchetView {
    RatchetView {
        root_key: root,
        dh_self,
        dh_remote: None,
        chain_send: None,
        chain_recv: None,
        n_send: 0,
        n_recv: 0,
        pn: 0,
        skipped: Seq::empty(),
    }
}

/// The state after encrypting one message (when the sending chain exists).
pub open spec fn encrypt_step(s: RatchetView) -> RatchetView {
    RatchetView {
        chain_send: Some(spec_kdf_ck(s.chain_send->0).0),
        n_send: (s.n_send + 1) as u32,
        ..s
    }
}

/// The message key the next message is sealed under.
pub open spec fn send_key(s: RatchetView) -> Seq<u8> {
    spec_kdf_ck(s.chain_send->0).1
}

/// The receiver is in step with the sender's sending chain: it holds the same
/// chain key at the same counter, knows the sender's ratchet key, and has no
/// cached key for that ratchet key at or past the counter.
pub open spec fn in_step(sender: RatchetView, receiver: RatchetView) -> bool {
    &&& sender.chain_send is Some
    &&& receiver.chain_recv == sender.chain_send
    &&& receiver.n_recv == sender.n_send
    &&& receiver.dh_remote == Some(spec_x25519_public(sender.dh_self))
    &&& forall|m: u32|
        m >= sender.n_send ==> !cache_has(receiver.skipped, spec_x25519_public(sender.dh_self), m)
}

/// `h` is the header [`DoubleRatchet::encrypt`] puts on the sender's next
/// message.
pub open spec fn sends_header(s: RatchetView, h: RatchetHeader) -> bool {
    h.dh_pub@ == spec_x25519_public(s.dh_self) && h.pn == s.pn && h.n == s.n_send
}

/// In-order delivery on one chain: when the receiver is in step with the
/// sender, it opens the sender's next message with exactly the key that
/// message was sealed under, takes no DH step, and the two stay in step.
pub proof fn lemma_in_step_delivery(sender: RatchetView, receiver: RatchetView, h: RatchetHeader, fresh: Seq<u8>)
    requires
        in_step(sender, receiver),
        sender.n_send < u32::MAX,
        sends_header(sender, h),
    ensures
        decrypt_key(receiver, h) == Some(send_key(sender)),
        decrypt_step(receiver, h, fresh).0.dh_self == receiver.dh_self,
        in_step(encrypt_step(sender), decrypt_step(receiver, h, fresh).0),
{
    let ck = sender.chain_send->0;
    assert(!cache_has(receiver.skipped, h.dh_pub@, h.n));
    assert(skip_chain(receiver.skipped, h.dh_pub@, ck, h.n, h.n) == (receiver.skipped, ck, h.n, true));
    assert(spec_skip(receiver, h.n).0 =~= receiver);
    lemma_decrypt_key(receiver, h, fresh);
    let after = decrypt_step(receiver, h, fresh).0;
    let next = encrypt_step(sender);
    assert forall|m: u32| m >= next.n_send implies !cache_has(after.skipped, spec_x25519_public(next.dh_self), m) by {
        assert(m >= sender.n_send);
    }
}

/// Out-of-order delivery on one chain: when the receiver is in step with the
/// sender and the sender seals two messages, the receiver opens the second
/// first with its own key, and afterwards still opens the first with the key
/// it was sealed under (kept in the skipped-key cache), as long as the cache
/// has room.
pub proof fn lemma_out_of_order_delivery(
    sender: RatchetView,
    receiver: RatchetView,
    first: RatchetHeader,
    second: RatchetHeader,
    fresh: Seq<u8>,
    fresh2: Seq<u8>,
)
    requires
        in_step(sender, receiver),
        sender.n_send + 1 < u32::MAX,
        receiver.skipped.len() < MAX_SKIPPED_CACHE,
        sends_header(sender, first),
        sends_header(encrypt_step(sender), second),
    ensures
        decrypt_key(receiver, second) == Some(send_key(encrypt_step(sender))),
        decrypt_key(decrypt_step(receiver, second, fresh).0, first) == Some(send_key(sender)),
        decrypt_step(decrypt_step(receiver, second, fresh).0, first, fresh2).1 == Some(send_key(sender)),
{
    let ck = sender.chain_send->0;
    let dh = first.dh_pub@;
    let n = first.n;
    let k1 = spec_kdf_ck(ck).1;
    assert(second.dh_pub@ == dh);
    assert(second.n == n + 1);
    assert(!cache_has(receiver.skipped, dh, n));
    assert(!cache_has(receiver.skipped, dh, (n + 1) as u32));
    let c1 = cache_insert(receiver.skipped, dh, n, k1);
    assert(c1 == receiver.skipped.push((dh, n, k1)));
    assert(skip_chain(c1, dh, spec_kdf_ck(ck).0, (n + 1) as u32, (n + 1) as u32) == (c1, spec_kdf_ck(ck).0, (n + 1) as u32, true));
    assert(skip_chain(receiver.skipped, dh, ck, n, (n + 1) as u32) == (c1, spec_kdf_ck(ck).0, (n + 1) as u32, true));
    lemma_decrypt_key(receiver, second, fresh);
    let after = decrypt_step(receiver, second, fresh).0;
    assert(after.skipped == c1);
    let last = c1.len() - 1;
    assert(entry_for(c1[last], dh, n));
    assert(cache_has(c1, dh, n));
    let i = cache_first(c1, dh, n);
    assert(0 <= i < c1.len() && entry_for(c1[i], dh, n));
    if i < last {
        assert(c1[i] == receiver.skipped[i]);
        assert(cache_has(receiver.skipped, dh, n));
    }
    assert(i == last);
    lemma_decrypt_key(after, first, fresh2);
}

// ------------------------------------------------- delivery in any order

/// The chain key `j` steps along a chain that starts at `ck`.
pub open spec fn chain_key_at(ck: Seq<u8>, j: nat) -> Seq<u8>
    decreases j,
{
    if j == 0 {
        ck
    } else {
        spec_kdf_ck(chain_key_at(ck, (j - 1) as nat)).0
    }
}

/// The message key of the `j`-th message of a chain that starts at `ck`.
pub open spec fn message_key_at(ck: Seq<u8>, j: nat) -> Seq<u8> {
    spec_kdf_ck(chain_key_at(ck, j)).1
}

/// The state after `j` encryptions.
pub open spec fn encrypt_steps(s: RatchetView, j: nat) -> RatchetView
    decreases j,
{
    if j == 0 {
        s
    } else {
        encrypt_step(encrypt_steps(s, (j - 1) as nat))
    }
}

/// The `j`-th message a sender seals from state `s` carries counter
/// `s.n_send + j` and is sealed under the `j`-th message key of its chain.
pub proof fn lemma_sender_keys(s: RatchetView, j: nat)
    requires
        s.chain_send is Some,
        s.n_send + j <= u32::MAX,
    ensures
        encrypt_steps(s, j).chain_send == Some(chain_key_at(s.chain_send->0, j)),
        encrypt_steps(s, j).n_send == s.n_send + j,
        encrypt_steps(s, j).dh_self == s.dh_self,
        send_key(encrypt_steps(s, j)) == message_key_at(s.chain_send->0, j),
    decreases j,
{
    if j > 0 {
        lemma_sender_keys(s, (j - 1) as nat);
    }
}

/// The cached keys a receiver adds while skipping its chain from counter
/// `top` up to `until`.
pub open spec fn skipped_run(dh: Seq<u8>, ck: Seq<u8>, n0: u32, top: u32, until: u32) -> Seq<(Seq<u8>, u32, Seq<u8>)> {
    Seq::new(
        (until - top) as nat,
        |i: int| (dh, (top + i) as u32, message_key_at(ck, (top + i - n0) as nat)),
    )
}

/// Entries for `dh` at counters from `n0` on are cached at most once.
pub open spec fn unique_from(c: Seq<(Seq<u8>, u32, Seq<u8>)>, dh: Seq<u8>, n0: u32) -> bool {
    forall|a: int, b: int|
        0 <= a < b < c.len() && (#[trigger] c[a]).0 == dh && (#[trigger] c[b]).0 == dh && c[a].1 >= n0 ==> c[a].1
            != c[b].1
}

/// `r` receives a chain (remote ratchet key `dh`, chain key `ck` at counter
/// `n0`) with the counters in `delivered` already opened: it is at some
/// counter past `n0` on that chain, holds exactly the skipped keys of the
/// counters below it not yet opened, and no others from `n0` on.
pub open spec fn chain_progress(
    r: RatchetView,
    dh: Seq<u8>,
    ck: Seq<u8>,
    n0: u32,
    delivered: Set<u32>,
    base: nat,
) -> bool {
    &&& r.dh_remote == Some(dh)
    &&& n0 <= r.n_recv
    &&& r.chain_recv == Some(chain_key_at(ck, (r.n_recv - n0) as nat))
    &&& r.skipped.len() <= base + (r.n_recv - n0)
    &&& forall|x: u32| x >= r.n_recv ==> !#[trigger] cache_has(r.skipped, dh, x)
    &&& forall|x: u32| n0 <= x < r.n_recv ==> (delivered.contains(x) == !#[trigger] cache_has(r.skipped, dh, x))
    &&& forall|x: u32|
        n0 <= x < r.n_recv && !delivered.contains(x) ==> (#[trigger] r.skipped[cache_first(r.skipped, dh, x)]).2
            == message_key_at(ck, (x - n0) as nat)
    &&& forall|x: u32| #[trigger] delivered.contains(x) ==> n0 <= x < r.n_recv
    &&& unique_from(r.skipped, dh, n0)
}

proof fn lemma_cache_first_is(c: Seq<(Seq<u8>, u32, Seq<u8>)>, dh: Seq<u8>, n: u32, i: int)
    requires
        0 <= i < c.len(),
        entry_for(c[i], dh, n),
        forall|j: int| 0 <= j < i ==> !entry_for(#[trigger] c[j], dh, n),
    ensures
        cache_has(c, dh, n),
        cache_first(c, dh, n) == i,
{
    assert(cache_has(c, dh, n));
    let k = cache_first(c, dh, n);
    assert(0 <= k < c.len() && entry_for(c[k], dh, n));
    if k < i {
        assert(!entry_for(c[k], dh, n));
    }
    if k > i {
        assert(!entry_for(c[i], dh, n));
    }
}

proof fn lemma_cache_first_exists(c: Seq<(Seq<u8>, u32, Seq<u8>)>, dh: Seq<u8>, n: u32)
    requires
        cache_has(c, dh, n),
    ensures
        0 <= cache_first(c, dh, n) < c.len(),
        entry_for(c[cache_first(c, dh, n)], dh, n),
        forall|j: int| 0 <= j < cache_first(c, dh, n) ==> !entry_for(#[trigger] c[j], dh, n),
    decreases c.len(),
{
    let d = c.drop_last();
    if cache_has(d, dh, n) {
        lemma_cache_first_exists(d, dh, n);
        let f = cache_first(d, dh, n);
        assert forall|j: int| 0 <= j < f implies !entry_for(#[trigger] c[j], dh, n) by {
            assert(c[j] == d[j]);
        }
        assert(c[f] == d[f]);
        lemma_cache_first_is(c, dh, n, f);
    } else {
        let w = choose|w: int| 0 <= w < c.len() && entry_for(#[trigger] c[w], dh, n);
        let l = c.len() - 1;
        if w < l {
            assert(d[w] == c[w]);
            assert(cache_has(d, dh, n));
        }
        assert forall|j: int| 0 <= j < l implies !entry_for(#[trigger] c[j], dh, n) by {
            assert(d[j] == c[j]);
            if entry_for(c[j], dh, n) {
                assert(cache_has(d, dh, n));
            }
        }
        lemma_cache_first_is(c, dh, n, l);
    }
}

proof fn lemma_skip_run(c: Seq<(Seq<u8>, u32, Seq<u8>)>, dh: Seq<u8>, ck: Seq<u8>, n0: u32, top: u32, until: u32)
    requires
        n0 <= top <= until,
        forall|x: u32| x >= top ==> !#[trigger] cache_has(c, dh, x),
        c.len() + (until - top) <= MAX_SKIPPED_CACHE,
    ensures
        skip_chain(c, dh, chain_key_at(ck, (top - n0) as nat), top, until) == (
            c + skipped_run(dh, ck, n0, top, until),
            chain_key_at(ck, (until - n0) as nat),
            until,
            true,
        ),
    decreases until - top,
{
    if top < until {
        let e = (dh, top, message_key_at(ck, (top - n0) as nat));
        assert(!cache_has(c, dh, top));
        assert(cache_insert(c, dh, top, spec_kdf_ck(chain_key_at(ck, (top - n0) as nat)).1) == c.push(e));
        assert(chain_key_at(ck, (top + 1 - n0) as nat) == spec_kdf_ck(chain_key_at(ck, (top - n0) as nat)).0);
        let c1 = c.push(e);
        assert forall|x: u32| x >= top + 1 implies !#[trigger] cache_has(c1, dh, x) by {
            if cache_has(c1, dh, x) {
                let i = choose|i: int| 0 <= i < c1.len() && entry_for(#[trigger] c1[i], dh, x);
                if i < c.len() {
                    assert(c1[i] == c[i]);
                    assert(cache_has(c, dh, x));
                }
            }
        }
        lemma_skip_run(c1, dh, ck, n0, (top + 1) as u32, until);
        assert(c1 + skipped_run(dh, ck, n0, (top + 1) as u32, until) =~= c + skipped_run(dh, ck, n0, top, until));
    } else {
        assert(c + skipped_run(dh, ck, n0, top, until) =~= c);
    }
}

proof fn lemma_run_lookup(
    c: Seq<(Seq<u8>, u32, Seq<u8>)>,
    dh: Seq<u8>,
    ck: Seq<u8>,
    n0: u32,
    top: u32,
    until: u32,
    x: u32,
)
    requires
        n0 <= top <= until,
        forall|y: u32| y >= top ==> !#[trigger] cache_has(c, dh, y),
    ensures
        ({
            let c2 = c + skipped_run(dh, ck, n0, top, until);
            &&& top <= x < until ==> cache_has(c2, dh, x) && c2[cache_first(c2, dh, x)].2 == message_key_at(
                ck,
                (x - n0) as nat,
            )
            &&& x >= until ==> !cache_has(c2, dh, x)
            &&& x < top ==> cache_has(c2, dh, x) == cache_has(c, dh, x)
            &&& x < top && cache_has(c, dh, x) ==> c2[cache_first(c2, dh, x)] == c[cache_first(c, dh, x)]
        }),
{
    let run = skipped_run(dh, ck, n0, top, until);
    let c2 = c + run;
    if top <= x < until {
        let i = c.len() + (x - top);
        assert(c2[i] == run[x - top]);
        assert forall|j: int| 0 <= j < i implies !entry_for(#[trigger] c2[j], dh, x) by {
            if j < c.len() {
                assert(c2[j] == c[j]);
                if entry_for(c[j], dh, x) {
                    assert(cache_has(c, dh, x));
                }
            } else {
                assert(c2[j] == run[j - c.len()]);
            }
        }
        lemma_cache_first_is(c2, dh, x, i);
    }
    if cache_has(c2, dh, x) && x >= until {
        let i = choose|i: int| 0 <= i < c2.len() && entry_for(#[trigger] c2[i], dh, x);
        if i < c.len() {
            assert(c2[i] == c[i]);
            assert(cache_has(c, dh, x));
        } else {
            assert(c2[i] == run[i - c.len()]);
        }
    }
    if x < top {
        if cache_has(c2, dh, x) {
            let i = choose|i: int| 0 <= i < c2.len() && entry_for(#[trigger] c2[i], dh, x);
            if i < c.len() {
                assert(c2[i] == c[i]);
            } else {
                assert(c2[i] == run[i - c.len()]);
            }
        }
        if cache_has(c, dh, x) {
            let i = choose|i: int| 0 <= i < c.len() && entry_for(#[trigger] c[i], dh, x);
            assert(c2[i] == c[i]);
            lemma_cache_first_exists(c, dh, x);
            let f = cache_first(c, dh, x);
            assert forall|j: int| 0 <= j < f implies !entry_for(#[trigger] c2[j], dh, x) by {
                assert(c2[j] == c[j]);
            }
            assert(c2[f] == c[f]);
            lemma_cache_first_is(c2, dh, x, f);
        }
    }
}

proof fn lemma_cache_remove(c: Seq<(Seq<u8>, u32, Seq<u8>)>, dh: Seq<u8>, n0: u32, x: u32)
    requires
        cache_has(c, dh, x),
        unique_from(c, dh, n0),
        x >= n0,
    ensures
        ({
            let i = cache_first(c, dh, x);
            let c2 = c.remove(i);
            &&& 0 <= i < c.len()
            &&& !cache_has(c2, dh, x)
            &&& forall|y: u32| y != x ==> (#[trigger] cache_has(c2, dh, y) == cache_has(c, dh, y))
            &&& forall|y: u32|
                y != x && cache_has(c, dh, y) ==> #[trigger] c2[cache_first(c2, dh, y)] == c[cache_first(c, dh, y)]
            &&& unique_from(c2, dh, n0)
            &&& c2.len() == c.len() - 1
        }),
{
    lemma_cache_first_exists(c, dh, x);
    let i = cache_first(c, dh, x);
    let c2 = c.remove(i);
    if cache_has(c2, dh, x) {
        let j = choose|j: int| 0 <= j < c2.len() && entry_for(#[trigger] c2[j], dh, x);
        if j < i {
            assert(c2[j] == c[j]);
        } else {
            assert(c2[j] == c[j + 1]);
            assert(c[i].0 == dh && c[j + 1].0 == dh && c[i].1 >= n0);
            assert(c[i].1 != c[j + 1].1);
        }
    }
    assert forall|y: u32| y != x implies (#[trigger] cache_has(c2, dh, y) == cache_has(c, dh, y)) by {
        if cache_has(c2, dh, y) {
            let j = choose|j: int| 0 <= j < c2.len() && entry_for(#[trigger] c2[j], dh, y);
            if j < i {
                assert(c2[j] == c[j]);
            } else {
                assert(c2[j] == c[j + 1]);
            }
        }
        if cache_has(c, dh, y) {
            let j = choose|j: int| 0 <= j < c.len() && entry_for(#[trigger] c[j], dh, y);
            assert(j != i);
            if j < i {
                assert(c2[j] == c[j]);
            } else {
                assert(c2[j - 1] == c[j]);
            }
        }
    }
    assert forall|y: u32| y != x && cache_has(c, dh, y) implies #[trigger] c2[cache_first(c2, dh, y)] == c[cache_first(
        c,
        dh,
        y,
    )] by {
        lemma_cache_first_exists(c, dh, y);
        let f = cache_first(c, dh, y);
        assert(f != i);
        if f < i {
            assert forall|j: int| 0 <= j < f implies !entry_for(#[trigger] c2[j], dh, y) by {
                assert(c2[j] == c[j]);
            }
            assert(c2[f] == c[f]);
            lemma_cache_first_is(c2, dh, y, f);
        } else {
            assert forall|j: int| 0 <= j < f - 1 implies !entry_for(#[trigger] c2[j], dh, y) by {
                if j < i {
                    assert(c2[j] == c[j]);
                } else {
                    assert(c2[j] == c[j + 1]);
                }
            }
            assert(c2[f - 1] == c[f]);
            lemma_cache_first_is(c2, dh, y, f - 1);
        }
    }
    assert forall|a: int, b: int|
        0 <= a < b < c2.len() && (#[trigger] c2[a]).0 == dh && (#[trigger] c2[b]).0 == dh && c2[a].1 >= n0 implies c2[a].1
        != c2[b].1 by {
        let a2 = if a < i { a } else { a + 1 };
        let b2 = if b < i { b } else { b + 1 };
        assert(c2[a] == c[a2] && c2[b] == c[b2]);
        assert(c[a2].0 == dh && c[b2].0 == dh);
    }
}

proof fn lemma_run_unique(c: Seq<(Seq<u8>, u32, Seq<u8>)>, dh: Seq<u8>, ck: Seq<u8>, n0: u32, top: u32, until: u32)
    requires
        n0 <= top <= until,
        forall|y: u32| y >= top ==> !#[trigger] cache_has(c, dh, y),
        unique_from(c, dh, n0),
    ensures
        unique_from(c + skipped_run(dh, ck, n0, top, until), dh, n0),
{
    let run = skipped_run(dh, ck, n0, top, until);
    let c2 = c + run;
    assert forall|a: int, b: int|
        0 <= a < b < c2.len() && (#[trigger] c2[a]).0 == dh && (#[trigger] c2[b]).0 == dh && c2[a].1 >= n0 implies c2[a].1
        != c2[b].1 by {
        if b < c.len() {
            assert(c2[a] == c[a] && c2[b] == c[b]);
        } else if a < c.len() {
            assert(c2[a] == c[a]);
            assert(c2[b] == run[b - c.len()]);
            if c[a].1 == c2[b].1 {
                assert(entry_for(c[a], dh, c2[b].1));
                assert(cache_has(c, dh, c2[b].1));
            }
        } else {
            assert(c2[a] == run[a - c.len()] && c2[b] == run[b - c.len()]);
        }
    }
}

/// Delivering the message at counter `h.n` of a chain (one not opened yet,
/// within reach) to a receiver partway through it opens that message with
/// its own key and leaves the receiver partway through the chain with that
/// counter opened too.
proof fn lemma_deliver_one(
    r: RatchetView,
    dh: Seq<u8>,
    ck: Seq<u8>,
    n0: u32,
    delivered: Set<u32>,
    base: nat,
    k: nat,
    h: RatchetHeader,
    fresh: Seq<u8>,
)
    requires
        chain_progress(r, dh, ck, n0, delivered, base),
        base + k <= MAX_SKIPPED_CACHE,
        k <= MAX_SKIP,
        n0 + k < u32::MAX,
        r.n_recv <= n0 + k,
        h.dh_pub@ == dh,
        n0 <= h.n < n0 + k,
        !delivered.contains(h.n),
    ensures
        decrypt_step(r, h, fresh).1 == Some(message_key_at(ck, (h.n - n0) as nat)),
        chain_progress(decrypt_step(r, h, fresh).0, dh, ck, n0, delivered.insert(h.n), base),
        decrypt_step(r, h, fresh).0.n_recv <= n0 + k,
{
    let x = h.n;
    let c = r.skipped;
    let top = r.n_recv;
    let d2 = delivered.insert(x);
    if x < top {
        assert(cache_has(c, dh, x));
        lemma_cache_remove(c, dh, n0, x);
        let i = cache_first(c, dh, x);
        let r2 = RatchetView { skipped: c.remove(i), ..r };
        assert(decrypt_step(r, h, fresh) == (r2, Some(c[i].2)));
        assert(c[cache_first(c, dh, x)].2 == message_key_at(ck, (x - n0) as nat));
        assert forall|y: u32| n0 <= y < r2.n_recv implies (d2.contains(y) == !#[trigger] cache_has(r2.skipped, dh, y)) by {
            if y != x {
                assert(cache_has(r2.skipped, dh, y) == cache_has(c, dh, y));
            }
        }
        assert forall|y: u32|
            n0 <= y < r2.n_recv && !d2.contains(y) implies (#[trigger] r2.skipped[cache_first(r2.skipped, dh, y)]).2
            == message_key_at(ck, (y - n0) as nat) by {
            assert(cache_has(c, dh, y));
            assert(r2.skipped[cache_first(r2.skipped, dh, y)] == c[cache_first(c, dh, y)]);
        }
        assert forall|y: u32| y >= r2.n_recv implies !#[trigger] cache_has(r2.skipped, dh, y) by {
            assert(cache_has(r2.skipped, dh, y) == cache_has(c, dh, y));
        }
    } else {
        assert(!cache_has(c, dh, x));
        let ck_top = chain_key_at(ck, (top - n0) as nat);
        assert(r.chain_recv == Some(ck_top));
        lemma_skip_run(c, dh, ck, n0, top, x);
        let c2 = c + skipped_run(dh, ck, n0, top, x);
        let s3 = RatchetView { skipped: c2, n_recv: x, chain_recv: Some(chain_key_at(ck, (x - n0) as nat)), ..r };
        assert(spec_skip(r, x) == (s3, true));
        let ckx = chain_key_at(ck, (x - n0) as nat);
        let r2 = RatchetView { chain_recv: Some(spec_kdf_ck(ckx).0), n_recv: (x + 1) as u32, ..s3 };
        assert(decrypt_step(r, h, fresh) == (r2, Some(spec_kdf_ck(ckx).1)));
        assert(chain_key_at(ck, (x + 1 - n0) as nat) == spec_kdf_ck(ckx).0);
        lemma_run_unique(c, dh, ck, n0, top, x);
        assert forall|y: u32| y >= r2.n_recv implies !#[trigger] cache_has(r2.skipped, dh, y) by {
            lemma_run_lookup(c, dh, ck, n0, top, x, y);
        }
        assert forall|y: u32| n0 <= y < r2.n_recv implies (d2.contains(y) == !#[trigger] cache_has(r2.skipped, dh, y)) by {
            lemma_run_lookup(c, dh, ck, n0, top, x, y);
            if y < top {
                assert(delivered.contains(y) == !cache_has(c, dh, y));
            } else if y < x {
                assert(!delivered.contains(y));
            }
        }
        assert forall|y: u32|
            n0 <= y < r2.n_recv && !d2.contains(y) implies (#[trigger] r2.skipped[cache_first(r2.skipped, dh, y)]).2
            == message_key_at(ck, (y - n0) as nat) by {
            lemma_run_lookup(c, dh, ck, n0, top, x, y);
            if y < top {
                assert(!delivered.contains(y));
                assert(cache_has(c, dh, y));
                assert(c[cache_first(c, dh, y)].2 == message_key_at(ck, (y - n0) as nat));
            }
        }
    }
}

/// The counters of the first `i` headers.
pub open spec fn counters_upto(headers: Seq<RatchetHeader>, i: int) -> Set<u32> {
    Set::new(|x: u32| exists|j: int| 0 <= j < i && #[trigger] headers[j].n == x)
}

proof fn lemma_run_progress(
    r0: RatchetView,
    dh: Seq<u8>,
    ck: Seq<u8>,
    n0: u32,
    k: nat,
    headers: Seq<RatchetHeader>,
    fresh: Seq<Seq<u8>>,
    states: Seq<RatchetView>,
    i: int,
)
    requires
        chain_progress(r0, dh, ck, n0, Set::empty(), r0.skipped.len()),
        r0.n_recv == n0,
        r0.skipped.len() + k <= MAX_SKIPPED_CACHE,
        k <= MAX_SKIP,
        n0 + k < u32::MAX,
        headers.len() == fresh.len(),
        states.len() == headers.len() + 1,
        states[0] == r0,
        forall|j: int| 0 <= j < headers.len() ==> (#[trigger] headers[j]).dh_pub@ == dh && n0 <= headers[j].n < n0 + k,
        forall|a: int, b: int| 0 <= a < b < headers.len() ==> (#[trigger] headers[a]).n != (#[trigger] headers[b]).n,
        forall|j: int|
            0 <= j < headers.len() ==> #[trigger] states[j + 1] == decrypt_step(states[j], headers[j], fresh[j]).0,
        0 <= i <= headers.len(),
    ensures
        chain_progress(states[i], dh, ck, n0, counters_upto(headers, i), r0.skipped.len()),
        states[i].n_recv <= n0 + k,
    decreases i,
{
    if i == 0 {
        assert(counters_upto(headers, 0) =~= Set::<u32>::empty());
    } else {
        let j = i - 1;
        lemma_run_progress(r0, dh, ck, n0, k, headers, fresh, states, j);
        let h = headers[j];
        assert(h.dh_pub@ == dh && n0 <= h.n < n0 + k);
        if counters_upto(headers, j).contains(h.n) {
            let w = choose|w: int| 0 <= w < j && #[trigger] headers[w].n == h.n;
            assert(headers[w].n != headers[j].n);
        }
        lemma_deliver_one(states[j], dh, ck, n0, counters_upto(headers, j), r0.skipped.len(), k, h, fresh[j]);
        assert(states[j + 1] == decrypt_step(states[j], headers[j], fresh[j]).0);
        assert(counters_upto(headers, j).insert(h.n) =~= counters_upto(headers, i)) by {
            assert forall|x: u32| counters_upto(headers, i).contains(x) implies counters_upto(headers, j).insert(
                h.n,
            ).contains(x) by {
                let w = choose|w: int| 0 <= w < i && #[trigger] headers[w].n == x;
                if w < j {
                    assert(counters_upto(headers, j).contains(x));
                }
            }
            assert forall|x: u32| counters_upto(headers, j).insert(h.n).contains(x) implies counters_upto(
                headers,
                i,
            ).contains(x) by {
                if x == h.n {
                    assert(headers[j].n == x);
                } else {
                    let w = choose|w: int| 0 <= w < j && #[trigger] headers[w].n == x;
                    assert(headers[w].n == x);
                }
            }
        }
    }
}

/// Delivery in any order: a receiver in step with a sender's chain (at
/// counter `n0`, with room in its cache and within the skip limit) that is
/// handed any of the next `k` messages of that chain, each at most once and
/// in any order, dropping any, opens each with exactly the key it was sealed
/// under (see [`lemma_sender_keys`]: the message at counter `n0 + j` is
/// sealed under `message_key_at(ck, j)`).
pub proof fn lemma_any_order_delivery(
    r0: RatchetView,
    dh: Seq<u8>,
    ck: Seq<u8>,
    n0: u32,
    k: nat,
    headers: Seq<RatchetHeader>,
    fresh: Seq<Seq<u8>>,
    states: Seq<RatchetView>,
)
    requires
        r0.dh_remote == Some(dh),
        r0.chain_recv == Some(ck),
        r0.n_recv == n0,
        forall|x: u32| x >= n0 ==> !#[trigger] cache_has(r0.skipped, dh, x),
        r0.skipped.len() + k <= MAX_SKIPPED_CACHE,
        k <= MAX_SKIP,
        n0 + k < u32::MAX,
        headers.len() == fresh.len(),
        states.len() == headers.len() + 1,
        states[0] == r0,
        forall|j: int| 0 <= j < headers.len() ==> (#[trigger] headers[j]).dh_pub@ == dh && n0 <= headers[j].n < n0 + k,
        forall|a: int, b: int| 0 <= a < b < headers.len() ==> (#[trigger] headers[a]).n != (#[trigger] headers[b]).n,
        forall|j: int|
            0 <= j < headers.len() ==> #[trigger] states[j + 1] == decrypt_step(states[j], headers[j], fresh[j]).0,
    ensures
        forall|j: int|
            0 <= j < headers.len() ==> #[trigger] decrypt_key(states[j], headers[j]) == Some(
                message_key_at(ck, (headers[j].n - n0) as nat),
            ),
{
    assert(chain_key_at(ck, 0) == ck);
    assert(unique_from(r0.skipped, dh, n0)) by {
        assert forall|a: int, b: int|
            0 <= a < b < r0.skipped.len() && (#[trigger] r0.skipped[a]).0 == dh && (#[trigger] r0.skipped[b]).0 == dh
                && r0.skipped[a].1 >= n0 implies r0.skipped[a].1 != r0.skipped[b].1 by {
            assert(entry_for(r0.skipped[a], dh, r0.skipped[a].1));
            assert(cache_has(r0.skipped, dh, r0.skipped[a].1));
        }
    }
    assert(chain_progress(r0, dh, ck, n0, Set::empty(), r0.skipped.len()));
    assert forall|j: int| 0 <= j < headers.len() implies #[trigger] decrypt_key(states[j], headers[j]) == Some(
        message_key_at(ck, (headers[j].n - n0) as nat),
    ) by {
        lemma_run_progress(r0, dh, ck, n0, k, headers, fresh, states, j);
        if counters_upto(headers, j).contains(headers[j].n) {
            let w = choose|w: int| 0 <= w < j && #[trigger] headers[w].n == headers[j].n;
            assert(headers[w].n != headers[j].n);
        }
        lemma_deliver_one(
            states[j],
            dh,
            ck,
            n0,
            counters_upto(headers, j),
            r0.skipped.len(),
            k,
            headers[j],
            states[j].dh_self,
        );
    }
}

/// Delivery in any order, from the sender's side: when a receiver is in step
/// with a sender, any of the sender's next `k` messages handed to it, each
/// at most once, in any order, open with the key the sender sealed each
/// under. (A [`crate::session::Session`] moves its ratchet exactly by
/// [`decrypt_step`] on every decrypt, whatever the outcome, so this holds of
/// a run of session decrypts too.)
pub proof fn lemma_in_step_any_order(
    sender: RatchetView,
    k: nat,
    headers: Seq<RatchetHeader>,
    fresh: Seq<Seq<u8>>,
    states: Seq<RatchetView>,
)
    requires
        in_step(sender, states[0]),
        states[0].skipped.len() + k <= MAX_SKIPPED_CACHE,
        k <= MAX_SKIP,
        sender.n_send + k < u32::MAX,
        headers.len() == fresh.len(),
        states.len() == headers.len() + 1,
        forall|j: int|
            0 <= j < headers.len() ==> sends_header(encrypt_steps(sender, (#[trigger] headers[j].n - sender.n_send) as nat), headers[j])
                && sender.n_send <= headers[j].n < sender.n_send + k,
        forall|a: int, b: int| 0 <= a < b < headers.len() ==> (#[trigger] headers[a]).n != (#[trigger] headers[b]).n,
        forall|j: int|
            0 <= j < headers.len() ==> #[trigger] states[j + 1] == decrypt_step(states[j], headers[j], fresh[j]).0,
    ensures
        forall|j: int|
            0 <= j < headers.len() ==> #[trigger] decrypt_key(states[j], headers[j]) == Some(
                send_key(encrypt_steps(sender, (headers[j].n - sender.n_send) as nat)),
            ),
{
    let dh = spec_x25519_public(sender.dh_self);
    let ck = sender.chain_send->0;
    assert forall|j: int| 0 <= j < headers.len() implies (#[trigger] headers[j]).dh_pub@ == dh && sender.n_send
        <= headers[j].n < sender.n_send + k by {
        let t = (headers[j].n - sender.n_send) as nat;
        lemma_sender_keys(sender, t);
        assert(sends_header(encrypt_steps(sender, t), headers[j]));
    }
    lemma_any_order_delivery(states[0], dh, ck, sender.n_send, k, headers, fresh, states);
    assert forall|j: int| 0 <= j < headers.len() implies #[trigger] decrypt_key(states[j], headers[j]) == Some(
        send_key(encrypt_steps(sender, (headers[j].n - sender.n_send) as nat)),
    ) by {
        lemma_sender_keys(sender, (headers[j].n - sender.n_send) as nat);
    }
}

// ------------------------------------------------- late messages across a DH step

/// A DH ratchet step on decryption restarts the sending chain: the new state
/// sends from counter 0 under the fresh ratchet key, and the previous-chain
/// length it announces in its headers is the number of messages it sent on
/// the chain it leaves.
pub proof fn lemma_ratchet_step_counters(s: RatchetView, h: RatchetHeader, fresh: Seq<u8>)
    requires
        ratchets_on(s, h),
    ensures
        decrypt_step(s, h, fresh).0.pn == s.n_send,
        decrypt_step(s, h, fresh).0.n_send == 0,
        decrypt_step(s, h, fresh).0.dh_self == fresh,
        decrypt_step(s, h, fresh).0.dh_remote == Some(h.dh_pub@),
        forall|next: RatchetHeader|
            #[trigger] sends_header(decrypt_step(s, h, fresh).0, next) ==> next.pn == s.n_send && next.n == 0
                && next.dh_pub@ == spec_x25519_public(fresh),
{
    let s1 = spec_skip(s, h.pn).0;
    assert(s1.n_send == s.n_send);
    let s2 = spec_ratchet_step(s1, h.dh_pub@, fresh);
    let s3 = spec_skip(s2, h.n).0;
    assert(s3.pn == s.n_send && s3.n_send == 0 && s3.dh_self == fresh && s3.dh_remote == Some(h.dh_pub@));
}

proof fn lemma_insert_other(c: Seq<(Seq<u8>, u32, Seq<u8>)>, remote: Seq<u8>, n: u32, mk: Seq<u8>, dh: Seq<u8>, x: u32)
    requires
        remote != dh,
    ensures
        cache_has(cache_insert(c, remote, n, mk), dh, x) == cache_has(c, dh, x),
        cache_has(c, dh, x) ==> cache_insert(c, remote, n, mk)[cache_first(cache_insert(c, remote, n, mk), dh, x)]
            == c[cache_first(c, dh, x)],
{
    let ci = cache_insert(c, remote, n, mk);
    if cache_has(c, remote, n) {
        lemma_cache_first_exists(c, remote, n);
    }
    assert(ci.len() >= c.len());
    assert forall|j: int| 0 <= j < ci.len() implies #[trigger] entry_for(ci[j], dh, x) == (j < c.len() && entry_for(
        c[j],
        dh,
        x,
    )) by {
        if j < c.len() && ci[j] != c[j] {
            assert(c[j].0 == remote);
        }
    }
    if cache_has(ci, dh, x) {
        let i = choose|i: int| 0 <= i < ci.len() && entry_for(#[trigger] ci[i], dh, x);
        assert(entry_for(c[i], dh, x));
    }
    if cache_has(c, dh, x) {
        let i = choose|i: int| 0 <= i < c.len() && entry_for(#[trigger] c[i], dh, x);
        assert(entry_for(ci[i], dh, x));
        lemma_cache_first_exists(c, dh, x);
        let f = cache_first(c, dh, x);
        assert forall|j: int| 0 <= j < f implies !entry_for(#[trigger] ci[j], dh, x) by {
            assert(!entry_for(c[j], dh, x));
        }
        assert(entry_for(ci[f], dh, x));
        lemma_cache_first_is(ci, dh, x, f);
        if ci[f] != c[f] {
            assert(c[f].0 == remote);
        }
    }
}

proof fn lemma_skip_chain_other(
    c: Seq<(Seq<u8>, u32, Seq<u8>)>,
    remote: Seq<u8>,
    ck: Seq<u8>,
    n: u32,
    until: u32,
    dh: Seq<u8>,
    x: u32,
)
    requires
        remote != dh,
    ensures
        cache_has(skip_chain(c, remote, ck, n, until).0, dh, x) == cache_has(c, dh, x),
        cache_has(c, dh, x) ==> skip_chain(c, remote, ck, n, until).0[cache_first(
            skip_chain(c, remote, ck, n, until).0,
            dh,
            x,
        )] == c[cache_first(c, dh, x)],
    decreases until - n,
{
    if n < until && c.len() < MAX_SKIPPED_CACHE {
        let c1 = cache_insert(c, remote, n, spec_kdf_ck(ck).1);
        lemma_insert_other(c, remote, n, spec_kdf_ck(ck).1, dh, x);
        lemma_skip_chain_other(c1, remote, spec_kdf_ck(ck).0, (n + 1) as u32, until, dh, x);
    }
}

/// Both sides of a DH step agree: when a sender ratchets on the receiver's
/// reply (whose ratchet key is the receiver's), and the two share the root
/// key the sender reaches after its first DH output, the receiver's own DH
/// step on the sender's first header of the new chain derives exactly the
/// sending chain the sender derived (given that the two DH outputs agree).
/// The receiver opens that first message with the key it was sealed under
/// and is then in step with the sender's new chain.
pub proof fn lemma_ratchet_agreement(
    sender: RatchetView,
    reply: RatchetHeader,
    sender_fresh: Seq<u8>,
    first: RatchetHeader,
    r: RatchetView,
    fresh: Seq<u8>,
)
    requires
        ratchets_on(sender, reply),
        reply.dh_pub@ == spec_x25519_public(r.dh_self),
        r.root_key == spec_kdf_rk(sender.root_key, spec_x25519(sender.dh_self, reply.dh_pub@)).0,
        spec_x25519(r.dh_self, spec_x25519_public(sender_fresh)) == spec_x25519(sender_fresh, reply.dh_pub@),
        sends_header(decrypt_step(sender, reply, sender_fresh).0, first),
        ratchets_on(r, first),
        forall|m: u32| !#[trigger] cache_has(r.skipped, first.dh_pub@, m),
    ensures
        decrypt_key(r, first) == Some(send_key(decrypt_step(sender, reply, sender_fresh).0)),
        in_step(encrypt_step(decrypt_step(sender, reply, sender_fresh).0), decrypt_step(r, first, fresh).0),
{
    let s = decrypt_step(sender, reply, sender_fresh).0;
    lemma_ratchet_step_counters(sender, reply, sender_fresh);
    let rk1 = spec_kdf_rk(sender.root_key, spec_x25519(sender.dh_self, reply.dh_pub@)).0;
    let cs = spec_kdf_rk(rk1, spec_x25519(sender_fresh, reply.dh_pub@)).1;
    let u1 = spec_skip(sender, reply.pn).0;
    assert(u1.root_key == sender.root_key && u1.dh_self == sender.dh_self);
    assert(s.chain_send == Some(cs));
    let dh = first.dh_pub@;
    assert(first.n == 0 && dh == spec_x25519_public(sender_fresh));
    let t1 = spec_skip(r, first.pn).0;
    assert(t1.root_key == r.root_key && t1.dh_self == r.dh_self);
    let t2 = spec_ratchet_step(t1, dh, fresh);
    assert(t2.chain_recv == Some(cs));
    assert(skip_chain(t2.skipped, dh, cs, 0, 0) == (t2.skipped, cs, 0u32, true));
    assert(spec_skip(t2, first.n).0 =~= t2);
    lemma_decrypt_key(r, first, fresh);
    let after = decrypt_step(r, first, fresh).0;
    assert(after.skipped == t1.skipped);
    assert forall|m: u32| m >= encrypt_step(s).n_send implies !cache_has(
        after.skipped,
        spec_x25519_public(encrypt_step(s).dh_self),
        m,
    ) by {
        assert(!cache_has(r.skipped, dh, m));
        if r.chain_recv is Some && r.dh_remote is Some {
            lemma_skip_chain_other(r.skipped, r.dh_remote->0, r.chain_recv->0, r.n_recv, first.pn, dh, m);
        }
    }
}

/// A late message from before the peer's DH step: a receiver partway through
/// a sender's chain (ratchet key `dh`, chain key `ck` at counter `n0`), with
/// room to skip to the end of it, gets the sender's first message after the
/// sender ratcheted on a reply. That message announces how many messages the
/// old chain had, so the receiver caches the keys of those it has not opened
/// before stepping; afterwards each of them still opens with the key it was
/// sealed under.
pub proof fn lemma_late_message_after_ratchet(
    sender: RatchetView,
    reply: RatchetHeader,
    sender_fresh: Seq<u8>,
    next: RatchetHeader,
    r: RatchetView,
    ck: Seq<u8>,
    n0: u32,
    delivered: Set<u32>,
    base: nat,
    late: RatchetHeader,
    fresh: Seq<u8>,
)
    requires
        ratchets_on(sender, reply),
        sends_header(decrypt_step(sender, reply, sender_fresh).0, next),
        spec_x25519_public(sender_fresh) != spec_x25519_public(sender.dh_self),
        chain_progress(r, spec_x25519_public(sender.dh_self), ck, n0, delivered, base),
        !cache_has(r.skipped, next.dh_pub@, next.n),
        r.n_recv <= sender.n_send,
        sender.n_send - r.n_recv <= MAX_SKIP,
        base + (sender.n_send - n0) <= MAX_SKIPPED_CACHE,
        late.dh_pub@ == spec_x25519_public(sender.dh_self),
        n0 <= late.n < sender.n_send,
        !delivered.contains(late.n),
    ensures
        decrypt_key(decrypt_step(r, next, fresh).0, late) == Some(message_key_at(ck, (late.n - n0) as nat)),
{
    let dh = spec_x25519_public(sender.dh_self);
    lemma_ratchet_step_counters(sender, reply, sender_fresh);
    assert(next.pn == sender.n_send && next.dh_pub@ == spec_x25519_public(sender_fresh));
    let c = r.skipped;
    let top = r.n_recv;
    let until = next.pn;
    let x = late.n;
    lemma_skip_run(c, dh, ck, n0, top, until);
    let c2 = c + skipped_run(dh, ck, n0, top, until);
    let s1 = spec_skip(r, until).0;
    assert(spec_skip(r, until).1);
    assert(s1.skipped == c2);
    lemma_run_lookup(c, dh, ck, n0, top, until, x);
    assert(cache_has(c2, dh, x) && c2[cache_first(c2, dh, x)].2 == message_key_at(ck, (x - n0) as nat)) by {
        if x < top {
            assert(cache_has(c, dh, x));
            assert(c[cache_first(c, dh, x)].2 == message_key_at(ck, (x - n0) as nat));
        }
    }
    let s2 = spec_ratchet_step(s1, next.dh_pub@, fresh);
    assert(s2.skipped == c2);
    let s3 = spec_skip(s2, next.n).0;
    lemma_skip_chain_other(c2, next.dh_pub@, s2.chain_recv->0, 0, next.n, dh, x);
    let after = decrypt_step(r, next, fresh).0;
    assert(after.skipped == s3.skipped);
    assert(cache_has(after.skipped, dh, x));
    assert(after.skipped[cache_first(after.skipped, dh, x)] == c2[cache_first(c2, dh, x)]);
}

// ------------------------------------------------------- cache plumbing

fn cache_find(cache: &Vec<SkippedKey>, dh: &[u8; 32], n: u32) -> (r: Option<usize>)
    ensures
        match r {
            Some(i) => cache_has(cache_view(cache@), dh@, n) && i == cache_first(cache_view(cache@), dh@, n)
                && i < cache@.len(),
            None => !cache_has(cache_view(cache@), dh@, n),
        },
{
    let ghost c = cache_view(cache@);
    let mut i: usize = 0;
    while i < cache.len()
        invariant
            i <= cache@.len(),
            c == cache_view(cache@),
            forall|j: int| 0 <= j < i ==> !entry_for(#[trigger] c[j], dh@, n),
        decreases cache@.len() - i,
    {
        let e = &cache[i];
        if e.1 == n && crate::bytes::bytes_eq(e.0.as_slice(), dh.as_slice()) {
            proof {
                assert(entry_for(c[i as int], dh@, n));
                let k = cache_first(c, dh@, n);
                assert(0 <= k < c.len() && entry_for(c[k], dh@, n));
                if k < i {
                    assert(!entry_for(c[k], dh@, n));
                }
                if k > i {
                    assert(!entry_for(c[i as int], dh@, n));
                }
            }
            return Some(i);
        }
        assert(!entry_for(c[i as int], dh@, n));
        i = i + 1;
    }
    None
}

fn cache_put(cache: &mut Vec<SkippedKey>, dh: &[u8; 32], n: u32, mk: &[u8; 32])
    ensures
        cache_view(final(cache)@) == cache_insert(cache_view(old(cache)@), dh@, n, mk@),
{
    match cache_find(cache, dh, n) {
        Some(i) => {
            cache.set(i, (*dh, n, *mk));
            assert(cache_view(cache@) =~= cache_insert(cache_view(old(cache)@), dh@, n, mk@));
        },
        None => {
            cache.push((*dh, n, *mk));
            assert(cache_view(cache@) =~= cache_insert(cache_view(old(cache)@), dh@, n, mk@));
        },
    }
}

// ------------------------------------------------------------ the ratchet

/// `prefix ‖ encode(header)`.
fn associated_data(prefix: &[u8], header: &RatchetHeader) -> (ad: Vec<u8>)
    ensures
        ad@ == header_ad(prefix@, *header),
{
    let header_bytes = header.encode();
    crate::bytes::concat(prefix, header_bytes.as_slice())
}

impl DoubleRatchet {
    /// Initialize the ratchet for the session **initiator** (Alice).
    ///
    /// `root` is the shared secret from the handshake; `remote_dh_pub` is the
    /// responder's signed prekey, which doubles as their first ratchet key.
    /// Our first ratchet secret is fresh randomness.
    pub fn init_initiator(root: [u8; 32], remote_dh_pub: [u8; 32]) -> (r: Self)
        ensures
            r@ == initiator_start(root@, remote_dh_pub@, r@.dh_self),
            r@.dh_self.len() == 32,
    {
        let dh_self = x25519_random_secret();
        let shared = x25519_dh(&dh_self, &remote_dh_pub);
        let (root_key, chain_send) = kdf_rk(&root, &shared);
        let r = DoubleRatchet {
            root_key,
            dh_self,
            dh_remote: Some(remote_dh_pub),
            chain_send: Some(chain_send),
            chain_recv: None,
            n_send: 0,
            n_recv: 0,
            pn: 0,
            skipped: Vec::new(),
        };
        assert(r@ =~= initiator_start(root@, remote_dh_pub@, r@.dh_self));
        r
    }

    /// Initialize the ratchet for the session **responder** (Bob).
    ///
    /// `dh_self` is the responder's signed prekey secret (the same key the
    /// initiator used as `remote_dh_pub`).
    pub fn init_responder(root: [u8; 32], dh_self: [u8; 32]) -> (r: Self)
        ensures
            r@ == responder_start(root@, dh_self@),
    {
        let r = DoubleRatchet {
            root_key: root,
            dh_self,
            dh_remote: None,
            chain_send: None,
            chain_recv: None,
            n_send: 0,
            n_recv: 0,
            pn: 0,
            skipped: Vec::new(),
        };
        assert(r@ =~= responder_start(root@, dh_self@));
        r
    }

    /// Encrypt `plaintext`, binding `ad_prefix` (the session-level associated
    /// data) plus the ratchet header into the AEAD.
    ///
    /// [`Error::UnexpectedMessage`] when there is no sending chain yet (a
    /// responder before its first receive) or the chain has used every
    /// counter value; the state is then unchanged.
    pub fn encrypt(&mut self, plaintext: &[u8], ad_prefix: &[u8]) -> (r: Result<(RatchetHeader, Vec<u8>)>)
        requires
            plaintext@.len() < aead_max_len(),
        ensures
            match r {
                Ok((h, ct)) => {
                    &&& old(self)@.chain_send is Some
                    &&& old(self)@.n_send < u32::MAX
                    &&& h.dh_pub@ == spec_x25519_public(old(self)@.dh_self)
                    &&& h.pn == old(self)@.pn
                    &&& h.n == old(self)@.n_send
                    &&& ct@ == spec_aead_seal(send_key(old(self)@), plaintext@, header_ad(ad_prefix@, h))
                    &&& final(self)@ == encrypt_step(old(self)@)
                },
                Err(e) => {
                    &&& e == Error::UnexpectedMessage
                    &&& (old(self)@.chain_send is None || old(self)@.n_send == u32::MAX)
                    &&& final(self)@ == old(self)@
                },
            },
    {
        let ck = match self.chain_send {
            Some(ck) => ck,
            None => return Err(Error::UnexpectedMessage),
        };
        if self.n_send == u32::MAX {
            return Err(Error::UnexpectedMessage);
        }
        let (next_ck, mut mk) = kdf_ck(&ck);
        let header = RatchetHeader { dh_pub: x25519_public(&self.dh_self), pn: self.pn, n: self.n_send };
        self.chain_send = Some(next_ck);
        self.n_send = self.n_send + 1;
        let ad = associated_data(ad_prefix, &header);
        let ciphertext = aead_seal(&mk, plaintext, ad.as_slice());
        proof {
            assert(mk@ == send_key(old(self)@));
        }
        zeroize_key(&mut mk);
        assert(self@ =~= encrypt_step(old(self)@));
        Ok((header, ciphertext))
    }

    /// Decrypt a message given its ratchet `header` and the session
    /// `ad_prefix`.
    ///
    /// The state moves as [`decrypt_step`] says (the new ratchet secret, if a DH
    /// step happens, is fresh randomness and becomes `dh_self`). Every failure
    /// is [`Error::Decrypt`]. When a message key is found, the plaintext is
    /// exactly what AEAD-opening gives, so a ciphertext sealed under that key
    /// and associated data decrypts to its plaintext. When a DH step happens,
    /// the peer that owns the header's ratchet key computes the same DH output
    /// against our old ratchet key.
    pub fn decrypt(&mut self, header: &RatchetHeader, ciphertext: &[u8], ad_prefix: &[u8]) -> (r: Result<Vec<u8>>)
        ensures
            final(self)@ == decrypt_step(old(self)@, *header, final(self)@.dh_self).0,
            final(self)@.dh_self.len() == 32,
            ratchets_on(old(self)@, *header) ==> final(self)@.pn == old(self)@.n_send && final(self)@.n_send == 0,
            match decrypt_key(old(self)@, *header) {
                None => r matches Err(e) && e == Error::Decrypt,
                Some(mk) => {
                    &&& match r {
                        Ok(v) => spec_aead_open(mk, ciphertext@, header_ad(ad_prefix@, *header)) == Some(v@),
                        Err(e) => e == Error::Decrypt && spec_aead_open(
                            mk,
                            ciphertext@,
                            header_ad(ad_prefix@, *header),
                        ) is None,
                    }
                    &&& forall|p: Seq<u8>|
                        p.len() < aead_max_len() && #[trigger] spec_aead_seal(
                            mk,
                            p,
                            header_ad(ad_prefix@, *header),
                        ) == ciphertext@ ==> (r matches Ok(v) && v@ == p)
                },
            },
            ratchets_on(old(self)@, *header) ==> forall|e: Seq<u8>|
                e.len() == 32 && header.dh_pub@ == spec_x25519_public(e) ==> #[trigger] spec_x25519(
                    e,
                    spec_x25519_public(old(self)@.dh_self),
                ) == spec_x25519(old(self)@.dh_self, header.dh_pub@),
    {
        let ad = associated_data(ad_prefix, header);
        let ghost s0 = self@;

        // 1. A message from a chain we've already ratcheted past: use a cached key.
        if let Some(i) = cache_find(&self.skipped, &header.dh_pub, header.n) {
            let (_, _, mut mk) = self.skipped.remove(i);
            proof {
                assert(self@.skipped =~= s0.skipped.remove(i as int));
                assert(self@ =~= decrypt_step(s0, *header, self@.dh_self).0);
                lemma_decrypt_key(s0, *header, self@.dh_self);
            }
            let pt = aead_open(&mk, ciphertext, ad.as_slice());
            zeroize_key(&mut mk);
            return pt;
        }
        // 2. New remote ratchet key: perform a DH ratchet step.
        let ratchet = match self.dh_remote {
            Some(r) => {
                let same = crate::bytes::bytes_eq(r.as_slice(), header.dh_pub.as_slice());
                assert(same == (r@ == header.dh_pub@));
                !same
            },
            None => true,
        };
        assert(ratchet == (s0.dh_remote != Some(header.dh_pub@)));
        if ratchet {
            let skipped = self.skip_message_keys(header.pn);
            if skipped.is_err() {
                proof {
                    lemma_decrypt_key(s0, *header, self@.dh_self);
                }
                return Err(Error::Decrypt);
            }
            self.dh_ratchet(header.dh_pub);
        }
        // 3. Skip forward within the current receiving chain if needed.
        let skipped = self.skip_message_keys(header.n);
        if skipped.is_err() {
            proof {
                lemma_decrypt_key(s0, *header, self@.dh_self);
            }
            return Err(Error::Decrypt);
        }
        let ck = match self.chain_recv {
            Some(ck) => ck,
            None => {
                proof {
                    lemma_decrypt_key(s0, *header, self@.dh_self);
                }
                return Err(Error::Decrypt);
            },
        };
        if self.n_recv == u32::MAX {
            proof {
                lemma_decrypt_key(s0, *header, self@.dh_self);
            }
            return Err(Error::Decrypt);
        }
        let (next_ck, mut mk) = kdf_ck(&ck);
        self.chain_recv = Some(next_ck);
        self.n_recv = self.n_recv + 1;
        proof {
            assert(self@ =~= decrypt_step(s0, *header, self@.dh_self).0);
            lemma_decrypt_key(s0, *header, self@.dh_self);
        }
        let pt = aead_open(&mk, ciphertext, ad.as_slice());
        zeroize_key(&mut mk);
        pt
    }

    /// Advance the receiving chain, caching skipped message keys up to `until`.
    #[verifier::loop_isolation(false)]
    fn skip_message_keys(&mut self, until: u32) -> (r: Result<()>)
        ensures
            (final(self)@, r is Ok) == spec_skip(old(self)@, until),
            r is Err ==> r == Err::<(), Error>(Error::Decrypt),
    {
        let mut ck = match self.chain_recv {
            Some(ck) => ck,
            None => return Ok(()),
        };
        if until < self.n_recv {
            return Ok(());
        }
        if until - self.n_recv > MAX_SKIP {
            return Err(Error::Decrypt);
        }
        let remote = match self.dh_remote {
            Some(r) => r,
            None => return Err(Error::Decrypt),
        };
        let ghost s0 = self@;
        let ghost target = skip_chain(s0.skipped, remote@, ck@, s0.n_recv, until);
        assert(s0.chain_recv == Some(ck@));
        assert(s0.dh_remote == Some(remote@));
        assert(spec_skip(s0, until).0 == (RatchetView {
            skipped: target.0,
            n_recv: target.2,
            chain_recv: if target.3 { Some(target.1) } else { s0.chain_recv },
            ..s0
        }));
        while self.n_recv < until
            invariant
                self.n_recv <= until,
                skip_chain(self@.skipped, remote@, ck@, self.n_recv, until) == target,
                self@ == (RatchetView { skipped: self@.skipped, n_recv: self.n_recv, ..s0 }),
            decreases until - self.n_recv,
        {
            let (next_ck, mk) = kdf_ck(&ck);
            if self.skipped.len() >= MAX_SKIPPED_CACHE {
                assert(self@.skipped.len() >= MAX_SKIPPED_CACHE);
                assert(skip_chain(self@.skipped, remote@, ck@, self.n_recv, until) == (
                    self@.skipped,
                    ck@,
                    self.n_recv,
                    false,
                ));
                assert(!target.3);
                assert(self@ =~= spec_skip(s0, until).0);
                return Err(Error::Decrypt);
            }
            cache_put(&mut self.skipped, &remote, self.n_recv, &mk);
            zeroize_key(&mut ck);
            ck = next_ck;
            self.n_recv = self.n_recv + 1;
            assert(self@ =~= (RatchetView { skipped: self@.skipped, n_recv: self.n_recv, ..s0 }));
        }
        self.chain_recv = Some(ck);
        assert(self@ =~= spec_skip(s0, until).0);
        Ok(())
    }

    /// A ratchet with exactly the given state (used to restore a saved one).
    pub(crate) fn from_parts(
        root_key: [u8; 32],
        dh_self: [u8; 32],
        dh_remote: Option<[u8; 32]>,
        chain_send: Option<[u8; 32]>,
        chain_recv: Option<[u8; 32]>,
        counters: (u32, u32, u32),
        skipped: Vec<SkippedKey>,
    ) -> (r: Self)
        ensures
            r@ == (RatchetView {
                root_key: root_key@,
                dh_self: dh_self@,
                dh_remote: opt_bytes(dh_remote),
                chain_send: opt_bytes(chain_send),
                chain_recv: opt_bytes(chain_recv),
                n_send: counters.0,
                n_recv: counters.1,
                pn: counters.2,
                skipped: cache_view(skipped@),
            }),
    {
        DoubleRatchet {
            root_key,
            dh_self,
            dh_remote,
            chain_send,
            chain_recv,
            n_send: counters.0,
            n_recv: counters.1,
            pn: counters.2,
            skipped,
        }
    }

    /// The keys of the state: (root, own ratchet secret, remote ratchet key,
    /// sending chain, receiving chain).
    pub(crate) fn keys(&self) -> (k: ([u8; 32], [u8; 32], Option<[u8; 32]>, Option<[u8; 32]>, Option<[u8; 32]>))
        ensures
            k.0@ == self@.root_key,
            k.1@ == self@.dh_self,
            opt_bytes(k.2) == self@.dh_remote,
            opt_bytes(k.3) == self@.chain_send,
            opt_bytes(k.4) == self@.chain_recv,
    {
        (self.root_key, self.dh_self, self.dh_remote, self.chain_send, self.chain_recv)
    }

    /// The counters (sent, received, previous chain length).
    pub(crate) fn counters(&self) -> (c: (u32, u32, u32))
        ensures
            c == (self@.n_send, self@.n_recv, self@.pn),
    {
        (self.n_send, self.n_recv, self.pn)
    }

    /// The skipped-key cache.
    pub(crate) fn skipped(&self) -> (c: &Vec<SkippedKey>)
        ensures
            cache_view(c@) == self@.skipped,
    {
        &self.skipped
    }

    /// Perform a Diffie-Hellman ratchet step against a new remote public key.
    fn dh_ratchet(&mut self, remote_pub: [u8; 32])
        ensures
            final(self)@ == spec_ratchet_step(old(self)@, remote_pub@, final(self)@.dh_self),
            final(self)@.dh_self.len() == 32,
            final(self)@.pn == old(self)@.n_send,
            final(self)@.n_send == 0,
            final(self)@.n_recv == 0,
            final(self)@.dh_remote == Some(remote_pub@),
            forall|e: Seq<u8>|
                e.len() == 32 && remote_pub@ == spec_x25519_public(e) ==> #[trigger] spec_x25519(
                    e,
                    spec_x25519_public(old(self)@.dh_self),
                ) == spec_x25519(old(self)@.dh_self, remote_pub@),
    {
        self.pn = self.n_send;
        self.n_send = 0;
        self.n_recv = 0;
        self.dh_remote = Some(remote_pub);
        let shared = x25519_dh(&self.dh_self, &remote_pub);
        let (root_key, chain_recv) = kdf_rk(&self.root_key, &shared);
        self.root_key = root_key;
        self.chain_recv = Some(chain_recv);
        let new_self = x25519_random_secret();
        self.dh_self = new_self;
        let shared2 = x25519_dh(&self.dh_self, &remote_pub);
        let (root_key2, chain_send) = kdf_rk(&self.root_key, &shared2);
        self.root_key = root_key2;
        self.chain_send = Some(chain_send);
        assert(self@ =~= spec_ratchet_step(old(self)@, remote_pub@, self@.dh_self));
    }
}

} // verus!
