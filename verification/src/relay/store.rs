//! Relay state: published prekeys and per-mailbox message queues, with mail
//! expiry and size caps.
//!
//! The store never holds plaintext. Bundles are public key material; queued
//! messages are opaque ciphertext blobs the relay cannot open. Mailbox keys
//! are opaque 32-byte values (clients use rotating inbox IDs). Only the
//! prekey directory is identity-keyed.
//!
//! ## Bounds
//!
//! * Queued messages expire after [`StoreLimits::mail_ttl_secs`], checked on
//!   poll and by [`RelayStore::sweep_expired`].
//! * A single message larger than [`StoreLimits::max_message_bytes`] is
//!   rejected outright.
//! * A mailbox is capped by message count **and** total bytes; the oldest
//!   messages fall off first.
//!
//! Every mutation marks the store dirty, so whoever persists it knows a
//! snapshot is due.
use vstd::prelude::*;

use crate::codec::FieldV;
use crate::crypto::{now_unix, spec_x25519_public};
use crate::identity::Account;
use crate::wire::{OneTimePrekeyPublics, PreKeyBundle};

verus! {

/// Snapshot format version, bumped on breaking layout changes.
pub const SNAPSHOT_VERSION: u8 = 1;

/// Minimum interval between snapshot writes, in seconds.
pub const FLUSH_INTERVAL_SECS: u64 = 1;

/// Tunable bounds for the store. The defaults suit a small volunteer relay.
#[derive(Debug, Clone, Copy)]
pub struct StoreLimits {
    /// Queued mail older than this is dropped (seconds). Default 30 days.
    pub mail_ttl_secs: u64,
    /// Largest single message accepted, in bytes. Default 256 KiB.
    pub max_message_bytes: usize,
    /// Maximum messages queued per mailbox before the oldest are dropped.
    pub max_mailbox_messages: usize,
    /// Maximum total bytes queued per mailbox before the oldest are dropped.
    pub max_mailbox_bytes: usize,
}

impl Default for StoreLimits {
    fn default() -> (s: Self)
        ensures
            s.mail_ttl_secs == 30 * 24 * 60 * 60,
            s.max_message_bytes == 256 * 1024,
            s.max_mailbox_messages == 10_000,
            s.max_mailbox_bytes == 32 * 1024 * 1024,
    {
        StoreLimits {
            mail_ttl_secs: 30 * 24 * 60 * 60,
            max_message_bytes: 256 * 1024,
            max_mailbox_messages: 10_000,
            max_mailbox_bytes: 32 * 1024 * 1024,
        }
    }
}

/// Why an enqueue was refused.
#[derive(Debug, PartialEq, Eq, Structural)]
pub enum StoreError {
    /// The message exceeds [`StoreLimits::max_message_bytes`].
    MessageTooLarge,
}

/// A queued message and the unix time it arrived.
pub struct QueuedMessage {
    pub enqueued_at: u64,
    pub bytes: Vec<u8>,
}

/// One published identity: the base bundle (no one-time prekey) and the pool
/// of unused one-time prekeys, handed out one per fetch, oldest first.
struct StoredKeys {
    base_bundle: PreKeyBundle,
    one_time: Vec<(u32, [u8; 32])>,
}

/// A published identity: (identity key, base bundle fields, one-time pool).
pub type KeysEntry = (Seq<u8>, Seq<FieldV>, Seq<(u32, Seq<u8>)>);

/// A mailbox: (mailbox key, queued (arrival time, bytes), oldest first).
pub type QueueEntry = (Seq<u8>, Seq<(u64, Seq<u8>)>);

/// The store: published keys and mailboxes, each under a key of its own
/// (an invariant every operation keeps).
pub struct RelayStore {
    keys: Vec<([u8; 32], StoredKeys)>,
    queues: Vec<([u8; 32], Vec<QueuedMessage>)>,
    limits: StoreLimits,
    dirty: bool,
}

/// The mathematical state of a [`RelayStore`].
#[verifier::ext_equal]
pub struct StoreView {
    pub keys: Seq<KeysEntry>,
    pub queues: Seq<QueueEntry>,
    pub limits: StoreLimits,
    /// Some mutation happened since the last snapshot.
    pub dirty: bool,
}

pub open spec fn pool_of(p: Seq<(u32, [u8; 32])>) -> Seq<(u32, Seq<u8>)> {
    p.map_values(|e: (u32, [u8; 32])| (e.0, e.1@))
}

pub open spec fn queue_of(q: Seq<QueuedMessage>) -> Seq<(u64, Seq<u8>)> {
    q.map_values(|m: QueuedMessage| (m.enqueued_at, m.bytes@))
}

spec fn keys_view(k: Seq<([u8; 32], StoredKeys)>) -> Seq<KeysEntry> {
    k.map_values(|e: ([u8; 32], StoredKeys)| (e.0@, e.1.base_bundle@, pool_of(e.1.one_time@)))
}

pub open spec fn queues_view(q: Seq<([u8; 32], Vec<QueuedMessage>)>) -> Seq<QueueEntry> {
    q.map_values(|e: ([u8; 32], Vec<QueuedMessage>)| (e.0@, queue_of(e.1@)))
}

impl View for RelayStore {
    type V = StoreView;

    closed spec fn view(&self) -> StoreView {
        StoreView {
            keys: keys_view(self.keys@),
            queues: queues_view(self.queues@),
            limits: self.limits,
            dirty: self.dirty,
        }
    }
}

// ------------------------------------------------------------ lookups

/// Some entry has key `id`.
pub open spec fn has_id(ids: Seq<Seq<u8>>, id: Seq<u8>) -> bool {
    exists|i: int| 0 <= i < ids.len() && #[trigger] ids[i] == id
}

/// The position of the first entry with key `id`.
pub open spec fn first_id(ids: Seq<Seq<u8>>, id: Seq<u8>) -> int {
    choose|i: int| 0 <= i < ids.len() && ids[i] == id && forall|j: int| 0 <= j < i ==> #[trigger] ids[j] != id
}

pub open spec fn key_ids(k: Seq<KeysEntry>) -> Seq<Seq<u8>> {
    k.map_values(|e: KeysEntry| e.0)
}

pub open spec fn queue_ids(q: Seq<QueueEntry>) -> Seq<Seq<u8>> {
    q.map_values(|e: QueueEntry| e.0)
}

/// The bundle fields with the one-time prekey slot set to `opk`.
pub open spec fn with_one_time(b: Seq<FieldV>, opk: Option<(u32, Seq<u8>)>) -> Seq<FieldV> {
    match opk {
        Some((id, k)) => b.update(9, FieldV::OptFixed(Some(k))).update(10, FieldV::OptU32(Some(id))),
        None => b.update(9, FieldV::OptFixed(None)).update(10, FieldV::OptU32(None)),
    }
}

/// The store after publishing `base` (its one-time slot cleared) and `pool`
/// for identity `id`: the first entry for `id` is replaced, or a new one is
/// appended.
pub open spec fn after_publish(old: StoreView, id: Seq<u8>, base: Seq<FieldV>, pool: Seq<(u32, Seq<u8>)>) -> StoreView {
    let entry = (id, with_one_time(base, None), pool);
    StoreView {
        keys: if has_id(key_ids(old.keys), id) {
            old.keys.update(first_id(key_ids(old.keys), id), entry)
        } else {
            old.keys.push(entry)
        },
        dirty: true,
        ..old
    }
}

/// A bundle fetch for `id`: the bundle handed out (with the oldest one-time
/// prekey, which leaves the pool) and the store afterwards. An unknown
/// identity gives nothing and changes nothing.
pub open spec fn fetched(old: StoreView, id: Seq<u8>) -> (Option<Seq<FieldV>>, StoreView) {
    let ids = key_ids(old.keys);
    if !has_id(ids, id) {
        (None, old)
    } else {
        let i = first_id(ids, id);
        let e = old.keys[i];
        if e.2.len() == 0 {
            (Some(with_one_time(e.1, None)), old)
        } else {
            (
                Some(with_one_time(e.1, Some(e.2[0]))),
                StoreView { keys: old.keys.update(i, (e.0, e.1, e.2.drop_first())), dirty: true, ..old },
            )
        }
    }
}

/// The fields of a bundle that may be absent.
pub open spec fn bundle_fields(b: Option<PreKeyBundle>) -> Option<Seq<FieldV>> {
    match b {
        Some(b) => Some(b@),
        None => None,
    }
}

/// The messages of a mailbox that arrived at `cutoff` or later, in order.
pub open spec fn unexpired(q: Seq<(u64, Seq<u8>)>, cutoff: u64) -> Seq<(u64, Seq<u8>)>
    decreases q.len(),
{
    if q.len() == 0 {
        Seq::empty()
    } else {
        let rest = unexpired(q.drop_last(), cutoff);
        if q.last().0 >= cutoff {
            rest.push(q.last())
        } else {
            rest
        }
    }
}

/// The payloads of a mailbox.
pub open spec fn payloads(q: Seq<(u64, Seq<u8>)>) -> Seq<Seq<u8>> {
    q.map_values(|m: (u64, Seq<u8>)| m.1)
}

/// Total payload bytes of a mailbox.
pub open spec fn total_bytes(q: Seq<(u64, Seq<u8>)>) -> int
    decreases q.len(),
{
    if q.len() == 0 {
        0
    } else {
        q[0].1.len() + total_bytes(q.drop_first())
    }
}

/// Keep at most `max` messages, dropping the oldest.
pub open spec fn trim_count(q: Seq<(u64, Seq<u8>)>, max: int) -> Seq<(u64, Seq<u8>)> {
    if q.len() > max {
        q.subrange(q.len() - max, q.len() as int)
    } else {
        q
    }
}

/// Drop the oldest messages until the mailbox holds at most `max` bytes.
pub open spec fn trim_bytes(q: Seq<(u64, Seq<u8>)>, max: int) -> Seq<(u64, Seq<u8>)>
    decreases q.len(),
{
    if total_bytes(q) > max && q.len() > 0 {
        trim_bytes(q.drop_first(), max)
    } else {
        q
    }
}

/// The oldest-first cutoff for mail arriving at `now`.
pub open spec fn cutoff(now: u64, ttl: u64) -> u64 {
    if now >= ttl {
        (now - ttl) as u64
    } else {
        0
    }
}

/// Every mailbox with its expired mail dropped, and mailboxes left empty
/// removed, in order.
pub open spec fn swept(qs: Seq<QueueEntry>, c: u64) -> Seq<QueueEntry>
    decreases qs.len(),
{
    if qs.len() == 0 {
        Seq::empty()
    } else {
        let rest = swept(qs.drop_last(), c);
        let kept = unexpired(qs.last().1, c);
        if kept.len() > 0 {
            rest.push((qs.last().0, kept))
        } else {
            rest
        }
    }
}

/// How many messages [`swept`] drops.
pub open spec fn swept_count(qs: Seq<QueueEntry>, c: u64) -> int
    decreases qs.len(),
{
    if qs.len() == 0 {
        0
    } else {
        swept_count(qs.drop_last(), c) + qs.last().1.len() - unexpired(qs.last().1, c).len()
    }
}

proof fn lemma_total_nonneg(q: Seq<(u64, Seq<u8>)>)
    ensures
        total_bytes(q) >= 0,
    decreases q.len(),
{
    if q.len() > 0 {
        lemma_total_nonneg(q.drop_first());
    }
}

proof fn lemma_unexpired_len(q: Seq<(u64, Seq<u8>)>, c: u64)
    ensures
        unexpired(q, c).len() <= q.len(),
    decreases q.len(),
{
    if q.len() > 0 {
        lemma_unexpired_len(q.drop_last(), c);
    }
}

proof fn lemma_swept_count_nonneg(qs: Seq<QueueEntry>, c: u64)
    ensures
        swept_count(qs, c) >= 0,
    decreases qs.len(),
{
    if qs.len() > 0 {
        lemma_swept_count_nonneg(qs.drop_last(), c);
        lemma_unexpired_len(qs.last().1, c);
    }
}

/// Published identities and mailboxes each under a key of their own.
pub open spec fn ids_unique(v: StoreView) -> bool {
    &&& key_ids(v.keys).no_duplicates()
    &&& queue_ids(v.queues).no_duplicates()
}

/// The published identities `k` without the records whose identity occurred
/// earlier: the first record for each identity, in order.
pub open spec fn first_keys(k: Seq<KeysEntry>) -> Seq<KeysEntry>
    decreases k.len(),
{
    if k.len() == 0 {
        Seq::empty()
    } else {
        let rest = first_keys(k.drop_last());
        if has_id(key_ids(k.drop_last()), k.last().0) {
            rest
        } else {
            rest.push(k.last())
        }
    }
}

/// The mailboxes `q` without the records whose key occurred earlier: the
/// first record for each mailbox key, in order.
pub open spec fn first_queues(q: Seq<QueueEntry>) -> Seq<QueueEntry>
    decreases q.len(),
{
    if q.len() == 0 {
        Seq::empty()
    } else {
        let rest = first_queues(q.drop_last());
        if has_id(queue_ids(q.drop_last()), q.last().0) {
            rest
        } else {
            rest.push(q.last())
        }
    }
}

proof fn lemma_has_id_push(ids: Seq<Seq<u8>>, y: Seq<u8>, x: Seq<u8>)
    ensures
        has_id(ids.push(y), x) == (has_id(ids, x) || x == y),
{
    let p = ids.push(y);
    if has_id(p, x) {
        let i = choose|i: int| 0 <= i < p.len() && #[trigger] p[i] == x;
        if i < ids.len() {
            assert(ids[i] == x);
        }
    }
    if has_id(ids, x) {
        let i = choose|i: int| 0 <= i < ids.len() && #[trigger] ids[i] == x;
        assert(p[i] == x);
    }
    if x == y {
        assert(p[ids.len() as int] == x);
    }
}

proof fn lemma_no_dup_push(ids: Seq<Seq<u8>>, y: Seq<u8>)
    requires
        ids.no_duplicates(),
        !has_id(ids, y),
    ensures
        ids.push(y).no_duplicates(),
{
    let p = ids.push(y);
    assert forall|a: int, b: int| 0 <= a < p.len() && 0 <= b < p.len() && a != b implies p[a] != p[b] by {
        if a == ids.len() {
            assert(p[b] == ids[b]);
        } else if b == ids.len() {
            assert(p[a] == ids[a]);
        } else {
            assert(p[a] == ids[a] && p[b] == ids[b]);
        }
    }
}

proof fn lemma_remove_unique(ids: Seq<Seq<u8>>, i: int)
    requires
        ids.no_duplicates(),
        0 <= i < ids.len(),
    ensures
        ids.remove(i).no_duplicates(),
        !has_id(ids.remove(i), ids[i]),
{
    let r = ids.remove(i);
    assert forall|a: int, b: int| 0 <= a < r.len() && 0 <= b < r.len() && a != b implies r[a] != r[b] by {
        let a2 = if a < i { a } else { a + 1 };
        let b2 = if b < i { b } else { b + 1 };
        assert(r[a] == ids[a2] && r[b] == ids[b2]);
    }
    if has_id(r, ids[i]) {
        let j = choose|j: int| 0 <= j < r.len() && #[trigger] r[j] == ids[i];
        if j < i {
            assert(r[j] == ids[j]);
        } else {
            assert(r[j] == ids[j + 1]);
        }
    }
}

/// Sweeping keeps only mailboxes that were there, so keys stay unique.
proof fn lemma_swept_unique(qs: Seq<QueueEntry>, c: u64)
    ensures
        forall|x: Seq<u8>| has_id(queue_ids(swept(qs, c)), x) ==> has_id(queue_ids(qs), x),
        queue_ids(qs).no_duplicates() ==> queue_ids(swept(qs, c)).no_duplicates(),
    decreases qs.len(),
{
    if qs.len() == 0 {
        assert(queue_ids(swept(qs, c)) =~= Seq::<Seq<u8>>::empty());
    } else {
        let p = qs.drop_last();
        let l = qs.last();
        lemma_swept_unique(p, c);
        assert(queue_ids(qs) =~= queue_ids(p).push(l.0));
        let sp = swept(p, c);
        let kept = unexpired(l.1, c);
        if kept.len() > 0 {
            assert(queue_ids(swept(qs, c)) =~= queue_ids(sp).push(l.0));
            assert forall|x: Seq<u8>| has_id(queue_ids(swept(qs, c)), x) implies has_id(queue_ids(qs), x) by {
                lemma_has_id_push(queue_ids(sp), l.0, x);
                lemma_has_id_push(queue_ids(p), l.0, x);
            }
            if queue_ids(qs).no_duplicates() {
                assert forall|a: int, b: int|
                    0 <= a < queue_ids(p).len() && 0 <= b < queue_ids(p).len() && a != b implies queue_ids(p)[a]
                    != queue_ids(p)[b] by {
                    assert(queue_ids(p)[a] == queue_ids(qs)[a] && queue_ids(p)[b] == queue_ids(qs)[b]);
                }
                if has_id(queue_ids(p), l.0) {
                    let i = choose|i: int| 0 <= i < queue_ids(p).len() && #[trigger] queue_ids(p)[i] == l.0;
                    assert(queue_ids(qs)[i] == queue_ids(qs)[qs.len() - 1]);
                }
                lemma_no_dup_push(queue_ids(sp), l.0);
            }
        } else {
            assert forall|x: Seq<u8>| has_id(queue_ids(swept(qs, c)), x) implies has_id(queue_ids(qs), x) by {
                lemma_has_id_push(queue_ids(p), l.0, x);
            }
            if queue_ids(qs).no_duplicates() {
                assert forall|a: int, b: int|
                    0 <= a < queue_ids(p).len() && 0 <= b < queue_ids(p).len() && a != b implies queue_ids(p)[a]
                    != queue_ids(p)[b] by {
                    assert(queue_ids(p)[a] == queue_ids(qs)[a] && queue_ids(p)[b] == queue_ids(qs)[b]);
                }
            }
        }
    }
}

proof fn lemma_first_keys(k: Seq<KeysEntry>)
    ensures
        key_ids(first_keys(k)).no_duplicates(),
        forall|x: Seq<u8>| has_id(key_ids(first_keys(k)), x) == has_id(key_ids(k), x),
        key_ids(k).no_duplicates() ==> first_keys(k) == k,
    decreases k.len(),
{
    if k.len() == 0 {
        assert(key_ids(first_keys(k)) =~= Seq::<Seq<u8>>::empty());
        assert forall|x: Seq<u8>| has_id(key_ids(first_keys(k)), x) == has_id(key_ids(k), x) by {}
    } else {
        let p = k.drop_last();
        let l = k.last();
        lemma_first_keys(p);
        assert(key_ids(k) =~= key_ids(p).push(l.0));
        assert(k =~= p.push(l));
        if has_id(key_ids(p), l.0) {
            assert forall|x: Seq<u8>| has_id(key_ids(first_keys(k)), x) == has_id(key_ids(k), x) by {
                lemma_has_id_push(key_ids(p), l.0, x);
            }
            if key_ids(k).no_duplicates() {
                let i = choose|i: int| 0 <= i < key_ids(p).len() && #[trigger] key_ids(p)[i] == l.0;
                assert(key_ids(k)[i] == key_ids(k)[k.len() - 1]);
            }
        } else {
            let fp = first_keys(p);
            assert(key_ids(first_keys(k)) =~= key_ids(fp).push(l.0));
            lemma_no_dup_push(key_ids(fp), l.0);
            assert forall|x: Seq<u8>| has_id(key_ids(first_keys(k)), x) == has_id(key_ids(k), x) by {
                lemma_has_id_push(key_ids(p), l.0, x);
                lemma_has_id_push(key_ids(fp), l.0, x);
            }
            if key_ids(k).no_duplicates() {
                assert forall|a: int, b: int|
                    0 <= a < key_ids(p).len() && 0 <= b < key_ids(p).len() && a != b implies key_ids(p)[a]
                    != key_ids(p)[b] by {
                    assert(key_ids(p)[a] == key_ids(k)[a] && key_ids(p)[b] == key_ids(k)[b]);
                }
            }
        }
    }
}

proof fn lemma_first_queues(q: Seq<QueueEntry>)
    ensures
        queue_ids(first_queues(q)).no_duplicates(),
        forall|x: Seq<u8>| has_id(queue_ids(first_queues(q)), x) == has_id(queue_ids(q), x),
        queue_ids(q).no_duplicates() ==> first_queues(q) == q,
    decreases q.len(),
{
    if q.len() == 0 {
        assert(queue_ids(first_queues(q)) =~= Seq::<Seq<u8>>::empty());
        assert forall|x: Seq<u8>| has_id(queue_ids(first_queues(q)), x) == has_id(queue_ids(q), x) by {}
    } else {
        let p = q.drop_last();
        let l = q.last();
        lemma_first_queues(p);
        assert(queue_ids(q) =~= queue_ids(p).push(l.0));
        assert(q =~= p.push(l));
        if has_id(queue_ids(p), l.0) {
            assert forall|x: Seq<u8>| has_id(queue_ids(first_queues(q)), x) == has_id(queue_ids(q), x) by {
                lemma_has_id_push(queue_ids(p), l.0, x);
            }
            if queue_ids(q).no_duplicates() {
                let i = choose|i: int| 0 <= i < queue_ids(p).len() && #[trigger] queue_ids(p)[i] == l.0;
                assert(queue_ids(q)[i] == queue_ids(q)[q.len() - 1]);
            }
        } else {
            let fp = first_queues(p);
            assert(queue_ids(first_queues(q)) =~= queue_ids(fp).push(l.0));
            lemma_no_dup_push(queue_ids(fp), l.0);
            assert forall|x: Seq<u8>| has_id(queue_ids(first_queues(q)), x) == has_id(queue_ids(q), x) by {
                lemma_has_id_push(queue_ids(p), l.0, x);
                lemma_has_id_push(queue_ids(fp), l.0, x);
            }
            if queue_ids(q).no_duplicates() {
                assert forall|a: int, b: int|
                    0 <= a < queue_ids(p).len() && 0 <= b < queue_ids(p).len() && a != b implies queue_ids(p)[a]
                    != queue_ids(p)[b] by {
                    assert(queue_ids(p)[a] == queue_ids(q)[a] && queue_ids(p)[b] == queue_ids(q)[b]);
                }
            }
        }
    }
}

// ------------------------------------------------------- exec helpers

fn find_keys(keys: &Vec<([u8; 32], StoredKeys)>, id: &[u8; 32]) -> (r: Option<usize>)
    ensures
        match r {
            Some(i) => has_id(key_ids(keys_view(keys@)), id@) && i == first_id(key_ids(keys_view(keys@)), id@) && i
                < keys@.len(),
            None => !has_id(key_ids(keys_view(keys@)), id@),
        },
{
    let ghost ids = key_ids(keys_view(keys@));
    let mut i: usize = 0;
    while i < keys.len()
        invariant
            i <= keys@.len(),
            ids == key_ids(keys_view(keys@)),
            forall|j: int| 0 <= j < i ==> #[trigger] ids[j] != id@,
        decreases keys@.len() - i,
    {
        if crate::bytes::bytes_eq(keys[i].0.as_slice(), id.as_slice()) {
            proof {
                assert(ids[i as int] == id@);
                let k = first_id(ids, id@);
                assert(0 <= k < ids.len() && ids[k] == id@);
                if k < i {
                    assert(ids[k] != id@);
                }
                if k > i {
                    assert(ids[i as int] != id@);
                }
            }
            return Some(i);
        }
        assert(ids[i as int] != id@);
        i = i + 1;
    }
    None
}

fn find_queue(queues: &Vec<([u8; 32], Vec<QueuedMessage>)>, id: &[u8; 32]) -> (r: Option<usize>)
    ensures
        match r {
            Some(i) => has_id(queue_ids(queues_view(queues@)), id@) && i == first_id(
                queue_ids(queues_view(queues@)),
                id@,
            ) && i < queues@.len() && queue_ids(queues_view(queues@))[i as int] == id@,
            None => !has_id(queue_ids(queues_view(queues@)), id@),
        },
{
    let ghost ids = queue_ids(queues_view(queues@));
    let mut i: usize = 0;
    while i < queues.len()
        invariant
            i <= queues@.len(),
            ids == queue_ids(queues_view(queues@)),
            forall|j: int| 0 <= j < i ==> #[trigger] ids[j] != id@,
        decreases queues@.len() - i,
    {
        if crate::bytes::bytes_eq(queues[i].0.as_slice(), id.as_slice()) {
            proof {
                assert(ids[i as int] == id@);
                let k = first_id(ids, id@);
                assert(0 <= k < ids.len() && ids[k] == id@);
                if k < i {
                    assert(ids[k] != id@);
                }
                if k > i {
                    assert(ids[i as int] != id@);
                }
            }
            return Some(i);
        }
        assert(ids[i as int] != id@);
        i = i + 1;
    }
    None
}

fn copy_pool(p: &Vec<(u32, [u8; 32])>) -> (v: Vec<(u32, [u8; 32])>)
    ensures
        pool_of(v@) == pool_of(p@),
{
    let mut v: Vec<(u32, [u8; 32])> = Vec::new();
    let mut i: usize = 0;
    while i < p.len()
        invariant
            i <= p@.len(),
            pool_of(v@) == pool_of(p@).subrange(0, i as int),
        decreases p@.len() - i,
    {
        let ghost prev = pool_of(v@);
        v.push(p[i]);
        assert(pool_of(v@) =~= prev.push((p@[i as int].0, p@[i as int].1@)));
        assert(pool_of(v@) =~= pool_of(p@).subrange(0, i + 1));
        i = i + 1;
    }
    assert(pool_of(p@).subrange(0, i as int) =~= pool_of(p@));
    v
}

/// Published identities given as plain values.
pub open spec fn key_records(k: Seq<([u8; 32], PreKeyBundle, Vec<(u32, [u8; 32])>)>) -> Seq<KeysEntry> {
    k.map_values(|e: ([u8; 32], PreKeyBundle, Vec<(u32, [u8; 32])>)| (e.0@, e.1@, pool_of(e.2@)))
}

/// A mailbox's messages given as plain values.
pub open spec fn message_records(q: Seq<(u64, Vec<u8>)>) -> Seq<(u64, Seq<u8>)> {
    q.map_values(|m: (u64, Vec<u8>)| (m.0, m.1@))
}

/// Mailboxes given as plain values.
pub open spec fn queue_records(q: Seq<([u8; 32], Vec<(u64, Vec<u8>)>)>) -> Seq<QueueEntry> {
    q.map_values(|e: ([u8; 32], Vec<(u64, Vec<u8>)>)| (e.0@, message_records(e.1@)))
}

fn to_queue(entries: Vec<(u64, Vec<u8>)>) -> (q: Vec<QueuedMessage>)
    ensures
        queue_of(q@) == message_records(entries@),
{
    let ghost mv = message_records(entries@);
    let n = entries.len();
    let mut entries = entries;
    let mut q: Vec<QueuedMessage> = Vec::new();
    while entries.len() > 0
        invariant
            q@.len() + entries@.len() == n,
            mv.len() == n,
            queue_of(q@) == mv.subrange(0, q@.len() as int),
            message_records(entries@) == mv.subrange(q@.len() as int, n as int),
        decreases entries@.len(),
    {
        let ghost k: int = q@.len() as int;
        let ghost before = message_records(entries@);
        let (enqueued_at, bytes) = entries.remove(0);
        assert(message_records(entries@) =~= before.drop_first());
        let ghost prev = queue_of(q@);
        q.push(QueuedMessage { enqueued_at, bytes });
        assert(queue_of(q@) =~= prev.push(before[0]));
        assert(mv.subrange(0, k + 1) =~= mv.subrange(0, k).push(mv[k]));
        assert(mv.subrange(k + 1, n as int) =~= mv.subrange(k, n as int).drop_first());
    }
    assert(mv.subrange(0, n as int) =~= mv);
    q
}

fn from_queue(q: &Vec<QueuedMessage>) -> (entries: Vec<(u64, Vec<u8>)>)
    ensures
        message_records(entries@) == queue_of(q@),
{
    let mut entries: Vec<(u64, Vec<u8>)> = Vec::new();
    let mut i: usize = 0;
    while i < q.len()
        invariant
            i <= q@.len(),
            message_records(entries@) == queue_of(q@).subrange(0, i as int),
        decreases q@.len() - i,
    {
        let ghost prev = message_records(entries@);
        entries.push((q[i].enqueued_at, crate::bytes::copy_vec(&q[i].bytes)));
        assert(message_records(entries@) =~= prev.push(queue_of(q@)[i as int]));
        assert(queue_of(q@).subrange(0, i + 1) =~= queue_of(q@).subrange(0, i as int).push(queue_of(q@)[i as int]));
        i = i + 1;
    }
    assert(queue_of(q@).subrange(0, i as int) =~= queue_of(q@));
    entries
}

/// Sum of the payload lengths, exactly (a `u128` cannot overflow here).
fn queue_total(q: &Vec<QueuedMessage>) -> (t: u128)
    ensures
        t == total_bytes(queue_of(q@)),
{
    let ghost qv = queue_of(q@);
    let mut t: u128 = 0;
    let qlen = q.len();
    let mut i: usize = qlen;
    while i > 0
        invariant
            qlen == q@.len(),
            i <= q@.len(),
            qv == queue_of(q@),
            t == total_bytes(qv.subrange(i as int, qv.len() as int)),
            t <= (q@.len() - i) * (usize::MAX as int),
        decreases i,
    {
        i = i - 1;
        let n = q[i].bytes.len();
        proof {
            let s1 = qv.subrange(i as int, qv.len() as int);
            assert(s1.drop_first() =~= qv.subrange(i + 1, qv.len() as int));
            assert(s1[0] == qv[i as int]);
            assert((q@.len() - i - 1) * (usize::MAX as int) + (usize::MAX as int) == (q@.len() - i) * (
            usize::MAX as int)) by (nonlinear_arith);
            assert((q@.len() - i) * (usize::MAX as int) <= (usize::MAX as int) * (usize::MAX as int)) by (nonlinear_arith)
                requires
                    q@.len() - i <= usize::MAX,
            ;
            assert((usize::MAX as int) * (usize::MAX as int) < u128::MAX) by (nonlinear_arith)
                requires
                    usize::MAX <= u64::MAX,
            ;
        }
        t = t + n as u128;
    }
    assert(qv.subrange(0, qv.len() as int) =~= qv);
    t
}

/// Keep the newest messages within the count cap, then within the byte cap.
#[verifier::spinoff_prover]
fn trim_queue(queue: &mut Vec<QueuedMessage>, max_n: usize, max_bytes: usize)
    ensures
        queue_of(final(queue)@) == trim_bytes(trim_count(queue_of(old(queue)@), max_n as int), max_bytes as int),
{
    let ghost q1 = queue_of(queue@);
    while queue.len() > max_n
        invariant
            q1.len() > max_n ==> queue@.len() >= max_n,
            queue@.len() >= max_n || queue@.len() == q1.len(),
            queue_of(queue@) == q1.subrange(q1.len() - queue@.len(), q1.len() as int),
            queue@.len() <= q1.len(),
        decreases queue@.len(),
    {
        let ghost prevq = queue_of(queue@);
        queue.remove(0);
        assert(queue_of(queue@) =~= prevq.drop_first());
        assert(queue_of(queue@) =~= q1.subrange(q1.len() - queue@.len(), q1.len() as int));
    }
    let ghost q2 = queue_of(queue@);
    proof {
        if q1.len() <= max_n {
            assert(q1.subrange(0, q1.len() as int) =~= q1);
        }
    }
    assert(q2 =~= trim_count(q1, max_n as int));
    let max_b = max_bytes as u128;
    let mut total = queue_total(&*queue);
    while total > max_b && queue.len() > 0
        invariant
            total == total_bytes(queue_of(queue@)),
            trim_bytes(queue_of(queue@), max_b as int) == trim_bytes(q2, max_b as int),
        decreases queue@.len(),
    {
        let ghost prevq = queue_of(queue@);
        proof {
            lemma_total_nonneg(prevq.drop_first());
            assert(trim_bytes(prevq, max_b as int) == trim_bytes(prevq.drop_first(), max_b as int));
        }
        let dropped = queue.remove(0);
        assert(queue_of(queue@) =~= prevq.drop_first());
        assert(prevq[0].1 == dropped.bytes@);
        total = total - dropped.bytes.len() as u128;
    }
    assert(queue_of(queue@) == trim_bytes(q2, max_b as int));
}

impl Default for RelayStore {
    /// An empty store with default limits.
    fn default() -> (s: Self)
        ensures
            s@.keys.len() == 0,
            s@.queues.len() == 0,
            !s@.dirty,
            s@.limits.mail_ttl_secs == 30 * 24 * 60 * 60,
            s@.limits.max_message_bytes == 256 * 1024,
            s@.limits.max_mailbox_messages == 10_000,
            s@.limits.max_mailbox_bytes == 32 * 1024 * 1024,
            ids_unique(s@),
    {
        Self::new()
    }
}

impl RelayStore {
    /// Each identity and each mailbox key is held once.
    #[verifier::type_invariant]
    spec fn keyed_once(self) -> bool {
        ids_unique(self@)
    }

    /// Create an empty store with default limits.
    pub fn new() -> (s: Self)
        ensures
            s@.keys.len() == 0,
            s@.queues.len() == 0,
            !s@.dirty,
            s@.limits.mail_ttl_secs == 30 * 24 * 60 * 60,
            s@.limits.max_message_bytes == 256 * 1024,
            s@.limits.max_mailbox_messages == 10_000,
            s@.limits.max_mailbox_bytes == 32 * 1024 * 1024,
            ids_unique(s@),
    {
        Self::with_limits(StoreLimits::default())
    }

    /// Create an empty store with explicit limits.
    pub fn with_limits(limits: StoreLimits) -> (s: Self)
        ensures
            s@.keys.len() == 0,
            s@.queues.len() == 0,
            s@.limits == limits,
            !s@.dirty,
            ids_unique(s@),
    {
        RelayStore { keys: Vec::new(), queues: Vec::new(), limits, dirty: false }
    }

    /// A store holding the given published identities and mailboxes (as a
    /// snapshot lists them), clean. Each identity and each mailbox key is
    /// held once: where a key is listed again, its first record is kept.
    pub fn restore(
        keys: Vec<([u8; 32], PreKeyBundle, Vec<(u32, [u8; 32])>)>,
        queues: Vec<([u8; 32], Vec<(u64, Vec<u8>)>)>,
        limits: StoreLimits,
    ) -> (s: Self)
        ensures
            s@.keys == first_keys(key_records(keys@)),
            s@.queues == first_queues(queue_records(queues@)),
            s@.limits == limits,
            !s@.dirty,
            ids_unique(s@),
    {
        let mut stored_keys: Vec<([u8; 32], StoredKeys)> = Vec::new();
        let ghost kv = key_records(keys@);
        let nk = keys.len();
        let mut keys = keys;
        let mut taken: usize = 0;
        while keys.len() > 0
            invariant
                taken + keys@.len() == nk,
                kv.len() == nk,
                keys_view(stored_keys@) == first_keys(kv.subrange(0, taken as int)),
                key_records(keys@) == kv.subrange(taken as int, nk as int),
            decreases keys@.len(),
        {
            let ghost before = key_records(keys@);
            let ghost seen = kv.subrange(0, taken as int);
            let (id, base_bundle, one_time) = keys.remove(0);
            assert(key_records(keys@) =~= before.drop_first());
            proof {
                lemma_first_keys(seen);
                let next = kv.subrange(0, taken + 1);
                assert(next.drop_last() =~= seen);
                assert(next.last() == before[0]);
            }
            let ghost prev = keys_view(stored_keys@);
            if find_keys(&stored_keys, &id).is_none() {
                stored_keys.push((id, StoredKeys { base_bundle, one_time }));
                assert(keys_view(stored_keys@) =~= prev.push(before[0]));
            }
            assert(kv.subrange(taken + 1, nk as int) =~= kv.subrange(taken as int, nk as int).drop_first());
            taken = taken + 1;
        }
        assert(kv.subrange(0, nk as int) =~= kv);
        let mut stored_queues: Vec<([u8; 32], Vec<QueuedMessage>)> = Vec::new();
        let ghost qv = queue_records(queues@);
        let nq = queues.len();
        let mut queues = queues;
        let mut done: usize = 0;
        while queues.len() > 0
            invariant
                done + queues@.len() == nq,
                qv.len() == nq,
                queues_view(stored_queues@) == first_queues(qv.subrange(0, done as int)),
                queue_records(queues@) == qv.subrange(done as int, nq as int),
            decreases queues@.len(),
        {
            let ghost before = queue_records(queues@);
            let ghost seen = qv.subrange(0, done as int);
            let (id, entries) = queues.remove(0);
            assert(queue_records(queues@) =~= before.drop_first());
            proof {
                lemma_first_queues(seen);
                let next = qv.subrange(0, done + 1);
                assert(next.drop_last() =~= seen);
                assert(next.last() == before[0]);
            }
            let ghost prev = queues_view(stored_queues@);
            if find_queue(&stored_queues, &id).is_none() {
                let queue = to_queue(entries);
                stored_queues.push((id, queue));
                assert(queues_view(stored_queues@) =~= prev.push(before[0]));
            }
            assert(qv.subrange(done + 1, nq as int) =~= qv.subrange(done as int, nq as int).drop_first());
            done = done + 1;
        }
        assert(qv.subrange(0, nq as int) =~= qv);
        proof {
            lemma_first_keys(kv);
            lemma_first_queues(qv);
        }
        RelayStore { keys: stored_keys, queues: stored_queues, limits, dirty: false }
    }

    /// The published identities and mailboxes as plain values, for a
    /// snapshot; [`RelayStore::restore`] reads them back.
    pub fn contents(&self) -> (r: (
        Vec<([u8; 32], PreKeyBundle, Vec<(u32, [u8; 32])>)>,
        Vec<([u8; 32], Vec<(u64, Vec<u8>)>)>,
    ))
        ensures
            key_records(r.0@) == self@.keys,
            queue_records(r.1@) == self@.queues,
            ids_unique(self@),
    {
        proof {
            use_type_invariant(self);
        }
        let mut keys: Vec<([u8; 32], PreKeyBundle, Vec<(u32, [u8; 32])>)> = Vec::new();
        let mut i: usize = 0;
        while i < self.keys.len()
            invariant
                i <= self.keys@.len(),
                key_records(keys@) == keys_view(self.keys@).subrange(0, i as int),
            decreases self.keys@.len() - i,
        {
            let e = &self.keys[i];
            let ghost prev = key_records(keys@);
            keys.push((e.0, e.1.base_bundle.copy(), copy_pool(&e.1.one_time)));
            assert(key_records(keys@) =~= prev.push(keys_view(self.keys@)[i as int]));
            assert(keys_view(self.keys@).subrange(0, i + 1) =~= keys_view(self.keys@).subrange(0, i as int).push(
                keys_view(self.keys@)[i as int],
            ));
            i = i + 1;
        }
        assert(keys_view(self.keys@).subrange(0, i as int) =~= keys_view(self.keys@));
        let mut queues: Vec<([u8; 32], Vec<(u64, Vec<u8>)>)> = Vec::new();
        let mut j: usize = 0;
        while j < self.queues.len()
            invariant
                j <= self.queues@.len(),
                queue_records(queues@) == queues_view(self.queues@).subrange(0, j as int),
            decreases self.queues@.len() - j,
        {
            let e = &self.queues[j];
            let ghost prev = queue_records(queues@);
            queues.push((e.0, from_queue(&e.1)));
            assert(queue_records(queues@) =~= prev.push(queues_view(self.queues@)[j as int]));
            assert(queues_view(self.queues@).subrange(0, j + 1) =~= queues_view(self.queues@).subrange(
                0,
                j as int,
            ).push(queues_view(self.queues@)[j as int]));
            j = j + 1;
        }
        assert(queues_view(self.queues@).subrange(0, j as int) =~= queues_view(self.queues@));
        (keys, queues)
    }

    /// The limits the store enforces.
    pub fn limits(&self) -> (l: StoreLimits)
        ensures
            l == self@.limits,
    {
        self.limits
    }

    /// Whether a mutation happened since the last snapshot.
    pub fn is_dirty(&self) -> (d: bool)
        ensures
            d == self@.dirty,
    {
        self.dirty
    }

    /// Record that a snapshot was written.
    pub fn mark_clean(&mut self)
        ensures
            final(self)@ == (StoreView { dirty: false, ..old(self)@ }),
            ids_unique(final(self)@),
    {
        proof {
            use_type_invariant(&*self);
        }
        self.dirty = false;
        assert(self@ =~= (StoreView { dirty: false, ..old(self)@ }));
        proof {
            use_type_invariant(&*self);
        }
    }

    fn mark_dirty(&mut self)
        ensures
            final(self)@ == (StoreView { dirty: true, ..old(self)@ }),
            ids_unique(final(self)@),
    {
        proof {
            use_type_invariant(&*self);
        }
        self.dirty = true;
        assert(self@ =~= (StoreView { dirty: true, ..old(self)@ }));
        proof {
            use_type_invariant(&*self);
        }
    }

    /// Publish (or replace) a user's prekeys.
    ///
    /// The bundle's own one-time prekey is dropped; the pool is supplied
    /// separately in `one_time` so the store can dispense a distinct key per
    /// fetch.
    pub fn publish(&mut self, base_bundle: PreKeyBundle, one_time: Vec<(u32, [u8; 32])>)
        ensures
            final(self)@ == after_publish(old(self)@, base_bundle.identity_ed@, base_bundle@, pool_of(one_time@)),
            ids_unique(final(self)@),
    {
        let identity = base_bundle.identity_ed;
        let ghost orig = base_bundle@;
        let mut base_bundle = base_bundle;
        base_bundle.one_time_prekey = None;
        base_bundle.one_time_prekey_id = None;
        assert(base_bundle@ =~= with_one_time(orig, None));
        let ghost entry = (identity@, base_bundle@, pool_of(one_time@));
        let stored = StoredKeys { base_bundle, one_time };
        proof {
            use_type_invariant(&*self);
        }
        let ghost old_ids = key_ids(old(self)@.keys);
        let mut keys: Vec<([u8; 32], StoredKeys)> = Vec::new();
        std::mem::swap(&mut keys, &mut self.keys);
        match find_keys(&keys, &identity) {
            Some(i) => {
                keys.set(i, (identity, stored));
                assert(keys_view(keys@) =~= old(self)@.keys.update(i as int, entry));
                assert(key_ids(keys_view(keys@)) =~= old_ids);
            },
            None => {
                keys.push((identity, stored));
                assert(keys_view(keys@) =~= old(self)@.keys.push(entry));
                assert(key_ids(keys_view(keys@)) =~= old_ids.push(identity@));
                proof {
                    lemma_no_dup_push(old_ids, identity@);
                }
            },
        }
        self.keys = keys;
        self.mark_dirty();
        assert(self@ =~= (StoreView { keys: self@.keys, dirty: true, ..old(self)@ }));
    }

    /// Fetch a bundle for `identity`, consuming one one-time prekey if any
    /// remain (the oldest). `None` if the identity is unknown.
    #[verifier::spinoff_prover]
    #[verifier::rlimit(60)]
    pub fn fetch_bundle(&mut self, identity: &[u8; 32]) -> (r: Option<PreKeyBundle>)
        ensures
            bundle_fields(r) == fetched(old(self)@, identity@).0,
            final(self)@ == fetched(old(self)@, identity@).1,
            ids_unique(final(self)@),
    {
        proof {
            use_type_invariant(&*self);
        }
        let i = match find_keys(&self.keys, identity) {
            Some(i) => i,
            None => return None,
        };
        let mut bundle = self.keys[i].1.base_bundle.copy();
        if self.keys[i].1.one_time.len() == 0 {
            proof {
                let e = old(self)@.keys[i as int];
                assert(self.keys@[i as int].1.base_bundle@ == e.1);
                assert(e.1.len() == 11) by {
                    assert(e.1 == self.keys@[i as int].1.base_bundle@);
                }
            }
            bundle.one_time_prekey = None;
            bundle.one_time_prekey_id = None;
            proof {
                let e = old(self)@.keys[i as int];
                assert(bundle@ =~= with_one_time(e.1, None));
            }
            return Some(bundle);
        }
        let mut keys: Vec<([u8; 32], StoredKeys)> = Vec::new();
        std::mem::swap(&mut keys, &mut self.keys);
        let (entry_id, mut stored) = keys.remove(i);
        let (opk_id, opk) = stored.one_time.remove(0);
        bundle.one_time_prekey = Some(opk);
        bundle.one_time_prekey_id = Some(opk_id);
        let ghost e = old(self)@.keys[i as int];
        keys.insert(i, (entry_id, stored));
        proof {
            assert(bundle@ =~= with_one_time(e.1, Some(e.2[0])));
            assert(pool_of(stored.one_time@) =~= e.2.drop_first());
            assert(keys_view(keys@) =~= old(self)@.keys.update(i as int, (e.0, e.1, e.2.drop_first())));
            assert(key_ids(keys_view(keys@)) =~= key_ids(old(self)@.keys));
        }
        self.keys = keys;
        self.mark_dirty();
        assert(self@ =~= (StoreView { keys: self@.keys, dirty: true, ..old(self)@ }));
        Some(bundle)
    }

    /// How many one-time prekeys remain for an identity (for replenish hints).
    pub fn one_time_remaining(&self, identity: &[u8; 32]) -> (n: usize)
        ensures
            n == if has_id(key_ids(self@.keys), identity@) {
                self@.keys[first_id(key_ids(self@.keys), identity@)].2.len()
            } else {
                0
            },
    {
        match find_keys(&self.keys, identity) {
            Some(i) => self.keys[i].1.one_time.len(),
            None => 0,
        }
    }

    /// Queue an opaque ciphertext message for `recipient`, stamped with the
    /// current clock reading (see [`RelayStore::enqueue_at`]).
    pub fn enqueue(&mut self, recipient: [u8; 32], message: Vec<u8>) -> (r: Result<(), StoreError>)
        ensures
            exists|now: u64| #[trigger] enqueued(old(self)@, final(self)@, recipient@, message@, now, r),
            ids_unique(final(self)@),
    {
        let now = now_unix();
        self.enqueue_at(recipient, message, now)
    }

    /// Queue an opaque ciphertext message for `recipient`, arriving at `now`:
    /// refused when larger than the message cap; otherwise appended to the
    /// mailbox, which then keeps its newest messages within the count cap and
    /// then within the byte cap.
    #[verifier::spinoff_prover]
    #[verifier::rlimit(60)]
    pub fn enqueue_at(&mut self, recipient: [u8; 32], message: Vec<u8>, now: u64) -> (r: Result<(), StoreError>)
        ensures
            enqueued(old(self)@, final(self)@, recipient@, message@, now, r),
            ids_unique(final(self)@),
    {
        proof {
            use_type_invariant(&*self);
        }
        if message.len() > self.limits.max_message_bytes {
            return Err(StoreError::MessageTooLarge);
        }
        let ghost old_q: Seq<(u64, Seq<u8>)> = mailbox(old(self)@.queues, recipient@);
        let mut queues: Vec<([u8; 32], Vec<QueuedMessage>)> = Vec::new();
        std::mem::swap(&mut queues, &mut self.queues);
        let (pos, mut queue) = match find_queue(&queues, &recipient) {
            Some(i) => {
                let (_, q) = queues.remove(i);
                assert(queues_view(queues@) =~= old(self)@.queues.remove(i as int));
                (i, q)
            },
            None => (queues.len(), Vec::new()),
        };
        let ghost mid = queues_view(queues@);
        assert(queue_of(queue@) =~= old_q);
        let ghost q1 = old_q.push((now, message@));
        queue.push(QueuedMessage { enqueued_at: now, bytes: message });
        assert(queue_of(queue@) =~= q1);
        trim_queue(&mut queue, self.limits.max_mailbox_messages, self.limits.max_mailbox_bytes);
        let ghost newq = queue_of(queue@);
        queues.insert(pos, (recipient, queue));
        assert(queues_view(queues@) =~= mid.insert(pos as int, (recipient@, newq)));
        proof {
            let olds = old(self)@.queues;
            let ids = queue_ids(olds);
            if has_id(ids, recipient@) {
                assert(mid == olds.remove(pos as int));
                assert(mid.insert(pos as int, (recipient@, newq)) =~= olds.update(pos as int, (recipient@, newq)));
                assert(queue_ids(queues_view(queues@)) =~= ids);
            } else {
                assert(mid == olds);
                assert(mid.insert(pos as int, (recipient@, newq)) =~= olds.push((recipient@, newq)));
                assert(queue_ids(queues_view(queues@)) =~= ids.push(recipient@));
                lemma_no_dup_push(ids, recipient@);
            }
        }
        self.queues = queues;
        self.mark_dirty();
        assert(self@ =~= (StoreView { queues: self@.queues, dirty: true, ..old(self)@ }));
        Ok(())
    }

    /// Drain and return all unexpired queued messages for `recipient`, in
    /// delivery order, as of the current clock reading.
    pub fn poll(&mut self, recipient: &[u8; 32]) -> (v: Vec<Vec<u8>>)
        ensures
            exists|now: u64| #[trigger] polled(old(self)@, final(self)@, recipient@, now, bytes_view(v@)),
            !has_id(queue_ids(final(self)@.queues), recipient@),
            ids_unique(final(self)@),
    {
        let now = now_unix();
        self.poll_at(recipient, now)
    }

    /// Drain the mailbox of `recipient` and return the payloads of the
    /// messages that have not expired at `now`, in delivery order. An unknown
    /// mailbox yields nothing and leaves the store untouched.
    pub fn poll_at(&mut self, recipient: &[u8; 32], now: u64) -> (v: Vec<Vec<u8>>)
        ensures
            polled(old(self)@, final(self)@, recipient@, now, bytes_view(v@)),
            !has_id(queue_ids(final(self)@.queues), recipient@),
            ids_unique(final(self)@),
    {
        proof {
            use_type_invariant(&*self);
        }
        let c = now.saturating_sub(self.limits.mail_ttl_secs);
        assert(c == cutoff(now, self.limits.mail_ttl_secs));
        let i = match find_queue(&self.queues, recipient) {
            Some(i) => i,
            None => {
                let v: Vec<Vec<u8>> = Vec::new();
                assert(bytes_view(v@) =~= Seq::<Seq<u8>>::empty());
                return v;
            },
        };
        let mut queues: Vec<([u8; 32], Vec<QueuedMessage>)> = Vec::new();
        std::mem::swap(&mut queues, &mut self.queues);
        let (_, queue) = queues.remove(i);
        proof {
            assert(queues_view(queues@) =~= old(self)@.queues.remove(i as int));
            assert(queue_ids(queues_view(queues@)) =~= queue_ids(old(self)@.queues).remove(i as int));
            lemma_remove_unique(queue_ids(old(self)@.queues), i as int);
        }
        self.queues = queues;
        let ghost qv = queue_of(queue@);
        let mut out: Vec<Vec<u8>> = Vec::new();
        let mut j: usize = 0;
        while j < queue.len()
            invariant
                j <= queue@.len(),
                qv == queue_of(queue@),
                bytes_view(out@) == payloads(unexpired(qv.subrange(0, j as int), c)),
            decreases queue@.len() - j,
        {
            let ghost sub = qv.subrange(0, j + 1);
            assert(sub.drop_last() =~= qv.subrange(0, j as int));
            if queue[j].enqueued_at >= c {
                let ghost prev = bytes_view(out@);
                out.push(crate::bytes::copy_vec(&queue[j].bytes));
                assert(bytes_view(out@) =~= prev.push(qv[j as int].1));
                assert(payloads(unexpired(sub, c)) =~= payloads(unexpired(qv.subrange(0, j as int), c)).push(
                    qv[j as int].1,
                ));
            }
            j = j + 1;
        }
        assert(qv.subrange(0, j as int) =~= qv);
        self.mark_dirty();
        assert(self@ =~= (StoreView { queues: self@.queues, dirty: true, ..old(self)@ }));
        out
    }

    /// Drop expired mail and empty mailboxes across the whole store, as of the
    /// current clock reading. Returns how many messages were removed.
    pub fn sweep_expired(&mut self) -> (n: usize)
        ensures
            exists|now: u64| #[trigger] sweep_done(old(self)@, final(self)@, now, n),
            ids_unique(final(self)@),
    {
        let now = now_unix();
        self.sweep_expired_at(now)
    }

    /// Drop mail that expired at `now` and mailboxes left empty. Returns how
    /// many messages were removed (saturating at `usize::MAX`); the store is
    /// marked dirty only when something was removed.
    pub fn sweep_expired_at(&mut self, now: u64) -> (n: usize)
        ensures
            sweep_done(old(self)@, final(self)@, now, n),
            ids_unique(final(self)@),
    {
        proof {
            use_type_invariant(&*self);
        }
        let c = now.saturating_sub(self.limits.mail_ttl_secs);
        let ghost qs = old(self)@.queues;
        let mut queues: Vec<([u8; 32], Vec<QueuedMessage>)> = Vec::new();
        std::mem::swap(&mut queues, &mut self.queues);
        let mut kept_all: Vec<([u8; 32], Vec<QueuedMessage>)> = Vec::new();
        let mut removed: usize = 0;
        let ghost mut exact: int = 0;
        let mut i: usize = 0;
        let n = queues.len();
        while i < n
            invariant
                n == queues@.len(),
                i <= n,
                qs == queues_view(queues@),
                queues_view(kept_all@) == swept(qs.subrange(0, i as int), c),
                exact == swept_count(qs.subrange(0, i as int), c),
                removed == if exact > usize::MAX {
                    usize::MAX as int
                } else {
                    exact
                },
                exact >= 0,
            decreases n - i,
        {
            let ghost sub = qs.subrange(0, i + 1);
            assert(sub.drop_last() =~= qs.subrange(0, i as int));
            let q = &queues[i].1;
            let ghost qv = queue_of(q@);
            let mut kept: Vec<QueuedMessage> = Vec::new();
            let mut j: usize = 0;
            while j < q.len()
                invariant
                    j <= q@.len(),
                    qv == queue_of(q@),
                    queue_of(kept@) == unexpired(qv.subrange(0, j as int), c),
                decreases q@.len() - j,
            {
                let ghost s2 = qv.subrange(0, j + 1);
                assert(s2.drop_last() =~= qv.subrange(0, j as int));
                if q[j].enqueued_at >= c {
                    let ghost prev = queue_of(kept@);
                    kept.push(QueuedMessage { enqueued_at: q[j].enqueued_at, bytes: crate::bytes::copy_vec(&q[j].bytes) });
                    assert(queue_of(kept@) =~= prev.push(qv[j as int]));
                }
                j = j + 1;
            }
            assert(qv.subrange(0, j as int) =~= qv);
            proof {
                lemma_unexpired_len(qv, c);
            }
            let dropped = q.len() - kept.len();
            proof {
                exact = exact + dropped;
            }
            removed = removed.saturating_add(dropped);
            if kept.len() > 0 {
                let ghost prev = queues_view(kept_all@);
                kept_all.push((queues[i].0, kept));
                assert(queues_view(kept_all@) =~= prev.push((qs[i as int].0, qv_kept(qv, c))));
            }
            i = i + 1;
        }
        assert(qs.subrange(0, n as int) =~= qs);
        proof {
            lemma_swept_unique(qs, c);
        }
        self.queues = kept_all;
        if removed > 0 {
            self.mark_dirty();
        }
        proof {
            lemma_swept_count_nonneg(qs, c);
        }
        assert(self@.queues == swept(qs, c));
        proof {
            use_type_invariant(&*self);
        }
        removed
    }
}

/// The queue that survives sweeping (an alias that keeps a proof readable).
pub open spec fn qv_kept(q: Seq<(u64, Seq<u8>)>, c: u64) -> Seq<(u64, Seq<u8>)> {
    unexpired(q, c)
}

/// The mailbox of `id` (empty when there is none).
pub open spec fn mailbox(qs: Seq<QueueEntry>, id: Seq<u8>) -> Seq<(u64, Seq<u8>)> {
    if has_id(queue_ids(qs), id) {
        qs[first_id(queue_ids(qs), id)].1
    } else {
        Seq::empty()
    }
}

pub open spec fn bytes_view(v: Seq<Vec<u8>>) -> Seq<Seq<u8>> {
    v.map_values(|b: Vec<u8>| b@)
}

/// The effect of enqueuing `m` for `id` at `now` with result `r`.
pub open spec fn enqueued(
    old: StoreView,
    new: StoreView,
    id: Seq<u8>,
    m: Seq<u8>,
    now: u64,
    r: Result<(), StoreError>,
) -> bool {
    if m.len() > old.limits.max_message_bytes {
        r == Err::<(), StoreError>(StoreError::MessageTooLarge) && new == old
    } else {
        let q = trim_bytes(
            trim_count(mailbox(old.queues, id).push((now, m)), old.limits.max_mailbox_messages as int),
            old.limits.max_mailbox_bytes as int,
        );
        &&& r is Ok
        &&& new == (StoreView {
            queues: if has_id(queue_ids(old.queues), id) {
                old.queues.update(first_id(queue_ids(old.queues), id), (id, q))
            } else {
                old.queues.push((id, q))
            },
            dirty: true,
            ..old
        })
    }
}

/// The effect of polling `id` at `now`, returning `out`.
pub open spec fn polled(old: StoreView, new: StoreView, id: Seq<u8>, now: u64, out: Seq<Seq<u8>>) -> bool {
    if has_id(queue_ids(old.queues), id) {
        let i = first_id(queue_ids(old.queues), id);
        &&& out == payloads(unexpired(old.queues[i].1, cutoff(now, old.limits.mail_ttl_secs)))
        &&& new == (StoreView { queues: old.queues.remove(i), dirty: true, ..old })
    } else {
        out.len() == 0 && new == old
    }
}

/// The effect of sweeping at `now`, reporting `n` removed messages.
pub open spec fn sweep_done(old: StoreView, new: StoreView, now: u64, n: usize) -> bool {
    let c = cutoff(now, old.limits.mail_ttl_secs);
    let count = swept_count(old.queues, c);
    &&& n == if count > usize::MAX {
        usize::MAX as int
    } else {
        count
    }
    &&& new.queues == swept(old.queues, c)
    &&& new.keys == old.keys
    &&& new.limits == old.limits
    &&& new.dirty == (old.dirty || n > 0)
}

/// Mail is handed out once: after a mailbox is polled it is gone, so polling
/// it again (at any time) gives nothing and changes nothing. Every store's
/// mailbox keys are unique (each operation ensures [`ids_unique`]).
pub proof fn lemma_poll_drains(
    old: StoreView,
    new: StoreView,
    id: Seq<u8>,
    now: u64,
    out: Seq<Seq<u8>>,
    after: StoreView,
    later: u64,
    out2: Seq<Seq<u8>>,
)
    requires
        queue_ids(old.queues).no_duplicates(),
        polled(old, new, id, now, out),
        polled(new, after, id, later, out2),
    ensures
        out2.len() == 0,
        after == new,
        queue_ids(new.queues).no_duplicates(),
{
    let ids = queue_ids(old.queues);
    if has_id(ids, id) {
        let i = first_id(ids, id);
        let nids = queue_ids(new.queues);
        assert(nids =~= ids.remove(i));
        if has_id(nids, id) {
            let j = choose|j: int| 0 <= j < nids.len() && #[trigger] nids[j] == id;
            if j < i {
                assert(ids[j] == id);
            } else {
                assert(ids[j + 1] == id);
            }
            assert(false);
        }
        assert forall|a: int, b: int| 0 <= a < b < nids.len() implies nids[a] != nids[b] by {
            let a2 = if a < i { a } else { a + 1 };
            let b2 = if b < i { b } else { b + 1 };
            assert(nids[a] == ids[a2] && nids[b] == ids[b2]);
        }
    }
}

/// Queueing mail keeps mailbox keys unique.
pub proof fn lemma_enqueue_keeps_keys_unique(
    old: StoreView,
    new: StoreView,
    id: Seq<u8>,
    m: Seq<u8>,
    now: u64,
    r: Result<(), StoreError>,
)
    requires
        queue_ids(old.queues).no_duplicates(),
        enqueued(old, new, id, m, now, r),
    ensures
        queue_ids(new.queues).no_duplicates(),
{
    let ids = queue_ids(old.queues);
    let nids = queue_ids(new.queues);
    if m.len() <= old.limits.max_message_bytes {
        if has_id(ids, id) {
            let i = first_id(ids, id);
            assert(nids =~= ids.update(i, id));
            assert forall|a: int, b: int| 0 <= a < b < nids.len() implies nids[a] != nids[b] by {
                assert(ids[i] == id);
            }
        } else {
            assert(nids =~= ids.push(id));
            assert forall|a: int, b: int| 0 <= a < b < nids.len() implies nids[a] != nids[b] by {
                if b == ids.len() {
                    assert(ids[a] != id);
                }
            }
        }
    }
}

/// The bundles `k` fetches for `id` hand out, in order, and the store after
/// them.
pub open spec fn fetched_n(old: StoreView, id: Seq<u8>, k: nat) -> (Seq<Option<Seq<FieldV>>>, StoreView)
    decreases k,
{
    if k == 0 {
        (Seq::empty(), old)
    } else {
        let (bs, mid) = fetched_n(old, id, (k - 1) as nat);
        let (b, new) = fetched(mid, id);
        (bs.push(b), new)
    }
}

proof fn lemma_fetched_n(old: StoreView, id: Seq<u8>, i: int, k: nat)
    requires
        key_ids(old.keys).no_duplicates(),
        0 <= i < old.keys.len(),
        old.keys[i].0 == id,
        k <= old.keys[i].2.len(),
    ensures
        ({
            let e = old.keys[i];
            let (bs, new) = fetched_n(old, id, k);
            &&& bs.len() == k
            &&& forall|j: int| 0 <= j < k ==> #[trigger] bs[j] == Some(with_one_time(e.1, Some(e.2[j])))
            &&& new.keys == old.keys.update(i, (e.0, e.1, e.2.subrange(k as int, e.2.len() as int)))
        }),
    decreases k,
{
    let ids = key_ids(old.keys);
    let e = old.keys[i];
    if k == 0 {
        assert(e.2.subrange(0, e.2.len() as int) =~= e.2);
        assert(old.keys.update(i, (e.0, e.1, e.2)) =~= old.keys);
    } else {
        lemma_fetched_n(old, id, i, (k - 1) as nat);
        let (bs, mid) = fetched_n(old, id, (k - 1) as nat);
        let rest = e.2.subrange(k - 1, e.2.len() as int);
        assert(key_ids(mid.keys) =~= ids);
        assert(ids[i] == id);
        assert forall|j: int| 0 <= j < i implies #[trigger] ids[j] != id by {
            assert(ids[j] != ids[i]);
        }
        let f = first_id(ids, id);
        assert(0 <= f < ids.len() && ids[f] == id);
        assert(f == i);
        assert(mid.keys[i] == (e.0, e.1, rest));
        assert(rest[0] == e.2[k - 1]);
        assert(rest.drop_first() =~= e.2.subrange(k as int, e.2.len() as int));
        assert(mid.keys.update(i, (e.0, e.1, rest.drop_first())) =~= old.keys.update(
            i,
            (e.0, e.1, e.2.subrange(k as int, e.2.len() as int)),
        ));
        let bs2 = fetched_n(old, id, k).0;
        assert forall|j: int| 0 <= j < k implies #[trigger] bs2[j] == Some(with_one_time(e.1, Some(e.2[j]))) by {
            if j < k - 1 {
                assert(bs2[j] == bs[j]);
            }
        }
    }
}

/// Fetches hand a published pool out oldest first: the `j`-th of any run of
/// fetches for an identity gives its base bundle with the `j`-th one-time
/// prekey of the pool, and takes it out of the pool; once the pool is empty,
/// a fetch gives the base bundle with no one-time prekey and changes nothing.
pub proof fn lemma_fetches_in_order(old: StoreView, id: Seq<u8>, k: nat)
    requires
        ids_unique(old),
        has_id(key_ids(old.keys), id),
        k <= old.keys[first_id(key_ids(old.keys), id)].2.len(),
    ensures
        ({
            let i = first_id(key_ids(old.keys), id);
            let e = old.keys[i];
            let (bs, new) = fetched_n(old, id, k);
            &&& forall|j: int| 0 <= j < k ==> #[trigger] bs[j] == Some(with_one_time(e.1, Some(e.2[j])))
            &&& new.keys == old.keys.update(i, (e.0, e.1, e.2.subrange(k as int, e.2.len() as int)))
            &&& k == e.2.len() ==> fetched(new, id) == (Some(with_one_time(e.1, None)), new)
        }),
{
    let ids = key_ids(old.keys);
    let w = choose|w: int| 0 <= w < ids.len() && #[trigger] ids[w] == id;
    assert(forall|j: int| 0 <= j < w ==> #[trigger] ids[j] != id);
    let i = first_id(ids, id);
    assert(0 <= i < ids.len() && ids[i] == id);
    lemma_fetched_n(old, id, i, k);
    let e = old.keys[i];
    let new = fetched_n(old, id, k).1;
    if k == e.2.len() {
        assert(key_ids(new.keys) =~= ids);
        assert(forall|j: int| 0 <= j < i ==> #[trigger] ids[j] != id);
        let f = first_id(ids, id);
        assert(0 <= f < ids.len() && ids[f] == id);
        assert(new.keys[i].2.len() == 0);
    }
}

proof fn lemma_trim_bytes_suffix(q: Seq<(u64, Seq<u8>)>, max: int)
    ensures
        exists|k: int|
            0 <= k <= q.len() && #[trigger] q.subrange(k, q.len() as int) == trim_bytes(q, max) && (total_bytes(
                trim_bytes(q, max),
            ) <= max || k == q.len()) && (k > 0 ==> total_bytes(q.subrange(k - 1, q.len() as int)) > max),
    decreases q.len(),
{
    if total_bytes(q) > max && q.len() > 0 {
        let r = q.drop_first();
        lemma_trim_bytes_suffix(r, max);
        let k2 = choose|k: int|
            0 <= k <= r.len() && #[trigger] r.subrange(k, r.len() as int) == trim_bytes(r, max) && (total_bytes(
                trim_bytes(r, max),
            ) <= max || k == r.len()) && (k > 0 ==> total_bytes(r.subrange(k - 1, r.len() as int)) > max);
        let k = k2 + 1;
        assert(q.subrange(k, q.len() as int) =~= r.subrange(k2, r.len() as int));
        assert(q.subrange(k - 1, q.len() as int) =~= (if k2 > 0 {
            r.subrange(k2 - 1, r.len() as int)
        } else {
            q
        }));
    } else {
        assert(q.subrange(0, q.len() as int) =~= q);
    }
}

/// A mailbox keeps the longest run of its newest messages that fits both
/// caps: trimming leaves a suffix of the messages, within the count cap and
/// (unless nothing is left) within the byte cap, such that one message more
/// would break one of the caps.
pub proof fn lemma_trim_keeps_longest_suffix(q: Seq<(u64, Seq<u8>)>, max_n: nat, max_b: int)
    ensures
        exists|k: int|
            0 <= k <= q.len() && #[trigger] q.subrange(k, q.len() as int) == trim_bytes(trim_count(q, max_n as int), max_b)
                && q.len() - k <= max_n && (total_bytes(q.subrange(k, q.len() as int)) <= max_b || k == q.len()) && (
            k > 0 ==> (q.len() - (k - 1) > max_n || total_bytes(q.subrange(k - 1, q.len() as int)) > max_b)),
{
    let c = trim_count(q, max_n as int);
    let start: int = if q.len() > max_n { q.len() - max_n } else { 0 };
    assert(c =~= q.subrange(start, q.len() as int));
    lemma_trim_bytes_suffix(c, max_b);
    let k2 = choose|k: int|
        0 <= k <= c.len() && #[trigger] c.subrange(k, c.len() as int) == trim_bytes(c, max_b) && (total_bytes(
            trim_bytes(c, max_b),
        ) <= max_b || k == c.len()) && (k > 0 ==> total_bytes(c.subrange(k - 1, c.len() as int)) > max_b);
    let k = start + k2;
    assert(q.subrange(k, q.len() as int) =~= c.subrange(k2, c.len() as int));
    if k2 > 0 {
        assert(q.subrange(k - 1, q.len() as int) =~= c.subrange(k2 - 1, c.len() as int));
    }
}

/// A store restored from the records [`RelayStore::contents`] lists holds
/// the same published identities and mailboxes under the same limits, clean:
/// a store's keys are unique, so restoring drops nothing.
pub proof fn lemma_snapshot_round_trip(
    s: StoreView,
    keys: Seq<([u8; 32], PreKeyBundle, Vec<(u32, [u8; 32])>)>,
    queues: Seq<([u8; 32], Vec<(u64, Vec<u8>)>)>,
    restored: StoreView,
)
    requires
        ids_unique(s),
        key_records(keys) == s.keys,
        queue_records(queues) == s.queues,
        restored.keys == first_keys(key_records(keys)),
        restored.queues == first_queues(queue_records(queues)),
        restored.limits == s.limits,
        !restored.dirty,
    ensures
        restored == (StoreView { dirty: false, ..s }),
{
    lemma_first_keys(s.keys);
    lemma_first_queues(s.queues);
}

/// Whether a snapshot written in format `version` can be read: only the
/// current [`SNAPSHOT_VERSION`] can.
pub fn snapshot_version_supported(version: u8) -> (ok: bool)
    ensures
        ok == (version == SNAPSHOT_VERSION),
{
    version == SNAPSHOT_VERSION
}

/// Whether a snapshot is due: the store changed and at least
/// [`FLUSH_INTERVAL_SECS`] passed since the last write.
pub fn flush_due(dirty: bool, secs_since_last_flush: u64) -> (due: bool)
    ensures
        due == (dirty && secs_since_last_flush >= FLUSH_INTERVAL_SECS),
{
    dirty && secs_since_last_flush >= FLUSH_INTERVAL_SECS
}

/// Split an [`Account`]'s published material into the base bundle plus the
/// pool of one-time prekey publics, ready for [`RelayStore::publish`].
pub fn split_bundle(account: &Account) -> (r: (PreKeyBundle, OneTimePrekeyPublics))
    ensures
        r.0@ == with_one_time(crate::identity::spec_bundle(account@), None),
        crate::identity::bundle_signatures_ok(r.0),
        crate::identity::publics_of(r.1@, account@),
{
    let mut base = account.bundle();
    base.one_time_prekey = None;
    base.one_time_prekey_id = None;
    assert(base@ =~= with_one_time(crate::identity::spec_bundle(account@), None));
    (base, account.one_time_prekey_publics())
}

} // verus!
