//! Rotating anonymous inbox identifiers.
//!
//! Instead of addressing a mailbox by the recipient's stable identity key,
//! mail is queued under an *inbox ID* that rotates every epoch:
//!
//! ```text
//! inbox_id = SHA-256("Clarity-inbox-v1" ‖ identity_ed ‖ epoch_le64)
//! epoch    = unix_seconds / 86 400          (24-hour windows, UTC)
//! ```
//!
//! Senders derive the recipient's current inbox ID themselves, so nothing
//! extra is exchanged; the relay sees only unlinked 32-byte mailbox keys that
//! change daily. Clock skew across an epoch boundary is absorbed by polling a
//! window of adjacent epochs (see [`inbox_window`]).
use vstd::prelude::*;

use crate::codec::write_u64;
use crate::crypto::{sha256, spec_sha256};
use vstd::bytes::{spec_u64_from_le_bytes, spec_u64_to_le_bytes};

verus! {

/// Length of one inbox epoch, in seconds (24 hours).
pub const INBOX_EPOCH_SECONDS: u64 = 86_400;

/// Domain separation for inbox IDs: `"Clarity-inbox-v1"`.
pub const INBOX_CONTEXT: [u8; 16] = [67, 108, 97, 114, 105, 116, 121, 45, 105, 110, 98, 111, 120, 45, 118, 49];

/// The inbox ID of an identity for an epoch.
pub open spec fn spec_inbox_id(identity_ed: Seq<u8>, epoch: u64) -> Seq<u8> {
    spec_sha256(INBOX_CONTEXT@ + identity_ed + spec_u64_to_le_bytes(epoch))
}

/// An inbox ID is the SHA-256 of the context, the identity and eight bytes
/// that read back, little-endian, as the epoch itself: the ID commits to
/// exactly its own epoch.
pub proof fn lemma_inbox_id_commits_to_epoch(identity_ed: Seq<u8>, epoch: u64)
    ensures
        exists|pre: Seq<u8>|
            #[trigger] spec_sha256(pre) == spec_inbox_id(identity_ed, epoch) && pre.len() == 24 + identity_ed.len()
                && pre.subrange(0, 16) == INBOX_CONTEXT@ && pre.subrange(16, 16 + identity_ed.len() as int)
                == identity_ed && spec_u64_from_le_bytes(pre.subrange(16 + identity_ed.len() as int, pre.len() as int))
                == epoch,
{
    vstd::bytes::lemma_auto_spec_u64_to_from_le_bytes();
    let pre = INBOX_CONTEXT@ + identity_ed + spec_u64_to_le_bytes(epoch);
    assert(pre.subrange(0, 16) =~= INBOX_CONTEXT@);
    assert(pre.subrange(16, 16 + identity_ed.len() as int) =~= identity_ed);
    assert(pre.subrange(16 + identity_ed.len() as int, pre.len() as int) =~= spec_u64_to_le_bytes(epoch));
    assert(spec_sha256(pre) == spec_inbox_id(identity_ed, epoch));
}

/// Inbox IDs rotate: for one identity, two different epochs hash two
/// different inputs, so their IDs differ wherever SHA-256 does not collide.
pub proof fn lemma_inbox_ids_rotate(identity_ed: Seq<u8>, e1: u64, e2: u64)
    requires
        e1 != e2,
    ensures
        exists|p1: Seq<u8>, p2: Seq<u8>|
            p1 != p2 && #[trigger] spec_sha256(p1) == spec_inbox_id(identity_ed, e1) && #[trigger] spec_sha256(p2)
                == spec_inbox_id(identity_ed, e2) && p1.len() == p2.len() && p1.subrange(0, 16 + identity_ed.len() as int)
                == p2.subrange(0, 16 + identity_ed.len() as int),
{
    vstd::bytes::lemma_auto_spec_u64_to_from_le_bytes();
    let p1 = INBOX_CONTEXT@ + identity_ed + spec_u64_to_le_bytes(e1);
    let p2 = INBOX_CONTEXT@ + identity_ed + spec_u64_to_le_bytes(e2);
    let n = 16 + identity_ed.len() as int;
    assert(p1.subrange(n, p1.len() as int) =~= spec_u64_to_le_bytes(e1));
    assert(p2.subrange(n, p2.len() as int) =~= spec_u64_to_le_bytes(e2));
    assert(p1.subrange(0, n) =~= p2.subrange(0, n));
    assert(p1 != p2);
    assert(spec_sha256(p1) == spec_inbox_id(identity_ed, e1));
    assert(spec_sha256(p2) == spec_inbox_id(identity_ed, e2));
}

/// The inbox epoch containing the given unix timestamp (seconds).
pub fn epoch_for_unix(unix_seconds: u64) -> (epoch: u64)
    ensures
        epoch == unix_seconds / INBOX_EPOCH_SECONDS,
{
    unix_seconds / INBOX_EPOCH_SECONDS
}

/// The rotating inbox ID for `identity_ed` during `epoch`.
pub fn inbox_id(identity_ed: &[u8; 32], epoch: u64) -> (id: [u8; 32])
    ensures
        id@ == spec_inbox_id(identity_ed@, epoch),
{
    let mut buf = crate::bytes::concat(INBOX_CONTEXT.as_slice(), identity_ed.as_slice());
    write_u64(&mut buf, epoch);
    sha256(buf.as_slice())
}

/// Inbox IDs for every epoch in `from_epoch..=to_epoch`, oldest first. Used by
/// receivers to poll a catch-up window so mail queued under an older epoch's
/// inbox is still collected. Empty if the range is inverted.
pub fn inbox_window(identity_ed: &[u8; 32], from_epoch: u64, to_epoch: u64) -> (ids: Vec<[u8; 32]>)
    requires
        from_epoch > to_epoch || to_epoch - from_epoch < usize::MAX,
    ensures
        from_epoch > to_epoch ==> ids@.len() == 0,
        from_epoch <= to_epoch ==> ids@.len() == to_epoch - from_epoch + 1,
        forall|i: int|
            0 <= i < ids@.len() ==> (#[trigger] ids@[i])@ == spec_inbox_id(identity_ed@, (from_epoch + i) as u64),
{
    let mut ids: Vec<[u8; 32]> = Vec::new();
    if from_epoch > to_epoch {
        return ids;
    }
    let mut e = from_epoch;
    loop
        invariant
            from_epoch <= e <= to_epoch,
            ids@.len() == e - from_epoch,
            forall|i: int|
                0 <= i < ids@.len() ==> (#[trigger] ids@[i])@ == spec_inbox_id(identity_ed@, (from_epoch + i) as u64),
        decreases to_epoch - e,
    {
        ids.push(inbox_id(identity_ed, e));
        if e == to_epoch {
            return ids;
        }
        e = e + 1;
    }
}

} // verus!
