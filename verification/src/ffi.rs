//! Byte layouts shared with the C ABI wrapper.
use vstd::prelude::*;

use crate::codec::{is_prefix, write_u32};
use crate::crypto::spec_ed25519_key_valid;
use crate::identity::{bundle_signatures_ok, verify_bundle};
use crate::wire::{spec_bundle_encoding, PreKeyBundle};
use vstd::bytes::spec_u32_to_le_bytes;

verus! {

/// The encoding of a list of byte buffers: each item's length as a
/// little-endian `u32` (truncated, as a `u32` cast does), then its bytes.
pub open spec fn items_encoding(items: Seq<Seq<u8>>) -> Seq<u8>
    decreases items.len(),
{
    if items.len() == 0 {
        Seq::empty()
    } else {
        items_encoding(items.drop_last()) + spec_u32_to_le_bytes(items.last().len() as u32) + items.last()
    }
}

pub open spec fn vecs_view(v: Seq<Vec<u8>>) -> Seq<Seq<u8>> {
    v.map_values(|b: Vec<u8>| b@)
}

/// Encode a list of byte buffers as `[u32 count]( [u32 len][bytes] )*` (all
/// little-endian). Used to return multiple messages/frames across the FFI in a
/// single buffer the host side can split without a serialization library.
pub fn encode_byte_list(items: &[Vec<u8>]) -> (out: Vec<u8>)
    ensures
        out@ == spec_u32_to_le_bytes(items@.len() as u32) + items_encoding(vecs_view(items@)),
{
    let mut out: Vec<u8> = Vec::new();
    write_u32(&mut out, items.len() as u32);
    let ghost head = out@;
    let ghost iv = vecs_view(items@);
    let mut i: usize = 0;
    while i < items.len()
        invariant
            i <= items@.len(),
            iv == vecs_view(items@),
            out@ == head + items_encoding(iv.subrange(0, i as int)),
        decreases items@.len() - i,
    {
        let item = &items[i];
        write_u32(&mut out, item.len() as u32);
        crate::bytes::push_all(&mut out, item.as_slice());
        proof {
            let sub = iv.subrange(0, i + 1);
            assert(sub.drop_last() =~= iv.subrange(0, i as int));
            assert(sub.last() == item@);
            assert(out@ =~= head + items_encoding(sub));
        }
        i = i + 1;
    }
    assert(iv.subrange(0, i as int) =~= iv);
    out
}

/// A bundle whose identity key is a curve point and whose signatures all
/// verify.
pub open spec fn bundle_trusted(b: PreKeyBundle) -> bool {
    spec_ed25519_key_valid(b.identity_ed@) && bundle_signatures_ok(b)
}

/// `bytes` begin with the encoding of a trusted bundle with these identity
/// keys.
pub open spec fn trusted_keys_in(bytes: Seq<u8>, ed: Seq<u8>, dh: Seq<u8>) -> bool {
    exists|b: PreKeyBundle|
        #[trigger] is_prefix(spec_bundle_encoding(b), bytes) && bundle_trusted(b) && b.identity_ed@ == ed
            && b.identity_dh@ == dh
}

/// Decode **and signature-verify** an encoded prekey bundle, giving its
/// owner's identity keys (Ed25519, then the X25519 key sealed envelopes are
/// addressed to); `None` when the bytes are no bundle or a signature fails.
pub fn bundle_identity_keys(bytes: &[u8]) -> (r: Option<([u8; 32], [u8; 32])>)
    ensures
        match r {
            Some((ed, dh)) => trusted_keys_in(bytes@, ed@, dh@),
            None => forall|b: PreKeyBundle| #[trigger] is_prefix(spec_bundle_encoding(b), bytes@) ==> !bundle_trusted(b),
        },
{
    let bundle = match PreKeyBundle::decode(bytes) {
        Ok(b) => b,
        Err(_) => return None,
    };
    match verify_bundle(&bundle) {
        Ok(()) => {
            assert(is_prefix(spec_bundle_encoding(bundle), bytes@));
            Some((bundle.identity_ed, bundle.identity_dh))
        },
        Err(_) => {
            proof {
                assert forall|b: PreKeyBundle| #[trigger] is_prefix(spec_bundle_encoding(b), bytes@) implies !bundle_trusted(b) by {
                    crate::wire::lemma_bundle_encoding_unique(b, bundle, bytes@);
                }
            }
            None
        },
    }
}

} // verus!
