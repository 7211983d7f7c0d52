//! Group messaging on MLS (RFC 9420) through OpenMLS.
//!
//! A [`GroupClient`] is one user's long-lived MLS identity plus its key store
//! (an OpenMLS provider). It publishes [`GroupClient::key_package`] bytes the
//! way 1:1 identities publish prekey bundles, and its whole state persists via
//! [`GroupClient::export_state`] / [`GroupClient::import_state`].
//!
//! A [`Group`] is one conversation: adding a member yields a commit (for the
//! existing members) and a welcome (for the newcomer), and every inbound blob
//! goes through [`Group::process`]. All bytes crossing these APIs are
//! TLS-serialized MLS messages; fan-out is the caller's job.
//!
//! A client's saved state is a short list of byte strings (identity,
//! signature public key, key store), each length-prefixed as
//! `[u32-le len][bytes]`; the key store itself is a count followed by
//! length-prefixed keys and values. This module writes and reads that framing
//! and proves it reads back what it wrote.
//!
//! OpenMLS writes a provider's key store through a lock behind a shared
//! reference. Here every call that may write it takes the provider (and so
//! the client) by `&mut`, so that a contract never reads an unchanged store
//! into a call that changed it.
use vstd::prelude::*;

use crate::codec::write_u32;
use openmls::prelude::{
    BasicCredential, Ciphersuite, CredentialWithKey, GroupId, KeyPackage, KeyPackageIn, LeafNodeIndex,
    MlsGroup, MlsGroupCreateConfig, MlsGroupJoinConfig, MlsMessageBodyIn, MlsMessageIn, OpenMlsProvider,
    ProcessedMessageContent, ProtocolVersion, StagedWelcome,
};
use openmls_basic_credential::SignatureKeyPair;
use openmls_rust_crypto::OpenMlsRustCrypto;
use tls_codec::{Deserialize, Serialize};
use vstd::bytes::{spec_u32_from_le_bytes, spec_u32_to_le_bytes};

verus! {

/// `[u32-le len][bytes]` for each field, concatenated.
pub open spec fn frame_spec(fields: Seq<Seq<u8>>) -> Seq<u8>
    decreases fields.len(),
{
    if fields.len() == 0 {
        Seq::empty()
    } else {
        spec_u32_to_le_bytes(fields[0].len() as u32) + fields[0] + frame_spec(fields.drop_first())
    }
}

/// Every field is short enough for its length prefix.
pub open spec fn fields_fit(fields: Seq<Seq<u8>>) -> bool {
    forall|i: int| 0 <= i < fields.len() ==> #[trigger] fields[i].len() <= u32::MAX
}

pub open spec fn slices_view(v: Seq<&[u8]>) -> Seq<Seq<u8>> {
    v.map_values(|s: &[u8]| s@)
}

pub open spec fn vecs_view(v: Seq<Vec<u8>>) -> Seq<Seq<u8>> {
    v.map_values(|s: Vec<u8>| s@)
}

proof fn lemma_u32_le(x: u32)
    ensures
        spec_u32_to_le_bytes(x).len() == 4,
        spec_u32_from_le_bytes(spec_u32_to_le_bytes(x)) == x,
{
    vstd::bytes::lemma_auto_spec_u32_to_from_le_bytes();
    assert(spec_u32_to_le_bytes(x).len() == 4);
}

/// Appending a field extends the framing at the end.
pub proof fn lemma_frame_push(fields: Seq<Seq<u8>>, f: Seq<u8>)
    ensures
        frame_spec(fields.push(f)) == frame_spec(fields) + spec_u32_to_le_bytes(f.len() as u32) + f,
    decreases fields.len(),
{
    if fields.len() == 0 {
        assert(fields.push(f).drop_first() =~= Seq::<Seq<u8>>::empty());
        assert(frame_spec(Seq::<Seq<u8>>::empty()) =~= Seq::<u8>::empty());
        assert(frame_spec(fields) =~= Seq::<u8>::empty());
        assert(fields.push(f)[0] == f);
        assert(frame_spec(fields.push(f)) =~= frame_spec(fields) + spec_u32_to_le_bytes(f.len() as u32) + f);
    } else {
        lemma_frame_push(fields.drop_first(), f);
        assert(fields.push(f).drop_first() =~= fields.drop_first().push(f));
        assert(frame_spec(fields.push(f)) =~= frame_spec(fields) + spec_u32_to_le_bytes(f.len() as u32) + f);
    }
}

/// Length-prefix each field as `[u32-le len][bytes]` and concatenate.
pub fn frame(fields: &[&[u8]]) -> (out: Vec<u8>)
    ensures
        out@ == frame_spec(slices_view(fields@)),
{
    let ghost fv = slices_view(fields@);
    let mut out: Vec<u8> = Vec::new();
    let mut i: usize = 0;
    assert(fv.subrange(0, 0) =~= Seq::<Seq<u8>>::empty());
    while i < fields.len()
        invariant
            i <= fields@.len(),
            fv == slices_view(fields@),
            out@ == frame_spec(fv.subrange(0, i as int)),
        decreases fields@.len() - i,
    {
        let f = fields[i];
        write_u32(&mut out, f.len() as u32);
        crate::bytes::push_all(&mut out, f);
        proof {
            lemma_frame_push(fv.subrange(0, i as int), f@);
            assert(fv.subrange(0, i + 1) =~= fv.subrange(0, i as int).push(f@));
        }
        i = i + 1;
    }
    assert(fv.subrange(0, i as int) =~= fv);
    out
}

/// A tiny forward-only reader for `[u32-le len][bytes]` framing.
pub struct Cursor<'a> {
    bytes: &'a [u8],
    i: usize,
}

impl<'a> Cursor<'a> {
    #[verifier::type_invariant]
    spec fn inv(self) -> bool {
        self.i <= self.bytes@.len()
    }

    /// The bytes being read.
    pub closed spec fn data(&self) -> Seq<u8> {
        self.bytes@
    }

    /// How far reading has got.
    pub closed spec fn pos(&self) -> int {
        self.i as int
    }

    /// A reader at the start of `bytes`.
    pub fn new(bytes: &'a [u8]) -> (c: Self)
        ensures
            c.data() == bytes@,
            c.pos() == 0,
    {
        Cursor { bytes, i: 0 }
    }

    /// Read a little-endian `u32`; `None` (and no progress) when fewer than 4
    /// bytes remain.
    pub fn read_u32(&mut self) -> (r: Option<u32>)
        ensures
            final(self).data() == old(self).data(),
            final(self).pos() <= final(self).data().len(),
            match r {
                Some(v) => old(self).pos() + 4 <= old(self).data().len() && final(self).pos() == old(self).pos() + 4
                    && spec_u32_to_le_bytes(v) == old(self).data().subrange(old(self).pos(), old(self).pos() + 4),
                None => old(self).pos() + 4 > old(self).data().len() && final(self).pos() == old(self).pos(),
            },
    {
        proof {
            use_type_invariant(&*self);
        }
        if self.bytes.len() - self.i < 4 {
            return None;
        }
        let end = self.i + 4;
        let v = crate::codec::read_u32(self.bytes, self.i);
        self.i = end;
        Some(v)
    }

    /// Read a length-prefixed byte string. The length prefix is consumed even
    /// when the bytes it announces are not all there (then `None`).
    pub fn read_bytes(&mut self) -> (r: Option<&'a [u8]>)
        ensures
            final(self).data() == old(self).data(),
            final(self).pos() <= final(self).data().len(),
            ({
                let t = old(self).data();
                let p = old(self).pos();
                match r {
                    Some(b) => b@.len() <= u32::MAX && p + 4 + b@.len() <= t.len() && spec_u32_to_le_bytes(b@.len() as u32) == t.subrange(
                        p,
                        p + 4,
                    ) && b@ == t.subrange(p + 4, p + 4 + b@.len()) && final(self).pos() == p + 4 + b@.len(),
                    None => (p + 4 > t.len() && final(self).pos() == p) || (p + 4 <= t.len() && p + 4
                        + spec_u32_from_le_bytes(t.subrange(p, p + 4)) > t.len() && final(self).pos() == p + 4),
                }
            }),
    {
        proof {
            use_type_invariant(&*self);
        }
        let len = match self.read_u32() {
            Some(l) => l,
            None => return None,
        };
        proof {
            use_type_invariant(&*self);
        }
        proof {
            lemma_u32_le(len);
        }
        let len = len as usize;
        if self.bytes.len() - self.i < len {
            return None;
        }
        let end = self.i + len;
        let out = vstd::slice::slice_subrange(self.bytes, self.i, end);
        self.i = end;
        Some(out)
    }

    /// Whether everything has been read.
    pub fn is_done(&self) -> (b: bool)
        ensures
            b == (self.pos() == self.data().len()),
    {
        proof {
            use_type_invariant(self);
        }
        self.i == self.bytes.len()
    }
}

proof fn lemma_frame_split(fields: Seq<Seq<u8>>, k: int)
    requires
        0 <= k <= fields.len(),
    ensures
        frame_spec(fields) == frame_spec(fields.take(k)) + frame_spec(fields.skip(k)),
    decreases k,
{
    if k > 0 {
        lemma_frame_split(fields.drop_first(), k - 1);
        assert(fields.drop_first().take(k - 1) =~= fields.take(k).drop_first());
        assert(fields.drop_first().skip(k - 1) =~= fields.skip(k));
        assert(fields.take(k)[0] == fields[0]);
        assert(frame_spec(fields.take(k)) == spec_u32_to_le_bytes(fields[0].len() as u32) + fields[0] + frame_spec(
            fields.take(k).drop_first(),
        ));
    } else {
        assert(fields.take(0) =~= Seq::<Seq<u8>>::empty());
        assert(fields.skip(0) =~= fields);
    }
}

proof fn lemma_frame_head(fields: Seq<Seq<u8>>)
    requires
        fields.len() > 0,
        fields[0].len() <= u32::MAX,
    ensures
        frame_spec(fields).subrange(0, 4) == spec_u32_to_le_bytes(fields[0].len() as u32),
        frame_spec(fields).subrange(4, 4 + fields[0].len() as int) == fields[0],
        frame_spec(fields).len() >= 4 + fields[0].len(),
{
    lemma_u32_le(fields[0].len() as u32);
}

/// The `k`-th field of a framing starts right after the first `k` fields.
proof fn lemma_frame_at(fields: Seq<Seq<u8>>, k: int)
    requires
        0 <= k < fields.len(),
        fields_fit(fields),
    ensures
        ({
            let p = frame_spec(fields.take(k)).len() as int;
            let t = frame_spec(fields);
            &&& p + 4 + fields[k].len() <= t.len()
            &&& t.subrange(p, p + 4) == spec_u32_to_le_bytes(fields[k].len() as u32)
            &&& t.subrange(p + 4, p + 4 + fields[k].len()) == fields[k]
            &&& frame_spec(fields.take(k + 1)).len() == p + 4 + fields[k].len()
        }),
{
    lemma_frame_split(fields, k);
    lemma_frame_split(fields, k + 1);
    let rest = fields.skip(k);
    assert(rest[0] == fields[k]);
    lemma_frame_head(rest);
    let p = frame_spec(fields.take(k)).len() as int;
    let t = frame_spec(fields);
    assert(t.subrange(p, p + 4) =~= frame_spec(rest).subrange(0, 4));
    assert(t.subrange(p + 4, p + 4 + fields[k].len()) =~= frame_spec(rest).subrange(4, 4 + fields[k].len() as int));
    assert(fields.take(k + 1) =~= fields.take(k).push(fields[k]));
    lemma_frame_push(fields.take(k), fields[k]);
    lemma_u32_le(fields[k].len() as u32);
}

/// Inverse of [`frame`]: exactly `count` fields, all bytes consumed; `None`
/// exactly when `bytes` is not the framing of `count` fields.
pub fn unframe(bytes: &[u8], count: usize) -> (r: Option<Vec<&[u8]>>)
    ensures
        match r {
            Some(parts) => parts@.len() == count && frame_spec(slices_view(parts@)) == bytes@ && fields_fit(
                slices_view(parts@),
            ),
            None => forall|fs: Seq<Seq<u8>>|
                fs.len() == count && fields_fit(fs) ==> #[trigger] frame_spec(fs) != bytes@,
        },
{
    let mut cur = Cursor::new(bytes);
    let mut out: Vec<&[u8]> = Vec::new();
    let mut k: usize = 0;
    assert(slices_view(out@) =~= Seq::<Seq<u8>>::empty());
    while k < count
        invariant
            k <= count,
            cur.data() == bytes@,
            out@.len() == k,
            cur.pos() == frame_spec(slices_view(out@)).len(),
            cur.pos() <= bytes@.len(),
            bytes@.subrange(0, cur.pos()) == frame_spec(slices_view(out@)),
            fields_fit(slices_view(out@)),
            forall|fs: Seq<Seq<u8>>|
                fs.len() == count && fields_fit(fs) && #[trigger] frame_spec(fs) == bytes@ ==> fs.take(k as int)
                    == slices_view(out@),
        decreases count - k,
    {
        let ghost before = slices_view(out@);
        let ghost p = cur.pos();
        match cur.read_bytes() {
            Some(b) => {
                out.push(b);
                proof {
                    let now = slices_view(out@);
                    assert(now =~= before.push(b@));
                    lemma_frame_push(before, b@);
                    lemma_u32_le(b@.len() as u32);
                    assert(bytes@.subrange(0, cur.pos()) =~= bytes@.subrange(0, p) + bytes@.subrange(p, p + 4)
                        + bytes@.subrange(p + 4, cur.pos()));
                    assert forall|fs: Seq<Seq<u8>>|
                        fs.len() == count && fields_fit(fs) && #[trigger] frame_spec(fs) == bytes@ implies fs.take(
                        k + 1,
                    ) == now by {
                        assert(fs.take(k as int) == before);
                        lemma_frame_at(fs, k as int);
                        lemma_u32_le(fs[k as int].len() as u32);
                        lemma_u32_le(b@.len() as u32);
                        assert(fs[k as int].len() == b@.len()) by {
                            assert(spec_u32_from_le_bytes(spec_u32_to_le_bytes(fs[k as int].len() as u32))
                                == fs[k as int].len());
                            assert(spec_u32_from_le_bytes(spec_u32_to_le_bytes(b@.len() as u32)) == b@.len());
                        }
                        assert(fs.take(k + 1) =~= fs.take(k as int).push(fs[k as int]));
                    }
                    assert forall|i: int| 0 <= i < now.len() implies #[trigger] now[i].len() <= u32::MAX by {
                        if i < before.len() {
                            assert(now[i] == before[i]);
                        }
                    }
                }
            },
            None => {
                proof {
                    assert forall|fs: Seq<Seq<u8>>|
                        fs.len() == count && fields_fit(fs) implies #[trigger] frame_spec(fs) != bytes@ by {
                        if frame_spec(fs) == bytes@ {
                            assert(fs.take(k as int) == before);
                            lemma_frame_at(fs, k as int);
                            lemma_u32_le(fs[k as int].len() as u32);
                            assert(spec_u32_from_le_bytes(spec_u32_to_le_bytes(fs[k as int].len() as u32))
                                == fs[k as int].len());
                        }
                    }
                }
                return None;
            },
        }
        k = k + 1;
    }
    if !cur.is_done() {
        proof {
            assert forall|fs: Seq<Seq<u8>>|
                fs.len() == count && fields_fit(fs) implies #[trigger] frame_spec(fs) != bytes@ by {
                if frame_spec(fs) == bytes@ {
                    assert(fs.take(count as int) =~= fs);
                }
            }
        }
        return None;
    }
    proof {
        assert(bytes@.subrange(0, cur.pos()) =~= bytes@);
    }
    Some(out)
}

// ------------------------------------------------------------ key store

/// The keys and values of a key store, one field each, in order.
pub open spec fn flatten_pairs(entries: Seq<(Seq<u8>, Seq<u8>)>) -> Seq<Seq<u8>>
    decreases entries.len(),
{
    if entries.len() == 0 {
        Seq::empty()
    } else {
        flatten_pairs(entries.drop_last()).push(entries.last().0).push(entries.last().1)
    }
}

/// A key store's saved form: the entry count as a little-endian `u32`, then
/// each key and value length-prefixed.
pub open spec fn store_encoding(entries: Seq<(Seq<u8>, Seq<u8>)>) -> Seq<u8> {
    spec_u32_to_le_bytes(entries.len() as u32) + frame_spec(flatten_pairs(entries))
}

/// Every key and value fits its length prefix, and the count fits its own.
pub open spec fn entries_fit(entries: Seq<(Seq<u8>, Seq<u8>)>) -> bool {
    &&& entries.len() <= u32::MAX
    &&& forall|i: int| 0 <= i < entries.len() ==> (#[trigger] entries[i]).0.len() <= u32::MAX && entries[i].1.len() <= u32::MAX
}

pub open spec fn pairs_view(v: Seq<(Vec<u8>, Vec<u8>)>) -> Seq<(Seq<u8>, Seq<u8>)> {
    v.map_values(|e: (Vec<u8>, Vec<u8>)| (e.0@, e.1@))
}

proof fn lemma_flatten_len(entries: Seq<(Seq<u8>, Seq<u8>)>)
    ensures
        flatten_pairs(entries).len() == 2 * entries.len(),
        forall|i: int|
            #![trigger entries[i]]
            0 <= i < entries.len() ==> flatten_pairs(entries)[2 * i] == entries[i].0 && flatten_pairs(entries)[2 * i + 1]
                == entries[i].1,
    decreases entries.len(),
{
    if entries.len() > 0 {
        lemma_flatten_len(entries.drop_last());
        let f = flatten_pairs(entries);
        let g = flatten_pairs(entries.drop_last());
        assert forall|i: int|
            #![trigger entries[i]]
            0 <= i < entries.len() implies flatten_pairs(entries)[2 * i] == entries[i].0 && flatten_pairs(entries)[2
                * i + 1] == entries[i].1 by {
            if i < entries.len() - 1 {
                assert(entries.drop_last()[i] == entries[i]);
                assert(g[2 * i] == entries[i].0);
                assert(f[2 * i] == g[2 * i]);
                assert(f[2 * i + 1] == g[2 * i + 1]);
            }
        }
    }
}

proof fn lemma_flatten_fit(entries: Seq<(Seq<u8>, Seq<u8>)>)
    requires
        entries_fit(entries),
    ensures
        fields_fit(flatten_pairs(entries)),
{
    lemma_flatten_len(entries);
    let f = flatten_pairs(entries);
    assert forall|j: int| 0 <= j < f.len() implies #[trigger] f[j].len() <= u32::MAX by {
        let i = j / 2;
        assert(0 <= i < entries.len());
        assert(f[2 * i] == entries[i].0 && f[2 * i + 1] == entries[i].1);
        assert(entries[i].0.len() <= u32::MAX && entries[i].1.len() <= u32::MAX);
        if j % 2 == 0 {
            assert(j == 2 * i);
        } else {
            assert(j == 2 * i + 1);
        }
    }
}

/// A framing holds at least four bytes per field.
proof fn lemma_frame_len(fields: Seq<Seq<u8>>)
    ensures
        frame_spec(fields).len() >= 4 * fields.len(),
    decreases fields.len(),
{
    if fields.len() > 0 {
        lemma_frame_len(fields.drop_first());
        lemma_u32_le(fields[0].len() as u32);
    }
}

/// Framings of the same number of fitting fields are equal only when the
/// fields are.
pub proof fn lemma_frame_injective(a: Seq<Seq<u8>>, b: Seq<Seq<u8>>)
    requires
        a.len() == b.len(),
        fields_fit(a),
        fields_fit(b),
        frame_spec(a) == frame_spec(b),
    ensures
        a == b,
    decreases a.len(),
{
    if a.len() > 0 {
        lemma_frame_head(a);
        lemma_frame_head(b);
        lemma_u32_le(a[0].len() as u32);
        lemma_u32_le(b[0].len() as u32);
        let t = frame_spec(a);
        assert(spec_u32_to_le_bytes(a[0].len() as u32) == spec_u32_to_le_bytes(b[0].len() as u32));
        assert(a[0].len() == b[0].len());
        assert(a[0] == b[0]);
        let n = 4 + a[0].len();
        assert(frame_spec(a.drop_first()) =~= t.subrange(n as int, t.len() as int));
        assert(frame_spec(b.drop_first()) =~= frame_spec(b).subrange(n as int, t.len() as int));
        assert(fields_fit(a.drop_first())) by {
            assert forall|i: int| 0 <= i < a.drop_first().len() implies #[trigger] a.drop_first()[i].len() <= u32::MAX by {
                assert(a.drop_first()[i] == a[i + 1]);
            }
        }
        assert(fields_fit(b.drop_first())) by {
            assert forall|i: int| 0 <= i < b.drop_first().len() implies #[trigger] b.drop_first()[i].len() <= u32::MAX by {
                assert(b.drop_first()[i] == b[i + 1]);
            }
        }
        lemma_frame_injective(a.drop_first(), b.drop_first());
        assert(a =~= b) by {
            assert forall|i: int| 0 <= i < a.len() implies a[i] == b[i] by {
                if i > 0 {
                    assert(a[i] == a.drop_first()[i - 1]);
                    assert(b[i] == b.drop_first()[i - 1]);
                }
            }
        }
    }
}

/// A framing of fitting fields that begins another framing of as many
/// fitting fields frames the same fields.
proof fn lemma_frame_prefix(a: Seq<Seq<u8>>, b: Seq<Seq<u8>>)
    requires
        a.len() == b.len(),
        fields_fit(a),
        fields_fit(b),
        frame_spec(a).len() <= frame_spec(b).len(),
        frame_spec(b).subrange(0, frame_spec(a).len() as int) == frame_spec(a),
    ensures
        a == b,
    decreases a.len(),
{
    if a.len() > 0 {
        lemma_frame_head(a);
        lemma_frame_head(b);
        lemma_u32_le(a[0].len() as u32);
        lemma_u32_le(b[0].len() as u32);
        let ta = frame_spec(a);
        let tb = frame_spec(b);
        assert(ta.subrange(0, 4) =~= tb.subrange(0, 4)) by {
            assert forall|i: int| 0 <= i < 4 implies ta.subrange(0, 4)[i] == tb.subrange(0, 4)[i] by {
                assert(tb.subrange(0, ta.len() as int)[i] == tb[i]);
            }
        }
        assert(a[0].len() == b[0].len());
        let n = 4 + a[0].len();
        assert(a[0] =~= b[0]) by {
            assert forall|i: int| 0 <= i < a[0].len() implies a[0][i] == b[0][i] by {
                assert(ta.subrange(4, n as int)[i] == ta[4 + i]);
                assert(tb.subrange(4, n as int)[i] == tb[4 + i]);
                assert(tb.subrange(0, ta.len() as int)[4 + i] == tb[4 + i]);
            }
        }
        let ra = a.drop_first();
        let rb = b.drop_first();
        assert(frame_spec(ra) =~= ta.subrange(n as int, ta.len() as int));
        assert(frame_spec(rb) =~= tb.subrange(n as int, tb.len() as int));
        assert(frame_spec(rb).subrange(0, frame_spec(ra).len() as int) =~= frame_spec(ra)) by {
            assert forall|i: int| 0 <= i < frame_spec(ra).len() implies frame_spec(rb).subrange(
                0,
                frame_spec(ra).len() as int,
            )[i] == frame_spec(ra)[i] by {
                assert(tb.subrange(0, ta.len() as int)[n + i] == tb[n + i]);
            }
        }
        assert(fields_fit(ra)) by {
            assert forall|i: int| 0 <= i < ra.len() implies #[trigger] ra[i].len() <= u32::MAX by {
                assert(ra[i] == a[i + 1]);
            }
        }
        assert(fields_fit(rb)) by {
            assert forall|i: int| 0 <= i < rb.len() implies #[trigger] rb[i].len() <= u32::MAX by {
                assert(rb[i] == b[i + 1]);
            }
        }
        lemma_frame_prefix(ra, rb);
        assert(a =~= b) by {
            assert forall|i: int| 0 <= i < a.len() implies a[i] == b[i] by {
                if i > 0 {
                    assert(a[i] == ra[i - 1]);
                    assert(b[i] == rb[i - 1]);
                }
            }
        }
    }
}

/// The entries a flattening came from.
proof fn lemma_flatten_injective(a: Seq<(Seq<u8>, Seq<u8>)>, b: Seq<(Seq<u8>, Seq<u8>)>)
    requires
        flatten_pairs(a) == flatten_pairs(b),
    ensures
        a == b,
{
    lemma_flatten_len(a);
    lemma_flatten_len(b);
    assert forall|i: int| 0 <= i < a.len() implies a[i] == b[i] by {
        assert(flatten_pairs(a)[2 * i] == a[i].0);
        assert(flatten_pairs(b)[2 * i] == b[i].0);
        assert(flatten_pairs(a)[2 * i + 1] == a[i].1);
        assert(flatten_pairs(b)[2 * i + 1] == b[i].1);
    }
    assert(a =~= b);
}

/// The saved form of a key store determines the store.
pub proof fn lemma_store_encoding_injective(a: Seq<(Seq<u8>, Seq<u8>)>, b: Seq<(Seq<u8>, Seq<u8>)>)
    requires
        entries_fit(a),
        entries_fit(b),
        store_encoding(a) == store_encoding(b),
    ensures
        a == b,
{
    lemma_u32_le(a.len() as u32);
    lemma_u32_le(b.len() as u32);
    let ta = store_encoding(a);
    assert(ta.subrange(0, 4) =~= spec_u32_to_le_bytes(a.len() as u32));
    assert(store_encoding(b).subrange(0, 4) =~= spec_u32_to_le_bytes(b.len() as u32));
    assert(a.len() == b.len());
    assert(frame_spec(flatten_pairs(a)) =~= ta.subrange(4, ta.len() as int));
    assert(frame_spec(flatten_pairs(b)) =~= store_encoding(b).subrange(4, ta.len() as int));
    lemma_flatten_len(a);
    lemma_flatten_len(b);
    lemma_flatten_fit(a);
    lemma_flatten_fit(b);
    lemma_frame_injective(flatten_pairs(a), flatten_pairs(b));
    lemma_flatten_injective(a, b);
}

/// Write a key store's entries in their saved form.
pub fn encode_store(entries: &[(Vec<u8>, Vec<u8>)]) -> (out: Vec<u8>)
    ensures
        out@ == store_encoding(pairs_view(entries@)),
{
    let ghost ev = pairs_view(entries@);
    let mut out: Vec<u8> = Vec::new();
    write_u32(&mut out, entries.len() as u32);
    let ghost head = out@;
    let mut i: usize = 0;
    assert(flatten_pairs(ev.subrange(0, 0)) =~= Seq::<Seq<u8>>::empty());
    assert(frame_spec(Seq::<Seq<u8>>::empty()) =~= Seq::<u8>::empty());
    while i < entries.len()
        invariant
            i <= entries@.len(),
            ev == pairs_view(entries@),
            head == spec_u32_to_le_bytes(entries@.len() as u32),
            out@ == head + frame_spec(flatten_pairs(ev.subrange(0, i as int))),
        decreases entries@.len() - i,
    {
        let (k, v) = (&entries[i].0, &entries[i].1);
        write_u32(&mut out, k.len() as u32);
        crate::bytes::push_all(&mut out, k.as_slice());
        write_u32(&mut out, v.len() as u32);
        crate::bytes::push_all(&mut out, v.as_slice());
        proof {
            let prev = ev.subrange(0, i as int);
            let next = ev.subrange(0, i + 1);
            assert(next.drop_last() =~= prev);
            assert(next.last() == (k@, v@));
            lemma_frame_push(flatten_pairs(prev), k@);
            lemma_frame_push(flatten_pairs(prev).push(k@), v@);
            assert(out@ =~= head + frame_spec(flatten_pairs(next)));
        }
        i = i + 1;
    }
    assert(ev.subrange(0, i as int) =~= ev);
    out
}

/// Read a key store's saved form back: the entries exactly when `bytes` is
/// the saved form of some entries, `None` otherwise.
pub fn decode_store(bytes: &[u8]) -> (r: Option<Vec<(Vec<u8>, Vec<u8>)>>)
    ensures
        match r {
            Some(es) => store_encoding(pairs_view(es@)) == bytes@ && entries_fit(pairs_view(es@)),
            None => forall|es: Seq<(Seq<u8>, Seq<u8>)>| entries_fit(es) ==> #[trigger] store_encoding(es) != bytes@,
        },
{
    if bytes.len() < 4 {
        proof {
            assert forall|es: Seq<(Seq<u8>, Seq<u8>)>| entries_fit(es) implies #[trigger] store_encoding(es) != bytes@ by {
                lemma_u32_le(es.len() as u32);
            }
        }
        return None;
    }
    let count = crate::codec::read_u32(bytes, 0);
    let rest = vstd::slice::slice_subrange(bytes, 4, bytes.len());
    assert(rest@ =~= bytes@.subrange(4, bytes@.len() as int));
    if count as u64 > (usize::MAX as u64) / 2 {
        proof {
            assert forall|es: Seq<(Seq<u8>, Seq<u8>)>| entries_fit(es) implies #[trigger] store_encoding(es) != bytes@ by {
                if store_encoding(es) == bytes@ {
                    lemma_u32_le(es.len() as u32);
                    lemma_u32_le(count);
                    assert(bytes@.subrange(0, 4) =~= spec_u32_to_le_bytes(es.len() as u32));
                    assert(es.len() == count);
                    lemma_flatten_len(es);
                    lemma_frame_len(flatten_pairs(es));
                }
            }
        }
        return None;
    }
    let n: usize = 2 * (count as usize);
    let parts = match unframe(rest, n) {
        Some(p) => p,
        None => {
            proof {
                assert forall|es: Seq<(Seq<u8>, Seq<u8>)>| entries_fit(es) implies #[trigger] store_encoding(es) != bytes@ by {
                    if store_encoding(es) == bytes@ {
                        lemma_u32_le(es.len() as u32);
                        lemma_u32_le(count);
                        assert(bytes@.subrange(0, 4) =~= spec_u32_to_le_bytes(es.len() as u32));
                        assert(es.len() == count);
                        lemma_flatten_len(es);
                        lemma_flatten_fit(es);
                        assert(frame_spec(flatten_pairs(es)) =~= bytes@.subrange(4, bytes@.len() as int));
                    }
                }
            }
            return None;
        },
    };
    let ghost pv = slices_view(parts@);
    let mut es: Vec<(Vec<u8>, Vec<u8>)> = Vec::new();
    let mut j: usize = 0;
    while j < count as usize
        invariant
            n == 2 * (count as usize),
            parts@.len() == n,
            pv == slices_view(parts@),
            j <= count,
            es@.len() == j,
            flatten_pairs(pairs_view(es@)) == pv.subrange(0, 2 * j as int),
            fields_fit(pv),
        decreases count - j,
    {
        let k = crate::bytes::slice_to_vec(parts[2 * j]);
        let v = crate::bytes::slice_to_vec(parts[2 * j + 1]);
        let ghost prev = pairs_view(es@);
        es.push((k, v));
        proof {
            assert(pairs_view(es@) =~= prev.push((pv[2 * j as int], pv[2 * j + 1])));
            assert(pairs_view(es@).drop_last() =~= prev);
            assert(pv.subrange(0, 2 * j + 2) =~= pv.subrange(0, 2 * j as int).push(pv[2 * j as int]).push(pv[2 * j + 1]));
        }
        j = j + 1;
    }
    proof {
        let ev = pairs_view(es@);
        assert(pv.subrange(0, n as int) =~= pv);
        lemma_u32_le(count);
        assert(bytes@ =~= bytes@.subrange(0, 4) + rest@);
        assert(store_encoding(ev) =~= bytes@);
        lemma_flatten_len(ev);
        assert forall|i: int| 0 <= i < ev.len() implies (#[trigger] ev[i]).0.len() <= u32::MAX && ev[i].1.len() <= u32::MAX by {
            assert(flatten_pairs(ev)[2 * i] == ev[i].0);
            assert(flatten_pairs(ev)[2 * i + 1] == ev[i].1);
            assert(pv[2 * i].len() <= u32::MAX);
            assert(pv[2 * i + 1].len() <= u32::MAX);
        }
    }
    Some(es)
}

/// Reading back a saved key store gives the very entries that were saved.
pub proof fn lemma_store_round_trip(entries: Seq<(Seq<u8>, Seq<u8>)>, back: Seq<(Seq<u8>, Seq<u8>)>)
    requires
        entries_fit(entries),
        entries_fit(back),
        store_encoding(back) == store_encoding(entries),
    ensures
        back == entries,
{
    lemma_store_encoding_injective(back, entries);
}

// ------------------------------------------------------------ MLS

/// The MLS ciphersuite: X25519 + AES-128-GCM + SHA-256 + Ed25519 (code
/// `0x0001`, the mandatory-to-implement suite).
pub const CIPHERSUITE_CODE: u16 = 1;

/// The MLS protocol version, MLS 1.0.
pub const MLS_VERSION_CODE: u16 = 1;

/// Groups carry the ratchet tree in their welcome and group info, so a
/// newcomer can join without fetching the tree separately.
pub const USE_RATCHET_TREE_EXTENSION: bool = true;

#[verifier::external_type_specification]
#[verifier::external_body]
pub struct ExOpenMlsRustCrypto(OpenMlsRustCrypto);

#[verifier::external_type_specification]
#[verifier::external_body]
pub struct ExSignatureKeyPair(SignatureKeyPair);

#[verifier::external_type_specification]
#[verifier::external_body]
pub struct ExCredentialWithKey(CredentialWithKey);

#[verifier::external_type_specification]
#[verifier::external_body]
pub struct ExMlsGroup(MlsGroup);

#[verifier::external_type_specification]
#[verifier::external_body]
pub struct ExKeyPackage(KeyPackage);

#[verifier::external_type_specification]
#[verifier::external_body]
pub struct ExCiphersuite(Ciphersuite);

#[verifier::external_type_specification]
#[verifier::external_body]
pub struct ExProtocolVersion(ProtocolVersion);

/// Everything that can go wrong in group messaging. Coarse on purpose.
#[derive(Debug)]
pub enum Error {
    /// An MLS operation failed.
    Mls(String),
    /// TLS (de)serialization failed.
    Codec(String),
    /// Saved group state is corrupt or incompatible.
    State,
    /// No such group.
    UnknownGroup,
}

impl Error {
    /// The human-readable description of the error.
    pub fn to_string(&self) -> (s: String)
        ensures
            s@ == match self {
                Error::Mls(m) => "MLS operation failed: "@ + m@,
                Error::Codec(m) => "serialization failed: "@ + m@,
                Error::State => "group state is corrupt or incompatible"@,
                Error::UnknownGroup => "no such group"@,
            },
    {
        match self {
            Error::Mls(m) => {
                let mut s = String::from_str("MLS operation failed: ");
                s.append(m.as_str());
                s
            },
            Error::Codec(m) => {
                let mut s = String::from_str("serialization failed: ");
                s.append(m.as_str());
                s
            },
            Error::State => String::from_str("group state is corrupt or incompatible"),
            Error::UnknownGroup => String::from_str("no such group"),
        }
    }
}


/// An MLS failure (an OpenMLS operation or a TLS (de)serialization).
pub open spec fn is_mls_failure(e: Error) -> bool {
    e is Mls || e is Codec
}

/// An OpenMLS error, as the text of its `Debug` form.
#[verifier::external_body]
fn mls_failure<E: core::fmt::Debug>(e: E) -> (r: Error)
    ensures
        r is Mls,
{
    Error::Mls(format!("{e:?}"))
}

/// `Ciphersuite::try_from(u16)`; its source maps code `0x0001` to
/// X25519/AES-128-GCM/SHA-256/Ed25519.
#[verifier::external_body]
fn ciphersuite_from_code(code: u16) -> (r: Option<Ciphersuite>)
    ensures
        code == 1 ==> r is Some,
{
    Ciphersuite::try_from(code).ok()
}

/// `ProtocolVersion::from(u16)`.
#[verifier::external_body]
fn protocol_version(code: u16) -> ProtocolVersion {
    ProtocolVersion::from(code)
}

/// What a provider's key store holds (`MemoryStorage::values`, a
/// `HashMap` from storage keys to stored values).
pub uninterp spec fn key_store(provider: OpenMlsRustCrypto) -> Map<Seq<u8>, Seq<u8>>;

/// Whether `SignatureKeyPair::read` finds a key pair for this signature
/// public key (under the suite's signature scheme) in a key store with these
/// contents.
pub uninterp spec fn signature_key_readable(store: Map<Seq<u8>, Seq<u8>>, public: Seq<u8>) -> bool;

/// Whether OpenMLS can read a key store with these contents without
/// panicking: every value its memory storage decodes with `unwrap` (group
/// trees, group contexts, transcript hashes, confirmation tags, signature
/// key pairs, epoch key pairs and stored lists) is JSON of what it is read
/// as, and every queued proposal that a group's proposal list names is
/// stored. The wrappers of OpenMLS operations claim that they keep a store
/// intact on this ground in `openmls_memory_storage`: every value it writes
/// is `serde_json::to_vec` of the entity it is handed, under a key whose label
/// names that entity's kind and which its reads decode as the same kind;
/// lists are written as JSON lists (`append`, `remove_item`); a queued
/// proposal is written together with its reference (`queue_proposal`) and
/// removed together with it (`remove_proposal`), and clearing a queue drops
/// the reference list. No write of it reaches a signature key pair's slot
/// (only `write_signature_key_pair` does, which these operations do not
/// call).
pub uninterp spec fn store_intact(store: Map<Seq<u8>, Seq<u8>>) -> bool;

/// The storage key under which a key store holds the signature key pair
/// with this public key (under the suite's signature scheme).
pub uninterp spec fn signature_slot(public: Seq<u8>) -> Seq<u8>;

/// Whether these bytes are JSON for an optional signature key pair.
pub uninterp spec fn key_pair_json(value: Seq<u8>) -> bool;

/// Whether `MlsMessageIn::tls_deserialize` reads these bytes.
pub uninterp spec fn mls_message_parses(bytes: Seq<u8>) -> bool;

/// Whether the MLS message these bytes hold is a welcome.
pub uninterp spec fn carries_welcome(bytes: Seq<u8>) -> bool;

/// Whether joining from these welcome bytes succeeds (`tls_deserialize`, a
/// welcome, `StagedWelcome::new_from_welcome` and `into_group`) with a key
/// store holding `store`.
pub uninterp spec fn welcome_joins(store: Map<Seq<u8>, Seq<u8>>, welcome: Seq<u8>) -> bool;

/// What OpenMLS makes of an inbound message for a group in state `group`
/// whose client's key store holds `store`: `None` when it refuses it (or a
/// commit it staged does not merge), otherwise the sender's identity
/// (`None` for a credential that is not a basic one) and the message's kind.
pub uninterp spec fn processing(group: MlsGroup, store: Map<Seq<u8>, Seq<u8>>, message: Seq<u8>) -> Option<
    (Option<Seq<u8>>, KindView),
>;

/// Every signature key pair a key store holds, and every readable slot,
/// survives the change from `old` to `new`.
pub open spec fn signature_keys_kept(old: Map<Seq<u8>, Seq<u8>>, new: Map<Seq<u8>, Seq<u8>>) -> bool {
    forall|pk: Seq<u8>|
        (#[trigger] signature_key_readable(old, pk) ==> signature_key_readable(new, pk)) && (signature_slot_decodes(
            old,
            pk,
        ) ==> signature_slot_decodes(new, pk))
}

proof fn lemma_keys_kept_trans(a: Map<Seq<u8>, Seq<u8>>, b: Map<Seq<u8>, Seq<u8>>, c: Map<Seq<u8>, Seq<u8>>)
    requires
        signature_keys_kept(a, b),
        signature_keys_kept(b, c),
    ensures
        signature_keys_kept(a, c),
{
    assert forall|pk: Seq<u8>|
        (#[trigger] signature_key_readable(a, pk) ==> signature_key_readable(c, pk)) && (signature_slot_decodes(a, pk)
            ==> signature_slot_decodes(c, pk)) by {
        assert(signature_key_readable(a, pk) ==> signature_key_readable(b, pk));
        assert(signature_key_readable(b, pk) ==> signature_key_readable(c, pk));
    }
}

/// Whether `MlsGroup::load` finds a group with this id in a key store with
/// these contents.
pub uninterp spec fn group_loadable(store: Map<Seq<u8>, Seq<u8>>, group_id: Seq<u8>) -> bool;

/// The members of a group (`MlsGroup::members`): each one's leaf index and,
/// for a basic credential, its identity bytes, in the group's order.
pub uninterp spec fn group_roster(group: MlsGroup) -> Seq<(u32, Option<Seq<u8>>)>;

/// The signature key pair's slot of `store` can be read without OpenMLS
/// panicking: it is empty, or holds a key pair's JSON.
pub open spec fn signature_slot_decodes(store: Map<Seq<u8>, Seq<u8>>, public: Seq<u8>) -> bool {
    store.contains_key(signature_slot(public)) ==> key_pair_json(store[signature_slot(public)])
}

/// The map a sequence of key-store entries builds when inserted in order
/// (a later entry for a key replaces an earlier one).
pub open spec fn map_of(entries: Seq<(Seq<u8>, Seq<u8>)>) -> Map<Seq<u8>, Seq<u8>>
    decreases entries.len(),
{
    if entries.len() == 0 {
        Map::empty()
    } else {
        map_of(entries.drop_last()).insert(entries.last().0, entries.last().1)
    }
}

/// The keys of a sequence of key-store entries.
pub open spec fn entry_keys(entries: Seq<(Seq<u8>, Seq<u8>)>) -> Seq<Seq<u8>> {
    entries.map_values(|e: (Seq<u8>, Seq<u8>)| e.0)
}

/// `OpenMlsRustCrypto::default()`: a fresh provider whose key store is an
/// empty `HashMap`.
#[verifier::external_body]
fn new_provider() -> (provider: OpenMlsRustCrypto)
    ensures
        key_store(provider) =~= Map::empty(),
        store_intact(key_store(provider)),
{
    OpenMlsRustCrypto::default()
}

/// `SignatureKeyPair::new` for the suite's signature scheme (fresh random
/// keys), `SignatureKeyPair::store` into the provider's key store, and
/// `to_public_vec`: the new key pair and its public key. The store writes the
/// key pair's JSON under its slot, so reading the slot back gives the key
/// pair. Errors are OpenMLS's, as text.
#[verifier::external_body]
fn generate_signature_key_pair(provider: &mut OpenMlsRustCrypto) -> (r: Result<(SignatureKeyPair, Vec<u8>), String>)
    ensures
        store_intact(key_store(*old(provider))) ==> store_intact(key_store(*final(provider))),
        r matches Ok((_, public)) ==> signature_key_readable(key_store(*final(provider)), public@)
            && signature_slot_decodes(key_store(*final(provider)), public@),
{
    let scheme = Ciphersuite::MLS_128_DHKEMX25519_AES128GCM_SHA256_Ed25519.signature_algorithm();
    let signer = SignatureKeyPair::new(scheme).map_err(|e| format!("{e:?}"))?;
    signer.store(provider.storage()).map_err(|e| format!("{e:?}"))?;
    let public = signer.to_public_vec();
    Ok((signer, public))
}

/// The storage key `SignatureKeyPair::store` writes for a key pair with this
/// public key: a key pair with it (`SignatureKeyPair::from_raw`, no private
/// key) is stored into a fresh, empty key store, which then holds exactly
/// that one key.
#[verifier::external_body]
fn signature_storage_key(public: &[u8]) -> (r: Option<Vec<u8>>)
    ensures
        r is Some,
        r matches Some(key) ==> key@ == signature_slot(public@),
{
    let scheme = Ciphersuite::MLS_128_DHKEMX25519_AES128GCM_SHA256_Ed25519.signature_algorithm();
    let probe = SignatureKeyPair::from_raw(scheme, Vec::new(), public.to_vec());
    let scratch = OpenMlsRustCrypto::default();
    probe.store(scratch.storage()).ok()?;
    let values = scratch.storage().values.read().ok()?;
    values.keys().next().cloned()
}

/// `serde_json::from_slice` as an optional signature key pair: whether the
/// bytes decode.
#[verifier::external_body]
fn key_pair_json_decodes(value: &[u8]) -> (ok: bool)
    ensures
        ok == key_pair_json(value@),
{
    serde_json::from_slice::<Option<SignatureKeyPair>>(value).is_ok()
}

/// `SignatureKeyPair::read` under the suite's signature scheme: the key
/// pair the provider's key store holds for this public key, if any; whether
/// there is one is [`signature_key_readable`] of the store's contents. The
/// store is only read. OpenMLS panics when the value in the key pair's slot
/// is not a key pair's JSON, which the `requires` leaves out.
#[verifier::external_body]
fn read_signature_key_pair(provider: &OpenMlsRustCrypto, public: &[u8]) -> (r: Option<SignatureKeyPair>)
    requires
        signature_slot_decodes(key_store(*provider), public@),
    ensures
        (r is Some) == signature_key_readable(key_store(*provider), public@),
{
    SignatureKeyPair::read(
        provider.storage(),
        public,
        Ciphersuite::MLS_128_DHKEMX25519_AES128GCM_SHA256_Ed25519.signature_algorithm(),
    )
}

/// `BasicCredential::new(identity)` paired with the signer's public key.
#[verifier::external_body]
fn basic_credential_with_key(identity: &[u8], signer: &SignatureKeyPair) -> (r: CredentialWithKey) {
    CredentialWithKey {
        credential: BasicCredential::new(identity.to_vec()).into(),
        signature_key: signer.public().into(),
    }
}


/// A copy of the provider's key store entries (`MemoryStorage::values`,
/// walked with `HashMap::iter`): every entry once, so the keys are distinct
/// and the entries make up exactly the store, in an order the map picks and
/// nothing here states. `Err` when its lock is poisoned.
#[verifier::external_body]
fn key_store_entries(provider: &OpenMlsRustCrypto) -> (r: Result<Vec<(Vec<u8>, Vec<u8>)>, ()>)
    ensures
        r matches Ok(es) ==> map_of(pairs_view(es@)) == key_store(*provider) && entry_keys(
            pairs_view(es@),
        ).no_duplicates(),
{
    let values = provider.storage().values.read().map_err(|_| ())?;
    Ok(values.iter().map(|(k, v)| (k.clone(), v.clone())).collect())
}

/// `HashMap::insert` of one entry into the provider's key store
/// (`MemoryStorage::values`). A lock poisoned by a writer that panicked is
/// taken over as it stands (a fresh provider's lock never is).
#[verifier::external_body]
fn key_store_insert(provider: &mut OpenMlsRustCrypto, key: Vec<u8>, value: Vec<u8>)
    ensures
        key_store(*final(provider)) == key_store(*old(provider)).insert(key@, value@),
{
    let mut values = match provider.storage().values.write() {
        Ok(guard) => guard,
        Err(poisoned) => poisoned.into_inner(),
    };
    values.insert(key, value);
}

/// `KeyPackage::builder().build(..)`, TLS-serialized: a fresh key package
/// for the credential.
#[verifier::external_body]
fn build_key_package(
    suite: Ciphersuite,
    provider: &mut OpenMlsRustCrypto,
    signer: &SignatureKeyPair,
    credential: &CredentialWithKey,
) -> (r: Result<Vec<u8>, Error>)
    requires
        store_intact(key_store(*old(provider))),
    ensures
        r matches Err(e) ==> is_mls_failure(e),
        store_intact(key_store(*final(provider))),
        signature_keys_kept(key_store(*old(provider)), key_store(*final(provider))),
{
    let bundle = KeyPackage::builder().build(suite, &*provider, signer, credential.clone()).map_err(
        |e| Error::Mls(format!("{e:?}")),
    )?;
    bundle.key_package().tls_serialize_detached().map_err(|e| Error::Codec(format!("{e:?}")))
}

/// `MlsGroup::new_with_group_id`: a new group with this client as its sole
/// member.
#[verifier::external_body]
fn new_group(
    suite: Ciphersuite,
    provider: &mut OpenMlsRustCrypto,
    signer: &SignatureKeyPair,
    group_id: &[u8],
    credential: &CredentialWithKey,
    ratchet_tree_extension: bool,
) -> (r: Result<MlsGroup, String>)
    requires
        store_intact(key_store(*old(provider))),
    ensures
        store_intact(key_store(*final(provider))),
        signature_keys_kept(key_store(*old(provider)), key_store(*final(provider))),
{
    let config = MlsGroupCreateConfig::builder().ciphersuite(suite).use_ratchet_tree_extension(
        ratchet_tree_extension,
    ).build();
    MlsGroup::new_with_group_id(&*provider, signer, &config, GroupId::from_slice(group_id), credential.clone()).map_err(
        |e| format!("{e:?}"),
    )
}

/// `MlsMessageIn::tls_deserialize`, then its body: whether it is a welcome.
#[verifier::external_body]
fn is_welcome_message(bytes: &[u8]) -> (r: Result<bool, String>)
    ensures
        (r is Err) == !mls_message_parses(bytes@),
        r matches Ok(w) ==> w == carries_welcome(bytes@),
{
    let message = MlsMessageIn::tls_deserialize(&mut &bytes[..]).map_err(|e| format!("{e:?}"))?;
    match message.extract() {
        MlsMessageBodyIn::Welcome(_) => Ok(true),
        _ => Ok(false),
    }
}

/// `MlsMessageIn::tls_deserialize`, the welcome it carries,
/// `StagedWelcome::new_from_welcome` and `into_group`: join from welcome
/// bytes. Whether it succeeds is [`welcome_joins`] of the key store and the
/// bytes. It writes the new group's state; the signature key pairs stay.
#[verifier::external_body]
fn join_from_welcome(provider: &mut OpenMlsRustCrypto, bytes: &[u8], ratchet_tree_extension: bool) -> (r: Result<
    MlsGroup,
    String,
>)
    requires
        store_intact(key_store(*old(provider))),
    ensures
        (r is Ok) == welcome_joins(key_store(*old(provider)), bytes@),
        store_intact(key_store(*final(provider))),
        signature_keys_kept(key_store(*old(provider)), key_store(*final(provider))),
{
    let message = MlsMessageIn::tls_deserialize(&mut &bytes[..]).map_err(|e| format!("{e:?}"))?;
    let welcome = match message.extract() {
        MlsMessageBodyIn::Welcome(w) => w,
        _ => return Err(String::new()),
    };
    let config = MlsGroupJoinConfig::builder().use_ratchet_tree_extension(ratchet_tree_extension).build();
    let staged = StagedWelcome::new_from_welcome(&*provider, &config, welcome, None).map_err(|e| format!("{e:?}"))?;
    staged.into_group(&*provider).map_err(|e| format!("{e:?}"))
}


/// `MlsGroup::load`: the group with this id in the provider's key store, if
/// any ([`group_loadable`]). It reads stored lists and values with `unwrap`,
/// so the store must be intact.
#[verifier::external_body]
fn load_group(provider: &OpenMlsRustCrypto, group_id: &[u8]) -> (r: Result<Option<MlsGroup>, String>)
    requires
        store_intact(key_store(*provider)),
    ensures
        (r matches Ok(Some(_))) == group_loadable(key_store(*provider), group_id@),
{
    MlsGroup::load(provider.storage(), &GroupId::from_slice(group_id)).map_err(|e| format!("{e:?}"))
}

/// `MlsGroup::group_id`, as bytes.
#[verifier::external_body]
fn group_id_bytes(group: &MlsGroup) -> (r: Vec<u8>) {
    group.group_id().as_slice().to_vec()
}

/// `MlsGroup::members`: each member's leaf index and, for a basic
/// credential (`BasicCredential::try_from`), its identity bytes, in the
/// group's order: the group's [`group_roster`].
#[verifier::external_body]
fn group_members(group: &MlsGroup) -> (r: Vec<(u32, Option<Vec<u8>>)>)
    ensures
        members_view(r@) == group_roster(*group),
{
    group.members().map(
        |m| (m.index.u32(), BasicCredential::try_from(m.credential).ok().map(|b| b.identity().to_vec())),
    ).collect()
}

/// `KeyPackageIn::tls_deserialize` then `validate` for the protocol version.
#[verifier::external_body]
fn validated_key_package(provider: &OpenMlsRustCrypto, bytes: &[u8], version: ProtocolVersion) -> (r: Result<
    KeyPackage,
    Error,
>)
    ensures
        r matches Err(e) ==> is_mls_failure(e),
{
    let kp_in = KeyPackageIn::tls_deserialize(&mut &bytes[..]).map_err(|e| Error::Codec(format!("{e:?}")))?;
    kp_in.validate(provider.crypto(), version).map_err(|e| Error::Mls(format!("{e:?}")))
}

/// `MlsGroup::add_members` with one key package: the commit and the welcome,
/// TLS-serialized.
#[verifier::external_body]
fn add_members(
    group: &mut MlsGroup,
    provider: &mut OpenMlsRustCrypto,
    signer: &SignatureKeyPair,
    key_package: KeyPackage,
) -> (r: Result<(Vec<u8>, Vec<u8>), Error>)
    requires
        store_intact(key_store(*old(provider))),
    ensures
        r matches Err(e) ==> is_mls_failure(e),
        store_intact(key_store(*final(provider))),
        signature_keys_kept(key_store(*old(provider)), key_store(*final(provider))),
{
    let (commit, welcome, _group_info) = group.add_members(&*provider, signer, &[key_package]).map_err(
        |e| Error::Mls(format!("{e:?}")),
    )?;
    let commit = commit.tls_serialize_detached().map_err(|e| Error::Codec(format!("{e:?}")))?;
    let welcome = welcome.tls_serialize_detached().map_err(|e| Error::Codec(format!("{e:?}")))?;
    Ok((commit, welcome))
}

/// `MlsGroup::remove_members` with one leaf index: the commit,
/// TLS-serialized.
#[verifier::external_body]
fn remove_members(group: &mut MlsGroup, provider: &mut OpenMlsRustCrypto, signer: &SignatureKeyPair, index: u32) -> (r:
    Result<Vec<u8>, Error>)
    requires
        store_intact(key_store(*old(provider))),
    ensures
        r matches Err(e) ==> is_mls_failure(e),
        store_intact(key_store(*final(provider))),
        signature_keys_kept(key_store(*old(provider)), key_store(*final(provider))),
{
    let (commit, _welcome, _group_info) = group.remove_members(&*provider, signer, &[LeafNodeIndex::new(index)]).map_err(
        |e| Error::Mls(format!("{e:?}")),
    )?;
    commit.tls_serialize_detached().map_err(|e| Error::Codec(format!("{e:?}")))
}

/// `MlsGroup::merge_pending_commit`.
#[verifier::external_body]
fn merge_pending_commit(group: &mut MlsGroup, provider: &mut OpenMlsRustCrypto) -> (r: Result<(), String>)
    requires
        store_intact(key_store(*old(provider))),
    ensures
        store_intact(key_store(*final(provider))),
        signature_keys_kept(key_store(*old(provider)), key_store(*final(provider))),
{
    group.merge_pending_commit(&*provider).map_err(|e| format!("{e:?}"))
}

/// `MlsGroup::create_message`: an application message, TLS-serialized.
#[verifier::external_body]
fn create_message(group: &mut MlsGroup, provider: &mut OpenMlsRustCrypto, signer: &SignatureKeyPair, plaintext: &[u8]) -> (r:
    Result<Vec<u8>, Error>)
    requires
        store_intact(key_store(*old(provider))),
    ensures
        r matches Err(e) ==> is_mls_failure(e),
        store_intact(key_store(*final(provider))),
        signature_keys_kept(key_store(*old(provider)), key_store(*final(provider))),
{
    let out = group.create_message(&*provider, signer, plaintext).map_err(|e| Error::Mls(format!("{e:?}")))?;
    out.tls_serialize_detached().map_err(|e| Error::Codec(format!("{e:?}")))
}

/// `MlsMessageIn::tls_deserialize`, `try_into_protocol_message`,
/// `MlsGroup::process_message` and, for a commit, `merge_staged_commit`:
/// the sender's identity (`BasicCredential::try_from`, `None` for another
/// kind of credential) and the message's kind. All of it is [`processing`]
/// of the group, the key store and the bytes; the signature key pairs stay.
#[verifier::external_body]
fn process_message(group: &mut MlsGroup, provider: &mut OpenMlsRustCrypto, bytes: &[u8]) -> (r: Result<
    (Option<Vec<u8>>, MessageKind),
    Error,
>)
    requires
        store_intact(key_store(*old(provider))),
    ensures
        r matches Err(e) ==> is_mls_failure(e),
        !mls_message_parses(bytes@) ==> r matches Err(Error::Codec(_)),
        !mls_message_parses(bytes@) ==> key_store(*final(provider)) == key_store(*old(provider)),
        (r is Ok) == (processing(*old(group), key_store(*old(provider)), bytes@) is Some),
        r matches Ok((s, k)) ==> processing(*old(group), key_store(*old(provider)), bytes@) == Some(
            (opt_view(s), kind_view(k)),
        ),
        store_intact(key_store(*final(provider))),
        signature_keys_kept(key_store(*old(provider)), key_store(*final(provider))),
{
    let msg = MlsMessageIn::tls_deserialize(&mut &bytes[..]).map_err(|e| Error::Codec(format!("{e:?}")))?;
    let protocol = msg.try_into_protocol_message().map_err(mls_failure)?;
    let processed = group.process_message(&*provider, protocol).map_err(mls_failure)?;
    let sender = BasicCredential::try_from(processed.credential().clone()).ok().map(|b| b.identity().to_vec());
    let kind = match processed.into_content() {
        ProcessedMessageContent::ApplicationMessage(app) => MessageKind::Application(app.into_bytes()),
        ProcessedMessageContent::StagedCommitMessage(c) => {
            group.merge_staged_commit(&*provider, *c).map_err(mls_failure)?;
            MessageKind::Commit
        },
        ProcessedMessageContent::ProposalMessage(_) => MessageKind::Proposal,
        ProcessedMessageContent::ExternalJoinProposalMessage(_) => MessageKind::Proposal,
    };
    Ok((sender, kind))
}

fn suite() -> (s: Ciphersuite) {
    ciphersuite_from_code(CIPHERSUITE_CODE).unwrap()
}

/// One user's MLS identity and key store.
pub struct GroupClient {
    provider: OpenMlsRustCrypto,
    signer: SignatureKeyPair,
    /// The signer's public key.
    public: Vec<u8>,
    credential: CredentialWithKey,
    identity: Vec<u8>,
}

/// The identity bytes of each member whose credential is a basic one, in
/// the group's order.
pub open spec fn identities_of(members: Seq<(u32, Option<Seq<u8>>)>) -> Seq<Seq<u8>>
    decreases members.len(),
{
    if members.len() == 0 {
        Seq::empty()
    } else {
        let rest = identities_of(members.drop_last());
        match members.last().1 {
            Some(id) => rest.push(id),
            None => rest,
        }
    }
}

/// The index of the first member with this identity.
pub open spec fn index_of(members: Seq<(u32, Option<Seq<u8>>)>, identity: Seq<u8>) -> Option<u32>
    decreases members.len(),
{
    if members.len() == 0 {
        None
    } else if members[0].1 == Some(identity) {
        Some(members[0].0)
    } else {
        index_of(members.drop_first(), identity)
    }
}

/// The index found for an identity is the leaf index of a member holding
/// exactly that identity, the first such member; none is found exactly when
/// no member holds it.
pub proof fn lemma_index_of_exact(members: Seq<(u32, Option<Seq<u8>>)>, identity: Seq<u8>)
    ensures
        index_of(members, identity) matches Some(i) ==> exists|j: int|
            0 <= j < members.len() && #[trigger] members[j] == (i, Some(identity)) && forall|k: int|
                0 <= k < j ==> (#[trigger] members[k]).1 != Some(identity),
        index_of(members, identity) is None ==> forall|j: int|
            0 <= j < members.len() ==> (#[trigger] members[j]).1 != Some(identity),
    decreases members.len(),
{
    if members.len() > 0 {
        let rest = members.drop_first();
        lemma_index_of_exact(rest, identity);
        if members[0].1 == Some(identity) {
            assert(members[0] == (members[0].0, Some(identity)));
        } else {
            if index_of(rest, identity) is Some {
                let i = index_of(rest, identity)->0;
                let j = choose|j: int|
                    0 <= j < rest.len() && #[trigger] rest[j] == (i, Some(identity)) && forall|k: int|
                        0 <= k < j ==> (#[trigger] rest[k]).1 != Some(identity);
                assert(members[j + 1] == rest[j]);
                assert forall|k: int| 0 <= k < j + 1 implies (#[trigger] members[k]).1 != Some(identity) by {
                    if k > 0 {
                        assert(members[k] == rest[k - 1]);
                    }
                }
            } else {
                assert forall|j: int| 0 <= j < members.len() implies (#[trigger] members[j]).1 != Some(identity) by {
                    if j > 0 {
                        assert(members[j] == rest[j - 1]);
                    }
                }
            }
        }
    }
}

pub open spec fn members_view(v: Seq<(u32, Option<Vec<u8>>)>) -> Seq<(u32, Option<Seq<u8>>)> {
    v.map_values(
        |m: (u32, Option<Vec<u8>>)|
            (
                m.0,
                match m.1 {
                    Some(id) => Some(id@),
                    None => None,
                },
            ),
    )
}

/// The identities of the members, skipping credentials of other kinds.
pub fn member_identities(members: &Vec<(u32, Option<Vec<u8>>)>) -> (ids: Vec<Vec<u8>>)
    ensures
        vecs_view(ids@) == identities_of(members_view(members@)),
{
    let ghost mv = members_view(members@);
    let mut ids: Vec<Vec<u8>> = Vec::new();
    let mut i: usize = 0;
    while i < members.len()
        invariant
            i <= members@.len(),
            mv == members_view(members@),
            vecs_view(ids@) == identities_of(mv.subrange(0, i as int)),
        decreases members@.len() - i,
    {
        let ghost sub = mv.subrange(0, i + 1);
        assert(sub.drop_last() =~= mv.subrange(0, i as int));
        match &members[i].1 {
            Some(id) => {
                let ghost prev = vecs_view(ids@);
                ids.push(crate::bytes::copy_vec(id));
                assert(vecs_view(ids@) =~= prev.push(id@));
            },
            None => {},
        }
        i = i + 1;
    }
    assert(mv.subrange(0, i as int) =~= mv);
    ids
}

/// The leaf index of the first member with this identity.
pub fn member_index_of(members: &Vec<(u32, Option<Vec<u8>>)>, identity: &[u8]) -> (r: Option<u32>)
    ensures
        r == index_of(members_view(members@), identity@),
        r matches Some(i) ==> exists|j: int|
            0 <= j < members@.len() && #[trigger] members_view(members@)[j] == (i, Some(identity@)),
        r is None ==> forall|j: int|
            0 <= j < members@.len() ==> (#[trigger] members_view(members@)[j]).1 != Some(identity@),
{
    proof {
        lemma_index_of_exact(members_view(members@), identity@);
    }
    let ghost mv = members_view(members@);
    let mut i: usize = 0;
    assert(mv.subrange(0, mv.len() as int) =~= mv);
    while i < members.len()
        invariant
            i <= members@.len(),
            mv == members_view(members@),
            index_of(mv, identity@) == index_of(mv.subrange(i as int, mv.len() as int), identity@),
        decreases members@.len() - i,
    {
        let ghost rest = mv.subrange(i as int, mv.len() as int);
        assert(rest.drop_first() =~= mv.subrange(i + 1, mv.len() as int));
        assert(rest[0] == mv[i as int]);
        let found = match &members[i].1 {
            Some(id) => crate::bytes::bytes_eq(id.as_slice(), identity),
            None => false,
        };
        if found {
            return Some(members[i].0);
        }
        i = i + 1;
    }
    None
}

/// Whether every entry's key and value, and their count, fit `u32` length
/// prefixes.
fn pairs_fit(entries: &Vec<(Vec<u8>, Vec<u8>)>) -> (ok: bool)
    ensures
        ok == entries_fit(pairs_view(entries@)),
{
    if (entries.len() as u64) > 0xFFFF_FFFFu64 {
        return false;
    }
    let mut i: usize = 0;
    while i < entries.len()
        invariant
            i <= entries@.len(),
            forall|j: int|
                0 <= j < i ==> (#[trigger] pairs_view(entries@)[j]).0.len() <= u32::MAX && pairs_view(entries@)[j].1.len()
                    <= u32::MAX,
        decreases entries@.len() - i,
    {
        if (entries[i].0.len() as u64) > 0xFFFF_FFFFu64 || (entries[i].1.len() as u64) > 0xFFFF_FFFFu64 {
            assert(pairs_view(entries@)[i as int].0 == entries@[i as int].0@);
            return false;
        }
        i = i + 1;
    }
    true
}

/// The position of the last entry with key `key`: the one whose value
/// [`map_of`] keeps.
fn last_with_key(entries: &Vec<(Vec<u8>, Vec<u8>)>, key: &[u8]) -> (r: Option<usize>)
    ensures
        (r is Some) == map_of(pairs_view(entries@)).contains_key(key@),
        r matches Some(i) ==> i < entries@.len() && map_of(pairs_view(entries@))[key@] == entries@[i as int].1@,
{
    let ghost pv = pairs_view(entries@);
    let mut found: Option<usize> = None;
    let mut i: usize = 0;
    while i < entries.len()
        invariant
            i <= entries@.len(),
            pv == pairs_view(entries@),
            (found is Some) == map_of(pv.take(i as int)).contains_key(key@),
            found matches Some(j) ==> j < i && map_of(pv.take(i as int))[key@] == pv[j as int].1,
        decreases entries@.len() - i,
    {
        assert(pv.take(i + 1).drop_last() =~= pv.take(i as int));
        assert(pv.take(i + 1).last() == pv[i as int]);
        if crate::bytes::bytes_eq(entries[i].0.as_slice(), key) {
            found = Some(i);
        }
        i = i + 1;
    }
    assert(pv.take(i as int) =~= pv);
    found
}

impl GroupClient {
    /// This client's identity bytes.
    pub closed spec fn identity_bytes(&self) -> Seq<u8> {
        self.identity@
    }

    /// What this client's key store holds.
    pub closed spec fn stored(&self) -> Map<Seq<u8>, Seq<u8>> {
        key_store(self.provider)
    }

    /// OpenMLS can read this client's key store without panicking (see
    /// [`store_intact`]): true of a new client, and kept by every operation.
    pub closed spec fn intact(&self) -> bool {
        store_intact(key_store(self.provider))
    }

    /// The public key of this client's signature key pair.
    pub closed spec fn signature_key(&self) -> Seq<u8> {
        self.public@
    }

    /// Create a fresh MLS identity named `identity` (in Clarity, the user's
    /// Ed25519 identity key bytes), with a new signature key pair stored in
    /// a new key store.
    pub fn generate(identity: &[u8]) -> (r: Result<GroupClient, Error>)
        ensures
            match r {
                Ok(c) => {
                    &&& c.identity_bytes() == identity@
                    &&& c.intact()
                    &&& signature_key_readable(c.stored(), c.signature_key())
                    &&& signature_slot_decodes(c.stored(), c.signature_key())
                },
                Err(e) => e is Mls,
            },
    {
        let mut provider = new_provider();
        let (signer, public) = match generate_signature_key_pair(&mut provider) {
            Ok(p) => p,
            Err(m) => return Err(Error::Mls(m)),
        };
        let credential = basic_credential_with_key(identity, &signer);
        Ok(GroupClient { provider, signer, public, credential, identity: crate::bytes::slice_to_vec(identity) })
    }

    /// This client's identity bytes.
    pub fn identity(&self) -> (id: &[u8])
        ensures
            id@ == self.identity_bytes(),
    {
        self.identity.as_slice()
    }

    /// A fresh key package to publish, so others can add this client to a
    /// group. Each should be consumed once, like a one-time prekey.
    pub fn key_package(&mut self) -> (r: Result<Vec<u8>, Error>)
        requires
            old(self).intact(),
        ensures
            r matches Err(e) ==> is_mls_failure(e),
            final(self).identity_bytes() == old(self).identity_bytes(),
            final(self).signature_key() == old(self).signature_key(),
            final(self).intact(),
            signature_keys_kept(old(self).stored(), final(self).stored()),
    {
        build_key_package(suite(), &mut self.provider, &self.signer, &self.credential)
    }

    /// Start a new group with `group_id`, with this client as the sole member.
    pub fn create_group(&mut self, group_id: &[u8]) -> (r: Result<Group, Error>)
        requires
            old(self).intact(),
        ensures
            r matches Err(e) ==> e is Mls,
            final(self).identity_bytes() == old(self).identity_bytes(),
            final(self).signature_key() == old(self).signature_key(),
            final(self).intact(),
            signature_keys_kept(old(self).stored(), final(self).stored()),
    {
        match new_group(
            suite(),
            &mut self.provider,
            &self.signer,
            group_id,
            &self.credential,
            USE_RATCHET_TREE_EXTENSION,
        ) {
            Ok(g) => Ok(Group { mls_group: g }),
            Err(m) => Err(Error::Mls(m)),
        }
    }

    /// Join a group from a welcome produced by [`Group::add_member`]. Bytes
    /// that do not parse as an MLS message are a codec error; a message that
    /// is not a welcome is refused with "expected a welcome message", and
    /// the key store is untouched either way. A welcome is joined exactly when
    /// OpenMLS can join from it ([`welcome_joins`]).
    pub fn join_group(&mut self, welcome: &[u8]) -> (r: Result<Group, Error>)
        requires
            old(self).intact(),
        ensures
            r matches Err(e) ==> is_mls_failure(e),
            !mls_message_parses(welcome@) ==> (r matches Err(e) && e is Codec) && final(self).stored() == old(
                self,
            ).stored(),
            mls_message_parses(welcome@) && !carries_welcome(welcome@) ==> (r matches Err(Error::Mls(m)) && m@
                == "expected a welcome message"@) && final(self).stored() == old(self).stored(),
            mls_message_parses(welcome@) && carries_welcome(welcome@) ==> ((r is Ok) == welcome_joins(
                old(self).stored(),
                welcome@,
            )),
            final(self).identity_bytes() == old(self).identity_bytes(),
            final(self).signature_key() == old(self).signature_key(),
            final(self).intact(),
            signature_keys_kept(old(self).stored(), final(self).stored()),
    {
        match is_welcome_message(welcome) {
            Ok(true) => {},
            Ok(false) => {
                proof {
                    reveal_strlit("expected a welcome message");
                }
                return Err(Error::Mls(String::from_str("expected a welcome message")));
            },
            Err(m) => return Err(Error::Codec(m)),
        }
        match join_from_welcome(&mut self.provider, welcome, USE_RATCHET_TREE_EXTENSION) {
            Ok(g) => Ok(Group { mls_group: g }),
            Err(m) => Err(Error::Mls(m)),
        }
    }

    /// Re-open a group this client already belongs to, by id; `None` when
    /// the key store holds no such group.
    pub fn load_group(&self, group_id: &[u8]) -> (r: Result<Option<Group>, Error>)
        requires
            self.intact(),
        ensures
            (r matches Ok(Some(_))) == group_loadable(self.stored(), group_id@),
            r matches Err(e) ==> e is Mls,
    {
        match load_group(&self.provider, group_id) {
            Ok(Some(g)) => Ok(Some(Group { mls_group: g })),
            Ok(None) => Ok(None),
            Err(m) => Err(Error::Mls(m)),
        }
    }

    /// Serialize the whole client (identity, signature public key, and key
    /// store, which holds every group it belongs to). The result is SECRET.
    /// A field or store too large for its `u32` length prefix cannot be
    /// written readably and is refused as [`Error::State`].
    pub fn export_state(&self) -> (r: Result<Vec<u8>, Error>)
        ensures
            match r {
                Ok(out) => exists|entries: Seq<(Seq<u8>, Seq<u8>)>|
                    #[trigger] state_encoding(self.identity_bytes(), self.signature_key(), entries) == out@ && map_of(
                        entries,
                    ) == self.stored() && entry_keys(entries).no_duplicates() && state_fits(
                        self.identity_bytes(),
                        self.signature_key(),
                        entries,
                    ),
                Err(e) => e is State,
            },
    {
        let entries = match key_store_entries(&self.provider) {
            Ok(es) => es,
            Err(()) => return Err(Error::State),
        };
        if !pairs_fit(&entries) {
            return Err(Error::State);
        }
        let store_bytes = encode_store(entries.as_slice());
        if (self.identity.len() as u64) > 0xFFFF_FFFFu64 || (self.public.len() as u64) > 0xFFFF_FFFFu64 || (
        store_bytes.len() as u64) > 0xFFFF_FFFFu64 {
            return Err(Error::State);
        }
        let fields: [&[u8]; 3] = [self.identity.as_slice(), self.public.as_slice(), store_bytes.as_slice()];
        let out = frame(fields.as_slice());
        proof {
            assert(slices_view(fields@) =~= seq![self.identity@, self.public@, store_bytes@]);
            assert(state_encoding(self.identity_bytes(), self.signature_key(), pairs_view(entries@)) == out@);
            assert(map_of(pairs_view(entries@)) == self.stored());
        }
        Ok(out)
    }

    /// Restore a client from [`GroupClient::export_state`] bytes. Bytes that
    /// are not three framed fields whose last is a saved key store are
    /// refused as corrupt state, as is a key store without the signature key
    /// pair for the saved public key, or one whose slot for that key holds
    /// something that is not a key pair. Otherwise the client is restored:
    /// its identity and key store are the saved ones.
    pub fn import_state(bytes: &[u8]) -> (r: Result<GroupClient, Error>)
        ensures
            !state_readable(bytes@) ==> (r matches Err(e) && e is State),
            forall|id: Seq<u8>, public: Seq<u8>, es: Seq<(Seq<u8>, Seq<u8>)>|
                #[trigger] saved_state(bytes@, id, public, es) ==> ((r is Ok) == (signature_slot_decodes(
                    map_of(es),
                    public,
                ) && signature_key_readable(map_of(es), public))),
            r matches Ok(c) ==> restored_from(bytes@, c.identity_bytes(), c.signature_key(), c.stored()),
            r matches Ok(c) ==> (c.intact() == store_intact(c.stored())),
            r matches Err(e) ==> e is State,
    {
        let parts = match unframe(bytes, 3) {
            Some(p) => p,
            None => return Err(Error::State),
        };
        let entries = match decode_store(parts[2]) {
            Some(es) => es,
            None => {
                proof {
                    assert forall|id: Seq<u8>, public: Seq<u8>, es: Seq<(Seq<u8>, Seq<u8>)>|
                        !#[trigger] saved_state(bytes@, id, public, es) by {
                        if saved_state(bytes@, id, public, es) {
                            let f = seq![id, public, store_encoding(es)];
                            assert(fields_fit(f)) by {
                                assert forall|i: int| 0 <= i < f.len() implies #[trigger] f[i].len() <= u32::MAX by {}
                            }
                            lemma_frame_injective(f, slices_view(parts@));
                            assert(f[2] == slices_view(parts@)[2]);
                        }
                    }
                }
                return Err(Error::State);
            },
        };
        let identity = crate::bytes::slice_to_vec(parts[0]);
        let public = parts[1];
        let ghost saved = pairs_view(entries@);
        assert(slices_view(parts@) =~= seq![identity@, public@, store_encoding(saved)]);
        assert(saved_state(bytes@, identity@, public@, saved));
        proof {
            assert forall|id: Seq<u8>, pk: Seq<u8>, es: Seq<(Seq<u8>, Seq<u8>)>|
                #[trigger] saved_state(bytes@, id, pk, es) implies id == identity@ && pk == public@ && es == saved by {
                lemma_state_round_trip(identity@, public@, saved, id, pk, es);
            }
        }
        let mut provider = new_provider();
        let n = entries.len();
        let mut i: usize = 0;
        while i < n
            invariant
                i <= n,
                n == entries@.len(),
                saved == pairs_view(entries@),
                key_store(provider) == map_of(saved.take(i as int)),
            decreases n - i,
        {
            assert(saved.take(i + 1).drop_last() =~= saved.take(i as int));
            key_store_insert(
                &mut provider,
                crate::bytes::copy_vec(&entries[i].0),
                crate::bytes::copy_vec(&entries[i].1),
            );
            i = i + 1;
        }
        assert(saved.take(n as int) =~= saved);
        let slot = match signature_storage_key(public) {
            Some(k) => k,
            None => return Err(Error::State),
        };
        match last_with_key(&entries, slot.as_slice()) {
            Some(j) => {
                if !key_pair_json_decodes(entries[j].1.as_slice()) {
                    return Err(Error::State);
                }
            },
            None => {},
        }
        let signer = match read_signature_key_pair(&provider, public) {
            Some(s) => s,
            None => return Err(Error::State),
        };
        let credential = basic_credential_with_key(identity.as_slice(), &signer);
        let c = GroupClient { provider, signer, public: crate::bytes::slice_to_vec(public), credential, identity };
        assert(c.identity_bytes() == identity@);
        assert(c.stored() == map_of(saved));
        assert(saved_state(bytes@, c.identity_bytes(), public@, saved) && c.stored() == map_of(saved));
        assert(restored_from(bytes@, c.identity_bytes(), c.signature_key(), c.stored()));
        Ok(c)
    }
}

/// The saved state of a client with this identity, signature public key
/// and key store.
pub open spec fn state_encoding(identity: Seq<u8>, public: Seq<u8>, entries: Seq<(Seq<u8>, Seq<u8>)>) -> Seq<u8> {
    frame_spec(seq![identity, public, store_encoding(entries)])
}

/// Every length in a saved state fits its `u32` prefix.
pub open spec fn state_fits(identity: Seq<u8>, public: Seq<u8>, entries: Seq<(Seq<u8>, Seq<u8>)>) -> bool {
    &&& identity.len() <= u32::MAX
    &&& public.len() <= u32::MAX
    &&& entries_fit(entries)
    &&& store_encoding(entries).len() <= u32::MAX
}

/// `bytes` is the saved state of a client with this identity, signature
/// public key and key store.
pub open spec fn saved_state(bytes: Seq<u8>, identity: Seq<u8>, public: Seq<u8>, entries: Seq<(Seq<u8>, Seq<u8>)>) -> bool {
    &&& state_fits(identity, public, entries)
    &&& bytes == state_encoding(identity, public, entries)
}

/// What [`GroupClient::export_state`] writes, [`GroupClient::import_state`]
/// reads back: the same identity, signature public key and key store.
pub proof fn lemma_state_round_trip(
    identity: Seq<u8>,
    public: Seq<u8>,
    entries: Seq<(Seq<u8>, Seq<u8>)>,
    identity2: Seq<u8>,
    public2: Seq<u8>,
    entries2: Seq<(Seq<u8>, Seq<u8>)>,
)
    requires
        state_fits(identity, public, entries),
        saved_state(state_encoding(identity, public, entries), identity2, public2, entries2),
    ensures
        state_readable(state_encoding(identity, public, entries)),
        identity2 == identity,
        public2 == public,
        entries2 == entries,
{
    let a = seq![identity, public, store_encoding(entries)];
    let b = seq![identity2, public2, store_encoding(entries2)];
    assert(fields_fit(a)) by {
        assert forall|i: int| 0 <= i < a.len() implies #[trigger] a[i].len() <= u32::MAX by {}
    }
    assert(fields_fit(b)) by {
        assert forall|i: int| 0 <= i < b.len() implies #[trigger] b[i].len() <= u32::MAX by {}
    }
    lemma_frame_injective(a, b);
    assert(a[0] == b[0] && a[1] == b[1] && a[2] == b[2]);
    lemma_store_encoding_injective(entries, entries2);
    assert(saved_state(state_encoding(identity, public, entries), identity, public, entries));
}

/// Saved state followed by more bytes is not saved state, so
/// [`GroupClient::import_state`] refuses it rather than reading a prefix.
pub proof fn lemma_state_no_trailing_bytes(bytes: Seq<u8>, extra: Seq<u8>)
    requires
        state_readable(bytes),
        extra.len() > 0,
    ensures
        !state_readable(bytes + extra),
{
    let (id, pk, es) = choose|id: Seq<u8>, pk: Seq<u8>, es: Seq<(Seq<u8>, Seq<u8>)>|
        #[trigger] saved_state(bytes, id, pk, es);
    if state_readable(bytes + extra) {
        let (id2, pk2, es2) = choose|id: Seq<u8>, pk: Seq<u8>, es: Seq<(Seq<u8>, Seq<u8>)>|
            #[trigger] saved_state(bytes + extra, id, pk, es);
        let a = seq![id, pk, store_encoding(es)];
        let b = seq![id2, pk2, store_encoding(es2)];
        assert(fields_fit(a)) by {
            assert forall|i: int| 0 <= i < a.len() implies #[trigger] a[i].len() <= u32::MAX by {}
        }
        assert(fields_fit(b)) by {
            assert forall|i: int| 0 <= i < b.len() implies #[trigger] b[i].len() <= u32::MAX by {}
        }
        assert((bytes + extra).subrange(0, bytes.len() as int) =~= bytes);
        lemma_frame_prefix(a, b);
        assert(frame_spec(a) == frame_spec(b));
        assert((bytes + extra).len() == bytes.len() + extra.len());
    }
}

/// `bytes` is the saved state of a client with this identity, signature
/// public key and a key store holding `store`.
pub open spec fn restored_from(
    bytes: Seq<u8>,
    identity: Seq<u8>,
    public: Seq<u8>,
    store: Map<Seq<u8>, Seq<u8>>,
) -> bool {
    exists|es: Seq<(Seq<u8>, Seq<u8>)>| #[trigger] saved_state(bytes, identity, public, es) && map_of(es) == store
}

/// `bytes` is the saved state of some client.
pub open spec fn state_readable(bytes: Seq<u8>) -> bool {
    exists|id: Seq<u8>, public: Seq<u8>, es: Seq<(Seq<u8>, Seq<u8>)>| #[trigger] saved_state(bytes, id, public, es)
}

/// What [`GroupClient::key_package`]'s owner must send after adding a member.
pub struct AddResult {
    /// Commit to fan out to every existing member (already merged locally).
    pub commit: Vec<u8>,
    /// Welcome to send to the newly added member only.
    pub welcome: Vec<u8>,
}

/// What an inbound message turned out to be, after [`Group::process`].
#[derive(Debug, Clone, PartialEq, Eq)]
pub enum GroupEvent {
    /// A decrypted application message and its sender's identity bytes.
    Application { sender: Vec<u8>, plaintext: Vec<u8> },
    /// A membership change (add/remove/update) was applied to the group.
    MembershipChanged,
    /// A bare proposal was received and staged; nothing to show yet.
    Proposal,
}

/// One MLS group conversation. Operations take the owning [`GroupClient`]
/// so they can reach its key store and signer.
pub struct Group {
    mls_group: MlsGroup,
}

impl Group {
    /// This group's id.
    pub fn group_id(&self) -> Vec<u8> {
        group_id_bytes(&self.mls_group)
    }

    /// The group's members: each one's leaf index and, for a basic
    /// credential, its identity bytes, in the group's order.
    pub closed spec fn roster(&self) -> Seq<(u32, Option<Seq<u8>>)> {
        group_roster(self.mls_group)
    }

    /// Identity bytes of every current member with a basic credential, in
    /// the group's order.
    pub fn members(&self) -> (ids: Vec<Vec<u8>>)
        ensures
            vecs_view(ids@) == identities_of(self.roster()),
    {
        let list = group_members(&self.mls_group);
        member_identities(&list)
    }

    /// The leaf index of the first member with the given identity, if
    /// present: the handle [`Group::remove_member`] takes.
    pub fn member_index(&self, identity: &[u8]) -> (r: Option<u32>)
        ensures
            r == index_of(self.roster(), identity@),
            r matches Some(i) ==> exists|j: int|
                0 <= j < self.roster().len() && #[trigger] self.roster()[j] == (i, Some(identity@)),
    {
        proof {
            lemma_index_of_exact(self.roster(), identity@);
        }
        let list = group_members(&self.mls_group);
        member_index_of(&list, identity)
    }

    /// Add a member from their published key-package bytes: the commit (for
    /// existing members) and welcome (for the newcomer). The change is merged
    /// into this local group before returning.
    pub fn add_member(&mut self, client: &mut GroupClient, key_package: &[u8]) -> (r: Result<AddResult, Error>)
        requires
            old(client).intact(),
        ensures
            final(client).intact(),
            r matches Err(e) ==> is_mls_failure(e),
            final(client).identity_bytes() == old(client).identity_bytes(),
            final(client).signature_key() == old(client).signature_key(),
            signature_keys_kept(old(client).stored(), final(client).stored()),
    {
        let kp = validated_key_package(&client.provider, key_package, protocol_version(MLS_VERSION_CODE))?;
        let (commit, welcome) = add_members(&mut self.mls_group, &mut client.provider, &client.signer, kp)?;
        let ghost mid = client.stored();
        let merged = merge_pending_commit(&mut self.mls_group, &mut client.provider);
        proof {
            lemma_keys_kept_trans(old(client).stored(), mid, client.stored());
        }
        match merged {
            Ok(()) => Ok(AddResult { commit, welcome }),
            Err(m) => Err(Error::Mls(m)),
        }
    }

    /// Remove the member at `member_index` (see [`Group::member_index`]):
    /// the commit to fan out, merged locally before returning.
    pub fn remove_member(&mut self, client: &mut GroupClient, member_index: u32) -> (r: Result<Vec<u8>, Error>)
        requires
            old(client).intact(),
        ensures
            final(client).intact(),
            r matches Err(e) ==> is_mls_failure(e),
            final(client).identity_bytes() == old(client).identity_bytes(),
            final(client).signature_key() == old(client).signature_key(),
            signature_keys_kept(old(client).stored(), final(client).stored()),
    {
        let commit = remove_members(&mut self.mls_group, &mut client.provider, &client.signer, member_index)?;
        let ghost mid = client.stored();
        let merged = merge_pending_commit(&mut self.mls_group, &mut client.provider);
        proof {
            lemma_keys_kept_trans(old(client).stored(), mid, client.stored());
        }
        match merged {
            Ok(()) => Ok(commit),
            Err(m) => Err(Error::Mls(m)),
        }
    }

    /// Encrypt an application message for the group: transport-ready bytes
    /// to fan out to every other member.
    pub fn send(&mut self, client: &mut GroupClient, plaintext: &[u8]) -> (r: Result<Vec<u8>, Error>)
        requires
            old(client).intact(),
        ensures
            final(client).intact(),
            r matches Err(e) ==> is_mls_failure(e),
            final(client).identity_bytes() == old(client).identity_bytes(),
            final(client).signature_key() == old(client).signature_key(),
            signature_keys_kept(old(client).stored(), final(client).stored()),
    {
        create_message(&mut self.mls_group, &mut client.provider, &client.signer, plaintext)
    }

    /// The group's state as OpenMLS holds it.
    pub closed spec fn state(&self) -> MlsGroup {
        self.mls_group
    }

    /// Process an inbound message, applying a membership change to the
    /// local group. It succeeds exactly when OpenMLS accepts the message
    /// (and merges a commit), and then gives the event [`group_event`] makes
    /// of what OpenMLS reported: an application message with its sender's
    /// identity (empty unless the credential is a basic one) and plaintext, a
    /// membership change, or a proposal.
    pub fn process(&mut self, client: &mut GroupClient, message: &[u8]) -> (r: Result<GroupEvent, Error>)
        requires
            old(client).intact(),
        ensures
            final(client).intact(),
            r matches Err(e) ==> is_mls_failure(e),
            (r is Ok) == (processing(old(self).state(), old(client).stored(), message@) is Some),
            r matches Ok(ev) ==> (processing(old(self).state(), old(client).stored(), message@) matches Some(
                (s, k),
            ) && event_for(s, k, ev)),
            !mls_message_parses(message@) ==> (r matches Err(e) && e is Codec) && final(client).stored() == old(
                client,
            ).stored(),
            final(client).identity_bytes() == old(client).identity_bytes(),
            final(client).signature_key() == old(client).signature_key(),
            signature_keys_kept(old(client).stored(), final(client).stored()),
    {
        let (sender, kind) = process_message(&mut self.mls_group, &mut client.provider, message)?;
        let ghost sv = opt_view(sender);
        let ghost kv = kind_view(kind);
        let ev = group_event(sender, kind);
        assert(event_for(sv, kv, ev));
        Ok(ev)
    }
}

/// The kind of an inbound group message, as OpenMLS reported it (a commit
/// already merged into the local group).
pub enum MessageKind {
    /// An application message with its decrypted plaintext.
    Application(Vec<u8>),
    /// A commit changing the membership or keys.
    Commit,
    /// A bare proposal.
    Proposal,
}

/// The view of a [`MessageKind`].
pub enum KindView {
    Application(Seq<u8>),
    Commit,
    Proposal,
}

pub open spec fn kind_view(k: MessageKind) -> KindView {
    match k {
        MessageKind::Application(p) => KindView::Application(p@),
        MessageKind::Commit => KindView::Commit,
        MessageKind::Proposal => KindView::Proposal,
    }
}

pub open spec fn opt_view(o: Option<Vec<u8>>) -> Option<Seq<u8>> {
    match o {
        Some(v) => Some(v@),
        None => None,
    }
}

/// `ev` is the event for a message of this kind from a sender whose
/// credential carries this identity (`None`: not a basic credential).
pub open spec fn event_for(sender: Option<Seq<u8>>, kind: KindView, ev: GroupEvent) -> bool {
    match kind {
        KindView::Application(plaintext) => ev matches GroupEvent::Application { sender: s, plaintext: p }
            && p@ == plaintext && s@ == match sender {
            Some(id) => id,
            None => Seq::empty(),
        },
        KindView::Commit => ev is MembershipChanged,
        KindView::Proposal => ev is Proposal,
    }
}

/// The event for a message of `kind` whose sender's credential carries the
/// identity `sender` (`None` when it is not a basic credential): an
/// application message with its sender (empty when unknown) and plaintext,
/// a membership change for a commit, or a proposal.
pub fn group_event(sender: Option<Vec<u8>>, kind: MessageKind) -> (ev: GroupEvent)
    ensures
        event_for(opt_view(sender), kind_view(kind), ev),
{
    match kind {
        MessageKind::Application(plaintext) => {
            let sender = match sender {
                Some(id) => id,
                None => Vec::new(),
            };
            GroupEvent::Application { sender, plaintext }
        },
        MessageKind::Commit => GroupEvent::MembershipChanged,
        MessageKind::Proposal => GroupEvent::Proposal,
    }
}

} // verus!
