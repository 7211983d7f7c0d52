//! Bluetooth store-carry-forward mesh routing: messaging with no internet by
//! hopping phone-to-phone over short-range radio.
//!
//! This is transport-only routing logic; the radio I/O belongs to the app,
//! which asks a [`MeshNode`] *what* to send and tells it what arrived.
//!
//! * Every message becomes a [`MeshFrame`] with a random `msg_id`, a
//!   `recipient` identity, a hop-limited `ttl`, and an opaque encrypted
//!   `payload`.
//! * Nodes flood frames to every peer they meet, but dedup by `msg_id` so a
//!   frame is processed once and doesn't loop.
//! * Nodes store frames they've seen and re-offer them to each newly
//!   encountered peer ("carry-forward").
//! * `ttl` bounds how far a frame travels; a bounded seen-set and store bound
//!   memory against floods.
use vstd::prelude::*;

use crate::codec::{
    all_fit, encode_fields, field_bytes, field_key16, field_key32, field_u8, fields_view, fits, is_prefix,
    parse_fields, ser_fields, Field, FieldV, Shape,
};
use crate::crypto::getrandom_array;
use crate::transport::{MessageTransport, TransportError};

verus! {

/// Default hop budget for a newly originated frame.
pub const DEFAULT_TTL: u8 = 16;

/// Cap on remembered `msg_id`s for dedup (bounds memory under a flood).
pub const SEEN_CAP: usize = 8192;

/// Cap on stored frames available for carry-forward (bounds memory).
pub const STORE_CAP: usize = 2048;

/// A single mesh frame as it travels device-to-device over the radio. The
/// `recipient` is visible to carriers (metadata); the payload is end-to-end
/// encrypted.
#[derive(Clone, Debug, PartialEq, Eq)]
pub struct MeshFrame {
    /// Random per-message identifier, used for flood dedup.
    pub msg_id: [u8; 16],
    /// Routing target: the recipient's 32-byte identity (or a rotating inbox ID).
    pub recipient: [u8; 32],
    /// Remaining hop budget. Decremented each forward; a frame at 0 is not relayed.
    pub ttl: u8,
    /// Opaque, end-to-end-encrypted payload.
    pub payload: Vec<u8>,
}

/// The mathematical value of a frame.
pub struct FrameView {
    pub msg_id: Seq<u8>,
    pub recipient: Seq<u8>,
    pub ttl: u8,
    pub payload: Seq<u8>,
}

impl View for MeshFrame {
    type V = FrameView;

    open spec fn view(&self) -> FrameView {
        FrameView { msg_id: self.msg_id@, recipient: self.recipient@, ttl: self.ttl, payload: self.payload@ }
    }
}

/// Errors from mesh frame handling.
#[derive(Debug, Clone)]
pub enum MeshError {
    /// A received frame could not be decoded.
    Decode(String),
}

impl MeshError {
    /// `"mesh frame decode error: "` followed by the detail.
    pub fn to_string(&self) -> (s: String)
        ensures
            match self {
                MeshError::Decode(m) => s@ == "mesh frame decode error: "@ + m@,
            },
    {
        match self {
            MeshError::Decode(m) => {
                let mut s = String::from_str("mesh frame decode error: ");
                s.append(m.as_str());
                s
            },
        }
    }
}

/// The layout of a frame on the air: id, recipient, ttl, length-prefixed
/// payload.
pub open spec fn frame_shapes() -> Seq<Shape> {
    seq![Shape::Fixed(16), Shape::Fixed(32), Shape::U8, Shape::Bytes]
}

pub open spec fn frame_fields(f: FrameView) -> Seq<FieldV> {
    seq![FieldV::Fixed(f.msg_id), FieldV::Fixed(f.recipient), FieldV::U8(f.ttl), FieldV::Bytes(f.payload)]
}

/// The bytes [`MeshFrame::encode`] produces.
pub open spec fn spec_frame_encoding(f: FrameView) -> Seq<u8> {
    ser_fields(frame_fields(f))
}

proof fn lemma_frame_fits(f: MeshFrame)
    ensures
        all_fit(frame_fields(f@), frame_shapes()),
{
    assert(f.payload.len() == f.payload@.len());
    assert(fits(frame_fields(f@)[3], frame_shapes()[3]));
}

/// A frame reads back as itself: two frames whose encodings both begin `t`
/// are the same frame, so [`MeshFrame::decode`] of an encoded frame gives
/// that frame.
pub proof fn lemma_frame_encoding_unique(a: MeshFrame, b: MeshFrame, t: Seq<u8>)
    requires
        is_prefix(spec_frame_encoding(a@), t),
        is_prefix(spec_frame_encoding(b@), t),
    ensures
        a@ == b@,
{
    lemma_frame_fits(a);
    lemma_frame_fits(b);
    crate::codec::lemma_fields_unique(frame_fields(a@), frame_fields(b@), frame_shapes(), t);
    assert(frame_fields(a@)[0] == frame_fields(b@)[0]);
    assert(frame_fields(a@)[1] == frame_fields(b@)[1]);
    assert(frame_fields(a@)[2] == frame_fields(b@)[2]);
    assert(frame_fields(a@)[3] == frame_fields(b@)[3]);
}

fn frame_shape_vec() -> (v: Vec<Shape>)
    ensures
        v@ == frame_shapes(),
{
    let mut v: Vec<Shape> = Vec::new();
    v.push(Shape::Fixed(16));
    v.push(Shape::Fixed(32));
    v.push(Shape::U8);
    v.push(Shape::Bytes);
    assert(v@ =~= frame_shapes());
    v
}

impl MeshFrame {
    /// A copy of the frame.
    pub fn copy(&self) -> (f: MeshFrame)
        ensures
            f@ == self@,
    {
        MeshFrame {
            msg_id: self.msg_id,
            recipient: self.recipient,
            ttl: self.ttl,
            payload: crate::bytes::copy_vec(&self.payload),
        }
    }

    /// Serialize for transmission over the radio link.
    pub fn encode(&self) -> (out: Vec<u8>)
        ensures
            out@ == spec_frame_encoding(self@),
    {
        let mut fs: Vec<Field> = Vec::new();
        fs.push(Field::Fixed(crate::bytes::slice_to_vec(self.msg_id.as_slice())));
        fs.push(Field::Fixed(crate::bytes::array_to_vec32(&self.recipient)));
        fs.push(Field::U8(self.ttl));
        fs.push(Field::Bytes(crate::bytes::copy_vec(&self.payload)));
        assert(fields_view(fs@) =~= frame_fields(self@));
        encode_fields(&fs)
    }

    /// Parse a frame received from the radio link: succeeds exactly when
    /// `bytes` begins with the encoding of a frame (trailing bytes are
    /// ignored).
    pub fn decode(bytes: &[u8]) -> (r: core::result::Result<MeshFrame, MeshError>)
        ensures
            match r {
                Ok(f) => is_prefix(spec_frame_encoding(f@), bytes@),
                Err(e) => e is Decode && forall|f: MeshFrame| !is_prefix(#[trigger] spec_frame_encoding(f@), bytes@),
            },
    {
        let shapes = frame_shape_vec();
        match parse_fields(bytes, 0, shapes.as_slice()) {
            Some((fs, end)) => {
                let ghost fv = fields_view(fs@);
                assert(fits(fv[0], frame_shapes()[0]));
                assert(fits(fv[1], frame_shapes()[1]));
                assert(fits(fv[2], frame_shapes()[2]));
                assert(fits(fv[3], frame_shapes()[3]));
                let f = MeshFrame {
                    msg_id: field_key16(&fs[0]),
                    recipient: field_key32(&fs[1]),
                    ttl: field_u8(&fs[2]),
                    payload: field_bytes(&fs[3]),
                };
                assert(frame_fields(f@) =~= fv);
                Ok(f)
            },
            None => {
                proof {
                    assert(bytes@.skip(0) =~= bytes@);
                    assert forall|f: MeshFrame| !is_prefix(#[trigger] spec_frame_encoding(f@), bytes@) by {
                        lemma_frame_fits(f);
                        if is_prefix(spec_frame_encoding(f@), bytes@) {
                            assert(crate::codec::some_fields_encoded(frame_shapes(), bytes@.skip(0)));
                        }
                    }
                }
                Err(MeshError::Decode(String::from_str("malformed mesh frame")))
            },
        }
    }
}

/// What happened when a node handled an incoming frame.
#[derive(Debug, Clone, Copy, PartialEq, Eq, Structural)]
pub enum Reception {
    /// Already seen this `msg_id`; ignored.
    Duplicate,
    /// Newly accepted.
    Accepted {
        /// True if this frame was addressed to us (delivered to our inbox).
        for_me: bool,
        /// True if we will carry/forward it onward (ttl still had budget).
        will_forward: bool,
    },
}

// ------------------------------------------------------------ the seen-set

/// Remember `id` as seen: a new id joins at the back, and past the cap the
/// oldest id is forgotten.
pub open spec fn seen_add(s: Seq<Seq<u8>>, id: Seq<u8>) -> Seq<Seq<u8>> {
    if s.contains(id) {
        s
    } else if s.len() + 1 > SEEN_CAP {
        s.push(id).drop_first()
    } else {
        s.push(id)
    }
}

/// Ids remembered for dedup, oldest first, each at most once.
struct SeenSet {
    ids: Vec<[u8; 16]>,
}

pub open spec fn ids_view(ids: Seq<[u8; 16]>) -> Seq<Seq<u8>> {
    ids.map_values(|id: [u8; 16]| id@)
}

impl View for SeenSet {
    type V = Seq<Seq<u8>>;

    closed spec fn view(&self) -> Seq<Seq<u8>> {
        ids_view(self.ids@)
    }
}

impl SeenSet {
    #[verifier::type_invariant]
    spec fn inv(self) -> bool {
        ids_view(self.ids@).no_duplicates() && self.ids@.len() <= SEEN_CAP
    }

    fn new() -> (s: SeenSet)
        ensures
            s@ == Seq::<Seq<u8>>::empty(),
    {
        let s = SeenSet { ids: Vec::new() };
        assert(s@ =~= Seq::<Seq<u8>>::empty());
        s
    }

    fn contains(&self, id: &[u8; 16]) -> (b: bool)
        ensures
            b == self@.contains(id@),
    {
        let mut i: usize = 0;
        while i < self.ids.len()
            invariant
                i <= self.ids@.len(),
                forall|j: int| 0 <= j < i ==> #[trigger] ids_view(self.ids@)[j] != id@,
            decreases self.ids@.len() - i,
        {
            if crate::bytes::bytes_eq(self.ids[i].as_slice(), id.as_slice()) {
                assert(ids_view(self.ids@)[i as int] == id@);
                return true;
            }
            i = i + 1;
        }
        false
    }

    fn add(&mut self, id: [u8; 16])
        ensures
            final(self)@ == seen_add(old(self)@, id@),
            final(self)@.len() <= SEEN_CAP,
            final(self)@.no_duplicates(),
    {
        proof {
            use_type_invariant(&*self);
        }
        if self.contains(&id) {
            return;
        }
        let mut ids: Vec<[u8; 16]> = Vec::new();
        std::mem::swap(&mut ids, &mut self.ids);
        let ghost before = ids_view(ids@);
        ids.push(id);
        assert(ids_view(ids@) =~= before.push(id@));
        if ids.len() > SEEN_CAP {
            ids.remove(0);
            assert(ids_view(ids@) =~= before.push(id@).drop_first());
        }
        proof {
            let v = ids_view(ids@);
            assert forall|i: int, j: int| 0 <= i < v.len() && 0 <= j < v.len() && i != j implies v[i] != v[j] by {
                let p = before.push(id@);
                if before.len() + 1 > SEEN_CAP {
                    assert(v[i] == p[i + 1] && v[j] == p[j + 1]);
                } else {
                    assert(v[i] == p[i] && v[j] == p[j]);
                }
                if p[i + 1] == id@ || p[i] == id@ {
                    assert(!before.contains(id@));
                }
            }
        }
        self.ids = ids;
    }
}

// ------------------------------------------------------------- the store

/// The position of the stored frame with `id`.
pub open spec fn store_pos(s: Seq<FrameView>, id: Seq<u8>) -> int {
    choose|i: int| 0 <= i < s.len() && s[i].msg_id == id
}

/// Some stored frame has `id`.
pub open spec fn store_has(s: Seq<FrameView>, id: Seq<u8>) -> bool {
    exists|i: int| 0 <= i < s.len() && #[trigger] s[i].msg_id == id
}

/// Store `f`: replace the frame with the same id in place, or append it and,
/// past the cap, drop the oldest.
pub open spec fn store_put(s: Seq<FrameView>, f: FrameView) -> Seq<FrameView> {
    if store_has(s, f.msg_id) {
        s.update(store_pos(s, f.msg_id), f)
    } else if s.len() + 1 > STORE_CAP {
        s.push(f).drop_first()
    } else {
        s.push(f)
    }
}

/// Every stored id is distinct.
pub open spec fn ids_distinct(s: Seq<FrameView>) -> bool {
    forall|i: int, j: int| 0 <= i < s.len() && 0 <= j < s.len() && i != j ==> s[i].msg_id != s[j].msg_id
}

pub open spec fn frames_view(fs: Seq<MeshFrame>) -> Seq<FrameView> {
    fs.map_values(|f: MeshFrame| f@)
}

/// Frames held for carry-forward, oldest first, one per id.
struct FrameStore {
    frames: Vec<MeshFrame>,
}

impl View for FrameStore {
    type V = Seq<FrameView>;

    closed spec fn view(&self) -> Seq<FrameView> {
        frames_view(self.frames@)
    }
}

impl FrameStore {
    #[verifier::type_invariant]
    spec fn inv(self) -> bool {
        ids_distinct(frames_view(self.frames@)) && self.frames@.len() <= STORE_CAP
    }

    fn new() -> (s: FrameStore)
        ensures
            s@ == Seq::<FrameView>::empty(),
    {
        let s = FrameStore { frames: Vec::new() };
        assert(s@ =~= Seq::<FrameView>::empty());
        s
    }

    fn len(&self) -> (n: usize)
        ensures
            n == self@.len(),
            n <= STORE_CAP,
    {
        proof {
            use_type_invariant(self);
        }
        self.frames.len()
    }

    fn frames(&self) -> (v: Vec<MeshFrame>)
        ensures
            frames_view(v@) == self@,
    {
        let mut v: Vec<MeshFrame> = Vec::new();
        let mut i: usize = 0;
        while i < self.frames.len()
            invariant
                i <= self.frames@.len(),
                frames_view(v@) == frames_view(self.frames@).subrange(0, i as int),
            decreases self.frames@.len() - i,
        {
            let f = self.frames[i].copy();
            assert(f@ == frames_view(self.frames@)[i as int]);
            let ghost prev = frames_view(v@);
            v.push(f);
            assert(frames_view(v@) =~= prev.push(f@));
            assert(frames_view(v@) =~= frames_view(self.frames@).subrange(0, i + 1));
            i = i + 1;
        }
        assert(frames_view(self.frames@).subrange(0, i as int) =~= frames_view(self.frames@));
        v
    }

    fn put(&mut self, frame: MeshFrame)
        ensures
            final(self)@ == store_put(old(self)@, frame@),
            final(self)@.len() <= STORE_CAP,
            ids_distinct(final(self)@),
    {
        proof {
            use_type_invariant(&*self);
        }
        let mut frames: Vec<MeshFrame> = Vec::new();
        std::mem::swap(&mut frames, &mut self.frames);
        let ghost before = frames_view(frames@);
        let mut i: usize = 0;
        while i < frames.len()
            invariant
                i <= frames@.len(),
                before == frames_view(frames@),
                before == old(self)@,
                ids_distinct(before),
                before.len() <= STORE_CAP,
                forall|j: int| 0 <= j < i ==> #[trigger] before[j].msg_id != frame.msg_id@,
            decreases frames@.len() - i,
        {
            if crate::bytes::bytes_eq(frames[i].msg_id.as_slice(), frame.msg_id.as_slice()) {
                proof {
                    assert(before[i as int].msg_id == frame.msg_id@);
                    assert(store_has(before, frame.msg_id@));
                    let k = store_pos(before, frame.msg_id@);
                    assert(0 <= k < before.len() && before[k].msg_id == frame.msg_id@);
                    assert(k == i) by {
                        if k != i {
                            assert(before[k].msg_id != before[i as int].msg_id);
                        }
                    }
                }
                frames.set(i, frame);
                proof {
                    assert(frames_view(frames@) =~= store_put(before, frame@));
                    let v = frames_view(frames@);
                    assert forall|a: int, b: int| 0 <= a < v.len() && 0 <= b < v.len() && a != b implies v[a].msg_id
                        != v[b].msg_id by {
                        assert(v[a].msg_id == before[a].msg_id);
                        assert(v[b].msg_id == before[b].msg_id);
                    }
                }
                self.frames = frames;
                return;
            }
            i = i + 1;
        }
        assert(!store_has(before, frame.msg_id@));
        frames.push(frame);
        assert(frames_view(frames@) =~= before.push(frame@));
        if frames.len() > STORE_CAP {
            frames.remove(0);
            assert(frames_view(frames@) =~= before.push(frame@).drop_first());
        }
        proof {
            let v = frames_view(frames@);
            let p = before.push(frame@);
            assert forall|a: int, b: int| 0 <= a < v.len() && 0 <= b < v.len() && a != b implies v[a].msg_id
                != v[b].msg_id by {
                if before.len() + 1 > STORE_CAP {
                    assert(v[a] == p[a + 1] && v[b] == p[b + 1]);
                } else {
                    assert(v[a] == p[a] && v[b] == p[b]);
                }
            }
        }
        self.frames = frames;
    }
}

// -------------------------------------------------------------- the node

/// One participant in the mesh. Pure routing state: no radio, no threads.
pub struct MeshNode {
    me: [u8; 32],
    ttl: u8,
    seen: SeenSet,
    store: FrameStore,
    inbox: Vec<Vec<u8>>,
}

/// The mathematical state of a [`MeshNode`].
#[verifier::ext_equal]
pub struct MeshView {
    pub me: Seq<u8>,
    pub ttl: u8,
    /// Ids remembered for dedup, oldest first.
    pub seen: Seq<Seq<u8>>,
    /// Frames offered to peers, oldest first.
    pub store: Seq<FrameView>,
    /// Payloads delivered to us and not yet taken.
    pub inbox: Seq<Seq<u8>>,
}

pub open spec fn payloads_view(v: Seq<Vec<u8>>) -> Seq<Seq<u8>> {
    v.map_values(|p: Vec<u8>| p@)
}

impl View for MeshNode {
    type V = MeshView;

    closed spec fn view(&self) -> MeshView {
        MeshView {
            me: self.me@,
            ttl: self.ttl,
            seen: self.seen@,
            store: self.store@,
            inbox: payloads_view(self.inbox@),
        }
    }
}

/// The memory bounds every node keeps: both the seen-set and the store stay
/// under their caps, and each holds an id at most once.
pub open spec fn node_bounded(v: MeshView) -> bool {
    &&& v.seen.len() <= SEEN_CAP
    &&& v.seen.no_duplicates()
    &&& v.store.len() <= STORE_CAP
    &&& ids_distinct(v.store)
}

/// The node after accepting `f` (not seen before): the id is remembered, the
/// payload delivered if it is for us, and a copy with one hop less stored if
/// any hop budget remains.
pub open spec fn accepted(old: MeshView, new: MeshView, f: FrameView) -> bool {
    let for_me = f.recipient == old.me;
    let forward = f.ttl > 1;
    &&& new.me == old.me
    &&& new.ttl == old.ttl
    &&& new.seen == seen_add(old.seen, f.msg_id)
    &&& new.inbox == if for_me {
        old.inbox.push(f.payload)
    } else {
        old.inbox
    }
    &&& new.store == if forward {
        store_put(old.store, FrameView { ttl: (f.ttl - 1) as u8, ..f })
    } else {
        old.store
    }
}

impl MeshNode {
    /// Create a node identified by our 32-byte identity key, with the default
    /// hop budget.
    pub fn new(me: [u8; 32]) -> (n: Self)
        ensures
            n@.me == me@,
            n@.ttl == DEFAULT_TTL,
            n@.seen.len() == 0,
            n@.store.len() == 0,
            n@.inbox.len() == 0,
    {
        Self::with_ttl(me, DEFAULT_TTL)
    }

    /// Create a node with a custom hop budget.
    pub fn with_ttl(me: [u8; 32], ttl: u8) -> (n: Self)
        ensures
            n@.me == me@,
            n@.ttl == ttl,
            n@.seen.len() == 0,
            n@.store.len() == 0,
            n@.inbox.len() == 0,
    {
        MeshNode { me, ttl, seen: SeenSet::new(), store: FrameStore::new(), inbox: Vec::new() }
    }

    /// The memory bounds hold of every node.
    pub(crate) fn check_bounded(&self)
        ensures
            node_bounded(self@),
    {
        proof {
            use_type_invariant(&self.seen);
            use_type_invariant(&self.store);
        }
    }

    /// Inject a new message addressed to `recipient`. Returns the frame to
    /// broadcast (it is also remembered and stored for carry-forward). The
    /// frame id is fresh randomness; `payload` must already be end-to-end
    /// encrypted.
    pub fn originate(&mut self, recipient: [u8; 32], payload: Vec<u8>) -> (f: MeshFrame)
        ensures
            f.recipient == recipient,
            f.ttl == old(self)@.ttl,
            f.payload@ == payload@,
            final(self)@ == (MeshView {
                seen: seen_add(old(self)@.seen, f.msg_id@),
                store: store_put(old(self)@.store, f@),
                ..old(self)@
            }),
    {
        let msg_id = getrandom_array::<16>();
        let frame = MeshFrame { msg_id, recipient, ttl: self.ttl, payload };
        self.seen.add(msg_id);
        self.store.put(frame.copy());
        frame
    }

    /// Process a frame received from a peer: a frame whose id was seen before
    /// is ignored; otherwise it is accepted (see [`accepted`]).
    pub fn handle_incoming(&mut self, frame: MeshFrame) -> (r: Reception)
        ensures
            old(self)@.seen.contains(frame.msg_id@) ==> r == Reception::Duplicate && final(self)@ == old(self)@,
            !old(self)@.seen.contains(frame.msg_id@) ==> r == (Reception::Accepted {
                for_me: frame.recipient@ == old(self)@.me,
                will_forward: frame.ttl > 1,
            }) && accepted(old(self)@, final(self)@, frame@),
            node_bounded(final(self)@),
    {
        if self.seen.contains(&frame.msg_id) {
            self.check_bounded();
            return Reception::Duplicate;
        }
        self.seen.add(frame.msg_id);
        let for_me = crate::bytes::bytes_eq(frame.recipient.as_slice(), self.me.as_slice());
        if for_me {
            self.inbox.push(crate::bytes::copy_vec(&frame.payload));
        }
        let forward_ttl = frame.ttl.saturating_sub(1);
        let will_forward = forward_ttl > 0;
        if will_forward {
            let mut onward = frame;
            onward.ttl = forward_ttl;
            self.store.put(onward);
        }
        self.check_bounded();
        proof {
            assert(self@.inbox =~= (if for_me {
                old(self)@.inbox.push(frame.payload@)
            } else {
                old(self)@.inbox
            }));
        }
        Reception::Accepted { for_me, will_forward }
    }

    /// Frames this node currently offers to peers (its carry-forward store),
    /// oldest first.
    pub fn outbound(&self) -> (v: Vec<MeshFrame>)
        ensures
            frames_view(v@) == self@.store,
            ids_distinct(frames_view(v@)),
    {
        self.check_bounded();
        self.store.frames()
    }

    /// What to offer a newly encountered peer: everything we're carrying.
    pub fn on_new_peer(&self) -> (v: Vec<MeshFrame>)
        ensures
            frames_view(v@) == self@.store,
            ids_distinct(frames_view(v@)),
    {
        self.outbound()
    }

    /// Drain payloads addressed to us that have arrived so far.
    pub fn take_inbox(&mut self) -> (v: Vec<Vec<u8>>)
        ensures
            payloads_view(v@) == old(self)@.inbox,
            final(self)@ == (MeshView { inbox: Seq::empty(), ..old(self)@ }),
    {
        let mut v: Vec<Vec<u8>> = Vec::new();
        std::mem::swap(&mut v, &mut self.inbox);
        assert(self@ =~= (MeshView { inbox: Seq::empty(), ..old(self)@ }));
        v
    }

    /// Number of frames currently held for carry-forward.
    pub fn stored(&self) -> (n: usize)
        ensures
            n == self@.store.len(),
            n <= STORE_CAP,
    {
        self.store.len()
    }
}

/// A frame a node has just accepted is recognized as a duplicate from then on:
/// remembering an id keeps it remembered, whatever is forgotten.
pub proof fn lemma_seen_after_add(s: Seq<Seq<u8>>, id: Seq<u8>)
    ensures
        seen_add(s, id).contains(id),
{
    if !s.contains(id) {
        let p = s.push(id);
        assert(p[p.len() - 1] == id);
        if s.len() + 1 > SEEN_CAP {
            assert(p.drop_first()[p.len() - 2] == id);
        }
    }
}

/// A frame whose hop budget is 1 or less is never stored for forwarding, and
/// a stored copy always carries one hop less than the frame that arrived.
pub proof fn lemma_ttl_decreases(old: MeshView, new: MeshView, f: FrameView)
    requires
        accepted(old, new, f),
    ensures
        f.ttl <= 1 ==> new.store == old.store,
        f.ttl > 1 ==> new.store == store_put(old.store, FrameView { ttl: (f.ttl - 1) as u8, ..f }),
{
}

// --------------------------------------------------------- the transport

/// A [`MessageTransport`] backed by a [`MeshNode`], so the mesh is
/// interchangeable with the relay transport. `send` originates a frame;
/// `receive` drains the inbox for this node's identity. The app's radio layer calls
/// [`MeshTransport::ingest`] for each received frame and broadcasts
/// [`MeshTransport::pending_broadcast`].
pub struct MeshTransport {
    node: MeshNode,
}

impl View for MeshTransport {
    type V = MeshView;

    closed spec fn view(&self) -> MeshView {
        self.node@
    }
}

pub open spec fn encodings_of(bs: Seq<Vec<u8>>, fs: Seq<FrameView>) -> bool {
    &&& bs.len() == fs.len()
    &&& forall|i: int| 0 <= i < bs.len() ==> (#[trigger] bs[i])@ == spec_frame_encoding(fs[i])
}

impl MeshTransport {
    /// Wrap a node as a transport.
    pub fn new(node: MeshNode) -> (t: Self)
        ensures
            t@ == node@,
    {
        MeshTransport { node }
    }

    /// Feed a raw frame received from the radio into the mesh. A frame that
    /// does not decode is refused and the node is untouched.
    pub fn ingest(&mut self, frame_bytes: &[u8]) -> (r: core::result::Result<Reception, TransportError>)
        ensures
            match r {
                Ok(rec) => exists|f: MeshFrame|
                    is_prefix(#[trigger] spec_frame_encoding(f@), frame_bytes@) && (if old(self)@.seen.contains(
                        f.msg_id@,
                    ) {
                        rec == Reception::Duplicate && final(self)@ == old(self)@
                    } else {
                        rec == (Reception::Accepted {
                            for_me: f.recipient@ == old(self)@.me,
                            will_forward: f.ttl > 1,
                        }) && accepted(old(self)@, final(self)@, f@)
                    }),
                Err(_) => final(self)@ == old(self)@ && forall|f: MeshFrame|
                    !is_prefix(#[trigger] spec_frame_encoding(f@), frame_bytes@),
            },
    {
        let frame = match MeshFrame::decode(frame_bytes) {
            Ok(f) => f,
            Err(e) => return Err(TransportError(e.to_string())),
        };
        let ghost fr = frame;
        let rec = self.node.handle_incoming(frame);
        assert(is_prefix(spec_frame_encoding(fr@), frame_bytes@));
        Ok(rec)
    }

    /// Encoded frames the radio should broadcast (the carry-forward store).
    pub fn pending_broadcast(&self) -> (v: Vec<Vec<u8>>)
        ensures
            encodings_of(v@, self@.store),
    {
        let frames = self.node.outbound();
        let mut v: Vec<Vec<u8>> = Vec::new();
        let mut i: usize = 0;
        while i < frames.len()
            invariant
                i <= frames@.len(),
                frames_view(frames@) == self@.store,
                v@.len() == i,
                forall|j: int| 0 <= j < i ==> (#[trigger] v@[j])@ == spec_frame_encoding(frames_view(frames@)[j]),
            decreases frames@.len() - i,
        {
            v.push(frames[i].encode());
            i = i + 1;
        }
        v
    }
}

/// `new` is `old` after originating a frame (with a fresh id) for
/// `recipient` carrying `payload`: the id is remembered and the frame stored
/// for carry-forward with the node's hop budget.
pub open spec fn originated(old: MeshView, new: MeshView, recipient: Seq<u8>, payload: Seq<u8>) -> bool {
    exists|f: FrameView|
        f.recipient == recipient && f.payload == payload && f.ttl == old.ttl && new == (MeshView {
            seen: seen_add(old.seen, f.msg_id),
            store: #[trigger] store_put(old.store, f),
            ..old
        })
}

impl MessageTransport for MeshTransport {
    /// Originate a frame for `recipient`. Never fails.
    fn send(&mut self, recipient: &[u8; 32], payload: &[u8]) -> (r: core::result::Result<(), TransportError>)
        ensures
            r is Ok,
            originated(old(self)@, final(self)@, recipient@, payload@),
    {
        let frame = self.node.originate(*recipient, crate::bytes::slice_to_vec(payload));
        assert(final(self)@ == (MeshView {
            seen: seen_add(old(self)@.seen, frame@.msg_id),
            store: store_put(old(self)@.store, frame@),
            ..old(self)@
        }));
        Ok(())
    }

    /// The payloads addressed to `me`. The inbox only ever holds payloads
    /// whose recipient is this node's identity, so for that identity the
    /// inbox is drained (every payload delivered so far, in arrival order);
    /// for any other identity nothing is addressed to it here, and the node
    /// is untouched. Never fails.
    fn receive(&mut self, me: &[u8; 32]) -> (r: core::result::Result<Vec<Vec<u8>>, TransportError>)
        ensures
            me@ == old(self)@.me ==> (r matches Ok(v) && payloads_view(v@) == old(self)@.inbox)
                && final(self)@ == (MeshView { inbox: Seq::empty(), ..old(self)@ }),
            me@ != old(self)@.me ==> (r matches Ok(v) && v@.len() == 0) && final(self)@ == old(self)@,
    {
        if crate::bytes::bytes_eq(me.as_slice(), self.node.me.as_slice()) {
            Ok(self.node.take_inbox())
        } else {
            Ok(Vec::new())
        }
    }
}

} // verus!
