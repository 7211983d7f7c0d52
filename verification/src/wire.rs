//! On-the-wire data types and their binary encoding.
//!
//! Wire types hold *plain bytes only* — never live key objects — so the relay
//! handling them can never be handed anything secret by construction.
//!
//! Each type's view is its field list in the record format of
//! [`crate::codec`]; the encoding is that field list, serialized. Decoding is
//! exact: it succeeds precisely on inputs that begin with an encoding, and
//! then returns the (unique) value encoded there.
use vstd::prelude::*;

use crate::codec::{
    all_fit, encode_fields, field_bytes, field_key32, field_opt_key32, field_opt_u32, field_u32,
    fields_view, fits, is_prefix, lemma_all_fit_append, lemma_fields_prefix_join,
    lemma_fields_prefix_split, lemma_fields_unique, lemma_prefix_of_prefix, opt_key32_field,
    parse_fields, ser_fields, Field, FieldV, Shape,
};
use crate::error::{wire_error, Error, Result};

verus! {

/// Current wire protocol version. Bumped on any breaking change to these types.
pub const PROTOCOL_VERSION: u8 = 1;

/// A batch of one-time prekey public keys, as `(id, x25519_public)` pairs.
pub type OneTimePrekeyPublics = Vec<(u32, [u8; 32])>;

/// A published prekey bundle. Everything here is public and signed by the
/// owner's long-term identity key so a malicious prekey server cannot swap in
/// its own keys to mount a MITM.
#[derive(Debug, PartialEq, Eq)]
pub struct PreKeyBundle {
    /// Ed25519 identity verifying key (the stable, human-verifiable identity).
    pub identity_ed: [u8; 32],
    /// X25519 long-term identity DH key.
    pub identity_dh: [u8; 32],
    /// Signature by `identity_ed` over `identity_dh`.
    pub identity_dh_sig: Vec<u8>,
    /// Medium-term signed prekey (X25519), rotated periodically.
    pub signed_prekey: [u8; 32],
    /// Identifier for the signed prekey.
    pub signed_prekey_id: u32,
    /// Signature by `identity_ed` over `signed_prekey`.
    pub signed_prekey_sig: Vec<u8>,
    /// ML-KEM-1024 encapsulation key for the post-quantum handshake leg.
    pub kyber_prekey: Vec<u8>,
    /// Identifier for the Kyber prekey.
    pub kyber_prekey_id: u32,
    /// Signature by `identity_ed` over `kyber_prekey`.
    pub kyber_prekey_sig: Vec<u8>,
    /// Optional one-time prekey (X25519). Consumed on use.
    pub one_time_prekey: Option<[u8; 32]>,
    /// Identifier for the one-time prekey, if present.
    pub one_time_prekey_id: Option<u32>,
}

/// Per-message Double Ratchet header (public metadata needed to advance the
/// ratchet on the receiving side).
#[derive(Debug, PartialEq, Eq)]
pub struct RatchetHeader {
    /// Sender's current ratchet public key (X25519).
    pub dh_pub: [u8; 32],
    /// Number of messages in the previous sending chain.
    pub pn: u32,
    /// Message number within the current sending chain.
    pub n: u32,
}

/// The extra header carried on the initiator's first message(s), letting the
/// responder reconstruct the shared secret (X3DH + ML-KEM, "PQXDH").
#[derive(Debug, PartialEq, Eq)]
pub struct HandshakeHeader {
    /// Initiator's Ed25519 identity verifying key.
    pub identity_ed: [u8; 32],
    /// Initiator's X25519 long-term identity DH key.
    pub identity_dh: [u8; 32],
    /// Initiator's ephemeral X25519 key for this handshake.
    pub ephemeral_dh: [u8; 32],
    /// Which of the responder's signed prekeys was used.
    pub signed_prekey_id: u32,
    /// Which one-time prekey was consumed, if any.
    pub one_time_prekey_id: Option<u32>,
    /// Which Kyber prekey was targeted.
    pub kyber_prekey_id: u32,
    /// ML-KEM ciphertext encapsulating the PQ shared secret to the responder.
    pub kyber_ciphertext: Vec<u8>,
}

/// A wire message: either an initial "prekey" message that carries the
/// handshake header, or a normal ratchet message.
#[derive(Debug, PartialEq, Eq)]
pub enum Message {
    /// First message of a session, includes the handshake header.
    PreKey { handshake: HandshakeHeader, header: RatchetHeader, ciphertext: Vec<u8> },
    /// Subsequent messages once the session is established.
    Normal { header: RatchetHeader, ciphertext: Vec<u8> },
}

/// The view of an optional 32-byte key.
pub open spec fn opt_key_view(o: Option<[u8; 32]>) -> Option<Seq<u8>> {
    match o {
        Some(a) => Some(a@),
        None => None,
    }
}

// ------------------------------------------------------------ field lists

impl View for RatchetHeader {
    type V = Seq<FieldV>;

    open spec fn view(&self) -> Seq<FieldV> {
        seq![FieldV::Fixed(self.dh_pub@), FieldV::U32(self.pn), FieldV::U32(self.n)]
    }
}

pub open spec fn ratchet_header_shapes() -> Seq<Shape> {
    seq![Shape::Fixed(32), Shape::U32, Shape::U32]
}

impl View for HandshakeHeader {
    type V = Seq<FieldV>;

    open spec fn view(&self) -> Seq<FieldV> {
        seq![
            FieldV::Fixed(self.identity_ed@),
            FieldV::Fixed(self.identity_dh@),
            FieldV::Fixed(self.ephemeral_dh@),
            FieldV::U32(self.signed_prekey_id),
            FieldV::OptU32(self.one_time_prekey_id),
            FieldV::U32(self.kyber_prekey_id),
            FieldV::Bytes(self.kyber_ciphertext@),
        ]
    }
}

pub open spec fn handshake_header_shapes() -> Seq<Shape> {
    seq![
        Shape::Fixed(32),
        Shape::Fixed(32),
        Shape::Fixed(32),
        Shape::U32,
        Shape::OptU32,
        Shape::U32,
        Shape::Bytes,
    ]
}

impl View for PreKeyBundle {
    type V = Seq<FieldV>;

    open spec fn view(&self) -> Seq<FieldV> {
        seq![
            FieldV::Fixed(self.identity_ed@),
            FieldV::Fixed(self.identity_dh@),
            FieldV::Bytes(self.identity_dh_sig@),
            FieldV::Fixed(self.signed_prekey@),
            FieldV::U32(self.signed_prekey_id),
            FieldV::Bytes(self.signed_prekey_sig@),
            FieldV::Bytes(self.kyber_prekey@),
            FieldV::U32(self.kyber_prekey_id),
            FieldV::Bytes(self.kyber_prekey_sig@),
            FieldV::OptFixed(opt_key_view(self.one_time_prekey)),
            FieldV::OptU32(self.one_time_prekey_id),
        ]
    }
}

pub open spec fn bundle_shapes() -> Seq<Shape> {
    seq![
        Shape::Fixed(32),
        Shape::Fixed(32),
        Shape::Bytes,
        Shape::Fixed(32),
        Shape::U32,
        Shape::Bytes,
        Shape::Bytes,
        Shape::U32,
        Shape::Bytes,
        Shape::OptFixed(32),
        Shape::OptU32,
    ]
}

impl View for Message {
    type V = Seq<FieldV>;

    /// The variant tag (`0` prekey, `1` normal) followed by the variant's fields.
    open spec fn view(&self) -> Seq<FieldV> {
        match self {
            Message::PreKey { handshake, header, ciphertext } => seq![FieldV::U32(0)] + handshake@
                + header@ + seq![FieldV::Bytes(ciphertext@)],
            Message::Normal { header, ciphertext } => seq![FieldV::U32(1)] + header@ + seq![
                FieldV::Bytes(ciphertext@),
            ],
        }
    }
}

pub open spec fn prekey_body_shapes() -> Seq<Shape> {
    handshake_header_shapes() + ratchet_header_shapes() + seq![Shape::Bytes]
}

pub open spec fn normal_body_shapes() -> Seq<Shape> {
    ratchet_header_shapes() + seq![Shape::Bytes]
}

/// The bytes [`Message::encode`] produces: the protocol version byte, then the
/// message's record.
pub open spec fn spec_message_encoding(m: Message) -> Seq<u8> {
    seq![PROTOCOL_VERSION] + ser_fields(m@)
}

/// The bytes [`PreKeyBundle::encode`] produces.
pub open spec fn spec_bundle_encoding(b: PreKeyBundle) -> Seq<u8> {
    ser_fields(b@)
}

/// The bytes of a ratchet header in associated data.
pub open spec fn spec_header_encoding(h: RatchetHeader) -> Seq<u8> {
    ser_fields(h@)
}

proof fn lemma_fits_bytes(v: Vec<u8>)
    ensures
        fits(FieldV::Bytes(v@), Shape::Bytes),
{
    assert(v.len() == v@.len());
}

pub proof fn lemma_header_fits(h: RatchetHeader)
    ensures
        all_fit(h@, ratchet_header_shapes()),
{
}

pub proof fn lemma_handshake_fits(h: HandshakeHeader)
    ensures
        all_fit(h@, handshake_header_shapes()),
{
    lemma_fits_bytes(h.kyber_ciphertext);
}

pub proof fn lemma_bundle_fits(b: PreKeyBundle)
    ensures
        all_fit(b@, bundle_shapes()),
{
    lemma_fits_bytes(b.identity_dh_sig);
    lemma_fits_bytes(b.signed_prekey_sig);
    lemma_fits_bytes(b.kyber_prekey);
    lemma_fits_bytes(b.kyber_prekey_sig);
    assert(fits(b@[9], bundle_shapes()[9]));
}

/// The fields of a message after its tag, with their shapes.
pub proof fn lemma_message_body(m: Message)
    ensures
        m@ == seq![m@[0]] + m@.drop_first(),
        match m {
            Message::PreKey { .. } => m@[0] == FieldV::U32(0) && all_fit(m@.drop_first(), prekey_body_shapes()),
            Message::Normal { .. } => m@[0] == FieldV::U32(1) && all_fit(m@.drop_first(), normal_body_shapes()),
        },
{
    assert(m@ =~= seq![m@[0]] + m@.drop_first());
    match m {
        Message::PreKey { handshake, header, ciphertext } => {
            lemma_handshake_fits(handshake);
            lemma_header_fits(header);
            lemma_fits_bytes(ciphertext);
            let body = handshake@ + header@ + seq![FieldV::Bytes(ciphertext@)];
            assert(m@.drop_first() =~= body);
            lemma_all_fit_append(handshake@, handshake_header_shapes(), header@, ratchet_header_shapes());
            assert(all_fit(seq![FieldV::Bytes(ciphertext@)], seq![Shape::Bytes]));
            lemma_all_fit_append(
                handshake@ + header@,
                handshake_header_shapes() + ratchet_header_shapes(),
                seq![FieldV::Bytes(ciphertext@)],
                seq![Shape::Bytes],
            );
        },
        Message::Normal { header, ciphertext } => {
            lemma_header_fits(header);
            lemma_fits_bytes(ciphertext);
            assert(m@.drop_first() =~= header@ + seq![FieldV::Bytes(ciphertext@)]);
            assert(all_fit(seq![FieldV::Bytes(ciphertext@)], seq![Shape::Bytes]));
            lemma_all_fit_append(header@, ratchet_header_shapes(), seq![FieldV::Bytes(ciphertext@)], seq![Shape::Bytes]);
        },
    }
}

// ----------------------------------------------------------- shape lists

fn ratchet_header_shape_vec() -> (v: Vec<Shape>)
    ensures
        v@ == ratchet_header_shapes(),
{
    let mut v: Vec<Shape> = Vec::new();
    v.push(Shape::Fixed(32));
    v.push(Shape::U32);
    v.push(Shape::U32);
    assert(v@ =~= ratchet_header_shapes());
    v
}

pub(crate) fn handshake_header_shape_vec() -> (v: Vec<Shape>)
    ensures
        v@ == handshake_header_shapes(),
{
    let mut v: Vec<Shape> = Vec::new();
    v.push(Shape::Fixed(32));
    v.push(Shape::Fixed(32));
    v.push(Shape::Fixed(32));
    v.push(Shape::U32);
    v.push(Shape::OptU32);
    v.push(Shape::U32);
    v.push(Shape::Bytes);
    assert(v@ =~= handshake_header_shapes());
    v
}

fn bundle_shape_vec() -> (v: Vec<Shape>)
    ensures
        v@ == bundle_shapes(),
{
    let mut v: Vec<Shape> = Vec::new();
    v.push(Shape::Fixed(32));
    v.push(Shape::Fixed(32));
    v.push(Shape::Bytes);
    v.push(Shape::Fixed(32));
    v.push(Shape::U32);
    v.push(Shape::Bytes);
    v.push(Shape::Bytes);
    v.push(Shape::U32);
    v.push(Shape::Bytes);
    v.push(Shape::OptFixed(32));
    v.push(Shape::OptU32);
    assert(v@ =~= bundle_shapes());
    v
}

fn prekey_body_shape_vec() -> (v: Vec<Shape>)
    ensures
        v@ == prekey_body_shapes(),
{
    let mut v = handshake_header_shape_vec();
    v.push(Shape::Fixed(32));
    v.push(Shape::U32);
    v.push(Shape::U32);
    v.push(Shape::Bytes);
    assert(v@ =~= prekey_body_shapes());
    v
}

fn normal_body_shape_vec() -> (v: Vec<Shape>)
    ensures
        v@ == normal_body_shapes(),
{
    let mut v = ratchet_header_shape_vec();
    v.push(Shape::Bytes);
    assert(v@ =~= normal_body_shapes());
    v
}

// ------------------------------------------------------- to / from fields

impl RatchetHeader {
    /// The header's fields.
    pub fn to_fields(&self) -> (fs: Vec<Field>)
        ensures
            fields_view(fs@) == self@,
    {
        let mut fs: Vec<Field> = Vec::new();
        fs.push(Field::Fixed(crate::bytes::array_to_vec32(&self.dh_pub)));
        fs.push(Field::U32(self.pn));
        fs.push(Field::U32(self.n));
        assert(fields_view(fs@) =~= self@);
        fs
    }

    /// A header from fields of its shape, starting at index `at`.
    pub fn from_fields(fs: &Vec<Field>, at: usize) -> (h: RatchetHeader)
        requires
            at + 3 <= fs@.len(),
            all_fit(fields_view(fs@).subrange(at as int, at + 3), ratchet_header_shapes()),
        ensures
            h@ == fields_view(fs@).subrange(at as int, at + 3),
    {
        let _n = fs.len();
        let ghost sub = fields_view(fs@).subrange(at as int, at + 3);
        assert(fits(sub[0], ratchet_header_shapes()[0]));
        assert(fits(sub[1], ratchet_header_shapes()[1]));
        assert(fits(sub[2], ratchet_header_shapes()[2]));
        let h = RatchetHeader {
            dh_pub: field_key32(&fs[at]),
            pn: field_u32(&fs[at + 1]),
            n: field_u32(&fs[at + 2]),
        };
        assert(h@ =~= sub);
        h
    }

    /// Canonical encoding of the header (as bound into associated data).
    pub fn encode(&self) -> (out: Vec<u8>)
        ensures
            out@ == spec_header_encoding(*self),
    {
        encode_fields(&self.to_fields())
    }

    /// A copy of the header.
    pub fn copy(&self) -> (h: RatchetHeader)
        ensures
            h == *self,
    {
        RatchetHeader { dh_pub: self.dh_pub, pn: self.pn, n: self.n }
    }
}

impl HandshakeHeader {
    /// The header's fields.
    pub fn to_fields(&self) -> (fs: Vec<Field>)
        ensures
            fields_view(fs@) == self@,
    {
        let mut fs: Vec<Field> = Vec::new();
        fs.push(Field::Fixed(crate::bytes::array_to_vec32(&self.identity_ed)));
        fs.push(Field::Fixed(crate::bytes::array_to_vec32(&self.identity_dh)));
        fs.push(Field::Fixed(crate::bytes::array_to_vec32(&self.ephemeral_dh)));
        fs.push(Field::U32(self.signed_prekey_id));
        fs.push(Field::OptU32(self.one_time_prekey_id));
        fs.push(Field::U32(self.kyber_prekey_id));
        fs.push(Field::Bytes(crate::bytes::copy_vec(&self.kyber_ciphertext)));
        assert(fields_view(fs@) =~= self@);
        fs
    }

    /// A header from fields of its shape, starting at index `at`.
    pub fn from_fields(fs: &Vec<Field>, at: usize) -> (h: HandshakeHeader)
        requires
            at + 7 <= fs@.len(),
            all_fit(fields_view(fs@).subrange(at as int, at + 7), handshake_header_shapes()),
        ensures
            h@ == fields_view(fs@).subrange(at as int, at + 7),
    {
        let _n = fs.len();
        let ghost sub = fields_view(fs@).subrange(at as int, at + 7);
        assert(fits(sub[0], handshake_header_shapes()[0]));
        assert(fits(sub[1], handshake_header_shapes()[1]));
        assert(fits(sub[2], handshake_header_shapes()[2]));
        assert(fits(sub[3], handshake_header_shapes()[3]));
        assert(fits(sub[4], handshake_header_shapes()[4]));
        assert(fits(sub[5], handshake_header_shapes()[5]));
        assert(fits(sub[6], handshake_header_shapes()[6]));
        let h = HandshakeHeader {
            identity_ed: field_key32(&fs[at]),
            identity_dh: field_key32(&fs[at + 1]),
            ephemeral_dh: field_key32(&fs[at + 2]),
            signed_prekey_id: field_u32(&fs[at + 3]),
            one_time_prekey_id: field_opt_u32(&fs[at + 4]),
            kyber_prekey_id: field_u32(&fs[at + 5]),
            kyber_ciphertext: field_bytes(&fs[at + 6]),
        };
        assert(h@ =~= sub);
        h
    }

    /// A copy of the header.
    pub fn copy(&self) -> (h: HandshakeHeader)
        ensures
            h@ == self@,
    {
        let h = HandshakeHeader {
            identity_ed: self.identity_ed,
            identity_dh: self.identity_dh,
            ephemeral_dh: self.ephemeral_dh,
            signed_prekey_id: self.signed_prekey_id,
            one_time_prekey_id: self.one_time_prekey_id,
            kyber_prekey_id: self.kyber_prekey_id,
            kyber_ciphertext: crate::bytes::copy_vec(&self.kyber_ciphertext),
        };
        assert(h@ =~= self@);
        h
    }
}

impl PreKeyBundle {
    /// The bundle's fields.
    pub fn to_fields(&self) -> (fs: Vec<Field>)
        ensures
            fields_view(fs@) == self@,
    {
        let mut fs: Vec<Field> = Vec::new();
        fs.push(Field::Fixed(crate::bytes::array_to_vec32(&self.identity_ed)));
        fs.push(Field::Fixed(crate::bytes::array_to_vec32(&self.identity_dh)));
        fs.push(Field::Bytes(crate::bytes::copy_vec(&self.identity_dh_sig)));
        fs.push(Field::Fixed(crate::bytes::array_to_vec32(&self.signed_prekey)));
        fs.push(Field::U32(self.signed_prekey_id));
        fs.push(Field::Bytes(crate::bytes::copy_vec(&self.signed_prekey_sig)));
        fs.push(Field::Bytes(crate::bytes::copy_vec(&self.kyber_prekey)));
        fs.push(Field::U32(self.kyber_prekey_id));
        fs.push(Field::Bytes(crate::bytes::copy_vec(&self.kyber_prekey_sig)));
        fs.push(opt_key32_field(&self.one_time_prekey));
        fs.push(Field::OptU32(self.one_time_prekey_id));
        assert(fields_view(fs@) =~= self@);
        fs
    }

    /// A bundle from fields of its shape.
    pub fn from_fields(fs: &Vec<Field>) -> (b: PreKeyBundle)
        requires
            all_fit(fields_view(fs@), bundle_shapes()),
        ensures
            b@ == fields_view(fs@),
    {
        let ghost fv = fields_view(fs@);
        assert(fits(fv[0], bundle_shapes()[0]));
        assert(fits(fv[1], bundle_shapes()[1]));
        assert(fits(fv[2], bundle_shapes()[2]));
        assert(fits(fv[3], bundle_shapes()[3]));
        assert(fits(fv[4], bundle_shapes()[4]));
        assert(fits(fv[5], bundle_shapes()[5]));
        assert(fits(fv[6], bundle_shapes()[6]));
        assert(fits(fv[7], bundle_shapes()[7]));
        assert(fits(fv[8], bundle_shapes()[8]));
        assert(fits(fv[9], bundle_shapes()[9]));
        assert(fits(fv[10], bundle_shapes()[10]));
        let b = PreKeyBundle {
            identity_ed: field_key32(&fs[0]),
            identity_dh: field_key32(&fs[1]),
            identity_dh_sig: field_bytes(&fs[2]),
            signed_prekey: field_key32(&fs[3]),
            signed_prekey_id: field_u32(&fs[4]),
            signed_prekey_sig: field_bytes(&fs[5]),
            kyber_prekey: field_bytes(&fs[6]),
            kyber_prekey_id: field_u32(&fs[7]),
            kyber_prekey_sig: field_bytes(&fs[8]),
            one_time_prekey: field_opt_key32(&fs[9]),
            one_time_prekey_id: field_opt_u32(&fs[10]),
        };
        assert(b@ =~= fv);
        b
    }

    /// Serialize the bundle for publication to a prekey server.
    pub fn encode(&self) -> (out: Vec<u8>)
        ensures
            out@ == spec_bundle_encoding(*self),
    {
        encode_fields(&self.to_fields())
    }

    /// Parse a published bundle: succeeds exactly when `bytes` begins with the
    /// encoding of some bundle, returning that bundle.
    pub fn decode(bytes: &[u8]) -> (r: Result<PreKeyBundle>)
        ensures
            match r {
                Ok(b) => is_prefix(spec_bundle_encoding(b), bytes@),
                Err(e) => e is Wire && forall|b: PreKeyBundle| !is_prefix(spec_bundle_encoding(b), bytes@),
            },
            r matches Err(e) ==> e matches Error::Wire(m) && m@ == "malformed prekey bundle"@,
    {
        let shapes = bundle_shape_vec();
        match parse_fields(bytes, 0, shapes.as_slice()) {
            Some((fs, end)) => {
                let b = PreKeyBundle::from_fields(&fs);
                assert(bytes@.skip(0) =~= bytes@);
                assert(bytes@.subrange(0, end as int) == ser_fields(b@));
                Ok(b)
            },
            None => {
                proof {
                    assert(bytes@.skip(0) =~= bytes@);
                    assert forall|b: PreKeyBundle| !is_prefix(spec_bundle_encoding(b), bytes@) by {
                        lemma_bundle_fits(b);
                    }
                }
                Err(wire_error("malformed prekey bundle"))
            },
        }
    }

    /// A copy of the bundle.
    pub fn copy(&self) -> (b: PreKeyBundle)
        ensures
            b@ == self@,
    {
        let b = PreKeyBundle {
            identity_ed: self.identity_ed,
            identity_dh: self.identity_dh,
            identity_dh_sig: crate::bytes::copy_vec(&self.identity_dh_sig),
            signed_prekey: self.signed_prekey,
            signed_prekey_id: self.signed_prekey_id,
            signed_prekey_sig: crate::bytes::copy_vec(&self.signed_prekey_sig),
            kyber_prekey: crate::bytes::copy_vec(&self.kyber_prekey),
            kyber_prekey_id: self.kyber_prekey_id,
            kyber_prekey_sig: crate::bytes::copy_vec(&self.kyber_prekey_sig),
            one_time_prekey: self.one_time_prekey,
            one_time_prekey_id: self.one_time_prekey_id,
        };
        assert(b@ =~= self@);
        b
    }
}

impl Message {
    /// The ratchet header, regardless of variant.
    pub fn header(&self) -> (h: &RatchetHeader)
        ensures
            *h == match self {
                Message::PreKey { header, .. } => *header,
                Message::Normal { header, .. } => *header,
            },
    {
        match self {
            Message::PreKey { header, .. } => header,
            Message::Normal { header, .. } => header,
        }
    }

    /// Serialize to bytes for transmission: the protocol version, then the
    /// message record.
    pub fn encode(&self) -> (out: Vec<u8>)
        ensures
            out@ == spec_message_encoding(*self),
    {
        let mut fs: Vec<Field> = Vec::new();
        match self {
            Message::PreKey { handshake, header, ciphertext } => {
                fs.push(Field::U32(0));
                let mut hs = handshake.to_fields();
                let mut hd = header.to_fields();
                fs.append(&mut hs);
                fs.append(&mut hd);
                fs.push(Field::Bytes(crate::bytes::copy_vec(ciphertext)));
            },
            Message::Normal { header, ciphertext } => {
                fs.push(Field::U32(1));
                let mut hd = header.to_fields();
                fs.append(&mut hd);
                fs.push(Field::Bytes(crate::bytes::copy_vec(ciphertext)));
            },
        }
        assert(fields_view(fs@) =~= self@);
        let body = encode_fields(&fs);
        let mut out: Vec<u8> = Vec::new();
        out.push(PROTOCOL_VERSION);
        crate::bytes::push_all(&mut out, body.as_slice());
        assert(out@ =~= spec_message_encoding(*self));
        out
    }

    /// Parse bytes produced by [`Message::encode`]: succeeds exactly when
    /// `bytes` begins with the encoding of some message, returning it.
    pub fn decode(bytes: &[u8]) -> (r: Result<Message>)
        ensures
            match r {
                Ok(m) => is_prefix(spec_message_encoding(m), bytes@),
                Err(e) => e is Wire && forall|m: Message| !is_prefix(spec_message_encoding(m), bytes@),
            },
    {
        if bytes.len() == 0 {
            return Err(wire_error("empty message"));
        }
        if bytes[0] != PROTOCOL_VERSION {
            proof {
                assert forall|m: Message| !is_prefix(spec_message_encoding(m), bytes@) by {
                    if is_prefix(spec_message_encoding(m), bytes@) {
                        assert(spec_message_encoding(m)[0] == bytes@[0]);
                    }
                }
            }
            return Err(wire_error("unsupported protocol version"));
        }
        let ghost t = bytes@.skip(1);
        let mut tag_shape: Vec<Shape> = Vec::new();
        tag_shape.push(Shape::U32);
        let tag_parsed = parse_fields(bytes, 1, tag_shape.as_slice());
        let (tag_fields, pos) = match tag_parsed {
            Some(p) => p,
            None => {
                proof {
                    assert forall|m: Message| !is_prefix(spec_message_encoding(m), bytes@) by {
                        if is_prefix(spec_message_encoding(m), bytes@) {
                            self::lemma_message_prefix(m, bytes@);
                            lemma_message_body(m);
                            lemma_fields_prefix_split(seq![m@[0]], m@.drop_first(), t);
                            assert(all_fit(seq![m@[0]], tag_shape@));
                        }
                    }
                }
                return Err(wire_error("truncated message"));
            },
        };
        assert(fits(fields_view(tag_fields@)[0], tag_shape@[0]));
        let tag = field_u32(&tag_fields[0]);
        let ghost tagv = fields_view(tag_fields@);
        assert(tagv =~= seq![FieldV::U32(tag)]);
        proof {
            assert(is_prefix(ser_fields(tagv), t)) by {
                assert(t.subrange(0, ser_fields(tagv).len() as int) =~= bytes@.subrange(1, pos as int));
            }
        }
        if tag == 0 {
            let shapes = prekey_body_shape_vec();
            match parse_fields(bytes, pos, shapes.as_slice()) {
                Some((fs, end)) => {
                    let ghost fv = fields_view(fs@);
                    proof {
                        assert(fv.subrange(0, 7) =~= fv.subrange(0, 7));
                        assert forall|i: int| 0 <= i < 7 implies #[trigger] fits(fv.subrange(0, 7)[i], handshake_header_shapes()[i]) by {
                            assert(fits(fv[i], prekey_body_shapes()[i]));
                        }
                        assert forall|i: int| 0 <= i < 3 implies #[trigger] fits(fv.subrange(7, 10)[i], ratchet_header_shapes()[i]) by {
                            assert(fits(fv[i + 7], prekey_body_shapes()[i + 7]));
                        }
                        assert(fits(fv[10], prekey_body_shapes()[10]));
                    }
                    let handshake = HandshakeHeader::from_fields(&fs, 0);
                    let header = RatchetHeader::from_fields(&fs, 7);
                    let ciphertext = field_bytes(&fs[10]);
                    let m = Message::PreKey { handshake, header, ciphertext };
                    proof {
                        assert(m@ =~= tagv + fv);
                        assert(t.skip(ser_fields(tagv).len() as int) =~= bytes@.skip(pos as int));
                        assert(bytes@.skip(pos as int).subrange(0, ser_fields(fv).len() as int)
                            =~= bytes@.subrange(pos as int, end as int));
                        lemma_fields_prefix_join(tagv, fv, t);
                        self::lemma_message_prefix_back(m, bytes@);
                    }
                    Ok(m)
                },
                None => {
                    proof {
                        assert forall|m: Message| !is_prefix(spec_message_encoding(m), bytes@) by {
                            if is_prefix(spec_message_encoding(m), bytes@) {
                                self::lemma_message_prefix(m, bytes@);
                                lemma_message_body(m);
                                lemma_fields_prefix_split(seq![m@[0]], m@.drop_first(), t);
                                assert(all_fit(seq![m@[0]], tag_shape@));
                                lemma_fields_unique(seq![m@[0]], tagv, tag_shape@, t);
                                assert(t.skip(ser_fields(tagv).len() as int) =~= bytes@.skip(pos as int));
                            }
                        }
                    }
                    Err(wire_error("malformed prekey message"))
                },
            }
        } else if tag == 1 {
            let shapes = normal_body_shape_vec();
            match parse_fields(bytes, pos, shapes.as_slice()) {
                Some((fs, end)) => {
                    let ghost fv = fields_view(fs@);
                    proof {
                        assert forall|i: int| 0 <= i < 3 implies #[trigger] fits(fv.subrange(0, 3)[i], ratchet_header_shapes()[i]) by {
                            assert(fits(fv[i], normal_body_shapes()[i]));
                        }
                        assert(fits(fv[3], normal_body_shapes()[3]));
                    }
                    let header = RatchetHeader::from_fields(&fs, 0);
                    let ciphertext = field_bytes(&fs[3]);
                    let m = Message::Normal { header, ciphertext };
                    proof {
                        assert(m@ =~= tagv + fv);
                        assert(t.skip(ser_fields(tagv).len() as int) =~= bytes@.skip(pos as int));
                        assert(bytes@.skip(pos as int).subrange(0, ser_fields(fv).len() as int)
                            =~= bytes@.subrange(pos as int, end as int));
                        lemma_fields_prefix_join(tagv, fv, t);
                        self::lemma_message_prefix_back(m, bytes@);
                    }
                    Ok(m)
                },
                None => {
                    proof {
                        assert forall|m: Message| !is_prefix(spec_message_encoding(m), bytes@) by {
                            if is_prefix(spec_message_encoding(m), bytes@) {
                                self::lemma_message_prefix(m, bytes@);
                                lemma_message_body(m);
                                lemma_fields_prefix_split(seq![m@[0]], m@.drop_first(), t);
                                assert(all_fit(seq![m@[0]], tag_shape@));
                                lemma_fields_unique(seq![m@[0]], tagv, tag_shape@, t);
                                assert(t.skip(ser_fields(tagv).len() as int) =~= bytes@.skip(pos as int));
                            }
                        }
                    }
                    Err(wire_error("malformed message"))
                },
            }
        } else {
            proof {
                assert forall|m: Message| !is_prefix(spec_message_encoding(m), bytes@) by {
                    if is_prefix(spec_message_encoding(m), bytes@) {
                        self::lemma_message_prefix(m, bytes@);
                        lemma_message_body(m);
                        lemma_fields_prefix_split(seq![m@[0]], m@.drop_first(), t);
                        assert(all_fit(seq![m@[0]], tag_shape@));
                        lemma_fields_unique(seq![m@[0]], tagv, tag_shape@, t);
                    }
                }
            }
            Err(wire_error("unknown message kind"))
        }
    }

    /// A copy of the message.
    pub fn copy(&self) -> (m: Message)
        ensures
            m@ == self@,
    {
        match self {
            Message::PreKey { handshake, header, ciphertext } => Message::PreKey {
                handshake: handshake.copy(),
                header: header.copy(),
                ciphertext: crate::bytes::copy_vec(ciphertext),
            },
            Message::Normal { header, ciphertext } => Message::Normal {
                header: header.copy(),
                ciphertext: crate::bytes::copy_vec(ciphertext),
            },
        }
    }
}

/// A message encoding prefixing `t` means its record prefixes `t` after the
/// version byte.
proof fn lemma_message_prefix(m: Message, t: Seq<u8>)
    requires
        is_prefix(spec_message_encoding(m), t),
    ensures
        is_prefix(ser_fields(m@), t.skip(1)),
{
    lemma_prefix_of_prefix(seq![PROTOCOL_VERSION], ser_fields(m@), t);
}

proof fn lemma_message_prefix_back(m: Message, t: Seq<u8>)
    requires
        t.len() > 0,
        t[0] == PROTOCOL_VERSION,
        is_prefix(ser_fields(m@), t.skip(1)),
    ensures
        is_prefix(spec_message_encoding(m), t),
{
    let n = ser_fields(m@).len() as int;
    assert(t.subrange(0, n + 1) =~= seq![PROTOCOL_VERSION] + t.skip(1).subrange(0, n));
}

/// Decoding an encoding gives back the same bundle.
pub proof fn lemma_bundle_encoding_unique(a: PreKeyBundle, b: PreKeyBundle, t: Seq<u8>)
    requires
        is_prefix(spec_bundle_encoding(a), t),
        is_prefix(spec_bundle_encoding(b), t),
    ensures
        a@ == b@,
{
    lemma_bundle_fits(a);
    lemma_bundle_fits(b);
    lemma_fields_unique(a@, b@, bundle_shapes(), t);
}

/// Two messages whose encodings both begin `t` are the same message.
pub proof fn lemma_message_encoding_unique(a: Message, b: Message, t: Seq<u8>)
    requires
        is_prefix(spec_message_encoding(a), t),
        is_prefix(spec_message_encoding(b), t),
    ensures
        a@ == b@,
{
    lemma_message_prefix(a, t);
    lemma_message_prefix(b, t);
    lemma_message_body(a);
    lemma_message_body(b);
    let t1 = t.skip(1);
    lemma_fields_prefix_split(seq![a@[0]], a@.drop_first(), t1);
    lemma_fields_prefix_split(seq![b@[0]], b@.drop_first(), t1);
    assert(all_fit(seq![a@[0]], seq![Shape::U32]));
    assert(all_fit(seq![b@[0]], seq![Shape::U32]));
    lemma_fields_unique(seq![a@[0]], seq![b@[0]], seq![Shape::U32], t1);
    assert(seq![a@[0]][0] == seq![b@[0]][0]);
    let skip = ser_fields(seq![a@[0]]).len() as int;
    match (a, b) {
        (Message::PreKey { .. }, Message::PreKey { .. }) => {
            lemma_fields_unique(a@.drop_first(), b@.drop_first(), prekey_body_shapes(), t1.skip(skip));
        },
        (Message::Normal { .. }, Message::Normal { .. }) => {
            lemma_fields_unique(a@.drop_first(), b@.drop_first(), normal_body_shapes(), t1.skip(skip));
        },
        _ => {},
    }
}

} // verus!
