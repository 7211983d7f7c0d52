//! The binary record format shared by every on-the-wire and at-rest type.
//!
//! A record is a flat sequence of fields, each laid out the way the `bincode`
//! (1.x, fixed-int, little-endian) format lays out the corresponding Rust
//! value, so encodings stay byte-compatible with that format:
//!
//! | field          | bytes                                         |
//! |----------------|-----------------------------------------------|
//! | `U8`           | the byte                                      |
//! | `U32` / `U64`  | little-endian, 4 / 8 bytes                    |
//! | `Fixed(n)`     | exactly `n` raw bytes (a `[u8; n]`)           |
//! | `Bytes`        | `u64` length, then the bytes (a `Vec<u8>`)    |
//! | `OptFixed(n)`  | tag `0`, or tag `1` then `n` bytes            |
//! | `OptU32`       | tag `0`, or tag `1` then a `U32`              |
//!
//! [`parse_fields`] is exact: it succeeds precisely when the input begins with
//! the encoding of some field list of the requested shape, and then returns
//! that (unique) list. Trailing input is allowed and left unread.
use vstd::prelude::*;
use vstd::bytes::*;

verus! {

broadcast use vstd::seq_lib::group_seq_properties;

/// The layout expected at one position of a record.
#[derive(Clone, Copy, PartialEq, Eq, Debug)]
pub enum Shape {
    U8,
    U32,
    U64,
    Fixed(usize),
    Bytes,
    OptFixed(usize),
    OptU32,
}

/// One decoded field.
#[derive(Debug)]
pub enum Field {
    U8(u8),
    U32(u32),
    U64(u64),
    Fixed(Vec<u8>),
    Bytes(Vec<u8>),
    OptFixed(Option<Vec<u8>>),
    OptU32(Option<u32>),
}

/// The mathematical value of a field.
pub enum FieldV {
    U8(u8),
    U32(u32),
    U64(u64),
    Fixed(Seq<u8>),
    Bytes(Seq<u8>),
    OptFixed(Option<Seq<u8>>),
    OptU32(Option<u32>),
}

impl View for Field {
    type V = FieldV;

    open spec fn view(&self) -> FieldV {
        match self {
            Field::U8(x) => FieldV::U8(*x),
            Field::U32(x) => FieldV::U32(*x),
            Field::U64(x) => FieldV::U64(*x),
            Field::Fixed(b) => FieldV::Fixed(b@),
            Field::Bytes(b) => FieldV::Bytes(b@),
            Field::OptFixed(o) => FieldV::OptFixed(
                match o {
                    Some(b) => Some(b@),
                    None => None,
                },
            ),
            Field::OptU32(o) => FieldV::OptU32(*o),
        }
    }
}

/// The views of a list of fields.
pub open spec fn fields_view(fs: Seq<Field>) -> Seq<FieldV> {
    fs.map_values(|f: Field| f@)
}

/// `a` is a prefix of `b`.
pub open spec fn is_prefix(a: Seq<u8>, b: Seq<u8>) -> bool {
    a.len() <= b.len() && b.subrange(0, a.len() as int) == a
}

/// Encoding of a length-prefixed byte string.
pub open spec fn ser_len_bytes(b: Seq<u8>) -> Seq<u8> {
    spec_u64_to_le_bytes(b.len() as u64) + b
}

/// Encoding of one field.
pub open spec fn ser_field(f: FieldV) -> Seq<u8> {
    match f {
        FieldV::U8(x) => seq![x],
        FieldV::U32(x) => spec_u32_to_le_bytes(x),
        FieldV::U64(x) => spec_u64_to_le_bytes(x),
        FieldV::Fixed(b) => b,
        FieldV::Bytes(b) => ser_len_bytes(b),
        FieldV::OptFixed(o) => match o {
            None => seq![0u8],
            Some(b) => seq![1u8] + b,
        },
        FieldV::OptU32(o) => match o {
            None => seq![0u8],
            Some(x) => seq![1u8] + spec_u32_to_le_bytes(x),
        },
    }
}

/// Whether a field value has the given shape.
pub open spec fn fits(f: FieldV, s: Shape) -> bool {
    match (f, s) {
        (FieldV::U8(_), Shape::U8) => true,
        (FieldV::U32(_), Shape::U32) => true,
        (FieldV::U64(_), Shape::U64) => true,
        (FieldV::Fixed(b), Shape::Fixed(n)) => b.len() == n,
        (FieldV::Bytes(b), Shape::Bytes) => b.len() <= u64::MAX,
        (FieldV::OptFixed(o), Shape::OptFixed(n)) => match o {
            Some(b) => b.len() == n,
            None => true,
        },
        (FieldV::OptU32(_), Shape::OptU32) => true,
        _ => false,
    }
}

/// Encoding of a list of fields: the field encodings, concatenated.
pub open spec fn ser_fields(fs: Seq<FieldV>) -> Seq<u8>
    decreases fs.len(),
{
    if fs.len() == 0 {
        Seq::empty()
    } else {
        ser_field(fs[0]) + ser_fields(fs.drop_first())
    }
}

/// Whether a list of field values has the given list of shapes.
pub open spec fn all_fit(fs: Seq<FieldV>, shapes: Seq<Shape>) -> bool {
    &&& fs.len() == shapes.len()
    &&& forall|i: int| 0 <= i < fs.len() ==> #[trigger] fits(fs[i], shapes[i])
}

/// Whether some field list of shape `shapes` is encoded at the start of `t`.
pub open spec fn some_fields_encoded(shapes: Seq<Shape>, t: Seq<u8>) -> bool {
    exists|fs: Seq<FieldV>| all_fit(fs, shapes) && is_prefix(ser_fields(fs), t)
}

pub proof fn lemma_ser_fields_append(a: Seq<FieldV>, b: Seq<FieldV>)
    ensures
        ser_fields(a + b) == ser_fields(a) + ser_fields(b),
    decreases a.len(),
{
    if a.len() == 0 {
        assert(a + b =~= b);
    } else {
        lemma_ser_fields_append(a.drop_first(), b);
        assert((a + b).drop_first() =~= a.drop_first() + b);
    }
}

pub proof fn lemma_ser_fields_push(a: Seq<FieldV>, f: FieldV)
    ensures
        ser_fields(a.push(f)) == ser_fields(a) + ser_field(f),
{
    lemma_ser_fields_append(a, seq![f]);
    assert(a + seq![f] =~= a.push(f));
    assert(seq![f].drop_first() =~= Seq::<FieldV>::empty());
    assert(ser_fields(Seq::<FieldV>::empty()) == Seq::<u8>::empty());
    assert(ser_fields(seq![f]) == ser_field(seq![f][0]) + ser_fields(seq![f].drop_first()));
    assert(ser_fields(seq![f]) =~= ser_field(f));
}

pub proof fn lemma_prefix_of_prefix(a: Seq<u8>, b: Seq<u8>, t: Seq<u8>)
    requires
        is_prefix(a + b, t),
    ensures
        is_prefix(a, t),
        is_prefix(b, t.skip(a.len() as int)),
{
    assert(t.subrange(0, a.len() as int) =~= (a + b).subrange(0, a.len() as int));
    assert(t.skip(a.len() as int).subrange(0, b.len() as int) =~= (a + b).subrange(
        a.len() as int,
        (a + b).len() as int,
    ));
}

proof fn lemma_u32_bytes(x: u32)
    ensures
        spec_u32_to_le_bytes(x).len() == 4,
        spec_u32_from_le_bytes(spec_u32_to_le_bytes(x)) == x,
{
    lemma_auto_spec_u32_to_from_le_bytes();
    assert(spec_u32_to_le_bytes(x).len() == 4);
}

proof fn lemma_u64_bytes(x: u64)
    ensures
        spec_u64_to_le_bytes(x).len() == 8,
        spec_u64_from_le_bytes(spec_u64_to_le_bytes(x)) == x,
{
    lemma_auto_spec_u64_to_from_le_bytes();
}

/// Two fields of one shape whose encodings both start `t` are equal.
pub proof fn lemma_field_unique(f1: FieldV, f2: FieldV, s: Shape, t: Seq<u8>)
    requires
        fits(f1, s),
        fits(f2, s),
        is_prefix(ser_field(f1), t),
        is_prefix(ser_field(f2), t),
    ensures
        f1 == f2,
{
    match (f1, f2) {
        (FieldV::U8(a), FieldV::U8(b)) => {
            assert(ser_field(f1)[0] == t[0]);
            assert(ser_field(f2)[0] == t[0]);
        },
        (FieldV::U32(a), FieldV::U32(b)) => {
            lemma_u32_bytes(a);
            lemma_u32_bytes(b);
            assert(spec_u32_to_le_bytes(a) == t.subrange(0, 4));
            assert(spec_u32_to_le_bytes(b) == t.subrange(0, 4));
        },
        (FieldV::U64(a), FieldV::U64(b)) => {
            lemma_u64_bytes(a);
            lemma_u64_bytes(b);
            assert(spec_u64_to_le_bytes(a) == t.subrange(0, 8));
            assert(spec_u64_to_le_bytes(b) == t.subrange(0, 8));
        },
        (FieldV::Fixed(a), FieldV::Fixed(b)) => {
            assert(a == t.subrange(0, a.len() as int));
            assert(b == t.subrange(0, b.len() as int));
        },
        (FieldV::Bytes(a), FieldV::Bytes(b)) => {
            lemma_u64_bytes(a.len() as u64);
            lemma_u64_bytes(b.len() as u64);
            lemma_prefix_of_prefix(spec_u64_to_le_bytes(a.len() as u64), a, t);
            lemma_prefix_of_prefix(spec_u64_to_le_bytes(b.len() as u64), b, t);
            assert(spec_u64_to_le_bytes(a.len() as u64) == t.subrange(0, 8));
            assert(spec_u64_to_le_bytes(b.len() as u64) == t.subrange(0, 8));
            assert(a.len() == b.len());
            assert(a == t.skip(8).subrange(0, a.len() as int));
            assert(b == t.skip(8).subrange(0, b.len() as int));
        },
        (FieldV::OptFixed(a), FieldV::OptFixed(b)) => {
            assert(ser_field(f1)[0] == t[0]);
            assert(ser_field(f2)[0] == t[0]);
            match (a, b) {
                (Some(x), Some(y)) => {
                    lemma_prefix_of_prefix(seq![1u8], x, t);
                    lemma_prefix_of_prefix(seq![1u8], y, t);
                    assert(x == t.skip(1).subrange(0, x.len() as int));
                    assert(y == t.skip(1).subrange(0, y.len() as int));
                },
                _ => {},
            }
        },
        (FieldV::OptU32(a), FieldV::OptU32(b)) => {
            assert(ser_field(f1)[0] == t[0]);
            assert(ser_field(f2)[0] == t[0]);
            match (a, b) {
                (Some(x), Some(y)) => {
                    lemma_u32_bytes(x);
                    lemma_u32_bytes(y);
                    lemma_prefix_of_prefix(seq![1u8], spec_u32_to_le_bytes(x), t);
                    lemma_prefix_of_prefix(seq![1u8], spec_u32_to_le_bytes(y), t);
                    assert(spec_u32_to_le_bytes(x) == t.skip(1).subrange(0, 4));
                    assert(spec_u32_to_le_bytes(y) == t.skip(1).subrange(0, 4));
                },
                _ => {},
            }
        },
        _ => {},
    }
}

/// Two field lists of one shape list whose encodings both start `t` are equal:
/// the record format is unambiguous.
pub proof fn lemma_fields_unique(a: Seq<FieldV>, b: Seq<FieldV>, shapes: Seq<Shape>, t: Seq<u8>)
    requires
        all_fit(a, shapes),
        all_fit(b, shapes),
        is_prefix(ser_fields(a), t),
        is_prefix(ser_fields(b), t),
    ensures
        a == b,
    decreases shapes.len(),
{
    if shapes.len() == 0 {
        assert(a =~= b);
    } else {
        assert(fits(a[0], shapes[0]));
        assert(fits(b[0], shapes[0]));
        lemma_prefix_of_prefix(ser_field(a[0]), ser_fields(a.drop_first()), t);
        lemma_prefix_of_prefix(ser_field(b[0]), ser_fields(b.drop_first()), t);
        lemma_field_unique(a[0], b[0], shapes[0], t);
        assert forall|i: int| 0 <= i < a.drop_first().len() implies #[trigger] fits(
            a.drop_first()[i],
            shapes.drop_first()[i],
        ) by {
            assert(fits(a[i + 1], shapes[i + 1]));
        }
        assert forall|i: int| 0 <= i < b.drop_first().len() implies #[trigger] fits(
            b.drop_first()[i],
            shapes.drop_first()[i],
        ) by {
            assert(fits(b[i + 1], shapes[i + 1]));
        }
        lemma_fields_unique(
            a.drop_first(),
            b.drop_first(),
            shapes.drop_first(),
            t.skip(ser_field(a[0]).len() as int),
        );
        assert(a =~= seq![a[0]] + a.drop_first());
        assert(b =~= seq![b[0]] + b.drop_first());
    }
}

// ------------------------------------------------------------- encoding

/// Append the little-endian encoding of a `u32`.
pub fn write_u32(out: &mut Vec<u8>, x: u32)
    ensures
        final(out)@ == old(out)@ + spec_u32_to_le_bytes(x),
{
    let b = u32_to_le_bytes(x);
    crate::bytes::push_all(out, b.as_slice());
}

/// Append the little-endian encoding of a `u64`.
pub fn write_u64(out: &mut Vec<u8>, x: u64)
    ensures
        final(out)@ == old(out)@ + spec_u64_to_le_bytes(x),
{
    let b = u64_to_le_bytes(x);
    crate::bytes::push_all(out, b.as_slice());
}

/// Append a length-prefixed byte string.
pub fn write_len_bytes(out: &mut Vec<u8>, b: &[u8])
    ensures
        final(out)@ == old(out)@ + ser_len_bytes(b@),
{
    write_u64(out, b.len() as u64);
    crate::bytes::push_all(out, b);
    assert(final(out)@ =~= old(out)@ + ser_len_bytes(b@));
}

/// Append the encoding of one field.
pub fn write_field(out: &mut Vec<u8>, f: &Field)
    ensures
        final(out)@ == old(out)@ + ser_field(f@),
{
    match f {
        Field::U8(x) => {
            out.push(*x);
        },
        Field::U32(x) => write_u32(out, *x),
        Field::U64(x) => write_u64(out, *x),
        Field::Fixed(b) => crate::bytes::push_all(out, b.as_slice()),
        Field::Bytes(b) => write_len_bytes(out, b.as_slice()),
        Field::OptFixed(o) => match o {
            None => {
                out.push(0u8);
            },
            Some(b) => {
                out.push(1u8);
                crate::bytes::push_all(out, b.as_slice());
            },
        },
        Field::OptU32(o) => match o {
            None => {
                out.push(0u8);
            },
            Some(x) => {
                out.push(1u8);
                write_u32(out, *x);
            },
        },
    }
    assert(final(out)@ =~= old(out)@ + ser_field(f@));
}

/// The encoding of a list of fields.
pub fn encode_fields(fs: &Vec<Field>) -> (out: Vec<u8>)
    ensures
        out@ == ser_fields(fields_view(fs@)),
{
    let mut out: Vec<u8> = Vec::new();
    let mut i: usize = 0;
    while i < fs.len()
        invariant
            i <= fs@.len(),
            out@ == ser_fields(fields_view(fs@.subrange(0, i as int))),
        decreases fs@.len() - i,
    {
        proof {
            assert(fields_view(fs@.subrange(0, i + 1)) =~= fields_view(fs@.subrange(0, i as int)).push(
                fs@[i as int]@,
            ));
            lemma_ser_fields_push(fields_view(fs@.subrange(0, i as int)), fs@[i as int]@);
        }
        write_field(&mut out, &fs[i]);
        i = i + 1;
    }
    assert(fs@.subrange(0, fs@.len() as int) =~= fs@);
    out
}

// -------------------------------------------------------------- parsing

/// Copy `n` bytes of `s` from `pos` into a fresh vector.
pub fn copy_range(s: &[u8], pos: usize, n: usize) -> (v: Vec<u8>)
    requires
        pos + n <= s@.len(),
    ensures
        v@ == s@.subrange(pos as int, pos + n),
{
    let mut v: Vec<u8> = Vec::new();
    let len = s.len();
    let mut i: usize = 0;
    while i < n
        invariant
            i <= n,
            len == s@.len(),
            pos + n <= s@.len(),
            v@ == s@.subrange(pos as int, pos + i),
        decreases n - i,
    {
        v.push(s[pos + i]);
        i = i + 1;
        assert(v@ =~= s@.subrange(pos as int, pos + i));
    }
    v
}

/// Read a little-endian `u32` at `pos`.
pub fn read_u32(s: &[u8], pos: usize) -> (x: u32)
    requires
        pos + 4 <= s@.len(),
    ensures
        spec_u32_to_le_bytes(x) == s@.subrange(pos as int, pos + 4),
{
    let _len = s.len();
    let sub = vstd::slice::slice_subrange(s, pos, pos + 4);
    let x = u32_from_le_bytes(sub);
    proof {
        lemma_auto_spec_u32_to_from_le_bytes();
    }
    x
}

/// Read a little-endian `u64` at `pos`.
pub fn read_u64(s: &[u8], pos: usize) -> (x: u64)
    requires
        pos + 8 <= s@.len(),
    ensures
        spec_u64_to_le_bytes(x) == s@.subrange(pos as int, pos + 8),
{
    let _len = s.len();
    let sub = vstd::slice::slice_subrange(s, pos, pos + 8);
    let x = u64_from_le_bytes(sub);
    proof {
        lemma_auto_spec_u64_to_from_le_bytes();
    }
    x
}

/// Parse one field of shape `shape` at `pos`: exactly when some field of that
/// shape is encoded there.
#[verifier::spinoff_prover]
#[verifier::rlimit(60)]
pub fn parse_field(s: &[u8], pos: usize, shape: Shape) -> (r: Option<(Field, usize)>)
    requires
        pos <= s@.len(),
    ensures
        match r {
            Some((f, end)) => {
                &&& fits(f@, shape)
                &&& end == pos + ser_field(f@).len()
                &&& end <= s@.len()
                &&& s@.subrange(pos as int, end as int) == ser_field(f@)
            },
            None => forall|f: FieldV| fits(f, shape) ==> !is_prefix(ser_field(f), s@.skip(pos as int)),
        },
{
    let len = s.len();
    let rest = len - pos;
    let ghost t = s@.skip(pos as int);
    match shape {
        Shape::U8 => {
            if rest < 1 {
                return None;
            }
            let f = Field::U8(s[pos]);
            assert(s@.subrange(pos as int, pos + 1) =~= seq![s@[pos as int]]);
            Some((f, pos + 1))
        },
        Shape::U32 => {
            if rest < 4 {
                proof {
                    assert forall|f: FieldV| fits(f, shape) implies !is_prefix(ser_field(f), t) by {
                        if let FieldV::U32(x) = f {
                            lemma_u32_bytes(x);
                        }
                    }
                }
                return None;
            }
            let x = read_u32(s, pos);
            proof {
                lemma_u32_bytes(x);
            }
            Some((Field::U32(x), pos + 4))
        },
        Shape::U64 => {
            if rest < 8 {
                proof {
                    assert forall|f: FieldV| fits(f, shape) implies !is_prefix(ser_field(f), t) by {
                        if let FieldV::U64(x) = f {
                            lemma_u64_bytes(x);
                        }
                    }
                }
                return None;
            }
            let x = read_u64(s, pos);
            proof {
                lemma_u64_bytes(x);
            }
            Some((Field::U64(x), pos + 8))
        },
        Shape::Fixed(n) => {
            if rest < n {
                return None;
            }
            let v = copy_range(s, pos, n);
            Some((Field::Fixed(v), pos + n))
        },
        Shape::Bytes => {
            if rest < 8 {
                proof {
                    assert forall|f: FieldV| fits(f, shape) implies !is_prefix(ser_field(f), t) by {
                        if let FieldV::Bytes(b) = f {
                            lemma_u64_bytes(b.len() as u64);
                        }
                    }
                }
                return None;
            }
            let n = read_u64(s, pos);
            proof {
                lemma_u64_bytes(n);
            }
            if n > (rest - 8) as u64 {
                proof {
                    assert forall|f: FieldV| fits(f, shape) implies !is_prefix(ser_field(f), t) by {
                        if let FieldV::Bytes(b) = f {
                            lemma_u64_bytes(b.len() as u64);
                            if is_prefix(ser_field(f), t) {
                                lemma_prefix_of_prefix(spec_u64_to_le_bytes(b.len() as u64), b, t);
                                assert(t.subrange(0, 8) =~= s@.subrange(pos as int, pos + 8));
                            }
                        }
                    }
                }
                return None;
            }
            let v = copy_range(s, pos + 8, n as usize);
            proof {
                assert(s@.subrange(pos as int, pos + 8 + n) =~= spec_u64_to_le_bytes(n) + v@);
            }
            Some((Field::Bytes(v), pos + 8 + n as usize))
        },
        Shape::OptFixed(n) => {
            if rest < 1 {
                return None;
            }
            let tag = s[pos];
            if tag == 0 {
                assert(s@.subrange(pos as int, pos + 1) =~= seq![0u8]);
                Some((Field::OptFixed(None), pos + 1))
            } else if tag == 1 {
                if rest - 1 < n {
                    proof {
                        assert forall|f: FieldV| fits(f, shape) implies !is_prefix(ser_field(f), t) by {
                            if is_prefix(ser_field(f), t) {
                                assert(ser_field(f)[0] == t[0]);
                            }
                        }
                    }
                    return None;
                }
                let v = copy_range(s, pos + 1, n);
                assert(s@.subrange(pos as int, pos + 1 + n) =~= seq![1u8] + v@);
                Some((Field::OptFixed(Some(v)), pos + 1 + n))
            } else {
                proof {
                    assert forall|f: FieldV| fits(f, shape) implies !is_prefix(ser_field(f), t) by {
                        if is_prefix(ser_field(f), t) {
                            assert(ser_field(f)[0] == t[0]);
                        }
                    }
                }
                None
            }
        },
        Shape::OptU32 => {
            if rest < 1 {
                return None;
            }
            let tag = s[pos];
            if tag == 0 {
                assert(s@.subrange(pos as int, pos + 1) =~= seq![0u8]);
                Some((Field::OptU32(None), pos + 1))
            } else if tag == 1 {
                if rest - 1 < 4 {
                    proof {
                        assert forall|f: FieldV| fits(f, shape) implies !is_prefix(ser_field(f), t) by {
                            if let FieldV::OptU32(Some(x)) = f {
                                lemma_u32_bytes(x);
                            }
                            if is_prefix(ser_field(f), t) {
                                assert(ser_field(f)[0] == t[0]);
                            }
                        }
                    }
                    return None;
                }
                let x = read_u32(s, pos + 1);
                proof {
                    lemma_u32_bytes(x);
                    assert(s@.subrange(pos as int, pos + 5) =~= seq![1u8] + spec_u32_to_le_bytes(x));
                }
                Some((Field::OptU32(Some(x)), pos + 5))
            } else {
                proof {
                    assert forall|f: FieldV| fits(f, shape) implies !is_prefix(ser_field(f), t) by {
                        if is_prefix(ser_field(f), t) {
                            assert(ser_field(f)[0] == t[0]);
                        }
                    }
                }
                None
            }
        },
    }
}

/// Parse a list of fields with the given shapes, starting at `pos`: succeeds
/// exactly when such a list is encoded there, returning it and the end offset.
pub fn parse_fields(s: &[u8], pos: usize, shapes: &[Shape]) -> (r: Option<(Vec<Field>, usize)>)
    requires
        pos <= s@.len(),
    ensures
        match r {
            Some((fs, end)) => {
                &&& all_fit(fields_view(fs@), shapes@)
                &&& end == pos + ser_fields(fields_view(fs@)).len()
                &&& end <= s@.len()
                &&& s@.subrange(pos as int, end as int) == ser_fields(fields_view(fs@))
            },
            None => !some_fields_encoded(shapes@, s@.skip(pos as int)),
        },
{
    let mut fs: Vec<Field> = Vec::new();
    let mut cur = pos;
    let mut i: usize = 0;
    while i < shapes.len()
        invariant
            i <= shapes@.len(),
            pos <= cur <= s@.len(),
            all_fit(fields_view(fs@), shapes@.subrange(0, i as int)),
            cur == pos + ser_fields(fields_view(fs@)).len(),
            s@.subrange(pos as int, cur as int) == ser_fields(fields_view(fs@)),
        decreases shapes@.len() - i,
    {
        let r = parse_field(s, cur, shapes[i]);
        match r {
            None => {
                proof {
                    let t = s@.skip(pos as int);
                    if some_fields_encoded(shapes@, t) {
                        let gs = choose|gs: Seq<FieldV>|
                            all_fit(gs, shapes@) && is_prefix(ser_fields(gs), t);
                        let head = gs.subrange(0, i as int);
                        let tail = gs.subrange(i as int, gs.len() as int);
                        assert(gs =~= head + tail);
                        lemma_ser_fields_append(head, tail);
                        lemma_prefix_of_prefix(ser_fields(head), ser_fields(tail), t);
                        assert forall|k: int| 0 <= k < head.len() implies #[trigger] fits(
                            head[k],
                            shapes@.subrange(0, i as int)[k],
                        ) by {
                            assert(fits(gs[k], shapes@[k]));
                        }
                        assert(is_prefix(ser_fields(fields_view(fs@)), t)) by {
                            assert(t.subrange(0, ser_fields(fields_view(fs@)).len() as int)
                                =~= s@.subrange(pos as int, cur as int));
                        }
                        lemma_fields_unique(
                            head,
                            fields_view(fs@),
                            shapes@.subrange(0, i as int),
                            t,
                        );
                        assert(tail.len() > 0);
                        assert(ser_fields(tail) == ser_field(tail[0]) + ser_fields(tail.drop_first()));
                        lemma_prefix_of_prefix(
                            ser_field(tail[0]),
                            ser_fields(tail.drop_first()),
                            t.skip(ser_fields(head).len() as int),
                        );
                        assert(t.skip(ser_fields(head).len() as int) =~= s@.skip(cur as int));
                        assert(fits(gs[i as int], shapes@[i as int]));
                        assert(tail[0] == gs[i as int]);
                    }
                }
                return None;
            },
            Some((f, end)) => {
                proof {
                    lemma_ser_fields_push(fields_view(fs@), f@);
                    assert(fields_view(fs@.push(f)) =~= fields_view(fs@).push(f@));
                    assert(s@.subrange(pos as int, end as int) =~= s@.subrange(pos as int, cur as int)
                        + s@.subrange(cur as int, end as int));
                    assert forall|k: int| 0 <= k < fields_view(fs@.push(f)).len() implies #[trigger] fits(
                        fields_view(fs@.push(f))[k],
                        shapes@.subrange(0, i + 1)[k],
                    ) by {
                        if k < i {
                            assert(fits(fields_view(fs@)[k], shapes@.subrange(0, i as int)[k]));
                        }
                    }
                }
                fs.push(f);
                cur = end;
            },
        }
        i = i + 1;
    }
    assert(shapes@.subrange(0, shapes@.len() as int) =~= shapes@);
    Some((fs, cur))
}

// ---------------------------------------------------- fixed-size layouts

/// Encoded size of a shape whose size does not depend on the value; `-1` for
/// the variable-size shapes.
pub open spec fn shape_size(s: Shape) -> int {
    match s {
        Shape::U8 => 1,
        Shape::U32 => 4,
        Shape::U64 => 8,
        Shape::Fixed(n) => n as int,
        _ => -1,
    }
}

/// Total encoded size of a list of fixed-size shapes.
pub open spec fn shapes_size(ss: Seq<Shape>) -> int
    decreases ss.len(),
{
    if ss.len() == 0 {
        0
    } else {
        shape_size(ss[0]) + shapes_size(ss.drop_first())
    }
}

/// Every shape in the list has a fixed size.
pub open spec fn fixed_shapes(ss: Seq<Shape>) -> bool {
    forall|i: int| 0 <= i < ss.len() ==> #[trigger] shape_size(ss[i]) >= 0
}

pub proof fn lemma_shapes_size_append(a: Seq<Shape>, b: Seq<Shape>)
    ensures
        shapes_size(a + b) == shapes_size(a) + shapes_size(b),
    decreases a.len(),
{
    if a.len() == 0 {
        assert(a + b =~= b);
    } else {
        lemma_shapes_size_append(a.drop_first(), b);
        assert((a + b).drop_first() =~= a.drop_first() + b);
    }
}

/// A field list of fixed-size shapes encodes to exactly their total size.
pub proof fn lemma_fixed_ser_len(fs: Seq<FieldV>, ss: Seq<Shape>)
    requires
        all_fit(fs, ss),
        fixed_shapes(ss),
    ensures
        ser_fields(fs).len() == shapes_size(ss),
    decreases ss.len(),
{
    if ss.len() > 0 {
        assert(fits(fs[0], ss[0]));
        assert(shape_size(ss[0]) >= 0);
        assert forall|i: int| 0 <= i < fs.drop_first().len() implies #[trigger] fits(
            fs.drop_first()[i],
            ss.drop_first()[i],
        ) by {
            assert(fits(fs[i + 1], ss[i + 1]));
        }
        assert forall|i: int| 0 <= i < ss.drop_first().len() implies #[trigger] shape_size(
            ss.drop_first()[i],
        ) >= 0 by {
            assert(shape_size(ss[i + 1]) >= 0);
        }
        lemma_fixed_ser_len(fs.drop_first(), ss.drop_first());
        match fs[0] {
            FieldV::U32(x) => {
                lemma_u32_bytes(x);
            },
            FieldV::U64(x) => {
                lemma_u64_bytes(x);
            },
            _ => {},
        }
    }
}

// ------------------------------------------------------ field accessors

/// The bytes of a `Fixed(32)` field as an array.
pub fn field_key32(f: &Field) -> (a: [u8; 32])
    requires
        fits(f@, Shape::Fixed(32)),
    ensures
        f@ == FieldV::Fixed(a@),
{
    match f {
        Field::Fixed(b) => crate::bytes::array32_at(b.as_slice(), 0),
        _ => [0u8; 32],
    }
}

/// The bytes of a `Fixed(16)` field as an array.
pub fn field_key16(f: &Field) -> (a: [u8; 16])
    requires
        fits(f@, Shape::Fixed(16)),
    ensures
        f@ == FieldV::Fixed(a@),
{
    match f {
        Field::Fixed(b) => crate::bytes::array16_at(b.as_slice(), 0),
        _ => [0u8; 16],
    }
}

/// The value of a `U8` field.
pub fn field_u8(f: &Field) -> (x: u8)
    requires
        fits(f@, Shape::U8),
    ensures
        f@ == FieldV::U8(x),
{
    match f {
        Field::U8(x) => *x,
        _ => 0,
    }
}

/// The value of a `U32` field.
pub fn field_u32(f: &Field) -> (x: u32)
    requires
        fits(f@, Shape::U32),
    ensures
        f@ == FieldV::U32(x),
{
    match f {
        Field::U32(x) => *x,
        _ => 0,
    }
}

/// The value of a `U64` field.
pub fn field_u64(f: &Field) -> (x: u64)
    requires
        fits(f@, Shape::U64),
    ensures
        f@ == FieldV::U64(x),
{
    match f {
        Field::U64(x) => *x,
        _ => 0,
    }
}

/// A copy of the contents of a `Bytes` field.
pub fn field_bytes(f: &Field) -> (v: Vec<u8>)
    requires
        fits(f@, Shape::Bytes),
    ensures
        f@ == FieldV::Bytes(v@),
{
    match f {
        Field::Bytes(b) => crate::bytes::copy_vec(b),
        _ => Vec::new(),
    }
}

/// The value of an `OptFixed(32)` field.
pub fn field_opt_key32(f: &Field) -> (o: Option<[u8; 32]>)
    requires
        fits(f@, Shape::OptFixed(32)),
    ensures
        f@ == FieldV::OptFixed(
            match o {
                Some(a) => Some(a@),
                None => None,
            },
        ),
{
    match f {
        Field::OptFixed(Some(b)) => Some(crate::bytes::array32_at(b.as_slice(), 0)),
        _ => None,
    }
}

/// The value of an `OptU32` field.
pub fn field_opt_u32(f: &Field) -> (o: Option<u32>)
    requires
        fits(f@, Shape::OptU32),
    ensures
        f@ == FieldV::OptU32(o),
{
    match f {
        Field::OptU32(o) => *o,
        _ => None,
    }
}

/// The field holding an optional 32-byte key.
pub fn opt_key32_field(o: &Option<[u8; 32]>) -> (f: Field)
    ensures
        f@ == FieldV::OptFixed(
            match o {
                Some(a) => Some(a@),
                None => None,
            },
        ),
{
    match o {
        Some(a) => Field::OptFixed(Some(crate::bytes::array_to_vec32(a))),
        None => Field::OptFixed(None),
    }
}

/// Splitting a field list splits its encoding's prefix.
pub proof fn lemma_fields_prefix_split(a: Seq<FieldV>, b: Seq<FieldV>, t: Seq<u8>)
    requires
        is_prefix(ser_fields(a + b), t),
    ensures
        is_prefix(ser_fields(a), t),
        is_prefix(ser_fields(b), t.skip(ser_fields(a).len() as int)),
{
    lemma_ser_fields_append(a, b);
    lemma_prefix_of_prefix(ser_fields(a), ser_fields(b), t);
}

/// Joining field lists joins their encodings.
pub proof fn lemma_fields_prefix_join(a: Seq<FieldV>, b: Seq<FieldV>, t: Seq<u8>)
    requires
        is_prefix(ser_fields(a), t),
        is_prefix(ser_fields(b), t.skip(ser_fields(a).len() as int)),
    ensures
        is_prefix(ser_fields(a + b), t),
{
    lemma_ser_fields_append(a, b);
    let la = ser_fields(a).len() as int;
    let lb = ser_fields(b).len() as int;
    assert(t.subrange(0, la + lb) =~= t.subrange(0, la) + t.skip(la).subrange(0, lb));
}

/// `all_fit` distributes over concatenation.
pub proof fn lemma_all_fit_append(a: Seq<FieldV>, sa: Seq<Shape>, b: Seq<FieldV>, sb: Seq<Shape>)
    requires
        all_fit(a, sa),
        all_fit(b, sb),
    ensures
        all_fit(a + b, sa + sb),
{
    assert forall|i: int| 0 <= i < (a + b).len() implies #[trigger] fits((a + b)[i], (sa + sb)[i]) by {
        if i < a.len() {
            assert(fits(a[i], sa[i]));
        } else {
            assert(fits(b[i - a.len()], sb[i - a.len()]));
        }
    }
}

} // verus!
