//! Safety numbers: a human-comparable fingerprint of two identities.
//!
//! Two contacts read these digits to each other (or scan a QR code) to confirm
//! there's no machine-in-the-middle. Each identity is hashed with many
//! iterations (slowing brute-force of a colliding key), then the two
//! per-identity fingerprints are combined in a fixed order so both sides
//! display the same number.
use vstd::prelude::*;

use crate::crypto::{sha512, spec_sha512};

verus! {

/// Iteration count for the fingerprint hash.
pub const ITERATIONS: u32 = 5200;

/// Digits groups taken from each identity's fingerprint (6 groups of 5).
const CHUNKS_PER_IDENTITY: usize = 6;

/// Domain separation for the fingerprint hash: `"Clarity-safety-number-v1"`.
pub const SAFETY_CONTEXT: [u8; 24] = [67, 108, 97, 114, 105, 116, 121, 45, 115, 97, 102, 101, 116, 121, 45, 110, 117, 109, 98, 101, 114, 45, 118, 49];

/// The fingerprint hash after `k` re-hashing rounds: round 0 hashes the
/// context and the identity, every further round hashes the previous digest
/// and the identity again.
pub open spec fn fingerprint_rounds(identity: Seq<u8>, k: nat) -> Seq<u8>
    decreases k,
{
    if k == 0 {
        spec_sha512(SAFETY_CONTEXT@ + identity)
    } else {
        spec_sha512(fingerprint_rounds(identity, (k - 1) as nat) + identity)
    }
}

/// The iterated fingerprint of one identity key.
pub open spec fn spec_fingerprint(identity: Seq<u8>) -> Seq<u8> {
    fingerprint_rounds(identity, (ITERATIONS - 1) as nat)
}

/// The decimal digit `d` as a character.
pub open spec fn digit_char(d: int) -> char {
    (48 + d) as char
}

/// `v` as five zero-padded decimal digits.
pub open spec fn five_digits(v: int) -> Seq<char> {
    seq![
        digit_char(v / 10000 % 10),
        digit_char(v / 1000 % 10),
        digit_char(v / 100 % 10),
        digit_char(v / 10 % 10),
        digit_char(v % 10),
    ]
}

/// Bytes `5c .. 5c + 5` of a fingerprint read as a big-endian integer,
/// reduced mod 100000.
pub open spec fn chunk_value(fp: Seq<u8>, c: int) -> int {
    let s = 5 * c;
    (fp[s] * 0x1_0000_0000 + fp[s + 1] * 0x100_0000 + fp[s + 2] * 0x1_0000 + fp[s + 3] * 0x100 + fp[s + 4])
        % 100000
}

/// The first `n` digit groups of a fingerprint, separated by single spaces.
pub open spec fn digit_groups(fp: Seq<u8>, n: nat) -> Seq<char>
    decreases n,
{
    if n == 0 {
        Seq::empty()
    } else if n == 1 {
        five_digits(chunk_value(fp, 0))
    } else {
        digit_groups(fp, (n - 1) as nat) + seq![' '] + five_digits(chunk_value(fp, n - 1))
    }
}

/// Lexicographic order on byte strings (a prefix comes first).
pub open spec fn lex_le(a: Seq<u8>, b: Seq<u8>) -> bool {
    ||| a.len() <= b.len() && b.subrange(0, a.len() as int) == a
    ||| exists|i: int|
        0 <= i < a.len() && i < b.len() && #[trigger] a[i] < b[i] && forall|j: int|
            0 <= j < i ==> a[j] == b[j]
}

/// The safety number of two identities: the digit groups of the smaller
/// fingerprint, a space, then those of the larger.
pub open spec fn spec_safety_number(a: Seq<u8>, b: Seq<u8>) -> Seq<char> {
    let fa = spec_fingerprint(a);
    let fb = spec_fingerprint(b);
    if lex_le(fa, fb) {
        digit_groups(fa, 6) + seq![' '] + digit_groups(fb, 6)
    } else {
        digit_groups(fb, 6) + seq![' '] + digit_groups(fa, 6)
    }
}

proof fn lemma_first_difference(a: Seq<u8>, b: Seq<u8>, n: int)
    requires
        0 <= n <= a.len(),
        n <= b.len(),
        exists|i: int| 0 <= i < n && a[i] != b[i],
    ensures
        exists|i: int| 0 <= i < n && a[i] != b[i] && forall|j: int| 0 <= j < i ==> a[j] == b[j],
    decreases n,
{
    if exists|i: int| 0 <= i < n - 1 && a[i] != b[i] {
        lemma_first_difference(a, b, n - 1);
    } else {
        assert(a[n - 1] != b[n - 1]);
    }
}

/// The fingerprint order is antisymmetric and total.
proof fn lemma_lex_order(a: Seq<u8>, b: Seq<u8>)
    ensures
        lex_le(a, b) && lex_le(b, a) ==> a == b,
        lex_le(a, b) || lex_le(b, a),
{
    if a.len() <= b.len() && b.subrange(0, a.len() as int) == a {
        if lex_le(b, a) {
            if b.len() <= a.len() && a.subrange(0, b.len() as int) == b {
                assert(a =~= b);
            } else {
                let i = choose|i: int|
                    0 <= i < b.len() && i < a.len() && #[trigger] b[i] < a[i] && forall|j: int|
                        0 <= j < i ==> b[j] == a[j];
                assert(b.subrange(0, a.len() as int)[i] == a[i]);
            }
        }
    } else if b.len() <= a.len() && a.subrange(0, b.len() as int) == b {
        if lex_le(a, b) {
            let i = choose|i: int|
                0 <= i < a.len() && i < b.len() && #[trigger] a[i] < b[i] && forall|j: int|
                    0 <= j < i ==> a[j] == b[j];
            assert(a.subrange(0, b.len() as int)[i] == b[i]);
        }
    } else {
        let m = if a.len() <= b.len() {
            a.len() as int
        } else {
            b.len() as int
        };
        assert(exists|i: int| 0 <= i < m && a[i] != b[i]) by {
            if a.len() <= b.len() {
                if forall|i: int| 0 <= i < m ==> a[i] == b[i] {
                    assert(b.subrange(0, a.len() as int) =~= a);
                }
            } else {
                if forall|i: int| 0 <= i < m ==> a[i] == b[i] {
                    assert(a.subrange(0, b.len() as int) =~= b);
                }
            }
        }
        lemma_first_difference(a, b, m);
        let k = choose|i: int| 0 <= i < m && a[i] != b[i] && forall|j: int| 0 <= j < i ==> a[j] == b[j];
        if a[k] < b[k] {
            assert(lex_le(a, b));
            if lex_le(b, a) {
                let i = choose|i: int|
                    0 <= i < b.len() && i < a.len() && #[trigger] b[i] < a[i] && forall|j: int|
                        0 <= j < i ==> b[j] == a[j];
                assert(i == k) by {
                    if i < k {
                        assert(a[i] == b[i]);
                    }
                    if k < i {
                        assert(b[k] == a[k]);
                    }
                }
            }
        } else {
            assert(lex_le(b, a));
            if lex_le(a, b) {
                let i = choose|i: int|
                    0 <= i < a.len() && i < b.len() && #[trigger] a[i] < b[i] && forall|j: int|
                        0 <= j < i ==> a[j] == b[j];
                assert(i == k) by {
                    if i < k {
                        assert(a[i] == b[i]);
                    }
                    if k < i {
                        assert(b[k] == a[k]);
                    }
                }
            }
        }
    }
}

/// The safety number does not depend on argument order, so both contacts see
/// the same string regardless of who computes it.
pub proof fn lemma_safety_number_symmetric(a: Seq<u8>, b: Seq<u8>)
    ensures
        spec_safety_number(a, b) == spec_safety_number(b, a),
{
    lemma_lex_order(spec_fingerprint(a), spec_fingerprint(b));
}

/// Every safety number is 12 groups of 5 decimal digits separated by single
/// spaces: 71 characters, 60 of them digits.
pub proof fn lemma_safety_number_shape(a: Seq<u8>, b: Seq<u8>)
    ensures
        spec_safety_number(a, b).len() == 71,
        forall|i: int|
            0 <= i < 71 ==> (#[trigger] spec_safety_number(a, b)[i] == ' ' <==> i % 6 == 5),
        forall|i: int|
            0 <= i < 71 && i % 6 != 5 ==> '0' <= #[trigger] spec_safety_number(a, b)[i] <= '9',
{
    let fa = spec_fingerprint(a);
    let fb = spec_fingerprint(b);
    lemma_groups_shape(fa, 6);
    lemma_groups_shape(fb, 6);
    let s = spec_safety_number(a, b);
    let (x, y) = if lex_le(fa, fb) {
        (fa, fb)
    } else {
        (fb, fa)
    };
    assert(s == digit_groups(x, 6) + seq![' '] + digit_groups(y, 6));
    assert forall|i: int| 0 <= i < 71 implies (#[trigger] s[i] == ' ' <==> i % 6 == 5) by {
        if i < 35 {
            assert(s[i] == digit_groups(x, 6)[i]);
        } else if i > 35 {
            assert(s[i] == digit_groups(y, 6)[i - 36]);
        }
    }
    assert forall|i: int| 0 <= i < 71 && i % 6 != 5 implies '0' <= #[trigger] s[i] <= '9' by {
        if i < 35 {
            assert(s[i] == digit_groups(x, 6)[i]);
        } else if i > 35 {
            assert(s[i] == digit_groups(y, 6)[i - 36]);
        }
    }
}

/// A safety number shows both identities: its first 35 characters are the
/// digit groups of one identity's fingerprint and its last 35 those of the
/// other's, the lexicographically smaller fingerprint first. So it changes
/// whenever either identity's fingerprint does.
pub proof fn lemma_safety_number_shows_both(a: Seq<u8>, b: Seq<u8>)
    ensures
        ({
            let fa = spec_fingerprint(a);
            let fb = spec_fingerprint(b);
            let n = spec_safety_number(a, b);
            &&& n.len() == 71
            &&& n[35] == ' '
            &&& (n.subrange(0, 35) == digit_groups(fa, 6) && n.subrange(36, 71) == digit_groups(fb, 6) && lex_le(fa, fb))
                || (n.subrange(0, 35) == digit_groups(fb, 6) && n.subrange(36, 71) == digit_groups(fa, 6) && lex_le(
                fb,
                fa,
            ))
        }),
{
    let fa = spec_fingerprint(a);
    let fb = spec_fingerprint(b);
    lemma_groups_shape(fa, 6);
    lemma_groups_shape(fb, 6);
    let n = spec_safety_number(a, b);
    if lex_le(fa, fb) {
        assert(n == digit_groups(fa, 6) + seq![' '] + digit_groups(fb, 6));
        assert(n.subrange(0, 35) =~= digit_groups(fa, 6));
        assert(n.subrange(36, 71) =~= digit_groups(fb, 6));
    } else {
        lemma_lex_order(fa, fb);
        assert(n == digit_groups(fb, 6) + seq![' '] + digit_groups(fa, 6));
        assert(n.subrange(0, 35) =~= digit_groups(fb, 6));
        assert(n.subrange(36, 71) =~= digit_groups(fa, 6));
    }
}

proof fn lemma_five_digits(v: int)
    ensures
        five_digits(v).len() == 5,
        forall|i: int| 0 <= i < 5 ==> '0' <= #[trigger] five_digits(v)[i] <= '9',
{
    assert forall|i: int| 0 <= i < 5 implies '0' <= #[trigger] five_digits(v)[i] <= '9' by {
        let d = if i == 0 {
            v / 10000 % 10
        } else if i == 1 {
            v / 1000 % 10
        } else if i == 2 {
            v / 100 % 10
        } else if i == 3 {
            v / 10 % 10
        } else {
            v % 10
        };
        assert(0 <= d < 10);
        assert(five_digits(v)[i] == digit_char(d));
    }
}

proof fn lemma_groups_shape(fp: Seq<u8>, n: nat)
    requires
        n >= 1,
    ensures
        digit_groups(fp, n).len() == 6 * n - 1,
        forall|i: int|
            0 <= i < 6 * n - 1 ==> (#[trigger] digit_groups(fp, n)[i] == ' ' <==> i % 6 == 5),
        forall|i: int|
            0 <= i < 6 * n - 1 && i % 6 != 5 ==> '0' <= #[trigger] digit_groups(fp, n)[i] <= '9',
    decreases n,
{
    lemma_five_digits(chunk_value(fp, n - 1));
    if n > 1 {
        lemma_groups_shape(fp, (n - 1) as nat);
        let prev = digit_groups(fp, (n - 1) as nat);
        let g = digit_groups(fp, n);
        let last = five_digits(chunk_value(fp, n - 1));
        assert(g == prev + seq![' '] + last);
        assert forall|i: int| 0 <= i < 6 * n - 1 implies (#[trigger] g[i] == ' ' <==> i % 6 == 5) by {
            if i < 6 * n - 7 {
                assert(g[i] == prev[i]);
            } else if i == 6 * n - 7 {
                assert(g[i] == ' ');
            } else {
                assert(g[i] == last[i - (6 * n - 6)]);
            }
        }
        assert forall|i: int| 0 <= i < 6 * n - 1 && i % 6 != 5 implies '0' <= #[trigger] g[i] <= '9' by {
            if i < 6 * n - 7 {
                assert(g[i] == prev[i]);
            } else {
                assert(g[i] == last[i - (6 * n - 6)]);
            }
        }
    }
}

/// The one-character string of a decimal digit.
fn digit_str(d: u64) -> (s: &'static str)
    requires
        d < 10,
    ensures
        s@ == seq![digit_char(d as int)],
{
    if d == 0 {
        proof {
            reveal_strlit("0");
        }
        "0"
    } else if d == 1 {
        proof {
            reveal_strlit("1");
        }
        "1"
    } else if d == 2 {
        proof {
            reveal_strlit("2");
        }
        "2"
    } else if d == 3 {
        proof {
            reveal_strlit("3");
        }
        "3"
    } else if d == 4 {
        proof {
            reveal_strlit("4");
        }
        "4"
    } else if d == 5 {
        proof {
            reveal_strlit("5");
        }
        "5"
    } else if d == 6 {
        proof {
            reveal_strlit("6");
        }
        "6"
    } else if d == 7 {
        proof {
            reveal_strlit("7");
        }
        "7"
    } else if d == 8 {
        proof {
            reveal_strlit("8");
        }
        "8"
    } else {
        proof {
            reveal_strlit("9");
        }
        "9"
    }
}

fn push_space(out: &mut String)
    ensures
        final(out)@ == old(out)@ + seq![' '],
{
    proof {
        reveal_strlit(" ");
    }
    out.append(" ");
}

/// Iterated hash of a single identity key, domain-separated.
fn fingerprint(identity: &[u8; 32]) -> (fp: [u8; 64])
    ensures
        fp@ == spec_fingerprint(identity@),
{
    let first = crate::bytes::concat(SAFETY_CONTEXT.as_slice(), identity.as_slice());
    let mut digest = sha512(first.as_slice());
    let mut k: u32 = 1;
    while k < ITERATIONS
        invariant
            1 <= k <= ITERATIONS,
            digest@ == fingerprint_rounds(identity@, (k - 1) as nat),
        decreases ITERATIONS - k,
    {
        let buf = crate::bytes::concat(digest.as_slice(), identity.as_slice());
        digest = sha512(buf.as_slice());
        k = k + 1;
    }
    digest
}

/// Encode a fingerprint as groups of 5 decimal digits: each group is 5 bytes
/// read big-endian, mod 100000, zero-padded.
fn push_digits(out: &mut String, fingerprint: &[u8; 64])
    ensures
        final(out)@ == old(out)@ + digit_groups(fingerprint@, 6),
{
    let ghost start = out@;
    let mut chunk_index: usize = 0;
    while chunk_index < CHUNKS_PER_IDENTITY
        invariant
            chunk_index <= CHUNKS_PER_IDENTITY,
            out@ == start + digit_groups(fingerprint@, chunk_index as nat),
        decreases CHUNKS_PER_IDENTITY - chunk_index,
    {
        let s = chunk_index * 5;
        let mut acc: u64 = 0;
        let mut i: usize = 0;
        while i < 5
            invariant
                i <= 5,
                s == chunk_index * 5,
                chunk_index < 6,
                acc == if i == 0 {
                    0int
                } else if i == 1 {
                    fingerprint@[s as int] as int
                } else if i == 2 {
                    fingerprint@[s as int] * 0x100 + fingerprint@[s + 1]
                } else if i == 3 {
                    fingerprint@[s as int] * 0x1_0000 + fingerprint@[s + 1] * 0x100 + fingerprint@[s + 2]
                } else if i == 4 {
                    fingerprint@[s as int] * 0x100_0000 + fingerprint@[s + 1] * 0x1_0000 + fingerprint@[s + 2]
                        * 0x100 + fingerprint@[s + 3]
                } else {
                    fingerprint@[s as int] * 0x1_0000_0000 + fingerprint@[s + 1] * 0x100_0000 + fingerprint@[s
                        + 2] * 0x1_0000 + fingerprint@[s + 3] * 0x100 + fingerprint@[s + 4]
                },
            decreases 5 - i,
        {
            acc = acc * 256 + fingerprint[s + i] as u64;
            i = i + 1;
        }
        let value = acc % 100_000;
        assert(value == chunk_value(fingerprint@, chunk_index as int));
        if chunk_index > 0 {
            push_space(out);
        }
        out.append(digit_str(value / 10000 % 10));
        out.append(digit_str(value / 1000 % 10));
        out.append(digit_str(value / 100 % 10));
        out.append(digit_str(value / 10 % 10));
        out.append(digit_str(value % 10));
        proof {
            let n = (chunk_index + 1) as nat;
            if chunk_index == 0 {
                assert(out@ =~= start + digit_groups(fingerprint@, n));
            } else {
                assert(out@ =~= start + digit_groups(fingerprint@, n));
            }
        }
        chunk_index = chunk_index + 1;
    }
}

/// Compute the 60-digit safety number for a pair of Ed25519 identity keys.
///
/// The result is independent of argument order (see
/// [`lemma_safety_number_symmetric`]), so both contacts see the same string
/// regardless of who computes it.
pub fn safety_number(identity_a: &[u8; 32], identity_b: &[u8; 32]) -> (s: String)
    ensures
        s@ == spec_safety_number(identity_a@, identity_b@),
{
    let fp_a = fingerprint(identity_a);
    let fp_b = fingerprint(identity_b);

    // Order the two fingerprints deterministically before concatenating.
    let a_first = fingerprint_le(&fp_a, &fp_b);
    let mut out = String::new();
    if a_first {
        push_digits(&mut out, &fp_a);
        push_space(&mut out);
        push_digits(&mut out, &fp_b);
    } else {
        push_digits(&mut out, &fp_b);
        push_space(&mut out);
        push_digits(&mut out, &fp_a);
    }
    assert(out@ =~= spec_safety_number(identity_a@, identity_b@));
    out
}

/// `a <= b` in lexicographic byte order.
fn fingerprint_le(a: &[u8; 64], b: &[u8; 64]) -> (le: bool)
    ensures
        le == lex_le(a@, b@),
{
    let mut i: usize = 0;
    while i < 64
        invariant
            i <= 64,
            forall|j: int| 0 <= j < i ==> a@[j] == b@[j],
        decreases 64 - i,
    {
        if a[i] != b[i] {
            proof {
                lemma_lex_order(a@, b@);
                if a[i as int] < b[i as int] {
                    assert(lex_le(a@, b@));
                } else {
                    assert(lex_le(b@, a@));
                    assert(a@ != b@);
                }
            }
            return a[i] < b[i];
        }
        i = i + 1;
    }
    assert(a@ =~= b@);
    assert(b@.subrange(0, 64) =~= a@);
    true
}

} // verus!
