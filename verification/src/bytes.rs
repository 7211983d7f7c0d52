//! Small verified helpers for building and slicing byte strings.
use vstd::prelude::*;

verus! {

/// Append every byte of `s` to `v`.
pub fn push_all(v: &mut Vec<u8>, s: &[u8])
    ensures
        final(v)@ == old(v)@ + s@,
{
    let mut i: usize = 0;
    while i < s.len()
        invariant
            i <= s@.len(),
            v@ == old(v)@ + s@.subrange(0, i as int),
        decreases s@.len() - i,
    {
        v.push(s[i]);
        i = i + 1;
        proof {
            assert(s@.subrange(0, i as int) == s@.subrange(0, (i - 1) as int).push(s@[i - 1]));
        }
    }
    proof {
        assert(s@.subrange(0, s@.len() as int) == s@);
    }
}

/// The 32 bytes of `s` starting at `start`.
pub fn array32_at(s: &[u8], start: usize) -> (a: [u8; 32])
    requires
        start + 32 <= s@.len(),
    ensures
        a@ == s@.subrange(start as int, start + 32),
{
    let mut a = [0u8; 32];
    let n: usize = s.len();
    let mut i: usize = 0;
    while i < 32
        invariant
            i <= 32,
            n == s@.len(),
            start + 32 <= s@.len(),
            forall|j: int| 0 <= j < i ==> a@[j] == s@[start + j],
        decreases 32 - i,
    {
        a[i] = s[start + i];
        i = i + 1;
    }
    assert(a@ =~= s@.subrange(start as int, start + 32));
    a
}

/// The 64 bytes of `s` starting at `start`.
pub fn array64_at(s: &[u8], start: usize) -> (a: [u8; 64])
    requires
        start + 64 <= s@.len(),
    ensures
        a@ == s@.subrange(start as int, start + 64),
{
    let mut a = [0u8; 64];
    let n: usize = s.len();
    let mut i: usize = 0;
    while i < 64
        invariant
            i <= 64,
            n == s@.len(),
            start + 64 <= s@.len(),
            forall|j: int| 0 <= j < i ==> a@[j] == s@[start + j],
        decreases 64 - i,
    {
        a[i] = s[start + i];
        i = i + 1;
    }
    assert(a@ =~= s@.subrange(start as int, start + 64));
    a
}

/// The 16 bytes of `s` starting at `start`.
pub fn array16_at(s: &[u8], start: usize) -> (a: [u8; 16])
    requires
        start + 16 <= s@.len(),
    ensures
        a@ == s@.subrange(start as int, start + 16),
{
    let mut a = [0u8; 16];
    let n: usize = s.len();
    let mut i: usize = 0;
    while i < 16
        invariant
            i <= 16,
            n == s@.len(),
            start + 16 <= s@.len(),
            forall|j: int| 0 <= j < i ==> a@[j] == s@[start + j],
        decreases 16 - i,
    {
        a[i] = s[start + i];
        i = i + 1;
    }
    assert(a@ =~= s@.subrange(start as int, start + 16));
    a
}

/// The 24 bytes of `s` starting at `start`.
pub fn array24_at(s: &[u8], start: usize) -> (a: [u8; 24])
    requires
        start + 24 <= s@.len(),
    ensures
        a@ == s@.subrange(start as int, start + 24),
{
    let mut a = [0u8; 24];
    let n: usize = s.len();
    let mut i: usize = 0;
    while i < 24
        invariant
            i <= 24,
            n == s@.len(),
            start + 24 <= s@.len(),
            forall|j: int| 0 <= j < i ==> a@[j] == s@[start + j],
        decreases 24 - i,
    {
        a[i] = s[start + i];
        i = i + 1;
    }
    assert(a@ =~= s@.subrange(start as int, start + 24));
    a
}

/// A fresh vector holding the bytes of `s`.
pub fn slice_to_vec(s: &[u8]) -> (v: Vec<u8>)
    ensures
        v@ == s@,
{
    let mut v: Vec<u8> = Vec::new();
    push_all(&mut v, s);
    assert(v@ =~= s@);
    v
}

/// A copy of a byte vector.
pub fn copy_vec(s: &Vec<u8>) -> (v: Vec<u8>)
    ensures
        v@ == s@,
{
    slice_to_vec(s.as_slice())
}

/// A 32-byte array as a vector.
pub fn array_to_vec32(a: &[u8; 32]) -> (v: Vec<u8>)
    ensures
        v@ == a@,
{
    slice_to_vec(a.as_slice())
}

/// The concatenation of two byte strings.
pub fn concat(a: &[u8], b: &[u8]) -> (v: Vec<u8>)
    ensures
        v@ == a@ + b@,
{
    let mut v: Vec<u8> = Vec::new();
    push_all(&mut v, a);
    push_all(&mut v, b);
    assert(v@ =~= a@ + b@);
    v
}

/// Whether two byte strings are equal.
pub fn bytes_eq(a: &[u8], b: &[u8]) -> (eq: bool)
    ensures
        eq == (a@ == b@),
{
    if a.len() != b.len() {
        return false;
    }
    let mut i: usize = 0;
    while i < a.len()
        invariant
            i <= a@.len(),
            a@.len() == b@.len(),
            forall|j: int| 0 <= j < i ==> a@[j] == b@[j],
        decreases a@.len() - i,
    {
        if a[i] != b[i] {
            return false;
        }
        i = i + 1;
    }
    assert(a@ =~= b@);
    true
}

} // verus!
