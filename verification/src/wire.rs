//! Byte-level helpers shared by the frame formats.

use vstd::prelude::*;

verus! {

/// Appends the bytes of `s` to `v`.
pub fn append_bytes(v: &mut Vec<u8>, s: &[u8])
    ensures
        final(v)@ == old(v)@ + s@,
{
    let ghost start = v@;
    let mut i: usize = 0;
    while i < s.len()
        invariant
            i <= s@.len(),
            v@ == start + s@.take(i as int),
        decreases s@.len() - i,
    {
        v.push(s[i]);
        assert(s@.take(i as int + 1) =~= s@.take(i as int).push(s@[i as int]));
        i = i + 1;
    }
    assert(s@.take(i as int) =~= s@);
}

/// The two byte strings are equal.
pub fn bytes_equal(a: &[u8], b: &[u8]) -> (r: bool)
    ensures
        r == (a@ == b@),
{
    if a.len() != b.len() {
        return false;
    }
    let mut i: usize = 0;
    while i < a.len()
        invariant
            i <= a@.len(),
            a@.len() == b@.len(),
            forall|t: int| 0 <= t < i ==> a@[t] == b@[t],
        decreases a@.len() - i,
    {
        if a[i] != b[i] {
            return false;
        }
        i = i + 1;
    }
    assert(a@ =~= b@);
    true
}

/// Copies a slice into a new vector.
pub fn bytes_to_vec(s: &[u8]) -> (v: Vec<u8>)
    ensures
        v@ == s@,
{
    let mut v: Vec<u8> = Vec::new();
    append_bytes(&mut v, s);
    assert(v@ =~= s@);
    v
}

/// Copies `s[start..start + 16]` into an array.
pub fn array16_at(s: &[u8], start: usize) -> (a: [u8; 16])
    requires
        start + 16 <= s@.len(),
    ensures
        a@ == s@.subrange(start as int, start + 16),
{
    let mut a: [u8; 16] = [0u8; 16];
    let n = s.len();
    let mut i: usize = 0;
    while i < 16
        invariant
            i <= 16,
            start + 16 <= s@.len(),
            n == s@.len(),
            forall|t: int| 0 <= t < i ==> a@[t] == s@[start + t],
        decreases 16 - i,
    {
        a[i] = s[start + i];
        i = i + 1;
    }
    assert(a@ =~= s@.subrange(start as int, start + 16));
    a
}

/// Copies `s[start..start + 32]` into an array.
pub fn array32_at(s: &[u8], start: usize) -> (a: [u8; 32])
    requires
        start + 32 <= s@.len(),
    ensures
        a@ == s@.subrange(start as int, start + 32),
{
    let mut a: [u8; 32] = [0u8; 32];
    let n = s.len();
    let mut i: usize = 0;
    while i < 32
        invariant
            i <= 32,
            start + 32 <= s@.len(),
            n == s@.len(),
            forall|t: int| 0 <= t < i ==> a@[t] == s@[start + t],
        decreases 32 - i,
    {
        a[i] = s[start + i];
        i = i + 1;
    }
    assert(a@ =~= s@.subrange(start as int, start + 32));
    a
}

/// Copies `s[start..end]` into a new vector.
pub fn slice_to_vec(s: &[u8], start: usize, end: usize) -> (v: Vec<u8>)
    requires
        start <= end <= s@.len(),
    ensures
        v@ == s@.subrange(start as int, end as int),
{
    let mut v: Vec<u8> = Vec::new();
    let mut i: usize = start;
    while i < end
        invariant
            start <= i <= end,
            end <= s@.len(),
            v@ == s@.subrange(start as int, i as int),
        decreases end - i,
    {
        v.push(s[i]);
        assert(s@.subrange(start as int, i + 1) =~= s@.subrange(start as int, i as int).push(
            s@[i as int],
        ));
        i = i + 1;
    }
    v
}

} // verus!
