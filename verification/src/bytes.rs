//! Byte-wise copy, fill and comparison, which compiled code expects to find
//! in a freestanding program.

use vstd::prelude::*;

verus! {

/// Copy the first `n` bytes of `src` to the start of `dst`.
pub fn memcpy(dst: &mut [u8], src: &[u8], n: usize)
    requires
        n <= old(dst)@.len(),
        n <= src@.len(),
    ensures
        final(dst)@ == src@.take(n as int) + old(dst)@.skip(n as int),
        final(dst)@.len() == old(dst)@.len(),
        forall|i: int|
            0 <= i < old(dst)@.len() ==> #[trigger] final(dst)@[i] == (if i < n {
                src@[i]
            } else {
                old(dst)@[i]
            }),
{
    let mut i: usize = 0;
    while i < n
        invariant
            i <= n <= src@.len(),
            n <= dst@.len() == old(dst)@.len(),
            dst@ =~= src@.take(i as int) + old(dst)@.skip(i as int),
        decreases n - i,
    {
        dst[i] = src[i];
        i = i + 1;
    }
}

/// Set the first `n` bytes of `s` to the low byte of `c`.
pub fn memset(s: &mut [u8], c: i32, n: usize)
    requires
        n <= old(s)@.len(),
    ensures
        final(s)@ == Seq::new(n as nat, |i: int| (c % 256) as u8) + old(s)@.skip(n as int),
        final(s)@.len() == old(s)@.len(),
        forall|i: int| 0 <= i < n ==> (#[trigger] final(s)@[i] - c) % 256 == 0,
        forall|i: int| n <= i < old(s)@.len() ==> #[trigger] final(s)@[i] == old(s)@[i],
{
    let byte = #[verifier::truncate] (c as u8);
    assert(c as u8 == c % 256) by (bit_vector);
    let mut i: usize = 0;
    while i < n
        invariant
            i <= n <= s@.len() == old(s)@.len(),
            byte == c % 256,
            s@ =~= Seq::new(i as nat, |k: int| (c % 256) as u8) + old(s)@.skip(i as int),
        decreases n - i,
    {
        s[i] = byte;
        i = i + 1;
    }
}

/// How `a` differs from `b` within the first `n` bytes: the difference of the
/// first two bytes that differ, or 0.
pub open spec fn difference(a: Seq<u8>, b: Seq<u8>, from: int, n: int) -> int
    decreases n - from,
{
    if from >= n {
        0
    } else if a[from] != b[from] {
        a[from] - b[from]
    } else {
        difference(a, b, from + 1, n)
    }
}

/// Compare the first `n` bytes of `s1` and `s2`.
pub fn compare(s1: &[u8], s2: &[u8], n: usize) -> (r: i32)
    requires
        n <= s1@.len(),
        n <= s2@.len(),
    ensures
        r == difference(s1@, s2@, 0, n as int),
{
    let mut i: usize = 0;
    while i < n
        invariant
            i <= n <= s1@.len(),
            n <= s2@.len(),
            difference(s1@, s2@, 0, n as int) == difference(s1@, s2@, i as int, n as int),
        decreases n - i,
    {
        let a = s1[i];
        let b = s2[i];
        if a != b {
            return a as i32 - b as i32;
        }
        i = i + 1;
    }
    0
}

/// Comparing gives 0 exactly if the bytes are the same.
pub proof fn law_difference_zero(a: Seq<u8>, b: Seq<u8>, from: int, n: int)
    requires
        0 <= from,
        n <= a.len(),
        n <= b.len(),
    ensures
        difference(a, b, from, n) == 0 <==> forall|i: int|
            from <= i < n ==> a[i] == b[i],
        difference(b, a, from, n) == -difference(a, b, from, n),
    decreases n - from,
{
    if from < n {
        law_difference_zero(a, b, from + 1, n);
    }
}

/// Comparing goes by the first bytes that differ: the result is their
/// difference, whatever comes after them.
pub proof fn law_first_difference_decides(a: Seq<u8>, b: Seq<u8>, from: int, n: int, i: int)
    requires
        from <= i < n,
        a[i] != b[i],
        forall|j: int| from <= j < i ==> #[trigger] a[j] == b[j],
    ensures
        difference(a, b, from, n) == a[i] - b[i],
    decreases i - from,
{
    if from < i {
        assert(a[from] == b[from]);
        law_first_difference_decides(a, b, from + 1, n, i);
    }
}

} // verus!
