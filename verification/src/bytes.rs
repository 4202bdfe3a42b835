//! Copying fixed-size fields out of and into byte buffers.

use vstd::prelude::*;

verus! {

/// Cutting a sequence at `b` and joining the two halves back gives the
/// subrange from `a` to `c`.
pub proof fn lemma_subrange_join(s: Seq<u8>, a: int, b: int, c: int)
    requires
        0 <= a <= b <= c <= s.len(),
    ensures
        s.subrange(a, b) + s.subrange(b, c) == s.subrange(a, c),
{
    assert(s.subrange(a, b) + s.subrange(b, c) =~= s.subrange(a, c));
}

/// The `N` bytes of `input` that start at `pos`, as an array.
pub(crate) fn take_bytes<const N: usize>(input: &[u8], pos: usize) -> (r: [u8; N])
    requires
        pos + N <= input@.len(),
    ensures
        r@ == input@.subrange(pos as int, pos + N),
{
    let mut a = [0u8; N];
    let mut i: usize = 0;
    while i < N
        invariant
            i <= N,
            pos + N <= input@.len(),
            a@.len() == N,
            forall|j: int| 0 <= j < i ==> a@[j] == input@[pos + j],
        decreases N - i,
    {
        assert(input@.len() == input.len());
        a[i] = input[pos + i];
        i += 1;
    }
    assert(a@ =~= input@.subrange(pos as int, pos + N));
    a
}

/// Appends `bytes` to `out`.
pub(crate) fn push_bytes(out: &mut Vec<u8>, bytes: &[u8])
    ensures
        final(out)@ == old(out)@ + bytes@,
{
    let mut i: usize = 0;
    while i < bytes.len()
        invariant
            i <= bytes@.len(),
            out@ == old(out)@ + bytes@.subrange(0, i as int),
        decreases bytes@.len() - i,
    {
        out.push(bytes[i]);
        i += 1;
        assert(out@ =~= old(out)@ + bytes@.subrange(0, i as int));
    }
    assert(bytes@.subrange(0, bytes@.len() as int) =~= bytes@);
}

} // verus!
