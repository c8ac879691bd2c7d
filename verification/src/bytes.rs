use vstd::prelude::*;

verus! {

/// Whether two byte strings are equal.
pub fn bytes_equal(a: &[u8], b: &[u8]) -> (eq: bool)
    ensures
        eq == (a@ == b@),
{
    if a.len() != b.len() {
        return false;
    }
    let mut i: usize = 0;
    while i < a.len()
        invariant
            0 <= i <= a@.len(),
            a@.len() == b@.len(),
            a@.subrange(0, i as int) == b@.subrange(0, i as int),
        decreases a@.len() - i,
    {
        if a[i] != b[i] {
            return false;
        }
        i = i + 1;
        assert(a@.subrange(0, i as int) =~= b@.subrange(0, i as int)) by {
            assert(a@.subrange(0, i - 1) == b@.subrange(0, i - 1));
            assert forall|j: int| 0 <= j < i implies a@[j] == b@[j] by {
                if j < i - 1 {
                    assert(a@.subrange(0, i - 1)[j] == b@.subrange(0, i - 1)[j]);
                }
            }
        }
    }
    assert(a@ =~= a@.subrange(0, i as int));
    assert(b@ =~= b@.subrange(0, i as int));
    true
}

/// Copy `N` bytes of `src`, starting at `start`, into `dst`.
pub fn copy_into<const N: usize>(dst: &mut [u8; N], src: &[u8], start: usize)
    requires
        start + N <= src.len(),
    ensures
        final(dst)@ == src@.subrange(start as int, start + N),
{
    let mut i: usize = 0;
    while i < N
        invariant
            0 <= i <= N,
            start + N <= src.len(),
            dst@.len() == N,
            dst@.subrange(0, i as int) == src@.subrange(start as int, start + i),
        decreases N - i,
    {
        dst[i] = src[start + i];
        i = i + 1;
        assert(dst@.subrange(0, i as int) =~= src@.subrange(start as int, start + i));
    }
    assert(dst@ =~= dst@.subrange(0, N as int));
}

/// Append the bytes of `src` to `out`.
pub fn push_bytes(out: &mut Vec<u8>, src: &[u8])
    ensures
        final(out)@ == old(out)@ + src@,
{
    let mut i: usize = 0;
    while i < src.len()
        invariant
            0 <= i <= src@.len(),
            out@ == old(out)@ + src@.subrange(0, i as int),
        decreases src@.len() - i,
    {
        out.push(src[i]);
        i = i + 1;
        assert(out@ =~= old(out)@ + src@.subrange(0, i as int));
    }
    assert(src@.subrange(0, src@.len() as int) =~= src@);
}

} // verus!
