use vstd::prelude::*;

verus! {

/// The bytes of block `i` of a buffer of `bs`-byte blocks.
pub open spec fn block_of(b: Seq<u8>, bs: nat, i: int) -> Seq<u8> {
    b.subrange(i * bs, i * bs + bs)
}

/// The first `n` blocks of a buffer.
pub open spec fn first_blocks(b: Seq<u8>, bs: nat, n: int) -> Seq<u8> {
    b.subrange(0, n * bs)
}

pub proof fn lemma_mul_step(i: int, bs: int)
    ensures
        (i + 1) * bs == i * bs + bs,
        (i - 1) * bs == i * bs - bs,
{
    assert((i + 1) * bs == i * bs + bs) by (nonlinear_arith);
    assert((i - 1) * bs == i * bs - bs) by (nonlinear_arith);
}

pub proof fn lemma_mul_mono(i: int, j: int, bs: int)
    requires
        0 <= i <= j,
        0 <= bs,
    ensures
        0 <= i * bs <= j * bs,
{
    assert(0 <= i * bs <= j * bs) by (nonlinear_arith)
        requires
            0 <= i <= j,
            0 <= bs,
    ;
}

/// Appending block `n` to the first `n` blocks gives the first `n + 1` blocks.
pub proof fn lemma_first_blocks_step(b: Seq<u8>, bs: nat, n: int)
    requires
        0 <= n,
        (n + 1) * bs <= b.len(),
    ensures
        first_blocks(b, bs, n) + block_of(b, bs, n) =~= first_blocks(b, bs, n + 1),
{
    lemma_mul_step(n, bs as int);
    lemma_mul_mono(0, n, bs as int);
}

/// Appends the `n` bytes of `src` at `start` to `out`.
pub fn push_bytes(out: &mut Vec<u8>, src: &[u8], start: usize, n: usize)
    requires
        start + n <= src@.len(),
    ensures
        final(out)@ == old(out)@ + src@.subrange(start as int, start + n),
{
    let slen = src.len();
    let mut k: usize = 0;
    while k < n
        invariant
            k <= n,
            start + n <= src@.len(),
            slen == src@.len(),
            out@ == old(out)@ + src@.subrange(start as int, start + k),
        decreases n - k,
    {
        out.push(src[start + k]);
        assert(src@.subrange(start as int, start + k + 1) =~= src@.subrange(start as int, start + k).push(src@[start + k]));
        k = k + 1;
    }
}

} // verus!
