use vstd::prelude::*;
use vstd::arithmetic::div_mod::lemma_fundamental_div_mod;
use crate::blocks::{block_of, first_blocks, lemma_first_blocks_step, lemma_mul_mono, lemma_mul_step};

verus! {

/// The number that bytes `s` stand for, least significant byte first.
pub open spec fn le_value(s: Seq<u8>) -> nat
    decreases s.len(),
{
    if s.len() == 0 {
        0
    } else {
        s[0] as nat + 256 * le_value(s.drop_first())
    }
}

/// The `n` low bytes of `v`, least significant first.
pub open spec fn le_bytes(v: nat, n: nat) -> Seq<u8>
    decreases n,
{
    if n == 0 {
        Seq::empty()
    } else {
        seq![(v % 256) as u8] + le_bytes(v / 256, (n - 1) as nat)
    }
}

pub open spec fn pow256(n: nat) -> nat
    decreases n,
{
    if n == 0 { 1 } else { 256 * pow256((n - 1) as nat) }
}

/// The words of the blocks of `b`: one per `bs` bytes.
pub open spec fn words_of(b: Seq<u8>, bs: nat) -> Seq<u128> {
    Seq::new(b.len() / bs, |i: int| le_value(block_of(b, bs, i)) as u128)
}

/// The bytes of `words`, `bs` per word.
pub open spec fn bytes_of(words: Seq<u128>, bs: nat) -> Seq<u8>
    decreases words.len(),
{
    if words.len() == 0 {
        Seq::empty()
    } else {
        bytes_of(words.drop_last(), bs) + le_bytes(words.last() as nat, bs)
    }
}

pub proof fn lemma_le_value_bound(s: Seq<u8>)
    ensures
        le_value(s) < pow256(s.len()),
    decreases s.len(),
{
    if s.len() > 0 {
        lemma_le_value_bound(s.drop_first());
        let r = le_value(s.drop_first());
        let p = pow256((s.len() - 1) as nat);
        assert(s[0] as nat + 256 * r < 256 * p) by (nonlinear_arith)
            requires
                r < p,
                s[0] < 256,
        ;
    }
}

/// Bytes come back from their value: `le_bytes` inverts `le_value`.
pub proof fn lemma_le_round_trip(s: Seq<u8>)
    ensures
        le_bytes(le_value(s), s.len()) == s,
    decreases s.len(),
{
    if s.len() > 0 {
        let t = s.drop_first();
        lemma_le_round_trip(t);
        let v = le_value(s);
        assert(v % 256 == s[0] as nat && v / 256 == le_value(t)) by (nonlinear_arith)
            requires
                v == s[0] as nat + 256 * le_value(t),
                s[0] < 256,
        ;
        assert(s =~= seq![s[0]] + t);
    }
}

/// The word of a block of at most 16 bytes fits in `u128`.
pub proof fn lemma_word_fits(s: Seq<u8>)
    requires
        s.len() <= 16,
    ensures
        le_value(s) < 0x1_0000_0000_0000_0000_0000_0000_0000_0000,
{
    lemma_le_value_bound(s);
    lemma_pow256_mono(s.len(), 16);
    reveal_with_fuel(pow256, 17);
}

/// Two blocks of one size are equal exactly when their words are.
pub proof fn lemma_word_equality(a: Seq<u8>, b: Seq<u8>)
    requires
        a.len() == b.len(),
    ensures
        (le_value(a) == le_value(b)) == (a == b),
{
    lemma_le_round_trip(a);
    lemma_le_round_trip(b);
}

proof fn lemma_pow256_mono(a: nat, b: nat)
    requires
        a <= b,
    ensures
        0 < pow256(a) <= pow256(b),
    decreases b,
{
    if b > a {
        lemma_pow256_mono(a, (b - 1) as nat);
    } else if a > 0 {
        lemma_pow256_mono((a - 1) as nat, (a - 1) as nat);
    }
}

/// The word of the `bs` bytes of `bytes` at `start`.
pub fn word_at(bytes: &[u8], start: usize, bs: usize) -> (w: u128)
    requires
        bs <= 16,
        start + bs <= bytes@.len(),
    ensures
        w == le_value(bytes@.subrange(start as int, start + bs)),
{
    let ghost end = start + bs;
    let _len = bytes.len();
    let mut w: u128 = 0;
    let mut k: usize = bs;
    proof {
        reveal_with_fuel(pow256, 17);
        assert(pow256(16) == 0x1_0000_0000_0000_0000_0000_0000_0000_0000);
    }
    while k > 0
        invariant
            k <= bs <= 16,
            start + bs <= bytes@.len(),
            _len == bytes@.len(),
            end == start + bs,
            w == le_value(bytes@.subrange(start + k, end)),
            w < pow256((bs - k) as nat),
            pow256(16) == 0x1_0000_0000_0000_0000_0000_0000_0000_0000,
        decreases k,
    {
        let b = bytes[start + k - 1];
        let ghost s = bytes@.subrange(start + k - 1, end);
        assert(s.drop_first() =~= bytes@.subrange(start + k, end));
        proof {
            lemma_pow256_mono((bs - k + 1) as nat, 16);
            assert(w * 256 + b < 256 * pow256((bs - k) as nat)) by (nonlinear_arith)
                requires
                    w < pow256((bs - k) as nat),
                    b < 256,
            ;
        }
        w = w * 256 + b as u128;
        k = k - 1;
    }
    w
}

/// The words of the blocks of `bytes`, `block_size` bytes each.
pub fn pack(bytes: &[u8], block_size: usize) -> (r: Vec<u128>)
    requires
        0 < block_size <= 16,
        bytes@.len() % (block_size as nat) == 0,
    ensures
        r@ == words_of(bytes@, block_size as nat),
{
    let blen = bytes.len();
    let n = blen / block_size;
    proof {
        lemma_fundamental_div_mod(blen as int, block_size as int);
    }
    let mut r: Vec<u128> = Vec::new();
    let mut i: usize = 0;
    while i < n
        invariant
            0 < block_size <= 16,
            n == bytes@.len() / (block_size as nat),
            n * block_size <= bytes@.len(),
            blen == bytes@.len(),
            i <= n,
            r@ == words_of(bytes@, block_size as nat).subrange(0, i as int),
        decreases n - i,
    {
        proof {
            lemma_mul_mono(i as int + 1, n as int, block_size as int);
            lemma_mul_step(i as int, block_size as int);
        }
        let w = word_at(bytes, i * block_size, block_size);
        r.push(w);
        assert(r@ =~= words_of(bytes@, block_size as nat).subrange(0, i + 1));
        i = i + 1;
    }
    assert(r@ =~= words_of(bytes@, block_size as nat));
    r
}

/// Appends the `bs` low bytes of `w`, least significant first.
fn push_word(out: &mut Vec<u8>, w: u128, bs: usize)
    ensures
        final(out)@ == old(out)@ + le_bytes(w as nat, bs as nat),
{
    let mut v: u128 = w;
    let mut k: usize = 0;
    while k < bs
        invariant
            k <= bs,
            out@ + le_bytes(v as nat, (bs - k) as nat) == old(out)@ + le_bytes(w as nat, bs as nat),
        decreases bs - k,
    {
        let ghost before = out@;
        out.push((v % 256) as u8);
        assert(before + le_bytes(v as nat, (bs - k) as nat) =~= out@ + le_bytes((v / 256) as nat, (bs - k - 1) as nat));
        v = v / 256;
        k = k + 1;
    }
    assert(out@ + le_bytes(v as nat, 0) =~= out@);
}

/// The bytes of `words`, `block_size` bytes each, least significant first.
pub fn unpack(words: &[u128], block_size: usize) -> (r: Vec<u8>)
    ensures
        r@ == bytes_of(words@, block_size as nat),
{
    let mut out: Vec<u8> = Vec::new();
    let mut i: usize = 0;
    while i < words.len()
        invariant
            i <= words@.len(),
            out@ == bytes_of(words@.subrange(0, i as int), block_size as nat),
        decreases words@.len() - i,
    {
        push_word(&mut out, words[i], block_size);
        assert(words@.subrange(0, i + 1).drop_last() =~= words@.subrange(0, i as int));
        i = i + 1;
    }
    assert(words@.subrange(0, words@.len() as int) =~= words@);
    out
}

/// Unpacking the words of a buffer gives the buffer back.
pub proof fn lemma_pack_round_trip(b: Seq<u8>, bs: nat)
    requires
        0 < bs <= 16,
        b.len() % bs == 0,
    ensures
        bytes_of(words_of(b, bs), bs) == b,
{
    let n = (b.len() / bs) as int;
    lemma_fundamental_div_mod(b.len() as int, bs as int);
    assert(b.len() == n * bs);
    lemma_prefix_round_trip(b, bs, n);
    assert(words_of(b, bs).subrange(0, n) =~= words_of(b, bs));
    assert(first_blocks(b, bs, n) =~= b);
}

proof fn lemma_prefix_round_trip(b: Seq<u8>, bs: nat, i: int)
    requires
        0 < bs <= 16,
        0 <= i <= b.len() / bs,
    ensures
        bytes_of(words_of(b, bs).subrange(0, i), bs) == first_blocks(b, bs, i),
    decreases i,
{
    if i == 0 {
        assert(first_blocks(b, bs, 0) =~= Seq::<u8>::empty());
    } else {
        lemma_prefix_round_trip(b, bs, i - 1);
        let ws = words_of(b, bs).subrange(0, i);
        assert(ws.drop_last() =~= words_of(b, bs).subrange(0, i - 1));
        let blk = block_of(b, bs, i - 1);
        lemma_mul_mono(i, (b.len() / bs) as int, bs as int);
        assert((b.len() / bs) * bs <= b.len()) by (nonlinear_arith)
            requires
                0 < bs,
                0 <= b.len(),
        ;
        lemma_mul_step(i - 1, bs as int);
        lemma_mul_mono(0, i - 1, bs as int);
        assert(blk.len() == bs);
        lemma_le_value_bound(blk);
        lemma_pow256_mono(bs, 16);
        reveal_with_fuel(pow256, 17);
        assert(pow256(16) == 0x1_0000_0000_0000_0000_0000_0000_0000_0000);
        assert(ws.last() as nat == le_value(blk));
        lemma_le_round_trip(blk);
        lemma_first_blocks_step(b, bs, i - 1);
    }
}

} // verus!
