use vstd::prelude::*;
use crate::format::{BcFormat, block_size, block_size_of, sentinel_of, transparent_block};
use crate::word::{pack, word_at, words_of, le_value, lemma_word_equality, lemma_word_fits};
use vstd::arithmetic::div_mod::{lemma_fundamental_div_mod, lemma_mod_multiples_basic, lemma_div_multiples_vanish};
use crate::blocks::{block_of, first_blocks, push_bytes, lemma_mul_step, lemma_mul_mono, lemma_first_blocks_step};

verus! {

/// The previous frame, in block space: its blocks, its grid size in blocks,
/// and the displacement of the current frame's grid against it, in blocks.
pub struct PrevGrid {
    pub blocks: Vec<u8>,
    pub width: u32,
    pub height: u32,
    pub off_col: i32,
    pub off_row: i32,
}

/// Blocks that a pixel extent of `n` needs: `n / 4` rounded up.
pub open spec fn pixels_to_blocks(n: int) -> int {
    (n + 3) / 4
}

/// A pixel offset in blocks: division by 4, truncated toward zero.
pub open spec fn offset_to_blocks(o: int) -> int {
    if o >= 0 {
        o / 4
    } else {
        -((-o) / 4)
    }
}

/// Whether the previous frame holds every block its grid size declares.
pub open spec fn prev_complete(p: PrevGrid, bs: nat) -> bool {
    p.width * p.height * bs <= p.blocks@.len()
}

/// Where block `pos` of a grid `gw` blocks wide lies in a previous grid of
/// `pw` x `ph` blocks displaced by (`oc`, `orow`), or `None` where it falls
/// outside.
pub open spec fn grid_index(pos: int, gw: int, pw: int, ph: int, oc: int, orow: int) -> Option<int> {
    let row = pos / gw - orow;
    let col = pos % gw - oc;
    if row < 0 || col < 0 || row >= ph || col >= pw {
        None
    } else {
        Some(row * pw + col)
    }
}

/// Where block `pos` of a grid `gw` blocks wide lies in the previous frame,
/// or `None` where it falls outside the previous grid.
pub open spec fn mapped_index(pos: int, gw: int, p: PrevGrid) -> Option<int> {
    grid_index(pos, gw, p.width as int, p.height as int, p.off_col as int, p.off_row as int)
}

/// Whether block `i` can be rebuilt without payload: it equals the block at
/// its place in the previous frame, or, with no such place, the sentinel.
pub open spec fn is_skip_spec(
    blocks: Seq<u8>,
    bs: nat,
    gw: int,
    sentinel: Seq<u8>,
    prev: Option<PrevGrid>,
    i: int,
) -> bool {
    let cur = block_of(blocks, bs, i);
    match prev {
        None => cur == sentinel,
        Some(p) => match mapped_index(i, gw, p) {
            None => cur == sentinel,
            Some(j) => cur == block_of(p.blocks@, bs, j),
        },
    }
}

/// The skip classification of the first `n` blocks.
pub open spec fn skip_flags(
    blocks: Seq<u8>,
    bs: nat,
    gw: int,
    sentinel: Seq<u8>,
    prev: Option<PrevGrid>,
    n: nat,
) -> Seq<bool> {
    Seq::new(n, |i: int| is_skip_spec(blocks, bs, gw, sentinel, prev, i))
}

impl PrevGrid {
    /// The previous frame of `width` x `height` pixels, whose anchor lies
    /// `off_x`, `off_y` pixels from the current one's, in block space.
    pub fn from_pixels(blocks: Vec<u8>, width: u32, height: u32, off_x: i32, off_y: i32) -> (r: PrevGrid)
        ensures
            r.blocks == blocks,
            r.width == pixels_to_blocks(width as int),
            r.height == pixels_to_blocks(height as int),
            r.off_col == offset_to_blocks(off_x as int),
            r.off_row == offset_to_blocks(off_y as int),
    {
        PrevGrid {
            blocks,
            width: ((width as u64 + 3) / 4) as u32,
            height: ((height as u64 + 3) / 4) as u32,
            off_col: offset_blocks(off_x),
            off_row: offset_blocks(off_y),
        }
    }
}

fn offset_blocks(o: i32) -> (r: i32)
    ensures
        r == offset_to_blocks(o as int),
{
    if o >= 0 {
        o / 4
    } else {
        (-((-(o as i64)) / 4)) as i32
    }
}

/// Index in the previous grid of block `pos`, as `grid_index` gives it.
fn map_to_prev(pos: usize, gw: u32, pw: u32, ph: u32, oc: i32, orow: i32) -> (r: Option<u64>)
    requires
        gw > 0,
    ensures
        grid_index(pos as int, gw as int, pw as int, ph as int, oc as int, orow as int) == (match r {
            Some(j) => Some(j as int),
            None => None::<int>,
        }),
{
    let gwu = gw as usize;
    let row: i128 = (pos / gwu) as i128 - orow as i128;
    let col: i128 = (pos % gwu) as i128 - oc as i128;
    if row < 0 || col < 0 || row >= ph as i128 || col >= pw as i128 {
        None
    } else {
        let w = pw as i128;
        let h = ph as i128;
        proof {
            assert(row * w + col < h * w) by (nonlinear_arith)
                requires
                    0 <= row < h,
                    0 <= col < w,
            ;
            assert(h * w <= 0xffff_ffff * 0xffff_ffff) by (nonlinear_arith)
                requires
                    0 <= h <= 0xffff_ffff,
                    0 <= w <= 0xffff_ffff,
            ;
            assert(0 <= row * w) by (nonlinear_arith)
                requires
                    0 <= row,
                    0 <= w,
            ;
        }
        Some((row * w + col) as u64)
    }
}

/// Start of a previous-frame block that `prev_complete` guarantees.
proof fn lemma_prev_block_in_range(p: PrevGrid, bs: nat, gw: int, pos: int, j: int)
    requires
        prev_complete(p, bs),
        mapped_index(pos, gw, p) == Some(j),
    ensures
        0 <= j,
        j * bs + bs <= p.width * p.height * bs,
        j * bs + bs <= p.blocks@.len(),
{
    let row = pos / gw - p.off_row;
    let col = pos % gw - p.off_col;
    let w = p.width as int;
    let h = p.height as int;
    assert(0 <= row * w + col + 1 <= h * w) by (nonlinear_arith)
        requires
            0 <= row < h,
            0 <= col < w,
    ;
    lemma_mul_mono(j + 1, h * w, bs as int);
    lemma_mul_step(j, bs as int);
    assert(w * h * bs == h * w * bs) by (nonlinear_arith);
}

/// Whether word `idx` of `blocks` stands for a block that can be rebuilt
/// without payload, on blocks as words.
pub open spec fn is_skip_word(
    blocks: Seq<u128>,
    gw: int,
    transparent: u128,
    prev: Option<(Vec<u128>, u32, u32, i32, i32)>,
    idx: int,
) -> bool {
    match prev {
        None => blocks[idx] == transparent,
        Some(p) => match grid_index(idx, gw, p.1 as int, p.2 as int, p.3 as int, p.4 as int) {
            None => blocks[idx] == transparent,
            Some(j) => blocks[idx] == p.0@[j],
        },
    }
}

/// Whether block `idx` of `blocks` (as words) can be rebuilt without
/// payload: with no previous frame (its words, grid width, grid height and
/// offset in blocks), or where its place falls outside the previous grid,
/// it equals `transparent`; otherwise it equals the previous frame's block
/// there.
pub fn block_is_skip(
    idx: usize,
    blocks: &[u128],
    block_width: u32,
    transparent: u128,
    prev_info: &Option<(Vec<u128>, u32, u32, i32, i32)>,
) -> (r: bool)
    requires
        idx < blocks@.len(),
        prev_info is Some ==> block_width > 0 && prev_info->Some_0.1 * prev_info->Some_0.2 <= prev_info->Some_0.0@.len(),
    ensures
        r == is_skip_word(blocks@, block_width as int, transparent, *prev_info, idx as int),
{
    let cur = blocks[idx];
    match prev_info {
        None => cur == transparent,
        Some((prev, pw, ph, oc, orow)) => match map_to_prev(idx, block_width, *pw, *ph, *oc, *orow) {
            None => cur == transparent,
            Some(j) => {
                proof {
                    let row = idx as int / block_width as int - *orow as int;
                    let col = idx as int % block_width as int - *oc as int;
                    assert(row * (*pw as int) + col < (*ph as int) * (*pw as int)) by (nonlinear_arith)
                        requires
                            0 <= row < *ph as int,
                            0 <= col < *pw as int,
                    ;
                    assert((*ph as int) * (*pw as int) == (*pw as int) * (*ph as int)) by (nonlinear_arith);
                }
                let _plen = prev.len();
                cur == prev[j as usize]
            },
        },
    }
}

/// Delta-encodes a frame of `grid_width` x `grid_height` blocks of `format`
/// against an optional previous frame: skip runs stand for blocks that equal
/// the previous frame's block at their place (or, without one, the
/// format's transparent block), draw runs carry their bytes in the payload.
pub fn encode_delta(
    blocks: &[u8],
    grid_width: u32,
    grid_height: u32,
    format: BcFormat,
    previous: &Option<PrevGrid>,
) -> (r: (Vec<(u8, u8)>, Vec<u8>))
    requires
        blocks@.len() == grid_width * grid_height * block_size_of(format),
        previous is Some ==> prev_complete(previous->Some_0, block_size_of(format)),
    ensures
        ({
            let flags = skip_flags(blocks@, block_size_of(format), grid_width as int, sentinel_of(format), *previous,
                (grid_width * grid_height) as nat);
            &&& r.0@ == commands_from(flags, 0)
            &&& r.1@ == drawn(flags, blocks@, block_size_of(format), grid_width * grid_height)
        }),
{
    let bs = block_size(format);
    let sentinel = transparent_block(format);
    let _len = blocks.len();
    proof {
        assert(grid_width * grid_height <= grid_width * grid_height * bs) by (nonlinear_arith)
            requires
                1 <= bs,
        ;
    }
    let total = grid_width as usize * grid_height as usize;
    assert(total > 0 ==> grid_width > 0) by (nonlinear_arith)
        requires
            total == grid_width * grid_height,
    ;
    encode_blocks(blocks, bs, grid_width, total, sentinel.as_slice(), previous)
}

/// Rebuilds a frame of `grid_width` x `grid_height` blocks of `format` from
/// its delta commands and payload, against an optional previous frame.
pub fn decode_delta(
    commands: &[(u8, u8)],
    payload: &[u8],
    grid_width: u32,
    grid_height: u32,
    format: BcFormat,
    previous: &Option<PrevGrid>,
) -> (r: Result<Vec<u8>, DeltaError>)
    requires
        grid_width * grid_height * block_size_of(format) <= u64::MAX,
    ensures
        r is Ok ==> decoded(commands@, payload@, grid_width as int, grid_height as int, block_size_of(format),
            sentinel_of(format), *previous) == Ok::<Seq<u8>, DeltaError>(r->Ok_0@),
        r is Err ==> decoded(commands@, payload@, grid_width as int, grid_height as int, block_size_of(format),
            sentinel_of(format), *previous) == Err::<Seq<u8>, DeltaError>(r->Err_0),
{
    let bs = block_size(format);
    let sentinel = transparent_block(format);
    decode_blocks(commands, payload, grid_width, grid_height, bs, sentinel.as_slice(), previous)
}

/// Length of the run of `v` in `flags` that starts at `i`, at most `cap`.
pub open spec fn run_len(flags: Seq<bool>, i: int, v: bool, cap: nat) -> nat
    decreases cap,
{
    if cap == 0 || i < 0 || i >= flags.len() || flags[i] != v {
        0
    } else {
        1 + run_len(flags, i + 1, v, (cap - 1) as nat)
    }
}

pub proof fn lemma_run_len_bound(flags: Seq<bool>, i: int, v: bool, cap: nat)
    requires
        0 <= i,
    ensures
        run_len(flags, i, v, cap) <= cap,
        i < flags.len() ==> i + run_len(flags, i, v, cap) <= flags.len(),
        i >= flags.len() ==> run_len(flags, i, v, cap) == 0,
    decreases cap,
{
    if cap > 0 && i < flags.len() && flags[i] == v {
        lemma_run_len_bound(flags, i + 1, v, (cap - 1) as nat);
    }
}

/// The commands that cover `flags` from `i` on: each is a run of skips
/// followed by a run of draws, both as long as they can be and at most 255.
pub open spec fn commands_from(flags: Seq<bool>, i: int) -> Seq<(u8, u8)>
    decreases flags.len() - i,
{
    if i < 0 || i >= flags.len() {
        Seq::empty()
    } else {
        let s = run_len(flags, i, true, 255);
        let d = run_len(flags, i + s, false, 255);
        let next = i + s + d;
        if next <= i || next > flags.len() {
            Seq::empty()
        } else {
            seq![(s as u8, d as u8)] + commands_from(flags, next)
        }
    }
}

/// The bytes of the draw blocks among the first `n`, in order.
pub open spec fn drawn(flags: Seq<bool>, blocks: Seq<u8>, bs: nat, n: int) -> Seq<u8>
    decreases n,
{
    if n <= 0 {
        Seq::empty()
    } else if flags[n - 1] {
        drawn(flags, blocks, bs, n - 1)
    } else {
        drawn(flags, blocks, bs, n - 1) + block_of(blocks, bs, n - 1)
    }
}

/// Blocks that the commands cover.
pub open spec fn covered(cmds: Seq<(u8, u8)>) -> int
    decreases cmds.len(),
{
    if cmds.len() == 0 {
        0
    } else {
        cmds[0].0 + cmds[0].1 + covered(cmds.drop_first())
    }
}

/// `pw` is the previous frame `p` with the blocks of its grid as words.
pub open spec fn prev_as_words(pw: Option<(Vec<u128>, u32, u32, i32, i32)>, p: Option<PrevGrid>, bs: nat) -> bool {
    match (pw, p) {
        (None, None) => true,
        (Some(w), Some(g)) => w.0@ == words_of(g.blocks@.subrange(0, g.width * g.height * bs), bs) && w.1 == g.width && w.2 == g.height && w.3
            == g.off_col && w.4 == g.off_row,
        _ => false,
    }
}

/// On words the classifier decides as on the blocks' bytes.
proof fn lemma_word_skip_matches(
    blocks: Seq<u8>,
    bs: nat,
    gw: int,
    sentinel: Seq<u8>,
    prev: Option<PrevGrid>,
    pw: Option<(Vec<u128>, u32, u32, i32, i32)>,
    i: int,
)
    requires
        0 < bs <= 16,
        0 <= i,
        (i + 1) * bs <= blocks.len(),
        sentinel.len() == bs,
        prev is Some ==> prev_complete(prev->Some_0, bs),
        prev_as_words(pw, prev, bs),
    ensures
        i < words_of(blocks, bs).len(),
        is_skip_word(words_of(blocks, bs), gw, le_value(sentinel) as u128, pw, i)
            == is_skip_spec(blocks, bs, gw, sentinel, prev, i),
{
    lemma_fundamental_div_mod(blocks.len() as int, bs as int);
    lemma_mul_step(i, bs as int);
    lemma_mul_mono(0, i, bs as int);
    assert(i < blocks.len() / bs) by (nonlinear_arith)
        requires
            (i + 1) * bs <= blocks.len(),
            blocks.len() == bs * (blocks.len() / bs) + blocks.len() % bs,
            0 <= blocks.len() % bs < bs,
            0 <= i,
    ;
    let cur = block_of(blocks, bs, i);
    lemma_word_fits(cur);
    lemma_word_fits(sentinel);
    lemma_word_equality(cur, sentinel);
    match prev {
        None => {},
        Some(p) => match mapped_index(i, gw, p) {
            None => {},
            Some(j) => {
                lemma_prev_block_in_range(p, bs, gw, i, j);
                let pb = p.blocks@.subrange(0, p.width * p.height * bs);
                assert(block_of(pb, bs, j) =~= block_of(p.blocks@, bs, j));
                lemma_fundamental_div_mod(pb.len() as int, bs as int);
                assert(j < pb.len() / bs) by (nonlinear_arith)
                    requires
                        j * bs + bs <= pb.len(),
                        pb.len() == bs * (pb.len() / bs) + pb.len() % bs,
                        0 <= pb.len() % bs < bs,
                        0 <= j,
                ;
                let other = block_of(pb, bs, j);
                lemma_word_fits(other);
                lemma_word_equality(cur, other);
            },
        },
    }
}

/// Delta-encodes the first `total_blocks` blocks of `blocks`: the skip and
/// draw runs, and the bytes of the draw blocks.
pub fn encode_blocks(
    blocks: &[u8],
    block_size: usize,
    block_width: u32,
    total_blocks: usize,
    transparent_block: &[u8],
    prev_info: &Option<PrevGrid>,
) -> (r: (Vec<(u8, u8)>, Vec<u8>))
    requires
        0 < block_size <= 16,
        blocks@.len() == total_blocks * block_size,
        transparent_block@.len() == block_size,
        prev_info is Some ==> prev_complete(prev_info->Some_0, block_size as nat),
        prev_info is Some && total_blocks > 0 ==> block_width > 0,
    ensures
        ({
            let flags = skip_flags(blocks@, block_size as nat, block_width as int, transparent_block@, *prev_info, total_blocks as nat);
            &&& r.0@ == commands_from(flags, 0)
            &&& r.1@ == drawn(flags, blocks@, block_size as nat, total_blocks as int)
        }),
{
    let ghost flags = skip_flags(blocks@, block_size as nat, block_width as int, transparent_block@, *prev_info, total_blocks as nat);
    proof {
        lemma_mod_multiples_basic(total_blocks as int, block_size as int);
    }
    let words = pack(blocks, block_size);
    let sentinel = word_at(transparent_block, 0, block_size);
    proof {
        assert(transparent_block@.subrange(0, block_size as int) =~= transparent_block@);
    }
    let prev_words: Option<(Vec<u128>, u32, u32, i32, i32)> = match prev_info {
        None => None,
        Some(p) => {
            let _plen = p.blocks.len();
            proof {
                assert(p.width * p.height <= p.width * p.height * block_size) by (nonlinear_arith)
                    requires
                        1 <= block_size,
                ;
            }
            let cells = p.width as usize * p.height as usize;
            proof {
                lemma_mod_multiples_basic(cells as int, block_size as int);
                lemma_div_multiples_vanish(cells as int, block_size as int);
                assert(block_size * cells == cells * block_size) by (nonlinear_arith);
            }
            let mut grid: Vec<u8> = Vec::new();
            push_bytes(&mut grid, p.blocks.as_slice(), 0, cells * block_size);
            assert(grid@ =~= p.blocks@.subrange(0, p.width * p.height * block_size));
            Some((pack(grid.as_slice(), block_size), p.width, p.height, p.off_col, p.off_row))
        },
    };
    let mut commands: Vec<(u8, u8)> = Vec::new();
    let mut drawn_blocks: Vec<u8> = Vec::new();
    let mut idx: usize = 0;
    while idx < total_blocks
        invariant
            idx <= total_blocks,
            0 < block_size <= 16,
            blocks@.len() == total_blocks * block_size,
            transparent_block@.len() == block_size,
            prev_info is Some ==> prev_complete(prev_info->Some_0, block_size as nat),
            prev_info is Some && total_blocks > 0 ==> block_width > 0,
            flags == skip_flags(blocks@, block_size as nat, block_width as int, transparent_block@, *prev_info, total_blocks as nat),
            words@ == words_of(blocks@, block_size as nat),
            sentinel == le_value(transparent_block@) as u128,
            prev_as_words(prev_words, *prev_info, block_size as nat),
            prev_words is Some ==> prev_words->Some_0.1 * prev_words->Some_0.2 <= prev_words->Some_0.0@.len(),
            commands@ + commands_from(flags, idx as int) == commands_from(flags, 0),
            drawn_blocks@ == drawn(flags, blocks@, block_size as nat, idx as int),
        decreases total_blocks - idx,
    {
        let ghost i0 = idx as int;
        let mut skip: u8 = 0;
        loop
            invariant
                i0 <= idx <= total_blocks,
                idx == i0 + skip,
                0 < block_size <= 16,
                blocks@.len() == total_blocks * block_size,
                transparent_block@.len() == block_size,
                prev_info is Some ==> prev_complete(prev_info->Some_0, block_size as nat),
                prev_info is Some && total_blocks > 0 ==> block_width > 0,
                flags == skip_flags(blocks@, block_size as nat, block_width as int, transparent_block@, *prev_info, total_blocks as nat),
                words@ == words_of(blocks@, block_size as nat),
                sentinel == le_value(transparent_block@) as u128,
                prev_as_words(prev_words, *prev_info, block_size as nat),
                prev_words is Some ==> prev_words->Some_0.1 * prev_words->Some_0.2 <= prev_words->Some_0.0@.len(),
                skip + run_len(flags, idx as int, true, (255 - skip) as nat) == run_len(flags, i0, true, 255),
                drawn_blocks@ == drawn(flags, blocks@, block_size as nat, idx as int),
            ensures
                i0 <= idx <= total_blocks,
                skip == run_len(flags, i0, true, 255),
                idx == i0 + skip,
                drawn_blocks@ == drawn(flags, blocks@, block_size as nat, idx as int),
            decreases total_blocks - idx,
        {
            if idx >= total_blocks || skip == 255 {
                break;
            }
            proof {
                lemma_mul_mono(idx as int + 1, total_blocks as int, block_size as int);
            }
            proof {
                lemma_word_skip_matches(blocks@, block_size as nat, block_width as int, transparent_block@, *prev_info,
                    prev_words, idx as int);
            }
            if !block_is_skip(idx, words.as_slice(), block_width, sentinel, &prev_words) {
                break;
            }
            skip = skip + 1;
            idx = idx + 1;
        }
        let ghost j0 = idx as int;
        let mut draw: u8 = 0;
        loop
            invariant
                j0 <= idx <= total_blocks,
                idx == j0 + draw,
                0 < block_size <= 16,
                blocks@.len() == total_blocks * block_size,
                transparent_block@.len() == block_size,
                prev_info is Some ==> prev_complete(prev_info->Some_0, block_size as nat),
                prev_info is Some && total_blocks > 0 ==> block_width > 0,
                flags == skip_flags(blocks@, block_size as nat, block_width as int, transparent_block@, *prev_info, total_blocks as nat),
                words@ == words_of(blocks@, block_size as nat),
                sentinel == le_value(transparent_block@) as u128,
                prev_as_words(prev_words, *prev_info, block_size as nat),
                prev_words is Some ==> prev_words->Some_0.1 * prev_words->Some_0.2 <= prev_words->Some_0.0@.len(),
                draw + run_len(flags, idx as int, false, (255 - draw) as nat) == run_len(flags, j0, false, 255),
                drawn_blocks@ == drawn(flags, blocks@, block_size as nat, idx as int),
            ensures
                j0 <= idx <= total_blocks,
                draw == run_len(flags, j0, false, 255),
                idx == j0 + draw,
                drawn_blocks@ == drawn(flags, blocks@, block_size as nat, idx as int),
            decreases total_blocks - idx,
        {
            if idx >= total_blocks || draw == 255 {
                break;
            }
            proof {
                lemma_mul_mono(idx as int + 1, total_blocks as int, block_size as int);
                lemma_mul_step(idx as int, block_size as int);
            }
            proof {
                lemma_word_skip_matches(blocks@, block_size as nat, block_width as int, transparent_block@, *prev_info,
                    prev_words, idx as int);
            }
            if block_is_skip(idx, words.as_slice(), block_width, sentinel, &prev_words) {
                break;
            }
            let _blen = blocks.len();
            push_bytes(&mut drawn_blocks, blocks, idx * block_size, block_size);
            draw = draw + 1;
            idx = idx + 1;
        }
        proof {
            let s = run_len(flags, i0, true, 255);
            let d = run_len(flags, i0 + s, false, 255);
            lemma_run_len_bound(flags, i0, true, 255);
            lemma_run_len_bound(flags, i0 + s, false, 255);
            assert(s == skip);
            assert(d == draw);
            assert(commands_from(flags, i0) == seq![(skip, draw)] + commands_from(flags, idx as int));
        }
        if skip != 0 || draw != 0 {
            commands.push((skip, draw));
            proof {
                assert(commands@ + commands_from(flags, idx as int) =~= commands_from(flags, 0));
            }
        }
    }
    (commands, drawn_blocks)
}

/// Why a delta stream cannot be replayed.
#[derive(Clone, Copy, Debug, PartialEq, Eq, Structural)]
pub enum DeltaError {
    /// A command would take the output to `requested` bytes, past the
    /// grid's `capacity` bytes.
    TooManyBlocks { requested: u128, capacity: u64 },
    /// The commands end after `produced` bytes, short of the grid's
    /// `capacity` bytes.
    TooFewBlocks { produced: u64, capacity: u64 },
    /// A draw run asks for more bytes than the payload's `payload_len`.
    PayloadTooShort { payload_len: u64 },
    /// A skip run maps to a block past the previous frame's `prev_len` bytes.
    PreviousTooShort { prev_len: u64 },
}

/// The block that a skip at `pos` writes: the sentinel, or the previous
/// frame's block at the mapped place.
pub open spec fn skip_source(pos: int, bs: nat, gw: int, sentinel: Seq<u8>, prev: Option<PrevGrid>) -> Result<
    Seq<u8>,
    DeltaError,
> {
    match prev {
        None => Ok(sentinel),
        Some(p) => match mapped_index(pos, gw, p) {
            None => Ok(sentinel),
            Some(j) => if j * bs + bs <= p.blocks@.len() {
                Ok(block_of(p.blocks@, bs, j))
            } else {
                Err(DeltaError::PreviousTooShort { prev_len: p.blocks@.len() as u64 })
            },
        },
    }
}

/// `out` followed by the blocks of `count` skips from block `pos` on.
pub open spec fn skip_fill(
    out: Seq<u8>,
    pos: int,
    count: nat,
    bs: nat,
    gw: int,
    sentinel: Seq<u8>,
    prev: Option<PrevGrid>,
) -> Result<Seq<u8>, DeltaError>
    decreases count,
{
    if count == 0 {
        Ok(out)
    } else {
        match skip_source(pos, bs, gw, sentinel, prev) {
            Err(e) => Err(e),
            Ok(b) => skip_fill(out + b, pos + 1, (count - 1) as nat, bs, gw, sentinel, prev),
        }
    }
}

/// Replays `cmds` onto `out`, whose next block is `pos`, reading draw blocks
/// from `payload` at `off`; `cap` is the grid's size in bytes, which the
/// commands must fill exactly.
pub open spec fn replay(
    cmds: Seq<(u8, u8)>,
    payload: Seq<u8>,
    off: int,
    pos: int,
    out: Seq<u8>,
    cap: int,
    bs: nat,
    gw: int,
    sentinel: Seq<u8>,
    prev: Option<PrevGrid>,
) -> Result<Seq<u8>, DeltaError>
    decreases cmds.len(),
{
    if cmds.len() == 0 {
        if out.len() == cap {
            Ok(out)
        } else {
            Err(DeltaError::TooFewBlocks { produced: out.len() as u64, capacity: cap as u64 })
        }
    } else {
        let skip = cmds[0].0 as nat;
        let draw = cmds[0].1 as nat;
        if out.len() + (skip + draw) * bs > cap {
            Err(DeltaError::TooManyBlocks { requested: (out.len() + (skip + draw) * bs) as u128, capacity: cap as u64 })
        } else {
            match skip_fill(out, pos, skip, bs, gw, sentinel, prev) {
                Err(e) => Err(e),
                Ok(filled) => if off + draw * bs > payload.len() {
                    Err(DeltaError::PayloadTooShort { payload_len: payload.len() as u64 })
                } else {
                    replay(
                        cmds.drop_first(),
                        payload,
                        off + draw * bs,
                        pos + skip + draw,
                        filled + payload.subrange(off, off + draw * bs),
                        cap,
                        bs,
                        gw,
                        sentinel,
                        prev,
                    )
                },
            }
        }
    }
}

/// What replaying `cmds` over an empty grid of `gw` x `gh` blocks gives.
pub open spec fn decoded(
    cmds: Seq<(u8, u8)>,
    payload: Seq<u8>,
    gw: int,
    gh: int,
    bs: nat,
    sentinel: Seq<u8>,
    prev: Option<PrevGrid>,
) -> Result<Seq<u8>, DeltaError> {
    replay(cmds, payload, 0, 0, Seq::empty(), gw * gh * bs, bs, gw, sentinel, prev)
}

/// Rebuilds the blocks of a grid `grid_width` x `grid_height` blocks from
/// delta commands and the payload of draw blocks.
pub fn decode_blocks(
    commands: &[(u8, u8)],
    payload: &[u8],
    grid_width: u32,
    grid_height: u32,
    block_size: usize,
    transparent_block: &[u8],
    prev_info: &Option<PrevGrid>,
) -> (r: Result<Vec<u8>, DeltaError>)
    requires
        0 < block_size <= 16,
        transparent_block@.len() == block_size,
        grid_width * grid_height * block_size <= u64::MAX,
    ensures
        r is Ok ==> decoded(commands@, payload@, grid_width as int, grid_height as int, block_size as nat,
            transparent_block@, *prev_info) == Ok::<Seq<u8>, DeltaError>(r->Ok_0@),
        r is Err ==> decoded(commands@, payload@, grid_width as int, grid_height as int, block_size as nat,
            transparent_block@, *prev_info) == Err::<Seq<u8>, DeltaError>(r->Err_0),
{
    let ghost cap = grid_width * grid_height * block_size;
    let ghost want = decoded(commands@, payload@, grid_width as int, grid_height as int, block_size as nat,
        transparent_block@, *prev_info);
    proof {
        assert(grid_width * grid_height <= grid_width * grid_height * block_size) by (nonlinear_arith)
            requires
                1 <= block_size,
        ;
    }
    let capacity: u64 = grid_width as u64 * grid_height as u64 * block_size as u64;
    let mut out: Vec<u8> = Vec::new();
    let mut off: usize = 0;
    let mut block_idx: usize = 0;
    let mut k: usize = 0;
    let plen = payload.len();
    let ncmd = commands.len();
    proof {
        assert(commands@.subrange(0, ncmd as int) =~= commands@);
    }
    while k < ncmd
        invariant
            0 < block_size <= 16,
            transparent_block@.len() == block_size,
            capacity == cap,
            out@.len() <= cap,
            cap == grid_width * grid_height * block_size,
            want == decoded(commands@, payload@, grid_width as int, grid_height as int, block_size as nat,
                transparent_block@, *prev_info),
            plen == payload@.len(),
            ncmd == commands@.len(),
            k <= ncmd,
            off <= plen,
            out@.len() == block_idx * block_size,
            want == replay(commands@, payload@, 0, 0, Seq::empty(), cap, block_size as nat, grid_width as int,
                transparent_block@, *prev_info),
            want == replay(commands@.subrange(k as int, ncmd as int), payload@, off as int, block_idx as int, out@,
                cap, block_size as nat, grid_width as int, transparent_block@, *prev_info),
        decreases ncmd - k,
    {
        let ghost rest = commands@.subrange(k as int, ncmd as int);
        let (skip, draw) = commands[k];
        assert(rest[0] == (skip, draw));
        assert(rest.drop_first() =~= commands@.subrange(k + 1, ncmd as int));
        let start = out.len();
        assert((skip as u128 + draw as u128) * block_size as u128 <= 510 * 16) by (nonlinear_arith)
            requires
                skip <= 255,
                draw <= 255,
                block_size <= 16,
        ;
        if start as u128 + (skip as u128 + draw as u128) * block_size as u128 > capacity as u128 {
            assert(out@.len() + (skip + draw) * block_size > cap);
            let e = DeltaError::TooManyBlocks {
                requested: start as u128 + (skip as u128 + draw as u128) * block_size as u128,
                capacity,
            };
            assert(want == Err::<Seq<u8>, DeltaError>(e));
            return Err(e);
        }
        let ghost out0 = out@;
        let ghost pos0 = block_idx as int;
        proof {
            assert(out0.len() + skip * block_size + draw * block_size <= cap && (skip > 0 ==> grid_width > 0))
                by (nonlinear_arith)
                requires
                    out0.len() + (skip + draw) * block_size <= cap,
                    cap == grid_width * grid_height * block_size,
                    1 <= block_size,
                    0 <= draw,
            ;
        }
        let mut i: usize = 0;
        while i < skip as usize
            invariant
                0 < block_size <= 16,
                transparent_block@.len() == block_size,
                skip > 0 ==> grid_width > 0,
                i <= skip,
                out@.len() == (pos0 + i) * block_size,
                out@.len() + (skip - i) * block_size <= cap,
                cap <= u64::MAX,
                pos0 == block_idx,
                out0.len() + (skip + draw) * block_size <= cap,
                out0.len() + skip * block_size + draw * block_size <= cap,
                out0.len() == pos0 * block_size,
                cap == grid_width * grid_height * block_size,
                rest == commands@.subrange(k as int, ncmd as int),
                rest.len() > 0,
                rest[0] == (skip, draw),
                want == decoded(commands@, payload@, grid_width as int, grid_height as int, block_size as nat,
                    transparent_block@, *prev_info),
                want == replay(rest, payload@, off as int, pos0, out0, cap, block_size as nat, grid_width as int,
                    transparent_block@, *prev_info),
                skip_fill(out0, pos0, skip as nat, block_size as nat, grid_width as int, transparent_block@, *prev_info)
                    == skip_fill(out@, pos0 + i, (skip - i) as nat, block_size as nat, grid_width as int,
                    transparent_block@, *prev_info),
            decreases skip - i,
        {
            proof {
                lemma_mul_step(pos0 + i, block_size as int);
                lemma_mul_step((skip - i) as int, block_size as int);
                lemma_mul_mono(0, pos0 + i, block_size as int);
                lemma_mul_mono(pos0 + i, pos0 + i + 1, block_size as int);
                assert(pos0 + i <= (pos0 + i) * block_size) by (nonlinear_arith)
                    requires
                        0 <= pos0 + i,
                        1 <= block_size,
                ;
            }
            let _olen = out.len();
            let pos = block_idx + i;
            let src = match prev_info {
                None => None,
                Some(p) => match map_to_prev(pos, grid_width, p.width, p.height, p.off_col, p.off_row) {
                    None => None,
                    Some(j) => {
                        let plen_prev = p.blocks.len();
                        assert(j as u128 * block_size as u128 <= 0x1_0000_0000_0000_0000 * 16) by (nonlinear_arith)
                            requires
                                j <= u64::MAX,
                                block_size <= 16,
                        ;
                        if j as u128 * block_size as u128 + block_size as u128 > plen_prev as u128 {
                            assert(skip_source(pos as int, block_size as nat, grid_width as int, transparent_block@,
                                *prev_info) == Err::<Seq<u8>, DeltaError>(DeltaError::PreviousTooShort { prev_len: plen_prev as u64 }));
                            assert(skip_fill(out0, pos0, skip as nat, block_size as nat, grid_width as int,
                                transparent_block@, *prev_info) == Err::<Seq<u8>, DeltaError>(DeltaError::PreviousTooShort { prev_len: plen_prev as u64 }));
                            return Err(DeltaError::PreviousTooShort { prev_len: plen_prev as u64 });
                        }
                        proof {
                            lemma_mul_mono(1, block_size as int, j as int);
                        }
                        assert(j as int <= j * block_size) by (nonlinear_arith)
                            requires
                                block_size >= 1,
                                j >= 0,
                        ;
                        assert(j * block_size + block_size <= plen_prev);
                        Some((p.blocks.as_slice(), (j as usize) * block_size))
                    },
                },
            };
            match src {
                None => {
                    push_bytes(&mut out, transparent_block, 0, block_size);
                    assert(transparent_block@.subrange(0, block_size as int) =~= transparent_block@);
                },
                Some((pb, ps)) => {
                    push_bytes(&mut out, pb, ps, block_size);
                },
            }
            i = i + 1;
        }
        assert(draw as usize * block_size <= 255 * 16) by (nonlinear_arith)
            requires
                draw <= 255,
                block_size <= 16,
        ;
        let len = draw as usize * block_size;
        if off as u128 + len as u128 > plen as u128 {
            return Err(DeltaError::PayloadTooShort { payload_len: plen as u64 });
        }
        push_bytes(&mut out, payload, off, len);
        proof {
            assert((pos0 + skip) * block_size == pos0 * block_size + skip * block_size) by (nonlinear_arith);
            lemma_mul_step(block_idx + skip as int, block_size as int);
            assert((block_idx + skip + draw) * block_size == (block_idx + skip) * block_size + draw * block_size)
                by (nonlinear_arith);
            assert(block_idx + skip + draw <= (block_idx + skip + draw) * block_size) by (nonlinear_arith)
                requires
                    0 <= block_idx + skip + draw,
                    1 <= block_size,
            ;
        }
        let _olen = out.len();
        off = off + len;
        block_idx = block_idx + skip as usize + draw as usize;
        k = k + 1;
    }
    if out.len() as u64 != capacity {
        return Err(DeltaError::TooFewBlocks { produced: out.len() as u64, capacity });
    }
    Ok(out)
}

/// Every position inside a run holds the run's value.
proof fn lemma_run_values(flags: Seq<bool>, i: int, v: bool, cap: nat, j: int)
    requires
        0 <= i <= j < i + run_len(flags, i, v, cap),
    ensures
        flags[j] == v,
    decreases cap,
{
    if j > i {
        lemma_run_values(flags, i + 1, v, (cap - 1) as nat, j);
    }
}

/// One command of `commands_from(flags, i)`: its runs and where the next begins.
proof fn lemma_command_step(flags: Seq<bool>, i: int)
    requires
        0 <= i < flags.len(),
    ensures
        ({
            let s = run_len(flags, i, true, 255);
            let d = run_len(flags, i + s, false, 255);
            &&& s <= 255 && d <= 255
            &&& 0 < s + d
            &&& i + s + d <= flags.len()
            &&& commands_from(flags, i) == seq![(s as u8, d as u8)] + commands_from(flags, i + s + d)
            &&& forall|j: int| i <= j < i + s ==> flags[j]
            &&& forall|j: int| i + s <= j < i + s + d ==> !flags[j]
        }),
{
    let s = run_len(flags, i, true, 255);
    let d = run_len(flags, i + s, false, 255);
    lemma_run_len_bound(flags, i, true, 255);
    lemma_run_len_bound(flags, i + s, false, 255);
    assert forall|j: int| i <= j < i + s implies flags[j] by {
        lemma_run_values(flags, i, true, 255, j);
    }
    assert forall|j: int| i + s <= j < i + s + d implies !flags[j] by {
        lemma_run_values(flags, i + s, false, 255, j);
    }
}

proof fn lemma_covered_from(flags: Seq<bool>, i: int)
    requires
        0 <= i <= flags.len(),
    ensures
        covered(commands_from(flags, i)) == flags.len() - i,
    decreases flags.len() - i,
{
    if i < flags.len() {
        lemma_command_step(flags, i);
        let s = run_len(flags, i, true, 255);
        let d = run_len(flags, i + s, false, 255);
        let c = commands_from(flags, i);
        assert(c.drop_first() =~= commands_from(flags, i + s + d));
        lemma_covered_from(flags, i + s + d);
    }
}

/// The commands of an encoding cover every block exactly once:
/// their skips and draws add up to the number of blocks.
pub proof fn lemma_encode_covers(
    blocks: Seq<u8>,
    bs: nat,
    gw: int,
    sentinel: Seq<u8>,
    prev: Option<PrevGrid>,
    n: nat,
)
    ensures
        covered(commands_from(skip_flags(blocks, bs, gw, sentinel, prev, n), 0)) == n,
{
    lemma_covered_from(skip_flags(blocks, bs, gw, sentinel, prev, n), 0);
}

proof fn lemma_all_true_run(flags: Seq<bool>, i: int, cap: nat)
    requires
        0 <= i <= flags.len(),
        forall|j: int| 0 <= j < flags.len() ==> flags[j],
        flags.len() - i <= cap,
    ensures
        run_len(flags, i, true, cap) == flags.len() - i,
    decreases cap,
{
    if i < flags.len() {
        lemma_all_true_run(flags, i + 1, (cap - 1) as nat);
    }
}

proof fn lemma_drawn_all_skip(flags: Seq<bool>, blocks: Seq<u8>, bs: nat, n: int)
    requires
        0 <= n <= flags.len(),
        forall|j: int| 0 <= j < flags.len() ==> flags[j],
    ensures
        drawn(flags, blocks, bs, n) == Seq::<u8>::empty(),
    decreases n,
{
    if n > 0 {
        lemma_drawn_all_skip(flags, blocks, bs, n - 1);
    }
}

/// With no previous frame, `n` blocks (1 to 255) that all equal the
/// sentinel encode as the single command (`n`, 0) and an empty payload.
pub proof fn lemma_sentinel_fill(blocks: Seq<u8>, bs: nat, gw: int, sentinel: Seq<u8>, n: nat)
    requires
        0 < n <= 255,
        forall|i: int| 0 <= i < n ==> #[trigger] block_of(blocks, bs, i) == sentinel,
    ensures
        commands_from(skip_flags(blocks, bs, gw, sentinel, None, n), 0) == seq![(n as u8, 0u8)],
        drawn(skip_flags(blocks, bs, gw, sentinel, None, n), blocks, bs, n as int) == Seq::<u8>::empty(),
{
    let flags = skip_flags(blocks, bs, gw, sentinel, None, n);
    assert forall|j: int| 0 <= j < flags.len() implies flags[j] by {
        assert(block_of(blocks, bs, j) == sentinel);
    }
    lemma_all_true_run(flags, 0, 255);
    assert(run_len(flags, n as int, false, 255) == 0);
    assert(commands_from(flags, n as int) == Seq::<(u8, u8)>::empty());
    assert(commands_from(flags, 0) =~= seq![(n as u8, 0u8)]);
    lemma_drawn_all_skip(flags, blocks, bs, n as int);
}

/// `drawn` up to `m` is a prefix of `drawn` up to `n`.
proof fn lemma_drawn_prefix(flags: Seq<bool>, blocks: Seq<u8>, bs: nat, m: int, n: int)
    requires
        0 <= m <= n <= flags.len(),
    ensures
        drawn(flags, blocks, bs, m).len() <= drawn(flags, blocks, bs, n).len(),
        drawn(flags, blocks, bs, n).subrange(0, drawn(flags, blocks, bs, m).len() as int)
            == drawn(flags, blocks, bs, m),
    decreases n - m,
{
    if m < n {
        lemma_drawn_prefix(flags, blocks, bs, m, n - 1);
        let a = drawn(flags, blocks, bs, m);
        let b = drawn(flags, blocks, bs, n - 1);
        let c = drawn(flags, blocks, bs, n);
        assert(c.subrange(0, b.len() as int) =~= b);
        assert(c.subrange(0, a.len() as int) =~= b.subrange(0, a.len() as int));
    } else {
        assert(drawn(flags, blocks, bs, n).subrange(0, drawn(flags, blocks, bs, n).len() as int)
            =~= drawn(flags, blocks, bs, n));
    }
}

/// Over a run of skips `drawn` does not grow.
proof fn lemma_drawn_skips(flags: Seq<bool>, blocks: Seq<u8>, bs: nat, i: int, s: int)
    requires
        0 <= i,
        0 <= s,
        i + s <= flags.len(),
        forall|j: int| i <= j < i + s ==> flags[j],
    ensures
        drawn(flags, blocks, bs, i + s) == drawn(flags, blocks, bs, i),
    decreases s,
{
    if s > 0 {
        lemma_drawn_skips(flags, blocks, bs, i, s - 1);
    }
}

/// Over a run of draws `drawn` grows by exactly those blocks.
proof fn lemma_drawn_draws(flags: Seq<bool>, blocks: Seq<u8>, bs: nat, i: int, d: int)
    requires
        0 <= i,
        0 <= d,
        i + d <= flags.len(),
        (i + d) * bs <= blocks.len(),
        forall|j: int| i <= j < i + d ==> !flags[j],
    ensures
        drawn(flags, blocks, bs, i + d) == drawn(flags, blocks, bs, i) + blocks.subrange(i * bs, (i + d) * bs),
    decreases d,
{
    lemma_mul_mono(0, i, bs as int);
    lemma_mul_mono(i, i + d, bs as int);
    if d > 0 {
        lemma_mul_mono(i + d - 1, i + d, bs as int);
        lemma_drawn_draws(flags, blocks, bs, i, d - 1);
        lemma_mul_step(i + d - 1, bs as int);
        lemma_mul_mono(i, i + d - 1, bs as int);
        assert(blocks.subrange(i * bs, (i + d - 1) * bs) + block_of(blocks, bs, i + d - 1)
            =~= blocks.subrange(i * bs, (i + d) * bs));
    } else {
        assert(blocks.subrange(i * bs, i * bs) =~= Seq::<u8>::empty());
        assert(drawn(flags, blocks, bs, i) + Seq::<u8>::empty() =~= drawn(flags, blocks, bs, i));
    }
}

/// A skip run of the encoder is rebuilt by the decoder's skip fill.
proof fn lemma_skips_rebuilt(
    blocks: Seq<u8>,
    bs: nat,
    gw: int,
    sentinel: Seq<u8>,
    prev: Option<PrevGrid>,
    n: nat,
    i: int,
    s: nat,
)
    requires
        0 <= i,
        i + s <= n,
        blocks.len() == n * bs,
        prev is Some ==> prev_complete(prev->Some_0, bs),
        forall|j: int| i <= j < i + s ==> #[trigger] skip_flags(blocks, bs, gw, sentinel, prev, n)[j],
    ensures
        skip_fill(first_blocks(blocks, bs, i), i, s, bs, gw, sentinel, prev) == Ok::<Seq<u8>, DeltaError>(
            first_blocks(blocks, bs, i + s),
        ),
    decreases s,
{
    if s > 0 {
        let flags = skip_flags(blocks, bs, gw, sentinel, prev, n);
        assert(flags[i]);
        assert(is_skip_spec(blocks, bs, gw, sentinel, prev, i));
        lemma_mul_mono(i + 1, n as int, bs as int);
        lemma_first_blocks_step(blocks, bs, i);
        match prev {
            None => {},
            Some(p) => match mapped_index(i, gw, p) {
                None => {},
                Some(j) => {
                    lemma_prev_block_in_range(p, bs, gw, i, j);
                },
            },
        }
        assert(skip_source(i, bs, gw, sentinel, prev) == Ok::<Seq<u8>, DeltaError>(block_of(blocks, bs, i)));
        assert forall|j: int| i + 1 <= j < i + 1 + (s - 1) implies #[trigger] skip_flags(blocks, bs, gw, sentinel, prev, n)[j] by {
            assert(i <= j < i + s);
        }
        lemma_skips_rebuilt(blocks, bs, gw, sentinel, prev, n, i + 1, (s - 1) as nat);
    }
}

proof fn lemma_replay_from(
    blocks: Seq<u8>,
    bs: nat,
    gw: int,
    gh: int,
    sentinel: Seq<u8>,
    prev: Option<PrevGrid>,
    i: int,
)
    requires
        0 < bs,
        0 < gw,
        0 <= gh,
        0 <= i <= gw * gh,
        blocks.len() == gw * gh * bs,
        prev is Some ==> prev_complete(prev->Some_0, bs),
    ensures
        ({
            let n = (gw * gh) as nat;
            let flags = skip_flags(blocks, bs, gw, sentinel, prev, n);
            let payload = drawn(flags, blocks, bs, n as int);
            replay(commands_from(flags, i), payload, drawn(flags, blocks, bs, i).len() as int, i,
                first_blocks(blocks, bs, i), gw * gh * bs, bs, gw, sentinel, prev)
                == Ok::<Seq<u8>, DeltaError>(blocks)
        }),
    decreases gw * gh - i,
{
    let n = (gw * gh) as nat;
    let flags = skip_flags(blocks, bs, gw, sentinel, prev, n);
    let payload = drawn(flags, blocks, bs, n as int);
    let cap = gw * gh * bs;
    assert(n * bs == cap) by (nonlinear_arith)
        requires
            n == gw * gh,
            cap == gw * gh * bs,
    ;
    lemma_mul_mono(i, n as int, bs as int);
    if i == n {
        assert(first_blocks(blocks, bs, i) =~= blocks);
    } else {
        lemma_command_step(flags, i);
        let s = run_len(flags, i, true, 255);
        let d = run_len(flags, i + s, false, 255);
        let cmds = commands_from(flags, i);
        assert(cmds[0] == (s as u8, d as u8));
        assert(cmds.drop_first() =~= commands_from(flags, i + s + d));
        let out = first_blocks(blocks, bs, i);
        let off = drawn(flags, blocks, bs, i).len() as int;
        lemma_mul_mono(i + s, n as int, bs as int);
        lemma_mul_mono(i + s + d, n as int, bs as int);
        assert((i + s) * bs == i * bs + s * bs) by (nonlinear_arith);
        assert((i + s + d) * bs == (i + s) * bs + d * bs) by (nonlinear_arith);
        assert(out.len() == i * bs);
        assert((i + s + d) * bs == i * bs + (s + d) * bs) by (nonlinear_arith);
        assert(out.len() + (s + d) * bs <= cap);
        assert forall|j: int| i <= j < i + s implies #[trigger] skip_flags(blocks, bs, gw, sentinel, prev, n)[j] by {}
        lemma_skips_rebuilt(blocks, bs, gw, sentinel, prev, n, i, s);
        lemma_drawn_skips(flags, blocks, bs, i, s as int);
        lemma_drawn_draws(flags, blocks, bs, i + s, d as int);
        lemma_drawn_prefix(flags, blocks, bs, i + s + d, n as int);
        let dn = drawn(flags, blocks, bs, i + s + d);
        assert(dn.len() == off + d * bs);
        assert(payload.subrange(off, off + d * bs) =~= dn.subrange(off, off + d * bs));
        assert(dn.subrange(off, off + d * bs) =~= blocks.subrange((i + s) * bs, (i + s + d) * bs));
        assert(first_blocks(blocks, bs, i + s) + blocks.subrange((i + s) * bs, (i + s + d) * bs)
            =~= first_blocks(blocks, bs, i + s + d));
        lemma_replay_from(blocks, bs, gw, gh, sentinel, prev, i + s + d);
    }
}

/// With a previous frame at zero offset, a block equal to the previous
/// frame's block at the same grid place is a skip, and the decoder rebuilds
/// it as a copy of that previous block, not the sentinel.
pub proof fn lemma_reference_copy(blocks: Seq<u8>, bs: nat, gw: int, sentinel: Seq<u8>, p: PrevGrid, i: int)
    requires
        0 <= i,
        0 < gw,
        p.off_col == 0,
        p.off_row == 0,
        prev_complete(p, bs),
        i / gw < p.height,
        i % gw < p.width,
        block_of(blocks, bs, i) == block_of(p.blocks@, bs, (i / gw) * p.width + i % gw),
    ensures
        is_skip_spec(blocks, bs, gw, sentinel, Some(p), i),
        skip_source(i, bs, gw, sentinel, Some(p)) == Ok::<Seq<u8>, DeltaError>(
            block_of(p.blocks@, bs, (i / gw) * p.width + i % gw),
        ),
{
    let j = (i / gw) * p.width + i % gw;
    assert(mapped_index(i, gw, p) == Some(j));
    lemma_prev_block_in_range(p, bs, gw, i, j);
}

/// A block whose place falls outside the previous grid is a skip exactly
/// when it equals the sentinel, and the decoder then writes the sentinel.
pub proof fn lemma_outside_overlap(blocks: Seq<u8>, bs: nat, gw: int, sentinel: Seq<u8>, p: PrevGrid, i: int)
    requires
        mapped_index(i, gw, p) is None,
    ensures
        is_skip_spec(blocks, bs, gw, sentinel, Some(p), i) == (block_of(blocks, bs, i) == sentinel),
        skip_source(i, bs, gw, sentinel, Some(p)) == Ok::<Seq<u8>, DeltaError>(sentinel),
{
}

proof fn lemma_full_run(flags: Seq<bool>, i: int, v: bool, cap: nat)
    requires
        0 <= i,
        i + cap <= flags.len(),
        forall|j: int| i <= j < i + cap ==> flags[j] == v,
    ensures
        run_len(flags, i, v, cap) == cap,
    decreases cap,
{
    if cap > 0 {
        lemma_full_run(flags, i + 1, v, (cap - 1) as nat);
    }
}

/// No command counts more than 255 blocks of a kind: a run of more than 255
/// skips from a command's start yields the command (255, 0), and the next
/// command starts 255 blocks on.
pub proof fn lemma_long_skip_run_split(flags: Seq<bool>, i: int)
    requires
        0 <= i,
        i + 256 <= flags.len(),
        forall|j: int| i <= j < i + 256 ==> #[trigger] flags[j],
    ensures
        commands_from(flags, i) == seq![(255u8, 0u8)] + commands_from(flags, i + 255),
{
    lemma_full_run(flags, i, true, 255);
    assert(flags[i + 255]);
    lemma_command_step(flags, i);
}

/// A run of more than 255 draws from a command's start with no skip before
/// it yields the command (0, 255), and the next command starts 255 blocks on.
pub proof fn lemma_long_draw_run_split(flags: Seq<bool>, i: int)
    requires
        0 <= i,
        i + 256 <= flags.len(),
        forall|j: int| i <= j < i + 256 ==> !#[trigger] flags[j],
    ensures
        commands_from(flags, i) == seq![(0u8, 255u8)] + commands_from(flags, i + 255),
{
    assert(!flags[i]);
    lemma_full_run(flags, i, false, 255);
    lemma_command_step(flags, i);
}

/// Where the command after the one that starts at `i` starts.
pub open spec fn next_start(flags: Seq<bool>, i: int) -> int {
    let s = run_len(flags, i, true, 255);
    i + s + run_len(flags, i + s, false, 255)
}

/// Where the `k`-th command of `commands_from(flags, i)` starts.
pub open spec fn command_start(flags: Seq<bool>, i: int, k: nat) -> int
    decreases k,
{
    if k == 0 {
        i
    } else {
        command_start(flags, next_start(flags, i), (k - 1) as nat)
    }
}

/// A run ends early only where the value changes or the flags end.
proof fn lemma_run_end(flags: Seq<bool>, i: int, v: bool, cap: nat)
    requires
        0 <= i,
        run_len(flags, i, v, cap) < cap,
        i + run_len(flags, i, v, cap) < flags.len(),
    ensures
        flags[i + run_len(flags, i, v, cap)] != v,
    decreases cap,
{
    if cap > 0 && i < flags.len() && flags[i] == v {
        lemma_run_end(flags, i + 1, v, (cap - 1) as nat);
    }
}

proof fn lemma_command_at(flags: Seq<bool>, i: int, k: nat)
    requires
        0 <= i <= flags.len(),
        k < commands_from(flags, i).len(),
    ensures
        ({
            let st = command_start(flags, i, k);
            let s = commands_from(flags, i)[k as int].0 as int;
            let d = commands_from(flags, i)[k as int].1 as int;
            &&& 0 <= st && 0 < s + d && st + s + d <= flags.len()
            &&& forall|j: int| st <= j < st + s ==> flags[j]
            &&& forall|j: int| st + s <= j < st + s + d ==> !flags[j]
            &&& s < 255 && st + s < flags.len() ==> !flags[st + s]
            &&& d < 255 && st + s + d < flags.len() ==> flags[st + s + d]
        }),
    decreases k,
{
    lemma_command_step(flags, i);
    let s = run_len(flags, i, true, 255);
    let d = run_len(flags, i + s, false, 255);
    if k == 0 {
        if s < 255 && i + s < flags.len() {
            lemma_run_end(flags, i, true, 255);
        }
        if d < 255 && i + s + d < flags.len() {
            lemma_run_end(flags, i + s, false, 255);
        }
    } else {
        assert(commands_from(flags, i)[k as int] == commands_from(flags, i + s + d)[k - 1]);
        lemma_command_at(flags, i + s + d, (k - 1) as nat);
    }
}

/// Runs are split only at the cap: the `k`-th command of an encoding
/// covers a run of skips and then a run of draws, at least one block, each
/// at most 255 (its type), and a run stops short of 255 only where the
/// classification changes or the blocks end.
pub proof fn lemma_runs_split_only_at_cap(
    blocks: Seq<u8>,
    bs: nat,
    gw: int,
    sentinel: Seq<u8>,
    prev: Option<PrevGrid>,
    n: nat,
    k: nat,
)
    requires
        k < commands_from(skip_flags(blocks, bs, gw, sentinel, prev, n), 0).len(),
    ensures
        ({
            let flags = skip_flags(blocks, bs, gw, sentinel, prev, n);
            let st = command_start(flags, 0, k);
            let s = commands_from(flags, 0)[k as int].0 as int;
            let d = commands_from(flags, 0)[k as int].1 as int;
            &&& 0 <= st && 0 < s + d && st + s + d <= n
            &&& forall|j: int| st <= j < st + s ==> flags[j]
            &&& forall|j: int| st + s <= j < st + s + d ==> !flags[j]
            &&& s < 255 && st + s < n ==> !flags[st + s]
            &&& d < 255 && st + s + d < n ==> flags[st + s + d]
        }),
{
    lemma_command_at(skip_flags(blocks, bs, gw, sentinel, prev, n), 0, k);
}

/// Decoding an encoding gives back the blocks: for a grid of `gw` x `gh`
/// blocks and any previous frame that holds all its declared blocks, the
/// commands and payload that the encoder states replay to `blocks` exactly.
pub proof fn lemma_round_trip(
    blocks: Seq<u8>,
    bs: nat,
    gw: int,
    gh: int,
    sentinel: Seq<u8>,
    prev: Option<PrevGrid>,
)
    requires
        0 < bs,
        0 < gw,
        0 <= gh,
        blocks.len() == gw * gh * bs,
        prev is Some ==> prev_complete(prev->Some_0, bs),
    ensures
        ({
            let flags = skip_flags(blocks, bs, gw, sentinel, prev, (gw * gh) as nat);
            decoded(commands_from(flags, 0), drawn(flags, blocks, bs, gw * gh), gw, gh, bs, sentinel, prev)
                == Ok::<Seq<u8>, DeltaError>(blocks)
        }),
{
    assert(0 <= gw * gh) by (nonlinear_arith)
        requires
            0 < gw,
            0 <= gh,
    ;
    lemma_replay_from(blocks, bs, gw, gh, sentinel, prev, 0);
    assert(first_blocks(blocks, bs, 0) =~= Seq::<u8>::empty());
}


/// With a previous frame at zero offset, a block equal to the previous
/// frame's block at its grid place is encoded as a skip (no payload), and
/// decoding the encoding yields, at that place, a byte-identical copy of
/// the previous frame's block.
pub proof fn lemma_reference_copy_decoded(
    blocks: Seq<u8>,
    bs: nat,
    gw: int,
    gh: int,
    sentinel: Seq<u8>,
    p: PrevGrid,
    i: int,
)
    requires
        0 < bs,
        0 < gw,
        0 <= gh,
        blocks.len() == gw * gh * bs,
        prev_complete(p, bs),
        p.off_col == 0,
        p.off_row == 0,
        0 <= i < gw * gh,
        i / gw < p.height,
        i % gw < p.width,
        block_of(blocks, bs, i) == block_of(p.blocks@, bs, (i / gw) * p.width + i % gw),
    ensures
        ({
            let flags = skip_flags(blocks, bs, gw, sentinel, Some(p), (gw * gh) as nat);
            let r = decoded(commands_from(flags, 0), drawn(flags, blocks, bs, gw * gh), gw, gh, bs, sentinel, Some(p));
            &&& flags[i]
            &&& r is Ok
            &&& block_of(r->Ok_0, bs, i) == block_of(p.blocks@, bs, (i / gw) * p.width + i % gw)
        }),
{
    lemma_reference_copy(blocks, bs, gw, sentinel, p, i);
    lemma_round_trip(blocks, bs, gw, gh, sentinel, Some(p));
}

} // verus!
