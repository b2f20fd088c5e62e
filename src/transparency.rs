use vstd::prelude::*;
use crate::color::{pack565, unpack565, distance, rgb888_to_rgb565, rgb565_to_rgb888, color_distance};

verus! {

/// Alpha below this makes a pixel transparent.
pub const ALPHA_THRESHOLD: u8 = 128;

/// Channel `c` of pixel (`x`, `y`) of an RGBA image `w` pixels wide.
pub open spec fn pixel_at(img: Seq<u8>, w: int, x: int, y: int, c: int) -> int {
    img[(y * w + x) * 4 + c] as int
}

/// Whether position `p` (raster order) of block (`bx`, `by`) lies in the image.
pub open spec fn in_image(w: int, h: int, bx: int, by: int, p: int) -> bool {
    bx * 4 + p % 4 < w && by * 4 + p / 4 < h
}

/// Channel `c` of the pixel at position `p` of block (`bx`, `by`).
pub open spec fn block_pixel(img: Seq<u8>, w: int, bx: int, by: int, p: int, c: int) -> int {
    pixel_at(img, w, bx * 4 + p % 4, by * 4 + p / 4, c)
}

/// An in-image pixel with alpha below the threshold.
pub open spec fn is_clear(img: Seq<u8>, w: int, h: int, bx: int, by: int, p: int) -> bool {
    in_image(w, h, bx, by, p) && block_pixel(img, w, bx, by, p, 3) < 128
}

/// An in-image pixel with alpha at or above the threshold.
pub open spec fn is_solid(img: Seq<u8>, w: int, h: int, bx: int, by: int, p: int) -> bool {
    in_image(w, h, bx, by, p) && block_pixel(img, w, bx, by, p, 3) >= 128
}

pub open spec fn any_clear(img: Seq<u8>, w: int, h: int, bx: int, by: int) -> bool {
    exists|p: int| 0 <= p < 16 && #[trigger] is_clear(img, w, h, bx, by, p)
}

pub open spec fn any_solid(img: Seq<u8>, w: int, h: int, bx: int, by: int) -> bool {
    exists|p: int| 0 <= p < 16 && #[trigger] is_solid(img, w, h, bx, by, p)
}

/// Least value of channel `c` over the solid pixels among the first `n`
/// positions of the block (255 where there are none).
pub open spec fn channel_min(img: Seq<u8>, w: int, h: int, bx: int, by: int, c: int, n: int) -> int
    decreases n,
{
    if n <= 0 {
        255
    } else {
        let m = channel_min(img, w, h, bx, by, c, n - 1);
        let v = block_pixel(img, w, bx, by, n - 1, c);
        if is_solid(img, w, h, bx, by, n - 1) && v < m {
            v
        } else {
            m
        }
    }
}

/// Greatest value of channel `c` over the solid pixels among the first `n`
/// positions of the block (0 where there are none).
pub open spec fn channel_max(img: Seq<u8>, w: int, h: int, bx: int, by: int, c: int, n: int) -> int
    decreases n,
{
    if n <= 0 {
        0
    } else {
        let m = channel_max(img, w, h, bx, by, c, n - 1);
        let v = block_pixel(img, w, bx, by, n - 1, c);
        if is_solid(img, w, h, bx, by, n - 1) && v > m {
            v
        } else {
            m
        }
    }
}

/// The packed per-channel minimum of the block's solid pixels.
pub open spec fn low_packed(img: Seq<u8>, w: int, h: int, bx: int, by: int) -> int {
    pack565(
        channel_min(img, w, h, bx, by, 0, 16),
        channel_min(img, w, h, bx, by, 1, 16),
        channel_min(img, w, h, bx, by, 2, 16),
    )
}

/// The packed per-channel maximum of the block's solid pixels.
pub open spec fn high_packed(img: Seq<u8>, w: int, h: int, bx: int, by: int) -> int {
    pack565(
        channel_max(img, w, h, bx, by, 0, 16),
        channel_max(img, w, h, bx, by, 1, 16),
        channel_max(img, w, h, bx, by, 2, 16),
    )
}

/// The first endpoint: the smaller of the two packed colours.
pub open spec fn endpoint0(img: Seq<u8>, w: int, h: int, bx: int, by: int) -> int {
    let a = low_packed(img, w, h, bx, by);
    let b = high_packed(img, w, h, bx, by);
    if a > b { b } else { a }
}

/// The second endpoint: the larger of the two packed colours.
pub open spec fn endpoint1(img: Seq<u8>, w: int, h: int, bx: int, by: int) -> int {
    let a = low_packed(img, w, h, bx, by);
    let b = high_packed(img, w, h, bx, by);
    if a > b { a } else { b }
}

/// The three-colour palette: both endpoints widened, and their midpoint.
pub open spec fn palette(c0: int, c1: int) -> Seq<Seq<int>> {
    let e0 = unpack565(c0);
    let e1 = unpack565(c1);
    seq![e0, e1, seq![(e0[0] + e1[0]) / 2, (e0[1] + e1[1]) / 2, (e0[2] + e1[2]) / 2]]
}

/// Index of the palette entry nearest `rgb`, ties to the lower index.
pub open spec fn nearest(rgb: Seq<int>, pal: Seq<Seq<int>>) -> int {
    let d0 = distance(rgb, pal[0]);
    let d1 = distance(rgb, pal[1]);
    let d2 = distance(rgb, pal[2]);
    if d0 <= d1 && d0 <= d2 {
        0
    } else if d1 <= d2 {
        1
    } else {
        2
    }
}

/// The 2-bit index of position `p`: 3 (transparent) unless the pixel is solid.
pub open spec fn pixel_index(img: Seq<u8>, w: int, h: int, bx: int, by: int, p: int) -> int {
    if is_solid(img, w, h, bx, by, p) {
        nearest(
            seq![block_pixel(img, w, bx, by, p, 0), block_pixel(img, w, bx, by, p, 1), block_pixel(img, w, bx, by, p, 2)],
            palette(endpoint0(img, w, h, bx, by), endpoint1(img, w, h, bx, by)),
        )
    } else {
        3
    }
}

pub open spec fn pow4(n: nat) -> int
    decreases n,
{
    if n == 0 { 1 } else { 4 * pow4((n - 1) as nat) }
}

/// The indices of the first `n` positions, two bits each, position 0 lowest.
pub open spec fn index_word(img: Seq<u8>, w: int, h: int, bx: int, by: int, n: int) -> int
    decreases n,
{
    if n <= 0 {
        0
    } else {
        index_word(img, w, h, bx, by, n - 1) + pixel_index(img, w, h, bx, by, n - 1) * pow4((n - 1) as nat)
    }
}

/// The eight bytes of a block re-encoded in three-colour-plus-transparent mode.
pub open spec fn mixed_block(img: Seq<u8>, w: int, h: int, bx: int, by: int) -> Seq<u8> {
    let c0 = endpoint0(img, w, h, bx, by);
    let c1 = endpoint1(img, w, h, bx, by);
    let iw = index_word(img, w, h, bx, by, 16);
    seq![
        (c0 % 256) as u8,
        (c0 / 256) as u8,
        (c1 % 256) as u8,
        (c1 / 256) as u8,
        (iw % 256) as u8,
        ((iw / 256) % 256) as u8,
        ((iw / 65536) % 256) as u8,
        (iw / 16777216) as u8,
    ]
}

/// The transparent BC1 block.
pub open spec fn clear_block() -> Seq<u8> {
    seq![0u8, 0, 0, 0, 0xFF, 0xFF, 0xFF, 0xFF]
}

/// Block `b` of a BC1 buffer for an image `w` x `h` after the repair:
/// unchanged without transparent pixels, the transparent block without
/// solid ones, re-encoded otherwise.
pub open spec fn fixed_block(data: Seq<u8>, img: Seq<u8>, w: int, h: int, b: int) -> Seq<u8> {
    let bw = (w + 3) / 4;
    let bx = b % bw;
    let by = b / bw;
    if !any_clear(img, w, h, bx, by) {
        data.subrange(b * 8, b * 8 + 8)
    } else if !any_solid(img, w, h, bx, by) {
        clear_block()
    } else {
        mixed_block(img, w, h, bx, by)
    }
}

/// A BC1 buffer after the repair of every block.
pub open spec fn fixed_data(data: Seq<u8>, img: Seq<u8>, w: int, h: int) -> Seq<u8> {
    Seq::new(data.len(), |i: int| fixed_block(data, img, w, h, i / 8)[i % 8])
}

/// Channel `c` of pixel (`x`, `y`), at 32-bit coordinates.
pub fn pixel_channel(image: &[u8], width: u32, height: u32, x: u32, y: u32, c: usize) -> (r: u8)
    requires
        image@.len() == width * height * 4,
        x < width,
        y < height,
        c < 4,
    ensures
        r == pixel_at(image@, width as int, x as int, y as int, c as int),
{
    channel(image, width, height, x as u64, y as u64, c)
}

/// Channel `c` of pixel (`x`, `y`).
fn channel(image: &[u8], width: u32, height: u32, x: u64, y: u64, c: usize) -> (r: u8)
    requires
        image@.len() == width * height * 4,
        x < width,
        y < height,
        c < 4,
    ensures
        r == pixel_at(image@, width as int, x as int, y as int, c as int),
{
    let _len = image.len();
    assert((y * width + x) * 4 + c < width * height * 4) by (nonlinear_arith)
        requires
            x < width,
            y < height,
            c < 4,
    ;
    assert(0 <= y * width) by (nonlinear_arith)
        requires
            0 <= y,
            0 <= width,
    ;
    image[((y * width as u64 + x) * 4) as usize + c]
}

/// Whether position `p` of block (`bx`, `by`) is in the image, and its alpha.
fn block_alpha(image: &[u8], width: u32, height: u32, bx: u32, by: u32, p: u64) -> (r: Option<u8>)
    requires
        image@.len() == width * height * 4,
        p < 16,
    ensures
        r is Some == in_image(width as int, height as int, bx as int, by as int, p as int),
        r is Some ==> r->Some_0 == block_pixel(image@, width as int, bx as int, by as int, p as int, 3),
{
    let x = bx as u64 * 4 + p % 4;
    let y = by as u64 * 4 + p / 4;
    if x < width as u64 && y < height as u64 {
        Some(channel(image, width, height, x, y, 3))
    } else {
        None
    }
}

/// Re-encodes block (`block_x`, `block_y`) in three-colour-plus-transparent
/// mode: endpoints from the per-channel bounds of its solid pixels, in
/// ascending packed order, and for each pixel the nearest palette entry, or
/// the transparent index.
fn encode_bc1_block_with_alpha(image: &[u8], block_x: u32, block_y: u32, width: u32, height: u32) -> (r: Vec<u8>)
    requires
        image@.len() == width * height * 4,
    ensures
        r@ == mixed_block(image@, width as int, height as int, block_x as int, block_y as int),
{
    let ghost img = image@;
    let ghost (w, h, bx, by) = (width as int, height as int, block_x as int, block_y as int);
    let mut lo: [u8; 3] = [255, 255, 255];
    let mut hi: [u8; 3] = [0, 0, 0];
    let mut p: u64 = 0;
    while p < 16
        invariant
            image@.len() == width * height * 4,
            img == image@,
            w == width,
            h == height,
            bx == block_x,
            by == block_y,
            p <= 16,
            forall|c: int| 0 <= c < 3 ==> #[trigger] lo@[c] == channel_min(img, w, h, bx, by, c, p as int),
            forall|c: int| 0 <= c < 3 ==> #[trigger] hi@[c] == channel_max(img, w, h, bx, by, c, p as int),
        decreases 16 - p,
    {
        let alpha = block_alpha(image, width, height, block_x, block_y, p);
        if let Some(a) = alpha {
            if a >= ALPHA_THRESHOLD {
                let x = block_x as u64 * 4 + p % 4;
                let y = block_y as u64 * 4 + p / 4;
                let mut c: usize = 0;
                while c < 3
                    invariant
                        image@.len() == width * height * 4,
                        img == image@,
                        w == width,
                        h == height,
                        bx == block_x,
                        by == block_y,
                        p < 16,
                        x == bx * 4 + p % 4,
                        y == by * 4 + p / 4,
                        x < width,
                        y < height,
                        is_solid(img, w, h, bx, by, p as int),
                        c <= 3,
                        forall|k: int| 0 <= k < c ==> #[trigger] lo@[k] == channel_min(img, w, h, bx, by, k, p + 1),
                        forall|k: int| 0 <= k < c ==> #[trigger] hi@[k] == channel_max(img, w, h, bx, by, k, p + 1),
                        forall|k: int| c <= k < 3 ==> #[trigger] lo@[k] == channel_min(img, w, h, bx, by, k, p as int),
                        forall|k: int| c <= k < 3 ==> #[trigger] hi@[k] == channel_max(img, w, h, bx, by, k, p as int),
                    decreases 3 - c,
                {
                    let v = channel(image, width, height, x, y, c);
                    if v < lo[c] {
                        lo[c] = v;
                    }
                    if v > hi[c] {
                        hi[c] = v;
                    }
                    c = c + 1;
                }
            }
        }
        p = p + 1;
    }
    let a565 = rgb888_to_rgb565(lo);
    let b565 = rgb888_to_rgb565(hi);
    let (c0, c1) = if a565 > b565 {
        (b565, a565)
    } else {
        (a565, b565)
    };
    let ghost pal = palette(c0 as int, c1 as int);
    let e0 = rgb565_to_rgb888(c0);
    let e1 = rgb565_to_rgb888(c1);
    let mid: [u8; 3] = [
        ((e0[0] as u16 + e1[0] as u16) / 2) as u8,
        ((e0[1] as u16 + e1[1] as u16) / 2) as u8,
        ((e0[2] as u16 + e1[2] as u16) / 2) as u8,
    ];
    let mut indices: u64 = 0;
    let mut scale: u64 = 1;
    let mut p: u64 = 0;
    while p < 16
        invariant
            image@.len() == width * height * 4,
            img == image@,
            w == width,
            h == height,
            bx == block_x,
            by == block_y,
            p <= 16,
            c0 == endpoint0(img, w, h, bx, by),
            c1 == endpoint1(img, w, h, bx, by),
            pal == palette(c0 as int, c1 as int),
            e0@[0] == pal[0][0] && e0@[1] == pal[0][1] && e0@[2] == pal[0][2],
            e1@[0] == pal[1][0] && e1@[1] == pal[1][1] && e1@[2] == pal[1][2],
            mid@[0] == pal[2][0] && mid@[1] == pal[2][1] && mid@[2] == pal[2][2],
            scale == pow4(p as nat),
            indices == index_word(img, w, h, bx, by, p as int),
            0 <= indices < scale,
        decreases 16 - p,
    {
        let alpha = block_alpha(image, width, height, block_x, block_y, p);
        let index: u64 = match alpha {
            Some(a) if a >= ALPHA_THRESHOLD => {
                let x = block_x as u64 * 4 + p % 4;
                let y = block_y as u64 * 4 + p / 4;
                let rgb: [u8; 3] = [
                    channel(image, width, height, x, y, 0),
                    channel(image, width, height, x, y, 1),
                    channel(image, width, height, x, y, 2),
                ];
                let d0 = color_distance(rgb, e0);
                let d1 = color_distance(rgb, e1);
                let d2 = color_distance(rgb, mid);
                proof {
                    let px = seq![rgb@[0] as int, rgb@[1] as int, rgb@[2] as int];
                    assert(pal[0] =~= seq![e0@[0] as int, e0@[1] as int, e0@[2] as int]);
                    assert(pal[1] =~= seq![e1@[0] as int, e1@[1] as int, e1@[2] as int]);
                    assert(pal[2] =~= seq![mid@[0] as int, mid@[1] as int, mid@[2] as int]);
                    assert(px =~= seq![block_pixel(img, w, bx, by, p as int, 0), block_pixel(img, w, bx, by, p as int, 1),
                        block_pixel(img, w, bx, by, p as int, 2)]);
                }
                if d0 <= d1 && d0 <= d2 {
                    0
                } else if d1 <= d2 {
                    1
                } else {
                    2
                }
            },
            _ => 3,
        };
        assert(index == pixel_index(img, w, h, bx, by, p as int));
        assert(indices + index * scale < scale * 4) by (nonlinear_arith)
            requires
                indices < scale,
                index <= 3,
        ;
        assert(scale * 4 <= 0x1_0000_0000) by {
            reveal_with_fuel(pow4, 17);
            assert(pow4(16) == 0x1_0000_0000);
            lemma_pow4_mono(p as nat + 1, 16);
        }
        indices = indices + index * scale;
        scale = scale * 4;
        p = p + 1;
    }
    let mut r: Vec<u8> = Vec::new();
    r.push((c0 % 256) as u8);
    r.push((c0 / 256) as u8);
    r.push((c1 % 256) as u8);
    r.push((c1 / 256) as u8);
    r.push((indices % 256) as u8);
    r.push(((indices / 256) % 256) as u8);
    r.push(((indices / 65536) % 256) as u8);
    r.push((indices / 16777216) as u8);
    assert(r@ =~= mixed_block(img, w, h, bx, by));
    r
}

/// Whether block (`bx`, `by`) holds a transparent pixel, and a solid one.
fn block_coverage(image: &[u8], width: u32, height: u32, bx: u32, by: u32) -> (r: (bool, bool))
    requires
        image@.len() == width * height * 4,
    ensures
        r.0 == any_clear(image@, width as int, height as int, bx as int, by as int),
        r.1 == any_solid(image@, width as int, height as int, bx as int, by as int),
{
    let ghost (img, w, h) = (image@, width as int, height as int);
    let mut has_transparent = false;
    let mut has_opaque = false;
    let mut p: u64 = 0;
    while p < 16
        invariant
            image@.len() == width * height * 4,
            img == image@,
            w == width,
            h == height,
            p <= 16,
            has_transparent == exists|q: int| 0 <= q < p && #[trigger] is_clear(img, w, h, bx as int, by as int, q),
            has_opaque == exists|q: int| 0 <= q < p && #[trigger] is_solid(img, w, h, bx as int, by as int, q),
        decreases 16 - p,
    {
        match block_alpha(image, width, height, bx, by, p) {
            Some(a) => {
                if a < ALPHA_THRESHOLD {
                    has_transparent = true;
                } else {
                    has_opaque = true;
                }
            },
            None => {},
        }
        proof {
            if has_transparent {
                if !(exists|q: int| 0 <= q < p && #[trigger] is_clear(img, w, h, bx as int, by as int, q)) {
                    assert(is_clear(img, w, h, bx as int, by as int, p as int));
                }
            }
            if has_opaque {
                if !(exists|q: int| 0 <= q < p && #[trigger] is_solid(img, w, h, bx as int, by as int, q)) {
                    assert(is_solid(img, w, h, bx as int, by as int, p as int));
                }
            }
        }
        p = p + 1;
    }
    (has_transparent, has_opaque)
}

/// Repairs, in place, the BC1 blocks of an RGBA image `width` x `height`
/// whose 4x4 cells hold transparent pixels (alpha below 128; pixels past
/// the image's edge count as neither): a cell with no solid pixel gets the
/// transparent block, a mixed one is re-encoded in three-colour-plus-
/// transparent mode, and every other block keeps its bytes.
pub fn fix_bc1_transparency(data: &mut Vec<u8>, image: &[u8], width: u32, height: u32)
    requires
        old(data)@.len() == ((width + 3) / 4) * ((height + 3) / 4) * 8,
        image@.len() == width * height * 4,
    ensures
        final(data)@ == fixed_data(old(data)@, image@, width as int, height as int),
{
    let block_width: u64 = (width as u64 + 3) / 4;
    let block_height: u64 = (height as u64 + 3) / 4;
    let ghost d0 = data@;
    let ghost want = fixed_data(d0, image@, width as int, height as int);
    let dlen = data.len();
    let total = dlen / 8;
    assert(total == block_width * block_height);
    let mut out: Vec<u8> = Vec::new();
    let mut b: usize = 0;
    while b < total
        invariant
            image@.len() == width * height * 4,
            data@ == d0,
            dlen == d0.len(),
            d0.len() == total * 8,
            total == block_width * block_height,
            block_width == (width + 3) / 4,
            block_height == (height + 3) / 4,
            want == fixed_data(d0, image@, width as int, height as int),
            b <= total,
            out@ == want.subrange(0, b * 8),
        decreases total - b,
    {
        assert(block_width > 0) by (nonlinear_arith)
            requires
                b < block_width * block_height,
        ;
        let by64 = b as u64 / block_width;
        proof {
            assert(by64 < block_height) by (nonlinear_arith)
                requires
                    b < block_width * block_height,
                    by64 == (b as int) / (block_width as int),
                    block_width > 0,
            ;
        }
        let bx = (b as u64 % block_width) as u32;
        let by = by64 as u32;
        let (has_transparent, has_opaque) = block_coverage(image, width, height, bx, by);
        let ghost fb = fixed_block(d0, image@, width as int, height as int, b as int);
        let ghost before = out@;
        if !has_transparent {
            let mut k: usize = 0;
            while k < 8
                invariant
                    k <= 8,
                    b < total,
                    data@ == d0,
                    dlen == d0.len(),
                    d0.len() == total * 8,
                    out@ == before + d0.subrange(b * 8, b * 8 + k),
                decreases 8 - k,
            {
                out.push(data[b * 8 + k]);
                assert(d0.subrange(b * 8, b * 8 + k + 1) =~= d0.subrange(b * 8, b * 8 + k).push(d0[b * 8 + k]));
                k = k + 1;
            }
        } else if !has_opaque {
            out.push(0);
            out.push(0);
            out.push(0);
            out.push(0);
            out.push(0xFF);
            out.push(0xFF);
            out.push(0xFF);
            out.push(0xFF);
            assert(out@ =~= before + clear_block());
        } else {
            let blk = encode_bc1_block_with_alpha(image, bx, by, width, height);
            let mut k: usize = 0;
            while k < 8
                invariant
                    k <= 8,
                    blk@.len() == 8,
                    out@ == before + blk@.subrange(0, k as int),
                decreases 8 - k,
            {
                out.push(blk[k]);
                assert(blk@.subrange(0, k + 1) =~= blk@.subrange(0, k as int).push(blk@[k as int]));
                k = k + 1;
            }
            assert(blk@.subrange(0, 8) =~= blk@);
        }
        proof {
            assert(out@ == before + fb);
            assert forall|i: int| 0 <= i < 8 implies #[trigger] want[b * 8 + i] == fb[i] by {
                assert((b * 8 + i) / 8 == b);
                assert((b * 8 + i) % 8 == i);
            }
            assert(out@ =~= want.subrange(0, (b + 1) * 8));
        }
        b = b + 1;
    }
    assert(out@ =~= want);
    *data = out;
}

/// The repair is idempotent: repairing a repaired buffer changes nothing,
/// since every block it rewrites depends on the pixels alone.
pub proof fn lemma_fix_idempotent(data: Seq<u8>, img: Seq<u8>, w: int, h: int)
    requires
        0 <= w,
        data.len() % 8 == 0,
    ensures
        fixed_data(fixed_data(data, img, w, h), img, w, h) == fixed_data(data, img, w, h),
{
    let f = fixed_data(data, img, w, h);
    let g = fixed_data(f, img, w, h);
    assert forall|i: int| 0 <= i < f.len() implies g[i] == f[i] by {
        let b = i / 8;
        let k = i % 8;
        assert(b * 8 + k == i);
        assert(b * 8 + 8 <= f.len());
        assert(f.subrange(b * 8, b * 8 + 8)[k] == f[i]);
        assert(data.subrange(b * 8, b * 8 + 8)[k] == data[i]);
    }
    assert(g =~= f);
}

/// A block whose 4x4 cell holds no pixel with alpha below 128 keeps its bytes.
pub proof fn lemma_opaque_block_kept(data: Seq<u8>, img: Seq<u8>, w: int, h: int, b: int)
    requires
        0 <= b,
        b * 8 + 8 <= data.len(),
        w > 0,
        forall|p: int|
            0 <= p < 16 && in_image(w, h, b % ((w + 3) / 4), b / ((w + 3) / 4), p) ==> #[trigger] block_pixel(
                img,
                w,
                b % ((w + 3) / 4),
                b / ((w + 3) / 4),
                p,
                3,
            ) >= 128,
    ensures
        fixed_data(data, img, w, h).subrange(b * 8, b * 8 + 8) == data.subrange(b * 8, b * 8 + 8),
{
    let bw = (w + 3) / 4;
    let f = fixed_data(data, img, w, h);
    assert(!any_clear(img, w, h, b % bw, b / bw)) by {
        if any_clear(img, w, h, b % bw, b / bw) {
            let p = choose|p: int| 0 <= p < 16 && #[trigger] is_clear(img, w, h, b % bw, b / bw, p);
            assert(block_pixel(img, w, b % bw, b / bw, p, 3) >= 128);
        }
    }
    assert forall|k: int| 0 <= k < 8 implies #[trigger] f[b * 8 + k] == data[b * 8 + k] by {
        assert((b * 8 + k) / 8 == b);
        assert((b * 8 + k) % 8 == k);
    }
    assert(f.subrange(b * 8, b * 8 + 8) =~= data.subrange(b * 8, b * 8 + 8));
}

proof fn lemma_channel_bounds(img: Seq<u8>, w: int, h: int, bx: int, by: int, c: int, n: int)
    ensures
        0 <= channel_min(img, w, h, bx, by, c, n) <= 255,
        0 <= channel_max(img, w, h, bx, by, c, n) <= 255,
    decreases n,
{
    if n > 0 {
        lemma_channel_bounds(img, w, h, bx, by, c, n - 1);
    }
}

/// In every re-encoded mixed block the first packed endpoint, read as a
/// little-endian 16-bit value, is at most the second: the order that
/// selects the three-colour-plus-transparent mode.
pub proof fn lemma_mixed_endpoints_ordered(data: Seq<u8>, img: Seq<u8>, w: int, h: int, b: int)
    requires
        w > 0,
        any_clear(img, w, h, b % ((w + 3) / 4), b / ((w + 3) / 4)),
        any_solid(img, w, h, b % ((w + 3) / 4), b / ((w + 3) / 4)),
    ensures
        ({
            let blk = fixed_block(data, img, w, h, b);
            blk[0] + 256 * blk[1] <= blk[2] + 256 * blk[3]
        }),
{
    let bx = b % ((w + 3) / 4);
    let by = b / ((w + 3) / 4);
    lemma_channel_bounds(img, w, h, bx, by, 0, 16);
    lemma_channel_bounds(img, w, h, bx, by, 1, 16);
    lemma_channel_bounds(img, w, h, bx, by, 2, 16);
    let c0 = endpoint0(img, w, h, bx, by);
    let c1 = endpoint1(img, w, h, bx, by);
    assert(0 <= c0 <= c1 < 65536);
}

proof fn lemma_pow4_mono(a: nat, b: nat)
    requires
        a <= b,
    ensures
        0 < pow4(a) <= pow4(b),
    decreases b,
{
    if b > a {
        lemma_pow4_mono(a, (b - 1) as nat);
    } else if a > 0 {
        lemma_pow4_mono((a - 1) as nat, (a - 1) as nat);
    }
}

} // verus!
