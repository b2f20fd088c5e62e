use vstd::prelude::*;
use crate::format::BcFormat;
use crate::transparency::pixel_at;

verus! {

/// `x / 4`, truncated toward zero.
pub open spec fn div4_trunc(x: int) -> int {
    if x >= 0 {
        x / 4
    } else {
        -((-x) / 4)
    }
}

pub open spec fn fits_i32(x: int) -> bool {
    i32::MIN <= x <= i32::MAX
}

/// `x` rounded up to a multiple of 4 (toward zero for negative `x`).
pub fn round_to_4(x: i32) -> (r: i32)
    requires
        x <= i32::MAX - 3,
    ensures
        r == div4_trunc(x + 3) * 4,
{
    let y = x + 3;
    let q = if y >= 0 {
        y / 4
    } else {
        -((-(y as i64)) / 4) as i32
    };
    q * 4
}

/// The extents of the box (`x1`, `y1`)-(`x2`, `y2`) around the anchor:
/// left, top, right and bottom.
pub fn get_detla(x1: i32, y1: i32, x2: i32, y2: i32, anchor_x: i32, anchor_y: i32) -> (r: (i32, i32, i32, i32))
    requires
        fits_i32(anchor_x - x1),
        fits_i32(anchor_y - y1),
        fits_i32(x2 - anchor_x),
        fits_i32(y2 - anchor_y),
    ensures
        r.0 == anchor_x - x1,
        r.1 == anchor_y - y1,
        r.2 == x2 - anchor_x,
        r.3 == y2 - anchor_y,
{
    (anchor_x - x1, anchor_y - y1, x2 - anchor_x, y2 - anchor_y)
}

/// A coordinate `a - d` padded so that its extent `d` from the anchor `a`
/// is a multiple of 4, on the side that `sign` gives.
pub open spec fn padded(a: int, d: int, sign: int) -> int {
    a + sign * (div4_trunc(d + 3) * 4)
}

/// Whether padding every extent of the box keeps each value in `i32`.
pub open spec fn pad_fits(x1: int, y1: int, x2: int, y2: int, ax: int, ay: int) -> bool {
    &&& fits_i32(ax - x1) && ax - x1 <= i32::MAX - 3
    &&& fits_i32(ay - y1) && ay - y1 <= i32::MAX - 3
    &&& fits_i32(x2 - ax) && x2 - ax <= i32::MAX - 3
    &&& fits_i32(y2 - ay) && y2 - ay <= i32::MAX - 3
    &&& fits_i32(padded(ax, ax - x1, -1)) && fits_i32(padded(ay, ay - y1, -1))
    &&& fits_i32(padded(ax, x2 - ax, 1)) && fits_i32(padded(ay, y2 - ay, 1))
}

/// Grows the box (`x1`, `y1`)-(`x2`, `y2`) so that each of its extents from
/// the anchor is rounded up to a multiple of 4.
pub fn pad_bounds(x1: i32, y1: i32, x2: i32, y2: i32, anchor_x: i32, anchor_y: i32) -> (r: (i32, i32, i32, i32))
    requires
        pad_fits(x1 as int, y1 as int, x2 as int, y2 as int, anchor_x as int, anchor_y as int),
    ensures
        r.0 == padded(anchor_x as int, anchor_x - x1, -1),
        r.1 == padded(anchor_y as int, anchor_y - y1, -1),
        r.2 == padded(anchor_x as int, x2 - anchor_x, 1),
        r.3 == padded(anchor_y as int, y2 - anchor_y, 1),
{
    let (dx1, dy1, dx2, dy2) = get_detla(x1, y1, x2, y2, anchor_x, anchor_y);
    let dx1 = round_to_4(dx1);
    let dy1 = round_to_4(dy1);
    let dx2 = round_to_4(dx2);
    let dy2 = round_to_4(dy2);
    (anchor_x - dx1, anchor_y - dy1, anchor_x + dx2, anchor_y + dy2)
}

fn div4_trunc_wide(x: i64) -> (r: i64)
    requires
        -0x1_0000_0000_0000 <= x <= 0x1_0000_0000_0000,
    ensures
        r == div4_trunc(x as int),
{
    if x >= 0 {
        x / 4
    } else {
        -((-x) / 4)
    }
}

/// `pad_bounds` where every value it computes fits in `i32`, else `None`.
pub fn try_pad_bounds(x1: i32, y1: i32, x2: i32, y2: i32, anchor_x: i32, anchor_y: i32) -> (r: Option<
    (i32, i32, i32, i32),
>)
    ensures
        r is Some <==> pad_fits(x1 as int, y1 as int, x2 as int, y2 as int, anchor_x as int, anchor_y as int),
        r is Some ==> r->Some_0.0 == padded(anchor_x as int, anchor_x - x1, -1),
        r is Some ==> r->Some_0.1 == padded(anchor_y as int, anchor_y - y1, -1),
        r is Some ==> r->Some_0.2 == padded(anchor_x as int, x2 - anchor_x, 1),
        r is Some ==> r->Some_0.3 == padded(anchor_y as int, y2 - anchor_y, 1),
{
    let (ax, ay) = (anchor_x as i64, anchor_y as i64);
    let dx1 = ax - x1 as i64;
    let dy1 = ay - y1 as i64;
    let dx2 = x2 as i64 - ax;
    let dy2 = y2 as i64 - ay;
    let lo = i32::MIN as i64;
    let hi = i32::MAX as i64 - 3;
    if dx1 < lo || dx1 > hi || dy1 < lo || dy1 > hi || dx2 < lo || dx2 > hi || dy2 < lo || dy2 > hi {
        return None;
    }
    let px1 = ax - div4_trunc_wide(dx1 + 3) * 4;
    let py1 = ay - div4_trunc_wide(dy1 + 3) * 4;
    let px2 = ax + div4_trunc_wide(dx2 + 3) * 4;
    let py2 = ay + div4_trunc_wide(dy2 + 3) * 4;
    let (mn, mx) = (i32::MIN as i64, i32::MAX as i64);
    if px1 < mn || px1 > mx || py1 < mn || py1 > mx || px2 < mn || px2 > mx || py2 < mn || py2 > mx {
        return None;
    }
    Some(pad_bounds(x1, y1, x2, y2, anchor_x, anchor_y))
}

/// Pixel (`x`, `y`) of the output in a layer placed at `o`.
pub fn offset(p: (u32, u32), o: (i32, i32)) -> (r: (i32, i32))
    requires
        fits_i32(p.0 - o.0),
        fits_i32(p.1 - o.1),
    ensures
        r.0 == p.0 - o.0,
        r.1 == p.1 - o.1,
{
    ((p.0 as i64 - o.0 as i64) as i32, (p.1 as i64 - o.1 as i64) as i32)
}

/// Whether one axis of the canvas (main extent `m`, shadow extent `s` at
/// `o`) keeps every value `compute_offsets` computes in `i32`.
pub open spec fn axis_fits(m: int, s: int, o: int) -> bool {
    &&& m <= i32::MAX
    &&& fits_i32(o + s)
    &&& fits_i32(-o)
    &&& fits_i32(if m >= o + s { m } else { o + s } - if 0 <= o { 0 } else { o })
}

pub open spec fn offsets_fit(m: (u32, u32), s: (u32, u32), o: (i32, i32)) -> bool {
    axis_fits(m.0 as int, s.0 as int, o.0 as int) && axis_fits(m.1 as int, s.1 as int, o.1 as int)
}

fn axis_fits_exec(m: u32, s: u32, o: i32) -> (r: bool)
    ensures
        r == axis_fits(m as int, s as int, o as int),
{
    let (m, s, o) = (m as i64, s as i64, o as i64);
    let (mn, mx) = (i32::MIN as i64, i32::MAX as i64);
    let end = o + s;
    let hi = if m >= end { m } else { end };
    let lo = if 0 <= o { 0 } else { o };
    m <= mx && mn <= end && end <= mx && mn <= -o && -o <= mx && mn <= hi - lo && hi - lo <= mx
}

/// `compute_offsets` where every value it computes fits in `i32`, else `None`.
pub fn try_compute_offsets(m: (u32, u32), s: (u32, u32), o: (i32, i32)) -> (r: Option<
    (u32, u32, (i32, i32), (i32, i32)),
>)
    ensures
        r is Some <==> offsets_fit(m, s, o),
        r is Some ==> ({
            let x1: int = if 0 <= o.0 { 0 } else { o.0 as int };
            let y1: int = if 0 <= o.1 { 0 } else { o.1 as int };
            let x2: int = if m.0 >= o.0 + s.0 { m.0 as int } else { o.0 + s.0 };
            let y2: int = if m.1 >= o.1 + s.1 { m.1 as int } else { o.1 + s.1 };
            let v = r->Some_0;
            &&& v.0 == x2 - x1
            &&& v.1 == y2 - y1
            &&& v.2.0 == -x1 && v.2.1 == -y1
            &&& v.3.0 == o.0 - x1 && v.3.1 == o.1 - y1
        }),
{
    if axis_fits_exec(m.0, s.0, o.0) && axis_fits_exec(m.1, s.1, o.1) {
        Some(compute_offsets(m, s, o))
    } else {
        None
    }
}

/// The canvas that holds a main layer `m` (at the origin) and a shadow
/// layer `s` placed at `o`: its size, and where each layer lands on it.
pub fn compute_offsets(m: (u32, u32), s: (u32, u32), o: (i32, i32)) -> (r: (u32, u32, (i32, i32), (i32, i32)))
    requires
        offsets_fit(m, s, o),
    ensures
        ({
            let x1: int = if 0 <= o.0 { 0 } else { o.0 as int };
            let y1: int = if 0 <= o.1 { 0 } else { o.1 as int };
            let x2: int = if m.0 >= o.0 + s.0 { m.0 as int } else { o.0 + s.0 };
            let y2: int = if m.1 >= o.1 + s.1 { m.1 as int } else { o.1 + s.1 };
            &&& r.0 == x2 - x1
            &&& r.1 == y2 - y1
            &&& r.2.0 == -x1 && r.2.1 == -y1
            &&& r.3.0 == o.0 - x1 && r.3.1 == o.1 - y1
        }),
{
    let sx2 = o.0 + s.0 as i32;
    let sy2 = o.1 + s.1 as i32;
    let x1 = if 0 <= o.0 { 0 } else { o.0 };
    let y1 = if 0 <= o.1 { 0 } else { o.1 };
    let x2 = if m.0 as i32 >= sx2 { m.0 as i32 } else { sx2 };
    let y2 = if m.1 as i32 >= sy2 { m.1 as i32 } else { sy2 };
    ((x2 - x1) as u32, (y2 - y1) as u32, (-x1, -y1), (o.0 - x1, o.1 - y1))
}

/// The largest of component `c` over the first `n` extents, and 0.
pub open spec fn max_extent(e: Seq<(i32, i32, i32, i32)>, c: int, n: int) -> int
    decreases n,
{
    if n <= 0 {
        0
    } else {
        let m = max_extent(e, c, n - 1);
        let v = component(e[n - 1], c);
        if v > m { v } else { m }
    }
}

pub open spec fn component(t: (i32, i32, i32, i32), c: int) -> int {
    if c == 0 {
        t.0 as int
    } else if c == 1 {
        t.1 as int
    } else if c == 2 {
        t.2 as int
    } else {
        t.3 as int
    }
}

/// The extents (left, top, right, bottom around the anchor) that hold
/// every frame's: each component's maximum over the frames, and at least 0.
pub fn max_extents(extents: &[(i32, i32, i32, i32)]) -> (r: (i32, i32, i32, i32))
    ensures
        r.0 == max_extent(extents@, 0, extents@.len() as int),
        r.1 == max_extent(extents@, 1, extents@.len() as int),
        r.2 == max_extent(extents@, 2, extents@.len() as int),
        r.3 == max_extent(extents@, 3, extents@.len() as int),
{
    let mut m: (i32, i32, i32, i32) = (0, 0, 0, 0);
    let mut i: usize = 0;
    while i < extents.len()
        invariant
            i <= extents@.len(),
            m.0 == max_extent(extents@, 0, i as int),
            m.1 == max_extent(extents@, 1, i as int),
            m.2 == max_extent(extents@, 2, i as int),
            m.3 == max_extent(extents@, 3, i as int),
        decreases extents@.len() - i,
    {
        let e = extents[i];
        m = (
            if e.0 > m.0 { e.0 } else { m.0 },
            if e.1 > m.1 { e.1 } else { m.1 },
            if e.2 > m.2 { e.2 } else { m.2 },
            if e.3 > m.3 { e.3 } else { m.3 },
        );
        i = i + 1;
    }
    m
}

/// Whether pixel (`x`, `y`) holds content for `format`: for BC1 alpha of at
/// least 128, for BC4 a non-black colour, for BC7 anything but all zeros.
pub open spec fn is_content(img: Seq<u8>, w: int, x: int, y: int, format: BcFormat) -> bool {
    let r = pixel_at(img, w, x, y, 0);
    let g = pixel_at(img, w, x, y, 1);
    let b = pixel_at(img, w, x, y, 2);
    let a = pixel_at(img, w, x, y, 3);
    match format {
        BcFormat::Bc1 => a >= 128,
        BcFormat::Bc4 => !(r == 0 && g == 0 && b == 0),
        BcFormat::Bc7 => !(r == 0 && g == 0 && b == 0 && a == 0),
    }
}

/// A content pixel of the image.
pub open spec fn content_at(img: Seq<u8>, w: int, h: int, x: int, y: int, format: BcFormat) -> bool {
    0 <= x < w && 0 <= y < h && is_content(img, w, x, y, format)
}

/// Whether (`x1`, `y1`)-(`x2`, `y2`) is the tightest box around the content:
/// every content pixel lies inside and each edge touches one.
pub open spec fn is_content_box(img: Seq<u8>, w: int, h: int, format: BcFormat, r: (i32, i32, i32, i32)) -> bool {
    &&& forall|x: int, y: int|
        #[trigger] content_at(img, w, h, x, y, format) ==> r.0 <= x < r.2 && r.1 <= y < r.3
    &&& exists|x: int, y: int| #[trigger] content_at(img, w, h, x, y, format) && x == r.0
    &&& exists|x: int, y: int| #[trigger] content_at(img, w, h, x, y, format) && y == r.1
    &&& exists|x: int, y: int| #[trigger] content_at(img, w, h, x, y, format) && x == r.2 - 1
    &&& exists|x: int, y: int| #[trigger] content_at(img, w, h, x, y, format) && y == r.3 - 1
}

/// Pixel (`x`, `y`) comes before the scan position (`sx`, `sy`) in raster order.
pub open spec fn scanned(x: int, y: int, sx: int, sy: int) -> bool {
    y < sy || (y == sy && x < sx)
}

/// The bounding box of the image's content pixels, the end corner
/// exclusive; (0, 0, 4, 4) when it has none.
pub fn find_bounds(image: &[u8], width: u32, height: u32, format: BcFormat) -> (r: (i32, i32, i32, i32))
    requires
        image@.len() == width * height * 4,
        width <= i32::MAX,
        height <= i32::MAX,
    ensures
        (exists|x: int, y: int| #[trigger] content_at(image@, width as int, height as int, x, y, format))
            ==> is_content_box(image@, width as int, height as int, format, r),
        !(exists|x: int, y: int| #[trigger] content_at(image@, width as int, height as int, x, y, format))
            ==> r == (0i32, 0i32, 4i32, 4i32),
{
    let ghost (img, w, h) = (image@, width as int, height as int);
    let mut min_x: u32 = width;
    let mut min_y: u32 = height;
    let mut max_x: u32 = 0;
    let mut max_y: u32 = 0;
    let mut has_content = false;
    let ghost mut wa: (int, int) = (0, 0);
    let ghost mut wb: (int, int) = (0, 0);
    let ghost mut wc: (int, int) = (0, 0);
    let ghost mut wd: (int, int) = (0, 0);
    let mut y: u32 = 0;
    while y < height
        invariant
            image@.len() == width * height * 4,
            img == image@,
            w == width,
            h == height,
            y <= height,
            has_content ==> content_at(img, w, h, wa.0, wa.1, format) && wa.0 == min_x && scanned(wa.0, wa.1, 0, y as int),
            has_content ==> content_at(img, w, h, wb.0, wb.1, format) && wb.1 == min_y && scanned(wb.0, wb.1, 0, y as int),
            has_content ==> content_at(img, w, h, wc.0, wc.1, format) && wc.0 == max_x && scanned(wc.0, wc.1, 0, y as int),
            has_content ==> content_at(img, w, h, wd.0, wd.1, format) && wd.1 == max_y && scanned(wd.0, wd.1, 0, y as int),
            forall|px: int, py: int|
                #[trigger] content_at(img, w, h, px, py, format) && scanned(px, py, 0, y as int) ==> has_content
                    && min_x <= px <= max_x && min_y <= py <= max_y,
        decreases height - y,
    {
        let mut x: u32 = 0;
        while x < width
            invariant
                image@.len() == width * height * 4,
                img == image@,
                w == width,
                h == height,
                y < height,
                x <= width,
                has_content ==> content_at(img, w, h, wa.0, wa.1, format) && wa.0 == min_x && scanned(wa.0, wa.1, x as int, y as int),
                has_content ==> content_at(img, w, h, wb.0, wb.1, format) && wb.1 == min_y && scanned(wb.0, wb.1, x as int, y as int),
                has_content ==> content_at(img, w, h, wc.0, wc.1, format) && wc.0 == max_x && scanned(wc.0, wc.1, x as int, y as int),
                has_content ==> content_at(img, w, h, wd.0, wd.1, format) && wd.1 == max_y && scanned(wd.0, wd.1, x as int, y as int),
                forall|px: int, py: int|
                    #[trigger] content_at(img, w, h, px, py, format) && scanned(px, py, x as int, y as int) ==> has_content
                        && min_x <= px <= max_x && min_y <= py <= max_y,
            decreases width - x,
        {
            let r = crate::transparency::pixel_channel(image, width, height, x, y, 0);
            let g = crate::transparency::pixel_channel(image, width, height, x, y, 1);
            let b = crate::transparency::pixel_channel(image, width, height, x, y, 2);
            let a = crate::transparency::pixel_channel(image, width, height, x, y, 3);
            let is_transparent = match format {
                BcFormat::Bc1 => a < 128,
                BcFormat::Bc4 => r == 0 && g == 0 && b == 0,
                BcFormat::Bc7 => r == 0 && g == 0 && b == 0 && a == 0,
            };
            assert(is_transparent == !content_at(img, w, h, x as int, y as int, format));
            if !is_transparent {
                let first = !has_content;
                if first || x < min_x {
                    min_x = x;
                    proof { wa = (x as int, y as int); }
                }
                if first || y < min_y {
                    min_y = y;
                    proof { wb = (x as int, y as int); }
                }
                if first || x > max_x {
                    max_x = x;
                    proof { wc = (x as int, y as int); }
                }
                if first || y > max_y {
                    max_y = y;
                    proof { wd = (x as int, y as int); }
                }
                has_content = true;
            }
            x = x + 1;
        }
        y = y + 1;
    }
    if !has_content {
        return (0, 0, 4, 4);
    }
    let r = (min_x as i32, min_y as i32, (max_x + 1) as i32, (max_y + 1) as i32);
    proof {
        assert(content_at(img, w, h, wa.0, wa.1, format) && wa.0 == r.0);
        assert(content_at(img, w, h, wb.0, wb.1, format) && wb.1 == r.1);
        assert(content_at(img, w, h, wc.0, wc.1, format) && wc.0 == r.2 - 1);
        assert(content_at(img, w, h, wd.0, wd.1, format) && wd.1 == r.3 - 1);
    }
    r
}

} // verus!
