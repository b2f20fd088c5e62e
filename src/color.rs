use vstd::prelude::*;

verus! {

/// A colour packed as 5 bits of red, 6 of green and 5 of blue.
pub open spec fn pack565(r: int, g: int, b: int) -> int {
    (r / 8) * 2048 + (g / 4) * 32 + b / 8
}

/// A 5-bit channel widened to 8 bits by repeating its high bits.
pub open spec fn widen5(v: int) -> int {
    v * 8 + v / 4
}

/// A 6-bit channel widened to 8 bits by repeating its high bits.
pub open spec fn widen6(v: int) -> int {
    v * 4 + v / 16
}

/// The 8-bit colour that a packed 5:6:5 colour stands for.
pub open spec fn unpack565(c: int) -> Seq<int> {
    seq![widen5(c / 2048), widen6((c / 32) % 64), widen5(c % 32)]
}

/// Squared Euclidean distance of two colours.
pub open spec fn distance(a: Seq<int>, b: Seq<int>) -> int {
    (a[0] - b[0]) * (a[0] - b[0]) + (a[1] - b[1]) * (a[1] - b[1]) + (a[2] - b[2]) * (a[2] - b[2])
}

/// Packs an 8-bit colour into 5:6:5, dropping each channel's low bits.
pub fn rgb888_to_rgb565(rgb: [u8; 3]) -> (r: u16)
    ensures
        r == pack565(rgb@[0] as int, rgb@[1] as int, rgb@[2] as int),
{
    let r = rgb[0] as u16 / 8;
    let g = rgb[1] as u16 / 4;
    let b = rgb[2] as u16 / 8;
    r * 2048 + g * 32 + b
}

/// Widens a 5:6:5 colour back to 8 bits per channel.
pub fn rgb565_to_rgb888(rgb565: u16) -> (r: [u8; 3])
    ensures
        r@.len() == 3,
        r@[0] as int == unpack565(rgb565 as int)[0],
        r@[1] as int == unpack565(rgb565 as int)[1],
        r@[2] as int == unpack565(rgb565 as int)[2],
{
    let r = (rgb565 / 2048) as u8;
    let g = ((rgb565 / 32) % 64) as u8;
    let b = (rgb565 % 32) as u8;
    [r * 8 + r / 4, g * 4 + g / 16, b * 8 + b / 4]
}

/// Squared Euclidean distance of two 8-bit colours.
pub fn color_distance(a: [u8; 3], b: [u8; 3]) -> (r: u32)
    ensures
        r == distance(seq![a@[0] as int, a@[1] as int, a@[2] as int], seq![b@[0] as int, b@[1] as int, b@[2] as int]),
{
    let dr = a[0] as i32 - b[0] as i32;
    let dg = a[1] as i32 - b[1] as i32;
    let db = a[2] as i32 - b[2] as i32;
    assert(dr * dr <= 255 * 255 && dg * dg <= 255 * 255 && db * db <= 255 * 255 && 0 <= dr * dr && 0 <= dg * dg
        && 0 <= db * db) by (nonlinear_arith)
        requires
            -255 <= dr <= 255,
            -255 <= dg <= 255,
            -255 <= db <= 255,
    ;
    (dr * dr + dg * dg + db * db) as u32
}

} // verus!
