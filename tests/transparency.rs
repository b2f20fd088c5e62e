use aoe2_tex_com::color::{color_distance, rgb565_to_rgb888, rgb888_to_rgb565};
use aoe2_tex_com::transparency::fix_bc1_transparency;

fn image(width: u32, height: u32, pixel: impl Fn(u32, u32) -> [u8; 4]) -> Vec<u8> {
    let mut out = Vec::new();
    for y in 0..height {
        for x in 0..width {
            out.extend_from_slice(&pixel(x, y));
        }
    }
    out
}

#[test]
fn color_packing_keeps_high_bits() {
    assert_eq!(rgb888_to_rgb565([255, 255, 255]), 0xFFFF);
    assert_eq!(rgb888_to_rgb565([8, 4, 8]), 0x0821);
    assert_eq!(rgb888_to_rgb565([255, 0, 0]), 0xF800);
    assert_eq!(rgb888_to_rgb565([7, 3, 7]), 0);
}

#[test]
fn color_widening_repeats_high_bits() {
    assert_eq!(rgb565_to_rgb888(0xFFFF), [255, 255, 255]);
    assert_eq!(rgb565_to_rgb888(0x0821), [8, 4, 8]);
    assert_eq!(rgb565_to_rgb888(0x8410), [132, 130, 132]);
}

#[test]
fn color_distance_is_squared_euclidean() {
    assert_eq!(color_distance([0, 0, 0], [1, 2, 3]), 14);
    assert_eq!(color_distance([255, 255, 255], [0, 0, 0]), 3 * 255 * 255);
    assert_eq!(color_distance([10, 20, 30], [10, 20, 30]), 0);
}

#[test]
fn opaque_blocks_keep_their_bytes() {
    let img = image(8, 4, |x, _| [x as u8 * 10, 0, 0, 255]);
    let before = vec![1u8, 2, 3, 4, 5, 6, 7, 8, 9, 10, 11, 12, 13, 14, 15, 16];
    let mut data = before.clone();
    fix_bc1_transparency(&mut data, &img, 8, 4);
    assert_eq!(data, before);
}

#[test]
fn fully_transparent_block_becomes_sentinel() {
    let img = image(8, 4, |x, _| if x < 4 { [9, 9, 9, 0] } else { [9, 9, 9, 200] });
    let mut data = vec![0xAAu8; 16];
    fix_bc1_transparency(&mut data, &img, 8, 4);
    assert_eq!(&data[0..8], &[0, 0, 0, 0, 0xFF, 0xFF, 0xFF, 0xFF]);
    assert_eq!(&data[8..16], &[0xAA; 8]);
}

#[test]
fn mixed_block_is_reencoded_with_transparent_index() {
    let img = image(4, 4, |x, y| if x == 0 && y == 0 { [0, 0, 0, 0] } else { [255, 0, 0, 255] });
    let mut data = vec![0x55u8; 8];
    fix_bc1_transparency(&mut data, &img, 4, 4);
    assert_eq!(data, vec![0x00, 0xF8, 0x00, 0xF8, 0x03, 0x00, 0x00, 0x00]);
}

#[test]
fn mixed_block_picks_nearest_palette_entry() {
    // Pixel 0 transparent, pixel 1 black, pixel 2 white, the rest mid grey.
    let img = image(4, 4, |x, y| match (x, y) {
        (0, 0) => [0, 0, 0, 10],
        (1, 0) => [0, 0, 0, 255],
        (2, 0) => [255, 255, 255, 255],
        _ => [128, 128, 128, 255],
    });
    let mut data = vec![0u8; 8];
    fix_bc1_transparency(&mut data, &img, 4, 4);
    // Endpoints 0x0000 and 0xFFFF; indices: 3, 0, 1, then 2 for the other 13.
    let mut word: u32 = 3 | (1 << 4);
    for p in 3..16 {
        word |= 2 << (2 * p);
    }
    let mut expected = vec![0x00, 0x00, 0xFF, 0xFF];
    expected.extend_from_slice(&word.to_le_bytes());
    assert_eq!(data, expected);
    let c0 = u16::from_le_bytes([data[0], data[1]]);
    let c1 = u16::from_le_bytes([data[2], data[3]]);
    assert!(c0 <= c1);
}

#[test]
fn endpoints_come_in_ascending_order() {
    // Per-channel bounds of red and green: low (0, 0, 0), high (255, 255, 0).
    let img = image(4, 4, |x, _| match x {
        0 => [0, 0, 0, 0],
        1 => [255, 0, 0, 255],
        _ => [0, 255, 0, 255],
    });
    let mut data = vec![0u8; 8];
    fix_bc1_transparency(&mut data, &img, 4, 4);
    let c0 = u16::from_le_bytes([data[0], data[1]]);
    let c1 = u16::from_le_bytes([data[2], data[3]]);
    assert_eq!(c0, 0x0000);
    assert_eq!(c1, 0xFFE0);
}

#[test]
fn edge_block_pixels_outside_image_are_transparent_index() {
    // 5x5 image: the right and bottom blocks are mostly outside.
    let img = image(5, 5, |_, _| [0, 0, 255, 255]);
    let mut data = vec![0x77u8; 32];
    fix_bc1_transparency(&mut data, &img, 5, 5);
    // No pixel has alpha below 128, so nothing changes.
    assert_eq!(data, vec![0x77u8; 32]);
    let img2 = image(5, 5, |x, y| if x == 4 && y == 0 { [0, 0, 0, 0] } else { [0, 0, 255, 255] });
    let mut data2 = vec![0x77u8; 32];
    fix_bc1_transparency(&mut data2, &img2, 5, 5);
    // Block (1, 0): pixel 0 transparent, pixels 4, 8, 12 solid blue, the
    // rest outside the image; only those three get index 0.
    let idx: u32 = 0xFCFC_FCFF;
    let mut expected = vec![0x1F, 0x00, 0x1F, 0x00];
    expected.extend_from_slice(&idx.to_le_bytes());
    assert_eq!(&data2[8..16], &expected[..]);
    assert_eq!(&data2[0..8], &[0x77u8; 8]);
}

#[test]
fn repair_twice_equals_repair_once() {
    let img = image(8, 8, |x, y| [(x * 30) as u8, (y * 30) as u8, ((x + y) * 10) as u8, if (x + y) % 3 == 0 { 0 } else { 255 }]);
    let mut once = (0..32u8).collect::<Vec<u8>>();
    fix_bc1_transparency(&mut once, &img, 8, 8);
    let mut twice = once.clone();
    fix_bc1_transparency(&mut twice, &img, 8, 8);
    assert_eq!(once, twice);
}
