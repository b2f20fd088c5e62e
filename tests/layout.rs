use aoe2_tex_com::format::BcFormat;
use aoe2_tex_com::layout::{
    compute_offsets, find_bounds, get_detla, max_extents, offset, pad_bounds, round_to_4, try_compute_offsets,
    try_pad_bounds,
};

fn image(width: u32, height: u32, pixel: impl Fn(u32, u32) -> [u8; 4]) -> Vec<u8> {
    let mut out = Vec::new();
    for y in 0..height {
        for x in 0..width {
            out.extend_from_slice(&pixel(x, y));
        }
    }
    out
}

#[test]
fn round_to_4_rounds_up_with_truncating_division() {
    assert_eq!(round_to_4(0), 0);
    assert_eq!(round_to_4(4), 4);
    assert_eq!(round_to_4(5), 8);
    assert_eq!(round_to_4(-5), 0);
    assert_eq!(round_to_4(-7), -4);
}

#[test]
fn extents_and_padding_around_anchor() {
    assert_eq!(get_detla(1, 2, 10, 12, 5, 6), (4, 4, 5, 6));
    assert_eq!(pad_bounds(1, 2, 10, 12, 5, 6), (1, 2, 13, 14));
}

#[test]
fn canvas_holds_both_layers() {
    assert_eq!(offset((3, 4), (1, -2)), (2, 6));
    assert_eq!(compute_offsets((10, 8), (6, 4), (-2, 7)), (12, 11, (2, 0), (0, 7)));
}

#[test]
fn bounds_of_empty_image_default_to_one_block() {
    let img = image(4, 3, |_, _| [9, 9, 9, 0]);
    assert_eq!(find_bounds(&img, 4, 3, BcFormat::Bc1), (0, 0, 4, 4));
}

#[test]
fn bounds_enclose_content_per_format() {
    let img = image(5, 4, |x, y| match (x, y) {
        (1, 1) => [0, 0, 0, 255],
        (3, 2) => [7, 0, 0, 0],
        _ => [0, 0, 0, 0],
    });
    assert_eq!(find_bounds(&img, 5, 4, BcFormat::Bc1), (1, 1, 2, 2));
    assert_eq!(find_bounds(&img, 5, 4, BcFormat::Bc4), (3, 2, 4, 3));
    assert_eq!(find_bounds(&img, 5, 4, BcFormat::Bc7), (1, 1, 4, 3));
}

#[test]
fn max_extents_take_each_component_maximum_and_zero() {
    assert_eq!(max_extents(&[]), (0, 0, 0, 0));
    assert_eq!(max_extents(&[(4, -8, 12, 0), (8, -4, 4, 16), (-4, -12, 8, 4)]), (8, 0, 12, 16));
}

#[test]
fn checked_padding_refuses_overflow() {
    assert_eq!(try_pad_bounds(1, 2, 10, 12, 5, 6), Some((1, 2, 13, 14)));
    assert_eq!(try_pad_bounds(0, 0, 10, 10, i32::MAX - 1, 0), None);
    assert_eq!(try_pad_bounds(i32::MIN, 0, 10, 10, 5, 0), None);
}

#[test]
fn checked_offsets_refuse_overflow() {
    assert_eq!(try_compute_offsets((10, 8), (6, 4), (-2, 7)), Some((12, 11, (2, 0), (0, 7))));
    assert_eq!(try_compute_offsets((10, 8), (6, 4), (i32::MIN, 0)), None);
    assert_eq!(try_compute_offsets((10, 8), (u32::MAX, 4), (0, 0)), None);
}
