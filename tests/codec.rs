use aoe2_tex_com::codec::{decode, encode_surface, CodecError};
use aoe2_tex_com::delta::DeltaError;
use aoe2_tex_com::format::BcFormat;

fn red_block() -> Vec<u8> {
    vec![0x00, 0xF8, 0x00, 0xF8, 0, 0, 0, 0]
}

fn red_frame() -> Vec<u8> {
    let mut data = Vec::new();
    for _ in 0..4 {
        data.extend_from_slice(&red_block());
    }
    data
}

#[test]
fn encode_surface_delta_encodes_blocks() {
    let data = red_frame();
    let (blocks, delta) = encode_surface(data.clone(), 8, 8, BcFormat::Bc1, true, None).unwrap();
    assert_eq!(blocks, data);
    let (commands, payload) = delta.unwrap();
    assert_eq!(commands, vec![(0, 4)]);
    assert_eq!(payload, data);
}

#[test]
fn encode_surface_without_commands_returns_blocks_only() {
    let (blocks, delta) = encode_surface(vec![1, 2, 3], 4, 4, BcFormat::Bc7, false, None).unwrap();
    assert_eq!(blocks, vec![1, 2, 3]);
    assert!(delta.is_none());
}

#[test]
fn encode_surface_against_identical_previous_frame_skips_everything() {
    let data = red_frame();
    let (_, delta) = encode_surface(data.clone(), 7, 5, BcFormat::Bc1, true, Some((data.clone(), 8, 8, 0, 0))).unwrap();
    let (commands, payload) = delta.unwrap();
    assert_eq!(commands, vec![(4, 0)]);
    assert!(payload.is_empty());
}

#[test]
fn encode_surface_refuses_short_previous_frame() {
    let r = encode_surface(red_frame(), 8, 8, BcFormat::Bc1, true, Some((vec![0u8; 8], 8, 8, 0, 0)));
    assert_eq!(r, Err(CodecError::PreviousTooShort { prev_len: 8 }));
}

#[test]
fn encode_surface_refuses_wrong_block_data_size() {
    let r = encode_surface(red_frame(), 12, 8, BcFormat::Bc1, true, None);
    assert_eq!(r, Err(CodecError::BlockDataSize { expected: 48, actual: 32 }));
}

#[test]
fn decode_replays_commands_and_writes_png() {
    let data = red_frame();
    let (_, delta) = encode_surface(data.clone(), 8, 8, BcFormat::Bc1, true, None).unwrap();
    let (commands, payload) = delta.unwrap();
    let (png, blocks) = decode(payload, 8, 8, BcFormat::Bc1, Some(commands), None).unwrap();
    assert_eq!(blocks, data);
    assert_eq!(&png[1..4], b"PNG");
    let img = image::load_from_memory(&png).unwrap().to_rgba8();
    assert_eq!(img.dimensions(), (8, 8));
    assert_eq!(img.get_pixel(3, 5).0, [255, 0, 0, 255]);
}

#[test]
fn decode_without_commands_uses_bytes_as_blocks() {
    let sentinel = vec![0u8, 0, 0, 0, 0xFF, 0xFF, 0xFF, 0xFF];
    let (png, blocks) = decode(sentinel.clone(), 4, 4, BcFormat::Bc1, None, None).unwrap();
    assert_eq!(blocks, sentinel);
    let img = image::load_from_memory(&png).unwrap().to_rgba8();
    assert_eq!(img.get_pixel(0, 0)[3], 0);
}

#[test]
fn decode_reports_delta_errors() {
    let r = decode(vec![], 8, 8, BcFormat::Bc1, Some(vec![(0, 1)]), None);
    assert_eq!(r, Err(CodecError::Delta(DeltaError::PayloadTooShort { payload_len: 0 })));
}
