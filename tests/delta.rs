use aoe2_tex_com::delta::{block_is_skip, decode_blocks, decode_delta, encode_blocks, encode_delta, DeltaError, PrevGrid};
use aoe2_tex_com::format::{block_size, transparent_block, BcFormat};
use aoe2_tex_com::word::{pack, word_at};

fn repeat_block(block: &[u8], n: usize) -> Vec<u8> {
    let mut out = Vec::new();
    for _ in 0..n {
        out.extend_from_slice(block);
    }
    out
}

fn solid_block(tag: u8) -> Vec<u8> {
    vec![tag, 0x11, tag, 0x22, 0x33, 0x44, 0x55, tag]
}

#[test]
fn uniform_opaque_frame_is_one_draw_run() {
    let block = vec![0x1F, 0x00, 0x1F, 0x00, 0x00, 0x00, 0x00, 0x00];
    let blocks = repeat_block(&block, 4);
    let (commands, payload) = encode_delta(&blocks, 2, 2, BcFormat::Bc1, &None);
    assert_eq!(commands, vec![(0, 4)]);
    assert_eq!(payload, blocks);
}

#[test]
fn all_sentinel_frame_is_one_skip_run() {
    let sentinel = transparent_block(BcFormat::Bc1);
    let blocks = repeat_block(&sentinel, 4);
    let (commands, payload) = encode_delta(&blocks, 2, 2, BcFormat::Bc1, &None);
    assert_eq!(commands, vec![(4, 0)]);
    assert!(payload.is_empty());
}

#[test]
fn long_skip_run_is_split_at_255() {
    let blocks = vec![0u8; 300 * 8];
    let (commands, payload) = encode_delta(&blocks, 300, 1, BcFormat::Bc4, &None);
    assert_eq!(commands, vec![(255, 0), (45, 0)]);
    assert!(payload.is_empty());
}

#[test]
fn long_draw_run_is_split_at_255() {
    let blocks = repeat_block(&solid_block(7), 300);
    let (commands, payload) = encode_delta(&blocks, 20, 15, BcFormat::Bc1, &None);
    assert_eq!(commands, vec![(0, 255), (0, 45)]);
    assert_eq!(payload, blocks);
}

#[test]
fn skip_run_merges_with_following_draw_run() {
    let mut blocks = vec![0u8; 300 * 8];
    blocks.extend_from_slice(&solid_block(9));
    let (commands, payload) = encode_delta(&blocks, 301, 1, BcFormat::Bc4, &None);
    assert_eq!(commands, vec![(255, 0), (45, 1)]);
    assert_eq!(payload, solid_block(9));
}

#[test]
fn runs_alternate_and_cover_the_grid() {
    let sentinel = transparent_block(BcFormat::Bc1);
    let mut blocks = Vec::new();
    blocks.extend_from_slice(&sentinel);
    blocks.extend_from_slice(&sentinel);
    blocks.extend_from_slice(&solid_block(1));
    blocks.extend_from_slice(&sentinel);
    blocks.extend_from_slice(&solid_block(2));
    blocks.extend_from_slice(&solid_block(3));
    let (commands, payload) = encode_delta(&blocks, 3, 2, BcFormat::Bc1, &None);
    assert_eq!(commands, vec![(2, 1), (1, 2)]);
    let covered: usize = commands.iter().map(|&(s, d)| s as usize + d as usize).sum();
    assert_eq!(covered, 6);
    let mut expected = solid_block(1);
    expected.extend_from_slice(&solid_block(2));
    expected.extend_from_slice(&solid_block(3));
    assert_eq!(payload, expected);
}

#[test]
fn bc7_blocks_use_their_own_sentinel() {
    let sentinel = transparent_block(BcFormat::Bc7);
    assert_eq!(sentinel.len(), 16);
    assert_eq!(sentinel[0], 0x40);
    assert!(sentinel[1..].iter().all(|&b| b == 0));
    assert_eq!(block_size(BcFormat::Bc7), 16);
    let mut blocks = sentinel.clone();
    blocks.extend_from_slice(&[5u8; 16]);
    let (commands, payload) = encode_delta(&blocks, 2, 1, BcFormat::Bc7, &None);
    assert_eq!(commands, vec![(1, 1)]);
    assert_eq!(payload, vec![5u8; 16]);
    let back = decode_delta(&commands, &payload, 2, 1, BcFormat::Bc7, &None).unwrap();
    assert_eq!(back, blocks);
}

#[test]
fn identical_previous_frame_is_copied_back() {
    let mut blocks = Vec::new();
    for t in 0..4u8 {
        blocks.extend_from_slice(&solid_block(t + 10));
    }
    let prev = Some(PrevGrid::from_pixels(blocks.clone(), 8, 8, 0, 0));
    let words = pack(&blocks, 8);
    let sentinel = word_at(&transparent_block(BcFormat::Bc1), 0, 8);
    let prev_words = Some((words.clone(), 2, 2, 0, 0));
    for i in 0..4 {
        assert!(block_is_skip(i, &words, 2, sentinel, &prev_words));
    }
    let (commands, payload) = encode_delta(&blocks, 2, 2, BcFormat::Bc1, &prev);
    assert_eq!(commands, vec![(4, 0)]);
    assert!(payload.is_empty());
    let back = decode_delta(&commands, &payload, 2, 2, BcFormat::Bc1, &prev).unwrap();
    assert_eq!(back, blocks);
}

#[test]
fn block_outside_previous_grid_falls_back_to_sentinel() {
    let sentinel = transparent_block(BcFormat::Bc1);
    let prev_blocks = repeat_block(&solid_block(1), 4);
    // The current grid sits one block to the right of the previous one.
    let prev_words = Some((pack(&prev_blocks, 8), 2, 2, 1, 0));
    let prev = Some(PrevGrid::from_pixels(prev_blocks, 8, 8, 4, 0));
    let mut blocks = Vec::new();
    blocks.extend_from_slice(&sentinel);
    blocks.extend_from_slice(&solid_block(1));
    blocks.extend_from_slice(&solid_block(1));
    blocks.extend_from_slice(&solid_block(1));
    let words = pack(&blocks, 8);
    let sentinel_word = word_at(&sentinel, 0, 8);
    assert!(block_is_skip(0, &words, 2, sentinel_word, &prev_words));
    assert!(block_is_skip(1, &words, 2, sentinel_word, &prev_words));
    assert!(!block_is_skip(2, &words, 2, sentinel_word, &prev_words));
    assert!(block_is_skip(3, &words, 2, sentinel_word, &prev_words));
    assert!(!block_is_skip(3, &words, 2, sentinel_word, &None));
    let (commands, payload) = encode_delta(&blocks, 2, 2, BcFormat::Bc1, &prev);
    assert_eq!(commands, vec![(2, 1), (1, 0)]);
    assert_eq!(payload, solid_block(1));
    let back = decode_delta(&commands, &payload, 2, 2, BcFormat::Bc1, &prev).unwrap();
    assert_eq!(back, blocks);
}

#[test]
fn round_trip_with_shifted_previous_frame() {
    let mut prev_blocks = Vec::new();
    for t in 0..9u8 {
        prev_blocks.extend_from_slice(&solid_block(t));
    }
    let prev = Some(PrevGrid::from_pixels(prev_blocks, 12, 12, -4, -4));
    let mut blocks = Vec::new();
    for t in [4u8, 5, 40, 7, 8, 41, 42, 43, 0] {
        blocks.extend_from_slice(&solid_block(t));
    }
    let (commands, payload) = encode_blocks(&blocks, 8, 3, 9, &transparent_block(BcFormat::Bc1), &prev);
    let covered: usize = commands.iter().map(|&(s, d)| s as usize + d as usize).sum();
    assert_eq!(covered, 9);
    assert_eq!(commands, vec![(2, 1), (2, 4)]);
    let back = decode_blocks(&commands, &payload, 3, 3, 8, &transparent_block(BcFormat::Bc1), &prev).unwrap();
    assert_eq!(back, blocks);
}

#[test]
fn pixel_offsets_truncate_toward_zero() {
    let p = PrevGrid::from_pixels(vec![], 9, 4, -5, 7);
    assert_eq!(p.width, 3);
    assert_eq!(p.height, 1);
    assert_eq!(p.off_col, -1);
    assert_eq!(p.off_row, 1);
    let q = PrevGrid::from_pixels(vec![], u32::MAX, 0, i32::MIN, -3);
    assert_eq!(q.width, 1 << 30);
    assert_eq!(q.height, 0);
    assert_eq!(q.off_col, i32::MIN / 4);
    assert_eq!(q.off_row, 0);
}

#[test]
fn too_many_skips_are_refused() {
    let r = decode_delta(&[(5, 0)], &[], 2, 2, BcFormat::Bc1, &None);
    assert_eq!(r, Err(DeltaError::TooManyBlocks { requested: 40, capacity: 32 }));
}

#[test]
fn short_payload_is_refused() {
    let r = decode_delta(&[(1, 2)], &[0u8; 12], 2, 2, BcFormat::Bc1, &None);
    assert_eq!(r, Err(DeltaError::PayloadTooShort { payload_len: 12 }));
}

#[test]
fn short_previous_frame_is_refused() {
    let prev = Some(PrevGrid::from_pixels(vec![0u8; 8], 8, 8, 0, 0));
    let r = decode_delta(&[(2, 0)], &[], 2, 2, BcFormat::Bc1, &prev);
    assert_eq!(r, Err(DeltaError::PreviousTooShort { prev_len: 8 }));
}

#[test]
fn decoder_fills_skips_with_sentinel_without_previous_frame() {
    let back = decode_delta(&[(1, 1), (2, 0)], &solid_block(3), 2, 2, BcFormat::Bc1, &None).unwrap();
    let sentinel = transparent_block(BcFormat::Bc1);
    let mut expected = sentinel.clone();
    expected.extend_from_slice(&solid_block(3));
    expected.extend_from_slice(&sentinel);
    expected.extend_from_slice(&sentinel);
    assert_eq!(back, expected);
}

#[test]
fn draw_run_past_the_grid_is_refused() {
    let r = decode_delta(&[(0, 2)], &[0u8; 16], 1, 1, BcFormat::Bc1, &None);
    assert_eq!(r, Err(DeltaError::TooManyBlocks { requested: 16, capacity: 8 }));
}

#[test]
fn commands_short_of_the_grid_are_refused() {
    let r = decode_delta(&[(1, 0)], &[], 2, 2, BcFormat::Bc1, &None);
    assert_eq!(r, Err(DeltaError::TooFewBlocks { produced: 8, capacity: 32 }));
    let r = decode_delta(&[], &[], 1, 1, BcFormat::Bc4, &None);
    assert_eq!(r, Err(DeltaError::TooFewBlocks { produced: 0, capacity: 8 }));
}

#[test]
fn empty_grid_decodes_to_nothing() {
    assert_eq!(decode_delta(&[], &[], 0, 3, BcFormat::Bc1, &None), Ok(vec![]));
    let r = decode_delta(&[(1, 0)], &[], 0, 3, BcFormat::Bc1, &None);
    assert_eq!(r, Err(DeltaError::TooManyBlocks { requested: 8, capacity: 0 }));
}
