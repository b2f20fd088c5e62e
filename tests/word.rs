use aoe2_tex_com::word::{pack, unpack, word_at};

#[test]
fn words_are_little_endian() {
    let bytes = [1u8, 2, 3, 4, 5, 6, 7, 8];
    assert_eq!(word_at(&bytes, 0, 8), 0x0807_0605_0403_0201);
    assert_eq!(word_at(&bytes, 2, 2), 0x0403);
    let sentinel = [0x40u8, 0, 0, 0, 0, 0, 0, 0, 0, 0, 0, 0, 0, 0, 0, 0];
    assert_eq!(word_at(&sentinel, 0, 16), 0x40);
    assert_eq!(word_at(&[0xFFu8; 16], 0, 16), u128::MAX);
}

#[test]
fn pack_then_unpack_gives_the_bytes_back() {
    let bytes: Vec<u8> = (0..48u8).collect();
    let words = pack(&bytes, 8);
    assert_eq!(words.len(), 6);
    assert_eq!(words[1], u64::from_le_bytes([8, 9, 10, 11, 12, 13, 14, 15]) as u128);
    assert_eq!(unpack(&words, 8), bytes);
    let words16 = pack(&bytes, 16);
    assert_eq!(words16.len(), 3);
    assert_eq!(unpack(&words16, 16), bytes);
}

#[test]
fn equal_blocks_have_equal_words() {
    let mut bytes = vec![0u8, 0, 0, 0, 0xFF, 0xFF, 0xFF, 0xFF];
    bytes.extend_from_slice(&[0, 0, 0, 0, 0xFF, 0xFF, 0xFF, 0xFF]);
    bytes.extend_from_slice(&[0, 0, 0, 1, 0xFF, 0xFF, 0xFF, 0xFF]);
    let words = pack(&bytes, 8);
    assert_eq!(words[0], words[1]);
    assert_ne!(words[0], words[2]);
}
