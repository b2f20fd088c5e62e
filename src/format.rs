use vstd::prelude::*;

verus! {

/// The block-compression formats the codec handles.
#[derive(Clone, Copy, Debug, PartialEq, Eq, Structural)]
pub enum BcFormat {
    Bc1,
    Bc4,
    Bc7,
}

/// The effort the block compressor spends per block.
#[derive(Clone, Copy, Debug, PartialEq, Eq, Structural)]
pub enum BcQuality {
    Fast,
    Normal,
    Slow,
}

/// Bytes per compressed block: 8 for BC1 and BC4, 16 for BC7.
pub open spec fn block_size_of(format: BcFormat) -> nat {
    match format {
        BcFormat::Bc7 => 16,
        _ => 8,
    }
}

/// The block that each format decodes to a fully transparent 4x4 cell.
pub open spec fn sentinel_of(format: BcFormat) -> Seq<u8> {
    match format {
        BcFormat::Bc1 => seq![0u8, 0, 0, 0, 0xFF, 0xFF, 0xFF, 0xFF],
        BcFormat::Bc4 => Seq::new(8, |i: int| 0u8),
        BcFormat::Bc7 => Seq::new(16, |i: int| if i == 0 { 0x40u8 } else { 0u8 }),
    }
}

pub fn block_size(format: BcFormat) -> (r: usize)
    ensures
        r == block_size_of(format),
{
    match format {
        BcFormat::Bc7 => 16,
        _ => 8,
    }
}

/// The transparent block of `format`, as bytes.
pub fn transparent_block(format: BcFormat) -> (r: Vec<u8>)
    ensures
        r@ == sentinel_of(format),
        r@.len() == block_size_of(format),
{
    match format {
        BcFormat::Bc1 => {
            let r = vec![0u8, 0, 0, 0, 0xFF, 0xFF, 0xFF, 0xFF];
            assert(r@ =~= sentinel_of(format));
            r
        },
        BcFormat::Bc4 => {
            let r = vec![0u8; 8];
            assert(r@ =~= sentinel_of(format));
            r
        },
        BcFormat::Bc7 => {
            let mut r = vec![0u8; 16];
            r.set(0, 0x40);
            assert(r@ =~= sentinel_of(format));
            r
        },
    }
}

} // verus!
