use vstd::prelude::*;
use crate::format::{BcFormat, block_size, block_size_of, sentinel_of};
use crate::delta::{
    PrevGrid, DeltaError, encode_delta, decode_delta, skip_flags, commands_from, drawn, decoded, prev_complete,
    pixels_to_blocks, offset_to_blocks,
};

verus! {

/// The error of the image crate's readers and writers.
#[verifier::external_type_specification]
#[verifier::external_body]
pub struct ExImageError(image::ImageError);

/// The error of image_dds's surface decoder.
#[verifier::external_type_specification]
#[verifier::external_body]
pub struct ExSurfaceError(image_dds::error::SurfaceError);

/// Whether the block decompressor accepts the data: for image_dds, a
/// non-empty size and enough blocks for it.
pub uninterp spec fn bc_decodes(width: u32, height: u32, format: BcFormat, data: Seq<u8>) -> bool;

/// Whether the PNG writer accepts the image.
pub uninterp spec fn png_writes(width: u32, height: u32, rgba: Seq<u8>) -> bool;

/// The RGBA8 pixels of block-compressed image data.
pub uninterp spec fn bc_decompressed(width: u32, height: u32, format: BcFormat, data: Seq<u8>) -> Seq<u8>;

/// The PNG file of an RGBA8 image.
pub uninterp spec fn png_of(width: u32, height: u32, rgba: Seq<u8>) -> Seq<u8>;

/// Relies on image_dds::Surface::decode_rgba8: the RGBA8 pixels of one 2D
/// layer of `format` data, without mipmaps, `width` x `height` x 4 bytes
/// (decode_bcn allocates exactly that); whether it succeeds depends on the
/// arguments alone.
#[verifier::external_body]
fn decompress(width: u32, height: u32, format: BcFormat, data: &[u8]) -> (r: Result<
    Vec<u8>,
    image_dds::error::SurfaceError,
>)
    ensures
        r is Ok <==> bc_decodes(width, height, format, data@),
        r is Ok ==> r->Ok_0@ == bc_decompressed(width, height, format, data@),
        r is Ok ==> r->Ok_0@.len() == width * height * 4,
{
    let image_format = match format {
        BcFormat::Bc1 => image_dds::ImageFormat::BC1RgbaUnorm,
        BcFormat::Bc4 => image_dds::ImageFormat::BC4RUnorm,
        BcFormat::Bc7 => image_dds::ImageFormat::BC7RgbaUnorm,
    };
    let surface = image_dds::Surface { width, height, depth: 1, layers: 1, mipmaps: 1, image_format, data };
    surface.decode_rgba8().map(|s| s.data)
}

/// Relies on image::ImageBuffer::from_raw, which accepts a buffer that holds
/// `width` x `height` RGBA8 pixels, and ImageBuffer::write_to with
/// ImageFormat::Png: the image as a PNG file; whether it succeeds depends
/// on the arguments alone.
#[verifier::external_body]
fn encode_png(width: u32, height: u32, rgba: Vec<u8>) -> (r: Result<Vec<u8>, image::ImageError>)
    requires
        rgba@.len() == width * height * 4,
    ensures
        r is Ok <==> png_writes(width, height, rgba@),
        r is Ok ==> r->Ok_0@ == png_of(width, height, rgba@),
{
    let img = image::RgbaImage::from_raw(width, height, rgba).unwrap();
    let mut out = Vec::new();
    img.write_to(&mut std::io::Cursor::new(&mut out), image::ImageFormat::Png)?;
    Ok(out)
}

/// Why an image could not be encoded or decoded.
#[derive(Clone, Copy, Debug, PartialEq, Eq, Structural)]
pub enum CodecError {
    /// The block decompressor refused the data.
    DecompressionFailed,
    /// The decompressed pixels could not be written as PNG.
    PngFailed,
    /// The block data does not hold `expected` bytes for the image size.
    BlockDataSize { expected: u128, actual: u64 },
    /// The previous frame holds fewer bytes than its declared size needs.
    PreviousTooShort { prev_len: u64 },
    /// The image is too large for a delta stream.
    TooLarge,
    /// The delta stream could not be replayed.
    Delta(DeltaError),
}

/// The previous frame of a pixel-space description, in block space.
pub open spec fn prev_grid_of(p: (Vec<u8>, u32, u32, i32, i32)) -> PrevGrid {
    PrevGrid {
        blocks: p.0,
        width: pixels_to_blocks(p.1 as int) as u32,
        height: pixels_to_blocks(p.2 as int) as u32,
        off_col: offset_to_blocks(p.3 as int) as i32,
        off_row: offset_to_blocks(p.4 as int) as i32,
    }
}

pub open spec fn prev_grid_opt(p: Option<(Vec<u8>, u32, u32, i32, i32)>) -> Option<PrevGrid> {
    match p {
        Some(t) => Some(prev_grid_of(t)),
        None => None,
    }
}

/// Bytes of block data for an image `w` x `h` in a format of `bs`-byte blocks.
pub open spec fn data_len_for(w: int, h: int, bs: nat) -> int {
    pixels_to_blocks(w) * pixels_to_blocks(h) * bs
}

/// Converts a previous frame given in pixels, checking that its blocks
/// cover its declared size.
fn previous_in_blocks(prev_info: Option<(Vec<u8>, u32, u32, i32, i32)>, bs: usize) -> (r: Result<
    Option<PrevGrid>,
    CodecError,
>)
    requires
        0 < bs <= 16,
    ensures
        r is Ok ==> r->Ok_0 == prev_grid_opt(prev_info),
        r is Ok && r->Ok_0 is Some ==> prev_complete(r->Ok_0->Some_0, bs as nat),
        r is Err <==> (prev_info is Some && !prev_complete(prev_grid_of(prev_info->Some_0), bs as nat)),
        r is Err ==> r->Err_0 == (CodecError::PreviousTooShort { prev_len: prev_info->Some_0.0@.len() as u64 }),
{
    match prev_info {
        None => Ok(None),
        Some((blocks, w, h, ox, oy)) => {
            let p = PrevGrid::from_pixels(blocks, w, h, ox, oy);
            let len = p.blocks.len();
            assert(p.width * p.height <= 0x1_0000_0000 * 0x1_0000_0000 && p.width * p.height * bs
                <= 0x1_0000_0000 * 0x1_0000_0000 * 16) by (nonlinear_arith)
                requires
                    p.width <= 0xffff_ffff,
                    p.height <= 0xffff_ffff,
                    bs <= 16,
            ;
            if (p.width as u128) * (p.height as u128) * (bs as u128) > len as u128 {
                Err(CodecError::PreviousTooShort { prev_len: len as u64 })
            } else {
                Ok(Some(p))
            }
        },
    }
}

/// Whether block data of `len` bytes fits an image `w` x `h` of `bs`-byte blocks.
pub open spec fn fits_image(len: int, w: int, h: int, bs: nat) -> bool {
    len == data_len_for(w, h, bs)
}

/// Delta-encodes, when `gen_commands` is set, the block data `data` that the
/// block compressor made of an image `width` x `height`, against the
/// previous frame given in pixels (its blocks, width, height and anchor
/// offset); returns the block data with the encoding.
pub fn encode_surface(
    data: Vec<u8>,
    width: u32,
    height: u32,
    format: BcFormat,
    gen_commands: bool,
    prev_info: Option<(Vec<u8>, u32, u32, i32, i32)>,
) -> (r: Result<(Vec<u8>, Option<(Vec<(u8, u8)>, Vec<u8>)>), CodecError>)
    ensures
        ({
            let bs = block_size_of(format);
            let gw = pixels_to_blocks(width as int);
            let gh = pixels_to_blocks(height as int);
            let flags = skip_flags(data@, bs, gw, sentinel_of(format), prev_grid_opt(prev_info), (gw * gh) as nat);
            let size_ok = fits_image(data@.len() as int, width as int, height as int, bs);
            let prev_ok = prev_info is Some ==> prev_complete(prev_grid_of(prev_info->Some_0), bs);
            &&& r is Ok <==> (!gen_commands || (size_ok && prev_ok))
            &&& r is Ok ==> r->Ok_0.0@ == data@
            &&& r is Ok ==> (r->Ok_0.1 is Some <==> gen_commands)
            &&& r is Ok && gen_commands ==> r->Ok_0.1->Some_0.0@ == commands_from(flags, 0)
            &&& r is Ok && gen_commands ==> r->Ok_0.1->Some_0.1@ == drawn(flags, data@, bs, gw * gh)
            &&& r is Err && !size_ok ==> r->Err_0 == (CodecError::BlockDataSize {
                expected: data_len_for(width as int, height as int, bs) as u128,
                actual: data@.len() as u64,
            })
            &&& r is Err && size_ok ==> r->Err_0 == (CodecError::PreviousTooShort {
                prev_len: prev_info->Some_0.0@.len() as u64,
            })
        }),
{
    if !gen_commands {
        return Ok((data, None));
    }
    let block_width = ((width as u64 + 3) / 4) as u32;
    let block_height = ((height as u64 + 3) / 4) as u32;
    let bs = block_size(format);
    assert(block_width * block_height <= 0x1_0000_0000 * 0x1_0000_0000 && block_width * block_height * bs
        <= 0x1_0000_0000 * 0x1_0000_0000 * 16) by (nonlinear_arith)
        requires
            block_width <= 0xffff_ffff,
            block_height <= 0xffff_ffff,
            bs <= 16,
    ;
    let expected = block_width as u128 * block_height as u128 * bs as u128;
    let actual = data.len();
    if expected != actual as u128 {
        return Err(CodecError::BlockDataSize { expected, actual: actual as u64 });
    }
    let previous = match previous_in_blocks(prev_info, bs) {
        Ok(p) => p,
        Err(e) => return Err(e),
    };
    let encoded = encode_delta(data.as_slice(), block_width, block_height, format, &previous);
    Ok((data, Some(encoded)))
}

/// The block data that `decode` hands to the decompressor: `bytes` as they
/// are without commands, else the replay of the commands, or `None` where
/// that fails.
pub open spec fn rebuilt(
    bytes: Seq<u8>,
    width: u32,
    height: u32,
    format: BcFormat,
    commands: Option<Vec<(u8, u8)>>,
    prev_info: Option<(Vec<u8>, u32, u32, i32, i32)>,
) -> Option<Seq<u8>> {
    let gw = pixels_to_blocks(width as int);
    let gh = pixels_to_blocks(height as int);
    let bs = block_size_of(format);
    match commands {
        None => Some(bytes),
        Some(c) => if gw * gh * bs > u64::MAX {
            None
        } else {
            match decoded(c@, bytes, gw, gh, bs, sentinel_of(format), prev_grid_opt(prev_info)) {
                Ok(d) => Some(d),
                Err(_) => None,
            }
        },
    }
}

/// What `decode` returns on success: the PNG file of the decompressed
/// blocks, and the blocks, replayed from the commands when given.
pub open spec fn decoded_as(
    bytes: Seq<u8>,
    width: u32,
    height: u32,
    format: BcFormat,
    commands: Option<Vec<(u8, u8)>>,
    prev_info: Option<(Vec<u8>, u32, u32, i32, i32)>,
    out: (Vec<u8>, Vec<u8>),
) -> bool {
    &&& rebuilt(bytes, width, height, format, commands, prev_info) == Some(out.1@)
    &&& out.0@ == png_of(width, height, bc_decompressed(width, height, format, out.1@))
}

/// When `decode` fails with `e`: the grid is too large for a delta stream,
/// the replay fails, the decompressor refuses the rebuilt blocks, or the
/// PNG writer refuses the decompressed pixels.
pub open spec fn decode_failure(
    bytes: Seq<u8>,
    width: u32,
    height: u32,
    format: BcFormat,
    commands: Option<Vec<(u8, u8)>>,
    prev_info: Option<(Vec<u8>, u32, u32, i32, i32)>,
    e: CodecError,
) -> bool {
    let gw = pixels_to_blocks(width as int);
    let gh = pixels_to_blocks(height as int);
    let bs = block_size_of(format);
    let data = rebuilt(bytes, width, height, format, commands, prev_info);
    match e {
        CodecError::TooLarge => commands is Some && gw * gh * bs > u64::MAX,
        CodecError::Delta(d) => commands is Some && gw * gh * bs <= u64::MAX && decoded(commands->Some_0@, bytes,
            gw, gh, bs, sentinel_of(format), prev_grid_opt(prev_info)) == Err::<Seq<u8>, DeltaError>(d),
        CodecError::DecompressionFailed => data is Some && !bc_decodes(width, height, format, data->Some_0),
        CodecError::PngFailed => data is Some && bc_decodes(width, height, format, data->Some_0) && !png_writes(
            width,
            height,
            bc_decompressed(width, height, format, data->Some_0),
        ),
        _ => false,
    }
}

/// Rebuilds the block data of an image `width` x `height` (from delta
/// commands when given, else `bytes` as they are), decompresses it and
/// returns the PNG file with the block data.
pub fn decode(
    bytes: Vec<u8>,
    width: u32,
    height: u32,
    format: BcFormat,
    commands: Option<Vec<(u8, u8)>>,
    prev_info: Option<(Vec<u8>, u32, u32, i32, i32)>,
) -> (r: Result<(Vec<u8>, Vec<u8>), CodecError>)
    ensures
        r is Ok ==> decoded_as(bytes@, width, height, format, commands, prev_info, r->Ok_0),
        r is Err ==> decode_failure(bytes@, width, height, format, commands, prev_info, r->Err_0),
{
    let data = match commands {
        None => bytes,
        Some(cmds) => {
            let block_width = ((width as u64 + 3) / 4) as u32;
            let block_height = ((height as u64 + 3) / 4) as u32;
            let bs = block_size(format);
            assert(block_width * block_height <= 0x1_0000_0000 * 0x1_0000_0000 && block_width * block_height * bs
                <= 0x1_0000_0000 * 0x1_0000_0000 * 16) by (nonlinear_arith)
                requires
                    block_width <= 0xffff_ffff,
                    block_height <= 0xffff_ffff,
                    bs <= 16,
            ;
            if block_width as u128 * block_height as u128 * bs as u128 > u64::MAX as u128 {
                return Err(CodecError::TooLarge);
            }
            let previous = match prev_info {
                None => None,
                Some((blocks, w, h, ox, oy)) => Some(PrevGrid::from_pixels(blocks, w, h, ox, oy)),
            };
            match decode_delta(cmds.as_slice(), bytes.as_slice(), block_width, block_height, format, &previous) {
                Ok(d) => d,
                Err(e) => return Err(CodecError::Delta(e)),
            }
        },
    };
    let rgba = match decompress(width, height, format, data.as_slice()) {
        Ok(p) => p,
        Err(_) => return Err(CodecError::DecompressionFailed),
    };
    let png = match encode_png(width, height, rgba) {
        Ok(p) => p,
        Err(_) => return Err(CodecError::PngFailed),
    };
    Ok((png, data))
}

} // verus!
