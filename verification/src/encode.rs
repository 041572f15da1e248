//! Encoding a finished frame. The encoder is the `image` crate's, behind the
//! one function of this file.

use vstd::prelude::*;

verus! {

/// The JPEG file that the `image` crate writes for a frame of `width` by
/// `height` pixels of three bytes each at the given quality, or `None` where
/// it writes none.
pub uninterp spec fn jpeg_bytes(width: u32, height: u32, pixels: Seq<u8>, quality: u8) -> Option<
    Seq<u8>,
>;

/// The widest and the highest frame that a JPEG file holds.
pub const JPEG_MAX_SIDE: u32 = 65535;

/// Whether `len` bytes of pixels make a frame of `width` by `height` that
/// the encoder takes: three bytes for every pixel at least, and neither
/// side longer than a JPEG file can say.
pub open spec fn encodable(width: u32, height: u32, len: nat) -> bool {
    &&& width * height * 3 <= len
    &&& width <= JPEG_MAX_SIDE
    &&& height <= JPEG_MAX_SIDE
}

/// `image::ImageBuffer::from_vec` for RGB pixels, then `ImageBuffer::write_to`
/// into memory as JPEG of the given quality. The file depends on the four
/// arguments alone. `from_vec` gives no buffer where `pixels` has fewer than
/// three bytes for every pixel, and bytes beyond the frame are not looked
/// at; the encoder gives an error where a side is longer than 65535, and in
/// no other case, as it writes into memory.
#[verifier::external_body]
pub(crate) fn encode_jpeg(width: u32, height: u32, pixels: Vec<u8>, quality: u8) -> (file: Option<
    Vec<u8>,
>)
    ensures
        file is Some <==> jpeg_bytes(width, height, pixels@, quality) is Some,
        file matches Some(bytes) ==> jpeg_bytes(width, height, pixels@, quality) == Some(bytes@),
        file is Some <==> encodable(width, height, pixels@.len()),
{
    let frame: image::ImageBuffer<image::Rgb<u8>, Vec<u8>> = image::ImageBuffer::from_vec(
        width,
        height,
        pixels,
    )?;
    let mut file = std::io::Cursor::new(Vec::new());
    frame.write_to(&mut file, image::ImageOutputFormat::Jpeg(quality)).ok()?;
    Some(file.into_inner())
}

} // verus!
