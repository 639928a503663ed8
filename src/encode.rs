use image::ImageEncoder;
use vstd::prelude::*;

verus! {

#[verifier::external_type_specification]
#[verifier::external_body]
pub struct ExImageError(image::ImageError);

/// The PNG file that image's encoder makes of a grey image, 8 bits a pixel,
/// of `width` by `height` pixels.
pub uninterp spec fn png_gray_of(pixels: Seq<u8>, width: u32, height: u32) -> Seq<u8>;

/// Relies on image's `PngEncoder::write_image` with `ColorType::L8`, writing
/// into a `Vec`: it panics unless the buffer holds `width * height` bytes,
/// fails exactly when a side is zero (png's `ZeroWidth` / `ZeroHeight`), and
/// the bytes it writes depend on the pixels and the size alone.
#[verifier::external_body]
fn write_png(pixels: &[u8], width: u32, height: u32) -> (r: Result<Vec<u8>, image::ImageError>)
    requires
        pixels@.len() == width * height,
    ensures
        r is Ok <==> (width > 0 && height > 0),
        r matches Ok(b) ==> b@ == png_gray_of(pixels@, width, height),
{
    let mut out: Vec<u8> = Vec::new();
    let encoder = image::codecs::png::PngEncoder::new(&mut out);
    match encoder.write_image(pixels, width, height, image::ColorType::L8) {
        Ok(()) => Ok(out),
        Err(e) => Err(e),
    }
}

/// Why a grey image could not be encoded.
#[derive(Clone, Copy, Debug, PartialEq, Eq, Structural)]
pub enum EncodeError {
    /// A side of the image does not fit in 32 bits, as PNG asks.
    TooLarge,
    /// The buffer does not hold one byte per pixel.
    SizeMismatch,
    /// The encoder refused the image: a side of it is zero.
    Encoder,
}

/// Encodes a grey image of `width` by `height` pixels, one byte each, row
/// by row, as a PNG file. It succeeds exactly when both sides are positive
/// and fit in 32 bits and the buffer holds one byte per pixel.
pub fn encode_gray_png(pixels: &[u8], width: usize, height: usize) -> (r: Result<
    Vec<u8>,
    EncodeError,
>)
    ensures
        (r matches Err(EncodeError::TooLarge)) <==> (width > u32::MAX || height > u32::MAX),
        (r matches Err(EncodeError::SizeMismatch)) <==> (width <= u32::MAX && height <= u32::MAX
            && pixels@.len() != width * height),
        (r matches Err(EncodeError::Encoder)) <==> (width <= u32::MAX && height <= u32::MAX
            && pixels@.len() == width * height && (width == 0 || height == 0)),
        r is Ok <==> (1 <= width <= u32::MAX && 1 <= height <= u32::MAX && pixels@.len() == width
            * height),
        r matches Ok(b) ==> b@ == png_gray_of(pixels@, width as u32, height as u32),
{
    if width > u32::MAX as usize || height > u32::MAX as usize {
        return Err(EncodeError::TooLarge);
    }
    if width.checked_mul(height) != Some(pixels.len()) {
        return Err(EncodeError::SizeMismatch);
    }
    match write_png(pixels, width as u32, height as u32) {
        Ok(bytes) => Ok(bytes),
        Err(_) => Err(EncodeError::Encoder),
    }
}

} // verus!
