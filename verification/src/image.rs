//! The picture as a file: the rendered pixels in the PNG format.
use png::EncodingError;
use vstd::prelude::*;

verus! {

/// The error of the `png` crate's encoder, carried through as an opaque
/// value.
#[verifier::external_type_specification]
#[verifier::external_body]
pub struct ExEncodingError(EncodingError);

/// The bytes of the PNG file that the `png` crate writes for a picture of
/// `width` by `height` pixels of four bytes each, red, green, blue and
/// opacity, at eight bits a channel, with the crate's default compression and
/// filter.
pub uninterp spec fn png_file(width: u32, height: u32, pixels: Seq<u8>) -> Seq<u8>;

/// Why a picture could not be encoded.
#[derive(Clone, Copy, Debug, PartialEq, Eq, Structural)]
pub enum ImageError {
    /// The picture has no pixels: its width or its height is 0.
    Empty,
    /// The buffer does not hold four bytes for every pixel.
    WrongSize,
    /// The encoder gave up. It does not for a picture with pixels and a
    /// buffer of the right size.
    Encoder,
}

/// Runs the `png` crate's encoder over `pixels`: `Encoder::new` on a vector,
/// `set_color` with `ColorType::RGBA`, `set_depth` with `BitDepth::Eight`,
/// `write_header`, `Writer::write_image_data`, and the end of the file when
/// the writer is dropped. What the encoder writes depends on the three
/// arguments alone. The encoder refuses a picture without pixels, a buffer
/// of the wrong size and what the vector it writes to refuses: the first two
/// are left out here, and a vector takes every write, so the call succeeds.
#[verifier::external_body]
fn png_encode(width: u32, height: u32, pixels: &Vec<u8>) -> (r: Result<Vec<u8>, EncodingError>)
    requires
        width > 0,
        height > 0,
        pixels@.len() == 4 * width * height,
    ensures
        r is Ok,
        r matches Ok(file) ==> file@ == png_file(width, height, pixels@),
{
    let mut file = Vec::new();
    let mut encoder = png::Encoder::new(&mut file, width, height);
    encoder.set_color(png::ColorType::RGBA);
    encoder.set_depth(png::BitDepth::Eight);
    let mut writer = encoder.write_header()?;
    writer.write_image_data(pixels)?;
    drop(writer);
    Ok(file)
}

/// What `encode_png` returns for what the encoder returned: the file, or
/// the error `Encoder`.
pub fn encoded(written: Result<Vec<u8>, EncodingError>) -> (r: Result<Vec<u8>, ImageError>)
    ensures
        match written {
            Ok(file) => r == Ok::<Vec<u8>, ImageError>(file),
            Err(_) => r == Err::<Vec<u8>, ImageError>(ImageError::Encoder),
        },
{
    match written {
        Ok(file) => Ok(file),
        Err(_) => Err(ImageError::Encoder),
    }
}

/// The PNG file for a picture of `width` by `height` pixels. `pixels` holds
/// the rows from the top, four bytes to a pixel, as `render` returns them.
/// A picture with pixels and a buffer of the right size is always encoded.
pub fn encode_png(width: u32, height: u32, pixels: &Vec<u8>) -> (r: Result<Vec<u8>, ImageError>)
    ensures
        width == 0 || height == 0 ==> r == Err::<Vec<u8>, ImageError>(ImageError::Empty),
        width > 0 && height > 0 && pixels@.len() != 4 * width * height ==> r == Err::<
            Vec<u8>,
            ImageError,
        >(ImageError::WrongSize),
        width > 0 && height > 0 && pixels@.len() == 4 * width * height ==> (r matches Ok(file)
            && file@ == png_file(width, height, pixels@)),
{
    if width == 0 || height == 0 {
        return Err(ImageError::Empty);
    }
    let row: u128 = 4 * (width as u128);
    assert(row * height == 4 * width * height && row * height <= 0x4_0000_0000_0000_0000)
        by (nonlinear_arith)
        requires
            row == 4 * width,
            width <= 0xffff_ffff,
            height <= 0xffff_ffff,
    ;
    let wanted: u128 = row * (height as u128);
    if pixels.len() as u128 != wanted {
        return Err(ImageError::WrongSize);
    }
    encoded(png_encode(width, height, pixels))
}

} // verus!
