//! Reading a PNG file into a luminance grid.
use crate::grid::{GridView, Image};
use vstd::prelude::*;

verus! {

#[verifier::external_type_specification]
#[verifier::external_body]
pub struct ExImageError(image::ImageError);

/// The grayscale form of a PNG file, as width, height and row-major samples,
/// or `None` when the bytes do not decode.
pub uninterp spec fn png_luma(png: Seq<u8>) -> Option<(u32, u32, Seq<u8>)>;

/// Relies on `image::ImageReader::with_format(.., ImageFormat::Png).decode()`
/// followed by `DynamicImage::into_luma8`, `ImageBuffer::dimensions` and
/// `ImageBuffer::into_raw`: the outcome depends on the bytes alone.
#[verifier::external_body]
fn decode_png_luma(png: &[u8]) -> (r: Result<(u32, u32, Vec<u8>), image::ImageError>)
    ensures
        match r {
            Ok((w, h, px)) => png_luma(png@) == Some((w, h, px@)),
            Err(_) => png_luma(png@) is None,
        },
{
    let reader = image::ImageReader::with_format(std::io::Cursor::new(png), image::ImageFormat::Png);
    let luma = reader.decode()?.into_luma8();
    let (w, h) = luma.dimensions();
    Ok((w, h, luma.into_raw()))
}

/// Why a PNG file did not give a grid.
#[derive(Debug, Clone, Copy, PartialEq, Eq, Structural)]
pub enum LoadError {
    /// The bytes are not a PNG file that can be decoded.
    Decode,
    /// The decoded samples do not fill `width * height` exactly.
    Dimensions,
}

/// Decodes a PNG file and turns it into 8-bit luminance samples.
pub fn load_image(png: &[u8]) -> (r: Result<Image, LoadError>)
    ensures
        match png_luma(png@) {
            None => r == Err::<Image, LoadError>(LoadError::Decode),
            Some((w, h, px)) => if px.len() == w as nat * h as nat {
                r matches Ok(img) && img@ == (GridView { width: w, height: h, pixels: px })
            } else {
                r == Err::<Image, LoadError>(LoadError::Dimensions)
            },
        },
{
    match decode_png_luma(png) {
        Err(_) => Err(LoadError::Decode),
        Ok((w, h, px)) => match Image::from_raw(w, h, px) {
            Some(img) => Ok(img),
            None => Err(LoadError::Dimensions),
        },
    }
}

} // verus!
