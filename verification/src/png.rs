//! Images as PNG files.

use std::io::Cursor;

use vstd::prelude::*;

use image::{DynamicImage, ImageBuffer, ImageError, ImageFormat, ImageReader, Luma, Rgba};

verus! {

/// `image::ImageError`, why an image could not be read or written.
#[verifier::external_type_specification]
#[verifier::external_body]
pub struct ExImageError(image::ImageError);

/// The samples that `image::ImageReader::decode` finds in a PNG file; `None`
/// where it finds no image.
pub uninterp spec fn png_samples(file: Seq<u8>) -> Option<Seq<u8>>;

/// The PNG file that `image::DynamicImage::write_to` makes of `w` by `h` pixels
/// of four samples.
pub uninterp spec fn rgba_png(w: u32, h: u32, samples: Seq<u8>) -> Seq<u8>;

/// The PNG file that `image::DynamicImage::write_to` makes of `w` by `h` pixels
/// of one sample.
pub uninterp spec fn luma_png(w: u32, h: u32, samples: Seq<u8>) -> Seq<u8>;

/// The samples of a PNG file, by `image::ImageReader::decode` without limits on
/// the size of the image.
#[verifier::external_body]
pub(crate) fn decode(file: Vec<u8>) -> (r: Result<Vec<u8>, ImageError>)
    ensures
        r is Ok <==> png_samples(file@) is Some,
        r matches Ok(samples) ==> png_samples(file@) == Some(samples@),
{
    let mut reader = ImageReader::new(Cursor::new(file));
    reader.set_format(ImageFormat::Png);
    reader.no_limits();
    Ok(reader.decode()?.into_bytes())
}

/// A PNG file of pixels with four samples each, by
/// `image::DynamicImage::write_to`, which refuses an image without pixels.
/// Decoding the file gives the samples back.
#[verifier::external_body]
pub(crate) fn encode_rgba(w: u32, h: u32, samples: Vec<u8>) -> (r: Result<Vec<u8>, ImageError>)
    requires
        samples@.len() == w * h * 4,
    ensures
        r is Err <==> w == 0 || h == 0,
        r matches Ok(file) ==> {
            &&& file@ == rgba_png(w, h, samples@)
            &&& png_samples(file@) == Some(samples@)
        },
{
    let buffer = ImageBuffer::<Rgba<u8>, Vec<u8>>::from_raw(w, h, samples).unwrap();
    let mut file = Cursor::new(Vec::new());
    DynamicImage::ImageRgba8(buffer).write_to(&mut file, ImageFormat::Png)?;
    Ok(file.into_inner())
}

/// A PNG file of pixels with one sample each, by
/// `image::DynamicImage::write_to`, which refuses an image without pixels.
/// Decoding the file gives the samples back.
#[verifier::external_body]
pub(crate) fn encode_luma(w: u32, h: u32, samples: Vec<u8>) -> (r: Result<Vec<u8>, ImageError>)
    requires
        samples@.len() == w * h,
    ensures
        r is Err <==> w == 0 || h == 0,
        r matches Ok(file) ==> {
            &&& file@ == luma_png(w, h, samples@)
            &&& png_samples(file@) == Some(samples@)
        },
{
    let buffer = ImageBuffer::<Luma<u8>, Vec<u8>>::from_raw(w, h, samples).unwrap();
    let mut file = Cursor::new(Vec::new());
    DynamicImage::ImageLuma8(buffer).write_to(&mut file, ImageFormat::Png)?;
    Ok(file.into_inner())
}

} // verus!
