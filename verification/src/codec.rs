//! Pictures as PNG files, and what is done to them before they are written.

use crate::preview::{least, less, minus_or_zero, smaller};
use crate::raster::{byte_count, copy_rows, Image, Picture};
use crate::text::starts_with;
use image::codecs::png::{CompressionType, FilterType, PngEncoder};
use image::imageops::FilterType as ResizeFilterType;
use image::ImageEncoder;
use vstd::prelude::*;

verus! {

/// The most pixels that are put on the clipboard.
pub const CLIPBOARD_MAX_PIXELS: u64 = 24_000_000;

/// The most rows that are put on the clipboard.
pub const CLIPBOARD_MAX_HEIGHT: u32 = 16_000;

/// The longest side that can be scaled to any shorter one: up to here halves of a pixel can be
/// told apart in single precision.
pub const RESIZE_LIMIT: u32 = 0x80_0000;

/// The longest side to which every longer one can be scaled: up to here each pixel gathers more
/// than single precision can misplace.
pub const RESIZE_TARGET: u32 = 0x8_0000;

/// The most bytes of pixels that are read from a file.
pub const READ_BACK_LIMIT: usize = 0x2000_0000;

/// An error of the crate `image`.
#[verifier::external_type_specification]
#[verifier::external_body]
pub struct ExImageError(image::ImageError);

/// The size and the pixels, of four bytes each, of the picture in an image file; nothing where
/// there is none.
pub uninterp spec fn decoded_rgba8(data: Seq<u8>) -> Option<(u32, u32, Seq<u8>)>;

/// The pixels of a picture scaled to a new size with the triangle filter.
pub uninterp spec fn resized_triangle(
    data: Seq<u8>,
    width: u32,
    height: u32,
    new_width: u32,
    new_height: u32,
) -> Seq<u8>;

/// Calls `image::load_from_memory` and `DynamicImage::to_rgba8`. What they give is a function
/// of the bytes alone, and the pixels given are as many as the size says.
#[verifier::external_body]
fn load_rgba8(data: &[u8]) -> (result: Result<(u32, u32, Vec<u8>), image::ImageError>)
    ensures
        match result {
            Ok((width, height, pixels)) => {
                &&& decoded_rgba8(data@) == Some((width, height, pixels@))
                &&& pixels@.len() == byte_count(width as int, height as int)
            },
            Err(_) => decoded_rgba8(data@) is None,
        },
{
    let image = image::load_from_memory(data)?.to_rgba8();
    Ok((image.width(), image.height(), image.into_raw()))
}

/// Calls `PngEncoder::write_image` with fast compression and no filter on pixels of four bytes.
/// An empty picture is refused, and every other one is written. The format loses nothing: unless
/// the picture is so large that reading it is refused, the file reads back as the same pixels.
/// The bytes of the file are left open, since they may differ from one version of the crate to
/// another and from one processor to another. Where the lengths do not fit, the call panics.
#[verifier::external_body]
fn write_rgba8(pixels: &[u8], width: u32, height: u32) -> (result: Result<
    Vec<u8>,
    image::ImageError,
>)
    requires
        pixels@.len() == byte_count(width as int, height as int),
    ensures
        width == 0 || height == 0 ==> result is Err,
        width > 0 && height > 0 ==> result is Ok,
        result matches Ok(file) ==> pixels@.len() <= READ_BACK_LIMIT ==> decoded_rgba8(file@)
            == Some((width, height, pixels@)),
{
    let mut file = Vec::new();
    PngEncoder::new_with_quality(&mut file, CompressionType::Fast, FilterType::NoFilter)
        .write_image(pixels, width, height, image::ColorType::Rgba8.into())?;
    Ok(file)
}

/// Pixels of three bytes with a fourth that makes them opaque.
pub open spec fn with_alpha(rgb: Seq<u8>) -> Seq<u8> {
    Seq::new(
        (rgb.len() / 3 * 4) as nat,
        |i: int|
            if i % 4 == 3 {
                255u8
            } else {
                rgb[i / 4 * 3 + i % 4]
            },
    )
}

/// Calls `PngEncoder::write_image` with the default compression and adaptive filters on pixels
/// of three bytes. An empty picture is refused, and every other one is written. The format loses
/// nothing: unless the picture is so large that reading it is refused, the file reads back as the
/// same pixels, all of them opaque. The bytes of the file are left open, since they may differ
/// from one version of the crate to another and from one processor to another. Where the lengths
/// do not fit, the call panics.
#[verifier::external_body]
fn write_rgb8(pixels: &[u8], width: u32, height: u32) -> (result: Result<
    Vec<u8>,
    image::ImageError,
>)
    requires
        pixels@.len() == height * (width * 3),
    ensures
        width == 0 || height == 0 ==> result is Err,
        width > 0 && height > 0 ==> result is Ok,
        result matches Ok(file) ==> pixels@.len() <= READ_BACK_LIMIT ==> decoded_rgba8(file@)
            == Some((width, height, with_alpha(pixels@))),
{
    let mut file = Vec::new();
    PngEncoder::new_with_quality(&mut file, CompressionType::Default, FilterType::Adaptive)
        .write_image(pixels, width, height, image::ColorType::Rgb8.into())?;
    Ok(file)
}

/// Whether a side can be scaled down to a new length.
pub open spec fn side_scalable(length: int, new_length: int) -> bool {
    &&& 0 < new_length <= length
    &&& length <= RESIZE_LIMIT || new_length <= RESIZE_TARGET
}

/// Calls `image::imageops::resize` with the triangle filter. What it gives is a function of
/// the pixels and the sizes alone: as many pixels as the new size says, and the same ones where
/// the size stays. Only scaling down is asked for here, and only where its arithmetic, which is
/// in single precision, finds at least one pixel for each new one: elsewhere the weights of the
/// pixels can add up to zero, and the call then panics.
#[verifier::external_body]
fn resize_triangle(
    pixels: &Vec<u8>,
    width: u32,
    height: u32,
    new_width: u32,
    new_height: u32,
) -> (result: Vec<u8>)
    requires
        pixels@.len() == byte_count(width as int, height as int),
        4 * pixels@.len() <= isize::MAX,
        side_scalable(width as int, new_width as int),
        side_scalable(height as int, new_height as int),
    ensures
        result@ == resized_triangle(pixels@, width, height, new_width, new_height),
        result@.len() == byte_count(new_width as int, new_height as int),
        new_width == width && new_height == height ==> result@ == pixels@,
{
    let image = image::RgbaImage::from_raw(width, height, pixels.clone())
        .expect("the pixels fill the image");
    image::imageops::resize(&image, new_width, new_height, ResizeFilterType::Triangle).into_raw()
}

/// What is told of a file that holds no picture.
pub open spec fn decode_failure() -> Seq<char> {
    "failed to decode grim PNG: "@
}

/// The picture in an image file.
pub open spec fn picture_in(file: Seq<u8>) -> Option<Picture> {
    match decoded_rgba8(file) {
        Some((width, height, bytes)) => Some(
            Picture { width: width as nat, height: height as nat, bytes },
        ),
        None => None,
    }
}

/// The image of pixels that were read.
fn image_of(width: u32, height: u32, pixels: Vec<u8>) -> (image: Image)
    requires
        pixels@.len() == byte_count(width as int, height as int),
    ensures
        image@ == (Picture { width: width as nat, height: height as nat, bytes: pixels@ }),
        image@.complete(),
{
    match Image::from_raw(width, height, pixels) {
        Some(image) => image,
        None => Image::new(0, 0),
    }
}

/// The image in a captured file, or what is wrong with it.
pub fn decode_capture(data: &[u8]) -> (result: Result<Image, String>)
    ensures
        match result {
            Ok(image) => picture_in(data@) == Some(image@),
            Err(text) => picture_in(data@) is None && starts_with(text@, decode_failure()),
        },
{
    match load_rgba8(data) {
        Ok((width, height, pixels)) => Ok(image_of(width, height, pixels)),
        Err(error) => {
            let mut text = "failed to decode grim PNG: ".to_owned();
            let told = error.to_string();
            text.append(told.as_str());
            proof {
                assert(text@.take(decode_failure().len() as int) =~= decode_failure());
            }
            Err(text)
        },
    }
}

/// The file that an image is written to.
pub fn encode_png_fast(image: &Image) -> (result: Result<Vec<u8>, String>)
    ensures
        image@.width == 0 || image@.height == 0 ==> result is Err,
        image@.width > 0 && image@.height > 0 ==> result is Ok,
        result matches Ok(file) ==> image@.bytes.len() <= READ_BACK_LIMIT ==> picture_in(file@)
            == Some(image@),
{
    match write_rgba8(image.as_raw().as_slice(), image.width(), image.height()) {
        Ok(file) => Ok(file),
        Err(error) => Err(error.to_string()),
    }
}

/// The colours of a picture without its alpha.
pub open spec fn colors_of(p: Picture) -> Seq<u8> {
    Seq::new((p.bytes.len() / 4 * 3) as nat, |i: int| p.bytes[i / 3 * 4 + i % 3])
}

/// A picture made opaque.
pub open spec fn opaque_of(p: Picture) -> Picture {
    Picture {
        bytes: Seq::new(
            p.bytes.len(),
            |i: int|
                if i % 4 == 3 {
                    255u8
                } else {
                    p.bytes[i]
                },
        ),
        ..p
    }
}

/// The colours of an image without its alpha.
fn rgb_bytes(image: &Image) -> (rgb: Vec<u8>)
    ensures
        rgb@ =~= colors_of(image@),
        rgb@.len() == image@.height * (image@.width * 3),
{
    let raw = image.as_raw();
    let length: usize = raw.len();
    let _ = image.width();
    let ghost p = image@;
    proof {
        let h = p.height;
        let w = p.width;
        assert(h * (w * 4) == (h * w) * 4 && h * (w * 3) == (h * w) * 3) by (nonlinear_arith);
    }
    let mut rgb: Vec<u8> = Vec::new();
    let mut at: usize = 0;
    while at < length
        invariant
            length == raw@.len(),
            length % 4 == 0,
            at % 4 == 0,
            at <= length,
            raw@ == p.bytes,
            rgb@.len() == at / 4 * 3,
            forall|i: int| 0 <= i < rgb@.len() ==> rgb@[i] == p.bytes[i / 3 * 4 + i % 3],
        decreases length - at,
    {
        rgb.push(raw[at]);
        rgb.push(raw[at + 1]);
        rgb.push(raw[at + 2]);
        at += 4;
    }
    rgb
}

/// The smaller file, without alpha, that an image is put on the clipboard as.
pub fn encode_png_compact_rgb(image: &Image) -> (result: Result<Vec<u8>, String>)
    ensures
        image@.width == 0 || image@.height == 0 ==> result is Err,
        image@.width > 0 && image@.height > 0 ==> result is Ok,
        result matches Ok(file) ==> image@.bytes.len() <= READ_BACK_LIMIT ==> picture_in(file@)
            == Some(opaque_of(image@)),
{
    let rgb = rgb_bytes(image);
    let length: usize = image.as_raw().len();
    proof {
        let p = image@;
        let h = p.height;
        let w = p.width;
        assert(h * (w * 4) == (h * w) * 4) by (nonlinear_arith);
        assert(length % 4 == 0);
        assert(with_alpha(rgb@) =~= opaque_of(p).bytes);
    }
    match write_rgb8(rgb.as_slice(), image.width(), image.height()) {
        Ok(file) => Ok(file),
        Err(error) => Err(error.to_string()),
    }
}

/// Whether a picture is too large for the clipboard.
pub open spec fn too_large(p: Picture) -> bool {
    p.width * p.height > CLIPBOARD_MAX_PIXELS || p.height > CLIPBOARD_MAX_HEIGHT
}

/// Whether an image is too large for the clipboard.
pub fn exceeds_clipboard(image: &Image) -> (exceeds: bool)
    ensures
        exceeds == too_large(image@),
{
    let pixels: u64 = crate::preview::wide_product(image.width(), image.height());
    pixels > CLIPBOARD_MAX_PIXELS || image.height() > CLIPBOARD_MAX_HEIGHT
}

/// Whether a picture can be scaled down to a new size.
pub open spec fn scalable(p: Picture, width: int, height: int) -> bool {
    &&& side_scalable(p.width as int, width)
    &&& side_scalable(p.height as int, height)
    &&& 4 * p.bytes.len() <= isize::MAX
}

/// Whether an image can be scaled down to a new size.
pub fn is_scalable(image: &Image, width: u32, height: u32) -> (result: bool)
    ensures
        result == scalable(image@, width as int, height as int),
{
    0 < width && width <= image.width() && (image.width() <= RESIZE_LIMIT || width
        <= RESIZE_TARGET) && 0 < height && height <= image.height() && (image.height()
        <= RESIZE_LIMIT || height <= RESIZE_TARGET) && image.as_raw().len() <= isize::MAX as usize
        / 4
}

/// The image that is put on the clipboard: a copy, or where it is too large, the image scaled
/// down to the given size.
pub fn clipboard_image(image: &Image, width: u32, height: u32) -> (shrunk: Image)
    requires
        too_large(image@) ==> scalable(image@, width as int, height as int),
    ensures
        shrunk@ == if too_large(image@) {
            Picture {
                width: width as nat,
                height: height as nat,
                bytes: resized_triangle(
                    image@.bytes,
                    image@.width as u32,
                    image@.height as u32,
                    width,
                    height,
                ),
            }
        } else {
            image@
        },
{
    if !exceeds_clipboard(image) {
        return image.clone();
    }
    let pixels = resize_triangle(image.as_raw(), image.width(), image.height(), width, height);
    image_of(width, height, pixels)
}

/// The rows of a picture that are left when `top` and `bottom` rows are cropped away, at least
/// one.
pub open spec fn cropped_picture(p: Picture, top: int, bottom: int) -> Picture {
    let first = least(top, less(p.height as int, 1));
    let dropped = least(bottom, less(p.height as int, first + 1));
    if first == 0 && dropped == 0 {
        p
    } else {
        p.band(first, p.height - dropped)
    }
}

/// The rows of an image that are left when `top` and `bottom` rows are cropped away, at least
/// one.
pub fn crop_image_vertical(image: Image, top: u32, bottom: u32) -> (result: Result<Image, String>)
    ensures
        result matches Ok(cropped) && cropped@ == cropped_picture(
            image@,
            top as int,
            bottom as int,
        ) && cropped@.complete(),
{
    let height: u32 = image.height();
    let first: u32 = smaller(top, minus_or_zero(height, 1));
    let dropped: u32 = if first < height {
        smaller(bottom, height - (first + 1))
    } else {
        0
    };
    if first == 0 && dropped == 0 {
        return Ok(image);
    }
    Ok(copy_rows(&image, first, height - dropped))
}

/// Cropping keeps the width and the rows between, and never takes all of them.
pub proof fn lemma_crop_keeps_rows(p: Picture, top: int, bottom: int, x: int, y: int)
    requires
        p.complete(),
        p.height > 0,
        0 <= top,
        0 <= bottom,
        0 <= x < p.width,
        0 <= y < cropped_picture(p, top, bottom).height,
    ensures
        cropped_picture(p, top, bottom).height >= 1,
        cropped_picture(p, top, bottom).width == p.width,
        cropped_picture(p, top, bottom).pixel(x, y) == p.pixel(x, least(top, p.height - 1) + y),
        top + bottom < p.height ==> cropped_picture(p, top, bottom).height == p.height - top
            - bottom,
{
    let first = least(top, p.height - 1);
    let dropped = least(bottom, p.height - (first + 1));
    if !(first == 0 && dropped == 0) {
        crate::raster::lemma_band_pixel(p, first, p.height - dropped, x, y);
    }
}

/// Cropping leaves as many rows as are neither at the top nor at the bottom, and one row where
/// there is none.
pub proof fn lemma_crop_leaves_one(p: Picture, top: int, bottom: int)
    requires
        p.height > 0,
        0 <= top,
        0 <= bottom,
    ensures
        top + bottom < p.height ==> cropped_picture(p, top, bottom).height == p.height - top
            - bottom,
        top + bottom >= p.height ==> cropped_picture(p, top, bottom).height == 1,
        top == 0 && bottom == 0 ==> cropped_picture(p, top, bottom) == p,
{
}

} // verus!
