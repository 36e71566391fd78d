//! Images for previews: which files are images, and decoding them within limits.

use crate::paths::{
    ext_among, extensions_follow_the_last_dot, has_ext_among, is_name, is_start,
};
use crate::text::{decimal_string, digits_of, joined, same_ignoring_case, str_texts};
use image::{DynamicImage, ImageDecoder, ImageFormat, ImageReader, Limits};
use vstd::prelude::*;
use vstd::string::*;

verus! {

/// Image preview skips files larger than this (decoding is done in memory).
pub const MAX_IMAGE_BYTES: u64 = 33_554_432;

pub const MAX_IMAGE_PIXELS: u64 = 32_000_000;

pub const MAX_DECODE_BYTES: u64 = 134_217_728;

/// The longest edge of an image that is decoded, in pixels.
pub const MAX_IMAGE_EDGE: u32 = 16_384;

pub open spec fn image_exts() -> Seq<Seq<char>> {
    seq![
        "png"@, "jpg"@, "jpeg"@, "gif"@, "webp"@, "tif"@, "tiff"@, "bmp"@, "ico"@, "qoi"@, "svg"@,
    ]
}

pub fn is_image_path(path: &str) -> (r: bool)
    ensures
        r == ext_among(image_exts(), path@),
{
    let exts: Vec<&'static str> = vec![
        "png", "jpg", "jpeg", "gif", "webp", "tif", "tiff", "bmp", "ico", "qoi", "svg",
    ];
    assert(str_texts(exts@) =~= image_exts());
    has_ext_among(&exts, path)
}

/// Vector art is rasterized.
pub fn is_svg_path(path: &str) -> (r: bool)
    ensures
        r == ext_among(seq!["svg"@], path@),
{
    let exts: Vec<&'static str> = vec!["svg"];
    assert(str_texts(exts@) =~= seq!["svg"@]);
    has_ext_among(&exts, path)
}

/// Whether an image of these dimensions is small enough to decode.
pub fn within_pixel_limit(width: u32, height: u32) -> (r: bool)
    ensures
        r == (width * height <= MAX_IMAGE_PIXELS),
{
    assert(width * height <= 0xffff_ffff * 0xffff_ffff) by (nonlinear_arith)
        requires
            width <= 0xffff_ffff,
            height <= 0xffff_ffff,
    ;
    width as u64 * height as u64 <= MAX_IMAGE_PIXELS
}

// ------------------------------------------------------------------ decoding

/// A decoded image.
#[verifier::external_type_specification]
#[verifier::external_body]
pub struct ExDynamicImage(image::DynamicImage);

/// The image is what the contents of a file decode to, in the format of the path
/// and with the longest edge and the memory that are allowed.
pub uninterp spec fn decodes_to(
    path: Seq<char>,
    data: Seq<u8>,
    edge: u32,
    memory: u64,
    image: image::DynamicImage,
) -> bool;

/// The width and height in the header of an image file, or the text of the
/// error.
pub uninterp spec fn image_header(path: Seq<char>, data: Seq<u8>, edge: u32, memory: u64) -> Result<
    (u32, u32),
    Seq<char>,
>;

/// The text of the error if an image file cannot be decoded.
pub uninterp spec fn image_error(
    path: Seq<char>,
    data: Seq<u8>,
    edge: u32,
    memory: u64,
) -> Option<Seq<char>>;

/// The model of a result that is text on failure.
pub open spec fn header_view(r: Result<(u32, u32), String>) -> Result<(u32, u32), Seq<char>> {
    match r {
        Ok(size) => Ok(size),
        Err(e) => Err(e@),
    }
}

/// `image::ImageDecoder::dimensions` on the decoder that `image::ImageReader`
/// makes of the contents, in the format of the path's extension and within the
/// limits: the dimensions, or else the text of the error, are a function of the
/// four arguments.
#[verifier::external_body]
fn read_header(path: &str, data: &Vec<u8>, edge: u32, memory: u64) -> (r: Result<
    (u32, u32),
    String,
>)
    ensures
        header_view(r) == image_header(path@, data@, edge, memory),
{
    let format = ImageFormat::from_path(path).map_err(|e| e.to_string())?;
    let mut reader = ImageReader::with_format(std::io::Cursor::new(data), format);
    let mut limits = Limits::default();
    limits.max_image_width = Some(edge);
    limits.max_image_height = Some(edge);
    limits.max_alloc = Some(memory);
    reader.limits(limits);
    let decoder = reader.into_decoder().map_err(|e| e.to_string())?;
    Ok(decoder.dimensions())
}

/// `image::DynamicImage::from_decoder` on the decoder that `image::ImageReader`
/// makes of the contents, in the format of the path's extension and within the
/// limits, with room for the pixels reserved first: whether it succeeds, and the
/// text of the error, is a function of the four arguments.
#[verifier::external_body]
fn decode(path: &str, data: &Vec<u8>, edge: u32, memory: u64) -> (r: Result<DynamicImage, String>)
    ensures
        match r {
            Ok(image) => image_error(path@, data@, edge, memory) is None && decodes_to(
                path@,
                data@,
                edge,
                memory,
                image,
            ),
            Err(e) => image_error(path@, data@, edge, memory) == Some(e@),
        },
{
    let format = ImageFormat::from_path(path).map_err(|e| e.to_string())?;
    let mut reader = ImageReader::with_format(std::io::Cursor::new(data), format);
    let mut limits = Limits::default();
    limits.max_image_width = Some(edge);
    limits.max_image_height = Some(edge);
    limits.max_alloc = Some(memory);
    reader.limits(limits.clone());
    let mut decoder = reader.into_decoder().map_err(|e| e.to_string())?;
    limits.reserve(decoder.total_bytes()).map_err(|e| e.to_string())?;
    decoder.set_limits(limits).map_err(|e| e.to_string())?;
    DynamicImage::from_decoder(decoder).map_err(|e| e.to_string())
}

/// Why a file is not read as an image.
pub open spec fn refused(is_file: bool, size: u64, max_bytes: u64) -> Option<Seq<char>> {
    if !is_file {
        Some("not a regular image file"@)
    } else if size > max_bytes {
        Some("image larger than "@ + digits_of((max_bytes / 1_048_576) as nat) + " MiB"@)
    } else {
        None
    }
}

/// Why a file is not read as an image, from what is known before it is read.
pub fn refusal(is_file: bool, size: u64, max_bytes: u64) -> (r: Option<String>)
    ensures
        match r {
            Some(text) => refused(is_file, size, max_bytes) == Some(text@),
            None => refused(is_file, size, max_bytes) is None,
        },
{
    if !is_file {
        Some("not a regular image file".to_owned())
    } else if size > max_bytes {
        let mut text = joined("image larger than ", &decimal_string(max_bytes / 1_048_576));
        text.append(" MiB");
        Some(text)
    } else {
        None
    }
}

/// Why an image with this header is not decoded.
pub open spec fn header_error(header: Result<(u32, u32), Seq<char>>) -> Option<Seq<char>> {
    match header {
        Err(e) => Some(e),
        Ok((width, height)) => if width * height > MAX_IMAGE_PIXELS {
            Some("image exceeds the 32 megapixel preview limit"@)
        } else {
            None
        },
    }
}

/// Refuses an image by its header.
pub fn check_header(header: Result<(u32, u32), String>) -> (r: Option<String>)
    ensures
        match r {
            Some(text) => header_error(header_view(header)) == Some(text@),
            None => header_error(header_view(header)) is None,
        },
{
    match header {
        Err(e) => Some(e),
        Ok((width, height)) => if within_pixel_limit(width, height) {
            None
        } else {
            Some("image exceeds the 32 megapixel preview limit".to_owned())
        },
    }
}

/// A loaded image file.
pub enum Picture {
    Raster(DynamicImage),
    /// vector art, which is resolution-free
    Vector,
}

/// Why the contents of an image file are no picture.
pub open spec fn load_error(path: Seq<char>, data: Seq<u8>, max_bytes: u64) -> Option<Seq<char>> {
    if ext_among(seq!["svg"@], path) {
        if data.len() > max_bytes {
            Some("SVG grew beyond the input-size limit"@)
        } else {
            None
        }
    } else {
        match header_error(image_header(path, data, MAX_IMAGE_EDGE, MAX_DECODE_BYTES)) {
            Some(e) => Some(e),
            None => image_error(path, data, MAX_IMAGE_EDGE, MAX_DECODE_BYTES),
        }
    }
}

/// Decodes the contents of an image file. Vector art is left to the renderer.
pub fn load(path: &str, data: &Vec<u8>, max_bytes: u64) -> (r: Result<Picture, String>)
    ensures
        match r {
            Err(e) => load_error(path@, data@, max_bytes) == Some(e@),
            Ok(picture) => load_error(path@, data@, max_bytes) is None && match picture {
                Picture::Vector => ext_among(seq!["svg"@], path@),
                Picture::Raster(image) => !ext_among(seq!["svg"@], path@) && decodes_to(
                    path@,
                    data@,
                    MAX_IMAGE_EDGE,
                    MAX_DECODE_BYTES,
                    image,
                ),
            },
        },
{
    if is_svg_path(path) {
        if data.len() as u64 > max_bytes {
            return Err("SVG grew beyond the input-size limit".to_owned());
        }
        return Ok(Picture::Vector);
    }
    let header = read_header(path, data, MAX_IMAGE_EDGE, MAX_DECODE_BYTES);
    match check_header(header) {
        Some(e) => Err(e),
        None => match decode(path, data, MAX_IMAGE_EDGE, MAX_DECODE_BYTES) {
            Ok(image) => Ok(Picture::Raster(image)),
            Err(e) => Err(e),
        },
    }
}


// ---------------------------------------------------------------------- laws

/// A file is read as an image where it is a regular file within the limit. Vector
/// art is then taken as it is; anything else has to have a readable header with
/// at most 32 million pixels, and to decode.
pub proof fn images_are_loaded_within_limits(
    path: Seq<char>,
    data: Seq<u8>,
    is_file: bool,
    size: u64,
    max_bytes: u64,
)
    ensures
        refused(is_file, size, max_bytes) is None <==> is_file && size <= max_bytes,
        ext_among(seq!["svg"@], path) ==> (load_error(path, data, max_bytes) is None <==> data.len()
            <= max_bytes),
        !ext_among(seq!["svg"@], path) ==> {
            let header = image_header(path, data, 16_384, 134_217_728);
            load_error(path, data, max_bytes) is None <==> {
                &&& header is Ok
                &&& header->Ok_0.0 * header->Ok_0.1 <= 32_000_000
                &&& image_error(path, data, 16_384, 134_217_728) is None
            }
        },
{
}

/// Images go by the extensions of their names, whatever the case.
pub proof fn images_go_by_their_extensions(dir: Seq<char>, stem: Seq<char>, ext: Seq<char>)
    requires
        is_start(dir),
        stem.len() > 0,
        !ext.contains('.'),
        is_name(stem + seq!['.'] + ext),
        is_name(stem),
    ensures
        ({
            let path = dir + stem + seq!['.'] + ext;
            let is = |e: Seq<char>| same_ignoring_case(ext, e);
            &&& ext_among(seq!["svg"@], path) <==> is("svg"@)
            &&& ext_among(image_exts(), path) <==> is("png"@) || is("jpg"@) || is("jpeg"@) || is(
                "gif"@,
            ) || is("webp"@) || is("tif"@) || is("tiff"@) || is("bmp"@) || is("ico"@) || is(
                "qoi"@,
            ) || is("svg"@)
        }),
{
    extensions_follow_the_last_dot(dir, stem, ext);
    let path = dir + stem + seq!['.'] + ext;
    let one = seq!["svg"@];
    assert(one[0] == "svg"@);
    let all = image_exts();
    assert(all[0] == "png"@ && all[1] == "jpg"@ && all[2] == "jpeg"@ && all[3] == "gif"@ && all[4]
        == "webp"@ && all[5] == "tif"@ && all[6] == "tiff"@ && all[7] == "bmp"@ && all[8] == "ico"@
        && all[9] == "qoi"@ && all[10] == "svg"@);
}

} // verus!
