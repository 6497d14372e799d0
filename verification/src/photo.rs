//! Which files are photos, and how decoded pictures are brought upright and to
//! size.

use std::sync::mpsc::channel;

use image::{DynamicImage, ImageDecoder, ImageFormat, ImageReader};
use rayon::ThreadPoolBuilder;
use vstd::prelude::*;
use vstd::string::StringSliceAdditionalSpecFns;

use crate::path::{extension_of, has_extension, has_listed_extension, PhotoPath};
use crate::raster::{
    apply_orientation, downsize, is_usable, may_hold, oriented, samples_of, sized, ColorPicture,
    DeepImage, DeepPicture, RgbImage,
};
use crate::raw::{decode_raw, is_raw, is_raw_file, may_decode_raw, RawError};

verus! {

/// Standard (already demosaiced) picture formats, matched case-insensitively.
pub const STANDARD_EXTENSIONS: [&'static str; 7] = [
    "png",
    "jpg",
    "jpeg",
    "tif",
    "tiff",
    "bmp",
    "webp",
];

/// Whether the path names a picture in a standard format.
pub open spec fn is_standard(path: Seq<Seq<u8>>) -> bool {
    has_listed_extension(path, STANDARD_EXTENSIONS@)
}

/// Whether the path names a picture in a standard format.
pub fn is_standard_image(path: &PhotoPath) -> (r: bool)
    ensures
        r == is_standard(path@),
{
    path.has_extension_in(STANDARD_EXTENSIONS.as_slice())
}

/// Any photo format that can be decoded: RAW or standard.
pub fn is_supported_photo(path: &PhotoPath) -> (r: bool)
    ensures
        r == (is_raw(path@) || is_standard(path@)),
{
    is_raw_file(path) || is_standard_image(path)
}

/// The Exif orientation that holds where none could be read: the picture is
/// upright.
pub const UPRIGHT: u8 = 1;

/// The picture of a standard photo from its decoded pixels and its Exif
/// orientation: upright, and downsized so neither edge exceeds `max_dim`.
pub open spec fn photo_picture(
    decoded: DeepPicture,
    exif: Option<u8>,
    max_dim: u32,
) -> ColorPicture {
    let value = match exif {
        Some(value) => value,
        None => UPRIGHT,
    };
    sized(oriented(decoded, value), max_dim)
}

/// The picture of a standard photo from its decoded pixels and its Exif
/// orientation: upright, and downsized so neither edge exceeds `max_dim`.
pub fn finish_standard(decoded: DeepImage, exif: Option<u8>, max_dim: u32) -> (r: RgbImage)
    requires
        decoded.wf(),
        is_usable(decoded.width, decoded.height, max_dim),
        0 < max_dim,
    ensures
        r.wf(),
        r@ == photo_picture(decoded@, exif, max_dim),
        0 < r.width <= max_dim,
        0 < r.height <= max_dim,
{
    let value: u8 = match exif {
        Some(value) => value,
        None => UPRIGHT,
    };
    let upright = apply_orientation(decoded, value);
    downsize(upright, max_dim)
}

/// `image::ImageReader::into_decoder` on bytes in the format that
/// `image::ImageFormat::from_extension` gives: whether that makes a decoder.
/// Which bytes do is not stated. The call is made in a thread pool of its own:
/// where it panics, there is none.
#[verifier::external_body]
fn recognize(bytes: &Vec<u8>, extension: &Vec<u8>) -> (r: bool)
{
    let bytes = std::io::Cursor::new(bytes.clone());
    let extension = String::from_utf8_lossy(extension).into_owned();
    let (tx, rx) = channel();
    let builder = ThreadPoolBuilder::new().num_threads(1).panic_handler(|_| {});
    let Ok(pool) = builder.build() else { return false };
    pool.spawn(move || {
        let Some(format) = ImageFormat::from_extension(extension) else { return };
        let _ = tx.send(ImageReader::with_format(bytes, format).into_decoder().is_ok());
    });
    rx.recv().unwrap_or(false)
}

/// `image::DynamicImage::from_decoder` on the decoder of those bytes: the
/// picture, if it can be decoded. What each format holds is not stated. The call
/// is made in a thread pool of its own: where it panics, there is none.
#[verifier::external_body]
fn decode(bytes: &Vec<u8>, extension: &Vec<u8>) -> (r: Option<image::DynamicImage>)
{
    let bytes = std::io::Cursor::new(bytes.clone());
    let extension = String::from_utf8_lossy(extension).into_owned();
    let (tx, rx) = channel();
    let builder = ThreadPoolBuilder::new().num_threads(1).panic_handler(|_| {});
    let pool = builder.build().ok()?;
    pool.spawn(move || {
        let Some(format) = ImageFormat::from_extension(extension) else { return };
        let decoder = ImageReader::with_format(bytes, format).into_decoder();
        let _ = tx.send(decoder.and_then(DynamicImage::from_decoder).ok());
    });
    rx.recv().ok().flatten()
}

/// `image::ImageDecoder::orientation` on the decoder of those bytes: the Exif
/// value of the orientation, if it can be read. Which it is is not stated. The
/// call is made in a thread pool of its own: where it panics, there is none.
#[verifier::external_body]
fn exif_orientation(bytes: &Vec<u8>, extension: &Vec<u8>) -> (r: Option<u8>)
{
    let bytes = std::io::Cursor::new(bytes.clone());
    let extension = String::from_utf8_lossy(extension).into_owned();
    let (tx, rx) = channel();
    let builder = ThreadPoolBuilder::new().num_threads(1).panic_handler(|_| {});
    let pool = builder.build().ok()?;
    pool.spawn(move || {
        let Some(format) = ImageFormat::from_extension(extension) else { return };
        let decoder = ImageReader::with_format(bytes, format).into_decoder();
        let found = decoder.and_then(|mut d| ImageDecoder::orientation(&mut d));
        let _ = tx.send(found.ok().map(|o| o.to_exif()));
    });
    rx.recv().ok().flatten()
}

/// Why a standard photo could not be decoded.
#[derive(Debug, Clone, Copy, PartialEq, Eq, Structural)]
pub enum PhotoError {
    /// Its name does not tell a picture format, or it is not of that format.
    Unrecognized,
    /// It is damaged.
    Undecodable,
    /// It is empty, or too large for the size that was asked for.
    Unusable,
}

/// What becomes of a decoded photo.
pub open spec fn finished(
    decoded: Option<DeepImage>,
    exif: Option<u8>,
    max_dim: u32,
) -> Result<ColorPicture, PhotoError> {
    match decoded {
        Some(img) => if is_usable(img.width, img.height, max_dim) {
            Ok(photo_picture(img@, exif, max_dim))
        } else {
            Err(PhotoError::Unusable)
        },
        None => Err(PhotoError::Undecodable),
    }
}

/// What is shown of a result.
pub open spec fn shown(r: Result<RgbImage, PhotoError>) -> Result<ColorPicture, PhotoError> {
    match r {
        Ok(img) => Ok(img@),
        Err(e) => Err(e),
    }
}

/// Brings what was decoded of a photo upright and to size.
pub fn finish_decoded(
    decoded: Option<DeepImage>,
    exif: Option<u8>,
    max_dim: u32,
) -> (r: Result<RgbImage, PhotoError>)
    requires
        0 < max_dim,
        decoded matches Some(img) ==> img.holds(),
    ensures
        shown(r) == finished(decoded, exif, max_dim),
        r matches Ok(img) ==> img.wf() && 0 < img.width <= max_dim && 0 < img.height <= max_dim,
{
    let Some(img) = decoded else {
        return Err(PhotoError::Undecodable);
    };
    if img.can_be_sized(max_dim) {
        Ok(finish_standard(img.trimmed(), exif, max_dim))
    } else {
        Err(PhotoError::Unusable)
    }
}

/// Whether `image` can answer that it recognizes these bytes as a picture in
/// the format that a file extension stands for, or that it does not.
pub closed spec fn may_recognize(bytes: &Vec<u8>, extension: Seq<u8>, recognized: bool) -> bool {
    exists|e: Vec<u8>| e@ == extension && call_ensures(recognize, (bytes, &e), recognized)
}

/// Whether `image` can answer that the picture in these bytes is `decoded`.
pub closed spec fn may_answer(
    bytes: &Vec<u8>,
    extension: Seq<u8>,
    decoded: Option<image::DynamicImage>,
) -> bool {
    exists|e: Vec<u8>| e@ == extension && call_ensures(decode, (bytes, &e), decoded)
}

/// Whether `decoded` can be read from these bytes.
pub open spec fn may_decode(
    bytes: &Vec<u8>,
    extension: Seq<u8>,
    decoded: Option<DeepImage>,
) -> bool {
    match decoded {
        None => may_answer(bytes, extension, None),
        Some(img) => exists|picture: image::DynamicImage| #[trigger]
            may_answer(bytes, extension, Some(picture)) && may_hold(picture, img),
    }
}

/// Whether `image` can answer that the Exif orientation of these bytes is this.
pub closed spec fn may_orient(bytes: &Vec<u8>, extension: Seq<u8>, exif: Option<u8>) -> bool {
    exists|e: Vec<u8>| e@ == extension && call_ensures(exif_orientation, (bytes, &e), exif)
}

/// What decoding a standard photo can come to: it is unrecognized where its
/// name has no extension or `image` does not recognize the bytes, and otherwise
/// what [`finish_decoded`] makes of what is decoded.
pub open spec fn may_decode_standard(
    bytes: &Vec<u8>,
    extension: Option<Seq<u8>>,
    max_dim: u32,
    r: Result<ColorPicture, PhotoError>,
) -> bool {
    match extension {
        None => r == Err::<ColorPicture, PhotoError>(PhotoError::Unrecognized),
        Some(e) => {
            ||| {
                &&& may_recognize(bytes, e, false)
                &&& r == Err::<ColorPicture, PhotoError>(PhotoError::Unrecognized)
            }
            ||| {
                &&& may_recognize(bytes, e, true)
                &&& exists|decoded: Option<DeepImage>, exif: Option<u8>|
                    #![trigger may_decode(bytes, e, decoded), may_orient(bytes, e, exif)]
                    may_decode(bytes, e, decoded) && may_orient(bytes, e, exif) && r == finished(
                        decoded,
                        exif,
                        max_dim,
                    )
            }
        },
    }
}

/// Decode a standard-format photo to RGB, downsized so neither edge exceeds
/// `max_dim`, with its Exif orientation applied. The extension of the file says
/// what format its bytes are in; what they hold is up to `image`.
pub fn decode_standard(path: &PhotoPath, bytes: &Vec<u8>, max_dim: u32) -> (r: Result<
    RgbImage,
    PhotoError,
>)
    requires
        0 < max_dim,
    ensures
        may_decode_standard(bytes, extension_of(path@), max_dim, shown(r)),
        r matches Ok(img) ==> img.wf() && 0 < img.width <= max_dim && 0 < img.height <= max_dim,
{
    let Some(extension) = path.extension() else {
        return Err(PhotoError::Unrecognized);
    };
    let recognized = recognize(bytes, &extension);
    assert(may_recognize(bytes, extension@, recognized));
    if !recognized {
        return Err(PhotoError::Unrecognized);
    }
    let exif = exif_orientation(bytes, &extension);
    assert(may_orient(bytes, extension@, exif));
    let answer = decode(bytes, &extension);
    assert(may_answer(bytes, extension@, answer));
    let decoded = match answer {
        Some(picture) => Some(samples_of(picture)),
        None => None,
    };
    assert(may_decode(bytes, extension@, decoded));
    finish_decoded(decoded, exif, max_dim)
}

/// Why a photo could not be decoded: what the decoder of its kind says.
#[derive(Debug, PartialEq, Eq)]
pub enum DecodeError {
    Raw(RawError),
    Standard(PhotoError),
}

/// What decoding a photo can come to: what the RAW decoder gives if the path
/// names a RAW photo, and what the standard decoder gives otherwise.
pub open spec fn may_decode_photo(
    path: Seq<Seq<u8>>,
    bytes: &Vec<u8>,
    max_dim: u32,
    r: Result<RgbImage, DecodeError>,
) -> bool {
    if is_raw(path) {
        match r {
            Ok(img) => may_decode_raw(bytes, max_dim, Ok(img@)),
            Err(DecodeError::Raw(e)) => may_decode_raw(bytes, max_dim, Err(e)),
            Err(DecodeError::Standard(_)) => false,
        }
    } else {
        let extension = extension_of(path);
        match r {
            Ok(img) => may_decode_standard(bytes, extension, max_dim, Ok(img@)),
            Err(DecodeError::Standard(e)) => may_decode_standard(bytes, extension, max_dim, Err(e)),
            Err(DecodeError::Raw(_)) => false,
        }
    }
}

/// Decode any supported photo (RAW or standard format) to RGB, downsized so
/// neither edge exceeds `max_dim`.
pub fn decode_photo(path: &PhotoPath, bytes: &Vec<u8>, max_dim: u32) -> (r: Result<
    RgbImage,
    DecodeError,
>)
    requires
        0 < max_dim,
    ensures
        r matches Ok(img) ==> img.wf() && 0 < img.width <= max_dim && 0 < img.height <= max_dim,
        may_decode_photo(path@, bytes, max_dim, r),
{
    if is_raw_file(path) {
        match decode_raw(bytes, max_dim) {
            Ok(img) => Ok(img),
            Err(e) => Err(DecodeError::Raw(e)),
        }
    } else {
        match decode_standard(path, bytes, max_dim) {
            Ok(img) => Ok(img),
            Err(e) => Err(DecodeError::Standard(e)),
        }
    }
}

/// A standard photo is shown upright as its Exif orientation asks (or as it is
/// without one) and to size; it is unusable exactly if it is empty or cannot be
/// brought to that size, and undecodable exactly if nothing could be decoded.
pub proof fn standard_photos_come_upright(img: DeepImage, exif: Option<u8>, max_dim: u32)
    ensures
        ({
            let usable = 0 < img.width && 0 < img.height && (img.width <= max_dim && img.height
                <= max_dim || max_dim <= 1_048_576);
            let upright = match exif {
                Some(value) => oriented(img@, value),
                None => img@,
            };
            &&& usable ==> finished(Some(img), exif, max_dim) == Ok::<ColorPicture, PhotoError>(
                sized(upright, max_dim),
            )
            &&& !usable ==> finished(Some(img), exif, max_dim) == Err::<ColorPicture, PhotoError>(
                PhotoError::Unusable,
            )
            &&& finished(None, exif, max_dim) == Err::<ColorPicture, PhotoError>(
                PhotoError::Undecodable,
            )
        }),
{
}

/// A file without an extension is not recognized, whatever it holds; and one
/// that comes out was recognized as a picture of the format that its extension
/// stands for.
pub proof fn extensions_tell_the_format(
    bytes: &Vec<u8>,
    e: Seq<u8>,
    max_dim: u32,
    r: Result<ColorPicture, PhotoError>,
)
    ensures
        may_decode_standard(bytes, None, max_dim, r) <==> r == Err::<ColorPicture, PhotoError>(
            PhotoError::Unrecognized,
        ),
        may_decode_standard(bytes, Some(e), max_dim, r) && r != Err::<ColorPicture, PhotoError>(
            PhotoError::Unrecognized,
        ) ==> may_recognize(bytes, e, true),
        may_decode_standard(bytes, Some(e), max_dim, r) && r == Err::<ColorPicture, PhotoError>(
            PhotoError::Unrecognized,
        ) ==> may_recognize(bytes, e, false),
{
}

/// A photo is decoded by the decoder of its kind: one whose name tells a RAW
/// format fails only as RAW photos do, any other only as standard photos do.
pub proof fn photos_decode_by_their_kind(
    path: Seq<Seq<u8>>,
    bytes: &Vec<u8>,
    max_dim: u32,
    img: RgbImage,
    standard: PhotoError,
    raw: RawError,
)
    ensures
        is_raw(path) ==> {
            &&& may_decode_photo(path, bytes, max_dim, Ok(img)) <==> may_decode_raw(
                bytes,
                max_dim,
                Ok(img@),
            )
            &&& may_decode_photo(path, bytes, max_dim, Err(DecodeError::Raw(raw)))
                <==> may_decode_raw(bytes, max_dim, Err(raw))
            &&& !may_decode_photo(path, bytes, max_dim, Err(DecodeError::Standard(standard)))
        },
        !is_raw(path) ==> {
            &&& may_decode_photo(path, bytes, max_dim, Ok(img)) <==> may_decode_standard(
                bytes,
                extension_of(path),
                max_dim,
                Ok(img@),
            )
            &&& may_decode_photo(path, bytes, max_dim, Err(DecodeError::Standard(standard)))
                <==> may_decode_standard(bytes, extension_of(path), max_dim, Err(standard))
            &&& !may_decode_photo(path, bytes, max_dim, Err(DecodeError::Raw(raw)))
        },
{
}

/// A file is a standard photo exactly if its extension is one of these, in any
/// case.
pub proof fn standard_formats_are_known_by_name(path: Seq<Seq<u8>>)
    ensures
        is_standard(path) <==> ({
            ||| has_extension(path, "png".spec_bytes())
            ||| has_extension(path, "jpg".spec_bytes())
            ||| has_extension(path, "jpeg".spec_bytes())
            ||| has_extension(path, "tif".spec_bytes())
            ||| has_extension(path, "tiff".spec_bytes())
            ||| has_extension(path, "bmp".spec_bytes())
            ||| has_extension(path, "webp".spec_bytes())
        }),
{
    let list = STANDARD_EXTENSIONS@;
    assert(list.len() == 7);
    assert(list[0] == "png");
    assert(list[1] == "jpg");
    assert(list[2] == "jpeg");
    assert(list[3] == "tif");
    assert(list[4] == "tiff");
    assert(list[5] == "bmp");
    assert(list[6] == "webp");
    if is_standard(path) {
        let i = choose|i: int|
            0 <= i < list.len() && has_extension(path, #[trigger] list[i].spec_bytes());
        assert(has_extension(path, list[i].spec_bytes()));
    }
}

} // verus!
