//! RAW photos: which files they are, how their embedded previews are found, and
//! how those become upright pictures.
//!
//! Rather than demosaicing the sensor's data, a RAW photo is shown and scored
//! by the camera's embedded preview (every RAW file carries at least one).

use std::sync::mpsc::channel;

use rawler::decoders::RawDecodeParams;
use rawler::rawsource::RawSource;
use rayon::ThreadPoolBuilder;
use vstd::prelude::*;
use vstd::string::StringSliceAdditionalSpecFns;

use crate::path::{has_extension, has_listed_extension, PhotoPath};
use crate::raster::{
    downsize, fliph, flipped, flipv, is_usable, may_hold, mirrored, oriented, rearranged,
    rotate180, rotate270, rotate90, samples_of, sized, turned_left, turned_over, turned_right,
    ColorPicture, DeepImage, DeepPicture, RgbImage,
};

verus! {

/// File extensions treated as RAW photos. Matched case-insensitively.
pub const RAW_EXTENSIONS: [&'static str; 25] = [
    "cr2", "cr3", "crw", "nef", "nrw", "arw", "srf", "sr2", "orf", "rw2", "raf", "dng", "pef",
    "ptx", "srw", "x3f", "3fr", "erf", "kdc", "mrw", "raw", "mos", "iiq", "rwl", "dcr",
];

/// Whether the path names a RAW photo.
pub open spec fn is_raw(path: Seq<Seq<u8>>) -> bool {
    has_listed_extension(path, RAW_EXTENSIONS@)
}

/// Whether the path names a RAW photo.
pub fn is_raw_file(path: &PhotoPath) -> (r: bool)
    ensures
        r == is_raw(path@),
{
    path.has_extension_in(RAW_EXTENSIONS.as_slice())
}

/// The embedded pictures of a RAW photo.
#[derive(Debug, Clone, Copy, PartialEq, Eq, Structural)]
pub enum Preview {
    Full,
    Reduced,
    Thumbnail,
}

/// The embedded picture that is tried after the given one.
pub open spec fn preview_after(failed: Option<Preview>) -> Option<Preview> {
    match failed {
        None => Some(Preview::Full),
        Some(Preview::Full) => Some(Preview::Reduced),
        Some(Preview::Reduced) => Some(Preview::Thumbnail),
        Some(Preview::Thumbnail) => None,
    }
}

/// The full picture is tried first, then the reduced one, then the thumbnail,
/// and then nothing is left: all are tried, each once.
pub proof fn previews_are_tried_by_size()
    ensures
        preview_after(None) == Some(Preview::Full),
        preview_after(preview_after(None)) == Some(Preview::Reduced),
        preview_after(preview_after(preview_after(None))) == Some(Preview::Thumbnail),
        preview_after(preview_after(preview_after(preview_after(None)))) is None,
{
}

/// Which embedded picture to try next, given the one that was just found
/// missing or unreadable: the largest first.
pub fn next_preview(failed: Option<Preview>) -> (r: Option<Preview>)
    ensures
        r == (match failed {
            None => Some(Preview::Full),
            Some(Preview::Full) => Some(Preview::Reduced),
            Some(Preview::Reduced) => Some(Preview::Thumbnail),
            Some(Preview::Thumbnail) => None,
        }),
        r == preview_after(failed),
{
    match failed {
        None => Some(Preview::Full),
        Some(Preview::Full) => Some(Preview::Reduced),
        Some(Preview::Reduced) => Some(Preview::Thumbnail),
        Some(Preview::Thumbnail) => None,
    }
}

/// What the Exif Orientation tag of a RAW photo asks for; anything but the
/// values 2 to 8 asks for nothing.
pub open spec fn upright_of(c: DeepPicture, orientation: Option<u16>) -> DeepPicture {
    match orientation {
        Some(2) => mirrored(c),
        Some(3) => turned_over(c),
        Some(4) => flipped(c),
        Some(5) => turned_left(mirrored(c)),
        Some(6) => turned_right(c),
        Some(7) => turned_right(mirrored(c)),
        Some(8) => turned_left(c),
        _ => c,
    }
}

/// Rotate/flip `img` per the Exif Orientation tag so it comes out upright. The
/// embedded preview is stored in the sensor's native (landscape) orientation;
/// face detection and the center-crop scoring regions both assume an upright
/// picture.
pub fn apply_exif_orientation(img: DeepImage, orientation: Option<u16>) -> (r: DeepImage)
    requires
        img.wf(),
    ensures
        r.wf(),
        r@ == upright_of(img@, orientation),
{
    match orientation {
        Some(2) => fliph(img),
        Some(3) => rotate180(img),
        Some(4) => flipv(img),
        Some(5) => rotate270(fliph(img)),
        Some(6) => rotate90(img),
        Some(7) => rotate90(fliph(img)),
        Some(8) => rotate270(img),
        _ => img,
    }
}

/// The picture of a RAW photo from its embedded preview: upright, and downsized
/// so neither edge exceeds `max_dim`.
pub open spec fn raw_picture(
    preview: DeepPicture,
    orientation: Option<u16>,
    max_dim: u32,
) -> ColorPicture {
    sized(upright_of(preview, orientation), max_dim)
}

/// The picture of a RAW photo from its embedded preview: upright, and downsized
/// so neither edge exceeds `max_dim`.
pub fn finish_raw(preview: DeepImage, orientation: Option<u16>, max_dim: u32) -> (r: RgbImage)
    requires
        preview.wf(),
        is_usable(preview.width, preview.height, max_dim),
        0 < max_dim,
    ensures
        r.wf(),
        r@ == raw_picture(preview@, orientation, max_dim),
        0 < r.width <= max_dim,
        0 < r.height <= max_dim,
{
    let upright = apply_exif_orientation(preview, orientation);
    downsize(upright, max_dim)
}

/// Why a RAW photo could not be decoded.
#[derive(Debug, PartialEq, Eq)]
pub enum RawError {
    /// It is of no camera or format that is known; why, if there is more to say.
    Unsupported(Option<String>),
    /// It has no embedded preview that can be read.
    NoPreview,
    /// Its preview is empty, or too large for the size that was asked for.
    Unusable,
}

/// What becomes of the embedded preview that was found in a RAW photo.
pub open spec fn finished_raw(
    found: Option<DeepImage>,
    orientation: Option<u16>,
    max_dim: u32,
) -> Result<ColorPicture, RawError> {
    match found {
        None => Err(RawError::NoPreview),
        Some(preview) => if is_usable(preview.width, preview.height, max_dim) {
            Ok(raw_picture(preview@, orientation, max_dim))
        } else {
            Err(RawError::Unusable)
        },
    }
}

/// What is shown of a result.
pub open spec fn shown_raw(r: Result<RgbImage, RawError>) -> Result<ColorPicture, RawError> {
    match r {
        Ok(img) => Ok(img@),
        Err(e) => Err(e),
    }
}

/// Brings the embedded preview that was found in a RAW photo upright and to
/// size.
pub fn finish_raw_found(
    found: Option<DeepImage>,
    orientation: Option<u16>,
    max_dim: u32,
) -> (r: Result<RgbImage, RawError>)
    requires
        0 < max_dim,
        found matches Some(preview) ==> preview.holds(),
    ensures
        shown_raw(r) == finished_raw(found, orientation, max_dim),
        r matches Ok(img) ==> img.wf() && 0 < img.width <= max_dim && 0 < img.height <= max_dim,
{
    let Some(preview) = found else {
        return Err(RawError::NoPreview);
    };
    if preview.can_be_sized(max_dim) {
        Ok(finish_raw(preview.trimmed(), orientation, max_dim))
    } else {
        Err(RawError::Unusable)
    }
}

/// Whether there is a decoder for a file, and otherwise why not, if there is more
/// to say.
pub enum Support {
    Known,
    Unknown(Option<String>),
}

/// `rawler::get_decoder` on the bytes of a file: whether there is a decoder for
/// them, and otherwise why not. For which files there is one is not stated. The
/// call is made in a thread pool of its own: where it panics, as it can on
/// damaged files, there is no decoder, and no reason.
#[verifier::external_body]
fn find_decoder(bytes: &Vec<u8>) -> (r: Support)
{
    let bytes = bytes.clone();
    let (tx, rx) = channel();
    let builder = ThreadPoolBuilder::new().num_threads(1).panic_handler(|_| {});
    let Ok(pool) = builder.build() else { return Support::Unknown(None) };
    pool.spawn(move || {
        let source = RawSource::new_from_slice(&bytes);
        let _ = tx.send(match rawler::get_decoder(&source) {
            Ok(_) => Support::Known,
            Err(e) => Support::Unknown(Some(e.to_string())),
        });
    });
    rx.recv().unwrap_or(Support::Unknown(None))
}

/// `rawler`'s `Decoder::full_image` on the bytes of a RAW photo: the full-size
/// embedded picture, if there is one and it can be read. Which picture that is
/// is not stated: it can depend on the process's environment. The call is made
/// in a thread pool of its own: where it panics, there is none.
#[verifier::external_body]
fn full_image(bytes: &Vec<u8>) -> (r: Option<image::DynamicImage>)
{
    let bytes = bytes.clone();
    let (tx, rx) = channel();
    let builder = ThreadPoolBuilder::new().num_threads(1).panic_handler(|_| {});
    let pool = builder.build().ok()?;
    pool.spawn(move || {
        let source = RawSource::new_from_slice(&bytes);
        let params = RawDecodeParams::default();
        let found = rawler::get_decoder(&source).and_then(|d| d.full_image(&source, &params));
        let _ = tx.send(found.ok().flatten());
    });
    rx.recv().ok().flatten()
}

/// `rawler`'s `Decoder::preview_image` on the bytes of a RAW photo: the reduced
/// embedded picture, if there is one and it can be read. Which picture that is
/// is not stated: it can depend on the process's environment. The call is made
/// in a thread pool of its own: where it panics, there is none.
#[verifier::external_body]
fn preview_image(bytes: &Vec<u8>) -> (r: Option<image::DynamicImage>)
{
    let bytes = bytes.clone();
    let (tx, rx) = channel();
    let builder = ThreadPoolBuilder::new().num_threads(1).panic_handler(|_| {});
    let pool = builder.build().ok()?;
    pool.spawn(move || {
        let source = RawSource::new_from_slice(&bytes);
        let params = RawDecodeParams::default();
        let found = rawler::get_decoder(&source).and_then(|d| d.preview_image(&source, &params));
        let _ = tx.send(found.ok().flatten());
    });
    rx.recv().ok().flatten()
}

/// `rawler`'s `Decoder::thumbnail_image` on the bytes of a RAW photo: the smallest
/// embedded picture, if there is one and it can be read. Which picture that is
/// is not stated: it can depend on the process's environment. The call is made
/// in a thread pool of its own: where it panics, there is none.
#[verifier::external_body]
fn thumbnail_image(bytes: &Vec<u8>) -> (r: Option<image::DynamicImage>)
{
    let bytes = bytes.clone();
    let (tx, rx) = channel();
    let builder = ThreadPoolBuilder::new().num_threads(1).panic_handler(|_| {});
    let pool = builder.build().ok()?;
    pool.spawn(move || {
        let source = RawSource::new_from_slice(&bytes);
        let params = RawDecodeParams::default();
        let found = rawler::get_decoder(&source).and_then(|d| d.thumbnail_image(&source, &params));
        let _ = tx.send(found.ok().flatten());
    });
    rx.recv().ok().flatten()
}

/// `rawler`'s `Decoder::raw_metadata` on the bytes of a RAW photo: the Exif
/// orientation, where there is one and it can be read. Which it is is not
/// stated. The call is made in a thread pool of its own: where it panics, there
/// is none.
#[verifier::external_body]
fn raw_orientation(bytes: &Vec<u8>) -> (r: Option<u16>)
{
    let bytes = bytes.clone();
    let (tx, rx) = channel();
    let builder = ThreadPoolBuilder::new().num_threads(1).panic_handler(|_| {});
    let pool = builder.build().ok()?;
    pool.spawn(move || {
        let source = RawSource::new_from_slice(&bytes);
        let params = RawDecodeParams::default();
        let found = rawler::get_decoder(&source).and_then(|d| d.raw_metadata(&source, &params));
        let _ = tx.send(found.ok().and_then(|m| m.exif.orientation));
    });
    rx.recv().ok().flatten()
}

/// Whether `rawler` can answer that it has a decoder for these bytes, or that it
/// has none for this reason.
pub closed spec fn may_know(bytes: &Vec<u8>, answer: Support) -> bool {
    call_ensures(find_decoder, (bytes,), answer)
}

/// Whether `rawler` can answer that the embedded picture of that kind is
/// `found`.
pub closed spec fn may_answer(
    bytes: &Vec<u8>,
    kind: Preview,
    found: Option<image::DynamicImage>,
) -> bool {
    match kind {
        Preview::Full => call_ensures(full_image, (bytes,), found),
        Preview::Reduced => call_ensures(preview_image, (bytes,), found),
        Preview::Thumbnail => call_ensures(thumbnail_image, (bytes,), found),
    }
}

/// Whether `found` can be read as the embedded picture of that kind.
pub open spec fn may_read(bytes: &Vec<u8>, kind: Preview, found: Option<DeepImage>) -> bool {
    match found {
        None => may_answer(bytes, kind, None),
        Some(img) => exists|picture: image::DynamicImage| #[trigger]
            may_answer(bytes, kind, Some(picture)) && may_hold(picture, img),
    }
}

/// Whether `rawler` can answer that the Exif orientation is this.
pub closed spec fn may_orient(bytes: &Vec<u8>, orientation: Option<u16>) -> bool {
    call_ensures(raw_orientation, (bytes,), orientation)
}

/// Whether all the kinds that are tried before `kind` can be missing or
/// unreadable; before none, all kinds.
pub open spec fn larger_missing(bytes: &Vec<u8>, kind: Option<Preview>) -> bool {
    &&& kind != Some(Preview::Full) ==> may_read(bytes, Preview::Full, None)
    &&& kind == Some(Preview::Thumbnail) || kind is None ==> may_read(bytes, Preview::Reduced, None)
    &&& kind is None ==> may_read(bytes, Preview::Thumbnail, None)
}

/// Whether `found` can be the largest embedded preview that can be read.
pub open spec fn may_find(bytes: &Vec<u8>, found: Option<DeepImage>) -> bool {
    if found is Some {
        exists|kind: Preview| #[trigger]
            may_read(bytes, kind, found) && larger_missing(bytes, Some(kind))
    } else {
        larger_missing(bytes, None)
    }
}

/// The place of a preview in the order in which they are tried, counted from
/// the last.
spec fn tries_left(attempt: Option<Preview>) -> nat {
    match attempt {
        Some(Preview::Full) => 3,
        Some(Preview::Reduced) => 2,
        Some(Preview::Thumbnail) => 1,
        None => 0,
    }
}

/// The largest embedded preview of a RAW photo that can be read.
fn find_preview(bytes: &Vec<u8>) -> (r: Option<DeepImage>)
    ensures
        may_find(bytes, r),
        r matches Some(img) ==> img.holds(),
{
    let mut attempt = next_preview(None);
    loop
        invariant
            larger_missing(bytes, attempt),
        decreases tries_left(attempt),
    {
        let Some(kind) = attempt else {
            return None;
        };
        let found = match kind {
            Preview::Full => full_image(bytes),
            Preview::Reduced => preview_image(bytes),
            Preview::Thumbnail => thumbnail_image(bytes),
        };
        assert(may_answer(bytes, kind, found));
        if let Some(picture) = found {
            let img = samples_of(picture);
            assert(may_read(bytes, kind, Some(img)));
            return Some(img);
        }
        attempt = next_preview(Some(kind));
    }
}

/// What decoding a RAW photo can come to: it is unsupported where `rawler` has
/// no decoder for it, it has no preview where none can be read, and otherwise it
/// is what [`finish_raw_found`] makes of the largest that can and of the
/// orientation.
pub open spec fn may_decode_raw(
    bytes: &Vec<u8>,
    max_dim: u32,
    r: Result<ColorPicture, RawError>,
) -> bool {
    ||| exists|reason: Option<String>| #[trigger]
        may_know(bytes, Support::Unknown(reason)) && r == Err::<ColorPicture, RawError>(
            RawError::Unsupported(reason),
        )
    ||| {
        &&& may_know(bytes, Support::Known)
        &&& may_find(bytes, None)
        &&& r == Err::<ColorPicture, RawError>(RawError::NoPreview)
    }
    ||| {
        &&& may_know(bytes, Support::Known)
        &&& exists|preview: DeepImage, orientation: Option<u16>|
            #![trigger may_find(bytes, Some(preview)), may_orient(bytes, orientation)]
            may_find(bytes, Some(preview)) && may_orient(bytes, orientation) && r == finished_raw(
                Some(preview),
                orientation,
                max_dim,
            )
    }
}

/// Decode a RAW photo to RGB, downsized so neither edge exceeds `max_dim`.
///
/// Rather than demosaicing the sensor's data, this takes the camera's embedded
/// preview: that needs the container format to be recognized, not the sensor to
/// be calibrated. For which bytes there is a decoder, and what previews and
/// what orientation it reads, is up to `rawler`.
pub fn decode_raw(bytes: &Vec<u8>, max_dim: u32) -> (r: Result<RgbImage, RawError>)
    requires
        0 < max_dim,
    ensures
        may_decode_raw(bytes, max_dim, shown_raw(r)),
        r matches Ok(img) ==> img.wf() && 0 < img.width <= max_dim && 0 < img.height <= max_dim,
{
    let answer = find_decoder(bytes);
    assert(may_know(bytes, answer));
    if let Support::Unknown(reason) = answer {
        return Err(RawError::Unsupported(reason));
    }
    let found = find_preview(bytes);
    let orientation: Option<u16> = if found.is_some() {
        raw_orientation(bytes)
    } else {
        None
    };
    assert(found matches Some(preview) ==> may_find(bytes, Some(preview)) && may_orient(
        bytes,
        orientation,
    ));
    finish_raw_found(found, orientation, max_dim)
}

proof fn pixel_moved(
    c: DeepPicture,
    width: int,
    height: int,
    from: spec_fn(int, int) -> (int, int),
    x: int,
    y: int,
    k: int,
)
    requires
        0 <= x < width,
        0 <= y < height,
        0 <= k < 3,
    ensures
        rearranged(c, width, height, from).channel(x, y, k) == c.channel(
            from(x, y).0,
            from(x, y).1,
            k,
        ),
{
    let p = y * width + x;
    assert(0 <= p < width * height) by (nonlinear_arith)
        requires
            p == y * width + x,
            0 <= x < width,
            0 <= y < height,
    ;
    assert(p % width == x && p / width == y) by (nonlinear_arith)
        requires
            p == y * width + x,
            0 <= x < width,
    ;
    assert((3 * p + k) / 3 == p && (3 * p + k) % 3 == k);
}

/// Two pictures of one size are equal if all their pixels are.
proof fn same_pixels(a: DeepPicture, b: DeepPicture)
    requires
        a.width == b.width,
        a.height == b.height,
        a.depth == b.depth,
        a.data.len() == 3 * (a.width * a.height),
        b.data.len() == a.data.len(),
        0 <= a.width,
        0 <= a.height,
        forall|x: int, y: int, k: int|
            0 <= x < a.width && 0 <= y < a.height && 0 <= k < 3 ==> #[trigger] a.channel(x, y, k)
                == b.channel(x, y, k),
    ensures
        a == b,
{
    let w = a.width;
    let h = a.height;
    assert forall|i: int| 0 <= i < a.data.len() implies a.data[i] == b.data[i] by {
        let p = i / 3;
        assert(0 <= p < w * h);
        assert(w > 0 && h > 0) by (nonlinear_arith)
            requires
                0 <= p < w * h,
                0 <= w,
                0 <= h,
        ;
        let x = p % w;
        let y = p / w;
        assert(0 <= x < w && 0 <= y < h && p == y * w + x) by (nonlinear_arith)
            requires
                x == p % w,
                y == p / w,
                0 <= p < w * h,
                w > 0,
        ;
        assert(a.channel(x, y, i % 3) == b.channel(x, y, i % 3));
    }
    assert(a.data =~= b.data);
}

proof fn composed(
    c: DeepPicture,
    w1: int,
    h1: int,
    first: spec_fn(int, int) -> (int, int),
    w2: int,
    h2: int,
    second: spec_fn(int, int) -> (int, int),
    x: int,
    y: int,
    k: int,
)
    requires
        0 <= x < w2,
        0 <= y < h2,
        0 <= k < 3,
        0 <= second(x, y).0 < w1,
        0 <= second(x, y).1 < h1,
    ensures
        rearranged(rearranged(c, w1, h1, first), w2, h2, second).channel(x, y, k) == c.channel(
            first(second(x, y).0, second(x, y).1).0,
            first(second(x, y).0, second(x, y).1).1,
            k,
        ),
{
    pixel_moved(rearranged(c, w1, h1, first), w2, h2, second, x, y, k);
    pixel_moved(c, w1, h1, first, second(x, y).0, second(x, y).1, k);
}

/// RAW and standard photos come upright the same way: the Orientation tag of a
/// RAW photo means what the same value means in a standard photo.
pub proof fn orientations_agree(c: DeepPicture, value: u8)
    requires
        0 <= c.width,
        0 <= c.height,
    ensures
        upright_of(c, Some(value as u16)) == oriented(c, value),
{
    let w = c.width;
    let h = c.height;
    assert(w * h == h * w && w * h >= 0) by (nonlinear_arith)
        requires
            0 <= w,
            0 <= h,
    ;
    let mirror = |x: int, y: int| (w - 1 - x, y);
    let mirror_turned = |x: int, y: int| (h - 1 - x, y);
    let right = |x: int, y: int| (y, h - 1 - x);
    let left = |x: int, y: int| (w - 1 - y, x);
    if value == 5 {
        let a = turned_left(mirrored(c));
        let b = mirrored(turned_right(c));
        assert forall|x: int, y: int, k: int|
            0 <= x < a.width && 0 <= y < a.height && 0 <= k < 3 implies #[trigger] a.channel(x, y, k)
            == b.channel(x, y, k) by {
            composed(c, w, h, mirror, h, w, left, x, y, k);
            composed(c, h, w, right, h, w, mirror_turned, x, y, k);
        }
        same_pixels(a, b);
    }
    if value == 7 {
        let a = turned_right(mirrored(c));
        let b = mirrored(turned_left(c));
        assert forall|x: int, y: int, k: int|
            0 <= x < a.width && 0 <= y < a.height && 0 <= k < 3 implies #[trigger] a.channel(x, y, k)
            == b.channel(x, y, k) by {
            composed(c, w, h, mirror, h, w, right, x, y, k);
            composed(c, h, w, left, h, w, mirror_turned, x, y, k);
        }
        same_pixels(a, b);
    }
}

/// Where the pixel in column `x`, row `y` goes under each Exif orientation: 2
/// mirrors left to right, 3 turns half round, 4 mirrors top to bottom, 5 swaps
/// columns and rows, 6 turns right, 7 swaps columns and rows from the far
/// corner, 8 turns left; any other value leaves the picture as it is.
pub proof fn orientations_move_pixels(c: DeepPicture, x: int, y: int, k: int)
    requires
        0 <= x < c.width,
        0 <= y < c.height,
        0 <= k < 3,
    ensures
        ({
            let (w, h) = (c.width, c.height);
            let v = c.data[3 * (y * w + x) + k];
            &&& oriented(c, 2).data[3 * (y * w + (w - 1 - x)) + k] == v
            &&& oriented(c, 3).data[3 * ((h - 1 - y) * w + (w - 1 - x)) + k] == v
            &&& oriented(c, 4).data[3 * ((h - 1 - y) * w + x) + k] == v
            &&& oriented(c, 5).data[3 * (x * h + y) + k] == v
            &&& oriented(c, 6).data[3 * (x * h + (h - 1 - y)) + k] == v
            &&& oriented(c, 7).data[3 * ((w - 1 - x) * h + (h - 1 - y)) + k] == v
            &&& oriented(c, 8).data[3 * ((w - 1 - x) * h + y) + k] == v
        }),
        forall|value: u8|
            #![trigger oriented(c, value)]
            {
                let o = oriented(c, value);
                &&& value < 2 || value > 8 ==> o == c
                &&& 2 <= value <= 4 ==> o.width == c.width && o.height == c.height
                &&& 5 <= value <= 8 ==> o.width == c.height && o.height == c.width
                &&& o.depth == c.depth
            },
{
    let (w, h) = (c.width, c.height);
    let mirror = |x: int, y: int| (w - 1 - x, y);
    let over = |x: int, y: int| (w - 1 - x, h - 1 - y);
    let flip = |x: int, y: int| (x, h - 1 - y);
    let right = |x: int, y: int| (y, h - 1 - x);
    let left = |x: int, y: int| (w - 1 - y, x);
    let mirror_turned = |x: int, y: int| (h - 1 - x, y);
    pixel_moved(c, w, h, mirror, w - 1 - x, y, k);
    pixel_moved(c, w, h, over, w - 1 - x, h - 1 - y, k);
    pixel_moved(c, w, h, flip, x, h - 1 - y, k);
    pixel_moved(c, h, w, right, h - 1 - y, x, k);
    pixel_moved(c, h, w, left, y, w - 1 - x, k);
    composed(c, h, w, right, h, w, mirror_turned, y, x, k);
    composed(c, h, w, left, h, w, mirror_turned, h - 1 - y, w - 1 - x, k);
}

/// A RAW photo is shown by its preview, upright as the Orientation tag asks
/// (or as it is without one) and to size; it is unusable exactly if its preview
/// is.
pub proof fn raw_photos_come_upright(
    preview: DeepImage,
    orientation: Option<u8>,
    max_dim: u32,
)
    requires
        0 <= preview@.width,
        0 <= preview@.height,
    ensures
        ({
            let usable = 0 < preview.width && 0 < preview.height && (preview.width <= max_dim
                && preview.height <= max_dim || max_dim <= 1_048_576);
            let tag = match orientation {
                Some(value) => Some(value as u16),
                None => None,
            };
            let upright = match orientation {
                Some(value) => oriented(preview@, value),
                None => preview@,
            };
            &&& usable ==> finished_raw(Some(preview), tag, max_dim) == Ok::<
                ColorPicture,
                RawError,
            >(sized(upright, max_dim))
            &&& !usable ==> finished_raw(Some(preview), tag, max_dim) == Err::<
                ColorPicture,
                RawError,
            >(RawError::Unusable)
            &&& finished_raw(None, tag, max_dim) == Err::<ColorPicture, RawError>(
                RawError::NoPreview,
            )
        }),
{
    if let Some(value) = orientation {
        orientations_agree(preview@, value);
    }
}

/// A smaller preview stands in only where every larger one is missing or cannot
/// be read: the reduced one for the full one, the thumbnail for both; and a
/// photo has none where all three are.
pub proof fn smaller_previews_stand_in(bytes: &Vec<u8>, found: Option<DeepImage>)
    requires
        may_find(bytes, found),
    ensures
        found is Some ==> {
            ||| may_read(bytes, Preview::Full, found)
            ||| may_read(bytes, Preview::Reduced, found) && may_read(bytes, Preview::Full, None)
            ||| {
                &&& may_read(bytes, Preview::Thumbnail, found)
                &&& may_read(bytes, Preview::Full, None)
                &&& may_read(bytes, Preview::Reduced, None)
            }
        },
        found is None ==> {
            &&& may_read(bytes, Preview::Full, None)
            &&& may_read(bytes, Preview::Reduced, None)
            &&& may_read(bytes, Preview::Thumbnail, None)
        },
{
    if found is Some {
        let kind = choose|kind: Preview| #[trigger]
            may_read(bytes, kind, found) && larger_missing(bytes, Some(kind));
        match kind {
            Preview::Full => {},
            Preview::Reduced => {},
            Preview::Thumbnail => {},
        }
    }
}

/// A RAW photo that comes out was known to `rawler` and had a preview; without
/// any preview it comes out as lacking one, never as a picture.
pub proof fn raw_photos_need_a_preview(
    bytes: &Vec<u8>,
    max_dim: u32,
    r: Result<ColorPicture, RawError>,
)
    requires
        may_decode_raw(bytes, max_dim, r),
    ensures
        r is Ok ==> may_know(bytes, Support::Known) && exists|preview: DeepImage|
            #[trigger] may_find(bytes, Some(preview)) && 0 < preview.width && 0 < preview.height,
        r == Err::<ColorPicture, RawError>(RawError::NoPreview) ==> may_find(bytes, None),
{
}

/// A file is a RAW photo exactly if its extension is one of these, in any case.
pub proof fn raw_formats_are_known_by_name(path: Seq<Seq<u8>>)
    ensures
        is_raw(path) <==> ({
            ||| has_extension(path, "cr2".spec_bytes())
            ||| has_extension(path, "cr3".spec_bytes())
            ||| has_extension(path, "crw".spec_bytes())
            ||| has_extension(path, "nef".spec_bytes())
            ||| has_extension(path, "nrw".spec_bytes())
            ||| has_extension(path, "arw".spec_bytes())
            ||| has_extension(path, "srf".spec_bytes())
            ||| has_extension(path, "sr2".spec_bytes())
            ||| has_extension(path, "orf".spec_bytes())
            ||| has_extension(path, "rw2".spec_bytes())
            ||| has_extension(path, "raf".spec_bytes())
            ||| has_extension(path, "dng".spec_bytes())
            ||| has_extension(path, "pef".spec_bytes())
            ||| has_extension(path, "ptx".spec_bytes())
            ||| has_extension(path, "srw".spec_bytes())
            ||| has_extension(path, "x3f".spec_bytes())
            ||| has_extension(path, "3fr".spec_bytes())
            ||| has_extension(path, "erf".spec_bytes())
            ||| has_extension(path, "kdc".spec_bytes())
            ||| has_extension(path, "mrw".spec_bytes())
            ||| has_extension(path, "raw".spec_bytes())
            ||| has_extension(path, "mos".spec_bytes())
            ||| has_extension(path, "iiq".spec_bytes())
            ||| has_extension(path, "rwl".spec_bytes())
            ||| has_extension(path, "dcr".spec_bytes())
        }),
{
    let list = RAW_EXTENSIONS@;
    assert(list.len() == 25);
    assert(list[0] == "cr2");
    assert(list[1] == "cr3");
    assert(list[2] == "crw");
    assert(list[3] == "nef");
    assert(list[4] == "nrw");
    assert(list[5] == "arw");
    assert(list[6] == "srf");
    assert(list[7] == "sr2");
    assert(list[8] == "orf");
    assert(list[9] == "rw2");
    assert(list[10] == "raf");
    assert(list[11] == "dng");
    assert(list[12] == "pef");
    assert(list[13] == "ptx");
    assert(list[14] == "srw");
    assert(list[15] == "x3f");
    assert(list[16] == "3fr");
    assert(list[17] == "erf");
    assert(list[18] == "kdc");
    assert(list[19] == "mrw");
    assert(list[20] == "raw");
    assert(list[21] == "mos");
    assert(list[22] == "iiq");
    assert(list[23] == "rwl");
    assert(list[24] == "dcr");
    if is_raw(path) {
        let i = choose|i: int|
            0 <= i < list.len() && has_extension(path, #[trigger] list[i].spec_bytes());
        assert(has_extension(path, list[i].spec_bytes()));
    }
}

} // verus!
