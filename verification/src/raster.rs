//! Pixel grids held as plain values, and the image operations that the
//! `image` and `imageproc` crates perform on them.

use image::{
    imageops, ColorType, DynamicImage, GenericImageView, ImageBuffer, Pixel, Rgb, Rgb32FImage,
};
use vstd::prelude::*;

verus! {

/// An 8-bit RGB picture: rows from top to bottom, three bytes per pixel.
pub struct RgbImage {
    pub width: u32,
    pub height: u32,
    pub data: Vec<u8>,
}

/// An 8-bit luminance picture: rows from top to bottom, one byte per pixel.
pub struct GrayImage {
    pub width: u32,
    pub height: u32,
    pub data: Vec<u8>,
}

/// The Laplacian of a luminance picture, laid out the same way.
pub struct Laplacian {
    pub width: u32,
    pub height: u32,
    pub data: Vec<i16>,
}

/// The samples of an RGB picture, three per pixel, at the depth they were
/// decoded with.
pub enum Samples {
    Eight(Vec<u8>),
    Sixteen(Vec<u16>),
    /// The bits of single-precision numbers.
    Float(Vec<u32>),
}

/// The depths.
pub enum Depth {
    Eight,
    Sixteen,
    Float,
}

/// An RGB picture of any depth: rows from top to bottom. Samples beyond the
/// last pixel are not part of it.
pub struct DeepImage {
    pub width: u32,
    pub height: u32,
    pub samples: Samples,
}

/// What a luminance picture shows.
pub struct Picture {
    pub width: int,
    pub height: int,
    pub data: Seq<u8>,
}

/// What an RGB picture shows.
pub struct ColorPicture {
    pub width: int,
    pub height: int,
    pub data: Seq<u8>,
}

/// What an RGB picture of any depth shows.
pub struct DeepPicture {
    pub width: int,
    pub height: int,
    pub depth: Depth,
    pub data: Seq<int>,
}

impl View for RgbImage {
    type V = ColorPicture;

    open spec fn view(&self) -> ColorPicture {
        ColorPicture { width: self.width as int, height: self.height as int, data: self.data@ }
    }
}

impl View for GrayImage {
    type V = Picture;

    open spec fn view(&self) -> Picture {
        Picture { width: self.width as int, height: self.height as int, data: self.data@ }
    }
}

impl Samples {
    /// How many samples there are.
    pub open spec fn count(self) -> nat {
        match self {
            Samples::Eight(data) => data@.len(),
            Samples::Sixteen(data) => data@.len(),
            Samples::Float(data) => data@.len(),
        }
    }

    /// Sample `i`.
    pub open spec fn at(self, i: int) -> int {
        match self {
            Samples::Eight(data) => data@[i] as int,
            Samples::Sixteen(data) => data@[i] as int,
            Samples::Float(data) => data@[i] as int,
        }
    }

    /// How deep they are.
    pub open spec fn depth(self) -> Depth {
        match self {
            Samples::Eight(_) => Depth::Eight,
            Samples::Sixteen(_) => Depth::Sixteen,
            Samples::Float(_) => Depth::Float,
        }
    }
}

impl View for DeepImage {
    type V = DeepPicture;

    open spec fn view(&self) -> DeepPicture {
        DeepPicture {
            width: self.width as int,
            height: self.height as int,
            depth: self.samples.depth(),
            data: Seq::new(
                (3 * (self.width * self.height)) as nat,
                |i: int| self.samples.at(i),
            ),
        }
    }
}

impl Picture {
    /// The luminance in column `x`, row `y`.
    pub open spec fn at(self, x: int, y: int) -> u8 {
        self.data[y * self.width + x]
    }
}

impl DeepPicture {
    /// Channel `c` (red, green, blue) of the pixel in column `x`, row `y`.
    pub open spec fn channel(self, x: int, y: int, c: int) -> int {
        self.data[3 * (y * self.width + x) + c]
    }
}

impl ColorPicture {
    /// Channel `c` (red, green, blue) of the pixel in column `x`, row `y`.
    pub open spec fn channel(self, x: int, y: int, c: int) -> u8 {
        self.data[3 * (y * self.width + x) + c]
    }
}

/// The longest side that a picture may be given when it is resampled: up to here
/// the single-precision sample positions stay within the picture. Far beyond it
/// they can miss every pixel, and the resampling panics.
pub const MAX_SIDE: u32 = 1_048_576;

impl RgbImage {
    /// The bytes fill the picture exactly.
    pub open spec fn wf(self) -> bool {
        self.data@.len() == 3 * (self.width * self.height)
    }

    /// The pixels can be counted in 32 bits, as those of a luminance picture
    /// must be.
    pub open spec fn is_countable(self) -> bool {
        self.width * self.height <= u32::MAX
    }

    /// Neither side is longer than [`MAX_SIDE`].
    pub open spec fn can_resample(self) -> bool {
        self.width <= MAX_SIDE && self.height <= MAX_SIDE
    }

    /// Wraps raw bytes, if there are exactly as many as the size asks for.
    pub fn from_raw(width: u32, height: u32, data: Vec<u8>) -> (r: Option<RgbImage>)
        ensures
            r is Some <==> data@.len() == 3 * (width * height),
            r matches Some(img) ==> img.wf() && img.width == width && img.height == height
                && img.data == data,
    {
        assert(width * height <= 0xffff_ffff * 0xffff_ffff) by (nonlinear_arith)
            requires
                width <= 0xffff_ffff,
                height <= 0xffff_ffff,
        ;
        let pixels: u128 = width as u128 * height as u128;
        if data.len() as u128 == 3 * pixels {
            Some(RgbImage { width, height, data })
        } else {
            None
        }
    }
}

impl DeepImage {
    /// There are samples for every pixel.
    pub open spec fn holds(self) -> bool {
        self.samples.count() >= 3 * (self.width * self.height)
    }

    /// The samples fill the picture exactly.
    pub open spec fn wf(self) -> bool {
        self.samples.count() == 3 * (self.width * self.height)
    }

    /// Whether the picture can be brought within `max_dim`.
    pub(crate) fn can_be_sized(&self, max_dim: u32) -> (r: bool)
        ensures
            r == is_usable(self.width, self.height, max_dim),
    {
        let fits = self.width <= max_dim && self.height <= max_dim;
        0 < self.width && 0 < self.height && (fits || max_dim <= MAX_SIDE)
    }

    /// Drops the samples beyond the last pixel.
    pub(crate) fn trimmed(self) -> (r: DeepImage)
        requires
            self.holds(),
        ensures
            r.wf(),
            r@ == self@,
    {
        assert(self.width * self.height <= 0xffff_ffff * 0xffff_ffff) by (nonlinear_arith)
            requires
                self.width <= 0xffff_ffff,
                self.height <= 0xffff_ffff,
        ;
        let pixels: u64 = self.width as u64 * self.height as u64;
        let DeepImage { width, height, samples } = self;
        let samples = match samples {
            Samples::Eight(data) => {
                let mut data = data;
                let size: usize = data.len();
                assert(3 * pixels <= size);
                data.truncate(3 * (pixels as usize));
                Samples::Eight(data)
            },
            Samples::Sixteen(data) => {
                let mut data = data;
                let size: usize = data.len();
                assert(3 * pixels <= size);
                data.truncate(3 * (pixels as usize));
                Samples::Sixteen(data)
            },
            Samples::Float(data) => {
                let mut data = data;
                let size: usize = data.len();
                assert(3 * pixels <= size);
                data.truncate(3 * (pixels as usize));
                Samples::Float(data)
            },
        };
        let r = DeepImage { width, height, samples };
        assert(r@.data =~= self@.data);
        r
    }
}

impl GrayImage {
    /// The bytes fill the picture exactly, and the pixels can be counted in
    /// 32 bits.
    pub open spec fn wf(self) -> bool {
        &&& self.width * self.height <= u32::MAX
        &&& self.data@.len() == self.width * self.height
    }

    /// Wraps raw bytes, if there are exactly as many as the size asks for and
    /// the pixels can be counted in 32 bits.
    pub fn from_raw(width: u32, height: u32, data: Vec<u8>) -> (r: Option<GrayImage>)
        ensures
            r is Some <==> width * height <= u32::MAX && data@.len() == width * height,
            r matches Some(img) ==> img.wf() && img.width == width && img.height == height
                && img.data == data,
    {
        assert(width * height <= 0xffff_ffff * 0xffff_ffff) by (nonlinear_arith)
            requires
                width <= 0xffff_ffff,
                height <= 0xffff_ffff,
        ;
        let pixels: u64 = width as u64 * height as u64;
        if pixels <= 0xffff_ffff && data.len() as u64 == pixels {
            Some(GrayImage { width, height, data })
        } else {
            None
        }
    }
}

impl Laplacian {
    /// The values fill the grid exactly, and can be counted in 32 bits.
    pub open spec fn wf(self) -> bool {
        &&& self.width * self.height <= u32::MAX
        &&& self.data@.len() == self.width * self.height
    }
}

/// The luminance that `image` gives an sRGB pixel.
pub uninterp spec fn luma(r: u8, g: u8, b: u8) -> u8;

/// The bytes that `image` computes when it resamples an RGB picture of
/// `width` by `height` to `new_width` by `new_height` with its triangle
/// filter.
pub uninterp spec fn triangle_resized(
    data: Seq<u8>,
    width: u32,
    height: u32,
    new_width: u32,
    new_height: u32,
) -> Seq<u8>;

/// The width, height and bytes that `image` computes when it resamples an RGB
/// picture at its depth with its triangle filter, to the largest size of the
/// same shape that fits a square of `side`, and takes the result to eight bits.
pub uninterp spec fn triangle_fitted(
    data: Seq<int>,
    width: u32,
    height: u32,
    depth: Depth,
    side: u32,
) -> (u32, u32, Seq<u8>);

/// The level of eight bits that `image` gives a single-precision sample with
/// these bits.
pub uninterp spec fn float_level(bits: u32) -> u8;

/// The luminance picture of an RGB picture: every pixel becomes its luminance.
pub open spec fn gray(c: ColorPicture) -> Picture {
    Picture {
        width: c.width,
        height: c.height,
        data: Seq::new(
            (c.width * c.height) as nat,
            |i: int| luma(c.data[3 * i], c.data[3 * i + 1], c.data[3 * i + 2]),
        ),
    }
}

/// `image::DynamicImage::to_luma8` on an sRGB picture: every pixel becomes a
/// luminance that depends on that pixel alone. The luminance itself is a
/// single-precision weighting that is not spelled out here; how it rounds is
/// settled when the program is built.
#[verifier::external_body]
fn to_luma8(rgb: &RgbImage) -> (r: GrayImage)
    requires
        rgb.wf(),
        rgb.is_countable(),
    ensures
        r.wf(),
        r.width == rgb.width,
        r.height == rgb.height,
        forall|i: int|
            0 <= i < rgb.width * rgb.height ==> #[trigger] r.data@[i] == luma(
                rgb.data@[3 * i],
                rgb.data@[3 * i + 1],
                rgb.data@[3 * i + 2],
            ),
{
    let buffer = image::RgbImage::from_raw(rgb.width, rgb.height, rgb.data.clone()).unwrap();
    let gray = image::DynamicImage::ImageRgb8(buffer).to_luma8();
    GrayImage { width: gray.width(), height: gray.height(), data: gray.into_raw() }
}

/// The luminance picture of `rgb`.
pub fn to_gray(rgb: &RgbImage) -> (r: GrayImage)
    requires
        rgb.wf(),
        rgb.is_countable(),
    ensures
        r.wf(),
        r@ == gray(rgb@),
{
    let r = to_luma8(rgb);
    assert(r@.data =~= gray(rgb@).data);
    r
}

/// `image::imageops::resize` with the triangle filter: a picture of exactly
/// the asked size, whose bytes are a function of the picture and that size; of
/// the size it has, a copy. The weighting of the samples is not spelled out here.
#[verifier::external_body]
pub(crate) fn resize_exact(rgb: &RgbImage, new_width: u32, new_height: u32) -> (r: RgbImage)
    requires
        rgb.wf(),
        rgb.can_resample(),
        0 < new_width <= MAX_SIDE,
        0 < new_height <= MAX_SIDE,
    ensures
        r.wf(),
        r.width == new_width,
        r.height == new_height,
        r.data@ == triangle_resized(rgb.data@, rgb.width, rgb.height, new_width, new_height),
        (new_width, new_height) == (rgb.width, rgb.height) ==> r.data@ == rgb.data@,
{
    let buffer = image::RgbImage::from_raw(rgb.width, rgb.height, rgb.data.clone()).unwrap();
    let filter = imageops::FilterType::Triangle;
    let small = imageops::resize(&buffer, new_width, new_height, filter);
    RgbImage { width: small.width(), height: small.height(), data: small.into_raw() }
}

/// `image::DynamicImage::resize` to a square box with the triangle filter, for
/// a picture that exceeds the box, and `to_rgb8` on the result: neither side
/// exceeds the box, the longer one fills it, and neither vanishes. How the
/// shorter side is rounded and the samples are weighted is not spelled out here.
#[verifier::external_body]
fn resize_to_fit(img: DeepImage, side: u32) -> (r: RgbImage)
    requires
        img.wf(),
        0 < side <= MAX_SIDE,
        side < img.width || side < img.height,
    ensures
        r.wf(),
        0 < r.width <= side,
        0 < r.height <= side,
        img.width >= img.height ==> r.width == side,
        img.height >= img.width ==> r.height == side,
        (r.width, r.height, r.data@) == triangle_fitted(
            img@.data,
            img.width,
            img.height,
            img@.depth,
            side,
        ),
{
    let (w, h) = (img.width, img.height);
    let picture = match img.samples {
        Samples::Eight(v) => ImageBuffer::from_raw(w, h, v).map(DynamicImage::ImageRgb8),
        Samples::Sixteen(v) => ImageBuffer::from_raw(w, h, v).map(DynamicImage::ImageRgb16),
        Samples::Float(v) => {
            let v = v.into_iter().map(
                <<<Rgb32FImage as GenericImageView>::Pixel as Pixel>::Subpixel>::from_bits,
            );
            ImageBuffer::from_raw(w, h, v.collect()).map(DynamicImage::ImageRgb32F)
        },
    };
    let filter = imageops::FilterType::Triangle;
    let fitted = picture.unwrap().resize(side, side, filter).to_rgb8();
    RgbImage { width: fitted.width(), height: fitted.height(), data: fitted.into_raw() }
}

/// The picture that `image` computes when it fits one into a square of `side`.
pub open spec fn fitted_of(p: DeepPicture, side: u32) -> ColorPicture {
    let (width, height, data) = triangle_fitted(
        p.data,
        p.width as u32,
        p.height as u32,
        p.depth,
        side,
    );
    ColorPicture { width: width as int, height: height as int, data }
}

/// A sample as one of eight bits: of sixteen bits, the nearest of the 256 levels.
pub open spec fn eight_bits(v: int, depth: Depth) -> u8 {
    match depth {
        Depth::Eight => v as u8,
        Depth::Sixteen => ((v + 128) / 257) as u8,
        Depth::Float => float_level(v as u32),
    }
}

/// The picture in eight bits.
pub open spec fn rgb8_of(p: DeepPicture) -> ColorPicture {
    ColorPicture {
        width: p.width,
        height: p.height,
        data: p.data.map_values(|v: int| eight_bits(v, p.depth)),
    }
}

/// The picture in eight bits, downsized so neither edge exceeds `max_dim`; one
/// that fits already keeps its size and is not resampled.
pub open spec fn sized(p: DeepPicture, max_dim: u32) -> ColorPicture {
    if p.width <= max_dim && p.height <= max_dim {
        rgb8_of(p)
    } else {
        fitted_of(p, max_dim)
    }
}

/// Whether a picture of this size can be brought within `max_dim`: it is not
/// empty, and it fits already or is not asked to be longer than [`MAX_SIDE`].
pub open spec fn is_usable(width: u32, height: u32, max_dim: u32) -> bool {
    &&& 0 < width
    &&& 0 < height
    &&& width <= max_dim && height <= max_dim || max_dim <= MAX_SIDE
}

/// `image::DynamicImage::to_rgb8` on an RGB picture: eight-bit samples stay,
/// sixteen-bit ones become the nearest level of eight bits, and floating-point
/// ones a level that depends on the sample alone and is not spelled out here.
#[verifier::external_body]
fn to_rgb8(img: DeepImage) -> (r: RgbImage)
    requires
        img.wf(),
    ensures
        r.wf(),
        r.width == img.width,
        r.height == img.height,
        forall|i: int|
            0 <= i < 3 * (img.width * img.height) ==> #[trigger] r.data@[i] == (
            match img.samples {
                Samples::Eight(v) => v@[i],
                Samples::Sixteen(v) => ((v@[i] + 128) / 257) as u8,
                Samples::Float(v) => float_level(v@[i]),
            }),
{
    let (w, h) = (img.width, img.height);
    let picture = match img.samples {
        Samples::Eight(v) => ImageBuffer::from_raw(w, h, v).map(DynamicImage::ImageRgb8),
        Samples::Sixteen(v) => ImageBuffer::from_raw(w, h, v).map(DynamicImage::ImageRgb16),
        Samples::Float(v) => {
            let v = v.into_iter().map(
                <<<Rgb32FImage as GenericImageView>::Pixel as Pixel>::Subpixel>::from_bits,
            );
            ImageBuffer::from_raw(w, h, v.collect()).map(DynamicImage::ImageRgb32F)
        },
    };
    let rgb = picture.unwrap().to_rgb8();
    RgbImage { width: rgb.width(), height: rgb.height(), data: rgb.into_raw() }
}

/// Brings a picture to eight bits and within `max_dim`, keeping its shape.
pub(crate) fn downsize(img: DeepImage, max_dim: u32) -> (r: RgbImage)
    requires
        img.wf(),
        0 < max_dim,
        img.width <= max_dim && img.height <= max_dim || max_dim <= MAX_SIDE,
    ensures
        r.wf(),
        r@ == sized(img@, max_dim),
        r.width <= max_dim,
        r.height <= max_dim,
        0 < img.width && 0 < img.height ==> 0 < r.width && 0 < r.height,
{
    if img.width <= max_dim && img.height <= max_dim {
        let ghost p = img@;
        let r = to_rgb8(img);
        assert(r@.data =~= rgb8_of(p).data);
        r
    } else {
        resize_to_fit(img, max_dim)
    }
}

/// An eight-bit picture among those of any depth.
pub open spec fn deep_of(c: ColorPicture) -> DeepPicture {
    DeepPicture {
        width: c.width,
        height: c.height,
        depth: Depth::Eight,
        data: c.data.map_values(|v: u8| v as int),
    }
}

/// An eight-bit picture that fits already comes out of downsizing as it is.
pub proof fn fitting_pictures_stay(c: ColorPicture, max_dim: u32)
    requires
        c.width <= max_dim,
        c.height <= max_dim,
    ensures
        sized(deep_of(c), max_dim) == c,
{
    assert(rgb8_of(deep_of(c)).data =~= c.data);
}

/// A copy of the picture, downsized so neither edge exceeds `max_dim`.
pub(crate) fn thumbnail(rgb: &RgbImage, max_dim: u32) -> (r: RgbImage)
    requires
        rgb.wf(),
        0 < max_dim <= MAX_SIDE,
    ensures
        r.wf(),
        r@ == sized(deep_of(rgb@), max_dim),
        r.width <= max_dim,
        r.height <= max_dim,
{
    let img = DeepImage {
        width: rgb.width,
        height: rgb.height,
        samples: Samples::Eight(rgb.data.clone()),
    };
    assert(img@.data =~= deep_of(rgb@).data);
    downsize(img, max_dim)
}

/// The rectangle of `w` by `h` pixels whose top left corner is in column `x`,
/// row `y`.
pub open spec fn cropped(p: Picture, x: int, y: int, w: int, h: int) -> Picture {
    Picture {
        width: w,
        height: h,
        data: Seq::new((w * h) as nat, |i: int| p.at(x + i % w, y + i / w)),
    }
}

/// `image::imageops::crop_imm` of a rectangle inside the picture, copied out
/// with `to_image`: the pixels of the rectangle, in place.
#[verifier::external_body]
pub(crate) fn crop(img: &GrayImage, x: u32, y: u32, w: u32, h: u32) -> (r: GrayImage)
    requires
        img.wf(),
        x + w <= img.width,
        y + h <= img.height,
    ensures
        r.wf(),
        r@ == cropped(img@, x as int, y as int, w as int, h as int),
{
    let buffer = image::GrayImage::from_raw(img.width, img.height, img.data.clone()).unwrap();
    let part = imageops::crop_imm(&buffer, x, y, w, h).to_image();
    GrayImage { width: part.width(), height: part.height(), data: part.into_raw() }
}

/// `v`, moved to the nearest index of a row of `n`.
pub open spec fn nearest_index(v: int, n: int) -> int {
    if v < 0 {
        0
    } else if v >= n {
        n - 1
    } else {
        v
    }
}

/// The four neighbours of a pixel less four times the pixel itself; beyond an
/// edge the edge pixel is repeated.
pub open spec fn laplacian_at(g: Picture, x: int, y: int) -> int {
    let left = g.at(nearest_index(x - 1, g.width), y);
    let right = g.at(nearest_index(x + 1, g.width), y);
    let up = g.at(x, nearest_index(y - 1, g.height));
    let down = g.at(x, nearest_index(y + 1, g.height));
    left + right + up + down - 4 * g.at(x, y)
}

/// The Laplacian of the whole picture, row by row.
pub open spec fn laplacian(g: Picture) -> Seq<i16> {
    Seq::new(
        (g.width * g.height) as nat,
        |i: int| laplacian_at(g, i % g.width, i / g.width) as i16,
    )
}

/// `imageproc::filter::laplacian_filter`: the correlation with the kernel
/// `0 1 0 / 1 -4 1 / 0 1 0`, edges padded by repetition.
#[verifier::external_body]
pub(crate) fn laplacian_filter(img: &GrayImage) -> (r: Laplacian)
    requires
        img.wf(),
    ensures
        r.wf(),
        r.width == img.width,
        r.height == img.height,
        r.data@ == laplacian(img@),
{
    let buffer = image::GrayImage::from_raw(img.width, img.height, img.data.clone()).unwrap();
    let lap = imageproc::filter::laplacian_filter(&buffer);
    Laplacian { width: lap.width(), height: lap.height(), data: lap.into_raw() }
}

/// A picture of `width` by `height` whose pixel in column `x`, row `y` is the
/// pixel of `c` at `from(x, y)`.
pub open spec fn rearranged(
    c: DeepPicture,
    width: int,
    height: int,
    from: spec_fn(int, int) -> (int, int),
) -> DeepPicture {
    DeepPicture {
        width,
        height,
        depth: c.depth,
        data: Seq::new(
            (3 * (width * height)) as nat,
            |i: int|
                {
                    let (x, y) = from(i / 3 % width, i / 3 / width);
                    c.channel(x, y, i % 3)
                },
        ),
    }
}

/// The picture mirrored left to right.
pub open spec fn mirrored(c: DeepPicture) -> DeepPicture {
    rearranged(c, c.width, c.height, |x: int, y: int| (c.width - 1 - x, y))
}

/// The picture mirrored top to bottom.
pub open spec fn flipped(c: DeepPicture) -> DeepPicture {
    rearranged(c, c.width, c.height, |x: int, y: int| (x, c.height - 1 - y))
}

/// The picture turned by half a turn.
pub open spec fn turned_over(c: DeepPicture) -> DeepPicture {
    rearranged(c, c.width, c.height, |x: int, y: int| (c.width - 1 - x, c.height - 1 - y))
}

/// The picture turned by a quarter turn clockwise.
pub open spec fn turned_right(c: DeepPicture) -> DeepPicture {
    rearranged(c, c.height, c.width, |x: int, y: int| (y, c.height - 1 - x))
}

/// The picture turned by a quarter turn counterclockwise.
pub open spec fn turned_left(c: DeepPicture) -> DeepPicture {
    rearranged(c, c.height, c.width, |x: int, y: int| (c.width - 1 - y, x))
}

/// `image::imageops::flip_horizontal`: the picture mirrored left to right.
#[verifier::external_body]
pub(crate) fn fliph(img: DeepImage) -> (r: DeepImage)
    requires
        img.wf(),
    ensures
        r.wf(),
        r@ == mirrored(img@),
{
    let (w, h) = (img.width, img.height);
    let samples = match img.samples {
        Samples::Eight(v) => {
            Samples::Eight(imageops::flip_horizontal(&ImageBuffer::<Rgb<u8>, _>::from_raw(w, h, v).unwrap()).into_raw())
        },
        Samples::Sixteen(v) => {
            Samples::Sixteen(imageops::flip_horizontal(&ImageBuffer::<Rgb<u16>, _>::from_raw(w, h, v).unwrap()).into_raw())
        },
        Samples::Float(v) => {
            Samples::Float(imageops::flip_horizontal(&ImageBuffer::<Rgb<u32>, _>::from_raw(w, h, v).unwrap()).into_raw())
        },
    };
    DeepImage { width: w, height: h, samples }
}

/// `image::imageops::flip_vertical`: the picture mirrored top to bottom.
#[verifier::external_body]
pub(crate) fn flipv(img: DeepImage) -> (r: DeepImage)
    requires
        img.wf(),
    ensures
        r.wf(),
        r@ == flipped(img@),
{
    let (w, h) = (img.width, img.height);
    let samples = match img.samples {
        Samples::Eight(v) => {
            Samples::Eight(imageops::flip_vertical(&ImageBuffer::<Rgb<u8>, _>::from_raw(w, h, v).unwrap()).into_raw())
        },
        Samples::Sixteen(v) => {
            Samples::Sixteen(imageops::flip_vertical(&ImageBuffer::<Rgb<u16>, _>::from_raw(w, h, v).unwrap()).into_raw())
        },
        Samples::Float(v) => {
            Samples::Float(imageops::flip_vertical(&ImageBuffer::<Rgb<u32>, _>::from_raw(w, h, v).unwrap()).into_raw())
        },
    };
    DeepImage { width: w, height: h, samples }
}

/// `image::imageops::rotate90`: the picture turned by a quarter turn
/// clockwise.
#[verifier::external_body]
pub(crate) fn rotate90(img: DeepImage) -> (r: DeepImage)
    requires
        img.wf(),
    ensures
        r.wf(),
        r@ == turned_right(img@),
{
    let (w, h) = (img.width, img.height);
    let samples = match img.samples {
        Samples::Eight(v) => {
            Samples::Eight(imageops::rotate90(&ImageBuffer::<Rgb<u8>, _>::from_raw(w, h, v).unwrap()).into_raw())
        },
        Samples::Sixteen(v) => {
            Samples::Sixteen(imageops::rotate90(&ImageBuffer::<Rgb<u16>, _>::from_raw(w, h, v).unwrap()).into_raw())
        },
        Samples::Float(v) => {
            Samples::Float(imageops::rotate90(&ImageBuffer::<Rgb<u32>, _>::from_raw(w, h, v).unwrap()).into_raw())
        },
    };
    DeepImage { width: h, height: w, samples }
}

/// `image::imageops::rotate180`: the picture turned by half a turn.
#[verifier::external_body]
pub(crate) fn rotate180(img: DeepImage) -> (r: DeepImage)
    requires
        img.wf(),
    ensures
        r.wf(),
        r@ == turned_over(img@),
{
    let (w, h) = (img.width, img.height);
    let samples = match img.samples {
        Samples::Eight(v) => {
            Samples::Eight(imageops::rotate180(&ImageBuffer::<Rgb<u8>, _>::from_raw(w, h, v).unwrap()).into_raw())
        },
        Samples::Sixteen(v) => {
            Samples::Sixteen(imageops::rotate180(&ImageBuffer::<Rgb<u16>, _>::from_raw(w, h, v).unwrap()).into_raw())
        },
        Samples::Float(v) => {
            Samples::Float(imageops::rotate180(&ImageBuffer::<Rgb<u32>, _>::from_raw(w, h, v).unwrap()).into_raw())
        },
    };
    DeepImage { width: w, height: h, samples }
}

/// `image::imageops::rotate270`: the picture turned by a quarter turn
/// counterclockwise.
#[verifier::external_body]
pub(crate) fn rotate270(img: DeepImage) -> (r: DeepImage)
    requires
        img.wf(),
    ensures
        r.wf(),
        r@ == turned_left(img@),
{
    let (w, h) = (img.width, img.height);
    let samples = match img.samples {
        Samples::Eight(v) => {
            Samples::Eight(imageops::rotate270(&ImageBuffer::<Rgb<u8>, _>::from_raw(w, h, v).unwrap()).into_raw())
        },
        Samples::Sixteen(v) => {
            Samples::Sixteen(imageops::rotate270(&ImageBuffer::<Rgb<u16>, _>::from_raw(w, h, v).unwrap()).into_raw())
        },
        Samples::Float(v) => {
            Samples::Float(imageops::rotate270(&ImageBuffer::<Rgb<u32>, _>::from_raw(w, h, v).unwrap()).into_raw())
        },
    };
    DeepImage { width: h, height: w, samples }
}

/// What an Exif orientation asks for, as `image` understands the eight values;
/// any other value asks for nothing.
pub open spec fn oriented(c: DeepPicture, exif: u8) -> DeepPicture {
    match exif {
        2 => mirrored(c),
        3 => turned_over(c),
        4 => flipped(c),
        5 => mirrored(turned_right(c)),
        6 => turned_right(c),
        7 => mirrored(turned_left(c)),
        8 => turned_left(c),
        _ => c,
    }
}

/// Turns and mirrors a picture as an Exif orientation asks.
pub(crate) fn apply_orientation(img: DeepImage, exif: u8) -> (r: DeepImage)
    requires
        img.wf(),
    ensures
        r.wf(),
        r@ == oriented(img@, exif),
{
    match exif {
        2 => fliph(img),
        3 => rotate180(img),
        4 => flipv(img),
        5 => fliph(rotate90(img)),
        6 => rotate90(img),
        7 => fliph(rotate270(img)),
        8 => rotate270(img),
        _ => img,
    }
}

/// A picture as `image` decodes it.
#[verifier::external_type_specification]
#[verifier::external_body]
pub struct ExDynamicImage(image::DynamicImage);

/// `image::DynamicImage::into_rgb8`, `into_rgb16` or `into_rgb32f` on a decoded
/// picture, whichever keeps its depth: there are samples for every pixel. What
/// the picture shows is not stated.
#[verifier::external_body]
fn rgb_samples(picture: image::DynamicImage) -> (r: DeepImage)
    ensures
        r.holds(),
{
    let (width, height) = (picture.width(), picture.height());
    let samples = match picture.color() {
        ColorType::L8 | ColorType::La8 | ColorType::Rgb8 | ColorType::Rgba8 => {
            Samples::Eight(picture.into_rgb8().into_raw())
        },
        ColorType::L16 | ColorType::La16 | ColorType::Rgb16 | ColorType::Rgba16 => {
            Samples::Sixteen(picture.into_rgb16().into_raw())
        },
        _ => Samples::Float(picture.into_rgb32f().iter().map(|v| v.to_bits()).collect()),
    };
    DeepImage { width, height, samples }
}

/// Whether `image` can give these samples of a decoded picture.
pub closed spec fn may_hold(picture: image::DynamicImage, img: DeepImage) -> bool {
    call_ensures(rgb_samples, (picture,), img)
}

/// The samples of a decoded picture.
pub(crate) fn samples_of(picture: image::DynamicImage) -> (r: DeepImage)
    ensures
        r.holds(),
        may_hold(picture, r),
{
    rgb_samples(picture)
}

/// A sample of sixteen bits becomes the nearest of the 256 levels, one of eight
/// bits stays; and a picture that fits already keeps its size and every pixel
/// its place.
pub proof fn samples_become_the_nearest_level(p: DeepPicture, max_dim: u32, i: int)
    requires
        p.width <= max_dim,
        p.height <= max_dim,
        0 <= i < p.data.len(),
        p.depth == Depth::Eight ==> 0 <= p.data[i] < 256,
        p.depth == Depth::Sixteen ==> 0 <= p.data[i] < 65_536,
    ensures
        sized(p, max_dim).width == p.width,
        sized(p, max_dim).height == p.height,
        sized(p, max_dim).data.len() == p.data.len(),
        p.depth == Depth::Eight ==> sized(p, max_dim).data[i] == p.data[i],
        p.depth == Depth::Sixteen ==> -128 <= 257 * sized(p, max_dim).data[i] - p.data[i] <= 128,
{
}

/// Downsizing is for pictures that do not fit: one that exceeds the limit on
/// either side is resampled into the square of that side.
pub proof fn large_pictures_are_fitted(p: DeepPicture, max_dim: u32)
    requires
        p.width > max_dim || p.height > max_dim,
    ensures
        sized(p, max_dim) == fitted_of(p, max_dim),
{
}

/// Every pixel of a luminance picture is the luminance of the same pixel of the
/// colors, from its red, its green and its blue.
pub proof fn luminances_keep_their_places(c: ColorPicture, x: int, y: int)
    requires
        0 <= x < c.width,
        0 <= y < c.height,
    ensures
        ({
            let at = y * c.width + x;
            &&& gray(c).width == c.width
            &&& gray(c).height == c.height
            &&& gray(c).data.len() == c.width * c.height
            &&& gray(c).data[at] == luma(c.data[3 * at], c.data[3 * at + 1], c.data[3 * at + 2])
        }),
{
    let (w, h) = (c.width, c.height);
    assert(0 <= y * w + x < w * h) by (nonlinear_arith)
        requires
            0 <= x < w,
            0 <= y < h,
    ;
}

} // verus!
