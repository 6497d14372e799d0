//! Photo types, and how sharp a photo is: the variance of its Laplacian, over
//! the region that matters.

use vstd::prelude::*;
use vstd::set_lib::lemma_len_subset;

use crate::classify::{is_coordinate, referred, FaceBox, SUBPIXELS};
use crate::fixed::ONE;
use crate::rank::{
    in_range, rank, ranked, ranking_falls, ranking_is_a_rearrangement, ranking_keeps_members,
};
use crate::raster::{
    crop, cropped, gray, laplacian, laplacian_at, laplacian_filter, nearest_index, to_gray,
    GrayImage, Laplacian, Picture, RgbImage,
};
use crate::select::{first_indices, indices};
use crate::stats::{
    equal_numbers_do_not_vary, ints, total, total_squares, variance,
    variance_is_mean_square_less_squared_mean, variance_of,
};

verus! {

/// What kind of photo it is.
#[derive(Debug, Clone, Copy, PartialEq, Eq, Structural)]
pub enum PhotoMode {
    Landscape,
    Portrait,
    Object,
    Animal,
}

impl PhotoMode {
    /// Every type, in the order they are offered.
    pub const ALL: [PhotoMode; 4] = [
        PhotoMode::Landscape,
        PhotoMode::Portrait,
        PhotoMode::Object,
        PhotoMode::Animal,
    ];

    /// The name shown for the type.
    pub fn label(&self) -> (r: &'static str)
        ensures
            r@ == match *self {
                PhotoMode::Landscape => "Landscape"@,
                PhotoMode::Portrait => "Portrait"@,
                PhotoMode::Object => "Object"@,
                PhotoMode::Animal => "Animal"@,
            },
    {
        match self {
            PhotoMode::Landscape => "Landscape",
            PhotoMode::Portrait => "Portrait",
            PhotoMode::Object => "Object",
            PhotoMode::Animal => "Animal",
        }
    }

    /// Percent of width and height kept (centered) when scoring; a hundred is
    /// the whole frame.
    pub open spec fn region_percent_of(self) -> int {
        match self {
            PhotoMode::Landscape => 100,
            PhotoMode::Object => 60,
            PhotoMode::Animal => 60,
            PhotoMode::Portrait => 45,
        }
    }

    /// Percent of width and height kept (centered) when scoring.
    ///
    /// Used when there is no detected subject box to score instead: landscapes
    /// are scored edge to edge, while a tighter centered crop stands in for
    /// "where the subject probably is" for the others, so a deliberately
    /// blurred background doesn't tank the score.
    pub fn region_fraction(&self) -> (r: u32)
        ensures
            r == self.region_percent_of(),
    {
        match self {
            PhotoMode::Landscape => 100,
            PhotoMode::Object | PhotoMode::Animal => 60,
            PhotoMode::Portrait => 45,
        }
    }
}

/// How sharpness is measured when there is no detected face or animal box to
/// score instead.
#[derive(Debug, Clone, Copy, PartialEq, Eq, Structural)]
pub enum SharpnessMethod {
    /// A fixed crop per photo type (whole frame for Landscape, the centre for
    /// the others).
    FixedRegion,
    /// The sharpest tiles anywhere in the frame, regardless of type. Suits
    /// shallow depth of field and off-centre subjects, where the in-focus part
    /// is small and not necessarily in the middle.
    SharpestRegion,
}

impl SharpnessMethod {
    /// Every method, in the order they are offered.
    pub const ALL: [SharpnessMethod; 2] = [
        SharpnessMethod::FixedRegion,
        SharpnessMethod::SharpestRegion,
    ];

    /// The name shown for the method.
    pub fn label(&self) -> (r: &'static str)
        ensures
            r@ == match *self {
                SharpnessMethod::FixedRegion => "Fixed region"@,
                SharpnessMethod::SharpestRegion => "Sharpest region"@,
            },
    {
        match self {
            SharpnessMethod::FixedRegion => "Fixed region",
            SharpnessMethod::SharpestRegion => "Sharpest region",
        }
    }

    /// One sentence on what the method scores.
    pub fn description(&self) -> (r: &'static str)
        ensures
            r@ == match *self {
                SharpnessMethod::FixedRegion => "When no face or animal is found, scores a fixed crop chosen by photo type (whole frame for Landscape, centre otherwise)."@,
                SharpnessMethod::SharpestRegion => "When no face or animal is found, scores the sharpest tiles anywhere in the frame. Better for macro and off-centre subjects; scores run higher than Fixed region."@,
            },
    {
        match self {
            SharpnessMethod::FixedRegion => {
                "When no face or animal is found, scores a fixed crop chosen by photo type (whole frame for Landscape, centre otherwise)."
            },
            SharpnessMethod::SharpestRegion => {
                "When no face or animal is found, scores the sharpest tiles anywhere in the frame. Better for macro and off-centre subjects; scores run higher than Fixed region."
            },
        }
    }
}

/// Tiles along the longer edge for [`SharpnessMethod::SharpestRegion`].
pub const TILE_GRID: u32 = 16;

/// One tile in this many (the sharpest ones) counts into the score. Few enough
/// that a thin in-focus sliver dominates, many enough that one high-contrast
/// tile doesn't.
pub const TOP_TILE_SHARE: usize = 20;

/// How much of a side a centered crop keeps: the percentage, rounded half up,
/// and at least one pixel.
pub open spec fn kept_side(side: int, percent: int) -> int {
    let rounded = (2 * (side * percent) + 100) / 200;
    if rounded < 1 {
        1
    } else {
        rounded
    }
}

/// The centered part of a picture that keeps `percent` of each side.
pub open spec fn centered(p: Picture, percent: int) -> Picture {
    if percent >= 100 {
        p
    } else {
        let w = kept_side(p.width, percent);
        let h = kept_side(p.height, percent);
        cropped(p, (p.width - w) / 2, (p.height - h) / 2, w, h)
    }
}

/// How sharp a region is: the variance of its Laplacian, in billionths.
pub open spec fn sharpness_of(p: Picture) -> int {
    variance_of(ints(laplacian(p)))
}

fn kept(side: u32, percent: u32) -> (r: u32)
    requires
        0 < side,
        percent < 100,
    ensures
        r == kept_side(side as int, percent as int),
        1 <= r <= side,
{
    assert(side * percent <= side * 99) by (nonlinear_arith)
        requires
            percent <= 99,
    ;
    let rounded: u64 = (2 * (side as u64 * percent as u64) + 100) / 200;
    if rounded < 1 {
        1
    } else {
        rounded as u32
    }
}

/// The centered part of `img` that keeps `percent` of each side.
pub fn center_crop(img: &GrayImage, percent: u32) -> (r: GrayImage)
    requires
        img.wf(),
        percent < 100 ==> img.width > 0 && img.height > 0,
    ensures
        r.wf(),
        r@ == centered(img@, percent as int),
{
    if percent >= 100 {
        let data = img.data.clone();
        assert(data@ =~= img.data@);
        return GrayImage { width: img.width, height: img.height, data };
    }
    let w: u32 = kept(img.width, percent);
    let h: u32 = kept(img.height, percent);
    let x: u32 = (img.width - w) / 2;
    let y: u32 = (img.height - h) / 2;
    crop(img, x, y, w, h)
}

/// Where the padded crop around `lo..hi` starts, in twentieths of a sub-pixel:
/// the span is widened to seventeen tenths of its length (one pixel at least)
/// about its middle, and its start moved into the side.
pub open spec fn span_start(lo: int, hi: int, side: int) -> int {
    let half = if 17 * (hi - lo) < 10 * SUBPIXELS {
        10 * SUBPIXELS
    } else {
        17 * (hi - lo)
    };
    let start = 10 * (lo + hi) - half;
    let last = (side - 1) * (20 * SUBPIXELS);
    if start < 0 {
        0
    } else if start > last {
        last
    } else {
        start
    }
}

/// How long the padded crop around `lo..hi` is, in twentieths of a sub-pixel:
/// as wide as the padding asks for, cut off at the end of the side.
pub open spec fn span_length(lo: int, hi: int, side: int) -> int {
    let full = if 17 * (hi - lo) < 10 * SUBPIXELS {
        20 * SUBPIXELS
    } else {
        34 * (hi - lo)
    };
    let room = side * (20 * SUBPIXELS) - span_start(lo, hi, side);
    if full < room {
        full
    } else {
        room
    }
}

/// The crop around a subject box: padded to about 1.7 times its size, clamped
/// to the picture, in whole pixels.
pub open spec fn around(p: Picture, b: FaceBox) -> Picture {
    cropped(
        p,
        span_start(b.x1 as int, b.x2 as int, p.width) / (20 * SUBPIXELS),
        span_start(b.y1 as int, b.y2 as int, p.height) / (20 * SUBPIXELS),
        span_length(b.x1 as int, b.x2 as int, p.width) / (20 * SUBPIXELS),
        span_length(b.y1 as int, b.y2 as int, p.height) / (20 * SUBPIXELS),
    )
}

fn padded_span(lo: i64, hi: i64, side: u32) -> (r: (u32, u32))
    requires
        is_coordinate(lo),
        is_coordinate(hi),
        0 < side,
    ensures
        r.0 == span_start(lo as int, hi as int, side as int) / (20 * SUBPIXELS),
        r.1 == span_length(lo as int, hi as int, side as int) / (20 * SUBPIXELS),
        r.0 + r.1 <= side,
        1 <= r.1,
{
    let pixel: i64 = 20 * SUBPIXELS;
    let length: i64 = hi - lo;
    let half: i64 = if 17 * length < 10 * SUBPIXELS {
        10 * SUBPIXELS
    } else {
        17 * length
    };
    let centre: i64 = 10 * (lo + hi);
    let last: i64 = (side as i64 - 1) * pixel;
    let mut start: i64 = centre - half;
    if start < 0 {
        start = 0;
    } else if start > last {
        start = last;
    }
    let room: i64 = side as i64 * pixel - start;
    let full: i64 = if 17 * length < 10 * SUBPIXELS {
        pixel
    } else {
        34 * length
    };
    let shown: i64 = if full < room {
        full
    } else {
        room
    };
    (((start as u64) / (pixel as u64)) as u32, ((shown as u64) / (pixel as u64)) as u32)
}

/// Crop around a detected subject box (a face or an animal), padded out to
/// about 1.7 times its size (centered on the box) so the sample takes in a bit
/// of surrounding context rather than just the tight rectangle, clamped to the
/// picture.
pub fn face_crop(img: &GrayImage, face: &FaceBox) -> (r: GrayImage)
    requires
        img.wf(),
        img.width > 0,
        img.height > 0,
        face.wf(),
    ensures
        r.wf(),
        r@ == around(img@, *face),
        r.width >= 1,
        r.height >= 1,
{
    let (x, w) = padded_span(face.x1, face.x2, img.width);
    let (y, h) = padded_span(face.y1, face.y2, img.height);
    crop(img, x, y, w, h)
}

/// How sharp `region` is: the variance of its Laplacian, in billionths.
pub fn variance_of_laplacian(region: &GrayImage) -> (r: u64)
    requires
        region.wf(),
    ensures
        r == sharpness_of(region@),
{
    let lap = laplacian_filter(region);
    variance(&lap.data)
}

/// The side of a tile: a sixteenth of the longer edge, at least eight pixels.
pub open spec fn tile_side(width: int, height: int) -> int {
    let longer = if width < height {
        height
    } else {
        width
    };
    if longer / 16 < 8 {
        8
    } else {
        longer / 16
    }
}

/// How many strips of `tile` pixels a side is cut into; a leftover counts if it
/// is at least half as thick as a full strip.
pub open spec fn strips(side: int, tile: int) -> int {
    (side + tile - tile / 2) / tile
}

/// The values of a row-major grid that lie in a rectangle, row by row.
pub open spec fn rectangle(grid: Seq<i16>, width: int, x: int, y: int, w: int, h: int) -> Seq<i16> {
    Seq::new((w * h) as nat, |i: int| grid[(y + i / w) * width + (x + i % w)])
}

/// How far a strip that starts at `from` reaches.
pub open spec fn strip_length(from: int, tile: int, side: int) -> int {
    if from + tile < side {
        tile
    } else {
        side - from
    }
}

/// The variance of the Laplacian over one tile, in billionths.
pub open spec fn tile_score(p: Picture, tile: int, column: int, row: int) -> int {
    let x = column * tile;
    let y = row * tile;
    variance_of(
        ints(
            rectangle(
                laplacian(p),
                p.width,
                x,
                y,
                strip_length(x, tile, p.width),
                strip_length(y, tile, p.height),
            ),
        ),
    )
}

/// The scores of all tiles, row by row.
pub open spec fn tile_scores(p: Picture) -> Seq<u64> {
    let tile = tile_side(p.width, p.height);
    let columns = strips(p.width, tile);
    let rows = strips(p.height, tile);
    Seq::new(
        (rows * columns) as nat,
        |k: int| tile_score(p, tile, k % columns, k / columns) as u64,
    )
}

/// The sum of the keys of the first `k` indices of `order`.
pub open spec fn sum_of_first(order: Seq<usize>, keys: Seq<u64>, k: int) -> int
    decreases k,
{
    if k <= 0 {
        0
    } else {
        sum_of_first(order, keys, k - 1) + keys[order[k - 1] as int]
    }
}

/// The mean of the top twentieth of the scores (rounded up to a whole number
/// of them), rounded down.
pub open spec fn top_mean(scores: Seq<u64>) -> int {
    let k = (scores.len() + 19) / 20;
    sum_of_first(ranked(first_indices(scores.len()), scores), scores, k as int) / k as int
}

/// The mean sharpness of the sharpest tiles, in billionths; of the whole
/// picture if it is smaller than one tile.
pub open spec fn sharpest_of(p: Picture) -> int {
    let tile = tile_side(p.width, p.height);
    if p.width < tile || p.height < tile {
        sharpness_of(p)
    } else {
        top_mean(tile_scores(p))
    }
}

/// The place of a rectangle's value in the grid around it.
proof fn place_in_grid(i: int, w: int, h: int, x: int, y: int, width: int, height: int)
    requires
        0 <= i < w * h,
        0 < w,
        0 <= x,
        0 <= y,
        x + w <= width,
        y + h <= height,
    ensures
        0 <= i / w < h,
        0 <= i % w < w,
        0 <= (y + i / w) * width + (x + i % w) < width * height,
        (y + i / w) * width <= width * height,
{
    assert(0 <= i / w < h && 0 <= i % w < w) by (nonlinear_arith)
        requires
            0 <= i < w * h,
            0 < w,
    ;
    let row = y + i / w;
    let col = x + i % w;
    assert(row * width + col < width * height && row * width <= width * height && 0 <= row * width)
        by (nonlinear_arith)
        requires
            0 <= row <= height - 1,
            0 <= col < width,
    ;
}

fn rectangle_values(lap: &Laplacian, x: u32, y: u32, w: u32, h: u32) -> (r: Vec<i16>)
    requires
        lap.wf(),
        x + w <= lap.width,
        y + h <= lap.height,
        0 < w,
        0 < h,
    ensures
        r@ == rectangle(lap.data@, lap.width as int, x as int, y as int, w as int, h as int),
        r@.len() <= u32::MAX,
{
    let mut values: Vec<i16> = Vec::new();
    proof {
        assert(w * h <= lap.width * lap.height) by (nonlinear_arith)
            requires
                0 <= w <= lap.width,
                0 <= h <= lap.height,
        ;
    }
    let count: u64 = w as u64 * h as u64;
    let mut i: u64 = 0;
    let ghost all = rectangle(lap.data@, lap.width as int, x as int, y as int, w as int, h as int);
    while i < count
        invariant
            lap.wf(),
            x + w <= lap.width,
            y + h <= lap.height,
            0 < w,
            count == w * h,
            count <= u32::MAX,
            i <= count,
            all == rectangle(lap.data@, lap.width as int, x as int, y as int, w as int, h as int),
            values@ =~= all.take(i as int),
        decreases count - i,
    {
        proof {
            place_in_grid(
                i as int,
                w as int,
                h as int,
                x as int,
                y as int,
                lap.width as int,
                lap.height as int,
            );
        }
        let row: u64 = y as u64 + i / w as u64;
        let column: u64 = x as u64 + i % w as u64;
        values.push(lap.data[(row * lap.width as u64 + column) as usize]);
        i = i + 1;
        assert(all.take(i as int) =~= all.take(i - 1).push(all[i - 1]));
    }
    assert(all.take(count as int) =~= all);
    values
}

/// A strip that is counted starts inside the side and is at least half as
/// thick as a tile.
proof fn strip_starts_inside(side: int, tile: int, k: int)
    requires
        8 <= tile <= side,
        0 <= k < strips(side, tile),
    ensures
        0 <= k * tile < side,
        tile / 2 <= strip_length(k * tile, tile, side) <= tile,
        k * tile + strip_length(k * tile, tile, side) <= side,
{
    let reach = side + tile - tile / 2;
    assert(strips(side, tile) * tile <= reach) by (nonlinear_arith)
        requires
            strips(side, tile) == reach / tile,
            tile > 0,
    ;
    assert((k + 1) * tile <= strips(side, tile) * tile) by (nonlinear_arith)
        requires
            k + 1 <= strips(side, tile),
            tile > 0,
    ;
    assert((k + 1) * tile == k * tile + tile) by (nonlinear_arith);
    assert(0 <= k * tile) by (nonlinear_arith)
        requires
            0 <= k,
            0 < tile,
    ;
}

/// A side is cut into at least one strip, and into fewer than it has pixels.
proof fn strips_bounds(side: int, tile: int)
    requires
        8 <= tile <= side,
    ensures
        1 <= strips(side, tile) <= side,
{
    let reach = side + tile - tile / 2;
    assert(1 <= reach / tile <= side) by (nonlinear_arith)
        requires
            tile <= reach <= 2 * side,
            8 <= tile,
    ;
}

fn score_tiles(lap: &Laplacian, tile: u32, Ghost(p): Ghost<Picture>) -> (r: Vec<u64>)
    requires
        lap.wf(),
        lap.data@ == laplacian(p),
        lap.width == p.width,
        lap.height == p.height,
        tile == tile_side(p.width, p.height),
        tile <= p.width,
        tile <= p.height,
    ensures
        r@ == tile_scores(p),
        1 <= r@.len() <= u32::MAX,
{
    let columns: u32 = ((lap.width as u64 + tile as u64 - tile as u64 / 2) / tile as u64) as u32;
    let rows: u32 = ((lap.height as u64 + tile as u64 - tile as u64 / 2) / tile as u64) as u32;
    let ghost all = tile_scores(p);
    let mut scores: Vec<u64> = Vec::new();
    proof {
        strips_bounds(p.width, tile as int);
        strips_bounds(p.height, tile as int);
        assert(columns == strips(p.width, tile as int));
        assert(rows == strips(p.height, tile as int));
        assert(1 <= rows * columns <= p.width * p.height) by (nonlinear_arith)
            requires
                1 <= columns <= p.width,
                1 <= rows <= p.height,
        ;
    }
    let count: u64 = rows as u64 * columns as u64;
    let mut k: u64 = 0;
    while k < count
        invariant
            lap.wf(),
            lap.data@ == laplacian(p),
            lap.width == p.width,
            lap.height == p.height,
            8 <= tile <= p.width,
            tile == tile_side(p.width, p.height),
            tile <= p.height,
            columns == strips(p.width, tile as int),
            rows == strips(p.height, tile as int),
            1 <= columns,
            count == rows * columns,
            count <= u32::MAX,
            k <= count,
            all == tile_scores(p),
            all.len() == count,
            scores@ =~= all.take(k as int),
        decreases count - k,
    {
        proof {
            assert(0 <= k / (columns as u64) < rows && 0 <= k % (columns as u64) < columns)
                by (nonlinear_arith)
                requires
                    0 <= k < rows * columns,
                    0 < columns,
            ;
        }
        let column: u32 = (k % columns as u64) as u32;
        let row: u32 = (k / columns as u64) as u32;
        proof {
            strip_starts_inside(p.width, tile as int, column as int);
            strip_starts_inside(p.height, tile as int, row as int);
        }
        let x: u32 = column * tile;
        let y: u32 = row * tile;
        let w: u32 = if (x as u64) + (tile as u64) < lap.width as u64 {
            tile
        } else {
            lap.width - x
        };
        let h: u32 = if (y as u64) + (tile as u64) < lap.height as u64 {
            tile
        } else {
            lap.height - y
        };
        let values = rectangle_values(lap, x, y, w, h);
        let score: u64 = variance(&values);
        assert(score == tile_score(p, tile as int, column as int, row as int));
        scores.push(score);
        k = k + 1;
        assert(all.take(k as int) =~= all.take(k - 1).push(all[k - 1]));
    }
    assert(all.take(count as int) =~= all);
    scores
}

proof fn sum_of_first_bound(order: Seq<usize>, keys: Seq<u64>, k: int)
    requires
        0 <= k,
    ensures
        0 <= sum_of_first(order, keys, k) <= k * u64::MAX,
    decreases k,
{
    if k > 0 {
        sum_of_first_bound(order, keys, k - 1);
    }
}

/// The mean of the top twentieth of `scores` (rounded up to a whole number of
/// them), rounded down.
pub fn mean_of_top(scores: &Vec<u64>) -> (r: u64)
    requires
        1 <= scores@.len() <= u32::MAX,
    ensures
        r == top_mean(scores@),
{
    let n: usize = scores.len();
    let order = indices(n);
    let best = rank(&order, scores);
    let k: usize = n / TOP_TILE_SHARE + if n % TOP_TILE_SHARE == 0 {
        0usize
    } else {
        1usize
    };
    assert(k == (n + 19) / 20);
    let mut sum: u128 = 0;
    for i in 0..k
        invariant
            k <= best@.len(),
            k <= u32::MAX,
            best@.len() == scores@.len(),
            in_range(best@, scores@.len()),
            sum == sum_of_first(best@, scores@, i as int),
    {
        proof {
            sum_of_first_bound(best@, scores@, i as int);
        }
        sum = sum + scores[best[i]] as u128;
    }
    proof {
        sum_of_first_bound(best@, scores@, k as int);
        assert(sum / (k as u128) <= u64::MAX) by (nonlinear_arith)
            requires
                0 <= sum <= k * u64::MAX,
                0 < k,
        ;
    }
    (sum / k as u128) as u64
}

/// Mean Laplacian variance of the sharpest tiles. The Laplacian is computed
/// once over the whole frame, then the variance is taken per tile.
pub fn sharpest_region_score(gray: &GrayImage) -> (r: u64)
    requires
        gray.wf(),
    ensures
        r == sharpest_of(gray@),
{
    let longer: u32 = if gray.width < gray.height {
        gray.height
    } else {
        gray.width
    };
    let tile: u32 = if longer / TILE_GRID < 8 {
        8
    } else {
        longer / TILE_GRID
    };
    if gray.width < tile || gray.height < tile {
        return variance_of_laplacian(gray);
    }
    let lap = laplacian_filter(gray);
    let scores = score_tiles(&lap, tile, Ghost(gray@));
    mean_of_top(&scores)
}

/// The sharpness score of a luminance picture: of the subject box if there is
/// one, and otherwise as `method` says.
pub open spec fn score_of(
    p: Picture,
    mode: PhotoMode,
    subject: Option<FaceBox>,
    method: SharpnessMethod,
) -> int {
    match subject {
        Some(b) => sharpness_of(around(p, b)),
        None => match method {
            SharpnessMethod::FixedRegion => sharpness_of(centered(p, mode.region_percent_of())),
            SharpnessMethod::SharpestRegion => sharpest_of(p),
        },
    }
}

/// Whether a picture of this size can be scored: an empty one has no centre
/// and no surroundings of a subject.
pub open spec fn can_score(
    width: u32,
    height: u32,
    mode: PhotoMode,
    subject: Option<FaceBox>,
    method: SharpnessMethod,
) -> bool {
    let cropped = match subject {
        Some(b) => true,
        None => method == SharpnessMethod::FixedRegion && mode != PhotoMode::Landscape,
    };
    &&& cropped ==> width > 0 && height > 0
    &&& subject matches Some(b) ==> b.wf()
}

/// The score of an already gray picture, in billionths.
pub fn score_gray(
    gray: &GrayImage,
    mode: PhotoMode,
    subject: Option<&FaceBox>,
    method: SharpnessMethod,
) -> (r: u64)
    requires
        gray.wf(),
        can_score(gray.width, gray.height, mode, referred(subject), method),
    ensures
        r == score_of(gray@, mode, referred(subject), method),
{
    if let Some(b) = subject {
        return variance_of_laplacian(&face_crop(gray, b));
    }
    match method {
        SharpnessMethod::FixedRegion => {
            variance_of_laplacian(&center_crop(gray, mode.region_fraction()))
        },
        SharpnessMethod::SharpestRegion => sharpest_region_score(gray),
    }
}

/// Variance-of-Laplacian sharpness score, in billionths. Higher means sharper.
/// If `subject` is given (a face for Portrait, an animal for Animal), scores
/// that box. Otherwise scores per `method`: a centered crop sized per `mode`,
/// or the sharpest tiles anywhere in the frame.
pub fn score(
    rgb: &RgbImage,
    mode: PhotoMode,
    subject: Option<&FaceBox>,
    method: SharpnessMethod,
) -> (r: u64)
    requires
        rgb.wf(),
        rgb.is_countable(),
        can_score(rgb.width, rgb.height, mode, referred(subject), method),
    ensures
        r == score_of(gray(rgb@), mode, referred(subject), method),
{
    let gray = to_gray(rgb);
    score_gray(&gray, mode, subject, method)
}

/// Whether a frame whose whole and whose central half are this sharp shows a
/// single object: it isn't almost flat, and the centre is more than 1.6 times
/// as sharp as the whole.
pub open spec fn looks_like_object(full: int, center: int) -> bool {
    full > ONE && 10 * center > 16 * full
}

/// The guess from a luminance picture.
pub open spec fn guess_of(p: Picture) -> PhotoMode {
    if looks_like_object(sharpness_of(p), sharpness_of(centered(p, 50))) {
        PhotoMode::Object
    } else {
        PhotoMode::Landscape
    }
}

/// Guesses Landscape or Object for an already gray picture.
pub fn guess_gray(gray: &GrayImage) -> (r: PhotoMode)
    requires
        gray.wf(),
    ensures
        r == guess_of(gray@),
{
    let full: u64 = variance_of_laplacian(gray);
    if full <= ONE {
        return PhotoMode::Landscape;
    }
    proof {
        assert(gray.width > 0 && gray.height > 0) by {
            assert(gray.width * gray.height > 0);
            if gray.width == 0 || gray.height == 0 {
                assert(gray.width * gray.height == 0) by (nonlinear_arith)
                    requires
                        gray.width == 0 || gray.height == 0,
                ;
            }
        }
    }
    let center: u64 = variance_of_laplacian(&center_crop(gray, 50));
    if 10 * center as u128 > 16 * full as u128 {
        PhotoMode::Object
    } else {
        PhotoMode::Landscape
    }
}

/// When no face is found, guess Landscape vs Object from how uniform the
/// sharpness is across the frame. A single object shot with shallow depth of
/// field is much sharper in the center than at the edges; a landscape
/// (typically a small aperture, front-to-back focus) is comparatively uniform.
/// This is a coarse heuristic, not real scene classification.
pub fn guess_landscape_or_object(rgb: &RgbImage) -> (r: PhotoMode)
    requires
        rgb.wf(),
        rgb.is_countable(),
    ensures
        r == guess_of(gray(rgb@)),
{
    let gray = to_gray(rgb);
    guess_gray(&gray)
}

/// Whether every pixel of a picture has the same luminance.
pub open spec fn is_flat(p: Picture) -> bool {
    forall|i: int, j: int|
        0 <= i < p.data.len() && 0 <= j < p.data.len() ==> #[trigger] p.data[i]
            == #[trigger] p.data[j]
}

proof fn pixel_in_picture(x: int, y: int, w: int, h: int)
    requires
        0 <= x < w,
        0 <= y < h,
    ensures
        0 <= y * w + x < w * h,
{
    assert(0 <= y * w + x < w * h) by (nonlinear_arith)
        requires
            0 <= x < w,
            0 <= y < h,
    ;
}

/// A picture without any detail has no sharpness, and is taken for a
/// landscape.
pub proof fn flat_pictures_are_not_sharp(p: Picture)
    requires
        0 <= p.width,
        0 <= p.height,
        p.data.len() == p.width * p.height,
        is_flat(p),
    ensures
        sharpness_of(p) == 0,
        guess_of(p) == PhotoMode::Landscape,
{
    let w = p.width;
    let h = p.height;
    let s = ints(laplacian(p));
    assert forall|i: int| 0 <= i < s.len() implies #[trigger] s[i] == 0 by {
        assert(w > 0 && h > 0) by (nonlinear_arith)
            requires
                0 <= i < w * h,
                0 <= w,
                0 <= h,
        ;
        let x = i % w;
        let y = i / w;
        assert(0 <= x < w && 0 <= y < h) by (nonlinear_arith)
            requires
                x == i % w,
                y == i / w,
                0 <= i < w * h,
                w > 0,
        ;
        pixel_in_picture(x, y, w, h);
        pixel_in_picture(nearest_index(x - 1, w), y, w, h);
        pixel_in_picture(nearest_index(x + 1, w), y, w, h);
        pixel_in_picture(x, nearest_index(y - 1, h), w, h);
        pixel_in_picture(x, nearest_index(y + 1, h), w, h);
        assert(laplacian_at(p, x, y) == 0);
    }
    equal_numbers_do_not_vary(s, 0);
}

/// Whether `r` is the part of `p` whose top left pixel is in column `x`, row
/// `y`: it lies in `p`, and shows the pixels of `p` in place.
pub open spec fn is_window(p: Picture, r: Picture, x: int, y: int) -> bool {
    &&& 0 <= x <= x + r.width <= p.width
    &&& 0 <= y <= y + r.height <= p.height
    &&& r.data.len() == r.width * r.height
    &&& forall|i: int, j: int|
        0 <= i < r.width && 0 <= j < r.height ==> #[trigger] r.data[j * r.width + i] == p.data[(y
            + j) * p.width + (x + i)]
}

proof fn crops_are_windows(p: Picture, x: int, y: int, w: int, h: int)
    requires
        0 <= x <= x + w <= p.width,
        0 <= y <= y + h <= p.height,
    ensures
        is_window(p, cropped(p, x, y, w, h), x, y),
{
    let r = cropped(p, x, y, w, h);
    assert(0 <= w * h) by (nonlinear_arith)
        requires
            0 <= w,
            0 <= h,
    ;
    assert forall|i: int, j: int| 0 <= i < w && 0 <= j < h implies #[trigger] r.data[j * w + i]
        == p.data[(y + j) * p.width + (x + i)] by {
        pixel_in_picture(i, j, w, h);
        assert((j * w + i) / w == j && (j * w + i) % w == i) by (nonlinear_arith)
            requires
                0 <= i < w,
        ;
    }
}

/// The padded crop along one side: where it starts and ends.
proof fn padded_spans(lo: int, hi: int, side: int)
    requires
        0 <= lo <= hi <= 65_536 * side,
        0 < side,
    ensures
        ({
            let x = span_start(lo, hi, side) / (20 * SUBPIXELS);
            let w = span_length(lo, hi, side) / (20 * SUBPIXELS);
            &&& 0 <= x
            &&& 1 <= w
            &&& x + w <= side
            &&& 65_536 * x <= lo
            &&& hi < 65_536 * (x + w + 2)
            &&& 38_551 <= hi - lo && 0 <= 27 * lo - 7 * hi && 27 * hi - 7 * lo <= 1_310_720
                * side ==> {
                &&& 1_310_720 * x <= 27 * lo - 7 * hi < 1_310_720 * (x + 1)
                &&& 655_360 * w <= 17 * (hi - lo) < 655_360 * (w + 1)
                &&& 393_216 <= hi - lo ==> hi <= 65_536 * (x + w)
            }
        }),
{
}

/// The crop around a subject box is a part of the picture that covers the box,
/// but for at most two pixels that rounding to whole pixels costs at the far
/// end. Where the padding fits the picture, the crop is 1.7 times as wide and
/// high as the box (rounded down to whole pixels) and lies evenly around it;
/// then it covers a box of six pixels or more altogether.
pub proof fn subject_crops_cover_the_box(p: Picture, b: FaceBox)
    requires
        0 < p.width,
        0 < p.height,
        0 <= b.x1 <= b.x2 <= 65_536 * p.width,
        0 <= b.y1 <= b.y2 <= 65_536 * p.height,
    ensures
        exists|x: int, y: int|
            #![trigger is_window(p, around(p, b), x, y)]
            {
                let r = around(p, b);
                &&& is_window(p, r, x, y)
                &&& 65_536 * x <= b.x1
                &&& b.x2 < 65_536 * (x + r.width + 2)
                &&& 65_536 * y <= b.y1
                &&& b.y2 < 65_536 * (y + r.height + 2)
                &&& 38_551 <= b.x2 - b.x1 && 0 <= 27 * b.x1 - 7 * b.x2 && 27 * b.x2 - 7 * b.x1
                    <= 1_310_720 * p.width ==> {
                    &&& 1_310_720 * x <= 27 * b.x1 - 7 * b.x2 < 1_310_720 * (x + 1)
                    &&& 655_360 * r.width <= 17 * (b.x2 - b.x1) < 655_360 * (r.width + 1)
                    &&& 393_216 <= b.x2 - b.x1 ==> b.x2 <= 65_536 * (x + r.width)
                }
                &&& 38_551 <= b.y2 - b.y1 && 0 <= 27 * b.y1 - 7 * b.y2 && 27 * b.y2 - 7 * b.y1
                    <= 1_310_720 * p.height ==> {
                    &&& 1_310_720 * y <= 27 * b.y1 - 7 * b.y2 < 1_310_720 * (y + 1)
                    &&& 655_360 * r.height <= 17 * (b.y2 - b.y1) < 655_360 * (r.height + 1)
                    &&& 393_216 <= b.y2 - b.y1 ==> b.y2 <= 65_536 * (y + r.height)
                }
            },
{
    let x = span_start(b.x1 as int, b.x2 as int, p.width) / (20 * SUBPIXELS);
    let y = span_start(b.y1 as int, b.y2 as int, p.height) / (20 * SUBPIXELS);
    let w = span_length(b.x1 as int, b.x2 as int, p.width) / (20 * SUBPIXELS);
    let h = span_length(b.y1 as int, b.y2 as int, p.height) / (20 * SUBPIXELS);
    padded_spans(b.x1 as int, b.x2 as int, p.width);
    padded_spans(b.y1 as int, b.y2 as int, p.height);
    crops_are_windows(p, x, y, w, h);
    assert(is_window(p, around(p, b), x, y));
}

/// Whether a pixel that starts `i` pixels along a side touches the padded span
/// around `lo..hi`: the span reaches seven twentieths of its length beyond
/// either end, and as far from the start of the side if that cuts it off.
pub open spec fn touches_padding(i: int, lo: int, hi: int) -> bool {
    &&& 27 * lo - 7 * hi < 1_310_720 * (i + 1)
    &&& 1_310_720 * i < 27 * hi - 7 * lo || 655_360 * i < 17 * (hi - lo)
}

/// Only what the padded box touches has a part in the score of a subject: two
/// pictures of one size that agree there have the same score, whatever the
/// type of the photo and the method.
pub proof fn only_the_padded_box_matters(
    p: Picture,
    q: Picture,
    b: FaceBox,
    mode: PhotoMode,
    method: SharpnessMethod,
)
    requires
        0 < p.width == q.width,
        0 < p.height == q.height,
        0 <= b.x1 && b.x1 + 65_536 <= b.x2 && b.x2 <= 65_536 * p.width,
        0 <= b.y1 && b.y1 + 65_536 <= b.y2 && b.y2 <= 65_536 * p.height,
        forall|i: int, j: int|
            0 <= i < p.width && 0 <= j < p.height && touches_padding(
                i,
                b.x1 as int,
                b.x2 as int,
            ) && touches_padding(j, b.y1 as int, b.y2 as int) ==> #[trigger] p.data[j * p.width
                + i] == q.data[j * p.width + i],
    ensures
        score_of(p, mode, Some(b), method) == score_of(q, mode, Some(b), method),
{
    let x = span_start(b.x1 as int, b.x2 as int, p.width) / (20 * SUBPIXELS);
    let y = span_start(b.y1 as int, b.y2 as int, p.height) / (20 * SUBPIXELS);
    let w = span_length(b.x1 as int, b.x2 as int, p.width) / (20 * SUBPIXELS);
    let h = span_length(b.y1 as int, b.y2 as int, p.height) / (20 * SUBPIXELS);
    padded_spans(b.x1 as int, b.x2 as int, p.width);
    padded_spans(b.y1 as int, b.y2 as int, p.height);
    let r = around(p, b);
    let t = around(q, b);
    assert forall|k: int| 0 <= k < r.data.len() implies #[trigger] r.data[k] == t.data[k] by {
        let i = k % w;
        let j = k / w;
        assert(0 <= i < w && 0 <= j < h) by (nonlinear_arith)
            requires
                i == k % w,
                j == k / w,
                0 <= k < w * h,
                w > 0,
        ;
        spans_touch_padding(b.x1 as int, b.x2 as int, p.width, i);
        spans_touch_padding(b.y1 as int, b.y2 as int, p.height, j);
        assert(p.data[(y + j) * p.width + (x + i)] == q.data[(y + j) * p.width + (x + i)]);
    }
    assert(r.data =~= t.data);
}

proof fn spans_touch_padding(lo: int, hi: int, side: int, i: int)
    requires
        0 <= lo && lo + 65_536 <= hi && hi <= 65_536 * side,
        0 <= i < span_length(lo, hi, side) / (20 * SUBPIXELS),
    ensures
        touches_padding(span_start(lo, hi, side) / (20 * SUBPIXELS) + i, lo, hi),
{
}

/// A centered crop is a part of the picture with even margins (the far one a
/// pixel wider if need be) that keeps the given percentage of each side,
/// rounded to whole pixels, and at least one pixel; from a hundred on it is
/// the picture itself.
pub proof fn center_crops_are_centered(p: Picture, percent: int)
    requires
        0 < p.width,
        0 < p.height,
        0 <= percent,
    ensures
        percent >= 100 ==> centered(p, percent) == p,
        percent < 100 ==> exists|x: int, y: int|
            #![trigger is_window(p, centered(p, percent), x, y)]
            {
                let r = centered(p, percent);
                &&& is_window(p, r, x, y)
                &&& p.width - 1 <= 2 * x + r.width <= p.width
                &&& p.height - 1 <= 2 * y + r.height <= p.height
                &&& r.width == 1 && percent * p.width < 50 || 100 * r.width - 50 <= percent
                    * p.width < 100 * r.width + 50
                &&& r.height == 1 && percent * p.height < 50 || 100 * r.height - 50 <= percent
                    * p.height < 100 * r.height + 50
            },
{
    if percent < 100 {
        let w = kept_side(p.width, percent);
        let h = kept_side(p.height, percent);
        let (x, y) = ((p.width - w) / 2, (p.height - h) / 2);
        let (a, b) = (p.width, p.height);
        assert(a * percent == percent * a && b * percent == percent * b) by (nonlinear_arith);
        assert(0 <= percent * a <= 99 * a && 0 <= percent * b <= 99 * b) by (nonlinear_arith)
            requires
                0 <= percent <= 99,
                0 < a,
                0 < b,
        ;
        crops_are_windows(p, x, y, w, h);
        assert(is_window(p, centered(p, percent), x, y));
    }
}

/// What is scored: a subject alone if there is one; otherwise the whole of a
/// landscape, the middle 60 percent of an object or an animal and the middle
/// 45 percent of a portrait, or the sharpest tiles, whatever the type.
pub proof fn types_score_their_region(p: Picture, mode: PhotoMode, b: FaceBox, method: SharpnessMethod)
    ensures
        score_of(p, mode, Some(b), method) == sharpness_of(around(p, b)),
        score_of(p, mode, None, SharpnessMethod::SharpestRegion) == sharpest_of(p),
        score_of(p, PhotoMode::Landscape, None, SharpnessMethod::FixedRegion) == sharpness_of(p),
        score_of(p, PhotoMode::Object, None, SharpnessMethod::FixedRegion) == sharpness_of(
            centered(p, 60),
        ),
        score_of(p, PhotoMode::Animal, None, SharpnessMethod::FixedRegion) == sharpness_of(
            centered(p, 60),
        ),
        score_of(p, PhotoMode::Portrait, None, SharpnessMethod::FixedRegion) == sharpness_of(
            centered(p, 45),
        ),
{
}

/// A photo is taken for an object exactly if it is not almost flat and the
/// middle half of each side is more than 1.6 times as sharp as the whole.
pub proof fn objects_are_sharper_in_the_middle(p: Picture)
    ensures
        guess_of(p) == PhotoMode::Object || guess_of(p) == PhotoMode::Landscape,
        guess_of(p) == PhotoMode::Object <==> sharpness_of(p) > 1_000_000_000 && 5 * sharpness_of(
            centered(p, 50),
        ) > 8 * sharpness_of(p),
{
}

/// The tiles: their side is a sixteenth of the longer edge (rounded down), at
/// least eight pixels, and each edge is cut into as many strips as have at
/// least half a tile (rounded down) on the picture.
pub proof fn tiles_cut_the_frame(width: int, height: int, k: int)
    requires
        0 <= width,
        0 <= height,
        0 <= k,
    ensures
        ({
            let longer = if width > height {
                width
            } else {
                height
            };
            let tile = tile_side(width, height);
            &&& longer < 144 ==> tile == 8
            &&& longer >= 128 ==> 16 * tile <= longer < 16 * (tile + 1)
            &&& k < strips(width, tile) <==> k * tile + tile / 2 <= width
            &&& k < strips(height, tile) <==> k * tile + tile / 2 <= height
        }),
{
    let tile = tile_side(width, height);
    let (a, b) = (width + tile - tile / 2, height + tile - tile / 2);
    assert((k < a / tile <==> (k + 1) * tile <= a) && (k < b / tile <==> (k + 1) * tile <= b))
        by (nonlinear_arith)
        requires
            tile >= 8,
    ;
    assert((k + 1) * tile == k * tile + tile) by (nonlinear_arith);
}

/// The score of a tile is the variance of the Laplacian over exactly its own
/// pixels: those from its first column and row on, up to the next tile or the
/// end of the picture.
pub proof fn tiles_score_their_own_pixels(p: Picture, column: int, row: int)
    requires
        0 <= column < strips(p.width, tile_side(p.width, p.height)),
        0 <= row < strips(p.height, tile_side(p.width, p.height)),
        0 < p.width,
        0 < p.height,
    ensures
        ({
            let tile = tile_side(p.width, p.height);
            let columns = strips(p.width, tile);
            let w = if p.width - column * tile < tile {
                p.width - column * tile
            } else {
                tile
            };
            let h = if p.height - row * tile < tile {
                p.height - row * tile
            } else {
                tile
            };
            &&& row * columns + column < tile_scores(p).len()
            &&& tile_scores(p)[row * columns + column] == variance_of(
                Seq::new(
                    (w * h) as nat,
                    |i: int|
                        laplacian_at(p, column * tile + i % w, row * tile + i / w) as i16 as int,
                ),
            ) as u64
        }),
{
    let tile = tile_side(p.width, p.height);
    let columns = strips(p.width, tile);
    let rows = strips(p.height, tile);
    let (x, y) = (column * tile, row * tile);
    let w = strip_length(x, tile, p.width);
    let h = strip_length(y, tile, p.height);
    pixel_in_picture(column, row, columns, rows);
    assert(rows * columns == columns * rows) by (nonlinear_arith);
    assert((row * columns + column) / columns == row && (row * columns + column) % columns
        == column) by (nonlinear_arith)
        requires
            0 <= column < columns,
    ;
    tiles_cut_the_frame(p.width, p.height, column);
    tiles_cut_the_frame(p.width, p.height, row);
    assert(x >= 0 && y >= 0) by (nonlinear_arith)
        requires
            x == column * tile,
            y == row * tile,
            column >= 0,
            row >= 0,
            tile >= 0,
    ;
    let part = ints(rectangle(laplacian(p), p.width, x, y, w, h));
    let own = Seq::new(
        (w * h) as nat,
        |i: int| laplacian_at(p, column * tile + i % w, row * tile + i / w) as i16 as int,
    );
    assert forall|i: int| 0 <= i < part.len() implies #[trigger] part[i] == own[i] by {
        let u = i % w;
        let v = i / w;
        assert(0 <= u < w && 0 <= v < h) by (nonlinear_arith)
            requires
                u == i % w,
                v == i / w,
                0 <= i < w * h,
                w > 0,
        ;
        pixel_in_picture(x + u, y + v, p.width, p.height);
        let (a, c, width) = (x + u, y + v, p.width);
        assert((c * width + a) / width == c && (c * width + a) % width == a) by (nonlinear_arith)
            requires
                0 <= a < width,
        ;
    }
    assert(part =~= own);
}

proof fn ranking_of_all(scores: Seq<u64>) -> (order: Seq<usize>)
    requires
        scores.len() <= usize::MAX,
    ensures
        order == ranked(first_indices(scores.len()), scores),
        order.len() == scores.len(),
        order.no_duplicates(),
        in_range(order, scores.len()),
        forall|v: usize| v < scores.len() ==> #[trigger] order.contains(v),
        forall|i: int, j: int|
            0 <= i <= j < order.len() ==> scores[#[trigger] order[i] as int]
                >= scores[#[trigger] order[j] as int],
{
    broadcast use vstd::seq_lib::group_to_multiset_ensures;

    let all = first_indices(scores.len());
    let order = ranked(all, scores);
    ranking_is_a_rearrangement(all, scores);
    ranking_keeps_members(all, scores);
    ranking_falls(all, scores);
    assert(in_range(all, scores.len()));
    assert(all.no_duplicates());
    all.lemma_multiset_has_no_duplicates();
    order.lemma_multiset_has_no_duplicates_conv();
    assert forall|v: usize| v < scores.len() implies #[trigger] order.contains(v) by {
        assert(all[v as int] == v);
        assert(all.contains(v));
    }
    order
}

proof fn sum_is_at_least(order: Seq<usize>, keys: Seq<u64>, k: int, v: int)
    requires
        0 <= k <= order.len(),
        forall|i: int| 0 <= i < k ==> keys[#[trigger] order[i] as int] >= v,
    ensures
        sum_of_first(order, keys, k) >= k * v,
    decreases k,
{
    if k > 0 {
        sum_is_at_least(order, keys, k - 1, v);
        assert(keys[order[k - 1] as int] >= v);
        assert((k - 1) * v + v == k * v) by (nonlinear_arith);
    } else {
        assert(0 * v == 0);
    }
}

proof fn sum_is_at_most(order: Seq<usize>, keys: Seq<u64>, k: int, m: usize, v: int)
    requires
        0 <= k <= order.len(),
        order.no_duplicates(),
        in_range(order, keys.len()),
        m < keys.len(),
        keys[m as int] >= v,
        forall|i: int| 0 <= i < keys.len() && i != m ==> #[trigger] keys[i] <= v,
    ensures
        sum_of_first(order, keys, k) <= k * v + (if order.take(k).contains(m) {
            keys[m as int] - v
        } else {
            0
        }),
    decreases k,
{
    if k > 0 {
        sum_is_at_most(order, keys, k - 1, m, v);
        let last = order[k - 1];
        assert(last < keys.len());
        assert((k - 1) * v + v == k * v) by (nonlinear_arith);
        let head = order.take(k - 1);
        if head.contains(m) {
            let i = choose|i: int| 0 <= i < head.len() && head[i] == m;
            assert(order[i] == m);
            assert(order.take(k)[i] == m);
            assert(last != m);
        }
        if last == m {
            assert(order.take(k)[k - 1] == m);
        }
    } else {
        assert(0 * v == 0);
    }
}

/// If as many tiles as a twentieth of them (rounded up) score at least `v`, so
/// does their mean.
pub proof fn sharp_tiles_lift_the_score(scores: Seq<u64>, sharp: Seq<usize>, v: int)
    requires
        0 < scores.len() <= usize::MAX,
        sharp.no_duplicates(),
        20 * (sharp.len() - 1) < scores.len() <= 20 * sharp.len(),
        forall|i: int|
            0 <= i < sharp.len() ==> #[trigger] sharp[i] < scores.len() && scores[sharp[i] as int]
                >= v,
    ensures
        top_mean(scores) >= v,
{
    let order = ranking_of_all(scores);
    let k = sharp.len() as int;
    assert((scores.len() + 19) / 20 == k);
    if scores[order[k - 1] as int] < v {
        let head = order.take(k - 1);
        sharp.unique_seq_to_set();
        assert(head.no_duplicates());
        head.unique_seq_to_set();
        assert forall|x: usize| sharp.to_set().contains(x) implies head.to_set().contains(x) by {
            let i = choose|i: int| 0 <= i < sharp.len() && sharp[i] == x;
            assert(sharp[i] < scores.len());
            assert(order.contains(x));
            let p = choose|p: int| 0 <= p < order.len() && order[p] == x;
            if p >= k - 1 {
                assert(scores[order[k - 1] as int] >= scores[order[p] as int]);
            }
            assert(head[p] == x);
        }
        assert(sharp.to_set().subset_of(head.to_set()));
        lemma_len_subset(sharp.to_set(), head.to_set());
        assert(false);
    }
    assert forall|i: int| 0 <= i < k implies scores[#[trigger] order[i] as int] >= v by {
        assert(scores[order[i] as int] >= scores[order[k - 1] as int]);
    }
    sum_is_at_least(order, scores, k, v);
    let sum = sum_of_first(order, scores, k);
    assert(sum / k >= v) by (nonlinear_arith)
        requires
            sum >= k * v,
            k > 0,
    ;
}

/// One tile counts for no more than its share: if all others score at most
/// `v`, the mean of the top `k` tiles is at most that of this one and `k - 1`
/// tiles of `v`. With twenty tiles or fewer, the score is that of the best.
pub proof fn one_tile_counts_once(scores: Seq<u64>, m: usize, v: int, k: int)
    requires
        m < scores.len() <= usize::MAX,
        scores[m as int] >= v,
        forall|i: int| 0 <= i < scores.len() && i != m ==> #[trigger] scores[i] <= v,
        20 * (k - 1) < scores.len() <= 20 * k,
    ensures
        k * top_mean(scores) <= scores[m as int] + (k - 1) * v,
        k == 1 ==> top_mean(scores) == scores[m as int],
{
    let order = ranking_of_all(scores);
    assert((scores.len() + 19) / 20 == k);
    sum_is_at_most(order, scores, k, m, v);
    let sum = sum_of_first(order, scores, k);
    let top = scores[m as int] as int;
    assert(k * v == (k - 1) * v + v) by (nonlinear_arith);
    assert(k * (sum / k) <= sum) by (nonlinear_arith)
        requires
            k > 0,
    ;
    if k == 1 {
        let best = seq![m];
        assert(best.len() == 1);
        sharp_tiles_lift_the_score(scores, best, top);
    }
}

/// A picture of at least one tile is scored by the mean of its sharpest tiles,
/// a smaller one as a whole.
pub proof fn large_pictures_score_by_tiles(p: Picture)
    ensures
        p.width >= tile_side(p.width, p.height) && p.height >= tile_side(p.width, p.height)
            ==> sharpest_of(p) == top_mean(tile_scores(p)),
        p.width < tile_side(p.width, p.height) || p.height < tile_side(p.width, p.height)
            ==> sharpest_of(p) == sharpness_of(p),
{
}

/// Sharpness is how much the Laplacian of all pixels varies: the mean of its
/// squares less the square of its mean, in billionths, rounded down.
pub proof fn sharpness_is_the_spread_of_the_laplacian(p: Picture)
    requires
        0 < p.width,
        0 < p.height,
    ensures
        ({
            let n = p.width * p.height;
            let s = Seq::new(
                n as nat,
                |i: int| laplacian_at(p, i % p.width, i / p.width) as i16 as int,
            );
            n * n * sharpness_of(p) <= 1_000_000_000 * (n * total_squares(s) - total(s) * total(s))
                < n * n * (sharpness_of(p) + 1)
        }),
{
    let n = p.width * p.height;
    assert(n > 0) by (nonlinear_arith)
        requires
            n == p.width * p.height,
            p.width > 0,
            p.height > 0,
    ;
    let s = Seq::new(n as nat, |i: int| laplacian_at(p, i % p.width, i / p.width) as i16 as int);
    assert(ints(laplacian(p)) =~= s);
    variance_is_mean_square_less_squared_mean(s);
}

/// A picture and the same picture brightened by as much everywhere are as
/// sharp.
pub proof fn brightening_keeps_sharpness(p: Picture, q: Picture, c: int)
    requires
        0 < p.width == q.width,
        0 < p.height == q.height,
        p.data.len() == p.width * p.height,
        q.data.len() == p.width * p.height,
        forall|i: int| 0 <= i < p.data.len() ==> #[trigger] q.data[i] == p.data[i] + c,
    ensures
        sharpness_of(q) == sharpness_of(p),
{
    let w = p.width;
    let h = p.height;
    let a = laplacian(p);
    let b = laplacian(q);
    assert forall|i: int| 0 <= i < a.len() implies #[trigger] a[i] == b[i] by {
        let x = i % w;
        let y = i / w;
        assert(0 <= x < w && 0 <= y < h) by (nonlinear_arith)
            requires
                x == i % w,
                y == i / w,
                0 <= i < w * h,
                w > 0,
        ;
        pixel_in_picture(x, y, w, h);
        pixel_in_picture(nearest_index(x - 1, w), y, w, h);
        pixel_in_picture(nearest_index(x + 1, w), y, w, h);
        pixel_in_picture(x, nearest_index(y - 1, h), w, h);
        pixel_in_picture(x, nearest_index(y + 1, h), w, h);
        assert(laplacian_at(q, x, y) == laplacian_at(p, x, y));
    }
    assert(a =~= b);
}

/// A picture that is not empty can be scored; an empty one unless there is a
/// subject to score, or a middle to crop by the type of the photo.
pub proof fn only_empty_pictures_resist(
    width: u32,
    height: u32,
    mode: PhotoMode,
    b: FaceBox,
    method: SharpnessMethod,
)
    requires
        b.wf(),
    ensures
        0 < width && 0 < height ==> can_score(width, height, mode, None, method) && can_score(
            width,
            height,
            mode,
            Some(b),
            method,
        ),
        width == 0 || height == 0 ==> !can_score(width, height, mode, Some(b), method),
        width == 0 || height == 0 ==> (can_score(width, height, mode, None, method) <==> mode
            == PhotoMode::Landscape || method == SharpnessMethod::SharpestRegion),
{
}

} // verus!
