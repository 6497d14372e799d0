//! Animal detection: what the YOLOX-Nano model is shown, and what its raw
//! numbers mean. It finds the subject of an animal photo so sharpness is scored
//! on the animal rather than on a fixed crop.
//!
//! Only COCO's ten animal classes are recognized (bird, cat, dog, horse, sheep,
//! cow, elephant, bear, zebra, giraffe). Other wildlife won't be detected and
//! falls through to the usual Landscape/Object heuristic.

use vstd::arithmetic::div_mod::lemma_fundamental_div_mod;
use vstd::prelude::*;

use crate::classify::{
    all_raw, all_wf, area_of, covers, dropped_boxes_are_covered, extent, greater, is_main,
    is_prominent, kept_boxes_are_apart, kept_boxes_are_given, kept_boxes_fall_in_confidence,
    kept_of, lesser, lies_within, main_box, main_of, nms, overlaps, picked, within, FaceBox,
    MAX_RAW, RAW_ONE, SUBPIXELS,
};
use crate::fixed::{
    divide_nearest_even, floor_div, nearest_even, round_to_single, scale_power, single_error,
    single_scale, to_single,
};
use crate::raster::{resize_exact, triangle_resized, RgbImage};

verus! {

/// The side of the square picture the animal model is shown.
pub const INPUT_SIZE: u32 = 416;

/// The numbers in each row of the model's output: a box, an objectness and
/// eighty class scores.
pub const ROW_LEN: usize = 85;

/// The byte that fills the part of the input that the picture leaves free.
pub const PAD_VALUE: u8 = 114;

/// Minimum objectness times class score to count as a detection: 0.35, in
/// units of 2^-32 (and rounded as single precision rounds it).
pub const CONF_THRESHOLD: u64 = 1_503_238_528;

/// Animals smaller than this many thousandths of the frame are ignored.
pub const MIN_AREA_PER_MILLE: u32 = 3;

/// The slack of the overlap test on animals: a hundred thousandth of a square
/// pixel, in square sub-pixels.
pub const ANIMAL_SLACK: u64 = 42_949;

/// How many units the scale from a longest side to the model's input is
/// counted in.
pub open spec fn scale_units(longest: int) -> int {
    scale_power(INPUT_SIZE as int, longest)
}

/// The scale from a longest side to the model's input, as single precision
/// holds the quotient.
pub open spec fn input_scale(longest: int) -> int {
    nearest_even(INPUT_SIZE * scale_units(longest), longest)
}

/// The length that a side gets when a picture whose longest side is `longest`
/// is shrunk or grown to the model's input: side times scale, as single
/// precision holds the product, rounded to the nearest pixel, halves up, and at
/// least one pixel.
pub open spec fn fitted_side(side: int, longest: int) -> int {
    let units = scale_units(longest);
    let length = to_single(side * input_scale(longest));
    lesser(greater((2 * length + units) / (2 * units), 1), INPUT_SIZE as int)
}

/// A resampled picture of `width` by `height` in the top left corner of the
/// model's input, the rest filled up, one color plane after another: blue,
/// green, red.
pub open spec fn letterboxed(data: Seq<u8>, width: int, height: int) -> Seq<u8> {
    Seq::new(
        519_168,
        |i: int|
            {
                let x = i % 416;
                let y = i / 416 % 416;
                let plane = i / 173_056;
                if x < width && y < height {
                    data[3 * (y * width + x) + (2 - plane)]
                } else {
                    PAD_VALUE
                }
            },
    )
}

/// Puts a picture that fits the model's input into its top left corner.
pub fn letterbox(resized: &RgbImage) -> (r: Vec<u8>)
    requires
        resized.wf(),
        resized.width <= INPUT_SIZE,
        resized.height <= INPUT_SIZE,
    ensures
        r@ == letterboxed(resized.data@, resized.width as int, resized.height as int),
{
    let w: usize = resized.width as usize;
    let h: usize = resized.height as usize;
    let ghost all = letterboxed(resized.data@, w as int, h as int);
    let mut out: Vec<u8> = Vec::new();
    for i in 0..519_168usize
        invariant
            w <= 416,
            h <= 416,
            resized.data@.len() == 3 * (w * h),
            all == letterboxed(resized.data@, w as int, h as int),
            out@ =~= all.take(i as int),
    {
        let x: usize = i % 416;
        let y: usize = i / 416 % 416;
        let plane: usize = i / 173_056;
        let byte: u8 = if x < w && y < h {
            assert(0 <= y * w + x < w * h) by (nonlinear_arith)
                requires
                    0 <= x < w,
                    0 <= y < h,
            ;
            assert(w * h <= 416 * 416) by (nonlinear_arith)
                requires
                    0 <= w <= 416,
                    0 <= h <= 416,
            ;
            resized.data[3 * (y * w + x) + (2 - plane)]
        } else {
            PAD_VALUE
        };
        assert(byte == all[i as int]);
        out.push(byte);
    }
    assert(all.take(519_168) =~= all);
    out
}

/// The size of the picture that the model is shown of a picture of the given
/// size.
pub open spec fn fitted_size(width: int, height: int) -> (int, int) {
    let longest = greater(width, height);
    (fitted_side(width, longest), fitted_side(height, longest))
}

fn fit_side(side: u32, longest: u32) -> (r: u32)
    requires
        side <= longest <= 1_048_576,
        0 < longest,
    ensures
        r == fitted_side(side as int, longest as int),
        1 <= r <= INPUT_SIZE,
{
    let units: u64 = single_scale(416, longest as u64);
    assert(units <= 0x1000_0000_0000) by (nonlinear_arith)
        requires
            416 * units < 16_777_216 * longest || units == 1,
            longest <= 1_048_576,
    ;
    let scale: u64 = divide_nearest_even(416 * units, longest as u64);
    proof {
        scale_bound(longest as int, units as int);
    }
    assert(side * scale <= 1_048_576 * 3_489_660_928) by (nonlinear_arith)
        requires
            0 <= side <= 1_048_576,
            0 <= scale <= 3_489_660_928,
    ;
    let length: u64 = round_to_single(side as u64 * scale);
    let rounded: u64 = (2 * length + units) / (2 * units);
    if rounded < 1 {
        1
    } else if rounded > INPUT_SIZE as u64 {
        INPUT_SIZE
    } else {
        rounded as u32
    }
}

/// The scale has hardly more than 24 bits, or is that of a picture of one
/// pixel or few.
proof fn scale_bound(longest: int, units: int)
    requires
        0 < longest <= 1_048_576,
        1 <= units,
        416 * units >= 8_388_608 * longest,
        416 * units < 16_777_216 * longest || units == 1,
    ensures
        0 <= nearest_even(416 * units, longest) <= 3_489_660_928,
        2 * (longest * nearest_even(416 * units, longest) - 416 * units) <= longest,
        2 * (416 * units - longest * nearest_even(416 * units, longest)) <= longest,
{
    let a = 416 * units;
    let q = a / longest;
    let r = a % longest;
    lemma_fundamental_div_mod(a, longest);
    assert(0 <= r < longest && 0 <= q) by (nonlinear_arith)
        requires
            q == a / longest,
            r == a % longest,
            longest > 0,
            a >= 0,
    ;
    assert(longest * (q + 1) == longest * q + longest) by (nonlinear_arith);
    assert(q <= 16_777_216) by (nonlinear_arith)
        requires
            a == longest * q + r,
            0 <= r,
            a < 16_777_216 * longest || a == 416,
            longest >= 1,
    ;
}

/// The bytes that the animal model is shown of a picture.
pub open spec fn animal_view(data: Seq<u8>, width: u32, height: u32) -> Seq<u8> {
    let (w, h) = fitted_size(width as int, height as int);
    letterboxed(triangle_resized(data, width, height, w as u32, h as u32), w, h)
}

/// The animal model is shown the picture resampled to its fitted size, in the
/// top left corner of a gray square of 416 by 416 pixels: the blues first, then
/// the greens, then the reds.
pub proof fn animals_are_sought_in_a_letterbox(
    data: Seq<u8>,
    width: u32,
    height: u32,
    x: int,
    y: int,
)
    requires
        0 <= x < 416,
        0 <= y < 416,
    ensures
        ({
            let (w, h) = fitted_size(width as int, height as int);
            let small = triangle_resized(data, width, height, w as u32, h as u32);
            let shown = animal_view(data, width, height);
            let at = 416 * y + x;
            &&& shown.len() == 519_168
            &&& x < w && y < h ==> shown[at] == small[3 * (y * w + x) + 2] && shown[173_056 + at]
                == small[3 * (y * w + x) + 1] && shown[346_112 + at] == small[3 * (y * w + x)]
            &&& x >= w || y >= h ==> shown[at] == 114 && shown[173_056 + at] == 114
                && shown[346_112 + at] == 114
        }),
{
    let (w, h) = fitted_size(width as int, height as int);
    letterbox_keeps_pixels(
        triangle_resized(data, width, height, w as u32, h as u32),
        w,
        h,
        x,
        y,
    );
}

/// What the animal model is shown of a picture: fitted into its input keeping
/// the aspect, anchored top left; nothing for an empty picture.
pub fn animal_input(rgb: &RgbImage) -> (r: Option<Vec<u8>>)
    requires
        rgb.wf(),
        rgb.can_resample(),
    ensures
        r is None <==> rgb.width == 0 || rgb.height == 0,
        r matches Some(v) ==> {
            let (w, h) = fitted_size(rgb.width as int, rgb.height as int);
            v@ == letterboxed(
                triangle_resized(rgb.data@, rgb.width, rgb.height, w as u32, h as u32),
                w,
                h,
            )
        },
        r matches Some(v) ==> v@ == animal_view(rgb.data@, rgb.width, rgb.height),
{
    if rgb.width == 0 || rgb.height == 0 {
        return None;
    }
    let longest: u32 = if rgb.width < rgb.height {
        rgb.height
    } else {
        rgb.width
    };
    let w: u32 = fit_side(rgb.width, longest);
    let h: u32 = fit_side(rgb.height, longest);
    assert(w * h <= 416 * 416) by (nonlinear_arith)
        requires
            0 <= w <= 416,
            0 <= h <= 416,
    ;
    Some(letterbox(&resize_exact(rgb, w, h)))
}

/// A cell of the model's output grids.
#[derive(Debug, Clone, Copy, PartialEq, Eq, Structural)]
pub struct Cell {
    pub x: u32,
    pub y: u32,
    /// The side of the cell, in pixels of the input.
    pub stride: u32,
}

/// A square grid of `side` by `side` cells, row by row.
pub open spec fn square(side: int, stride: u32) -> Seq<Cell> {
    Seq::new(
        (side * side) as nat,
        |i: int| Cell { x: (i % side) as u32, y: (i / side) as u32, stride },
    )
}

/// The cells in the order the model emits them: the grid of stride 8, then 16,
/// then 32.
pub open spec fn grid_layout() -> Seq<Cell> {
    square(52, 8) + square(26, 16) + square(13, 32)
}

proof fn grid_lengths()
    ensures
        square(52, 8).len() == 2704,
        square(26, 16).len() == 676,
        square(13, 32).len() == 169,
        grid_layout().len() == 3549,
{
    assert(52int * 52 == 2704);
    assert(26int * 26 == 676);
    assert(13int * 13 == 169);
}

proof fn grid_bounds(i: int)
    requires
        0 <= i < grid_layout().len(),
    ensures
        grid_layout()[i].x < 52,
        grid_layout()[i].y < 52,
        grid_layout()[i].stride <= 32,
{
    grid_lengths();
    if i < 2704 {
        assert(grid_layout()[i] == square(52, 8)[i]);
        assert(0 <= i / 52 < 52);
    } else if i < 3380 {
        assert(grid_layout()[i] == square(26, 16)[i - 2704]);
        assert(0 <= (i - 2704) / 26 < 26);
    } else {
        assert(grid_layout()[i] == square(13, 32)[i - 3380]);
        assert(0 <= (i - 3380) / 13 < 13);
    }
}

/// Appends a square grid.
fn push_square(out: &mut Vec<Cell>, side: u32, stride: u32)
    requires
        0 < side <= 52,
    ensures
        final(out)@ == old(out)@ + square(side as int, stride),
{
    let ghost before = out@;
    let ghost all = square(side as int, stride);
    assert(0 < side * side <= 2704) by (nonlinear_arith)
        requires
            0 < side <= 52,
    ;
    let total: u32 = side * side;
    for i in 0..total
        invariant
            0 < side <= 52,
            total == side * side,
            all == square(side as int, stride),
            out@ =~= before + all.take(i as int),
    {
        out.push(Cell { x: i % side, y: i / side, stride });
    }
    assert(all.take(total as int) =~= all);
}

/// The cell of each output row.
pub fn grid() -> (r: Vec<Cell>)
    ensures
        r@ == grid_layout(),
        r@.len() == 3549,
{
    let mut cells: Vec<Cell> = Vec::new();
    push_square(&mut cells, INPUT_SIZE / 8, 8);
    push_square(&mut cells, INPUT_SIZE / 16, 16);
    push_square(&mut cells, INPUT_SIZE / 32, 32);
    proof {
        grid_lengths();
    }
    cells
}

/// The greatest of the numbers, or zero if none is above it.
pub open spec fn greatest(s: Seq<i64>) -> int
    decreases s.len(),
{
    if s.len() == 0 {
        0
    } else {
        greater(greatest(s.drop_last()), s.last() as int)
    }
}

/// The confidence of a row: its objectness times its best animal class score.
pub open spec fn row_score(row: Seq<i64>) -> int {
    row[4] * greatest(row.subrange(19, 29)) / RAW_ONE as int
}

/// The box of a row, in sub-pixels of the model's input: centered at an offset
/// from the cell's corner, its size a multiple of the cell's.
pub open spec fn row_box(cell: Cell, row: Seq<i64>) -> FaceBox {
    let cx = (row[0] + cell.x * RAW_ONE) * cell.stride / 65_536;
    let cy = (row[1] + cell.y * RAW_ONE) * cell.stride / 65_536;
    let hw = row[2] * cell.stride / 131_072;
    let hh = row[3] * cell.stride / 131_072;
    FaceBox {
        x1: (cx - hw) as i64,
        y1: (cy - hh) as i64,
        x2: (cx + hw) as i64,
        y2: (cy + hh) as i64,
        score: row_score(row) as u64,
    }
}

/// Row `i` of an output.
pub open spec fn row_at(out: Seq<i64>, i: int) -> Seq<i64> {
    out.subrange(85 * i, 85 * i + 85)
}

/// The boxes of the first `n` rows whose confidence is high enough.
pub open spec fn animal_candidates(out: Seq<i64>, n: int) -> Seq<FaceBox>
    decreases n,
{
    if n <= 0 {
        Seq::empty()
    } else {
        let before = animal_candidates(out, n - 1);
        let row = row_at(out, n - 1);
        if row_score(row) >= CONF_THRESHOLD {
            before.push(row_box(grid_layout()[n - 1], row))
        } else {
            before
        }
    }
}

/// The rows that an output and the grid have in common.
pub open spec fn animal_rows(out: Seq<i64>) -> int {
    lesser(out.len() as int / 85, 3549)
}

/// The best animal class score of the row that starts at `from`.
fn best_class(out: &Vec<i64>, from: usize) -> (r: i64)
    requires
        from + 85 <= out@.len(),
        all_raw(out@),
    ensures
        r == greatest(out@.subrange(from as int, from + 85).subrange(19, 29)),
        0 <= r <= MAX_RAW,
{
    let ghost scores = out@.subrange(from as int, from + 85).subrange(19, 29);
    let total: usize = out.len();
    let mut best: i64 = 0;
    for k in 0..10usize
        invariant
            total == out@.len(),
            from + 85 <= total,
            all_raw(out@),
            scores == out@.subrange(from as int, from + 85).subrange(19, 29),
            scores.len() == 10,
            best == greatest(scores.take(k as int)),
            0 <= best <= MAX_RAW,
    {
        assert(scores.take(k + 1).drop_last() =~= scores.take(k as int));
        let v: i64 = out[from + 19 + k];
        assert(v == scores[k as int]);
        if best < v {
            best = v;
        }
    }
    assert(scores.take(10) =~= scores);
    best
}

/// The confidence of the row that starts at `from`, if it is high enough.
fn confidence(out: &Vec<i64>, from: usize) -> (r: Option<u64>)
    requires
        from + 85 <= out@.len(),
        all_raw(out@),
    ensures
        r is Some <==> row_score(out@.subrange(from as int, from + 85)) >= CONF_THRESHOLD,
        r matches Some(v) ==> v == row_score(out@.subrange(from as int, from + 85)),
{
    let ghost row = out@.subrange(from as int, from + 85);
    assert(from + 85 <= out.len());
    let objectness: i64 = out[from + 4];
    assert(objectness == row[4]);
    let best: i64 = best_class(out, from);
    if objectness <= 0 {
        assert(objectness * best / 4_294_967_296 <= 0) by (nonlinear_arith)
            requires
                objectness <= 0,
                0 <= best,
        ;
        return None;
    }
    assert(0 <= objectness * best <= 281_474_976_710_655 * 281_474_976_710_655)
        by (nonlinear_arith)
        requires
            0 <= objectness <= 281_474_976_710_655,
            0 <= best <= 281_474_976_710_655,
    ;
    let score: u64 = (objectness as u128 * best as u128 / RAW_ONE as u128) as u64;
    if score >= CONF_THRESHOLD {
        Some(score)
    } else {
        None
    }
}

proof fn stride_bound(v: int, stride: int)
    requires
        -300_000_000_000_000 <= v <= 600_000_000_000_000,
        0 <= stride <= 32,
    ensures
        -9_600_000_000_000_000 <= v * stride <= 19_200_000_000_000_000,
{
    assert(-9_600_000_000_000_000 <= v * stride <= 19_200_000_000_000_000) by (nonlinear_arith)
        requires
            -300_000_000_000_000 <= v <= 600_000_000_000_000,
            0 <= stride <= 32,
    ;
}

/// The box of the row that starts at `from`.
fn decode(cell: &Cell, out: &Vec<i64>, from: usize, score: u64) -> (r: FaceBox)
    requires
        from + 85 <= out@.len(),
        all_raw(out@),
        cell.x < 52,
        cell.y < 52,
        cell.stride <= 32,
        score == row_score(out@.subrange(from as int, from + 85)),
    ensures
        r == row_box(*cell, out@.subrange(from as int, from + 85)),
        r.wf(),
{
    let ghost row = out@.subrange(from as int, from + 85);
    assert(from + 85 <= out.len());
    let stride: i64 = cell.stride as i64;
    proof {
        assert(row[0] == out@[from as int] && row[1] == out@[from + 1] && row[2] == out@[from + 2]
            && row[3] == out@[from + 3]);
        stride_bound(row[0] + cell.x * RAW_ONE, stride as int);
        stride_bound(row[1] + cell.y * RAW_ONE, stride as int);
        stride_bound(row[2] as int, stride as int);
        stride_bound(row[3] as int, stride as int);
    }
    let cx: i64 = floor_div((out[from] + cell.x as i64 * RAW_ONE) * stride, 65_536);
    let cy: i64 = floor_div((out[from + 1] + cell.y as i64 * RAW_ONE) * stride, 65_536);
    let hw: i64 = floor_div(out[from + 2] * stride, 131_072);
    let hh: i64 = floor_div(out[from + 3] * stride, 131_072);
    FaceBox { x1: cx - hw, y1: cy - hh, x2: cx + hw, y2: cy + hh, score }
}

/// The boxes of all rows whose confidence is high enough.
fn confident_animals(out: &Vec<i64>) -> (r: Vec<FaceBox>)
    requires
        all_raw(out@),
    ensures
        r@ == animal_candidates(out@, animal_rows(out@)),
        all_wf(r@),
{
    let cells = grid();
    let total: usize = out.len();
    let rows: usize = total / 85;
    let n: usize = if rows < 3549 {
        rows
    } else {
        3549
    };
    let mut candidates: Vec<FaceBox> = Vec::new();
    for i in 0..n
        invariant
            all_raw(out@),
            total == out@.len(),
            cells@ == grid_layout(),
            cells@.len() == 3549,
            n == animal_rows(out@),
            candidates@ == animal_candidates(out@, i as int),
            all_wf(candidates@),
    {
        assert(85 * i + 85 <= total);
        let from: usize = ROW_LEN * i;
        if let Some(score) = confidence(out, from) {
            proof {
                grid_bounds(i as int);
            }
            candidates.push(decode(&cells[i], out, from, score));
        }
    }
    candidates
}

/// An edge of a box in the model's input, scaled to the picture and cut off
/// at its edges.
pub open spec fn placed_edge(v: int, longest: int, pixels: int) -> int {
    within(v * longest / INPUT_SIZE as int, pixels * SUBPIXELS)
}

/// A box of the model's input, scaled to a picture of `width` by `height`
/// pixels and cut off at its edges.
pub open spec fn placed(b: FaceBox, width: int, height: int) -> FaceBox {
    let longest = greater(width, height);
    FaceBox {
        x1: placed_edge(b.x1 as int, longest, width) as i64,
        y1: placed_edge(b.y1 as int, longest, height) as i64,
        x2: placed_edge(b.x2 as int, longest, width) as i64,
        y2: placed_edge(b.y2 as int, longest, height) as i64,
        score: b.score,
    }
}

/// Those of the boxes that are prominent once placed in the picture.
pub open spec fn prominent_animals(kept: Seq<FaceBox>, width: int, height: int) -> Seq<FaceBox>
    decreases kept.len(),
{
    if kept.len() == 0 {
        Seq::empty()
    } else {
        let before = prominent_animals(kept.drop_last(), width, height);
        let b = placed(kept.last(), width, height);
        if is_prominent(b, width, height, MIN_AREA_PER_MILLE as int) {
            before.push(b)
        } else {
            before
        }
    }
}

/// The animals that the model's output shows in a picture of the given size:
/// none if the picture is empty or the model failed.
pub open spec fn animals_of(width: int, height: int, output: Option<&Vec<i64>>) -> Seq<FaceBox> {
    match output {
        Some(out) if width > 0 && height > 0 => {
            let candidates = animal_candidates(out@, animal_rows(out@));
            prominent_animals(
                picked(candidates, kept_of(candidates, ANIMAL_SLACK as int)),
                width,
                height,
            )
        },
        _ => Seq::empty(),
    }
}

fn place_edge(v: i64, longest: u32, pixels: u32) -> (r: i64)
    requires
        -1_099_511_627_776 <= v <= 1_099_511_627_776,
        pixels <= longest <= 1_048_576,
    ensures
        r == placed_edge(v as int, longest as int, pixels as int),
        0 <= r <= pixels * SUBPIXELS,
{
    assert(-1_152_921_504_606_846_976 <= v * longest <= 1_152_921_504_606_846_976)
        by (nonlinear_arith)
        requires
            -1_099_511_627_776 <= v <= 1_099_511_627_776,
            0 <= longest <= 1_048_576,
    ;
    let scaled: i64 = floor_div(v * longest as i64, INPUT_SIZE as i64);
    let top: i64 = pixels as i64 * SUBPIXELS;
    if scaled < 0 {
        0
    } else if scaled < top {
        scaled
    } else {
        top
    }
}

/// The animals that the animal model's output shows in `rgb`, in `rgb`'s own
/// sub-pixels, most confident first. The output holds rows of numbers in units
/// of 2^-32: center offsets, factors of width and height, objectness and class
/// scores. Without an output (an inference failure) there are none, same as in
/// face detection. [`FaceBox`] doubles as the generic subject box here.
pub fn detect_animals(rgb: &RgbImage, output: Option<&Vec<i64>>) -> (r: Vec<FaceBox>)
    requires
        rgb.can_resample(),
        output matches Some(out) ==> all_raw(out@),
    ensures
        r@ == animals_of(rgb.width as int, rgb.height as int, output),
        all_wf(r@),
{
    let mut animals: Vec<FaceBox> = Vec::new();
    if rgb.width == 0 || rgb.height == 0 {
        return animals;
    }
    let Some(out) = output else {
        return animals;
    };
    let kept = nms(&confident_animals(out), ANIMAL_SLACK);
    let n: usize = kept.len();
    let (w, h): (u32, u32) = (rgb.width, rgb.height);
    let longest: u32 = if w < h {
        h
    } else {
        w
    };
    for i in 0..n
        invariant
            n == kept@.len(),
            all_wf(kept@),
            longest == greater(w as int, h as int),
            w <= 1_048_576,
            h <= 1_048_576,
            animals@ == prominent_animals(kept@.take(i as int), w as int, h as int),
            all_wf(animals@),
    {
        assert(kept@.take(i + 1).drop_last() =~= kept@.take(i as int));
        let b = FaceBox {
            x1: place_edge(kept[i].x1, longest, w),
            y1: place_edge(kept[i].y1, longest, h),
            x2: place_edge(kept[i].x2, longest, w),
            y2: place_edge(kept[i].y2, longest, h),
            score: kept[i].score,
        };
        if covers(&b, w, h, MIN_AREA_PER_MILLE) {
            animals.push(b);
        }
    }
    assert(kept@.take(n as int) =~= kept@);
    animals
}

/// The largest detected animal, on the assumption that it's the subject.
pub fn detect_main_animal(rgb: &RgbImage, output: Option<&Vec<i64>>) -> (r: Option<FaceBox>)
    requires
        rgb.can_resample(),
        output matches Some(out) ==> all_raw(out@),
    ensures
        is_main(animals_of(rgb.width as int, rgb.height as int, output), r),
        r == main_box(animals_of(rgb.width as int, rgb.height as int, output)),
        r matches Some(b) ==> b.wf(),
{
    main_of(&detect_animals(rgb, output))
}

proof fn prominent_animals_facts(kept: Seq<FaceBox>, width: int, height: int, i: int)
    requires
        0 <= width <= 1_048_576,
        0 <= height <= 1_048_576,
        0 <= i < prominent_animals(kept, width, height).len(),
    ensures
        lies_within(prominent_animals(kept, width, height)[i], width, height),
        is_prominent(
            prominent_animals(kept, width, height)[i],
            width,
            height,
            MIN_AREA_PER_MILLE as int,
        ),
    decreases kept.len(),
{
    let before = prominent_animals(kept.drop_last(), width, height);
    if i < before.len() {
        prominent_animals_facts(kept.drop_last(), width, height, i);
    }
}

/// Every reported animal lies in the picture and covers at least three
/// thousandths of it.
pub proof fn animals_lie_in_the_picture(
    width: int,
    height: int,
    output: Option<&Vec<i64>>,
    i: int,
)
    requires
        0 <= width <= 1_048_576,
        0 <= height <= 1_048_576,
        0 <= i < animals_of(width, height, output).len(),
    ensures
        lies_within(animals_of(width, height, output)[i], width, height),
        is_prominent(
            animals_of(width, height, output)[i],
            width,
            height,
            MIN_AREA_PER_MILLE as int,
        ),
{
    let out = output.unwrap();
    let candidates = animal_candidates(out@, animal_rows(out@));
    prominent_animals_facts(
        picked(candidates, kept_of(candidates, ANIMAL_SLACK as int)),
        width,
        height,
        i,
    );
}

/// The longest side fills the model's input, the other one fits it, and
/// neither vanishes.
pub proof fn fitted_size_fits(width: int, height: int)
    requires
        0 < width <= 1_048_576,
        0 < height <= 1_048_576,
    ensures
        1 <= fitted_size(width, height).0 <= INPUT_SIZE,
        1 <= fitted_size(width, height).1 <= INPUT_SIZE,
        width >= height ==> fitted_size(width, height).0 == INPUT_SIZE,
        height >= width ==> fitted_size(width, height).1 == INPUT_SIZE,
{
    let longest = greater(width, height);
    let units = scale_units(longest);
    let scale = input_scale(longest);
    scale_facts(longest);
    scale_bound(longest, units);
    let exact = longest * scale;
    assert(exact >= 0) by (nonlinear_arith)
        requires
            exact == longest * scale,
            longest > 0,
            scale >= 0,
    ;
    single_error(exact);
    let length = to_single(exact);
    let target = 416 * units;
    assert(2 * exact <= 2 * target + longest && 2 * target <= 2 * exact + longest);
    assert(2 * target - units < 2 * length < 2 * target + units);
    assert((2 * length + units) / (2 * units) == 416) by (nonlinear_arith)
        requires
            2 * target - units < 2 * length < 2 * target + units,
            target == 416 * units,
            units >= 1,
    ;
}

proof fn scale_facts(longest: int)
    requires
        0 < longest <= 1_048_576,
    ensures
        scale_units(longest) >= 1,
        416 * scale_units(longest) >= 8_388_608 * longest,
        416 * scale_units(longest) < 16_777_216 * longest || scale_units(longest) == 1,
{
    power_facts(416, longest);
}

proof fn power_facts(num: int, den: int)
    requires
        0 < num,
        0 < den,
    ensures
        scale_power(num, den) >= 1,
        num * scale_power(num, den) >= 8_388_608 * den,
        num * scale_power(num, den) < 16_777_216 * den || scale_power(num, den) == 1,
    decreases 16_777_216 * den - num,
{
    if num < 8_388_608 * den {
        power_facts(2 * num, den);
        let rest = scale_power(2 * num, den);
        assert(num * (2 * rest) == (2 * num) * rest) by (nonlinear_arith);
    }
}

/// What the first four numbers of a row mean. The first two are the offset of
/// the middle of the box from the corner of its cell, across and down, the
/// next two its width and its height, all in sides of the cell. (Each product
/// is rounded down to whole sub-pixels.)
pub proof fn rows_lie_at_their_cells(cell: Cell, row: Seq<i64>)
    requires
        cell.x < 52,
        cell.y < 52,
        cell.stride <= 32,
        row.len() == 85,
        all_raw(row),
    ensures
        ({
            let b = row_box(cell, row);
            &&& 32_768 * (b.x1 + b.x2) <= (row[0] + 4_294_967_296 * cell.x) * cell.stride < 32_768
                * (b.x1 + b.x2 + 2)
            &&& 32_768 * (b.y1 + b.y2) <= (row[1] + 4_294_967_296 * cell.y) * cell.stride < 32_768
                * (b.y1 + b.y2 + 2)
            &&& 65_536 * (b.x2 - b.x1) <= row[2] * cell.stride < 65_536 * (b.x2 - b.x1 + 2)
            &&& 65_536 * (b.y2 - b.y1) <= row[3] * cell.stride < 65_536 * (b.y2 - b.y1 + 2)
            &&& row[0] == 0 ==> b.x1 + b.x2 == 131_072 * (cell.x * cell.stride)
            &&& row[1] == 0 ==> b.y1 + b.y2 == 131_072 * (cell.y * cell.stride)
        }),
{
    let stride = cell.stride as int;
    let (x, y) = (cell.x as int, cell.y as int);
    stride_bound(row[0] + cell.x * RAW_ONE, stride);
    stride_bound(row[1] + cell.y * RAW_ONE, stride);
    stride_bound(row[2] as int, stride);
    stride_bound(row[3] as int, stride);
    assert(4_294_967_296 * x * stride == 65_536 * (65_536 * (x * stride))) by (nonlinear_arith);
    assert(4_294_967_296 * y * stride == 65_536 * (65_536 * (y * stride))) by (nonlinear_arith);
}

/// Of two equal rows the one in the next column lies one side of the cell
/// further right at the same height, and the one in the next line lies one
/// side of the cell further down. Edges across depend on the column and the
/// first and third number only, edges down on the line and the second and
/// fourth.
pub proof fn neighbouring_cells_shift_by_their_stride(
    cell: Cell,
    next: Cell,
    row: Seq<i64>,
    other: Seq<i64>,
)
    requires
        cell.x < 52,
        cell.y < 52,
        next.x < 52,
        next.y < 52,
        cell.stride <= 32,
        next.stride == cell.stride,
        row.len() == 85,
        other.len() == 85,
        all_raw(row),
        all_raw(other),
    ensures
        ({
            let a = row_box(cell, row);
            let b = row_box(next, other);
            &&& next.x == cell.x + 1 && other[0] == row[0] && other[2] == row[2] ==> b.x1 == a.x1
                + 65_536 * cell.stride && b.x2 == a.x2 + 65_536 * cell.stride
            &&& next.y == cell.y + 1 && other[1] == row[1] && other[3] == row[3] ==> b.y1 == a.y1
                + 65_536 * cell.stride && b.y2 == a.y2 + 65_536 * cell.stride
            &&& next.x == cell.x && other[0] == row[0] && other[2] == row[2] ==> b.x1 == a.x1
                && b.x2 == a.x2
            &&& next.y == cell.y && other[1] == row[1] && other[3] == row[3] ==> b.y1 == a.y1
                && b.y2 == a.y2
        }),
{
    let stride = cell.stride as int;
    stride_bound(row[0] + cell.x * RAW_ONE, stride);
    stride_bound(row[1] + cell.y * RAW_ONE, stride);
    stride_bound(other[0] + next.x * RAW_ONE, stride);
    stride_bound(other[1] + next.y * RAW_ONE, stride);
    stride_bound(row[2] as int, stride);
    stride_bound(row[3] as int, stride);
    let u = row[0] + cell.x * RAW_ONE;
    let v = row[1] + cell.y * RAW_ONE;
    assert((u + 4_294_967_296) * stride == u * stride + 4_294_967_296 * stride)
        by (nonlinear_arith);
    assert((v + 4_294_967_296) * stride == v * stride + 4_294_967_296 * stride)
        by (nonlinear_arith);
}

/// Where the cells stand: 52 lines of 52 cells of eight pixels, then 26 of 26
/// of sixteen, then 13 of 13 of thirty-two, line by line.
pub proof fn cells_run_line_by_line(x: int, y: int)
    requires
        0 <= x,
        0 <= y,
    ensures
        grid_layout().len() == 3549,
        x < 52 && y < 52 ==> grid_layout()[52 * y + x] == (Cell {
            x: x as u32,
            y: y as u32,
            stride: 8,
        }),
        x < 26 && y < 26 ==> grid_layout()[2704 + 26 * y + x] == (Cell {
            x: x as u32,
            y: y as u32,
            stride: 16,
        }),
        x < 13 && y < 13 ==> grid_layout()[3380 + 13 * y + x] == (Cell {
            x: x as u32,
            y: y as u32,
            stride: 32,
        }),
{
    grid_lengths();
    if x < 52 && y < 52 {
        let i = 52 * y + x;
        assert(i / 52 == y && i % 52 == x);
        assert(grid_layout()[i] == square(52, 8)[i]);
    }
    if x < 26 && y < 26 {
        let i = 26 * y + x;
        assert(i / 26 == y && i % 26 == x);
        assert(grid_layout()[2704 + i] == square(26, 16)[i]);
    }
    if x < 13 && y < 13 {
        let i = 13 * y + x;
        assert(i / 13 == y && i % 13 == x);
        assert(grid_layout()[3380 + i] == square(13, 32)[i]);
    }
}

proof fn greatest_facts(s: Seq<i64>)
    ensures
        greatest(s) >= 0,
        forall|i: int| 0 <= i < s.len() ==> #[trigger] s[i] <= greatest(s),
        greatest(s) == 0 || exists|i: int| 0 <= i < s.len() && #[trigger] s[i] == greatest(s),
    decreases s.len(),
{
    if s.len() > 0 {
        let t = s.drop_last();
        greatest_facts(t);
        assert(s[s.len() - 1] == s.last());
        assert forall|i: int| 0 <= i < s.len() implies #[trigger] s[i] <= greatest(s) by {
            if i < t.len() {
                assert(t[i] == s[i]);
            }
        }
        if greatest(s) != 0 && greatest(s) == greatest(t) {
            let i = choose|i: int| 0 <= i < t.len() && #[trigger] t[i] == greatest(t);
            assert(s[i] == greatest(s));
        }
    }
}

/// The confidence of a row is its objectness times the best of its ten animal
/// class scores (classes 14 to 23, bird to giraffe); no other number of the
/// row has a part in it.
pub proof fn rows_score_by_their_best_animal(row: Seq<i64>, other: Seq<i64>)
    requires
        row.len() == 85,
        other.len() == 85,
        0 <= row[4],
    ensures
        0 <= row_score(row),
        forall|c: int|
            #![trigger row[5 + c]]
            14 <= c <= 23 && row[5 + c] >= 0 ==> row[4] * row[5 + c] < 4_294_967_296 * (row_score(
                row,
            ) + 1),
        row_score(row) == 0 || exists|c: int|
            #![trigger row[5 + c]]
            14 <= c <= 23 && 4_294_967_296 * row_score(row) <= row[4] * row[5 + c],
        other[4] == row[4] && (forall|c: int|
            #![trigger row[5 + c]]
            14 <= c <= 23 ==> other[5 + c] == row[5 + c]) ==> row_score(other) == row_score(row),
{
    let classes = row.subrange(19, 29);
    let best = greatest(classes);
    let object = row[4] as int;
    greatest_facts(classes);
    assert(object * best >= 0) by (nonlinear_arith)
        requires
            object >= 0,
            best >= 0,
    ;
    assert forall|c: int|
        #![trigger row[5 + c]]
        14 <= c <= 23 && row[5 + c] >= 0 implies row[4] * row[5 + c] < 4_294_967_296 * (row_score(
        row,
    ) + 1) by {
        let v = row[5 + c] as int;
        assert(classes[c - 14] == row[5 + c]);
        assert(object * v <= object * best) by (nonlinear_arith)
            requires
                object >= 0,
                v <= best,
        ;
    }
    if row_score(row) != 0 {
        assert(best != 0) by {
            assert(object * 0 == 0);
        }
        let i = choose|i: int| 0 <= i < classes.len() && #[trigger] classes[i] == best;
        assert(row[5 + (14 + i)] == best);
    }
    if other[4] == row[4] && (forall|c: int|
        #![trigger row[5 + c]]
        14 <= c <= 23 ==> other[5 + c] == row[5 + c]) {
        assert forall|i: int| 0 <= i < 10 implies #[trigger] other.subrange(19, 29)[i]
            == classes[i] by {
            assert(other[5 + (14 + i)] == row[5 + (14 + i)]);
        }
        assert(other.subrange(19, 29) =~= classes);
    }
}

/// Whether row `i` of an output gives box `b`: its confidence is at least
/// thirty-five hundredths (in single precision), and `b` is what its numbers
/// say at the cell of the same place.
pub open spec fn row_gives(out: Seq<i64>, i: int, b: FaceBox) -> bool {
    let row = out.skip(85 * i).take(85);
    row_score(row) >= 1_503_238_528 && b == row_box(grid_layout()[i], row)
}

/// Whether one of the first `n` rows gives box `b`.
pub open spec fn some_row_gives(out: Seq<i64>, n: int, b: FaceBox) -> bool {
    exists|i: int| 0 <= i < n && #[trigger] row_gives(out, i, b)
}

/// A row is a candidate exactly if it is confident enough, and candidates keep
/// the order of their rows.
pub proof fn confident_rows_are_candidates(out: Seq<i64>, n: int)
    requires
        0 <= n,
        85 * n <= out.len(),
    ensures
        animal_candidates(out, n).len() <= n,
        n > 0 ==> animal_candidates(out, n) == if row_score(out.skip(85 * (n - 1)).take(85))
            >= 1_503_238_528 {
            animal_candidates(out, n - 1).push(
                row_box(grid_layout()[n - 1], out.skip(85 * (n - 1)).take(85)),
            )
        } else {
            animal_candidates(out, n - 1)
        },
        forall|i: int, b: FaceBox|
            0 <= i < n && #[trigger] row_gives(out, i, b) ==> animal_candidates(out, n).contains(b),
        forall|k: int|
            0 <= k < animal_candidates(out, n).len() ==> some_row_gives(
                out,
                n,
                #[trigger] animal_candidates(out, n)[k],
            ),
    decreases n,
{
    if n > 0 {
        let m = n - 1;
        let before = animal_candidates(out, m);
        let all = animal_candidates(out, n);
        confident_rows_are_candidates(out, m);
        assert(out.skip(85 * m).take(85) =~= row_at(out, m));
        assert forall|i: int, b: FaceBox|
            0 <= i < n && #[trigger] row_gives(out, i, b) implies all.contains(b) by {
            if i < m {
                assert(before.contains(b));
                let k = choose|k: int| 0 <= k < before.len() && before[k] == b;
                assert(all[k] == b);
            } else {
                assert(all[before.len() as int] == b);
            }
        }
        assert forall|k: int| 0 <= k < all.len() implies some_row_gives(
            out,
            n,
            #[trigger] all[k],
        ) by {
            if k < before.len() {
                assert(some_row_gives(out, m, before[k]));
                let i = choose|i: int| 0 <= i < m && #[trigger] row_gives(out, i, before[k]);
                assert(row_gives(out, i, all[k]));
            } else {
                assert(row_gives(out, m, all[k]));
            }
        }
    }
}

/// Placing an animal in the picture stretches every edge as the longest side
/// of the picture is stretched from the model's 416 pixels; edges off the
/// picture move to its border. (Each product is rounded down to whole
/// sub-pixels.)
pub proof fn placed_animals_keep_their_proportions(b: FaceBox, width: int, height: int)
    requires
        0 < width <= 0xffff_ffff,
        0 < height <= 0xffff_ffff,
    ensures
        ({
            let p = placed(b, width, height);
            let longest = if width > height {
                width
            } else {
                height
            };
            &&& 0 <= b.x1 * longest <= 27_262_976 * width ==> 416 * p.x1 <= b.x1 * longest < 416
                * (p.x1 + 1)
            &&& 0 <= b.x2 * longest <= 27_262_976 * width ==> 416 * p.x2 <= b.x2 * longest < 416
                * (p.x2 + 1)
            &&& 0 <= b.y1 * longest <= 27_262_976 * height ==> 416 * p.y1 <= b.y1 * longest < 416
                * (p.y1 + 1)
            &&& 0 <= b.y2 * longest <= 27_262_976 * height ==> 416 * p.y2 <= b.y2 * longest < 416
                * (p.y2 + 1)
            &&& b.x1 * longest <= 0 ==> p.x1 == 0
            &&& b.x2 * longest <= 0 ==> p.x2 == 0
            &&& b.y1 * longest <= 0 ==> p.y1 == 0
            &&& b.y2 * longest <= 0 ==> p.y2 == 0
            &&& b.x1 * longest >= 27_262_976 * width ==> p.x1 == 65_536 * width
            &&& b.x2 * longest >= 27_262_976 * width ==> p.x2 == 65_536 * width
            &&& b.y1 * longest >= 27_262_976 * height ==> p.y1 == 65_536 * height
            &&& b.y2 * longest >= 27_262_976 * height ==> p.y2 == 65_536 * height
            &&& p.score == b.score
        }),
{
}

/// What the model is shown: each pixel of the resampled picture at its own
/// place, blue, green and red in planes of their own, and gray around it.
pub proof fn letterbox_keeps_pixels(data: Seq<u8>, width: int, height: int, x: int, y: int)
    requires
        0 <= x < 416,
        0 <= y < 416,
    ensures
        ({
            let shown = letterboxed(data, width, height);
            let at = 416 * y + x;
            &&& shown.len() == 3 * 416 * 416
            &&& x < width && y < height ==> {
                &&& shown[at] == data[3 * (y * width + x) + 2]
                &&& shown[173_056 + at] == data[3 * (y * width + x) + 1]
                &&& shown[346_112 + at] == data[3 * (y * width + x)]
            }
            &&& x >= width || y >= height ==> {
                &&& shown[at] == 114
                &&& shown[173_056 + at] == 114
                &&& shown[346_112 + at] == 114
            }
        }),
{
    let at = 416 * y + x;
    assert(at % 416 == x && at / 416 == y);
    assert((173_056 + at) % 416 == x && (173_056 + at) / 416 == 416 + y);
    assert((346_112 + at) % 416 == x && (346_112 + at) / 416 == 832 + y);
}

proof fn prominent_animals_sources(
    kept: Seq<FaceBox>,
    width: int,
    height: int,
    i: int,
    j: int,
) -> (at: (int, int))
    requires
        0 <= i <= j < prominent_animals(kept, width, height).len(),
    ensures
        0 <= at.0 <= at.1 < kept.len(),
        i < j ==> at.0 < at.1,
        prominent_animals(kept, width, height)[i] == placed(kept[at.0], width, height),
        prominent_animals(kept, width, height)[j] == placed(kept[at.1], width, height),
        1000 * area_of(prominent_animals(kept, width, height)[i]) >= 3 * (4_294_967_296 * (width
            * height)),
    decreases kept.len(),
{
    let t = kept.drop_last();
    let before = prominent_animals(t, width, height);
    let last = kept.len() - 1;
    let pixels = width * height;
    assert(65_536 * 65_536 * pixels == 4_294_967_296 * pixels);
    if j < before.len() {
        prominent_animals_sources(t, width, height, i, j)
    } else if i < before.len() {
        let at = prominent_animals_sources(t, width, height, i, i);
        (at.0, last)
    } else {
        (last, last)
    }
}

proof fn prominent_animals_complete(kept: Seq<FaceBox>, width: int, height: int, k: int)
    requires
        0 <= k < kept.len(),
        is_prominent(placed(kept[k], width, height), width, height, MIN_AREA_PER_MILLE as int),
    ensures
        prominent_animals(kept, width, height).contains(placed(kept[k], width, height)),
    decreases kept.len(),
{
    let t = kept.drop_last();
    let before = prominent_animals(t, width, height);
    let all = prominent_animals(kept, width, height);
    let b = placed(kept[k], width, height);
    if k < t.len() {
        assert(t[k] == kept[k]);
        prominent_animals_complete(t, width, height, k);
        let m = choose|m: int| 0 <= m < before.len() && before[m] == b;
        assert(all[m] == b);
    } else {
        assert(all[before.len() as int] == b);
    }
}

/// Whether row `r` of an output shows box `b` in a picture of the given size:
/// it gives box `a` of the model's input, which is `b` once placed.
pub open spec fn row_shows(
    out: Seq<i64>,
    r: int,
    a: FaceBox,
    b: FaceBox,
    width: int,
    height: int,
) -> bool {
    &&& 0 <= r < 3549
    &&& 85 * r + 85 <= out.len()
    &&& row_gives(out, r, a)
    &&& b == placed(a, width, height)
}

/// The row that a kept candidate comes from.
proof fn row_of_kept(out: Seq<i64>, k: int) -> (r: int)
    requires
        0 <= k < kept_of(animal_candidates(out, animal_rows(out)), ANIMAL_SLACK as int).len(),
    ensures
        ({
            let candidates = animal_candidates(out, animal_rows(out));
            let kept = kept_of(candidates, ANIMAL_SLACK as int);
            &&& kept[k] < candidates.len()
            &&& 0 <= r < animal_rows(out)
            &&& row_gives(out, r, candidates[kept[k] as int])
        }),
{
    let n = animal_rows(out);
    let candidates = animal_candidates(out, n);
    let kept = kept_of(candidates, ANIMAL_SLACK as int);
    confident_rows_are_candidates(out, n);
    kept_boxes_are_given(candidates, ANIMAL_SLACK as int, k);
    let b = candidates[kept[k] as int];
    assert(some_row_gives(out, n, b));
    choose|r: int| 0 <= r < n && #[trigger] row_gives(out, r, b)
}

/// Every reported animal comes from a confident row and covers at least three
/// thousandths of the picture. Animals fall in confidence, and no two of them
/// come from boxes that overlap. An empty picture has no animals.
pub proof fn animals_come_from_confident_rows(
    width: int,
    height: int,
    output: Vec<i64>,
    i: int,
    j: int,
)
    requires
        0 <= i <= j < animals_of(width, height, Some(&output)).len(),
    ensures
        0 < width,
        0 < height,
        ({
            let f = animals_of(width, height, Some(&output))[i];
            &&& f.x1 < f.x2
            &&& f.y1 < f.y2
            &&& 1000 * ((f.x2 - f.x1) * (f.y2 - f.y1)) >= 3 * (4_294_967_296 * (width * height))
        }),
        ({
            let f = animals_of(width, height, Some(&output));
            exists|r: int, a: FaceBox, q: int, b: FaceBox|
                {
                    &&& #[trigger] row_shows(output@, r, a, f[i], width, height)
                    &&& #[trigger] row_shows(output@, q, b, f[j], width, height)
                    &&& i < j ==> a.score >= b.score && !overlaps(a, b, 42_949)
                }
        }),
{
    let out = output@;
    let candidates = animal_candidates(out, animal_rows(out));
    let kept = kept_of(candidates, ANIMAL_SLACK as int);
    let boxes = picked(candidates, kept);
    let f = prominent_animals(boxes, width, height);
    let (k, l) = prominent_animals_sources(boxes, width, height, i, j);
    let r = row_of_kept(out, k);
    let q = row_of_kept(out, l);
    let a = candidates[kept[k] as int];
    let b = candidates[kept[l] as int];
    assert(row_shows(out, r, a, f[i], width, height));
    assert(row_shows(out, q, b, f[j], width, height));
    if i < j {
        confident_rows_are_candidates(out, animal_rows(out));
        kept_boxes_are_apart(candidates, ANIMAL_SLACK as int, k, l);
        kept_boxes_fall_in_confidence(candidates, ANIMAL_SLACK as int, k, l);
    }
    let w = extent(f[i].x1 as int, f[i].x2 as int);
    let h = extent(f[i].y1 as int, f[i].y2 as int);
    assert(width * height > 0) by (nonlinear_arith)
        requires
            width > 0,
            height > 0,
    ;
    assert(w > 0 && h > 0) by (nonlinear_arith)
        requires
            w * h > 0,
            w >= 0,
            h >= 0,
    ;
}

/// Every confident row whose box covers at least three thousandths of the
/// picture is reported, unless its box overlaps that of a row that is at least
/// as confident.
pub proof fn large_animals_are_reported(
    width: int,
    height: int,
    output: Vec<i64>,
    r: int,
    a: FaceBox,
    b: FaceBox,
)
    requires
        0 < width,
        0 < height,
        row_shows(output@, r, a, b, width, height),
        b.x1 <= b.x2,
        b.y1 <= b.y2,
        1000 * ((b.x2 - b.x1) * (b.y2 - b.y1)) >= 3 * (4_294_967_296 * (width * height)),
    ensures
        animals_of(width, height, Some(&output)).contains(b) || exists|
            q: int,
            c: FaceBox,
            d: FaceBox,
        |
            {
                &&& #[trigger] row_shows(output@, q, c, d, width, height)
                &&& c.score >= a.score
                &&& overlaps(c, a, 42_949)
            },
{
    let out = output@;
    let n = animal_rows(out);
    let candidates = animal_candidates(out, n);
    let kept = kept_of(candidates, ANIMAL_SLACK as int);
    let boxes = picked(candidates, kept);
    confident_rows_are_candidates(out, n);
    assert(candidates.contains(a));
    let v = choose|v: int| 0 <= v < candidates.len() && candidates[v] == a;
    if kept.contains(v as usize) {
        let k = choose|k: int| 0 <= k < kept.len() && kept[k] == v as usize;
        assert(boxes[k] == a);
        assert(3 * (65_536 * 65_536 * (width * height)) == 3 * (4_294_967_296 * (width * height)));
        prominent_animals_complete(boxes, width, height, k);
    } else {
        dropped_boxes_are_covered(candidates, ANIMAL_SLACK as int, v as usize);
        let m = choose|m: usize|
            #[trigger] kept.contains(m) && m < candidates.len() && candidates[m as int].score
                >= candidates[v].score && overlaps(
                candidates[m as int],
                candidates[v],
                ANIMAL_SLACK as int,
            );
        let c = candidates[m as int];
        assert(some_row_gives(out, n, c));
        let q = choose|q: int| 0 <= q < n && #[trigger] row_gives(out, q, c);
        assert(row_shows(out, q, c, placed(c, width, height), width, height));
    }
}

/// A fitted side is the side times 416 over the longest side, rounded to a
/// whole pixel (up to the error of single precision), and at least one pixel.
proof fn fitted_side_is_near(side: int, longest: int)
    requires
        0 < side <= longest <= 1_048_576,
    ensures
        fitted_side(side, longest) == 1 && 416 * side <= longest || -501 * longest <= 1000 * (
        fitted_side(side, longest) * longest - 416 * side) <= 501 * longest,
{
    let units = scale_units(longest);
    let scale = input_scale(longest);
    scale_facts(longest);
    scale_bound(longest, units);
    let exact = side * scale;
    assert(exact >= 0) by (nonlinear_arith)
        requires
            exact == side * scale,
            side > 0,
            scale >= 0,
    ;
    single_error(exact);
    let length = to_single(exact);
    let target = 416 * side * units;
    let g = (2 * length + units) / (2 * units);
    assert(-longest <= 2 * (longest * scale - 416 * units) <= longest);
    let off = longest * scale - 416 * units;
    assert(longest * exact - target == side * off) by (nonlinear_arith)
        requires
            exact == side * scale,
            target == 416 * side * units,
            off == longest * scale - 416 * units,
    ;
    assert(-(longest * longest) <= 2 * (side * off) <= longest * longest) by (nonlinear_arith)
        requires
            -longest <= 2 * off <= longest,
            0 < side <= longest,
    ;
    assert(0 <= 2 * length + units - 2 * units * g < 2 * units) by (nonlinear_arith)
        requires
            g == (2 * length + units) / (2 * units),
            units >= 1,
    ;
    let rest = 2 * units * g - 2 * length;
    assert(-units < rest <= units);
    assert(-(longest * units) <= longest * rest <= longest * units) by (nonlinear_arith)
        requires
            -units <= rest <= units,
            longest > 0,
    ;
    let err = length - exact;
    assert(-(longest * exact) <= 16_777_216 * (longest * err) <= longest * exact)
        by (nonlinear_arith)
        requires
            -exact <= 16_777_216 * err <= exact,
            longest > 0,
    ;
    assert(target <= 416 * (longest * units)) by (nonlinear_arith)
        requires
            target == 416 * side * units,
            side <= longest,
            units >= 1,
    ;
    assert(8_388_608 * (longest * longest) <= 416 * (longest * units)) by (nonlinear_arith)
        requires
            416 * units >= 8_388_608 * longest,
            longest > 0,
    ;
    assert(2 * units * g * longest == longest * rest + 2 * (longest * err) + 2 * (longest * exact))
        by (nonlinear_arith)
        requires
            rest == 2 * units * g - 2 * length,
            err == length - exact,
    ;
    let room = longest * units;
    assert(-1_002 * room <= 1000 * (2 * units * g * longest - 2 * target) <= 1_002 * room);
    assert(-501 * longest <= 1000 * (g * longest - 416 * side) <= 501 * longest)
        by (nonlinear_arith)
        requires
            -1_002 * room <= 1000 * (2 * units * g * longest - 2 * target) <= 1_002 * room,
            room == longest * units,
            target == 416 * side * units,
            units >= 1,
    ;
    if g > 416 {
        assert(g * longest >= 417 * longest) by (nonlinear_arith)
            requires
                g >= 417,
                longest > 0,
        ;
    }
    if g < 1 {
        assert(g * longest <= 0) by (nonlinear_arith)
            requires
                g <= 0,
                longest > 0,
        ;
    }
}

/// Fitting keeps the proportions of the picture, up to rounding each side to
/// whole pixels; and a side is never less than one pixel.
pub proof fn fitting_keeps_proportions(width: int, height: int)
    requires
        0 < width <= 1_048_576,
        0 < height <= 1_048_576,
    ensures
        ({
            let (w, h) = fitted_size(width, height);
            let longest = if width > height {
                width
            } else {
                height
            };
            &&& w == 1 && 416 * width <= longest || -501 * longest <= 1000 * (w * longest - 416
                * width) <= 501 * longest
            &&& h == 1 && 416 * height <= longest || -501 * longest <= 1000 * (h * longest - 416
                * height) <= 501 * longest
        }),
{
    let longest = greater(width, height);
    fitted_side_is_near(width, longest);
    fitted_side_is_near(height, longest);
}

} // verus!
