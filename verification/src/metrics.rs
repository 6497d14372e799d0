//! The Overall-score ranking system: exposure, contrast, color, composition
//! and subject quality, plus the weighted blend that combines them with
//! sharpness into a single Overall score.
//!
//! Unlike the absolute sharpness score (unbounded, used as it is for the
//! single-photo focus cull), everything here is normalized to a range of zero
//! to a hundred points so the factors can be meaningfully weighted and summed.
//!
//! Overall is deliberately not computed once during the scan and stored: it is
//! recomputed from the stored factors on demand, so adjusting weights re-ranks
//! instantly without redecoding anything.

use vstd::arithmetic::div_mod::{
    lemma_div_denominator, lemma_div_is_ordered, lemma_div_multiples_vanish,
    lemma_div_multiples_vanish_fancy, lemma_fundamental_div_mod, lemma_hoist_over_denominator,
};
use vstd::prelude::*;

use crate::classify::{area, area_is_width_times_height, area_of, referred, FaceBox, SUBPIXELS};
use crate::fixed::{
    billionths, is_root, isqrt, root, root_exists, root_is_unique, root_rises, HUNDRED, ONE,
};
use crate::raster::{
    gray, laplacian, laplacian_at, laplacian_filter, to_gray, ColorPicture, GrayImage, Laplacian, Picture,
    RgbImage,
};
use crate::stats::{
    deviations, deviations_from_sums, equal_numbers_do_not_vary, total, total_squares,
};

verus! {

/// Per-photo factor scores, in billionths of a point, each from zero to a
/// hundred points (higher is better). `subject` is `None` without a detected
/// subject; [`overall_score`] renormalizes over whatever is present.
#[derive(Debug, Clone, Copy, PartialEq, Eq, Structural)]
pub struct Metrics {
    /// Normalized sharpness (see [`normalize_sharpness`]), distinct from the
    /// raw, unbounded sharpness score.
    pub sharpness: u64,
    pub exposure: u64,
    pub contrast: u64,
    pub color: u64,
    pub composition: Option<u64>,
    pub subject: Option<u64>,
}

/// Blend weights for the six factors, in millionths. Need not sum to one:
/// [`overall_score`] renormalizes over whatever factors are available.
#[derive(Debug, Clone, Copy, PartialEq, Eq, Structural)]
pub struct Weights {
    pub sharpness: u32,
    pub exposure: u32,
    pub contrast: u32,
    pub color: u32,
    pub composition: u32,
    pub subject: u32,
}

impl Default for Weights {
    fn default() -> (r: Self)
        ensures
            r == (Weights {
                sharpness: 250_000,
                exposure: 150_000,
                contrast: 100_000,
                color: 100_000,
                composition: 250_000,
                subject: 150_000,
            }),
    {
        Weights {
            sharpness: 250_000,
            exposure: 150_000,
            contrast: 100_000,
            color: 100_000,
            composition: 250_000,
            subject: 150_000,
        }
    }
}

/// `factor`, or zero if it is absent.
pub open spec fn present(factor: Option<u64>) -> int {
    match factor {
        Some(v) => v as int,
        None => 0,
    }
}

/// `weight`, or zero if the factor it belongs to is absent.
pub open spec fn counted(factor: Option<u64>, weight: u32) -> int {
    match factor {
        Some(v) => weight as int,
        None => 0,
    }
}

/// The sum of the weights of the factors that are present.
pub open spec fn total_weight(m: Metrics, w: Weights) -> int {
    w.sharpness + w.exposure + w.contrast + w.color + counted(m.composition, w.composition)
        + counted(m.subject, w.subject)
}

/// The sum of the factors that are present, each times its weight.
pub open spec fn weighted_sum(m: Metrics, w: Weights) -> int {
    w.sharpness * m.sharpness + w.exposure * m.exposure + w.contrast * m.contrast + w.color
        * m.color + w.composition * present(m.composition) + w.subject * present(m.subject)
}

/// The weighted mean of the factors that are present, rounded down; zero if
/// none of them carries weight.
pub open spec fn overall_of(m: Metrics, w: Weights) -> int {
    if total_weight(m, w) <= 0 {
        0
    } else {
        weighted_sum(m, w) / total_weight(m, w)
    }
}

proof fn product_bound(w: u32, v: u64)
    ensures
        0 <= w * v <= 0xffff_ffff * v,
        w * v <= w * 0xffff_ffff_ffff_ffff,
{
    assert(0 <= w * v <= 0xffff_ffff * v) by (nonlinear_arith)
        requires
            0 <= w <= 0xffff_ffff,
            0 <= v,
    ;
    assert(w * v <= w * 0xffff_ffff_ffff_ffff) by (nonlinear_arith)
        requires
            0 <= w,
            v <= 0xffff_ffff_ffff_ffff,
    ;
}

/// Weighted average of the available factors in `m`, in the same range as each
/// individual factor.
pub fn overall_score(m: &Metrics, w: &Weights) -> (r: u64)
    ensures
        r == overall_of(*m, *w),
{
    let (composition, composition_weight): (u64, u32) = match m.composition {
        Some(v) => (v, w.composition),
        None => (0, 0),
    };
    let (subject, subject_weight): (u64, u32) = match m.subject {
        Some(v) => (v, w.subject),
        None => (0, 0),
    };
    proof {
        product_bound(w.sharpness, m.sharpness);
        product_bound(w.exposure, m.exposure);
        product_bound(w.contrast, m.contrast);
        product_bound(w.color, m.color);
        product_bound(composition_weight, composition);
        product_bound(subject_weight, subject);
        assert(w.composition * present(m.composition) == composition_weight * composition) by {
            assert(w.composition * 0 == 0) by (nonlinear_arith);
        }
        assert(w.subject * present(m.subject) == subject_weight * subject) by {
            assert(w.subject * 0 == 0) by (nonlinear_arith);
        }
    }
    let weight: u64 = w.sharpness as u64 + w.exposure as u64 + w.contrast as u64 + w.color as u64
        + composition_weight as u64 + subject_weight as u64;
    let sum: u128 = w.sharpness as u128 * m.sharpness as u128 + w.exposure as u128
        * m.exposure as u128 + w.contrast as u128 * m.contrast as u128 + w.color as u128
        * m.color as u128 + composition_weight as u128 * composition as u128
        + subject_weight as u128 * subject as u128;
    if weight == 0 {
        return 0;
    }
    assert(sum <= weight * 0xffff_ffff_ffff_ffff);
    assert(sum / (weight as u128) <= 0xffff_ffff_ffff_ffff) by (nonlinear_arith)
        requires
            0 <= sum <= weight * 0xffff_ffff_ffff_ffff,
            0 < weight,
    ;
    (sum / weight as u128) as u64
}

/// The normalized form of a raw sharpness score: it rises from zero without a
/// hard ceiling, half way up at a hundred.
pub open spec fn normalized(raw: int) -> int {
    HUNDRED * raw / (raw + HUNDRED)
}

/// Maps the unbounded raw sharpness score to the range of the factors with a
/// saturating curve: a hundred becomes 50, three hundred 75, nine hundred 90.
pub fn normalize_sharpness(raw: u64) -> (r: u64)
    ensures
        r == normalized(raw as int),
        r <= HUNDRED,
{
    assert(HUNDRED * raw <= 100_000_000_000 * 0xffff_ffff_ffff_ffff) by (nonlinear_arith)
        requires
            HUNDRED == 100_000_000_000,
            0 <= raw <= 0xffff_ffff_ffff_ffff,
    ;
    let top: u128 = HUNDRED as u128;
    let value: u128 = top * raw as u128 / (raw as u128 + top);
    proof {
        assert(value <= top) by (nonlinear_arith)
            requires
                value == top * raw / (raw + top),
                top > 0,
                raw >= 0,
        ;
    }
    value as u64
}

/// The numbers that bytes stand for.
pub open spec fn byte_values(s: Seq<u8>) -> Seq<int> {
    s.map_values(|v: u8| v as int)
}

/// How many bytes are crushed shadows or blown highlights.
pub open spec fn clipped(s: Seq<u8>) -> int
    decreases s.len(),
{
    if s.len() == 0 {
        0
    } else {
        clipped(s.drop_last()) + if s.last() <= 3 || s.last() >= 252 {
            1int
        } else {
            0int
        }
    }
}

/// `v` moved into the range from zero to a hundred points.
pub open spec fn clamped(v: int) -> int {
    if v < 0 {
        0
    } else if v > HUNDRED {
        HUNDRED as int
    } else {
        v
    }
}

/// How far `a` and `b` lie apart.
pub open spec fn apart(a: int, b: int) -> int {
    if a < b {
        b - a
    } else {
        a - b
    }
}

/// The exposure of `n` luminances with the given sum, of which `lost` are
/// clipped: a hundred points, less the mean's distance from mid-gray as a
/// share of mid-gray, less the share that is clipped.
pub open spec fn exposure_from(n: int, sum: int, lost: int) -> int {
    clamped(billionths(100 * (128 * n - apart(sum, 128 * n)) - 12800 * lost, 128 * n))
}

/// The exposure score of a picture.
pub open spec fn exposure_of(p: Picture) -> int {
    let n = p.data.len() as int;
    if n == 0 {
        0
    } else {
        exposure_from(n, total(byte_values(p.data)), clipped(p.data))
    }
}

/// A hundred points for a midtone-centered picture with no clipping; penalized
/// for both deviation from a midtone mean and for blown-highlight and
/// crushed-shadow pixel fractions. A crude, scene-blind proxy: a legitimately
/// bright or dark scene will score low despite being "correctly" exposed.
pub fn exposure_score(gray: &GrayImage) -> (r: u64)
    requires
        gray.wf(),
    ensures
        r == exposure_of(gray@),
        r <= HUNDRED,
{
    let n: usize = gray.data.len();
    if n == 0 {
        return 0;
    }
    let mut sum: u64 = 0;
    let mut lost: u64 = 0;
    let ghost values = byte_values(gray.data@);
    for i in 0..n
        invariant
            n == gray.data@.len(),
            n <= u32::MAX,
            values == byte_values(gray.data@),
            sum == total(values.take(i as int)),
            sum <= 255 * i,
            lost == clipped(gray.data@.take(i as int)),
            lost <= i,
    {
        assert(values.take(i + 1).drop_last() =~= values.take(i as int));
        assert(gray.data@.take(i + 1).drop_last() =~= gray.data@.take(i as int));
        let v: u8 = gray.data[i];
        sum = sum + v as u64;
        if v <= 3 || v >= 252 {
            lost = lost + 1;
        }
    }
    assert(values.take(n as int) =~= values);
    assert(gray.data@.take(n as int) =~= gray.data@);
    let middle: u64 = 128 * n as u64;
    let off: u64 = if sum < middle {
        middle - sum
    } else {
        sum - middle
    };
    let bright: u64 = 100 * (middle - off);
    let penalty: u64 = 12800 * lost;
    if bright < penalty {
        assert(billionths(100 * (128 * n - apart(sum as int, 128 * n)) - 12800 * lost, 128 * n) < 0)
            by (nonlinear_arith)
            requires
                100 * (128 * n - apart(sum as int, 128 * n)) - 12800 * lost < 0,
                n > 0,
                ONE == 1_000_000_000,
        ;
        return 0;
    }
    let value: u128 = (bright - penalty) as u128 * ONE as u128 / middle as u128;
    proof {
        assert(value <= 100_000_000_000) by (nonlinear_arith)
            requires
                value == (bright - penalty) * 1_000_000_000 / (middle as int),
                0 <= bright - penalty <= 100 * middle,
                middle > 0,
        ;
    }
    value as u64
}

/// `num * scale / den`, when `num` is split into its quotient and remainder
/// by `den` first.
proof fn scaled_quotient(num: int, scale: int, den: int)
    requires
        den > 0,
    ensures
        num * scale / den == scale * (num / den) + scale * (num % den) / den,
{
    let q = num / den;
    let r = num % den;
    lemma_fundamental_div_mod(num, den);
    assert(num * scale == den * (scale * q) + scale * r) by (nonlinear_arith)
        requires
            num == den * q + r,
    ;
    lemma_hoist_over_denominator(scale * r, scale * q, den as nat);
    assert(scale * r / den + scale * q == (scale * r + scale * q * den) / den);
    assert(scale * q * den == den * (scale * q)) by (nonlinear_arith);
}

/// The rounded-down root of `scale * num / den`.
fn scaled_root(num: u128, scale: u64, den: u128, limit: u64) -> (r: u64)
    requires
        0 < den,
        den * scale <= u128::MAX,
        num <= den * limit,
        limit <= 0xffff_ffff,
    ensures
        r == root(num * scale / den as int),
        r <= 0xff_ffff_ffff_ffff,
{
    let q: u128 = num / den;
    let rest: u128 = num % den;
    proof {
        scaled_quotient(num as int, scale as int, den as int);
        assert(q <= limit) by (nonlinear_arith)
            requires
                q == num / den,
                num <= den * limit,
                den > 0,
        ;
        assert(rest < den);
        assert(scale * rest <= den * scale) by (nonlinear_arith)
            requires
                0 <= rest <= den,
                0 <= scale,
        ;
        assert(scale * q <= 0xffff_ffff_ffff_ffff * 0xffff_ffff) by (nonlinear_arith)
            requires
                0 <= q <= 0xffff_ffff,
                0 <= scale <= 0xffff_ffff_ffff_ffff,
        ;
        assert(scale * rest / den as int <= scale) by (nonlinear_arith)
            requires
                scale * rest <= den * scale,
                den > 0,
                scale >= 0,
                rest >= 0,
        ;
    }
    let value: u128 = scale as u128 * q + scale as u128 * rest / den;
    let r: u64 = isqrt(value);
    assert(r <= 0xff_ffff_ffff_ffff) by (nonlinear_arith)
        requires
            r * r <= value,
            value <= 0xffff_ffff_ffff_ffff * 0xffff_ffff + 0xffff_ffff_ffff_ffff,
    ;
    r
}

/// Billionths of a point of contrast per level of standard deviation: 64
/// levels make a hundred points.
pub const CONTRAST_PER_LEVEL: u64 = 1_562_500_000;

/// The square of [`CONTRAST_PER_LEVEL`].
pub const CONTRAST_SQUARED: u64 = 2_441_406_250_000_000_000;

/// The contrast score of a picture: its standard deviation, scaled.
pub open spec fn contrast_of(p: Picture) -> int {
    let s = byte_values(p.data);
    let n = s.len() as int;
    if n == 0 {
        0
    } else {
        clamped(
            root(
                deviations(s, n, total(s)) * (CONTRAST_PER_LEVEL * CONTRAST_PER_LEVEL) / (n * (n
                    * n)),
            ),
        )
    }
}

/// A hundred points for strong tonal spread. Uses the standard deviation of
/// the luminances, scaled so 64 (a commonly cited "good contrast" ballpark)
/// maps to a hundred.
pub fn contrast_score(gray: &GrayImage) -> (r: u64)
    requires
        gray.wf(),
    ensures
        r == contrast_of(gray@),
        r <= HUNDRED,
{
    let n: usize = gray.data.len();
    if n == 0 {
        return 0;
    }
    let mut sum: u64 = 0;
    let mut squares: u64 = 0;
    let ghost values = byte_values(gray.data@);
    for i in 0..n
        invariant
            n == gray.data@.len(),
            n <= u32::MAX,
            values == byte_values(gray.data@),
            sum == total(values.take(i as int)),
            sum <= 255 * i,
            squares == total_squares(values.take(i as int)),
            squares <= 65025 * i,
    {
        assert(values.take(i + 1).drop_last() =~= values.take(i as int));
        let v: u64 = gray.data[i] as u64;
        assert(0 <= v * v <= 65025) by (nonlinear_arith)
            requires
                0 <= v <= 255,
        ;
        sum = sum + v;
        squares = squares + v * v;
    }
    assert(values.take(n as int) =~= values);
    let m: u128 = n as u128;
    proof {
        spread_from_sums(values, 2_441_406_250_000_000_000);
        assert(m * squares <= m * (65025 * m)) by (nonlinear_arith)
            requires
                squares <= 65025 * m,
                m >= 0,
        ;
        assert(m * (65025 * m) == (m * m) * 65025) by (nonlinear_arith);
        assert(m * m <= 0xffff_ffff * 0xffff_ffff) by (nonlinear_arith)
            requires
                0 <= m <= 0xffff_ffff,
        ;
        assert(m * m > 0) by (nonlinear_arith)
            requires
                m > 0,
        ;
        assert(sum * sum >= 0) by (nonlinear_arith);
        assert(sum * sum <= 1_095_216_660_225 * 1_095_216_660_225) by (nonlinear_arith)
            requires
                0 <= sum <= 1_095_216_660_225,
        ;
        assert((m * m) * 2_441_406_250_000_000_000 <= 0xffff_ffff * 0xffff_ffff
            * 2_441_406_250_000_000_000) by (nonlinear_arith)
            requires
                0 <= m * m <= 0xffff_ffff * 0xffff_ffff,
        ;
        assert(CONTRAST_PER_LEVEL * CONTRAST_PER_LEVEL == 2_441_406_250_000_000_000)
            by (nonlinear_arith)
            requires
                CONTRAST_PER_LEVEL == 1_562_500_000,
        ;
    }
    let spread: u128 = m * squares as u128 - sum as u128 * sum as u128;
    let score: u64 = scaled_root(spread, CONTRAST_SQUARED, m * m, 65025);
    if score > HUNDRED {
        HUNDRED
    } else {
        score
    }
}

/// A common factor cancels.
proof fn cancelled(n: int, x: int, scale: int, den: int)
    requires
        n > 0,
        den > 0,
        x >= 0,
        scale >= 0,
    ensures
        n * x * scale / (n * den) == x * scale / den,
{
    assert(n * den > 0) by (nonlinear_arith)
        requires
            n > 0,
            den > 0,
    ;
    assert(n * x * scale >= 0) by (nonlinear_arith)
        requires
            n > 0,
            x >= 0,
            scale >= 0,
    ;
    lemma_div_denominator(n * x * scale, n, den);
    lemma_div_multiples_vanish(x * scale, n);
    assert(n * (x * scale) == n * x * scale) by (nonlinear_arith);
}

/// The scaled variance computed from the two plain sums.
proof fn spread_from_sums(s: Seq<int>, scale: int)
    requires
        s.len() > 0,
        scale >= 0,
    ensures
        s.len() * total_squares(s) - total(s) * total(s) >= 0,
        deviations(s, s.len() as int, total(s)) * scale / (s.len() * (s.len() * s.len()) as int)
            == (s.len() * total_squares(s) - total(s) * total(s)) * scale / (s.len()
            * s.len() as int),
{
    let n = s.len() as int;
    deviations_from_sums(s);
    assert(n * n > 0) by (nonlinear_arith)
        requires
            n > 0,
    ;
    cancelled(n, n * total_squares(s) - total(s) * total(s), scale, n * n);
}

/// How far each pixel leans from green to red.
pub open spec fn red_green(c: ColorPicture) -> Seq<int> {
    Seq::new((c.width * c.height) as nat, |i: int| c.data[3 * i] - c.data[3 * i + 1])
}

/// Twice how far each pixel leans from blue to yellow.
pub open spec fn yellow_blue(c: ColorPicture) -> Seq<int> {
    Seq::new(
        (c.width * c.height) as nat,
        |i: int| c.data[3 * i] + c.data[3 * i + 1] - 2 * c.data[3 * i + 2],
    )
}

/// A billion billion: the square of the scale of a score.
pub const ONE_SQUARED: u64 = 1_000_000_000_000_000_000;

/// The Hasler-Suesstrunk colorfulness, in billionths: the joint standard
/// deviation of the two opponent axes, and three tenths of the distance of
/// their joint mean from gray. The second axis is counted twice over, hence
/// the fours.
pub open spec fn colorfulness(c: ColorPicture) -> int {
    let a = red_green(c);
    let b = yellow_blue(c);
    let n = (c.width * c.height) as int;
    let spread = root(
        (4 * deviations(a, n, total(a)) + deviations(b, n, total(b))) * ONE_SQUARED / (4 * (n * (n
            * n))),
    );
    let shift = root(
        (4 * (total(a) * total(a)) + total(b) * total(b)) * ONE_SQUARED / (4 * (n * n)),
    );
    spread + 3 * shift / 10
}

/// The color score of a picture: a hundred points at a colorfulness of 110.
pub open spec fn color_of(c: ColorPicture) -> int {
    if c.width * c.height == 0 {
        0
    } else {
        clamped(100 * colorfulness(c) / 110)
    }
}

proof fn square_bound(v: int, bound: int)
    requires
        -bound <= v <= bound,
    ensures
        0 <= v * v <= bound * bound,
{
    assert(0 <= v * v <= bound * bound) by (nonlinear_arith)
        requires
            -bound <= v <= bound,
    ;
}

/// The sum and the sum of squares of values that each lie within a bound.
proof fn moment_bounds(n: int, sum: int, squares: int, bound: int)
    requires
        0 < n <= 0xffff_ffff,
        0 <= bound <= 510,
        -(bound * n) <= sum <= bound * n,
        0 <= squares <= bound * bound * n,
    ensures
        0 <= n * squares <= n * n * (bound * bound),
        0 <= sum * sum <= n * n * (bound * bound),
        0 < n * n <= 0xffff_ffff * 0xffff_ffff,
{
    assert(0 <= n * squares <= n * n * (bound * bound)) by (nonlinear_arith)
        requires
            0 < n,
            0 <= squares <= bound * bound * n,
    ;
    square_bound(sum, bound * n);
    assert((bound * n) * (bound * n) == n * n * (bound * bound)) by (nonlinear_arith);
    assert(0 < n * n <= 0xffff_ffff * 0xffff_ffff) by (nonlinear_arith)
        requires
            0 < n <= 0xffff_ffff,
    ;
}

/// The magnitude of `v`.
fn magnitude(v: i64) -> (r: u64)
    requires
        v > i64::MIN,
    ensures
        r == apart(v as int, 0),
        r * r == v * v,
{
    let r: u64 = if v < 0 {
        (-v) as u64
    } else {
        v as u64
    };
    assert(r * r == v * v) by (nonlinear_arith)
        requires
            r == v || r == -v,
    ;
    r
}

/// The colorfulness of `n` pixels with the given sums along the two axes.
fn colorfulness_from_moments(
    n: u64,
    rg: i64,
    rg_squares: u64,
    yb: i64,
    yb_squares: u64,
    Ghost(c): Ghost<ColorPicture>,
) -> (r: u64)
    requires
        n == c.width * c.height,
        0 < n <= u32::MAX,
        rg == total(red_green(c)),
        rg_squares == total_squares(red_green(c)),
        yb == total(yellow_blue(c)),
        yb_squares == total_squares(yellow_blue(c)),
        -(255 * n) <= rg <= 255 * n,
        rg_squares <= 65025 * n,
        -(510 * n) <= yb <= 510 * n,
        yb_squares <= 260100 * n,
    ensures
        r == colorfulness(c),
        r <= 0x200_0000_0000_0000,
{
    let m: u128 = n as u128;
    let a: u128 = magnitude(rg) as u128;
    let b: u128 = magnitude(yb) as u128;
    proof {
        moment_bounds(n as int, rg as int, rg_squares as int, 255);
        moment_bounds(n as int, yb as int, yb_squares as int, 510);
        deviations_from_sums(red_green(c));
        deviations_from_sums(yellow_blue(c));
        assert(255int * 255 == 65025);
        assert(510int * 510 == 260100);
    }
    let den: u128 = 4 * (m * m);
    let spread_a: u128 = m * rg_squares as u128 - a * a;
    let spread_b: u128 = m * yb_squares as u128 - b * b;
    let spread: u64 = scaled_root(4 * spread_a + spread_b, ONE_SQUARED, den, 130_050);
    let shift: u64 = scaled_root(4 * (a * a) + b * b, ONE_SQUARED, den, 130_050);
    proof {
        let x = 4 * spread_a + spread_b;
        cancelled(n as int, x as int, ONE_SQUARED as int, den as int);
        assert(n * den == 4 * (n * (n * n))) by (nonlinear_arith)
            requires
                den == 4 * (n * n),
        ;
        assert(n * x == 4 * (n * spread_a) + n * spread_b) by (nonlinear_arith)
            requires
                x == 4 * spread_a + spread_b,
        ;
    }
    spread + 3 * shift / 10
}

/// A hundred points for a highly colorful picture, via the Hasler-Suesstrunk
/// colorfulness metric: not a judgment of whether the colors are "correct",
/// just how vivid they are.
pub fn color_score(rgb: &RgbImage) -> (r: u64)
    requires
        rgb.wf(),
        rgb.is_countable(),
    ensures
        r == color_of(rgb@),
        r <= HUNDRED,
{
    let ghost a = red_green(rgb@);
    let ghost b = yellow_blue(rgb@);
    let bytes: usize = rgb.data.len();
    let n: usize = bytes / 3;
    if n == 0 {
        return 0;
    }
    let mut rg: i64 = 0;
    let mut rg_squares: u64 = 0;
    let mut yb: i64 = 0;
    let mut yb_squares: u64 = 0;
    for i in 0..n
        invariant
            n == rgb.width * rgb.height,
            n <= u32::MAX,
            bytes == rgb.data@.len(),
            bytes == 3 * n,
            a == red_green(rgb@),
            b == yellow_blue(rgb@),
            a.len() == n,
            b.len() == n,
            rg == total(a.take(i as int)),
            rg_squares == total_squares(a.take(i as int)),
            yb == total(b.take(i as int)),
            yb_squares == total_squares(b.take(i as int)),
            -(255 * i) <= rg <= 255 * i,
            rg_squares <= 65025 * i,
            -(510 * i) <= yb <= 510 * i,
            yb_squares <= 260100 * i,
    {
        assert(a.take(i + 1).drop_last() =~= a.take(i as int));
        assert(b.take(i + 1).drop_last() =~= b.take(i as int));
        let red: i64 = rgb.data[3 * i] as i64;
        let green: i64 = rgb.data[3 * i + 1] as i64;
        let blue: i64 = rgb.data[3 * i + 2] as i64;
        let u: i64 = red - green;
        let v: i64 = red + green - 2 * blue;
        proof {
            square_bound(u as int, 255);
            square_bound(v as int, 510);
        }
        rg = rg + u;
        rg_squares = rg_squares + (u * u) as u64;
        yb = yb + v;
        yb_squares = yb_squares + (v * v) as u64;
    }
    assert(a.take(n as int) =~= a);
    assert(b.take(n as int) =~= b);
    let vivid: u64 = colorfulness_from_moments(
        n as u64,
        rg,
        rg_squares,
        yb,
        yb_squares,
        Ghost(rgb@),
    );
    let score: u64 = 100 * vivid / 110;
    if score > HUNDRED {
        HUNDRED
    } else {
        score
    }
}

/// Whether position `v` lies in the band along the line at one or two thirds of
/// `side`: a band is a tenth of `side` wide (one pixel, if that is more) and
/// centered on its line.
pub open spec fn near_third(v: int, side: int) -> bool {
    let reach = if side >= 10 {
        3 * side
    } else {
        30
    };
    apart(60 * v, 20 * side) <= reach || apart(60 * v, 40 * side) <= reach
}

/// The strength of the detail at each pixel.
pub open spec fn detail(lap: Seq<i16>) -> Seq<int> {
    lap.map_values(|v: i16| apart(v as int, 0))
}

/// The strength of the detail at each pixel that lies near one of the four
/// gridlines of thirds; zero elsewhere.
pub open spec fn detail_near_thirds(lap: Seq<i16>, width: int, height: int) -> Seq<int> {
    Seq::new(
        lap.len(),
        |i: int|
            if near_third(i % width, width) || near_third(i / width, height) {
                apart(lap[i] as int, 0)
            } else {
                0
            },
    )
}

/// The share of `side` that its two bands leave free by their width, as a
/// numerator and a denominator.
pub open spec fn free_share(side: int) -> (int, int) {
    if side >= 10 {
        (4, 5)
    } else {
        (side - 2, side)
    }
}

/// The composition score of a frame of `width` by `height` with the given
/// total strength of detail, of which `near` lies near the gridlines: fifty
/// points if the share of the detail in the bands is their share of the frame;
/// above that in proportion to what is missing to all of it, below in
/// proportion to what there is of it.
pub open spec fn composition_from(energy: int, near: int, width: int, height: int) -> int {
    if energy <= 0 {
        50 * ONE
    } else {
        let (fx, gx) = free_share(width);
        let (fy, gy) = free_share(height);
        let free = fx * fy;
        let full = gx * gy;
        if near * full >= energy * (full - free) {
            billionths(100 * (energy * free) - 50 * ((energy - near) * full), energy * free)
        } else {
            billionths(50 * (near * full), energy * (full - free))
        }
    }
}

/// The composition score of a picture; fifty points if it is too small to
/// tell.
pub open spec fn composition_of(p: Picture) -> int {
    if p.width < 4 || p.height < 4 {
        50 * ONE
    } else {
        let lap = laplacian(p);
        composition_from(
            total(detail(lap)),
            total(detail_near_thirds(lap, p.width, p.height)),
            p.width,
            p.height,
        )
    }
}

/// Whether position `v` lies near one of the two lines of thirds of `side`.
fn is_near_third(v: u64, side: u64) -> (r: bool)
    requires
        v <= u32::MAX,
        side <= u32::MAX,
    ensures
        r == near_third(v as int, side as int),
{
    let reach: u64 = if side >= 10 {
        3 * side
    } else {
        30
    };
    let at: u64 = 60 * v;
    let first: u64 = 20 * side;
    let second: u64 = 40 * side;
    let to_first: u64 = if at < first {
        first - at
    } else {
        at - first
    };
    let to_second: u64 = if at < second {
        second - at
    } else {
        at - second
    };
    to_first <= reach || to_second <= reach
}

/// A frame of at least four by four pixels.
fn balance(energy: u64, near: u64, width: u32, height: u32) -> (r: u64)
    requires
        near <= energy <= 0x8000_0000_0000,
        4 <= width,
        4 <= height,
    ensures
        r == composition_from(energy as int, near as int, width as int, height as int),
        r <= HUNDRED,
{
    if energy == 0 {
        return 50 * ONE;
    }
    let (fx, gx): (u128, u128) = if width >= 10 {
        (4, 5)
    } else {
        (width as u128 - 2, width as u128)
    };
    let (fy, gy): (u128, u128) = if height >= 10 {
        (4, 5)
    } else {
        (height as u128 - 2, height as u128)
    };
    assert(4 <= fx * fy <= 49 && fx * fy < gx * gy <= 81) by (nonlinear_arith)
        requires
            2 <= fx <= 7,
            2 <= fy <= 7,
            fx < gx <= 9,
            fy < gy <= 9,
    ;
    let free: u128 = fx * fy;
    let full: u128 = gx * gy;
    let band: u128 = full - free;
    let all: u128 = energy as u128;
    let along: u128 = near as u128;
    let far: u128 = all - along;
    proof {
        energy_bound(all as int, 0x8000_0000_0000, free as int, 81);
        energy_bound(all as int, 0x8000_0000_0000, band as int, 81);
        energy_bound(along as int, 0x8000_0000_0000, full as int, 81);
        energy_bound(far as int, 0x8000_0000_0000, full as int, 81);
    }
    assert(far * full == all * full - along * full) by (nonlinear_arith)
        requires
            far == all - along,
    ;
    assert(all * full == all * free + all * band) by (nonlinear_arith)
        requires
            full == free + band,
    ;
    assert(all * free > 0 && all * band > 0) by (nonlinear_arith)
        requires
            all > 0,
            free > 0,
            band > 0,
    ;
    if along * full >= all * band {
        let den: u128 = all * free;
        let num: u128 = 100 * den - 50 * (far * full);
        proof {
            share_bound(num as int, den as int);
        }
        (num * ONE as u128 / den) as u64
    } else {
        let den: u128 = all * band;
        let num: u128 = 50 * (along * full);
        proof {
            share_bound(num as int, den as int);
        }
        (num * ONE as u128 / den) as u64
    }
}

proof fn energy_bound(a: int, a_most: int, b: int, b_most: int)
    requires
        0 <= a <= a_most,
        0 <= b <= b_most,
    ensures
        0 <= a * b <= a_most * b_most,
{
    assert(0 <= a * b <= a_most * b_most) by (nonlinear_arith)
        requires
            0 <= a <= a_most,
            0 <= b <= b_most,
    ;
}

proof fn share_bound(num: int, den: int)
    requires
        0 <= num <= 100 * den,
        0 < den,
    ensures
        0 <= num * 1_000_000_000 / den <= 100_000_000_000,
{
    assert(0 <= num * 1_000_000_000 / den <= 100_000_000_000) by (nonlinear_arith)
        requires
            0 <= num <= 100 * den,
            0 < den,
    ;
}

/// The score of the detail in a Laplacian of at least four by four pixels.
fn composition_of_detail(lap: &Laplacian) -> (r: u64)
    requires
        lap.wf(),
        4 <= lap.width,
        4 <= lap.height,
    ensures
        r == composition_from(
            total(detail(lap.data@)),
            total(detail_near_thirds(lap.data@, lap.width as int, lap.height as int)),
            lap.width as int,
            lap.height as int,
        ),
        r <= HUNDRED,
{
    let n: usize = lap.data.len();
    let w: u64 = lap.width as u64;
    let h: u64 = lap.height as u64;
    let mut energy: u64 = 0;
    let mut near: u64 = 0;
    let ghost every = detail(lap.data@);
    let ghost along = detail_near_thirds(lap.data@, w as int, h as int);
    for i in 0..n
        invariant
            n == lap.data@.len(),
            n <= u32::MAX,
            0 < w == lap.width,
            h == lap.height,
            every == detail(lap.data@),
            along == detail_near_thirds(lap.data@, w as int, h as int),
            every.len() == n,
            along.len() == n,
            energy == total(every.take(i as int)),
            near == total(along.take(i as int)),
            near <= energy <= 32768 * i,
    {
        assert(every.take(i + 1).drop_last() =~= every.take(i as int));
        assert(along.take(i + 1).drop_last() =~= along.take(i as int));
        let v: i64 = lap.data[i] as i64;
        let e: u64 = magnitude(v);
        let x: u64 = i as u64 % w;
        let y: u64 = i as u64 / w;
        assert(y <= i) by (nonlinear_arith)
            requires
                y == i as int / w as int,
                w > 0,
                i >= 0,
        ;
        energy = energy + e;
        if is_near_third(x, w) || is_near_third(y, h) {
            near = near + e;
        }
    }
    assert(every.take(n as int) =~= every);
    assert(along.take(n as int) =~= along);
    balance(energy, near, lap.width, lap.height)
}

/// A hundred points if detail concentrates near the four rule-of-thirds
/// gridlines, fifty if there is no particular alignment, none if it
/// concentrates away from the gridlines. Uses the same Laplacian as sharpness
/// as a crude "visual interest" proxy.
pub fn composition_score(gray: &GrayImage) -> (r: u64)
    requires
        gray.wf(),
    ensures
        r == composition_of(gray@),
        r <= HUNDRED,
{
    if gray.width < 4 || gray.height < 4 {
        return 50 * ONE;
    }
    let lap = laplacian_filter(gray);
    composition_of_detail(&lap)
}

/// Twice how far the middle of a span lies from the middle of a side of
/// `side` pixels, in sub-pixels.
pub open spec fn off_center(lo: int, hi: int, side: int) -> int {
    lo + hi - side * SUBPIXELS
}

/// The size part of the subject score: a hundred points from fifteen percent
/// of the frame.
pub open spec fn size_score(b: FaceBox, width: int, height: int) -> int {
    clamped(100 * HUNDRED * area_of(b) / (15 * (SUBPIXELS * SUBPIXELS * (width * height))))
}

/// The centering part of the subject score: a hundred points at the center of
/// the frame, none at half a diagonal (or a pixel, if that is more) away.
pub open spec fn centering_score(b: FaceBox, width: int, height: int) -> int {
    let dx = off_center(b.x1 as int, b.x2 as int, width);
    let dy = off_center(b.y1 as int, b.y2 as int, height);
    let away = root(dx * dx + dy * dy);
    let diagonal = root(SUBPIXELS * SUBPIXELS * (width * width + height * height));
    let reach = if diagonal < 2 * SUBPIXELS {
        2 * SUBPIXELS
    } else {
        diagonal
    };
    clamped((reach - away) * HUNDRED / reach)
}

/// The subject score of a box in a frame of `width` by `height` pixels: three
/// fifths size, two fifths centering; fifty points in an empty frame.
pub open spec fn subject_of(b: FaceBox, width: int, height: int) -> int {
    if width <= 0 || height <= 0 {
        50 * ONE
    } else {
        (6 * size_score(b, width, height) + 4 * centering_score(b, width, height)) / 10
    }
}

fn size_part(face: &FaceBox, width: u32, height: u32) -> (r: u64)
    requires
        face.wf(),
        0 < width,
        0 < height,
    ensures
        r == size_score(*face, width as int, height as int),
        r <= HUNDRED,
{
    assert(0 < width * height <= 0xffff_ffff * 0xffff_ffff) by (nonlinear_arith)
        requires
            0 < width <= 0xffff_ffff,
            0 < height <= 0xffff_ffff,
    ;
    let frame: u128 = 4_294_967_296 * (width as u128 * height as u128);
    let size: u128 = 10_000_000_000_000 * area(face) / (15 * frame);
    if size > HUNDRED as u128 {
        HUNDRED
    } else {
        size as u64
    }
}

fn centering_part(face: &FaceBox, width: u32, height: u32) -> (r: u64)
    requires
        face.wf(),
    ensures
        r == centering_score(*face, width as int, height as int),
        r <= HUNDRED,
{
    let dx: i64 = face.x1 + face.x2 - width as i64 * SUBPIXELS;
    let dy: i64 = face.y1 + face.y2 - height as i64 * SUBPIXELS;
    let ax: u128 = magnitude(dx) as u128;
    let ay: u128 = magnitude(dy) as u128;
    let w: u128 = width as u128;
    let h: u128 = height as u128;
    proof {
        square_bound(dx as int, 0x2_0000_0000_0000);
        square_bound(dy as int, 0x2_0000_0000_0000);
        square_bound(w as int, 0xffff_ffff);
        square_bound(h as int, 0xffff_ffff);
    }
    let away: u128 = isqrt(ax * ax + ay * ay) as u128;
    let diagonal: u128 = isqrt(4_294_967_296 * (w * w + h * h)) as u128;
    let reach: u128 = if diagonal < 131_072 {
        131_072
    } else {
        diagonal
    };
    if reach < away {
        assert((reach - away) * 100_000_000_000 / (reach as int) < 0) by (nonlinear_arith)
            requires
                reach - away < 0,
                reach > 0,
        ;
        return 0;
    }
    assert(0 <= (reach - away) * 100_000_000_000 <= reach * 100_000_000_000) by (nonlinear_arith)
        requires
            0 <= away <= reach,
    ;
    let part: u128 = (reach - away) * HUNDRED as u128 / reach;
    assert(part <= 100_000_000_000) by (nonlinear_arith)
        requires
            part == (reach - away) * 100_000_000_000 / (reach as int),
            0 <= away <= reach,
            0 < reach,
    ;
    part as u64
}

/// How prominent the detected subject is in the frame, as a blend of size
/// (bigger means more deliberate a subject, saturating at a fairly close crop)
/// and centering (closer to the frame center scores higher). Purely geometric.
pub fn subject_quality_score(face: &FaceBox, img_w: u32, img_h: u32) -> (r: u64)
    requires
        face.wf(),
    ensures
        r == subject_of(*face, img_w as int, img_h as int),
        r <= HUNDRED,
{
    if img_w == 0 || img_h == 0 {
        return 50 * ONE;
    }
    let size: u64 = size_part(face, img_w, img_h);
    let centering: u64 = centering_part(face, img_w, img_h);
    (6 * size + 4 * centering) / 10
}

/// Every factor of a picture with luminances `p`.
pub open spec fn metrics_of(
    c: ColorPicture,
    p: Picture,
    raw_sharpness: int,
    subject: Option<FaceBox>,
) -> Metrics {
    Metrics {
        sharpness: normalized(raw_sharpness) as u64,
        exposure: exposure_of(p) as u64,
        contrast: contrast_of(p) as u64,
        color: color_of(c) as u64,
        composition: Some(composition_of(p) as u64),
        subject: match subject {
            Some(b) => Some(subject_of(b, c.width, c.height) as u64),
            None => None,
        },
    }
}

impl Metrics {
    /// No factor exceeds a hundred points.
    pub open spec fn wf(self) -> bool {
        &&& self.sharpness <= HUNDRED
        &&& self.exposure <= HUNDRED
        &&& self.contrast <= HUNDRED
        &&& self.color <= HUNDRED
        &&& self.composition matches Some(v) ==> v <= HUNDRED
        &&& self.subject matches Some(v) ==> v <= HUNDRED
    }
}

/// Every factor of a photo whose luminances are given as well.
pub fn compute_gray(
    rgb: &RgbImage,
    gray: &GrayImage,
    raw_sharpness: u64,
    face: Option<&FaceBox>,
) -> (r: Metrics)
    requires
        rgb.wf(),
        rgb.is_countable(),
        gray.wf(),
        referred(face) matches Some(b) ==> b.wf(),
    ensures
        r == metrics_of(rgb@, gray@, raw_sharpness as int, referred(face)),
        r.wf(),
{
    Metrics {
        sharpness: normalize_sharpness(raw_sharpness),
        exposure: exposure_score(gray),
        contrast: contrast_score(gray),
        color: color_score(rgb),
        composition: Some(composition_score(gray)),
        subject: match face {
            Some(f) => Some(subject_quality_score(f, rgb.width, rgb.height)),
            None => None,
        },
    }
}

/// Compute every factor from an already-decoded photo, given its raw
/// (absolute) sharpness score and the detected main subject, if any.
pub fn compute(rgb: &RgbImage, raw_sharpness: u64, face: Option<&FaceBox>) -> (r: Metrics)
    requires
        rgb.wf(),
        rgb.is_countable(),
        referred(face) matches Some(b) ==> b.wf(),
    ensures
        r == metrics_of(rgb@, gray(rgb@), raw_sharpness as int, referred(face)),
        r.wf(),
{
    let gray = to_gray(rgb);
    compute_gray(rgb, &gray, raw_sharpness, face)
}

/// Whether every factor that is present lies between `lo` and `hi`.
pub open spec fn all_between(m: Metrics, lo: int, hi: int) -> bool {
    &&& lo <= m.sharpness <= hi
    &&& lo <= m.exposure <= hi
    &&& lo <= m.contrast <= hi
    &&& lo <= m.color <= hi
    &&& m.composition matches Some(v) ==> lo <= v <= hi
    &&& m.subject matches Some(v) ==> lo <= v <= hi
}

proof fn weighted_bound(w: int, v: int, lo: int, hi: int)
    requires
        0 <= w,
        lo <= v <= hi,
    ensures
        w * lo <= w * v <= w * hi,
{
    assert(w * lo <= w * v <= w * hi) by (nonlinear_arith)
        requires
            0 <= w,
            lo <= v <= hi,
    ;
}

/// The Overall score stays in the range of the factors it blends, whatever
/// the weights, as long as some factor carries weight.
pub proof fn overall_stays_in_range(m: Metrics, w: Weights, lo: int, hi: int)
    requires
        total_weight(m, w) > 0,
        all_between(m, lo, hi),
    ensures
        lo <= overall_of(m, w) <= hi,
{
    let t = total_weight(m, w);
    let s = weighted_sum(m, w);
    let wc = counted(m.composition, w.composition);
    let ws = counted(m.subject, w.subject);
    weighted_bound(w.sharpness as int, m.sharpness as int, lo, hi);
    weighted_bound(w.exposure as int, m.exposure as int, lo, hi);
    weighted_bound(w.contrast as int, m.contrast as int, lo, hi);
    weighted_bound(w.color as int, m.color as int, lo, hi);
    counted_product(m.composition, w.composition);
    counted_product(m.subject, w.subject);
    if let Some(v) = m.composition {
        weighted_bound(wc, v as int, lo, hi);
    }
    if let Some(v) = m.subject {
        weighted_bound(ws, v as int, lo, hi);
    }
    assert(0 * lo == 0 && 0 * hi == 0);
    assert(t * lo <= s <= t * hi) by {
        assert(t * lo == w.sharpness * lo + w.exposure * lo + w.contrast * lo + w.color * lo + wc
            * lo + ws * lo) by (nonlinear_arith)
            requires
                t == w.sharpness + w.exposure + w.contrast + w.color + wc + ws,
        ;
        assert(t * hi == w.sharpness * hi + w.exposure * hi + w.contrast * hi + w.color * hi + wc
            * hi + ws * hi) by (nonlinear_arith)
            requires
                t == w.sharpness + w.exposure + w.contrast + w.color + wc + ws,
        ;
    }
    assert(lo <= s / t <= hi) by (nonlinear_arith)
        requires
            t * lo <= s <= t * hi,
            t > 0,
    ;
}

proof fn counted_product(factor: Option<u64>, weight: u32)
    ensures
        weight * present(factor) == counted(factor, weight) * present(factor),
        factor is None ==> weight * present(factor) == 0,
{
    assert(weight * 0 == 0) by (nonlinear_arith);
}

/// `b` holds the weights of `a`, each multiplied by `k`.
pub open spec fn is_scaled(a: Weights, b: Weights, k: int) -> bool {
    &&& b.sharpness == k * a.sharpness
    &&& b.exposure == k * a.exposure
    &&& b.contrast == k * a.contrast
    &&& b.color == k * a.color
    &&& b.composition == k * a.composition
    &&& b.subject == k * a.subject
}

proof fn scaled_product(k: int, w: int, v: int)
    ensures
        (k * w) * v == k * (w * v),
{
    assert((k * w) * v == k * (w * v)) by (nonlinear_arith);
}

proof fn distributed(k: int, a: int, b: int, c: int, d: int, e: int, f: int)
    ensures
        k * (a + b + c + d + e + f) == k * a + k * b + k * c + k * d + k * e + k * f,
{
    assert(k * (a + b + c + d + e + f) == k * a + k * b + k * c + k * d + k * e + k * f)
        by (nonlinear_arith);
}

/// Only the proportions of the weights matter: multiplying all of them by the
/// same factor leaves every Overall score as it was.
pub proof fn overall_ignores_weight_scale(m: Metrics, a: Weights, b: Weights, k: int)
    requires
        k > 0,
        is_scaled(a, b, k),
    ensures
        overall_of(m, a) == overall_of(m, b),
{
    let s = weighted_sum(m, a);
    let t = total_weight(m, a);
    let c = present(m.composition);
    let d = present(m.subject);
    assert(weighted_sum(m, b) == k * s) by {
        scaled_product(k, a.sharpness as int, m.sharpness as int);
        scaled_product(k, a.exposure as int, m.exposure as int);
        scaled_product(k, a.contrast as int, m.contrast as int);
        scaled_product(k, a.color as int, m.color as int);
        scaled_product(k, a.composition as int, c);
        scaled_product(k, a.subject as int, d);
        distributed(
            k,
            a.sharpness * m.sharpness,
            a.exposure * m.exposure,
            a.contrast * m.contrast,
            a.color * m.color,
            a.composition * c,
            a.subject * d,
        );
    }
    let wc = counted(m.composition, a.composition);
    let ws = counted(m.subject, a.subject);
    assert(k * 0 == 0);
    distributed(
        k,
        a.sharpness as int,
        a.exposure as int,
        a.contrast as int,
        a.color as int,
        wc,
        ws,
    );
    assert(total_weight(m, b) == k * t);
    if t > 0 {
        assert(k * t > 0) by (nonlinear_arith)
            requires
                k > 0,
                t > 0,
        ;
        product_bound(a.sharpness, m.sharpness);
        product_bound(a.exposure, m.exposure);
        product_bound(a.contrast, m.contrast);
        product_bound(a.color, m.color);
        product_bound(a.composition, c as u64);
        product_bound(a.subject, d as u64);
        assert(k * s >= 0) by (nonlinear_arith)
            requires
                k > 0,
                s >= 0,
        ;
        lemma_div_denominator(k * s, k, t);
        lemma_div_multiples_vanish(s, k);
    } else {
        assert(t == 0);
    }
}

/// A factor that is absent has no part in the Overall score: its weight is
/// irrelevant.
pub proof fn overall_ignores_absent_factors(m: Metrics, a: Weights, b: Weights)
    requires
        a.sharpness == b.sharpness,
        a.exposure == b.exposure,
        a.contrast == b.contrast,
        a.color == b.color,
        m.composition is Some ==> a.composition == b.composition,
        m.subject is Some ==> a.subject == b.subject,
    ensures
        overall_of(m, a) == overall_of(m, b),
{
    counted_product(m.composition, a.composition);
    counted_product(m.composition, b.composition);
    counted_product(m.subject, a.subject);
    counted_product(m.subject, b.subject);
}

/// Whether `b` has the same factors present as `a`, none of them lower.
pub open spec fn at_least(a: Metrics, b: Metrics) -> bool {
    &&& a.sharpness <= b.sharpness
    &&& a.exposure <= b.exposure
    &&& a.contrast <= b.contrast
    &&& a.color <= b.color
    &&& a.composition is Some <==> b.composition is Some
    &&& a.subject is Some <==> b.subject is Some
    &&& present(a.composition) <= present(b.composition)
    &&& present(a.subject) <= present(b.subject)
}

/// Raising a factor never lowers the Overall score.
pub proof fn overall_rises_with_factors(a: Metrics, b: Metrics, w: Weights)
    requires
        at_least(a, b),
    ensures
        overall_of(a, w) <= overall_of(b, w),
{
    let t = total_weight(a, w);
    weighted_bound(w.sharpness as int, a.sharpness as int, a.sharpness as int, b.sharpness as int);
    weighted_bound(w.exposure as int, a.exposure as int, a.exposure as int, b.exposure as int);
    weighted_bound(w.contrast as int, a.contrast as int, a.contrast as int, b.contrast as int);
    weighted_bound(w.color as int, a.color as int, a.color as int, b.color as int);
    weighted_bound(
        w.composition as int,
        present(a.composition),
        present(a.composition),
        present(b.composition),
    );
    weighted_bound(w.subject as int, present(a.subject), present(a.subject), present(b.subject));
    if t > 0 {
        lemma_div_is_ordered(weighted_sum(a, w), weighted_sum(b, w), t);
    }
}

/// A sharper photo never gets a lower normalized sharpness, and the curve
/// never reaches a hundred points.
pub proof fn normalization_rises(a: int, b: int)
    requires
        0 <= a <= b,
    ensures
        0 <= normalized(a) <= normalized(b) < HUNDRED,
{
    let h = HUNDRED as int;
    let x = normalized(a);
    let y = normalized(b);
    lemma_fundamental_div_mod(h * a, a + h);
    lemma_fundamental_div_mod(h * b, b + h);
    assert(0 <= x) by (nonlinear_arith)
        requires
            x == h * a / (a + h),
            a >= 0,
            h > 0,
    ;
    assert(y < h) by (nonlinear_arith)
        requires
            y == h * b / (b + h),
            b >= 0,
            h > 0,
    ;
    assert(x < h) by (nonlinear_arith)
        requires
            x == h * a / (a + h),
            a >= 0,
            h > 0,
    ;
    assert(x * (b + h) <= h * b) by (nonlinear_arith)
        requires
            x * (a + h) <= h * a,
            x < h,
            a <= b,
            a + h > 0,
            0 <= x,
    ;
    assert(x <= y) by (nonlinear_arith)
        requires
            x * (b + h) <= h * b,
            y == h * b / (b + h),
            b + h > 0,
    ;
}

/// A photo is perfectly exposed exactly if its mean luminance is mid-gray and
/// nothing is clipped.
pub proof fn perfect_exposure(n: int, sum: int, lost: int)
    requires
        0 < n,
        0 <= lost,
    ensures
        exposure_from(n, sum, lost) == HUNDRED <==> sum == 128 * n && lost == 0,
{
    let num = 100 * (128 * n - apart(sum, 128 * n)) - 12800 * lost;
    let den = 128 * n;
    let q = billionths(num, den);
    lemma_fundamental_div_mod(num * ONE, den);
    if sum == 128 * n && lost == 0 {
        assert(num == 100 * den);
        assert(100 * den * 1_000_000_000 == 100_000_000_000 * den) by (nonlinear_arith);
        lemma_div_multiples_vanish_fancy(100_000_000_000, 0, den);
    }
    if q >= HUNDRED {
        assert(num >= 100 * den) by (nonlinear_arith)
            requires
                num * 1_000_000_000 == den * q + (num * 1_000_000_000) % den,
                (num * 1_000_000_000) % den >= 0,
                q >= 100_000_000_000,
                den > 0,
        ;
    }
}

/// Whether red, green and blue are the same in every pixel.
pub open spec fn is_colorless(c: ColorPicture) -> bool {
    forall|i: int|
        0 <= i < c.width * c.height ==> #[trigger] c.data[3 * i] == c.data[3 * i + 1] && c.data[3
            * i] == c.data[3 * i + 2]
}

proof fn no_root()
    ensures
        root(0) == 0,
{
    assert(is_root(0, 0));
    root_is_unique(0, 0, root(0));
}

/// A picture without any color has no color score.
pub proof fn gray_pictures_are_not_colorful(c: ColorPicture)
    requires
        0 <= c.width * c.height,
        is_colorless(c),
    ensures
        color_of(c) == 0,
{
    let a = red_green(c);
    let b = yellow_blue(c);
    let n = (c.width * c.height) as int;
    assert forall|i: int| 0 <= i < a.len() implies #[trigger] a[i] == 0 by {
        assert(c.data[3 * i] == c.data[3 * i + 1]);
    }
    assert forall|i: int| 0 <= i < b.len() implies #[trigger] b[i] == 0 by {
        assert(c.data[3 * i] == c.data[3 * i + 1]);
    }
    equal_numbers_do_not_vary(a, 0);
    equal_numbers_do_not_vary(b, 0);
    if n > 0 {
        assert(n * 0 == 0 && 0int * 0 == 0);
        assert(n * n > 0 && n * (n * n) > 0) by (nonlinear_arith)
            requires
                n > 0,
        ;
        assert(0int * ONE_SQUARED / (4 * (n * (n * n))) == 0) by (nonlinear_arith)
            requires
                n * (n * n) > 0,
        ;
        assert(0int * ONE_SQUARED / (4 * (n * n)) == 0) by (nonlinear_arith)
            requires
                n * n > 0,
        ;
        no_root();
    }
}

/// A picture of one luminance has no contrast.
pub proof fn flat_pictures_have_no_contrast(p: Picture, v: u8)
    requires
        forall|i: int| 0 <= i < p.data.len() ==> #[trigger] p.data[i] == v,
    ensures
        contrast_of(p) == 0,
{
    let s = byte_values(p.data);
    let n = s.len() as int;
    assert forall|i: int| 0 <= i < s.len() implies #[trigger] s[i] == v by {
        assert(p.data[i] == v);
    }
    equal_numbers_do_not_vary(s, v as int);
    if n > 0 {
        assert(n * (n * n) > 0) by (nonlinear_arith)
            requires
                n > 0,
        ;
        let k = CONTRAST_PER_LEVEL * CONTRAST_PER_LEVEL;
        assert(0int * k / (n * (n * n)) == 0) by (nonlinear_arith)
            requires
                n * (n * n) > 0,
        ;
        no_root();
    }
}

/// Detail that all lies near the gridlines scores a hundred points, detail of
/// which none does scores none, and detail of which the bands hold their share
/// scores fifty.
pub proof fn composition_landmarks(energy: int, near: int, width: int, height: int)
    requires
        0 < energy,
        4 <= width,
        4 <= height,
    ensures
        near == energy ==> composition_from(energy, near, width, height) == HUNDRED,
        near == 0 ==> composition_from(energy, near, width, height) == 0,
        ({
            let (fx, gx) = free_share(width);
            let (fy, gy) = free_share(height);
            (energy - near) * (gx * gy) == energy * (fx * fy)
        }) ==> composition_from(energy, near, width, height) == 50 * ONE,
{
    let (fx, gx) = free_share(width);
    let (fy, gy) = free_share(height);
    let free = fx * fy;
    let full = gx * gy;
    assert(0 < free < full) by (nonlinear_arith)
        requires
            0 < fx < gx,
            0 < fy < gy,
            free == fx * fy,
            full == gx * gy,
    ;
    let den = energy * free;
    assert(den > 0 && energy * (full - free) > 0) by (nonlinear_arith)
        requires
            energy > 0,
            0 < free < full,
            den == energy * free,
    ;
    assert((energy - near) * full == energy * full - near * full) by (nonlinear_arith);
    assert(energy * (full - free) == energy * full - energy * free) by (nonlinear_arith);
    if near == energy {
        assert(0 * full == 0);
        assert(100 * den * 1_000_000_000 == 100_000_000_000 * den) by (nonlinear_arith);
        lemma_div_multiples_vanish_fancy(100_000_000_000, 0, den);
    }
    if near == 0 {
        assert(0 * full == 0);
        assert(0int / (energy * (full - free)) == 0) by (nonlinear_arith)
            requires
                energy * (full - free) > 0,
        ;
    }
    if (energy - near) * full == den {
        assert((100 * den - 50 * den) * 1_000_000_000 == 50_000_000_000 * den)
            by (nonlinear_arith);
        lemma_div_multiples_vanish_fancy(50_000_000_000, 0, den);
    }
}

/// How many of the first `n` positions of `side` lie in its bands.
pub open spec fn positions_near(n: int, side: int) -> int
    decreases n,
{
    if n <= 0 {
        0
    } else {
        positions_near(n - 1, side) + if near_third(n - 1, side) {
            1int
        } else {
            0int
        }
    }
}

/// How many of the pixels of a frame lie in the bands: all but those that lie in
/// neither a near column nor a near row.
pub open spec fn pixels_near(width: int, height: int) -> int {
    width * height - (width - positions_near(width, width)) * (height - positions_near(
        height,
        height,
    ))
}

/// How many of the first `n` positions lie from `lo` to `hi`.
spec fn covered(n: int, lo: int, hi: int) -> int {
    if n <= lo {
        0
    } else if n <= hi {
        n - lo
    } else {
        hi + 1 - lo
    }
}

proof fn positions_in_bands(n: int, side: int, l1: int, r1: int, l2: int, r2: int)
    requires
        0 <= n,
        0 <= l1 <= r1 + 1,
        r1 < l2 <= r2 + 1,
        forall|v: int|
            #[trigger] near_third(v, side) <==> l1 <= v <= r1 || l2 <= v <= r2,
    ensures
        positions_near(n, side) == covered(n, l1, r1) + covered(n, l2, r2),
    decreases n,
{
    if n > 0 {
        positions_in_bands(n - 1, side, l1, r1, l2, r2);
        assert(near_third(n - 1, side) <==> l1 <= n - 1 <= r1 || l2 <= n - 1 <= r2);
    }
}

/// The two bands of a side cover a fifth of it, to within two pixels; of a side
/// below ten pixels they cover two.
pub proof fn bands_cover_a_fifth(side: int)
    requires
        4 <= side,
    ensures
        side >= 10 ==> side - 10 < 5 * positions_near(side, side) <= side + 10,
        side < 10 ==> positions_near(side, side) == 2,
{
    if side >= 10 {
        let l1 = (17 * side + 59) / 60;
        let r1 = 23 * side / 60;
        let l2 = (37 * side + 59) / 60;
        let r2 = 43 * side / 60;
        assert forall|v: int| #[trigger]
            near_third(v, side) <==> l1 <= v <= r1 || l2 <= v <= r2 by {}
        positions_in_bands(side, side, l1, r1, l2, r2);
    } else {
        reveal_with_fuel(positions_near, 10);
    }
}

/// How many of the pixels before the one in column `x`, row `y` lie in the bands.
spec fn pixels_before(x: int, y: int, width: int, height: int) -> int {
    let rows = positions_near(y, height);
    rows * width + (y - rows) * positions_near(width, width) + if near_third(y, height) {
        x
    } else {
        positions_near(x, width)
    }
}

proof fn even_detail_before(lap: Seq<i16>, strength: int, i: int, x: int, y: int, width: int, height: int)
    requires
        4 <= width,
        4 <= height,
        lap.len() == width * height,
        forall|j: int| 0 <= j < lap.len() ==> apart(#[trigger] lap[j] as int, 0) == strength,
        0 <= i <= lap.len(),
        0 <= x < width,
        0 <= y,
        i == y * width + x,
    ensures
        total(detail(lap).take(i)) == strength * i,
        total(detail_near_thirds(lap, width, height).take(i)) == strength * pixels_before(
            x,
            y,
            width,
            height,
        ),
    decreases i,
{
    let every = detail(lap);
    let along = detail_near_thirds(lap, width, height);
    let rows = positions_near(y, height);
    let columns = positions_near(width, width);
    if i == 0 {
        assert(x == 0 && y == 0) by (nonlinear_arith)
            requires
                0 == y * width + x,
                0 <= x,
                0 <= y,
                width > 0,
        ;
        assert(every.take(0) =~= Seq::<int>::empty());
        assert(along.take(0) =~= Seq::<int>::empty());
        assert(strength * 0 == 0);
        assert(0 * width == 0 && 0 * columns == 0);
    } else {
        let px = if x > 0 {
            x - 1
        } else {
            width - 1
        };
        let py = if x > 0 {
            y
        } else {
            y - 1
        };
        assert(py >= 0) by (nonlinear_arith)
            requires
                y * width + x > 0,
                0 <= y,
                x > 0 ==> py == y,
                x <= 0 ==> py == y - 1,
                0 <= x,
        ;
        assert(i - 1 == py * width + px) by (nonlinear_arith)
            requires
                i == y * width + x,
                x > 0 ==> py == y && px == x - 1,
                x <= 0 ==> py == y - 1 && px == width - 1,
                0 <= x,
        ;
        even_detail_before(lap, strength, i - 1, px, py, width, height);
        assert((i - 1) % width == px && (i - 1) / width == py) by (nonlinear_arith)
            requires
                i - 1 == py * width + px,
                0 <= px < width,
        ;
        assert(every.take(i).drop_last() =~= every.take(i - 1));
        assert(along.take(i).drop_last() =~= along.take(i - 1));
        assert(every[i - 1] == strength && along.len() == lap.len()) by {
            assert(apart(lap[i - 1] as int, 0) == strength);
        }
        let near = near_third(px, width) || near_third(py, height);
        assert(along[i - 1] == if near {
            strength
        } else {
            0
        });
        let step: int = if near {
            1
        } else {
            0
        };
        let before = pixels_before(px, py, width, height);
        let above = positions_near(py, height);
        if x == 0 {
            assert(positions_near(width, width) == positions_near(width - 1, width) + if near_third(
                px,
                width,
            ) {
                1int
            } else {
                0int
            });
            assert(rows == above + if near_third(py, height) {
                1int
            } else {
                0int
            });
            assert(positions_near(0, width) == 0);
            assert(pixels_before(x, y, width, height) == rows * width + (y - rows) * columns);
            assert((above + 1) * width == above * width + width) by (nonlinear_arith);
            assert((y - above) * columns == (py - above) * columns + columns) by (nonlinear_arith)
                requires
                    y == py + 1,
            ;
            assert((y - (above + 1)) * columns == (py - above) * columns) by (nonlinear_arith)
                requires
                    y == py + 1,
            ;
        }
        assert(pixels_before(x, y, width, height) == before + step);
        assert(strength * (before + step) == strength * before + strength * step)
            by (nonlinear_arith);
        assert(strength * i == strength * (i - 1) + strength) by (nonlinear_arith);
        assert(strength * 1 == strength && strength * 0 == 0);
    }
}

/// Detail of one strength all over the frame: the bands hold as much of it as
/// they hold of the pixels.
pub proof fn even_detail_fills_the_bands(lap: Seq<i16>, strength: int, width: int, height: int)
    requires
        4 <= width,
        4 <= height,
        lap.len() == width * height,
        forall|j: int| 0 <= j < lap.len() ==> apart(#[trigger] lap[j] as int, 0) == strength,
    ensures
        total(detail(lap)) == strength * (width * height),
        total(detail_near_thirds(lap, width, height)) == strength * pixels_near(width, height),
{
    let n = width * height;
    let rows = positions_near(height, height);
    let columns = positions_near(width, width);
    assert(n == height * width + 0) by (nonlinear_arith)
        requires
            n == width * height,
    ;
    even_detail_before(lap, strength, n, 0, height, width, height);
    assert(detail(lap).take(n) =~= detail(lap));
    assert(detail_near_thirds(lap, width, height).take(n) =~= detail_near_thirds(
        lap,
        width,
        height,
    ));
    assert(positions_near(0, width) == 0);
    assert(rows * width + (height - rows) * columns == width * height - (width - columns) * (height
        - rows)) by (nonlinear_arith);
}

/// The rounded-down quotient of two multiples of `e` lies between the bounds that
/// the numbers themselves give.
proof fn quotient_of_multiples(e: int, num: int, den: int)
    requires
        0 < e,
        0 < den,
    ensures
        ({
            let q = billionths(e * num, e * den);
            q * den <= num * ONE < (q + 1) * den
        }),
{
    let q = billionths(e * num, e * den);
    assert(e * den > 0) by (nonlinear_arith)
        requires
            e > 0,
            den > 0,
    ;
    lemma_fundamental_div_mod(e * num * ONE, e * den);
    let rest = e * num * ONE % (e * den);
    assert(e * num * ONE == (e * den) * q + rest && 0 <= rest < e * den);
    assert(q * den <= num * 1_000_000_000) by (nonlinear_arith)
        requires
            e * num * 1_000_000_000 == (e * den) * q + rest,
            0 <= rest,
            e > 0,
    ;
    assert(num * 1_000_000_000 < (q + 1) * den) by (nonlinear_arith)
        requires
            e * num * 1_000_000_000 == (e * den) * q + rest,
            rest < e * den,
            e > 0,
    ;
}

/// How far the pixels in the bands can be from the nominal share of the frame.
proof fn bands_are_nearly_nominal(width: int, height: int)
    requires
        10 <= width,
        10 <= height,
    ensures
        apart(25 * pixels_near(width, height), 9 * (width * height)) <= 40 * (width + height) + 100,
{
    bands_cover_a_fifth(width);
    bands_cover_a_fifth(height);
    let u = 5 * (width - positions_near(width, width));
    let v = 5 * (height - positions_near(height, height));
    let free = (width - positions_near(width, width)) * (height - positions_near(height, height));
    assert(u * v == 25 * free) by (nonlinear_arith)
        requires
            u == 5 * (width - positions_near(width, width)),
            v == 5 * (height - positions_near(height, height)),
            free == (width - positions_near(width, width)) * (height - positions_near(
                height,
                height,
            )),
    ;
    assert(u * v <= 16 * (width * height) + 40 * (width + height) + 100) by (nonlinear_arith)
        requires
            0 <= u <= 4 * width + 10,
            0 <= v <= 4 * height + 10,
    ;
    assert(16 * (width * height) - 40 * (width + height) + 100 <= u * v) by (nonlinear_arith)
        requires
            0 <= 4 * width - 10 <= u,
            0 <= 4 * height - 10 <= v,
    ;
}

/// Detail spread evenly over the frame scores fifty points: exactly in frames
/// below ten pixels either way, and elsewhere but for the pixels that the edges
/// of the bands cut; in frames of three hundred pixels or more either way, to
/// within two points.
pub proof fn even_detail_scores_fifty(lap: Seq<i16>, strength: int, width: int, height: int)
    requires
        4 <= width,
        4 <= height,
        lap.len() == width * height,
        0 < strength,
        forall|j: int| 0 <= j < lap.len() ==> apart(#[trigger] lap[j] as int, 0) == strength,
    ensures
        ({
            let score = composition_from(
                total(detail(lap)),
                total(detail_near_thirds(lap, width, height)),
                width,
                height,
            );
            &&& width < 10 && height < 10 ==> score == 50 * ONE
            &&& width >= 10 && height >= 10 ==> apart(score, 50 * ONE) * (9 * (width * height))
                <= 50 * ONE * (40 * (width + height) + 100) + 9 * (width * height)
            &&& width >= 300 && height >= 300 ==> 48 * ONE <= score <= 52 * ONE
        }),
{
    even_detail_fills_the_bands(lap, strength, width, height);
    let area = width * height;
    let inside = pixels_near(width, height);
    let energy = strength * area;
    let near = strength * inside;
    let score = composition_from(energy, near, width, height);
    assert(area > 0) by (nonlinear_arith)
        requires
            area == width * height,
            width > 0,
            height > 0,
    ;
    assert(energy > 0) by (nonlinear_arith)
        requires
            energy == strength * area,
            strength > 0,
            area > 0,
    ;
    if width < 10 && height < 10 {
        bands_cover_a_fifth(width);
        bands_cover_a_fifth(height);
        let free = (width - 2) * (height - 2);
        assert(area - inside == free);
        assert((energy - near) * area == energy * free) by (nonlinear_arith)
            requires
                energy == strength * area,
                near == strength * inside,
                area - inside == free,
        ;
        composition_landmarks(energy, near, width, height);
    }
    if width >= 10 && height >= 10 {
        bands_are_nearly_nominal(width, height);
        let excess = 25 * inside - 9 * area;
        let slack = 40 * (width + height) + 100;
        assert(near * 25 - energy * 9 == strength * excess) by (nonlinear_arith)
            requires
                energy == strength * area,
                near == strength * inside,
                excess == 25 * inside - 9 * area,
        ;
        if excess >= 0 {
            assert(strength * excess >= 0) by (nonlinear_arith)
                requires
                    strength > 0,
                    excess >= 0,
            ;
            let num = 50 * (16 * area + excess);
            assert(100 * (energy * 16) - 50 * ((energy - near) * 25) == strength * num)
                by (nonlinear_arith)
                requires
                    energy == strength * area,
                    near == strength * inside,
                    excess == 25 * inside - 9 * area,
                    num == 50 * (16 * area + excess),
            ;
            assert(energy * 16 == strength * (16 * area)) by (nonlinear_arith)
                requires
                    energy == strength * area,
            ;
            quotient_of_multiples(strength, num, 16 * area);
            assert(score == billionths(strength * num, strength * (16 * area)));
            above_fifty(score, area, excess, slack);
        } else {
            assert(strength * excess < 0) by (nonlinear_arith)
                requires
                    strength > 0,
                    excess < 0,
            ;
            let num = 50 * (9 * area + excess);
            assert(50 * (near * 25) == strength * num) by (nonlinear_arith)
                requires
                    near == strength * inside,
                    excess == 25 * inside - 9 * area,
                    num == 50 * (9 * area + excess),
            ;
            assert(energy * 9 == strength * (9 * area)) by (nonlinear_arith)
                requires
                    energy == strength * area,
            ;
            quotient_of_multiples(strength, num, 9 * area);
            assert(score == billionths(strength * num, strength * (9 * area)));
            below_fifty(score, area, excess, slack);
        }
        if width >= 300 && height >= 300 {
            assert(300 * (width + height) <= 2 * area && 90000 <= area) by (nonlinear_arith)
                requires
                    area == width * height,
                    width >= 300,
                    height >= 300,
            ;
            let gap = apart(score, 50 * ONE);
            assert(gap <= 2_000_000_000) by (nonlinear_arith)
                requires
                    gap * (9 * area) <= 50_000_000_000 * slack + 9 * area,
                    slack == 40 * (width + height) + 100,
                    300 * (width + height) <= 2 * area,
                    90000 <= area,
            ;
        }
    }
}

proof fn above_fifty(score: int, area: int, excess: int, slack: int)
    requires
        0 < area,
        0 <= excess <= slack,
        score * (16 * area) <= 50 * (16 * area + excess) * ONE < (score + 1) * (16 * area),
    ensures
        apart(score, 50 * ONE) * (9 * area) <= 50 * ONE * slack + 9 * area,
{
    assert(score >= 50_000_000_000) by (nonlinear_arith)
        requires
            50 * (16 * area + excess) * 1_000_000_000 < (score + 1) * (16 * area),
            0 <= excess,
            0 < area,
    ;
    let gap = score - 50_000_000_000;
    assert(gap * (16 * area) <= 50_000_000_000 * excess) by (nonlinear_arith)
        requires
            gap == score - 50_000_000_000,
            score * (16 * area) <= 50 * (16 * area + excess) * 1_000_000_000,
    ;
    assert(gap * (9 * area) <= gap * (16 * area)) by (nonlinear_arith)
        requires
            gap >= 0,
            area > 0,
    ;
    assert(apart(score, 50 * ONE) == gap);
    assert(50_000_000_000 * excess <= 50_000_000_000 * slack);
}

proof fn below_fifty(score: int, area: int, excess: int, slack: int)
    requires
        0 < area,
        -slack <= excess < 0,
        score * (9 * area) <= 50 * (9 * area + excess) * ONE < (score + 1) * (9 * area),
    ensures
        apart(score, 50 * ONE) * (9 * area) <= 50 * ONE * slack + 9 * area,
{
    assert(score < 50_000_000_000) by (nonlinear_arith)
        requires
            score * (9 * area) <= 50 * (9 * area + excess) * 1_000_000_000,
            excess < 0,
            0 < area,
    ;
    let gap = 50_000_000_000 - score;
    assert(gap * (9 * area) <= -50_000_000_000 * excess + 9 * area) by (nonlinear_arith)
        requires
            gap == 50_000_000_000 - score,
            50 * (9 * area + excess) * 1_000_000_000 < (score + 1) * (9 * area),
    ;
    assert(apart(score, 50 * ONE) == gap);
    assert(-50_000_000_000 * excess <= 50_000_000_000 * slack);
}

/// A larger subject never scores lower on size, wherever it is.
pub proof fn larger_subjects_score_higher(a: FaceBox, b: FaceBox, width: int, height: int)
    requires
        0 < width,
        0 < height,
        area_of(a) <= area_of(b),
    ensures
        size_score(a, width, height) <= size_score(b, width, height),
{
    assert(width * height > 0) by (nonlinear_arith)
        requires
            width > 0,
            height > 0,
    ;
    let den = 15 * (SUBPIXELS * SUBPIXELS * (width * height));
    assert(den > 0) by (nonlinear_arith)
        requires
            width * height > 0,
            den == 15 * (65_536 * 65_536 * (width * height)),
    ;
    weighted_bound(100 * HUNDRED, area_of(a), area_of(a), area_of(b));
    lemma_div_is_ordered(100 * HUNDRED * area_of(a), 100 * HUNDRED * area_of(b), den);
}

/// Of two subjects of one size, the one nearer the center of the frame scores no
/// less.
pub proof fn nearer_subjects_score_higher(a: FaceBox, b: FaceBox, width: int, height: int)
    requires
        0 < width,
        0 < height,
        area_of(a) == area_of(b),
        ({
            let ax = off_center(a.x1 as int, a.x2 as int, width);
            let ay = off_center(a.y1 as int, a.y2 as int, height);
            let bx = off_center(b.x1 as int, b.x2 as int, width);
            let by = off_center(b.y1 as int, b.y2 as int, height);
            ax * ax + ay * ay <= bx * bx + by * by
        }),
    ensures
        subject_of(a, width, height) >= subject_of(b, width, height),
{
    let ax = off_center(a.x1 as int, a.x2 as int, width);
    let ay = off_center(a.y1 as int, a.y2 as int, height);
    let bx = off_center(b.x1 as int, b.x2 as int, width);
    let by = off_center(b.y1 as int, b.y2 as int, height);
    assert(0 <= ax * ax + ay * ay) by (nonlinear_arith);
    root_rises(ax * ax + ay * ay, bx * bx + by * by);
    let diagonal = root(SUBPIXELS * SUBPIXELS * (width * width + height * height));
    let reach = if diagonal < 2 * SUBPIXELS {
        2 * SUBPIXELS
    } else {
        diagonal
    };
    let near = root(ax * ax + ay * ay);
    let far = root(bx * bx + by * by);
    assert((reach - far) * HUNDRED <= (reach - near) * HUNDRED);
    lemma_div_is_ordered((reach - far) * HUNDRED, (reach - near) * HUNDRED, reach);
}

proof fn rounded_down(num: int, den: int)
    requires
        den > 0,
    ensures
        den * (num / den) <= num < den * (num / den + 1),
{
    assert(den * (num / den) <= num < den * (num / den + 1)) by (nonlinear_arith)
        requires
            den > 0,
    ;
}

/// Overall is the mean of the factors that are present, each weighted by the
/// weight of its own name, rounded down; zero if none of them carries weight.
pub proof fn overall_is_the_weighted_mean(m: Metrics, w: Weights)
    ensures
        ({
            let weight = w.sharpness + w.exposure + w.contrast + w.color + (
            if m.composition is Some {
                w.composition as int
            } else {
                0
            }) + (if m.subject is Some {
                w.subject as int
            } else {
                0
            });
            let sum = w.sharpness * m.sharpness + w.exposure * m.exposure + w.contrast * m.contrast
                + w.color * m.color + (match m.composition {
                Some(v) => w.composition * v,
                None => 0,
            }) + (match m.subject {
                Some(v) => w.subject * v,
                None => 0,
            });
            &&& weight == 0 ==> overall_of(m, w) == 0
            &&& weight > 0 ==> weight * overall_of(m, w) <= sum < weight * (overall_of(m, w) + 1)
        }),
{
    assert(w.composition * 0 == 0 && w.subject * 0 == 0) by (nonlinear_arith);
    if total_weight(m, w) > 0 {
        rounded_down(weighted_sum(m, w), total_weight(m, w));
    }
}

/// Each weight belongs to its own factor: if only one factor that is present
/// carries weight, Overall is that factor.
pub proof fn a_lone_weight_decides(m: Metrics, w: Weights)
    ensures
        w.sharpness > 0 && w.exposure == 0 && w.contrast == 0 && w.color == 0
            && w.composition == 0 && w.subject == 0
            ==> overall_of(m, w) == m.sharpness,
        w.exposure > 0 && w.sharpness == 0 && w.contrast == 0 && w.color == 0
            && w.composition == 0 && w.subject == 0
            ==> overall_of(m, w) == m.exposure,
        w.contrast > 0 && w.sharpness == 0 && w.exposure == 0 && w.color == 0
            && w.composition == 0 && w.subject == 0
            ==> overall_of(m, w) == m.contrast,
        w.color > 0 && w.sharpness == 0 && w.exposure == 0 && w.contrast == 0
            && w.composition == 0 && w.subject == 0
            ==> overall_of(m, w) == m.color,
        m.composition is Some && w.composition > 0 && w.sharpness == 0 && w.exposure == 0
            && w.contrast == 0 && w.color == 0 && w.subject == 0
            ==> overall_of(m, w) == m.composition->0,
        m.subject is Some && w.subject > 0 && w.sharpness == 0 && w.exposure == 0
            && w.contrast == 0 && w.color == 0 && w.composition == 0
            ==> overall_of(m, w) == m.subject->0,
{
    no_weight(m.sharpness as int);
    no_weight(m.exposure as int);
    no_weight(m.contrast as int);
    no_weight(m.color as int);
    no_weight(present(m.composition));
    no_weight(present(m.subject));
    if w.sharpness > 0 {
        lone_quotient(w.sharpness as int, m.sharpness as int);
    }
    if w.exposure > 0 {
        lone_quotient(w.exposure as int, m.exposure as int);
    }
    if w.contrast > 0 {
        lone_quotient(w.contrast as int, m.contrast as int);
    }
    if w.color > 0 {
        lone_quotient(w.color as int, m.color as int);
    }
    if w.composition > 0 && m.composition is Some {
        lone_quotient(w.composition as int, present(m.composition));
    }
    if w.subject > 0 && m.subject is Some {
        lone_quotient(w.subject as int, present(m.subject));
    }
}

proof fn no_weight(v: int)
    ensures
        0 * v == 0,
{
}

proof fn lone_quotient(weight: int, v: int)
    requires
        weight > 0,
    ensures
        weight * v / weight == v,
{
    lemma_div_multiples_vanish(v, weight);
}

/// A factor whose weight is zero has no part in Overall: two sets of factors
/// that differ only in such factors have the same Overall.
pub proof fn weightless_factors_have_no_part(a: Metrics, b: Metrics, w: Weights)
    requires
        w.sharpness == 0 || a.sharpness == b.sharpness,
        w.exposure == 0 || a.exposure == b.exposure,
        w.contrast == 0 || a.contrast == b.contrast,
        w.color == 0 || a.color == b.color,
        w.composition == 0 || a.composition == b.composition,
        w.subject == 0 || a.subject == b.subject,
    ensures
        overall_of(a, w) == overall_of(b, w),
{
    no_weight(a.sharpness as int);
    no_weight(b.sharpness as int);
    no_weight(a.exposure as int);
    no_weight(b.exposure as int);
    no_weight(a.contrast as int);
    no_weight(b.contrast as int);
    no_weight(a.color as int);
    no_weight(b.color as int);
    no_weight(present(a.composition));
    no_weight(present(b.composition));
    no_weight(present(a.subject));
    no_weight(present(b.subject));
}

/// The normalized form of a raw score is a hundred points times the score over
/// the score and a hundred, rounded down.
pub proof fn normalization_is_a_share(raw: int)
    requires
        0 <= raw,
    ensures
        (raw + 100_000_000_000) * normalized(raw) <= 100_000_000_000 * raw < (raw
            + 100_000_000_000) * (normalized(raw) + 1),
{
    rounded_down(HUNDRED * raw, raw + HUNDRED);
}

/// A luminance counts as clipped exactly if it is at most 3 or at least 252,
/// and every pixel counts once, in this and in the sum.
pub proof fn pixels_count_once(s: Seq<u8>, v: u8)
    ensures
        clipped(Seq::empty()) == 0,
        total(byte_values(Seq::empty())) == 0,
        clipped(s.push(v)) == clipped(s) + if v < 4 || v > 251 {
            1int
        } else {
            0int
        },
        total(byte_values(s.push(v))) == total(byte_values(s)) + v,
        byte_values(s).len() == s.len(),
{
    assert(s.push(v).drop_last() =~= s);
    assert(byte_values(s.push(v)).drop_last() =~= byte_values(s));
    assert(byte_values(Seq::<u8>::empty()).len() == 0);
}

/// Exposure is a hundred points, less as many as the mean luminance lies from
/// mid-gray in hundredths of mid-gray, less the percentage of clipped pixels;
/// at least zero, and rounded down.
pub proof fn exposure_is_lost_with_distance_and_clipping(p: Picture)
    requires
        p.data.len() > 0,
    ensures
        ({
            let n = p.data.len() as int;
            let sum = total(byte_values(p.data));
            let lost = clipped(p.data);
            let off = if sum > 128 * n {
                sum - 128 * n
            } else {
                128 * n - sum
            };
            let left = 100 * (128 * n) - 100 * off - 100 * (128 * lost);
            let e = exposure_of(p);
            &&& left <= 0 ==> e == 0
            &&& left >= 0 ==> 128 * n * e <= 1_000_000_000 * left < 128 * n * (e + 1)
        }),
{
    let n = p.data.len() as int;
    let sum = total(byte_values(p.data));
    let lost = clipped(p.data);
    clipped_is_a_count(p.data);
    let left = 100 * (128 * n - apart(sum, 128 * n)) - 12800 * lost;
    let den = 128 * n;
    let e = left * 1_000_000_000 / den;
    rounded_down(left * 1_000_000_000, den);
    if left <= 0 {
        assert(e <= 0) by (nonlinear_arith)
            requires
                den * e <= left * 1_000_000_000,
                left <= 0,
                den > 0,
        ;
    }
    if left >= 0 {
        assert(0 <= e <= 100_000_000_000) by (nonlinear_arith)
            requires
                den * e <= left * 1_000_000_000 < den * (e + 1),
                0 <= left <= 100 * den,
                den > 0,
        ;
    }
}

proof fn clipped_is_a_count(s: Seq<u8>)
    ensures
        0 <= clipped(s) <= s.len(),
    decreases s.len(),
{
    if s.len() > 0 {
        clipped_is_a_count(s.drop_last());
    }
}

proof fn rooted_quotient(x: int, den: int) -> (r: int)
    requires
        0 <= x,
        0 < den,
    ensures
        r == root(x / den),
        0 <= r,
        r * r * den <= x < (r + 1) * (r + 1) * den,
{
    let y = x / den;
    rounded_down(x, den);
    assert(0 <= y) by (nonlinear_arith)
        requires
            x < den * (y + 1),
            0 <= x,
            0 < den,
    ;
    root_exists(y);
    let r = root(y);
    assert(r * r * den <= x < (r + 1) * (r + 1) * den) by (nonlinear_arith)
        requires
            r * r <= y,
            y + 1 <= (r + 1) * (r + 1),
            den * y <= x < den * (y + 1),
            den > 0,
    ;
    r
}

/// Contrast is the standard deviation of the luminances, a hundred points at
/// 64 levels and never more, rounded down.
pub proof fn contrast_is_the_standard_deviation(p: Picture)
    requires
        p.data.len() > 0,
    ensures
        ({
            let n = p.data.len() as int;
            let s = byte_values(p.data);
            let spread = n * total_squares(s) - total(s) * total(s);
            let c = contrast_of(p);
            &&& 0 <= c <= 100_000_000_000
            &&& c * c * (n * n) <= 2_441_406_250_000_000_000 * spread
            &&& c < 100_000_000_000 ==> 2_441_406_250_000_000_000 * spread < (c + 1) * (c + 1) * (n
                * n)
        }),
{
    let n = p.data.len() as int;
    let s = byte_values(p.data);
    let spread = n * total_squares(s) - total(s) * total(s);
    let scale = CONTRAST_PER_LEVEL * CONTRAST_PER_LEVEL;
    assert(scale == 2_441_406_250_000_000_000) by (nonlinear_arith)
        requires
            scale == 1_562_500_000 * 1_562_500_000,
    ;
    spread_from_sums(s, scale);
    let den = n * n;
    assert(den > 0) by (nonlinear_arith)
        requires
            den == n * n,
            n > 0,
    ;
    let x = spread * scale;
    assert(x >= 0);
    let r = rooted_quotient(x, den);
    let c = contrast_of(p);
    if r > 100_000_000_000 {
        assert(c * c * den <= r * r * den) by (nonlinear_arith)
            requires
                0 <= c <= r,
                den > 0,
        ;
    }
}

/// Color is the colorfulness of the picture, a hundred points at 110 and never
/// more. Colorfulness is the joint standard deviation of the two opponent axes
/// (red less green, and the mean of red and green less blue, here doubled),
/// plus three tenths of the distance of their joint mean from zero, each
/// rounded down.
pub proof fn color_is_spread_and_distance_from_gray(c: ColorPicture)
    requires
        0 < c.width,
        0 < c.height,
    ensures
        ({
            let n = c.width * c.height;
            let a = Seq::new(n as nat, |i: int| c.data[3 * i] - c.data[3 * i + 1]);
            let b = Seq::new(
                n as nat,
                |i: int| c.data[3 * i] + c.data[3 * i + 1] - 2 * c.data[3 * i + 2],
            );
            let (sa, sb) = (total(a), total(b));
            let apart = 4 * (n * total_squares(a) - sa * sa) + (n * total_squares(b) - sb * sb);
            let off = 4 * (sa * sa) + sb * sb;
            exists|spread: int, shift: int|
                {
                    &&& 0 <= spread && 0 <= shift
                    &&& #[trigger] (spread * spread) * (4 * (n * n)) <= apart
                        * 1_000_000_000_000_000_000 < (spread + 1) * (spread + 1) * (4 * (n * n))
                    &&& #[trigger] (shift * shift) * (4 * (n * n)) <= off
                        * 1_000_000_000_000_000_000 < (shift + 1) * (shift + 1) * (4 * (n * n))
                    &&& color_of(c) == if 10 * (spread + 3 * shift / 10) >= 1_100_000_000_000 {
                        100_000_000_000
                    } else {
                        10 * (spread + 3 * shift / 10) / 11
                    }
                }
        }),
{
    let n = c.width * c.height;
    assert(n > 0) by (nonlinear_arith)
        requires
            n == c.width * c.height,
            c.width > 0,
            c.height > 0,
    ;
    let a = red_green(c);
    let b = yellow_blue(c);
    assert(a =~= Seq::new(n as nat, |i: int| c.data[3 * i] - c.data[3 * i + 1]));
    assert(b =~= Seq::new(
        n as nat,
        |i: int| c.data[3 * i] + c.data[3 * i + 1] - 2 * c.data[3 * i + 2],
    ));
    let (sa, sb) = (total(a), total(b));
    let va = n * total_squares(a) - sa * sa;
    let vb = n * total_squares(b) - sb * sb;
    deviations_from_sums(a);
    deviations_from_sums(b);
    let den = 4 * (n * n);
    assert(den > 0 && 4 * (n * (n * n)) == n * den) by (nonlinear_arith)
        requires
            den == 4 * (n * n),
            n > 0,
    ;
    let apart = 4 * va + vb;
    assert(4 * (n * va) + n * vb == n * apart) by (nonlinear_arith)
        requires
            apart == 4 * va + vb,
    ;
    cancelled(n, apart, ONE_SQUARED as int, den);
    let off = 4 * (sa * sa) + sb * sb;
    assert(off >= 0) by (nonlinear_arith)
        requires
            off == 4 * (sa * sa) + sb * sb,
    ;
    let spread = rooted_quotient(apart * ONE_SQUARED, den);
    let shift = rooted_quotient(off * ONE_SQUARED, den);
    assert((spread * spread) * den <= apart * 1_000_000_000_000_000_000 < (spread + 1) * (spread
        + 1) * den);
    assert((shift * shift) * den <= off * 1_000_000_000_000_000_000 < (shift + 1) * (shift + 1)
        * den);
}

/// The bands of the rule of thirds: a column (or row) lies in one exactly if it
/// is within a twentieth of the side, or within half a pixel if that is more,
/// of one third or of two thirds of the side.
pub proof fn bands_lie_on_the_thirds(v: int, side: int)
    requires
        0 < side,
    ensures
        near_third(v, side) <==> ({
            let reach = if side >= 10 {
                3 * side
            } else {
                30
            };
            ||| -reach <= 60 * v - 20 * side <= reach
            ||| -reach <= 60 * v - 40 * side <= reach
        }),
{
}

/// The detail of a picture is the strength of the Laplacian at each of its
/// pixels; that in the bands is the strength at the pixels whose column lies
/// in a band of the width, or whose row lies in one of the height.
pub proof fn detail_counts_pixels_in_bands(p: Picture, x: int, y: int)
    requires
        0 <= x < p.width,
        0 <= y < p.height,
    ensures
        ({
            let lap = laplacian(p);
            let v = laplacian_at(p, x, y) as i16 as int;
            let strength = if v < 0 {
                -v
            } else {
                v
            };
            let at = y * p.width + x;
            &&& detail(lap).len() == p.width * p.height
            &&& detail_near_thirds(lap, p.width, p.height).len() == p.width * p.height
            &&& detail(lap)[at] == strength
            &&& detail_near_thirds(lap, p.width, p.height)[at] == if near_third(x, p.width)
                || near_third(y, p.height) {
                strength
            } else {
                0
            }
        }),
{
    let w = p.width;
    let h = p.height;
    assert(0 <= y * w + x < w * h) by (nonlinear_arith)
        requires
            0 <= x < w,
            0 <= y < h,
    ;
    assert((y * w + x) / w == y && (y * w + x) % w == x) by (nonlinear_arith)
        requires
            0 <= x < w,
    ;
}

/// Composition weighs the detail in the bands against all of it. A picture
/// under four pixels wide or high, or without any detail, gets fifty points.
pub proof fn composition_weighs_the_bands(p: Picture)
    ensures
        p.width < 4 || p.height < 4 ==> composition_of(p) == 50_000_000_000,
        composition_from(0, 0, p.width, p.height) == 50_000_000_000,
        p.width >= 4 && p.height >= 4 ==> composition_of(p) == composition_from(
            total(detail(laplacian(p))),
            total(detail_near_thirds(laplacian(p), p.width, p.height)),
            p.width,
            p.height,
        ),
{
}

/// The composition score in formulas. On a frame of ten pixels or more either
/// way the bands take up nine parts in twenty-five by their width. Detail
/// beyond that share scores above fifty points, by the part of what is left
/// outside the bands that is missing there; detail below it scores the part of
/// fifty points that it is of that share. (On smaller sides the bands are two
/// pixels wide.)
pub proof fn composition_compares_shares(energy: int, near: int, width: int, height: int)
    requires
        0 < energy,
        0 <= near <= energy,
        4 <= width,
        4 <= height,
    ensures
        ({
            let score = composition_from(energy, near, width, height);
            let (fx, gx) = if width >= 10 {
                (4, 5)
            } else {
                (width - 2, width)
            };
            let (fy, gy) = if height >= 10 {
                (4, 5)
            } else {
                (height - 2, height)
            };
            let (free, full) = (fx * fy, gx * gy);
            &&& 0 < free < full
            &&& near * full >= energy * (full - free) ==> energy * free * score <= 1_000_000_000 * (
            100 * (energy * free) - 50 * ((energy - near) * full)) < energy * free * (score + 1)
            &&& near * full < energy * (full - free) ==> energy * (full - free) * score
                <= 1_000_000_000 * (50 * (near * full)) < energy * (full - free) * (score + 1)
        }),
{
    let (fx, gx) = free_share(width);
    let (fy, gy) = free_share(height);
    let (free, full) = (fx * fy, gx * gy);
    assert(0 < free < full) by (nonlinear_arith)
        requires
            free == fx * fy,
            full == gx * gy,
            0 < fx < gx,
            0 < fy < gy,
    ;
    assert(energy * free > 0 && energy * (full - free) > 0) by (nonlinear_arith)
        requires
            0 < energy,
            0 < free < full,
    ;
    rounded_down(
        (100 * (energy * free) - 50 * ((energy - near) * full)) * ONE,
        energy * free,
    );
    rounded_down(50 * (near * full) * ONE, energy * (full - free));
}

/// The size part of a subject's score is a hundred points from fifteen percent
/// of the frame on, and in proportion below, rounded down.
pub proof fn size_counts_by_area(b: FaceBox, width: int, height: int)
    requires
        0 < width,
        0 < height,
        b.x1 <= b.x2,
        b.y1 <= b.y2,
    ensures
        ({
            let area = (b.x2 - b.x1) * (b.y2 - b.y1);
            let frame = 4_294_967_296 * (width * height);
            let s = size_score(b, width, height);
            &&& 100 * area >= 15 * frame ==> s == 100_000_000_000
            &&& 100 * area <= 15 * frame ==> 15 * frame * s <= 10_000_000_000_000 * area < 15
                * frame * (s + 1)
        }),
{
    let area = (b.x2 - b.x1) * (b.y2 - b.y1);
    let (bw, bh) = (b.x2 - b.x1, b.y2 - b.y1);
    area_is_width_times_height(b);
    assert(area >= 0) by (nonlinear_arith)
        requires
            area == bw * bh,
            bw >= 0,
            bh >= 0,
    ;
    let frame = 4_294_967_296 * (width * height);
    let pixels = width * height;
    assert(pixels > 0) by (nonlinear_arith)
        requires
            pixels == width * height,
            width > 0,
            height > 0,
    ;
    assert(SUBPIXELS * SUBPIXELS * pixels == frame);
    let den = 15 * frame;
    let s = 10_000_000_000_000 * area / den;
    assert(100 * HUNDRED * area == 10_000_000_000_000 * area);
    rounded_down(10_000_000_000_000 * area, den);
    assert(s >= 0) by (nonlinear_arith)
        requires
            10_000_000_000_000 * area < den * (s + 1),
            area >= 0,
            den > 0,
    ;
    if 100 * area >= den {
        assert(s >= 100_000_000_000) by (nonlinear_arith)
            requires
                10_000_000_000_000 * area < den * (s + 1),
                100 * area >= den,
                den > 0,
        ;
    }
    if 100 * area <= den {
        assert(s <= 100_000_000_000) by (nonlinear_arith)
            requires
                den * s <= 10_000_000_000_000 * area,
                100 * area <= den,
                den > 0,
        ;
    }
}

/// The centering part of a subject's score falls from a hundred points, where
/// the middle of the box is the middle of the frame, to none at half a
/// diagonal away (one pixel, if that is more), evenly with the distance. (The
/// distance and the diagonal are rounded down, and so is the score.)
pub proof fn centering_falls_with_distance(b: FaceBox, width: int, height: int)
    requires
        0 < width,
        0 < height,
    ensures
        ({
            let dx = b.x1 + b.x2 - 65_536 * width;
            let dy = b.y1 + b.y2 - 65_536 * height;
            let s = centering_score(b, width, height);
            exists|away: int, diagonal: int|
                {
                    let reach = if diagonal < 131_072 {
                        131_072
                    } else {
                        diagonal
                    };
                    &&& 0 <= away && 0 <= diagonal
                    &&& #[trigger] (away * away) <= dx * dx + dy * dy < (away + 1) * (away + 1)
                    &&& #[trigger] (diagonal * diagonal) <= 4_294_967_296 * (width * width + height
                        * height) < (diagonal + 1) * (diagonal + 1)
                    &&& away >= reach ==> s == 0
                    &&& away <= reach ==> reach * s <= 100_000_000_000 * (reach - away) < reach * (s
                        + 1)
                }
        }),
{
    let dx = off_center(b.x1 as int, b.x2 as int, width);
    let dy = off_center(b.y1 as int, b.y2 as int, height);
    assert(width * SUBPIXELS == 65_536 * width && height * SUBPIXELS == 65_536 * height);
    let distance = dx * dx + dy * dy;
    let square = width * width + height * height;
    assert(distance >= 0 && square >= 0) by (nonlinear_arith)
        requires
            distance == dx * dx + dy * dy,
            square == width * width + height * height,
    ;
    assert(SUBPIXELS * SUBPIXELS * square == 4_294_967_296 * square);
    root_exists(distance);
    root_exists(4_294_967_296 * square);
    let away = root(distance);
    let diagonal = root(4_294_967_296 * square);
    let reach = if diagonal < 131_072 {
        131_072
    } else {
        diagonal
    };
    let gap = reach - away;
    rounded_down(gap * 100_000_000_000, reach);
    let s = gap * 100_000_000_000 / reach;
    if away >= reach {
        assert(s <= 0) by (nonlinear_arith)
            requires
                reach * s <= gap * 100_000_000_000,
                gap <= 0,
                reach > 0,
        ;
    }
    if away <= reach {
        assert(0 <= s <= 100_000_000_000) by (nonlinear_arith)
            requires
                reach * s <= gap * 100_000_000_000 < reach * (s + 1),
                0 <= gap <= reach,
                reach > 0,
        ;
    }
    assert((away * away) <= dx * dx + dy * dy < (away + 1) * (away + 1));
    assert((diagonal * diagonal) <= 4_294_967_296 * (width * width + height * height) < (diagonal
        + 1) * (diagonal + 1));
}

/// A subject's score is six tenths size and four tenths centering, rounded
/// down; in an empty frame it is fifty points.
pub proof fn subjects_score_by_size_and_centering(b: FaceBox, width: int, height: int)
    ensures
        width <= 0 || height <= 0 ==> subject_of(b, width, height) == 50_000_000_000,
        0 < width && 0 < height ==> 10 * subject_of(b, width, height) <= 6 * size_score(
            b,
            width,
            height,
        ) + 4 * centering_score(b, width, height) < 10 * (subject_of(b, width, height) + 1),
{
}

/// Every factor is the score of its own name: sharpness comes from the raw
/// score alone, exposure, contrast and composition from the luminances alone,
/// color from the colors alone, and the subject's score from its box and the
/// size of the picture.
pub proof fn factors_stand_in_their_places(
    c: ColorPicture,
    p: Picture,
    raw_sharpness: int,
    subject: Option<FaceBox>,
)
    ensures
        ({
            let m = metrics_of(c, p, raw_sharpness, subject);
            &&& m.sharpness == normalized(raw_sharpness) as u64
            &&& m.exposure == exposure_of(p) as u64
            &&& m.contrast == contrast_of(p) as u64
            &&& m.color == color_of(c) as u64
            &&& m.composition == Some(composition_of(p) as u64)
            &&& subject is None ==> m.subject is None
            &&& subject matches Some(b) ==> m.subject == Some(
                subject_of(b, c.width, c.height) as u64,
            )
        }),
{
}

/// A picture without any pixels has neither exposure nor contrast nor color.
pub proof fn empty_pictures_score_nothing(p: Picture, c: ColorPicture)
    requires
        p.data.len() == 0,
        c.width == 0 || c.height == 0,
    ensures
        exposure_of(p) == 0,
        contrast_of(p) == 0,
        color_of(c) == 0,
{
    assert(c.width * c.height == 0) by (nonlinear_arith)
        requires
            c.width == 0 || c.height == 0,
    ;
}

} // verus!
