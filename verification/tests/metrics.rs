use photo2cull::classify::{FaceBox, SUBPIXELS};
use photo2cull::fixed::{
    divide_nearest_even, floor_div, isqrt, round_to_single, single_scale, HUNDRED, ONE,
};
use photo2cull::metrics::{
    color_score, composition_score, compute, compute_gray, contrast_score, exposure_score,
    normalize_sharpness, overall_score, subject_quality_score, Metrics, Weights,
};
use photo2cull::raster::{GrayImage, RgbImage};

fn gray_from_fn(width: u32, height: u32, f: impl Fn(u32, u32) -> u8) -> GrayImage {
    let mut data = Vec::new();
    for y in 0..height {
        for x in 0..width {
            data.push(f(x, y));
        }
    }
    GrayImage::from_raw(width, height, data).unwrap()
}

fn rgb_of(width: u32, height: u32, pixel: [u8; 3]) -> RgbImage {
    let mut data = Vec::new();
    for _ in 0..width * height {
        data.extend_from_slice(&pixel);
    }
    RgbImage::from_raw(width, height, data).unwrap()
}

fn some_metrics() -> Metrics {
    Metrics {
        sharpness: 40 * ONE,
        exposure: 80 * ONE,
        contrast: 60 * ONE,
        color: 20 * ONE,
        composition: Some(50 * ONE),
        subject: None,
    }
}

fn equal_weights(w: u32) -> Weights {
    Weights { sharpness: w, exposure: w, contrast: w, color: w, composition: w, subject: w }
}

#[test]
fn overall_is_the_weighted_mean_of_what_is_there() {
    // Without a subject five factors are left: 250 points over five.
    assert_eq!(overall_score(&some_metrics(), &equal_weights(100_000)), 50 * ONE);
    let mut with_subject = some_metrics();
    with_subject.subject = Some(80 * ONE);
    assert_eq!(overall_score(&with_subject, &equal_weights(100_000)), 55 * ONE);
    // 0.25 * 40 + 0.15 * 80 + 0.1 * 60 + 0.1 * 20 + 0.25 * 50, over 0.85.
    assert_eq!(overall_score(&some_metrics(), &Weights::default()), 50 * ONE);
}

#[test]
fn overall_without_weight_is_zero() {
    assert_eq!(overall_score(&some_metrics(), &equal_weights(0)), 0);
    let mut only_subject = equal_weights(0);
    only_subject.subject = 500_000;
    assert_eq!(overall_score(&some_metrics(), &only_subject), 0);
}

#[test]
fn overall_ignores_the_scale_of_the_weights() {
    let m = some_metrics();
    let a = Weights { sharpness: 3, exposure: 1, contrast: 4, color: 1, composition: 5, subject: 9 };
    let b = Weights {
        sharpness: 21,
        exposure: 7,
        contrast: 28,
        color: 7,
        composition: 35,
        subject: 63,
    };
    assert_eq!(overall_score(&m, &a), overall_score(&m, &b));
}

#[test]
fn overall_stays_between_the_factors_and_rises_with_them() {
    let m = some_metrics();
    let s = overall_score(&m, &Weights::default());
    assert!(s >= 20 * ONE && s <= 80 * ONE);
    let mut better = m;
    better.color = 90 * ONE;
    assert!(overall_score(&better, &Weights::default()) > s);
}

#[test]
fn absent_factors_have_no_part_in_overall() {
    let mut heavy = Weights::default();
    heavy.subject = 900_000;
    assert_eq!(
        overall_score(&some_metrics(), &heavy),
        overall_score(&some_metrics(), &Weights::default())
    );
}

#[test]
fn sharpness_saturates() {
    assert_eq!(normalize_sharpness(0), 0);
    assert_eq!(normalize_sharpness(100 * ONE), 50 * ONE);
    assert_eq!(normalize_sharpness(300 * ONE), 75 * ONE);
    assert_eq!(normalize_sharpness(900 * ONE), 90 * ONE);
    assert!(normalize_sharpness(u64::MAX) < HUNDRED);
}

#[test]
fn exposure_of_plain_frames() {
    assert_eq!(exposure_score(&gray_from_fn(10, 10, |_, _| 128)), HUNDRED);
    // Half as bright as mid-gray.
    assert_eq!(exposure_score(&gray_from_fn(10, 10, |_, _| 64)), 50 * ONE);
    // Black is as far from mid-gray as can be, and all of it is clipped.
    assert_eq!(exposure_score(&gray_from_fn(10, 10, |_, _| 0)), 0);
    assert_eq!(exposure_score(&gray_from_fn(10, 10, |_, _| 255)), 0);
    assert_eq!(exposure_score(&gray_from_fn(0, 0, |_, _| 0)), 0);
}

#[test]
fn clipping_costs_exposure() {
    // A tenth of the frame is crushed (3), the rest brings the mean to 127.2:
    // 100 * (1 - 0.8 / 128) - 10.
    let img = gray_from_fn(10, 10, |_, y| if y == 0 { 3 } else { 141 });
    assert_eq!(exposure_score(&img), 89_375_000_000);
    // 4 and 251 are not clipped: the mean is 127.5.
    let img = gray_from_fn(10, 10, |_, y| if y % 2 == 0 { 4 } else { 251 });
    assert_eq!(exposure_score(&img), 99_609_375_000);
}

#[test]
fn contrast_is_the_standard_deviation() {
    assert_eq!(contrast_score(&gray_from_fn(10, 10, |_, _| 77)), 0);
    // A deviation of 32 is half of 64.
    assert_eq!(contrast_score(&gray_from_fn(10, 10, |x, _| if x < 5 { 68 } else { 132 })), 50 * ONE);
    assert_eq!(contrast_score(&gray_from_fn(10, 10, |x, _| if x < 5 { 0 } else { 255 })), HUNDRED);
    assert_eq!(contrast_score(&gray_from_fn(0, 5, |_, _| 0)), 0);
}

#[test]
fn color_of_plain_frames() {
    assert_eq!(color_score(&rgb_of(8, 8, [90, 90, 90])), 0);
    // No spread; the mean is (100, 50): 0.3 * sqrt(100^2 + 50^2) of 110.
    let vivid = color_score(&rgb_of(8, 8, [100, 0, 0]));
    assert_eq!(vivid, 30_491_836_056);
    assert_eq!(color_score(&rgb_of(0, 0, [0, 0, 0])), 0);
    let mut data = Vec::new();
    for i in 0..64 {
        data.extend_from_slice(if i % 2 == 0 { &[255u8, 0, 0] } else { &[0, 0, 255] });
    }
    assert_eq!(color_score(&RgbImage::from_raw(8, 8, data).unwrap()), HUNDRED);
}

#[test]
fn composition_rewards_detail_near_the_thirds() {
    // A thin line of detail on the first third.
    let aligned = gray_from_fn(90, 90, |x, _| if x == 30 { 255 } else { 100 });
    assert_eq!(composition_score(&aligned), HUNDRED);
    // In the middle of the frame 18 of its 90 rows lie near a horizontal line,
    // which is less than the 36 percent of the frame that the bands cover:
    // 50 * 0.2 / 0.36.
    let centered = gray_from_fn(90, 90, |x, _| if x == 45 { 255 } else { 100 });
    assert_eq!(composition_score(&centered), 27_777_777_777);
    // A dot dead in the center is away from all lines, and so is one in a corner.
    let dot = gray_from_fn(90, 90, |x, y| if x == 45 && y == 45 { 255 } else { 100 });
    assert_eq!(composition_score(&dot), 0);
    let corner = gray_from_fn(90, 90, |x, y| if x < 3 && y < 3 { 255 } else { 100 });
    assert_eq!(composition_score(&corner), 0);
    let square = gray_from_fn(100, 100, |x, y| {
        if (48..52).contains(&x) && (48..52).contains(&y) { 255 } else { 0 }
    });
    assert_eq!(composition_score(&square), 0);
    // Nothing to see, or too little to tell.
    assert_eq!(composition_score(&gray_from_fn(90, 90, |_, _| 100)), 50 * ONE);
    assert_eq!(composition_score(&gray_from_fn(3, 90, |x, _| 100 * x as u8)), 50 * ONE);
}

#[test]
fn evenly_spread_detail_has_no_alignment() {
    for (width, height) in [(300, 300), (301, 457), (640, 480), (309, 1000)] {
        let board = gray_from_fn(width, height, |x, y| if (x + y) % 2 == 0 { 255 } else { 0 });
        let score = composition_score(&board);
        assert!((48 * ONE..=52 * ONE).contains(&score), "{score}");
    }
}

#[test]
fn subjects_score_by_size_and_centering() {
    let whole = FaceBox { x1: 0, y1: 0, x2: 100 * SUBPIXELS, y2: 100 * SUBPIXELS, score: 0 };
    assert_eq!(subject_quality_score(&whole, 100, 100), HUNDRED);
    // A point in the middle: no size, full centering.
    let point = FaceBox {
        x1: 50 * SUBPIXELS,
        y1: 50 * SUBPIXELS,
        x2: 50 * SUBPIXELS,
        y2: 50 * SUBPIXELS,
        score: 0,
    };
    assert_eq!(subject_quality_score(&point, 100, 100), 40 * ONE);
    // A point in the corner: nothing.
    let corner = FaceBox { x1: 0, y1: 0, x2: 0, y2: 0, score: 0 };
    assert_eq!(subject_quality_score(&corner, 300, 400), 0);
    // A box of 7.5 percent in the middle of 3:4: half the size score.
    let half = FaceBox {
        x1: 135 * SUBPIXELS,
        y1: 50 * SUBPIXELS,
        x2: 165 * SUBPIXELS,
        y2: 350 * SUBPIXELS,
        score: 0,
    };
    assert_eq!(subject_quality_score(&half, 300, 400), 70 * ONE);
    // Larger is never worse on size.
    let larger = FaceBox { x1: 125 * SUBPIXELS, x2: 175 * SUBPIXELS, ..half };
    assert!(subject_quality_score(&larger, 300, 400) > 70 * ONE);
    assert_eq!(subject_quality_score(&whole, 0, 100), 50 * ONE);
}

#[test]
fn compute_fills_in_every_factor() {
    let rgb = rgb_of(20, 20, [128, 128, 128]);
    let gray = gray_from_fn(20, 20, |_, _| 128);
    let m = compute_gray(&rgb, &gray, 100 * ONE, None);
    assert_eq!(
        m,
        Metrics {
            sharpness: 50 * ONE,
            exposure: HUNDRED,
            contrast: 0,
            color: 0,
            composition: Some(50 * ONE),
            subject: None,
        }
    );
    let face = FaceBox { x1: 0, y1: 0, x2: 20 * SUBPIXELS, y2: 20 * SUBPIXELS, score: 0 };
    let m = compute(&rgb, 300 * ONE, Some(&face));
    assert_eq!(m.sharpness, 75 * ONE);
    assert_eq!(m.subject, Some(HUNDRED));
    assert_eq!(m.color, 0);
    assert_eq!(m.contrast, 0);
}

#[test]
fn luminance_weighs_green_over_red_over_blue() {
    let red = compute(&rgb_of(4, 4, [200, 0, 0]), 0, None).exposure;
    let green = compute(&rgb_of(4, 4, [0, 200, 0]), 0, None).exposure;
    let blue = compute(&rgb_of(4, 4, [0, 0, 200]), 0, None).exposure;
    assert!(green > red && red > blue);
}

#[test]
fn square_roots_round_down() {
    assert_eq!(isqrt(0), 0);
    assert_eq!(isqrt(24), 4);
    assert_eq!(isqrt(25), 5);
    assert_eq!(isqrt(u128::MAX), u64::MAX);
}

#[test]
fn roundings() {
    assert_eq!((floor_div(7, 2), floor_div(-7, 2), floor_div(-8, 2)), (3, -4, -4));
    assert_eq!((divide_nearest_even(5, 2), divide_nearest_even(7, 2)), (2, 4));
    assert_eq!((divide_nearest_even(8, 3), divide_nearest_even(7, 3)), (3, 2));
    for v in [1u64, 16_777_215, 16_777_217, 16_777_219, 123_456_789_123, 1 << 50] {
        assert_eq!(round_to_single(v), v as f32 as u64, "{v}");
    }
    // 416 / 1600 has 24 bits before the point after 25 doublings.
    assert_eq!(single_scale(416, 1600), 1 << 25);
}

#[test]
fn of_two_subjects_of_one_size_the_nearer_scores_no_less() {
    let at = |x: i64, y: i64| FaceBox {
        x1: x * SUBPIXELS,
        y1: y * SUBPIXELS,
        x2: (x + 10) * SUBPIXELS,
        y2: (y + 10) * SUBPIXELS,
        score: 0,
    };
    let scores: Vec<u64> =
        [45, 40, 20, 0].iter().map(|&x| subject_quality_score(&at(x, 45), 100, 100)).collect();
    assert!(scores.windows(2).all(|w| w[0] > w[1]), "{scores:?}");
    assert_eq!(subject_quality_score(&at(45, 40), 100, 100), scores[1]);
}
