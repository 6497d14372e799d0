use photo2cull::classify::{FaceBox, SUBPIXELS};
use photo2cull::fixed::ONE;
use photo2cull::raster::{GrayImage, RgbImage};
use photo2cull::sharpness::{
    center_crop, face_crop, guess_gray, guess_landscape_or_object, mean_of_top, score, score_gray,
    sharpest_region_score, variance_of_laplacian, PhotoMode, SharpnessMethod,
};
use photo2cull::stats::variance;

fn rgb_from_fn(width: u32, height: u32, f: impl Fn(u32, u32) -> [u8; 3]) -> RgbImage {
    let mut data = Vec::new();
    for y in 0..height {
        for x in 0..width {
            data.extend_from_slice(&f(x, y));
        }
    }
    RgbImage::from_raw(width, height, data).unwrap()
}

fn gray_from_fn(width: u32, height: u32, f: impl Fn(u32, u32) -> u8) -> GrayImage {
    let mut data = Vec::new();
    for y in 0..height {
        for x in 0..width {
            data.push(f(x, y));
        }
    }
    GrayImage::from_raw(width, height, data).unwrap()
}

/// Flat mid-gray frame with a small high-contrast checkerboard patch in the
/// top-left corner: a stand-in for a tiny in-focus subject off-centre against
/// a smooth (blurred) background.
fn frame_with_corner_detail() -> RgbImage {
    rgb_from_fn(640, 480, |x, y| {
        if x < 80 && y < 80 && (x / 4 + y / 4) % 2 == 0 {
            [230, 230, 230]
        } else {
            [100, 100, 100]
        }
    })
}

#[test]
fn sharpest_region_finds_off_centre_detail_the_center_crop_misses() {
    let img = frame_with_corner_detail();
    let fixed = score(&img, PhotoMode::Object, None, SharpnessMethod::FixedRegion);
    let sharpest = score(&img, PhotoMode::Object, None, SharpnessMethod::SharpestRegion);
    assert!(fixed < ONE, "centre crop is flat, got {fixed}");
    assert!(sharpest > 100 * ONE, "corner detail should register, got {sharpest}");
}

#[test]
fn sharpest_region_stays_low_for_a_flat_frame() {
    let img = rgb_from_fn(640, 480, |_, _| [120, 120, 120]);
    let s = score(&img, PhotoMode::Landscape, None, SharpnessMethod::SharpestRegion);
    assert!(s < ONE, "got {s}");
}

#[test]
fn variance_of_a_few_values() {
    assert_eq!(variance(&vec![]), 0);
    assert_eq!(variance(&vec![7, 7, 7]), 0);
    // Mean 2.5, squared deviations 2.25, 0.25, 0.25, 2.25.
    assert_eq!(variance(&vec![1, 2, 3, 4]), 1_250_000_000);
    // Mean 1/3: two ninths, rounded down.
    assert_eq!(variance(&vec![0, 0, 1]), 222_222_222);
    assert_eq!(variance(&vec![-5, 5]), 25 * ONE);
}

#[test]
fn laplacian_of_a_single_bright_pixel() {
    // The Laplacian is -40 at the pixel, 10 at its four neighbours and 0 at
    // the other twenty: the sum is zero, the squares make 2000.
    let img = gray_from_fn(5, 5, |x, y| if x == 2 && y == 2 { 10 } else { 0 });
    assert_eq!(variance_of_laplacian(&img), 80 * ONE);
}

#[test]
fn laplacian_repeats_the_edge() {
    // A vertical edge at the border of two columns: beyond the picture the
    // outer columns continue, so only the step counts.
    let img = gray_from_fn(2, 1, |x, _| if x == 0 { 0 } else { 8 });
    // 8 and -8.
    assert_eq!(variance_of_laplacian(&img), 64 * ONE);
}

#[test]
fn center_crop_keeps_the_middle() {
    let img = gray_from_fn(10, 6, |x, y| (10 * y + x) as u8);
    let crop = center_crop(&img, 50);
    assert_eq!((crop.width, crop.height), (5, 3));
    assert_eq!(crop.data, vec![12, 13, 14, 15, 16, 22, 23, 24, 25, 26, 32, 33, 34, 35, 36]);
    let whole = center_crop(&img, 100);
    assert_eq!((whole.width, whole.height), (10, 6));
    assert_eq!(whole.data, img.data);
    let dot = center_crop(&gray_from_fn(1, 1, |_, _| 9), 35);
    assert_eq!((dot.width, dot.height, dot.data), (1, 1, vec![9]));
}

#[test]
fn face_crop_pads_the_box() {
    // A box of ten pixels is widened to seventeen about its middle.
    let img = gray_from_fn(100, 100, |x, y| (x + y) as u8);
    let face = FaceBox {
        x1: 40 * SUBPIXELS,
        y1: 50 * SUBPIXELS,
        x2: 50 * SUBPIXELS,
        y2: 60 * SUBPIXELS,
        score: 0,
    };
    let crop = face_crop(&img, &face);
    assert_eq!((crop.width, crop.height), (17, 17));
    // From 36.5 the crop starts in column 36, from 46.5 in row 46.
    assert_eq!(crop.data[0], 82);
}

#[test]
fn face_crop_stays_in_the_picture() {
    let img = gray_from_fn(20, 20, |x, y| (x * y % 251) as u8);
    let face = FaceBox {
        x1: -100 * SUBPIXELS,
        y1: 10 * SUBPIXELS,
        x2: 500 * SUBPIXELS,
        y2: 500 * SUBPIXELS,
        score: 0,
    };
    let crop = face_crop(&img, &face);
    assert!(crop.width >= 1 && crop.width <= 20);
    assert!(crop.height >= 1 && crop.height <= 20);
}

#[test]
fn a_subject_is_scored_on_its_box() {
    // Detail everywhere but in the box: with the subject the score is zero.
    let img = gray_from_fn(100, 100, |x, y| {
        if x >= 60 && y >= 60 {
            128
        } else if (x + y) % 2 == 0 {
            0
        } else {
            255
        }
    });
    let calm = FaceBox {
        x1: 75 * SUBPIXELS,
        y1: 75 * SUBPIXELS,
        x2: 85 * SUBPIXELS,
        y2: 85 * SUBPIXELS,
        score: 0,
    };
    let method = SharpnessMethod::FixedRegion;
    assert_eq!(score_gray(&img, PhotoMode::Portrait, Some(&calm), method), 0);
    assert!(score_gray(&img, PhotoMode::Portrait, None, method) > 0);
}

#[test]
fn the_sharpest_tiles_are_averaged() {
    // Of up to twenty scores only the highest counts, of forty the two highest.
    assert_eq!(mean_of_top(&vec![1, 9, 4]), 9);
    let forty: Vec<u64> = (0..40).collect();
    assert_eq!(mean_of_top(&forty), 38);
}

#[test]
fn small_pictures_are_one_tile() {
    let img = gray_from_fn(5, 5, |x, y| if x == 2 && y == 2 { 10 } else { 0 });
    assert_eq!(sharpest_region_score(&img), variance_of_laplacian(&img));
}

#[test]
fn a_sharp_center_is_an_object() {
    let object = gray_from_fn(200, 200, |x, y| {
        if (50..150).contains(&x) && (50..150).contains(&y) && (x / 2 + y / 2) % 2 == 0 {
            200
        } else {
            60
        }
    });
    assert_eq!(guess_gray(&object), PhotoMode::Object);
    let landscape = gray_from_fn(200, 200, |x, y| if (x / 2 + y / 2) % 2 == 0 { 200 } else { 60 });
    assert_eq!(guess_gray(&landscape), PhotoMode::Landscape);
    let flat = gray_from_fn(200, 200, |_, _| 60);
    assert_eq!(guess_gray(&flat), PhotoMode::Landscape);
}

#[test]
fn colors_are_guessed_by_their_luminance() {
    let object = rgb_from_fn(200, 200, |x, y| {
        if (50..150).contains(&x) && (50..150).contains(&y) && (x / 2 + y / 2) % 2 == 0 {
            [250, 200, 0]
        } else {
            [0, 60, 0]
        }
    });
    assert_eq!(guess_landscape_or_object(&object), PhotoMode::Object);
}

#[test]
fn labels() {
    let labels: Vec<&str> = PhotoMode::ALL.iter().map(|m| m.label()).collect();
    assert_eq!(labels, vec!["Landscape", "Portrait", "Object", "Animal"]);
    let methods: Vec<&str> = SharpnessMethod::ALL.iter().map(|m| m.label()).collect();
    assert_eq!(methods, vec!["Fixed region", "Sharpest region"]);
    for m in SharpnessMethod::ALL {
        assert!(!m.description().is_empty());
    }
    let regions: Vec<u32> = PhotoMode::ALL.iter().map(|m| m.region_fraction()).collect();
    assert_eq!(regions, vec![100, 45, 60, 60]);
}
