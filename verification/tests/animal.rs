use photo2cull::animal::{
    animal_input, detect_animals, detect_main_animal, grid, letterbox, Cell, CONF_THRESHOLD,
    ROW_LEN,
};
use photo2cull::classify::{FaceBox, RAW_ONE, SUBPIXELS};
use photo2cull::raster::RgbImage;

fn rgb_from_fn(width: u32, height: u32, f: impl Fn(u32, u32) -> [u8; 3]) -> RgbImage {
    let mut data = Vec::new();
    for y in 0..height {
        for x in 0..width {
            data.extend_from_slice(&f(x, y));
        }
    }
    RgbImage::from_raw(width, height, data).unwrap()
}

fn blank(width: u32, height: u32) -> RgbImage {
    rgb_from_fn(width, height, |_, _| [0, 0, 0])
}

/// The decode grid must line up 1:1 with the model's output rows.
#[test]
fn grid_count_matches_model_output() {
    assert_eq!(grid().len(), 3549);
}

#[test]
fn grids_follow_each_other() {
    let cells = grid();
    assert_eq!(cells[0], Cell { x: 0, y: 0, stride: 8 });
    assert_eq!(cells[51], Cell { x: 51, y: 0, stride: 8 });
    assert_eq!(cells[52], Cell { x: 0, y: 1, stride: 8 });
    assert_eq!(cells[2704], Cell { x: 0, y: 0, stride: 16 });
    assert_eq!(cells[3548], Cell { x: 12, y: 12, stride: 32 });
}

#[test]
fn letterbox_pads_below_and_to_the_right() {
    let img = rgb_from_fn(2, 1, |x, _| if x == 0 { [1, 2, 3] } else { [4, 5, 6] });
    let input = letterbox(&img);
    assert_eq!(input.len(), 3 * 416 * 416);
    // Blue first.
    assert_eq!(&input[..3], &[3, 6, 114]);
    assert_eq!(input[416], 114);
    assert_eq!(&input[416 * 416..416 * 416 + 3], &[2, 5, 114]);
    assert_eq!(&input[2 * 416 * 416..2 * 416 * 416 + 3], &[1, 4, 114]);
}

#[test]
fn pictures_are_fitted_to_the_input() {
    // Twice as wide as high: the lower half is padding.
    let input = animal_input(&rgb_from_fn(200, 100, |_, _| [10, 20, 30])).unwrap();
    assert_eq!(input[0], 30);
    assert_eq!(input[207 * 416 + 415], 30);
    assert_eq!(input[208 * 416], 114);
    // Sides are rounded as single precision rounds them: 225 of 1600 makes
    // 58, not 59.
    let wide = animal_input(&rgb_from_fn(1600, 225, |_, _| [10, 20, 30])).unwrap();
    assert_eq!((wide[57 * 416], wide[58 * 416]), (30, 114));
    let wide = animal_input(&rgb_from_fn(1600, 275, |_, _| [10, 20, 30])).unwrap();
    assert_eq!((wide[71 * 416], wide[72 * 416]), (30, 114));
    // A sliver keeps one pixel.
    let sliver = animal_input(&rgb_from_fn(2000, 1, |_, _| [10, 20, 30])).unwrap();
    assert_eq!(sliver[415], 30);
    assert_eq!(sliver[416], 114);
    assert!(animal_input(&blank(0, 3)).is_none());
}

fn output_with(row: usize, values: &[(usize, i64)]) -> Vec<i64> {
    let mut out = vec![0; 3549 * ROW_LEN];
    for &(k, v) in values {
        out[row * ROW_LEN + k] = v;
    }
    out
}

#[test]
fn a_row_is_decoded_and_scaled() {
    // Cell (6, 6) of the coarsest grid, centered in it, four cells wide and
    // three high; objectness 0.8, cat 0.9.
    let row = 3380 + 6 * 13 + 6;
    let out = output_with(
        row,
        &[
            (0, RAW_ONE / 2),
            (1, RAW_ONE / 2),
            (2, 4 * RAW_ONE),
            (3, 3 * RAW_ONE),
            (4, RAW_ONE / 10 * 8),
            (5 + 15, RAW_ONE / 10 * 9),
        ],
    );
    let animals = detect_animals(&blank(832, 416), Some(&out));
    assert_eq!(animals.len(), 1);
    let expected = FaceBox {
        x1: 288 * SUBPIXELS,
        y1: 320 * SUBPIXELS,
        x2: 544 * SUBPIXELS,
        y2: 416 * SUBPIXELS,
        score: animals[0].score,
    };
    assert_eq!(animals[0], expected);
    // 0.72, up to the rounding of tenths.
    assert_eq!(animals[0].score / 42_949_673, 71);
}

#[test]
fn only_animal_classes_count() {
    let person = output_with(3464, &[(2, RAW_ONE), (3, RAW_ONE), (4, RAW_ONE), (5, RAW_ONE)]);
    assert!(detect_animals(&blank(416, 416), Some(&person)).is_empty());
    for class in 14..24 {
        let out = output_with(3464, &[(2, RAW_ONE), (3, RAW_ONE), (4, RAW_ONE), (5 + class, RAW_ONE)]);
        assert_eq!(detect_animals(&blank(416, 416), Some(&out)).len(), 1);
    }
    let teddy = output_with(3464, &[(2, RAW_ONE), (3, RAW_ONE), (4, RAW_ONE), (5 + 24, RAW_ONE)]);
    assert!(detect_animals(&blank(416, 416), Some(&teddy)).is_empty());
}

#[test]
fn the_threshold_is_inclusive() {
    let t = CONF_THRESHOLD as i64;
    let at = output_with(3464, &[(2, RAW_ONE), (3, RAW_ONE), (4, RAW_ONE), (19, t)]);
    assert_eq!(detect_animals(&blank(416, 416), Some(&at)).len(), 1);
    let below = output_with(3464, &[(2, RAW_ONE), (3, RAW_ONE), (4, RAW_ONE), (19, t - 1)]);
    assert!(detect_animals(&blank(416, 416), Some(&below)).is_empty());
    let negative = output_with(3464, &[(2, RAW_ONE), (3, RAW_ONE), (4, -RAW_ONE), (19, t)]);
    assert!(detect_animals(&blank(416, 416), Some(&negative)).is_empty());
}

#[test]
fn small_animals_are_ignored_and_failures_are_no_animals() {
    // A cell of 16 pixels is 0.0015 of the input.
    let small = output_with(2704 + 13 * 26 + 13, &[(2, RAW_ONE), (3, RAW_ONE), (4, RAW_ONE), (19, RAW_ONE)]);
    assert!(detect_animals(&blank(416, 416), Some(&small)).is_empty());
    assert!(detect_animals(&blank(416, 416), None).is_empty());
    assert!(detect_main_animal(&blank(416, 416), None).is_none());
}

#[test]
fn the_main_animal_is_the_largest() {
    let mut out = output_with(3380, &[(0, RAW_ONE / 2), (1, RAW_ONE / 2), (2, RAW_ONE), (3, RAW_ONE), (4, RAW_ONE), (19, RAW_ONE)]);
    let far = 3548 * ROW_LEN;
    out[far] = 0;
    out[far + 2] = 2 * RAW_ONE;
    out[far + 3] = 2 * RAW_ONE;
    out[far + 4] = RAW_ONE / 2;
    out[far + 20] = RAW_ONE;
    assert_eq!(detect_animals(&blank(416, 416), Some(&out)).len(), 2);
    let main = detect_main_animal(&blank(416, 416), Some(&out)).unwrap();
    assert_eq!(main.score, RAW_ONE as u64 / 2);
}

#[test]
fn sides_are_fitted_as_in_single_precision() {
    for (w, h) in [(1600, 1067), (1600, 425), (1599, 700), (37, 1600), (3, 2), (416, 416)] {
        let scale = (416.0f32 / w as f32).min(416.0 / h as f32);
        let new_w = ((w as f32 * scale).round() as usize).clamp(1, 416);
        let new_h = ((h as f32 * scale).round() as usize).clamp(1, 416);
        let input = animal_input(&rgb_from_fn(w, h, |_, _| [10, 20, 30])).unwrap();
        assert_eq!(input[..416].iter().filter(|&&b| b == 30).count(), new_w, "{w} x {h}");
        assert_eq!((0..416).filter(|y| input[y * 416] == 30).count(), new_h, "{w} x {h}");
    }
}
