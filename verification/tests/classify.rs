use photo2cull::classify::{
    area, channels_first, detect_faces, detect_main_face, face_input, generate_priors, FaceBox,
    FaceOutput, Prior, CONF_THRESHOLD, MAX_RAW, RAW_ONE, SUBPIXELS,
};
use photo2cull::raster::RgbImage;

fn rgb_from_fn(width: u32, height: u32, f: impl Fn(u32, u32) -> [u8; 3]) -> RgbImage {
    let mut data = Vec::new();
    for y in 0..height {
        for x in 0..width {
            data.extend_from_slice(&f(x, y));
        }
    }
    RgbImage::from_raw(width, height, data).unwrap()
}

fn blank(width: u32, height: u32) -> RgbImage {
    rgb_from_fn(width, height, |_, _| [0, 0, 0])
}

/// An output without faces: all confidences zero, all boxes as their priors.
fn quiet_output() -> FaceOutput {
    let mut boxes = Vec::new();
    for _ in 0..4420 {
        boxes.extend_from_slice(&[0, 0, RAW_ONE, RAW_ONE]);
    }
    FaceOutput { confidences: vec![0; 8840], boxes }
}

/// Guards the prior-box layout against silent drift: it must line up 1:1 with
/// the model's actual output row count, or box decoding silently misaligns
/// priors with the wrong regression deltas.
#[test]
fn prior_count_matches_model_output() {
    assert_eq!(generate_priors().len(), 4420);
}

#[test]
fn priors_stand_in_the_middle_of_their_cells() {
    let priors = generate_priors();
    assert_eq!(priors[0], Prior { cx: 4, cy: 4, w: 10, h: 10 });
    assert_eq!(priors[1], Prior { cx: 4, cy: 4, w: 16, h: 16 });
    assert_eq!(priors[3], Prior { cx: 12, cy: 4, w: 10, h: 10 });
    assert_eq!(priors[120], Prior { cx: 4, cy: 12, w: 10, h: 10 });
    assert_eq!(priors[3600], Prior { cx: 8, cy: 8, w: 32, h: 32 });
    assert_eq!(priors[4200], Prior { cx: 16, cy: 15, w: 64, h: 64 });
    // The largest box is cut to the height of the input.
    assert_eq!(priors[4419], Prior { cx: 288, cy: 210, w: 256, h: 240 });
}

#[test]
fn the_model_is_shown_planes() {
    let img = rgb_from_fn(2, 1, |x, _| if x == 0 { [1, 2, 3] } else { [4, 5, 6] });
    assert_eq!(channels_first(&img), vec![1, 4, 2, 5, 3, 6]);
}

#[test]
fn the_model_is_shown_a_picture_of_its_size() {
    let img = rgb_from_fn(640, 480, |_, _| [10, 20, 30]);
    let input = face_input(&img).unwrap();
    assert_eq!(input.len(), 3 * 320 * 240);
    assert!(input[..76800].iter().all(|&b| b == 10));
    assert!(input[76800..153600].iter().all(|&b| b == 20));
    assert!(input[153600..].iter().all(|&b| b == 30));
    assert!(face_input(&blank(0, 5)).is_none());
}

#[test]
fn no_output_means_no_faces() {
    assert!(detect_faces(&blank(100, 100), None).is_empty());
    assert!(detect_faces(&blank(100, 100), Some(&quiet_output())).is_empty());
    assert!(detect_main_face(&blank(100, 100), None).is_none());
    let mut output = quiet_output();
    output.confidences[8839] = RAW_ONE;
    assert!(detect_faces(&blank(0, 0), Some(&output)).is_empty());
}

#[test]
fn a_confident_row_is_decoded_and_scaled() {
    let mut output = quiet_output();
    // Row 4200: prior (16, 15) of 64 by 64; shifted right by ten units (64
    // pixels) and doubled in width.
    output.confidences[2 * 4200 + 1] = 4_000_000_000;
    output.boxes[4 * 4200] = 10 * RAW_ONE;
    output.boxes[4 * 4200 + 1] = 10 * RAW_ONE;
    output.boxes[4 * 4200 + 2] = 2 * RAW_ONE;
    let faces = detect_faces(&blank(640, 480), Some(&output));
    assert_eq!(
        faces,
        vec![FaceBox {
            x1: 32 * SUBPIXELS,
            y1: 94 * SUBPIXELS,
            x2: 288 * SUBPIXELS,
            y2: 222 * SUBPIXELS,
            score: 4_000_000_000,
        }]
    );
}

#[test]
fn the_threshold_is_exclusive() {
    let mut output = quiet_output();
    output.confidences[2 * 4419 + 1] = CONF_THRESHOLD;
    assert!(detect_faces(&blank(64, 64), Some(&output)).is_empty());
    output.confidences[2 * 4419 + 1] = CONF_THRESHOLD + 1;
    assert_eq!(detect_faces(&blank(64, 64), Some(&output)).len(), 1);
}

#[test]
fn boxes_are_cut_at_the_edges() {
    let mut output = quiet_output();
    output.confidences[2 * 4419 + 1] = RAW_ONE;
    output.boxes[4 * 4419 + 2] = MAX_RAW;
    output.boxes[4 * 4419 + 3] = MAX_RAW;
    let faces = detect_faces(&blank(30, 20), Some(&output));
    assert_eq!(
        faces,
        vec![FaceBox {
            x1: 0,
            y1: 0,
            x2: 30 * SUBPIXELS,
            y2: 20 * SUBPIXELS,
            score: RAW_ONE as u64,
        }]
    );
}

#[test]
fn tiny_faces_are_ignored() {
    let mut output = quiet_output();
    // Row 0 is a box of nine by nine pixels (its corner is cut off): 81 of
    // 76800 is more than a thousandth; half as wide it is not.
    output.confidences[1] = RAW_ONE;
    assert_eq!(detect_faces(&blank(320, 240), Some(&output)).len(), 1);
    output.boxes[2] = RAW_ONE / 2;
    assert!(detect_faces(&blank(320, 240), Some(&output)).is_empty());
}

#[test]
fn overlapping_detections_are_suppressed() {
    let mut output = quiet_output();
    // Three boxes of the same cell: 128, 192 and 256 wide, and one far away.
    output.confidences[2 * 4360 + 1] = 3_500_000_000;
    output.confidences[2 * 4361 + 1] = 3_600_000_000;
    output.confidences[2 * 4419 + 1] = 3_200_000_000;
    output.boxes[4 * 4419 + 2] = RAW_ONE / 8;
    output.boxes[4 * 4419 + 3] = RAW_ONE / 8;
    let faces = detect_faces(&blank(320, 240), Some(&output));
    // The most confident first; what overlaps it is gone.
    assert_eq!(faces.len(), 2);
    assert_eq!(faces[0].score, 3_600_000_000);
    assert_eq!(faces[1].score, 3_200_000_000);
}

#[test]
fn boxes_that_barely_touch_are_both_kept() {
    let mut output = quiet_output();
    // Boxes of 32 pixels: two cells (32 pixels) apart they share nothing, one
    // cell apart a third of what they cover together.
    output.confidences[2 * 3700 + 1] = 3_500_000_000;
    output.confidences[2 * 3704 + 1] = 3_400_000_000;
    assert_eq!(detect_faces(&blank(320, 240), Some(&output)).len(), 2);
    output.confidences[2 * 3704 + 1] = 0;
    output.confidences[2 * 3702 + 1] = 3_400_000_000;
    assert_eq!(detect_faces(&blank(320, 240), Some(&output)).len(), 1);
}

#[test]
fn the_main_face_is_the_largest() {
    let mut output = quiet_output();
    output.confidences[2 * 4200 + 1] = 4_100_000_000;
    output.confidences[2 * 4419 + 1] = 3_100_000_000;
    let main = detect_main_face(&blank(320, 240), Some(&output)).unwrap();
    assert_eq!(main.score, 3_100_000_000);
    let faces = detect_faces(&blank(320, 240), Some(&output));
    assert!(faces.iter().all(|f| area(f) <= area(&main)));
}

#[test]
fn short_outputs_are_read_as_far_as_they_go() {
    let output = FaceOutput { confidences: vec![0, RAW_ONE, 0], boxes: vec![0, 0, RAW_ONE, RAW_ONE] };
    assert_eq!(detect_faces(&blank(320, 240), Some(&output)).len(), 1);
}

#[test]
fn a_row_without_shift_or_stretch_is_its_prior() {
    let mut output = quiet_output();
    output.confidences[2 * 3700 + 1] = RAW_ONE;
    let prior = generate_priors()[3700];
    let faces = detect_faces(&blank(320, 240), Some(&output));
    let (cx, cy) = (prior.cx as i64 * SUBPIXELS, prior.cy as i64 * SUBPIXELS);
    let (hw, hh) = (prior.w as i64 * SUBPIXELS / 2, prior.h as i64 * SUBPIXELS / 2);
    assert_eq!((faces[0].x1, faces[0].x2), (cx - hw, cx + hw));
    assert_eq!((faces[0].y1, faces[0].y2), (cy - hh, cy + hh));
}
