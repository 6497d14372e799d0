use std::path::{Path, PathBuf};

use photo2cull::classify::{FaceOutput, RAW_ONE};
use photo2cull::fixed::HUNDRED;
use photo2cull::path::PhotoPath;
use photo2cull::raster::{GrayImage, RgbImage};
use photo2cull::scan::{
    appraise_gray, classify_and_score, disqualified_path_for, enters_folder, needs_animal_model,
    needs_face_model, rescore_photo, scan_photo, select_photos, Found, ModelOutputs, PhotoTable,
    ScanMode, DISQUALIFIED_DIR,
};
use photo2cull::sharpness::{PhotoMode, SharpnessMethod};

fn photo_path(path: &Path) -> PhotoPath {
    PhotoPath {
        components: path
            .components()
            .map(|c| c.as_os_str().as_encoded_bytes().to_vec())
            .collect(),
    }
}

fn path_buf(path: &PhotoPath) -> PathBuf {
    path.components.iter().map(|c| String::from_utf8(c.clone()).unwrap()).collect()
}

fn disqualified(roots: &[PathBuf], photo: &Path) -> Option<PathBuf> {
    let roots: Vec<PhotoPath> = roots.iter().map(|r| photo_path(r)).collect();
    disqualified_path_for(&roots, &photo_path(photo)).map(|p| path_buf(&p))
}

#[test]
fn disqualified_path_keeps_structure_per_chosen_root() {
    let roots = vec![PathBuf::from("/a"), PathBuf::from("/b/trip")];
    assert_eq!(
        disqualified(&roots, Path::new("/a/sub/x.jpg")),
        Some(PathBuf::from("/a").join(DISQUALIFIED_DIR).join("sub/x.jpg"))
    );
    assert_eq!(
        disqualified(&roots, Path::new("/b/trip/y.jpg")),
        Some(PathBuf::from("/b/trip").join(DISQUALIFIED_DIR).join("y.jpg"))
    );
    assert_eq!(disqualified(&roots, Path::new("/c/z.jpg")), None);
}

#[test]
fn nested_roots_use_the_deepest() {
    let roots = vec![PathBuf::from("/a"), PathBuf::from("/a/inner")];
    assert_eq!(
        disqualified(&roots, Path::new("/a/inner/x.jpg")),
        Some(PathBuf::from("/a/inner").join(DISQUALIFIED_DIR).join("x.jpg"))
    );
}

#[test]
fn roots_match_whole_components() {
    let roots = vec![PathBuf::from("/a/in")];
    assert_eq!(disqualified(&roots, Path::new("/a/inner/x.jpg")), None);
}

#[test]
fn walks_skip_the_folder_for_rejects() {
    assert!(!enters_folder(DISQUALIFIED_DIR.as_bytes()));
    assert!(enters_folder(b"Disqualified"));
    assert!(enters_folder(b"trip"));
}

#[test]
fn a_photo_found_twice_is_taken_once() {
    let found = |s: &str, is_file: bool| Found { path: photo_path(Path::new(s)), is_file };
    let photos = select_photos(vec![
        found("/a", false),
        found("/a/y.jpg", true),
        found("/a/notes.txt", true),
        found("/a/folder.jpg", false),
        found("/a/x.CR2", true),
        found("/a/y.jpg", true),
    ]);
    let names: Vec<PathBuf> = photos.iter().map(path_buf).collect();
    assert_eq!(names, vec![PathBuf::from("/a/y.jpg"), PathBuf::from("/a/x.CR2")]);
}

#[test]
fn one_number_stands_for_one_path() {
    let mut table = PhotoTable::new();
    let a = table.number(&photo_path(Path::new("/p/a.jpg")));
    let b = table.number(&photo_path(Path::new("/p/b.jpg")));
    let again = table.number(&photo_path(Path::new("/p/a.jpg")));
    assert_eq!((a, b, again), (0, 1, 0));
    // The same name in another folder is another photo.
    let other = photo_path(Path::new("/q/a.jpg"));
    assert_eq!(table.find(&other), None);
    assert_eq!(table.number(&other), 2);
    assert_eq!(table.find(&other), Some(2));
    assert_eq!(table.paths.len(), 3);
}

#[test]
fn models_run_only_where_they_decide() {
    assert!(needs_face_model(ScanMode::Auto));
    assert!(needs_face_model(ScanMode::Fixed(PhotoMode::Portrait)));
    assert!(!needs_face_model(ScanMode::Fixed(PhotoMode::Animal)));
    assert!(!needs_face_model(ScanMode::Fixed(PhotoMode::Landscape)));
    let face = photo2cull::classify::FaceBox { x1: 0, y1: 0, x2: 1, y2: 1, score: 0 };
    assert!(needs_animal_model(ScanMode::Auto, None));
    assert!(!needs_animal_model(ScanMode::Auto, Some(&face)));
    assert!(needs_animal_model(ScanMode::Fixed(PhotoMode::Animal), None));
    assert!(!needs_animal_model(ScanMode::Fixed(PhotoMode::Portrait), None));
    assert!(!needs_animal_model(ScanMode::Fixed(PhotoMode::Object), None));
}

fn checkered() -> RgbImage {
    let mut data = Vec::new();
    for y in 0..64u32 {
        for x in 0..96u32 {
            let v = if (x + y) % 2 == 0 { 40 } else { 210 };
            data.extend_from_slice(&[v, v, v]);
        }
    }
    RgbImage::from_raw(96, 64, data).unwrap()
}

fn nothing() -> ModelOutputs {
    ModelOutputs { face: None, animal: None }
}

fn a_face() -> FaceOutput {
    let mut boxes = Vec::new();
    for _ in 0..4420 {
        boxes.extend_from_slice(&[0, 0, RAW_ONE, RAW_ONE]);
    }
    let mut confidences = vec![0; 8840];
    confidences[2 * 4419 + 1] = RAW_ONE;
    FaceOutput { confidences, boxes }
}

fn an_animal() -> Vec<i64> {
    let mut out = vec![0; 3549 * 85];
    let row = 3464 * 85;
    out[row + 2] = 4 * RAW_ONE;
    out[row + 3] = 4 * RAW_ONE;
    out[row + 4] = RAW_ONE;
    out[row + 19] = RAW_ONE;
    out
}

#[test]
fn automatic_types() {
    let img = checkered();
    let method = SharpnessMethod::FixedRegion;
    let (mode, _, metrics) = classify_and_score(&img, ScanMode::Auto, method, &nothing());
    assert_eq!(mode, PhotoMode::Landscape);
    assert_eq!(metrics.subject, None);
    let face = ModelOutputs { face: Some(a_face()), animal: None };
    let (mode, _, metrics) = classify_and_score(&img, ScanMode::Auto, method, &face);
    assert_eq!(mode, PhotoMode::Portrait);
    assert!(metrics.subject.is_some());
    let animal = ModelOutputs { face: None, animal: Some(an_animal()) };
    let (mode, _, metrics) = classify_and_score(&img, ScanMode::Auto, method, &animal);
    assert_eq!(mode, PhotoMode::Animal);
    assert!(metrics.subject.is_some());
    let both = ModelOutputs { face: Some(a_face()), animal: Some(an_animal()) };
    assert_eq!(classify_and_score(&img, ScanMode::Auto, method, &both).0, PhotoMode::Portrait);
}

#[test]
fn forced_types() {
    let img = checkered();
    let both = ModelOutputs { face: Some(a_face()), animal: Some(an_animal()) };
    let method = SharpnessMethod::SharpestRegion;
    for mode in PhotoMode::ALL {
        let (got, _, metrics) = classify_and_score(&img, ScanMode::Fixed(mode), method, &both);
        assert_eq!(got, mode);
        let with_subject = mode == PhotoMode::Portrait || mode == PhotoMode::Animal;
        assert_eq!(metrics.subject.is_some(), with_subject);
    }
    let (_, _, metrics) =
        classify_and_score(&img, ScanMode::Fixed(PhotoMode::Portrait), method, &nothing());
    assert_eq!(metrics.subject, None);
}

#[test]
fn an_appraisal_goes_by_the_luminances() {
    let img = checkered();
    let flat = GrayImage::from_raw(96, 64, vec![128; 96 * 64]).unwrap();
    let (mode, score, metrics) =
        appraise_gray(&img, &flat, ScanMode::Auto, SharpnessMethod::FixedRegion, &nothing());
    assert_eq!((mode, score), (PhotoMode::Landscape, 0));
    assert_eq!(metrics.exposure, HUNDRED);
    assert_eq!(metrics.sharpness, 0);
}

#[test]
fn a_scanned_photo_has_everything() {
    let img = checkered();
    let r = scan_photo(
        7,
        photo_path(Path::new("/p/a.jpg")),
        &img,
        ScanMode::Auto,
        SharpnessMethod::FixedRegion,
        &nothing(),
    );
    assert_eq!(r.id, 7);
    assert_eq!(path_buf(&r.path), PathBuf::from("/p/a.jpg"));
    let (mode, score, metrics) =
        classify_and_score(&img, ScanMode::Auto, SharpnessMethod::FixedRegion, &nothing());
    assert_eq!((r.mode, r.score, r.metrics), (mode, score, metrics));
    assert_eq!(r.phash, photo2cull::dedupe::dhash(&img));
    // It fits a thumbnail as it is.
    assert_eq!((r.thumb_w, r.thumb_h), (96, 64));
    assert_eq!(r.thumb_rgb, img.data);
}

#[test]
fn thumbnails_are_downsized() {
    let img = RgbImage::from_raw(660, 440, vec![90; 3 * 660 * 440]).unwrap();
    let r = scan_photo(
        7,
        photo_path(Path::new("/p/a.jpg")),
        &img,
        ScanMode::Fixed(PhotoMode::Landscape),
        SharpnessMethod::FixedRegion,
        &nothing(),
    );
    assert_eq!((r.thumb_w, r.thumb_h), (220, 147));
    assert_eq!(r.thumb_rgb, vec![90; 3 * 220 * 147]);
}

#[test]
fn rescoring_forces_the_type() {
    let img = checkered();
    let method = SharpnessMethod::FixedRegion;
    let r = rescore_photo(3, &img, PhotoMode::Object, method, &nothing());
    let (_, score, metrics) =
        classify_and_score(&img, ScanMode::Fixed(PhotoMode::Object), method, &nothing());
    assert_eq!((r.id, r.score, r.metrics), (3, score, metrics));
}

#[test]
fn moved_photos_are_below_a_folder_that_walks_skip() {
    let roots = vec![PathBuf::from("/a")];
    let moved = disqualified(&roots, Path::new("/a/sub/x.jpg")).unwrap();
    let below: Vec<_> = moved.strip_prefix("/a").unwrap().components().collect();
    assert!(!enters_folder(below[0].as_os_str().as_encoded_bytes()));
}

#[test]
fn empty_pictures_are_scored_where_nothing_is_cropped() {
    let (fixed, sharpest) = (SharpnessMethod::FixedRegion, SharpnessMethod::SharpestRegion);
    for (width, height) in [(0, 0), (0, 5), (7, 0), (0, 5000)] {
        let img = RgbImage::from_raw(width, height, vec![]).unwrap();
        let cases = [
            (ScanMode::Auto, fixed, PhotoMode::Landscape),
            (ScanMode::Auto, sharpest, PhotoMode::Landscape),
            (ScanMode::Fixed(PhotoMode::Landscape), fixed, PhotoMode::Landscape),
            (ScanMode::Fixed(PhotoMode::Object), sharpest, PhotoMode::Object),
            (ScanMode::Fixed(PhotoMode::Portrait), sharpest, PhotoMode::Portrait),
        ];
        for (scan_mode, method, expected) in cases {
            let (mode, score, metrics) = classify_and_score(&img, scan_mode, method, &nothing());
            assert_eq!((mode, score, metrics.subject), (expected, 0, None));
            let path = photo_path(Path::new("/p/a.jpg"));
            let r = scan_photo(1, path, &img, scan_mode, method, &nothing());
            assert_eq!((r.mode, r.score), (expected, 0));
            let fits = height <= 220;
            assert_eq!((r.thumb_w, r.thumb_h), if fits { (width, height) } else { (1, 220) });
        }
    }
}
