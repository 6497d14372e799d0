use photo2cull::path::PhotoPath;
use photo2cull::photo::{
    decode_photo, decode_standard, finish_decoded, finish_standard, is_standard_image,
    is_supported_photo, DecodeError, PhotoError,
};
use photo2cull::raster::{DeepImage, GrayImage, RgbImage, Samples};
use photo2cull::raw::{
    apply_exif_orientation, decode_raw, finish_raw, finish_raw_found, is_raw_file, next_preview,
    Preview, RawError,
};

fn path(s: &str) -> PhotoPath {
    PhotoPath {
        components: std::path::Path::new(s)
            .components()
            .map(|c| c.as_os_str().as_encoded_bytes().to_vec())
            .collect(),
    }
}

/// Three by two, numbered pixels: 0 1 2 / 3 4 5.
fn numbered() -> DeepImage {
    let data = (0..6u8).flat_map(|p| [p, 10 + p, 20 + p]).collect();
    DeepImage { width: 3, height: 2, samples: Samples::Eight(data) }
}

/// The same at sixteen bits.
fn numbered_deep() -> DeepImage {
    let data = (0..6u16).flat_map(|p| [1000 + p, 1010 + p, 1020 + p]).collect();
    DeepImage { width: 3, height: 2, samples: Samples::Sixteen(data) }
}

/// The same with the bits of single-precision numbers.
fn numbered_float() -> DeepImage {
    let data = (0..6u32).flat_map(|p| [70_000 + p, 70_010 + p, 70_020 + p]).collect();
    DeepImage { width: 3, height: 2, samples: Samples::Float(data) }
}

fn numbers(img: &DeepImage) -> (u32, u32, Vec<u16>) {
    let (from, data): (u16, Vec<u16>) = match &img.samples {
        Samples::Eight(data) => (0, data.iter().map(|v| *v as u16).collect()),
        Samples::Sixteen(data) => (1000, data.clone()),
        Samples::Float(data) => (0, data.iter().map(|v| (*v - 70_000) as u16).collect()),
    };
    for p in data.chunks(3) {
        assert_eq!((p[1], p[2]), (p[0] + 10, p[0] + 20));
    }
    (img.width, img.height, data.chunks(3).map(|p| p[0] - from).collect())
}

fn eight(img: RgbImage) -> DeepImage {
    DeepImage { width: img.width, height: img.height, samples: Samples::Eight(img.data) }
}

#[test]
fn extensions_are_matched_case_insensitively() {
    assert!(is_raw_file(&path("/photos/a.CR2")));
    assert!(is_raw_file(&path("b.dng")));
    assert!(!is_raw_file(&path("/photos/a.jpg")));
    assert!(is_standard_image(&path("/photos/a.JPEG")));
    assert!(is_standard_image(&path("x/y.tar.webp")));
    assert!(!is_standard_image(&path("/photos/a.heic")));
    assert!(is_supported_photo(&path("a.nef")));
    assert!(is_supported_photo(&path("a.png")));
    assert!(!is_supported_photo(&path("a.txt")));
}

#[test]
fn names_without_extensions_are_no_photos() {
    assert!(!is_supported_photo(&path("/photos/jpg")));
    assert!(!is_supported_photo(&path("/photos/.jpg")));
    assert!(!is_supported_photo(&path("/photos/a.")));
    assert!(!is_supported_photo(&path("/photos.jpg/a")));
    assert!(!is_supported_photo(&path("..")));
    assert!(!is_supported_photo(&path("")));
    // As std sees it.
    for s in ["/photos/.jpg", "/photos/..jpg", "a.b.jpg", "/photos/a.", ".."] {
        let expected = std::path::Path::new(s).extension().is_some_and(|e| e == "jpg");
        assert_eq!(is_standard_image(&path(s)), expected, "{s}");
    }
}

#[test]
fn previews_are_tried_from_the_largest() {
    assert_eq!(next_preview(None), Some(Preview::Full));
    assert_eq!(next_preview(Some(Preview::Full)), Some(Preview::Reduced));
    assert_eq!(next_preview(Some(Preview::Reduced)), Some(Preview::Thumbnail));
    assert_eq!(next_preview(Some(Preview::Thumbnail)), None);
}

#[test]
fn orientations() {
    let expected = [
        (1, (3, 2, vec![0, 1, 2, 3, 4, 5])),
        (2, (3, 2, vec![2, 1, 0, 5, 4, 3])),
        (3, (3, 2, vec![5, 4, 3, 2, 1, 0])),
        (4, (3, 2, vec![3, 4, 5, 0, 1, 2])),
        (5, (2, 3, vec![0, 3, 1, 4, 2, 5])),
        (6, (2, 3, vec![3, 0, 4, 1, 5, 2])),
        (7, (2, 3, vec![5, 2, 4, 1, 3, 0])),
        (8, (2, 3, vec![2, 5, 1, 4, 0, 3])),
        (9, (3, 2, vec![0, 1, 2, 3, 4, 5])),
    ];
    for (value, pixels) in expected {
        assert_eq!(numbers(&apply_exif_orientation(numbered(), Some(value))), pixels, "{value}");
        let deep = apply_exif_orientation(numbered_deep(), Some(value));
        assert!(matches!(deep.samples, Samples::Sixteen(_)));
        assert_eq!(numbers(&deep), pixels, "{value}");
        let float = apply_exif_orientation(numbered_float(), Some(value));
        assert!(matches!(float.samples, Samples::Float(_)));
        assert_eq!(numbers(&float), pixels, "{value}");
    }
    assert_eq!(numbers(&apply_exif_orientation(numbered(), None)), (3, 2, vec![0, 1, 2, 3, 4, 5]));
}

fn gradient() -> RgbImage {
    let mut data = Vec::new();
    for y in 0..40u32 {
        for x in 0..80u32 {
            data.extend_from_slice(&[3 * x as u8, 6 * y as u8, (x + y) as u8]);
        }
    }
    RgbImage::from_raw(80, 40, data).unwrap()
}

#[test]
fn raw_and_standard_photos_come_upright_the_same_way() {
    for value in 0..=9u8 {
        let raw = finish_raw(eight(gradient()), Some(value as u16), 20);
        let standard = finish_standard(eight(gradient()), Some(value), 20);
        assert_eq!((raw.width, raw.height), (standard.width, standard.height));
        assert_eq!(raw.data, standard.data);
        let turned = (5..=8).contains(&value);
        assert_eq!((raw.width, raw.height), if turned { (10, 20) } else { (20, 10) });
    }
}

#[test]
fn photos_are_turned_as_image_turns_them() {
    for value in 0..=9u8 {
        let img = gradient();
        let buffer = image::RgbImage::from_raw(img.width, img.height, img.data).unwrap();
        let mut dynamic = image::DynamicImage::ImageRgb8(buffer);
        if let Some(orientation) = image::metadata::Orientation::from_exif(value) {
            dynamic.apply_orientation(orientation);
        }
        let turned = finish_standard(eight(gradient()), Some(value), 80);
        assert_eq!((turned.width, turned.height), (dynamic.width(), dynamic.height()));
        assert_eq!(turned.data, dynamic.into_rgb8().into_raw(), "{value}");
    }
}

#[test]
fn photos_are_only_downsized() {
    for max_dim in [80, 81, 160, 70_000, u32::MAX] {
        let same = finish_standard(eight(gradient()), None, max_dim);
        assert_eq!((same.width, same.height), (80, 40));
        assert_eq!(same.data, gradient().data);
        let same = finish_raw(eight(gradient()), None, max_dim);
        assert_eq!((same.width, same.height), (80, 40));
        assert_eq!(same.data, gradient().data);
    }
    let smaller = finish_standard(eight(gradient()), Some(6), 79);
    assert_eq!((smaller.width, smaller.height), (40, 79));
    let tiny = finish_raw(eight(gradient()), None, 1);
    assert_eq!((tiny.width, tiny.height), (1, 1));
}

/// A picture of sixteen bits whose samples do not all end in the same byte.
fn deep_gradient() -> DeepImage {
    let mut data = Vec::new();
    for y in 0..40u32 {
        for x in 0..80u32 {
            data.extend_from_slice(&[(x * 811) as u16, (y * 1607) as u16, (x * y * 19) as u16]);
        }
    }
    DeepImage { width: 80, height: 40, samples: Samples::Sixteen(data) }
}

#[test]
fn deep_photos_are_downsized_at_their_depth() {
    let Samples::Sixteen(data) = deep_gradient().samples else { panic!() };
    let buffer = image::ImageBuffer::from_raw(80, 40, data).unwrap();
    let dynamic = image::DynamicImage::ImageRgb16(buffer);
    let filter = image::imageops::FilterType::Triangle;
    let expected = dynamic.resize(20, 20, filter).to_rgb8();
    let small = finish_standard(deep_gradient(), None, 20);
    assert_eq!((small.width, small.height), (20, 10));
    assert_eq!(small.data, expected.into_raw());

    let mut out = std::io::Cursor::new(Vec::new());
    dynamic.write_to(&mut out, image::ImageFormat::Png).unwrap();
    let decoded = decode_standard(&path("a.png"), &out.into_inner(), 20).unwrap();
    assert_eq!(decoded.data, small.data);

    // The nearest of the 256 levels.
    let levels = vec![0, 128, 129, 257, 385, 386, 65535, 65406, 65407];
    let img = DeepImage { width: 3, height: 1, samples: Samples::Sixteen(levels) };
    assert_eq!(finish_raw(img, None, 9).data, vec![0, 0, 1, 1, 1, 2, 255, 254, 255]);
}

#[test]
fn raw_bytes_must_fill_the_picture() {
    assert!(RgbImage::from_raw(2, 2, vec![0; 12]).is_some());
    assert!(RgbImage::from_raw(2, 2, vec![0; 11]).is_none());
    assert!(GrayImage::from_raw(2, 2, vec![0; 4]).is_some());
    assert!(GrayImage::from_raw(2, 2, vec![0; 5]).is_none());
    assert!(GrayImage::from_raw(u32::MAX, u32::MAX, vec![]).is_none());
}

/// The gradient, encoded.
fn encoded(format: image::ImageFormat) -> Vec<u8> {
    let img = gradient();
    let buffer = image::RgbImage::from_raw(img.width, img.height, img.data).unwrap();
    let mut out = std::io::Cursor::new(Vec::new());
    image::DynamicImage::ImageRgb8(buffer).write_to(&mut out, format).unwrap();
    out.into_inner()
}

#[test]
fn standard_photos_are_decoded() {
    let formats = [
        ("a.png", image::ImageFormat::Png),
        ("a.BMP", image::ImageFormat::Bmp),
        ("a.tiff", image::ImageFormat::Tiff),
        ("a.webp", image::ImageFormat::WebP),
    ];
    for (name, format) in formats {
        let img = decode_standard(&path(name), &encoded(format), 80).unwrap();
        assert_eq!((img.width, img.height), (80, 40), "{name}");
        assert_eq!(img.data, gradient().data, "{name}");
    }
    let small = decode_standard(&path("a.png"), &encoded(image::ImageFormat::Png), 20).unwrap();
    assert_eq!((small.width, small.height), (20, 10));
}

#[test]
fn the_extension_tells_the_format() {
    let png = encoded(image::ImageFormat::Png);
    for name in ["a.jpg", "a.txt", "a", ".png", ""] {
        assert_eq!(
            decode_standard(&path(name), &png, 80).err(),
            Some(PhotoError::Unrecognized),
            "{name}"
        );
    }
    assert_eq!(
        decode_standard(&path("a.png"), &vec![], 80).err(),
        Some(PhotoError::Unrecognized)
    );
}

#[test]
fn damaged_photos_are_not_decoded() {
    let mut png = encoded(image::ImageFormat::Png);
    png.truncate(png.len() / 2);
    assert_eq!(
        decode_standard(&path("a.png"), &png, 80).err(),
        Some(PhotoError::Undecodable)
    );
}

#[test]
fn the_exif_orientation_is_applied() {
    let jpeg = encoded(image::ImageFormat::Jpeg);
    // An Exif block behind the start marker: one entry, the orientation.
    let mut exif = vec![0xff, 0xe1, 0, 34];
    exif.extend_from_slice(b"Exif\0\0II*\0");
    exif.extend_from_slice(&[8, 0, 0, 0, 1, 0, 0x12, 1, 3, 0, 1, 0, 0, 0, 6, 0, 0, 0, 0, 0, 0, 0]);
    let turned: Vec<u8> =
        jpeg[..2].iter().chain(exif.iter()).chain(jpeg[2..].iter()).copied().collect();
    let plain = decode_standard(&path("a.jpg"), &jpeg, 80).unwrap();
    let upright = decode_standard(&path("a.jpg"), &turned, 80).unwrap();
    assert_eq!((plain.width, plain.height), (80, 40));
    assert_eq!((upright.width, upright.height), (40, 80));
    assert_eq!(upright.data, finish_raw(eight(plain), Some(6), 80).data);
}

#[test]
fn decoded_photos_are_finished() {
    let img = finish_decoded(Some(eight(gradient())), Some(8), 20).unwrap();
    assert_eq!((img.width, img.height), (10, 20));
    assert_eq!(finish_decoded(None, None, 20).err(), Some(PhotoError::Undecodable));
    let empty = || DeepImage { width: 0, height: 5, samples: Samples::Eight(vec![]) };
    assert_eq!(finish_decoded(Some(empty()), None, 20).err(), Some(PhotoError::Unusable));
    assert_eq!(finish_raw_found(Some(empty()), None, 20).err(), Some(RawError::Unusable));
    assert_eq!(finish_raw_found(None, None, 20).err(), Some(RawError::NoPreview));
    let sliver = || DeepImage {
        width: 1_048_577,
        height: 1,
        samples: Samples::Eight(vec![0; 3 * 1_048_577]),
    };
    let small = finish_decoded(Some(sliver()), None, 20).unwrap();
    assert_eq!((small.width, small.height), (20, 1));
    let small = finish_raw_found(Some(sliver()), Some(6), 20).unwrap();
    assert_eq!((small.width, small.height), (1, 20));
    // One that fits is not resampled, however long; nor can it be brought
    // within a size that is too long itself.
    assert_eq!(finish_decoded(Some(sliver()), None, 2_000_000).unwrap().width, 1_048_577);
    let longer = || DeepImage {
        width: 1_048_578,
        height: 1,
        samples: Samples::Eight(vec![0; 3 * 1_048_578]),
    };
    let max_dim = 1_048_577;
    assert_eq!(finish_decoded(Some(longer()), None, max_dim).err(), Some(PhotoError::Unusable));
    assert_eq!(finish_raw_found(Some(longer()), None, max_dim).err(), Some(RawError::Unusable));
    // Samples beyond the last pixel do not count.
    let mut data = gradient().data;
    data.extend_from_slice(&[1, 2, 3, 4]);
    let longer = DeepImage { width: 80, height: 40, samples: Samples::Eight(data) };
    assert_eq!(finish_raw_found(Some(longer), None, 80).unwrap().data, gradient().data);
}

#[test]
fn floating_point_photos_are_downsized_at_their_depth() {
    let mut data: Vec<f32> = Vec::new();
    for y in 0..40 {
        for x in 0..80 {
            // Some samples are out of range, as far as three.
            data.extend_from_slice(&[x as f32 / 40.0, y as f32 / 13.0 - 0.5, 0.3]);
        }
    }
    let bits = || Samples::Float(data.iter().map(|v| v.to_bits()).collect());
    let buffer = image::ImageBuffer::from_raw(80, 40, data.clone()).unwrap();
    let dynamic = image::DynamicImage::ImageRgb32F(buffer);
    let filter = image::imageops::FilterType::Triangle;

    let small = finish_standard(DeepImage { width: 80, height: 40, samples: bits() }, None, 20);
    assert_eq!((small.width, small.height), (20, 10));
    assert_eq!(small.data, dynamic.resize(20, 20, filter).to_rgb8().into_raw());
    let same = finish_raw(DeepImage { width: 80, height: 40, samples: bits() }, None, 80);
    assert_eq!(same.data, dynamic.to_rgb8().into_raw());

    let mut out = std::io::Cursor::new(Vec::new());
    dynamic.write_to(&mut out, image::ImageFormat::Tiff).unwrap();
    let bytes = out.into_inner();
    assert_eq!(decode_standard(&path("a.tif"), &bytes, 20).unwrap().data, small.data);
    assert_eq!(decode_standard(&path("a.tif"), &bytes, 99).unwrap().data, same.data);

    let levels = [-1.0f32, 0.0, 0.5, 1.0, 7.0, f32::NAN, 0.1, 0.25, f32::INFINITY];
    let samples = Samples::Float(levels.iter().map(|v| v.to_bits()).collect());
    let img = finish_raw(DeepImage { width: 3, height: 1, samples }, None, 9);
    assert_eq!(img.data, vec![0, 0, 128, 255, 255, 255, 26, 64, 255]);
}

/// One directory of a TIFF file: tag, type (1 byte, 3 short, 4 long), values.
type Directory = Vec<(u16, u16, Vec<u32>)>;

/// The pixels of a picture, uncompressed: how many bits per sample, width,
/// height, samples.
fn picture(kind: u32, bits: u32, width: u32, height: u32, data_at: u32) -> Directory {
    let bytes = 3 * width * height * bits / 8;
    vec![
        (254, 4, vec![kind]),
        (256, 4, vec![width]),
        (257, 4, vec![height]),
        (258, 3, vec![bits, bits, bits]),
        (259, 3, vec![1]),
        (262, 3, vec![if kind == 0 { 34892 } else { 2 }]),
        (273, 4, vec![data_at]),
        (277, 3, vec![3]),
        (278, 4, vec![height]),
        (279, 4, vec![bytes]),
    ]
}

/// Lays a directory out at `at`, with the values that do not fit their entry
/// behind it.
fn laid_out(directory: &Directory, at: u32) -> Vec<u8> {
    let mut entries = (directory.len() as u16).to_le_bytes().to_vec();
    let mut behind = Vec::new();
    let behind_at = at + 2 + 12 * directory.len() as u32 + 4;
    for (tag, kind, values) in directory {
        entries.extend_from_slice(&tag.to_le_bytes());
        entries.extend_from_slice(&kind.to_le_bytes());
        entries.extend_from_slice(&(values.len() as u32).to_le_bytes());
        let mut raw: Vec<u8> = values
            .iter()
            .flat_map(|v| v.to_le_bytes()[..*kind as usize].to_vec())
            .collect();
        if *kind == 3 {
            raw = values.iter().flat_map(|v| (*v as u16).to_le_bytes()).collect();
        }
        if raw.len() > 4 {
            entries.extend_from_slice(&(behind_at + behind.len() as u32).to_le_bytes());
            behind.extend_from_slice(&raw);
        } else {
            raw.resize(4, 0);
            entries.extend_from_slice(&raw);
        }
    }
    entries.extend_from_slice(&[0; 4]);
    entries.extend_from_slice(&behind);
    entries
}

/// A digital negative: a thumbnail of three by two with the bits per sample (if
/// any), an Exif orientation, and perhaps a reduced preview of four by one. The
/// pixels of the thumbnail count from zero, those of the preview from 100.
fn negative(thumbnail: Option<u32>, orientation: u32, preview: bool) -> Vec<u8> {
    let mut out = b"II*\0".to_vec();
    out.extend_from_slice(&2000u32.to_le_bytes());
    // Pixels: at 8 the thumbnail, at 100 the preview, at 200 the sensor's.
    match thumbnail {
        Some(16) => out.extend((0..18u16).flat_map(|v| (257 * v).to_le_bytes())),
        _ => out.extend(0..18u8),
    }
    out.resize(100, 0);
    out.extend(100..112u8);
    out.resize(500, 0);
    let raw = picture(0, 16, 2, 2, 200);
    let reduced = picture(1, 8, 4, 1, 100);
    out.extend_from_slice(&laid_out(&raw, 500));
    out.resize(1000, 0);
    out.extend_from_slice(&laid_out(&reduced, 1000));
    out.resize(2000, 0);
    let mut root = match thumbnail {
        Some(bits) => picture(1, bits, 3, 2, 8),
        None => vec![],
    };
    root.push((274, 3, vec![orientation]));
    root.push((330, 4, if preview { vec![500, 1000] } else { vec![500] }));
    root.push((50706, 1, vec![1, 4, 0, 0]));
    root.sort_by_key(|e| e.0);
    out.extend_from_slice(&laid_out(&root, 2000));
    out.resize(4000, 0);
    out
}

#[test]
fn raw_photos_are_decoded_from_their_previews() {
    let upright = decode_raw(&negative(Some(8), 1, false), 100).unwrap();
    assert_eq!((upright.width, upright.height), (3, 2));
    assert_eq!(upright.data, (0..18).collect::<Vec<u8>>());
    // The same at sixteen bits.
    let deep = decode_raw(&negative(Some(16), 1, false), 100).unwrap();
    assert_eq!(deep.data, upright.data);
    // A larger preview comes first.
    let reduced = decode_raw(&negative(Some(8), 1, true), 100).unwrap();
    assert_eq!((reduced.width, reduced.height), (4, 1));
    assert_eq!(reduced.data, (100..112).collect::<Vec<u8>>());
    // The orientation is applied.
    let turned = decode_raw(&negative(Some(8), 6, false), 100).unwrap();
    assert_eq!((turned.width, turned.height), (2, 3));
    assert_eq!(turned.data, finish_raw(eight(upright), Some(6), 100).data);
    // And the size.
    let small = decode_raw(&negative(Some(8), 1, true), 2).unwrap();
    assert_eq!((small.width, small.height), (2, 1));
}

#[test]
fn raw_photos_without_previews() {
    assert_eq!(decode_raw(&negative(None, 1, false), 100).err(), Some(RawError::NoPreview));
    // Where there is no decoder, there is a reason.
    for bytes in [vec![], encoded(image::ImageFormat::Png)] {
        let error = decode_raw(&bytes, 100).err();
        let Some(RawError::Unsupported(Some(reason))) = error else { panic!("{error:?}") };
        assert!(reason.contains("No decoder found"), "{reason}");
    }
}

#[test]
fn damaged_raw_photos_are_refused() {
    // The starts of two formats, cut off where the decoders read on.
    for bytes in [b"\0MRM".to_vec(), b"FOVb".to_vec()] {
        assert_eq!(decode_raw(&bytes, 100).err(), Some(RawError::Unsupported(None)));
    }
}

#[test]
fn the_name_tells_raw_photos_from_others() {
    let png = encoded(image::ImageFormat::Png);
    let dng = negative(Some(8), 1, false);
    assert_eq!(decode_photo(&path("a.png"), &png, 80).unwrap().data, gradient().data);
    assert_eq!(decode_photo(&path("a.DNG"), &dng, 80).unwrap().width, 3);
    assert!(matches!(
        decode_photo(&path("a.dng"), &png, 80).err(),
        Some(DecodeError::Raw(RawError::Unsupported(_)))
    ));
    assert_eq!(
        decode_photo(&path("a.png"), &dng, 80).err(),
        Some(DecodeError::Standard(PhotoError::Unrecognized))
    );
    assert_eq!(
        decode_photo(&path("a"), &png, 80).err(),
        Some(DecodeError::Standard(PhotoError::Unrecognized))
    );
}
