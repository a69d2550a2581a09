//! End-to-end tests of the top-level operation, with the real codecs.

use tinify::{tinify, Error};

fn four_color_png() -> (Vec<u8>, Vec<u8>) {
    let rgba: Vec<u8> = vec![
        255, 0, 0, 255, 0, 255, 0, 255, 0, 0, 255, 255, 255, 255, 0, 255,
    ];
    let png = lodepng::encode_memory(&rgba, 2, 2, lodepng::ColorType::RGBA, 8).unwrap();
    (png, rgba)
}

fn gray_jpeg() -> Vec<u8> {
    let mut rgb = Vec::new();
    for y in 0..8u32 {
        for x in 0..8u32 {
            let v = (x * 32 + y * 4) as u8;
            rgb.extend_from_slice(&[v, v, v]);
        }
    }
    let mut comp = mozjpeg::Compress::new(mozjpeg::ColorSpace::JCS_RGB);
    comp.set_size(8, 8);
    comp.set_quality(90.0);
    let mut started = comp.start_compress(Vec::new()).unwrap();
    started.write_scanlines(&rgb).unwrap();
    started.finish().unwrap()
}

#[test]
fn quality_below_zero_is_rejected() {
    let (png, _) = four_color_png();
    assert!(matches!(tinify(&png, -1), Err(Error::QualityOutOfRange)));
}

#[test]
fn quality_above_hundred_is_rejected() {
    let (png, _) = four_color_png();
    assert!(matches!(tinify(&png, 10001), Err(Error::QualityOutOfRange)));
}

#[test]
fn unrecognized_header_is_rejected_without_panic() {
    assert!(matches!(
        tinify(b"hello world!", 5000),
        Err(Error::UnexpectedImageType)
    ));
    assert!(matches!(tinify(b"ab", 5000), Err(Error::UnexpectedImageType)));
}

#[test]
fn recognized_but_unsupported_format_is_rejected() {
    let buf = b"GIF89a\x00\x00\x00\x00\x00\x00";
    assert!(matches!(
        tinify(buf, 5000),
        Err(Error::UnsupportedImageType(imghdr::Type::Gif))
    ));
}

#[test]
fn truncated_png_fails_with_decode_error() {
    let buf = b"\x89PNG\r\n\x1a\njunk";
    assert!(matches!(tinify(buf, 5000), Err(Error::ImageError(_))));
}

#[test]
fn four_color_image_at_full_quality_round_trips_exactly() {
    let (png, rgba) = four_color_png();
    let out = tinify(&png, 10000).unwrap();
    let decoded = lodepng::decode32(&out).unwrap();
    assert_eq!(decoded.width, 2);
    assert_eq!(decoded.height, 2);
    let bytes: Vec<u8> = decoded
        .buffer
        .iter()
        .flat_map(|p| [p.r, p.g, p.b, p.a])
        .collect();
    assert_eq!(bytes, rgba);
}

#[test]
fn single_pixel_at_quality_zero_still_succeeds() {
    let rgba: Vec<u8> = vec![12, 34, 56, 255];
    let png = lodepng::encode_memory(&rgba, 1, 1, lodepng::ColorType::RGBA, 8).unwrap();
    let out = tinify(&png, 0).unwrap();
    let decoded = lodepng::decode32(&out).unwrap();
    assert_eq!(decoded.width, 1);
    assert_eq!(decoded.height, 1);
    let p = decoded.buffer[0];
    assert_eq!((p.r, p.g, p.b, p.a), (12, 34, 56, 255));
}

#[test]
fn identical_input_gives_byte_identical_output() {
    let (png, _) = four_color_png();
    let a = tinify(&png, 4200).unwrap();
    let b = tinify(&png, 4200).unwrap();
    assert_eq!(a, b);
    let jpg = gray_jpeg();
    let c = tinify(&jpg, 6000).unwrap();
    let d = tinify(&jpg, 6000).unwrap();
    assert_eq!(c, d);
}

#[test]
fn jpeg_goes_through_the_transform_encoder() {
    let jpg = gray_jpeg();
    assert_eq!(&jpg[6..10], b"JFIF");
    let out = tinify(&jpg, 7000).unwrap();
    assert_eq!(&out[0..2], &[0xff, 0xd8]);
    assert_eq!(&out[6..10], b"JFIF");
}
