use image::imageops::FilterType;
use image::{DynamicImage, ImageFormat, RgbImage};
use iresizer::size::parse_size;
use std::io::Cursor;

fn round_trip(img: &DynamicImage, format: ImageFormat) -> DynamicImage {
    let mut bytes: Vec<u8> = Vec::new();
    img.write_to(&mut Cursor::new(&mut bytes), format).unwrap();
    image::load_from_memory_with_format(&bytes, format).unwrap()
}

#[test]
fn resized_image_keeps_target_dimensions_through_codecs() {
    let original = DynamicImage::ImageRgb8(RgbImage::new(100, 200));
    let (w, h) = parse_size("50%", original.width(), original.height()).unwrap();
    assert_eq!((w, h), (50, 100));
    let resized = original.resize_exact(w, h, FilterType::Lanczos3);
    for format in [ImageFormat::Png, ImageFormat::Jpeg, ImageFormat::Bmp] {
        let decoded = round_trip(&resized, format);
        assert_eq!((decoded.width(), decoded.height()), (w, h));
    }
}

#[test]
fn absolute_target_survives_png_round_trip() {
    let original = DynamicImage::ImageRgb8(RgbImage::new(40, 30));
    let (w, h) = parse_size("80x60", original.width(), original.height()).unwrap();
    let resized = original.resize_exact(w, h, FilterType::Lanczos3);
    let decoded = round_trip(&resized, ImageFormat::Png);
    assert_eq!((decoded.width(), decoded.height()), (80, 60));
}

#[test]
fn absolute_target_with_new_aspect_ratio_survives_round_trip() {
    let original = DynamicImage::ImageRgb8(RgbImage::new(40, 30));
    let (w, h) = parse_size("30x90", original.width(), original.height()).unwrap();
    let resized = original.resize_exact(w, h, FilterType::Lanczos3);
    let decoded = round_trip(&resized, ImageFormat::Png);
    assert_eq!((decoded.width(), decoded.height()), (30, 90));
}
