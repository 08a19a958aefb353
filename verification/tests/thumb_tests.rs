use base64::Engine;
use media_browser::thumb::{get_thumbnail_from_bytes, thumb_dims};
use media_browser::MediaError;

fn png_bytes(w: u32, h: u32) -> Vec<u8> {
    let mut img = image::RgbaImage::new(w, h);
    for (x, y, p) in img.enumerate_pixels_mut() {
        *p = image::Rgba([(x % 256) as u8, (y % 256) as u8, 7, 255]);
    }
    let dynimg = image::DynamicImage::ImageRgba8(img);
    let mut out: Vec<u8> = Vec::new();
    let mut cursor = std::io::Cursor::new(&mut out);
    dynimg
        .write_to(&mut cursor, image::ImageOutputFormat::Png)
        .unwrap();
    out
}

#[test]
fn thumb_dims_formula() {
    assert_eq!(thumb_dims(4000, 2000), (256, 128));
    assert_eq!(thumb_dims(2000, 4000), (128, 256));
    assert_eq!(thumb_dims(100, 50), (100, 50));
    assert_eq!(thumb_dims(256, 256), (256, 256));
    assert_eq!(thumb_dims(300, 200), (256, 171));
    assert_eq!(thumb_dims(257, 257), (256, 256));
    assert_eq!(thumb_dims(0, 500), (1, 256));
    assert_eq!(thumb_dims(0, 0), (1, 1));
}

#[test]
fn large_source_scaled_to_bound() {
    let bytes = png_bytes(4000, 2000);
    let t = get_thumbnail_from_bytes(&bytes).unwrap();
    assert_eq!(t.full_width, 4000);
    assert_eq!(t.full_height, 2000);
    assert_eq!(t.thumb_width, 256);
    assert_eq!(t.thumb_height, 128);
    // the payload is the PNG of the resampled raster, base64-encoded
    let png = base64::engine::general_purpose::STANDARD
        .decode(&t.data_base64)
        .unwrap();
    let back = image::load_from_memory(&png).unwrap();
    assert_eq!(back.width(), 256);
    assert_eq!(back.height(), 128);
}

#[test]
fn small_source_not_upscaled() {
    let bytes = png_bytes(100, 50);
    let t = get_thumbnail_from_bytes(&bytes).unwrap();
    assert_eq!(t.full_width, 100);
    assert_eq!(t.full_height, 50);
    assert_eq!(t.thumb_width, 100);
    assert_eq!(t.thumb_height, 50);
    let png = base64::engine::general_purpose::STANDARD
        .decode(&t.data_base64)
        .unwrap();
    let back = image::load_from_memory(&png).unwrap();
    assert_eq!(back.width(), 100);
    assert_eq!(back.height(), 50);
    // a copy, not a resample: the decoded pixels survive the round trip
    let rgba = back.to_rgba8();
    assert_eq!(rgba.get_pixel(3, 4).0, [3, 4, 7, 255]);
}

#[test]
fn non_image_bytes_rejected() {
    let bytes = b"this is a plain text file renamed to look like an image";
    let r = get_thumbnail_from_bytes(bytes);
    assert_eq!(r.unwrap_err(), MediaError::DecodeError);
}

#[test]
fn empty_bytes_rejected() {
    let r = get_thumbnail_from_bytes(&[]);
    assert_eq!(r.unwrap_err(), MediaError::DecodeError);
}
