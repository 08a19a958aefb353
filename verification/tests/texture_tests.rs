use media_browser::texture::TextureGenerator;
use media_browser::MediaError;

fn pixel(buf: &[u8], w: u32, x: u32, y: u32) -> (u8, u8, u8, u8) {
    let i = (4 * (y * w + x)) as usize;
    (buf[i], buf[i + 1], buf[i + 2], buf[i + 3])
}

#[test]
fn gradient_small_values() {
    let gen = TextureGenerator::new(4, 2);
    let buf = gen.generate_gradient();
    assert_eq!(buf.len(), 4 * 2 * 4);
    // red = floor(x * 255 / 4), green = floor(y * 255 / 2)
    assert_eq!(pixel(&buf, 4, 0, 0), (0, 0, 128, 255));
    assert_eq!(pixel(&buf, 4, 1, 0), (63, 0, 128, 255));
    assert_eq!(pixel(&buf, 4, 2, 0), (127, 0, 128, 255));
    assert_eq!(pixel(&buf, 4, 3, 0), (191, 0, 128, 255));
    assert_eq!(pixel(&buf, 4, 2, 1), (127, 127, 128, 255));
}

#[test]
fn gradient_monotone_channels() {
    let gen = TextureGenerator::new(16, 16);
    let buf = gen.generate_gradient();
    for y in 0..16u32 {
        for x in 0..15u32 {
            let (r1, _, b, a) = pixel(&buf, 16, x, y);
            let (r2, _, _, _) = pixel(&buf, 16, x + 1, y);
            assert!(r1 <= r2);
            assert_eq!(b, 128);
            assert_eq!(a, 255);
        }
    }
    for x in 0..16u32 {
        for y in 0..15u32 {
            let (_, g1, _, _) = pixel(&buf, 16, x, y);
            let (_, g2, _, _) = pixel(&buf, 16, x, y + 1);
            assert!(g1 <= g2);
        }
    }
}

#[test]
fn gradient_empty_dimensions() {
    let gen = TextureGenerator::new(0, 8);
    assert_eq!(gen.generate_gradient().len(), 0);
}

#[test]
fn checkerboard_zero_square_size_rejected() {
    let gen = TextureGenerator::new(8, 8);
    let r = gen.generate_checkerboard(0);
    assert_eq!(r.unwrap_err(), MediaError::InvalidArgument);
}

#[test]
fn checkerboard_one_alternates() {
    let gen = TextureGenerator::new(4, 4);
    let buf = gen.generate_checkerboard(1).unwrap();
    assert_eq!(buf.len(), 4 * 4 * 4);
    for y in 0..4u32 {
        for x in 0..4u32 {
            let (r, g, b, a) = pixel(&buf, 4, x, y);
            let expected = if (x + y) % 2 == 0 { 255 } else { 0 };
            assert_eq!((r, g, b), (expected, expected, expected));
            assert_eq!(a, 255);
            if x < 3 {
                assert_ne!(pixel(&buf, 4, x, y).0, pixel(&buf, 4, x + 1, y).0);
            }
            if y < 3 {
                assert_ne!(pixel(&buf, 4, x, y).0, pixel(&buf, 4, x, y + 1).0);
            }
        }
    }
}

#[test]
fn checkerboard_square_size_two() {
    let gen = TextureGenerator::new(4, 4);
    let buf = gen.generate_checkerboard(2).unwrap();
    assert_eq!(pixel(&buf, 4, 0, 0).0, 255);
    assert_eq!(pixel(&buf, 4, 1, 1).0, 255);
    assert_eq!(pixel(&buf, 4, 2, 0).0, 0);
    assert_eq!(pixel(&buf, 4, 0, 2).0, 0);
    assert_eq!(pixel(&buf, 4, 2, 2).0, 255);
}

#[test]
fn plasma_assembly_mapping() {
    let gen = TextureGenerator::new(2, 1);
    let channels = vec![10u8, 200u8];
    let buf = gen.plasma_from_channels(&channels);
    assert_eq!(buf, vec![10, 10, 245, 255, 200, 200, 55, 255]);
}

#[test]
fn plasma_assembly_deterministic() {
    let gen = TextureGenerator::new(3, 2);
    let channels = vec![0u8, 17, 85, 170, 254, 255];
    let a = gen.plasma_from_channels(&channels);
    let b = gen.plasma_from_channels(&channels);
    assert_eq!(a, b);
    assert_eq!(a.len(), 3 * 2 * 4);
}

#[test]
fn generator_accessors() {
    let gen = TextureGenerator::new(640, 480);
    assert_eq!(gen.get_width(), 640);
    assert_eq!(gen.get_height(), 480);
}
