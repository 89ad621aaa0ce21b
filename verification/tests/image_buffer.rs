use raytracer::image::{hex_channels, PPMImage};

#[test]
fn new_image_is_black() {
    let img = PPMImage::new(3, 2);
    assert_eq!(img.width, 3);
    assert_eq!(img.height, 2);
    for y in 0..2 {
        for x in 0..3 {
            assert_eq!(img.get_pixel_raw(x, y), (0, 0, 0));
        }
    }
    assert_eq!(img.to_ppm_bytes().len(), "P6\n3 2\n255\n".len() + 18);
}

#[test]
fn set_then_get_pixel() {
    let mut img = PPMImage::new(4, 3);
    img.set_pixel_raw(2, 1, 10, 20, 30);
    assert_eq!(img.get_pixel_raw(2, 1), (10, 20, 30));
    img.set_pixel_raw(2, 1, 40, 50, 60);
    assert_eq!(img.get_pixel_raw(2, 1), (40, 50, 60));
}

#[test]
fn set_pixel_leaves_other_pixels() {
    let mut img = PPMImage::new(4, 3);
    img.set_pixel_raw(0, 0, 1, 2, 3);
    img.set_pixel_raw(3, 2, 7, 8, 9);
    img.set_pixel_raw(1, 1, 4, 5, 6);
    assert_eq!(img.get_pixel_raw(0, 0), (1, 2, 3));
    assert_eq!(img.get_pixel_raw(3, 2), (7, 8, 9));
    assert_eq!(img.get_pixel_raw(1, 1), (4, 5, 6));
    assert_eq!(img.get_pixel_raw(2, 1), (0, 0, 0));
    assert_eq!(img.get_pixel_raw(0, 1), (0, 0, 0));
}

#[test]
fn linear_index_wraps_to_next_row() {
    // Position (4, 0) of a 4-wide image is pixel 4, the first of row 1.
    let mut img = PPMImage::new(4, 2);
    img.set_pixel_raw(4, 0, 9, 9, 9);
    assert_eq!(img.get_pixel_raw(0, 1), (9, 9, 9));
}

#[test]
fn ppm_bytes_header_and_data() {
    let mut img = PPMImage::new(2, 1);
    img.set_pixel_raw(0, 0, 255, 0, 128);
    img.set_pixel_raw(1, 0, 1, 2, 3);
    let mut expected = b"P6\n2 1\n255\n".to_vec();
    expected.extend_from_slice(&[255, 0, 128, 1, 2, 3]);
    assert_eq!(img.to_ppm_bytes(), expected);
}

#[test]
fn ppm_header_multi_digit_sizes() {
    let img = PPMImage::new(1920, 10);
    let bytes = img.to_ppm_bytes();
    let header = b"P6\n1920 10\n255\n";
    assert_eq!(&bytes[..header.len()], &header[..]);
    assert_eq!(bytes.len(), header.len() + 1920 * 10 * 3);
}

#[test]
fn ppm_header_zero_size() {
    let img = PPMImage::new(0, 0);
    assert_eq!(img.to_ppm_bytes(), b"P6\n0 0\n255\n".to_vec());
}

#[test]
fn rgb_image_copies_every_pixel() {
    let mut img = PPMImage::new(3, 2);
    for y in 0..2 {
        for x in 0..3 {
            img.set_pixel_raw(x, y, (x * 10) as u8, (y * 100) as u8, (x + y) as u8 + 200);
        }
    }
    let rgb = img.to_rgb_image();
    assert_eq!(rgb.0.width(), 3);
    assert_eq!(rgb.0.height(), 2);
    for y in 0..2u32 {
        for x in 0..3u32 {
            let p = rgb.0.get_pixel(x, y);
            assert_eq!(p.0, [(x * 10) as u8, (y * 100) as u8, (x + y) as u8 + 200]);
        }
    }
    assert_eq!(rgb.0.as_raw(), &img.to_ppm_bytes()[b"P6\n3 2\n255\n".len()..].to_vec());
}

#[test]
fn byte_to_unit_float_and_back_is_identity() {
    // A pixel read as `byte / 255.0` and written back as
    // `(value * 255.999).clamp(0.0, 255.0) as u8` is the byte it came from,
    // which is why the RGB copy moves bytes unchanged.
    for b in 0..=255u8 {
        let v = b as f64 / 255.0;
        let back = (v * 255.999).clamp(0.0, 255.0) as u8;
        assert_eq!(back, b);
    }
}

#[test]
fn hex_color_channels() {
    assert_eq!(hex_channels(0x123456), (0x12, 0x34, 0x56));
    assert_eq!(hex_channels(0xFFFFFF), (255, 255, 255));
    assert_eq!(hex_channels(0x000000), (0, 0, 0));
    assert_eq!(hex_channels(0xAB00FF10), (0x00, 0xFF, 0x10));
}

#[test]
fn rgb_image_of_empty_images() {
    let rgb = PPMImage::new(0, 0).to_rgb_image();
    assert_eq!((rgb.0.width(), rgb.0.height()), (0, 0));
    let wide = PPMImage::new(u32::MAX as usize + 5, 0).to_rgb_image();
    assert_eq!((wide.0.width(), wide.0.height()), (4, 0));
    assert!(wide.0.as_raw().is_empty());
}
