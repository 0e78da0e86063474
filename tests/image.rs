use raytracer::{Image, Rgb};

fn sample_image() -> Image {
    // 2 wide, 2 high
    let data = vec![1, 2, 3, 4, 5, 6, 7, 8, 9, 10, 11, 12];
    Image::new(2, 2, data).unwrap()
}

#[test]
fn image_new_checks_byte_count() {
    assert!(Image::new(2, 2, vec![0; 11]).is_none());
    assert!(Image::new(2, 2, vec![0; 13]).is_none());
    assert!(Image::new(2, 2, vec![0; 12]).is_some());
    assert!(Image::new(0, 0, Vec::new()).is_some());
    assert!(Image::new(u32::MAX, u32::MAX, vec![0; 3]).is_none());
}

#[test]
fn image_pixel_reads_row_major() {
    let img = sample_image();
    assert_eq!(img.pixel(0, 0), Rgb { r: 1, g: 2, b: 3 });
    assert_eq!(img.pixel(1, 0), Rgb { r: 4, g: 5, b: 6 });
    assert_eq!(img.pixel(0, 1), Rgb { r: 7, g: 8, b: 9 });
    assert_eq!(img.pixel(1, 1), Rgb { r: 10, g: 11, b: 12 });
}

#[test]
fn image_texel_clamps_to_edges() {
    let img = sample_image();
    assert_eq!(img.texel_clamped(5, 0), Some(Rgb { r: 4, g: 5, b: 6 }));
    assert_eq!(img.texel_clamped(0, 9), Some(Rgb { r: 7, g: 8, b: 9 }));
    assert_eq!(img.texel_clamped(9, 9), Some(Rgb { r: 10, g: 11, b: 12 }));
}

#[test]
fn image_texel_of_empty_image_is_none() {
    let img = Image::new(0, 3, Vec::new()).unwrap();
    assert_eq!(img.texel_clamped(0, 0), None);
}
