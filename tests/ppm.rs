use raytracer::{encode_ppm, pixel_line, raster_order, Rgb};

#[test]
fn pixel_line_writes_decimal_channels() {
    let line = pixel_line(&Rgb { r: 255, g: 0, b: 17 });
    assert_eq!(line, b"255 0 17\n".to_vec());
    let line = pixel_line(&Rgb { r: 9, g: 10, b: 100 });
    assert_eq!(line, b"9 10 100\n".to_vec());
}

#[test]
fn encode_ppm_writes_header_and_rows() {
    let pixels = vec![
        Rgb { r: 1, g: 2, b: 3 },
        Rgb { r: 255, g: 255, b: 255 },
        Rgb { r: 0, g: 0, b: 0 },
        Rgb { r: 128, g: 64, b: 32 },
    ];
    let out = encode_ppm(2, 2, &pixels);
    let text = String::from_utf8(out).unwrap();
    assert_eq!(text, "P3\n2 2\n255\n1 2 3\n255 255 255\n0 0 0\n128 64 32\n");
}

#[test]
fn encode_ppm_of_empty_image() {
    let out = encode_ppm(0, 5, &Vec::new());
    assert_eq!(String::from_utf8(out).unwrap(), "P3\n0 5\n255\n");
}

#[test]
fn encode_ppm_large_dimensions() {
    let out = encode_ppm(4294967295, 0, &Vec::new());
    assert_eq!(String::from_utf8(out).unwrap(), "P3\n4294967295 0\n255\n");
}

#[test]
fn raster_order_is_row_major() {
    let order = raster_order(3, 2);
    assert_eq!(order, vec![(0, 0), (0, 1), (0, 2), (1, 0), (1, 1), (1, 2)]);
    assert!(raster_order(0, 4).is_empty());
}
