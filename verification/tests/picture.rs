use std::io::Cursor;

use image::{ImageFormat, Luma};
use ulam_spiral::{
    generate_ulam_matrix, render_ulam_spiral, shade, BRIGHTEST, DARKEST, MAX_DIMENSION,
    MIN_DIMENSION,
};

fn assert_picture_matches_matrix(dimension: u16) {
    let canvas = render_ulam_spiral(dimension);
    let matrix = generate_ulam_matrix(dimension as usize);
    assert_eq!(canvas.image.width(), dimension as u32);
    assert_eq!(canvas.image.height(), dimension as u32);
    for y in 0..dimension as u32 {
        for x in 0..dimension as u32 {
            let expected: u8 = if matrix[(y as usize, x as usize)] == 0 { 255 } else { 0 };
            assert_eq!(canvas.image.get_pixel(x, y), &Luma([expected]));
        }
    }
}

#[test]
fn zero_is_shaded_brightest() {
    assert_eq!(shade(0), 255);
    assert_eq!(BRIGHTEST, 255);
}

#[test]
fn anything_but_zero_is_shaded_darkest() {
    assert_eq!(shade(1), 0);
    assert_eq!(shade(2), 0);
    assert_eq!(shade(47), 0);
    assert_eq!(shade(u32::MAX), 0);
    assert_eq!(DARKEST, 0);
}

#[test]
fn picture_of_dimension_zero_is_empty() {
    let canvas = render_ulam_spiral(0);
    assert_eq!(canvas.image.dimensions(), (0, 0));
    assert_eq!(canvas.image.as_raw().len(), 0);
}

#[test]
fn picture_of_dimension_one_is_a_single_bright_pixel() {
    let canvas = render_ulam_spiral(1);
    assert_eq!(canvas.image.dimensions(), (1, 1));
    assert_eq!(canvas.image.as_raw(), &vec![255u8]);
}

#[test]
fn picture_of_dimension_two_has_its_primes_in_the_top_row() {
    let canvas = render_ulam_spiral(2);
    assert_eq!(canvas.image.as_raw(), &vec![0u8, 0, 255, 255]);
}

#[test]
fn picture_of_dimension_seven_is_dark_at_the_primes() {
    let canvas = render_ulam_spiral(7);
    let b: u8 = 255;
    let d: u8 = 0;
    let expected: Vec<u8> = vec![
        d, b, b, b, b, b, d,
        b, d, b, b, b, d, b,
        b, b, d, b, d, b, d,
        b, d, b, b, d, d, b,
        d, b, d, b, b, b, b,
        b, b, b, d, b, b, b,
        d, b, b, b, d, b, b,
    ];
    assert_eq!(canvas.image.dimensions(), (7, 7));
    assert_eq!(canvas.image.as_raw(), &expected);
    assert_eq!(canvas.image.get_pixel(4, 3), &Luma([0u8]));
    assert_eq!(canvas.image.get_pixel(3, 3), &Luma([255u8]));
}

#[test]
fn picture_follows_the_matrix_for_small_dimensions() {
    for dimension in 0u16..=20 {
        assert_picture_matches_matrix(dimension);
    }
}

#[test]
fn picture_of_the_default_dimension_follows_the_matrix() {
    assert_picture_matches_matrix(256);
}

#[test]
fn picture_of_the_smallest_accepted_dimension_follows_the_matrix() {
    assert_picture_matches_matrix(MIN_DIMENSION);
}

#[test]
fn picture_of_the_largest_accepted_dimension_has_that_size() {
    let canvas = render_ulam_spiral(MAX_DIMENSION);
    assert_eq!(canvas.image.dimensions(), (4096, 4096));
    assert_eq!(canvas.image.get_pixel(2048, 2048), &Luma([255u8]));
    assert_eq!(canvas.image.get_pixel(2049, 2048), &Luma([0u8]));
    assert_eq!(canvas.image.get_pixel(2049, 2047), &Luma([0u8]));
    assert_eq!(canvas.image.get_pixel(2048, 2047), &Luma([255u8]));
}

#[test]
fn picture_survives_encoding_as_png() {
    let canvas = render_ulam_spiral(256);
    let mut bytes: Vec<u8> = Vec::new();
    canvas
        .image
        .write_to(&mut Cursor::new(&mut bytes), ImageFormat::Png)
        .expect("encoding a grayscale image as PNG");
    let decoded = image::load_from_memory(&bytes).expect("decoding the PNG");
    assert_eq!(decoded.color(), image::ColorType::L8);
    let gray = decoded.into_luma8();
    assert_eq!(gray.dimensions(), (256, 256));
    assert_eq!(gray, canvas.image);
}

#[test]
fn rendering_twice_gives_the_same_picture() {
    assert_eq!(render_ulam_spiral(64).image, render_ulam_spiral(64).image);
}
