use arnold_decoder::image::{Image, Pixel};
use arnold_decoder::transform::{apply_transform_to_buffer, fill_row, transform_once};

fn tagged(i: usize) -> Pixel {
    Pixel { r: i as u8, g: (2 * i) as u8, b: (3 * i) as u8 }
}

fn numbered(n: usize) -> Image {
    let mut pixels: Vec<Pixel> = Vec::new();
    for i in 0..n * n {
        pixels.push(tagged(i));
    }
    Image::from_pixels(n, n, pixels).unwrap()
}

fn tags(order: &[usize]) -> Vec<Pixel> {
    order.iter().map(|i| tagged(*i)).collect()
}

#[test]
fn identity_coefficients_leave_the_image_alone() {
    let image = numbered(4);
    let out = transform_once(&image, 0, 0);
    assert_eq!(out, image);
}

#[test]
fn one_pass_follows_the_formula() {
    // destination (row, col) reads source row (row + 2 col) mod 3,
    // column (row + 3 col) mod 3
    let image = numbered(3);
    let out = transform_once(&image, 1, 2);
    assert_eq!(out.pixels(), &tags(&[0, 6, 3, 4, 1, 7, 8, 5, 2]));
    assert_eq!(out.width(), 3);
    assert_eq!(out.height(), 3);
}

#[test]
fn negative_coefficients_use_the_non_negative_remainder() {
    let image = numbered(3);
    let out = transform_once(&image, -1, -2);
    assert_eq!(out.pixels(), &tags(&[0, 3, 6, 5, 8, 2, 7, 1, 4]));
}

#[test]
fn coefficients_count_modulo_the_side() {
    let image = numbered(3);
    assert_eq!(transform_once(&image, 4, 5), transform_once(&image, 1, 2));
    assert_eq!(transform_once(&image, -2, -1), transform_once(&image, 1, 2));
}

#[test]
fn extreme_coefficients_do_not_overflow() {
    let image = numbered(3);
    // i64::MAX = 1 (mod 3) and i64::MIN = 1 (mod 3)
    assert_eq!(
        transform_once(&image, i64::MAX, i64::MIN),
        transform_once(&image, 1, 1)
    );
}

#[test]
fn one_by_one_image_is_fixed() {
    let image = numbered(1);
    assert_eq!(transform_once(&image, 7, -9), image);
}

#[test]
fn pass_moves_pixels_of_a_larger_image() {
    let image = numbered(4);
    let out = transform_once(&image, 1, 1);
    assert_ne!(out, image);
    // destination (1, 2) reads source row 3, column 1
    assert_eq!(out.get_pixel(2, 1), image.get_pixel(1, 3));
}

#[test]
fn buffer_pass_overwrites_the_destination() {
    let src: Vec<Pixel> = tags(&[0, 1, 2, 3, 4, 5, 6, 7, 8]);
    let mut dst: Vec<Pixel> = vec![Pixel { r: 255, g: 255, b: 255 }; 9];
    apply_transform_to_buffer(&src, &mut dst, 3, 1, 2);
    assert_eq!(dst, tags(&[0, 6, 3, 4, 1, 7, 8, 5, 2]));
    assert_eq!(src, tags(&[0, 1, 2, 3, 4, 5, 6, 7, 8]));
}

#[test]
fn single_row_is_filled_from_the_whole_source() {
    let src: Vec<Pixel> = tags(&[0, 1, 2, 3, 4, 5, 6, 7, 8]);
    let mut row: Vec<Pixel> = vec![Pixel { r: 0, g: 0, b: 0 }; 3];
    fill_row(&src, 3, 1, 2, 1, &mut row);
    assert_eq!(row, tags(&[4, 1, 7]));
    fill_row(&src, 3, 1, 2, 2, &mut row);
    assert_eq!(row, tags(&[8, 5, 2]));
}
