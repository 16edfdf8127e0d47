use arnold_decoder::image::{Image, Pixel};

fn grey(v: u8) -> Pixel {
    Pixel { r: v, g: v, b: v }
}

#[test]
fn from_pixels_accepts_a_full_grid() {
    let pixels: Vec<Pixel> = vec![grey(1), grey(2), grey(3), grey(4), grey(5), grey(6)];
    let image = Image::from_pixels(3, 2, pixels.clone()).unwrap();
    assert_eq!(image.width(), 3);
    assert_eq!(image.height(), 2);
    assert_eq!(image.pixels(), &pixels);
}

#[test]
fn from_pixels_rejects_a_wrong_count() {
    let pixels: Vec<Pixel> = vec![grey(1), grey(2), grey(3), grey(4), grey(5)];
    assert!(Image::from_pixels(3, 2, pixels.clone()).is_none());
    assert!(Image::from_pixels(5, 0, pixels.clone()).is_none());
    assert!(Image::from_pixels(usize::MAX, 2, pixels).is_none());
}

#[test]
fn from_pixels_accepts_an_empty_grid() {
    let image = Image::from_pixels(0, 7, Vec::new()).unwrap();
    assert_eq!(image.width(), 0);
    assert_eq!(image.height(), 7);
    assert!(image.pixels().is_empty());
}

#[test]
fn empty_image_has_no_pixel() {
    let image = Image::empty();
    assert_eq!(image.width(), 0);
    assert_eq!(image.height(), 0);
    assert!(image.pixels().is_empty());
}

#[test]
fn filled_sets_every_pixel() {
    let fill = Pixel { r: 9, g: 8, b: 7 };
    let image = Image::filled(4, 3, fill).unwrap();
    assert_eq!(image.width(), 4);
    assert_eq!(image.height(), 3);
    assert_eq!(image.pixels(), &vec![fill; 12]);
}

#[test]
fn filled_refuses_a_grid_too_large_to_count() {
    assert!(Image::filled(usize::MAX, 2, grey(0)).is_none());
}

#[test]
fn get_pixel_reads_row_major() {
    let pixels: Vec<Pixel> = vec![grey(1), grey(2), grey(3), grey(4), grey(5), grey(6)];
    let image = Image::from_pixels(3, 2, pixels).unwrap();
    assert_eq!(image.get_pixel(0, 0), grey(1));
    assert_eq!(image.get_pixel(2, 0), grey(3));
    assert_eq!(image.get_pixel(0, 1), grey(4));
    assert_eq!(image.get_pixel(2, 1), grey(6));
}

#[test]
fn put_pixel_changes_one_cell() {
    let pixels: Vec<Pixel> = vec![grey(1), grey(2), grey(3), grey(4), grey(5), grey(6)];
    let mut image = Image::from_pixels(3, 2, pixels).unwrap();
    image.put_pixel(1, 1, grey(50));
    assert_eq!(
        image.pixels(),
        &vec![grey(1), grey(2), grey(3), grey(4), grey(50), grey(6)]
    );
    assert_eq!(image.width(), 3);
    assert_eq!(image.height(), 2);
}

#[test]
fn clone_is_pixel_identical() {
    let pixels: Vec<Pixel> = vec![grey(1), grey(2), grey(3), grey(4), grey(5), grey(6)];
    let image = Image::from_pixels(2, 3, pixels).unwrap();
    let copy = image.clone();
    assert_eq!(copy, image);
}

#[test]
fn into_pixels_gives_the_buffer_back() {
    let pixels: Vec<Pixel> = vec![grey(1), grey(2), grey(3), grey(4)];
    let image = Image::from_pixels(2, 2, pixels.clone()).unwrap();
    assert_eq!(image.into_pixels(), pixels);
}
