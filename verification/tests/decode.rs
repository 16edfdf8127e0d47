use arnold_decoder::decode::arnold_decode;
use arnold_decoder::image::{Image, Pixel};
use arnold_decoder::transform::transform_once;

fn textured(n: usize) -> Image {
    let mut pixels: Vec<Pixel> = Vec::new();
    for i in 0..n * n {
        pixels.push(Pixel { r: (i * 37 % 251) as u8, g: (i * 11 % 17) as u8, b: (i % 3) as u8 });
    }
    Image::from_pixels(n, n, pixels).unwrap()
}

fn sorted_pixels(image: &Image) -> Vec<(u8, u8, u8)> {
    let mut all: Vec<(u8, u8, u8)> = image.pixels().iter().map(|p| (p.r, p.g, p.b)).collect();
    all.sort();
    all
}

fn histogram(image: &Image) -> Vec<usize> {
    let mut counts: Vec<usize> = vec![0; 3 * 256];
    for p in image.pixels() {
        counts[p.r as usize] += 1;
        counts[256 + p.g as usize] += 1;
        counts[512 + p.b as usize] += 1;
    }
    counts
}

#[test]
fn zero_passes_copy_the_image() {
    let image = textured(5);
    for (a, b) in [(0i64, 0i64), (1, 1), (-4, 9), (i64::MAX, i64::MIN)] {
        assert_eq!(arnold_decode(&image, 0, a, b), image);
    }
}

#[test]
fn zero_passes_copy_a_rectangle_too() {
    let pixels: Vec<Pixel> = vec![Pixel { r: 1, g: 2, b: 3 }; 6];
    let image = Image::from_pixels(3, 2, pixels).unwrap();
    assert_eq!(arnold_decode(&image, 0, 1, 1), image);
}

#[test]
fn one_pass_of_decode_is_one_transform() {
    let image = textured(6);
    assert_eq!(arnold_decode(&image, 1, 2, 3), transform_once(&image, 2, 3));
}

#[test]
fn one_pass_then_k_more_is_k_plus_one_passes() {
    let image = textured(5);
    for k in 0u32..6 {
        let mut stepwise = transform_once(&image, 2, -3);
        for _ in 0..k {
            stepwise = transform_once(&stepwise, 2, -3);
        }
        assert_eq!(stepwise, arnold_decode(&image, k + 1, 2, -3));
    }
}

#[test]
fn decoding_in_two_stages_is_decoding_at_once() {
    let image = textured(7);
    let first = arnold_decode(&image, 2, 1, 4);
    assert_eq!(arnold_decode(&first, 3, 1, 4), arnold_decode(&image, 5, 1, 4));
}

#[test]
fn decode_keeps_the_pixel_multiset() {
    let image = textured(6);
    for k in 0u32..5 {
        for a in -2i64..3 {
            for b in -2i64..3 {
                let out = arnold_decode(&image, k, a, b);
                assert_eq!(sorted_pixels(&out), sorted_pixels(&image));
                assert_eq!(histogram(&out), histogram(&image));
                assert_eq!(out.width(), 6);
                assert_eq!(out.height(), 6);
            }
        }
    }
}

#[test]
fn classic_map_returns_after_its_period() {
    // the matrix [[1, 1], [1, 2]] has order 3 modulo 4
    let image = textured(4);
    assert_ne!(arnold_decode(&image, 1, 1, 1), image);
    assert_ne!(arnold_decode(&image, 2, 1, 1), image);
    assert_eq!(arnold_decode(&image, 3, 1, 1), image);
}

#[test]
fn odd_and_even_pass_counts_return_the_right_buffer() {
    let image = textured(5);
    let two = transform_once(&transform_once(&image, 1, 2), 1, 2);
    let three = transform_once(&two, 1, 2);
    assert_eq!(arnold_decode(&image, 2, 1, 2), two);
    assert_eq!(arnold_decode(&image, 3, 1, 2), three);
}
