use arnold_decoder::image::{Image, Pixel};
use arnold_decoder::score::{calculate_smoothness_score, Smoothness};

fn mean(score: &Smoothness) -> f64 {
    if score.samples == 0 {
        f64::MAX
    } else {
        score.total as f64 / (2 * score.samples) as f64
    }
}

fn image_of(width: usize, height: usize, values: &[(u8, u8, u8)]) -> Image {
    let pixels: Vec<Pixel> = values.iter().map(|v| Pixel { r: v.0, g: v.1, b: v.2 }).collect();
    Image::from_pixels(width, height, pixels).unwrap()
}

#[test]
fn uniform_image_scores_exactly_zero() {
    for side in 2usize..6 {
        let image = Image::filled(side, side, Pixel { r: 90, g: 14, b: 200 }).unwrap();
        let score = calculate_smoothness_score(&image);
        assert_eq!(score.total, 0);
        assert_eq!(score.samples as usize, (side - 1) * (side - 1));
        assert_eq!(mean(&score), 0.0);
    }
}

#[test]
fn single_pixel_image_scores_the_sentinel() {
    let image = Image::filled(1, 1, Pixel { r: 1, g: 2, b: 3 }).unwrap();
    let score = calculate_smoothness_score(&image);
    assert!(score.is_degenerate());
    assert_eq!(score, Smoothness::degenerate());
    assert_eq!(mean(&score), f64::MAX);
}

#[test]
fn image_without_pixels_scores_the_sentinel() {
    assert!(calculate_smoothness_score(&Image::empty()).is_degenerate());
    let flat = Image::from_pixels(0, 9, Vec::new()).unwrap();
    assert!(calculate_smoothness_score(&flat).is_degenerate());
}

#[test]
fn single_row_or_column_scores_the_sentinel() {
    let row = Image::filled(8, 1, Pixel { r: 1, g: 2, b: 3 }).unwrap();
    let column = Image::filled(1, 8, Pixel { r: 1, g: 2, b: 3 }).unwrap();
    assert!(calculate_smoothness_score(&row).is_degenerate());
    assert!(calculate_smoothness_score(&column).is_degenerate());
}

#[test]
fn two_by_two_image_has_one_sample() {
    // right neighbour: 3 + 2 + 0, bottom neighbour: 0 + 5 + 5
    let image = image_of(2, 2, &[(10, 20, 30), (13, 18, 30), (10, 25, 35), (0, 0, 0)]);
    let score = calculate_smoothness_score(&image);
    assert_eq!(score, Smoothness { total: 15, samples: 1 });
    assert_eq!(mean(&score), 7.5);
}

#[test]
fn last_row_and_column_only_serve_as_neighbours() {
    let image = image_of(
        3,
        2,
        &[(0, 0, 0), (1, 0, 0), (9, 9, 9), (0, 2, 0), (0, 0, 4), (7, 7, 7)],
    );
    // (0,0): right 1, bottom 2; (1,0): right 8 + 9 + 9, bottom 1 + 4
    let score = calculate_smoothness_score(&image);
    assert_eq!(score, Smoothness { total: 1 + 2 + 26 + 5, samples: 2 });
    assert_eq!(mean(&score), 8.5);
}

#[test]
fn strongest_contrast_reaches_the_bound() {
    let black = (0u8, 0u8, 0u8);
    let white = (255u8, 255u8, 255u8);
    let image = image_of(2, 2, &[black, white, white, black]);
    let score = calculate_smoothness_score(&image);
    assert_eq!(score, Smoothness { total: 1530, samples: 1 });
    assert_eq!(mean(&score), 765.0);
}

#[test]
fn scoring_twice_gives_the_same_score() {
    let image = image_of(
        3,
        3,
        &[
            (1, 2, 3),
            (40, 50, 60),
            (7, 8, 9),
            (100, 110, 120),
            (13, 14, 15),
            (160, 170, 180),
            (19, 20, 21),
            (220, 230, 240),
            (25, 26, 27),
        ],
    );
    let first = calculate_smoothness_score(&image);
    let second = calculate_smoothness_score(&image.clone());
    assert_eq!(first, second);
    assert_eq!(mean(&first).to_bits(), mean(&second).to_bits());
}

#[test]
fn smoother_means_a_strictly_smaller_mean() {
    let low = Smoothness { total: 10, samples: 4 };
    let high = Smoothness { total: 11, samples: 4 };
    assert!(low.is_smoother_than(&high));
    assert!(!high.is_smoother_than(&low));
    assert!(!low.is_smoother_than(&low));
}

#[test]
fn means_are_compared_across_sample_counts() {
    // 10 / 4 = 2.5 against 7 / 3 = 2.33..
    let a = Smoothness { total: 10, samples: 4 };
    let b = Smoothness { total: 7, samples: 3 };
    assert!(b.is_smoother_than(&a));
    assert!(!a.is_smoother_than(&b));
    // 6 / 4 = 3 / 2
    let c = Smoothness { total: 6, samples: 4 };
    let d = Smoothness { total: 3, samples: 2 };
    assert!(!c.is_smoother_than(&d));
    assert!(!d.is_smoother_than(&c));
}

#[test]
fn degenerate_score_is_behind_every_mean() {
    let worst = Smoothness::degenerate();
    let rough = Smoothness { total: 1530, samples: 1 };
    assert!(rough.is_smoother_than(&worst));
    assert!(!worst.is_smoother_than(&rough));
    assert!(!worst.is_smoother_than(&worst));
}

#[test]
fn comparison_does_not_overflow_on_huge_totals() {
    let a = Smoothness { total: u128::MAX, samples: u64::MAX };
    let b = Smoothness { total: u128::MAX - 1, samples: u64::MAX };
    assert!(b.is_smoother_than(&a));
    assert!(!a.is_smoother_than(&b));
    let c = Smoothness { total: u128::MAX, samples: u64::MAX - 1 };
    assert!(a.is_smoother_than(&c));
}
