use arnold_decoder::decode::arnold_decode;
use arnold_decoder::image::{Image, Pixel};
use arnold_decoder::params::{search_space, ParameterRange, TransformParams};
use arnold_decoder::rank::analyze_results;
use arnold_decoder::score::{calculate_smoothness_score, Smoothness};
use arnold_decoder::sweep::{candidate_name, decode_candidate, source_side, Candidate, SweepError};

fn range(start: i64, end: i64) -> ParameterRange {
    ParameterRange { start, end }
}

fn gradient(n: usize) -> Image {
    let mut pixels: Vec<Pixel> = Vec::new();
    for row in 0..n {
        for col in 0..n {
            pixels.push(Pixel {
                r: (16 * row + 4 * col) as u8,
                g: (8 * row) as u8,
                b: (200 - 10 * col) as u8,
            });
        }
    }
    Image::from_pixels(n, n, pixels).unwrap()
}

/// The forward cat map: the pixel at `(row, col)` moves to row
/// `(row + b col) mod n`, column `(a row + (a b + 1) col) mod n`.
fn scramble(image: &Image, a: i64, b: i64) -> Image {
    let n: i64 = image.width() as i64;
    let mut out = image.clone();
    for row in 0..n {
        for col in 0..n {
            let to_row: i64 = (row + b * col).rem_euclid(n);
            let to_col: i64 = (a * row + (a * b + 1) * col).rem_euclid(n);
            out.put_pixel(
                to_col as usize,
                to_row as usize,
                image.get_pixel(col as usize, row as usize),
            );
        }
    }
    out
}

fn sweep(image: &Image, k: ParameterRange, a: ParameterRange, b: ParameterRange) -> Vec<Candidate> {
    search_space(k, a, b)
        .unwrap()
        .iter()
        .map(|params| decode_candidate(image, params))
        .collect()
}

#[test]
fn candidate_is_named_by_its_triple() {
    let params = TransformParams { shuffle_times: 2, a: 5, b: 5 };
    assert_eq!(candidate_name(&params), "2_5_5.png");
}

#[test]
fn candidate_name_writes_signs_and_all_digits() {
    let params = TransformParams { shuffle_times: 0, a: -3, b: 1070 };
    assert_eq!(candidate_name(&params), "0_-3_1070.png");
    let extreme = TransformParams { shuffle_times: u32::MAX, a: i64::MIN, b: i64::MAX };
    assert_eq!(
        candidate_name(&extreme),
        "4294967295_-9223372036854775808_9223372036854775807.png"
    );
}

#[test]
fn candidate_names_match_the_standard_formatting() {
    for k in [0u32, 9, 10, 99, 100, 12345] {
        for a in [-101i64, -10, -9, -1, 0, 1, 9, 10, 11, 100] {
            let params = TransformParams { shuffle_times: k, a, b: -a };
            assert_eq!(candidate_name(&params), format!("{}_{}_{}.png", k, a, -a));
        }
    }
}

#[test]
fn square_source_is_accepted() {
    assert_eq!(source_side(&gradient(4)), Ok(4));
    assert_eq!(source_side(&Image::empty()), Ok(0));
}

#[test]
fn rectangular_source_is_refused_with_its_dimensions() {
    let image = Image::filled(3, 2, Pixel { r: 0, g: 0, b: 0 }).unwrap();
    assert_eq!(source_side(&image), Err(SweepError::NotSquare { width: 3, height: 2 }));
}

#[test]
fn decoded_candidate_carries_name_and_image() {
    let image = gradient(5);
    let params = TransformParams { shuffle_times: 3, a: 1, b: -2 };
    let candidate = decode_candidate(&image, &params);
    assert_eq!(candidate.name, "3_1_-2.png");
    assert_eq!(candidate.image, arnold_decode(&image, 3, 1, -2));
}

#[test]
fn scrambling_is_undone_by_one_pass() {
    let image = gradient(5);
    let scrambled = scramble(&image, 2, 3);
    assert_ne!(scrambled, image);
    assert_eq!(arnold_decode(&scrambled, 1, 2, 3), image);
}

#[test]
fn single_values_produce_one_named_candidate() {
    let image = gradient(4);
    let candidates = sweep(&image, range(2, 2), range(5, 5), range(5, 5));
    assert_eq!(candidates.len(), 1);
    assert_eq!(candidates[0].name, "2_5_5.png");
    assert_eq!(candidates[0].image, arnold_decode(&image, 2, 5, 5));
}

#[test]
fn empty_search_space_produces_no_candidate() {
    let image = gradient(4);
    assert!(sweep(&image, range(3, 2), range(0, 2), range(0, 2)).is_empty());
    assert!(sweep(&image, range(0, 5), range(2, 0), range(0, 2)).is_empty());
    assert!(sweep(&image, range(0, 5), range(0, 2), range(0, -1)).is_empty());
    let none: Vec<Smoothness> = Vec::new();
    assert!(analyze_results(&none).is_empty());
}

#[test]
fn four_by_four_sweep_recovers_the_original() {
    let original = gradient(4);
    let mut scrambled = original.clone();
    for _ in 0..3 {
        scrambled = scramble(&scrambled, 1, 1);
    }
    let candidates = sweep(&scrambled, range(0, 5), range(0, 2), range(0, 2));
    assert_eq!(candidates.len(), 54);

    let mut names: Vec<String> = candidates.iter().map(|c| c.name.clone()).collect();
    names.sort();
    names.dedup();
    assert_eq!(names.len(), 54);

    let wanted = candidates.iter().find(|c| c.name == "3_1_1.png").unwrap();
    assert_eq!(wanted.image, original);

    // On a grid of side 4 the map with a = b = 1 has period 3, so the
    // scrambled image is the original again and more than one triple
    // decodes to it.
    assert_eq!(scrambled, original);
    let identical: usize = candidates.iter().filter(|c| c.image == original).count();
    assert_eq!(identical, 25);

    let scores: Vec<Smoothness> =
        candidates.iter().map(|c| calculate_smoothness_score(&c.image)).collect();
    let best = analyze_results(&scores);
    assert_eq!(best.len(), 5);
    assert_eq!(candidates[best[0]].image, original);
    assert_eq!(scores[best[0]], Smoothness { total: 342, samples: 9 });
    for score in &scores {
        assert!(!score.is_smoother_than(&scores[best[0]]));
    }
}

#[test]
fn five_by_five_sweep_recovers_exactly_the_original() {
    let original = gradient(5);
    let mut scrambled = original.clone();
    for _ in 0..3 {
        scrambled = scramble(&scrambled, 1, 1);
    }
    assert_ne!(scrambled, original);
    let candidates = sweep(&scrambled, range(0, 5), range(0, 2), range(0, 2));
    assert_eq!(candidates.len(), 54);

    let identical: Vec<&Candidate> = candidates.iter().filter(|c| c.image == original).collect();
    assert_eq!(identical.len(), 1);
    assert_eq!(identical[0].name, "3_1_1.png");

    let scores: Vec<Smoothness> =
        candidates.iter().map(|c| calculate_smoothness_score(&c.image)).collect();
    let best = analyze_results(&scores);
    let listed: Vec<&str> = best.iter().map(|i| candidates[*i].name.as_str()).collect();
    assert_eq!(listed, vec!["3_1_1.png", "1_1_0.png", "3_2_0.png", "5_2_2.png", "2_2_1.png"]);
    assert_eq!(scores[best[0]], Smoothness { total: 608, samples: 16 });
    for (i, score) in scores.iter().enumerate() {
        if i != best[0] {
            assert!(scores[best[0]].is_smoother_than(score));
        }
    }
}
