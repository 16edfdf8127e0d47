//! The iterated decoder: `k` inverse passes over two alternating buffers.

use vstd::prelude::*;
use crate::catmap::{decoded, lemma_pass_keeps_pixels, transform_eligible, transformed};
use crate::image::{Image, ImageView, Pixel};
use crate::transform::apply_transform_to_buffer;

verus! {

/// Undoes `shuffle_times` applications of the cat map with coefficients `a`
/// and `b`.
///
/// With `shuffle_times == 0` the result is a copy of `image`. Otherwise two
/// buffers are allocated once and swap the roles of source and destination
/// after every pass, and the buffer that holds the last pass is returned.
pub fn arnold_decode(image: &Image, shuffle_times: u32, a: i64, b: i64) -> (candidate: Image)
    requires
        shuffle_times > 0 ==> transform_eligible(image@),
    ensures
        candidate@ == decoded(image@, shuffle_times as nat, a as int, b as int),
        shuffle_times == 0 ==> candidate@ == image@,
        candidate@.width == image@.width,
        candidate@.height == image@.height,
        candidate@.pixels.to_multiset() == image@.pixels.to_multiset(),
{
    if shuffle_times == 0 {
        return image.clone();
    }
    let n: usize = image.width();
    let count: usize = image.pixels().len();
    let mut current: Vec<Pixel> = image.pixels().clone();
    let mut next: Vec<Pixel> = vec![Pixel { r: 0, g: 0, b: 0 }; count];
    assert(current@ =~= image@.pixels);
    let mut pass: u32 = 0;
    while pass < shuffle_times
        invariant
            n > 0,
            n == image@.width,
            transform_eligible(image@),
            current@.len() == n * n,
            next@.len() == n * n,
            pass <= shuffle_times,
            decoded(image@, pass as nat, a as int, b as int) == (ImageView {
                width: n as nat,
                height: n as nat,
                pixels: current@,
            }),
        decreases shuffle_times - pass,
    {
        apply_transform_to_buffer(current.as_slice(), next.as_mut_slice(), n, a, b);
        core::mem::swap(&mut current, &mut next);
        pass += 1;
    }
    proof {
        lemma_decode_keeps_pixels(image@, shuffle_times as nat, a as int, b as int);
    }
    match Image::from_pixels(n, n, current) {
        Some(candidate) => candidate,
        None => Image::empty(),
    }
}

/// Decoding with no pass at all gives the image back, whatever the
/// coefficients.
pub proof fn lemma_decode_zero_is_identity(v: ImageView, a: int, b: int)
    ensures
        decoded(v, 0, a, b) == v,
{
}

/// One pass followed by `k` more is decoding with `k + 1` passes.
pub proof fn lemma_decode_after_one_pass(v: ImageView, k: nat, a: int, b: int)
    ensures
        decoded(transformed(v, a, b), k, a, b) == decoded(v, k + 1, a, b),
    decreases k,
{
    if k == 0 {
        assert(decoded(v, 1, a, b) == transformed(decoded(v, 0, a, b), a, b));
    } else {
        lemma_decode_after_one_pass(v, (k - 1) as nat, a, b);
        assert(decoded(v, k + 1, a, b) == transformed(decoded(v, k, a, b), a, b));
    }
}

/// Decoding `j` passes and then `k` more is decoding `j + k` passes.
pub proof fn lemma_decode_composes(v: ImageView, j: nat, k: nat, a: int, b: int)
    ensures
        decoded(decoded(v, j, a, b), k, a, b) == decoded(v, j + k, a, b),
    decreases k,
{
    if k > 0 {
        lemma_decode_composes(v, j, (k - 1) as nat, a, b);
        assert(decoded(v, j + k, a, b) == transformed(
            decoded(v, (j + k - 1) as nat, a, b),
            a,
            b,
        ));
    }
}

/// Decoding permutes pixel positions and never alters pixel values: for
/// every number of passes and all coefficients the result holds each pixel
/// value exactly as often as the original, in a grid of the same side.
pub proof fn lemma_decode_keeps_pixels(v: ImageView, k: nat, a: int, b: int)
    requires
        transform_eligible(v),
    ensures
        decoded(v, k, a, b).pixels.to_multiset() == v.pixels.to_multiset(),
        transform_eligible(decoded(v, k, a, b)),
        decoded(v, k, a, b).width == v.width,
    decreases k,
{
    if k > 0 {
        lemma_decode_keeps_pixels(v, (k - 1) as nat, a, b);
        lemma_pass_keeps_pixels(decoded(v, (k - 1) as nat, a, b), a, b);
    }
}

} // verus!
