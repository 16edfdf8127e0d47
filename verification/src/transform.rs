//! The inverse transform engine: one pass of the inverse cat map from a
//! source buffer into a destination buffer, destination rows in parallel.

use vstd::prelude::*;
use vstd::arithmetic::div_mod::lemma_fundamental_div_mod_converse;
use rayon::iter::{IndexedParallelIterator, ParallelIterator};
use rayon::slice::ParallelSliceMut;
use crate::catmap::{
    lemma_index_splits,
    lemma_reduced_coefficients,
    permuted,
    permuted_row,
    source_col,
    source_index,
    source_row,
    transform_eligible,
    transformed,
};
use crate::image::{Image, Pixel, lemma_cell_in_grid};

verus! {

/// Two values below `n` have a product below `n * n`.
proof fn lemma_product_below_square(x: int, y: int, n: int)
    requires
        0 <= x < n,
        0 <= y < n,
    ensures
        0 <= x * y < n * n,
{
    assert(0 <= x * y < n * n) by (nonlinear_arith)
        requires
            0 <= x < n,
            0 <= y < n,
    ;
}

/// The remainder of `x` modulo `n`, never negative.
fn reduce(x: i64, n: usize) -> (r: usize)
    requires
        n > 0,
    ensures
        r == (x as int) % (n as int),
        r < n,
{
    let wide: i128 = x as i128;
    let modulus: i128 = n as i128;
    proof {
        vstd::arithmetic::div_mod::lemma_mod_bound(x as int, n as int);
    }
    match wide.checked_rem_euclid(modulus) {
        Some(r) => r as usize,
        None => 0,
    }
}

/// Fills destination row `row` of an `n` by `n` grid: the pixel at column
/// `col` comes from row `(row + b * col) mod n`, column
/// `(a * row + (a * b + 1) * col) mod n` of `src`.
pub fn fill_row(src: &[Pixel], n: usize, a: i64, b: i64, row: usize, out: &mut [Pixel])
    requires
        n > 0,
        src@.len() == n * n,
        row < n,
        old(out)@.len() == n,
    ensures
        final(out)@ == permuted_row(src@, n as int, a as int, b as int, row as int),
{
    let ar: u128 = reduce(a, n) as u128;
    let br: u128 = reduce(b, n) as u128;
    let modulus: u128 = n as u128;
    let wide_row: u128 = row as u128;
    proof {
        assert(src.len() == n * n);
        lemma_product_below_square(ar as int, br as int, n as int);
        lemma_product_below_square(ar as int, row as int, n as int);
    }
    let c: u128 = (ar * br + 1) % modulus;
    let from_row: u128 = ar * wide_row;
    let mut col: usize = 0;
    while col < n
        invariant
            n > 0,
            src@.len() == n * n,
            n * n <= usize::MAX,
            row < n,
            out@.len() == n,
            col <= n,
            modulus == n,
            wide_row == row,
            ar == (a as int) % (n as int),
            br == (b as int) % (n as int),
            c == (ar * br + 1) % (n as int),
            from_row == ar * row,
            from_row < n * n,
            forall|j: int|
                0 <= j < col ==> out@[j] == src@[source_index(
                    n as int,
                    a as int,
                    b as int,
                    row * n + j,
                )],
        decreases n - col,
    {
        let wide_col: u128 = col as u128;
        proof {
            lemma_product_below_square(br as int, col as int, n as int);
            lemma_product_below_square(c as int, col as int, n as int);
        }
        let old_row: usize = ((wide_row + br * wide_col) % modulus) as usize;
        let old_col: usize = ((from_row + c * wide_col) % modulus) as usize;
        proof {
            lemma_reduced_coefficients(n as int, a as int, b as int, row as int, col as int);
            lemma_fundamental_div_mod_converse(row * n + col, n as int, row as int, col as int);
            lemma_cell_in_grid(n as int, n as int, old_col as int, old_row as int);
            assert(old_row == source_row(n as int, b as int, row as int, col as int));
            assert(old_col == source_col(n as int, a as int, b as int, row as int, col as int));
            assert(old_row * n + old_col == source_index(
                n as int,
                a as int,
                b as int,
                row * n + col,
            ));
        }
        out[col] = src[old_row * n + old_col];
        col += 1;
    }
    assert(out@ =~= permuted_row(src@, n as int, a as int, b as int, row as int));
}

/// Runs [`fill_row`] on every row of `dst`, in parallel.
///
/// Calls rayon's `par_chunks_mut`, `enumerate` and `for_each`. Trusted of
/// them: `dst` is cut into consecutive chunks of `n` pixels, chunk number
/// `row` is handed to the closure together with `row`, once, and nothing
/// else writes to `dst`. So each chunk ends as `fill_row` leaves it. With
/// `dst` holding `n * n` pixels and `n > 0` there are `n` chunks of exactly
/// `n` pixels, which is what `fill_row` asks for.
#[verifier::external_body]
fn fill_rows(src: &[Pixel], dst: &mut [Pixel], n: usize, a: i64, b: i64)
    requires
        n > 0,
        src@.len() == n * n,
        old(dst)@.len() == n * n,
    ensures
        final(dst)@.len() == n * n,
        forall|row: int|
            0 <= row < n ==> final(dst)@.subrange(row * n, row * n + n) == #[trigger] permuted_row(
                src@,
                n as int,
                a as int,
                b as int,
                row,
            ),
{
    dst.par_chunks_mut(n).enumerate().for_each(|(row, out)| fill_row(src, n, a, b, row, out));
}

/// One inverse pass from `src` into `dst`, both holding an `n` by `n` grid
/// row by row. `src` is only read; every pixel of `dst` is overwritten.
pub fn apply_transform_to_buffer(src: &[Pixel], dst: &mut [Pixel], n: usize, a: i64, b: i64)
    requires
        n > 0,
        src@.len() == n * n,
        old(dst)@.len() == n * n,
    ensures
        final(dst)@ == permuted(src@, n as int, a as int, b as int),
{
    fill_rows(src, dst, n, a, b);
    assert forall|i: int| 0 <= i < n * n implies dst@[i] == src@[source_index(
        n as int,
        a as int,
        b as int,
        i,
    )] by {
        lemma_index_splits(n as int, i);
        let row = i / (n as int);
        let col = i % (n as int);
        lemma_cell_in_grid(n as int, n as int, col, row);
        assert(0 <= row * n && row * n + n <= n * n) by (nonlinear_arith)
            requires
                0 <= row < n,
        ;
        assert(dst@.subrange(row * n, row * n + n)[col] == dst@[row * n + col]);
        assert(permuted_row(src@, n as int, a as int, b as int, row)[col] == src@[source_index(
            n as int,
            a as int,
            b as int,
            row * n + col,
        )]);
    }
    assert(dst@ =~= permuted(src@, n as int, a as int, b as int));
}

/// The image that one inverse pass with coefficients `a` and `b` makes of
/// `src`: the pixel at `(row, col)` is the one that `src` holds at row
/// `(row + b * col) mod n` and column `(a * row + (a * b + 1) * col) mod n`.
pub fn transform_once(src: &Image, a: i64, b: i64) -> (dst: Image)
    requires
        transform_eligible(src@),
    ensures
        dst@ == transformed(src@, a as int, b as int),
        transform_eligible(dst@),
{
    let n: usize = src.width();
    let mut buffer: Vec<Pixel> = src.pixels().clone();
    apply_transform_to_buffer(src.pixels().as_slice(), buffer.as_mut_slice(), n, a, b);
    match Image::from_pixels(n, n, buffer) {
        Some(dst) => dst,
        None => Image::empty(),
    }
}

} // verus!
