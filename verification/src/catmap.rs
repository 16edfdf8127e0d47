//! The generalised Arnold cat map on an `n` by `n` grid, read backwards:
//! which source cell a destination cell takes its pixel from, and why that
//! assignment moves every pixel to exactly one place.

use vstd::prelude::*;
use vstd::arithmetic::div_mod::{
    lemma_fundamental_div_mod,
    lemma_fundamental_div_mod_converse,
    lemma_mod_multiples_vanish,
    lemma_small_mod,
};
use crate::image::{ImageView, Pixel, lemma_cell_in_grid};
use crate::permutation::{injective_below, lemma_reindexing_keeps_elements};

verus! {

/// Row of the cell whose pixel moves to `(row, col)`.
pub open spec fn source_row(n: int, b: int, row: int, col: int) -> int {
    (row + b * col) % n
}

/// Column of the cell whose pixel moves to `(row, col)`.
pub open spec fn source_col(n: int, a: int, b: int, row: int, col: int) -> int {
    (a * row + (a * b + 1) * col) % n
}

/// Row-major index of the cell whose pixel moves to the cell of row-major
/// index `i`.
pub open spec fn source_index(n: int, a: int, b: int, i: int) -> int {
    source_row(n, b, i / n, i % n) * n + source_col(n, a, b, i / n, i % n)
}

/// The pixels of an `n` by `n` grid after one inverse pass.
pub open spec fn permuted(pixels: Seq<Pixel>, n: int, a: int, b: int) -> Seq<Pixel> {
    Seq::new(pixels.len(), |i: int| pixels[source_index(n, a, b, i)])
}

/// One destination row of [`permuted`].
pub open spec fn permuted_row(pixels: Seq<Pixel>, n: int, a: int, b: int, row: int) -> Seq<
    Pixel,
> {
    Seq::new(n as nat, |col: int| pixels[source_index(n, a, b, row * n + col)])
}

/// An image that the transform accepts: square, with at least one pixel.
pub open spec fn transform_eligible(v: ImageView) -> bool {
    &&& v.wf()
    &&& v.is_square()
    &&& v.width > 0
}

/// The image after one inverse pass with coefficients `a` and `b`.
pub open spec fn transformed(v: ImageView, a: int, b: int) -> ImageView {
    ImageView {
        width: v.width,
        height: v.height,
        pixels: permuted(v.pixels, v.width as int, a, b),
    }
}

/// The image after `k` inverse passes with coefficients `a` and `b`.
pub open spec fn decoded(v: ImageView, k: nat, a: int, b: int) -> ImageView
    decreases k,
{
    if k == 0 {
        v
    } else {
        transformed(decoded(v, (k - 1) as nat, a, b), a, b)
    }
}

/// Adding a multiple of the modulus does not change a remainder.
pub proof fn lemma_congruent(x: int, y: int, q: int, n: int)
    requires
        0 < n,
        x == y + n * q,
    ensures
        x % n == y % n,
{
    lemma_mod_multiples_vanish(q, y, n);
}

/// The coefficients may be reduced modulo `n` before they are used, and so
/// may the factor `a * b + 1`.
pub proof fn lemma_reduced_coefficients(n: int, a: int, b: int, row: int, col: int)
    requires
        0 < n,
    ensures
        source_row(n, b, row, col) == (row + (b % n) * col) % n,
        source_col(n, a, b, row, col) == ((a % n) * row + (((a % n) * (b % n) + 1) % n) * col)
            % n,
{
    let ar = a % n;
    let br = b % n;
    let qa = a / n;
    let qb = b / n;
    lemma_fundamental_div_mod(a, n);
    lemma_fundamental_div_mod(b, n);
    let c = (ar * br + 1) % n;
    let qc = (ar * br + 1) / n;
    lemma_fundamental_div_mod(ar * br + 1, n);
    assert(row + b * col == (row + br * col) + n * (qb * col)) by (nonlinear_arith)
        requires
            b == n * qb + br,
    ;
    lemma_congruent(row + b * col, row + br * col, qb * col, n);
    let m = a * b + 1;
    let w = qa * b + ar * qb + qc;
    assert(a * b == n * (qa * b) + ar * b) by (nonlinear_arith)
        requires
            a == n * qa + ar,
    ;
    assert(ar * b == n * (ar * qb) + ar * br) by (nonlinear_arith)
        requires
            b == n * qb + br,
    ;
    assert(n * (qa * b) + n * (ar * qb) + n * qc == n * w) by (nonlinear_arith)
        requires
            w == qa * b + ar * qb + qc,
    ;
    assert(m * col == n * (w * col) + c * col) by (nonlinear_arith)
        requires
            m == n * w + c,
    ;
    assert(a * row == n * (qa * row) + ar * row) by (nonlinear_arith)
        requires
            a == n * qa + ar,
    ;
    assert(n * (qa * row) + n * (w * col) == n * (qa * row + w * col)) by (nonlinear_arith);
    lemma_congruent(a * row + m * col, ar * row + c * col, qa * row + w * col, n);
}

/// The map has an inverse: from the source cell of `(row, col)` the
/// destination is recovered by the matrix `[[a * b + 1, -b], [-a, 1]]`.
pub proof fn lemma_source_cell_determines_destination(
    n: int,
    a: int,
    b: int,
    row: int,
    col: int,
)
    requires
        0 < n,
        0 <= row < n,
        0 <= col < n,
    ensures
        0 <= source_row(n, b, row, col) < n,
        0 <= source_col(n, a, b, row, col) < n,
        ((a * b + 1) * source_row(n, b, row, col) - b * source_col(n, a, b, row, col)) % n
            == row,
        (source_col(n, a, b, row, col) - a * source_row(n, b, row, col)) % n == col,
{
    let x = row + b * col;
    let y = a * row + (a * b + 1) * col;
    let r = x % n;
    let c = y % n;
    let qx = x / n;
    let qy = y / n;
    lemma_fundamental_div_mod(x, n);
    lemma_fundamental_div_mod(y, n);
    let m = a * b + 1;
    assert(m * r == m * x - n * (m * qx)) by (nonlinear_arith)
        requires
            x == n * qx + r,
    ;
    assert(b * c == b * y - n * (b * qy)) by (nonlinear_arith)
        requires
            y == n * qy + c,
    ;
    assert(a * r == a * x - n * (a * qx)) by (nonlinear_arith)
        requires
            x == n * qx + r,
    ;
    assert(m * x == m * row + (b * m) * col) by (nonlinear_arith)
        requires
            x == row + b * col,
    ;
    assert(b * y == (a * b) * row + (b * m) * col) by (nonlinear_arith)
        requires
            y == a * row + m * col,
    ;
    assert(a * x == a * row + (a * b) * col) by (nonlinear_arith)
        requires
            x == row + b * col,
    ;
    assert(m * row == (a * b) * row + row) by (nonlinear_arith)
        requires
            m == a * b + 1,
    ;
    assert(m * col == (a * b) * col + col) by (nonlinear_arith)
        requires
            m == a * b + 1,
    ;
    assert(n * (b * qy - m * qx) == n * (b * qy) - n * (m * qx)) by (nonlinear_arith);
    assert(n * (a * qx - qy) == n * (a * qx) - n * qy) by (nonlinear_arith);
    lemma_congruent(m * r - b * c, row, b * qy - m * qx, n);
    lemma_congruent(c - a * r, col, a * qx - qy, n);
    lemma_small_mod(row as nat, n as nat);
    lemma_small_mod(col as nat, n as nat);
}

/// Every destination index takes its pixel from an index of the grid.
pub proof fn lemma_source_index_in_grid(n: int, a: int, b: int, i: int)
    requires
        0 < n,
        0 <= i < n * n,
    ensures
        0 <= source_index(n, a, b, i) < n * n,
{
    lemma_index_splits(n, i);
    lemma_source_cell_determines_destination(n, a, b, i / n, i % n);
    lemma_cell_in_grid(
        n,
        n,
        source_col(n, a, b, i / n, i % n),
        source_row(n, b, i / n, i % n),
    );
}

/// A row-major index below `n * n` splits into a row and a column below
/// `n`.
pub proof fn lemma_index_splits(n: int, i: int)
    requires
        0 < n,
        0 <= i < n * n,
    ensures
        0 <= i / n < n,
        0 <= i % n < n,
        i == (i / n) * n + i % n,
{
    lemma_fundamental_div_mod(i, n);
    let q = i / n;
    assert(0 <= q < n) by (nonlinear_arith)
        requires
            0 < n,
            0 <= i < n * n,
            i == n * q + i % n,
            0 <= i % n < n,
    ;
    assert(n * q == q * n) by (nonlinear_arith);
}

/// No two destination indices take their pixel from the same source.
pub proof fn lemma_source_index_injective(n: int, a: int, b: int, i: int, j: int)
    requires
        0 < n,
        0 <= i < n * n,
        0 <= j < n * n,
        source_index(n, a, b, i) == source_index(n, a, b, j),
    ensures
        i == j,
{
    lemma_index_splits(n, i);
    lemma_index_splits(n, j);
    let ri = source_row(n, b, i / n, i % n);
    let ci = source_col(n, a, b, i / n, i % n);
    let rj = source_row(n, b, j / n, j % n);
    let cj = source_col(n, a, b, j / n, j % n);
    lemma_source_cell_determines_destination(n, a, b, i / n, i % n);
    lemma_source_cell_determines_destination(n, a, b, j / n, j % n);
    let s = source_index(n, a, b, i);
    lemma_fundamental_div_mod_converse(s, n, ri, ci);
    lemma_fundamental_div_mod_converse(s, n, rj, cj);
    assert(ri == rj && ci == cj);
}

/// One pass moves pixels and never alters them: the image after the pass
/// holds every pixel value exactly as often as the image before it, and is
/// again square with the same side.
pub proof fn lemma_pass_keeps_pixels(v: ImageView, a: int, b: int)
    requires
        transform_eligible(v),
    ensures
        transformed(v, a, b).pixels.to_multiset() == v.pixels.to_multiset(),
        transform_eligible(transformed(v, a, b)),
        transformed(v, a, b).width == v.width,
{
    let n = v.width as int;
    let f = |i: int| source_index(n, a, b, i);
    let t = transformed(v, a, b).pixels;
    assert(injective_below(f, t.len() as int)) by {
        assert forall|i: int| 0 <= i < t.len() implies 0 <= #[trigger] f(i) < t.len() by {
            lemma_source_index_in_grid(n, a, b, i);
        }
        assert forall|i: int, j: int|
            0 <= i < t.len() && 0 <= j < t.len() && #[trigger] f(i) == #[trigger] f(
                j,
            ) implies i == j by {
            lemma_source_index_injective(n, a, b, i, j);
        }
    }
    lemma_reindexing_keeps_elements(v.pixels, t, f);
}

} // verus!
