//! The smoothness heuristic: the mean absolute difference between a pixel
//! and its right and bottom neighbours, kept as an exact fraction.

use vstd::prelude::*;
use crate::image::{Image, ImageView, Pixel, lemma_cell_in_grid};

verus! {

/// Largest value that [`local_gradient`] can take: six channel differences
/// of at most 255 each.
pub const MAX_LOCAL_GRADIENT: u128 = 1530;

/// The smoothness of one image as an exact fraction.
///
/// `total` is the sum of absolute channel differences over every pixel that
/// has both a right and a bottom neighbour, and `samples` is the number of
/// those pixels. The mean local gradient is `total / (2 * samples)`: each
/// sample compares against two neighbours. An image that has no such pixel
/// has `samples == 0` and ranks behind every image that has one.
#[derive(Clone, Copy, Debug, PartialEq, Eq, Structural)]
pub struct Smoothness {
    pub total: u128,
    pub samples: u64,
}

/// The mathematical content of a [`Smoothness`]: a sum of differences and
/// the number of pixels it was summed over.
pub struct MeanGradient {
    pub total: nat,
    pub samples: nat,
}

impl MeanGradient {
    /// The score of an image too small to carry gradient information.
    pub open spec fn is_degenerate(self) -> bool {
        self.samples == 0
    }

    /// The number of neighbour comparisons that `total` was summed over.
    pub open spec fn comparisons(self) -> nat {
        2 * self.samples
    }

    /// `self` is strictly smoother than `other`: its mean is strictly
    /// smaller, a degenerate score counting as larger than any mean.
    pub open spec fn precedes(self, other: MeanGradient) -> bool {
        &&& !self.is_degenerate()
        &&& other.is_degenerate() || self.total * other.samples < other.total * self.samples
    }

    /// Neither score is strictly smoother than the other.
    pub open spec fn ties_with(self, other: MeanGradient) -> bool {
        !self.precedes(other) && !other.precedes(self)
    }
}

impl View for Smoothness {
    type V = MeanGradient;

    open spec fn view(&self) -> MeanGradient {
        MeanGradient { total: self.total as nat, samples: self.samples as nat }
    }
}

impl Smoothness {
    /// The worst score, given to images with a dimension below two.
    pub fn degenerate() -> (score: Smoothness)
        ensures
            score == (Smoothness { total: 0, samples: 0 }),
            score@.is_degenerate(),
    {
        Smoothness { total: 0, samples: 0 }
    }

    /// Whether the score is the one given to images with a dimension below
    /// two.
    pub fn is_degenerate(&self) -> (degenerate: bool)
        ensures
            degenerate == self@.is_degenerate(),
    {
        self.samples == 0
    }

    /// Whether `self` is strictly smoother than `other`.
    pub fn is_smoother_than(&self, other: &Smoothness) -> (smoother: bool)
        ensures
            smoother == self@.precedes(other@),
    {
        if self.samples == 0 {
            return false;
        }
        if other.samples == 0 {
            return true;
        }
        let sa: u128 = self.samples as u128;
        let sb: u128 = other.samples as u128;
        let qa: u128 = self.total / sa;
        let qb: u128 = other.total / sb;
        let ra: u128 = self.total % sa;
        let rb: u128 = other.total % sb;
        proof {
            lemma_fraction_order(
                self.total as int,
                sa as int,
                other.total as int,
                sb as int,
            );
            assert(ra * sb <= u128::MAX && rb * sa <= u128::MAX) by (nonlinear_arith)
                requires
                    0 <= ra < sa,
                    0 <= rb < sb,
                    sa <= 0xffff_ffff_ffff_ffff,
                    sb <= 0xffff_ffff_ffff_ffff,
                    u128::MAX == 0xffff_ffff_ffff_ffff_ffff_ffff_ffff_ffff,
            {
                assert(ra * sb <= sa * sb);
                assert(rb * sa <= sb * sa);
                assert(sa * sb <= 0xffff_ffff_ffff_ffff * 0xffff_ffff_ffff_ffff);
            }
        }
        if qa != qb {
            qa < qb
        } else {
            ra * sb < rb * sa
        }
    }
}

/// Two fractions with positive denominators compare as their integer parts
/// do, and by their remainders where the integer parts agree.
pub proof fn lemma_fraction_order(a: int, sa: int, b: int, sb: int)
    requires
        0 <= a,
        0 <= b,
        0 < sa,
        0 < sb,
    ensures
        a * sb < b * sa <==> (a / sa < b / sb || (a / sa == b / sb && (a % sa) * sb < (b % sb)
            * sa)),
{
    let qa = a / sa;
    let qb = b / sb;
    let ra = a % sa;
    let rb = b % sb;
    vstd::arithmetic::div_mod::lemma_fundamental_div_mod(a, sa);
    vstd::arithmetic::div_mod::lemma_fundamental_div_mod(b, sb);
    assert(0 <= ra < sa && 0 <= rb < sb);
    assert(a * sb == qa * (sa * sb) + ra * sb) by (nonlinear_arith)
        requires
            a == sa * qa + ra,
    ;
    assert(b * sa == qb * (sa * sb) + rb * sa) by (nonlinear_arith)
        requires
            b == sb * qb + rb,
    ;
    assert(0 <= ra * sb < sa * sb) by (nonlinear_arith)
        requires
            0 <= ra < sa,
            0 < sb,
    ;
    assert(0 <= rb * sa < sa * sb) by (nonlinear_arith)
        requires
            0 <= rb < sb,
            0 < sa,
    ;
    let m = sa * sb;
    assert(0 < m) by (nonlinear_arith)
        requires
            m == sa * sb,
            0 < sa,
            0 < sb,
    ;
    if qa < qb {
        assert(qa * m + m <= qb * m) by (nonlinear_arith)
            requires
                qa + 1 <= qb,
                0 < m,
        ;
    } else if qb < qa {
        assert(qb * m + m <= qa * m) by (nonlinear_arith)
            requires
                qb + 1 <= qa,
                0 < m,
        ;
    }
}

/// Absolute difference of two channel values.
pub open spec fn channel_distance(p: u8, q: u8) -> nat {
    if p >= q {
        (p - q) as nat
    } else {
        (q - p) as nat
    }
}

/// Sum of the absolute differences of the three channels of two pixels.
pub open spec fn pixel_distance(p: Pixel, q: Pixel) -> nat {
    channel_distance(p.r, q.r) + channel_distance(p.g, q.g) + channel_distance(p.b, q.b)
}

/// What the pixel at `(x, y)` adds to the score: its distance to the right
/// neighbour plus its distance to the bottom neighbour.
pub open spec fn local_gradient(v: ImageView, x: int, y: int) -> nat {
    pixel_distance(v.pixel(x, y), v.pixel(x + 1, y)) + pixel_distance(
        v.pixel(x, y),
        v.pixel(x, y + 1),
    )
}

/// Sum of [`local_gradient`] over the first `cols` pixels of row `y`.
pub open spec fn row_gradient(v: ImageView, y: int, cols: nat) -> nat
    decreases cols,
{
    if cols == 0 {
        0
    } else {
        row_gradient(v, y, (cols - 1) as nat) + local_gradient(v, cols - 1, y)
    }
}

/// Sum of [`row_gradient`], each over all but the last column, for the
/// first `rows` rows.
pub open spec fn gradient_total(v: ImageView, rows: nat) -> nat
    decreases rows,
{
    if rows == 0 {
        0
    } else {
        gradient_total(v, (rows - 1) as nat) + row_gradient(
            v,
            rows - 1,
            (v.width - 1) as nat,
        )
    }
}

/// The score of an image: degenerate below two rows or columns, else the
/// gradient summed over every pixel but those of the last row and column.
pub open spec fn smoothness(v: ImageView) -> MeanGradient {
    if v.width < 2 || v.height < 2 {
        MeanGradient { total: 0, samples: 0 }
    } else {
        MeanGradient {
            total: gradient_total(v, (v.height - 1) as nat),
            samples: ((v.height - 1) * (v.width - 1)) as nat,
        }
    }
}

fn channel_difference(p: u8, q: u8) -> (d: u8)
    ensures
        d == channel_distance(p, q),
{
    if p >= q {
        p - q
    } else {
        q - p
    }
}

fn pixel_difference(p: Pixel, q: Pixel) -> (d: u16)
    ensures
        d == pixel_distance(p, q),
        d <= 765,
{
    let dr: u16 = channel_difference(p.r, q.r) as u16;
    let dg: u16 = channel_difference(p.g, q.g) as u16;
    let db: u16 = channel_difference(p.b, q.b) as u16;
    dr + dg + db
}

/// Scores an image by its mean local gradient; lower is smoother.
///
/// Every pixel with both a right and a bottom neighbour contributes its
/// six absolute channel differences against those two neighbours.
pub fn calculate_smoothness_score(image: &Image) -> (score: Smoothness)
    ensures
        score@ == smoothness(image@),
        score@.is_degenerate() <==> image@.width < 2 || image@.height < 2,
        score.total <= MAX_LOCAL_GRADIENT * score.samples,
{
    let width: usize = image.width();
    let height: usize = image.height();
    if width < 2 || height < 2 {
        return Smoothness::degenerate();
    }
    let cols: usize = width - 1;
    let rows: usize = height - 1;
    proof {
        assert(0 < rows * cols <= width * height) by (nonlinear_arith)
            requires
                0 < cols < width,
                0 < rows < height,
        ;
    }
    let samples: usize = rows * cols;
    let mut total: u128 = 0;
    let mut y: usize = 0;
    while y < rows
        invariant
            image@.wf(),
            width == image@.width,
            height == image@.height,
            cols == width - 1,
            rows == height - 1,
            samples == rows * cols,
            0 < cols,
            y <= rows,
            total == gradient_total(image@, y as nat),
            total <= MAX_LOCAL_GRADIENT * (y * cols),
        decreases rows - y,
    {
        let ghost before: nat = total as nat;
        let mut x: usize = 0;
        while x < cols
            invariant
                image@.wf(),
                width == image@.width,
                height == image@.height,
                cols == width - 1,
                rows == height - 1,
                samples == rows * cols,
                y < rows,
                x <= cols,
                before == gradient_total(image@, y as nat),
                before <= MAX_LOCAL_GRADIENT * (y * cols),
                total == before + row_gradient(image@, y as int, x as nat),
                total <= MAX_LOCAL_GRADIENT * (y * cols + x),
            decreases cols - x,
        {
            let here: Pixel = image.get_pixel(x, y);
            let right: Pixel = image.get_pixel(x + 1, y);
            let below: Pixel = image.get_pixel(x, y + 1);
            let step: u16 = pixel_difference(here, right) + pixel_difference(here, below);
            proof {
                assert(y * cols + x < samples) by (nonlinear_arith)
                    requires
                        y < rows,
                        x < cols,
                        samples == rows * cols,
                {
                    assert((y + 1) * cols <= rows * cols);
                }
            }
            total = total + step as u128;
            x += 1;
        }
        proof {
            assert((y + 1) * cols == y * cols + cols) by (nonlinear_arith);
        }
        y += 1;
    }
    Smoothness { total, samples: samples as u64 }
}

/// An image of at least two rows and columns whose pixels are all the same
/// has a gradient total of zero, and so a mean of exactly zero.
pub proof fn lemma_uniform_image_is_perfectly_smooth(v: ImageView, colour: Pixel)
    requires
        v.wf(),
        v.width >= 2,
        v.height >= 2,
        forall|i: int| 0 <= i < v.pixels.len() ==> v.pixels[i] == colour,
    ensures
        smoothness(v).total == 0,
        smoothness(v).samples > 0,
        !smoothness(v).is_degenerate(),
{
    lemma_uniform_rows_add_nothing(v, colour, (v.height - 1) as nat);
    assert(0 < (v.height - 1) * (v.width - 1)) by (nonlinear_arith)
        requires
            v.width >= 2,
            v.height >= 2,
    ;
}

proof fn lemma_uniform_rows_add_nothing(v: ImageView, colour: Pixel, rows: nat)
    requires
        v.wf(),
        v.width >= 2,
        rows < v.height,
        forall|i: int| 0 <= i < v.pixels.len() ==> v.pixels[i] == colour,
    ensures
        gradient_total(v, rows) == 0,
    decreases rows,
{
    if rows > 0 {
        lemma_uniform_rows_add_nothing(v, colour, (rows - 1) as nat);
        lemma_uniform_row_adds_nothing(v, colour, rows - 1, (v.width - 1) as nat);
    }
}

proof fn lemma_uniform_row_adds_nothing(v: ImageView, colour: Pixel, y: int, cols: nat)
    requires
        v.wf(),
        0 <= y < v.height - 1,
        cols < v.width,
        forall|i: int| 0 <= i < v.pixels.len() ==> v.pixels[i] == colour,
    ensures
        row_gradient(v, y, cols) == 0,
    decreases cols,
{
    if cols > 0 {
        lemma_uniform_row_adds_nothing(v, colour, y, (cols - 1) as nat);
        let x = cols - 1;
        lemma_cell_in_grid(v.width as int, v.height as int, x, y);
        lemma_cell_in_grid(v.width as int, v.height as int, x + 1, y);
        lemma_cell_in_grid(v.width as int, v.height as int, x, y + 1);
        assert(v.pixel(x, y) == colour);
        assert(v.pixel(x + 1, y) == colour);
        assert(v.pixel(x, y + 1) == colour);
    }
}

/// Of three fractions with positive denominators, if the first is below
/// the second and the second is at most the third, the first is below the
/// third; likewise with the strict step second, and with no strict step.
proof fn lemma_fractions_chain(a: int, sa: int, b: int, sb: int, c: int, sc: int)
    requires
        0 < sa,
        0 < sb,
        0 < sc,
    ensures
        a * sb <= b * sa && b * sc <= c * sb ==> a * sc <= c * sa,
        a * sb < b * sa && b * sc <= c * sb ==> a * sc < c * sa,
        a * sb <= b * sa && b * sc < c * sb ==> a * sc < c * sa,
{
    let left = (a * sc) * sb;
    let mid = (b * sa) * sc;
    let right = (c * sa) * sb;
    assert(left == (a * sb) * sc) by (nonlinear_arith)
        requires
            left == (a * sc) * sb,
    ;
    assert(mid == (b * sc) * sa) by (nonlinear_arith)
        requires
            mid == (b * sa) * sc,
    ;
    assert(right == (c * sb) * sa) by (nonlinear_arith)
        requires
            right == (c * sa) * sb,
    ;
    assert(a * sb <= b * sa ==> (a * sb) * sc <= (b * sa) * sc) by (nonlinear_arith)
        requires
            0 < sc,
    ;
    assert(a * sb < b * sa ==> (a * sb) * sc < (b * sa) * sc) by (nonlinear_arith)
        requires
            0 < sc,
    ;
    assert(b * sc <= c * sb ==> (b * sc) * sa <= (c * sb) * sa) by (nonlinear_arith)
        requires
            0 < sa,
    ;
    assert(b * sc < c * sb ==> (b * sc) * sa < (c * sb) * sa) by (nonlinear_arith)
        requires
            0 < sa,
    ;
    assert((a * sc) * sb <= (c * sa) * sb ==> a * sc <= c * sa) by (nonlinear_arith)
        requires
            0 < sb,
    ;
    assert((a * sc) * sb < (c * sa) * sb ==> a * sc < c * sa) by (nonlinear_arith)
        requires
            0 < sb,
    ;
}

/// No score is strictly smoother than itself, and of two scores at most one
/// is strictly smoother than the other.
pub proof fn lemma_precedes_is_asymmetric(x: MeanGradient, y: MeanGradient)
    ensures
        !x.precedes(x),
        x.precedes(y) ==> !y.precedes(x),
{
}

/// Being strictly smoother carries over a chain: if `x` is strictly
/// smoother than `y`, and `z` is not strictly smoother than `y`, then `x`
/// is strictly smoother than `z`; and likewise when the strict step comes
/// second.
pub proof fn lemma_precedes_is_transitive(x: MeanGradient, y: MeanGradient, z: MeanGradient)
    ensures
        x.precedes(y) && !z.precedes(y) ==> x.precedes(z),
        !y.precedes(x) && y.precedes(z) ==> x.precedes(z),
        x.precedes(y) && y.precedes(z) ==> x.precedes(z),
{
    if !x.is_degenerate() && !y.is_degenerate() && !z.is_degenerate() {
        lemma_fractions_chain(
            x.total as int,
            x.samples as int,
            y.total as int,
            y.samples as int,
            z.total as int,
            z.samples as int,
        );
    }
}

/// Not being strictly worse carries over a chain: if `y` is not strictly
/// smoother than `x`, nor `z` than `y`, then `z` is not strictly smoother
/// than `x`.
pub proof fn lemma_ties_and_order_chain(x: MeanGradient, y: MeanGradient, z: MeanGradient)
    ensures
        !y.precedes(x) && !z.precedes(y) ==> !z.precedes(x),
{
    if !x.is_degenerate() && !y.is_degenerate() && !z.is_degenerate() {
        lemma_fractions_chain(
            x.total as int,
            x.samples as int,
            y.total as int,
            y.samples as int,
            z.total as int,
            z.samples as int,
        );
    }
}

} // verus!
