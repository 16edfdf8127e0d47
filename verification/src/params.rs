//! Parameter triples, inclusive parameter ranges and the search space that
//! three ranges span.

use vstd::prelude::*;
use vstd::arithmetic::div_mod::{
    lemma_div_denominator,
    lemma_fundamental_div_mod,
    lemma_fundamental_div_mod_converse,
};

verus! {

/// One point of the search space: how many passes to undo, and the two
/// coefficients of the map.
#[derive(Clone, Copy, Debug, PartialEq, Eq, Structural)]
pub struct TransformParams {
    pub shuffle_times: u32,
    pub a: i64,
    pub b: i64,
}

/// The integers from `start` to `end`, both included. A range whose
/// `start` lies above its `end` holds no value.
#[derive(Clone, Copy, Debug, PartialEq, Eq, Structural)]
pub struct ParameterRange {
    pub start: i64,
    pub end: i64,
}

impl ParameterRange {
    /// How many values the range holds.
    pub open spec fn count(self) -> nat {
        if self.start <= self.end {
            (self.end - self.start + 1) as nat
        } else {
            0
        }
    }

    /// The range that holds `value` and nothing else.
    pub fn single(value: i64) -> (range: ParameterRange)
        ensures
            range == (ParameterRange { start: value, end: value }),
            range.count() == 1,
    {
        ParameterRange { start: value, end: value }
    }

    /// The range from `start` to `end`; `None` when `start` lies above
    /// `end`.
    pub fn new(start: i64, end: i64) -> (range: Option<ParameterRange>)
        ensures
            range is Some <==> start <= end,
            range matches Some(r) ==> r == (ParameterRange { start, end }),
    {
        if start <= end {
            Some(ParameterRange { start, end })
        } else {
            None
        }
    }

    /// How many values the range holds.
    pub fn len(&self) -> (count: u128)
        ensures
            count == self.count(),
    {
        if self.start <= self.end {
            (self.end as i128 - self.start as i128 + 1) as u128
        } else {
            0
        }
    }

    /// Whether the range holds no value.
    pub fn is_empty(&self) -> (empty: bool)
        ensures
            empty <==> self.count() == 0,
    {
        self.start > self.end
    }
}

/// Every pass count of `k` can be carried out: it is neither negative nor
/// above `u32::MAX`.
pub open spec fn valid_pass_counts(k: ParameterRange) -> bool {
    k.count() > 0 ==> 0 <= k.start && k.end <= u32::MAX
}

/// The number of triples that the three ranges span.
pub open spec fn cube_size(k: ParameterRange, a: ParameterRange, b: ParameterRange) -> nat {
    k.count() * a.count() * b.count()
}

/// The offsets into the ranges of `k`, `a` and `b` that the `i`-th triple of
/// the search space is made of, `k` varying slowest and `b` fastest.
pub open spec fn offsets(a: ParameterRange, b: ParameterRange, i: int) -> (int, int, int) {
    let an = a.count() as int;
    let bn = b.count() as int;
    (i / (an * bn), (i / bn) % an, i % bn)
}

/// The `i`-th triple of the search space.
pub open spec fn triple_at(
    k: ParameterRange,
    a: ParameterRange,
    b: ParameterRange,
    i: int,
) -> TransformParams {
    let (ki, ai, bi) = offsets(a, b, i);
    TransformParams {
        shuffle_times: (k.start + ki) as u32,
        a: (a.start + ai) as i64,
        b: (b.start + bi) as i64,
    }
}

/// The Cartesian product of the three ranges, in the order of three nested
/// loops over `k`, then `a`, then `b`.
pub open spec fn cube(k: ParameterRange, a: ParameterRange, b: ParameterRange) -> Seq<
    TransformParams,
> {
    Seq::new(cube_size(k, a, b), |i: int| triple_at(k, a, b, i))
}

/// The triple with offsets `ki`, `ai` and `bi` into the three ranges stands
/// at index `(ki * a.count() + ai) * b.count() + bi` of the search space.
pub proof fn lemma_triple_position(
    k: ParameterRange,
    a: ParameterRange,
    b: ParameterRange,
    ki: int,
    ai: int,
    bi: int,
)
    requires
        0 <= ki < k.count(),
        0 <= ai < a.count(),
        0 <= bi < b.count(),
    ensures
        0 <= (ki * a.count() + ai) * b.count() + bi < cube_size(k, a, b),
        triple_at(k, a, b, (ki * a.count() + ai) * b.count() + bi) == (TransformParams {
            shuffle_times: (k.start + ki) as u32,
            a: (a.start + ai) as i64,
            b: (b.start + bi) as i64,
        }),
{
    let kn = k.count() as int;
    let an = a.count() as int;
    let bn = b.count() as int;
    let mid = ki * an + ai;
    let i = mid * bn + bi;
    let plane = an * bn;
    assert(0 <= mid < kn * an) by (nonlinear_arith)
        requires
            0 <= ki < kn,
            0 <= ai < an,
            mid == ki * an + ai,
    {
        assert((ki + 1) * an <= kn * an);
    }
    assert(0 <= i < (kn * an) * bn) by (nonlinear_arith)
        requires
            0 <= mid < kn * an,
            0 <= bi < bn,
            i == mid * bn + bi,
    {
        assert((mid + 1) * bn <= (kn * an) * bn);
    }
    lemma_fundamental_div_mod_converse(i, bn, mid, bi);
    lemma_fundamental_div_mod_converse(mid, an, ki, ai);
    let rest = ai * bn + bi;
    assert(0 <= rest < plane) by (nonlinear_arith)
        requires
            0 <= ai < an,
            0 <= bi < bn,
            rest == ai * bn + bi,
            plane == an * bn,
    {
        assert((ai + 1) * bn <= an * bn);
    }
    assert(i == ki * plane + rest) by (nonlinear_arith)
        requires
            i == (ki * an + ai) * bn + bi,
            plane == an * bn,
            rest == ai * bn + bi,
    ;
    lemma_fundamental_div_mod_converse(i, plane, ki, rest);
}

/// An index of the search space splits into one offset into each range.
pub proof fn lemma_index_offsets(k: ParameterRange, a: ParameterRange, b: ParameterRange, i: int)
    requires
        0 <= i < cube_size(k, a, b),
    ensures
        0 <= offsets(a, b, i).0 < k.count(),
        0 <= offsets(a, b, i).1 < a.count(),
        0 <= offsets(a, b, i).2 < b.count(),
        i == (offsets(a, b, i).0 * a.count() + offsets(a, b, i).1) * b.count() + offsets(
            a,
            b,
            i,
        ).2,
{
    let kn = k.count() as int;
    let an = a.count() as int;
    let bn = b.count() as int;
    assert(0 < kn && 0 < an && 0 < bn) by (nonlinear_arith)
        requires
            0 <= kn,
            0 <= an,
            0 <= bn,
            0 < kn * an * bn,
    ;
    let mid = i / bn;
    lemma_fundamental_div_mod(i, bn);
    lemma_fundamental_div_mod(mid, an);
    lemma_div_denominator(i, bn, an);
    assert(bn * an == an * bn) by (nonlinear_arith);
    assert(0 <= mid < kn * an) by (nonlinear_arith)
        requires
            0 <= i < kn * an * bn,
            i == bn * mid + i % bn,
            0 <= i % bn < bn,
            0 < bn,
    ;
    let ki = mid / an;
    assert(0 <= ki < kn) by (nonlinear_arith)
        requires
            0 <= mid < kn * an,
            mid == an * ki + mid % an,
            0 <= mid % an < an,
            0 < an,
    ;
    assert((ki * an + mid % an) * bn + i % bn == i) by (nonlinear_arith)
        requires
            mid == an * ki + mid % an,
            i == bn * mid + i % bn,
    ;
}

/// Every triple of the search space lies inside the three ranges.
pub proof fn lemma_triple_in_ranges(k: ParameterRange, a: ParameterRange, b: ParameterRange, i: int)
    requires
        valid_pass_counts(k),
        0 <= i < cube_size(k, a, b),
    ensures
        k.start <= triple_at(k, a, b, i).shuffle_times <= k.end,
        a.start <= triple_at(k, a, b, i).a <= a.end,
        b.start <= triple_at(k, a, b, i).b <= b.end,
{
    lemma_index_offsets(k, a, b, i);
}

/// No triple stands at two places of the search space: together with
/// [`lemma_triple_position`], every combination of the three ranges is
/// listed exactly once.
pub proof fn lemma_triples_are_distinct(
    k: ParameterRange,
    a: ParameterRange,
    b: ParameterRange,
    i: int,
    j: int,
)
    requires
        valid_pass_counts(k),
        0 <= i < cube_size(k, a, b),
        0 <= j < cube_size(k, a, b),
        triple_at(k, a, b, i) == triple_at(k, a, b, j),
    ensures
        i == j,
{
    lemma_index_offsets(k, a, b, i);
    lemma_index_offsets(k, a, b, j);
    assert(offsets(a, b, i) == offsets(a, b, j));
}

/// Every triple of the three ranges, `k` varying slowest and `b` fastest.
///
/// `None` when the search space cannot be held: a pass count of `k` is
/// negative or above `u32::MAX`, or there are more triples than `usize`
/// counts. A range that holds no value makes the search space empty.
pub fn search_space(k: ParameterRange, a: ParameterRange, b: ParameterRange) -> (space: Option<
    Vec<TransformParams>,
>)
    ensures
        space is Some <==> valid_pass_counts(k) && cube_size(k, a, b) <= usize::MAX,
        space matches Some(triples) ==> triples@ == cube(k, a, b),
{
    let k_len: u128 = k.len();
    let a_len: u128 = a.len();
    let b_len: u128 = b.len();
    if k_len > 0 && (k.start < 0 || k.end > u32::MAX as i64) {
        return None;
    }
    if k_len == 0 || a_len == 0 || b_len == 0 {
        proof {
            assert(cube_size(k, a, b) == 0) by (nonlinear_arith)
                requires
                    k.count() == 0 || a.count() == 0 || b.count() == 0,
                    cube_size(k, a, b) == k.count() * a.count() * b.count(),
            ;
        }
        let empty: Vec<TransformParams> = Vec::new();
        assert(empty@ =~= cube(k, a, b));
        return Some(empty);
    }
    let limit: u128 = usize::MAX as u128;
    proof {
        assert(k_len * a_len <= 0x1_0000_0000 * 0x1_0000_0000_0000_0000) by (nonlinear_arith)
            requires
                0 < k_len <= 0x1_0000_0000,
                0 < a_len <= 0x1_0000_0000_0000_0000,
        ;
    }
    let rows: u128 = k_len * a_len;
    if rows > limit {
        proof {
            assert(k_len * a_len * b_len >= k_len * a_len) by (nonlinear_arith)
                requires
                    0 < b_len,
                    0 <= k_len * a_len,
            ;
        }
        return None;
    }
    proof {
        assert(0 < rows) by (nonlinear_arith)
            requires
                0 < k_len,
                0 < a_len,
                rows == k_len * a_len,
        ;
        assert(rows * b_len <= 0xffff_ffff_ffff_ffff * 0x1_0000_0000_0000_0000)
            by (nonlinear_arith)
            requires
                0 < rows <= 0xffff_ffff_ffff_ffff,
                0 < b_len <= 0x1_0000_0000_0000_0000,
        ;
    }
    let total: u128 = rows * b_len;
    if total > limit {
        return None;
    }
    proof {
        assert(k_len <= rows && a_len <= rows && rows <= total && b_len <= total)
            by (nonlinear_arith)
            requires
                0 < k_len,
                0 < a_len,
                0 < b_len,
                rows == k_len * a_len,
                total == rows * b_len,
        ;
    }
    let k_count: usize = k_len as usize;
    let a_count: usize = a_len as usize;
    let b_count: usize = b_len as usize;
    let mut triples: Vec<TransformParams> = Vec::with_capacity(total as usize);
    let mut ki: usize = 0;
    assert((0 * a_count) * b_count == 0) by (nonlinear_arith);
    while ki < k_count
        invariant
            valid_pass_counts(k),
            k_count == k.count(),
            a_count == a.count(),
            b_count == b.count(),
            0 < a_count,
            0 < b_count,
            ki <= k_count,
            triples@.len() == (ki * a_count) * b_count,
            forall|i: int| 0 <= i < triples@.len() ==> triples@[i] == triple_at(k, a, b, i),
        decreases k_count - ki,
    {
        let shuffle_times: u32 = (k.start as i128 + ki as i128) as u32;
        let mut ai: usize = 0;
        while ai < a_count
            invariant
                valid_pass_counts(k),
                k_count == k.count(),
                a_count == a.count(),
                b_count == b.count(),
                0 < a_count,
                0 < b_count,
                ki < k_count,
                ai <= a_count,
                shuffle_times == k.start + ki,
                triples@.len() == (ki * a_count + ai) * b_count,
                forall|i: int| 0 <= i < triples@.len() ==> triples@[i] == triple_at(k, a, b, i),
            decreases a_count - ai,
        {
            let a_value: i64 = (a.start as i128 + ai as i128) as i64;
            let mut bi: usize = 0;
            while bi < b_count
                invariant
                    valid_pass_counts(k),
                    k_count == k.count(),
                    a_count == a.count(),
                    b_count == b.count(),
                    0 < a_count,
                    0 < b_count,
                    ki < k_count,
                    ai < a_count,
                    bi <= b_count,
                    shuffle_times == k.start + ki,
                    a_value == a.start + ai,
                    triples@.len() == (ki * a_count + ai) * b_count + bi,
                    forall|i: int|
                        0 <= i < triples@.len() ==> triples@[i] == triple_at(k, a, b, i),
                decreases b_count - bi,
            {
                let b_value: i64 = (b.start as i128 + bi as i128) as i64;
                proof {
                    lemma_triple_position(k, a, b, ki as int, ai as int, bi as int);
                }
                triples.push(TransformParams { shuffle_times, a: a_value, b: b_value });
                bi += 1;
            }
            proof {
                assert((ki * a_count + ai) * b_count + b_count == (ki * a_count + (ai + 1))
                    * b_count) by (nonlinear_arith);
            }
            ai += 1;
        }
        proof {
            assert(ki * a_count + a_count == (ki + 1) * a_count) by (nonlinear_arith);
        }
        ki += 1;
    }
    proof {
        assert(triples@.len() == cube_size(k, a, b));
        assert(triples@ =~= cube(k, a, b));
    }
    Some(triples)
}

} // verus!
