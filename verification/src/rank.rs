//! The result ranker: which candidates are the smoothest, best first.

use vstd::prelude::*;
use crate::score::{Smoothness, lemma_precedes_is_transitive, lemma_ties_and_order_chain};

verus! {

/// How many candidates the final report names.
pub const REPORTED_CANDIDATES: usize = 5;

/// Candidate `x` is listed before candidate `y`: it is strictly smoother,
/// or the two tie and `x` was scored first.
pub open spec fn comes_before(scores: Seq<Smoothness>, x: int, y: int) -> bool {
    scores[x]@.precedes(scores[y]@) || (!scores[y]@.precedes(scores[x]@) && x < y)
}

/// `order` lists the `limit` best of the first `count` scores, or all of
/// them if there are fewer: indices below `count`, each listed before the
/// next, and every index left out comes after every index listed.
pub open spec fn ranks_first(
    scores: Seq<Smoothness>,
    count: int,
    limit: nat,
    order: Seq<usize>,
) -> bool {
    &&& order.len() == if limit <= count {
        limit as int
    } else {
        count
    }
    &&& forall|i: int| 0 <= i < order.len() ==> 0 <= #[trigger] order[i] < count
    &&& forall|i: int, j: int|
        0 <= i < j < order.len() ==> comes_before(
            scores,
            #[trigger] order[i] as int,
            #[trigger] order[j] as int,
        )
    &&& forall|x: int, i: int|
        0 <= x < count && !order.contains(x as usize) && 0 <= i < order.len()
            ==> #[trigger] comes_before(scores, order[i] as int, x)
}

/// `order` lists the `limit` best of `scores`, best first.
pub open spec fn is_ranking(scores: Seq<Smoothness>, limit: nat, order: Seq<usize>) -> bool {
    ranks_first(scores, scores.len() as int, limit, order)
}

/// While fewer than `limit` candidates are listed, none has been left out.
spec fn lists_all_until_full(count: int, limit: nat, order: Seq<usize>) -> bool {
    order.len() < limit ==> forall|x: usize| x < count ==> #[trigger] order.contains(x)
}

/// `order` with `k` put at position `p`, cut back to `limit` entries.
spec fn with_candidate(order: Seq<usize>, p: int, k: usize, limit: nat) -> Seq<usize> {
    let grown = order.insert(p, k);
    if grown.len() > limit {
        grown.drop_last()
    } else {
        grown
    }
}

/// Where the scan from the back stops, every entry in front is at least as
/// smooth as the new candidate.
proof fn lemma_scan_stops_behind_ties(
    scores: Seq<Smoothness>,
    k: int,
    limit: nat,
    order: Seq<usize>,
    p: int,
)
    requires
        0 <= k < scores.len(),
        ranks_first(scores, k, limit, order),
        0 <= p <= order.len(),
        p > 0 ==> !scores[k]@.precedes(scores[order[p - 1] as int]@),
    ensures
        forall|i: int| 0 <= i < p ==> !scores[k]@.precedes(scores[#[trigger] order[i] as int]@),
{
    assert forall|i: int| 0 <= i < p implies !scores[k]@.precedes(
        scores[#[trigger] order[i] as int]@,
    ) by {
        let stop = order[p - 1] as int;
        if i < p - 1 {
            assert(comes_before(scores, order[i] as int, stop));
            lemma_ties_and_order_chain(scores[order[i] as int]@, scores[stop]@, scores[k]@);
        }
    }
}

/// Putting candidate `k` where the scan stopped keeps the list a ranking,
/// now of the first `k + 1` scores.
proof fn lemma_insert_keeps_ranking(
    scores: Seq<Smoothness>,
    k: usize,
    limit: nat,
    order: Seq<usize>,
    p: int,
)
    requires
        0 <= k < scores.len(),
        ranks_first(scores, k as int, limit, order),
        lists_all_until_full(k as int, limit, order),
        0 <= p <= order.len(),
        p < limit,
        forall|i: int|
            p <= i < order.len() ==> scores[k as int]@.precedes(
                scores[#[trigger] order[i] as int]@,
            ),
        forall|i: int|
            0 <= i < p ==> !scores[k as int]@.precedes(scores[#[trigger] order[i] as int]@),
    ensures
        ranks_first(scores, k + 1, limit, with_candidate(order, p, k, limit)),
        lists_all_until_full(k + 1, limit, with_candidate(order, p, k, limit)),
{
    let grown = order.insert(p, k);
    let after = with_candidate(order, p, k, limit);
    assert(grown[p] == k);
    assert forall|i: int| 0 <= i < grown.len() && i != p implies grown[i] == order[if i < p {
        i
    } else {
        i - 1
    }] by {}
    assert forall|i: int, j: int| 0 <= i < j < grown.len() implies comes_before(
        scores,
        #[trigger] grown[i] as int,
        #[trigger] grown[j] as int,
    ) by {
        if j < p {
            assert(comes_before(scores, order[i] as int, order[j] as int));
        } else if j == p {
            assert(grown[i] == order[i]);
        } else if i == p {
            assert(grown[j] == order[j - 1]);
        } else if i < p {
            assert(comes_before(scores, order[i] as int, order[j - 1] as int));
        } else {
            assert(comes_before(scores, order[i - 1] as int, order[j - 1] as int));
        }
    }
    assert forall|i: int| 0 <= i < after.len() implies after[i] == grown[i] by {}
    assert(after[p] == k);
    assert forall|x: int, i: int|
        0 <= x < k + 1 && !after.contains(x as usize) && 0 <= i
            < after.len() implies #[trigger] comes_before(scores, after[i] as int, x) by {
        assert(x != k);
        if order.contains(x as usize) {
            let at = choose|at: int| 0 <= at < order.len() && order[at] == x as usize;
            let moved = if at < p {
                at
            } else {
                at + 1
            };
            assert(grown[moved] == x as usize);
            if moved < after.len() {
                assert(after[moved] == x as usize);
            }
            assert(i < moved);
            assert(comes_before(scores, grown[i] as int, grown[moved] as int));
        } else {
            if i < p {
                assert(comes_before(scores, order[i] as int, x));
            } else if i > p {
                assert(comes_before(scores, order[i - 1] as int, x));
            } else {
                assert(p < order.len()) by {
                    if p == order.len() {
                        assert(order.len() < limit);
                    }
                }
                assert(comes_before(scores, order[p] as int, x));
                lemma_precedes_is_transitive(
                    scores[k as int]@,
                    scores[order[p] as int]@,
                    scores[x]@,
                );
            }
        }
    }
    if after.len() < limit {
        assert(after == grown);
        assert forall|x: usize| x < k + 1 implies #[trigger] after.contains(x) by {
            if x < k {
                assert(order.contains(x));
                let at = choose|at: int| 0 <= at < order.len() && order[at] == x;
                assert(grown[if at < p {
                    at
                } else {
                    at + 1
                }] == x);
            }
        }
    }
}

/// Leaving candidate `k` out of a full list, none of whose entries it
/// beats, keeps the list a ranking, now of the first `k + 1` scores.
proof fn lemma_skip_keeps_ranking(
    scores: Seq<Smoothness>,
    k: usize,
    limit: nat,
    order: Seq<usize>,
)
    requires
        0 <= k < scores.len(),
        ranks_first(scores, k as int, limit, order),
        order.len() >= limit,
        forall|i: int|
            0 <= i < order.len() ==> !scores[k as int]@.precedes(
                scores[#[trigger] order[i] as int]@,
            ),
    ensures
        ranks_first(scores, k + 1, limit, order),
        lists_all_until_full(k + 1, limit, order),
{
    assert forall|x: int, i: int|
        0 <= x < k + 1 && !order.contains(x as usize) && 0 <= i
            < order.len() implies #[trigger] comes_before(scores, order[i] as int, x) by {
        if x < k {
            assert(comes_before(scores, order[i] as int, x));
        }
    }
}

/// Of two different candidates exactly one comes before the other.
pub proof fn lemma_comes_before_is_total(scores: Seq<Smoothness>, x: int, y: int)
    ensures
        !comes_before(scores, x, x),
        x != y ==> (comes_before(scores, x, y) <==> !comes_before(scores, y, x)),
{
}

/// The scores and the limit decide the ranking: two lists that both rank
/// the same scores are the same list.
pub proof fn lemma_ranking_is_unique(
    scores: Seq<Smoothness>,
    limit: nat,
    first: Seq<usize>,
    second: Seq<usize>,
)
    requires
        is_ranking(scores, limit, first),
        is_ranking(scores, limit, second),
    ensures
        first == second,
{
    assert forall|m: int| 0 <= m < first.len() implies first[m] == second[m] by {
        lemma_rankings_agree_up_to(scores, limit, first, second, m);
    }
    assert(first =~= second);
}

proof fn lemma_rankings_agree_up_to(
    scores: Seq<Smoothness>,
    limit: nat,
    first: Seq<usize>,
    second: Seq<usize>,
    m: int,
)
    requires
        is_ranking(scores, limit, first),
        is_ranking(scores, limit, second),
        0 <= m < first.len(),
    ensures
        first[m] == second[m],
    decreases m,
{
    assert forall|j: int| 0 <= j < m implies first[j] == second[j] by {
        lemma_rankings_agree_up_to(scores, limit, first, second, j);
    }
    let x = first[m];
    let y = second[m];
    if x != y {
        lemma_listed_later_or_left_out(scores, limit, second, first, m);
        lemma_listed_later_or_left_out(scores, limit, first, second, m);
        lemma_comes_before_is_total(scores, x as int, y as int);
    }
}

/// If two rankings agree before position `m` and differ there, the entry
/// of `order` at `m` comes before the entry of `other` at `m`.
proof fn lemma_listed_later_or_left_out(
    scores: Seq<Smoothness>,
    limit: nat,
    order: Seq<usize>,
    other: Seq<usize>,
    m: int,
)
    requires
        is_ranking(scores, limit, order),
        is_ranking(scores, limit, other),
        0 <= m < order.len(),
        forall|j: int| 0 <= j < m ==> order[j] == other[j],
        order[m] != other[m],
    ensures
        comes_before(scores, order[m] as int, other[m] as int),
{
    let x = other[m];
    if order.contains(x) {
        let at = choose|at: int| 0 <= at < order.len() && order[at] == x;
        if at < m {
            assert(comes_before(scores, other[at] as int, other[m] as int));
        }
        assert(comes_before(scores, order[m] as int, order[at] as int));
    } else {
        assert(comes_before(scores, order[m] as int, x as int));
    }
}

/// The indices of the `limit` smoothest scores, smoothest first; scores
/// that tie keep the order in which they were given.
pub fn rank_candidates(scores: &[Smoothness], limit: usize) -> (order: Vec<usize>)
    ensures
        is_ranking(scores@, limit as nat, order@),
{
    let mut order: Vec<usize> = Vec::new();
    let mut k: usize = 0;
    while k < scores.len()
        invariant
            k <= scores@.len(),
            ranks_first(scores@, k as int, limit as nat, order@),
            lists_all_until_full(k as int, limit as nat, order@),
        decreases scores@.len() - k,
    {
        let ghost before = order@;
        let mut p: usize = order.len();
        while p > 0 && scores[k].is_smoother_than(&scores[order[p - 1]])
            invariant
                k < scores@.len(),
                p <= order@.len(),
                order@ == before,
                ranks_first(scores@, k as int, limit as nat, before),
                forall|i: int|
                    p <= i < order@.len() ==> scores@[k as int]@.precedes(
                        scores@[#[trigger] order@[i] as int]@,
                    ),
            decreases p,
        {
            p -= 1;
        }
        proof {
            lemma_scan_stops_behind_ties(scores@, k as int, limit as nat, before, p as int);
        }
        if p < limit {
            proof {
                lemma_insert_keeps_ranking(scores@, k, limit as nat, before, p as int);
            }
            order.insert(p, k);
            if order.len() > limit {
                order.pop();
            }
            assert(order@ =~= with_candidate(before, p as int, k, limit as nat));
        } else {
            proof {
                lemma_skip_keeps_ranking(scores@, k, limit as nat, before);
            }
        }
        k += 1;
    }
    order
}

/// The indices of the five smoothest candidates, smoothest first: what the
/// final report lists.
pub fn analyze_results(scores: &[Smoothness]) -> (order: Vec<usize>)
    ensures
        is_ranking(scores@, REPORTED_CANDIDATES as nat, order@),
{
    rank_candidates(scores, REPORTED_CANDIDATES)
}

} // verus!
