//! Re-indexing a sequence without repeating an index keeps its elements.

use vstd::prelude::*;

verus! {

/// `f` sends the indices below `len` to indices below `len`, no two of them
/// to the same one.
pub open spec fn injective_below(f: spec_fn(int) -> int, len: int) -> bool {
    &&& forall|i: int| 0 <= i < len ==> 0 <= #[trigger] f(i) < len
    &&& forall|i: int, j: int|
        0 <= i < len && 0 <= j < len && #[trigger] f(i) == #[trigger] f(j) ==> i == j
}

/// A sequence `t` that reads `s` through an injective re-indexing of its
/// positions holds every element exactly as often as `s` does.
pub proof fn lemma_reindexing_keeps_elements<T>(s: Seq<T>, t: Seq<T>, f: spec_fn(int) -> int)
    requires
        s.len() == t.len(),
        injective_below(f, t.len() as int),
        forall|i: int| 0 <= i < t.len() ==> t[i] == s[#[trigger] f(i)],
    ensures
        t.to_multiset() == s.to_multiset(),
    decreases t.len(),
{
    broadcast use vstd::seq_lib::group_to_multiset_ensures;

    if t.len() == 0 {
        assert(t =~= Seq::<T>::empty());
        assert(s =~= Seq::<T>::empty());
    } else {
        let last = t.len() - 1;
        let j = f(last);
        let t_rest = t.drop_last();
        let s_rest = s.remove(j);
        let g = |i: int|
            if f(i) < j {
                f(i)
            } else {
                f(i) - 1
            };
        assert forall|i: int| 0 <= i < t_rest.len() implies 0 <= #[trigger] g(i) < t_rest.len()
            && t_rest[i] == s_rest[g(i)] by {
            assert(0 <= f(i) < t.len());
            assert(f(i) != f(last));
            assert(t[i] == s[f(i)]);
        }
        assert forall|i: int, k: int|
            0 <= i < t_rest.len() && 0 <= k < t_rest.len() && #[trigger] g(i) == #[trigger] g(
                k,
            ) implies i == k by {
            assert(f(i) != f(last));
            assert(f(k) != f(last));
            assert(f(i) == f(k));
        }
        lemma_reindexing_keeps_elements(s_rest, t_rest, g);
        assert(t =~= t_rest.push(t[last]));
        assert(t.to_multiset() =~= t_rest.to_multiset().insert(t[last]));
        assert(s_rest.to_multiset() =~= s.to_multiset().remove(s[j]));
        assert(s.contains(s[j]));
        assert(s.to_multiset().count(s[j]) > 0);
        assert(s.to_multiset() =~= s.to_multiset().remove(s[j]).insert(s[j]));
    }
}

} // verus!
