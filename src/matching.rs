//! Matching pairs: the output shared by both comparison engines.
use vstd::prelude::*;

verus! {

/// A correspondence between an optional left index and an optional right
/// index: both present is a match, one present is a deletion or insertion.
pub type MatchingPair = (Option<usize>, Option<usize>);

/// The left indices named by `pairs`, in emission order.
pub open spec fn left_indices(pairs: Seq<MatchingPair>) -> Seq<usize>
    decreases pairs.len(),
{
    if pairs.len() == 0 {
        seq![]
    } else {
        let rest = left_indices(pairs.drop_last());
        match pairs.last().0 {
            Some(i) => rest.push(i),
            None => rest,
        }
    }
}

/// The right indices named by `pairs`, in emission order.
pub open spec fn right_indices(pairs: Seq<MatchingPair>) -> Seq<usize>
    decreases pairs.len(),
{
    if pairs.len() == 0 {
        seq![]
    } else {
        let rest = right_indices(pairs.drop_last());
        match pairs.last().1 {
            Some(j) => rest.push(j),
            None => rest,
        }
    }
}

/// Every index below `n` occurs in `idx` exactly once, and nothing else does.
pub open spec fn covers_once(idx: Seq<usize>, n: nat) -> bool {
    &&& idx.no_duplicates()
    &&& forall|k: int| 0 <= k < idx.len() ==> idx[k] < n
    &&& forall|i: usize| i < n ==> idx.contains(i)
}

/// The indices `from, from + 1, ..., to - 1`.
pub open spec fn index_range(from: int, to: int) -> Seq<usize> {
    Seq::new((to - from) as nat, |k: int| (from + k) as usize)
}

/// Both sides of a matched pair are present.
pub open spec fn is_matched(p: MatchingPair) -> bool {
    p.0 is Some && p.1 is Some
}

/// Matched pairs advance strictly on both sides in emission order.
pub open spec fn matches_increase(pairs: Seq<MatchingPair>) -> bool {
    forall|a: int, b: int|
        #![trigger pairs[a], pairs[b]]
        0 <= a < b < pairs.len() && is_matched(pairs[a]) && is_matched(pairs[b]) ==> {
            &&& pairs[a].0->0 < pairs[b].0->0
            &&& pairs[a].1->0 < pairs[b].1->0
        }
}

pub proof fn lemma_left_indices_append(a: Seq<MatchingPair>, b: Seq<MatchingPair>)
    ensures
        left_indices(a + b) == left_indices(a) + left_indices(b),
    decreases b.len(),
{
    if b.len() == 0 {
        assert(a + b =~= a);
        assert(left_indices(a) + left_indices(b) =~= left_indices(a));
    } else {
        lemma_left_indices_append(a, b.drop_last());
        assert((a + b).drop_last() =~= a + b.drop_last());
        match b.last().0 {
            Some(i) => {
                assert(left_indices(a) + left_indices(b.drop_last()).push(i) =~= (left_indices(a)
                    + left_indices(b.drop_last())).push(i));
            },
            None => {},
        }
    }
}

pub proof fn lemma_right_indices_append(a: Seq<MatchingPair>, b: Seq<MatchingPair>)
    ensures
        right_indices(a + b) == right_indices(a) + right_indices(b),
    decreases b.len(),
{
    if b.len() == 0 {
        assert(a + b =~= a);
        assert(right_indices(a) + right_indices(b) =~= right_indices(a));
    } else {
        lemma_right_indices_append(a, b.drop_last());
        assert((a + b).drop_last() =~= a + b.drop_last());
        match b.last().1 {
            Some(j) => {
                assert(right_indices(a) + right_indices(b.drop_last()).push(j) =~= (right_indices(a)
                    + right_indices(b.drop_last())).push(j));
            },
            None => {},
        }
    }
}

/// A left index present at position `k` occurs in `left_indices`.
pub proof fn lemma_left_member(pairs: Seq<MatchingPair>, k: int)
    requires
        0 <= k < pairs.len(),
        pairs[k].0 is Some,
    ensures
        left_indices(pairs).contains(pairs[k].0->0),
    decreases pairs.len(),
{
    let rest = pairs.drop_last();
    if k < pairs.len() - 1 {
        lemma_left_member(rest, k);
        let w = choose|q: int| 0 <= q < left_indices(rest).len() && left_indices(rest)[q] == pairs[k].0->0;
        assert(left_indices(pairs)[w] == pairs[k].0->0);
    } else {
        assert(left_indices(pairs).last() == pairs[k].0->0);
    }
}

pub proof fn lemma_right_member(pairs: Seq<MatchingPair>, k: int)
    requires
        0 <= k < pairs.len(),
        pairs[k].1 is Some,
    ensures
        right_indices(pairs).contains(pairs[k].1->0),
    decreases pairs.len(),
{
    let rest = pairs.drop_last();
    if k < pairs.len() - 1 {
        lemma_right_member(rest, k);
        let w = choose|q: int| 0 <= q < right_indices(rest).len() && right_indices(rest)[q] == pairs[k].1->0;
        assert(right_indices(pairs)[w] == pairs[k].1->0);
    } else {
        assert(right_indices(pairs).last() == pairs[k].1->0);
    }
}

/// An index range names each of its indices once.
pub proof fn lemma_range_covers(n: nat)
    requires
        n <= usize::MAX + 1,
    ensures
        covers_once(index_range(0, n as int), n),
{
    let r = index_range(0, n as int);
    assert forall|i: usize| i < n implies r.contains(i) by {
        assert(r[i as int] == i);
    }
}

} // verus!
