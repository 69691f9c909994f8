//! Sequence diff: one longest chain of exact-match anchors between two
//! ordered lists, with the gaps between anchors filled by deletions and
//! insertions.
use vstd::prelude::*;
use crate::matching::{
    MatchingPair, left_indices, right_indices, index_range, covers_once, is_matched,
    matches_increase, lemma_left_indices_append, lemma_right_indices_append, lemma_left_member,
    lemma_right_member, lemma_range_covers,
};

verus! {

/// Row-major scan over the cells `(i, j)` with `j < w` and either `i < r`, or
/// `i == r` and `j < c`: the first cell holding the largest value, as
/// `(value, i, j)`; `(0, 0, 0)` when no cell holds a positive value.
pub open spec fn best_in(v: spec_fn(int, int) -> nat, w: nat, r: nat, c: nat) -> (nat, int, int)
    decreases r, c,
{
    if c == 0 {
        if r == 0 {
            (0, 0, 0)
        } else {
            best_in(v, w, (r - 1) as nat, w)
        }
    } else if c > w {
        best_in(v, w, r, w)
    } else {
        let prev = best_in(v, w, r, (c - 1) as nat);
        let x = v(r as int, c - 1);
        if x > prev.0 {
            (x, r as int, c - 1)
        } else {
            prev
        }
    }
}

/// Length of the longest chain of matches ending at `(i, j)` whose rows and
/// columns both increase strictly; 0 where `(i, j)` is no match.
pub open spec fn chain_len(eq: spec_fn(int, int) -> bool, i: nat, j: nat) -> nat
    decreases i + j, 1nat, 0nat, 0nat,
{
    if eq(i as int, j as int) {
        1 + chain_scan(eq, j, i, 0).0
    } else {
        0
    }
}

/// `best_in` over the chain lengths of `eq`.
pub open spec fn chain_scan(eq: spec_fn(int, int) -> bool, w: nat, r: nat, c: nat) -> (
    nat,
    int,
    int,
)
    decreases r + w, 0nat, r, c,
{
    if c == 0 {
        if r == 0 {
            (0, 0, 0)
        } else {
            chain_scan(eq, w, (r - 1) as nat, w)
        }
    } else if c > w {
        chain_scan(eq, w, r, w)
    } else {
        let prev = chain_scan(eq, w, r, (c - 1) as nat);
        let x = chain_len(eq, r, (c - 1) as nat);
        if x > prev.0 {
            (x, r as int, c - 1)
        } else {
            prev
        }
    }
}

/// The chain-length table of the match relation `eq`.
pub open spec fn chain_values(eq: spec_fn(int, int) -> bool) -> spec_fn(int, int) -> nat {
    |i: int, j: int| chain_len(eq, i as nat, j as nat)
}

/// Cells of the scan of `best_in(v, w, r, c)`.
pub open spec fn in_scan(w: nat, r: nat, c: nat, i: int, j: int) -> bool {
    0 <= j < w && 0 <= i && (i < r || (i == r && j < c))
}

pub proof fn lemma_best_in_bounds(v: spec_fn(int, int) -> nat, w: nat, r: nat, c: nat)
    ensures
        ({
            let b = best_in(v, w, r, c);
            b.0 > 0 ==> in_scan(w, r, c, b.1, b.2) && b.0 == v(b.1, b.2)
        }),
        forall|i: int, j: int| #![trigger v(i, j)] in_scan(w, r, c, i, j) ==> v(i, j) <= best_in(v, w, r, c).0,
    decreases r, c,
{
    if c == 0 {
        if r > 0 {
            lemma_best_in_bounds(v, w, (r - 1) as nat, w);
        }
    } else if c > w {
        lemma_best_in_bounds(v, w, r, w);
    } else {
        lemma_best_in_bounds(v, w, r, (c - 1) as nat);
    }
}

/// Scans of two tables that agree on the scanned cells agree.
pub proof fn lemma_best_in_agree(
    v1: spec_fn(int, int) -> nat,
    v2: spec_fn(int, int) -> nat,
    w: nat,
    r: nat,
    c: nat,
)
    requires
        forall|i: int, j: int| #![trigger v1(i, j)] #![trigger v2(i, j)] in_scan(w, r, c, i, j) ==> v1(i, j) == v2(i, j),
    ensures
        best_in(v1, w, r, c) == best_in(v2, w, r, c),
    decreases r, c,
{
    if c == 0 {
        if r > 0 {
            lemma_best_in_agree(v1, v2, w, (r - 1) as nat, w);
        }
    } else if c > w {
        lemma_best_in_agree(v1, v2, w, r, w);
    } else {
        lemma_best_in_agree(v1, v2, w, r, (c - 1) as nat);
    }
}

pub proof fn lemma_chain_scan(eq: spec_fn(int, int) -> bool, w: nat, r: nat, c: nat)
    ensures
        chain_scan(eq, w, r, c) == best_in(chain_values(eq), w, r, c),
    decreases r, c,
{
    if c == 0 {
        if r > 0 {
            lemma_chain_scan(eq, w, (r - 1) as nat, w);
        }
    } else if c > w {
        lemma_chain_scan(eq, w, r, w);
    } else {
        lemma_chain_scan(eq, w, r, (c - 1) as nat);
    }
}

/// The anchors recovered by the backward trace, in increasing order: the
/// best cell of the rectangle `[0, h) x [0, w)`, preceded by the anchors of
/// the rectangle that ends just before it.
pub open spec fn trace(v: spec_fn(int, int) -> nat, h: nat, w: nat) -> Seq<(usize, usize)>
    decreases h,
{
    let b = best_in(v, w, h, 0);
    if b.0 == 0 {
        seq![]
    } else {
        proof {
            lemma_best_in_bounds(v, w, h, 0);
        }
        trace(v, b.1 as nat, b.2 as nat).push((b.1 as usize, b.2 as usize))
    }
}

/// Anchors lie in `[0, h) x [0, w)` and increase strictly on both sides.
pub open spec fn anchors_ok(a: Seq<(usize, usize)>, h: nat, w: nat) -> bool {
    &&& forall|k: int| 0 <= k < a.len() ==> #[trigger] a[k].0 < h && a[k].1 < w
    &&& forall|k: int, l: int|
        #![trigger a[k], a[l]]
        0 <= k < l < a.len() ==> a[k].0 < a[l].0 && a[k].1 < a[l].1
}

pub proof fn lemma_trace_anchors(v: spec_fn(int, int) -> nat, h: nat, w: nat)
    requires
        h <= usize::MAX + 1,
        w <= usize::MAX + 1,
    ensures
        anchors_ok(trace(v, h, w), h, w),
        forall|k: int|
            0 <= k < trace(v, h, w).len() ==> v(
                #[trigger] trace(v, h, w)[k].0 as int,
                trace(v, h, w)[k].1 as int,
            ) > 0,
    decreases h,
{
    let b = best_in(v, w, h, 0);
    if b.0 > 0 {
        lemma_best_in_bounds(v, w, h, 0);
        lemma_trace_anchors(v, b.1 as nat, b.2 as nat);
        let t = trace(v, b.1 as nat, b.2 as nat);
        assert(trace(v, h, w) == t.push((b.1 as usize, b.2 as usize)));
    }
}

/// Where the gap fill resumes after the anchors `a`.
pub open spec fn cursor(a: Seq<(usize, usize)>) -> (int, int) {
    if a.len() == 0 {
        (0, 0)
    } else {
        (a.last().0 + 1, a.last().1 + 1)
    }
}

/// Deletions of the left indices `from .. to`.
pub open spec fn left_gap(from: int, to: int) -> Seq<MatchingPair> {
    Seq::new((to - from) as nat, |k: int| (Some((from + k) as usize), None::<usize>))
}

/// Insertions of the right indices `from .. to`.
pub open spec fn right_gap(from: int, to: int) -> Seq<MatchingPair> {
    Seq::new((to - from) as nat, |k: int| (None::<usize>, Some((from + k) as usize)))
}

/// The pairs up to the last anchor: before each anchor, the skipped left
/// indices, then the skipped right indices, then the anchor itself.
pub open spec fn fill_gaps(a: Seq<(usize, usize)>) -> Seq<MatchingPair>
    decreases a.len(),
{
    if a.len() == 0 {
        seq![]
    } else {
        let c = cursor(a.drop_last());
        let x = a.last();
        fill_gaps(a.drop_last()) + left_gap(c.0, x.0 as int) + right_gap(c.1, x.1 as int) + seq![
            (Some(x.0), Some(x.1)),
        ]
    }
}

/// The full gap fill of anchors over lists of lengths `n` and `m`.
pub open spec fn complete(a: Seq<(usize, usize)>, n: nat, m: nat) -> Seq<MatchingPair> {
    let c = cursor(a);
    fill_gaps(a) + left_gap(c.0, n as int) + right_gap(c.1, m as int)
}

/// What the sequence diff returns for lists of lengths `n` and `m` whose
/// element `i` on the left matches element `j` on the right iff `eq(i, j)`.
pub open spec fn diff_spec(eq: spec_fn(int, int) -> bool, n: nat, m: nat) -> Seq<MatchingPair> {
    complete(trace(chain_values(eq), n, m), n, m)
}

/// Each pair of the sequence diff that is a match is one of the anchors.
pub open spec fn pairs_are_anchors(pairs: Seq<MatchingPair>, a: Seq<(usize, usize)>) -> bool {
    forall|k: int|
        0 <= k < pairs.len() && is_matched(#[trigger] pairs[k]) ==> a.contains(
            (pairs[k].0->0, pairs[k].1->0),
        )
}

pub proof fn lemma_gap_indices(from: int, to: int)
    requires
        0 <= from <= to <= usize::MAX + 1,
    ensures
        left_indices(left_gap(from, to)) == index_range(from, to),
        right_indices(left_gap(from, to)) == Seq::<usize>::empty(),
        left_indices(right_gap(from, to)) == Seq::<usize>::empty(),
        right_indices(right_gap(from, to)) == index_range(from, to),
    decreases to - from,
{
    if from < to {
        lemma_gap_indices(from, to - 1);
        assert(left_gap(from, to).drop_last() =~= left_gap(from, to - 1));
        assert(right_gap(from, to).drop_last() =~= right_gap(from, to - 1));
        assert(index_range(from, to) =~= index_range(from, to - 1).push((to - 1) as usize));
    } else {
        assert(left_gap(from, to) =~= seq![]);
        assert(right_gap(from, to) =~= seq![]);
        assert(index_range(from, to) =~= seq![]);
    }
}

pub proof fn lemma_range_append(a: int, b: int, c: int)
    requires
        a <= b <= c,
    ensures
        index_range(a, b) + index_range(b, c) == index_range(a, c),
{
    assert(index_range(a, b) + index_range(b, c) =~= index_range(a, c));
}

pub proof fn lemma_fill_gaps(a: Seq<(usize, usize)>, n: nat, m: nat)
    requires
        anchors_ok(a, n, m),
        n <= usize::MAX + 1,
        m <= usize::MAX + 1,
    ensures
        left_indices(fill_gaps(a)) == index_range(0, cursor(a).0),
        right_indices(fill_gaps(a)) == index_range(0, cursor(a).1),
        pairs_are_anchors(fill_gaps(a), a),
    decreases a.len(),
{
    if a.len() > 0 {
        let rest = a.drop_last();
        let c = cursor(rest);
        let x = a.last();
        assert(anchors_ok(rest, n, m)) by {
            assert forall|k: int, l: int| 0 <= k < l < rest.len() implies rest[k].0 < rest[l].0
                && rest[k].1 < rest[l].1 by {
                assert(a[k] == rest[k] && a[l] == rest[l]);
            }
        }
        lemma_fill_gaps(rest, n, m);
        if rest.len() > 0 {
            assert(a[rest.len() - 1] == rest.last());
            assert(a[a.len() - 1] == x);
        }
        let lg = left_gap(c.0, x.0 as int);
        let rg = right_gap(c.1, x.1 as int);
        let one = seq![(Some(x.0), Some(x.1))];
        let f = fill_gaps(rest);
        lemma_gap_indices(c.0, x.0 as int);
        lemma_gap_indices(c.1, x.1 as int);
        lemma_left_indices_append(f, lg);
        lemma_left_indices_append(f + lg, rg);
        lemma_left_indices_append(f + lg + rg, one);
        lemma_right_indices_append(f, lg);
        lemma_right_indices_append(f + lg, rg);
        lemma_right_indices_append(f + lg + rg, one);
        assert(one.drop_last() =~= seq![]);
        assert(left_indices(one.drop_last()) =~= seq![]);
        assert(right_indices(one.drop_last()) =~= seq![]);
        assert(one.last() == (Some(x.0), Some(x.1)));
        assert(left_indices(one) =~= seq![x.0]);
        assert(right_indices(one) =~= seq![x.1]);
        lemma_range_append(0, c.0, x.0 as int);
        lemma_range_append(0, c.1, x.1 as int);
        assert(index_range(0, x.0 as int).push(x.0) =~= index_range(0, x.0 + 1));
        assert(index_range(0, x.1 as int).push(x.1) =~= index_range(0, x.1 + 1));
        assert(index_range(0, x.0 as int) + seq![x.0] =~= index_range(0, x.0 as int).push(x.0));
        assert(index_range(0, x.1 as int) + seq![x.1] =~= index_range(0, x.1 as int).push(x.1));
        let all = fill_gaps(a);
        assert forall|k: int| 0 <= k < all.len() && is_matched(#[trigger] all[k]) implies a.contains(
            (all[k].0->0, all[k].1->0),
        ) by {
            if k < f.len() {
                assert(all[k] == f[k]);
                let q = choose|q: int| 0 <= q < rest.len() && rest[q] == (f[k].0->0, f[k].1->0);
                assert(a[q] == rest[q]);
            } else if k < f.len() + lg.len() + rg.len() {
                if k < f.len() + lg.len() {
                    assert(all[k] == lg[k - f.len()]);
                } else {
                    assert(all[k] == rg[k - f.len() - lg.len()]);
                }
            } else {
                assert(all[k] == (Some(x.0), Some(x.1)));
                assert(a[a.len() - 1] == x);
            }
        }
    } else {
        assert(index_range(0, 0) =~= seq![]);
    }
}

/// Left indices that increase along `left_indices` increase along the pairs.
pub proof fn lemma_left_positions(pairs: Seq<MatchingPair>)
    requires
        forall|p: int, q: int|
            #![trigger left_indices(pairs)[p], left_indices(pairs)[q]]
            0 <= p < q < left_indices(pairs).len() ==> left_indices(pairs)[p] < left_indices(
                pairs,
            )[q],
    ensures
        forall|a: int, b: int|
            #![trigger pairs[a], pairs[b]]
            0 <= a < b < pairs.len() && pairs[a].0 is Some && pairs[b].0 is Some ==> pairs[a].0->0
                < pairs[b].0->0,
    decreases pairs.len(),
{
    if pairs.len() > 0 {
        let rest = pairs.drop_last();
        let li = left_indices(pairs);
        let lr = left_indices(rest);
        assert forall|p: int, q: int| 0 <= p < q < lr.len() implies lr[p] < lr[q] by {
            assert(li[p] == lr[p] && li[q] == lr[q]);
        }
        lemma_left_positions(rest);
        assert forall|a: int, b: int|
            0 <= a < b < pairs.len() && pairs[a].0 is Some && pairs[b].0 is Some implies pairs[a].0->0
                < pairs[b].0->0 by {
            assert(pairs[a] == rest[a] || a == pairs.len() - 1);
            if b < pairs.len() - 1 {
                assert(pairs[a] == rest[a] && pairs[b] == rest[b]);
            } else {
                assert(pairs[a] == rest[a]);
                lemma_left_member(rest, a);
                let q = choose|q: int| 0 <= q < lr.len() && lr[q] == rest[a].0->0;
                assert(li[q] == lr[q]);
                assert(li[lr.len() as int] == pairs[b].0->0);
            }
        }
    }
}

/// Right indices that increase along `right_indices` increase along the pairs.
pub proof fn lemma_right_positions(pairs: Seq<MatchingPair>)
    requires
        forall|p: int, q: int|
            #![trigger right_indices(pairs)[p], right_indices(pairs)[q]]
            0 <= p < q < right_indices(pairs).len() ==> right_indices(pairs)[p] < right_indices(
                pairs,
            )[q],
    ensures
        forall|a: int, b: int|
            #![trigger pairs[a], pairs[b]]
            0 <= a < b < pairs.len() && pairs[a].1 is Some && pairs[b].1 is Some ==> pairs[a].1->0
                < pairs[b].1->0,
    decreases pairs.len(),
{
    if pairs.len() > 0 {
        let rest = pairs.drop_last();
        let ri = right_indices(pairs);
        let rr = right_indices(rest);
        assert forall|p: int, q: int| 0 <= p < q < rr.len() implies rr[p] < rr[q] by {
            assert(ri[p] == rr[p] && ri[q] == rr[q]);
        }
        lemma_right_positions(rest);
        assert forall|a: int, b: int|
            0 <= a < b < pairs.len() && pairs[a].1 is Some && pairs[b].1 is Some implies pairs[a].1->0
                < pairs[b].1->0 by {
            if b < pairs.len() - 1 {
                assert(pairs[a] == rest[a] && pairs[b] == rest[b]);
            } else {
                assert(pairs[a] == rest[a]);
                lemma_right_member(rest, a);
                let q = choose|q: int| 0 <= q < rr.len() && rr[q] == rest[a].1->0;
                assert(ri[q] == rr[q]);
                assert(ri[rr.len() as int] == pairs[b].1->0);
            }
        }
    }
}

/// The gap fill of valid anchors names every index of both lists once, in
/// increasing order, and its matches are anchors.
pub proof fn lemma_complete(a: Seq<(usize, usize)>, n: nat, m: nat)
    requires
        anchors_ok(a, n, m),
        n <= usize::MAX + 1,
        m <= usize::MAX + 1,
    ensures
        left_indices(complete(a, n, m)) == index_range(0, n as int),
        right_indices(complete(a, n, m)) == index_range(0, m as int),
        covers_once(left_indices(complete(a, n, m)), n),
        covers_once(right_indices(complete(a, n, m)), m),
        matches_increase(complete(a, n, m)),
        pairs_are_anchors(complete(a, n, m), a),
{
    let c = cursor(a);
    if a.len() > 0 {
        assert(a[a.len() - 1] == a.last());
    }
    lemma_fill_gaps(a, n, m);
    let f = fill_gaps(a);
    let lg = left_gap(c.0, n as int);
    let rg = right_gap(c.1, m as int);
    lemma_gap_indices(c.0, n as int);
    lemma_gap_indices(c.1, m as int);
    lemma_left_indices_append(f, lg);
    lemma_left_indices_append(f + lg, rg);
    lemma_right_indices_append(f, lg);
    lemma_right_indices_append(f + lg, rg);
    lemma_range_append(0, c.0, n as int);
    lemma_range_append(0, c.1, m as int);
    assert(left_indices(f) + index_range(c.0, n as int) + Seq::<usize>::empty() =~= index_range(0, n as int));
    assert(right_indices(f) + Seq::<usize>::empty() + index_range(c.1, m as int) =~= index_range(0, m as int));
    lemma_range_covers(n);
    lemma_range_covers(m);
    let all = complete(a, n, m);
    lemma_left_positions(all);
    lemma_right_positions(all);
    assert forall|k: int| 0 <= k < all.len() && is_matched(#[trigger] all[k]) implies a.contains(
        (all[k].0->0, all[k].1->0),
    ) by {
        if k < f.len() {
            assert(all[k] == f[k]);
        } else if k < f.len() + lg.len() {
            assert(all[k] == lg[k - f.len()]);
        } else {
            assert(all[k] == rg[k - f.len() - lg.len()]);
        }
    }
}

/// Traces over tables that agree on the rectangle `[0, h) x [0, w)` agree.
pub proof fn lemma_trace_agree(v1: spec_fn(int, int) -> nat, v2: spec_fn(int, int) -> nat, h: nat, w: nat)
    requires
        forall|i: int, j: int|
            #![trigger v1(i, j)]
            #![trigger v2(i, j)]
            0 <= i < h && 0 <= j < w ==> v1(i, j) == v2(i, j),
    ensures
        trace(v1, h, w) == trace(v2, h, w),
    decreases h,
{
    lemma_best_in_agree(v1, v2, w, h, 0);
    let b = best_in(v1, w, h, 0);
    if b.0 > 0 {
        lemma_best_in_bounds(v1, w, h, 0);
        lemma_trace_agree(v1, v2, b.1 as nat, b.2 as nat);
    }
}

/// The match matrix of two lists, turned in place into their table of chain
/// lengths.
pub struct DiffTable {
    rows: Vec<Vec<usize>>,
    width: usize,
}

impl DiffTable {
    pub closed spec fn height(&self) -> nat {
        self.rows@.len()
    }

    pub closed spec fn width(&self) -> nat {
        self.width as nat
    }

    /// Every row holds `width` cells.
    pub closed spec fn wf(&self) -> bool {
        forall|i: int| 0 <= i < self.rows@.len() ==> #[trigger] self.rows@[i]@.len() == self.width
    }

    pub closed spec fn value(&self, i: int, j: int) -> nat {
        self.rows@[i]@[j] as nat
    }

    pub open spec fn values(&self) -> spec_fn(int, int) -> nat {
        |i: int, j: int| self.value(i, j)
    }

    /// The match relation that a table of zeros and ones stands for.
    pub open spec fn matches(&self) -> spec_fn(int, int) -> bool {
        |i: int, j: int| self.value(i, j) != 0
    }

    /// A `left` by `right` table of zeros.
    pub fn new(left: usize, right: usize) -> (t: Self)
        ensures
            t.wf(),
            t.height() == left,
            t.width() == right,
            forall|i: int, j: int| 0 <= i < left && 0 <= j < right ==> t.value(i, j) == 0,
    {
        let mut rows: Vec<Vec<usize>> = Vec::new();
        let mut i: usize = 0;
        while i < left
            invariant
                i <= left,
                rows@.len() == i,
                forall|k: int| 0 <= k < i ==> #[trigger] rows@[k]@.len() == right,
                forall|k: int, j: int| 0 <= k < i && 0 <= j < right ==> rows@[k]@[j] == 0,
            decreases left - i,
        {
            let mut row: Vec<usize> = Vec::new();
            let mut j: usize = 0;
            while j < right
                invariant
                    j <= right,
                    row@.len() == j,
                    forall|q: int| 0 <= q < j ==> row@[q] == 0,
                decreases right - j,
            {
                row.push(0);
                j += 1;
            }
            rows.push(row);
            i += 1;
        }
        DiffTable { rows, width: right }
    }

    pub fn get(&self, left: usize, right: usize) -> (v: usize)
        requires
            self.wf(),
            left < self.height(),
            right < self.width(),
        ensures
            v == self.value(left as int, right as int),
    {
        self.rows[left][right]
    }

    pub fn set(&mut self, left: usize, right: usize, val: usize)
        requires
            old(self).wf(),
            left < old(self).height(),
            right < old(self).width(),
        ensures
            final(self).wf(),
            final(self).height() == old(self).height(),
            final(self).width() == old(self).width(),
            final(self).value(left as int, right as int) == val,
            forall|i: int, j: int|
                0 <= i < old(self).height() && 0 <= j < old(self).width() && (i != left || j
                    != right) ==> #[trigger] final(self).value(i, j) == old(self).value(i, j),
    {
        self.rows[left].set(right, val);
    }

    /// The first cell in row-major order of `[0, left) x [0, right)` that
    /// holds the largest value, as `(value, row, column)`.
    fn find_max(&self, left: usize, right: usize) -> (r: (usize, usize, usize))
        requires
            self.wf(),
            left <= self.height(),
            right <= self.width(),
        ensures
            (r.0 as nat, r.1 as int, r.2 as int) == best_in(self.values(), right as nat, left as nat, 0),
    {
        let mut max: usize = 0;
        let mut maxi: usize = 0;
        let mut maxj: usize = 0;
        let mut i: usize = 0;
        while i < left
            invariant
                self.wf(),
                left <= self.height(),
                right <= self.width(),
                i <= left,
                (max as nat, maxi as int, maxj as int) == best_in(self.values(), right as nat, i as nat, 0),
            decreases left - i,
        {
            let mut j: usize = 0;
            while j < right
                invariant
                    self.wf(),
                    left <= self.height(),
                    right <= self.width(),
                    i < left,
                    j <= right,
                    (max as nat, maxi as int, maxj as int) == best_in(self.values(), right as nat, i as nat, j as nat),
                decreases right - j,
            {
                let val = self.get(i, j);
                if val > max {
                    max = val;
                    maxi = i;
                    maxj = j;
                }
                j += 1;
            }
            assert(best_in(self.values(), right as nat, (i + 1) as nat, 0) == best_in(self.values(), right as nat, i as nat, right as nat));
            i += 1;
        }
        (max, maxi, maxj)
    }

    /// Replaces each match cell by the length of the longest chain of matches
    /// ending there.
    pub fn calculate_lengths(&mut self)
        requires
            old(self).wf(),
            forall|i: int, j: int|
                0 <= i < old(self).height() && 0 <= j < old(self).width() ==> #[trigger] old(self).value(i, j) <= 1,
        ensures
            final(self).wf(),
            final(self).height() == old(self).height(),
            final(self).width() == old(self).width(),
            forall|i: int, j: int|
                #![trigger final(self).value(i, j)]
                0 <= i < old(self).height() && 0 <= j < old(self).width() ==> final(self).value(i, j)
                    == chain_len(old(self).matches(), i as nat, j as nat),
    {
        let ghost eq = self.matches();
        let ghost first = *self;
        let left = self.rows.len();
        let right = self.width;
        let mut i: usize = 0;
        while i < left
            invariant
                self.wf(),
                self.height() == left,
                self.width() == right,
                i <= left,
                eq == first.matches(),
                forall|a: int, b: int|
                    #![trigger self.value(a, b)]
                    0 <= a < i && 0 <= b < right ==> self.value(a, b) == chain_len(eq, a as nat, b as nat)
                        && self.value(a, b) <= a + 1,
                forall|a: int, b: int|
                    #![trigger self.value(a, b)]
                    i <= a < left && 0 <= b < right ==> self.value(a, b) == first.value(a, b)
                        && first.value(a, b) <= 1,
            decreases left - i,
        {
            let mut j: usize = 0;
            while j < right
                invariant
                    self.wf(),
                    self.height() == left,
                    self.width() == right,
                    i < left,
                    j <= right,
                    eq == first.matches(),
                    forall|a: int, b: int|
                        #![trigger self.value(a, b)]
                        0 <= b < right && (0 <= a < i || (a == i && b < j)) ==> self.value(a, b)
                            == chain_len(eq, a as nat, b as nat) && self.value(a, b) <= a + 1,
                    forall|a: int, b: int|
                        #![trigger self.value(a, b)]
                        #![trigger first.value(a, b)]
                        0 <= b < right && ((a == i && j <= b) || (i < a < left)) ==> self.value(a, b)
                            == first.value(a, b) && first.value(a, b) <= 1,
                decreases right - j,
            {
                let cur = self.get(i, j);
                if cur != 0 {
                    let best = self.find_max(i, j);
                    proof {
                        assert forall|a: int, b: int| in_scan(j as nat, i as nat, 0, a, b) implies
                            self.values()(a, b) == chain_values(eq)(a, b) by {
                            assert(self.value(a, b) == chain_len(eq, a as nat, b as nat));
                        }
                        lemma_best_in_agree(self.values(), chain_values(eq), j as nat, i as nat, 0);
                        lemma_chain_scan(eq, j as nat, i as nat, 0);
                        lemma_best_in_bounds(self.values(), j as nat, i as nat, 0);
                        let bb = best_in(self.values(), j as nat, i as nat, 0);
                        if bb.0 > 0 {
                            assert(self.value(bb.1, bb.2) <= bb.1 + 1);
                        }
                        assert(eq(i as int, j as int));
                    }
                    let ghost before = *self;
                    self.set(i, j, best.0 + 1);
                    proof {
                        assert forall|a: int, b: int|
                            0 <= b < right && ((a == i && j < b) || (i < a < left)) implies self.value(a, b)
                                == first.value(a, b) && first.value(a, b) <= 1 by {
                            assert(self.value(a, b) == before.value(a, b));
                        }
                        assert forall|a: int, b: int|
                            0 <= b < right && (0 <= a < i || (a == i && b < j)) implies self.value(a, b)
                                == chain_len(eq, a as nat, b as nat) && self.value(a, b) <= a + 1 by {
                            assert(self.value(a, b) == before.value(a, b));
                        }
                    }
                } else {
                    proof {
                        assert(!eq(i as int, j as int));
                    }
                }
                j += 1;
            }
            i += 1;
        }
    }

    /// The anchors of the backward trace over the whole table, in increasing
    /// order.
    pub fn find_indices(&self) -> (r: Vec<(usize, usize)>)
        requires
            self.wf(),
        ensures
            r@ == trace(self.values(), self.height(), self.width()),
    {
        let ghost v = self.values();
        let mut found: Vec<(usize, usize)> = Vec::new();
        let mut i = self.rows.len();
        let mut j = self.width;
        loop
            invariant
                self.wf(),
                v == self.values(),
                i <= self.height(),
                j <= self.width(),
                trace(v, self.height(), self.width()) == trace(v, i as nat, j as nat) + found@.reverse(),
            ensures
                trace(v, self.height(), self.width()) == found@.reverse(),
            decreases i,
        {
            let best = self.find_max(i, j);
            if best.0 == 0 {
                assert(trace(v, i as nat, j as nat) =~= seq![]);
                assert(trace(v, i as nat, j as nat) + found@.reverse() =~= found@.reverse());
                break;
            }
            proof {
                lemma_best_in_bounds(v, j as nat, i as nat, 0);
                let x = (best.1, best.2);
                assert(found@.push(x).reverse() =~= seq![x] + found@.reverse());
                assert(trace(v, i as nat, j as nat) == trace(v, best.1 as nat, best.2 as nat).push(x));
                assert(trace(v, best.1 as nat, best.2 as nat).push(x) + found@.reverse() =~= trace(
                    v,
                    best.1 as nat,
                    best.2 as nat,
                ) + found@.push(x).reverse());
            }
            found.push((best.1, best.2));
            i = best.1;
            j = best.2;
        }
        let mut r: Vec<(usize, usize)> = Vec::new();
        let mut k = found.len();
        while k > 0
            invariant
                k <= found@.len(),
                r@.len() == found@.len() - k,
                forall|q: int| 0 <= q < r@.len() ==> r@[q] == found@[found@.len() - 1 - q],
            decreases k,
        {
            k -= 1;
            r.push(found[k]);
        }
        assert(r@ =~= found@.reverse());
        r
    }
}

/// `cmp` gave `eq(i, j)` when comparing left element `i` with right element `j`.
pub open spec fn is_match_relation<T, F: Fn(&T, &T) -> bool>(
    cmp: F,
    left: Seq<T>,
    right: Seq<T>,
    eq: spec_fn(int, int) -> bool,
) -> bool {
    forall|i: int, j: int|
        #![trigger eq(i, j)]
        0 <= i < left.len() && 0 <= j < right.len() ==> cmp.ensures((&left[i], &right[j]), eq(i, j))
}

/// Emits the anchors in order, each preceded by the deletions and then the
/// insertions that lead up to it, and finally the trailing deletions and
/// insertions.
fn complete_diff(indices: &Vec<(usize, usize)>, n: usize, m: usize) -> (r: Vec<MatchingPair>)
    requires
        anchors_ok(indices@, n as nat, m as nat),
    ensures
        r@ == complete(indices@, n as nat, m as nat),
{
    let ghost a = indices@;
    let mut diff: Vec<MatchingPair> = Vec::new();
    let mut next_i: usize = 0;
    let mut next_j: usize = 0;
    let mut k: usize = 0;
    while k < indices.len()
        invariant
            a == indices@,
            anchors_ok(a, n as nat, m as nat),
            k <= a.len(),
            (next_i as int, next_j as int) == cursor(a.take(k as int)),
            next_i <= n,
            next_j <= m,
            k < a.len() ==> next_i <= a[k as int].0 && next_j <= a[k as int].1,
            diff@ == fill_gaps(a.take(k as int)),
        decreases a.len() - k,
    {
        let (i, j) = indices[k];
        let ghost start = diff@;
        let ghost c = (next_i as int, next_j as int);
        while next_i < i
            invariant
                c.0 <= next_i <= i,
                diff@ == start + left_gap(c.0, next_i as int),
            decreases i - next_i,
        {
            diff.push((Some(next_i), None));
            proof {
                assert(left_gap(c.0, next_i as int).push((Some(next_i), None)) =~= left_gap(c.0, next_i + 1));
            }
            next_i += 1;
        }
        let ghost mid = diff@;
        while next_j < j
            invariant
                c.1 <= next_j <= j,
                diff@ == mid + right_gap(c.1, next_j as int),
            decreases j - next_j,
        {
            diff.push((None, Some(next_j)));
            proof {
                assert(right_gap(c.1, next_j as int).push((None, Some(next_j))) =~= right_gap(c.1, next_j + 1));
            }
            next_j += 1;
        }
        diff.push((Some(i), Some(j)));
        proof {
            let t = a.take(k + 1);
            assert(t.drop_last() =~= a.take(k as int));
            assert(t.last() == (i, j));
            assert(left_gap(c.0, c.0) =~= seq![]);
            assert(right_gap(c.1, c.1) =~= seq![]);
            assert(diff@ =~= fill_gaps(t));
            if k + 1 < a.len() {
                assert(a[k as int].0 < a[k + 1].0 && a[k as int].1 < a[k + 1].1);
            }
        }
        next_i = i + 1;
        next_j = j + 1;
        k += 1;
    }
    assert(a.take(k as int) =~= a);
    let ghost start = diff@;
    let ghost c = (next_i as int, next_j as int);
    while next_i < n
        invariant
            c.0 <= next_i <= n,
            diff@ == start + left_gap(c.0, next_i as int),
        decreases n - next_i,
    {
        diff.push((Some(next_i), None));
        proof {
            assert(left_gap(c.0, next_i as int).push((Some(next_i), None)) =~= left_gap(c.0, next_i + 1));
        }
        next_i += 1;
    }
    let ghost mid = diff@;
    while next_j < m
        invariant
            c.1 <= next_j <= m,
            diff@ == mid + right_gap(c.1, next_j as int),
        decreases m - next_j,
    {
        diff.push((None, Some(next_j)));
        proof {
            assert(right_gap(c.1, next_j as int).push((None, Some(next_j))) =~= right_gap(c.1, next_j + 1));
        }
        next_j += 1;
    }
    proof {
        assert(left_gap(c.0, c.0) =~= seq![]);
        assert(right_gap(c.1, c.1) =~= seq![]);
    }
    diff
}

/// Aligns two ordered lists along one longest chain of matches, keeping the
/// relative order of both: every index of both lists occurs exactly once,
/// matched pairs advance on both sides, and between two matches the
/// deletions come before the insertions.
pub fn diff<T, F>(left: &Vec<T>, right: &Vec<T>, cmp: F) -> (r: Vec<MatchingPair>) where
    F: Fn(&T, &T) -> bool,
    requires
        forall|a: &T, b: &T| cmp.requires((a, b)),
    ensures
        exists|eq: spec_fn(int, int) -> bool|
            is_match_relation(cmp, left@, right@, eq) && r@ == diff_spec(
                eq,
                left@.len(),
                right@.len(),
            ),
        covers_once(left_indices(r@), left@.len()),
        covers_once(right_indices(r@), right@.len()),
        matches_increase(r@),
        forall|k: int|
            0 <= k < r@.len() && is_matched(#[trigger] r@[k]) ==> cmp.ensures(
                (&left@[r@[k].0->0 as int], &right@[r@[k].1->0 as int]),
                true,
            ),
        left@.len() == 0 ==> r@ == right_gap(0, right@.len() as int),
{
    let n = left.len();
    let m = right.len();
    let mut matrix = DiffTable::new(n, m);
    let mut i: usize = 0;
    while i < n
        invariant
            forall|a: &T, b: &T| cmp.requires((a, b)),
            n == left@.len(),
            m == right@.len(),
            matrix.wf(),
            matrix.height() == n,
            matrix.width() == m,
            i <= n,
            forall|a: int, b: int|
                #![trigger matrix.value(a, b)]
                0 <= a < n && 0 <= b < m ==> matrix.value(a, b) <= 1,
            forall|a: int, b: int|
                #![trigger matrix.value(a, b)]
                0 <= a < i && 0 <= b < m ==> cmp.ensures((&left@[a], &right@[b]), matrix.value(a, b) != 0),
        decreases n - i,
    {
        let mut j: usize = 0;
        while j < m
            invariant
                forall|a: &T, b: &T| cmp.requires((a, b)),
                n == left@.len(),
                m == right@.len(),
                matrix.wf(),
                matrix.height() == n,
                matrix.width() == m,
                i < n,
                j <= m,
                forall|a: int, b: int|
                    #![trigger matrix.value(a, b)]
                    0 <= a < n && 0 <= b < m ==> matrix.value(a, b) <= 1,
                forall|a: int, b: int|
                    #![trigger matrix.value(a, b)]
                    0 <= b < m && (0 <= a < i || (a == i && b < j)) ==> cmp.ensures(
                        (&left@[a], &right@[b]),
                        matrix.value(a, b) != 0,
                    ),
            decreases m - j,
        {
            let same = cmp(&left[i], &right[j]);
            let ghost before = matrix;
            matrix.set(i, j, if same { 1 } else { 0 });
            proof {
                assert forall|a: int, b: int| 0 <= a < n && 0 <= b < m implies #[trigger] matrix.value(a, b) <= 1 by {
                    if a != i || b != j {
                        assert(matrix.value(a, b) == before.value(a, b));
                    }
                }
                assert forall|a: int, b: int|
                    0 <= b < m && (0 <= a < i || (a == i && b < j + 1)) implies cmp.ensures(
                        (&left@[a], &right@[b]),
                        #[trigger] matrix.value(a, b) != 0,
                    ) by {
                    if a != i || b != j {
                        assert(matrix.value(a, b) == before.value(a, b));
                    }
                }
            }
            j += 1;
        }
        i += 1;
    }
    let ghost eq = matrix.matches();
    let ghost filled = matrix;
    matrix.calculate_lengths();
    let anchors = matrix.find_indices();
    proof {
        assert forall|a: int, b: int|
            #![trigger matrix.values()(a, b)]
            #![trigger chain_values(eq)(a, b)]
            0 <= a < n && 0 <= b < m implies matrix.values()(a, b) == chain_values(eq)(a, b) by {
            assert(matrix.value(a, b) == chain_len(filled.matches(), a as nat, b as nat));
        }
        lemma_trace_agree(matrix.values(), chain_values(eq), n as nat, m as nat);
        lemma_trace_anchors(chain_values(eq), n as nat, m as nat);
    }
    let r = complete_diff(&anchors, n, m);
    proof {
        let t = trace(chain_values(eq), n as nat, m as nat);
        lemma_complete(t, n as nat, m as nat);
        assert(is_match_relation(cmp, left@, right@, eq)) by {
            assert forall|a: int, b: int| 0 <= a < n && 0 <= b < m implies cmp.ensures(
                (&left@[a], &right@[b]),
                #[trigger] eq(a, b),
            ) by {
                assert(filled.value(a, b) != 0 == eq(a, b));
            }
        }
        assert forall|k: int| 0 <= k < r@.len() && is_matched(#[trigger] r@[k]) implies cmp.ensures(
            (&left@[r@[k].0->0 as int], &right@[r@[k].1->0 as int]),
            true,
        ) by {
            let q = choose|q: int| 0 <= q < t.len() && t[q] == (r@[k].0->0, r@[k].1->0);
            assert(chain_values(eq)(t[q].0 as int, t[q].1 as int) > 0);
            assert(eq(t[q].0 as int, t[q].1 as int));
            assert(filled.value(t[q].0 as int, t[q].1 as int) != 0);
        }
        if n == 0 {
            assert(best_in(chain_values(eq), m as nat, 0, 0).0 == 0);
            assert(t =~= seq![]);
            assert(left_gap(0, 0) =~= seq![]);
            assert(r@ =~= right_gap(0, m as int));
        }
    }
    r
}

/// The value table of an identity match: `k + 1` on the diagonal, 0 elsewhere.
pub open spec fn is_diagonal_chain(v: spec_fn(int, int) -> nat, a: int, b: int) -> bool {
    v(a, b) == if a == b {
        (a + 1) as nat
    } else {
        0
    }
}

proof fn lemma_diagonal_scan(v: spec_fn(int, int) -> nat, w: nat, r: nat, c: nat)
    requires
        c <= w,
        r < w || (r == w && c == 0),
        forall|a: int, b: int| #![trigger v(a, b)] in_scan(w, r, c, a, b) ==> is_diagonal_chain(v, a, b),
    ensures
        best_in(v, w, r, c) == if c > r {
            ((r + 1) as nat, r as int, r as int)
        } else if r > 0 {
            (r, r - 1, r - 1)
        } else {
            (0nat, 0int, 0int)
        },
    decreases r, c,
{
    if c == 0 {
        if r > 0 {
            lemma_diagonal_scan(v, w, (r - 1) as nat, w);
        }
    } else {
        lemma_diagonal_scan(v, w, r, (c - 1) as nat);
        assert(is_diagonal_chain(v, r as int, c - 1));
    }
}

proof fn lemma_diagonal_chain(eq: spec_fn(int, int) -> bool, n: nat, i: nat)
    requires
        i < n,
        forall|a: int, b: int| #![trigger eq(a, b)] 0 <= a < n && 0 <= b < n ==> (eq(a, b) <==> a == b),
    ensures
        forall|j: int| 0 <= j < n ==> is_diagonal_chain(chain_values(eq), i as int, j),
    decreases i,
{
    let v = chain_values(eq);
    if i > 0 {
        lemma_diagonal_chain(eq, n, (i - 1) as nat);
    }
    assert forall|a: int, b: int| #![trigger v(a, b)] in_scan(i, i, 0, a, b) implies is_diagonal_chain(v, a, b) by {
        if a < i - 1 {
            lemma_diagonal_chain(eq, n, a as nat);
        }
    }
    lemma_diagonal_scan(v, i, i, 0);
    lemma_chain_scan(eq, i, i, 0);
    assert forall|j: int| 0 <= j < n implies is_diagonal_chain(v, i as int, j) by {
        assert(eq(i as int, j) <==> i == j);
    }
}

/// The anchors `(0, 0), ..., (h - 1, h - 1)`.
pub open spec fn diagonal(h: nat) -> Seq<(usize, usize)> {
    Seq::new(h, |k: int| (k as usize, k as usize))
}

proof fn lemma_diagonal_trace(v: spec_fn(int, int) -> nat, n: nat, h: nat)
    requires
        h <= n <= usize::MAX,
        forall|a: int, b: int| #![trigger v(a, b)] 0 <= a < n && 0 <= b < n ==> is_diagonal_chain(v, a, b),
    ensures
        trace(v, h, h) == diagonal(h),
    decreases h,
{
    lemma_diagonal_scan(v, h, h, 0);
    if h > 0 {
        lemma_diagonal_trace(v, n, (h - 1) as nat);
        assert(diagonal((h - 1) as nat).push(((h - 1) as usize, (h - 1) as usize)) =~= diagonal(h));
    } else {
        assert(diagonal(0) =~= seq![]);
    }
}

proof fn lemma_diagonal_fill(h: nat)
    requires
        h <= usize::MAX,
    ensures
        fill_gaps(diagonal(h)) == Seq::new(h, |k: int| (Some(k as usize), Some(k as usize))),
        cursor(diagonal(h)) == (h as int, h as int),
    decreases h,
{
    if h > 0 {
        lemma_diagonal_fill((h - 1) as nat);
        let d = diagonal(h);
        assert(d.drop_last() =~= diagonal((h - 1) as nat));
        let c = h - 1;
        assert(left_gap(c, c) =~= seq![]);
        assert(right_gap(c, c) =~= seq![]);
        assert(fill_gaps(d) =~= Seq::new(h, |k: int| (Some(k as usize), Some(k as usize))));
    } else {
        assert(diagonal(0) =~= seq![]);
        assert(fill_gaps(diagonal(0)) =~= Seq::new(0, |k: int| (Some(k as usize), Some(k as usize))));
    }
}

/// Diffing a list against itself, when no two of its elements are equal,
/// matches every index with itself and nothing else.
pub proof fn lemma_identity_diff(eq: spec_fn(int, int) -> bool, n: nat)
    requires
        n <= usize::MAX,
        forall|i: int, j: int| #![trigger eq(i, j)] 0 <= i < n && 0 <= j < n ==> (eq(i, j) <==> i == j),
    ensures
        diff_spec(eq, n, n) == Seq::new(n, |k: int| (Some(k as usize), Some(k as usize))),
{
    let v = chain_values(eq);
    assert forall|a: int, b: int| #![trigger v(a, b)] 0 <= a < n && 0 <= b < n implies is_diagonal_chain(v, a, b) by {
        lemma_diagonal_chain(eq, n, a as nat);
    }
    lemma_diagonal_trace(v, n, n);
    lemma_diagonal_fill(n);
    assert(left_gap(n as int, n as int) =~= seq![]);
    assert(right_gap(n as int, n as int) =~= seq![]);
    assert(complete(diagonal(n), n, n) =~= fill_gaps(diagonal(n)));
}

} // verus!
