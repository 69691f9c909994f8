//! Set alignment: greedy first-match pairing of two lists whose order does
//! not matter for equality.
use vstd::prelude::*;
use crate::matching::{MatchingPair, left_indices, right_indices, covers_once, is_matched};

verus! {

/// State of the alignment walk: the two cursors, which indices of each side
/// are already paired or emitted, and the pairs emitted so far.
pub struct AlignState {
    pub li: nat,
    pub ri: nat,
    pub lused: Seq<bool>,
    pub rused: Seq<bool>,
    pub out: Seq<MatchingPair>,
}

/// The first index `k >= from` that is not used yet and satisfies `p`.
pub open spec fn first_free(used: Seq<bool>, p: spec_fn(int) -> bool, from: nat) -> Option<nat>
    decreases used.len() - from,
{
    if from >= used.len() {
        None
    } else if !used[from as int] && p(from as int) {
        Some(from)
    } else {
        first_free(used, p, from + 1)
    }
}

/// The walk before any step, over lists of lengths `n` and `m`.
pub open spec fn align_start(n: nat, m: nat) -> AlignState {
    AlignState {
        li: 0,
        ri: 0,
        lused: Seq::new(n, |i: int| false),
        rused: Seq::new(m, |j: int| false),
        out: seq![],
    }
}

/// One step of the walk. `seek_right(i, j)`: right element `j` matches left
/// element `i` when left `i` is visited; `seek_left(j, i)`: left element `i`
/// matches right element `j` when right `j` is visited. The left cursor moves
/// while it is not ahead of the right one, or once the right one is done.
pub open spec fn align_step(
    s: AlignState,
    n: nat,
    m: nat,
    seek_right: spec_fn(int, int) -> bool,
    seek_left: spec_fn(int, int) -> bool,
) -> AlignState {
    if (s.li <= s.ri || s.ri >= m) && s.li < n {
        let i = s.li;
        if s.lused[i as int] {
            AlignState { li: i + 1, ..s }
        } else {
            match first_free(s.rused, |j: int| seek_right(i as int, j), 0) {
                Some(j) => AlignState {
                    li: i + 1,
                    lused: s.lused.update(i as int, true),
                    rused: s.rused.update(j as int, true),
                    out: s.out.push((Some(i as usize), Some(j as usize))),
                    ..s
                },
                None => AlignState {
                    li: i + 1,
                    lused: s.lused.update(i as int, true),
                    out: s.out.push((Some(i as usize), None)),
                    ..s
                },
            }
        }
    } else if s.ri < m {
        let j = s.ri;
        if s.rused[j as int] {
            AlignState { ri: j + 1, ..s }
        } else {
            match first_free(s.lused, |i: int| seek_left(j as int, i), 0) {
                Some(i) => AlignState {
                    ri: j + 1,
                    lused: s.lused.update(i as int, true),
                    rused: s.rused.update(j as int, true),
                    out: s.out.push((Some(i as usize), Some(j as usize))),
                    ..s
                },
                None => AlignState {
                    ri: j + 1,
                    rused: s.rused.update(j as int, true),
                    out: s.out.push((None, Some(j as usize))),
                    ..s
                },
            }
        }
    } else {
        s
    }
}

/// Steps left before both cursors are past their list ends.
pub open spec fn steps_left(s: AlignState, n: nat, m: nat) -> nat {
    ((if s.li < n {
        n - s.li
    } else {
        0
    }) + (if s.ri < m {
        m - s.ri
    } else {
        0
    })) as nat
}

/// The pairs emitted by the walk from `s` until both cursors are done.
pub open spec fn align_run(
    s: AlignState,
    n: nat,
    m: nat,
    seek_right: spec_fn(int, int) -> bool,
    seek_left: spec_fn(int, int) -> bool,
) -> Seq<MatchingPair>
    decreases steps_left(s, n, m),
{
    if s.li >= n && s.ri >= m {
        s.out
    } else {
        align_run(align_step(s, n, m, seek_right, seek_left), n, m, seek_right, seek_left)
    }
}

/// What the set alignment returns for lists of lengths `n` and `m`.
pub open spec fn align_spec(
    seek_right: spec_fn(int, int) -> bool,
    seek_left: spec_fn(int, int) -> bool,
    n: nat,
    m: nat,
) -> Seq<MatchingPair> {
    align_run(align_start(n, m), n, m, seek_right, seek_left)
}

pub proof fn lemma_first_free(used: Seq<bool>, p: spec_fn(int) -> bool, from: nat)
    ensures
        match first_free(used, p, from) {
            Some(k) => from <= k < used.len() && !used[k as int] && p(k as int),
            None => forall|k: int| from <= k < used.len() ==> used[k] || !p(k),
        },
    decreases used.len() - from,
{
    if from < used.len() {
        lemma_first_free(used, p, from + 1);
    }
}

/// What holds of every state of the walk: each side's emitted indices are
/// distinct, in range, and exactly the used ones; everything behind a cursor
/// is used; every matched pair is a match in the direction it was found.
pub open spec fn align_inv(
    s: AlignState,
    n: nat,
    m: nat,
    seek_right: spec_fn(int, int) -> bool,
    seek_left: spec_fn(int, int) -> bool,
) -> bool {
    &&& s.lused.len() == n
    &&& s.rused.len() == m
    &&& s.li <= n
    &&& s.ri <= m
    &&& forall|i: int| 0 <= i < s.li ==> #[trigger] s.lused[i]
    &&& forall|j: int| 0 <= j < s.ri ==> #[trigger] s.rused[j]
    &&& left_indices(s.out).no_duplicates()
    &&& right_indices(s.out).no_duplicates()
    &&& forall|k: int| 0 <= k < left_indices(s.out).len() ==> #[trigger] left_indices(s.out)[k] < n
    &&& forall|k: int| 0 <= k < right_indices(s.out).len() ==> #[trigger] right_indices(s.out)[k] < m
    &&& forall|i: usize| i < n ==> (s.lused[i as int] <==> #[trigger] left_indices(s.out).contains(i))
    &&& forall|j: usize| j < m ==> (s.rused[j as int] <==> #[trigger] right_indices(s.out).contains(j))
    &&& pairs_match(s.out, seek_right, seek_left)
}

/// Every matched pair `(i, j)` was found as a match in one of the two scans.
pub open spec fn pairs_match(
    out: Seq<MatchingPair>,
    seek_right: spec_fn(int, int) -> bool,
    seek_left: spec_fn(int, int) -> bool,
) -> bool {
    forall|k: int|
        0 <= k < out.len() && is_matched(#[trigger] out[k]) ==> seek_right(
            out[k].0->0 as int,
            out[k].1->0 as int,
        ) || seek_left(out[k].1->0 as int, out[k].0->0 as int)
}

proof fn lemma_push_pair(s: Seq<MatchingPair>, p: MatchingPair)
    ensures
        left_indices(s.push(p)) == match p.0 {
            Some(i) => left_indices(s).push(i),
            None => left_indices(s),
        },
        right_indices(s.push(p)) == match p.1 {
            Some(j) => right_indices(s).push(j),
            None => right_indices(s),
        },
{
    assert(s.push(p).drop_last() =~= s);
}

proof fn lemma_push_index(idx: Seq<usize>, x: usize, bound: nat)
    requires
        idx.no_duplicates(),
        !idx.contains(x),
        x < bound,
        forall|k: int| 0 <= k < idx.len() ==> #[trigger] idx[k] < bound,
    ensures
        idx.push(x).no_duplicates(),
        forall|k: int| 0 <= k < idx.push(x).len() ==> #[trigger] idx.push(x)[k] < bound,
        forall|y: usize| idx.push(x).contains(y) <==> (idx.contains(y) || y == x),
{
    let q = idx.push(x);
    assert forall|y: usize| q.contains(y) <==> (idx.contains(y) || y == x) by {
        if idx.contains(y) {
            let w = choose|w: int| 0 <= w < idx.len() && idx[w] == y;
            assert(q[w] == y);
        }
        if q.contains(y) {
            let w = choose|w: int| 0 <= w < q.len() && q[w] == y;
            if w < idx.len() {
                assert(idx[w] == y);
            }
        }
        if y == x {
            assert(q[idx.len() as int] == x);
        }
    }
    assert forall|a: int, b: int| 0 <= a < q.len() && 0 <= b < q.len() && a != b implies q[a] != q[b] by {
        if a < idx.len() && b < idx.len() {
        } else if a < idx.len() {
            assert(idx.contains(q[a]));
        } else {
            assert(idx.contains(q[b]));
        }
    }
}

pub proof fn lemma_align_step(
    s: AlignState,
    n: nat,
    m: nat,
    seek_right: spec_fn(int, int) -> bool,
    seek_left: spec_fn(int, int) -> bool,
)
    requires
        n <= usize::MAX,
        m <= usize::MAX,
        align_inv(s, n, m, seek_right, seek_left),
        !(s.li >= n && s.ri >= m),
    ensures
        align_inv(align_step(s, n, m, seek_right, seek_left), n, m, seek_right, seek_left),
        steps_left(align_step(s, n, m, seek_right, seek_left), n, m) < steps_left(s, n, m),
{
    let t = align_step(s, n, m, seek_right, seek_left);
    lemma_align_step_sides(s, n, m, seek_right, seek_left);
    assert forall|i: usize| i < n implies (t.lused[i as int] <==> #[trigger] left_indices(t.out).contains(i)) by {
        if t.out == s.out {
            assert(t.lused[i as int] == s.lused[i as int]);
        }
    }
    assert forall|j: usize| j < m implies (t.rused[j as int] <==> #[trigger] right_indices(t.out).contains(j)) by {
        if t.out == s.out {
            assert(t.rused[j as int] == s.rused[j as int]);
        }
    }
}

proof fn lemma_align_step_sides(
    s: AlignState,
    n: nat,
    m: nat,
    seek_right: spec_fn(int, int) -> bool,
    seek_left: spec_fn(int, int) -> bool,
)
    requires
        n <= usize::MAX,
        m <= usize::MAX,
        align_inv(s, n, m, seek_right, seek_left),
        !(s.li >= n && s.ri >= m),
    ensures
        ({
            let t = align_step(s, n, m, seek_right, seek_left);
            &&& t.lused.len() == n
            &&& t.rused.len() == m
            &&& t.li <= n
            &&& t.ri <= m
            &&& forall|i: int| 0 <= i < t.li ==> #[trigger] t.lused[i]
            &&& forall|j: int| 0 <= j < t.ri ==> #[trigger] t.rused[j]
            &&& left_indices(t.out).no_duplicates()
            &&& right_indices(t.out).no_duplicates()
            &&& forall|k: int| 0 <= k < left_indices(t.out).len() ==> #[trigger] left_indices(t.out)[k] < n
            &&& forall|k: int| 0 <= k < right_indices(t.out).len() ==> #[trigger] right_indices(t.out)[k] < m
            &&& pairs_match(t.out, seek_right, seek_left)
            &&& steps_left(t, n, m) < steps_left(s, n, m)
            &&& t.out == s.out || t.out.len() == s.out.len() + 1
            &&& t.out == s.out ==> t.lused == s.lused && t.rused == s.rused
            &&& t.out != s.out ==> (forall|i: usize| left_indices(t.out).contains(i) <==> (
                left_indices(s.out).contains(i) || (t.out.last().0 == Some(i))))
            &&& t.out != s.out ==> (forall|j: usize| right_indices(t.out).contains(j) <==> (
                right_indices(s.out).contains(j) || (t.out.last().1 == Some(j))))
            &&& t.out != s.out ==> (forall|i: usize| i < n ==> (t.lused[i as int] <==> (s.lused[i as int]
                || t.out.last().0 == Some(i))))
            &&& t.out != s.out ==> (forall|j: usize| j < m ==> (t.rused[j as int] <==> (s.rused[j as int]
                || t.out.last().1 == Some(j))))
        }),
{
    let t = align_step(s, n, m, seek_right, seek_left);
    if (s.li <= s.ri || s.ri >= m) && s.li < n {
        let i = s.li;
        if !s.lused[i as int] {
            let p = |j: int| seek_right(i as int, j);
            lemma_first_free(s.rused, p, 0);
            lemma_push_pair(s.out, t.out.last());
            assert(t.out == s.out.push(t.out.last()));
            assert(!left_indices(s.out).contains(i as usize));
            lemma_push_index(left_indices(s.out), i as usize, n);
            match first_free(s.rused, p, 0) {
                Some(j) => {
                    assert(!right_indices(s.out).contains(j as usize));
                    lemma_push_index(right_indices(s.out), j as usize, m);
                    assert forall|k: int| 0 <= k < t.out.len() && is_matched(#[trigger] t.out[k]) implies seek_right(
                        t.out[k].0->0 as int,
                        t.out[k].1->0 as int,
                    ) || seek_left(t.out[k].1->0 as int, t.out[k].0->0 as int) by {
                        if k < s.out.len() {
                            assert(t.out[k] == s.out[k]);
                        }
                    }
                },
                None => {
                    assert forall|k: int| 0 <= k < t.out.len() && is_matched(#[trigger] t.out[k]) implies seek_right(
                        t.out[k].0->0 as int,
                        t.out[k].1->0 as int,
                    ) || seek_left(t.out[k].1->0 as int, t.out[k].0->0 as int) by {
                        assert(t.out[k] == s.out[k]);
                    }
                },
            }
        }
    } else {
        let j = s.ri;
        if !s.rused[j as int] {
            let p = |i: int| seek_left(j as int, i);
            lemma_first_free(s.lused, p, 0);
            lemma_push_pair(s.out, t.out.last());
            assert(t.out == s.out.push(t.out.last()));
            assert(!right_indices(s.out).contains(j as usize));
            lemma_push_index(right_indices(s.out), j as usize, m);
            match first_free(s.lused, p, 0) {
                Some(i) => {
                    assert(!left_indices(s.out).contains(i as usize));
                    lemma_push_index(left_indices(s.out), i as usize, n);
                    assert forall|k: int| 0 <= k < t.out.len() && is_matched(#[trigger] t.out[k]) implies seek_right(
                        t.out[k].0->0 as int,
                        t.out[k].1->0 as int,
                    ) || seek_left(t.out[k].1->0 as int, t.out[k].0->0 as int) by {
                        if k < s.out.len() {
                            assert(t.out[k] == s.out[k]);
                        }
                    }
                },
                None => {
                    assert forall|k: int| 0 <= k < t.out.len() && is_matched(#[trigger] t.out[k]) implies seek_right(
                        t.out[k].0->0 as int,
                        t.out[k].1->0 as int,
                    ) || seek_left(t.out[k].1->0 as int, t.out[k].0->0 as int) by {
                        assert(t.out[k] == s.out[k]);
                    }
                },
            }
        }
    }
}

/// From any state of the walk, the pairs it ends with name every index of
/// both lists exactly once, and each matched pair was found as a match.
pub proof fn lemma_align_run(
    s: AlignState,
    n: nat,
    m: nat,
    seek_right: spec_fn(int, int) -> bool,
    seek_left: spec_fn(int, int) -> bool,
)
    requires
        n <= usize::MAX,
        m <= usize::MAX,
        align_inv(s, n, m, seek_right, seek_left),
    ensures
        covers_once(left_indices(align_run(s, n, m, seek_right, seek_left)), n),
        covers_once(right_indices(align_run(s, n, m, seek_right, seek_left)), m),
        pairs_match(align_run(s, n, m, seek_right, seek_left), seek_right, seek_left),
    decreases steps_left(s, n, m),
{
    if s.li >= n && s.ri >= m {
        assert forall|i: usize| i < n implies left_indices(s.out).contains(i) by {
            assert(s.lused[i as int]);
        }
        assert forall|j: usize| j < m implies right_indices(s.out).contains(j) by {
            assert(s.rused[j as int]);
        }
    } else {
        lemma_align_step(s, n, m, seek_right, seek_left);
        lemma_align_run(align_step(s, n, m, seek_right, seek_left), n, m, seek_right, seek_left);
    }
}

pub proof fn lemma_align_start(
    n: nat,
    m: nat,
    seek_right: spec_fn(int, int) -> bool,
    seek_left: spec_fn(int, int) -> bool,
)
    ensures
        align_inv(align_start(n, m), n, m, seek_right, seek_left),
{
    let s = align_start(n, m);
    assert(left_indices(s.out) =~= seq![]);
    assert(right_indices(s.out) =~= seq![]);
}

/// The set alignment of any two lists names every index of both exactly once.
pub proof fn lemma_align_covers(
    seek_right: spec_fn(int, int) -> bool,
    seek_left: spec_fn(int, int) -> bool,
    n: nat,
    m: nat,
)
    requires
        n <= usize::MAX,
        m <= usize::MAX,
    ensures
        covers_once(left_indices(align_spec(seek_right, seek_left, n, m)), n),
        covers_once(right_indices(align_spec(seek_right, seek_left, n, m)), m),
        pairs_match(align_spec(seek_right, seek_left, n, m), seek_right, seek_left),
{
    lemma_align_start(n, m, seek_right, seek_left);
    lemma_align_run(align_start(n, m), n, m, seek_right, seek_left);
}

proof fn lemma_first_free_at(used: Seq<bool>, p: spec_fn(int) -> bool, from: nat, k: nat)
    requires
        from <= k < used.len(),
        !used[k as int] && p(k as int),
        forall|q: int| from <= q < k ==> used[q] || !p(q),
    ensures
        first_free(used, p, from) == Some(k),
    decreases k - from,
{
    if from < k {
        lemma_first_free_at(used, p, from + 1, k);
    }
}

proof fn lemma_first_free_none(used: Seq<bool>, p: spec_fn(int) -> bool, from: nat)
    requires
        forall|q: int| from <= q < used.len() ==> used[q] || !p(q),
    ensures
        first_free(used, p, from) == None::<nat>,
    decreases used.len() - from,
{
    if from < used.len() {
        lemma_first_free_none(used, p, from + 1);
    }
}

/// The first index that `used` does not mark and `row` does.
fn first_unused(used: &Vec<bool>, row: &Vec<bool>) -> (r: Option<usize>)
    requires
        used@.len() == row@.len(),
    ensures
        match r {
            Some(k) => k < used@.len() && !used@[k as int] && row@[k as int] && forall|q: int|
                0 <= q < k ==> used@[q] || !row@[q],
            None => forall|q: int| 0 <= q < used@.len() ==> used@[q] || !row@[q],
        },
{
    let mut k: usize = 0;
    while k < used.len()
        invariant
            used@.len() == row@.len(),
            k <= used@.len(),
            forall|q: int| 0 <= q < k ==> used@[q] || !row@[q],
        decreases used@.len() - k,
    {
        if !used[k] && row[k] {
            return Some(k);
        }
        k += 1;
    }
    None
}

/// `compare` gave `seek_right(i, j)` on (right `j`, left `i`) and
/// `seek_left(j, i)` on (left `i`, right `j`).
pub open spec fn is_seek_relation<T, F: Fn(&T, &T) -> bool>(
    compare: F,
    left: Seq<T>,
    right: Seq<T>,
    seek_right: spec_fn(int, int) -> bool,
    seek_left: spec_fn(int, int) -> bool,
) -> bool {
    forall|i: int, j: int|
        #![trigger seek_right(i, j)]
        #![trigger seek_left(j, i)]
        0 <= i < left.len() && 0 <= j < right.len() ==> compare.ensures(
            (&right[j], &left[i]),
            seek_right(i, j),
        ) && compare.ensures((&left[i], &right[j]), seek_left(j, i))
}

/// Pairs the elements of two lists greedily by `compare`, regardless of
/// position: a visited element takes the first unpaired element of the other
/// list that it matches. Every index of both lists occurs exactly once.
pub fn align<T, F>(left: &Vec<T>, right: &Vec<T>, compare: F) -> (r: Vec<MatchingPair>) where
    F: Fn(&T, &T) -> bool,
    requires
        forall|a: &T, b: &T| compare.requires((a, b)),
    ensures
        exists|seek_right: spec_fn(int, int) -> bool, seek_left: spec_fn(int, int) -> bool|
            is_seek_relation(compare, left@, right@, seek_right, seek_left) && r@ == align_spec(
                seek_right,
                seek_left,
                left@.len(),
                right@.len(),
            ),
        covers_once(left_indices(r@), left@.len()),
        covers_once(right_indices(r@), right@.len()),
        forall|k: int|
            0 <= k < r@.len() && is_matched(#[trigger] r@[k]) ==> compare.ensures(
                (&right@[r@[k].1->0 as int], &left@[r@[k].0->0 as int]),
                true,
            ) || compare.ensures((&left@[r@[k].0->0 as int], &right@[r@[k].1->0 as int]), true),
{
    let n = left.len();
    let m = right.len();
    let mut right_rows: Vec<Vec<bool>> = Vec::new();
    let mut i: usize = 0;
    while i < n
        invariant
            forall|a: &T, b: &T| compare.requires((a, b)),
            n == left@.len(),
            m == right@.len(),
            i <= n,
            right_rows@.len() == i,
            forall|a: int| 0 <= a < i ==> #[trigger] right_rows@[a]@.len() == m,
            forall|a: int, b: int|
                0 <= a < i && 0 <= b < m ==> compare.ensures((&right@[b], &left@[a]), #[trigger] right_rows@[a]@[b]),
        decreases n - i,
    {
        let mut row: Vec<bool> = Vec::new();
        let mut j: usize = 0;
        while j < m
            invariant
                forall|a: &T, b: &T| compare.requires((a, b)),
                n == left@.len(),
                m == right@.len(),
                i < n,
                j <= m,
                row@.len() == j,
                forall|b: int| 0 <= b < j ==> compare.ensures((&right@[b], &left@[i as int]), #[trigger] row@[b]),
            decreases m - j,
        {
            row.push(compare(&right[j], &left[i]));
            j += 1;
        }
        right_rows.push(row);
        i += 1;
    }
    let mut left_rows: Vec<Vec<bool>> = Vec::new();
    let mut j: usize = 0;
    while j < m
        invariant
            forall|a: &T, b: &T| compare.requires((a, b)),
            n == left@.len(),
            m == right@.len(),
            j <= m,
            left_rows@.len() == j,
            forall|b: int| 0 <= b < j ==> #[trigger] left_rows@[b]@.len() == n,
            forall|a: int, b: int|
                0 <= a < n && 0 <= b < j ==> compare.ensures((&left@[a], &right@[b]), #[trigger] left_rows@[b]@[a]),
        decreases m - j,
    {
        let mut row: Vec<bool> = Vec::new();
        let mut i: usize = 0;
        while i < n
            invariant
                forall|a: &T, b: &T| compare.requires((a, b)),
                n == left@.len(),
                m == right@.len(),
                j < m,
                i <= n,
                row@.len() == i,
                forall|a: int| 0 <= a < i ==> compare.ensures((&left@[a], &right@[j as int]), #[trigger] row@[a]),
            decreases n - i,
        {
            row.push(compare(&left[i], &right[j]));
            i += 1;
        }
        left_rows.push(row);
        j += 1;
    }
    let ghost seek_right = |a: int, b: int| right_rows@[a]@[b];
    let ghost seek_left = |b: int, a: int| left_rows@[b]@[a];
    let mut left_used: Vec<bool> = Vec::new();
    let mut k: usize = 0;
    while k < n
        invariant
            k <= n,
            left_used@ == Seq::new(k as nat, |q: int| false),
        decreases n - k,
    {
        left_used.push(false);
        k += 1;
    }
    let mut right_used: Vec<bool> = Vec::new();
    k = 0;
    while k < m
        invariant
            k <= m,
            right_used@ == Seq::new(k as nat, |q: int| false),
        decreases m - k,
    {
        right_used.push(false);
        k += 1;
    }
    let mut result: Vec<MatchingPair> = Vec::new();
    let mut li: usize = 0;
    let mut ri: usize = 0;
    proof {
        lemma_align_start(n as nat, m as nat, seek_right, seek_left);
        assert(left_used@ =~= align_start(n as nat, m as nat).lused);
        assert(right_used@ =~= align_start(n as nat, m as nat).rused);
        assert(result@ =~= align_start(n as nat, m as nat).out);
    }
    while li < n || ri < m
        invariant
            n == left@.len(),
            m == right@.len(),
            right_rows@.len() == n,
            left_rows@.len() == m,
            forall|a: int| 0 <= a < n ==> #[trigger] right_rows@[a]@.len() == m,
            forall|b: int| 0 <= b < m ==> #[trigger] left_rows@[b]@.len() == n,
            seek_right == (|a: int, b: int| right_rows@[a]@[b]),
            seek_left == (|b: int, a: int| left_rows@[b]@[a]),
            align_inv(
                AlignState { li: li as nat, ri: ri as nat, lused: left_used@, rused: right_used@, out: result@ },
                n as nat,
                m as nat,
                seek_right,
                seek_left,
            ),
            align_run(
                AlignState { li: li as nat, ri: ri as nat, lused: left_used@, rused: right_used@, out: result@ },
                n as nat,
                m as nat,
                seek_right,
                seek_left,
            ) == align_spec(seek_right, seek_left, n as nat, m as nat),
        decreases steps_left(
            AlignState { li: li as nat, ri: ri as nat, lused: left_used@, rused: right_used@, out: result@ },
            n as nat,
            m as nat,
        ),
    {
        let ghost s = AlignState { li: li as nat, ri: ri as nat, lused: left_used@, rused: right_used@, out: result@ };
        proof {
            lemma_align_step(s, n as nat, m as nat, seek_right, seek_left);
        }
        let ghost t = align_step(s, n as nat, m as nat, seek_right, seek_left);
        if (li <= ri || ri >= m) && li < n {
            let i = li;
            if !left_used[i] {
                let found = first_unused(&right_used, &right_rows[i]);
                proof {
                    let p = |b: int| seek_right(i as int, b);
                    assert(p =~= (|b: int| right_rows@[i as int]@[b]));
                    match found {
                        Some(j) => lemma_first_free_at(right_used@, p, 0, j as nat),
                        None => lemma_first_free_none(right_used@, p, 0),
                    }
                }
                match found {
                    Some(j) => {
                        right_used.set(j, true);
                        result.push((Some(i), Some(j)));
                    },
                    None => {
                        result.push((Some(i), None));
                    },
                }
                left_used.set(i, true);
            }
            li += 1;
        } else {
            let j = ri;
            if !right_used[j] {
                let found = first_unused(&left_used, &left_rows[j]);
                proof {
                    let p = |a: int| seek_left(j as int, a);
                    assert(p =~= (|a: int| left_rows@[j as int]@[a]));
                    match found {
                        Some(i) => lemma_first_free_at(left_used@, p, 0, i as nat),
                        None => lemma_first_free_none(left_used@, p, 0),
                    }
                }
                match found {
                    Some(i) => {
                        left_used.set(i, true);
                        result.push((Some(i), Some(j)));
                    },
                    None => {
                        result.push((None, Some(j)));
                    },
                }
                right_used.set(j, true);
            }
            ri += 1;
        }
        proof {
            let u = AlignState { li: li as nat, ri: ri as nat, lused: left_used@, rused: right_used@, out: result@ };
            assert(u.lused =~= t.lused);
            assert(u.rused =~= t.rused);
            assert(u.out =~= t.out);
            assert(u == t);
        }
    }
    proof {
        let s = AlignState { li: li as nat, ri: ri as nat, lused: left_used@, rused: right_used@, out: result@ };
        lemma_align_covers(seek_right, seek_left, n as nat, m as nat);
        assert(is_seek_relation(compare, left@, right@, seek_right, seek_left));
        let out = result@;
        assert forall|k: int| 0 <= k < out.len() && is_matched(#[trigger] out[k]) implies compare.ensures(
            (&right@[out[k].1->0 as int], &left@[out[k].0->0 as int]),
            true,
        ) || compare.ensures((&left@[out[k].0->0 as int], &right@[out[k].1->0 as int]), true) by {
            let i = out[k].0->0 as int;
            let j = out[k].1->0 as int;
            assert(left_indices(out).contains(out[k].0->0)) by {
                crate::matching::lemma_left_member(out, k);
            }
            assert(right_indices(out).contains(out[k].1->0)) by {
                crate::matching::lemma_right_member(out, k);
            }
            assert(seek_right(i, j) || seek_left(j, i));
        }
    }
    result
}

} // verus!
