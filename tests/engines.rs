use asm_diff::{align, diff, DiffTable, MatchingPair};

fn pairs(v: &[(i64, i64)]) -> Vec<MatchingPair> {
    v.iter()
        .map(|&(l, r)| {
            (
                if l < 0 { None } else { Some(l as usize) },
                if r < 0 { None } else { Some(r as usize) },
            )
        })
        .collect()
}

#[test]
fn test() {
    let a = vec!["a", "b", "c", "d"];
    let b = vec!["a", "e", "b", "c", "d"];
    let r = diff(&a, &b, |c, d| c == d);
    assert_eq!(r, pairs(&[(0, 0), (-1, 1), (1, 2), (2, 3), (3, 4)]));
}

#[test]
fn diff_covers_every_index_once() {
    let a = vec![1, 2, 3, 4, 5, 6];
    let b = vec![9, 2, 8, 4, 6, 7, 1];
    let r = diff(&a, &b, |x, y| x == y);
    let mut lefts: Vec<usize> = r.iter().filter_map(|p| p.0).collect();
    let mut rights: Vec<usize> = r.iter().filter_map(|p| p.1).collect();
    assert_eq!(lefts, (0..a.len()).collect::<Vec<_>>());
    assert_eq!(rights, (0..b.len()).collect::<Vec<_>>());
    lefts.dedup();
    rights.dedup();
    assert_eq!(lefts.len(), a.len());
    assert_eq!(rights.len(), b.len());
}

#[test]
fn diff_matches_increase_on_both_sides() {
    let a = vec!['x', 'a', 'b', 'y', 'c'];
    let b = vec!['a', 'z', 'b', 'c', 'x'];
    let r = diff(&a, &b, |x, y| x == y);
    let matched: Vec<(usize, usize)> = r
        .iter()
        .filter_map(|p| match p {
            (Some(l), Some(r)) => Some((*l, *r)),
            _ => None,
        })
        .collect();
    assert_eq!(matched, vec![(1, 0), (2, 2), (4, 3)]);
    for w in matched.windows(2) {
        assert!(w[0].0 < w[1].0 && w[0].1 < w[1].1);
    }
}

#[test]
fn diff_gap_puts_deletions_before_insertions() {
    let a = vec!["p", "x", "q"];
    let b = vec!["p", "y", "q"];
    let r = diff(&a, &b, |c, d| c == d);
    assert_eq!(r, pairs(&[(0, 0), (1, -1), (-1, 1), (2, 2)]));
}

#[test]
fn diff_of_list_with_itself_is_identity() {
    let a = vec![10, 20, 30, 40];
    let r = diff(&a, &a, |x, y| x == y);
    assert_eq!(r, pairs(&[(0, 0), (1, 1), (2, 2), (3, 3)]));
}

#[test]
fn diff_from_empty_is_pure_insertion() {
    let a: Vec<u32> = vec![];
    let b = vec![5, 6, 7];
    let r = diff(&a, &b, |x, y| x == y);
    assert_eq!(r, pairs(&[(-1, 0), (-1, 1), (-1, 2)]));
}

#[test]
fn diff_to_empty_is_pure_deletion() {
    let a = vec![5, 6];
    let b: Vec<u32> = vec![];
    let r = diff(&a, &b, |x, y| x == y);
    assert_eq!(r, pairs(&[(0, -1), (1, -1)]));
}

#[test]
fn diff_of_two_empty_lists_is_empty() {
    let a: Vec<u32> = vec![];
    let r = diff(&a, &a, |x, y| x == y);
    assert!(r.is_empty());
}

#[test]
fn diff_breaks_ties_by_first_cell_in_row_major_order() {
    let a = vec!['a', 'a'];
    let b = vec!['a'];
    let r = diff(&a, &b, |x, y| x == y);
    assert_eq!(r, pairs(&[(0, 0), (1, -1)]));
}

#[test]
fn diff_with_trailing_gaps() {
    let a = vec![1, 2, 3];
    let b = vec![1, 4, 5];
    let r = diff(&a, &b, |x, y| x == y);
    assert_eq!(r, pairs(&[(0, 0), (1, -1), (2, -1), (-1, 1), (-1, 2)]));
}

#[test]
fn chain_table_and_trace() {
    let mut t = DiffTable::new(3, 2);
    assert_eq!(t.get(2, 1), 0);
    t.set(0, 0, 1);
    t.set(1, 1, 1);
    t.set(2, 1, 1);
    t.calculate_lengths();
    assert_eq!(t.get(0, 0), 1);
    assert_eq!(t.get(1, 1), 2);
    assert_eq!(t.get(2, 1), 2);
    assert_eq!(t.get(1, 0), 0);
    assert_eq!(t.find_indices(), vec![(0, 0), (1, 1)]);
}

#[test]
fn align_tolerates_reordering() {
    let a = vec!['a', 'b', 'c'];
    let b = vec!['c', 'a', 'b'];
    let r = align(&a, &b, |x, y| x == y);
    assert_eq!(r.len(), 3);
    assert!(r.iter().all(|p| p.0.is_some() && p.1.is_some()));
    assert_eq!(r, pairs(&[(0, 1), (2, 0), (1, 2)]));
}

#[test]
fn align_covers_every_index_once() {
    let a = vec![1, 2, 2, 3, 7];
    let b = vec![2, 4, 3, 2, 2];
    let r = align(&a, &b, |x, y| x == y);
    let mut lefts: Vec<usize> = r.iter().filter_map(|p| p.0).collect();
    let mut rights: Vec<usize> = r.iter().filter_map(|p| p.1).collect();
    lefts.sort();
    rights.sort();
    assert_eq!(lefts, (0..a.len()).collect::<Vec<_>>());
    assert_eq!(rights, (0..b.len()).collect::<Vec<_>>());
    assert_eq!(r, pairs(&[(0, -1), (1, 0), (-1, 1), (2, 3), (3, 2), (4, -1), (-1, 4)]));
}

#[test]
fn align_with_empty_side() {
    let a: Vec<u8> = vec![];
    let b = vec![1, 2];
    assert_eq!(align(&a, &b, |x, y| x == y), pairs(&[(-1, 0), (-1, 1)]));
    assert_eq!(align(&b, &a, |x, y| x == y), pairs(&[(0, -1), (1, -1)]));
}

#[test]
fn align_scans_with_visited_element_second() {
    let a = vec![1];
    let b = vec![2];
    let r = align(&a, &b, |x: &i32, y: &i32| *x == *y + 1);
    assert_eq!(r, pairs(&[(0, 0)]));
}
