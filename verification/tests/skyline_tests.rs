use skyline::dominance::dominates;
use skyline::parallel::{local_skyline, merge_skyline, parallel_skyline};
use skyline::partition::partition;
use skyline::points::{Points, SkylineError};
use skyline::serial::skyline;

fn collection(rows: Vec<Vec<i64>>, d: usize) -> Points {
    Points::new(rows, d).expect("collection must be well-formed")
}

fn count_true(mask: &[bool]) -> usize {
    mask.iter().filter(|&&b| b).count()
}

#[test]
fn dominates_basic() {
    assert!(dominates(&[2, 2], &[1, 1]));
    assert!(!dominates(&[1, 1], &[2, 2]));
    // equal points never dominate each other
    assert!(!dominates(&[5, 5], &[5, 5]));
    // incomparable points: each is better somewhere
    assert!(!dominates(&[2, 2], &[0, 3]));
    assert!(!dominates(&[0, 3], &[2, 2]));
    // at least as good everywhere with one strict coordinate suffices
    assert!(dominates(&[3, 3, 3], &[1, 2, 3]));
}

#[test]
fn scenario_two_dim() {
    let pts = collection(vec![vec![1, 1], vec![2, 2], vec![0, 3]], 2);
    let (mask, count) = skyline(&pts);
    assert_eq!(mask, vec![false, true, true]);
    assert_eq!(count, 2);
}

#[test]
fn scenario_duplicates() {
    let pts = collection(vec![vec![5, 5], vec![5, 5], vec![1, 1]], 2);
    let (mask, count) = skyline(&pts);
    assert_eq!(mask, vec![true, true, false]);
    assert_eq!(count, 2);
    let (pmask, pcount) = parallel_skyline(&pts, 2);
    assert_eq!(pmask, vec![true, true, false]);
    assert_eq!(pcount, 2);
}

#[test]
fn scenario_three_dim() {
    let pts = collection(
        vec![vec![3, 3, 3], vec![1, 2, 3], vec![4, 1, 2], vec![0, 0, 0]],
        3,
    );
    let (mask, count) = skyline(&pts);
    assert_eq!(mask, vec![true, false, true, false]);
    assert_eq!(count, 2);
    let (pmask, pcount) = parallel_skyline(&pts, 3);
    assert_eq!(pmask, vec![true, false, true, false]);
    assert_eq!(pcount, 2);
}

#[test]
fn empty_collection() {
    let pts = collection(vec![], 2);
    let (mask, count) = skyline(&pts);
    assert!(mask.is_empty());
    assert_eq!(count, 0);
    let (pmask, pcount) = parallel_skyline(&pts, 4);
    assert!(pmask.is_empty());
    assert_eq!(pcount, 0);
}

#[test]
fn single_point() {
    let pts = collection(vec![vec![-7, 42]], 2);
    let (mask, count) = skyline(&pts);
    assert_eq!(mask, vec![true]);
    assert_eq!(count, 1);
    let (pmask, pcount) = parallel_skyline(&pts, 8);
    assert_eq!(pmask, vec![true]);
    assert_eq!(pcount, 1);
}

#[test]
fn parallel_matches_serial_for_every_worker_count() {
    let rows = vec![
        vec![4, 1],
        vec![1, 4],
        vec![3, 3],
        vec![2, 2],
        vec![3, 3],
        vec![0, 0],
        vec![5, 0],
        vec![0, 5],
        vec![2, 4],
        vec![4, 2],
    ];
    let pts = collection(rows, 2);
    let (smask, scount) = skyline(&pts);
    // a worker count of zero is treated as one
    for workers in 0..12 {
        let (pmask, pcount) = parallel_skyline(&pts, workers);
        assert_eq!(pmask, smask);
        assert_eq!(pcount, scount);
    }
}

#[test]
fn count_equals_true_entries() {
    let pts = collection(
        vec![vec![1, 2, 3], vec![3, 2, 1], vec![2, 2, 2], vec![3, 3, 3]],
        3,
    );
    let (mask, count) = skyline(&pts);
    assert_eq!(count, count_true(&mask));
    let (pmask, pcount) = parallel_skyline(&pts, 2);
    assert_eq!(pcount, count_true(&pmask));
}

#[test]
fn permutation_keeps_skyline_coordinates() {
    let rows = vec![vec![1, 1], vec![2, 2], vec![0, 3], vec![1, 3], vec![3, 0]];
    let permuted = vec![vec![3, 0], vec![0, 3], vec![2, 2], vec![1, 1], vec![1, 3]];
    let pts = collection(rows.clone(), 2);
    let ppts = collection(permuted.clone(), 2);
    let (mask, _) = skyline(&pts);
    let (pmask, _) = skyline(&ppts);
    let mut sky: Vec<Vec<i64>> = rows
        .iter()
        .zip(mask.iter())
        .filter(|(_, &m)| m)
        .map(|(r, _)| r.clone())
        .collect();
    let mut psky: Vec<Vec<i64>> = permuted
        .iter()
        .zip(pmask.iter())
        .filter(|(_, &m)| m)
        .map(|(r, _)| r.clone())
        .collect();
    sky.sort();
    psky.sort();
    assert_eq!(sky, psky);
}

#[test]
fn rejects_low_dimension() {
    assert_eq!(
        Points::new(vec![vec![1]], 1).unwrap_err(),
        SkylineError::InvalidPointCollection
    );
}

#[test]
fn rejects_ragged_rows() {
    assert_eq!(
        Points::new(vec![vec![1, 2], vec![3]], 2).unwrap_err(),
        SkylineError::InvalidPointCollection
    );
}

#[test]
fn partition_covers_range_in_ceil_chunks() {
    assert_eq!(partition(10, 3), vec![(0, 4), (4, 8), (8, 10)]);
    assert_eq!(partition(10, 1), vec![(0, 10)]);
    // fewer chunks than workers when workers exceed the point count
    assert_eq!(partition(3, 8), vec![(0, 1), (1, 2), (2, 3)]);
    assert_eq!(partition(0, 4), vec![]);
    assert_eq!(partition(6, 2), vec![(0, 3), (3, 6)]);
}

#[test]
fn local_filter_ignores_other_ranges() {
    // index 0 dominates everything but lies outside the filtered range
    let pts = collection(vec![vec![10, 10], vec![1, 1], vec![2, 2]], 2);
    assert_eq!(local_skyline(&pts, 1, 3), vec![2]);
    // over the full range the global dominator wins alone
    assert_eq!(local_skyline(&pts, 0, 3), vec![0]);
    assert_eq!(local_skyline(&pts, 0, 0), Vec::<usize>::new());
}

#[test]
fn merge_of_all_indices_is_the_serial_skyline() {
    let pts = collection(
        vec![vec![4, 1], vec![1, 4], vec![2, 2], vec![3, 3], vec![0, 0]],
        2,
    );
    let all: Vec<usize> = (0..5).collect();
    let (mmask, mcount) = merge_skyline(&pts, &all);
    let (smask, scount) = skyline(&pts);
    assert_eq!(mmask, smask);
    assert_eq!(mcount, scount);
}

#[test]
fn negative_coordinates() {
    let pts = collection(vec![vec![-1, -1], vec![-2, -2], vec![-1, -3]], 2);
    let (mask, count) = skyline(&pts);
    assert_eq!(mask, vec![true, false, false]);
    assert_eq!(count, 1);
    let (pmask, pcount) = parallel_skyline(&pts, 2);
    assert_eq!(pmask, mask);
    assert_eq!(pcount, count);
}
