use forward_sim::clip::{find_overlaps, intervals_sorted_disjoint};

#[test]
fn find_overlaps_single_interval() {
    let intervals: Vec<(usize, usize)> = vec![(2, 5)];
    let mut out: Vec<(usize, usize)> = Vec::new();
    find_overlaps(0, 10, &intervals, &mut out);
    assert_eq!(out, vec![(2, 5)]);
}

#[test]
fn find_overlaps_whole_genome() {
    let intervals: Vec<(usize, usize)> = vec![(0, 10)];
    let mut out: Vec<(usize, usize)> = Vec::new();
    find_overlaps(3, 7, &intervals, &mut out);
    assert_eq!(out, vec![(3, 7)]);
}

#[test]
fn find_overlaps_empty_interval_list() {
    let intervals: Vec<(usize, usize)> = Vec::new();
    let mut out: Vec<(usize, usize)> = Vec::new();
    find_overlaps(0, 10, &intervals, &mut out);
    assert!(out.is_empty());
}

#[test]
fn find_overlaps_multiple_intervals() {
    let intervals: Vec<(usize, usize)> = vec![(1, 3), (4, 6), (8, 12)];
    let mut out: Vec<(usize, usize)> = Vec::new();
    find_overlaps(2, 9, &intervals, &mut out);
    assert_eq!(out, vec![(2, 3), (4, 6), (8, 9)]);
}

#[test]
fn find_overlaps_no_overlap() {
    let intervals: Vec<(usize, usize)> = vec![(0, 2), (8, 9)];
    let mut out: Vec<(usize, usize)> = Vec::new();
    find_overlaps(5, 7, &intervals, &mut out);
    assert!(out.is_empty());
}

#[test]
fn find_overlaps_clears_output_buffer() {
    let intervals: Vec<(usize, usize)> = vec![(0, 4)];
    let mut out: Vec<(usize, usize)> = vec![(100, 200), (300, 400)];
    find_overlaps(1, 3, &intervals, &mut out);
    assert_eq!(out, vec![(1, 3)]);
}

#[test]
fn sorted_disjoint_accepts_valid_lists() {
    assert!(intervals_sorted_disjoint(&Vec::new()));
    assert!(intervals_sorted_disjoint(&vec![(2, 5)]));
    assert!(intervals_sorted_disjoint(&vec![(0, 2), (2, 5), (7, 7)]));
}

#[test]
fn sorted_disjoint_rejects_reversed_interval() {
    assert!(!intervals_sorted_disjoint(&vec![(5, 2)]));
}

#[test]
fn sorted_disjoint_rejects_overlapping_intervals() {
    assert!(!intervals_sorted_disjoint(&vec![(0, 3), (2, 5)]));
}
