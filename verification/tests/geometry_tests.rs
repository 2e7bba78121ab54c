use cell_pairs::geometry::{admits_neighbours, close_enough, sort_into_cell, square_cutoff};

#[test]
fn squares_the_cutoff() {
    assert_eq!(square_cutoff(50), 2500);
    assert_eq!(square_cutoff(0), 0);
    assert_eq!(square_cutoff(u32::MAX), 18446744065119617025);
}

#[test]
fn cell_is_floor_of_quotient() {
    assert_eq!(sort_into_cell((0, 0, 0), 50), Some((0, 0, 0)));
    assert_eq!(sort_into_cell((49, 50, 99), 50), Some((0, 1, 1)));
    assert_eq!(sort_into_cell((100, 149, 150), 50), Some((2, 2, 3)));
}

#[test]
fn negative_coordinates_floor_downwards() {
    assert_eq!(sort_into_cell((-1, -50, -51), 50), Some((-1, -1, -2)));
    assert_eq!(sort_into_cell((-49, -100, -101), 50), Some((-1, -2, -3)));
}

#[test]
fn cell_indexing_is_stable() {
    let point = (123456, -98765, 42);
    let first = sort_into_cell(point, 50);
    let second = sort_into_cell(point, 50);
    assert_eq!(first, second);
    assert_eq!(first, Some((2469, -1976, 0)));
}

#[test]
fn cell_out_of_range_is_refused() {
    assert_eq!(sort_into_cell((i64::MAX, 0, 0), 1), None);
    assert_eq!(sort_into_cell((0, i64::MIN, 0), 1), None);
    assert_eq!(sort_into_cell((0, 0, 2147483647), 1), None);
    assert_eq!(sort_into_cell((0, 0, -2147483648), 1), None);
    assert_eq!(sort_into_cell((0, 0, 2147483646), 1), Some((0, 0, 2147483646)));
    assert_eq!(sort_into_cell((0, 0, -2147483647), 1), Some((0, 0, -2147483647)));
    assert_eq!(sort_into_cell((i64::MAX, 0, 0), u32::MAX), None);
    assert_eq!(sort_into_cell((0, i64::MIN, 0), u32::MAX), None);
    assert_eq!(
        sort_into_cell((9223372030412324864, 0, 0), u32::MAX),
        Some((2147483646, 0, 0))
    );
}

#[test]
fn distance_equal_to_cutoff_is_not_close() {
    let sq = square_cutoff(50);
    assert!(!close_enough((0, 0, 0), (0, 0, 50), sq));
    assert!(!close_enough((0, 0, 0), (30, 40, 0), sq));
}

#[test]
fn distance_just_below_cutoff_is_close() {
    let sq = square_cutoff(50);
    assert!(close_enough((0, 0, 0), (0, 0, 49), sq));
    assert!(close_enough((0, 0, 0), (30, 39, 0), sq));
    assert!(close_enough((7, 7, 7), (7, 7, 7), sq));
}

#[test]
fn distance_just_above_cutoff_is_not_close() {
    let sq = square_cutoff(50);
    assert!(!close_enough((0, 0, 0), (0, 0, 51), sq));
    assert!(!close_enough((0, 0, 0), (30, 41, 0), sq));
}

#[test]
fn distance_test_takes_the_widest_gaps() {
    assert!(!close_enough((i64::MIN, 0, 0), (i64::MAX, 0, 0), u64::MAX));
    assert!(!close_enough((0, i64::MAX, 0), (0, i64::MIN, 0), u64::MAX));
    assert!(!close_enough((0, 0, 0), (0, 0, 4294967296), u64::MAX));
    assert!(close_enough((0, 0, 0), (0, 0, 4294967295), u64::MAX));
    assert!(!close_enough((0, 0, 0), (4294967295, 4294967295, 0), u64::MAX));
    assert!(!close_enough((1, 2, 3), (1, 2, 3), 0));
}

#[test]
fn cells_at_the_rim_admit_no_neighbours() {
    assert!(admits_neighbours(&(0, 0, 0)));
    assert!(admits_neighbours(&(2147483646, -2147483647, 5)));
    assert!(!admits_neighbours(&(2147483647, 0, 0)));
    assert!(!admits_neighbours(&(0, -2147483648, 0)));
    assert!(!admits_neighbours(&(0, 0, 2147483647)));
}
