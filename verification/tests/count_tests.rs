use cell_pairs::counter::{
    count_cross, count_pairs, count_pairs_under_cutoff, count_within, sum_cell_counts,
};
use cell_pairs::geometry::{close_enough, sort_into_cell, square_cutoff, Cell, Point};
use dashmap::DashMap;
use rayon::iter::{IntoParallelRefIterator, ParallelIterator};
use cell_pairs::grid::{build_grid, CountError};

fn brute_force(points: &Vec<Point>, cutoff: u32) -> u64 {
    let sq = square_cutoff(cutoff);
    let mut n = 0;
    for i in 0..points.len() {
        for j in 0..i {
            if close_enough(points[i], points[j], sq) {
                n += 1;
            }
        }
    }
    n
}

fn scattered(n: usize, seed: u64, spread: i64) -> Vec<Point> {
    let mut state = seed;
    let mut next = move || {
        state = state.wrapping_mul(6364136223846793005).wrapping_add(1442695040888963407);
        ((state >> 33) as i64 % (2 * spread)) - spread
    };
    let mut points = Vec::new();
    for _ in 0..n {
        points.push((next(), next(), next()));
    }
    points
}

#[test]
fn three_points_one_pair() {
    let points = vec![(0, 0, 0), (0, 0, 10), (0, 0, 200)];
    assert_eq!(count_pairs_under_cutoff(&points, 50), Ok(1));
}

#[test]
fn empty_input_counts_zero() {
    let points: Vec<Point> = Vec::new();
    assert_eq!(count_pairs_under_cutoff(&points, 50), Ok(0));
}

#[test]
fn single_point_counts_zero() {
    assert_eq!(count_pairs_under_cutoff(&vec![(5, 5, 5)], 50), Ok(0));
}

#[test]
fn cluster_of_five_counts_ten() {
    let points = vec![
        (100000, 100000, 100000),
        (100400, 100000, 100000),
        (100000, 100400, 100000),
        (100000, 100000, 100400),
        (100300, 100300, 100300),
    ];
    assert_eq!(count_pairs_under_cutoff(&points, 50000), Ok(10));
}

#[test]
fn duplicate_points_count_separately() {
    let points = vec![(1, 1, 1), (1, 1, 1), (1, 1, 1)];
    assert_eq!(count_pairs_under_cutoff(&points, 50), Ok(3));
}

#[test]
fn boundary_of_the_cutoff() {
    assert_eq!(count_pairs_under_cutoff(&vec![(0, 0, 0), (0, 0, 50)], 50), Ok(0));
    assert_eq!(count_pairs_under_cutoff(&vec![(0, 0, 0), (0, 0, 49)], 50), Ok(1));
    assert_eq!(count_pairs_under_cutoff(&vec![(0, 0, 0), (0, 0, 51)], 50), Ok(0));
    assert_eq!(count_pairs_under_cutoff(&vec![(10, 0, 0), (40, 40, 0)], 50), Ok(0));
    assert_eq!(count_pairs_under_cutoff(&vec![(10, 0, 0), (40, 39, 0)], 50), Ok(1));
}

#[test]
fn pairs_across_cells_are_found_once() {
    assert_eq!(count_pairs_under_cutoff(&vec![(49, 0, 0), (51, 0, 0)], 50), Ok(1));
    assert_eq!(count_pairs_under_cutoff(&vec![(51, 0, 0), (49, 0, 0)], 50), Ok(1));
    assert_eq!(count_pairs_under_cutoff(&vec![(-1, -1, -1), (1, 1, 1)], 50), Ok(1));
    assert_eq!(count_pairs_under_cutoff(&vec![(49, 49, 49), (51, 51, 51)], 50), Ok(1));
    assert_eq!(count_pairs_under_cutoff(&vec![(49, 51, 49), (51, 49, 51)], 50), Ok(1));
}

#[test]
fn pairs_across_every_neighbouring_cell() {
    for cx in -2i64..2 {
        for cy in -2i64..2 {
            for cz in -2i64..2 {
                let here = (cx * 10 + 5, cy * 10 + 5, cz * 10 + 5);
                let mut points = vec![here];
                for dx in -1i64..2 {
                    for dy in -1i64..2 {
                        for dz in -1i64..2 {
                            if dx != 0 || dy != 0 || dz != 0 {
                                points.push((here.0 + 5 * dx, here.1 + 5 * dy, here.2 + 5 * dz));
                            }
                        }
                    }
                }
                assert_eq!(count_pairs_under_cutoff(&points, 10), Ok(brute_force(&points, 10)));
            }
        }
    }
}

#[test]
fn equals_brute_force_on_scattered_points() {
    for seed in 1..6u64 {
        let points = scattered(600, seed, 400);
        let expected = brute_force(&points, 50);
        assert!(expected > 0);
        assert_eq!(count_pairs_under_cutoff(&points, 50), Ok(expected));
    }
}

#[test]
fn equals_brute_force_on_dense_points() {
    let points = scattered(400, 99, 60);
    assert_eq!(count_pairs_under_cutoff(&points, 50), Ok(brute_force(&points, 50)));
    assert_eq!(count_pairs_under_cutoff(&points, 7), Ok(brute_force(&points, 7)));
    assert_eq!(count_pairs_under_cutoff(&points, 1), Ok(brute_force(&points, 1)));
    assert_eq!(count_pairs_under_cutoff(&points, 1000), Ok(brute_force(&points, 1000)));
}

#[test]
fn repeated_runs_give_one_total() {
    let points = scattered(500, 7, 300);
    let first = count_pairs_under_cutoff(&points, 50);
    let second = count_pairs_under_cutoff(&points, 50);
    let third = count_pairs_under_cutoff(&points, 50);
    assert_eq!(first, second);
    assert_eq!(second, third);
}

#[test]
fn total_does_not_depend_on_the_order_of_the_cells() {
    let points = scattered(300, 11, 200);
    let sq = square_cutoff(50);
    let grid = build_grid(&points, 50).unwrap();
    let walked = sum_cell_counts(&grid, sq).unwrap();
    let mut keys: Vec<Cell> = grid.iter().map(|entry| *entry.key()).collect();
    keys.sort();
    let mut forward = 0;
    for cell in keys.iter() {
        forward += count_pairs(cell, &grid, sq).unwrap();
    }
    let mut backward = 0;
    for cell in keys.iter().rev() {
        backward += count_pairs(cell, &grid, sq).unwrap();
    }
    assert_eq!(walked, forward);
    assert_eq!(walked, backward);
    assert_eq!(walked, brute_force(&points, 50));
}

fn total_on_a_pool(points: &Vec<Point>, cutoff: u32, workers: usize) -> u64 {
    let pool = rayon::ThreadPoolBuilder::new().num_threads(workers).build().unwrap();
    pool.install(|| {
        let sq = square_cutoff(cutoff);
        let grid: DashMap<Cell, Vec<Point>> = DashMap::new();
        points.par_iter().for_each(|&point| {
            let cell = sort_into_cell(point, cutoff).unwrap();
            grid.entry(cell).or_insert_with(Vec::new).push(point);
        });
        grid.par_iter().map(|entry| count_pairs(entry.key(), &grid, sq).unwrap()).sum()
    })
}

#[test]
fn total_is_the_same_for_every_pool_size() {
    let points = scattered(800, 23, 300);
    let expected = brute_force(&points, 50);
    assert_eq!(total_on_a_pool(&points, 50, 1), expected);
    assert_eq!(total_on_a_pool(&points, 50, 2), expected);
    assert_eq!(total_on_a_pool(&points, 50, 8), expected);
    assert_eq!(count_pairs_under_cutoff(&points, 50), Ok(expected));
}

#[test]
fn overflowing_cell_is_reported_with_its_record() {
    let points = vec![(0, 0, 0), (1, 1, 1), (0, i64::MAX, 0), (i64::MIN, 0, 0)];
    assert_eq!(
        count_pairs_under_cutoff(&points, 1),
        Err(CountError::CellIndexOverflow { record: 2 })
    );
    assert!(matches!(build_grid(&points, 1), Err(CountError::CellIndexOverflow { record: 2 })));
}

#[test]
fn grid_holds_each_point_in_its_cell() {
    let points = vec![(0, 0, 0), (60, 0, 0), (10, 0, 0), (-5, 0, 0), (70, 0, 0)];
    let grid = build_grid(&points, 50).unwrap();
    assert_eq!(grid.len(), 3);
    assert_eq!(*grid.get(&(0, 0, 0)).unwrap(), vec![(0, 0, 0), (10, 0, 0)]);
    assert_eq!(*grid.get(&(1, 0, 0)).unwrap(), vec![(60, 0, 0), (70, 0, 0)]);
    assert_eq!(*grid.get(&(-1, 0, 0)).unwrap(), vec![(-5, 0, 0)]);
    assert!(grid.get(&(2, 0, 0)).is_none());
}

#[test]
fn count_of_one_cell() {
    let points = vec![(0, 0, 0), (60, 0, 0), (10, 0, 0), (-5, 0, 0), (70, 0, 0)];
    let grid = build_grid(&points, 50).unwrap();
    let sq = square_cutoff(50);
    assert_eq!(count_pairs(&(0, 0, 0), &grid, sq), Some(3));
    assert_eq!(count_pairs(&(1, 0, 0), &grid, sq), Some(1));
    assert_eq!(count_pairs(&(-1, 0, 0), &grid, sq), Some(0));
    assert_eq!(sum_cell_counts(&grid, sq), Some(4));
    assert_eq!(brute_force(&points, 50), 4);
}

#[test]
fn pairs_between_two_lists() {
    let a = vec![(0, 0, 0), (100, 0, 0)];
    let b = vec![(10, 0, 0), (90, 0, 0), (55, 0, 0)];
    assert_eq!(count_cross(&a, &b, square_cutoff(50)), Some(3));
    assert_eq!(count_cross(&a, &b, square_cutoff(56)), Some(4));
    assert_eq!(count_cross(&a, &Vec::new(), square_cutoff(50)), Some(0));
    assert_eq!(count_cross(&Vec::new(), &b, square_cutoff(50)), Some(0));
}

#[test]
fn pairs_within_one_list() {
    let points = vec![(0, 0, 0), (10, 0, 0), (55, 0, 0), (90, 0, 0)];
    assert_eq!(count_within(&points, square_cutoff(50)), Some(3));
    assert_eq!(count_within(&points, square_cutoff(100)), Some(6));
    assert_eq!(count_within(&Vec::new(), square_cutoff(50)), Some(0));
}

#[test]
fn count_of_a_cell_without_points_is_zero() {
    let points = vec![(0, 0, 0), (10, 0, 0)];
    let grid = build_grid(&points, 50).unwrap();
    assert_eq!(count_pairs(&(1, 0, 0), &grid, square_cutoff(50)), Some(0));
    assert_eq!(count_pairs(&(7, 7, 7), &grid, square_cutoff(50)), Some(0));
}

#[test]
fn cross_pairs_are_counted_from_the_lower_class() {
    let points = vec![(45, 0, 0), (55, 0, 0)];
    let grid = build_grid(&points, 50).unwrap();
    let sq = square_cutoff(50);
    assert_eq!(count_pairs(&(0, 0, 0), &grid, sq), Some(1));
    assert_eq!(count_pairs(&(1, 0, 0), &grid, sq), Some(0));
}
