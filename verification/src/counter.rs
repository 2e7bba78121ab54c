//! The pair counter: the pairs inside a cell, the pairs between a cell and
//! the neighbours of its stencil, and the sum over all occupied cells.

use vstd::prelude::*;
use dashmap::DashMap;
use crate::equivalence::{lemma_map_total_is_pair_count, lemma_total_same_in_any_order};
use crate::geometry::{
    Cell,
    Point,
    cell_admitted,
    close_enough,
    cutoff_sq,
    indexable,
    is_pair,
    square_cutoff,
};
use crate::grid::{
    CountError,
    admits_all,
    all_indexable,
    build_grid,
    cells_of,
    grid_of,
    lists_cells,
    map_keys,
    map_points,
    occupied_of,
    points_at,
};
use crate::stencil::{get_surrounding_cells, parity_class, stencil};

verus! {

/// How many points of `points` form a pair with `p`.
pub open spec fn close_to(points: Seq<Point>, p: Point, limit_sq: int) -> nat
    decreases points.len(),
{
    if points.len() == 0 {
        0
    } else {
        close_to(points.drop_last(), p, limit_sq) + if is_pair(points.last(), p, limit_sq) {
            1nat
        } else {
            0nat
        }
    }
}

/// How many pairs take one point from `a` and one from `b`.
pub open spec fn cross_count(a: Seq<Point>, b: Seq<Point>, limit_sq: int) -> nat
    decreases a.len(),
{
    if a.len() == 0 {
        0
    } else {
        cross_count(a.drop_last(), b, limit_sq) + close_to(b, a.last(), limit_sq)
    }
}

/// How many pairs lie among the points of one sequence, each unordered pair
/// of places counted once. On the whole input this is the count that
/// compares every point with every other.
pub open spec fn intra_count(points: Seq<Point>, limit_sq: int) -> nat
    decreases points.len(),
{
    if points.len() == 0 {
        0
    } else {
        intra_count(points.drop_last(), limit_sq) + close_to(
            points.drop_last(),
            points.last(),
            limit_sq,
        )
    }
}

/// The number of unordered pairs of points that are closer than the cutoff.
pub open spec fn pair_count(points: Seq<Point>, cutoff: u32) -> nat {
    intra_count(points, cutoff_sq(cutoff))
}

/// How many pairs lie between the points `home` and the points of the
/// listed cells.
pub open spec fn stencil_count(
    cells: Map<Cell, Seq<Point>>,
    home: Seq<Point>,
    listed: Seq<Cell>,
    limit_sq: int,
) -> nat
    decreases listed.len(),
{
    if listed.len() == 0 {
        0
    } else {
        stencil_count(cells, home, listed.drop_last(), limit_sq) + cross_count(
            points_at(cells, listed.last()),
            home,
            limit_sq,
        )
    }
}

/// The count of one cell: the pairs with the neighbours of its stencil and
/// the pairs among its own points.
pub open spec fn cell_pairs(cells: Map<Cell, Seq<Point>>, cell: Cell, limit_sq: int) -> nat {
    stencil_count(cells, points_at(cells, cell), stencil(cell), limit_sq) + intra_count(
        points_at(cells, cell),
        limit_sq,
    )
}

/// The sum of the counts of the listed cells.
pub open spec fn total_over(cells: Map<Cell, Seq<Point>>, listed: Seq<Cell>, limit_sq: int) -> nat
    decreases listed.len(),
{
    if listed.len() == 0 {
        0
    } else {
        total_over(cells, listed.drop_last(), limit_sq) + cell_pairs(
            cells,
            listed.last(),
            limit_sq,
        )
    }
}

/// The sum of the counts of all occupied cells. The order in which the cells
/// are taken does not change it.
pub open spec fn map_total(cells: Map<Cell, Seq<Point>>, limit_sq: int) -> nat {
    total_over(cells, choose|listed: Seq<Cell>| lists_cells(listed, cells), limit_sq)
}

/// The total that the grid of `points` gives under `cutoff`, its cells taken
/// in the order in which each was first occupied.
pub open spec fn grid_total(points: Seq<Point>, cutoff: u32) -> nat {
    total_over(grid_of(points, cutoff), occupied_of(points, cutoff), cutoff_sq(cutoff))
}

/// No more points of a list form a pair with `p` than the list holds.
proof fn lemma_close_to_bound(points: Seq<Point>, p: Point, limit_sq: int)
    ensures
        close_to(points, p, limit_sq) <= points.len(),
    decreases points.len(),
{
    if points.len() > 0 {
        lemma_close_to_bound(points.drop_last(), p, limit_sq);
    }
}

/// Among `n` points there are at most `n * n - n` pairs, so the count of at
/// most 2^32 points fits the counter.
pub proof fn lemma_pair_count_bound(points: Seq<Point>, limit_sq: int)
    ensures
        intra_count(points, limit_sq) <= points.len() * points.len() - points.len(),
        points.len() <= 0x1_0000_0000 ==> intra_count(points, limit_sq) <= u64::MAX,
    decreases points.len(),
{
    let n = points.len() as int;
    if n > 0 {
        lemma_pair_count_bound(points.drop_last(), limit_sq);
        lemma_close_to_bound(points.drop_last(), points.last(), limit_sq);
        assert((n - 1) * (n - 1) - (n - 1) + (n - 1) <= n * n - n) by (nonlinear_arith)
            requires
                n >= 1,
        ;
    }
    assert(n <= 0x1_0000_0000 ==> n * n - n <= u64::MAX) by (nonlinear_arith)
        requires
            n >= 0,
    ;
}

proof fn lemma_cross_prefix(a: Seq<Point>, b: Seq<Point>, limit_sq: int, k: int)
    requires
        0 <= k <= a.len(),
    ensures
        cross_count(a.take(k), b, limit_sq) <= cross_count(a, b, limit_sq),
    decreases a.len(),
{
    if k == a.len() {
        assert(a.take(k) == a);
    } else {
        lemma_cross_prefix(a.drop_last(), b, limit_sq, k);
        assert(a.drop_last().take(k) == a.take(k));
    }
}

proof fn lemma_intra_prefix(points: Seq<Point>, limit_sq: int, k: int)
    requires
        0 <= k <= points.len(),
    ensures
        intra_count(points.take(k), limit_sq) <= intra_count(points, limit_sq),
    decreases points.len(),
{
    if k == points.len() {
        assert(points.take(k) == points);
    } else {
        lemma_intra_prefix(points.drop_last(), limit_sq, k);
        assert(points.drop_last().take(k) == points.take(k));
    }
}

proof fn lemma_stencil_prefix(
    cells: Map<Cell, Seq<Point>>,
    home: Seq<Point>,
    listed: Seq<Cell>,
    limit_sq: int,
    k: int,
)
    requires
        0 <= k <= listed.len(),
    ensures
        stencil_count(cells, home, listed.take(k), limit_sq) <= stencil_count(
            cells,
            home,
            listed,
            limit_sq,
        ),
    decreases listed.len(),
{
    if k == listed.len() {
        assert(listed.take(k) == listed);
    } else {
        lemma_stencil_prefix(cells, home, listed.drop_last(), limit_sq, k);
        assert(listed.drop_last().take(k) == listed.take(k));
    }
}

proof fn lemma_total_prefix(cells: Map<Cell, Seq<Point>>, listed: Seq<Cell>, limit_sq: int, k: int)
    requires
        0 <= k <= listed.len(),
    ensures
        total_over(cells, listed.take(k), limit_sq) <= total_over(cells, listed, limit_sq),
    decreases listed.len(),
{
    if k == listed.len() {
        assert(listed.take(k) == listed);
    } else {
        lemma_total_prefix(cells, listed.drop_last(), limit_sq, k);
        assert(listed.drop_last().take(k) == listed.take(k));
    }
}

/// Counts the points among the first `upto` of `points` that form a pair
/// with `p`.
fn count_close(points: &Vec<Point>, upto: usize, p: Point, maximum_distance_sq: u64) -> (n: u64)
    requires
        upto <= points@.len(),
    ensures
        n as nat == close_to(points@.take(upto as int), p, maximum_distance_sq as int),
{
    let mut n: u64 = 0;
    let mut j: usize = 0;
    while j < upto
        invariant
            j <= upto <= points@.len(),
            n <= j,
            n as nat == close_to(points@.take(j as int), p, maximum_distance_sq as int),
        decreases upto - j,
    {
        proof {
            assert(points@.take(j + 1).drop_last() == points@.take(j as int));
        }
        if close_enough(points[j], p, maximum_distance_sq) {
            n = n + 1;
        }
        j = j + 1;
    }
    n
}

/// Counts the pairs between two lists of points. `None` when the count
/// exceeds the range of the counter.
pub fn count_cross(a: &Vec<Point>, b: &Vec<Point>, maximum_distance_sq: u64) -> (count: Option<u64>)
    ensures
        match count {
            Some(n) => n as nat == cross_count(a@, b@, maximum_distance_sq as int),
            None => cross_count(a@, b@, maximum_distance_sq as int) > u64::MAX,
        },
{
    let mut count: u64 = 0;
    let mut i: usize = 0;
    while i < a.len()
        invariant
            i <= a@.len(),
            count as nat == cross_count(a@.take(i as int), b@, maximum_distance_sq as int),
        decreases a@.len() - i,
    {
        proof {
            assert(a@.take(i + 1).drop_last() == a@.take(i as int));
            assert(b@.take(b@.len() as int) == b@);
            lemma_cross_prefix(a@, b@, maximum_distance_sq as int, i + 1);
        }
        let near: u64 = count_close(b, b.len(), a[i], maximum_distance_sq);
        match count.checked_add(near) {
            Some(sum) => {
                count = sum;
            },
            None => {
                return None;
            },
        }
        i = i + 1;
    }
    proof {
        assert(a@.take(i as int) == a@);
    }
    Some(count)
}

/// Counts the pairs among the points of one list, each unordered pair of
/// places once. `None` when the count exceeds the range of the counter.
pub fn count_within(points: &Vec<Point>, maximum_distance_sq: u64) -> (count: Option<u64>)
    ensures
        match count {
            Some(n) => n as nat == intra_count(points@, maximum_distance_sq as int),
            None => intra_count(points@, maximum_distance_sq as int) > u64::MAX,
        },
{
    let mut count: u64 = 0;
    let mut i: usize = 0;
    while i < points.len()
        invariant
            i <= points@.len(),
            count as nat == intra_count(points@.take(i as int), maximum_distance_sq as int),
        decreases points@.len() - i,
    {
        proof {
            assert(points@.take(i + 1).drop_last() == points@.take(i as int));
            lemma_intra_prefix(points@, maximum_distance_sq as int, i + 1);
        }
        let near: u64 = count_close(points, i, points[i], maximum_distance_sq);
        match count.checked_add(near) {
            Some(sum) => {
                count = sum;
            },
            None => {
                return None;
            },
        }
        i = i + 1;
    }
    proof {
        assert(points@.take(i as int) == points@);
    }
    Some(count)
}

/// The count of one cell: the pairs between its points and those of each
/// occupied neighbour of its stencil, and the pairs among its own points;
/// zero for a cell that is not occupied. `None` when the count exceeds the
/// range of the counter.
pub fn count_pairs(
    cell: &Cell,
    grid_map: &DashMap<Cell, Vec<Point>>,
    maximum_distance_sq: u64,
) -> (count: Option<u64>)
    requires
        cell_admitted(*cell),
    ensures
        match count {
            Some(n) => n as nat == cell_pairs(cells_of(*grid_map), *cell, maximum_distance_sq as int),
            None => cell_pairs(cells_of(*grid_map), *cell, maximum_distance_sq as int) > u64::MAX,
        },
{
    let ghost cells = cells_of(*grid_map);
    let ghost limit_sq = maximum_distance_sq as int;
    let domestic_points: Vec<Point> = match map_points(grid_map, cell) {
        Some(found) => found,
        None => Vec::new(),
    };
    assert(domestic_points@ == points_at(cells, *cell));
    let shard_key: u8 = parity_class(cell);
    let surrounding_cells: Vec<Cell> = get_surrounding_cells(cell, shard_key);
    let mut pair_count: u64 = 0;
    let mut k: usize = 0;
    while k < surrounding_cells.len()
        invariant
            k <= surrounding_cells@.len(),
            cells == cells_of(*grid_map),
            limit_sq == maximum_distance_sq as int,
            surrounding_cells@ == stencil(*cell),
            domestic_points@ == points_at(cells, *cell),
            pair_count as nat == stencil_count(
                cells,
                domestic_points@,
                surrounding_cells@.take(k as int),
                limit_sq,
            ),
        decreases surrounding_cells@.len() - k,
    {
        proof {
            assert(surrounding_cells@.take(k + 1).drop_last() == surrounding_cells@.take(k as int));
            lemma_stencil_prefix(cells, domestic_points@, surrounding_cells@, limit_sq, k + 1);
        }
        if let Some(sur_points) = map_points(grid_map, &surrounding_cells[k]) {
            assert(sur_points@ == points_at(cells, surrounding_cells@[k as int]));
            match count_cross(&sur_points, &domestic_points, maximum_distance_sq) {
                Some(cross) => match pair_count.checked_add(cross) {
                    Some(sum) => {
                        pair_count = sum;
                    },
                    None => {
                        return None;
                    },
                },
                None => {
                    return None;
                },
            }
        }
        k = k + 1;
    }
    proof {
        assert(surrounding_cells@.take(k as int) == surrounding_cells@);
    }
    match count_within(&domestic_points, maximum_distance_sq) {
        Some(inside) => pair_count.checked_add(inside),
        None => None,
    }
}

/// Adds up the counts of all occupied cells of a grid, in the order in which
/// the map hands them out. `None` when the sum exceeds the range of the
/// counter.
pub fn sum_cell_counts(
    grid_map: &DashMap<Cell, Vec<Point>>,
    maximum_distance_sq: u64,
) -> (total: Option<u64>)
    requires
        admits_all(cells_of(*grid_map)),
    ensures
        match total {
            Some(n) => n as nat == map_total(cells_of(*grid_map), maximum_distance_sq as int),
            None => map_total(cells_of(*grid_map), maximum_distance_sq as int) > u64::MAX,
        },
{
    let ghost cells = cells_of(*grid_map);
    let ghost limit_sq = maximum_distance_sq as int;
    let keys: Vec<Cell> = map_keys(grid_map);
    proof {
        let chosen = choose|listed: Seq<Cell>| lists_cells(listed, cells);
        lemma_total_same_in_any_order(cells, keys@, chosen, limit_sq);
    }
    let mut total: u64 = 0;
    let mut i: usize = 0;
    while i < keys.len()
        invariant
            i <= keys@.len(),
            cells == cells_of(*grid_map),
            limit_sq == maximum_distance_sq as int,
            admits_all(cells),
            lists_cells(keys@, cells),
            total_over(cells, keys@, limit_sq) == map_total(cells, limit_sq),
            total as nat == total_over(cells, keys@.take(i as int), limit_sq),
        decreases keys@.len() - i,
    {
        proof {
            assert(keys@.take(i + 1).drop_last() == keys@.take(i as int));
            lemma_total_prefix(cells, keys@, limit_sq, i + 1);
            assert(keys@.contains(keys@[i as int]));
        }
        match count_pairs(&keys[i], grid_map, maximum_distance_sq) {
            Some(part) => match total.checked_add(part) {
                Some(sum) => {
                    total = sum;
                },
                None => {
                    return None;
                },
            },
            None => {
                return None;
            },
        }
        i = i + 1;
    }
    proof {
        assert(keys@.take(i as int) == keys@);
    }
    Some(total)
}

/// Counts the unordered pairs of points whose distance is strictly below the
/// cutoff: builds the grid, counts cell by cell, and adds up. The total is
/// the number of pairs that comparing every point with every other finds.
pub fn count_pairs_under_cutoff(points: &Vec<Point>, maximum_distance: u32) -> (total: Result<
    u64,
    CountError,
>)
    requires
        maximum_distance > 0,
    ensures
        match total {
            Ok(n) => {
                &&& all_indexable(points@, maximum_distance)
                &&& n as nat == pair_count(points@, maximum_distance)
            },
            Err(CountError::CellIndexOverflow { record }) => {
                &&& record < points@.len()
                &&& !indexable(points@[record as int], maximum_distance)
                &&& all_indexable(points@.take(record as int), maximum_distance)
            },
            Err(CountError::CountOverflow) => {
                &&& all_indexable(points@, maximum_distance)
                &&& pair_count(points@, maximum_distance) > u64::MAX
                &&& points@.len() > 0x1_0000_0000
            },
        },
{
    let maximum_distance_sq: u64 = square_cutoff(maximum_distance);
    match build_grid(points, maximum_distance) {
        Err(error) => Err(error),
        Ok(grid_map) => {
            proof {
                lemma_map_total_is_pair_count(points@, maximum_distance);
                lemma_pair_count_bound(points@, cutoff_sq(maximum_distance));
            }
            match sum_cell_counts(&grid_map, maximum_distance_sq) {
                Some(n) => Ok(n),
                None => Err(CountError::CountOverflow),
            }
        },
    }
}

} // verus!
