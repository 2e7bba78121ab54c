//! The total of the grid equals the count that compares every point with
//! every other.

use vstd::prelude::*;
use crate::counter::{
    cell_pairs,
    close_to,
    cross_count,
    grid_total,
    intra_count,
    map_total,
    pair_count,
    stencil_count,
    total_over,
};
use crate::geometry::{
    Cell,
    Point,
    cell_of,
    cutoff_sq,
    indexable,
    is_pair,
    lemma_pair_cells_touch,
    lemma_pair_symmetric,
};
use crate::grid::{
    all_indexable,
    grid_of,
    lemma_grid_consistent,
    lemma_listed_after_point,
    listed_after,
    lists_cells,
    occupied_of,
    points_at,
    with_point,
};
use crate::stencil::{
    adjacent,
    lemma_claimed_by_one_side,
    lemma_stencil_distinct,
    lemma_stencil_members,
    stencil,
};
use crate::sums::{lemma_sum_add, lemma_sum_pointwise, lemma_sum_single, lemma_sum_swap, sum_over};

verus! {

/// One if the two points form a pair, else zero.
pub open spec fn pair_unit(q: Point, p: Point, limit_sq: int) -> nat {
    if is_pair(q, p, limit_sq) {
        1
    } else {
        0
    }
}

proof fn lemma_close_to_push(s: Seq<Point>, q: Point, p: Point, t: int)
    ensures
        close_to(s.push(q), p, t) == close_to(s, p, t) + pair_unit(q, p, t),
{
    assert(s.push(q).drop_last() == s);
}

proof fn lemma_close_to_none(s: Seq<Point>, p: Point, t: int)
    requires
        forall|i: int| 0 <= i < s.len() ==> !is_pair(#[trigger] s[i], p, t),
    ensures
        close_to(s, p, t) == 0,
    decreases s.len(),
{
    if s.len() > 0 {
        assert forall|i: int| 0 <= i < s.drop_last().len() implies !is_pair(
            #[trigger] s.drop_last()[i],
            p,
            t,
        ) by {
            assert(s.drop_last()[i] == s[i]);
        }
        lemma_close_to_none(s.drop_last(), p, t);
        assert(s.last() == s[s.len() - 1]);
    }
}

proof fn lemma_cross_push_left(a: Seq<Point>, p: Point, b: Seq<Point>, t: int)
    ensures
        cross_count(a.push(p), b, t) == cross_count(a, b, t) + close_to(b, p, t),
{
    assert(a.push(p).drop_last() == a);
}

proof fn lemma_cross_push_right(a: Seq<Point>, b: Seq<Point>, p: Point, t: int)
    ensures
        cross_count(a, b.push(p), t) == cross_count(a, b, t) + close_to(a, p, t),
    decreases a.len(),
{
    if a.len() > 0 {
        lemma_cross_push_right(a.drop_last(), b, p, t);
        lemma_close_to_push(b, p, a.last(), t);
        lemma_pair_symmetric(p, a.last(), t);
    }
}

proof fn lemma_cross_empty_right(a: Seq<Point>, t: int)
    ensures
        cross_count(a, Seq::empty(), t) == 0,
    decreases a.len(),
{
    if a.len() > 0 {
        lemma_cross_empty_right(a.drop_last(), t);
    }
}

proof fn lemma_intra_push(s: Seq<Point>, p: Point, t: int)
    ensures
        intra_count(s.push(p), t) == intra_count(s, t) + close_to(s, p, t),
{
    assert(s.push(p).drop_last() == s);
}

proof fn lemma_stencil_count_empty_home(cells: Map<Cell, Seq<Point>>, listed: Seq<Cell>, t: int)
    ensures
        stencil_count(cells, Seq::empty(), listed, t) == 0,
    decreases listed.len(),
{
    if listed.len() > 0 {
        lemma_stencil_count_empty_home(cells, listed.drop_last(), t);
        lemma_cross_empty_right(points_at(cells, listed.last()), t);
    }
}

proof fn lemma_total_as_sum(
    cells: Map<Cell, Seq<Point>>,
    listed: Seq<Cell>,
    t: int,
    f: spec_fn(Cell) -> int,
)
    requires
        forall|i: int|
            0 <= i < listed.len() ==> f(#[trigger] listed[i]) == cell_pairs(cells, listed[i], t),
    ensures
        total_over(cells, listed, t) == sum_over(listed, f),
    decreases listed.len(),
{
    if listed.len() > 0 {
        assert forall|i: int| 0 <= i < listed.drop_last().len() implies f(
            #[trigger] listed.drop_last()[i],
        ) == cell_pairs(cells, listed.drop_last()[i], t) by {
            assert(listed.drop_last()[i] == listed[i]);
        }
        lemma_total_as_sum(cells, listed.drop_last(), t, f);
        assert(listed.last() == listed[listed.len() - 1]);
    }
}

/// When a point comes to the cell `home`, the count of `home` against the
/// listed cells, none of which is `home`, grows by the pairs of the point
/// with the points of those cells.
proof fn lemma_stencil_count_home_grows(
    cells: Map<Cell, Seq<Point>>,
    home: Cell,
    p: Point,
    listed: Seq<Cell>,
    t: int,
    f: spec_fn(Cell) -> int,
)
    requires
        forall|i: int| 0 <= i < listed.len() ==> #[trigger] listed[i] != home,
        forall|c: Cell| #[trigger] f(c) == close_to(points_at(cells, c), p, t),
    ensures
        stencil_count(
            with_point(cells, home, p),
            points_at(cells, home).push(p),
            listed,
            t,
        ) == stencil_count(cells, points_at(cells, home), listed, t) + sum_over(listed, f),
    decreases listed.len(),
{
    if listed.len() > 0 {
        let before = listed.drop_last();
        let n = listed.last();
        assert(n == listed[listed.len() - 1]);
        assert forall|i: int| 0 <= i < before.len() implies #[trigger] before[i] != home by {
            assert(before[i] == listed[i]);
        }
        lemma_stencil_count_home_grows(cells, home, p, before, t, f);
        assert(points_at(with_point(cells, home, p), n) == points_at(cells, n));
        lemma_cross_push_right(points_at(cells, n), points_at(cells, home), p, t);
    }
}

/// When a point comes to the cell `home`, the count of another cell against
/// a list of cells grows, where the list holds `home`, by the pairs of the
/// point with the points of that other cell.
proof fn lemma_stencil_count_neighbour_grows(
    cells: Map<Cell, Seq<Point>>,
    home: Cell,
    p: Point,
    other: Seq<Point>,
    listed: Seq<Cell>,
    t: int,
)
    requires
        listed.no_duplicates(),
    ensures
        stencil_count(with_point(cells, home, p), other, listed, t) == stencil_count(
            cells,
            other,
            listed,
            t,
        ) + if listed.contains(home) {
            close_to(other, p, t)
        } else {
            0
        },
    decreases listed.len(),
{
    if listed.len() > 0 {
        let before = listed.drop_last();
        let n = listed.last();
        assert(n == listed[listed.len() - 1]);
        assert forall|i: int, j: int| 0 <= i < before.len() && 0 <= j < before.len() && i != j implies before[i]
            != before[j] by {
            assert(before[i] == listed[i] && before[j] == listed[j]);
        }
        lemma_stencil_count_neighbour_grows(cells, home, p, other, before, t);
        if before.contains(home) {
            let i = choose|i: int| 0 <= i < before.len() && before[i] == home;
            assert(listed[i] == home);
            assert(n != home);
        }
        if listed.contains(home) && n != home {
            let i = choose|i: int| 0 <= i < listed.len() && listed[i] == home;
            assert(before[i] == home);
        }
        if n == home {
            lemma_cross_push_left(points_at(cells, home), p, other, t);
        } else {
            assert(points_at(with_point(cells, home, p), n) == points_at(cells, n));
        }
    }
}

/// The pairs of a point with all points so far are the pairs with the
/// points of each occupied cell, added up.
proof fn lemma_near_partition(
    points: Seq<Point>,
    cutoff: u32,
    p: Point,
    t: int,
    f: spec_fn(Cell) -> int,
)
    requires
        cutoff > 0,
        all_indexable(points, cutoff),
        forall|c: Cell| #[trigger] f(c) == close_to(points_at(grid_of(points, cutoff), c), p, t),
    ensures
        close_to(points, p, t) == sum_over(occupied_of(points, cutoff), f),
    decreases points.len(),
{
    if points.len() > 0 {
        let prev = points.drop_last();
        let q = points.last();
        let home = cell_of(q, cutoff);
        let cells = grid_of(prev, cutoff);
        let listed = occupied_of(prev, cutoff);
        let listed_now = occupied_of(points, cutoff);
        assert forall|i: int| 0 <= i < prev.len() implies indexable(#[trigger] prev[i], cutoff) by {
            assert(prev[i] == points[i]);
        }
        let f_prev = |c: Cell| close_to(points_at(cells, c), p, t) as int;
        let bump = pair_unit(q, p, t) as int;
        let single = |c: Cell|
            if c == home {
                bump
            } else {
                0
            };
        lemma_near_partition(prev, cutoff, p, t, f_prev);
        lemma_grid_consistent(prev, cutoff);
        lemma_listed_after_point(cells, listed, home);
        assert(listed_now == listed_after(cells, listed, home));
        assert forall|i: int| 0 <= i < listed_now.len() implies f(#[trigger] listed_now[i]) == f_prev(
            listed_now[i],
        ) + single(listed_now[i]) by {
            let c = listed_now[i];
            if c == home {
                lemma_close_to_push(points_at(cells, home), q, p, t);
            } else {
                assert(points_at(grid_of(points, cutoff), c) == points_at(cells, c));
            }
        }
        lemma_sum_add(listed_now, f_prev, single, f);
        lemma_sum_single(listed_now, home, bump, single);
        if !cells.contains_key(home) {
            assert(listed_now.drop_last() == listed);
            assert(f_prev(home) == 0);
        }
    }
}

/// One more point raises the total of the grid by the number of earlier
/// points that it forms a pair with.
proof fn lemma_total_step(prev: Seq<Point>, p: Point, cutoff: u32)
    requires
        cutoff > 0,
        all_indexable(prev, cutoff),
        indexable(p, cutoff),
    ensures
        grid_total(prev.push(p), cutoff) == grid_total(prev, cutoff) + close_to(
            prev,
            p,
            cutoff_sq(cutoff),
        ),
{
    let t = cutoff_sq(cutoff);
    let points = prev.push(p);
    assert(points.drop_last() == prev);
    assert(points.last() == p);
    let home = cell_of(p, cutoff);
    let cells = grid_of(prev, cutoff);
    let listed = occupied_of(prev, cutoff);
    let cells_now = with_point(cells, home, p);
    let listed_now = listed_after(cells, listed, home);
    assert(grid_of(points, cutoff) == cells_now);
    assert(occupied_of(points, cutoff) == listed_now);
    let around = stencil(home);
    lemma_grid_consistent(prev, cutoff);
    lemma_listed_after_point(cells, listed, home);
    lemma_stencil_distinct(home);

    let f = |c: Cell| close_to(points_at(cells, c), p, t) as int;
    lemma_near_partition(prev, cutoff, p, t, f);

    // The list of occupied cells may have grown by `home`, whose count was zero.
    if !cells.contains_key(home) {
        assert(listed_now.drop_last() == listed);
        lemma_stencil_count_empty_home(cells, around, t);
        assert(cell_pairs(cells, home, t) == 0);
        assert(f(home) == 0);
    }
    assert(total_over(cells, listed_now, t) == total_over(cells, listed, t));

    // The growth of each cell's count.
    let was = |c: Cell| cell_pairs(cells, c, t) as int;
    let now = |c: Cell| cell_pairs(cells_now, c, t) as int;
    let from_home = sum_over(around, f);
    let at_home = |c: Cell|
        if c == home {
            f(home) + from_home
        } else {
            0
        };
    let towards_home = |c: Cell|
        if c != home && stencil(c).contains(home) {
            f(c)
        } else {
            0
        };
    let growth = |c: Cell| at_home(c) + towards_home(c);
    assert forall|i: int| 0 <= i < listed_now.len() implies now(#[trigger] listed_now[i]) == was(
        listed_now[i],
    ) + growth(listed_now[i]) by {
        let c = listed_now[i];
        assert(listed_now.contains(c));
        if c == home {
            assert forall|j: int| 0 <= j < around.len() implies #[trigger] around[j] != home by {
                assert(around.contains(around[j]));
            }
            lemma_stencil_count_home_grows(cells, home, p, around, t, f);
            lemma_intra_push(points_at(cells, home), p, t);
            assert(points_at(cells_now, home) == points_at(cells, home).push(p));
        } else {
            assert(cells.contains_key(c));
            assert(points_at(cells_now, c) == points_at(cells, c));
            lemma_stencil_distinct(c);
            lemma_stencil_count_neighbour_grows(cells, home, p, points_at(cells, c), stencil(c), t);
        }
    }
    lemma_total_as_sum(cells, listed_now, t, was);
    lemma_total_as_sum(cells_now, listed_now, t, now);
    lemma_sum_add(listed_now, was, growth, now);
    lemma_sum_add(listed_now, at_home, towards_home, growth);
    lemma_sum_single(listed_now, home, f(home) + from_home, at_home);
    if !cells.contains_key(home) {
        assert(towards_home(home) == 0);
    }
    assert(sum_over(listed_now, towards_home) == sum_over(listed, towards_home));

    // The pairs counted from `home` are those with the occupied cells of its stencil.
    let around_occupied = |c: Cell|
        if listed.contains(c) {
            f(c)
        } else {
            0
        };
    let occupied_around = |c: Cell|
        if around.contains(c) {
            f(c)
        } else {
            0
        };
    assert forall|i: int| 0 <= i < around.len() implies f(#[trigger] around[i]) == around_occupied(
        around[i],
    ) by {
        let c = around[i];
        if !listed.contains(c) {
            assert(!cells.contains_key(c));
        }
    }
    lemma_sum_pointwise(around, f, around_occupied);
    lemma_sum_swap(around, listed, f, around_occupied, occupied_around);

    let only_home = |c: Cell|
        if c == home {
            f(home)
        } else {
            0
        };
    lemma_sum_single(listed, home, f(home), only_home);
    if !listed.contains(home) {
        assert(!cells.contains_key(home));
    }
    assert(sum_over(listed, only_home) == f(home));

    // Every occupied cell gives its pairs exactly once.
    let from_here = |c: Cell| only_home(c) + occupied_around(c);
    lemma_sum_add(listed, only_home, occupied_around, from_here);
    assert forall|i: int| 0 <= i < listed.len() implies f(#[trigger] listed[i]) == from_here(
        listed[i],
    ) + towards_home(listed[i]) by {
        let c = listed[i];
        assert(listed.contains(c));
        assert(cells.contains_key(c));
        lemma_stencil_members(home, c);
        lemma_stencil_members(c, home);
        if c == home {
        } else if adjacent(home, c) {
            lemma_claimed_by_one_side(home, c);
        } else {
            assert(!adjacent(c, home));
            let there = cells[c];
            assert forall|j: int| 0 <= j < there.len() implies !is_pair(#[trigger] there[j], p, t) by {
                if is_pair(there[j], p, t) {
                    lemma_pair_symmetric(there[j], p, t);
                    lemma_pair_cells_touch(p, there[j], cutoff);
                    assert(cell_of(there[j], cutoff) == c);
                }
            }
            lemma_close_to_none(there, p, t);
        }
    }
    lemma_sum_add(listed, from_here, towards_home, f);
}

/// The total of the grid is the number of unordered pairs of points whose
/// squared distance is below the squared cutoff: what comparing every point
/// with every other gives.
pub proof fn lemma_grid_total_is_pair_count(points: Seq<Point>, cutoff: u32)
    requires
        cutoff > 0,
        all_indexable(points, cutoff),
    ensures
        grid_total(points, cutoff) == intra_count(points, cutoff_sq(cutoff)),
    decreases points.len(),
{
    if points.len() > 0 {
        let prev = points.drop_last();
        let p = points.last();
        assert forall|i: int| 0 <= i < prev.len() implies indexable(#[trigger] prev[i], cutoff) by {
            assert(prev[i] == points[i]);
        }
        assert(p == points[points.len() - 1]);
        assert(prev.push(p) == points);
        lemma_grid_total_is_pair_count(prev, cutoff);
        lemma_total_step(prev, p, cutoff);
    }
}

/// The order in which the occupied cells are taken does not change the
/// total: two lists that each name every occupied cell once give the same
/// sum of counts.
pub proof fn lemma_total_same_in_any_order(
    cells: Map<Cell, Seq<Point>>,
    a: Seq<Cell>,
    b: Seq<Cell>,
    t: int,
)
    requires
        lists_cells(a, cells),
        lists_cells(b, cells),
    ensures
        total_over(cells, a, t) == total_over(cells, b, t),
{
    let count = |c: Cell| cell_pairs(cells, c, t) as int;
    lemma_total_as_sum(cells, a, t, count);
    lemma_total_as_sum(cells, b, t, count);
    assert forall|i: int| 0 <= i < a.len() implies count(#[trigger] a[i]) == if b.contains(a[i]) {
        count(a[i])
    } else {
        0
    } by {
        assert(a.contains(a[i]));
    }
    assert forall|i: int| 0 <= i < b.len() implies count(#[trigger] b[i]) == if a.contains(b[i]) {
        count(b[i])
    } else {
        0
    } by {
        assert(b.contains(b[i]));
    }
    lemma_sum_swap(a, b, count, count, count);
}

/// Over any list that names each occupied cell of the grid once, in
/// whatever order, the counts of the cells add up to the number of pairs.
pub proof fn lemma_total_in_any_order(points: Seq<Point>, cutoff: u32, listed: Seq<Cell>)
    requires
        cutoff > 0,
        all_indexable(points, cutoff),
        lists_cells(listed, grid_of(points, cutoff)),
    ensures
        total_over(grid_of(points, cutoff), listed, cutoff_sq(cutoff)) == intra_count(
            points,
            cutoff_sq(cutoff),
        ),
{
    lemma_grid_consistent(points, cutoff);
    lemma_grid_total_is_pair_count(points, cutoff);
    lemma_total_same_in_any_order(
        grid_of(points, cutoff),
        listed,
        occupied_of(points, cutoff),
        cutoff_sq(cutoff),
    );
}

/// The counts of all occupied cells of the grid, taken in any order, add up
/// to the number of unordered pairs of points that are closer than the
/// cutoff.
pub proof fn lemma_map_total_is_pair_count(points: Seq<Point>, cutoff: u32)
    requires
        cutoff > 0,
        all_indexable(points, cutoff),
    ensures
        map_total(grid_of(points, cutoff), cutoff_sq(cutoff)) == pair_count(points, cutoff),
{
    let cells = grid_of(points, cutoff);
    lemma_grid_consistent(points, cutoff);
    let chosen = choose|listed: Seq<Cell>| lists_cells(listed, cells);
    assert(lists_cells(occupied_of(points, cutoff), cells));
    lemma_total_in_any_order(points, cutoff, chosen);
}

} // verus!
