//! The spatial grid: the concurrent map from each occupied cell to the
//! points that fall into it, in the order in which they came.

use vstd::prelude::*;
use dashmap::DashMap;
use crate::geometry::{Cell, Point, cell_admitted, cell_of, indexable, sort_into_cell};

verus! {

/// The concurrent map of the `dashmap` crate, carried as an opaque value.
#[verifier::external_type_specification]
#[verifier::external_body]
#[verifier::reject_recursive_types(K)]
#[verifier::reject_recursive_types(V)]
#[verifier::reject_recursive_types(S)]
pub struct ExDashMap<K, V, S>(DashMap<K, V, S>);

/// What a cell map holds: for each occupied cell its points, in the order
/// of their insertion.
pub uninterp spec fn cells_of(map: DashMap<Cell, Vec<Point>>) -> Map<Cell, Seq<Point>>;

/// The points of a cell, empty where the cell is not occupied.
pub open spec fn points_at(cells: Map<Cell, Seq<Point>>, cell: Cell) -> Seq<Point> {
    if cells.contains_key(cell) {
        cells[cell]
    } else {
        Seq::empty()
    }
}

/// The map of a grid without points.
pub open spec fn no_cells() -> Map<Cell, Seq<Point>> {
    Map::empty()
}

/// The cells after one more point has been appended to `cell`.
pub open spec fn with_point(cells: Map<Cell, Seq<Point>>, cell: Cell, point: Point) -> Map<
    Cell,
    Seq<Point>,
> {
    cells.insert(cell, points_at(cells, cell).push(point))
}

/// The list names every occupied cell, each once.
pub open spec fn lists_cells(listed: Seq<Cell>, cells: Map<Cell, Seq<Point>>) -> bool {
    &&& listed.no_duplicates()
    &&& forall|c: Cell|
        #![trigger cells.contains_key(c)]
        #![trigger listed.contains(c)]
        listed.contains(c) <==> cells.contains_key(c)
}

/// Every occupied cell admits a step of one in every direction.
pub open spec fn admits_all(cells: Map<Cell, Seq<Point>>) -> bool {
    forall|c: Cell| #[trigger] cells.contains_key(c) ==> cell_admitted(c)
}

/// The grid that a sequence of points builds, inserted from first to last.
pub open spec fn grid_of(points: Seq<Point>, cutoff: u32) -> Map<Cell, Seq<Point>>
    decreases points.len(),
{
    if points.len() == 0 {
        no_cells()
    } else {
        with_point(grid_of(points.drop_last(), cutoff), cell_of(points.last(), cutoff), points.last())
    }
}

/// The occupied cells of that grid, in the order in which each was first
/// occupied.
pub open spec fn occupied_of(points: Seq<Point>, cutoff: u32) -> Seq<Cell>
    decreases points.len(),
{
    if points.len() == 0 {
        Seq::empty()
    } else {
        let before = occupied_of(points.drop_last(), cutoff);
        let cell = cell_of(points.last(), cutoff);
        if grid_of(points.drop_last(), cutoff).contains_key(cell) {
            before
        } else {
            before.push(cell)
        }
    }
}

/// Calls `DashMap::new`: a map that holds no cell.
#[verifier::external_body]
fn map_new() -> (fresh: DashMap<Cell, Vec<Point>>)
    ensures
        cells_of(fresh) == no_cells(),
{
    DashMap::new()
}

/// Calls `DashMap::entry`, `Entry::or_insert_with` and `Vec::push`: the
/// point is appended to the list of its cell, which starts empty where the
/// cell was not occupied. No other cell changes.
#[verifier::external_body]
fn map_append(map: &mut DashMap<Cell, Vec<Point>>, cell: Cell, point: Point)
    ensures
        cells_of(*final(map)) == with_point(cells_of(*old(map)), cell, point),
{
    map.entry(cell).or_insert_with(Vec::new).push(point);
}

/// Calls `DashMap::iter`, and `key` on each entry that it yields: the
/// occupied cells, each once, in the order in which the map walks them,
/// of which nothing is said.
#[verifier::external_body]
pub(crate) fn map_keys(map: &DashMap<Cell, Vec<Point>>) -> (keys: Vec<Cell>)
    ensures
        lists_cells(keys@, cells_of(*map)),
{
    map.iter().map(|entry| *entry.key()).collect()
}

/// Calls `DashMap::get`: a copy of the points of the cell, `None` where the
/// cell is not occupied.
#[verifier::external_body]
pub(crate) fn map_points(map: &DashMap<Cell, Vec<Point>>, cell: &Cell) -> (points: Option<
    Vec<Point>,
>)
    ensures
        points.is_some() == cells_of(*map).contains_key(*cell),
        points.is_some() ==> points.unwrap()@ == cells_of(*map)[*cell],
{
    map.get(cell).map(|found| found.value().clone())
}

/// Why a count could not be given.
#[derive(Debug, PartialEq, Eq, Clone, Copy)]
pub enum CountError {
    /// The point at this place of the input falls into a cell whose
    /// coordinates the cell type does not admit.
    CellIndexOverflow { record: usize },
    /// The number of pairs exceeds the range of the counter.
    CountOverflow,
}

/// All points are indexable.
pub open spec fn all_indexable(points: Seq<Point>, cutoff: u32) -> bool {
    forall|i: int| 0 <= i < points.len() ==> indexable(#[trigger] points[i], cutoff)
}

/// Builds the grid: every point is appended to the list of its cell, from
/// the first point to the last. Fails at the first point whose cell is not
/// admitted.
pub fn build_grid(points: &Vec<Point>, maximum_distance: u32) -> (built: Result<
    DashMap<Cell, Vec<Point>>,
    CountError,
>)
    requires
        maximum_distance > 0,
    ensures
        match built {
            Ok(grid_map) => {
                &&& all_indexable(points@, maximum_distance)
                &&& cells_of(grid_map) == grid_of(points@, maximum_distance)
                &&& admits_all(cells_of(grid_map))
            },
            Err(CountError::CellIndexOverflow { record }) => {
                &&& record < points@.len()
                &&& !indexable(points@[record as int], maximum_distance)
                &&& all_indexable(points@.take(record as int), maximum_distance)
            },
            Err(CountError::CountOverflow) => false,
        },
{
    let mut grid_map = map_new();
    let mut i: usize = 0;
    while i < points.len()
        invariant
            maximum_distance > 0,
            i <= points@.len(),
            all_indexable(points@.take(i as int), maximum_distance),
            cells_of(grid_map) == grid_of(points@.take(i as int), maximum_distance),
        decreases points@.len() - i,
    {
        let point: Point = points[i];
        proof {
            assert(points@.take(i + 1).drop_last() == points@.take(i as int));
            assert(points@.take(i + 1).last() == point);
        }
        match sort_into_cell(point, maximum_distance) {
            None => {
                return Err(CountError::CellIndexOverflow { record: i });
            },
            Some(cell) => {
                map_append(&mut grid_map, cell, point);
            },
        }
        i = i + 1;
    }
    proof {
        assert(points@.take(i as int) == points@);
        lemma_grid_consistent(points@, maximum_distance);
    }
    Ok(grid_map)
}

/// What holds of a grid and the list of its occupied cells: the list names
/// each occupied cell once, every occupied cell admits its neighbours, and
/// every point lies in the list of its own cell.
pub open spec fn grid_consistent(cells: Map<Cell, Seq<Point>>, listed: Seq<Cell>, cutoff: u32) -> bool {
    &&& lists_cells(listed, cells)
    &&& admits_all(cells)
    &&& forall|c: Cell, i: int|
        cells.contains_key(c) && 0 <= i < cells[c].len() ==> indexable(
            #[trigger] cells[c][i],
            cutoff,
        ) && cell_of(cells[c][i], cutoff) == c
}

/// The grid of indexable points is consistent.
pub proof fn lemma_grid_consistent(points: Seq<Point>, cutoff: u32)
    requires
        cutoff > 0,
        all_indexable(points, cutoff),
    ensures
        grid_consistent(grid_of(points, cutoff), occupied_of(points, cutoff), cutoff),
    decreases points.len(),
{
    if points.len() > 0 {
        let prev = points.drop_last();
        let p = points.last();
        let home = cell_of(p, cutoff);
        let cells = grid_of(prev, cutoff);
        let listed = occupied_of(prev, cutoff);
        let cells_now = grid_of(points, cutoff);
        let listed_now = occupied_of(points, cutoff);
        assert forall|i: int| 0 <= i < prev.len() implies indexable(#[trigger] prev[i], cutoff) by {
            assert(prev[i] == points[i]);
        }
        assert(p == points[points.len() - 1]);
        lemma_grid_consistent(prev, cutoff);
        lemma_listed_after_point(cells, listed, home);
        assert forall|c: Cell, i: int| cells_now.contains_key(c) && 0 <= i < cells_now[c].len() implies indexable(
            #[trigger] cells_now[c][i],
            cutoff,
        ) && cell_of(cells_now[c][i], cutoff) == c by {
            if c == home {
                if i < points_at(cells, home).len() {
                    assert(cells_now[c][i] == cells[c][i]);
                }
            } else {
                assert(cells_now[c][i] == cells[c][i]);
            }
        }
    }
}

/// The list of occupied cells after a point has come to the cell `home`.
pub open spec fn listed_after(cells: Map<Cell, Seq<Point>>, listed: Seq<Cell>, home: Cell) -> Seq<Cell> {
    if cells.contains_key(home) {
        listed
    } else {
        listed.push(home)
    }
}

/// The list after one more point names each occupied cell once.
pub proof fn lemma_listed_after_point(cells: Map<Cell, Seq<Point>>, listed: Seq<Cell>, home: Cell)
    requires
        lists_cells(listed, cells),
    ensures
        listed_after(cells, listed, home).no_duplicates(),
        listed_after(cells, listed, home).contains(home),
        forall|c: Cell| #[trigger]
            listed_after(cells, listed, home).contains(c) <==> (listed.contains(c) || c == home),
{
    let now = listed_after(cells, listed, home);
    if cells.contains_key(home) {
        assert(listed.contains(home));
    } else {
        assert(!listed.contains(home));
        assert(now[listed.len() as int] == home);
        assert forall|i: int, j: int| 0 <= i < now.len() && 0 <= j < now.len() && i != j implies now[i]
            != now[j] by {
            if i < listed.len() && j < listed.len() {
                assert(listed[i] != listed[j]);
            } else if i < listed.len() {
                assert(listed.contains(listed[i]));
            } else {
                assert(listed.contains(listed[j]));
            }
        }
        assert forall|c: Cell| #[trigger] now.contains(c) <==> (listed.contains(c) || c == home) by {
            if now.contains(c) {
                let i = choose|i: int| 0 <= i < now.len() && now[i] == c;
                if i < listed.len() {
                    assert(listed[i] == c);
                }
            }
            if listed.contains(c) {
                let i = choose|i: int| 0 <= i < listed.len() && listed[i] == c;
                assert(now[i] == c);
            }
        }
    }
}

} // verus!
