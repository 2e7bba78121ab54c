//! Points, cells, and the squared-distance test against the cutoff.

use vstd::prelude::*;
use vstd::arithmetic::div_mod::lemma_fundamental_div_mod_converse;
use vstd::arithmetic::div_mod::lemma_fundamental_div_mod;
use vstd::arithmetic::div_mod::lemma_mod_bound;

verus! {

/// A point of the cloud: its three coordinates.
pub type Point = (i64, i64, i64);

/// A cell of the grid: the floor of each coordinate divided by the cutoff.
pub type Cell = (i32, i32, i32);

/// The cell coordinate of one axis: `coord / cutoff`, rounded towards
/// negative infinity.
pub open spec fn axis_cell(coord: int, cutoff: int) -> int {
    coord / cutoff
}

/// A cell coordinate is admitted when it and both its neighbours fit the
/// cell type.
pub open spec fn axis_admitted(q: int) -> bool {
    i32::MIN < q < i32::MAX
}

/// Every axis of the point falls into an admitted cell coordinate.
pub open spec fn indexable(p: Point, cutoff: u32) -> bool {
    &&& axis_admitted(axis_cell(p.0 as int, cutoff as int))
    &&& axis_admitted(axis_cell(p.1 as int, cutoff as int))
    &&& axis_admitted(axis_cell(p.2 as int, cutoff as int))
}

/// The cell that holds the point.
pub open spec fn cell_of(p: Point, cutoff: u32) -> Cell {
    (
        axis_cell(p.0 as int, cutoff as int) as i32,
        axis_cell(p.1 as int, cutoff as int) as i32,
        axis_cell(p.2 as int, cutoff as int) as i32,
    )
}

/// The cell admits a step of one in every direction on every axis.
pub open spec fn cell_admitted(c: Cell) -> bool {
    &&& axis_admitted(c.0 as int)
    &&& axis_admitted(c.1 as int)
    &&& axis_admitted(c.2 as int)
}

/// Whether the cell admits a step of one in every direction on every axis.
pub fn admits_neighbours(cell: &Cell) -> (admitted: bool)
    ensures
        admitted == cell_admitted(*cell),
{
    -2147483648 < cell.0 && cell.0 < 2147483647 && -2147483648 < cell.1 && cell.1 < 2147483647
        && -2147483648 < cell.2 && cell.2 < 2147483647
}

/// The squared Euclidean distance of two points.
pub open spec fn dist_sq(p: Point, q: Point) -> int {
    (p.0 - q.0) * (p.0 - q.0) + (p.1 - q.1) * (p.1 - q.1) + (p.2 - q.2) * (p.2 - q.2)
}

/// Two points form a pair when their squared distance is strictly below the
/// squared cutoff.
pub open spec fn is_pair(p: Point, q: Point, limit_sq: int) -> bool {
    dist_sq(p, q) < limit_sq
}

/// The square of the cutoff, as the distance test takes it.
pub open spec fn cutoff_sq(cutoff: u32) -> int {
    cutoff as int * cutoff as int
}

/// Squares the cutoff once, for every later distance test.
pub fn square_cutoff(maximum_distance: u32) -> (sq: u64)
    ensures
        sq as int == cutoff_sq(maximum_distance),
{
    let c: u64 = maximum_distance as u64;
    assert(c * c <= 0xFFFF_FFFFu64 * 0xFFFF_FFFFu64) by (nonlinear_arith)
        requires
            c <= 0xFFFF_FFFFu64,
    ;
    c * c
}

/// The floor of `coord / cutoff`.
fn floor_div(coord: i64, cutoff: u32) -> (q: i64)
    requires
        cutoff > 0,
    ensures
        q as int == axis_cell(coord as int, cutoff as int),
{
    let c: u64 = cutoff as u64;
    if coord >= 0 {
        let m: u64 = coord as u64;
        let a: u64 = m / c;
        assert(a <= m) by (nonlinear_arith)
            requires
                a == m / c,
                c > 0,
        ;
        a as i64
    } else {
        let m: u64 = (-(coord + 1)) as u64;
        let a: u64 = m / c;
        let b: u64 = m % c;
        assert(a <= m) by (nonlinear_arith)
            requires
                a == m / c,
                c > 0,
        ;
        proof {
            lemma_fundamental_div_mod(m as int, c as int);
            assert(coord as int == (-(a as int) - 1) * (c as int) + (c as int - b as int - 1))
                by (nonlinear_arith)
                requires
                    m as int == (c as int) * (a as int) + (b as int),
                    m as int == -(coord as int) - 1,
            ;
            lemma_fundamental_div_mod_converse(
                coord as int,
                c as int,
                -(a as int) - 1,
                c as int - b as int - 1,
            );
        }
        -(a as i64) - 1
    }
}

/// Maps a point to its cell: each coordinate divided by the cutoff and
/// floored. `None` exactly when a cell coordinate is not admitted.
pub fn sort_into_cell(point: Point, maximum_distance: u32) -> (cell: Option<Cell>)
    requires
        maximum_distance > 0,
    ensures
        cell.is_some() == indexable(point, maximum_distance),
        cell.is_some() ==> cell.unwrap() == cell_of(point, maximum_distance),
        cell.is_some() ==> cell_admitted(cell.unwrap()),
{
    let x: i64 = floor_div(point.0, maximum_distance);
    let y: i64 = floor_div(point.1, maximum_distance);
    let z: i64 = floor_div(point.2, maximum_distance);
    if -2147483648 < x && x < 2147483647 && -2147483648 < y && y < 2147483647 && -2147483648 < z
        && z < 2147483647 {
        Some((x as i32, y as i32, z as i32))
    } else {
        None
    }
}

/// The distance of two coordinates on one axis.
pub open spec fn axis_gap(a: i64, b: i64) -> int {
    if a >= b {
        a - b
    } else {
        b - a
    }
}

fn gap(a: i64, b: i64) -> (d: u64)
    ensures
        d as int == axis_gap(a, b),
{
    if a >= b {
        (a as i128 - b as i128) as u64
    } else {
        (b as i128 - a as i128) as u64
    }
}

/// A gap of `d` contributes `d * d` to the squared distance.
proof fn lemma_gap_square(a: i64, b: i64)
    ensures
        axis_gap(a, b) * axis_gap(a, b) == (a - b) * (a - b),
{
    assert((b - a) * (b - a) == (a - b) * (a - b)) by (nonlinear_arith);
}

/// Whether two points are closer than the cutoff: compares the squared
/// distance with the squared cutoff, strictly.
pub fn close_enough(one: Point, other: Point, maximum_distance_sq: u64) -> (close: bool)
    ensures
        close == is_pair(one, other, maximum_distance_sq as int),
{
    let dx: u64 = gap(one.0, other.0);
    let dy: u64 = gap(one.1, other.1);
    let dz: u64 = gap(one.2, other.2);
    proof {
        lemma_gap_square(one.0, other.0);
        lemma_gap_square(one.1, other.1);
        lemma_gap_square(one.2, other.2);
        assert(dx * dx >= 0 && dy * dy >= 0 && dz * dz >= 0) by (nonlinear_arith);
    }
    if dx > 0xFFFF_FFFF {
        assert(dx * dx > u64::MAX) by (nonlinear_arith)
            requires
                dx >= 0x1_0000_0000u64,
        ;
        return false;
    }
    if dy > 0xFFFF_FFFF {
        assert(dy * dy > u64::MAX) by (nonlinear_arith)
            requires
                dy >= 0x1_0000_0000u64,
        ;
        return false;
    }
    if dz > 0xFFFF_FFFF {
        assert(dz * dz > u64::MAX) by (nonlinear_arith)
            requires
                dz >= 0x1_0000_0000u64,
        ;
        return false;
    }
    assert(dx * dx <= 0xFFFF_FFFFu64 * 0xFFFF_FFFFu64) by (nonlinear_arith)
        requires
            dx <= 0xFFFF_FFFFu64,
    ;
    assert(dy * dy <= 0xFFFF_FFFFu64 * 0xFFFF_FFFFu64) by (nonlinear_arith)
        requires
            dy <= 0xFFFF_FFFFu64,
    ;
    assert(dz * dz <= 0xFFFF_FFFFu64 * 0xFFFF_FFFFu64) by (nonlinear_arith)
        requires
            dz <= 0xFFFF_FFFFu64,
    ;
    let sx: u128 = (dx * dx) as u128;
    let sy: u128 = (dy * dy) as u128;
    let sz: u128 = (dz * dz) as u128;
    sx + sy + sz < maximum_distance_sq as u128
}

/// Coordinates less than the cutoff apart fall into the same cell
/// coordinate or into two that differ by one.
proof fn lemma_axis_near(a: int, b: int, c: int)
    requires
        c > 0,
        -c < a - b < c,
    ensures
        -1 <= a / c - b / c <= 1,
{
    lemma_fundamental_div_mod(a, c);
    lemma_fundamental_div_mod(b, c);
    lemma_mod_bound(a, c);
    lemma_mod_bound(b, c);
    let qa = a / c;
    let qb = b / c;
    assert(qa - qb >= 2 ==> c * qa - c * qb >= 2 * c) by (nonlinear_arith)
        requires
            c > 0,
    ;
    assert(qa - qb <= -2 ==> c * qa - c * qb <= -2 * c) by (nonlinear_arith)
        requires
            c > 0,
    ;
}

/// A squared distance below the squared cutoff leaves every axis less than
/// the cutoff apart.
proof fn lemma_axis_below_cutoff(dx: int, dy: int, dz: int, c: int)
    requires
        c > 0,
        dx * dx + dy * dy + dz * dz < c * c,
    ensures
        -c < dx < c,
{
    assert(dy * dy >= 0 && dz * dz >= 0) by (nonlinear_arith);
    assert(dx >= c ==> dx * dx >= c * c) by (nonlinear_arith)
        requires
            c > 0,
    ;
    assert(dx <= -c ==> dx * dx >= c * c) by (nonlinear_arith)
        requires
            c > 0,
    ;
}

/// The distance does not depend on the order of the two points.
pub proof fn lemma_pair_symmetric(p: Point, q: Point, limit_sq: int)
    ensures
        is_pair(p, q, limit_sq) == is_pair(q, p, limit_sq),
{
    assert((p.0 - q.0) * (p.0 - q.0) == (q.0 - p.0) * (q.0 - p.0)) by (nonlinear_arith);
    assert((p.1 - q.1) * (p.1 - q.1) == (q.1 - p.1) * (q.1 - p.1)) by (nonlinear_arith);
    assert((p.2 - q.2) * (p.2 - q.2) == (q.2 - p.2) * (q.2 - p.2)) by (nonlinear_arith);
}

/// Two points that form a pair lie in the same cell or in two cells that
/// differ by at most one on every axis.
pub proof fn lemma_pair_cells_touch(p: Point, q: Point, cutoff: u32)
    requires
        cutoff > 0,
        indexable(p, cutoff),
        indexable(q, cutoff),
        is_pair(p, q, cutoff_sq(cutoff)),
    ensures
        -1 <= cell_of(q, cutoff).0 - cell_of(p, cutoff).0 <= 1,
        -1 <= cell_of(q, cutoff).1 - cell_of(p, cutoff).1 <= 1,
        -1 <= cell_of(q, cutoff).2 - cell_of(p, cutoff).2 <= 1,
{
    let c = cutoff as int;
    let dx = p.0 - q.0;
    let dy = p.1 - q.1;
    let dz = p.2 - q.2;
    lemma_axis_below_cutoff(dx, dy, dz, c);
    lemma_axis_below_cutoff(dy, dx, dz, c);
    lemma_axis_below_cutoff(dz, dy, dx, c);
    lemma_axis_near(p.0 as int, q.0 as int, c);
    lemma_axis_near(p.1 as int, q.1 as int, c);
    lemma_axis_near(p.2 as int, q.2 as int, c);
}

/// Points at a distance equal to the cutoff, or beyond it, form no pair;
/// points at a smaller distance do.
pub proof fn lemma_cutoff_is_strict(p: Point, q: Point, cutoff: u32)
    ensures
        dist_sq(p, q) == cutoff_sq(cutoff) ==> !is_pair(p, q, cutoff_sq(cutoff)),
        dist_sq(p, q) > cutoff_sq(cutoff) ==> !is_pair(p, q, cutoff_sq(cutoff)),
        dist_sq(p, q) < cutoff_sq(cutoff) ==> is_pair(p, q, cutoff_sq(cutoff)),
{
}

/// The cell of a point is the one cube of the grid that holds it: on every
/// axis the coordinate lies from the cell's lower face up to, and not on,
/// its upper face.
pub proof fn lemma_point_in_its_cell(p: Point, cutoff: u32)
    requires
        cutoff > 0,
        indexable(p, cutoff),
    ensures
        cell_of(p, cutoff).0 * cutoff <= p.0 < (cell_of(p, cutoff).0 + 1) * cutoff,
        cell_of(p, cutoff).1 * cutoff <= p.1 < (cell_of(p, cutoff).1 + 1) * cutoff,
        cell_of(p, cutoff).2 * cutoff <= p.2 < (cell_of(p, cutoff).2 + 1) * cutoff,
{
    lemma_axis_in_cell(p.0 as int, cutoff as int);
    lemma_axis_in_cell(p.1 as int, cutoff as int);
    lemma_axis_in_cell(p.2 as int, cutoff as int);
}

proof fn lemma_axis_in_cell(a: int, c: int)
    requires
        c > 0,
    ensures
        axis_cell(a, c) * c <= a < (axis_cell(a, c) + 1) * c,
{
    lemma_fundamental_div_mod(a, c);
    lemma_mod_bound(a, c);
    let q = a / c;
    assert(q * c == c * q && (q + 1) * c == c * q + c) by (nonlinear_arith);
}

} // verus!
