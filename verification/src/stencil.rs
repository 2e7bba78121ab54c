//! The neighbour stencil: which of its 26 neighbours a cell compares itself
//! with, so that every pair of adjacent cells is compared from one side only.

use vstd::prelude::*;
use crate::geometry::{Cell, cell_admitted};

verus! {

/// The parity class of a cell: the low bit of each coordinate, packed into
/// three bits.
pub open spec fn parity_class_of(c: Cell) -> int {
    (c.0 as int % 2) + 2 * (c.1 as int % 2) + 4 * (c.2 as int % 2)
}

/// Two distinct cells that differ by at most one on every axis.
pub open spec fn adjacent(a: Cell, b: Cell) -> bool {
    &&& a != b
    &&& -1 <= b.0 - a.0 <= 1
    &&& -1 <= b.1 - a.1 <= 1
    &&& -1 <= b.2 - a.2 <= 1
}

/// Cell `a` claims the relation with cell `b`: the comparison of the two
/// cells is made while `a` is processed. The smaller parity class claims.
pub open spec fn claims(a: Cell, b: Cell) -> bool {
    parity_class_of(a) < parity_class_of(b)
}

/// The place of cell `c` in the 3x3x3 block around `center`, counted along x,
/// then y, then z. The centre itself has place 13.
pub open spec fn place_of(center: Cell, c: Cell) -> int {
    (c.0 - center.0 + 1) + 3 * (c.1 - center.1 + 1) + 9 * (c.2 - center.2 + 1)
}

/// The cell at place `k` of the 3x3x3 block around `center`.
pub open spec fn cell_at(center: Cell, k: int) -> Cell {
    (
        (center.0 + k % 3 - 1) as i32,
        (center.1 + (k / 3) % 3 - 1) as i32,
        (center.2 + k / 9 - 1) as i32,
    )
}

/// The claimed neighbours among the first `k` places of the block, in the
/// order of their places.
pub open spec fn stencil_prefix(center: Cell, k: nat) -> Seq<Cell>
    decreases k,
{
    if k == 0 {
        Seq::empty()
    } else {
        let before = stencil_prefix(center, (k - 1) as nat);
        let c = cell_at(center, k - 1);
        if k - 1 != 13 && claims(center, c) {
            before.push(c)
        } else {
            before
        }
    }
}

/// The stencil of a cell: the neighbours that it claims.
pub open spec fn stencil(center: Cell) -> Seq<Cell> {
    stencil_prefix(center, 27)
}

/// Computes the parity class of a cell.
pub fn parity_class(cell: &Cell) -> (key: u8)
    ensures
        key as int == parity_class_of(*cell),
        key < 8,
{
    let x: u64 = (cell.0 as i64 + 2147483648) as u64 % 2;
    let y: u64 = (cell.1 as i64 + 2147483648) as u64 % 2;
    let z: u64 = (cell.2 as i64 + 2147483648) as u64 % 2;
    (x + 2 * y + 4 * z) as u8
}

/// The neighbours of `center` that it compares itself with, given its parity
/// class: those of a greater class, in the order of their places.
pub fn get_surrounding_cells(center: &Cell, shard_key: u8) -> (cells: Vec<Cell>)
    requires
        cell_admitted(*center),
        shard_key as int == parity_class_of(*center),
    ensures
        cells@ == stencil(*center),
{
    let mut cells: Vec<Cell> = Vec::new();
    let mut dz: i32 = -1;
    let mut k: u8 = 0;
    while dz <= 1
        invariant
            -1 <= dz <= 2,
            k as int == 9 * (dz + 1),
            cell_admitted(*center),
            shard_key as int == parity_class_of(*center),
            cells@ == stencil_prefix(*center, k as nat),
        decreases 2 - dz,
    {
        let mut dy: i32 = -1;
        while dy <= 1
            invariant
                -1 <= dz <= 1,
                -1 <= dy <= 2,
                k as int == 9 * (dz + 1) + 3 * (dy + 1),
                cell_admitted(*center),
                shard_key as int == parity_class_of(*center),
                cells@ == stencil_prefix(*center, k as nat),
            decreases 2 - dy,
        {
            let mut dx: i32 = -1;
            while dx <= 1
                invariant
                    -1 <= dz <= 1,
                    -1 <= dy <= 1,
                    -1 <= dx <= 2,
                    k as int == 9 * (dz + 1) + 3 * (dy + 1) + (dx + 1),
                    cell_admitted(*center),
                    shard_key as int == parity_class_of(*center),
                    cells@ == stencil_prefix(*center, k as nat),
                decreases 2 - dx,
            {
                let neighbor: Cell = (center.0 + dx, center.1 + dy, center.2 + dz);
                assert(neighbor == cell_at(*center, k as int));
                if k != 13 && shard_key < parity_class(&neighbor) {
                    cells.push(neighbor);
                }
                k = k + 1;
                dx = dx + 1;
            }
            dy = dy + 1;
        }
        dz = dz + 1;
    }
    cells
}

/// Membership in a prefix of the stencil: the claimed neighbours whose place
/// is below `k`.
proof fn lemma_prefix_members(center: Cell, k: nat, c: Cell)
    requires
        cell_admitted(center),
        k <= 27,
    ensures
        stencil_prefix(center, k).contains(c) <==> (adjacent(center, c) && claims(center, c)
            && place_of(center, c) < k),
    decreases k,
{
    if k > 0 {
        let before = stencil_prefix(center, (k - 1) as nat);
        let last = cell_at(center, k - 1);
        lemma_prefix_members(center, (k - 1) as nat, c);
        assert(place_of(center, last) == k - 1);
        if k - 1 != 13 && claims(center, last) {
            let now = before.push(last);
            assert(adjacent(center, last));
            if now.contains(c) {
                let i = choose|i: int| 0 <= i < now.len() && now[i] == c;
                if i < before.len() {
                    assert(before[i] == c);
                }
            }
            if before.contains(c) {
                let i = choose|i: int| 0 <= i < before.len() && before[i] == c;
                assert(now[i] == c);
            }
            if c == last {
                assert(now[before.len() as int] == c);
            }
        }
        if adjacent(center, c) && place_of(center, c) == k - 1 {
            assert(c == last);
        }
    }
}

/// The stencil of a cell holds exactly the adjacent cells that it claims.
pub proof fn lemma_stencil_members(center: Cell, c: Cell)
    requires
        cell_admitted(center),
    ensures
        stencil(center).contains(c) <==> (adjacent(center, c) && claims(center, c)),
{
    lemma_prefix_members(center, 27, c);
}

/// Of two adjacent cells exactly one claims the other: each of the 26
/// relations of a cell, whatever its parity class, is claimed from one side
/// and not from both.
pub proof fn lemma_claimed_by_one_side(a: Cell, b: Cell)
    requires
        cell_admitted(a),
        cell_admitted(b),
        adjacent(a, b),
    ensures
        claims(a, b) != claims(b, a),
        stencil(a).contains(b) != stencil(b).contains(a),
{
    lemma_stencil_members(a, b);
    lemma_stencil_members(b, a);
}

/// A cell of the highest parity class claims no neighbour, and a cell of the
/// lowest class claims all 26.
pub proof fn lemma_extreme_classes(center: Cell, c: Cell)
    requires
        cell_admitted(center),
        adjacent(center, c),
    ensures
        parity_class_of(center) == 7 ==> !stencil(center).contains(c),
        parity_class_of(center) == 0 ==> stencil(center).contains(c),
{
    lemma_stencil_members(center, c);
}

/// No cell stands twice in a stencil, and the centre does not stand in it.
pub proof fn lemma_stencil_distinct(center: Cell)
    requires
        cell_admitted(center),
    ensures
        stencil(center).no_duplicates(),
        !stencil(center).contains(center),
{
    lemma_prefix_distinct(center, 27);
    lemma_stencil_members(center, center);
}

proof fn lemma_prefix_distinct(center: Cell, k: nat)
    requires
        cell_admitted(center),
        k <= 27,
    ensures
        stencil_prefix(center, k).no_duplicates(),
    decreases k,
{
    if k > 0 {
        let before = stencil_prefix(center, (k - 1) as nat);
        let last = cell_at(center, k - 1);
        lemma_prefix_distinct(center, (k - 1) as nat);
        lemma_prefix_members(center, (k - 1) as nat, last);
        assert(place_of(center, last) == k - 1);
        assert(!before.contains(last));
        if k - 1 != 13 && claims(center, last) {
            let now = before.push(last);
            assert forall|i: int, j: int| 0 <= i < now.len() && 0 <= j < now.len() && i != j implies now[i]
                != now[j] by {
                if i < before.len() && j < before.len() {
                    assert(before[i] != before[j]);
                } else if i < before.len() {
                    assert(before.contains(before[i]));
                } else {
                    assert(before.contains(before[j]));
                }
            }
        }
    }
}

} // verus!
