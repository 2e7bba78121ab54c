use cell_pairs::geometry::Cell;
use cell_pairs::stencil::{get_surrounding_cells, parity_class};

fn stencil_of(cell: Cell) -> Vec<Cell> {
    get_surrounding_cells(&cell, parity_class(&cell))
}

#[test]
fn parity_class_packs_the_low_bits() {
    assert_eq!(parity_class(&(0, 0, 0)), 0);
    assert_eq!(parity_class(&(1, 0, 0)), 1);
    assert_eq!(parity_class(&(0, 1, 0)), 2);
    assert_eq!(parity_class(&(1, 1, 0)), 3);
    assert_eq!(parity_class(&(0, 0, 1)), 4);
    assert_eq!(parity_class(&(1, 0, 1)), 5);
    assert_eq!(parity_class(&(0, 1, 1)), 6);
    assert_eq!(parity_class(&(1, 1, 1)), 7);
    assert_eq!(parity_class(&(-1, -2, -3)), 5);
    assert_eq!(parity_class(&(-2147483647, 2147483646, -4)), 1);
}

#[test]
fn stencil_sizes_by_class() {
    assert_eq!(stencil_of((0, 0, 0)).len(), 26);
    assert_eq!(stencil_of((1, 0, 0)).len(), 24);
    assert_eq!(stencil_of((0, 1, 0)).len(), 20);
    assert_eq!(stencil_of((1, 1, 0)).len(), 18);
    assert_eq!(stencil_of((0, 0, 1)).len(), 8);
    assert_eq!(stencil_of((1, 0, 1)).len(), 6);
    assert_eq!(stencil_of((0, 1, 1)).len(), 2);
    assert_eq!(stencil_of((1, 1, 1)).len(), 0);
}

#[test]
fn stencil_of_class_six_is_the_two_cells_along_x() {
    assert_eq!(stencil_of((4, 7, -3)), vec![(3, 7, -3), (5, 7, -3)]);
}

#[test]
fn stencil_of_class_five_leaves_out_its_own_row() {
    assert_eq!(
        stencil_of((1, 0, 1)),
        vec![(0, -1, 1), (1, -1, 1), (2, -1, 1), (0, 1, 1), (1, 1, 1), (2, 1, 1)]
    );
}

#[test]
fn stencil_of_class_four_is_its_own_layer() {
    assert_eq!(
        stencil_of((0, 0, 1)),
        vec![
            (-1, -1, 1),
            (0, -1, 1),
            (1, -1, 1),
            (-1, 0, 1),
            (1, 0, 1),
            (-1, 1, 1),
            (0, 1, 1),
            (1, 1, 1)
        ]
    );
}

#[test]
fn stencil_never_holds_the_centre_nor_a_cell_twice() {
    for x in -2..3 {
        for y in -2..3 {
            for z in -2..3 {
                let cells = stencil_of((x, y, z));
                assert!(!cells.contains(&(x, y, z)));
                for i in 0..cells.len() {
                    for j in 0..i {
                        assert_ne!(cells[i], cells[j]);
                    }
                    assert!((cells[i].0 - x).abs() <= 1);
                    assert!((cells[i].1 - y).abs() <= 1);
                    assert!((cells[i].2 - z).abs() <= 1);
                }
            }
        }
    }
}

#[test]
fn every_relation_is_claimed_by_exactly_one_side() {
    for x in -2..2 {
        for y in -2..2 {
            for z in -2..2 {
                let here = (x, y, z);
                let mine = stencil_of(here);
                for dx in -1..2 {
                    for dy in -1..2 {
                        for dz in -1..2 {
                            if dx == 0 && dy == 0 && dz == 0 {
                                continue;
                            }
                            let there = (x + dx, y + dy, z + dz);
                            let theirs = stencil_of(there);
                            let from_here = mine.contains(&there);
                            let from_there = theirs.contains(&here);
                            assert!(from_here != from_there);
                        }
                    }
                }
            }
        }
    }
}

#[test]
fn stencil_at_the_edge_of_the_admitted_range() {
    let cells = stencil_of((2147483646, -2147483647, 0));
    assert_eq!(cells.len(), 20);
    assert!(cells.contains(&(2147483647, -2147483648, 1)));
}
