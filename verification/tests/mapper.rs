use quacken::coord::{COLS, PHYS_COLS, PHYS_ROWS, ROWS, Topology, map_coord, matrix_to_layout};

#[test]
fn upper_half_maps_identically() {
    assert_eq!(matrix_to_layout(0, 0), (0, 0));
    assert_eq!(matrix_to_layout(3, 5), (3, 5));
    assert_eq!(matrix_to_layout(2, 1), (2, 1));
}

#[test]
fn lower_half_maps_mirrored() {
    assert_eq!(matrix_to_layout(4, 0), (0, 11));
    assert_eq!(matrix_to_layout(7, 5), (3, 6));
    assert_eq!(matrix_to_layout(5, 2), (1, 9));
}

#[test]
fn rotated_folded_example() {
    let t = Topology { folded: true, rotated: true };
    // (0, 0) rotates to (4, 3), which folds to (0, 8).
    assert_eq!(map_coord(&t, 0, 0), (0, 8));
}

#[test]
fn unfolded_unrotated_is_identity() {
    let t = Topology { folded: false, rotated: false };
    for r in 0..ROWS {
        for c in 0..COLS {
            assert_eq!(map_coord(&t, r, c), (r, c));
        }
    }
}

#[test]
fn mapping_is_a_bijection_for_every_topology() {
    for &folded in &[false, true] {
        for &rotated in &[false, true] {
            let t = Topology { folded, rotated };
            let (pr, pc) = if folded { (PHYS_ROWS, PHYS_COLS) } else { (ROWS, COLS) };
            let mut seen = vec![vec![false; COLS]; ROWS];
            let mut count = 0;
            for r in 0..pr {
                for c in 0..pc {
                    let (lr, lc) = map_coord(&t, r, c);
                    assert!(lr < ROWS && lc < COLS);
                    assert!(!seen[lr][lc], "two physical cells hit one logical cell");
                    seen[lr][lc] = true;
                    count += 1;
                }
            }
            // every logical cell is reached
            assert_eq!(count, ROWS * COLS);
            for row in &seen {
                for &hit in row {
                    assert!(hit);
                }
            }
        }
    }
}
