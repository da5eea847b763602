//! Coordinate mapper: electrical (driven line, sensed line) pairs to logical
//! (row, column) positions.
//!
//! The logical grid is `ROWS x COLS`.  In the folded wiring the physical
//! matrix is `PHYS_ROWS x PHYS_COLS`: the two board halves are stacked, so the
//! upper physical half addresses the left logical half directly and the lower
//! physical half addresses the right logical half with its columns mirrored.
//! An optional 180-degree board rotation cyclically half-rotates both line
//! orderings before the fold.  The mapping is a bijection for every topology.

use vstd::prelude::*;

verus! {

/// Rows of the logical grid.
pub const ROWS: usize = 4;

/// Columns of the logical grid.
pub const COLS: usize = 12;

/// Driven lines of the folded physical matrix.
pub const PHYS_ROWS: usize = 8;

/// Sensed lines of the folded physical matrix.
pub const PHYS_COLS: usize = 6;

/// Electrical topology of one board: whether the two halves are folded onto a
/// stacked physical matrix, and whether the controller is mounted rotated by
/// 180 degrees.
#[derive(Clone, Copy, PartialEq, Eq, Structural)]
pub struct Topology {
    pub folded: bool,
    pub rotated: bool,
}

/// Driven-line count of the physical matrix for a topology.
pub open spec fn spec_phys_rows(t: Topology) -> int {
    if t.folded {
        PHYS_ROWS as int
    } else {
        ROWS as int
    }
}

/// Sensed-line count of the physical matrix for a topology.
pub open spec fn spec_phys_cols(t: Topology) -> int {
    if t.folded {
        PHYS_COLS as int
    } else {
        COLS as int
    }
}

/// Cyclic half-rotation of a line index among `n` lines (`n` even); applying
/// it twice is the identity.
pub open spec fn spec_rotate_line(i: int, n: int) -> int {
    if i < n / 2 {
        i + n / 2
    } else {
        i - n / 2
    }
}

/// The fold transform: the lower physical half addresses the right logical
/// half with mirrored columns.
pub open spec fn spec_fold(r: int, c: int) -> (int, int) {
    if r >= ROWS {
        (r - ROWS, COLS - c - 1)
    } else {
        (r, c)
    }
}

/// Inverse of the fold transform.
pub open spec fn spec_unfold(r: int, c: int) -> (int, int) {
    if c >= PHYS_COLS {
        (r + ROWS, COLS - c - 1)
    } else {
        (r, c)
    }
}

/// Full mapping from a physical coordinate to a logical coordinate: undo the
/// board rotation, then undo the fold.
pub open spec fn spec_map(t: Topology, r: int, c: int) -> (int, int) {
    let r1 = if t.rotated {
        spec_rotate_line(r, spec_phys_rows(t))
    } else {
        r
    };
    let c1 = if t.rotated {
        spec_rotate_line(c, spec_phys_cols(t))
    } else {
        c
    };
    if t.folded {
        spec_fold(r1, c1)
    } else {
        (r1, c1)
    }
}

/// Inverse mapping from a logical coordinate back to the physical coordinate.
pub open spec fn spec_unmap(t: Topology, r: int, c: int) -> (int, int) {
    let folded = if t.folded {
        spec_unfold(r, c)
    } else {
        (r, c)
    };
    if t.rotated {
        (
            spec_rotate_line(folded.0, spec_phys_rows(t)),
            spec_rotate_line(folded.1, spec_phys_cols(t)),
        )
    } else {
        folded
    }
}

/// Folds a physical scan position of the stacked matrix into the logical
/// grid: the lower physical half lands on the right logical half with its
/// columns mirrored.
pub fn matrix_to_layout(row: usize, col: usize) -> (r: (usize, usize))
    requires
        row < PHYS_ROWS,
        col < PHYS_COLS,
    ensures
        r.0 == spec_fold(row as int, col as int).0,
        r.1 == spec_fold(row as int, col as int).1,
        r.0 < ROWS,
        r.1 < COLS,
{
    if row >= ROWS {
        (row - ROWS, COLS - col - 1)
    } else {
        (row, col)
    }
}

impl Topology {
    /// Driven-line count of the physical matrix.
    pub fn phys_rows(&self) -> (n: usize)
        ensures
            n == spec_phys_rows(*self),
    {
        if self.folded {
            PHYS_ROWS
        } else {
            ROWS
        }
    }

    /// Sensed-line count of the physical matrix.
    pub fn phys_cols(&self) -> (n: usize)
        ensures
            n == spec_phys_cols(*self),
    {
        if self.folded {
            PHYS_COLS
        } else {
            COLS
        }
    }
}

/// Maps a physical coordinate of topology `t` to its logical coordinate.
pub fn map_coord(t: &Topology, row: usize, col: usize) -> (r: (usize, usize))
    requires
        row < spec_phys_rows(*t),
        col < spec_phys_cols(*t),
    ensures
        r.0 == spec_map(*t, row as int, col as int).0,
        r.1 == spec_map(*t, row as int, col as int).1,
        r.0 < ROWS,
        r.1 < COLS,
{
    let pr = t.phys_rows();
    let pc = t.phys_cols();
    let r1 = if t.rotated {
        if row < pr / 2 {
            row + pr / 2
        } else {
            row - pr / 2
        }
    } else {
        row
    };
    let c1 = if t.rotated {
        if col < pc / 2 {
            col + pc / 2
        } else {
            col - pc / 2
        }
    } else {
        col
    };
    if t.folded {
        matrix_to_layout(r1, c1)
    } else {
        (r1, c1)
    }
}

/// The mapping lands inside the logical grid.
pub proof fn lemma_map_in_range(t: Topology, r: int, c: int)
    requires
        0 <= r < spec_phys_rows(t),
        0 <= c < spec_phys_cols(t),
    ensures
        0 <= spec_map(t, r, c).0 < ROWS,
        0 <= spec_map(t, r, c).1 < COLS,
{
}

/// The mapper is injective: `spec_unmap` undoes `spec_map` on every physical
/// coordinate, so no two physical cells share a logical cell.
pub proof fn lemma_unmap_map(t: Topology, r: int, c: int)
    requires
        0 <= r < spec_phys_rows(t),
        0 <= c < spec_phys_cols(t),
    ensures
        spec_unmap(t, spec_map(t, r, c).0, spec_map(t, r, c).1) == (r, c),
{
}

/// The mapper is surjective: every logical cell is the image of the physical
/// coordinate `spec_unmap` names, which lies inside the physical matrix.
pub proof fn lemma_map_unmap(t: Topology, r: int, c: int)
    requires
        0 <= r < ROWS,
        0 <= c < COLS,
    ensures
        0 <= spec_unmap(t, r, c).0 < spec_phys_rows(t),
        0 <= spec_unmap(t, r, c).1 < spec_phys_cols(t),
        spec_map(t, spec_unmap(t, r, c).0, spec_unmap(t, r, c).1) == (r, c),
{
}

} // verus!
