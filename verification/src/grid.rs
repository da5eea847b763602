//! Fixed-size boolean grids: one over the logical key layout, one over the
//! physical scan matrix.  Cells are stored row-major in a flat vector.

use vstd::prelude::*;
use crate::coord::{COLS, PHYS_COLS, PHYS_ROWS, ROWS, Topology, map_coord, spec_map};

verus! {

/// A snapshot of the logical grid: one boolean per (row, column) cell.
pub struct Grid {
    pub cells: Vec<bool>,
}

impl Grid {
    /// The backing vector covers the whole logical grid.
    pub open spec fn wf(&self) -> bool {
        self.cells@.len() == ROWS * COLS
    }

    /// The cell at logical (row, column).
    pub open spec fn at(&self, r: int, c: int) -> bool {
        self.cells@[r * COLS + c]
    }

    /// A grid with every cell released.
    pub fn new() -> (g: Grid)
        ensures
            g.wf(),
            forall|r: int, c: int| 0 <= r < ROWS && 0 <= c < COLS ==> !g.at(r, c),
    {
        Grid { cells: vec![false; ROWS * COLS] }
    }

    /// Reads the cell at (row, column).
    pub fn get(&self, r: usize, c: usize) -> (v: bool)
        requires
            self.wf(),
            r < ROWS,
            c < COLS,
        ensures
            v == self.at(r as int, c as int),
    {
        self.cells[r * COLS + c]
    }

    /// Writes the cell at (row, column), leaving every other cell unchanged.
    pub fn put(&mut self, r: usize, c: usize, v: bool)
        requires
            old(self).wf(),
            r < ROWS,
            c < COLS,
        ensures
            final(self).wf(),
            final(self).cells@ == old(self).cells@.update(r * COLS + c, v),
            final(self).at(r as int, c as int) == v,
            forall|r2: int, c2: int|
                0 <= r2 < ROWS && 0 <= c2 < COLS && (r2 != r || c2 != c)
                    ==> final(self).at(r2, c2) == old(self).at(r2, c2),
    {
        let i = r * COLS + c;
        let cell = &mut self.cells[i];
        *cell = v;
    }
}

/// A snapshot of the physical scan matrix: one boolean per (driven line,
/// sensed line) cell.
pub struct PhysGrid {
    pub cells: Vec<bool>,
}

impl PhysGrid {
    /// The backing vector covers the whole physical matrix.
    pub open spec fn wf(&self) -> bool {
        self.cells@.len() == PHYS_ROWS * PHYS_COLS
    }

    /// The cell at (driven line, sensed line).
    pub open spec fn at(&self, r: int, c: int) -> bool {
        self.cells@[r * PHYS_COLS + c]
    }

    /// A matrix snapshot with every cell released.
    pub fn new() -> (g: PhysGrid)
        ensures
            g.wf(),
            forall|r: int, c: int| 0 <= r < PHYS_ROWS && 0 <= c < PHYS_COLS ==> !g.at(r, c),
    {
        PhysGrid { cells: vec![false; PHYS_ROWS * PHYS_COLS] }
    }

    /// Reads the cell at (driven line, sensed line).
    pub fn get(&self, r: usize, c: usize) -> (v: bool)
        requires
            self.wf(),
            r < PHYS_ROWS,
            c < PHYS_COLS,
        ensures
            v == self.at(r as int, c as int),
    {
        self.cells[r * PHYS_COLS + c]
    }

    /// Writes the cell at (driven line, sensed line).
    pub fn put(&mut self, r: usize, c: usize, v: bool)
        requires
            old(self).wf(),
            r < PHYS_ROWS,
            c < PHYS_COLS,
        ensures
            final(self).wf(),
            final(self).at(r as int, c as int) == v,
            forall|r2: int, c2: int|
                0 <= r2 < PHYS_ROWS && 0 <= c2 < PHYS_COLS && (r2 != r || c2 != c)
                    ==> final(self).at(r2, c2) == old(self).at(r2, c2),
    {
        let i = r * PHYS_COLS + c;
        let cell = &mut self.cells[i];
        *cell = v;
    }
}

/// Builds the raw logical grid for one scan: every sampled physical cell
/// lands at its mapped logical coordinate.  This is the compute half of the
/// matrix scan; driving and sampling the lines happens outside the library.
pub fn scan_to_grid(samples: &PhysGrid, t: &Topology) -> (g: Grid)
    requires
        samples.wf(),
        t.folded,
    ensures
        g.wf(),
        forall|r: int, c: int|
            0 <= r < PHYS_ROWS && 0 <= c < PHYS_COLS ==> g.at(
                spec_map(*t, r, c).0,
                spec_map(*t, r, c).1,
            ) == samples.at(r, c),
{
    let mut g = Grid::new();
    let mut r: usize = 0;
    while r < PHYS_ROWS
        invariant
            samples.wf(),
            t.folded,
            g.wf(),
            r <= PHYS_ROWS,
            forall|r2: int, c2: int|
                0 <= r2 < r && 0 <= c2 < PHYS_COLS ==> g.at(
                    spec_map(*t, r2, c2).0,
                    spec_map(*t, r2, c2).1,
                ) == samples.at(r2, c2),
        decreases PHYS_ROWS - r,
    {
        let mut c: usize = 0;
        while c < PHYS_COLS
            invariant
                samples.wf(),
                t.folded,
                g.wf(),
                r < PHYS_ROWS,
                c <= PHYS_COLS,
                forall|r2: int, c2: int|
                    0 <= r2 < r && 0 <= c2 < PHYS_COLS ==> g.at(
                        spec_map(*t, r2, c2).0,
                        spec_map(*t, r2, c2).1,
                    ) == samples.at(r2, c2),
                forall|c2: int|
                    0 <= c2 < c ==> g.at(
                        spec_map(*t, r as int, c2).0,
                        spec_map(*t, r as int, c2).1,
                    ) == samples.at(r as int, c2),
            decreases PHYS_COLS - c,
        {
            let (lr, lc) = map_coord(t, r, c);
            g.put(lr, lc, samples.get(r, c));
            proof {
                assert(forall|r2: int, c2: int|
                    0 <= r2 < PHYS_ROWS && 0 <= c2 < PHYS_COLS && (r2 != r || c2 != c) ==> (
                    spec_map(*t, r2, c2).0 != spec_map(*t, r as int, c as int).0 || spec_map(
                        *t,
                        r2,
                        c2,
                    ).1 != spec_map(*t, r as int, c as int).1)) by {
                    assert forall|r2: int, c2: int|
                        0 <= r2 < PHYS_ROWS && 0 <= c2 < PHYS_COLS && (r2 != r || c2 != c) implies (
                    spec_map(*t, r2, c2).0 != spec_map(*t, r as int, c as int).0 || spec_map(
                        *t,
                        r2,
                        c2,
                    ).1 != spec_map(*t, r as int, c as int).1) by {
                        crate::coord::lemma_unmap_map(*t, r2, c2);
                        crate::coord::lemma_unmap_map(*t, r as int, c as int);
                    }
                }
            }
            c = c + 1;
        }
        r = r + 1;
    }
    g
}

} // verus!
