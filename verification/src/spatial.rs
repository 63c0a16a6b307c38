//! The spatial partition, modelled as plain data.
//!
//! The partition provider computes a relaxed point-set partition of the
//! domain; this crate consumes it as a table of cells: a fixed-point 2D
//! position, a neighbor list, and a hull flag per cell. Cell identities are
//! the indices `0 .. n`.

use vstd::prelude::*;

verus! {

/// Identity of one spatial-partition cell, stable for one generated map.
#[derive(Clone, Copy, PartialEq, Eq, Structural, Debug, Hash)]
pub struct CellId(pub usize);

/// Largest admitted magnitude of a fixed-point coordinate.
pub const COORD_MAX: i64 = 100_000_000;

/// Largest admitted cell count of one map.
pub const CELLS_MAX: usize = 1_000_000;

/// Largest admitted neighbor count of one cell.
pub const NEIGHBORS_MAX: usize = 64;

/// The spatial adjacency structure: one entry per cell.
pub struct SpatialMap {
    /// Fixed-point x coordinate of each cell's site.
    pub xs: Vec<i64>,
    /// Fixed-point z coordinate of each cell's site.
    pub zs: Vec<i64>,
    /// Neighbor lists; adjacency is symmetric and irreflexive.
    pub neighbors: Vec<Vec<usize>>,
    /// Whether the cell lies on the hull of the partition.
    pub on_hull: Vec<bool>,
}

impl SpatialMap {
    /// Number of cells.
    pub open spec fn n(&self) -> int {
        self.xs@.len() as int
    }

    /// Cell `b` occurs in the neighbor list of cell `a`.
    pub open spec fn adj(&self, a: int, b: int) -> bool {
        exists|k: int| 0 <= k < self.neighbors@[a]@.len() && self.neighbors@[a]@[k] == b
    }

    /// Well-formedness: consistent lengths, neighbor indices in range,
    /// no self-adjacency, symmetric adjacency, distinct adjacent sites,
    /// bounded coordinates and size.
    pub open spec fn wf(&self) -> bool {
        &&& self.zs@.len() == self.n()
        &&& self.neighbors@.len() == self.n()
        &&& self.on_hull@.len() == self.n()
        &&& self.n() <= CELLS_MAX as int
        &&& forall|i: int| 0 <= i < self.n() ==> -COORD_MAX <= #[trigger] self.xs@[i] <= COORD_MAX
        &&& forall|i: int| 0 <= i < self.n() ==> -COORD_MAX <= #[trigger] self.zs@[i] <= COORD_MAX
        &&& forall|i: int|
            0 <= i < self.n() ==> #[trigger] self.neighbors@[i]@.len() <= NEIGHBORS_MAX
        &&& forall|i: int, k: int|
            0 <= i < self.n() && 0 <= k < self.neighbors@[i]@.len() ==> {
                let b = #[trigger] self.neighbors@[i]@[k];
                &&& 0 <= b < self.n()
                &&& b != i
                &&& !(self.xs@[b as int] == self.xs@[i] && self.zs@[b as int] == self.zs@[i])
            }
        &&& forall|a: int, b: int| 0 <= a < self.n() && #[trigger] self.adj(a, b) ==> self.adj(b, a)
    }

    /// Number of cells, as executable code.
    pub fn len(&self) -> (r: usize)
        ensures
            r == self.n(),
    {
        self.xs.len()
    }

    /// The site position of cell `c`.
    pub fn position(&self, c: CellId) -> (r: (i64, i64))
        requires
            self.wf(),
            c.0 < self.n(),
        ensures
            r.0 == self.xs@[c.0 as int],
            r.1 == self.zs@[c.0 as int],
    {
        (self.xs[c.0], self.zs[c.0])
    }

    /// The neighbor list of cell `c`.
    pub fn neighbor_list(&self, c: CellId) -> (r: &Vec<usize>)
        requires
            self.wf(),
            c.0 < self.n(),
        ensures
            r@ == self.neighbors@[c.0 as int]@,
    {
        &self.neighbors[c.0]
    }
}

} // verus!
