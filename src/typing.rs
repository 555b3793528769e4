//! Cells, nets and pins.

use vstd::prelude::*;

verus! {

/// A grid cell, written `(x, y)`.
#[derive(Clone, Copy, PartialEq, Eq, Structural, Debug)]
pub struct Coor(pub usize, pub usize);

pub type PinID = usize;

/// A named group of pins whose wiring cost is measured together.
pub struct Net {
    pub name: String,
    pub id: usize,
    pub pins: Vec<PinID>,
}

/// A placeable unit and the nets it belongs to.
pub struct Pin {
    pub id: usize,
    pub net_ids: Vec<usize>,
}

impl Coor {
    /// The cell lies on an `nx` by `ny` grid.
    pub open spec fn in_grid(self, nx: int, ny: int) -> bool {
        self.0 < nx && self.1 < ny
    }
}

} // verus!
