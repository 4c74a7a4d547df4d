//! The two-state cell and the coordinate that addresses it.

use vstd::prelude::*;

verus! {

/// The state of one cell.
#[derive(Clone, Copy, Debug, PartialEq, Eq, Structural, Hash)]
pub enum CellValue {
    Dead,
    Alive,
}

/// The position of a cell: column `x`, row `y`.
#[derive(Clone, Copy, Debug, PartialEq, Eq, Structural, Hash)]
pub struct CellCoord {
    pub x: usize,
    pub y: usize,
}

} // verus!
