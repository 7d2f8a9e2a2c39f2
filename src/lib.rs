//! Coordinates and occupancy sets for a pyramid-shaped board.
//!
//! A board is a stack of square layers; the 0-based layer `k` is a
//! `(k + 1) x (k + 1)` grid. Every intersection of a board with at most 64
//! intersections gets a dense index below 64, so that a set of
//! intersections fits in one `u64`.
use vstd::prelude::*;

pub mod coordinate_conversions;
pub mod position;

pub use position::{Position, PositionSet};

verus! {

/// Why a board or a position could not be built.
#[derive(Debug, PartialEq, Eq, Structural)]
pub enum PylosError {
    /// A board of `layers` layers has more intersections than the register has bits.
    CapacityExceeded { layers: u32 },
    /// The board has `layers` layers, and no layer `layer`.
    LayerOutOfRange { layers: u32, layer: u32 },
    /// Layers are numbered from 1: there is no layer 0.
    InvalidLayer,
    /// A coordinate is 0 or exceeds the side length `layer_size` of its layer.
    CoordinateOutOfRange { coordinate: u32, layer_size: u32 },
}

pub type PylosResult<T> = Result<T, PylosError>;

} // verus!
