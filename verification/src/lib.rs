//! A Barnes-Hut gravitational N-body solver over fixed-point arithmetic.
//!
//! The solver keeps every scalar as a signed 64-bit fixed-point number with
//! 32 fractional bits, so that the spatial index, the mass aggregation and
//! the force evaluation have exact, machine-checkable semantics.  Addition,
//! subtraction and multiplication wrap on overflow; division and square
//! roots truncate toward zero.  Degenerate inputs (coincident bodies, zero
//! bodies, wild magnitudes) are tolerated structurally rather than rejected,
//! mirroring the usual floating-point policy of letting bad values propagate.

pub mod body;
pub mod bounds;
pub mod fixed;
pub mod laws;
pub mod simulation;
pub mod tree;
pub mod vector;

pub use body::Body;
pub use bounds::Bounds;
pub use fixed::FX_ONE;
pub use simulation::{Simulation, Simulation3D};
pub use tree::SpatialTree;

use vstd::prelude::*;

verus! {

/// The spatial index specialised to two dimensions, by its classic name.
pub type QuadTree = SpatialTree;

/// The spatial index specialised to three dimensions, by its classic name.
pub type OctTree = SpatialTree;

/// The region type of the three-dimensional tree.
pub type Bounds3D = Bounds;

/// A two-dimensional body.
pub type Body2D = Body;

/// A three-dimensional body.
pub type Body3D = Body;

} // verus!
