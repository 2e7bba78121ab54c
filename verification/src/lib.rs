//! Fixed-radius near-neighbour pair counting on a lattice of points.
//!
//! Points carry integer coordinates; the cutoff radius is a positive integer
//! in the same unit. Space is cut into cubic cells whose edge is the cutoff,
//! every cell compares itself with the neighbouring cells that its parity
//! class claims, and the per-cell counts are added up.

pub mod geometry;
pub mod stencil;
pub mod grid;
pub mod counter;
pub mod sums;
pub mod equivalence;
