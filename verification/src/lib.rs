//! Barnes-Hut approximation of pairwise inverse-square interactions among
//! point charges: a spatial octree with recursive insertion, bottom-up
//! charge/centroid aggregation, and approximate force evaluation under a
//! multipole-acceptance (opening-angle) criterion.
//!
//! All quantities are fixed-point integers in the caller's unit system, so
//! every result is pinned exactly by the contracts: distances are floor
//! square roots, the centroid is a single truncating division of the exact
//! charge moment, and the opening-angle test compares integer ratios.

pub mod arith;
pub mod vector;
pub mod particle;
pub mod octree;
pub mod laws;

pub use octree::Cell;
pub use octree::InsertOutcome;
pub use particle::Particle;
pub use vector::Vector;
