//! An immutable point charge: a position and a scalar charge, in the same
//! fixed-point units as the octree that stores it.

use vstd::prelude::*;

use crate::vector::Vector;

verus! {

#[derive(Clone, Copy, Debug, PartialEq, Eq, Structural)]
pub struct Particle {
    pub position: Vector,
    pub charge: i64,
}

impl Particle {
    pub fn new(x: i64, y: i64, z: i64, q: i64) -> (p: Particle)
        ensures
            p == (Particle { position: Vector { x, y, z }, charge: q }),
    {
        Particle { position: Vector::new(x, y, z), charge: q }
    }
}

} // verus!
