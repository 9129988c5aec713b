//! A 3-component vector over fixed-point integer coordinates: component-wise
//! addition, difference, scalar multiplication, and floor Euclidean norms.

use vstd::prelude::*;

use crate::arith::is_sqrt;
use crate::arith::isqrt;
use crate::arith::lemma_sqrt_lt;
use crate::arith::sqrt_floor;

verus! {

/// Component magnitude up to which `magnitude` and `distance` are defined:
/// large enough for any aggregated centroid of in-range particles, small
/// enough that the squared norms fit the 128-bit square-root routine.
pub const NORM_COORD_LIMIT: i64 = 0x1000_0000_0000_0000;

#[derive(Clone, Copy, Debug, PartialEq, Eq, Structural)]
pub struct Vector {
    pub x: i64,
    pub y: i64,
    pub z: i64,
}

/// The squared Euclidean norm of `v`.
pub open spec fn norm_sq(v: Vector) -> int {
    v.x * v.x + v.y * v.y + v.z * v.z
}

/// The squared Euclidean distance between `a` and `b`.
pub open spec fn dist_sq(a: Vector, b: Vector) -> int {
    (a.x - b.x) * (a.x - b.x) + (a.y - b.y) * (a.y - b.y) + (a.z - b.z) * (a.z - b.z)
}

impl Vector {
    pub fn new(x: i64, y: i64, z: i64) -> (v: Vector)
        ensures
            v == (Vector { x, y, z }),
    {
        Vector { x, y, z }
    }

    /// Component-wise sum.
    pub fn add(&self, pt: &Vector) -> (v: Vector)
        requires
            i64::MIN <= self.x + pt.x <= i64::MAX,
            i64::MIN <= self.y + pt.y <= i64::MAX,
            i64::MIN <= self.z + pt.z <= i64::MAX,
        ensures
            v.x == self.x + pt.x,
            v.y == self.y + pt.y,
            v.z == self.z + pt.z,
    {
        Vector { x: self.x + pt.x, y: self.y + pt.y, z: self.z + pt.z }
    }

    /// The difference vector `self - pt`: the direction from `pt` to `self`.
    pub fn distance_vector(&self, pt: &Vector) -> (v: Vector)
        requires
            i64::MIN <= self.x - pt.x <= i64::MAX,
            i64::MIN <= self.y - pt.y <= i64::MAX,
            i64::MIN <= self.z - pt.z <= i64::MAX,
        ensures
            v.x == self.x - pt.x,
            v.y == self.y - pt.y,
            v.z == self.z - pt.z,
    {
        Vector { x: self.x - pt.x, y: self.y - pt.y, z: self.z - pt.z }
    }

    /// Component-wise multiplication by a scalar.
    pub fn scalar_multiplication(&self, scalar: i64) -> (v: Vector)
        requires
            i64::MIN <= scalar * self.x <= i64::MAX,
            i64::MIN <= scalar * self.y <= i64::MAX,
            i64::MIN <= scalar * self.z <= i64::MAX,
        ensures
            v.x == scalar * self.x,
            v.y == scalar * self.y,
            v.z == scalar * self.z,
    {
        Vector { x: scalar * self.x, y: scalar * self.y, z: scalar * self.z }
    }

    /// The floor of the Euclidean norm `sqrt(x^2 + y^2 + z^2)`.
    pub fn magnitude(&self) -> (r: i64)
        requires
            -NORM_COORD_LIMIT <= self.x <= NORM_COORD_LIMIT,
            -NORM_COORD_LIMIT <= self.y <= NORM_COORD_LIMIT,
            -NORM_COORD_LIMIT <= self.z <= NORM_COORD_LIMIT,
        ensures
            is_sqrt(norm_sq(*self), r as int),
            r == sqrt_floor(norm_sq(*self)),
    {
        let n = norm_sq_exec(self.x as i128, self.y as i128, self.z as i128);
        let r = isqrt(n);
        proof {
            lemma_sqrt_lt(n as int, r as int, 0x4000_0000_0000_0000int);
        }
        r as i64
    }

    /// The floor of the Euclidean distance between `self` and `pt`.
    pub fn distance(&self, pt: &Vector) -> (r: i64)
        requires
            -NORM_COORD_LIMIT <= self.x - pt.x <= NORM_COORD_LIMIT,
            -NORM_COORD_LIMIT <= self.y - pt.y <= NORM_COORD_LIMIT,
            -NORM_COORD_LIMIT <= self.z - pt.z <= NORM_COORD_LIMIT,
        ensures
            is_sqrt(dist_sq(*self, *pt), r as int),
            r == sqrt_floor(dist_sq(*self, *pt)),
    {
        let dx: i128 = (self.x as i128) - (pt.x as i128);
        let dy: i128 = (self.y as i128) - (pt.y as i128);
        let dz: i128 = (self.z as i128) - (pt.z as i128);
        let n = norm_sq_exec(dx, dy, dz);
        let r = isqrt(n);
        proof {
            lemma_sqrt_lt(n as int, r as int, 0x4000_0000_0000_0000int);
        }
        r as i64
    }
}

/// Squares each in-range component and sums, entirely within 128 bits.
fn norm_sq_exec(x: i128, y: i128, z: i128) -> (n: u128)
    requires
        -0x1000_0000_0000_0000int <= x <= 0x1000_0000_0000_0000int,
        -0x1000_0000_0000_0000int <= y <= 0x1000_0000_0000_0000int,
        -0x1000_0000_0000_0000int <= z <= 0x1000_0000_0000_0000int,
    ensures
        n as int == x * x + y * y + z * z,
        n <= 0x300_0000_0000_0000_0000_0000_0000_0000u128,
{
    proof {
        lemma_square_bound(x as int, 0x1000_0000_0000_0000int);
        lemma_square_bound(y as int, 0x1000_0000_0000_0000int);
        lemma_square_bound(z as int, 0x1000_0000_0000_0000int);
    }
    let n: i128 = x * x + y * y + z * z;
    n as u128
}

/// For `|a| <= m`, the square lies in `[0, m * m]`.
pub proof fn lemma_square_bound(a: int, m: int)
    requires
        -m <= a <= m,
        0 <= m,
    ensures
        0 <= a * a <= m * m,
{
    assert(0 <= a * a <= m * m) by (nonlinear_arith)
        requires
            -m <= a <= m,
            0 <= m;
}

} // verus!
