//! Positions in space.

use crate::scalar::Scalar;
use crate::vec3::Vec3;
use vstd::prelude::*;

verus! {

/// A position: the vector from the origin of the space to it.
#[derive(Clone, Copy, Debug)]
pub struct Point(pub Vec3);

impl Point {
    /// Coordinate `i`.
    pub open spec fn at(self, i: int) -> Scalar {
        self.0.at(i)
    }

    /// The point with the given coordinates.
    pub fn new(x: Scalar, y: Scalar, z: Scalar) -> (p: Point)
        ensures
            p == Point(Vec3 { e: [x, y, z] }),
            p.at(0) == x,
            p.at(1) == y,
            p.at(2) == z,
    {
        Point(Vec3::new(x, y, z))
    }

    /// Coordinate `index`.
    pub fn get(&self, index: usize) -> (c: Scalar)
        requires
            index < 3,
        ensures
            c == self.at(index as int),
    {
        self.0.get(index)
    }
}

} // verus!
