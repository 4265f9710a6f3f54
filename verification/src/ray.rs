//! Rays: a start, a direction and the moment at which the ray is cast.

use crate::point::Point;
use crate::scalar::Scalar;
use crate::vec3::Vec3;
use vstd::prelude::*;

verus! {

/// The half line `orig + t * dir`, cast at `time`.
#[derive(Clone, Copy, Debug)]
pub struct Ray {
    pub orig: Point,
    pub dir: Vec3,
    pub time: Scalar,
}

impl Ray {
    /// The ray from `orig` along `dir`, cast at `time`.
    pub fn new(orig: Point, dir: Vec3, time: Scalar) -> (r: Ray)
        ensures
            r == (Ray { orig, dir, time }),
    {
        Ray { orig, dir, time }
    }

    /// Where the ray starts.
    pub fn origin(&self) -> (p: &Point)
        ensures
            *p == self.orig,
    {
        &self.orig
    }

    /// The direction of the ray; its length is not normalised.
    pub fn direction(&self) -> (d: &Vec3)
        ensures
            *d == self.dir,
    {
        &self.dir
    }

    /// The moment at which the ray is cast.
    pub fn time(&self) -> (t: Scalar)
        ensures
            t == self.time,
    {
        self.time
    }
}

} // verus!
