//! Triples of scalars: the carrier of directions, offsets and colour channels.

use crate::scalar::Scalar;
use vstd::prelude::*;

verus! {

/// The pattern of `1e-8`, the bound under which a component counts as zero.
pub const NEAR_ZERO_BITS: u64 = 0x3e45_798e_e230_8c3a;

/// Three scalars, indexed 0, 1, 2.
#[derive(Clone, Copy, Debug)]
pub struct Vec3 {
    pub e: [Scalar; 3],
}

impl Vec3 {
    /// Component `i`.
    pub open spec fn at(self, i: int) -> Scalar {
        self.e@[i]
    }

    /// The vector whose every component is negated.
    pub open spec fn negated(self) -> Vec3 {
        Vec3 { e: [self.at(0).negated(), self.at(1).negated(), self.at(2).negated()] }
    }

    /// Whether every component is smaller than `1e-8` in absolute value.
    pub open spec fn is_near_zero(self) -> bool {
        let s = Scalar { bits: NEAR_ZERO_BITS };
        self.at(0).absolute().lt(s) && self.at(1).absolute().lt(s) && self.at(2).absolute().lt(s)
    }

    /// The vector with the given components.
    pub fn new(e0: Scalar, e1: Scalar, e2: Scalar) -> (v: Vec3)
        ensures
            v == (Vec3 { e: [e0, e1, e2] }),
            v.at(0) == e0,
            v.at(1) == e1,
            v.at(2) == e2,
    {
        Vec3 { e: [e0, e1, e2] }
    }

    /// Component `index`.
    pub fn get(&self, index: usize) -> (c: Scalar)
        requires
            index < 3,
        ensures
            c == self.at(index as int),
    {
        self.e[index]
    }

    /// The opposite vector. Exact: only sign bits change.
    pub fn neg(self) -> (v: Vec3)
        ensures
            v == self.negated(),
    {
        let v = Vec3 { e: [self.e[0].neg(), self.e[1].neg(), self.e[2].neg()] };
        assert(v.e@ =~= self.negated().e@);
        v
    }

    /// Whether the vector is too short to serve as a direction: every component
    /// under `1e-8` in absolute value. A NaN component is not near zero.
    pub fn near_zero(&self) -> (b: bool)
        ensures
            b == self.is_near_zero(),
    {
        let s = Scalar { bits: NEAR_ZERO_BITS };
        self.e[0].abs() < s && self.e[1].abs() < s && self.e[2].abs() < s
    }
}

} // verus!
