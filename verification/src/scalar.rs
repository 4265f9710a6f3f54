//! Binary64 values by their bit patterns: classification and ordering.

use core::cmp::Ordering;
use vstd::prelude::*;
use vstd::std_specs::cmp::PartialEqSpecImpl;
use vstd::std_specs::cmp::PartialOrdSpecImpl;

verus! {

/// The sign bit of a binary64 pattern.
pub const SIGN_BIT: u64 = 0x8000_0000_0000_0000;

/// The pattern of positive infinity; every larger magnitude is a NaN.
pub const INFINITY_BITS: u64 = 0x7ff0_0000_0000_0000;

/// The pattern that this library writes for a NaN.
pub const NAN_BITS: u64 = 0x7ff8_0000_0000_0000;

/// The pattern of `1.0`.
pub const ONE_BITS: u64 = 0x3ff0_0000_0000_0000;

/// An IEEE 754 binary64 value, held as its 64 bits.
#[derive(Clone, Copy, Debug)]
pub struct Scalar {
    pub bits: u64,
}

impl Scalar {
    /// The pattern without its sign bit.
    pub open spec fn magnitude(self) -> u64 {
        if self.bits >= SIGN_BIT {
            (self.bits - SIGN_BIT) as u64
        } else {
            self.bits
        }
    }

    /// Whether the sign bit is set.
    pub open spec fn sign(self) -> bool {
        self.bits >= SIGN_BIT
    }

    /// Whether the value is a NaN.
    pub open spec fn is_nan(self) -> bool {
        self.magnitude() > INFINITY_BITS
    }

    /// An integer that grows with the value: for values that are no NaN,
    /// `a < b` as reals (with infinities) exactly when `a.key() < b.key()`.
    /// Both zeros have key 0.
    pub open spec fn key(self) -> int {
        if self.sign() {
            -(self.magnitude() as int)
        } else {
            self.magnitude() as int
        }
    }

    /// IEEE `<`: false when either side is a NaN.
    pub open spec fn lt(self, other: Scalar) -> bool {
        !self.is_nan() && !other.is_nan() && self.key() < other.key()
    }

    /// IEEE `<=`: false when either side is a NaN.
    pub open spec fn le(self, other: Scalar) -> bool {
        !self.is_nan() && !other.is_nan() && self.key() <= other.key()
    }

    /// IEEE `==`: false when either side is a NaN; the two zeros are equal.
    pub open spec fn same(self, other: Scalar) -> bool {
        !self.is_nan() && !other.is_nan() && self.key() == other.key()
    }

    /// The smaller of two values, a NaN counting as missing.
    pub open spec fn min_of(self, other: Scalar) -> Scalar {
        if self.is_nan() {
            other
        } else if other.is_nan() {
            self
        } else if other.key() < self.key() {
            other
        } else {
            self
        }
    }

    /// The larger of two values, a NaN counting as missing.
    pub open spec fn max_of(self, other: Scalar) -> Scalar {
        if self.is_nan() {
            other
        } else if other.is_nan() {
            self
        } else if other.key() > self.key() {
            other
        } else {
            self
        }
    }

    /// The value held between two bounds: the bound that it passes, else itself.
    /// A NaN stays a NaN.
    pub open spec fn clamped(self, min: Scalar, max: Scalar) -> Scalar {
        if self.lt(min) {
            min
        } else if max.lt(self) {
            max
        } else {
            self
        }
    }

    /// The value with its sign bit flipped.
    pub open spec fn negated(self) -> Scalar {
        if self.bits >= SIGN_BIT {
            Scalar { bits: (self.bits - SIGN_BIT) as u64 }
        } else {
            Scalar { bits: (self.bits + SIGN_BIT) as u64 }
        }
    }

    /// The value with its sign bit cleared.
    pub open spec fn absolute(self) -> Scalar {
        Scalar { bits: self.magnitude() }
    }

    /// A key that orders every pattern: `key()` for a value, and above all keys
    /// for a NaN.
    pub open spec fn total_key(self) -> int {
        if self.is_nan() {
            i64::MAX as int
        } else {
            self.key()
        }
    }

    /// The value of a pattern. Every NaN becomes the one pattern `NAN_BITS`, so
    /// that equal computations give equal scalars.
    pub fn from_bits(bits: u64) -> (s: Scalar)
        ensures
            (Scalar { bits }).is_nan() ==> s.bits == NAN_BITS,
            !(Scalar { bits }).is_nan() ==> s.bits == bits,
            s.is_nan() == (Scalar { bits }).is_nan(),
    {
        let raw = Scalar { bits };
        if raw.nan() {
            Scalar { bits: NAN_BITS }
        } else {
            raw
        }
    }

    /// The 64 bits.
    pub fn to_bits(self) -> (bits: u64)
        ensures
            bits == self.bits,
    {
        self.bits
    }

    /// Positive zero.
    pub open spec fn spec_zero() -> Scalar {
        Scalar { bits: 0 }
    }

    /// `1.0`.
    pub open spec fn spec_one() -> Scalar {
        Scalar { bits: ONE_BITS }
    }

    /// Positive zero.
    #[verifier::when_used_as_spec(spec_zero)]
    pub fn zero() -> (s: Scalar)
        ensures
            s == Scalar::spec_zero(),
    {
        Scalar { bits: 0 }
    }

    /// `1.0`.
    #[verifier::when_used_as_spec(spec_one)]
    pub fn one() -> (s: Scalar)
        ensures
            s == Scalar::spec_one(),
    {
        Scalar { bits: ONE_BITS }
    }

    /// Positive infinity.
    pub open spec fn spec_infinity() -> Scalar {
        Scalar { bits: INFINITY_BITS }
    }

    /// Positive infinity: no value that is no NaN has a larger key.
    #[verifier::when_used_as_spec(spec_infinity)]
    pub fn infinity() -> (s: Scalar)
        ensures
            s == Scalar::spec_infinity(),
            !s.is_nan(),
            forall|x: Scalar| !x.is_nan() ==> #[trigger] x.le(s),
    {
        Scalar { bits: INFINITY_BITS }
    }

    fn mag(self) -> (m: u64)
        ensures
            m == self.magnitude(),
    {
        if self.bits >= SIGN_BIT {
            self.bits - SIGN_BIT
        } else {
            self.bits
        }
    }

    /// Whether the value is a NaN.
    pub fn nan(self) -> (b: bool)
        ensures
            b == self.is_nan(),
    {
        self.mag() > INFINITY_BITS
    }

    /// Whether the sign bit is set: true of negative values and of `-0.0`.
    pub fn sign_bit(self) -> (b: bool)
        ensures
            b == self.sign(),
    {
        self.bits >= SIGN_BIT
    }

    /// The key by which scalars are sorted: it grows with the value, the two
    /// zeros share one key, and a NaN comes after everything else.
    pub fn order_key(self) -> (k: i64)
        ensures
            k == self.total_key(),
    {
        let m = self.mag();
        if m > INFINITY_BITS {
            i64::MAX
        } else if self.bits >= SIGN_BIT {
            -(m as i64)
        } else {
            m as i64
        }
    }

    /// The smaller of two values. Where one is a NaN the other is returned; where
    /// the two compare equal, `self` is.
    pub fn min(self, other: Scalar) -> (m: Scalar)
        ensures
            m == self.min_of(other),
    {
        if self.nan() {
            other
        } else if other.nan() {
            self
        } else if other < self {
            other
        } else {
            self
        }
    }

    /// The larger of two values. Where one is a NaN the other is returned; where
    /// the two compare equal, `self` is.
    pub fn max(self, other: Scalar) -> (m: Scalar)
        ensures
            m == self.max_of(other),
    {
        if self.nan() {
            other
        } else if other.nan() {
            self
        } else if other > self {
            other
        } else {
            self
        }
    }

    /// The value held between `min` and `max`. A NaN is returned as it is.
    pub fn clamp(self, min: Scalar, max: Scalar) -> (c: Scalar)
        requires
            min.le(max),
        ensures
            c == self.clamped(min, max),
            !self.is_nan() ==> min.le(c) && c.le(max),
    {
        if self < min {
            min
        } else if self > max {
            max
        } else {
            self
        }
    }

    /// The value with the opposite sign. Exact: only the sign bit changes.
    pub fn neg(self) -> (n: Scalar)
        ensures
            n == self.negated(),
            n.is_nan() == self.is_nan(),
            n.key() == -self.key(),
    {
        if self.bits >= SIGN_BIT {
            Scalar { bits: self.bits - SIGN_BIT }
        } else {
            Scalar { bits: self.bits + SIGN_BIT }
        }
    }

    /// The absolute value. Exact: the sign bit is cleared.
    pub fn abs(self) -> (a: Scalar)
        ensures
            a == self.absolute(),
            a.is_nan() == self.is_nan(),
            a.key() == if self.key() < 0 { -self.key() } else { self.key() },
    {
        Scalar { bits: self.mag() }
    }
}

/// The smaller and the larger of two values that are no NaN are no NaN, and
/// their keys are the smaller and the larger of the two keys.
pub proof fn lemma_min_max_keys(x: Scalar, y: Scalar)
    requires
        !x.is_nan(),
        !y.is_nan(),
    ensures
        !x.min_of(y).is_nan(),
        !x.max_of(y).is_nan(),
        x.min_of(y).key() == vstd::math::min(x.key(), y.key()),
        x.max_of(y).key() == vstd::math::max(x.key(), y.key()),
{
}

impl PartialEq for Scalar {
    fn eq(&self, other: &Scalar) -> (r: bool) {
        if self.nan() || other.nan() {
            false
        } else {
            let a = self.mag();
            let b = other.mag();
            if a == 0 && b == 0 {
                true
            } else {
                a == b && self.sign_bit() == other.sign_bit()
            }
        }
    }
}

impl PartialEqSpecImpl for Scalar {
    open spec fn obeys_eq_spec() -> bool {
        true
    }

    open spec fn eq_spec(&self, other: &Scalar) -> bool {
        self.same(*other)
    }
}

impl PartialOrd for Scalar {
    fn partial_cmp(&self, other: &Scalar) -> (r: Option<Ordering>) {
        if self.nan() || other.nan() {
            None
        } else {
            let a = self.mag();
            let b = other.mag();
            let less = if self.sign_bit() {
                if other.sign_bit() {
                    a > b
                } else {
                    a > 0 || b > 0
                }
            } else {
                if other.sign_bit() {
                    false
                } else {
                    a < b
                }
            };
            let greater = if other.sign_bit() {
                if self.sign_bit() {
                    b > a
                } else {
                    a > 0 || b > 0
                }
            } else {
                if self.sign_bit() {
                    false
                } else {
                    b < a
                }
            };
            if less {
                Some(Ordering::Less)
            } else if greater {
                Some(Ordering::Greater)
            } else {
                Some(Ordering::Equal)
            }
        }
    }
}

impl PartialOrdSpecImpl for Scalar {
    open spec fn obeys_partial_cmp_spec() -> bool {
        true
    }

    open spec fn partial_cmp_spec(&self, other: &Scalar) -> Option<Ordering> {
        if self.is_nan() || other.is_nan() {
            None
        } else if self.key() < other.key() {
            Some(Ordering::Less)
        } else if self.key() > other.key() {
            Some(Ordering::Greater)
        } else {
            Some(Ordering::Equal)
        }
    }
}

} // verus!
