//! From scalars to integers: the whole part of a value scaled by a power of two.
//!
//! A binary64 pattern with exponent field `e` and fraction `f` stands for
//! `significand * 2^(scale - 1075)`, in absolute value: the significand is
//! `2^52 + f` and the scale `e`, or `f` and 1 where `e` is zero. Scaling by a
//! power of two is exact, so the whole part of the scaled value can be read off
//! the pattern.

use crate::scalar::Scalar;
use vstd::arithmetic::power2::lemma2_to64_rest;
use vstd::arithmetic::power2::lemma_pow2_adds;
use vstd::arithmetic::power2::lemma_pow2_pos;
use vstd::arithmetic::power2::lemma_pow2_strictly_increases;
use vstd::arithmetic::power2::pow2;
use vstd::prelude::*;

verus! {

/// `2^52`: the hidden bit of a significand, and the number of fractions.
pub const HIDDEN_BIT: u64 = 0x0010_0000_0000_0000;

/// `2^63`: what `floor_scaled_capped` returns for every larger whole part.
pub const WHOLE_CAP: u64 = 0x8000_0000_0000_0000;

impl Scalar {
    /// The exponent field of the pattern.
    pub open spec fn exponent_field(self) -> nat {
        (self.magnitude() / HIDDEN_BIT) as nat
    }

    /// The fraction field of the pattern.
    pub open spec fn fraction_field(self) -> nat {
        (self.magnitude() % HIDDEN_BIT) as nat
    }

    /// The significand `s` of `|value| = s * 2^(scale - 1075)`.
    pub open spec fn significand(self) -> nat {
        if self.exponent_field() == 0 {
            self.fraction_field()
        } else {
            HIDDEN_BIT as nat + self.fraction_field()
        }
    }

    /// The scale `c` of `|value| = significand * 2^(c - 1075)`.
    pub open spec fn scale(self) -> nat {
        if self.exponent_field() == 0 {
            1
        } else {
            self.exponent_field()
        }
    }

    /// The whole part of `|value| * 2^k`, for a value that is no NaN. For an
    /// infinity it is a number beyond `2^63`.
    pub open spec fn floor_scaled(self, k: nat) -> nat {
        if self.scale() + k >= 1075 {
            self.significand() * pow2((self.scale() + k - 1075) as nat)
        } else {
            self.significand() / pow2((1075 - self.scale() - k) as nat)
        }
    }

    /// Whether `|value| * 2^k` is a whole number, for a value that is no NaN.
    pub open spec fn whole_scaled(self, k: nat) -> bool {
        self.scale() + k >= 1075 || self.significand() % pow2((1075 - self.scale() - k) as nat)
            == 0
    }

    /// Whether `|value| * 2^k` is a whole number.
    pub fn is_whole_scaled(self, k: u64) -> (b: bool)
        ensures
            b == self.whole_scaled(k as nat),
    {
        let mag = self.abs().to_bits();
        let field = mag / HIDDEN_BIT;
        let fraction = mag % HIDDEN_BIT;
        let significand = if field == 0 {
            fraction
        } else {
            HIDDEN_BIT + fraction
        };
        let scale = if field == 0 {
            1
        } else {
            field
        };
        if k >= 1075 || scale + k >= 1075 {
            true
        } else {
            let down = 1075 - scale - k;
            if down >= 53 {
                proof {
                    lemma2_to64_rest();
                    if down > 53 {
                        lemma_pow2_strictly_increases(53, down as nat);
                    }
                    vstd::arithmetic::div_mod::lemma_small_mod(
                        significand as nat,
                        pow2(down as nat),
                    );
                }
                significand == 0
            } else {
                let whole = significand >> down;
                proof {
                    vstd::bits::lemma_u64_shr_is_div(significand, down);
                    lemma_pow2_pos(down as nat);
                    vstd::arithmetic::div_mod::lemma_fundamental_div_mod(
                        significand as int,
                        pow2(down as nat) as int,
                    );
                    vstd::arithmetic::div_mod::lemma_mod_bound(
                        significand as int,
                        pow2(down as nat) as int,
                    );
                    let d = pow2(down as nat) as int;
                    let rest = significand as int % d;
                    assert(whole * d <= significand) by (nonlinear_arith)
                        requires
                            significand == d * whole + rest,
                            rest >= 0,
                    ;
                    vstd::bits::lemma_u64_shl_is_mul(whole, down);
                    assert((whole * d == significand) == (rest == 0)) by (nonlinear_arith)
                        requires
                            significand == d * whole + rest,
                    ;
                }
                (whole << down) == significand
            }
        }
    }

    /// The whole part of `|value| * 2^k`, or `2^63` where it is larger.
    pub fn floor_scaled_capped(self, k: u64) -> (m: u64)
        ensures
            m == if self.floor_scaled(k as nat) < WHOLE_CAP {
                self.floor_scaled(k as nat)
            } else {
                WHOLE_CAP as nat
            },
    {
        let mag = self.abs().to_bits();
        let field = mag / HIDDEN_BIT;
        let fraction = mag % HIDDEN_BIT;
        let significand = if field == 0 {
            fraction
        } else {
            HIDDEN_BIT + fraction
        };
        let scale = if field == 0 {
            1
        } else {
            field
        };
        assert(significand == self.significand() && scale == self.scale());
        if significand == 0 {
            proof {
                if scale + k >= 1075 {
                    assert(0 * pow2((scale + k - 1075) as nat) == 0);
                } else {
                    lemma_pow2_pos((1075 - scale - k) as nat);
                }
            }
            0
        } else if k >= 1200 || scale + k >= 1075 + 63 {
            proof {
                let up = (scale + k - 1075) as nat;
                lemma2_to64_rest();
                if up > 63 {
                    lemma_pow2_strictly_increases(63, up);
                }
                assert(significand * pow2(up) >= WHOLE_CAP) by (nonlinear_arith)
                    requires
                        significand >= 1,
                        pow2(up) >= WHOLE_CAP,
                ;
            }
            WHOLE_CAP
        } else if scale + k >= 1075 {
            let up = scale + k - 1075;
            let limit = WHOLE_CAP >> up;
            proof {
                let d = pow2(up as nat);
                let rest = pow2((63 - up) as nat);
                lemma2_to64_rest();
                lemma_pow2_pos(up as nat);
                lemma_pow2_adds(up as nat, (63 - up) as nat);
                vstd::bits::lemma_u64_shr_is_div(WHOLE_CAP, up);
                vstd::arithmetic::div_mod::lemma_div_multiples_vanish(rest as int, d as int);
                assert(d * rest == rest * d) by (nonlinear_arith);
                assert(limit == rest);
                if significand >= limit {
                    assert(significand * d >= WHOLE_CAP) by (nonlinear_arith)
                        requires
                            significand >= rest,
                            d * rest == WHOLE_CAP,
                            d > 0,
                    ;
                } else {
                    assert(significand * d < WHOLE_CAP) by (nonlinear_arith)
                        requires
                            significand < rest,
                            d * rest == WHOLE_CAP,
                            d > 0,
                    ;
                    vstd::bits::lemma_u64_shl_is_mul(significand, up);
                }
            }
            if significand >= limit {
                WHOLE_CAP
            } else {
                significand << up
            }
        } else {
            let down = 1075 - scale - k;
            if down >= 53 {
                proof {
                    lemma2_to64_rest();
                    if down > 53 {
                        lemma_pow2_strictly_increases(53, down as nat);
                    }
                    vstd::arithmetic::div_mod::lemma_basic_div(
                        significand as int,
                        pow2(down as nat) as int,
                    );
                }
                0
            } else {
                proof {
                    vstd::bits::lemma_u64_shr_is_div(significand, down);
                    lemma_pow2_pos(down as nat);
                    vstd::arithmetic::div_mod::lemma_div_nonincreasing(
                        significand as int,
                        pow2(down as nat) as int,
                    );
                }
                significand >> down
            }
        }
    }
}

} // verus!
