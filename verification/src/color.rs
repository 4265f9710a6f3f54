//! Linear RGB colours.

use crate::scalar::Scalar;
use crate::scalar::ONE_BITS;
use crate::truncate::HIDDEN_BIT;
use crate::vec3::Vec3;
use vstd::arithmetic::power2::lemma2_to64_rest;
use vstd::arithmetic::power2::lemma_pow2_strictly_increases;
use vstd::arithmetic::power2::pow2;
use vstd::prelude::*;

verus! {

/// The pattern of `0.999`, the brightest level that is displayed.
pub const BRIGHTEST_BITS: u64 = 0x3fef_f7ce_d916_872b;

/// The byte that displays a level: the whole part of 256 times the level, the
/// level first held between `0` and `0.999`. A NaN is displayed as 0.
pub open spec fn level_byte(level: Scalar) -> int {
    let held = level.clamped(Scalar::zero(), Scalar { bits: BRIGHTEST_BITS });
    if held.is_nan() {
        0
    } else {
        held.floor_scaled(8) as int
    }
}

/// A level between zero and `0.999` is displayed by a byte.
pub proof fn lemma_level_byte_is_byte(level: Scalar)
    ensures
        0 <= level_byte(level) < 256,
{
    let held = level.clamped(Scalar::zero(), Scalar { bits: BRIGHTEST_BITS });
    if !held.is_nan() {
        assert(held.magnitude() <= BRIGHTEST_BITS);
        assert(held.exponent_field() <= 1022);
        let down = (1067 - held.scale()) as nat;
        lemma2_to64_rest();
        if down > 45 {
            lemma_pow2_strictly_increases(45, down);
        }
        assert(held.significand() < 2 * HIDDEN_BIT);
        assert(held.significand() / pow2(down) < 256) by (nonlinear_arith)
            requires
                held.significand() < 256 * 0x2000_0000_0000,
                pow2(down) >= 0x2000_0000_0000,
        ;
    }
}

fn to_byte(level: Scalar) -> (b: u8)
    ensures
        b == level_byte(level),
{
    let held = level.clamp(Scalar::zero(), Scalar { bits: BRIGHTEST_BITS });
    if held.nan() {
        0
    } else {
        proof {
            lemma_level_byte_is_byte(level);
        }
        let whole = held.floor_scaled_capped(8);
        whole as u8
    }
}

/// A colour in linear RGB: channel 0 is red, 1 green, 2 blue.
#[derive(Clone, Copy, Debug)]
pub struct Color(pub Vec3);

impl Color {
    /// Channel `i`.
    pub open spec fn at(self, i: int) -> Scalar {
        self.0.at(i)
    }

    /// Whether every channel is the pattern of `+0.0`.
    pub open spec fn is_black(self) -> bool {
        self.at(0).bits == 0 && self.at(1).bits == 0 && self.at(2).bits == 0
    }

    /// Whether every channel is the pattern of `1.0`.
    pub open spec fn is_white(self) -> bool {
        self.at(0).bits == ONE_BITS && self.at(1).bits == ONE_BITS && self.at(2).bits == ONE_BITS
    }

    /// The colour with the given channels.
    pub fn new(r: Scalar, g: Scalar, b: Scalar) -> (c: Color)
        ensures
            c == Color(Vec3 { e: [r, g, b] }),
            c.at(0) == r,
            c.at(1) == g,
            c.at(2) == b,
    {
        Color(Vec3::new(r, g, b))
    }

    /// The three bytes that display the colour: each channel is held between
    /// `0` and `0.999`, multiplied by 256 and cut to its whole part.
    pub fn to_rgb_array(self) -> (rgb: [u8; 3])
        ensures
            rgb@[0] == level_byte(self.at(0)),
            rgb@[1] == level_byte(self.at(1)),
            rgb@[2] == level_byte(self.at(2)),
    {
        [to_byte(self.0.get(0)), to_byte(self.0.get(1)), to_byte(self.0.get(2))]
    }

    /// No light: `(0, 0, 0)`.
    pub fn black() -> (c: Color)
        ensures
            c == Color(Vec3 { e: [Scalar::zero(), Scalar::zero(), Scalar::zero()] }),
            c.is_black(),
    {
        Color::new(Scalar::zero(), Scalar::zero(), Scalar::zero())
    }

    /// Full light on every channel: `(1, 1, 1)`.
    pub fn white() -> (c: Color)
        ensures
            c == Color(Vec3 { e: [Scalar::one(), Scalar::one(), Scalar::one()] }),
            c.is_white(),
    {
        Color::new(Scalar::one(), Scalar::one(), Scalar::one())
    }

    /// The grey whose three channels are `level`.
    pub fn gray(level: Scalar) -> (c: Color)
        ensures
            c == Color(Vec3 { e: [level, level, level] }),
            c.at(0) == level,
            c.at(1) == level,
            c.at(2) == level,
    {
        Color::new(level, level, level)
    }
}

} // verus!
