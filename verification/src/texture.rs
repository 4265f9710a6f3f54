//! Textures: the colour of a surface at a point.

use crate::color::Color;
use crate::perlin::Perlin;
use crate::perlin::POINT_COUNT;
use crate::point::Point;
use crate::unverified::some_function;
use crate::scalar::Scalar;
use crate::vec3::Vec3;
use vstd::prelude::*;

verus! {

/// A colour field: the colour at surface coordinates `(u, v)` and point `p`.
/// It is a function of its arguments: `value_spec` names what `value` returns.
/// An implementation that is not verified leaves `value_spec` as it stands
/// here, some function of which nothing is known, and is trusted to compute it.
pub trait Texture {
    open spec fn value_spec(&self, u: Scalar, v: Scalar, p: Point) -> Color {
        some_function::<(&Self, Scalar, Scalar, Point), Color>()((self, u, v, p))
    }

    fn value(&self, u: Scalar, v: Scalar, p: &Point) -> (c: Color)
        ensures
            c == self.value_spec(u, v, *p),
    ;
}

/// One colour everywhere.
pub struct SolidColor {
    pub color: Color,
}

impl SolidColor {
    /// The texture that is `color` everywhere.
    pub fn new(color: Color) -> (t: SolidColor)
        ensures
            t.color == color,
    {
        SolidColor { color }
    }

    /// The texture that is the colour `(red, green, blue)` everywhere.
    pub fn from_rgb(red: Scalar, green: Scalar, blue: Scalar) -> (t: SolidColor)
        ensures
            t.color == Color(Vec3 { e: [red, green, blue] }),
    {
        SolidColor { color: Color::new(red, green, blue) }
    }
}

impl Texture for SolidColor {
    open spec fn value_spec(&self, u: Scalar, v: Scalar, p: Point) -> Color {
        self.color
    }

    fn value(&self, u: Scalar, v: Scalar, p: &Point) -> (c: Color) {
        self.color
    }
}

/// A checkerboard in space of two textures.
pub struct CheckerTexture<E: Texture, O: Texture> {
    pub odd: O,
    pub even: E,
}

impl<E: Texture, O: Texture> CheckerTexture<E, O> {
    /// The colour where the product of the sines is `sines`: that of the odd
    /// texture where it is negative, else that of the even one.
    pub open spec fn value_spec(&self, u: Scalar, v: Scalar, p: Point, sines: Scalar) -> Color {
        if sines.lt(Scalar::zero()) {
            self.odd.value_spec(u, v, p)
        } else {
            self.even.value_spec(u, v, p)
        }
    }

    /// The checkerboard of the two textures.
    pub fn new(even: E, odd: O) -> (t: CheckerTexture<E, O>)
        ensures
            t.even == even,
            t.odd == odd,
    {
        CheckerTexture { odd, even }
    }

    /// The colour at `p`, given `sines`, the product of the sines of ten times
    /// each coordinate of `p`. Its sign picks the texture; a product that is
    /// zero or a NaN picks the even one.
    pub fn value(&self, u: Scalar, v: Scalar, p: &Point, sines: Scalar) -> (c: Color)
        ensures
            c == self.value_spec(u, v, *p, sines),
    {
        if sines < Scalar::zero() {
            self.odd.value(u, v, p)
        } else {
            self.even.value(u, v, p)
        }
    }
}

impl CheckerTexture<SolidColor, SolidColor> {
    /// The checkerboard of two colours.
    pub fn from_colors(even: Color, odd: Color) -> (t: CheckerTexture<SolidColor, SolidColor>)
        ensures
            t.even.color == even,
            t.odd.color == odd,
    {
        CheckerTexture { odd: SolidColor::new(odd), even: SolidColor::new(even) }
    }
}

/// Grey lattice noise.
pub struct NoiseTexture {
    pub noise: Perlin,
}

impl NoiseTexture {
    /// The noise texture over a fresh table with the given levels.
    pub fn new(ranfloat: [Scalar; POINT_COUNT]) -> (t: NoiseTexture)
        ensures
            t.noise.levels() == ranfloat@,
    {
        NoiseTexture { noise: Perlin::new(ranfloat) }
    }
}

impl Texture for NoiseTexture {
    open spec fn value_spec(&self, u: Scalar, v: Scalar, p: Point) -> Color {
        let level = self.noise.noise_spec(p);
        Color(Vec3 { e: [level, level, level] })
    }

    /// The grey whose level is the table's at `p`.
    fn value(&self, u: Scalar, v: Scalar, p: &Point) -> (c: Color) {
        Color::gray(self.noise.noise(p))
    }
}

} // verus!
