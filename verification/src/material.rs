//! Materials: what becomes of a ray at a surface.

use crate::color::Color;
use crate::hit::HitRecord;
use crate::ray::Ray;
use crate::scalar::Scalar;
use crate::texture::Texture;
use crate::unverified::some_function;
use crate::vec3::Vec3;
use vstd::prelude::*;

verus! {

/// A scattering policy. Given the incoming ray and the hit, `scatter` gives the
/// outgoing ray and the colour by which the light it carries is attenuated, or
/// nothing where the ray is absorbed. A policy may draw random numbers, so two
/// calls on the same arguments may differ: `may_answer` says which answers are
/// the policy's to a ray and a hit. An implementation that is not verified
/// leaves `may_answer` as it stands here, some relation of which nothing is
/// known.
pub trait Material: Sized {
    open spec fn may_answer(
        &self,
        r_in: Ray,
        rec: HitRecord<'_, Self>,
        out: Option<(Ray, Color)>,
    ) -> bool {
        some_function::<(&Self, Ray, HitRecord<'_, Self>, Option<(Ray, Color)>), bool>()(
            (self, r_in, rec, out),
        )
    }

    fn scatter(&self, r_in: &Ray, rec: &HitRecord<'_, Self>) -> (out: Option<(Ray, Color)>)
        ensures
            self.may_answer(*r_in, *rec, out),
    ;
}

/// A diffuse surface, coloured by a texture.
///
/// `toward` is the arithmetic and the chance of the surface: given the normal
/// at a hit, it gives the sum of the normal and a random unit vector.
pub struct Lambertian<T: Texture, L: Fn(Vec3) -> Vec3> {
    albedo: T,
    toward: L,
}

impl<T: Texture, L: Fn(Vec3) -> Vec3> Lambertian<T, L> {
    #[verifier::type_invariant]
    pub closed spec fn wf(&self) -> bool {
        forall|normal: Vec3| #[trigger] call_requires(&self.toward, (normal,))
    }

    /// The texture of the surface.
    pub closed spec fn texture(&self) -> &T {
        &self.albedo
    }

    /// Whether `toward` may give `candidate` for the normal.
    pub closed spec fn may_draw(&self, normal: Vec3, candidate: Vec3) -> bool {
        call_ensures(&self.toward, (normal,), candidate)
    }

    /// What becomes of a ray at a hit, given the candidate direction: the ray
    /// leaves the hit toward the candidate, or along the normal where the
    /// candidate is near zero, at the time of the incoming ray, attenuated by
    /// the texture's colour at the hit.
    pub open spec fn scattered<M>(
        &self,
        r_in: Ray,
        rec: HitRecord<'_, M>,
        candidate: Vec3,
    ) -> Option<(Ray, Color)> {
        Some(
            (
                Ray {
                    orig: rec.p,
                    dir: if candidate.is_near_zero() {
                        rec.normal
                    } else {
                        candidate
                    },
                    time: r_in.time,
                },
                self.texture().value_spec(rec.u, rec.v, rec.p),
            ),
        )
    }

    /// The diffuse material with the given texture.
    pub fn new(albedo: T, toward: L) -> (m: Lambertian<T, L>)
        requires
            forall|normal: Vec3| #[trigger] call_requires(&toward, (normal,)),
        ensures
            *m.texture() == albedo,
            forall|normal: Vec3, candidate: Vec3|
                #[trigger] m.may_draw(normal, candidate) == call_ensures(
                    &toward,
                    (normal,),
                    candidate,
                ),
    {
        Lambertian { albedo, toward }
    }

    /// The texture of the surface.
    pub fn albedo(&self) -> (t: &T)
        ensures
            t == self.texture(),
    {
        &self.albedo
    }

    /// Scatters toward `candidate`, the sum of the hit's normal and a random unit
    /// vector. Where that sum is near zero the ray leaves along the normal
    /// instead. The ray starts at the hit, at the time of the incoming ray; the
    /// attenuation is the texture's colour at the hit. A diffuse surface
    /// absorbs nothing.
    pub fn scatter<M>(&self, r_in: &Ray, rec: &HitRecord<'_, M>, candidate: Vec3) -> (out: Option<
        (Ray, Color),
    >)
        ensures
            out == self.scattered(*r_in, *rec, candidate),
    {
        let scatter_direction = if candidate.near_zero() {
            rec.normal
        } else {
            candidate
        };
        Some(
            (
                Ray::new(rec.p, scatter_direction, r_in.time()),
                self.albedo.value(rec.u, rec.v, &rec.p),
            ),
        )
    }

    /// Scatters the ray at the hit: asks `toward` for a candidate direction and
    /// scatters toward it.
    pub fn scatter_at<M>(&self, r_in: &Ray, rec: &HitRecord<'_, M>) -> (out: Option<(Ray, Color)>)
        ensures
            exists|candidate: Vec3|
                self.may_draw(rec.normal, candidate) && out == #[trigger] self.scattered(
                    *r_in,
                    *rec,
                    candidate,
                ),
    {
        proof {
            use_type_invariant(self);
        }
        let candidate = (self.toward)(rec.normal);
        self.scatter(r_in, rec, candidate)
    }
}

impl<T: Texture, L: Fn(Vec3) -> Vec3> Material for Lambertian<T, L> {
    open spec fn may_answer(
        &self,
        r_in: Ray,
        rec: HitRecord<'_, Self>,
        out: Option<(Ray, Color)>,
    ) -> bool {
        exists|candidate: Vec3|
            self.may_draw(rec.normal, candidate) && out == #[trigger] self.scattered(
                r_in,
                rec,
                candidate,
            )
    }

    fn scatter(&self, r_in: &Ray, rec: &HitRecord<'_, Self>) -> (out: Option<(Ray, Color)>) {
        self.scatter_at(r_in, rec)
    }
}

/// What the arithmetic of a metal gives for a ray and a normal: the mirrored
/// direction of the ray moved by the fuzz times a random point of the unit
/// sphere, and the dot product of that direction with the normal.
#[derive(Clone, Copy, Debug)]
pub struct Reflection {
    pub scattered: Vec3,
    pub facing: Scalar,
}

/// A reflecting surface. `fuzz` lies between 0 and 1 and blurs the reflection.
///
/// `reflect` is the arithmetic and the chance of the surface: given the
/// incoming ray, the normal at the hit and the fuzz, it gives the reflection.
pub struct Metal<D: Fn(Ray, Vec3, Scalar) -> Reflection> {
    albedo: Color,
    fuzz: Scalar,
    reflect: D,
}

impl<D: Fn(Ray, Vec3, Scalar) -> Reflection> Metal<D> {
    #[verifier::type_invariant]
    pub closed spec fn wf(&self) -> bool {
        &&& Scalar::zero().le(self.fuzz) && self.fuzz.le(Scalar::one())
        &&& forall|r: Ray, normal: Vec3, fuzz: Scalar| #[trigger]
            call_requires(&self.reflect, (r, normal, fuzz))
    }

    /// The colour of the metal.
    pub closed spec fn albedo_spec(&self) -> Color {
        self.albedo
    }

    /// The fuzz of the metal.
    pub closed spec fn fuzz_spec(&self) -> Scalar {
        self.fuzz
    }

    /// Whether `reflect` may give `x` for the ray and the normal.
    pub closed spec fn may_reflect(&self, r_in: Ray, normal: Vec3, x: Reflection) -> bool {
        call_ensures(&self.reflect, (r_in, normal, self.fuzz), x)
    }

    /// What becomes of a ray at a hit, given the reflection: the ray leaves the
    /// surface where the reflection points away from it, and is absorbed else.
    pub open spec fn scattered<M>(
        &self,
        r_in: Ray,
        rec: HitRecord<'_, M>,
        scattered: Vec3,
        facing: Scalar,
    ) -> Option<(Ray, Color)> {
        if Scalar::zero().lt(facing) {
            Some((Ray { orig: rec.p, dir: scattered, time: r_in.time }, self.albedo_spec()))
        } else {
            None
        }
    }

    /// The metal of the given colour. `fuzz` is held between 0 and 1: above 1,
    /// or a NaN, it becomes 1; below 0 it becomes 0.
    pub fn new(albedo: Color, fuzz: Scalar, reflect: D) -> (m: Metal<D>)
        requires
            forall|r: Ray, normal: Vec3, fuzz: Scalar| #[trigger]
                call_requires(&reflect, (r, normal, fuzz)),
        ensures
            m.albedo_spec() == albedo,
            m.fuzz_spec() == fuzz.min_of(Scalar::one()).max_of(Scalar::zero()),
            Scalar::zero().le(m.fuzz_spec()) && m.fuzz_spec().le(Scalar::one()),
            forall|r: Ray, normal: Vec3, x: Reflection|
                #[trigger] m.may_reflect(r, normal, x) == call_ensures(
                    &reflect,
                    (r, normal, m.fuzz_spec()),
                    x,
                ),
    {
        Metal { albedo, fuzz: fuzz.min(Scalar::one()).max(Scalar::zero()), reflect }
    }

    /// The colour of the metal.
    pub fn albedo(&self) -> (c: Color)
        ensures
            c == self.albedo_spec(),
    {
        self.albedo
    }

    /// The fuzz of the metal, between 0 and 1.
    pub fn fuzz(&self) -> (f: Scalar)
        ensures
            f == self.fuzz_spec(),
            Scalar::zero().le(f) && f.le(Scalar::one()),
    {
        proof {
            use_type_invariant(self);
        }
        self.fuzz
    }

    /// Scatters along `scattered`, the mirrored direction of the incoming ray
    /// moved by the fuzz times a random point of the unit sphere. `facing` is
    /// the dot product of `scattered` with the hit's normal: the ray leaves the
    /// surface where it is positive and is absorbed else (zero and NaN
    /// included).
    pub fn scatter<M>(
        &self,
        r_in: &Ray,
        rec: &HitRecord<'_, M>,
        scattered: Vec3,
        facing: Scalar,
    ) -> (out: Option<(Ray, Color)>)
        ensures
            out == self.scattered(*r_in, *rec, scattered, facing),
    {
        if facing > Scalar::zero() {
            Some((Ray::new(rec.p, scattered, r_in.time()), self.albedo))
        } else {
            None
        }
    }

    /// Scatters the ray at the hit: asks `reflect` for the reflection and
    /// scatters along it.
    pub fn scatter_at<M>(&self, r_in: &Ray, rec: &HitRecord<'_, M>) -> (out: Option<(Ray, Color)>)
        ensures
            exists|x: Reflection|
                self.may_reflect(*r_in, rec.normal, x) && out == #[trigger] self.scattered(
                    *r_in,
                    *rec,
                    x.scattered,
                    x.facing,
                ),
    {
        proof {
            use_type_invariant(self);
        }
        let x = (self.reflect)(*r_in, rec.normal, self.fuzz);
        let out = self.scatter(r_in, rec, x.scattered, x.facing);
        assert(out == self.scattered(*r_in, *rec, x.scattered, x.facing));
        out
    }
}

impl<D: Fn(Ray, Vec3, Scalar) -> Reflection> Material for Metal<D> {
    open spec fn may_answer(
        &self,
        r_in: Ray,
        rec: HitRecord<'_, Self>,
        out: Option<(Ray, Color)>,
    ) -> bool {
        exists|x: Reflection|
            self.may_reflect(r_in, rec.normal, x) && out == #[trigger] self.scattered(
                r_in,
                rec,
                x.scattered,
                x.facing,
            )
    }

    fn scatter(&self, r_in: &Ray, rec: &HitRecord<'_, Self>) -> (out: Option<(Ray, Color)>) {
        self.scatter_at(r_in, rec)
    }
}

/// What the arithmetic of a clear surface gives for a ray, a normal and a
/// refraction ratio: the reflected and the refracted direction, the ratio times
/// the sine of the angle of incidence, the reflectance, and a uniform draw from
/// `[0, 1)`.
#[derive(Clone, Copy, Debug)]
pub struct Refraction {
    pub reflected: Vec3,
    pub refracted: Vec3,
    pub sine_term: Scalar,
    pub reflectance: Scalar,
    pub draw: Scalar,
}

/// A clear surface that refracts or reflects, such as glass.
///
/// `inverse` is the reciprocal of the refractive index. `refract` is the
/// arithmetic and the chance of the surface: given the incoming ray, the normal
/// at the hit and the refraction ratio, it gives the refraction.
pub struct Dielectric<D: Fn(Ray, Vec3, Scalar) -> Refraction> {
    ir: Scalar,
    inverse: Scalar,
    refract: D,
}

impl<D: Fn(Ray, Vec3, Scalar) -> Refraction> Dielectric<D> {
    #[verifier::type_invariant]
    pub closed spec fn wf(&self) -> bool {
        forall|r: Ray, normal: Vec3, ratio: Scalar| #[trigger]
            call_requires(&self.refract, (r, normal, ratio))
    }

    /// The refractive index.
    pub closed spec fn index(&self) -> Scalar {
        self.ir
    }

    /// The reciprocal of the refractive index, as it was given.
    pub closed spec fn inverse_index(&self) -> Scalar {
        self.inverse
    }

    /// Whether `refract` may give `x` for the ray, the normal and the ratio.
    pub closed spec fn may_refract(
        &self,
        r_in: Ray,
        normal: Vec3,
        ratio: Scalar,
        x: Refraction,
    ) -> bool {
        call_ensures(&self.refract, (r_in, normal, ratio), x)
    }

    /// The ratio of the refractive indices at a hit: the reciprocal of the index
    /// where the ray enters the material, and the index where it leaves.
    pub open spec fn ratio_at<M>(&self, rec: HitRecord<'_, M>) -> Scalar {
        if rec.front_face {
            self.inverse_index()
        } else {
            self.index()
        }
    }

    /// Whether the ray is reflected rather than refracted. `sine_term` is the
    /// refraction ratio times the sine of the angle of incidence: above 1 no
    /// refraction exists. Else the ray is reflected where `reflectance` exceeds
    /// `draw`, a uniform draw from `[0, 1)`.
    pub open spec fn is_reflected(sine_term: Scalar, reflectance: Scalar, draw: Scalar) -> bool {
        Scalar::one().lt(sine_term) || draw.lt(reflectance)
    }

    /// What becomes of a ray at a hit, given the refraction: the ray leaves the
    /// hit along the reflected direction where it is reflected, and along the
    /// refracted one else, at the time of the incoming ray, and white.
    pub open spec fn scattered<M>(&self, r_in: Ray, rec: HitRecord<'_, M>, x: Refraction) -> Option<
        (Ray, Color),
    > {
        Some(
            (
                Ray {
                    orig: rec.p,
                    dir: if Self::is_reflected(x.sine_term, x.reflectance, x.draw) {
                        x.reflected
                    } else {
                        x.refracted
                    },
                    time: r_in.time,
                },
                Color(Vec3 { e: [Scalar::one(), Scalar::one(), Scalar::one()] }),
            ),
        )
    }

    /// The clear material with refractive index `ir`, whose reciprocal is
    /// `inverse`.
    pub fn new(ir: Scalar, inverse: Scalar, refract: D) -> (m: Dielectric<D>)
        requires
            forall|r: Ray, normal: Vec3, ratio: Scalar| #[trigger]
                call_requires(&refract, (r, normal, ratio)),
        ensures
            m.index() == ir,
            m.inverse_index() == inverse,
            forall|r: Ray, normal: Vec3, ratio: Scalar, x: Refraction|
                #[trigger] m.may_refract(r, normal, ratio, x) == call_ensures(
                    &refract,
                    (r, normal, ratio),
                    x,
                ),
    {
        Dielectric { ir, inverse, refract }
    }

    /// The refractive index.
    pub fn ir(&self) -> (ir: Scalar)
        ensures
            ir == self.index(),
    {
        self.ir
    }

    /// The ratio of the refractive indices at the hit.
    pub fn refraction_ratio<M>(&self, rec: &HitRecord<'_, M>) -> (ratio: Scalar)
        ensures
            ratio == self.ratio_at(*rec),
    {
        if rec.front_face {
            self.inverse
        } else {
            self.ir
        }
    }

    /// Whether the ray is reflected rather than refracted.
    pub fn reflects(sine_term: Scalar, reflectance: Scalar, draw: Scalar) -> (b: bool)
        ensures
            b == Self::is_reflected(sine_term, reflectance, draw),
    {
        sine_term > Scalar::one() || reflectance > draw
    }

    /// Scatters along the reflected direction where the ray is reflected (see
    /// `is_reflected`), and along the refracted one else. The ray starts at the
    /// hit, at the time of the incoming ray. A clear surface absorbs nothing:
    /// the attenuation is white.
    pub fn scatter<M>(&self, r_in: &Ray, rec: &HitRecord<'_, M>, x: Refraction) -> (out: Option<
        (Ray, Color),
    >)
        ensures
            out == self.scattered(*r_in, *rec, x),
            out matches Some((_, attenuation)) && attenuation.is_white(),
    {
        let direction = if Self::reflects(x.sine_term, x.reflectance, x.draw) {
            x.reflected
        } else {
            x.refracted
        };
        Some((Ray::new(rec.p, direction, r_in.time()), Color::white()))
    }

    /// Scatters the ray at the hit: picks the refraction ratio by the side of
    /// the hit, asks `refract` for the refraction under that ratio, and
    /// scatters by it. The attenuation is white.
    pub fn scatter_at<M>(&self, r_in: &Ray, rec: &HitRecord<'_, M>) -> (out: Option<(Ray, Color)>)
        ensures
            exists|x: Refraction|
                self.may_refract(*r_in, rec.normal, self.ratio_at(*rec), x) && out
                    == #[trigger] self.scattered(*r_in, *rec, x),
            out matches Some((_, attenuation)) && attenuation.is_white(),
    {
        proof {
            use_type_invariant(self);
        }
        let ratio = self.refraction_ratio(rec);
        let x = (self.refract)(*r_in, rec.normal, ratio);
        let out = self.scatter(r_in, rec, x);
        assert(out == self.scattered(*r_in, *rec, x));
        out
    }
}

impl<D: Fn(Ray, Vec3, Scalar) -> Refraction> Material for Dielectric<D> {
    open spec fn may_answer(
        &self,
        r_in: Ray,
        rec: HitRecord<'_, Self>,
        out: Option<(Ray, Color)>,
    ) -> bool {
        exists|x: Refraction|
            self.may_refract(r_in, rec.normal, self.ratio_at(rec), x) && out
                == #[trigger] self.scattered(r_in, rec, x)
    }

    fn scatter(&self, r_in: &Ray, rec: &HitRecord<'_, Self>) -> (out: Option<(Ray, Color)>) {
        self.scatter_at(r_in, rec)
    }
}

} // verus!
