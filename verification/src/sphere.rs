//! Spheres, still or moving, and the choice among the roots of an intersection
//! equation.

use crate::aabb::AABB;
use crate::hit::Hit;
use crate::hit::HitRecord;
use crate::material::Material;
use crate::nearest::answers_nearest;
use crate::nearest::capped;
use crate::nearest::within;
use crate::point::Point;
use crate::ray::Ray;
use crate::scalar::Scalar;
use crate::vec3::Vec3;
use vstd::prelude::*;
use vstd::std_specs::cmp::PartialOrdIs;
use vstd::std_specs::cmp::PartialOrdSpec;

verus! {

/// Whether `v` lies after `min` and not after `max`.
pub open spec fn in_range<T: PartialOrd>(v: T, min: T, max: T) -> bool {
    min.is_lt(&v) && v.is_le(&max)
}

/// The first of `vals` that lies after `min` and not after `max`.
pub open spec fn first_in_range<T: PartialOrd>(vals: Seq<T>, min: T, max: T) -> Option<T>
    decreases vals.len(),
{
    if vals.len() == 0 {
        None
    } else if in_range(vals[0], min, max) {
        Some(vals[0])
    } else {
        first_in_range(vals.drop_first(), min, max)
    }
}

/// The values from position `i` on.
pub open spec fn from_position<T>(vals: Seq<T>, i: usize) -> Seq<T> {
    vals.skip(i as int)
}

/// The values from a position on are the value there, then those from the next
/// position on.
proof fn lemma_from_position_unfolds<T>(vals: Seq<T>, i: usize)
    requires
        i < vals.len(),
        i < usize::MAX,
    ensures
        from_position(vals, i)[0] == vals[i as int],
        from_position(vals, i).drop_first() == from_position(vals, (i + 1) as usize),
        from_position(vals, 0) == vals,
{
    assert(from_position(vals, i).drop_first() =~= from_position(vals, (i + 1) as usize));
    assert(from_position(vals, 0) =~= vals);
}

/// The first of `vals` that lies in the range that is open at `min` and closed
/// at `max`, or nothing where none does.
///
/// With the roots of a quadratic in ascending order this is the nearer
/// intersection, unless it lies before the range. A root that is a NaN lies in
/// no range.
pub fn get_first_in_range<T: PartialOrd + Copy, const L: usize>(vals: [T; L], min: T, max: T) -> (res:
    Option<T>)
    ensures
        T::obeys_partial_cmp_spec() ==> res == first_in_range(vals@, min, max),
{
    let mut i: usize = 0;
    assert(from_position(vals@, 0) =~= vals@);
    while i < L
        invariant
            i <= L,
            vals@.len() == L,
            T::obeys_partial_cmp_spec() ==> first_in_range(vals@, min, max) == first_in_range(
                from_position(vals@, i),
                min,
                max,
            ),
        decreases L - i,
    {
        let v = vals[i];
        proof {
            lemma_from_position_unfolds(vals@, i);
        }
        if min < v && v <= max {
            return Some(v);
        }
        i += 1;
    }
    None
}

/// The shape of a sphere: its centre at two moments, between which it moves on
/// a straight line, and its radius. A sphere at rest has the same centre twice.
#[derive(Clone, Copy, Debug)]
pub struct Ball {
    pub center_start: Point,
    pub center_end: Point,
    pub time_start: Scalar,
    pub time_end: Scalar,
    pub radius: Scalar,
}

/// Where a ray crosses a sphere: the discriminant of the quadratic in the ray
/// parameter, and its two roots, the smaller first.
#[derive(Clone, Copy, Debug)]
pub struct Crossing {
    pub discriminant: Scalar,
    pub roots: [Scalar; 2],
}

/// The surface of a sphere where a ray meets it: the point, the outward normal
/// there, the dot product of the ray's direction with that normal, and the
/// surface coordinates.
#[derive(Clone, Copy, Debug)]
pub struct Surface {
    pub p: Point,
    pub outward_normal: Vec3,
    pub facing: Scalar,
    pub u: Scalar,
    pub v: Scalar,
}

/// Whether `f` is a function on all balls and rays.
pub open spec fn is_crossing_function<C: Fn(Ball, Ray) -> Crossing>(f: &C) -> bool {
    &&& forall|b: Ball, r: Ray| #[trigger] call_requires(f, (b, r))
    &&& forall|b: Ball, r: Ray, x: Crossing, y: Crossing|
        #[trigger] call_ensures(f, (b, r), x) && #[trigger] call_ensures(f, (b, r), y) ==> x == y
}

/// Whether `f` is a function on all balls, rays and ray parameters.
pub open spec fn is_surface_function<S: Fn(Ball, Ray, Scalar) -> Surface>(f: &S) -> bool {
    &&& forall|b: Ball, r: Ray, t: Scalar| #[trigger] call_requires(f, (b, r, t))
    &&& forall|b: Ball, r: Ray, t: Scalar, x: Surface, y: Surface|
        #[trigger] call_ensures(f, (b, r, t), x) && #[trigger] call_ensures(f, (b, r, t), y) ==> x
            == y
}

/// Whether `f` is a function on all balls and moments.
pub open spec fn is_box_function<B: Fn(Ball, Scalar) -> AABB>(f: &B) -> bool {
    &&& forall|b: Ball, t: Scalar| #[trigger] call_requires(f, (b, t))
    &&& forall|b: Ball, t: Scalar, x: AABB, y: AABB|
        #[trigger] call_ensures(f, (b, t), x) && #[trigger] call_ensures(f, (b, t), y) ==> x == y
}

/// A sphere with its material.
///
/// The arithmetic is handed in when the sphere is made: `crossing` solves the
/// quadratic of a ray against the ball, `surface` describes the ball where the
/// ray meets it at a root, and `box_at` gives the box around the ball at a
/// moment. What is decided here is which root counts, on which side the ray
/// meets the surface, and how the boxes of an interval are merged.
pub struct Sphere<
    M: Material,
    C: Fn(Ball, Ray) -> Crossing,
    S: Fn(Ball, Ray, Scalar) -> Surface,
    B: Fn(Ball, Scalar) -> AABB,
> {
    ball: Ball,
    mat: M,
    crossing: C,
    surface: S,
    box_at: B,
}

impl<
    M: Material,
    C: Fn(Ball, Ray) -> Crossing,
    S: Fn(Ball, Ray, Scalar) -> Surface,
    B: Fn(Ball, Scalar) -> AABB,
> Sphere<M, C, S, B> {
    #[verifier::type_invariant]
    pub closed spec fn wf(&self) -> bool {
        &&& is_crossing_function(&self.crossing)
        &&& is_surface_function(&self.surface)
        &&& is_box_function(&self.box_at)
    }

    /// The shape of the sphere.
    pub closed spec fn shape(&self) -> Ball {
        self.ball
    }

    /// The material of the sphere.
    pub closed spec fn material(&self) -> &M {
        &self.mat
    }

    /// Where a ray crosses the sphere.
    pub closed spec fn crossing_of(&self, r: Ray) -> Crossing {
        choose|c: Crossing| call_ensures(&self.crossing, (self.ball, r), c)
    }

    /// The surface of the sphere where a ray meets it at the parameter `t`.
    pub closed spec fn surface_of(&self, r: Ray, t: Scalar) -> Surface {
        choose|s: Surface| call_ensures(&self.surface, (self.ball, r, t), s)
    }

    /// The box around the sphere at a moment.
    pub closed spec fn box_of(&self, time: Scalar) -> AABB {
        choose|b: AABB| call_ensures(&self.box_at, (self.ball, time), b)
    }

    /// The sphere at rest around `center`.
    pub fn new(center: Point, radius: Scalar, mat: M, crossing: C, surface: S, box_at: B) -> (sphere:
        Sphere<M, C, S, B>)
        requires
            is_crossing_function(&crossing),
            is_surface_function(&surface),
            is_box_function(&box_at),
        ensures
            sphere.shape() == (Ball {
                center_start: center,
                center_end: center,
                time_start: Scalar::zero(),
                time_end: Scalar::one(),
                radius,
            }),
            *sphere.material() == mat,
    {
        Sphere {
            ball: Ball {
                center_start: center,
                center_end: center,
                time_start: Scalar::zero(),
                time_end: Scalar::one(),
                radius,
            },
            mat,
            crossing,
            surface,
            box_at,
        }
    }

    /// The sphere that moves from `center_start` at `time_start` to `center_end`
    /// at `time_end`.
    pub fn new_moving(
        center_start: Point,
        center_end: Point,
        time_start: Scalar,
        time_end: Scalar,
        radius: Scalar,
        mat: M,
        crossing: C,
        surface: S,
        box_at: B,
    ) -> (sphere: Sphere<M, C, S, B>)
        requires
            is_crossing_function(&crossing),
            is_surface_function(&surface),
            is_box_function(&box_at),
        ensures
            sphere.shape() == (Ball { center_start, center_end, time_start, time_end, radius }),
            *sphere.material() == mat,
    {
        Sphere {
            ball: Ball { center_start, center_end, time_start, time_end, radius },
            mat,
            crossing,
            surface,
            box_at,
        }
    }

    /// The shape of the sphere.
    pub fn ball(&self) -> (b: Ball)
        ensures
            b == self.shape(),
    {
        self.ball
    }

    /// The material of the sphere.
    pub fn mat(&self) -> (m: &M)
        ensures
            m == self.material(),
    {
        &self.mat
    }

    /// The root at which a ray hits the sphere between the bounds: none where
    /// the discriminant is negative, else the first root in the range.
    pub open spec fn root_of(&self, r: Ray, t_min: Scalar, t_max: Scalar) -> Option<Scalar> {
        let c = self.crossing_of(r);
        if c.discriminant.lt(Scalar::zero()) {
            None
        } else {
            first_in_range(c.roots@, t_min, t_max)
        }
    }
}

impl<
    M: Material,
    C: Fn(Ball, Ray) -> Crossing,
    S: Fn(Ball, Ray, Scalar) -> Surface,
    B: Fn(Ball, Scalar) -> AABB,
> Hit for Sphere<M, C, S, B> {
    type Mat = M;

    open spec fn hit_spec(&self, r: Ray, t_min: Scalar, t_max: Scalar) -> Option<
        HitRecord<'_, M>,
    > {
        match self.root_of(r, t_min, t_max) {
            None => None,
            Some(root) => {
                let s = self.surface_of(r, root);
                let front_face = s.facing.lt(Scalar::zero());
                Some(
                    HitRecord {
                        p: s.p,
                        normal: if front_face {
                            s.outward_normal
                        } else {
                            s.outward_normal.negated()
                        },
                        t: root,
                        u: s.u,
                        v: s.v,
                        front_face,
                        mat: self.material(),
                    },
                )
            },
        }
    }

    open spec fn bounding_box_spec(&self, start_time: Scalar, end_time: Scalar) -> Option<AABB> {
        Some(self.box_of(start_time).surround(self.box_of(end_time)))
    }

    /// The nearer crossing of the ray with the sphere in the range that is open
    /// at `t_min` and closed at `t_max`, with the normal turned against the ray.
    fn hit(&self, r: &Ray, t_min: Scalar, t_max: Scalar) -> (res: Option<HitRecord<'_, M>>) {
        proof {
            use_type_invariant(self);
        }
        let c = (self.crossing)(self.ball, *r);
        if c.discriminant < Scalar::zero() {
            return None;
        }
        let root = match get_first_in_range(c.roots, t_min, t_max) {
            Some(root) => root,
            None => {
                return None;
            },
        };
        let s = (self.surface)(self.ball, *r, root);
        Some(HitRecord::new(s.p, s.outward_normal, s.facing, root, s.u, s.v, &self.mat))
    }

    /// The box around the sphere at the start of the interval, merged with that
    /// at its end.
    fn bounding_box(&self, start_time: Scalar, end_time: Scalar) -> (res: Option<AABB>) {
        proof {
            use_type_invariant(self);
        }
        let box0 = (self.box_at)(self.ball, start_time);
        let box1 = (self.box_at)(self.ball, end_time);
        Some(AABB::surrounding_box(&box0, &box1))
    }
}

/// Among two scalars the first in a range is the first if it lies in the range,
/// else the second if that does; and a scalar lies in a range when it compares
/// greater than the lower bound and not greater than the upper.
pub proof fn lemma_first_of_two(roots: [Scalar; 2], t_min: Scalar, t_max: Scalar)
    ensures
        first_in_range(roots@, t_min, t_max) == if t_min.lt(roots@[0]) && roots@[0].le(t_max) {
            Some(roots@[0])
        } else if t_min.lt(roots@[1]) && roots@[1].le(t_max) {
            Some(roots@[1])
        } else {
            None
        },
{
    let rest = roots@.drop_first();
    assert(roots@.len() == 2);
    assert(rest.len() == 1 && rest[0] == roots@[1]);
    assert(rest.drop_first().len() == 0);
    assert(first_in_range(rest.drop_first(), t_min, t_max) is None);
    assert(first_in_range(rest, t_min, t_max) == if in_range(rest[0], t_min, t_max) {
        Some(rest[0])
    } else {
        None
    });
    assert(in_range(roots@[0], t_min, t_max) == (t_min.lt(roots@[0]) && roots@[0].le(t_max)));
    assert(in_range(roots@[1], t_min, t_max) == (t_min.lt(roots@[1]) && roots@[1].le(t_max)));
}

/// A hit of a sphere lies in the range of the query: after `t_min` and not
/// after `t_max`.
pub proof fn lemma_sphere_hit_is_in_range<
    M: Material,
    C: Fn(Ball, Ray) -> Crossing,
    S: Fn(Ball, Ray, Scalar) -> Surface,
    B: Fn(Ball, Scalar) -> AABB,
>(sphere: Sphere<M, C, S, B>, r: Ray, t_min: Scalar, t_max: Scalar)
    ensures
        sphere.hit_spec(r, t_min, t_max) matches Some(rec) ==> t_min.lt(rec.t) && rec.t.le(t_max),
{
    lemma_first_of_two(sphere.crossing_of(r).roots, t_min, t_max);
}

/// A sphere lets its caller shrink the upper bound, for a ray whose two roots
/// come in ascending order: under a smaller bound it answers with the same hit,
/// or with nothing where that hit is farther than the bound.
pub proof fn lemma_sphere_answers_nearest<
    M: Material,
    C: Fn(Ball, Ray) -> Crossing,
    S: Fn(Ball, Ray, Scalar) -> Surface,
    B: Fn(Ball, Scalar) -> AABB,
>(sphere: Sphere<M, C, S, B>, r: Ray, t_min: Scalar, t_max: Scalar)
    requires
        !sphere.crossing_of(r).roots@[1].lt(sphere.crossing_of(r).roots@[0]),
    ensures
        answers_nearest(&sphere, r, t_min, t_max),
{
    let roots = sphere.crossing_of(r).roots;
    lemma_first_of_two(roots, t_min, t_max);
    assert forall|hi: Scalar| within(hi, t_max) implies #[trigger] sphere.hit_spec(r, t_min, hi)
        == capped(sphere.hit_spec(r, t_min, t_max), hi) by {
        lemma_first_of_two(roots, t_min, hi);
    }
}

} // verus!
