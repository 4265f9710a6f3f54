//! Axis-aligned bounding boxes: merging, and the slab test against a ray.

use crate::point::Point;
use crate::ray::Ray;
use crate::scalar::lemma_min_max_keys;
use crate::scalar::Scalar;
use vstd::prelude::*;

verus! {

/// What a ray and a box give on one axis: the reciprocal of the ray's direction
/// component, and the ray parameters at which the ray meets the plane through
/// the box's minimum (`t0`) and through its maximum (`t1`).
#[derive(Clone, Copy, Debug)]
pub struct Slab {
    pub inv_d: Scalar,
    pub t0: Scalar,
    pub t1: Scalar,
}

/// A parameter interval, from `lo` to `hi`.
#[derive(Clone, Copy, Debug)]
pub struct Span {
    pub lo: Scalar,
    pub hi: Scalar,
}

impl Slab {
    /// Whether the ray runs against the axis, so that it meets the maximum plane first.
    pub open spec fn reversed(self) -> bool {
        self.inv_d.lt(Scalar::zero())
    }

    /// The parameter at which the ray enters the slab.
    pub open spec fn entry(self) -> Scalar {
        if self.reversed() {
            self.t1
        } else {
            self.t0
        }
    }

    /// The parameter at which the ray leaves the slab.
    pub open spec fn exit(self) -> Scalar {
        if self.reversed() {
            self.t0
        } else {
            self.t1
        }
    }

    /// The slab of the mirrored ray and box: the direction is reversed and the
    /// two planes change places.
    pub open spec fn mirrored(self) -> Slab {
        Slab { inv_d: self.inv_d.negated(), t0: self.t1, t1: self.t0 }
    }
}

impl Span {
    /// The part of the interval that lies inside the slab. A NaN bound of the
    /// slab does not narrow.
    pub open spec fn narrowed(self, s: Slab) -> Span {
        Span { lo: s.entry().max_of(self.lo), hi: s.exit().min_of(self.hi) }
    }

    /// Whether the interval is more than a point: `lo < hi`, or a bound is a NaN.
    pub open spec fn open(self) -> bool {
        !self.hi.le(self.lo)
    }
}

/// The slab test: the interval from `t_min` to `t_max` is narrowed by each slab in
/// turn, and must stay more than a point each time.
pub open spec fn slabs_overlap(slabs: [Slab; 3], t_min: Scalar, t_max: Scalar) -> bool {
    let s0 = (Span { lo: t_min, hi: t_max }).narrowed(slabs@[0]);
    let s1 = s0.narrowed(slabs@[1]);
    let s2 = s1.narrowed(slabs@[2]);
    s0.open() && s1.open() && s2.open()
}

/// Whether `f` is a function on all boxes and rays: it accepts every pair, and
/// what it returns is settled by the pair.
pub open spec fn is_slab_function<F: Fn(AABB, Ray) -> [Slab; 3]>(f: &F) -> bool {
    &&& forall|b: AABB, r: Ray| #[trigger] call_requires(f, (b, r))
    &&& forall|b: AABB, r: Ray, x: [Slab; 3], y: [Slab; 3]|
        #[trigger] call_ensures(f, (b, r), x) && #[trigger] call_ensures(f, (b, r), y) ==> x == y
}

/// The slabs that `f` gives for a box and a ray.
pub open spec fn slabs_of<F: Fn(AABB, Ray) -> [Slab; 3]>(f: &F, b: AABB, r: Ray) -> [Slab; 3] {
    choose|s: [Slab; 3]| call_ensures(f, (b, r), s)
}

/// Decides the slab test from the three slabs of a ray and a box.
pub fn slabs_hit(slabs: &[Slab; 3], t_min: Scalar, t_max: Scalar) -> (res: bool)
    ensures
        res == slabs_overlap(*slabs, t_min, t_max),
{
    let mut lo = t_min;
    let mut hi = t_max;
    let ghost mut span = Span { lo: t_min, hi: t_max };
    let mut i: usize = 0;
    while i < 3
        invariant
            i <= 3,
            span == (Span { lo, hi }),
            i == 0 ==> span == (Span { lo: t_min, hi: t_max }),
            i == 1 ==> span == (Span { lo: t_min, hi: t_max }).narrowed(slabs@[0]) && span.open(),
            i == 2 ==> {
                let s0 = (Span { lo: t_min, hi: t_max }).narrowed(slabs@[0]);
                span == s0.narrowed(slabs@[1]) && s0.open() && span.open()
            },
            i == 3 ==> slabs_overlap(*slabs, t_min, t_max),
        decreases 3 - i,
    {
        let s = slabs[i];
        let mut t0 = s.t0;
        let mut t1 = s.t1;
        if s.inv_d < Scalar::zero() {
            t0 = s.t1;
            t1 = s.t0;
        }
        lo = t0.max(lo);
        hi = t1.min(hi);
        proof {
            span = span.narrowed(s);
        }
        if hi <= lo {
            return false;
        }
        i += 1;
    }
    true
}

/// An axis-aligned box, from its corner of least coordinates to that of greatest.
#[derive(Clone, Copy, Debug)]
pub struct AABB {
    pub minimum: Point,
    pub maximum: Point,
}

impl AABB {
    /// Whether the box is a box: on each axis the minimum is at most the
    /// maximum (so neither is a NaN).
    pub open spec fn well_formed(self) -> bool {
        forall|i: int| 0 <= i < 3 ==> (#[trigger] self.minimum.at(i)).le(self.maximum.at(i))
    }

    /// Whether `other` lies inside this box, on every axis.
    pub open spec fn contains(self, other: AABB) -> bool {
        forall|i: int|
            0 <= i < 3 ==> (#[trigger] self.minimum.at(i)).le(other.minimum.at(i))
                && other.maximum.at(i).le(self.maximum.at(i))
    }

    /// The merged box: on each axis the smaller minimum and the larger maximum.
    pub open spec fn surround(self, other: AABB) -> AABB {
        AABB {
            minimum: Point(
                crate::vec3::Vec3 {
                    e: [
                        self.minimum.at(0).min_of(other.minimum.at(0)),
                        self.minimum.at(1).min_of(other.minimum.at(1)),
                        self.minimum.at(2).min_of(other.minimum.at(2)),
                    ],
                },
            ),
            maximum: Point(
                crate::vec3::Vec3 {
                    e: [
                        self.maximum.at(0).max_of(other.maximum.at(0)),
                        self.maximum.at(1).max_of(other.maximum.at(1)),
                        self.maximum.at(2).max_of(other.maximum.at(2)),
                    ],
                },
            ),
        }
    }

    /// The verdict of the slab test on this box, with the slabs that `f` gives.
    pub open spec fn hit_by<F: Fn(AABB, Ray) -> [Slab; 3]>(
        self,
        r: Ray,
        t_min: Scalar,
        t_max: Scalar,
        f: &F,
    ) -> bool {
        slabs_overlap(slabs_of(f, self, r), t_min, t_max)
    }

    /// The box with the given corners. The corners are taken as they are.
    pub fn new(minimum: Point, maximum: Point) -> (b: AABB)
        ensures
            b == (AABB { minimum, maximum }),
    {
        AABB { minimum, maximum }
    }

    /// Whether the ray passes through the box between `t_min` and `t_max`.
    ///
    /// `slabs` does the arithmetic: for a box and a ray it gives, for each axis,
    /// the reciprocal of the direction component and the two plane parameters.
    /// What is decided here is the rest: the order of the two planes along the
    /// ray, the narrowing of the interval axis by axis, and the verdict. An
    /// interval narrowed to a point is a miss.
    pub fn hit<F: Fn(AABB, Ray) -> [Slab; 3]>(
        &self,
        r: &Ray,
        t_min: Scalar,
        t_max: Scalar,
        slabs: &F,
    ) -> (res: bool)
        requires
            call_requires(slabs, (*self, *r)),
        ensures
            exists|s: [Slab; 3]| #[trigger]
                call_ensures(slabs, (*self, *r), s) && res == slabs_overlap(s, t_min, t_max),
            is_slab_function(slabs) ==> res == self.hit_by(*r, t_min, t_max, slabs),
    {
        let s = slabs(*self, *r);
        slabs_hit(&s, t_min, t_max)
    }

    /// The smallest box that holds both boxes.
    pub fn surrounding_box(box0: &AABB, box1: &AABB) -> (res: AABB)
        ensures
            res == box0.surround(*box1),
    {
        let small = Point::new(
            box0.minimum.get(0).min(box1.minimum.get(0)),
            box0.minimum.get(1).min(box1.minimum.get(1)),
            box0.minimum.get(2).min(box1.minimum.get(2)),
        );
        let big = Point::new(
            box0.maximum.get(0).max(box1.maximum.get(0)),
            box0.maximum.get(1).max(box1.maximum.get(1)),
            box0.maximum.get(2).max(box1.maximum.get(2)),
        );
        AABB::new(small, big)
    }
}

/// The merged box of two boxes holds both, and is the least box that does: any
/// box that holds both holds it. On each axis it reaches exactly as far as the
/// two together: down to the smaller minimum and up to the larger maximum.
pub proof fn lemma_surrounding_box_is_least(a: AABB, b: AABB)
    requires
        a.well_formed(),
        b.well_formed(),
    ensures
        a.surround(b).well_formed(),
        a.surround(b).contains(a),
        a.surround(b).contains(b),
        forall|c: AABB| c.contains(a) && c.contains(b) ==> #[trigger] c.contains(a.surround(b)),
        forall|i: int|
            0 <= i < 3 ==> (#[trigger] a.surround(b).minimum.at(i)).key() == vstd::math::min(
                a.minimum.at(i).key(),
                b.minimum.at(i).key(),
            ) && a.surround(b).maximum.at(i).key() == vstd::math::max(
                a.maximum.at(i).key(),
                b.maximum.at(i).key(),
            ),
{
    let s = a.surround(b);
    assert forall|i: int| 0 <= i < 3 implies (#[trigger] s.minimum.at(i)).le(s.maximum.at(i))
        && s.minimum.at(i).le(a.minimum.at(i)) && s.minimum.at(i).le(b.minimum.at(i))
        && a.maximum.at(i).le(s.maximum.at(i)) && b.maximum.at(i).le(s.maximum.at(i))
        && s.minimum.at(i) == a.minimum.at(i).min_of(b.minimum.at(i))
        && s.maximum.at(i) == a.maximum.at(i).max_of(b.maximum.at(i)) by {
        assert(a.minimum.at(i).le(a.maximum.at(i)));
        assert(b.minimum.at(i).le(b.maximum.at(i)));
    }
    assert forall|c: AABB| c.contains(a) && c.contains(b) implies #[trigger] c.contains(s) by {
        assert forall|i: int| 0 <= i < 3 implies (#[trigger] c.minimum.at(i)).le(s.minimum.at(i))
            && s.maximum.at(i).le(c.maximum.at(i)) by {
            assert(c.minimum.at(i).le(a.minimum.at(i)));
            assert(c.minimum.at(i).le(b.minimum.at(i)));
            assert(s.minimum.at(i) == a.minimum.at(i).min_of(b.minimum.at(i)));
            assert(s.maximum.at(i) == a.maximum.at(i).max_of(b.maximum.at(i)));
        }
    }
}

/// Whether two boxes reach equally far on every axis. (The two zeros are one
/// value with two patterns, so boxes of equal extent may differ in patterns.)
pub open spec fn same_extent(a: AABB, b: AABB) -> bool {
    forall|i: int|
        0 <= i < 3 ==> (#[trigger] a.minimum.at(i)).same(b.minimum.at(i)) && a.maximum.at(i).same(
            b.maximum.at(i),
        )
}

/// Merging does not depend on the order of the boxes nor on their grouping: the
/// merged boxes have the same extent.
pub proof fn lemma_surround_commutes_and_associates(a: AABB, b: AABB, c: AABB)
    requires
        a.well_formed(),
        b.well_formed(),
        c.well_formed(),
    ensures
        same_extent(a.surround(b), b.surround(a)),
        same_extent(a.surround(b).surround(c), a.surround(b.surround(c))),
{
    let ab = a.surround(b);
    let ba = b.surround(a);
    let bc = b.surround(c);
    assert forall|i: int| 0 <= i < 3 implies (#[trigger] ab.minimum.at(i)).same(ba.minimum.at(i))
        && ab.maximum.at(i).same(ba.maximum.at(i)) && ab.surround(c).minimum.at(i).same(
        a.surround(bc).minimum.at(i),
    ) && ab.surround(c).maximum.at(i).same(a.surround(bc).maximum.at(i)) by {
        let (al, bl, cl) = (a.minimum.at(i), b.minimum.at(i), c.minimum.at(i));
        let (ah, bh, ch) = (a.maximum.at(i), b.maximum.at(i), c.maximum.at(i));
        assert(al.le(ah) && bl.le(bh) && cl.le(ch));
        assert(ab.minimum.at(i) == al.min_of(bl) && ba.minimum.at(i) == bl.min_of(al));
        assert(ab.maximum.at(i) == ah.max_of(bh) && ba.maximum.at(i) == bh.max_of(ah));
        assert(bc.minimum.at(i) == bl.min_of(cl) && bc.maximum.at(i) == bh.max_of(ch));
        assert(ab.surround(c).minimum.at(i) == al.min_of(bl).min_of(cl));
        assert(a.surround(bc).minimum.at(i) == al.min_of(bl.min_of(cl)));
        assert(ab.surround(c).maximum.at(i) == ah.max_of(bh).max_of(ch));
        assert(a.surround(bc).maximum.at(i) == ah.max_of(bh.max_of(ch)));
        lemma_min_max_keys(al, bl);
        lemma_min_max_keys(bl, al);
        lemma_min_max_keys(bl, cl);
        lemma_min_max_keys(al.min_of(bl), cl);
        lemma_min_max_keys(al, bl.min_of(cl));
        lemma_min_max_keys(ah, bh);
        lemma_min_max_keys(bh, ah);
        lemma_min_max_keys(bh, ch);
        lemma_min_max_keys(ah.max_of(bh), ch);
        lemma_min_max_keys(ah, bh.max_of(ch));
    }
}

/// A box that holds a box holds every box inside that one.
pub proof fn lemma_contains_is_transitive(a: AABB, b: AABB, c: AABB)
    requires
        a.contains(b),
        b.contains(c),
    ensures
        a.contains(c),
{
    assert forall|i: int| 0 <= i < 3 implies (#[trigger] a.minimum.at(i)).le(c.minimum.at(i))
        && c.maximum.at(i).le(a.maximum.at(i)) by {
        assert(a.minimum.at(i).le(b.minimum.at(i)));
        assert(b.minimum.at(i).le(c.minimum.at(i)));
    }
}

/// Whether the arithmetic `f` of the slab test respects inclusion for this ray:
/// under each bound within `t_max`, a ray that passes through a box passes
/// through every box around it.
pub open spec fn wider_box_is_hit<F: Fn(AABB, Ray) -> [Slab; 3]>(
    f: &F,
    r: Ray,
    t_min: Scalar,
    t_max: Scalar,
) -> bool {
    forall|inner: AABB, outer: AABB, hi: Scalar|
        (hi == t_max || hi.le(t_max)) && outer.contains(inner) && #[trigger] inner.hit_by(
            r,
            t_min,
            hi,
            f,
        ) ==> #[trigger] outer.hit_by(r, t_min, hi, f)
}

/// Mirroring a ray and a box on one axis (the direction reversed, the two planes
/// exchanged) does not change the verdict of the slab test, as long as the
/// reciprocal of the direction on that axis is neither zero nor a NaN.
pub proof fn lemma_mirrored_axis_same_verdict(
    slabs: [Slab; 3],
    axis: int,
    t_min: Scalar,
    t_max: Scalar,
)
    requires
        0 <= axis < 3,
        !slabs@[axis].inv_d.is_nan(),
        slabs@[axis].inv_d.key() != 0,
    ensures
        ({
            let m = [
                if axis == 0 { slabs@[0].mirrored() } else { slabs@[0] },
                if axis == 1 { slabs@[1].mirrored() } else { slabs@[1] },
                if axis == 2 { slabs@[2].mirrored() } else { slabs@[2] },
            ];
            slabs_overlap(m, t_min, t_max) == slabs_overlap(slabs, t_min, t_max)
        }),
{
    let s = slabs@[axis];
    let m = s.mirrored();
    assert(m.entry() == s.entry());
    assert(m.exit() == s.exit());
}

/// A box and a ray, and their mirror images on one axis, have the same verdict,
/// wherever the arithmetic `f` gives the mirror images the mirrored slab on
/// that axis and the same slabs on the others, and the reciprocal of the
/// direction on that axis is neither zero nor a NaN.
pub proof fn lemma_mirrored_ray_same_verdict<F: Fn(AABB, Ray) -> [Slab; 3]>(
    f: &F,
    b: AABB,
    r: Ray,
    mirrored_box: AABB,
    mirrored_ray: Ray,
    axis: int,
    t_min: Scalar,
    t_max: Scalar,
)
    requires
        0 <= axis < 3,
        !slabs_of(f, b, r)@[axis].inv_d.is_nan(),
        slabs_of(f, b, r)@[axis].inv_d.key() != 0,
        forall|i: int|
            0 <= i < 3 ==> #[trigger] slabs_of(f, mirrored_box, mirrored_ray)@[i] == if i == axis {
                slabs_of(f, b, r)@[i].mirrored()
            } else {
                slabs_of(f, b, r)@[i]
            },
    ensures
        mirrored_box.hit_by(mirrored_ray, t_min, t_max, f) == b.hit_by(r, t_min, t_max, f),
{
    let plain = slabs_of(f, b, r);
    let other = slabs_of(f, mirrored_box, mirrored_ray);
    lemma_mirrored_axis_same_verdict(plain, axis, t_min, t_max);
    assert(other@[0] == if axis == 0 { plain@[0].mirrored() } else { plain@[0] });
    assert(other@[1] == if axis == 1 { plain@[1].mirrored() } else { plain@[1] });
    assert(other@[2] == if axis == 2 { plain@[2].mirrored() } else { plain@[2] });
}

} // verus!
