//! The hittable protocol, hit records, and the scene list.

use crate::aabb::lemma_contains_is_transitive;
use crate::aabb::lemma_surrounding_box_is_least;
use crate::aabb::AABB;
use crate::material::Material;
use crate::point::Point;
use crate::ray::Ray;
use crate::scalar::Scalar;
use crate::unverified::some_function;
use crate::vec3::Vec3;
use vstd::prelude::*;

verus! {

/// One intersection of a ray with a surface.
pub struct HitRecord<'a, M> {
    /// Where the ray meets the surface.
    pub p: Point,
    /// The surface normal, turned against the incoming ray.
    pub normal: Vec3,
    /// The ray parameter of the intersection.
    pub t: Scalar,
    /// Surface coordinates, for texturing.
    pub u: Scalar,
    pub v: Scalar,
    /// Whether the ray came from outside, that is against the outward normal.
    pub front_face: bool,
    /// The material of the surface.
    pub mat: &'a M,
}

impl<'a, M> HitRecord<'a, M> {
    /// The record of a hit at `p`, at ray parameter `t`.
    ///
    /// `facing` is the dot product of the ray's direction with
    /// `outward_normal`. The ray comes from outside when it is negative; else
    /// (zero and NaN included) the stored normal is the outward normal reversed.
    pub fn new(
        p: Point,
        outward_normal: Vec3,
        facing: Scalar,
        t: Scalar,
        u: Scalar,
        v: Scalar,
        mat: &'a M,
    ) -> (rec: HitRecord<'a, M>)
        ensures
            rec.p == p,
            rec.t == t,
            rec.u == u,
            rec.v == v,
            rec.mat == mat,
            rec.front_face == facing.lt(Scalar::zero()),
            rec.normal == if rec.front_face {
                outward_normal
            } else {
                outward_normal.negated()
            },
    {
        let front_face = facing < Scalar::zero();
        HitRecord {
            p,
            normal: if front_face {
                outward_normal
            } else {
                outward_normal.neg()
            },
            t,
            u,
            v,
            front_face,
            mat,
        }
    }
}

/// The upper bound that is left for later candidates once `found` is known: the
/// parameter of the hit, or `t_max` where there is none.
pub open spec fn tightened<M>(found: Option<HitRecord<'_, M>>, t_max: Scalar) -> Scalar {
    match found {
        Some(rec) => rec.t,
        None => t_max,
    }
}

/// What can be hit by a ray.
///
/// `hit` answers with the nearest intersection whose parameter lies after
/// `t_min` and not after `t_max`, or with nothing. `bounding_box` gives a box
/// that encloses the object throughout the time interval, or nothing for an
/// object without bounds. Both are functions of their arguments: `hit_spec` and
/// `bounding_box_spec` name what they return. An implementation that is not
/// verified leaves the two as they stand here, some function of which nothing
/// is known, and is trusted to compute it.
pub trait Hit {
    type Mat: Material;

    open spec fn hit_spec(&self, r: Ray, t_min: Scalar, t_max: Scalar) -> Option<
        HitRecord<'_, Self::Mat>,
    > {
        some_function::<(&Self, Ray, Scalar, Scalar), Option<HitRecord<'_, Self::Mat>>>()(
            (self, r, t_min, t_max),
        )
    }

    open spec fn bounding_box_spec(&self, start_time: Scalar, end_time: Scalar) -> Option<AABB> {
        some_function::<(&Self, Scalar, Scalar), Option<AABB>>()((self, start_time, end_time))
    }

    fn hit(&self, r: &Ray, t_min: Scalar, t_max: Scalar) -> (res: Option<HitRecord<'_, Self::Mat>>)
        ensures
            res == self.hit_spec(*r, t_min, t_max),
    ;

    fn bounding_box(&self, start_time: Scalar, end_time: Scalar) -> (res: Option<AABB>)
        ensures
            res == self.bounding_box_spec(start_time, end_time),
    ;
}

/// The objects of a sequence, by reference.
pub open spec fn references<'a, H>(objects: Seq<H>) -> Seq<&'a H> {
    objects.map_values(|h: H| &h)
}

/// The linear scan: each object in turn is asked for a hit no farther than the
/// nearest found so far, and a hit that it reports replaces that one.
pub open spec fn scan<'a, H: Hit>(
    objects: Seq<&'a H>,
    r: Ray,
    t_min: Scalar,
    t_max: Scalar,
) -> Option<HitRecord<'a, H::Mat>>
    decreases objects.len(),
{
    if objects.len() == 0 {
        None
    } else {
        let before = scan(objects.drop_last(), r, t_min, t_max);
        match objects.last().hit_spec(r, t_min, tightened(before, t_max)) {
            Some(rec) => Some(rec),
            None => before,
        }
    }
}

/// The merged box of all the objects' boxes; nothing where there is no object or
/// an object has no box.
pub open spec fn merged_box<H: Hit>(objects: Seq<H>, start_time: Scalar, end_time: Scalar) -> Option<
    AABB,
>
    decreases objects.len(),
{
    if objects.len() == 0 {
        None
    } else if objects.len() == 1 {
        objects[0].bounding_box_spec(start_time, end_time)
    } else {
        match (
            merged_box(objects.drop_last(), start_time, end_time),
            objects.last().bounding_box_spec(start_time, end_time),
        ) {
            (Some(rest), Some(this)) => Some(rest.surround(this)),
            _ => None,
        }
    }
}

/// A scene: hittable objects in the order in which they were added.
pub struct HitList<H> {
    pub objects: Vec<H>,
}

impl<H: Hit> HitList<H> {
    /// The empty scene.
    pub fn new() -> (list: HitList<H>)
        ensures
            list.objects@ == Seq::<H>::empty(),
    {
        HitList { objects: Vec::new() }
    }

    /// Adds an object after those already there.
    pub fn push(&mut self, object: H)
        ensures
            final(self).objects@ == old(self).objects@.push(object),
    {
        self.objects.push(object);
    }

    /// Removes every object.
    pub fn clear(&mut self)
        ensures
            final(self).objects@ == Seq::<H>::empty(),
    {
        self.objects.clear();
    }
}

impl<H: Hit> Hit for HitList<H> {
    type Mat = H::Mat;

    open spec fn hit_spec(&self, r: Ray, t_min: Scalar, t_max: Scalar) -> Option<
        HitRecord<'_, H::Mat>,
    > {
        scan(references(self.objects@), r, t_min, t_max)
    }

    open spec fn bounding_box_spec(&self, start_time: Scalar, end_time: Scalar) -> Option<AABB> {
        merged_box(self.objects@, start_time, end_time)
    }

    /// The nearest hit among the objects, by one pass with a shrinking upper bound.
    fn hit(&self, r: &Ray, t_min: Scalar, t_max: Scalar) -> (res: Option<HitRecord<'_, H::Mat>>) {
        let mut res: Option<HitRecord<'_, H::Mat>> = None;
        let mut closest = t_max;
        let mut i: usize = 0;
        while i < self.objects.len()
            invariant
                i <= self.objects.len(),
                res == scan(references(self.objects@).take(i as int), *r, t_min, t_max),
                closest == tightened(res, t_max),
            decreases self.objects.len() - i,
        {
            assert(references(self.objects@).take(i + 1).drop_last() =~= references(
                self.objects@,
            ).take(i as int));
            if let Some(rec) = self.objects[i].hit(r, t_min, closest) {
                closest = rec.t;
                res = Some(rec);
            }
            i += 1;
        }
        assert(references(self.objects@).take(i as int) =~= references(self.objects@));
        res
    }

    /// The box around all the objects.
    fn bounding_box(&self, start_time: Scalar, end_time: Scalar) -> (res: Option<AABB>) {
        let mut res: Option<AABB> = None;
        let mut i: usize = 0;
        while i < self.objects.len()
            invariant
                i <= self.objects.len(),
                res == merged_box(self.objects@.take(i as int), start_time, end_time),
                i > 0 ==> res is Some,
            decreases self.objects.len() - i,
        {
            assert(self.objects@.take(i + 1).drop_last() =~= self.objects@.take(i as int));
            let this_box = match self.objects[i].bounding_box(start_time, end_time) {
                Some(b) => b,
                None => {
                    proof {
                        lemma_merged_box_needs_every_box(self.objects@, start_time, end_time, i as int);
                    }
                    return None;
                },
            };
            res = match res {
                None => Some(this_box),
                Some(res_box) => Some(AABB::surrounding_box(&res_box, &this_box)),
            };
            i += 1;
        }
        assert(self.objects@.take(i as int) =~= self.objects@);
        res
    }
}

/// A scene in which some object has no box has no box.
pub proof fn lemma_merged_box_needs_every_box<H: Hit>(
    objects: Seq<H>,
    start_time: Scalar,
    end_time: Scalar,
    i: int,
)
    requires
        0 <= i < objects.len(),
        objects[i].bounding_box_spec(start_time, end_time) is None,
    ensures
        merged_box(objects, start_time, end_time) is None,
    decreases objects.len(),
{
    if objects.len() > 1 && i < objects.len() - 1 {
        lemma_merged_box_needs_every_box(objects.drop_last(), start_time, end_time, i);
    }
}

/// The box of a scene is well formed and holds the box of every object, where
/// the objects' boxes are well formed.
pub proof fn lemma_merged_box_holds_every_box<H: Hit>(
    objects: Seq<H>,
    start_time: Scalar,
    end_time: Scalar,
)
    requires
        objects.len() >= 1,
        forall|i: int|
            0 <= i < objects.len() ==> ((#[trigger] objects[i]).bounding_box_spec(
                start_time,
                end_time,
            ) matches Some(b) && b.well_formed()),
    ensures
        merged_box(objects, start_time, end_time) matches Some(m) && m.well_formed() && forall|
            i: int,
        |
            0 <= i < objects.len() ==> m.contains(
                (#[trigger] objects[i]).bounding_box_spec(start_time, end_time).unwrap(),
            ),
    decreases objects.len(),
{
    if objects.len() > 1 {
        let rest = objects.drop_last();
        assert forall|i: int| 0 <= i < rest.len() implies ((#[trigger] rest[i]).bounding_box_spec(
            start_time,
            end_time,
        ) matches Some(b) && b.well_formed()) by {
            assert(rest[i] == objects[i]);
        }
        lemma_merged_box_holds_every_box(rest, start_time, end_time);
        let before = merged_box(rest, start_time, end_time).unwrap();
        let this = objects[objects.len() - 1].bounding_box_spec(start_time, end_time).unwrap();
        let m = before.surround(this);
        lemma_surrounding_box_is_least(before, this);
        assert forall|i: int| 0 <= i < objects.len() implies m.contains(
            (#[trigger] objects[i]).bounding_box_spec(start_time, end_time).unwrap(),
        ) by {
            if i < objects.len() - 1 {
                assert(rest[i] == objects[i]);
                lemma_contains_is_transitive(
                    m,
                    before,
                    objects[i].bounding_box_spec(start_time, end_time).unwrap(),
                );
            }
        }
    } else {
        let only = objects[0].bounding_box_spec(start_time, end_time).unwrap();
        assert(only.contains(only)) by {
            assert forall|i: int| 0 <= i < 3 implies (#[trigger] only.minimum.at(i)).le(
                only.minimum.at(i),
            ) && only.maximum.at(i).le(only.maximum.at(i)) by {
                assert(only.minimum.at(i).le(only.maximum.at(i)));
            }
        }
    }
}

} // verus!
