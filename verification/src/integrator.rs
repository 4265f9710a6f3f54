//! The integrator: the path of the light that a ray gathers.
//!
//! A ray is followed from hit to hit. At each hit the material scatters it or
//! absorbs it; a ray that hits nothing escapes to the background. The colour
//! that the ray gathers is the product, channel by channel, of the
//! attenuations along its path with the colour of the path's end: black where
//! the path was absorbed or cut off, the background where it escaped. The path
//! is traced here; the product is the caller's arithmetic.

use crate::color::Color;
use crate::hit::Hit;
use crate::material::Material;
use crate::ray::Ray;
use crate::scalar::Scalar;
use vstd::prelude::*;

verus! {

/// The pattern of `0.001`, the least ray parameter at which a hit counts: what
/// lies nearer is the surface that the ray has just left.
pub const NEAREST_BITS: u64 = 0x3f50_624d_d2f1_a9fc;

/// How a path ends.
pub enum PathEnd {
    /// The path was cut off: it had as many bounces as were allowed.
    Exhausted,
    /// A material absorbed the ray.
    Absorbed,
    /// The ray hit nothing: it gathers the background along its direction.
    Escaped(Ray),
}

impl PathEnd {
    /// The colour at the end of the path, where it is known without arithmetic:
    /// black where the path was cut off or absorbed. Where the ray escaped, the
    /// colour is that of the background along the ray, and nothing is returned.
    pub fn color(&self) -> (c: Option<Color>)
        ensures
            c is None <==> *self is Escaped,
            c matches Some(black) ==> black.is_black(),
    {
        match self {
            PathEnd::Exhausted => Some(Color::black()),
            PathEnd::Absorbed => Some(Color::black()),
            PathEnd::Escaped(_) => None,
        }
    }
}

/// The path of a ray: the attenuation of each bounce, in order, and the end.
pub struct LightPath {
    pub attenuations: Vec<Color>,
    pub end: PathEnd,
}

/// A path while it is traced: the ray that is followed, the bounces that are
/// left, the attenuations so far, and the end once it is reached.
pub struct Tracing {
    pub ray: Ray,
    pub depth: i32,
    pub attenuations: Seq<Color>,
    pub end: Option<PathEnd>,
}

/// What the world answers to a ray of a path: the nearest hit from `0.001` on.
pub open spec fn first_hit<W: Hit>(world: &W, ray: Ray) -> bool {
    world.hit_spec(ray, Scalar { bits: NEAREST_BITS }, Scalar::infinity()) is Some
}

/// Ends the path where no material is to be asked: with no bounce left it is
/// cut off, and a ray that hits nothing escapes.
pub open spec fn settled<W: Hit>(world: &W, t: Tracing) -> Tracing {
    if t.end is Some {
        t
    } else if t.depth <= 0 {
        Tracing { end: Some(PathEnd::Exhausted), ..t }
    } else if !first_hit(world, t.ray) {
        Tracing { end: Some(PathEnd::Escaped(t.ray)), ..t }
    } else {
        t
    }
}

/// The path after the material at the hit has answered with `outcome`:
/// absorbed, or one bounce on along the scattered ray.
pub open spec fn bounced(t: Tracing, outcome: Option<(Ray, Color)>) -> Tracing {
    if t.end is Some {
        t
    } else {
        match outcome {
            None => Tracing { end: Some(PathEnd::Absorbed), ..t },
            Some((ray, attenuation)) => Tracing {
                ray,
                depth: (t.depth - 1) as i32,
                attenuations: t.attenuations.push(attenuation),
                end: None,
            },
        }
    }
}

/// The path of `r` after the materials along it have given `outcomes`, one
/// after the other.
pub open spec fn traced<W: Hit>(
    world: &W,
    r: Ray,
    depth: i32,
    outcomes: Seq<Option<(Ray, Color)>>,
) -> Tracing
    decreases outcomes.len(),
{
    if outcomes.len() == 0 {
        Tracing { ray: r, depth, attenuations: Seq::empty(), end: None }
    } else {
        bounced(settled(world, traced(world, r, depth, outcomes.drop_last())), outcomes.last())
    }
}

/// The path with one more attenuation in front.
pub open spec fn after_attenuation(attenuation: Color, t: Tracing) -> Tracing {
    Tracing { attenuations: seq![attenuation] + t.attenuations, ..t }
}

/// The path of a ray that is scattered at its first hit is the attenuation of
/// that bounce followed by the path of the scattered ray with one bounce less.
pub proof fn lemma_path_unfolds<W: Hit>(
    world: &W,
    r: Ray,
    depth: i32,
    scattered: Ray,
    attenuation: Color,
    rest: Seq<Option<(Ray, Color)>>,
)
    requires
        depth > 0,
        first_hit(world, r),
    ensures
        traced(world, r, depth, seq![Some((scattered, attenuation))] + rest) == after_attenuation(
            attenuation,
            traced(world, scattered, (depth - 1) as i32, rest),
        ),
        settled(world, traced(world, r, depth, seq![Some((scattered, attenuation))] + rest))
            == after_attenuation(
            attenuation,
            settled(world, traced(world, scattered, (depth - 1) as i32, rest)),
        ),
    decreases rest.len(),
{
    let first = seq![Some((scattered, attenuation))];
    let all = first + rest;
    if rest.len() == 0 {
        assert(all =~= first);
        assert(first.drop_last() =~= Seq::<Option<(Ray, Color)>>::empty());
        let start = traced(world, r, depth, first.drop_last());
        assert(settled(world, start) == start);
        assert(traced(world, r, depth, first).attenuations =~= seq![attenuation]
            + Seq::<Color>::empty());
    } else {
        lemma_path_unfolds(world, r, depth, scattered, attenuation, rest.drop_last());
        assert(all.drop_last() =~= first + rest.drop_last());
        assert(all.last() == rest.last());
        let inner = settled(world, traced(world, scattered, (depth - 1) as i32, rest.drop_last()));
        match rest.last() {
            Some((ray, a)) => {
                assert((seq![attenuation] + inner.attenuations).push(a) =~= seq![attenuation]
                    + inner.attenuations.push(a));
            },
            None => {},
        }
    }
}

/// Whether each of the `outcomes` is an answer of the material that the ray of
/// the path hit: before each, the path has not ended, so the world is hit from
/// `0.001` on by the ray that is followed, and the material of that hit may
/// answer that ray and that hit with the outcome.
pub open spec fn answered<W: Hit>(
    world: &W,
    r: Ray,
    depth: i32,
    outcomes: Seq<Option<(Ray, Color)>>,
) -> bool {
    forall|i: int|
        0 <= i < outcomes.len() ==> {
            let before = settled(world, #[trigger] traced(world, r, depth, outcomes.take(i)));
            &&& before.end is None
            &&& world.hit_spec(before.ray, Scalar { bits: NEAREST_BITS }, Scalar::infinity())
                matches Some(rec) && rec.mat.may_answer(before.ray, rec, outcomes[i])
        }
}

/// One bounce: takes the answer of the material at a hit into the path. An
/// absorbed ray ends the path and leaves the attenuations as they are. A
/// scattered ray adds its attenuation and is followed with one bounce less.
pub fn bounce(
    attenuations: &mut Vec<Color>,
    ray: Ray,
    left: i32,
    outcome: Option<(Ray, Color)>,
) -> (next: Option<(Ray, i32)>)
    requires
        left > 0,
    ensures
        outcome is None ==> next is None && final(attenuations)@ == old(attenuations)@,
        outcome matches Some((scattered, attenuation)) ==> next == Some((scattered, (left - 1) as i32))
            && final(attenuations)@ == old(attenuations)@.push(attenuation),
        ({
            let t = bounced(
                Tracing { ray, depth: left, attenuations: old(attenuations)@, end: None },
                outcome,
            );
            &&& t.attenuations == final(attenuations)@
            &&& t.end == if outcome is None {
                Some(PathEnd::Absorbed)
            } else {
                None
            }
            &&& next matches Some((followed, bounces)) ==> t.ray == followed && t.depth == bounces
        }),
{
    match outcome {
        None => None,
        Some((scattered, attenuation)) => {
            attenuations.push(attenuation);
            Some((scattered, left - 1))
        },
    }
}

/// The path of the light that `r` gathers in `world`, with at most `depth`
/// bounces.
///
/// With no bounce allowed the path is cut off at once: nothing is asked and the
/// ray gathers black. Else the world is asked for the nearest hit from `0.001`
/// on, without upper bound. A ray that hits nothing escapes. At a hit the
/// material of the hit is asked with the ray and the hit; it absorbs the ray,
/// or scatters it, and the scattered ray is followed with one bounce less.
///
/// What the materials answer is theirs to decide, so the path is stated for
/// whatever they answered: it is `traced` and settled for answers that the
/// materials at the hits of the path gave to the rays that hit them.
pub fn ray_color<W: Hit>(r: &Ray, world: &W, depth: i32) -> (path: LightPath)
    ensures
        depth <= 0 ==> path.attenuations@.len() == 0 && path.end == PathEnd::Exhausted,
        depth > 0 && !first_hit(world, *r) ==> path.attenuations@.len() == 0 && path.end
            == PathEnd::Escaped(*r),
        path.attenuations@.len() <= depth || path.attenuations@.len() == 0,
        path.end == PathEnd::Exhausted ==> path.attenuations@.len() == depth || depth <= 0,
        exists|outcomes: Seq<Option<(Ray, Color)>>|
            {
                let t = settled(world, #[trigger] traced(world, *r, depth, outcomes));
                &&& t.end == Some(path.end)
                &&& t.attenuations == path.attenuations@
                &&& answered(world, *r, depth, outcomes)
            },
{
    let t_min = Scalar { bits: NEAREST_BITS };
    let t_max = Scalar::infinity();
    let mut attenuations: Vec<Color> = Vec::new();
    let mut ray = *r;
    let mut left = depth;
    let ghost mut outcomes: Seq<Option<(Ray, Color)>> = Seq::empty();
    loop
        invariant
            t_min == (Scalar { bits: NEAREST_BITS }),
            t_max == Scalar::infinity(),
            traced(world, *r, depth, outcomes) == (Tracing {
                ray,
                depth: left,
                attenuations: attenuations@,
                end: None,
            }),
            answered(world, *r, depth, outcomes),
            left <= depth,
            depth > 0 ==> left >= 0 && attenuations@.len() == depth - left,
            depth <= 0 ==> left == depth && attenuations@.len() == 0,
            attenuations@.len() == 0 ==> ray == *r,
            attenuations@.len() > 0 ==> first_hit(world, *r),
        decreases left,
    {
        if left <= 0 {
            return LightPath { attenuations, end: PathEnd::Exhausted };
        }
        let rec = match world.hit(&ray, t_min, t_max) {
            Some(rec) => rec,
            None => {
                return LightPath { attenuations, end: PathEnd::Escaped(ray) };
            },
        };
        let outcome = rec.mat.scatter(&ray, &rec);
        let ghost asked = outcomes;
        proof {
            outcomes = asked.push(outcome);
            assert(outcomes.drop_last() =~= asked);
            assert forall|i: int| 0 <= i < outcomes.len() implies {
                let before = settled(world, #[trigger] traced(world, *r, depth, outcomes.take(i)));
                &&& before.end is None
                &&& world.hit_spec(before.ray, Scalar { bits: NEAREST_BITS }, Scalar::infinity())
                    matches Some(rec) && rec.mat.may_answer(before.ray, rec, outcomes[i])
            } by {
                if i < asked.len() {
                    assert(outcomes.take(i) =~= asked.take(i));
                } else {
                    assert(outcomes.take(i) =~= asked);
                }
            }
        }
        match bounce(&mut attenuations, ray, left, outcome) {
            Some((scattered, bounces)) => {
                ray = scattered;
                left = bounces;
            },
            None => {
                return LightPath { attenuations, end: PathEnd::Absorbed };
            },
        }
    }
}

} // verus!
