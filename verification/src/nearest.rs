//! Nearest-hit selection: what a scan over objects returns, under which
//! conditions it is the nearest hit, and when two scans agree.

use crate::hit::references;
use crate::hit::scan;
use crate::hit::tightened;
use crate::hit::Hit;
use crate::hit::HitList;
use crate::hit::HitRecord;
use crate::ray::Ray;
use crate::scalar::Scalar;
use vstd::prelude::*;

verus! {

/// Whether `hi` is an upper bound that a query under `t_max` may pass on:
/// `t_max` itself, or a value that is not above it.
pub open spec fn within(hi: Scalar, t_max: Scalar) -> bool {
    hi == t_max || hi.le(t_max)
}

/// A hit, if it is not farther than `hi`.
pub open spec fn capped<'a, M>(full: Option<HitRecord<'a, M>>, hi: Scalar) -> Option<
    HitRecord<'a, M>,
> {
    match full {
        Some(rec) => if rec.t.le(hi) {
            full
        } else {
            None
        },
        None => None,
    }
}

/// Whether the object lets its caller shrink the upper bound: asked under a
/// bound within `t_max`, it answers as under `t_max`, unless that hit is
/// farther than the bound, and then with nothing.
pub open spec fn answers_nearest<H: Hit>(h: &H, r: Ray, t_min: Scalar, t_max: Scalar) -> bool {
    forall|hi: Scalar|
        within(hi, t_max) ==> #[trigger] h.hit_spec(r, t_min, hi) == capped(
            h.hit_spec(r, t_min, t_max),
            hi,
        )
}

/// Whether every object lets its caller shrink the upper bound.
pub open spec fn all_answer_nearest<H: Hit>(
    objs: Seq<&H>,
    r: Ray,
    t_min: Scalar,
    t_max: Scalar,
) -> bool {
    forall|i: int| 0 <= i < objs.len() ==> answers_nearest(#[trigger] objs[i], r, t_min, t_max)
}

/// Whether no object is hit nearer than `rec`: the distance of `rec` is the
/// least at which the ray hits an object.
pub open spec fn is_least_hit<'a, H: Hit>(
    objs: Seq<&'a H>,
    r: Ray,
    t_min: Scalar,
    t_max: Scalar,
    rec: HitRecord<'a, H::Mat>,
) -> bool {
    forall|k: int|
        0 <= k < objs.len() ==> match (#[trigger] objs[k]).hit_spec(r, t_min, t_max) {
            Some(other) => rec.t.key() <= other.t.key(),
            None => true,
        }
}

/// Whether no two objects tie for the nearest hit: two objects that are both
/// hit at the least distance are hit with the same record. Ties farther away
/// do not count.
pub open spec fn no_ties<H: Hit>(objs: Seq<&H>, r: Ray, t_min: Scalar, t_max: Scalar) -> bool {
    forall|i: int, j: int|
        #![trigger objs[i], objs[j]]
        0 <= i < objs.len() && 0 <= j < objs.len() ==> match (
            objs[i].hit_spec(r, t_min, t_max),
            objs[j].hit_spec(r, t_min, t_max),
        ) {
            (Some(x), Some(y)) => x.t.key() == y.t.key() && is_least_hit(objs, r, t_min, t_max, x)
                ==> x == y,
            _ => true,
        }
}

/// Whether `res` is a nearest hit of the objects under the bound `hi`: nothing
/// where no object is hit within the bound; else the hit of one of them, within
/// the bound, and no object is hit nearer.
pub open spec fn is_nearest<'a, H: Hit>(
    objs: Seq<&'a H>,
    r: Ray,
    t_min: Scalar,
    t_max: Scalar,
    hi: Scalar,
    res: Option<HitRecord<'a, H::Mat>>,
) -> bool {
    match res {
        None => forall|i: int|
            0 <= i < objs.len() ==> capped((#[trigger] objs[i]).hit_spec(r, t_min, t_max), hi)
                is None,
        Some(rec) => {
            &&& rec.t.le(hi)
            &&& exists|i: int|
                0 <= i < objs.len() && (#[trigger] objs[i]).hit_spec(r, t_min, t_max) == Some(rec)
            &&& forall|j: int|
                0 <= j < objs.len() ==> match capped(
                    (#[trigger] objs[j]).hit_spec(r, t_min, t_max),
                    hi,
                ) {
                    Some(other) => rec.t.key() <= other.t.key(),
                    None => true,
                }
        },
    }
}

/// A scan over two runs of objects is the scan over the first, followed by the
/// scan over the second under the bound that the first has left.
pub proof fn lemma_scan_of_concatenation<'a, H: Hit>(
    a: Seq<&'a H>,
    b: Seq<&'a H>,
    r: Ray,
    t_min: Scalar,
    t_max: Scalar,
)
    ensures
        scan(a + b, r, t_min, t_max) == ({
            let first = scan(a, r, t_min, t_max);
            let second = scan(b, r, t_min, tightened(first, t_max));
            if second is Some {
                second
            } else {
                first
            }
        }),
    decreases b.len(),
{
    if b.len() == 0 {
        assert(a + b =~= a);
    } else {
        assert((a + b).drop_last() =~= a + b.drop_last());
        assert((a + b).last() == b.last());
        lemma_scan_of_concatenation(a, b.drop_last(), r, t_min, t_max);
    }
}

/// Where every object lets its caller shrink the upper bound, the scan returns
/// a nearest hit: the list's answer is the hit of one of its objects, and no
/// object is hit nearer within the bound.
pub proof fn lemma_scan_is_nearest<'a, H: Hit>(
    objs: Seq<&'a H>,
    r: Ray,
    t_min: Scalar,
    t_max: Scalar,
    hi: Scalar,
)
    requires
        all_answer_nearest(objs, r, t_min, t_max),
        within(hi, t_max),
    ensures
        is_nearest(objs, r, t_min, t_max, hi, scan(objs, r, t_min, hi)),
    decreases objs.len(),
{
    if objs.len() > 0 {
        let rest = objs.drop_last();
        let last = objs.last();
        assert forall|i: int| 0 <= i < rest.len() implies answers_nearest(
            #[trigger] rest[i],
            r,
            t_min,
            t_max,
        ) by {
            assert(rest[i] == objs[i]);
        }
        lemma_scan_is_nearest(rest, r, t_min, t_max, hi);
        let before = scan(rest, r, t_min, hi);
        let closest = tightened(before, hi);
        assert(within(closest, t_max));
        assert(answers_nearest(objs[objs.len() - 1], r, t_min, t_max));
        let full = last.hit_spec(r, t_min, t_max);
        let answer = last.hit_spec(r, t_min, closest);
        assert(answer == capped(full, closest));
        let res = scan(objs, r, t_min, hi);
        match answer {
            Some(rec) => {
                assert(res == Some(rec));
                assert(objs[objs.len() - 1].hit_spec(r, t_min, t_max) == Some(rec));
                assert forall|j: int| 0 <= j < objs.len() implies match capped(
                    (#[trigger] objs[j]).hit_spec(r, t_min, t_max),
                    hi,
                ) {
                    Some(other) => rec.t.key() <= other.t.key(),
                    None => true,
                } by {
                    if j < objs.len() - 1 {
                        assert(rest[j] == objs[j]);
                    }
                }
            },
            None => {
                assert(res == before);
                match before {
                    Some(rec) => {
                        let i = choose|i: int|
                            0 <= i < rest.len() && (#[trigger] rest[i]).hit_spec(r, t_min, t_max)
                                == Some(rec);
                        assert(objs[i] == rest[i]);
                        assert forall|j: int| 0 <= j < objs.len() implies match capped(
                            (#[trigger] objs[j]).hit_spec(r, t_min, t_max),
                            hi,
                        ) {
                            Some(other) => rec.t.key() <= other.t.key(),
                            None => true,
                        } by {
                            if j < objs.len() - 1 {
                                assert(rest[j] == objs[j]);
                            }
                        }
                    },
                    None => {
                        assert forall|i: int| 0 <= i < objs.len() implies capped(
                            (#[trigger] objs[i]).hit_spec(r, t_min, t_max),
                            hi,
                        ) is None by {
                            if i < objs.len() - 1 {
                                assert(rest[i] == objs[i]);
                            }
                        }
                    },
                }
            },
        }
    }
}

/// Where every object lets its caller shrink the upper bound, so does the scan
/// over them: under a bound within `t_max` it returns what it returns under
/// `t_max`, unless that hit is farther than the bound, and then nothing.
pub proof fn lemma_scan_lets_bound_shrink<'a, H: Hit>(
    objs: Seq<&'a H>,
    r: Ray,
    t_min: Scalar,
    t_max: Scalar,
    hi: Scalar,
)
    requires
        all_answer_nearest(objs, r, t_min, t_max),
        within(hi, t_max),
    ensures
        scan(objs, r, t_min, hi) == capped(scan(objs, r, t_min, t_max), hi),
    decreases objs.len(),
{
    if objs.len() > 0 {
        let rest = objs.drop_last();
        let last = objs.last();
        assert forall|i: int| 0 <= i < rest.len() implies answers_nearest(
            #[trigger] rest[i],
            r,
            t_min,
            t_max,
        ) by {
            assert(rest[i] == objs[i]);
        }
        lemma_scan_lets_bound_shrink(rest, r, t_min, t_max, hi);
        lemma_scan_is_nearest(rest, r, t_min, t_max, t_max);
        lemma_scan_is_nearest(rest, r, t_min, t_max, hi);
        assert(answers_nearest(objs[objs.len() - 1], r, t_min, t_max));
        let under_max = scan(rest, r, t_min, t_max);
        let under_hi = scan(rest, r, t_min, hi);
        assert(within(tightened(under_max, t_max), t_max));
        assert(within(tightened(under_hi, hi), t_max));
        let full = last.hit_spec(r, t_min, t_max);
        assert(last.hit_spec(r, t_min, tightened(under_max, t_max)) == capped(
            full,
            tightened(under_max, t_max),
        ));
        assert(last.hit_spec(r, t_min, tightened(under_hi, hi)) == capped(
            full,
            tightened(under_hi, hi),
        ));
    }
}

/// A list whose objects let their callers shrink the upper bound lets its own
/// caller do so: lists can stand where objects stand.
pub proof fn lemma_list_answers_nearest<H: Hit>(
    list: HitList<H>,
    r: Ray,
    t_min: Scalar,
    t_max: Scalar,
)
    requires
        all_answer_nearest(references(list.objects@), r, t_min, t_max),
    ensures
        answers_nearest(&list, r, t_min, t_max),
{
    assert forall|hi: Scalar| within(hi, t_max) implies #[trigger] list.hit_spec(r, t_min, hi)
        == capped(list.hit_spec(r, t_min, t_max), hi) by {
        lemma_scan_lets_bound_shrink(references(list.objects@), r, t_min, t_max, hi);
    }
}

/// Two nearest hits of the same objects, in whatever order and however often
/// each object is listed, are the same, as long as no two objects tie for the
/// nearest hit.
pub proof fn lemma_nearest_is_unique<'a, H: Hit>(
    first: Seq<&'a H>,
    second: Seq<&'a H>,
    r: Ray,
    t_min: Scalar,
    t_max: Scalar,
    hi: Scalar,
    res_first: Option<HitRecord<'a, H::Mat>>,
    res_second: Option<HitRecord<'a, H::Mat>>,
)
    requires
        forall|x: &'a H| first.contains(x) <==> second.contains(x),
        all_answer_nearest(first, r, t_min, t_max),
        within(hi, t_max),
        no_ties(first, r, t_min, t_max),
        is_nearest(first, r, t_min, t_max, hi, res_first),
        is_nearest(second, r, t_min, t_max, hi, res_second),
    ensures
        res_first == res_second,
{
    match (res_first, res_second) {
        (Some(a), Some(b)) => {
            let i = choose|i: int|
                0 <= i < first.len() && (#[trigger] first[i]).hit_spec(r, t_min, t_max) == Some(a);
            let j = choose|j: int|
                0 <= j < second.len() && (#[trigger] second[j]).hit_spec(r, t_min, t_max) == Some(
                    b,
                );
            assert(first.contains(first[i]));
            assert(second.contains(second[j]));
            let i2 = choose|k: int| 0 <= k < second.len() && second[k] == first[i];
            let j1 = choose|k: int| 0 <= k < first.len() && first[k] == second[j];
            assert(capped(second[i2].hit_spec(r, t_min, t_max), hi) == Some(a));
            assert(capped(first[j1].hit_spec(r, t_min, t_max), hi) == Some(b));
            assert forall|k: int| 0 <= k < first.len() implies match (#[trigger] first[k]).hit_spec(
                r,
                t_min,
                t_max,
            ) {
                Some(other) => a.t.key() <= other.t.key(),
                None => true,
            } by {
                assert(answers_nearest(first[k], r, t_min, t_max));
                assert(first[k].hit_spec(r, t_min, t_max) == capped(
                    first[k].hit_spec(r, t_min, t_max),
                    t_max,
                ));
                assert(capped(first[k].hit_spec(r, t_min, t_max), hi) is Some || capped(
                    first[k].hit_spec(r, t_min, t_max),
                    hi,
                ) is None);
            }
            assert(is_least_hit(first, r, t_min, t_max, a));
            assert(first[i].hit_spec(r, t_min, t_max) == Some(a) && first[j1].hit_spec(
                r,
                t_min,
                t_max,
            ) == Some(b));
        },
        (Some(a), None) => {
            let i = choose|i: int|
                0 <= i < first.len() && (#[trigger] first[i]).hit_spec(r, t_min, t_max) == Some(a);
            assert(first.contains(first[i]));
            let i2 = choose|k: int| 0 <= k < second.len() && second[k] == first[i];
            assert(capped(second[i2].hit_spec(r, t_min, t_max), hi) == Some(a));
        },
        (None, Some(b)) => {
            let j = choose|j: int|
                0 <= j < second.len() && (#[trigger] second[j]).hit_spec(r, t_min, t_max) == Some(
                    b,
                );
            assert(second.contains(second[j]));
            let j1 = choose|k: int| 0 <= k < first.len() && first[k] == second[j];
            assert(capped(first[j1].hit_spec(r, t_min, t_max), hi) == Some(b));
        },
        (None, None) => {},
    }
}

} // verus!
