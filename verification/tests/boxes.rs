use raytracer::aabb::slabs_hit;
use raytracer::aabb::Slab;
use raytracer::aabb::AABB;
use raytracer::point::Point;
use raytracer::ray::Ray;
use raytracer::scalar::Scalar;
use raytracer::vec3::Vec3;

fn s(x: f64) -> Scalar {
    Scalar::from_bits(x.to_bits())
}

fn f(x: Scalar) -> f64 {
    f64::from_bits(x.to_bits())
}

fn point(x: f64, y: f64, z: f64) -> Point {
    Point::new(s(x), s(y), s(z))
}

fn ray(o: [f64; 3], d: [f64; 3]) -> Ray {
    Ray::new(point(o[0], o[1], o[2]), Vec3::new(s(d[0]), s(d[1]), s(d[2])), s(0.0))
}

fn cube(lo: [f64; 3], hi: [f64; 3]) -> AABB {
    AABB::new(point(lo[0], lo[1], lo[2]), point(hi[0], hi[1], hi[2]))
}

fn slabs(b: AABB, r: Ray) -> [Slab; 3] {
    let one = |i: usize| {
        let inv_d = 1.0 / f(r.direction().get(i));
        let o = f(r.origin().get(i));
        Slab {
            inv_d: s(inv_d),
            t0: s((f(b.minimum.get(i)) - o) * inv_d),
            t1: s((f(b.maximum.get(i)) - o) * inv_d),
        }
    };
    [one(0), one(1), one(2)]
}

fn hits(b: &AABB, r: &Ray, t_min: f64, t_max: f64) -> bool {
    b.hit(r, s(t_min), s(t_max), &slabs)
}

#[test]
fn ray_toward_the_unit_cube_hits() {
    let b = cube([-1.0, -1.0, -1.0], [1.0, 1.0, 1.0]);
    assert!(hits(&b, &ray([0.0, 0.0, -5.0], [0.0, 0.0, 1.0]), 0.0, f64::INFINITY));
}

#[test]
fn ray_away_from_the_unit_cube_misses() {
    let b = cube([-1.0, -1.0, -1.0], [1.0, 1.0, 1.0]);
    assert!(!hits(&b, &ray([5.0, 5.0, 5.0], [1.0, 1.0, 1.0]), 0.0, f64::INFINITY));
}

#[test]
fn mirrored_ray_has_the_same_verdict() {
    let b = cube([-1.0, -1.0, -1.0], [1.0, 1.0, 1.0]);
    let cases: [([f64; 3], [f64; 3]); 6] = [
        ([0.0, 0.0, -5.0], [0.0, 0.0, 1.0]),
        ([0.3, -0.2, -5.0], [0.1, 0.05, 1.0]),
        ([5.0, 5.0, 5.0], [1.0, 1.0, 1.0]),
        ([5.0, 5.0, 5.0], [-1.0, -1.0, -1.0]),
        ([3.0, 0.0, 0.0], [-1.0, 0.4, 0.0]),
        ([3.0, 0.0, 0.0], [-1.0, 0.2, 0.1]),
    ];
    for (o, d) in cases {
        let plain = hits(&b, &ray(o, d), 0.0, f64::INFINITY);
        for axis in 0..3 {
            let mut mo = o;
            let mut md = d;
            mo[axis] = -mo[axis];
            md[axis] = -md[axis];
            assert_eq!(hits(&b, &ray(mo, md), 0.0, f64::INFINITY), plain);
        }
    }
    assert!(hits(&b, &ray([0.0, 0.0, 5.0], [0.0, 0.0, -1.0]), 0.0, f64::INFINITY));
    assert!(hits(&b, &ray([5.0, 5.0, 5.0], [-1.0, -1.0, -1.0]), 0.0, f64::INFINITY));
}

#[test]
fn slab_test_respects_the_interval() {
    let b = cube([-1.0, -1.0, -1.0], [1.0, 1.0, 1.0]);
    let r = ray([0.0, 0.0, -5.0], [0.0, 0.0, 1.0]);
    assert!(hits(&b, &r, 0.0, 4.5));
    assert!(hits(&b, &r, 5.0, 5.5));
    assert!(hits(&b, &r, 5.5, 100.0));
    assert!(!hits(&b, &r, 0.0, 3.9));
    assert!(!hits(&b, &r, 6.1, 100.0));
    assert!(!hits(&b, &r, 0.0, 4.0));
    assert!(!hits(&b, &r, 6.0, 100.0));
    assert!(!hits(&b, &r, 5.0, 5.0));
}

#[test]
fn ray_along_a_face_inside_the_slab_hits() {
    let b = cube([-1.0, -1.0, -1.0], [1.0, 1.0, 1.0]);
    assert!(hits(&b, &ray([0.5, 0.5, -5.0], [0.0, 0.0, 1.0]), 0.0, f64::INFINITY));
    assert!(!hits(&b, &ray([1.5, 0.5, -5.0], [0.0, 0.0, 1.0]), 0.0, f64::INFINITY));
    assert!(hits(&b, &ray([1.0, 0.0, -5.0], [0.0, 0.0, 1.0]), 0.0, f64::INFINITY));
}

#[test]
fn flat_box_gives_a_verdict() {
    let flat = cube([-1.0, 0.0, -1.0], [1.0, 0.0, 1.0]);
    assert!(!hits(&flat, &ray([0.0, -5.0, 0.0], [0.0, 1.0, 0.0]), 0.0, f64::INFINITY));
    assert!(!hits(&flat, &ray([0.0, 1.0, -5.0], [0.0, 0.0, 1.0]), 0.0, f64::INFINITY));
    assert!(hits(&flat, &ray([0.0, 0.0, -5.0], [0.0, 0.0, 1.0]), 0.0, f64::INFINITY));
    let thin = cube([-1.0, 0.0, -1.0], [1.0, 1e-9, 1.0]);
    assert!(hits(&thin, &ray([0.0, -5.0, 0.0], [0.0, 1.0, 0.0]), 0.0, f64::INFINITY));
    assert!(!hits(&thin, &ray([0.0, -5.0, 0.0], [0.0, -1.0, 0.0]), 0.0, f64::INFINITY));
    let still = ray([0.0, 0.0, 0.0], [0.0, 0.0, 0.0]);
    assert!(hits(&cube([-1.0, -1.0, -1.0], [1.0, 1.0, 1.0]), &still, 0.0, f64::INFINITY));
    assert!(!hits(&cube([1.0, 1.0, 1.0], [2.0, 2.0, 2.0]), &still, 0.0, f64::INFINITY));
}

#[test]
fn slabs_are_narrowed_one_after_the_other() {
    let slab = |inv_d: f64, t0: f64, t1: f64| Slab { inv_d: s(inv_d), t0: s(t0), t1: s(t1) };
    let free = slab(f64::INFINITY, f64::NEG_INFINITY, f64::INFINITY);
    assert!(slabs_hit(&[slab(1.0, 1.0, 3.0), slab(1.0, 2.0, 4.0), free], s(0.0), s(10.0)));
    assert!(!slabs_hit(&[slab(1.0, 1.0, 2.0), slab(1.0, 3.0, 4.0), free], s(0.0), s(10.0)));
    assert!(!slabs_hit(&[slab(1.0, 1.0, 2.0), free, slab(1.0, 2.0, 4.0)], s(0.0), s(10.0)));
    assert!(slabs_hit(&[slab(-1.0, 3.0, 1.0), slab(1.0, 2.0, 4.0), free], s(0.0), s(10.0)));
    assert!(!slabs_hit(&[slab(1.0, 3.0, 1.0), free, free], s(0.0), s(10.0)));
    assert!(slabs_hit(&[free, free, free], s(0.0), s(10.0)));
    assert!(!slabs_hit(&[free, free, free], s(5.0), s(5.0)));
    let nan = slab(f64::INFINITY, f64::NAN, f64::INFINITY);
    assert!(slabs_hit(&[nan, slab(1.0, 2.0, 4.0), free], s(0.0), s(10.0)));
}

#[test]
fn surrounding_box_spans_both_boxes() {
    let a = cube([-1.0, 0.0, 2.0], [1.0, 3.0, 4.0]);
    let b = cube([0.0, -2.0, 3.0], [5.0, 1.0, 3.5]);
    let m = AABB::surrounding_box(&a, &b);
    let lo = [f(m.minimum.get(0)), f(m.minimum.get(1)), f(m.minimum.get(2))];
    let hi = [f(m.maximum.get(0)), f(m.maximum.get(1)), f(m.maximum.get(2))];
    assert_eq!(lo, [-1.0, -2.0, 2.0]);
    assert_eq!(hi, [5.0, 3.0, 4.0]);
    let n = AABB::surrounding_box(&b, &a);
    for i in 0..3 {
        assert_eq!(f(n.minimum.get(i)), lo[i]);
        assert_eq!(f(n.maximum.get(i)), hi[i]);
    }
    let same = AABB::surrounding_box(&a, &a);
    for i in 0..3 {
        assert_eq!(f(same.minimum.get(i)), f(a.minimum.get(i)));
        assert_eq!(f(same.maximum.get(i)), f(a.maximum.get(i)));
    }
}

#[test]
fn surrounding_box_of_three_does_not_depend_on_the_grouping() {
    let a = cube([-1.0, 0.0, 2.0], [1.0, 3.0, 4.0]);
    let b = cube([0.0, -2.0, 3.0], [5.0, 1.0, 3.5]);
    let c = cube([-7.0, 0.5, 0.0], [-6.0, 0.75, 9.0]);
    let left = AABB::surrounding_box(&AABB::surrounding_box(&a, &b), &c);
    let right = AABB::surrounding_box(&a, &AABB::surrounding_box(&b, &c));
    for i in 0..3 {
        assert_eq!(f(left.minimum.get(i)), f(right.minimum.get(i)));
        assert_eq!(f(left.maximum.get(i)), f(right.maximum.get(i)));
    }
    assert_eq!(f(left.minimum.get(0)), -7.0);
    assert_eq!(f(left.maximum.get(2)), 9.0);
}
