use raytracer::aabb::Slab;
use raytracer::aabb::AABB;
use raytracer::bvh::BVHNode;
use raytracer::bvh::Child;
use raytracer::color::Color;
use raytracer::hit::Hit;
use raytracer::hit::HitList;
use raytracer::hit::HitRecord;
use raytracer::material::Material;
use raytracer::point::Point;
use raytracer::ray::Ray;
use raytracer::scalar::Scalar;
use raytracer::sphere::Ball;
use raytracer::sphere::Crossing;
use raytracer::sphere::Surface;
use raytracer::vec3::Vec3;

fn s(x: f64) -> Scalar {
    Scalar::from_bits(x.to_bits())
}

fn f(x: Scalar) -> f64 {
    f64::from_bits(x.to_bits())
}

fn ray(o: [f64; 3], d: [f64; 3], time: f64) -> Ray {
    Ray::new(Point::new(s(o[0]), s(o[1]), s(o[2])), Vec3::new(s(d[0]), s(d[1]), s(d[2])), s(time))
}

fn dot(a: [f64; 3], b: [f64; 3]) -> f64 {
    a[0] * b[0] + a[1] * b[1] + a[2] * b[2]
}

struct Tag(u32);

impl Material for Tag {
    fn scatter(&self, _: &Ray, _: &HitRecord<'_, Tag>) -> Option<(Ray, Color)> {
        None
    }
}

type Sphere = raytracer::sphere::Sphere<
    Tag,
    fn(Ball, Ray) -> Crossing,
    fn(Ball, Ray, Scalar) -> Surface,
    fn(Ball, Scalar) -> AABB,
>;

fn triple(p: &Point) -> [f64; 3] {
    [f(p.get(0)), f(p.get(1)), f(p.get(2))]
}

fn center(b: &Ball, time: f64) -> [f64; 3] {
    let (c0, c1) = (triple(&b.center_start), triple(&b.center_end));
    let k = (time - f(b.time_start)) / (f(b.time_end) - f(b.time_start));
    [c0[0] + k * (c1[0] - c0[0]), c0[1] + k * (c1[1] - c0[1]), c0[2] + k * (c1[2] - c0[2])]
}

fn crossing(b: Ball, r: Ray) -> Crossing {
    let o = triple(r.origin());
    let d = [f(r.direction().get(0)), f(r.direction().get(1)), f(r.direction().get(2))];
    let c = center(&b, f(r.time()));
    let oc = [o[0] - c[0], o[1] - c[1], o[2] - c[2]];
    let a = dot(d, d);
    let half_b = dot(d, oc);
    let cc = dot(oc, oc) - f(b.radius) * f(b.radius);
    let discriminant = half_b * half_b - a * cc;
    let sqrtd = discriminant.sqrt();
    Crossing {
        discriminant: s(discriminant),
        roots: [s((-half_b - sqrtd) / a), s((-half_b + sqrtd) / a)],
    }
}

fn surface(b: Ball, r: Ray, root: Scalar) -> Surface {
    let o = triple(r.origin());
    let d = [f(r.direction().get(0)), f(r.direction().get(1)), f(r.direction().get(2))];
    let c = center(&b, f(r.time()));
    let t = f(root);
    let p = [o[0] + t * d[0], o[1] + t * d[1], o[2] + t * d[2]];
    let radius = f(b.radius);
    let n = [(p[0] - c[0]) / radius, (p[1] - c[1]) / radius, (p[2] - c[2]) / radius];
    Surface {
        p: Point::new(s(p[0]), s(p[1]), s(p[2])),
        outward_normal: Vec3::new(s(n[0]), s(n[1]), s(n[2])),
        facing: s(dot(d, n)),
        u: s(0.0),
        v: s(0.0),
    }
}

fn box_at(b: Ball, time: Scalar) -> AABB {
    let c = center(&b, f(time));
    let r = f(b.radius);
    AABB::new(
        Point::new(s(c[0] - r), s(c[1] - r), s(c[2] - r)),
        Point::new(s(c[0] + r), s(c[1] + r), s(c[2] + r)),
    )
}

fn sphere(c: [f64; 3], radius: f64, tag: u32) -> Sphere {
    Sphere::new(Point::new(s(c[0]), s(c[1]), s(c[2])), s(radius), Tag(tag), crossing, surface, box_at)
}

struct Plane;

impl Hit for Plane {
    type Mat = Tag;

    fn hit(&self, _: &Ray, _: Scalar, _: Scalar) -> Option<HitRecord<'_, Tag>> {
        None
    }

    fn bounding_box(&self, _: Scalar, _: Scalar) -> Option<AABB> {
        None
    }
}

fn slabs(b: AABB, r: Ray) -> [Slab; 3] {
    let one = |i: usize| {
        let inv_d = 1.0 / f(r.direction().get(i));
        let o = f(r.origin().get(i));
        Slab {
            inv_d: s(inv_d),
            t0: s((f(b.minimum.get(i)) - o) * inv_d),
            t1: s((f(b.maximum.get(i)) - o) * inv_d),
        }
    };
    [one(0), one(1), one(2)]
}

struct Lcg(u64);

impl Lcg {
    fn next(&mut self) -> f64 {
        self.0 = self.0.wrapping_mul(6364136223846793005).wrapping_add(1442695040888963407);
        ((self.0 >> 11) as f64) / ((1u64 << 53) as f64)
    }

    fn between(&mut self, lo: f64, hi: f64) -> f64 {
        lo + (hi - lo) * self.next()
    }
}

fn scattered_spheres(n: u32, seed: u64) -> HitList<Sphere> {
    let mut rng = Lcg(seed);
    let mut list = HitList::new();
    for i in 0..n {
        let c = [rng.between(-10.0, 10.0), rng.between(-10.0, 10.0), rng.between(-10.0, 10.0)];
        list.push(sphere(c, rng.between(0.2, 1.5), i));
    }
    list
}

fn summary(rec: &Option<HitRecord<'_, Tag>>) -> Option<(u64, [u64; 3], [u64; 3], bool, u32)> {
    rec.as_ref().map(|h| {
        (
            h.t.to_bits(),
            [h.p.get(0).to_bits(), h.p.get(1).to_bits(), h.p.get(2).to_bits()],
            [h.normal.get(0).to_bits(), h.normal.get(1).to_bits(), h.normal.get(2).to_bits()],
            h.front_face,
            h.mat.0,
        )
    })
}

fn count_objects<'a, F: Fn(AABB, Ray) -> [Slab; 3]>(node: &BVHNode<'a, Sphere, F>) -> usize {
    let side = |c: &Child<'a, Sphere, F>| match c {
        Child::Leaf(_) => 1,
        Child::Node(n) => count_objects(n),
    };
    match (node.left_child(), node.right_child()) {
        (Child::Leaf(a), Child::Leaf(b)) if std::ptr::eq(*a, *b) => 1,
        (l, r) => side(l) + side(r),
    }
}

fn check_shape<'a, F: Fn(AABB, Ray) -> [Slab; 3]>(node: &BVHNode<'a, Sphere, F>, n: usize) {
    assert_eq!(count_objects(node), n);
    match (node.left_child(), node.right_child()) {
        (Child::Leaf(a), Child::Leaf(b)) => {
            assert!(n == 1 || n == 2);
            assert_eq!(std::ptr::eq(*a, *b), n == 1);
        }
        (Child::Node(l), Child::Node(r)) => {
            assert!(n >= 3);
            check_shape(l, n / 2);
            check_shape(r, n - n / 2);
            let low = l.objects();
            let high = r.objects();
            let key = |h: &Sphere, axis: usize| {
                f(h.bounding_box(s(0.0), s(0.0)).unwrap().minimum.get(axis))
            };
            assert!((0..3).any(|axis| {
                low.iter().all(|a| high.iter().all(|b| key(a, axis) <= key(b, axis)))
            }));
        }
        _ => panic!("a leaf beside a node"),
    }
    let bound = node.bounding_box(s(0.0), s(1.0)).unwrap();
    for h in node.objects() {
        let b = h.bounding_box(s(0.0), s(1.0)).unwrap();
        for i in 0..3 {
            assert!(f(bound.minimum.get(i)) <= f(b.minimum.get(i)));
            assert!(f(b.maximum.get(i)) <= f(bound.maximum.get(i)));
        }
    }
}

#[test]
fn unit_sphere_is_entered_at_four() {
    let sphere = sphere([0.0, 0.0, 0.0], 1.0, 7);
    let r = ray([0.0, 0.0, -5.0], [0.0, 0.0, 1.0], 0.0);
    let rec = sphere.hit(&r, s(0.0), s(f64::INFINITY)).unwrap();
    assert_eq!(f(rec.t), 4.0);
    assert_eq!([f(rec.normal.get(0)), f(rec.normal.get(1)), f(rec.normal.get(2))], [0.0, 0.0, -1.0]);
    assert_eq!([f(rec.p.get(0)), f(rec.p.get(1)), f(rec.p.get(2))], [0.0, 0.0, -1.0]);
    assert!(rec.front_face);
    assert_eq!(rec.mat.0, 7);
}

#[test]
fn ray_beside_the_sphere_misses() {
    let sphere = sphere([0.0, 0.0, 0.0], 1.0, 7);
    let r = ray([1.5, 0.0, -5.0], [0.0, 0.0, 1.0], 0.0);
    assert!(sphere.hit(&r, s(0.0), s(f64::INFINITY)).is_none());
    let away = ray([0.0, 0.0, -5.0], [0.0, 0.0, -1.0], 0.0);
    assert!(sphere.hit(&away, s(0.0), s(f64::INFINITY)).is_none());
}

#[test]
fn ray_from_inside_meets_the_far_side_from_behind() {
    let sphere = sphere([0.0, 0.0, 0.0], 1.0, 7);
    let r = ray([0.0, 0.0, 0.0], [0.0, 0.0, 1.0], 0.0);
    let rec = sphere.hit(&r, s(0.001), s(f64::INFINITY)).unwrap();
    assert_eq!(f(rec.t), 1.0);
    assert!(!rec.front_face);
    assert_eq!([f(rec.normal.get(0)), f(rec.normal.get(1)), f(rec.normal.get(2))], [0.0, 0.0, -1.0]);
}

#[test]
fn hit_record_turns_the_normal_against_the_ray() {
    let tag = Tag(1);
    let p = Point::new(s(1.0), s(2.0), s(3.0));
    let n = Vec3::new(s(0.0), s(1.0), s(-0.5));
    let front = HitRecord::new(p, n, s(-0.25), s(2.0), s(0.1), s(0.2), &tag);
    assert!(front.front_face);
    assert_eq!([f(front.normal.get(0)), f(front.normal.get(1)), f(front.normal.get(2))], [0.0, 1.0, -0.5]);
    assert_eq!((f(front.t), f(front.u), f(front.v)), (2.0, 0.1, 0.2));
    assert_eq!(f(front.p.get(2)), 3.0);
    let back = HitRecord::new(p, n, s(0.25), s(2.0), s(0.1), s(0.2), &tag);
    assert!(!back.front_face);
    assert_eq!([f(back.normal.get(0)), f(back.normal.get(1)), f(back.normal.get(2))], [0.0, -1.0, 0.5]);
    assert_eq!(back.normal.get(0).to_bits(), (-0.0f64).to_bits());
    let level = HitRecord::new(p, n, s(0.0), s(2.0), s(0.1), s(0.2), &tag);
    assert!(!level.front_face);
    let undefined = HitRecord::new(p, n, s(f64::NAN), s(2.0), s(0.1), s(0.2), &tag);
    assert!(!undefined.front_face);
}

#[test]
fn list_returns_the_nearest_hit() {
    let mut list = HitList::new();
    list.push(sphere([0.0, 0.0, 10.0], 1.0, 0));
    list.push(sphere([0.0, 0.0, 0.0], 1.0, 1));
    list.push(sphere([0.0, 0.0, 5.0], 1.0, 2));
    list.push(sphere([5.0, 0.0, 0.0], 1.0, 3));
    let r = ray([0.0, 0.0, -5.0], [0.0, 0.0, 1.0], 0.0);
    let rec = list.hit(&r, s(0.001), s(f64::INFINITY)).unwrap();
    assert_eq!((f(rec.t), rec.mat.0), (4.0, 1));
    let rec = list.hit(&r, s(4.0), s(f64::INFINITY)).unwrap();
    assert_eq!((f(rec.t), rec.mat.0), (6.0, 1));
    let rec = list.hit(&r, s(6.0), s(f64::INFINITY)).unwrap();
    assert_eq!((f(rec.t), rec.mat.0), (9.0, 2));
    let rec = list.hit(&r, s(11.0), s(f64::INFINITY)).unwrap();
    assert_eq!((f(rec.t), rec.mat.0), (14.0, 0));
    assert!(list.hit(&r, s(0.001), s(3.9)).is_none());
    assert!(list.hit(&r, s(16.0), s(f64::INFINITY)).is_none());
    let back = ray([0.0, 0.0, 20.0], [0.0, 0.0, -1.0], 0.0);
    let rec = list.hit(&back, s(0.001), s(f64::INFINITY)).unwrap();
    assert_eq!((f(rec.t), rec.mat.0), (9.0, 0));
}

#[test]
fn list_of_equal_spheres_returns_the_later_one() {
    let mut list = HitList::new();
    list.push(sphere([0.0, 0.0, 0.0], 1.0, 0));
    list.push(sphere([0.0, 0.0, 0.0], 1.0, 1));
    let r = ray([0.0, 0.0, -5.0], [0.0, 0.0, 1.0], 0.0);
    let rec = list.hit(&r, s(0.001), s(f64::INFINITY)).unwrap();
    assert_eq!((f(rec.t), rec.mat.0), (4.0, 1));
}

#[test]
fn list_is_filled_and_emptied() {
    let mut list: HitList<Sphere> = HitList::new();
    assert_eq!(list.objects.len(), 0);
    let r = ray([0.0, 0.0, -5.0], [0.0, 0.0, 1.0], 0.0);
    assert!(list.hit(&r, s(0.001), s(f64::INFINITY)).is_none());
    assert!(list.bounding_box(s(0.0), s(1.0)).is_none());
    list.push(sphere([0.0, 0.0, 0.0], 1.0, 4));
    list.push(sphere([0.0, 3.0, 0.0], 1.0, 5));
    assert_eq!(list.objects.len(), 2);
    assert_eq!(list.objects[1].mat().0, 5);
    assert!(list.hit(&r, s(0.001), s(f64::INFINITY)).is_some());
    list.clear();
    assert_eq!(list.objects.len(), 0);
    assert!(list.hit(&r, s(0.001), s(f64::INFINITY)).is_none());
}

#[test]
fn list_box_spans_its_objects() {
    let mut list = HitList::new();
    list.push(sphere([0.0, 0.0, 0.0], 1.0, 0));
    let b = list.bounding_box(s(0.0), s(1.0)).unwrap();
    assert_eq!([f(b.minimum.get(0)), f(b.minimum.get(1)), f(b.minimum.get(2))], [-1.0, -1.0, -1.0]);
    assert_eq!([f(b.maximum.get(0)), f(b.maximum.get(1)), f(b.maximum.get(2))], [1.0, 1.0, 1.0]);
    list.push(sphere([4.0, -3.0, 0.5], 2.0, 1));
    list.push(sphere([-1.0, 0.0, 9.0], 0.5, 2));
    let b = list.bounding_box(s(0.0), s(1.0)).unwrap();
    assert_eq!([f(b.minimum.get(0)), f(b.minimum.get(1)), f(b.minimum.get(2))], [-1.5, -5.0, -1.5]);
    assert_eq!([f(b.maximum.get(0)), f(b.maximum.get(1)), f(b.maximum.get(2))], [6.0, 1.0, 9.5]);
}

#[test]
fn list_with_an_unbounded_object_has_no_box() {
    let mut list = HitList::new();
    list.push(Plane);
    assert!(list.bounding_box(s(0.0), s(1.0)).is_none());
    let mut nested: HitList<HitList<Sphere>> = HitList::new();
    let mut inner = HitList::new();
    inner.push(sphere([0.0, 0.0, 0.0], 1.0, 0));
    nested.push(inner);
    assert!(nested.bounding_box(s(0.0), s(1.0)).is_some());
    nested.push(HitList::new());
    assert!(nested.bounding_box(s(0.0), s(1.0)).is_none());
}

#[test]
fn moving_sphere_box_spans_the_interval() {
    let sphere: Sphere = Sphere::new_moving(
        Point::new(s(0.0), s(0.0), s(0.0)),
        Point::new(s(0.0), s(2.0), s(0.0)),
        s(0.0),
        s(1.0),
        s(0.5),
        Tag(0),
        crossing,
        surface,
        box_at,
    );
    assert_eq!(f(sphere.ball().center_end.get(1)), 2.0);
    assert_eq!(f(sphere.ball().radius), 0.5);
    let b = sphere.bounding_box(s(0.0), s(1.0)).unwrap();
    assert_eq!([f(b.minimum.get(0)), f(b.minimum.get(1)), f(b.minimum.get(2))], [-0.5, -0.5, -0.5]);
    assert_eq!([f(b.maximum.get(0)), f(b.maximum.get(1)), f(b.maximum.get(2))], [0.5, 2.5, 0.5]);
    let late = ray([0.0, 2.0, -5.0], [0.0, 0.0, 1.0], 1.0);
    assert_eq!(f(sphere.hit(&late, s(0.001), s(f64::INFINITY)).unwrap().t), 4.5);
    let early = ray([0.0, 2.0, -5.0], [0.0, 0.0, 1.0], 0.0);
    assert!(sphere.hit(&early, s(0.001), s(f64::INFINITY)).is_none());
}

#[test]
fn hierarchy_over_one_object_holds_it_twice() {
    let list = scattered_spheres(1, 3);
    let bvh = BVHNode::new(&list, s(0.0), s(1.0), &slabs);
    let objects = bvh.objects();
    assert_eq!(objects.len(), 2);
    assert!(std::ptr::eq(objects[0], &list.objects[0]));
    assert!(std::ptr::eq(objects[1], &list.objects[0]));
    check_shape(&bvh, 1);
    let own = list.objects[0].bounding_box(s(0.0), s(1.0)).unwrap();
    let b = bvh.bounding_box(s(5.0), s(9.0)).unwrap();
    for i in 0..3 {
        assert_eq!(f(b.minimum.get(i)), f(own.minimum.get(i)));
        assert_eq!(f(b.maximum.get(i)), f(own.maximum.get(i)));
    }
}

#[test]
fn hierarchy_over_two_objects_keeps_their_order() {
    let mut list = HitList::new();
    list.push(sphere([5.0, 5.0, 5.0], 1.0, 0));
    list.push(sphere([-5.0, -5.0, -5.0], 1.0, 1));
    let bvh = BVHNode::new(&list, s(0.0), s(1.0), &slabs);
    let objects = bvh.objects();
    assert_eq!(objects.len(), 2);
    assert!(std::ptr::eq(objects[0], &list.objects[0]));
    assert!(std::ptr::eq(objects[1], &list.objects[1]));
    check_shape(&bvh, 2);
    let b = bvh.bounding_box(s(0.0), s(1.0)).unwrap();
    assert_eq!([f(b.minimum.get(0)), f(b.minimum.get(1)), f(b.minimum.get(2))], [-6.0, -6.0, -6.0]);
    assert_eq!([f(b.maximum.get(0)), f(b.maximum.get(1)), f(b.maximum.get(2))], [6.0, 6.0, 6.0]);
}

#[test]
fn hierarchy_is_split_at_the_midpoint_of_a_sorted_axis() {
    for n in [3u32, 4, 5, 8, 13, 64, 101] {
        let list = scattered_spheres(n, 17 + n as u64);
        let bvh = BVHNode::new(&list, s(0.0), s(1.0), &slabs);
        check_shape(&bvh, n as usize);
        let objects = bvh.objects();
        for h in list.objects.iter() {
            assert!(objects.iter().any(|o| std::ptr::eq(*o, h)));
        }
        for o in objects.iter() {
            assert!(list.objects.iter().any(|h| std::ptr::eq(*o, h)));
        }
    }
}

#[test]
fn hierarchy_sorts_objects_that_come_in_reverse() {
    let mut list = HitList::new();
    for i in 0..6u32 {
        let x = 100.0 - 10.0 * i as f64;
        list.push(sphere([x, x, x], 1.0, i));
    }
    let bvh = BVHNode::new(&list, s(0.0), s(1.0), &slabs);
    let tags: Vec<u32> = bvh.objects().iter().map(|h| h.mat().0).collect();
    let mut low: Vec<u32> = tags[..tags.len() / 2].to_vec();
    let mut high: Vec<u32> = tags[tags.len() / 2..].to_vec();
    low.sort();
    low.dedup();
    high.sort();
    high.dedup();
    assert_eq!(low, vec![3, 4, 5]);
    assert_eq!(high, vec![0, 1, 2]);
}

#[test]
fn hierarchy_agrees_with_the_list() {
    for (n, seed) in [(1u32, 1u64), (2, 2), (3, 3), (10, 4), (57, 5), (200, 6)] {
        let list = scattered_spheres(n, seed);
        let bvh = BVHNode::new(&list, s(0.0), s(1.0), &slabs);
        let mut rng = Lcg(seed ^ 0x9e3779b97f4a7c15);
        let mut hits = 0;
        for _ in 0..400 {
            let o = [rng.between(-15.0, 15.0), rng.between(-15.0, 15.0), rng.between(-15.0, 15.0)];
            let d = [rng.between(-1.0, 1.0), rng.between(-1.0, 1.0), rng.between(-1.0, 1.0)];
            let r = ray(o, d, rng.next());
            let t_max = if rng.next() < 0.5 { f64::INFINITY } else { rng.between(1.0, 30.0) };
            let by_list = list.hit(&r, s(0.001), s(t_max));
            let by_tree = bvh.hit(&r, s(0.001), s(t_max));
            assert_eq!(summary(&by_tree), summary(&by_list));
            if by_list.is_some() {
                hits += 1;
            }
        }
        assert!(hits > 0 || n < 10);
    }
}

#[test]
fn hierarchy_is_not_built_without_boxes() {
    let empty: HitList<Sphere> = HitList::new();
    assert!(BVHNode::try_new(&empty, s(0.0), s(1.0), &slabs).is_none());
    let mut unbounded = HitList::new();
    unbounded.push(Plane);
    assert!(BVHNode::try_new(&unbounded, s(0.0), s(1.0), &slabs).is_none());
    let mut mixed: HitList<HitList<Sphere>> = HitList::new();
    mixed.push(scattered_spheres(3, 5));
    mixed.push(HitList::new());
    mixed.push(scattered_spheres(2, 6));
    assert!(BVHNode::try_new(&mixed, s(0.0), s(1.0), &slabs).is_none());
    let list = scattered_spheres(5, 8);
    let bvh = BVHNode::try_new(&list, s(0.0), s(1.0), &slabs).unwrap();
    check_shape(&bvh, 5);
}

#[test]
fn hierarchy_is_shallow() {
    fn height<'a, F: Fn(AABB, Ray) -> [Slab; 3]>(node: &BVHNode<'a, Sphere, F>) -> u32 {
        let side = |c: &Child<'a, Sphere, F>| match c {
            Child::Leaf(_) => 0,
            Child::Node(n) => height(n),
        };
        1 + side(node.left_child()).max(side(node.right_child()))
    }
    for n in 1u32..=70 {
        let list = scattered_spheres(n, 300 + n as u64);
        let bvh = BVHNode::new(&list, s(0.0), s(1.0), &slabs);
        let h = height(&bvh);
        if n <= 2 {
            assert_eq!(h, 1);
        } else {
            assert!(1u32 << (h - 1) <= n - 1, "{} objects, height {}", n, h);
        }
    }
}

#[test]
fn hierarchy_misses_what_misses_its_box() {
    let list = scattered_spheres(20, 9);
    let bvh = BVHNode::new(&list, s(0.0), s(1.0), &slabs);
    let r = ray([100.0, 100.0, 100.0], [1.0, 1.0, 1.0], 0.0);
    assert!(bvh.hit(&r, s(0.001), s(f64::INFINITY)).is_none());
    assert!(list.hit(&r, s(0.001), s(f64::INFINITY)).is_none());
}

#[test]
fn hierarchies_nest() {
    let near = scattered_spheres(9, 21);
    let far = scattered_spheres(9, 22);
    let near_tree = BVHNode::new(&near, s(0.0), s(1.0), &slabs);
    let far_tree = BVHNode::new(&far, s(0.0), s(1.0), &slabs);
    let mut both = HitList::new();
    both.push(near_tree);
    both.push(far_tree);
    let top = BVHNode::new(&both, s(0.0), s(1.0), &slabs);
    let mut flat = HitList::new();
    for h in scattered_spheres(9, 21).objects {
        flat.push(h);
    }
    for h in scattered_spheres(9, 22).objects {
        flat.push(h);
    }
    let mut rng = Lcg(77);
    for _ in 0..300 {
        let o = [rng.between(-15.0, 15.0), rng.between(-15.0, 15.0), rng.between(-15.0, 15.0)];
        let d = [rng.between(-1.0, 1.0), rng.between(-1.0, 1.0), rng.between(-1.0, 1.0)];
        let r = ray(o, d, 0.0);
        let a = top.hit(&r, s(0.001), s(f64::INFINITY));
        let b = flat.hit(&r, s(0.001), s(f64::INFINITY));
        assert_eq!(summary(&a), summary(&b));
    }
}
