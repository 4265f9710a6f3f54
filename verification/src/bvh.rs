//! The bounding-volume hierarchy: a binary tree over the objects of a scene,
//! built once and then queried like any other hittable.

use crate::aabb::is_slab_function;
use crate::aabb::lemma_contains_is_transitive;
use crate::aabb::lemma_surrounding_box_is_least;
use crate::aabb::wider_box_is_hit;
use crate::aabb::Slab;
use crate::aabb::AABB;
use crate::chance::random_below;
use crate::hit::references;
use crate::hit::scan;
use crate::hit::tightened;
use crate::hit::Hit;
use crate::hit::HitList;
use crate::hit::HitRecord;
use crate::nearest::all_answer_nearest;
use crate::nearest::answers_nearest;
use crate::nearest::capped;
use crate::nearest::lemma_scan_lets_bound_shrink;
use crate::nearest::lemma_nearest_is_unique;
use crate::nearest::lemma_scan_is_nearest;
use crate::nearest::lemma_scan_of_concatenation;
use crate::nearest::no_ties;
use crate::nearest::within;
use crate::ray::Ray;
use crate::scalar::Scalar;
use vstd::arithmetic::power2::lemma2_to64;
use vstd::arithmetic::power2::lemma_pow2_unfold;
use vstd::arithmetic::power2::pow2;
use vstd::prelude::*;

verus! {

/// A child of a node: an object of the scene, or a node.
pub enum Child<'a, H: Hit, F: Fn(AABB, Ray) -> [Slab; 3]> {
    Leaf(&'a H),
    Node(Box<BVHNode<'a, H, F>>),
}

/// A node of the hierarchy: two children and a box around both. `slabs` is the
/// arithmetic of the slab test (see `AABB::hit`), shared by all nodes.
pub struct BVHNode<'a, H: Hit, F: Fn(AABB, Ray) -> [Slab; 3]> {
    left: Child<'a, H, F>,
    right: Child<'a, H, F>,
    bounding_box: AABB,
    slabs: &'a F,
}

/// The key by which an object is sorted on an axis: that of the minimum
/// coordinate of its box at time zero.
pub open spec fn sort_key<H: Hit>(h: &H, axis: int) -> int {
    match h.bounding_box_spec(Scalar::zero(), Scalar::zero()) {
        Some(b) => b.minimum.at(axis).total_key(),
        None => 0,
    }
}

/// Whether no object of `low` comes after an object of `high` on the axis.
pub open spec fn split_on<H: Hit>(low: Seq<&H>, high: Seq<&H>, axis: int) -> bool {
    forall|i: int, j: int|
        0 <= i < low.len() && 0 <= j < high.len() ==> sort_key(#[trigger] low[i], axis)
            <= sort_key(#[trigger] high[j], axis)
}

/// Whether the objects come in ascending order on the axis.
pub open spec fn sorted_on<H: Hit>(objs: Seq<&H>, axis: int) -> bool {
    forall|i: int, j: int|
        0 <= i <= j < objs.len() ==> sort_key(#[trigger] objs[i], axis) <= sort_key(
            #[trigger] objs[j],
            axis,
        )
}

/// Whether two halves are as a sort on the axis and a split have left them: no
/// object of `low` comes after an object of `high`, and a half of one or two
/// objects, which is not sorted again, is in ascending order.
pub open spec fn halves_in_order<H: Hit>(low: Seq<&H>, high: Seq<&H>, axis: int) -> bool {
    &&& split_on(low, high, axis)
    &&& low.len() <= 2 ==> sorted_on(low, axis)
    &&& high.len() <= 2 ==> sorted_on(high, axis)
}

/// The halves of a sorted run are in order, also after each half of three or
/// more objects has been rearranged.
proof fn lemma_halves_in_order<'a, H: Hit>(
    sorted: Seq<&'a H>,
    low: Seq<&'a H>,
    high: Seq<&'a H>,
    mid: int,
    axis: int,
)
    requires
        0 <= mid <= sorted.len(),
        sorted_on(sorted, axis),
        low.to_multiset() == sorted.subrange(0, mid).to_multiset(),
        high.to_multiset() == sorted.subrange(mid, sorted.len() as int).to_multiset(),
        mid <= 2 ==> low == sorted.subrange(0, mid),
        sorted.len() - mid <= 2 ==> high == sorted.subrange(mid, sorted.len() as int),
    ensures
        halves_in_order(low, high, axis),
{
    let first = sorted.subrange(0, mid);
    let second = sorted.subrange(mid, sorted.len() as int);
    lemma_same_multiset_same_elements(low, first);
    lemma_same_multiset_same_elements(high, second);
    assert forall|i: int, j: int| 0 <= i < low.len() && 0 <= j < high.len() implies sort_key(
        #[trigger] low[i],
        axis,
    ) <= sort_key(#[trigger] high[j], axis) by {
        assert(low.contains(low[i]));
        let a = choose|a: int| 0 <= a < first.len() && first[a] == low[i];
        assert(high.contains(high[j]));
        let b = choose|b: int| 0 <= b < second.len() && second[b] == high[j];
        assert(sorted[a] == low[i]);
        assert(sorted[mid + b] == high[j]);
    }
    if low.len() <= 2 {
        assert forall|i: int, j: int| 0 <= i <= j < low.len() implies sort_key(
            #[trigger] low[i],
            axis,
        ) <= sort_key(#[trigger] low[j], axis) by {
            assert(sorted[i] == low[i]);
            assert(sorted[j] == low[j]);
        }
    }
    if high.len() <= 2 {
        assert forall|i: int, j: int| 0 <= i <= j < high.len() implies sort_key(
            #[trigger] high[i],
            axis,
        ) <= sort_key(#[trigger] high[j], axis) by {
            assert(sorted[mid + i] == high[i]);
            assert(sorted[mid + j] == high[j]);
        }
    }
}

/// The order of pairs of a key and a position: by the key, then by the position.
pub open spec fn pair_le(a: (i64, usize), b: (i64, usize)) -> bool {
    a.0 < b.0 || (a.0 == b.0 && a.1 <= b.1)
}

/// Sorts pairs of a key and a position.
///
/// Calls `sort` of the standard library on the vector. By its documentation the
/// slice is then in ascending order, and tuples are ordered component by
/// component from the left. The same pairs are there after the call as before.
#[verifier::external_body]
fn sort_pairs(pairs: &mut Vec<(i64, usize)>)
    ensures
        final(pairs)@.to_multiset() == old(pairs)@.to_multiset(),
        forall|i: int, j: int|
            0 <= i < j < final(pairs)@.len() ==> pair_le(
                #[trigger] final(pairs)@[i],
                #[trigger] final(pairs)@[j],
            ),
{
    pairs.sort();
}

/// Two sequences with the same elements, each as often, have the same length
/// and hold the same elements.
proof fn lemma_same_multiset_same_elements<A>(a: Seq<A>, b: Seq<A>)
    requires
        a.to_multiset() == b.to_multiset(),
    ensures
        a.len() == b.len(),
        forall|x: A| a.contains(x) <==> b.contains(x),
{
    vstd::seq_lib::to_multiset_len(a);
    vstd::seq_lib::to_multiset_len(b);
    assert forall|x: A| a.contains(x) <==> b.contains(x) by {
        vstd::seq_lib::to_multiset_contains(a, x);
        vstd::seq_lib::to_multiset_contains(b, x);
    }
}

/// Two sequences with the same elements, each as often, still have the same
/// elements, each as often, when a function is applied to every element.
proof fn lemma_map_keeps_multiset<A, B>(a: Seq<A>, b: Seq<A>, f: spec_fn(A) -> B)
    requires
        a.to_multiset() == b.to_multiset(),
    ensures
        a.map_values(f).to_multiset() == b.map_values(f).to_multiset(),
    decreases a.len(),
{
    broadcast use vstd::multiset::group_multiset_axioms;

    lemma_same_multiset_same_elements(a, b);
    if a.len() == 0 {
        assert(a.map_values(f) =~= b.map_values(f));
    } else {
        let x = a.last();
        assert(a.contains(x));
        let i = choose|i: int| 0 <= i < b.len() && b[i] == x;
        let a1 = a.drop_last();
        let b1 = b.remove(i);
        assert(a1.push(x) =~= a);
        vstd::seq_lib::to_multiset_build(a1, x);
        vstd::seq_lib::to_multiset_remove(b, i);
        assert(a1.to_multiset() =~= a.to_multiset().remove(x));
        lemma_map_keeps_multiset(a1, b1, f);
        assert(a.map_values(f) =~= a1.map_values(f).push(f(x)));
        assert(b.map_values(f) =~= b1.map_values(f).insert(i, f(x)));
        vstd::seq_lib::to_multiset_build(a1.map_values(f), f(x));
        vstd::seq_lib::to_multiset_insert(b1.map_values(f), i, f(x));
    }
}

/// Sorts `items[start..end]` by the objects' keys on `axis`. Objects with equal
/// keys keep their order.
fn sort_range<'a, H: Hit>(items: &mut Vec<&'a H>, start: usize, end: usize, axis: usize)
    requires
        start <= end <= old(items)@.len(),
        axis < 3,
        forall|k: int|
            start <= k < end ==> (#[trigger] old(items)@[k]).bounding_box_spec(
                Scalar::zero(),
                Scalar::zero(),
            ) is Some,
    ensures
        final(items)@.len() == old(items)@.len(),
        forall|k: int|
            0 <= k < start || end <= k < old(items)@.len() ==> final(items)@[k] == old(items)@[k],
        final(items)@.subrange(start as int, end as int).to_multiset() == old(items)@.subrange(
            start as int,
            end as int,
        ).to_multiset(),
        forall|i: int, j: int|
            start <= i <= j < end ==> sort_key(#[trigger] final(items)@[i], axis as int)
                <= sort_key(#[trigger] final(items)@[j], axis as int),
{
    let n = end - start;
    let ghost before = items@.subrange(start as int, end as int);
    let mut pairs: Vec<(i64, usize)> = Vec::new();
    let mut k: usize = 0;
    while k < n
        invariant
            k <= n,
            n == end - start,
            end <= items@.len(),
            axis < 3,
            items@ == old(items)@,
            before == items@.subrange(start as int, end as int),
            forall|m: int|
                start <= m < end ==> (#[trigger] items@[m]).bounding_box_spec(
                    Scalar::zero(),
                    Scalar::zero(),
                ) is Some,
            pairs@.len() == k,
            forall|m: int|
                0 <= m < k ==> (#[trigger] pairs@[m]).1 == m && pairs@[m].0 == sort_key(
                    before[m],
                    axis as int,
                ),
        decreases n - k,
    {
        let h: &'a H = items[start + k];
        assert(h == before[k as int]);
        let key = match h.bounding_box(Scalar::zero(), Scalar::zero()) {
            Some(b) => b.minimum.get(axis).order_key(),
            None => 0,
        };
        pairs.push((key, k));
        k += 1;
    }
    let ghost unsorted = pairs@;
    sort_pairs(&mut pairs);
    proof {
        lemma_same_multiset_same_elements(pairs@, unsorted);
        assert forall|m: int| 0 <= m < n implies (#[trigger] pairs@[m]).1 < n && pairs@[m].0
            == sort_key(before[pairs@[m].1 as int], axis as int) by {
            assert(pairs@.contains(pairs@[m]));
            let w = choose|w: int| 0 <= w < unsorted.len() && unsorted[w] == pairs@[m];
            assert(unsorted[w].1 == w);
        }
    }
    let mut sorted: Vec<&'a H> = Vec::new();
    let mut j: usize = 0;
    while j < n
        invariant
            j <= n,
            n == end - start,
            end <= items@.len(),
            items@ == old(items)@,
            before == items@.subrange(start as int, end as int),
            pairs@.len() == n,
            forall|m: int| 0 <= m < n ==> (#[trigger] pairs@[m]).1 < n,
            sorted@.len() == j,
            forall|m: int| 0 <= m < j ==> #[trigger] sorted@[m] == before[pairs@[m].1 as int],
        decreases n - j,
    {
        let p = pairs[j];
        let h: &'a H = items[start + p.1];
        assert(h == before[p.1 as int]);
        sorted.push(h);
        j += 1;
    }
    proof {
        let pick = |p: (i64, usize)| before[p.1 as int];
        assert(sorted@ =~= pairs@.map_values(pick));
        assert(before =~= unsorted.map_values(pick));
        lemma_map_keeps_multiset(pairs@, unsorted, pick);
        assert forall|a: int, b: int| 0 <= a <= b < n implies sort_key(
            #[trigger] sorted@[a],
            axis as int,
        ) <= sort_key(#[trigger] sorted@[b], axis as int) by {
            if a < b {
                assert(pair_le(pairs@[a], pairs@[b]));
            }
        }
    }
    let mut j: usize = 0;
    while j < n
        invariant
            j <= n,
            n == end - start,
            end <= items@.len(),
            items@.len() == old(items)@.len(),
            sorted@.len() == n,
            forall|m: int| 0 <= m < j ==> #[trigger] items@[start + m] == sorted@[m],
            forall|m: int|
                0 <= m < start || start + j <= m < items@.len() ==> #[trigger] items@[m] == old(
                    items,
                )@[m],
        decreases n - j,
    {
        items[start + j] = sorted[j];
        j += 1;
    }
    assert forall|m: int| 0 <= m < n implies items@.subrange(start as int, end as int)[m]
        == sorted@[m] by {
        assert(items@[start + m] == sorted@[m]);
    }
    assert(items@.subrange(start as int, end as int) =~= sorted@);
    assert forall|a: int, b: int| start <= a <= b < end implies sort_key(
        #[trigger] items@[a],
        axis as int,
    ) <= sort_key(#[trigger] items@[b], axis as int) by {
        assert(items@[start + (a - start)] == sorted@[a - start]);
        assert(items@[start + (b - start)] == sorted@[b - start]);
    }
}

impl<'a, H: Hit, F: Fn(AABB, Ray) -> [Slab; 3]> Child<'a, H, F> {
    /// Whether every node below holds a slab function.
    pub open spec fn wf(&self) -> bool
        decreases self,
    {
        match self {
            Child::Leaf(_) => true,
            Child::Node(n) => n.wf(),
        }
    }

    /// The child's box over a time interval: the object's own, or the node's.
    pub open spec fn bound(&self, start_time: Scalar, end_time: Scalar) -> Option<AABB> {
        match self {
            Child::Leaf(h) => h.bounding_box_spec(start_time, end_time),
            Child::Node(n) => Some(n.bound()),
        }
    }

    /// The objects under the child, from left to right.
    pub open spec fn leaves(&self) -> Seq<&'a H>
        decreases self,
    {
        match self {
            Child::Leaf(h) => seq![*h],
            Child::Node(n) => n.leaves(),
        }
    }

    /// The number of nodes on the longest way down from the child.
    pub open spec fn height(&self) -> nat
        decreases self,
    {
        match self {
            Child::Leaf(_) => 0,
            Child::Node(n) => n.height(),
        }
    }

    /// What a query of the child returns.
    pub open spec fn hit_model(&self, r: Ray, t_min: Scalar, t_max: Scalar) -> Option<
        HitRecord<'a, H::Mat>,
    >
        decreases self,
    {
        match self {
            Child::Leaf(h) => h.hit_spec(r, t_min, t_max),
            Child::Node(n) => n.hit_model(r, t_min, t_max),
        }
    }

    /// Whether every box below lets through what hits an object under it (see
    /// `BVHNode::boxes_sound`).
    pub open spec fn boxes_sound(&self, r: Ray, t_min: Scalar, t_max: Scalar) -> bool
        decreases self,
    {
        match self {
            Child::Leaf(_) => true,
            Child::Node(n) => n.boxes_sound(r, t_min, t_max),
        }
    }

    fn hit(&self, r: &Ray, t_min: Scalar, t_max: Scalar) -> (res: Option<HitRecord<'a, H::Mat>>)
        requires
            self.wf(),
        ensures
            res == self.hit_model(*r, t_min, t_max),
        decreases self,
    {
        match self {
            Child::Leaf(h) => h.hit(r, t_min, t_max),
            Child::Node(n) => n.hit_node(r, t_min, t_max),
        }
    }

    fn bounding_box(&self, start_time: Scalar, end_time: Scalar) -> (res: Option<AABB>)
        ensures
            res == self.bound(start_time, end_time),
    {
        match self {
            Child::Leaf(h) => h.bounding_box(start_time, end_time),
            Child::Node(n) => Some(n.bounding_box),
        }
    }

    fn collect(&self, out: &mut Vec<&'a H>)
        ensures
            final(out)@ == old(out)@ + self.leaves(),
        decreases self,
    {
        match self {
            Child::Leaf(h) => {
                out.push(*h);
                assert(out@ =~= old(out)@ + self.leaves());
            },
            Child::Node(n) => {
                n.collect(out);
            },
        }
    }
}

impl<'a, H: Hit, F: Fn(AABB, Ray) -> [Slab; 3]> BVHNode<'a, H, F> {
    /// Whether this node and every node below hold a slab function.
    #[verifier::type_invariant]
    pub closed spec fn wf(&self) -> bool
        decreases self,
    {
        &&& is_slab_function(self.slabs)
        &&& self.left.wf()
        &&& self.right.wf()
    }

    /// The left child.
    pub closed spec fn left(&self) -> Child<'a, H, F> {
        self.left
    }

    /// The right child.
    pub closed spec fn right(&self) -> Child<'a, H, F> {
        self.right
    }

    fn collect(&self, out: &mut Vec<&'a H>)
        ensures
            final(out)@ == old(out)@ + self.leaves(),
        decreases self,
    {
        let ghost given = out@;
        self.left.collect(out);
        self.right.collect(out);
        assert(out@ =~= given + self.leaves());
    }

    /// The objects under the node, from left to right.
    pub fn objects(&self) -> (res: Vec<&'a H>)
        ensures
            res@ == self.leaves(),
    {
        let mut res: Vec<&'a H> = Vec::new();
        self.collect(&mut res);
        assert(res@ =~= self.leaves());
        res
    }

    /// The left child.
    pub fn left_child(&self) -> (child: &Child<'a, H, F>)
        ensures
            *child == self.left(),
    {
        &self.left
    }

    /// The right child.
    pub fn right_child(&self) -> (child: &Child<'a, H, F>)
        ensures
            *child == self.right(),
    {
        &self.right
    }

    /// The node's box.
    pub closed spec fn bound(&self) -> AABB {
        self.bounding_box
    }

    /// The arithmetic of the slab test.
    pub closed spec fn slabs(&self) -> &'a F {
        self.slabs
    }

    /// The number of nodes on the longest way down from the node, itself counted.
    pub open spec fn height(&self) -> nat
        decreases self,
    {
        if self.left().height() >= self.right().height() {
            1 + self.left().height()
        } else {
            1 + self.right().height()
        }
    }

    /// The objects under the node, from left to right. An object that is both
    /// children of a node is there twice.
    pub open spec fn leaves(&self) -> Seq<&'a H>
        decreases self,
    {
        self.left().leaves() + self.right().leaves()
    }

    /// What a query returns. A ray that misses the node's box hits nothing. Else
    /// the left child is asked, then the right child for a hit no farther than
    /// the left one's; the right child's hit is preferred.
    pub open spec fn hit_model(&self, r: Ray, t_min: Scalar, t_max: Scalar) -> Option<
        HitRecord<'a, H::Mat>,
    >
        decreases self,
    {
        if !self.bound().hit_by(r, t_min, t_max, self.slabs()) {
            None
        } else {
            let hit_left = self.left().hit_model(r, t_min, t_max);
            let hit_right = self.right().hit_model(r, t_min, tightened(hit_left, t_max));
            if hit_right is Some {
                hit_right
            } else {
                hit_left
            }
        }
    }

    /// Whether, for this ray, every box of the hierarchy lets through what hits an
    /// object under it: under each bound within `t_max`, a node whose objects
    /// are hit passes the slab test on its box.
    pub open spec fn boxes_sound(&self, r: Ray, t_min: Scalar, t_max: Scalar) -> bool
        decreases self,
    {
        &&& forall|hi: Scalar|
            within(hi, t_max) && (#[trigger] scan(self.leaves(), r, t_min, hi)) is Some
                ==> self.bound().hit_by(r, t_min, hi, self.slabs())
        &&& self.left().boxes_sound(r, t_min, t_max)
        &&& self.right().boxes_sound(r, t_min, t_max)
    }

    /// Whether the node is the hierarchy over `objs`, in the order in which the
    /// node holds them, with boxes over the given time interval.
    ///
    /// One object is both children. Two objects are the two children. Three or
    /// more are split at the midpoint, each half under a child node, and on
    /// some axis no object of the first half comes after one of the second; a
    /// half of one or two objects is in ascending order on that axis.
    /// The node's box is the merged box of its children's, and all nodes share
    /// the arithmetic of the slab test.
    pub open spec fn is_hierarchy_of(
        &self,
        objs: Seq<&'a H>,
        start_time: Scalar,
        end_time: Scalar,
    ) -> bool
        decreases self,
    {
        &&& objs.len() >= 1
        &&& self.left().bound(start_time, end_time) is Some
        &&& self.right().bound(start_time, end_time) is Some
        &&& self.bound() == self.left().bound(start_time, end_time).unwrap().surround(
            self.right().bound(start_time, end_time).unwrap(),
        )
        &&& if objs.len() == 1 {
            self.left() == Child::<'a, H, F>::Leaf(objs[0]) && self.right() == Child::<
                'a,
                H,
                F,
            >::Leaf(objs[0])
        } else if objs.len() == 2 {
            self.left() == Child::<'a, H, F>::Leaf(objs[0]) && self.right() == Child::<
                'a,
                H,
                F,
            >::Leaf(objs[1])
        } else {
            let mid = objs.len() / 2;
            &&& self.left() matches Child::Node(l) && l.slabs() == self.slabs()
                && l.is_hierarchy_of(objs.subrange(0, mid as int), start_time, end_time)
            &&& self.right() matches Child::Node(r) && r.slabs() == self.slabs()
                && r.is_hierarchy_of(objs.subrange(mid as int, objs.len() as int), start_time, end_time)
            &&& exists|axis: int|
                0 <= axis < 3 && #[trigger] halves_in_order(
                    objs.subrange(0, mid as int),
                    objs.subrange(mid as int, objs.len() as int),
                    axis,
                )
        }
    }

    /// Builds the hierarchy over the objects of `list`, with boxes over the time
    /// interval from `start_time` to `end_time`.
    ///
    /// `slabs` is the arithmetic of the slab test, as for `AABB::hit`; the
    /// hierarchy keeps it for its queries. A scene without objects, and an
    /// object without a box, are errors of configuration, left out by
    /// `requires`: each object has a box over the interval, and, where there is
    /// more than one object, a box at time zero, by which the objects are sorted.
    ///
    /// The objects of the hierarchy are those of the list, each once. Which axis
    /// a node sorts on is a matter of chance.
    pub fn new(list: &'a HitList<H>, start_time: Scalar, end_time: Scalar, slabs: &'a F) -> (node:
        BVHNode<'a, H, F>)
        requires
            is_slab_function(slabs),
            Self::can_build(list.objects@, start_time, end_time),
        ensures
            node.slabs() == slabs,
            exists|objs: Seq<&'a H>|
                objs.to_multiset() == references(list.objects@).to_multiset()
                    && #[trigger] node.is_hierarchy_of(objs, start_time, end_time),
            list.objects@.len() <= 2 ==> node.is_hierarchy_of(
                references(list.objects@),
                start_time,
                end_time,
            ),
    {
        let mut items: Vec<&'a H> = Vec::new();
        let mut i: usize = 0;
        while i < list.objects.len()
            invariant
                i <= list.objects@.len(),
                items@.len() == i,
                forall|m: int| 0 <= m < i ==> #[trigger] items@[m] == &list.objects@[m],
            decreases list.objects@.len() - i,
        {
            items.push(&list.objects[i]);
            i += 1;
        }
        assert(items@ =~= references(list.objects@));
        let n = items.len();
        let node = Self::new_impl(&mut items, 0, n, start_time, end_time, slabs);
        assert(items@.subrange(0, n as int) =~= items@);
        assert(references(list.objects@).subrange(0, n as int) =~= references(list.objects@));
        proof {
            if n <= 2 {
                let a = items@;
                let b = references(list.objects@);
                lemma_same_multiset_same_elements(a, b);
                if n == 1 {
                    assert(a.contains(a[0]));
                    assert(a =~= b);
                }
            }
        }
        node
    }

    /// Whether the hierarchy over the objects can be built: there is an object,
    /// each object has a box over the time interval, and, where there is more
    /// than one object, each has a box at time zero.
    pub open spec fn can_build(objects: Seq<H>, start_time: Scalar, end_time: Scalar) -> bool {
        &&& objects.len() >= 1
        &&& forall|i: int|
            0 <= i < objects.len() ==> (#[trigger] objects[i]).bounding_box_spec(
                start_time,
                end_time,
            ) is Some
        &&& objects.len() >= 2 ==> forall|i: int|
            0 <= i < objects.len() ==> (#[trigger] objects[i]).bounding_box_spec(
                Scalar::zero(),
                Scalar::zero(),
            ) is Some
    }

    /// Builds the hierarchy as `new` does, after asking each object for its
    /// boxes: nothing is built where the scene is empty or an object has none.
    pub fn try_new(
        list: &'a HitList<H>,
        start_time: Scalar,
        end_time: Scalar,
        slabs: &'a F,
    ) -> (res: Option<BVHNode<'a, H, F>>)
        requires
            is_slab_function(slabs),
        ensures
            res is Some <==> Self::can_build(list.objects@, start_time, end_time),
            res matches Some(node) ==> {
                &&& node.slabs() == slabs
                &&& exists|objs: Seq<&'a H>|
                    objs.to_multiset() == references(list.objects@).to_multiset()
                        && #[trigger] node.is_hierarchy_of(objs, start_time, end_time)
                &&& list.objects@.len() <= 2 ==> node.is_hierarchy_of(
                    references(list.objects@),
                    start_time,
                    end_time,
                )
            },
    {
        let n = list.objects.len();
        if n == 0 {
            return None;
        }
        let mut i: usize = 0;
        while i < n
            invariant
                i <= n,
                n == list.objects@.len(),
                forall|k: int|
                    0 <= k < i ==> (#[trigger] list.objects@[k]).bounding_box_spec(
                        start_time,
                        end_time,
                    ) is Some,
                n >= 2 ==> forall|k: int|
                    0 <= k < i ==> (#[trigger] list.objects@[k]).bounding_box_spec(
                        Scalar::zero(),
                        Scalar::zero(),
                    ) is Some,
            decreases n - i,
        {
            if list.objects[i].bounding_box(start_time, end_time).is_none() {
                return None;
            }
            if n >= 2 && list.objects[i].bounding_box(Scalar::zero(), Scalar::zero()).is_none() {
                return None;
            }
            i += 1;
        }
        Some(Self::new(list, start_time, end_time, slabs))
    }

    fn new_impl(
        items: &mut Vec<&'a H>,
        start: usize,
        end: usize,
        start_time: Scalar,
        end_time: Scalar,
        slabs: &'a F,
    ) -> (node: BVHNode<'a, H, F>)
        requires
            is_slab_function(slabs),
            start < end <= old(items)@.len(),
            forall|k: int|
                start <= k < end ==> (#[trigger] old(items)@[k]).bounding_box_spec(
                    start_time,
                    end_time,
                ) is Some,
            end - start >= 2 ==> forall|k: int|
                start <= k < end ==> (#[trigger] old(items)@[k]).bounding_box_spec(
                    Scalar::zero(),
                    Scalar::zero(),
                ) is Some,
        ensures
            final(items)@.len() == old(items)@.len(),
            forall|k: int|
                0 <= k < start || end <= k < old(items)@.len() ==> final(items)@[k] == old(
                    items,
                )@[k],
            final(items)@.subrange(start as int, end as int).to_multiset() == old(items)@.subrange(
                start as int,
                end as int,
            ).to_multiset(),
            end - start <= 2 ==> final(items)@ == old(items)@,
            node.wf(),
            node.slabs() == slabs,
            node.is_hierarchy_of(
                final(items)@.subrange(start as int, end as int),
                start_time,
                end_time,
            ),
        decreases end - start,
    {
        let object_span = end - start;
        let ghost given = items@;
        let left: Child<'a, H, F>;
        let right: Child<'a, H, F>;
        if object_span == 1 {
            left = Child::Leaf(items[start]);
            right = Child::Leaf(items[start]);
        } else if object_span == 2 {
            left = Child::Leaf(items[start]);
            right = Child::Leaf(items[start + 1]);
        } else {
            let axis = random_below(3);
            sort_range(items, start, end, axis);
            let ghost sorted = items@;
            let mid = start + object_span / 2;
            proof {
                lemma_same_multiset_same_elements(
                    sorted.subrange(start as int, end as int),
                    given.subrange(start as int, end as int),
                );
                assert forall|k: int| start <= k < end implies (#[trigger] sorted[k]).bounding_box_spec(
                    start_time,
                    end_time,
                ) is Some && sorted[k].bounding_box_spec(Scalar::zero(), Scalar::zero())
                    is Some by {
                    let x = sorted.subrange(start as int, end as int)[k - start];
                    assert(sorted.subrange(start as int, end as int).contains(x));
                    let w = choose|w: int|
                        0 <= w < end - start && given.subrange(start as int, end as int)[w] == x;
                    assert(given[start + w] == x);
                }
            }
            let l = Self::new_impl(items, start, mid, start_time, end_time, slabs);
            let ghost halfway = items@;
            proof {
                lemma_same_multiset_same_elements(
                    halfway.subrange(start as int, mid as int),
                    sorted.subrange(start as int, mid as int),
                );
            }
            let r = Self::new_impl(items, mid, end, start_time, end_time, slabs);
            proof {
                let low = items@.subrange(start as int, mid as int);
                let high = items@.subrange(mid as int, end as int);
                let whole = items@.subrange(start as int, end as int);
                lemma_same_multiset_same_elements(high, halfway.subrange(mid as int, end as int));
                assert(low =~= halfway.subrange(start as int, mid as int));
                assert(halfway.subrange(mid as int, end as int) =~= sorted.subrange(
                    mid as int,
                    end as int,
                ));
                assert(whole =~= low + high);
                assert(sorted.subrange(start as int, end as int) =~= sorted.subrange(
                    start as int,
                    mid as int,
                ) + sorted.subrange(mid as int, end as int));
                vstd::seq_lib::lemma_multiset_commutative(low, high);
                vstd::seq_lib::lemma_multiset_commutative(
                    sorted.subrange(start as int, mid as int),
                    sorted.subrange(mid as int, end as int),
                );
                assert(whole.subrange(0, (whole.len() / 2) as int) =~= low);
                assert(whole.subrange((whole.len() / 2) as int, whole.len() as int) =~= high);
                let run = sorted.subrange(start as int, end as int);
                assert(run.subrange(0, mid - start) =~= sorted.subrange(start as int, mid as int));
                assert(run.subrange(mid - start, run.len() as int) =~= sorted.subrange(
                    mid as int,
                    end as int,
                ));
                assert(sorted_on(run, axis as int)) by {
                    assert forall|i: int, j: int| 0 <= i <= j < run.len() implies sort_key(
                        #[trigger] run[i],
                        axis as int,
                    ) <= sort_key(#[trigger] run[j], axis as int) by {
                        assert(run[i] == sorted[start + i]);
                        assert(run[j] == sorted[start + j]);
                    }
                }
                if mid - start <= 2 {
                    assert(low =~= sorted.subrange(start as int, mid as int));
                }
                if end - mid <= 2 {
                    assert(high =~= sorted.subrange(mid as int, end as int));
                }
                lemma_halves_in_order(run, low, high, mid - start, axis as int);
            }
            left = Child::Node(Box::new(l));
            right = Child::Node(Box::new(r));
        }
        let box_left = left.bounding_box(start_time, end_time).unwrap();
        let box_right = right.bounding_box(start_time, end_time).unwrap();
        BVHNode { left, right, bounding_box: AABB::surrounding_box(&box_left, &box_right), slabs }
    }

    fn hit_node(&self, r: &Ray, t_min: Scalar, t_max: Scalar) -> (res: Option<
        HitRecord<'a, H::Mat>,
    >)
        requires
            self.wf(),
        ensures
            res == self.hit_model(*r, t_min, t_max),
        decreases self,
    {
        if !self.bounding_box.hit(r, t_min, t_max, self.slabs) {
            return None;
        }
        let hit_left = self.left.hit(r, t_min, t_max);
        let closest = match &hit_left {
            Some(rec_left) => rec_left.t,
            None => t_max,
        };
        let hit_right = self.right.hit(r, t_min, closest);
        if hit_right.is_some() {
            hit_right
        } else {
            hit_left
        }
    }
}

impl<'a, H: Hit, F: Fn(AABB, Ray) -> [Slab; 3]> Hit for BVHNode<'a, H, F> {
    type Mat = H::Mat;

    open spec fn hit_spec(&self, r: Ray, t_min: Scalar, t_max: Scalar) -> Option<
        HitRecord<'_, H::Mat>,
    > {
        self.hit_model(r, t_min, t_max)
    }

    open spec fn bounding_box_spec(&self, start_time: Scalar, end_time: Scalar) -> Option<AABB> {
        Some(self.bound())
    }

    /// The nearest hit among the objects of the hierarchy, found by descending
    /// only into boxes that the ray passes through.
    fn hit(&self, r: &Ray, t_min: Scalar, t_max: Scalar) -> (res: Option<HitRecord<'_, H::Mat>>) {
        proof {
            use_type_invariant(self);
        }
        self.hit_node(r, t_min, t_max)
    }

    /// The node's box, whatever the interval: it was fixed when the node was built.
    fn bounding_box(&self, start_time: Scalar, end_time: Scalar) -> (res: Option<AABB>) {
        Some(self.bounding_box)
    }
}

/// The objects under a child answer as all the objects of its parent do.
proof fn lemma_part_answers_nearest<'a, H: Hit>(
    part: Seq<&'a H>,
    whole: Seq<&'a H>,
    r: Ray,
    t_min: Scalar,
    t_max: Scalar,
)
    requires
        all_answer_nearest(whole, r, t_min, t_max),
        forall|x: &'a H| part.contains(x) ==> whole.contains(x),
    ensures
        all_answer_nearest(part, r, t_min, t_max),
{
    assert forall|i: int| 0 <= i < part.len() implies answers_nearest(
        #[trigger] part[i],
        r,
        t_min,
        t_max,
    ) by {
        assert(part.contains(part[i]));
        let k = choose|k: int| 0 <= k < whole.len() && whole[k] == part[i];
        assert(answers_nearest(whole[k], r, t_min, t_max));
    }
}

/// A query of a child returns what the scan over the objects under it returns.
proof fn lemma_child_hit_is_scan<'a, H: Hit, F: Fn(AABB, Ray) -> [Slab; 3]>(
    child: Child<'a, H, F>,
    r: Ray,
    t_min: Scalar,
    t_max: Scalar,
    hi: Scalar,
)
    requires
        all_answer_nearest(child.leaves(), r, t_min, t_max),
        child.boxes_sound(r, t_min, t_max),
        within(hi, t_max),
    ensures
        child.hit_model(r, t_min, hi) == scan(child.leaves(), r, t_min, hi),
    decreases child,
{
    match child {
        Child::Leaf(h) => {
            let one = seq![h];
            assert(one.drop_last() =~= Seq::<&'a H>::empty());
            assert(scan(one.drop_last(), r, t_min, hi) is None);
            assert(one.last() == h);
        },
        Child::Node(n) => {
            lemma_node_hit_is_scan(*n, r, t_min, t_max, hi);
        },
    }
}

/// A query of the hierarchy returns what the scan over its objects, from left
/// to right, returns: as long as each object lets its caller shrink the upper
/// bound, and each box lets through what hits an object under it.
pub proof fn lemma_node_hit_is_scan<'a, H: Hit, F: Fn(AABB, Ray) -> [Slab; 3]>(
    node: BVHNode<'a, H, F>,
    r: Ray,
    t_min: Scalar,
    t_max: Scalar,
    hi: Scalar,
)
    requires
        all_answer_nearest(node.leaves(), r, t_min, t_max),
        node.boxes_sound(r, t_min, t_max),
        within(hi, t_max),
    ensures
        node.hit_model(r, t_min, hi) == scan(node.leaves(), r, t_min, hi),
    decreases node,
{
    let low = node.left().leaves();
    let high = node.right().leaves();
    assert forall|x: &'a H| low.contains(x) implies node.leaves().contains(x) by {
        let k = choose|k: int| 0 <= k < low.len() && low[k] == x;
        assert(node.leaves()[k] == x);
    }
    assert forall|x: &'a H| high.contains(x) implies node.leaves().contains(x) by {
        let k = choose|k: int| 0 <= k < high.len() && high[k] == x;
        assert(node.leaves()[low.len() + k] == x);
    }
    lemma_part_answers_nearest(low, node.leaves(), r, t_min, t_max);
    lemma_part_answers_nearest(high, node.leaves(), r, t_min, t_max);
    lemma_scan_of_concatenation(low, high, r, t_min, hi);
    lemma_child_hit_is_scan(node.left(), r, t_min, t_max, hi);
    lemma_scan_is_nearest(low, r, t_min, t_max, hi);
    let first = scan(low, r, t_min, hi);
    assert(within(tightened(first, hi), t_max));
    lemma_child_hit_is_scan(node.right(), r, t_min, t_max, tightened(first, hi));
}

/// A hierarchy whose objects let their callers shrink the upper bound, and whose
/// boxes let through what hits an object under them, lets its own caller
/// shrink the upper bound: hierarchies can stand where objects stand.
pub proof fn lemma_hierarchy_answers_nearest<'a, H: Hit, F: Fn(AABB, Ray) -> [Slab; 3]>(
    node: BVHNode<'a, H, F>,
    r: Ray,
    t_min: Scalar,
    t_max: Scalar,
)
    requires
        all_answer_nearest(node.leaves(), r, t_min, t_max),
        node.boxes_sound(r, t_min, t_max),
    ensures
        answers_nearest(&node, r, t_min, t_max),
{
    lemma_node_hit_is_scan(node, r, t_min, t_max, t_max);
    assert forall|hi: Scalar| within(hi, t_max) implies #[trigger] node.hit_spec(r, t_min, hi)
        == capped(node.hit_spec(r, t_min, t_max), hi) by {
        lemma_node_hit_is_scan(node, r, t_min, t_max, hi);
        lemma_scan_lets_bound_shrink(node.leaves(), r, t_min, t_max, hi);
    }
}

/// The hierarchy is balanced by count, so it is shallow: over one or two objects
/// it is a single node, and over `n >= 2` objects its height `h` satisfies
/// `2^(h - 1) <= n - 1`.
pub proof fn lemma_hierarchy_is_shallow<'a, H: Hit, F: Fn(AABB, Ray) -> [Slab; 3]>(
    node: BVHNode<'a, H, F>,
    objs: Seq<&'a H>,
    start_time: Scalar,
    end_time: Scalar,
)
    requires
        node.is_hierarchy_of(objs, start_time, end_time),
    ensures
        node.height() >= 1,
        objs.len() <= 2 ==> node.height() == 1,
        objs.len() >= 2 ==> pow2((node.height() - 1) as nat) <= objs.len() - 1,
    decreases node,
{
    lemma2_to64();
    if objs.len() > 2 {
        let n = objs.len() as int;
        let mid = n / 2;
        let l = node.left()->Node_0;
        let r = node.right()->Node_0;
        lemma_hierarchy_is_shallow(*l, objs.subrange(0, mid), start_time, end_time);
        lemma_hierarchy_is_shallow(*r, objs.subrange(mid, n), start_time, end_time);
        let hl = l.height();
        let hr = r.height();
        lemma_pow2_unfold(hl);
        lemma_pow2_unfold(hr);
        if hl >= hr {
            assert(node.height() == 1 + hl);
            if mid >= 2 {
                assert(pow2(hl) <= 2 * (mid - 1));
            }
        } else {
            assert(node.height() == 1 + hr);
            assert(pow2(hr) <= 2 * (n - mid - 1));
        }
    }
}

/// The objects under a hierarchy are the objects that it was built over.
pub proof fn lemma_hierarchy_holds_its_objects<'a, H: Hit, F: Fn(AABB, Ray) -> [Slab; 3]>(
    node: BVHNode<'a, H, F>,
    objs: Seq<&'a H>,
    start_time: Scalar,
    end_time: Scalar,
)
    requires
        node.is_hierarchy_of(objs, start_time, end_time),
    ensures
        forall|x: &'a H| node.leaves().contains(x) <==> objs.contains(x),
    decreases node,
{
    let leaves = node.leaves();
    if objs.len() == 1 {
        assert(leaves =~= seq![objs[0], objs[0]]);
        assert forall|x: &'a H| leaves.contains(x) <==> objs.contains(x) by {
            if leaves.contains(x) {
                assert(objs[0] == x);
            }
            if objs.contains(x) {
                assert(leaves[0] == x);
            }
        }
    } else if objs.len() == 2 {
        assert(leaves =~= objs);
    } else {
        let mid = (objs.len() / 2) as int;
        let first = objs.subrange(0, mid);
        let second = objs.subrange(mid, objs.len() as int);
        let l = node.left()->Node_0;
        let r = node.right()->Node_0;
        lemma_hierarchy_holds_its_objects(*l, first, start_time, end_time);
        lemma_hierarchy_holds_its_objects(*r, second, start_time, end_time);
        let low = l.leaves();
        let high = r.leaves();
        assert(leaves =~= low + high);
        assert forall|x: &'a H| leaves.contains(x) <==> objs.contains(x) by {
            if leaves.contains(x) {
                let k = choose|k: int| 0 <= k < leaves.len() && leaves[k] == x;
                if k < low.len() {
                    assert(low[k] == x);
                    assert(low.contains(x));
                    assert(first.contains(x));
                    let m = choose|m: int| 0 <= m < first.len() && first[m] == x;
                    assert(objs[m] == x);
                } else {
                    assert(high[k - low.len()] == x);
                    assert(high.contains(x));
                    assert(second.contains(x));
                    let m = choose|m: int| 0 <= m < second.len() && second[m] == x;
                    assert(objs[mid + m] == x);
                }
            }
            if objs.contains(x) {
                let m = choose|m: int| 0 <= m < objs.len() && objs[m] == x;
                if m < mid {
                    assert(first[m] == x);
                    assert(first.contains(x));
                    assert(low.contains(x));
                    let k = choose|k: int| 0 <= k < low.len() && low[k] == x;
                    assert(leaves[k] == x);
                } else {
                    assert(second[m - mid] == x);
                    assert(second.contains(x));
                    assert(high.contains(x));
                    let k = choose|k: int| 0 <= k < high.len() && high[k] == x;
                    assert(leaves[low.len() + k] == x);
                }
            }
        }
    }
}

/// Whether the object's box lets through what hits the object: under each bound
/// within `t_max`, a ray that hits the object passes the slab test on the
/// object's box over the time interval.
pub open spec fn box_lets_hits_through<H: Hit, F: Fn(AABB, Ray) -> [Slab; 3]>(
    h: &H,
    start_time: Scalar,
    end_time: Scalar,
    r: Ray,
    t_min: Scalar,
    t_max: Scalar,
    f: &F,
) -> bool {
    forall|hi: Scalar|
        within(hi, t_max) && (#[trigger] h.hit_spec(r, t_min, hi)) is Some ==> (
        h.bounding_box_spec(start_time, end_time) matches Some(b) && b.hit_by(r, t_min, hi, f))
}

/// Whether the object has a well-formed box over the time interval.
pub open spec fn has_box<H: Hit>(h: &H, start_time: Scalar, end_time: Scalar) -> bool {
    h.bounding_box_spec(start_time, end_time) matches Some(b) && b.well_formed()
}

/// The box of a hierarchy is well formed and holds the box of every object,
/// where the objects' boxes are well formed.
pub proof fn lemma_bound_holds_every_box<'a, H: Hit, F: Fn(AABB, Ray) -> [Slab; 3]>(
    node: BVHNode<'a, H, F>,
    objs: Seq<&'a H>,
    start_time: Scalar,
    end_time: Scalar,
)
    requires
        node.is_hierarchy_of(objs, start_time, end_time),
        forall|i: int| 0 <= i < objs.len() ==> has_box(#[trigger] objs[i], start_time, end_time),
    ensures
        node.bound().well_formed(),
        forall|i: int|
            0 <= i < objs.len() ==> node.bound().contains(
                (#[trigger] objs[i]).bounding_box_spec(start_time, end_time).unwrap(),
            ),
    decreases node,
{
    let low = node.left().bound(start_time, end_time).unwrap();
    let high = node.right().bound(start_time, end_time).unwrap();
    if objs.len() == 1 {
        assert(has_box(objs[0], start_time, end_time));
        lemma_surrounding_box_is_least(low, high);
    } else if objs.len() == 2 {
        assert(has_box(objs[0], start_time, end_time));
        assert(has_box(objs[1], start_time, end_time));
        lemma_surrounding_box_is_least(low, high);
    } else {
        let mid = (objs.len() / 2) as int;
        let first = objs.subrange(0, mid);
        let second = objs.subrange(mid, objs.len() as int);
        let l = node.left()->Node_0;
        let r = node.right()->Node_0;
        assert forall|i: int| 0 <= i < first.len() implies has_box(
            #[trigger] first[i],
            start_time,
            end_time,
        ) by {
            assert(first[i] == objs[i]);
        }
        assert forall|i: int| 0 <= i < second.len() implies has_box(
            #[trigger] second[i],
            start_time,
            end_time,
        ) by {
            assert(second[i] == objs[mid + i]);
        }
        lemma_bound_holds_every_box(*l, first, start_time, end_time);
        lemma_bound_holds_every_box(*r, second, start_time, end_time);
        lemma_surrounding_box_is_least(low, high);
        assert forall|i: int| 0 <= i < objs.len() implies node.bound().contains(
            (#[trigger] objs[i]).bounding_box_spec(start_time, end_time).unwrap(),
        ) by {
            let b = objs[i].bounding_box_spec(start_time, end_time).unwrap();
            if i < mid {
                assert(first[i] == objs[i]);
                lemma_contains_is_transitive(node.bound(), low, b);
            } else {
                assert(second[i - mid] == objs[i]);
                lemma_contains_is_transitive(node.bound(), high, b);
            }
        }
    }
}

/// Each box of a hierarchy lets through what hits an object under it, where
/// each object's own box does, the boxes are well formed, each object lets its
/// caller shrink the upper bound, and the arithmetic of the slab test respects
/// inclusion.
pub proof fn lemma_boxes_are_sound<'a, H: Hit, F: Fn(AABB, Ray) -> [Slab; 3]>(
    node: BVHNode<'a, H, F>,
    objs: Seq<&'a H>,
    start_time: Scalar,
    end_time: Scalar,
    r: Ray,
    t_min: Scalar,
    t_max: Scalar,
)
    requires
        node.is_hierarchy_of(objs, start_time, end_time),
        all_answer_nearest(objs, r, t_min, t_max),
        wider_box_is_hit(node.slabs(), r, t_min, t_max),
        forall|i: int| 0 <= i < objs.len() ==> has_box(#[trigger] objs[i], start_time, end_time),
        forall|i: int|
            0 <= i < objs.len() ==> box_lets_hits_through(
                #[trigger] objs[i],
                start_time,
                end_time,
                r,
                t_min,
                t_max,
                node.slabs(),
            ),
    ensures
        node.boxes_sound(r, t_min, t_max),
    decreases node,
{
    lemma_bound_holds_every_box(node, objs, start_time, end_time);
    lemma_hierarchy_holds_its_objects(node, objs, start_time, end_time);
    let leaves = node.leaves();
    lemma_part_answers_nearest(leaves, objs, r, t_min, t_max);
    assert forall|hi: Scalar|
        within(hi, t_max) && (#[trigger] scan(leaves, r, t_min, hi)) is Some implies node.bound().hit_by(
        r,
        t_min,
        hi,
        node.slabs(),
    ) by {
        lemma_scan_is_nearest(leaves, r, t_min, t_max, hi);
        let rec = scan(leaves, r, t_min, hi).unwrap();
        let k = choose|k: int|
            0 <= k < leaves.len() && (#[trigger] leaves[k]).hit_spec(r, t_min, t_max) == Some(rec);
        assert(leaves.contains(leaves[k]));
        assert(objs.contains(leaves[k]));
        let i = choose|i: int| 0 <= i < objs.len() && objs[i] == leaves[k];
        assert(answers_nearest(objs[i], r, t_min, t_max));
        assert(objs[i].hit_spec(r, t_min, hi) == Some(rec));
        assert(box_lets_hits_through(
            objs[i],
            start_time,
            end_time,
            r,
            t_min,
            t_max,
            node.slabs(),
        ));
        assert(has_box(objs[i], start_time, end_time));
        let b = objs[i].bounding_box_spec(start_time, end_time).unwrap();
        assert(b.hit_by(r, t_min, hi, node.slabs()));
        assert(node.bound().contains(b));
    }
    if objs.len() > 2 {
        let mid = (objs.len() / 2) as int;
        let first = objs.subrange(0, mid);
        let second = objs.subrange(mid, objs.len() as int);
        let l = node.left()->Node_0;
        let right = node.right()->Node_0;
        assert forall|i: int| 0 <= i < first.len() implies answers_nearest(
            #[trigger] first[i],
            r,
            t_min,
            t_max,
        ) && has_box(first[i], start_time, end_time) && box_lets_hits_through(
            first[i],
            start_time,
            end_time,
            r,
            t_min,
            t_max,
            l.slabs(),
        ) by {
            assert(first[i] == objs[i]);
        }
        assert forall|i: int| 0 <= i < second.len() implies answers_nearest(
            #[trigger] second[i],
            r,
            t_min,
            t_max,
        ) && has_box(second[i], start_time, end_time) && box_lets_hits_through(
            second[i],
            start_time,
            end_time,
            r,
            t_min,
            t_max,
            right.slabs(),
        ) by {
            assert(second[i] == objs[mid + i]);
        }
        lemma_boxes_are_sound(*l, first, start_time, end_time, r, t_min, t_max);
        lemma_boxes_are_sound(*right, second, start_time, end_time, r, t_min, t_max);
    }
}

/// The hierarchy answers a query as the list does that it was built from, where
/// each box of the hierarchy lets through what hits an object under it.
///
/// This holds for a ray and bounds on which each object lets its caller shrink
/// the upper bound, and no two objects are hit at the same distance with
/// different records.
pub proof fn lemma_sound_hierarchy_agrees_with_list<'a, H: Hit, F: Fn(AABB, Ray) -> [Slab; 3]>(
    node: BVHNode<'a, H, F>,
    list: HitList<H>,
    objs: Seq<&'a H>,
    start_time: Scalar,
    end_time: Scalar,
    r: Ray,
    t_min: Scalar,
    t_max: Scalar,
)
    requires
        node.is_hierarchy_of(objs, start_time, end_time),
        objs.to_multiset() == references::<'a, H>(list.objects@).to_multiset(),
        all_answer_nearest(references::<'a, H>(list.objects@), r, t_min, t_max),
        no_ties(references::<'a, H>(list.objects@), r, t_min, t_max),
        node.boxes_sound(r, t_min, t_max),
    ensures
        node.hit_spec(r, t_min, t_max) == list.hit_spec(r, t_min, t_max),
{
    let members = references::<'a, H>(list.objects@);
    let leaves = node.leaves();
    lemma_hierarchy_holds_its_objects(node, objs, start_time, end_time);
    lemma_same_multiset_same_elements(objs, members);
    lemma_part_answers_nearest(leaves, members, r, t_min, t_max);
    lemma_node_hit_is_scan(node, r, t_min, t_max, t_max);
    lemma_scan_is_nearest(leaves, r, t_min, t_max, t_max);
    lemma_scan_is_nearest(members, r, t_min, t_max, t_max);
    lemma_nearest_is_unique(
        members,
        leaves,
        r,
        t_min,
        t_max,
        t_max,
        scan(members, r, t_min, t_max),
        scan(leaves, r, t_min, t_max),
    );
}

/// The hierarchy answers a query as the list does that it was built from: the
/// same hit, with the same distance, point, normal and material, or nothing
/// from both.
///
/// This holds for a ray and bounds on which
/// - each object lets its caller shrink the upper bound,
/// - no two objects are hit at the same distance with different records,
/// - each object has a well-formed box that lets through what hits the object,
/// - and the arithmetic of the slab test respects inclusion.
pub proof fn lemma_hierarchy_agrees_with_list<'a, H: Hit, F: Fn(AABB, Ray) -> [Slab; 3]>(
    node: BVHNode<'a, H, F>,
    list: HitList<H>,
    objs: Seq<&'a H>,
    start_time: Scalar,
    end_time: Scalar,
    r: Ray,
    t_min: Scalar,
    t_max: Scalar,
)
    requires
        node.is_hierarchy_of(objs, start_time, end_time),
        objs.to_multiset() == references::<'a, H>(list.objects@).to_multiset(),
        all_answer_nearest(references::<'a, H>(list.objects@), r, t_min, t_max),
        no_ties(references::<'a, H>(list.objects@), r, t_min, t_max),
        wider_box_is_hit(node.slabs(), r, t_min, t_max),
        forall|i: int|
            0 <= i < list.objects@.len() ==> has_box(
                #[trigger] references::<'a, H>(list.objects@)[i],
                start_time,
                end_time,
            ),
        forall|i: int|
            0 <= i < list.objects@.len() ==> box_lets_hits_through(
                #[trigger] references::<'a, H>(list.objects@)[i],
                start_time,
                end_time,
                r,
                t_min,
                t_max,
                node.slabs(),
            ),
    ensures
        node.hit_spec(r, t_min, t_max) == list.hit_spec(r, t_min, t_max),
{
    let members = references::<'a, H>(list.objects@);
    lemma_same_multiset_same_elements(objs, members);
    lemma_part_answers_nearest(objs, members, r, t_min, t_max);
    assert forall|i: int| 0 <= i < objs.len() implies has_box(
        #[trigger] objs[i],
        start_time,
        end_time,
    ) && box_lets_hits_through(objs[i], start_time, end_time, r, t_min, t_max, node.slabs()) by {
        assert(objs.contains(objs[i]));
        assert(members.contains(objs[i]));
        let k = choose|k: int| 0 <= k < members.len() && members[k] == objs[i];
        assert(has_box(members[k], start_time, end_time));
        assert(box_lets_hits_through(
            members[k],
            start_time,
            end_time,
            r,
            t_min,
            t_max,
            node.slabs(),
        ));
    }
    lemma_boxes_are_sound(node, objs, start_time, end_time, r, t_min, t_max);
    lemma_sound_hierarchy_agrees_with_list(
        node,
        list,
        objs,
        start_time,
        end_time,
        r,
        t_min,
        t_max,
    );
}

} // verus!
