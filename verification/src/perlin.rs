//! Lattice noise: a table of random levels, reached through three random
//! permutations of the lattice coordinates.

use crate::chance::random_below;
use crate::point::Point;
use crate::scalar::Scalar;
use vstd::prelude::*;

verus! {

/// The number of levels, and of entries of each permutation.
pub const POINT_COUNT: usize = 256;

/// Whether `p` holds each of the numbers from 0 up to its length once.
pub open spec fn is_permutation(p: Seq<i32>) -> bool {
    &&& forall|i: int| 0 <= i < p.len() ==> 0 <= #[trigger] p[i] < p.len()
    &&& forall|i: int, j: int| 0 <= i < j < p.len() ==> p[i] != p[j]
}

/// Whether `p` holds its own index at the first `n` places.
pub open spec fn is_identity(p: Seq<i32>, n: int) -> bool {
    forall|i: int| 0 <= i < n ==> #[trigger] p[i] == i
}

/// Whether none of the first `n` places holds its own index.
pub open spec fn moves_all(p: Seq<i32>, n: int) -> bool {
    forall|i: int| 0 <= i < n ==> #[trigger] p[i] != i
}

/// The whole number of quarter units on the far side of zero that a coordinate
/// reaches: below zero a started quarter counts.
pub open spec fn quarters(x: Scalar) -> nat {
    if x.sign() && !x.whole_scaled(2) {
        x.floor_scaled(2) + 1
    } else {
        x.floor_scaled(2)
    }
}

/// The lattice coordinate of a coordinate: the greatest whole number that is
/// not above four times the value, held within the 32-bit integers. A NaN
/// gives 0.
pub open spec fn lattice(x: Scalar) -> int {
    if x.is_nan() {
        0
    } else if x.sign() {
        if quarters(x) >= 0x8000_0000 {
            i32::MIN as int
        } else {
            -(quarters(x) as int)
        }
    } else {
        if quarters(x) >= 0x7fff_ffff {
            i32::MAX as int
        } else {
            quarters(x) as int
        }
    }
}

/// The table index of a lattice coordinate: its lowest eight bits.
pub open spec fn cell(c: i32) -> int {
    (c & 255) as int
}

/// The lattice coordinate of a coordinate.
pub fn lattice_of(x: Scalar) -> (c: i32)
    ensures
        c == lattice(x),
{
    if x.nan() {
        0
    } else {
        let whole = x.floor_scaled_capped(2);
        if x.sign_bit() {
            let up: u64 = if x.is_whole_scaled(2) {
                whole
            } else {
                whole + 1
            };
            if up >= 0x8000_0000 {
                i32::MIN
            } else {
                -(up as i32)
            }
        } else {
            if whole >= 0x7fff_ffff {
                i32::MAX
            } else {
                whole as i32
            }
        }
    }
}

fn cell_of(c: i32) -> (i: usize)
    ensures
        i == cell(c),
        i < POINT_COUNT,
{
    assert(0 <= (c & 255) < 256) by (bit_vector);
    (c & 255) as usize
}

/// The entries with those at the places `i` and `target` exchanged.
pub open spec fn exchanged(p: Seq<i32>, i: int, target: int) -> Seq<i32> {
    p.update(i, p[target]).update(target, p[i])
}

/// Whether `draws` can shuffle `n` entries: there is one draw for each place,
/// and from the second place on it names a place before its own.
pub open spec fn draws_fit(draws: Seq<usize>, n: int) -> bool {
    &&& draws.len() == n
    &&& forall|i: int| 1 <= i < n ==> #[trigger] draws[i] < i
}

/// The entries once each place from the last down to `i` has changed places
/// with the place that `draws` names for it. The whole shuffle is that from
/// place 1.
pub open spec fn shuffled(p: Seq<i32>, draws: Seq<usize>, i: int) -> Seq<i32>
    decreases draws.len() - i,
{
    if i < 1 || i >= draws.len() {
        p
    } else {
        exchanged(shuffled(p, draws, i + 1), i, draws[i] as int)
    }
}

/// The entries `0, 1, 2, ...` in this order.
pub open spec fn identity(n: nat) -> Seq<i32> {
    Seq::new(n, |i: int| i as i32)
}

/// Exchanges the entries at the places `i` and `target`.
pub fn exchange(p: [i32; POINT_COUNT], i: usize, target: usize) -> (q: [i32; POINT_COUNT])
    requires
        target < i < POINT_COUNT,
    ensures
        q@ == exchanged(p@, i as int, target as int),
{
    let mut q = p;
    let upper = q[i];
    let lower = q[target];
    q[i] = lower;
    q[target] = upper;
    assert(q@ =~= exchanged(p@, i as int, target as int));
    q
}

/// An exchange of two places keeps the entries, each as often as before.
proof fn lemma_exchange_keeps_entries(s: Seq<i32>, i: int, target: int)
    requires
        0 <= target < i < s.len(),
    ensures
        exchanged(s, i, target).to_multiset() == s.to_multiset(),
{
    broadcast use vstd::multiset::group_multiset_axioms;

    let once = s.update(i, s[target]);
    vstd::seq_lib::to_multiset_update(s, i, s[target]);
    vstd::seq_lib::to_multiset_update(once, target, s[i]);
    vstd::seq_lib::to_multiset_contains(s, s[i]);
    vstd::seq_lib::to_multiset_contains(s, s[target]);
    assert(s.contains(s[i]));
    assert(s.contains(s[target]));
    assert(exchanged(s, i, target).to_multiset() =~= s.to_multiset());
}

/// What a shuffle of the first `n` entries keeps, whatever the draws: the
/// entries from `n` on stay where they are, the first `n` entries are the same
/// as before, each as often, and a permutation stays a permutation. Where the
/// first `n` entries were each at its own place and there are two or more, no
/// entry is at its own place after the shuffle.
pub proof fn lemma_shuffle(p: Seq<i32>, draws: Seq<usize>)
    requires
        draws_fit(draws, draws.len() as int),
        draws.len() <= p.len(),
    ensures
        shuffled(p, draws, 1).len() == p.len(),
        forall|k: int| draws.len() <= k < p.len() ==> shuffled(p, draws, 1)[k] == p[k],
        shuffled(p, draws, 1).subrange(0, draws.len() as int).to_multiset() == p.subrange(
            0,
            draws.len() as int,
        ).to_multiset(),
        is_permutation(p) ==> is_permutation(shuffled(p, draws, 1)),
        is_identity(p, draws.len() as int) && draws.len() >= 2 ==> moves_all(
            shuffled(p, draws, 1),
            draws.len() as int,
        ),
{
    lemma_shuffle_from(p, draws, 1);
}

/// The state of a shuffle once the places from the last down to `i` are done.
proof fn lemma_shuffle_from(p: Seq<i32>, draws: Seq<usize>, i: int)
    requires
        draws_fit(draws, draws.len() as int),
        draws.len() <= p.len(),
        1 <= i,
    ensures
        shuffled(p, draws, i).len() == p.len(),
        forall|k: int| draws.len() <= k < p.len() ==> shuffled(p, draws, i)[k] == p[k],
        shuffled(p, draws, i).subrange(0, draws.len() as int).to_multiset() == p.subrange(
            0,
            draws.len() as int,
        ).to_multiset(),
        is_permutation(p) ==> is_permutation(shuffled(p, draws, i)),
        is_identity(p, draws.len() as int) && i <= draws.len() ==> forall|k: int|
            0 <= k < i ==> #[trigger] shuffled(p, draws, i)[k] == k || shuffled(p, draws, i)[k]
                >= i,
        is_identity(p, draws.len() as int) ==> forall|k: int|
            i <= k < draws.len() ==> #[trigger] shuffled(p, draws, i)[k] != k,
        is_identity(p, draws.len() as int) && draws.len() >= 2 && i == 1 ==> shuffled(
            p,
            draws,
            i,
        )[0] != 0,
    decreases draws.len() - i,
{
    let n = draws.len() as int;
    if i < n {
        lemma_shuffle_from(p, draws, i + 1);
        let before = shuffled(p, draws, i + 1);
        let target = draws[i] as int;
        let after = exchanged(before, i, target);
        assert(after == shuffled(p, draws, i));
        assert(after.subrange(0, n) =~= exchanged(before.subrange(0, n), i, target));
        lemma_exchange_keeps_entries(before.subrange(0, n), i, target);
        if is_identity(p, n) {
            assert(before[i] == i || before[i] >= i + 1);
            assert(before[target] == target || before[target] >= i + 1);
        }
    }
}

/// A noise table.
pub struct Perlin {
    ranfloat: [Scalar; POINT_COUNT],
    perm_x: [i32; POINT_COUNT],
    perm_y: [i32; POINT_COUNT],
    perm_z: [i32; POINT_COUNT],
}

impl Perlin {
    #[verifier::type_invariant]
    pub closed spec fn wf(&self) -> bool {
        &&& is_permutation(self.perm_x@)
        &&& is_permutation(self.perm_y@)
        &&& is_permutation(self.perm_z@)
    }

    /// The levels of the table.
    pub closed spec fn levels(&self) -> Seq<Scalar> {
        self.ranfloat@
    }

    /// The permutation of the first lattice coordinate.
    pub closed spec fn permutation_x(&self) -> Seq<i32> {
        self.perm_x@
    }

    /// The permutation of the second lattice coordinate.
    pub closed spec fn permutation_y(&self) -> Seq<i32> {
        self.perm_y@
    }

    /// The permutation of the third lattice coordinate.
    pub closed spec fn permutation_z(&self) -> Seq<i32> {
        self.perm_z@
    }

    /// The level at a point: each coordinate gives a cell of its permutation,
    /// and the three entries, combined bit by bit with exclusive or, give the
    /// place of the level.
    pub open spec fn noise_spec(&self, p: Point) -> Scalar {
        let i = cell(lattice(p.at(0)) as i32);
        let j = cell(lattice(p.at(1)) as i32);
        let k = cell(lattice(p.at(2)) as i32);
        self.levels()[(self.permutation_x()[i] ^ self.permutation_y()[j]
            ^ self.permutation_z()[k]) as int]
    }

    /// The table with the given levels, and with the three permutations that the
    /// draws make of the indices in their order.
    pub fn from_draws(
        ranfloat: [Scalar; POINT_COUNT],
        draws_x: &Vec<usize>,
        draws_y: &Vec<usize>,
        draws_z: &Vec<usize>,
    ) -> (table: Perlin)
        requires
            draws_fit(draws_x@, POINT_COUNT as int),
            draws_fit(draws_y@, POINT_COUNT as int),
            draws_fit(draws_z@, POINT_COUNT as int),
        ensures
            table.levels() == ranfloat@,
            table.permutation_x() == shuffled(identity(POINT_COUNT as nat), draws_x@, 1),
            table.permutation_y() == shuffled(identity(POINT_COUNT as nat), draws_y@, 1),
            table.permutation_z() == shuffled(identity(POINT_COUNT as nat), draws_z@, 1),
            table.levels().len() == POINT_COUNT,
            table.permutation_x().len() == POINT_COUNT,
            table.permutation_y().len() == POINT_COUNT,
            table.permutation_z().len() == POINT_COUNT,
            is_permutation(table.permutation_x()),
            is_permutation(table.permutation_y()),
            is_permutation(table.permutation_z()),
    {
        let start = Perlin::in_order();
        proof {
            lemma_shuffle(start@, draws_x@);
            lemma_shuffle(start@, draws_y@);
            lemma_shuffle(start@, draws_z@);
        }
        Perlin {
            ranfloat,
            perm_x: Perlin::permute_by(start, POINT_COUNT, draws_x),
            perm_y: Perlin::permute_by(start, POINT_COUNT, draws_y),
            perm_z: Perlin::permute_by(start, POINT_COUNT, draws_z),
        }
    }

    /// The table with the given levels and three fresh random permutations.
    ///
    /// The levels are meant to be drawn uniformly from `[0, 1)`; they are kept
    /// as given. For each permutation one place is drawn for each index, among
    /// the places before it, and the indices are shuffled by these draws. So
    /// each permutation holds every index once, and none at its own place.
    pub fn new(ranfloat: [Scalar; POINT_COUNT]) -> (table: Perlin)
        ensures
            table.levels() == ranfloat@,
            table.levels().len() == POINT_COUNT,
            table.permutation_x().len() == POINT_COUNT,
            table.permutation_y().len() == POINT_COUNT,
            table.permutation_z().len() == POINT_COUNT,
            is_permutation(table.permutation_x()) && moves_all(
                table.permutation_x(),
                POINT_COUNT as int,
            ),
            is_permutation(table.permutation_y()) && moves_all(
                table.permutation_y(),
                POINT_COUNT as int,
            ),
            is_permutation(table.permutation_z()) && moves_all(
                table.permutation_z(),
                POINT_COUNT as int,
            ),
            exists|dx: Seq<usize>, dy: Seq<usize>, dz: Seq<usize>|
                {
                    &&& draws_fit(dx, POINT_COUNT as int)
                    &&& draws_fit(dy, POINT_COUNT as int)
                    &&& draws_fit(dz, POINT_COUNT as int)
                    &&& table.permutation_x() == #[trigger] shuffled(
                        identity(POINT_COUNT as nat),
                        dx,
                        1,
                    )
                    &&& table.permutation_y() == #[trigger] shuffled(
                        identity(POINT_COUNT as nat),
                        dy,
                        1,
                    )
                    &&& table.permutation_z() == #[trigger] shuffled(
                        identity(POINT_COUNT as nat),
                        dz,
                        1,
                    )
                },
    {
        let draws_x = Perlin::draw_targets(POINT_COUNT);
        let draws_y = Perlin::draw_targets(POINT_COUNT);
        let draws_z = Perlin::draw_targets(POINT_COUNT);
        proof {
            lemma_shuffle(identity(POINT_COUNT as nat), draws_x@);
            lemma_shuffle(identity(POINT_COUNT as nat), draws_y@);
            lemma_shuffle(identity(POINT_COUNT as nat), draws_z@);
        }
        Perlin::from_draws(ranfloat, &draws_x, &draws_y, &draws_z)
    }

    /// The level of the table at a point.
    pub fn noise(&self, p: &Point) -> (level: Scalar)
        ensures
            level == self.noise_spec(*p),
            exists|k: int| 0 <= k < POINT_COUNT && level == #[trigger] self.levels()[k],
    {
        proof {
            use_type_invariant(self);
        }
        let i = cell_of(lattice_of(p.get(0)));
        let j = cell_of(lattice_of(p.get(1)));
        let k = cell_of(lattice_of(p.get(2)));
        let a = self.perm_x[i];
        let b = self.perm_y[j];
        let c = self.perm_z[k];
        assert(0 <= (a ^ b ^ c) < 256) by (bit_vector)
            requires
                0 <= a < 256,
                0 <= b < 256,
                0 <= c < 256,
        ;
        assert(self.levels()[(a ^ b ^ c) as int] == self.ranfloat@[(a ^ b ^ c) as int]);
        self.ranfloat[(a ^ b ^ c) as usize]
    }

    /// The indices in their order.
    fn in_order() -> (res: [i32; POINT_COUNT])
        ensures
            res@ == identity(POINT_COUNT as nat),
            is_permutation(res@),
            is_identity(res@, POINT_COUNT as int),
    {
        let mut res = [0i32; POINT_COUNT];
        let mut i: usize = 0;
        while i < POINT_COUNT
            invariant
                i <= POINT_COUNT,
                is_identity(res@, i as int),
            decreases POINT_COUNT - i,
        {
            res[i] = i as i32;
            i += 1;
        }
        assert(res@ =~= identity(POINT_COUNT as nat));
        res
    }

    /// A random permutation of the indices: the indices in their order,
    /// shuffled by fresh draws.
    pub fn perlin_generate_perm() -> (res: [i32; POINT_COUNT])
        ensures
            is_permutation(res@),
            moves_all(res@, POINT_COUNT as int),
            exists|draws: Seq<usize>|
                draws_fit(draws, POINT_COUNT as int) && res@ == #[trigger] shuffled(
                    identity(POINT_COUNT as nat),
                    draws,
                    1,
                ),
    {
        let start = Perlin::in_order();
        let draws = Perlin::draw_targets(POINT_COUNT);
        proof {
            lemma_shuffle(start@, draws@);
        }
        Perlin::permute_by(start, POINT_COUNT, &draws)
    }

    /// One draw for each of `n` places: for each place from the last down to
    /// the second, a place before it, picked at random. The first place has
    /// none before it, and its draw is 0.
    pub fn draw_targets(n: usize) -> (draws: Vec<usize>)
        ensures
            draws_fit(draws@, n as int),
    {
        let mut draws: Vec<usize> = Vec::new();
        let mut k: usize = 0;
        while k < n
            invariant
                k <= n,
                draws@.len() == k,
            decreases n - k,
        {
            draws.push(0);
            k += 1;
        }
        let mut i: usize = n;
        while i > 1
            invariant
                i <= n,
                draws@.len() == n,
                forall|k: int| i <= k < n ==> #[trigger] draws@[k] < k,
            decreases i,
        {
            i -= 1;
            let target = random_below(i);
            draws[i] = target;
        }
        draws
    }

    /// Shuffles the first `n` entries by fresh draws: from the last of them down
    /// to the second, each changes places with an entry before it, picked at
    /// random.
    pub fn permute(p: [i32; POINT_COUNT], n: usize) -> (res: [i32; POINT_COUNT])
        requires
            n <= POINT_COUNT,
        ensures
            exists|draws: Seq<usize>|
                draws_fit(draws, n as int) && res@ == #[trigger] shuffled(p@, draws, 1),
            forall|k: int| n <= k < POINT_COUNT ==> res@[k] == p@[k],
            res@.subrange(0, n as int).to_multiset() == p@.subrange(0, n as int).to_multiset(),
            is_permutation(p@) ==> is_permutation(res@),
            is_identity(p@, n as int) && n >= 2 ==> moves_all(res@, n as int),
    {
        let draws = Perlin::draw_targets(n);
        proof {
            lemma_shuffle(p@, draws@);
        }
        Perlin::permute_by(p, n, &draws)
    }

    /// Shuffles the first `n` entries by the given draws: from the last of them
    /// down to the second, each changes places with the entry that its draw
    /// names.
    pub fn permute_by(p: [i32; POINT_COUNT], n: usize, draws: &Vec<usize>) -> (res: [i32;
        POINT_COUNT])
        requires
            n <= POINT_COUNT,
            draws_fit(draws@, n as int),
        ensures
            res@ == shuffled(p@, draws@, 1),
    {
        let mut q = p;
        let mut i: usize = n;
        while i > 1
            invariant
                i <= n <= POINT_COUNT,
                draws_fit(draws@, n as int),
                n >= 1 ==> i >= 1,
                q@ == shuffled(p@, draws@, if i >= 1 { i as int } else { 1 }),
            decreases i,
        {
            i -= 1;
            q = exchange(q, i, draws[i]);
        }
        q
    }
}

} // verus!
