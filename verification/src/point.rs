//! Points of ternary space: vectors of `Ternary` values, their neighbours and distances.
use vstd::prelude::*;

use crate::rng::{lcg_iter, lcg_next};
use crate::ternary::{all_values, Ternary};

verus! {

/// A point in ternary space (vector of Ternary values).
#[derive(Clone, PartialEq, Eq, Debug)]
pub struct TernaryPoint {
    coords: Vec<Ternary>,
}

impl View for TernaryPoint {
    type V = Seq<Ternary>;

    closed spec fn view(&self) -> Seq<Ternary> {
        self.coords@
    }
}

/// The `j`-th (`j` is 0 or 1) of the two ternary values other than `t`, in the order of
/// `all_values()`.
pub open spec fn alternative(t: Ternary, j: int) -> Ternary {
    if j == 0 {
        if t == Ternary::Neg {
            Ternary::Zero
        } else {
            Ternary::Neg
        }
    } else {
        if t == Ternary::Pos {
            Ternary::Zero
        } else {
            Ternary::Pos
        }
    }
}

/// The `k`-th neighbour of `p`: coordinate `k / 2` replaced by its `(k % 2)`-th alternative.
pub open spec fn neighbor(p: Seq<Ternary>, k: int) -> Seq<Ternary> {
    p.update(k / 2, alternative(p[k / 2], k % 2))
}

/// Number of positions below `n` at which `a` and `b` differ.
pub open spec fn hamming_upto(a: Seq<Ternary>, b: Seq<Ternary>, n: nat) -> nat
    decreases n,
{
    if n == 0 {
        0
    } else {
        hamming_upto(a, b, (n - 1) as nat) + if a[n - 1] != b[n - 1] {
            1nat
        } else {
            0nat
        }
    }
}

/// The shorter of two lengths.
pub open spec fn min_len(a: Seq<Ternary>, b: Seq<Ternary>) -> nat {
    if a.len() <= b.len() {
        a.len()
    } else {
        b.len()
    }
}

/// Hamming distance over the common prefix of `a` and `b`.
pub open spec fn hamming(a: Seq<Ternary>, b: Seq<Ternary>) -> nat {
    hamming_upto(a, b, min_len(a, b))
}

/// The ternary value drawn from generator state `s`: `all_values()[(s >> 33) % 3]`.
pub open spec fn trit_of_state(s: u64) -> Ternary {
    all_values()[((s >> 33u64) % 3) as int]
}

/// The point of dimension `dim` drawn from `seed`: coordinate `k` comes from the state after
/// `k + 1` steps of the generator.
pub open spec fn random_coords(dim: nat, seed: u64) -> Seq<Ternary> {
    Seq::new(dim, |k: int| trit_of_state(lcg_iter(seed, (k + 1) as nat)))
}

/// Every integer in `s` is -1, 0 or 1.
pub open spec fn all_ternary_values(s: Seq<i8>) -> bool {
    forall|i: int| 0 <= i < s.len() ==> -1 <= #[trigger] s[i] <= 1
}

/// The two ternary values other than `t`, in the order of `all_values()`.
pub(crate) fn alternatives(t: Ternary) -> (r: (Ternary, Ternary))
    ensures
        r.0 == alternative(t, 0),
        r.1 == alternative(t, 1),
{
    match t {
        Ternary::Neg => (Ternary::Zero, Ternary::Pos),
        Ternary::Zero => (Ternary::Neg, Ternary::Pos),
        Ternary::Pos => (Ternary::Neg, Ternary::Zero),
    }
}

/// A copy of a vector of ternary values.
fn copy_coords(v: &Vec<Ternary>) -> (r: Vec<Ternary>)
    ensures
        r@ == v@,
{
    let mut r: Vec<Ternary> = Vec::with_capacity(v.len());
    for i in 0..v.len()
        invariant
            r@ == v@.subrange(0, i as int),
    {
        r.push(v[i]);
    }
    assert(r@ =~= v@);
    r
}

impl TernaryPoint {
    pub fn new(coords: Vec<Ternary>) -> (r: Self)
        ensures
            r@ == coords@,
    {
        TernaryPoint { coords }
    }

    /// The point whose coordinates stand for the integers of `slice`; `None` if one of them is
    /// not -1, 0 or 1.
    pub fn from_i8_slice(slice: &[i8]) -> (r: Option<Self>)
        ensures
            r is Some <==> all_ternary_values(slice@),
            r matches Some(p) ==> p@.len() == slice@.len() && forall|i: int|
                0 <= i < slice@.len() ==> (#[trigger] p@[i]).value() == slice@[i],
    {
        let mut coords: Vec<Ternary> = Vec::with_capacity(slice.len());
        for i in 0..slice.len()
            invariant
                coords@.len() == i,
                forall|j: int| 0 <= j < i ==> -1 <= #[trigger] slice@[j] <= 1,
                forall|j: int| 0 <= j < i ==> (#[trigger] coords@[j]).value() == slice@[j],
        {
            match Ternary::from_i8(slice[i]) {
                Some(t) => coords.push(t),
                None => {
                    assert(!(-1 <= slice@[i as int] <= 1));
                    return None;
                },
            }
        }
        Some(Self::new(coords))
    }

    pub fn dim(&self) -> (r: usize)
        ensures
            r == self@.len(),
    {
        self.coords.len()
    }

    pub fn coords(&self) -> (r: &[Ternary])
        ensures
            r@ == self@,
    {
        self.coords.as_slice()
    }

    pub fn get(&self, i: usize) -> (r: Option<Ternary>)
        ensures
            r == (if i < self@.len() {
                Some(self@[i as int])
            } else {
                None
            }),
    {
        if i < self.coords.len() {
            Some(self.coords[i])
        } else {
            None
        }
    }

    /// Set coordinate `i` to `v`; an index out of range leaves the point unchanged.
    pub fn set(&mut self, i: usize, v: Ternary)
        ensures
            final(self)@ == (if i < old(self)@.len() {
                old(self)@.update(i as int, v)
            } else {
                old(self)@
            }),
    {
        if i < self.coords.len() {
            self.coords.set(i, v);
        }
    }

    /// Append a coordinate.
    pub(crate) fn push(&mut self, v: Ternary)
        ensures
            final(self)@ == old(self)@.push(v),
    {
        self.coords.push(v);
    }

    /// A copy of the point.
    pub(crate) fn copy(&self) -> (r: Self)
        ensures
            r@ == self@,
    {
        TernaryPoint { coords: copy_coords(&self.coords) }
    }

    /// All neighboring points that differ in exactly one coordinate.
    pub fn neighbors(&self) -> (r: Vec<TernaryPoint>)
        ensures
            r@.len() == 2 * self@.len(),
            forall|k: int| 0 <= k < r@.len() ==> (#[trigger] r@[k])@ == neighbor(self@, k),
    {
        let mut result: Vec<TernaryPoint> = Vec::new();
        let n = self.coords.len();
        for i in 0..n
            invariant
                n == self@.len(),
                result@.len() == 2 * i,
                forall|k: int| 0 <= k < result@.len() ==> (#[trigger] result@[k])@ == neighbor(self@, k),
        {
            let (a, b) = alternatives(self.coords[i]);
            let mut first = copy_coords(&self.coords);
            first.set(i, a);
            let mut second = copy_coords(&self.coords);
            second.set(i, b);
            proof {
                let k0 = 2 * i as int;
                assert(k0 / 2 == i && k0 % 2 == 0);
                assert((k0 + 1) / 2 == i && (k0 + 1) % 2 == 1);
                assert(first@ =~= neighbor(self@, k0));
                assert(second@ =~= neighbor(self@, k0 + 1));
            }
            result.push(TernaryPoint { coords: first });
            result.push(TernaryPoint { coords: second });
        }
        result
    }

    /// Hamming distance to another point.
    pub fn hamming_distance(&self, other: &TernaryPoint) -> (r: usize)
        ensures
            r == hamming(self@, other@),
    {
        let n = if self.coords.len() <= other.coords.len() {
            self.coords.len()
        } else {
            other.coords.len()
        };
        let mut count: usize = 0;
        for i in 0..n
            invariant
                n == min_len(self@, other@),
                n <= self@.len(),
                n <= other@.len(),
                count == hamming_upto(self@, other@, i as nat),
                count <= i,
        {
            if self.coords[i] != other.coords[i] {
                count = count + 1;
            }
        }
        count
    }

    /// Random point (seeded by a simple hash of seed).
    pub fn random(dim: usize, seed: u64) -> (r: Self)
        ensures
            r@ == random_coords(dim as nat, seed),
    {
        let mut s = seed;
        let mut coords: Vec<Ternary> = Vec::with_capacity(dim);
        for k in 0..dim
            invariant
                coords@.len() == k,
                s == lcg_iter(seed, k as nat),
                forall|j: int|
                    0 <= j < k ==> #[trigger] coords@[j] == trit_of_state(
                        lcg_iter(seed, (j + 1) as nat),
                    ),
        {
            s = lcg_next(s);
            let idx = ((s >> 33u64) % 3) as usize;
            let all = Ternary::all();
            coords.push(all[idx]);
        }
        assert(coords@ =~= random_coords(dim as nat, seed));
        Self::new(coords)
    }
}

/// Changing position `k` of `p` to `v` changes the count of differing positions below `n` by
/// one exactly when `k < n` and `v` differs from `p[k]`.
proof fn lemma_hamming_upto_update(p: Seq<Ternary>, k: int, v: Ternary, n: nat)
    requires
        0 <= k < p.len(),
        n <= p.len(),
    ensures
        hamming_upto(p, p.update(k, v), n) == (if k < n && v != p[k] {
            1nat
        } else {
            0nat
        }),
    decreases n,
{
    if n > 0 {
        lemma_hamming_upto_update(p, k, v, (n - 1) as nat);
    }
}

/// No differing position below `n` means equality below `n`.
proof fn lemma_hamming_upto_zero(a: Seq<Ternary>, b: Seq<Ternary>, n: nat)
    requires
        n <= a.len(),
        n <= b.len(),
    ensures
        hamming_upto(a, b, n) == 0 <==> forall|i: int| 0 <= i < n ==> a[i] == b[i],
    decreases n,
{
    if n > 0 {
        lemma_hamming_upto_zero(a, b, (n - 1) as nat);
    }
}

/// Exactly one differing position below `n` has a witness, and all other positions agree.
proof fn lemma_hamming_upto_one(a: Seq<Ternary>, b: Seq<Ternary>, n: nat) -> (i: int)
    requires
        n <= a.len(),
        n <= b.len(),
        hamming_upto(a, b, n) == 1,
    ensures
        0 <= i < n,
        a[i] != b[i],
        forall|j: int| 0 <= j < n && j != i ==> a[j] == b[j],
    decreases n,
{
    if a[n - 1] != b[n - 1] {
        lemma_hamming_upto_zero(a, b, (n - 1) as nat);
        n - 1
    } else {
        lemma_hamming_upto_one(a, b, (n - 1) as nat)
    }
}

/// The count of differing positions is symmetric.
proof fn lemma_hamming_upto_symmetric(a: Seq<Ternary>, b: Seq<Ternary>, n: nat)
    ensures
        hamming_upto(a, b, n) == hamming_upto(b, a, n),
    decreases n,
{
    if n > 0 {
        lemma_hamming_upto_symmetric(a, b, (n - 1) as nat);
    }
}

/// The count of differing positions obeys the triangle inequality.
proof fn lemma_hamming_upto_triangle(a: Seq<Ternary>, b: Seq<Ternary>, c: Seq<Ternary>, n: nat)
    ensures
        hamming_upto(a, c, n) <= hamming_upto(a, b, n) + hamming_upto(b, c, n),
    decreases n,
{
    if n > 0 {
        lemma_hamming_upto_triangle(a, b, c, (n - 1) as nat);
    }
}

/// The count of differing positions below `n` is at most `n`.
proof fn lemma_hamming_upto_bound(a: Seq<Ternary>, b: Seq<Ternary>, n: nat)
    ensures
        hamming_upto(a, b, n) <= n,
    decreases n,
{
    if n > 0 {
        lemma_hamming_upto_bound(a, b, (n - 1) as nat);
    }
}

/// Hamming distance is a metric on points of one dimension: it is symmetric, zero exactly
/// between equal points, obeys the triangle inequality, and never exceeds the dimension.
pub proof fn lemma_hamming_metric(a: Seq<Ternary>, b: Seq<Ternary>, c: Seq<Ternary>)
    requires
        a.len() == b.len(),
        b.len() == c.len(),
    ensures
        hamming(a, b) == hamming(b, a),
        hamming(a, b) == 0 <==> a == b,
        hamming(a, c) <= hamming(a, b) + hamming(b, c),
        hamming(a, b) <= a.len(),
{
    lemma_hamming_upto_symmetric(a, b, a.len());
    lemma_hamming_upto_zero(a, b, a.len());
    lemma_hamming_upto_triangle(a, b, c, a.len());
    lemma_hamming_upto_bound(a, b, a.len());
    if hamming(a, b) == 0 {
        assert(a =~= b);
    }
}

/// Each of the `2n` neighbours of a point has its dimension and lies at Hamming distance 1.
pub proof fn lemma_neighbor_distance_one(p: Seq<Ternary>, k: int)
    requires
        0 <= k < 2 * p.len(),
    ensures
        neighbor(p, k).len() == p.len(),
        hamming(p, neighbor(p, k)) == 1,
{
    lemma_hamming_upto_update(p, k / 2, alternative(p[k / 2], k % 2), p.len());
}

/// The neighbours of a point are pairwise distinct.
pub proof fn lemma_neighbors_distinct(p: Seq<Ternary>, k1: int, k2: int)
    requires
        0 <= k1 < 2 * p.len(),
        0 <= k2 < 2 * p.len(),
        k1 != k2,
    ensures
        neighbor(p, k1) != neighbor(p, k2),
{
    let (i1, i2) = (k1 / 2, k2 / 2);
    if i1 == i2 {
        assert(neighbor(p, k1)[i1] != neighbor(p, k2)[i1]);
    } else {
        assert(neighbor(p, k1)[i1] != neighbor(p, k2)[i1]);
    }
}

/// Every point of the same dimension at Hamming distance 1 is one of the neighbours.
pub proof fn lemma_neighbors_complete(p: Seq<Ternary>, q: Seq<Ternary>) -> (k: int)
    requires
        q.len() == p.len(),
        hamming(p, q) == 1,
    ensures
        0 <= k < 2 * p.len(),
        neighbor(p, k) == q,
{
    let i = lemma_hamming_upto_one(p, q, p.len());
    let j: int = if q[i] == alternative(p[i], 0) {
        0
    } else {
        1
    };
    let k = 2 * i + j;
    assert(k / 2 == i && k % 2 == j);
    assert(neighbor(p, k) =~= q);
    k
}

/// Setting a coordinate and reading it back gives the value written; other coordinates keep
/// theirs.
pub proof fn lemma_set_then_get(p: Seq<Ternary>, i: int, v: Ternary, j: int)
    requires
        0 <= i < p.len(),
        0 <= j < p.len(),
    ensures
        p.update(i, v).len() == p.len(),
        p.update(i, v)[i] == v,
        j != i ==> p.update(i, v)[j] == p[j],
{
}

/// Hamming distance counts differing positions: it is zero against an empty point, and
/// extending both points by one coordinate adds one exactly when the two new coordinates
/// differ.
pub proof fn lemma_hamming_counts_differences(a: Seq<Ternary>, b: Seq<Ternary>, x: Ternary, y: Ternary)
    ensures
        hamming(Seq::empty(), b) == 0,
        hamming(a, Seq::empty()) == 0,
        a.len() == b.len() ==> hamming(a.push(x), b.push(y)) == hamming(a, b) + if x != y {
            1nat
        } else {
            0nat
        },
{
    if a.len() == b.len() {
        let (a2, b2) = (a.push(x), b.push(y));
        lemma_hamming_upto_prefix(a, b, a2, b2, a.len());
        assert(min_len(a2, b2) == a.len() + 1);
    }
}

/// The count of differing positions below `n` looks only at those positions.
proof fn lemma_hamming_upto_prefix(
    a: Seq<Ternary>,
    b: Seq<Ternary>,
    a2: Seq<Ternary>,
    b2: Seq<Ternary>,
    n: nat,
)
    requires
        n <= a.len(),
        n <= b.len(),
        n <= a2.len(),
        n <= b2.len(),
        forall|i: int| 0 <= i < n ==> a[i] == a2[i] && b[i] == b2[i],
    ensures
        hamming_upto(a2, b2, n) == hamming_upto(a, b, n),
    decreases n,
{
    if n > 0 {
        lemma_hamming_upto_prefix(a, b, a2, b2, (n - 1) as nat);
    }
}

} // verus!
