//! Exhaustive fitness landscapes: every point of a dimension, indexed in base 3.
//!
//! The points of dimension `d` are numbered `0 .. 3^d` by reading their coordinates as base-3
//! digits (`Neg` = 0, `Zero` = 1, `Pos` = 2), the first coordinate most significant. A
//! landscape holds one score per point, at the point's number.
use vstd::prelude::*;

use crate::point::{neighbor, TernaryPoint};
use crate::search::{
    ascend, ascent_move, is_peak, lemma_ascend_settles, lemma_ascend_succ, lemma_ascent_move, scores_around,
};
use crate::score::{
    at_least, beats, computes, first_best, is_at_least, is_better, scored_by, select_improving, Score,
};
use crate::ternary::{all_values, Ternary};

verus! {

/// `3^n`.
pub open spec fn pow3(n: nat) -> nat
    decreases n,
{
    if n == 0 {
        1
    } else {
        3 * pow3((n - 1) as nat)
    }
}

/// The base-3 digit of a value: `Neg` = 0, `Zero` = 1, `Pos` = 2.
pub open spec fn digit(t: Ternary) -> nat {
    match t {
        Ternary::Neg => 0,
        Ternary::Zero => 1,
        Ternary::Pos => 2,
    }
}

/// The number whose base-3 digits are the coordinates of `p`, first coordinate most
/// significant.
pub open spec fn horner(p: Seq<Ternary>) -> nat
    decreases p.len(),
{
    if p.len() == 0 {
        0
    } else {
        horner(p.drop_last()) * 3 + digit(p.last())
    }
}

/// The index of `p` in a landscape of dimension `dim`: coordinate `i` weighs
/// `3^(dim - 1 - i)`. For a point of dimension `dim` this is `horner(p)`.
pub open spec fn index_in(dim: nat, p: Seq<Ternary>) -> nat {
    horner(p) * pow3((dim - p.len()) as nat)
}

/// The point of dimension `dim` whose base-3 digits are the `dim` lowest digits of `idx`.
pub open spec fn point_of_index(dim: nat, idx: nat) -> Seq<Ternary>
    decreases dim,
{
    if dim == 0 {
        Seq::empty()
    } else {
        point_of_index((dim - 1) as nat, idx / 3).push(all_values()[(idx % 3) as int])
    }
}

/// `3^n` is positive.
pub proof fn lemma_pow3_pos(n: nat)
    ensures
        pow3(n) >= 1,
    decreases n,
{
    if n > 0 {
        lemma_pow3_pos((n - 1) as nat);
    }
}

/// `3^n` grows with `n`.
pub proof fn lemma_pow3_monotone(a: nat, b: nat)
    requires
        a <= b,
    ensures
        pow3(a) <= pow3(b),
    decreases b,
{
    if a < b {
        lemma_pow3_monotone(a, (b - 1) as nat);
        lemma_pow3_pos((b - 1) as nat);
    }
}

/// The number of a point of dimension `n` is below `3^n`.
pub proof fn lemma_horner_bound(p: Seq<Ternary>)
    ensures
        horner(p) < pow3(p.len()),
    decreases p.len(),
{
    if p.len() > 0 {
        lemma_horner_bound(p.drop_last());
    }
}

/// The point of an index has the requested dimension.
pub proof fn lemma_point_of_index_len(dim: nat, idx: nat)
    ensures
        point_of_index(dim, idx).len() == dim,
    decreases dim,
{
    if dim > 0 {
        lemma_point_of_index_len((dim - 1) as nat, idx / 3);
    }
}

/// Numbering the point of an index below `3^dim` gives the index back.
pub proof fn lemma_index_round_trip(dim: nat, idx: nat)
    requires
        idx < pow3(dim),
    ensures
        horner(point_of_index(dim, idx)) == idx,
        index_in(dim, point_of_index(dim, idx)) == idx,
    decreases dim,
{
    lemma_point_of_index_len(dim, idx);
    if dim > 0 {
        lemma_index_round_trip((dim - 1) as nat, idx / 3);
        let prefix = point_of_index((dim - 1) as nat, idx / 3);
        let p = point_of_index(dim, idx);
        assert(p.drop_last() =~= prefix);
    }
    let p = point_of_index(dim, idx);
    assert(pow3((dim - p.len()) as nat) == 1);
    assert(index_in(dim, p) == horner(p) * 1);
}

/// Taking the point of a point's number gives the point back.
pub proof fn lemma_point_round_trip(p: Seq<Ternary>)
    ensures
        point_of_index(p.len(), horner(p)) == p,
    decreases p.len(),
{
    if p.len() > 0 {
        let h = horner(p.drop_last());
        let d = digit(p.last());
        assert((h * 3 + d) / 3 == h);
        assert((h * 3 + d) % 3 == d);
        lemma_point_round_trip(p.drop_last());
        assert(all_values()[d as int] == p.last());
        assert(point_of_index(p.len(), horner(p)) =~= p);
    }
}

/// Distinct points of one dimension have distinct numbers.
pub proof fn lemma_index_injective(p: Seq<Ternary>, q: Seq<Ternary>)
    requires
        p.len() == q.len(),
        horner(p) == horner(q),
    ensures
        p == q,
{
    lemma_point_round_trip(p);
    lemma_point_round_trip(q);
}

/// The base-3 digit of a value.
fn digit_of(t: Ternary) -> (r: usize)
    ensures
        r == digit(t),
{
    match t {
        Ternary::Neg => 0,
        Ternary::Zero => 1,
        Ternary::Pos => 2,
    }
}

/// The coordinates of the point with number `idx` in dimension `dim`.
fn digits_of(dim: usize, idx: usize) -> (r: Vec<Ternary>)
    ensures
        r@ == point_of_index(dim as nat, idx as nat),
    decreases dim,
{
    if dim == 0 {
        Vec::new()
    } else {
        let mut v = digits_of(dim - 1, idx / 3);
        let all = Ternary::all();
        v.push(all[idx % 3]);
        v
    }
}

/// The point with number `idx` in dimension `dim`.
pub fn point_at(dim: usize, idx: usize) -> (r: TernaryPoint)
    ensures
        r@ == point_of_index(dim as nat, idx as nat),
        r@.len() == dim,
        idx < pow3(dim as nat) ==> index_in(dim as nat, r@) == idx,
{
    proof {
        lemma_point_of_index_len(dim as nat, idx as nat);
        if idx < pow3(dim as nat) {
            lemma_index_round_trip(dim as nat, idx as nat);
        }
    }
    TernaryPoint::new(digits_of(dim, idx))
}

/// All points of dimension `dim`, in the order of their numbers: `Neg` before `Zero` before
/// `Pos`, first coordinate most significant.
pub fn all_points(dim: usize) -> (r: Vec<TernaryPoint>)
    requires
        pow3(dim as nat) <= usize::MAX,
    ensures
        r@.len() == pow3(dim as nat),
        forall|i: int| 0 <= i < r@.len() ==> (#[trigger] r@[i])@ == point_of_index(dim as nat, i as nat),
{
    let mut total: usize = 1;
    for k in 0..dim
        invariant
            total == pow3(k as nat),
            pow3(dim as nat) <= usize::MAX,
    {
        proof {
            lemma_pow3_monotone((k + 1) as nat, dim as nat);
        }
        total = total * 3;
    }
    let mut result: Vec<TernaryPoint> = Vec::with_capacity(total);
    for idx in 0..total
        invariant
            result@.len() == idx,
            forall|i: int| 0 <= i < idx ==> (#[trigger] result@[i])@ == point_of_index(dim as nat, i as nat),
    {
        result.push(point_at(dim, idx));
    }
    result
}

/// A landscape of dimension `dim` with one score per point, at the point's number.
pub struct ScoreLandscape {
    dim: usize,
    scores: Vec<Score>,
}

/// The maximum of the scores sits at `k`, and no later position holds it.
pub open spec fn is_last_max(scores: Seq<Score>, k: int) -> bool {
    &&& 0 <= k < scores.len()
    &&& forall|j: int| 0 <= j < scores.len() ==> !beats(#[trigger] scores[j], scores[k])
    &&& forall|j: int| k < j < scores.len() ==> beats(scores[k], #[trigger] scores[j])
}

/// Every score is present.
pub open spec fn all_present(scores: Seq<Score>) -> bool {
    forall|i: int| 0 <= i < scores.len() ==> (#[trigger] scores[i]) is Some
}

impl ScoreLandscape {
    /// The dimension of the points.
    pub closed spec fn dimension(&self) -> nat {
        self.dim as nat
    }

    /// The scores, indexed by point number.
    pub closed spec fn score_table(&self) -> Seq<Score> {
        self.scores@
    }

    /// There is one score for each of the `3^dim` points.
    pub open spec fn wf(&self) -> bool {
        self.score_table().len() == pow3(self.dimension())
    }

    /// The score of point `p`.
    pub open spec fn score_of(&self, p: Seq<Ternary>) -> Score {
        self.score_table()[index_in(self.dimension(), p) as int]
    }

    /// The scoring of points by this landscape.
    pub open spec fn score_fn(&self) -> spec_fn(Seq<Ternary>) -> Score {
        |q: Seq<Ternary>| self.score_of(q)
    }

    /// No neighbour of `p` has a strictly greater score.
    pub open spec fn is_local_optimum(&self, p: Seq<Ternary>) -> bool {
        is_peak(self.score_fn(), p)
    }

    /// The point reached from `p` by at most `steps` moves, each to the first neighbour with
    /// the greatest score when that score beats the current one.
    pub open spec fn climb(&self, p: Seq<Ternary>, steps: nat) -> Seq<Ternary> {
        ascend(self.score_fn(), p, steps)
    }

    /// The number of local optima among the points numbered below `n`.
    pub open spec fn count_optima_upto(&self, n: nat) -> nat
        decreases n,
    {
        if n == 0 {
            0
        } else {
            self.count_optima_upto((n - 1) as nat) + if self.is_local_optimum(
                point_of_index(self.dimension(), (n - 1) as nat),
            ) {
                1nat
            } else {
                0nat
            }
        }
    }

    /// Create a landscape from one score per point, indexed by point number.
    pub fn new(dim: usize, scores: Vec<Score>) -> (r: Self)
        requires
            scores@.len() == pow3(dim as nat),
        ensures
            r.wf(),
            r.dimension() == dim,
            r.score_table() == scores@,
    {
        ScoreLandscape { dim, scores }
    }

    /// Build by exhaustive evaluation of a fitness function: every point of dimension `dim` is
    /// scored once, in the order of the point numbers.
    pub fn from_fn<F: Fn(&TernaryPoint) -> Score>(dim: usize, fitness: &F) -> (r: Self)
        requires
            pow3(dim as nat) <= usize::MAX,
            forall|p: &TernaryPoint| fitness.requires((p,)),
        ensures
            r.wf(),
            r.dimension() == dim,
            forall|i: int|
                0 <= i < r.score_table().len() ==> scored_by(
                    fitness,
                    point_of_index(dim as nat, i as nat),
                    #[trigger] r.score_table()[i],
                ),
            forall|g: spec_fn(Seq<Ternary>) -> Score| #[trigger] computes(fitness, g) ==> forall|i: int|
                0 <= i < r.score_table().len() ==> #[trigger] r.score_table()[i] == g(
                    point_of_index(dim as nat, i as nat),
                ),
    {
        let points = all_points(dim);
        let mut scores: Vec<Score> = Vec::with_capacity(points.len());
        for k in 0..points.len()
            invariant
                forall|p: &TernaryPoint| fitness.requires((p,)),
                scores@.len() == k,
                forall|m: int| 0 <= m < k ==> fitness.ensures((&points@[m],), #[trigger] scores@[m]),
        {
            scores.push(fitness(&points[k]));
        }
        let r = Self::new(dim, scores);
        assert forall|i: int| 0 <= i < r.score_table().len() implies scored_by(
            fitness,
            point_of_index(dim as nat, i as nat),
            #[trigger] r.score_table()[i],
        ) by {
            assert(points@[i]@ == point_of_index(dim as nat, i as nat));
            assert(fitness.ensures((&points@[i],), r.score_table()[i]));
        }
        assert forall|g: spec_fn(Seq<Ternary>) -> Score| #[trigger] computes(fitness, g) implies forall|i: int|
            0 <= i < r.score_table().len() ==> #[trigger] r.score_table()[i] == g(
                point_of_index(dim as nat, i as nat),
            ) by {
            assert forall|i: int| 0 <= i < r.score_table().len() implies #[trigger] r.score_table()[i]
                == g(point_of_index(dim as nat, i as nat)) by {
                assert(fitness.ensures((&points@[i],), r.score_table()[i]));
            }
        }
        r
    }

    /// The dimension of the points.
    pub fn dim(&self) -> (r: usize)
        ensures
            r == self.dimension(),
    {
        self.dim
    }

    /// The number of `point` in this landscape: coordinate `i` weighs `3^(dim - 1 - i)`.
    pub fn index_of(&self, point: &TernaryPoint) -> (r: usize)
        requires
            self.wf(),
            point@.len() <= self.dimension(),
        ensures
            r == index_in(self.dimension(), point@),
            r < self.score_table().len(),
    {
        let n = point.dim();
        let coords = point.coords();
        let ghost p = point@;
        let len = self.scores.len();
        let mut h: usize = 0;
        for i in 0..n
            invariant
                n == p.len(),
                coords@ == p,
                n <= self.dim,
                len == pow3(self.dim as nat),
                h == horner(p.subrange(0, i as int)),
                h < pow3(i as nat),
        {
            proof {
                assert(p.subrange(0, i + 1).drop_last() =~= p.subrange(0, i as int));
                lemma_pow3_monotone((i + 1) as nat, self.dim as nat);
                assert(pow3((i + 1) as nat) == 3 * pow3(i as nat));
            }
            h = h * 3 + digit_of(coords[i]);
        }
        assert(p.subrange(0, n as int) =~= p);
        assert(pow3(0) == 1);
        assert(h == horner(p) * pow3(0));
        let mut j = n;
        while j < self.dim
            invariant
                n <= j <= self.dim,
                n == p.len(),
                len == pow3(self.dim as nat),
                h == horner(p) * pow3((j - n) as nat),
                h < pow3(j as nat),
            decreases self.dim - j,
        {
            proof {
                lemma_pow3_monotone((j + 1) as nat, self.dim as nat);
                let a = horner(p);
                let b = pow3((j - n) as nat);
                assert(a * b * 3 == a * (3 * b)) by (nonlinear_arith);
                assert(pow3((j + 1 - n) as nat) == 3 * b);
                assert(pow3((j + 1) as nat) == 3 * pow3(j as nat));
            }
            h = h * 3;
            j = j + 1;
        }
        h
    }

    /// The score of `point`.
    pub fn evaluate(&self, point: &TernaryPoint) -> (r: Score)
        requires
            self.wf(),
            point@.len() <= self.dimension(),
        ensures
            r == self.score_of(point@),
    {
        let idx = self.index_of(point);
        self.scores[idx]
    }

    /// The point with the greatest score and that score; of equal maxima, the one with the
    /// greatest number.
    pub fn global_optimum(&self) -> (r: (TernaryPoint, Score))
        requires
            self.wf(),
            self.score_table().len() == 1 || all_present(self.score_table()),
        ensures
            r.0@.len() == self.dimension(),
            is_last_max(self.score_table(), index_in(self.dimension(), r.0@) as int),
            r.1 == self.score_of(r.0@),
    {
        proof {
            lemma_pow3_pos(self.dim as nat);
        }
        let n = self.scores.len();
        let mut best_idx: usize = 0;
        let mut best = self.scores[0];
        for i in 1..n
            invariant
                n == self.scores@.len(),
                n >= 1,
                n == 1 || all_present(self.scores@),
                best_idx < i,
                best == self.scores@[best_idx as int],
                forall|j: int| 0 <= j < i ==> !beats(#[trigger] self.scores@[j], best),
                forall|j: int| best_idx < j < i ==> beats(best, #[trigger] self.scores@[j]),
        {
            if is_at_least(self.scores[i], best) {
                best_idx = i;
                best = self.scores[i];
            }
        }
        let point = point_at(self.dim, best_idx);
        (point, best)
    }

    /// Whether no neighbour of `point` has a strictly greater score.
    fn has_no_better_neighbor(&self, point: &TernaryPoint) -> (r: bool)
        requires
            self.wf(),
            point@.len() <= self.dimension(),
        ensures
            r == self.is_local_optimum(point@),
    {
        let val = self.evaluate(point);
        let ns = point.neighbors();
        for k in 0..ns.len()
            invariant
                self.wf(),
                point@.len() <= self.dimension(),
                ns@.len() == 2 * point@.len(),
                forall|m: int| 0 <= m < ns@.len() ==> (#[trigger] ns@[m])@ == neighbor(point@, m),
                val == self.score_of(point@),
                forall|m: int| 0 <= m < k ==> !beats(#[trigger] self.score_of(neighbor(point@, m)), val),
        {
            let f = self.evaluate(&ns[k]);
            if is_better(f, val) {
                assert(self.score_fn()(neighbor(point@, k as int)) == f);
                assert(self.score_fn()(point@) == val);
                return false;
            }
        }
        true
    }

    /// The scores of the neighbours of `point`, in the order of `neighbors`.
    fn scores_of(&self, ns: &Vec<TernaryPoint>) -> (r: Vec<Score>)
        requires
            self.wf(),
            forall|m: int| 0 <= m < ns@.len() ==> (#[trigger] ns@[m])@.len() <= self.dimension(),
        ensures
            r@.len() == ns@.len(),
            forall|m: int| 0 <= m < ns@.len() ==> #[trigger] r@[m] == self.score_of(ns@[m]@),
    {
        let mut r: Vec<Score> = Vec::with_capacity(ns.len());
        for k in 0..ns.len()
            invariant
                self.wf(),
                forall|m: int| 0 <= m < ns@.len() ==> (#[trigger] ns@[m])@.len() <= self.dimension(),
                r@.len() == k,
                forall|m: int| 0 <= m < k ==> #[trigger] r@[m] == self.score_of(ns@[m]@),
        {
            r.push(self.evaluate(&ns[k]));
        }
        r
    }

    /// Traverse from start along steepest ascent until a local optimum: the climb from `start`
    /// continued until no neighbour scores strictly higher.
    pub fn steepest_ascent(&self, start: &TernaryPoint) -> (r: (TernaryPoint, Score))
        requires
            self.wf(),
            start@.len() <= self.dimension(),
        ensures
            r.0@.len() == start@.len(),
            self.is_local_optimum(r.0@),
            r.1 == self.score_of(r.0@),
            exists|k: nat|
                #[trigger] self.climb(start@, k) == r.0@ && forall|n: nat|
                    n >= k ==> #[trigger] self.climb(start@, n) == r.0@,
    {
        let mut current = start.copy();
        let mut current_fit = self.evaluate(&current);
        let ghost mut moves: nat = 0;
        loop
            invariant_except_break
                self.wf(),
                current@.len() == start@.len(),
                start@.len() <= self.dimension(),
                current_fit == self.score_of(current@),
                self.climb(start@, moves) == current@,
            ensures
                current@.len() == start@.len(),
                current_fit == self.score_of(current@),
                self.climb(start@, moves) == current@,
                self.is_local_optimum(current@),
            decreases match current_fit {
                Some(v) => u64::MAX - v,
                None => 0,
            },
        {
            let ns = current.neighbors();
            let scores = self.scores_of(&ns);
            proof {
                assert(scores@ =~= scores_around(self.score_fn(), current@));
                assert(self.score_fn()(current@) == current_fit);
                lemma_ascent_move(self.score_fn(), current@);
                lemma_ascend_succ(self.score_fn(), start@, moves);
            }
            match select_improving(current_fit, &scores) {
                None => {
                    break;
                },
                Some(k) => {
                    proof {
                        assert(ascent_move(self.score_fn(), current@) == Some(k as int));
                        assert(ascend(self.score_fn(), neighbor(current@, k as int), 0) == neighbor(
                            current@,
                            k as int,
                        ));
                        assert(self.climb(current@, 1) == neighbor(current@, k as int));
                        moves = moves + 1;
                    }
                    current = ns[k].copy();
                    current_fit = scores[k];
                },
            }
        }
        proof {
            assert forall|n: nat| n >= moves implies #[trigger] self.climb(start@, n) == current@ by {
                lemma_ascend_settles(self.score_fn(), start@, moves, n);
            }
            assert(self.climb(start@, moves) == current@);
        }
        (current, current_fit)
    }

    /// Count local optima in the landscape.
    pub fn count_local_optima(&self) -> (r: usize)
        requires
            self.wf(),
        ensures
            r == self.count_optima_upto(pow3(self.dimension())),
    {
        let total = self.scores.len();
        let mut count: usize = 0;
        for idx in 0..total
            invariant
                self.wf(),
                total == pow3(self.dim as nat),
                count == self.count_optima_upto(idx as nat),
                count <= idx,
        {
            let p = point_at(self.dim, idx);
            if self.has_no_better_neighbor(&p) {
                count = count + 1;
            }
        }
        count
    }
}

/// A position of a greatest score in a non-empty table with every score present.
proof fn lemma_max_position(s: Seq<Score>, n: nat) -> (m: int)
    requires
        0 < n <= s.len(),
        all_present(s),
    ensures
        0 <= m < n,
        forall|j: int| 0 <= j < n ==> !beats(#[trigger] s[j], s[m]),
    decreases n,
{
    if n == 1 {
        0
    } else {
        let m0 = lemma_max_position(s, (n - 1) as nat);
        assert(s[m0] is Some && s[n - 1] is Some);
        if beats(s[n - 1], s[m0]) {
            (n - 1) as int
        } else {
            m0
        }
    }
}

/// The number of a point of the landscape's dimension picks its score from the table.
proof fn lemma_score_in_table(l: ScoreLandscape, p: Seq<Ternary>)
    requires
        l.wf(),
        p.len() == l.dimension(),
    ensures
        index_in(l.dimension(), p) == horner(p),
        0 <= index_in(l.dimension(), p) < l.score_table().len(),
{
    lemma_horner_bound(p);
    assert(pow3(0) == 1);
    assert(index_in(l.dimension(), p) == horner(p) * 1);
}

/// Counting optima below `n` counts at least the one at `m`.
proof fn lemma_count_includes(l: ScoreLandscape, n: nat, m: nat)
    requires
        m < n,
        l.is_local_optimum(point_of_index(l.dimension(), m)),
    ensures
        l.count_optima_upto(n) >= 1,
    decreases n,
{
    if m < n - 1 {
        lemma_count_includes(l, (n - 1) as nat, m);
    }
}

/// A landscape whose scores are all present has a local optimum: the point of a greatest
/// score. So its count of local optima is at least one.
pub proof fn lemma_local_optimum_exists(l: ScoreLandscape)
    requires
        l.wf(),
        all_present(l.score_table()),
    ensures
        l.count_optima_upto(pow3(l.dimension())) >= 1,
{
    let d = l.dimension();
    let s = l.score_table();
    lemma_pow3_pos(d);
    let m = lemma_max_position(s, s.len());
    let q = point_of_index(d, m as nat);
    lemma_point_of_index_len(d, m as nat);
    lemma_index_round_trip(d, m as nat);
    lemma_score_in_table(l, q);
    assert forall|k: int| 0 <= k < 2 * q.len() implies !beats(
        #[trigger] l.score_of(neighbor(q, k)),
        l.score_of(q),
    ) by {
        lemma_score_in_table(l, neighbor(q, k));
    }
    lemma_count_includes(l, pow3(d), m as nat);
}

} // verus!
