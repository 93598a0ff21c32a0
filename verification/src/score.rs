//! Fitness scores and the choice of the best improving candidate.
//!
//! A score stands for a fitness value by its place in the order of values: `Some(r)` for a
//! value of rank `r` (greater values have greater ranks, equal values equal ranks), `None`
//! for a value that compares with nothing, neither greater nor smaller nor equal.
use vstd::prelude::*;

use crate::point::TernaryPoint;
use crate::ternary::Ternary;

verus! {

/// A fitness value, represented by its rank; `None` compares with nothing.
pub type Score = Option<u64>;

/// `a` is strictly greater than `b`; false whenever one of them is absent.
pub open spec fn beats(a: Score, b: Score) -> bool {
    match (a, b) {
        (Some(x), Some(y)) => x > y,
        _ => false,
    }
}

/// `a` is greater than or equal to `b`; false whenever one of them is absent.
pub open spec fn at_least(a: Score, b: Score) -> bool {
    match (a, b) {
        (Some(x), Some(y)) => x >= y,
        _ => false,
    }
}

/// Candidate `k` beats `threshold`, no candidate beats it, and no earlier candidate has its
/// score: `k` is the first position of the best candidate, which improves on `threshold`.
pub open spec fn is_first_best(threshold: Score, cands: Seq<Score>, k: int) -> bool {
    &&& 0 <= k < cands.len()
    &&& beats(cands[k], threshold)
    &&& forall|j: int| 0 <= j < cands.len() ==> !beats(#[trigger] cands[j], cands[k])
    &&& forall|j: int| 0 <= j < k ==> #[trigger] cands[j] != cands[k]
}

/// The position of the first best candidate when it improves on `threshold`; `None` when no
/// candidate beats `threshold`.
pub open spec fn first_best(threshold: Score, cands: Seq<Score>) -> Option<int> {
    if exists|k: int| is_first_best(threshold, cands, k) {
        Some(choose|k: int| is_first_best(threshold, cands, k))
    } else {
        None
    }
}

/// `fitness` gave score `s` to a point with coordinates `p`.
pub open spec fn scored_by<F: Fn(&TernaryPoint) -> Score>(fitness: &F, p: Seq<Ternary>, s: Score) -> bool {
    exists|q: TernaryPoint| q@ == p && #[trigger] fitness.ensures((&q,), s)
}

/// `fitness` gives one score to each point: calls on points with equal coordinates return
/// equal scores.
pub open spec fn deterministic<F: Fn(&TernaryPoint) -> Score>(fitness: &F) -> bool {
    forall|p: TernaryPoint, q: TernaryPoint, a: Score, b: Score|
        #![trigger fitness.ensures((&p,), a), fitness.ensures((&q,), b)]
        p@ == q@ && fitness.ensures((&p,), a) && fitness.ensures((&q,), b) ==> a == b
}

/// The score `fitness` gives to points with coordinates `p` (meaningful when it is
/// deterministic and has scored such a point).
pub open spec fn fitness_of<F: Fn(&TernaryPoint) -> Score>(fitness: &F, p: Seq<Ternary>) -> Score {
    choose|s: Score| scored_by(fitness, p, s)
}

/// The scoring of points by `fitness`.
pub open spec fn fitness_fn<F: Fn(&TernaryPoint) -> Score>(fitness: &F) -> spec_fn(Seq<Ternary>) -> Score {
    |p: Seq<Ternary>| fitness_of(fitness, p)
}

/// `fitness` computes `g`: every score it returns is `g` of the point's coordinates.
pub open spec fn computes<F: Fn(&TernaryPoint) -> Score>(fitness: &F, g: spec_fn(Seq<Ternary>) -> Score) -> bool {
    forall|p: TernaryPoint, s: Score| #[trigger] fitness.ensures((&p,), s) ==> s == g(p@)
}

/// A deterministic `fitness` computes the scoring `fitness_fn(fitness)`.
pub proof fn lemma_deterministic_computes<F: Fn(&TernaryPoint) -> Score>(fitness: &F)
    requires
        deterministic(fitness),
    ensures
        computes(fitness, fitness_fn(fitness)),
{
    assert forall|p: TernaryPoint, s: Score| #[trigger] fitness.ensures((&p,), s) implies s
        == fitness_fn(fitness)(p@) by {
        lemma_fitness_of(fitness, p, s);
    }
}

/// A score returned by a deterministic `fitness` is the score of the point's coordinates.
pub proof fn lemma_fitness_of<F: Fn(&TernaryPoint) -> Score>(fitness: &F, q: TernaryPoint, s: Score)
    requires
        deterministic(fitness),
        fitness.ensures((&q,), s),
    ensures
        fitness_of(fitness, q@) == s,
        fitness_fn(fitness)(q@) == s,
{
    assert(scored_by(fitness, q@, s));
    let t = fitness_of(fitness, q@);
    let w = choose|w: TernaryPoint| w@ == q@ && #[trigger] fitness.ensures((&w,), t);
    assert(fitness.ensures((&w,), t));
}

/// `a > b` on scores.
pub fn is_better(a: Score, b: Score) -> (r: bool)
    ensures
        r == beats(a, b),
{
    match (a, b) {
        (Some(x), Some(y)) => x > y,
        _ => false,
    }
}

/// `a >= b` on scores.
pub fn is_at_least(a: Score, b: Score) -> (r: bool)
    ensures
        r == at_least(a, b),
{
    match (a, b) {
        (Some(x), Some(y)) => x >= y,
        _ => false,
    }
}

/// At most one position is the first position of the best candidate.
pub proof fn lemma_first_best_unique(threshold: Score, cands: Seq<Score>, k1: int, k2: int)
    requires
        is_first_best(threshold, cands, k1),
        is_first_best(threshold, cands, k2),
    ensures
        k1 == k2,
{
    assert(!beats(cands[k1], cands[k2]));
    assert(!beats(cands[k2], cands[k1]));
    if k1 < k2 {
        assert(cands[k1] != cands[k2]);
    } else if k2 < k1 {
        assert(cands[k2] != cands[k1]);
    }
}

/// Scan the candidates in order, keeping the first one that is strictly greater than
/// everything seen so far, starting from `threshold`; the position kept, if any.
pub fn select_improving(threshold: Score, cands: &Vec<Score>) -> (r: Option<usize>)
    ensures
        r matches Some(k) ==> first_best(threshold, cands@) == Some(k as int),
        r is None ==> first_best(threshold, cands@) is None,
        r is None <==> forall|j: int| 0 <= j < cands@.len() ==> !beats(#[trigger] cands@[j], threshold),
{
    let mut best = threshold;
    let mut best_idx: Option<usize> = None;
    for k in 0..cands.len()
        invariant
            best_idx is None ==> best == threshold && forall|j: int|
                0 <= j < k ==> !beats(#[trigger] cands@[j], threshold),
            best_idx matches Some(b) ==> {
                &&& b < k
                &&& best == cands@[b as int]
                &&& beats(best, threshold)
                &&& forall|j: int| 0 <= j < k ==> !beats(#[trigger] cands@[j], best)
                &&& forall|j: int| 0 <= j < b ==> #[trigger] cands@[j] != best
            },
    {
        if is_better(cands[k], best) {
            best = cands[k];
            best_idx = Some(k);
        }
    }
    proof {
        match best_idx {
            Some(b) => {
                assert(is_first_best(threshold, cands@, b as int));
                let c = choose|k: int| is_first_best(threshold, cands@, k);
                lemma_first_best_unique(threshold, cands@, c, b as int);
            },
            None => {
                assert forall|k: int| !is_first_best(threshold, cands@, k) by {
                    if 0 <= k < cands@.len() {
                        assert(!beats(cands@[k], threshold));
                    }
                }
            },
        }
    }
    best_idx
}

/// The chosen candidate improves on the threshold and is not beaten by any candidate.
pub proof fn lemma_first_best_improves(threshold: Score, cands: Seq<Score>)
    requires
        first_best(threshold, cands) is Some,
    ensures
        ({
            let k = first_best(threshold, cands)->0;
            &&& 0 <= k < cands.len()
            &&& beats(cands[k], threshold)
            &&& forall|j: int| 0 <= j < cands.len() ==> !beats(#[trigger] cands[j], cands[k])
        }),
{
}

/// Strict comparison is transitive, and it implies the non-strict one.
pub proof fn lemma_beats_transitive(a: Score, b: Score, c: Score)
    ensures
        beats(a, b) && beats(b, c) ==> beats(a, c),
        beats(a, b) && at_least(b, c) ==> beats(a, c),
        at_least(a, b) && at_least(b, c) ==> at_least(a, c),
        beats(a, b) ==> at_least(a, b),
{
}

/// A position below `n` of a greatest present score, given one present score at `j < n`;
/// the first such position.
proof fn lemma_greatest_below(cands: Seq<Score>, n: int, j: int) -> (m: int)
    requires
        0 <= j < n <= cands.len(),
        cands[j] is Some,
    ensures
        0 <= m < n,
        cands[m] is Some,
        at_least(cands[m], cands[j]),
        forall|i: int| 0 <= i < n ==> !beats(#[trigger] cands[i], cands[m]),
        forall|i: int| 0 <= i < m ==> #[trigger] cands[i] != cands[m],
    decreases n,
{
    if n == j + 1 {
        if exists|i: int| 0 <= i < j && cands[i] is Some && at_least(#[trigger] cands[i], cands[j]) {
            let i = choose|i: int|
                0 <= i < j && cands[i] is Some && at_least(#[trigger] cands[i], cands[j]);
            lemma_greatest_below(cands, j, i)
        } else {
            j
        }
    } else {
        let m0 = lemma_greatest_below(cands, n - 1, j);
        if beats(cands[n - 1], cands[m0]) {
            n - 1
        } else {
            m0
        }
    }
}

/// When some candidate beats the threshold, a first best candidate exists.
pub proof fn lemma_first_best_exists(threshold: Score, cands: Seq<Score>, j: int)
    requires
        0 <= j < cands.len(),
        beats(cands[j], threshold),
    ensures
        first_best(threshold, cands) is Some,
{
    let m = lemma_greatest_below(cands, cands.len() as int, j);
    assert(is_first_best(threshold, cands, m));
}

} // verus!
