//! Steepest ascent over the neighbour graph, for any scoring of points, and the laws it obeys.
use vstd::prelude::*;

use crate::point::{hamming, lemma_hamming_metric, lemma_neighbor_distance_one, neighbor};
use crate::score::{at_least, beats, first_best, Score};
use crate::ternary::Ternary;

verus! {

/// The scores of the `2n` neighbours of `p`, in the order of `neighbors`.
pub open spec fn scores_around(score: spec_fn(Seq<Ternary>) -> Score, p: Seq<Ternary>) -> Seq<Score> {
    Seq::new(2 * p.len(), |k: int| score(neighbor(p, k)))
}

/// No neighbour of `p` scores strictly above `p`.
pub open spec fn is_peak(score: spec_fn(Seq<Ternary>) -> Score, p: Seq<Ternary>) -> bool {
    forall|k: int| 0 <= k < 2 * p.len() ==> !beats(#[trigger] score(neighbor(p, k)), score(p))
}

/// One move of steepest ascent: to the first neighbour with the greatest score when that score
/// beats the score of `p`; `None` when no neighbour does.
pub open spec fn ascent_move(score: spec_fn(Seq<Ternary>) -> Score, p: Seq<Ternary>) -> Option<int> {
    first_best(score(p), scores_around(score, p))
}

/// The point reached from `p` by at most `steps` moves of steepest ascent.
pub open spec fn ascend(score: spec_fn(Seq<Ternary>) -> Score, p: Seq<Ternary>, steps: nat) -> Seq<
    Ternary,
>
    decreases steps,
{
    if steps == 0 {
        p
    } else {
        match ascent_move(score, p) {
            None => p,
            Some(k) => ascend(score, neighbor(p, k), (steps - 1) as nat),
        }
    }
}

/// The number of moves made by `ascend(score, p, steps)`.
pub open spec fn ascent_moves(score: spec_fn(Seq<Ternary>) -> Score, p: Seq<Ternary>, steps: nat) -> nat
    decreases steps,
{
    if steps == 0 {
        0
    } else {
        match ascent_move(score, p) {
            None => 0,
            Some(k) => 1 + ascent_moves(score, neighbor(p, k), (steps - 1) as nat),
        }
    }
}

/// A move goes to a neighbour that beats the current point, and no neighbour beats it; there is
/// no move exactly at a peak.
pub proof fn lemma_ascent_move(score: spec_fn(Seq<Ternary>) -> Score, p: Seq<Ternary>)
    ensures
        ascent_move(score, p) is None <==> is_peak(score, p),
        ascent_move(score, p) matches Some(k) ==> {
            &&& 0 <= k < 2 * p.len()
            &&& beats(score(neighbor(p, k)), score(p))
            &&& forall|j: int|
                0 <= j < 2 * p.len() ==> !beats(#[trigger] score(neighbor(p, j)), score(neighbor(p, k)))
        },
{
    let cands = scores_around(score, p);
    if ascent_move(score, p) is Some {
        crate::score::lemma_first_best_improves(score(p), cands);
        let k = ascent_move(score, p)->0;
        assert(cands[k] == score(neighbor(p, k)));
        assert forall|j: int| 0 <= j < 2 * p.len() implies !beats(
            #[trigger] score(neighbor(p, j)),
            score(neighbor(p, k)),
        ) by {
            assert(cands[j] == score(neighbor(p, j)));
        }
        assert(!is_peak(score, p));
    } else {
        assert forall|k: int| 0 <= k < 2 * p.len() implies !beats(
            #[trigger] score(neighbor(p, k)),
            score(p),
        ) by {
            assert(cands[k] == score(neighbor(p, k)));
            if beats(cands[k], score(p)) {
                crate::score::lemma_first_best_exists(score(p), cands, k);
            }
        }
    }
}

/// Ascending keeps the dimension, never ends on a lower score, and each move strictly raises
/// the score.
pub proof fn lemma_ascend_never_descends(score: spec_fn(Seq<Ternary>) -> Score, p: Seq<Ternary>, steps: nat)
    ensures
        ascend(score, p, steps).len() == p.len(),
        ascent_moves(score, p, steps) <= steps,
        score(p) is Some ==> at_least(score(ascend(score, p, steps)), score(p)),
        ascent_moves(score, p, steps) > 0 ==> beats(score(ascend(score, p, steps)), score(p)),
    decreases steps,
{
    if steps > 0 {
        lemma_ascent_move(score, p);
        if let Some(k) = ascent_move(score, p) {
            let q = neighbor(p, k);
            lemma_ascend_never_descends(score, q, (steps - 1) as nat);
            crate::score::lemma_beats_transitive(score(ascend(score, q, (steps - 1) as nat)), score(q), score(p));
        }
    }
}

/// A peak is where every ascent from it stays.
pub proof fn lemma_peak_is_fixed(score: spec_fn(Seq<Ternary>) -> Score, p: Seq<Ternary>, steps: nat)
    requires
        is_peak(score, p),
    ensures
        ascend(score, p, steps) == p,
        ascent_moves(score, p, steps) == 0,
{
    lemma_ascent_move(score, p);
}

/// An ascent of at least one step from a point that is not a peak ends strictly higher.
pub proof fn lemma_ascend_improves(score: spec_fn(Seq<Ternary>) -> Score, p: Seq<Ternary>, steps: nat)
    requires
        steps > 0,
        !is_peak(score, p),
    ensures
        beats(score(ascend(score, p, steps)), score(p)),
{
    lemma_ascent_move(score, p);
    lemma_ascend_never_descends(score, p, steps);
}

/// Ascending `n` steps and then one more is ascending `n + 1` steps.
pub proof fn lemma_ascend_succ(score: spec_fn(Seq<Ternary>) -> Score, p: Seq<Ternary>, n: nat)
    ensures
        ascend(score, p, n + 1) == ascend(score, ascend(score, p, n), 1),
        ascent_moves(score, p, n + 1) == ascent_moves(score, p, n) + ascent_moves(
            score,
            ascend(score, p, n),
            1,
        ),
    decreases n,
{
    if n > 0 {
        if let Some(k) = ascent_move(score, p) {
            lemma_ascend_succ(score, neighbor(p, k), (n - 1) as nat);
            assert((n - 1) as nat + 1 == n);
        }
    }
}

/// An ascent that makes fewer moves than its step budget ends at a peak.
pub proof fn lemma_ascend_stops_at_peak(score: spec_fn(Seq<Ternary>) -> Score, p: Seq<Ternary>, steps: nat)
    requires
        ascent_moves(score, p, steps) < steps,
    ensures
        is_peak(score, ascend(score, p, steps)),
    decreases steps,
{
    lemma_ascent_move(score, p);
    if let Some(k) = ascent_move(score, p) {
        lemma_ascend_stops_at_peak(score, neighbor(p, k), (steps - 1) as nat);
    }
}

/// Once an ascent reaches a peak it stays there: more steps give the same point.
pub proof fn lemma_ascend_settles(score: spec_fn(Seq<Ternary>) -> Score, p: Seq<Ternary>, a: nat, b: nat)
    requires
        a <= b,
        is_peak(score, ascend(score, p, a)),
    ensures
        ascend(score, p, b) == ascend(score, p, a),
    decreases a,
{
    if a == 0 {
        lemma_peak_is_fixed(score, p, b);
    } else {
        if let Some(k) = ascent_move(score, p) {
            lemma_ascend_settles(score, neighbor(p, k), (a - 1) as nat, (b - 1) as nat);
        }
    }
}

/// Each move changes one coordinate, so an ascent ends within Hamming distance of its number of
/// moves from where it started.
pub proof fn lemma_ascend_distance(score: spec_fn(Seq<Ternary>) -> Score, p: Seq<Ternary>, steps: nat)
    ensures
        hamming(p, ascend(score, p, steps)) <= ascent_moves(score, p, steps),
    decreases steps,
{
    lemma_ascend_never_descends(score, p, steps);
    if steps > 0 {
        lemma_ascent_move(score, p);
        if let Some(k) = ascent_move(score, p) {
            let q = neighbor(p, k);
            lemma_ascend_distance(score, q, (steps - 1) as nat);
            lemma_neighbor_distance_one(p, k);
            lemma_ascend_never_descends(score, q, (steps - 1) as nat);
            lemma_hamming_metric(p, q, ascend(score, q, (steps - 1) as nat));
        } else {
            lemma_hamming_metric(p, p, p);
        }
    } else {
        lemma_hamming_metric(p, p, p);
    }
}

} // verus!
