//! Steepest-ascent hill climbing, as a state machine: the caller evaluates the current point
//! and its neighbours, and hands their scores back.
use vstd::prelude::*;

use crate::point::{hamming, neighbor, TernaryPoint};
use crate::score::{
    beats, computes, first_best, scored_by, select_improving, Score,
};
use crate::search::{
    ascend, ascent_moves, is_peak, lemma_ascend_distance, lemma_ascend_never_descends, lemma_ascend_settles,
    lemma_ascend_stops_at_peak, lemma_ascend_succ, lemma_ascent_move, scores_around,
};
use crate::ternary::Ternary;

verus! {

/// Hill climbing (steepest ascent).
pub struct HillClimbing {
    max_iters: usize,
}

/// Where a climb stands: the current point, the number of moves made, and whether the climb
/// is over.
pub struct ClimbState {
    current: TernaryPoint,
    iteration: usize,
    finished: bool,
}

impl ClimbState {
    pub closed spec fn point(&self) -> Seq<Ternary> {
        self.current@
    }

    pub closed spec fn moves(&self) -> nat {
        self.iteration as nat
    }

    pub closed spec fn is_done(&self) -> bool {
        self.finished
    }

    /// The current point.
    pub fn current(&self) -> (r: &TernaryPoint)
        ensures
            r@ == self.point(),
    {
        &self.current
    }

    /// Whether the climb is over.
    pub fn is_finished(&self) -> (r: bool)
        ensures
            r == self.is_done(),
    {
        self.finished
    }
}

impl HillClimbing {
    pub closed spec fn iteration_limit(&self) -> nat {
        self.max_iters as nat
    }

    /// A state of a climb: while running, fewer moves than the limit have been made.
    pub open spec fn state_wf(&self, s: ClimbState) -> bool {
        !s.is_done() ==> s.moves() < self.iteration_limit()
    }

    /// A state of a climb scored by `g`, with current score `fit`, is where the steepest ascent
    /// by `g` from `start` is after the moves made, `fit` is its score, and a finished climb is
    /// at a peak unless it used every move.
    pub open spec fn climb_matches(
        &self,
        g: spec_fn(Seq<Ternary>) -> Score,
        start: Seq<Ternary>,
        s: ClimbState,
        fit: Score,
    ) -> bool {
        &&& s.point() == ascend(g, start, s.moves())
        &&& fit == g(s.point())
        &&& s.is_done() ==> s.moves() == self.iteration_limit() || is_peak(g, s.point())
    }

    pub fn new(max_iters: usize) -> (r: Self)
        ensures
            r.iteration_limit() == max_iters,
    {
        Self { max_iters }
    }

    /// The state before the first move; the climb is over at once when no move is allowed.
    pub fn start(&self, start: &TernaryPoint) -> (r: ClimbState)
        ensures
            r.point() == start@,
            r.moves() == 0,
            r.is_done() <==> self.iteration_limit() == 0,
            self.state_wf(r),
    {
        ClimbState { current: start.copy(), iteration: 0, finished: self.max_iters == 0 }
    }

    /// One step, given the score of the current point and those of its neighbours in the order
    /// of `neighbors()`: move to the first neighbour with the greatest score when that score
    /// beats the current one, else stop. The climb also stops after the last allowed move.
    /// Returns the new state and the neighbour moved to.
    pub fn advance(&self, state: ClimbState, current_score: Score, neighbor_scores: &Vec<Score>) -> (r: (
        ClimbState,
        Option<usize>,
    ))
        requires
            !state.is_done(),
            self.state_wf(state),
            neighbor_scores@.len() == 2 * state.point().len(),
        ensures
            self.state_wf(r.0),
            r.1 matches Some(k) ==> first_best(current_score, neighbor_scores@) == Some(k as int),
            r.1 is None ==> first_best(current_score, neighbor_scores@) is None,
            r.1 is None <==> forall|k: int|
                0 <= k < neighbor_scores@.len() ==> !beats(#[trigger] neighbor_scores@[k], current_score),
            match r.1 {
                Some(k) => {
                    &&& r.0.point() == neighbor(state.point(), k as int)
                    &&& r.0.moves() == state.moves() + 1
                    &&& r.0.is_done() <==> r.0.moves() == self.iteration_limit()
                },
                None => {
                    &&& r.0.point() == state.point()
                    &&& r.0.moves() == state.moves()
                    &&& r.0.is_done()
                },
            },
    {
        let ClimbState { current, iteration, finished: _ } = state;
        match select_improving(current_score, neighbor_scores) {
            Some(k) => {
                let ns = current.neighbors();
                let next = ns[k].copy();
                let moved = iteration + 1;
                (ClimbState { current: next, iteration: moved, finished: moved == self.max_iters }, Some(k))
            },
            None => (ClimbState { current, iteration, finished: true }, None),
        }
    }

    /// Climb from `start`, scoring points with `fitness`: at each step every neighbour of the
    /// current point is scored, and the climb moves as `advance` says, until it stops.
    /// Returns the final point and the score `fitness` gave it. With no move allowed this is
    /// the start; when `fitness` computes a scoring `g` (a deterministic `fitness` computes
    /// `fitness_fn(fitness)`) it is the steepest ascent by `g` from `start` for
    /// `iteration_limit()` moves, which ends at a peak unless it used every move.
    pub fn optimize<F: Fn(&TernaryPoint) -> Score>(&self, fitness: &F, start: &TernaryPoint) -> (r: (
        TernaryPoint,
        Score,
    ))
        requires
            forall|p: &TernaryPoint| fitness.requires((p,)),
        ensures
            r.0@.len() == start@.len(),
            scored_by(fitness, r.0@, r.1),
            exists|s0: Score|
                #[trigger] fitness.ensures((start,), s0) && (r.1 == s0 || beats(r.1, s0)) && (r.1
                    == s0 ==> r.0@ == start@) && (self.iteration_limit() == 0 ==> r.1 == s0),
            self.iteration_limit() == 0 ==> r.0@ == start@,
            forall|g: spec_fn(Seq<Ternary>) -> Score| #[trigger] computes(fitness, g) ==> {
                &&& r.0@ == ascend(g, start@, self.iteration_limit())
                &&& r.1 == g(r.0@)
                &&& ascent_moves(g, start@, self.iteration_limit()) < self.iteration_limit()
                    ==> is_peak(g, r.0@)
                &&& hamming(start@, r.0@) <= self.iteration_limit()
            },
    {
        let mut state = self.start(start);
        let mut current_fit = fitness(start);
        let ghost mut witness: TernaryPoint = *start;
        let ghost s0 = current_fit;
        assert(forall|g: spec_fn(Seq<Ternary>) -> Score| #[trigger] computes(fitness, g)
            ==> self.climb_matches(g, start@, state, current_fit)) by {
            assert(fitness.ensures((start,), current_fit));
        }
        while !state.is_finished()
            invariant
                forall|p: &TernaryPoint| fitness.requires((p,)),
                self.state_wf(state),
                state.point().len() == start@.len(),
                witness@ == state.point(),
                fitness.ensures((&witness,), current_fit),
                fitness.ensures((start,), s0),
                current_fit == s0 || beats(current_fit, s0),
                current_fit == s0 ==> state.point() == start@,
                state.moves() <= self.iteration_limit(),
                state.moves() == 0 ==> current_fit == s0 && state.point() == start@,
                forall|g: spec_fn(Seq<Ternary>) -> Score| #[trigger] computes(fitness, g)
                    ==> self.climb_matches(g, start@, state, current_fit),
            decreases 2 * (self.iteration_limit() - state.moves()) + if state.is_done() {
                0int
            } else {
                1int
            },
        {
            let ns = state.current().neighbors();
            let mut scores: Vec<Score> = Vec::with_capacity(ns.len());
            for k in 0..ns.len()
                invariant
                    forall|p: &TernaryPoint| fitness.requires((p,)),
                    scores@.len() == k,
                    forall|m: int| 0 <= m < k ==> fitness.ensures((&ns@[m],), #[trigger] scores@[m]),
            {
                scores.push(fitness(&ns[k]));
            }
            let ghost p = state.point();
            let ghost m0 = state.moves();
            let ghost st0 = state;
            let ghost fit0 = current_fit;
            assert(forall|g: spec_fn(Seq<Ternary>) -> Score| #[trigger] computes(fitness, g)
                ==> self.climb_matches(g, start@, st0, fit0));
            let (next, choice) = self.advance(state, current_fit, &scores);
            match choice {
                Some(k) => {
                    proof {
                        crate::score::lemma_first_best_improves(current_fit, scores@);
                        crate::score::lemma_beats_transitive(scores@[k as int], current_fit, s0);
                    }
                    current_fit = scores[k];
                    proof {
                        witness = ns@[k as int];
                    }
                },
                None => {},
            }
            state = next;
            assert forall|g: spec_fn(Seq<Ternary>) -> Score| #[trigger] computes(fitness, g)
                implies self.climb_matches(g, start@, state, current_fit) by {
                assert(self.climb_matches(g, start@, st0, fit0));
                assert forall|m: int| 0 <= m < scores@.len() implies #[trigger] scores@[m] == g(
                    neighbor(p, m),
                ) by {
                    assert(fitness.ensures((&ns@[m],), scores@[m]));
                }
                assert(scores@ =~= scores_around(g, p));
                lemma_ascent_move(g, p);
                lemma_ascend_succ(g, start@, m0);
                if let Some(k) = choice {
                    assert(ascend(g, neighbor(p, k as int), 0) == neighbor(p, k as int));
                }
            }
        }
        assert forall|g: spec_fn(Seq<Ternary>) -> Score| #[trigger] computes(fitness, g) implies {
            &&& state.point() == ascend(g, start@, self.iteration_limit())
            &&& ascent_moves(g, start@, self.iteration_limit()) < self.iteration_limit() ==> is_peak(
                g,
                state.point(),
            )
            &&& hamming(start@, state.point()) <= self.iteration_limit()
        } by {
            assert(self.climb_matches(g, start@, state, current_fit));
            let lim = self.iteration_limit();
            if state.moves() < lim {
                lemma_ascend_settles(g, start@, state.moves(), lim);
            }
            lemma_ascend_never_descends(g, start@, lim);
            lemma_ascend_distance(g, start@, lim);
            if ascent_moves(g, start@, lim) < lim {
                lemma_ascend_stops_at_peak(g, start@, lim);
            }
        }
        let r = (state.current().copy(), current_fit);
        assert(witness@ == r.0@ && fitness.ensures((&witness,), r.1));
        assert(fitness.ensures((start,), s0));
        r
    }
}

} // verus!
