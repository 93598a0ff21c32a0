//! Coordinate descent, as a state machine: the caller evaluates the trial points that each
//! step names, and hands their scores back.
use vstd::prelude::*;

use crate::point::{alternative, alternatives, neighbor, TernaryPoint};
use crate::score::{
    beats, computes, first_best, scored_by, select_improving, Score,
};
use crate::search::is_peak;
use crate::ternary::Ternary;

verus! {

/// Coordinate descent on ternary space.
pub struct CoordinateDescent {
    dim: usize,
    max_iters: usize,
}

/// Where a run of coordinate descent stands: the current point, the pass (`iteration`) and
/// the coordinate it is at, whether this pass has improved the point, and whether the run is
/// over.
pub struct DescentState {
    current: TernaryPoint,
    iteration: usize,
    coordinate: usize,
    improved: bool,
    finished: bool,
}

/// The point `p` with coordinate `i` replaced by its `j`-th alternative value.
pub open spec fn trial_point(p: Seq<Ternary>, i: int, j: int) -> Seq<Ternary> {
    p.update(i, alternative(p[i], j))
}

/// One step of coordinate descent scored by `f`, from point `p` at pass `pass` and coordinate
/// `pos`, `improved` telling whether the pass has improved the point so far: keep the first
/// trial value scoring strictly above `p` and the other trial, move to the next coordinate, and
/// end the run after a pass that improved nothing or was the last allowed. Gives the point,
/// pass, coordinate, improvement flag and whether the run is over.
pub open spec fn descent_step(
    f: spec_fn(Seq<Ternary>) -> Score,
    limit: nat,
    p: Seq<Ternary>,
    pass: nat,
    pos: nat,
    improved: bool,
) -> (Seq<Ternary>, nat, nat, bool, bool) {
    let choice = first_best(
        f(p),
        seq![f(trial_point(p, pos as int, 0)), f(trial_point(p, pos as int, 1))],
    );
    let q = match choice {
        Some(j) => trial_point(p, pos as int, j),
        None => p,
    };
    let imp = improved || choice is Some;
    if pos + 1 < p.len() {
        (q, pass, pos + 1, imp, false)
    } else if !imp || pass + 1 == limit {
        (q, pass, pos, imp, true)
    } else {
        (q, pass + 1, 0, false, false)
    }
}

/// The end of a descent run scored by `f` from the given state, within `fuel` steps: the final
/// point, its pass, and whether that last pass improved the point.
pub open spec fn descent_run(
    f: spec_fn(Seq<Ternary>) -> Score,
    limit: nat,
    p: Seq<Ternary>,
    pass: nat,
    pos: nat,
    improved: bool,
    fuel: nat,
) -> (Seq<Ternary>, nat, bool)
    decreases fuel,
{
    if fuel == 0 {
        (p, pass, improved)
    } else {
        let (q, pass2, pos2, imp2, done) = descent_step(f, limit, p, pass, pos, improved);
        if done {
            (q, pass2, imp2)
        } else {
            descent_run(f, limit, q, pass2, pos2, imp2, (fuel - 1) as nat)
        }
    }
}

/// The end of coordinate descent scored by `f` from `start` with `limit` passes: the start
/// itself when no pass is allowed or it has no coordinate; else the run from pass 0 and
/// coordinate 0, which takes at most one step per coordinate of each pass.
pub open spec fn descent_result(f: spec_fn(Seq<Ternary>) -> Score, limit: nat, start: Seq<Ternary>) -> (
    Seq<Ternary>,
    nat,
    bool,
) {
    if limit == 0 || start.len() == 0 {
        (start, 0, false)
    } else {
        descent_run(f, limit, start, 0, 0, false, limit * start.len())
    }
}

/// From a state of a pass-limited descent scored by `g`, the run ends at a peak, or its score
/// stands at least one above the start's for every allowed pass: each pass but the last ends
/// the run unless it improved, and an improvement raises the score strictly.
proof fn lemma_descent_run_ends(
    g: spec_fn(Seq<Ternary>) -> Score,
    limit: nat,
    start: Seq<Ternary>,
    p: Seq<Ternary>,
    pass: nat,
    pos: nat,
    improved: bool,
    fuel: nat,
)
    requires
        pass < limit,
        pos < p.len(),
        p.len() == start.len(),
        fuel == (limit - pass) * p.len() - pos,
        !improved ==> forall|k: int|
            0 <= k < 2 * pos ==> !beats(#[trigger] g(neighbor(p, k)), g(p)),
        (pass == 0 && !improved && p == start) || (g(start) matches Some(a) && g(p) matches Some(
            b,
        ) && b >= a + pass + if improved {
            1int
        } else {
            0int
        }),
    ensures
        ({
            let res = descent_run(g, limit, p, pass, pos, improved, fuel);
            is_peak(g, res.0) || (g(start) matches Some(a) && g(res.0) matches Some(b) && b >= a
                + limit)
        }),
    decreases fuel,
{
    let len = p.len() as int;
    assert((limit - pass) * len >= len) by (nonlinear_arith)
        requires
            limit - pass >= 1,
            len >= 0,
    ;
    let i = pos as int;
    let cands = seq![g(trial_point(p, i, 0)), g(trial_point(p, i, 1))];
    let choice = first_best(g(p), cands);
    assert(neighbor(p, 2 * i) == trial_point(p, i, 0)) by {
        assert((2 * i) / 2 == i && (2 * i) % 2 == 0);
    }
    assert(neighbor(p, 2 * i + 1) == trial_point(p, i, 1)) by {
        assert((2 * i + 1) / 2 == i && (2 * i + 1) % 2 == 1);
    }
    if choice is Some {
        crate::score::lemma_first_best_improves(g(p), cands);
    } else {
        if beats(cands[0], g(p)) {
            crate::score::lemma_first_best_exists(g(p), cands, 0);
        }
        if beats(cands[1], g(p)) {
            crate::score::lemma_first_best_exists(g(p), cands, 1);
        }
    }
    let (q, pass2, pos2, imp2, done) = descent_step(g, limit, p, pass, pos, improved);
    if !done {
        if pos2 == 0 {
            assert((limit - pass) * len - (len - 1) - 1 == (limit - (pass + 1)) * len - 0)
                by (nonlinear_arith);
        }
        lemma_descent_run_ends(g, limit, start, q, pass2, pos2, imp2, (fuel - 1) as nat);
    }
}

/// Coordinate descent by `g` with `limit` passes ends at a peak, or its score stands at least
/// `limit` above the start's (every allowed pass improved), or no pass was allowed.
pub proof fn lemma_descent_result_ends(
    g: spec_fn(Seq<Ternary>) -> Score,
    limit: nat,
    start: Seq<Ternary>,
)
    ensures
        ({
            let res = descent_result(g, limit, start);
            limit == 0 || is_peak(g, res.0) || (g(start) matches Some(a) && g(res.0) matches Some(
                b,
            ) && b >= a + limit)
        }),
{
    if limit > 0 && start.len() > 0 {
        assert(limit * start.len() == (limit - 0) * start.len() - 0);
        lemma_descent_run_ends(g, limit, start, start, 0, 0, false, limit * start.len());
    }
}

impl DescentState {
    pub closed spec fn point(&self) -> Seq<Ternary> {
        self.current@
    }

    pub closed spec fn pass(&self) -> nat {
        self.iteration as nat
    }

    pub closed spec fn position(&self) -> nat {
        self.coordinate as nat
    }

    pub closed spec fn has_improved(&self) -> bool {
        self.improved
    }

    pub closed spec fn is_done(&self) -> bool {
        self.finished
    }

    /// The current point.
    pub fn current(&self) -> (r: &TernaryPoint)
        ensures
            r@ == self.point(),
    {
        &self.current
    }

    /// Whether the run is over.
    pub fn is_finished(&self) -> (r: bool)
        ensures
            r == self.is_done(),
    {
        self.finished
    }
}

impl CoordinateDescent {
    pub closed spec fn dimension(&self) -> nat {
        self.dim as nat
    }

    pub closed spec fn iteration_limit(&self) -> nat {
        self.max_iters as nat
    }

    /// A state of a run of this descent: while running, the pass is below the limit and the
    /// coordinate is one of the point's.
    pub open spec fn state_wf(&self, s: DescentState) -> bool {
        !s.is_done() ==> s.pass() < self.iteration_limit() && s.position() < s.point().len()
    }

    /// The steps left at most: one per coordinate of each remaining pass.
    pub open spec fn steps_left(&self, s: DescentState) -> int {
        (self.iteration_limit() - s.pass()) * s.point().len() - s.position()
    }

    /// A state of a run scored by `g`, with best score `fit`: `fit` is the score of its point;
    /// while running, the run from it ends where the run from `start` does, and a pass that has
    /// improved nothing so far found no better neighbour among the coordinates it has tried;
    /// once over, it is that end, a local optimum unless its last pass improved or no pass was
    /// allowed.
    pub open spec fn descent_matches(
        &self,
        g: spec_fn(Seq<Ternary>) -> Score,
        start: Seq<Ternary>,
        s: DescentState,
        fit: Score,
    ) -> bool {
        let lim = self.iteration_limit();
        &&& fit == g(s.point())
        &&& !s.is_done() ==> descent_result(g, lim, start) == descent_run(
            g,
            lim,
            s.point(),
            s.pass(),
            s.position(),
            s.has_improved(),
            self.steps_left(s) as nat,
        )
        &&& s.is_done() ==> descent_result(g, lim, start) == (s.point(), s.pass(), s.has_improved())
        &&& !s.is_done() && !s.has_improved() ==> forall|k: int|
            0 <= k < 2 * s.position() ==> !beats(#[trigger] g(neighbor(s.point(), k)), g(s.point()))
        &&& s.is_done() ==> s.has_improved() || is_peak(g, s.point()) || lim == 0
    }

    pub fn new(dim: usize, max_iters: usize) -> (r: Self)
        ensures
            r.dimension() == dim,
            r.iteration_limit() == max_iters,
    {
        Self { dim, max_iters }
    }

    /// The state before the first step: at the start point, pass 0, coordinate 0. The run is
    /// over at once when no pass is allowed or the point has no coordinate.
    pub fn start(&self, start: &TernaryPoint) -> (r: DescentState)
        ensures
            r.point() == start@,
            r.pass() == 0,
            r.position() == 0,
            !r.has_improved(),
            r.is_done() <==> (self.iteration_limit() == 0 || start@.len() == 0),
            self.state_wf(r),
    {
        DescentState {
            current: start.copy(),
            iteration: 0,
            coordinate: 0,
            improved: false,
            finished: self.max_iters == 0 || start.dim() == 0,
        }
    }

    /// The two points to evaluate in this step: the current point with the current coordinate
    /// replaced by each of the other two values, in the order of `Ternary::all()`.
    pub fn trials(&self, state: &DescentState) -> (r: Vec<TernaryPoint>)
        requires
            !state.is_done(),
            self.state_wf(*state),
        ensures
            r@.len() == 2,
            r@[0]@ == trial_point(state.point(), state.position() as int, 0),
            r@[1]@ == trial_point(state.point(), state.position() as int, 1),
    {
        let i = state.coordinate;
        let (a, b) = alternatives(state.current.coords()[i]);
        let mut first = state.current.copy();
        first.set(i, a);
        let mut second = state.current.copy();
        second.set(i, b);
        let mut result: Vec<TernaryPoint> = Vec::new();
        result.push(first);
        result.push(second);
        result
    }

    /// One step: keep the first trial value that scores strictly above `best` and above the
    /// other trial (none if neither does), then move on to the next coordinate. After the last
    /// coordinate the run ends when the pass improved nothing or was the last allowed pass;
    /// otherwise a new pass starts at coordinate 0. Returns the new state and the trial kept.
    pub fn advance(&self, state: DescentState, best: Score, trial_scores: &Vec<Score>) -> (r: (
        DescentState,
        Option<usize>,
    ))
        requires
            !state.is_done(),
            self.state_wf(state),
            trial_scores@.len() == 2,
        ensures
            self.state_wf(r.0),
            r.1 matches Some(j) ==> first_best(best, trial_scores@) == Some(j as int),
            r.1 is None ==> first_best(best, trial_scores@) is None,
            r.0.point() == (match r.1 {
                Some(j) => trial_point(state.point(), state.position() as int, j as int),
                None => state.point(),
            }),
            ({
                let improved = state.has_improved() || r.1 is Some;
                let last = state.position() + 1 == state.point().len();
                if !last {
                    &&& r.0.pass() == state.pass()
                    &&& r.0.position() == state.position() + 1
                    &&& r.0.has_improved() == improved
                    &&& !r.0.is_done()
                } else if !improved || state.pass() + 1 == self.iteration_limit() {
                    &&& r.0.pass() == state.pass()
                    &&& r.0.position() == state.position()
                    &&& r.0.has_improved() == improved
                    &&& r.0.is_done()
                } else {
                    &&& r.0.pass() == state.pass() + 1
                    &&& r.0.position() == 0
                    &&& !r.0.has_improved()
                    &&& !r.0.is_done()
                }
            }),
            !r.0.is_done() ==> self.steps_left(r.0) == self.steps_left(state) - 1,
    {
        let DescentState { current, iteration, coordinate, improved, finished: _ } = state;
        let mut current = current;
        let choice = select_improving(best, trial_scores);
        let (a, b) = alternatives(current.coords()[coordinate]);
        match choice {
            Some(j) => {
                if j == 0 {
                    current.set(coordinate, a);
                } else {
                    current.set(coordinate, b);
                }
            },
            None => {},
        }
        let improved = improved || choice.is_some();
        let n = current.dim();
        let ghost limit = self.iteration_limit() as int;
        let ghost old_left = self.steps_left(state);
        if coordinate + 1 < n {
            let r = DescentState {
                current,
                iteration,
                coordinate: coordinate + 1,
                improved,
                finished: false,
            };
            proof {
                assert(self.steps_left(r) == old_left - 1);
            }
            (r, choice)
        } else if !improved || iteration + 1 == self.max_iters {
            (DescentState { current, iteration, coordinate, improved, finished: true }, choice)
        } else {
            let r = DescentState {
                current,
                iteration: iteration + 1,
                coordinate: 0,
                improved: false,
                finished: false,
            };
            proof {
                let len = n as int;
                let it = iteration as int;
                assert((limit - it) * len - (len - 1) == (limit - (it + 1)) * len - 0 + 1)
                    by (nonlinear_arith);
            }
            (r, choice)
        }
    }

    /// While running, at least one step is left.
    proof fn lemma_steps_left_positive(&self, s: DescentState)
        requires
            self.state_wf(s),
            !s.is_done(),
        ensures
            self.steps_left(s) >= 1,
    {
        let a = self.iteration_limit() - s.pass();
        let len = s.point().len() as int;
        assert(a * len >= len) by (nonlinear_arith)
            requires
                a >= 1,
                len >= 0,
        ;
    }

    /// Descend from `start`, scoring points with `fitness`: `start` is scored first, then at
    /// each step the two trial points, in order, and the run goes on as `advance` says until it
    /// ends. Returns the final point and the best score, which `fitness` gave that point. With no
    /// pass allowed, or no coordinate, this is the start; when `fitness` computes a scoring `g`
    /// (a deterministic `fitness` computes `fitness_fn(fitness)`) it is `descent_result` by
    /// `g`, a local optimum unless the last allowed pass still improved.
    pub fn optimize<F: Fn(&TernaryPoint) -> Score>(&self, fitness: &F, start: &TernaryPoint) -> (r: (
        TernaryPoint,
        Score,
    ))
        requires
            forall|p: &TernaryPoint| fitness.requires((p,)),
        ensures
            r.0@.len() == start@.len(),
            scored_by(fitness, r.0@, r.1),
            exists|s0: Score|
                #[trigger] fitness.ensures((start,), s0) && (r.1 == s0 || beats(r.1, s0)) && (r.1
                    == s0 ==> r.0@ == start@) && (self.iteration_limit() == 0 || start@.len() == 0
                    ==> r.1 == s0),
            self.iteration_limit() == 0 || start@.len() == 0 ==> r.0@ == start@,
            forall|g: spec_fn(Seq<Ternary>) -> Score| #[trigger] computes(fitness, g) ==> {
                let res = descent_result(g, self.iteration_limit(), start@);
                &&& r.0@ == res.0
                &&& r.1 == g(r.0@)
                &&& is_peak(g, r.0@) || res.2 || self.iteration_limit() == 0
                &&& is_peak(g, r.0@) || self.iteration_limit() == 0 || (g(start@) matches Some(a)
                    && r.1 matches Some(b) && b >= a + self.iteration_limit())
            },
    {
        let mut state = self.start(start);
        let mut best_fit = fitness(start);
        let ghost lim = self.iteration_limit();
        assert(forall|g: spec_fn(Seq<Ternary>) -> Score| #[trigger] computes(fitness, g)
            ==> self.descent_matches(g, start@, state, best_fit)) by {
            assert(fitness.ensures((start,), best_fit));
        }
        let ghost mut witness: TernaryPoint = *start;
        let ghost s0 = best_fit;
        while !state.is_finished()
            invariant
                forall|p: &TernaryPoint| fitness.requires((p,)),
                self.state_wf(state),
                state.point().len() == start@.len(),
                witness@ == state.point(),
                fitness.ensures((&witness,), best_fit),
                fitness.ensures((start,), s0),
                best_fit == s0 || beats(best_fit, s0),
                best_fit == s0 ==> state.point() == start@,
                lim == 0 || start@.len() == 0 ==> state.is_done() && best_fit == s0
                    && state.point() == start@,
                lim == self.iteration_limit(),
                forall|g: spec_fn(Seq<Ternary>) -> Score| #[trigger] computes(fitness, g)
                    ==> self.descent_matches(g, start@, state, best_fit),
            decreases if state.is_done() {
                0int
            } else {
                self.steps_left(state)
            },
        {
            proof {
                self.lemma_steps_left_positive(state);
            }
            let trials = self.trials(&state);
            let first = fitness(&trials[0]);
            let second = fitness(&trials[1]);
            let scores = vec![first, second];
            let ghost p = state.point();
            let ghost i = state.position() as int;
            let ghost st0 = state;
            let ghost fit0 = best_fit;
            assert(forall|g: spec_fn(Seq<Ternary>) -> Score| #[trigger] computes(fitness, g)
                ==> self.descent_matches(g, start@, st0, fit0));
            let ghost old_left = self.steps_left(state) as nat;
            let (next, choice) = self.advance(state, best_fit, &scores);
            match choice {
                Some(j) => {
                    proof {
                        crate::score::lemma_first_best_improves(best_fit, scores@);
                        crate::score::lemma_beats_transitive(scores@[j as int], best_fit, s0);
                    }
                    best_fit = scores[j];
                    proof {
                        witness = trials@[j as int];
                    }
                },
                None => {},
            }
            state = next;
            proof {
                if !state.is_done() {
                    self.lemma_steps_left_positive(state);
                }
            }
            assert forall|g: spec_fn(Seq<Ternary>) -> Score| #[trigger] computes(fitness, g)
                implies self.descent_matches(g, start@, state, best_fit) by {
                assert(self.descent_matches(g, start@, st0, fit0));
                let st = descent_step(g, lim, p, st0.pass(), st0.position(), st0.has_improved());
                assert(fitness.ensures((&trials@[0],), first));
                assert(fitness.ensures((&trials@[1],), second));
                assert(scores@ =~= seq![g(trial_point(p, i, 0)), g(trial_point(p, i, 1))]);
                assert(neighbor(p, 2 * i) == trial_point(p, i, 0)) by {
                    assert((2 * i) / 2 == i && (2 * i) % 2 == 0);
                }
                assert(neighbor(p, 2 * i + 1) == trial_point(p, i, 1)) by {
                    assert((2 * i + 1) / 2 == i && (2 * i + 1) % 2 == 1);
                }
                if first_best(fit0, scores@) is None {
                    if beats(scores@[0], fit0) {
                        crate::score::lemma_first_best_exists(fit0, scores@, 0);
                    }
                    if beats(scores@[1], fit0) {
                        crate::score::lemma_first_best_exists(fit0, scores@, 1);
                    }
                }
                assert(state.point() == st.0);
                assert(state.is_done() == st.4);
                if !state.is_done() {
                    assert(state.pass() == st.1 && state.position() == st.2 && state.has_improved()
                        == st.3);
                    assert(old_left - 1 == self.steps_left(state) as nat);
                } else {
                    assert(state.pass() == st.1 && state.has_improved() == st.3);
                }
            }
        }
        let r = (state.current().copy(), best_fit);
        assert(witness@ == r.0@ && fitness.ensures((&witness,), r.1));
        assert(fitness.ensures((start,), s0));
        assert forall|g: spec_fn(Seq<Ternary>) -> Score| #[trigger] computes(fitness, g) implies (
        is_peak(g, r.0@) || self.iteration_limit() == 0 || (g(start@) matches Some(a)
            && r.1 matches Some(b) && b >= a + self.iteration_limit())) by {
            assert(self.descent_matches(g, start@, state, best_fit));
            lemma_descent_result_ends(g, self.iteration_limit(), start@);
        }
        r
    }
}

} // verus!
