//! The genetic algorithm: population, tournament selection, uniform crossover, mutation and
//! elitism. The caller evaluates the population and hands its scores back.
use vstd::prelude::*;

use crate::point::{random_coords, TernaryPoint};
use crate::rng::{lcg_iter, lcg_next, lcg_step};
use crate::score::{
    at_least, beats, computes, first_best, is_at_least, scored_by, select_improving, Score,
};
use crate::ternary::{all_values, Ternary};

verus! {

/// Genetic algorithm with ternary crossover.
pub struct GeneticOptimizer {
    dim: usize,
    pop_size: usize,
    generations: usize,
    seed: u64,
}

/// The coordinates of each point of a population.
pub open spec fn views(pop: Seq<TernaryPoint>) -> Seq<Seq<Ternary>> {
    pop.map_values(|p: TernaryPoint| p@)
}

/// A number below `n` drawn from generator state `s`: `(s as usize) % n`.
pub open spec fn draw(s: u64, n: nat) -> nat {
    (s as usize) as nat % n
}

/// The winner of a tournament of two drawn from state `s`: the first contestant unless the
/// second scores strictly higher or one score is absent.
pub open spec fn tournament_winner(scores: Seq<Score>, s: u64) -> nat {
    let a = draw(lcg_iter(s, 1), scores.len());
    let b = draw(lcg_iter(s, 2), scores.len());
    if at_least(scores[a as int], scores[b as int]) {
        a
    } else {
        b
    }
}

/// Uniform crossover driven from state `s`: coordinate `j` comes from `p1` when the state after
/// `j + 1` steps is even, else from `p2`.
pub open spec fn crossover(p1: Seq<Ternary>, p2: Seq<Ternary>, dim: nat, s: u64) -> Seq<Ternary> {
    Seq::new(
        dim,
        |j: int|
            if lcg_iter(s, (j + 1) as nat) % 2 == 0 {
                p1[j]
            } else {
                p2[j]
            },
    )
}

/// No child of `children` bred from state `s` in dimension 0 draws a mutation: each child
/// takes six steps of the generator, the last deciding on mutation.
pub open spec fn draws_no_mutation(s: u64, children: nat) -> bool
    decreases children,
{
    children == 0 || (lcg_iter(s, 6) % 100 >= 10 && draws_no_mutation(
        lcg_iter(s, 6),
        (children - 1) as nat,
    ))
}

/// A tournament's winner is one of its two drawn contestants, and scores at least as high as
/// each of them whenever both scores are present; it is the first when the first scores
/// strictly higher and the second when the second does.
pub proof fn lemma_tournament_picks_fitter(scores: Seq<Score>, s: u64)
    requires
        scores.len() > 0,
    ensures
        ({
            let n = scores.len();
            let a = draw(lcg_iter(s, 1), n) as int;
            let b = draw(lcg_iter(s, 2), n) as int;
            let w = tournament_winner(scores, s) as int;
            &&& 0 <= w < n
            &&& w == a || w == b
            &&& scores[a] is Some && scores[b] is Some ==> at_least(scores[w], scores[a]) && at_least(
                scores[w],
                scores[b],
            )
            &&& crate::score::beats(scores[a], scores[b]) ==> w == a
            &&& crate::score::beats(scores[b], scores[a]) ==> w == b
        }),
{
}

impl GeneticOptimizer {
    pub closed spec fn dimension(&self) -> nat {
        self.dim as nat
    }

    pub closed spec fn population_size(&self) -> nat {
        self.pop_size as nat
    }

    pub closed spec fn generation_count(&self) -> nat {
        self.generations as nat
    }

    pub closed spec fn seed_value(&self) -> u64 {
        self.seed
    }

    /// One child bred from state `s`, and the state after it: two tournaments pick the
    /// parents, one step is spent on an empty point, the crossover takes one step per
    /// coordinate, and one more step decides on mutation (below 10 of 100); a mutation draws a
    /// coordinate and a new value for it. (In dimension 0 there is no coordinate to mutate;
    /// `next_generation` is not called where such a mutation is drawn.)
    pub open spec fn breed_child(&self, pop: Seq<Seq<Ternary>>, scores: Seq<Score>, s: u64) -> (
        Seq<Ternary>,
        u64,
    ) {
        let a = tournament_winner(scores, s);
        let b = tournament_winner(scores, lcg_iter(s, 2));
        let t = lcg_iter(s, 5);
        let c = crossover(pop[a as int], pop[b as int], self.dimension(), t);
        let m = lcg_iter(t, self.dimension() + 1);
        if m % 100 < 10 && self.dimension() > 0 {
            let x = lcg_step(m);
            let y = lcg_step(x);
            (c.update(draw(x, self.dimension()) as int, all_values()[draw(y, 3) as int]), y)
        } else {
            (c, m)
        }
    }

    /// The first `k` children bred from state `s`, and the state after them.
    pub open spec fn breed(&self, pop: Seq<Seq<Ternary>>, scores: Seq<Score>, s: u64, k: nat) -> (
        Seq<Seq<Ternary>>,
        u64,
    )
        decreases k,
    {
        if k == 0 {
            (Seq::empty(), s)
        } else {
            let (prev, t) = self.breed(pop, scores, s, (k - 1) as nat);
            let (c, u) = self.breed_child(pop, scores, t);
            (prev.push(c), u)
        }
    }

    /// A bred child: its parents are the winners of two tournaments, drawn from `s` and from
    /// the state two steps later. Without a mutation, coordinate `j` is the first parent's when
    /// the `j`-th crossover draw is even and the second parent's when it is odd. With a
    /// mutation (a draw below 10 of 100, in a positive dimension), the coordinate drawn next
    /// holds the value drawn after it, and every other coordinate is as the crossover made it.
    pub proof fn lemma_breed_child_shape(
        &self,
        pop: Seq<Seq<Ternary>>,
        scores: Seq<Score>,
        s: u64,
    )
        requires
            pop.len() == scores.len(),
            scores.len() > 0,
            forall|k: int| 0 <= k < pop.len() ==> (#[trigger] pop[k]).len() >= self.dimension(),
        ensures
            ({
                let d = self.dimension();
                let (child, after) = self.breed_child(pop, scores, s);
                let p1 = pop[tournament_winner(scores, s) as int];
                let p2 = pop[tournament_winner(scores, lcg_iter(s, 2)) as int];
                let t = lcg_iter(s, 5);
                let m = lcg_iter(t, d + 1);
                let from_parents = |j: int|
                    if lcg_iter(t, (j + 1) as nat) % 2 == 0 {
                        p1[j]
                    } else {
                        p2[j]
                    };
                &&& child.len() == d
                &&& if m % 100 < 10 && d > 0 {
                    let idx = draw(lcg_step(m), d) as int;
                    &&& child[idx] == all_values()[draw(lcg_step(lcg_step(m)), 3) as int]
                    &&& forall|j: int| 0 <= j < d && j != idx ==> #[trigger] child[j] == from_parents(j)
                    &&& after == lcg_iter(m, 2)
                } else {
                    &&& forall|j: int| 0 <= j < d ==> #[trigger] child[j] == from_parents(j)
                    &&& after == m
                }
            }),
    {
        let d = self.dimension();
        let t = lcg_iter(s, 5);
        let m = lcg_iter(t, d + 1);
        crate::rng::lemma_lcg_iter_succ(m, 0);
        crate::rng::lemma_lcg_iter_succ(m, 1);
        if m % 100 < 10 && d > 0 {
            assert(draw(lcg_step(m), d) < d);
        }
    }

    /// Breeding `k` children gives `k` children.
    pub proof fn lemma_breed_len(&self, pop: Seq<Seq<Ternary>>, scores: Seq<Score>, s: u64, k: nat)
        ensures
            self.breed(pop, scores, s, k).0.len() == k,
        decreases k,
    {
        if k > 0 {
            self.lemma_breed_len(pop, scores, s, (k - 1) as nat);
        }
    }

    /// Every bred child has the optimizer's dimension.
    pub proof fn lemma_children_dimension(
        &self,
        pop: Seq<Seq<Ternary>>,
        scores: Seq<Score>,
        s: u64,
        k: nat,
    )
        ensures
            forall|i: int|
                0 <= i < k ==> (#[trigger] self.breed(pop, scores, s, k).0[i]).len()
                    == self.dimension(),
        decreases k,
    {
        if k > 0 {
            self.lemma_children_dimension(pop, scores, s, (k - 1) as nat);
            self.lemma_breed_len(pop, scores, s, (k - 1) as nat);
            let (prev, t) = self.breed(pop, scores, s, (k - 1) as nat);
            let c = self.breed_child(pop, scores, t).0;
            assert(c.len() == self.dimension());
            assert forall|i: int| 0 <= i < k implies (#[trigger] self.breed(pop, scores, s, k).0[i]).len()
                == self.dimension() by {
                if i < k - 1 {
                    assert(self.breed(pop, scores, s, k).0[i] == prev[i]);
                }
            }
        }
    }

    /// The first population: point `k` is the random point of the state after `k + 1` steps
    /// from the seed.
    pub open spec fn first_population(&self) -> Seq<Seq<Ternary>> {
        Seq::new(
            self.population_size(),
            |k: int| random_coords(self.dimension(), lcg_iter(self.seed_value(), (k + 1) as nat)),
        )
    }

    /// The scores of a population under the scoring `f`.
    pub open spec fn population_scores(f: spec_fn(Seq<Ternary>) -> Score, pop: Seq<Seq<Ternary>>) -> Seq<
        Score,
    > {
        Seq::new(pop.len(), |k: int| f(pop[k]))
    }

    /// A run scored by `f` after `g` generations: the population, the generator state, the best
    /// point and the best score. Each generation scores its population, keeps the first point
    /// scoring strictly above the best score as the new best, and breeds the next population
    /// with the best point in the first place.
    pub open spec fn run_state(&self, f: spec_fn(Seq<Ternary>) -> Score, g: nat) -> (
        Seq<Seq<Ternary>>,
        u64,
        Seq<Ternary>,
        Score,
    )
        decreases g,
    {
        if g == 0 {
            (
                self.first_population(),
                lcg_iter(self.seed_value(), self.population_size()),
                self.first_population()[0],
                Some(0u64),
            )
        } else {
            let (pop, rng, best, best_score) = self.run_state(f, (g - 1) as nat);
            let scores = Self::population_scores(f, pop);
            let (next_best, next_score) = match first_best(best_score, scores) {
                Some(k) => (pop[k], scores[k]),
                None => (best, best_score),
            };
            let (children, next_rng) = self.breed(pop, scores, rng, self.population_size());
            (children.update(0, next_best), next_rng, next_best, next_score)
        }
    }

    /// A run scored by `f` after `g` generations has population `pop`, generator state `rng`,
    /// best point `best` and best score `fit`.
    pub open spec fn run_matches(
        &self,
        f: spec_fn(Seq<Ternary>) -> Score,
        g: nat,
        pop: Seq<Seq<Ternary>>,
        rng: u64,
        best: Seq<Ternary>,
        fit: Score,
    ) -> bool {
        self.run_state(f, g) == (pop, rng, best, fit)
    }

    /// One more generation never lowers the best score: it stays or rises strictly.
    pub proof fn lemma_best_never_falls(&self, f: spec_fn(Seq<Ternary>) -> Score, g: nat)
        ensures
            self.run_state(f, g + 1).3 == self.run_state(f, g).3 || beats(
                self.run_state(f, g + 1).3,
                self.run_state(f, g).3,
            ),
    {
        let (pop, rng, best, best_score) = self.run_state(f, g);
        let scores = Self::population_scores(f, pop);
        if first_best(best_score, scores) is Some {
            crate::score::lemma_first_best_improves(best_score, scores);
        }
    }

    /// After `g` generations, no point scored in an earlier generation `h` scores strictly
    /// above the best score: the best score is the greatest of all scores seen.
    pub proof fn lemma_best_dominates(&self, f: spec_fn(Seq<Ternary>) -> Score, g: nat, h: nat, k: int)
        requires
            h < g,
            0 <= k < self.run_state(f, h).0.len(),
        ensures
            !beats(f(self.run_state(f, h).0[k]), self.run_state(f, g).3),
        decreases g,
    {
        let (pop, rng, best, best_score) = self.run_state(f, h);
        let scores = Self::population_scores(f, pop);
        assert(scores[k] == f(pop[k]));
        if g == h + 1 {
            if first_best(best_score, scores) is Some {
                crate::score::lemma_first_best_improves(best_score, scores);
            } else if beats(scores[k], best_score) {
                crate::score::lemma_first_best_exists(best_score, scores, k);
            }
        } else {
            self.lemma_best_dominates(f, (g - 1) as nat, h, k);
            self.lemma_best_never_falls(f, (g - 1) as nat);
            assert((g - 1) as nat + 1 == g);
            crate::score::lemma_beats_transitive(
                f(pop[k]),
                self.run_state(f, g).3,
                self.run_state(f, (g - 1) as nat).3,
            );
        }
    }

    pub fn new(dim: usize, pop_size: usize, generations: usize, seed: u64) -> (r: Self)
        ensures
            r.dimension() == dim,
            r.population_size() == pop_size,
            r.generation_count() == generations,
            r.seed_value() == seed,
    {
        Self { dim, pop_size, generations, seed }
    }

    /// The number of points in a population.
    pub fn pop_size(&self) -> (r: usize)
        ensures
            r == self.population_size(),
    {
        self.pop_size
    }

    /// Advance the generator state `s` by one step and return the new state.
    fn next_seed(&self, s: &mut u64) -> (r: u64)
        ensures
            *final(s) == lcg_step(*old(s)),
            r == *final(s),
    {
        *s = lcg_next(*s);
        *s
    }

    /// The first population, and the generator state after drawing it: point `k` is the
    /// random point of the state after `k + 1` steps from the seed.
    pub fn initial_population(&self) -> (r: (Vec<TernaryPoint>, u64))
        ensures
            r.0@.len() == self.population_size(),
            forall|k: int|
                0 <= k < r.0@.len() ==> (#[trigger] r.0@[k])@ == random_coords(
                    self.dimension(),
                    lcg_iter(self.seed_value(), (k + 1) as nat),
                ),
            r.1 == lcg_iter(self.seed_value(), self.population_size()),
    {
        let mut rng = self.seed;
        let mut pop: Vec<TernaryPoint> = Vec::with_capacity(self.pop_size);
        for k in 0..self.pop_size
            invariant
                pop@.len() == k,
                rng == lcg_iter(self.seed, k as nat),
                forall|m: int|
                    0 <= m < k ==> (#[trigger] pop@[m])@ == random_coords(
                        self.dim as nat,
                        lcg_iter(self.seed, (m + 1) as nat),
                    ),
        {
            let s = self.next_seed(&mut rng);
            pop.push(TernaryPoint::random(self.dim, s));
        }
        (pop, rng)
    }

    /// A run can breed all its generations: in dimension 0, where a mutation has no coordinate
    /// to change, no child of any generation draws one.
    pub open spec fn run_is_safe(&self) -> bool {
        self.dimension() > 0 || draws_no_mutation(
            lcg_iter(self.seed_value(), self.population_size()),
            self.population_size() * self.generation_count(),
        )
    }

    /// Breeding `a + b` children in dimension 0 without a mutation is breeding `a` children
    /// without one, then `b` more from the state six steps per child later.
    proof fn lemma_draws_split(s: u64, a: nat, b: nat)
        ensures
            draws_no_mutation(s, a + b) == (draws_no_mutation(s, a) && draws_no_mutation(
                lcg_iter(s, 6 * a),
                b,
            )),
        decreases a,
    {
        if a > 0 {
            Self::lemma_draws_split(lcg_iter(s, 6), (a - 1) as nat, b);
            crate::rng::lemma_lcg_iter_add(s, 6, (6 * (a - 1)) as nat);
            assert(((a - 1) as nat + b) == (a + b - 1) as nat);
        }
    }

    /// In dimension 0, breeding `k` children without a mutation takes six steps per child.
    proof fn lemma_breed_state_zero_dim(
        &self,
        pop: Seq<Seq<Ternary>>,
        scores: Seq<Score>,
        s: u64,
        k: nat,
    )
        requires
            self.dimension() == 0,
            draws_no_mutation(s, k),
        ensures
            self.breed(pop, scores, s, k).1 == lcg_iter(s, 6 * k),
        decreases k,
    {
        if k > 0 {
            Self::lemma_draws_split(s, (k - 1) as nat, 1);
            self.lemma_breed_state_zero_dim(pop, scores, s, (k - 1) as nat);
            let t = lcg_iter(s, (6 * (k - 1)) as nat);
            crate::rng::lemma_lcg_iter_add(t, 5, 1);
            crate::rng::lemma_lcg_iter_add(s, (6 * (k - 1)) as nat, 6);
        }
    }

    /// In dimension 0, the state after a generation bred from `s` without a mutation; `None`
    /// when a child of it draws one.
    fn zero_dim_generation(&self, s: u64) -> (r: Option<u64>)
        ensures
            r is Some <==> draws_no_mutation(s, self.population_size()),
            r matches Some(t) ==> t == lcg_iter(s, 6 * self.population_size()),
    {
        let mut t = s;
        let mut k: usize = 0;
        while k < self.pop_size
            invariant
                k <= self.pop_size,
                t == lcg_iter(s, 6 * k as nat),
                draws_no_mutation(s, self.pop_size as nat) == draws_no_mutation(
                    t,
                    (self.pop_size - k) as nat,
                ),
            decreases self.pop_size - k,
        {
            let ghost start = t;
            let mut m: usize = 0;
            while m < 6
                invariant
                    m <= 6,
                    t == lcg_iter(start, m as nat),
                decreases 6 - m,
            {
                t = lcg_next(t);
                m = m + 1;
            }
            proof {
                crate::rng::lemma_lcg_iter_add(s, 6 * k as nat, 6);
                assert(6 * k as nat + 6 == 6 * (k + 1) as nat);
                assert(((self.pop_size - k) as nat - 1) as nat == (self.pop_size - (k + 1)) as nat);
            }
            if t % 100 < 10 {
                return None;
            }
            k = k + 1;
        }
        Some(t)
    }

    /// Whether a run can breed all its generations (see `run_is_safe`).
    pub fn run_can_breed(&self) -> (r: bool)
        ensures
            r == self.run_is_safe(),
    {
        if self.dim > 0 {
            return true;
        }
        let mut s = self.seed;
        for k in 0..self.pop_size
            invariant
                s == lcg_iter(self.seed, k as nat),
        {
            s = lcg_next(s);
        }
        let ghost s0 = s;
        let ghost n = self.pop_size as nat;
        assert(n * self.generations as nat == n * (self.generations - 0) as nat);
        let mut g: usize = 0;
        while g < self.generations
            invariant
                g <= self.generations,
                n == self.pop_size,
                self.run_is_safe() == draws_no_mutation(s0, n * self.generations as nat),
                draws_no_mutation(s0, n * self.generations as nat) == draws_no_mutation(
                    s,
                    n * (self.generations - g) as nat,
                ),
            decreases self.generations - g,
        {
            proof {
                let rest = (self.generations - g - 1) as nat;
                assert(n * (self.generations - g) as nat == n + n * rest) by (nonlinear_arith)
                    requires
                        rest + 1 == self.generations - g,
                ;
                Self::lemma_draws_split(s, n, n * rest);
            }
            match self.zero_dim_generation(s) {
                None => {
                    return false;
                },
                Some(t) => {
                    s = t;
                },
            }
            g = g + 1;
        }
        assert(n * (self.generations - g) as nat == 0) by (nonlinear_arith)
            requires
                g == self.generations,
        ;
        true
    }

    /// A tournament of two drawn from the generator: the index of the winner.
    fn tournament(&self, scores: &Vec<Score>, rng: &mut u64) -> (r: usize)
        requires
            scores@.len() > 0,
        ensures
            r == tournament_winner(scores@, *old(rng)),
            r < scores@.len(),
            *final(rng) == lcg_iter(*old(rng), 2),
    {
        let n = scores.len();
        proof {
            crate::rng::lemma_lcg_iter_succ(*rng, 0);
            crate::rng::lemma_lcg_iter_succ(*rng, 1);
        }
        let i1 = (self.next_seed(rng) as usize) % n;
        let i2 = (self.next_seed(rng) as usize) % n;
        if is_at_least(scores[i1], scores[i2]) {
            i1
        } else {
            i2
        }
    }

    /// One child bred from `pop` with the generator state `rng`.
    fn breed_one(&self, pop: &Vec<TernaryPoint>, scores: &Vec<Score>, rng: &mut u64) -> (r:
        TernaryPoint)
        requires
            pop@.len() > 0,
            scores@.len() == pop@.len(),
            forall|k: int| 0 <= k < pop@.len() ==> (#[trigger] pop@[k])@.len() >= self.dimension(),
            self.dimension() > 0 || lcg_iter(*old(rng), 6) % 100 >= 10,
        ensures
            (r@, *final(rng)) == self.breed_child(views(pop@), scores@, *old(rng)),
    {
        let ghost s = *rng;
        let a = self.tournament(scores, rng);
        let b = self.tournament(scores, rng);
        proof {
            crate::rng::lemma_lcg_iter_add(s, 2, 2);
        }
        let p1 = &pop[a];
        let p2 = &pop[b];
        proof {
            crate::rng::lemma_lcg_iter_succ(s, 4);
        }
        let mut child = TernaryPoint::random(0, self.next_seed(rng));
        let ghost t = *rng;
        proof {
            assert(t == lcg_iter(s, 5));
            assert(child@ =~= crossover(p1@, p2@, self.dim as nat, t).take(0));
        }
        for j in 0..self.dim
            invariant
                p1@.len() >= self.dim,
                p2@.len() >= self.dim,
                *rng == lcg_iter(t, j as nat),
                child@ == crossover(p1@, p2@, self.dim as nat, t).take(j as int),
        {
            proof {
                crate::rng::lemma_lcg_iter_succ(t, j as nat);
            }
            let pick = self.next_seed(rng);
            let c = if pick % 2 == 0 {
                p1.get(j).unwrap()
            } else {
                p2.get(j).unwrap()
            };
            child.push(c);
            assert(child@ =~= crossover(p1@, p2@, self.dim as nat, t).take(j + 1));
        }
        assert(child@ =~= crossover(p1@, p2@, self.dim as nat, t));
        proof {
            crate::rng::lemma_lcg_iter_succ(t, self.dim as nat);
        }
        let muts = self.next_seed(rng) % 100;
        proof {
            assert(*rng == lcg_iter(t, self.dim as nat + 1));
            if self.dim == 0 {
                crate::rng::lemma_lcg_iter_add(s, 5, 1);
            }
        }
        if muts < 10 {
            let idx = (self.next_seed(rng) as usize) % self.dim;
            let vals = Ternary::all();
            child.set(idx, vals[(self.next_seed(rng) as usize) % 3]);
        }
        child
    }

    /// Breed the next population from `pop`, whose scores are `scores`: child by child, pick
    /// two parents by tournament, cross them over and maybe mutate the child; then put a copy
    /// of `best` in place of the first child. `rng` is the generator state, advanced by every
    /// draw.
    pub fn next_generation(
        &self,
        pop: &Vec<TernaryPoint>,
        scores: &Vec<Score>,
        best: &TernaryPoint,
        rng: &mut u64,
    ) -> (r: Vec<TernaryPoint>)
        requires
            self.population_size() > 0,
            pop@.len() == self.population_size(),
            scores@.len() == self.population_size(),
            forall|k: int| 0 <= k < pop@.len() ==> (#[trigger] pop@[k])@.len() >= self.dimension(),
            self.dimension() > 0 || draws_no_mutation(*old(rng), self.population_size()),
        ensures
            ({
                let (children, s) = self.breed(
                    views(pop@),
                    scores@,
                    *old(rng),
                    self.population_size(),
                );
                &&& r@.len() == self.population_size()
                &&& r@[0]@ == best@
                &&& forall|k: int| 1 <= k < r@.len() ==> (#[trigger] r@[k])@ == children[k]
                &&& *final(rng) == s
            }),
    {
        let n = self.pop_size;
        let ghost s0 = *rng;
        let ghost pv = views(pop@);
        let mut new_pop: Vec<TernaryPoint> = Vec::with_capacity(n);
        for c in 0..n
            invariant
                n == self.pop_size,
                n > 0,
                pop@.len() == n,
                scores@.len() == n,
                pv == views(pop@),
                forall|k: int| 0 <= k < pop@.len() ==> (#[trigger] pop@[k])@.len() >= self.dim,
                self.dim > 0 || draws_no_mutation(*rng, (n - c) as nat),
                views(new_pop@) == self.breed(pv, scores@, s0, c as nat).0,
                *rng == self.breed(pv, scores@, s0, c as nat).1,
        {
            let ghost s = *rng;
            let child = self.breed_one(pop, scores, rng);
            proof {
                if self.dim == 0 {
                    crate::rng::lemma_lcg_iter_add(s, 5, 1);
                }
            }
            new_pop.push(child);
            assert(views(new_pop@) =~= self.breed(pv, scores@, s0, (c + 1) as nat).0);
        }
        let ghost children = views(new_pop@);
        assert(children == self.breed(pv, scores@, s0, n as nat).0);
        assert(*rng == self.breed(pv, scores@, s0, n as nat).1);
        proof {
            self.lemma_breed_len(pv, scores@, s0, n as nat);
        }
        assert(new_pop@.len() == n);
        new_pop.set(0, best.copy());
        assert forall|k: int| 1 <= k < new_pop@.len() implies (#[trigger] new_pop@[k])@ == children[k] by {
        }
        new_pop
    }

    /// Run the algorithm, scoring points with `fitness`: draw the first population; then, in
    /// each generation, score every point, keep the first point scoring strictly above the best
    /// score so far as the new best, and breed the next population. The best score starts at
    /// `Some(0)`, the least score, so a point becomes the best only by scoring above it; until
    /// one does, the best point is the first of the first population. Returns the best point
    /// and its score.
    pub fn optimize<F: Fn(&TernaryPoint) -> Score>(&self, fitness: &F) -> (r: (TernaryPoint, Score))
        requires
            self.population_size() > 0,
            self.run_is_safe(),
            forall|p: &TernaryPoint| fitness.requires((p,)),
        ensures
            r.0@.len() == self.dimension(),
            r.1 == Some(0u64) || scored_by(fitness, r.0@, r.1),
            r.1 == Some(0u64) || beats(r.1, Some(0u64)),
            r.1 == Some(0u64) ==> r.0@ == random_coords(
                self.dimension(),
                lcg_iter(self.seed_value(), 1),
            ),
            self.generation_count() == 0 ==> r.1 == Some(0u64),
            self.generation_count() > 0 && (forall|p: &TernaryPoint, s: Score|
                #[trigger] fitness.ensures((p,), s) ==> beats(s, Some(0u64))) ==> r.1 != Some(
                0u64,
            ),
            forall|f: spec_fn(Seq<Ternary>) -> Score| #[trigger] computes(fitness, f) ==> {
                let st = self.run_state(f, self.generation_count());
                &&& r.0@ == st.2
                &&& r.1 == st.3
                &&& forall|h: nat, k: int|
                    h < self.generation_count() && 0 <= k < self.run_state(f, h).0.len() ==> !beats(
                        #[trigger] f(self.run_state(f, h).0[k]),
                        r.1,
                    )
            },
    {
        let (mut pop, mut rng) = self.initial_population();
        let ghost all_beat = forall|p: &TernaryPoint, s: Score|
            #[trigger] fitness.ensures((p,), s) ==> beats(s, Some(0u64));
        proof {
            assert(views(pop@) =~= self.first_population());
        }
        let mut best_point = pop[0].copy();
        let mut best_fit: Score = Some(0);
        assert(forall|f: spec_fn(Seq<Ternary>) -> Score| #[trigger] computes(fitness, f)
            ==> self.run_matches(f, 0, views(pop@), rng, best_point@, best_fit));
        let ghost mut witness: TernaryPoint = best_point;
        let ghost n = self.pop_size as nat;
        let mut g: usize = 0;
        proof {
            assert(n * self.generations as nat == n * (self.generations - 0) as nat);
        }
        while g < self.generations
            invariant
                forall|p: &TernaryPoint| fitness.requires((p,)),
                n == self.pop_size,
                n > 0,
                g <= self.generations,
                pop@.len() == n,
                forall|k: int| 0 <= k < pop@.len() ==> (#[trigger] pop@[k])@.len() == self.dim,
                best_point@.len() == self.dim,
                witness@ == best_point@,
                best_fit == Some(0u64) || fitness.ensures((&witness,), best_fit),
                best_fit == Some(0u64) || beats(best_fit, Some(0u64)),
                best_fit == Some(0u64) ==> best_point@ == random_coords(
                    self.dim as nat,
                    lcg_iter(self.seed, 1),
                ),
                self.dim > 0 || draws_no_mutation(rng, n * (self.generations - g) as nat),
                g == 0 ==> best_fit == Some(0u64),
                all_beat == (forall|p: &TernaryPoint, s: Score|
                    #[trigger] fitness.ensures((p,), s) ==> beats(s, Some(0u64))),
                all_beat && g > 0 ==> best_fit != Some(0u64),
                forall|f: spec_fn(Seq<Ternary>) -> Score| #[trigger] computes(fitness, f)
                    ==> self.run_matches(f, g as nat, views(pop@), rng, best_point@, best_fit),
            decreases self.generations - g,
        {
            let mut scores: Vec<Score> = Vec::with_capacity(pop.len());
            for k in 0..pop.len()
                invariant
                    forall|p: &TernaryPoint| fitness.requires((p,)),
                    scores@.len() == k,
                    forall|m: int| 0 <= m < k ==> fitness.ensures((&pop@[m],), #[trigger] scores@[m]),
            {
                scores.push(fitness(&pop[k]));
            }
            let ghost pv = views(pop@);
            let ghost rng0 = rng;
            let ghost best0 = best_point@;
            let ghost fit0 = best_fit;
            assert(forall|f: spec_fn(Seq<Ternary>) -> Score| #[trigger] computes(fitness, f)
                ==> self.run_matches(f, g as nat, pv, rng0, best0, fit0));
            proof {
                if all_beat {
                    assert(fitness.ensures((&pop@[0],), scores@[0]));
                    assert(beats(scores@[0], Some(0u64)));
                }
            }
            match select_improving(best_fit, &scores) {
                Some(k) => {
                    proof {
                        crate::score::lemma_first_best_improves(best_fit, scores@);
                        crate::score::lemma_beats_transitive(scores@[k as int], best_fit, Some(0u64));
                    }
                    best_fit = scores[k];
                    best_point = pop[k].copy();
                    proof {
                        witness = pop@[k as int];
                    }
                },
                None => {},
            }
            let ghost rest = (self.generations - g - 1) as nat;
            let ghost s = rng;
            proof {
                assert(n * (self.generations - g) as nat == n + n * rest) by (nonlinear_arith)
                    requires
                        rest + 1 == self.generations - g,
                ;
                Self::lemma_draws_split(rng, n, n * rest);
            }
            let next = self.next_generation(&pop, &scores, &best_point, &mut rng);
            proof {
                self.lemma_breed_len(pv, scores@, s, n);
                assert forall|f: spec_fn(Seq<Ternary>) -> Score| #[trigger] computes(fitness, f)
                    implies self.run_matches(f, (g + 1) as nat, views(next@), rng, best_point@, best_fit) by {
                    assert(self.run_matches(f, g as nat, pv, rng0, best0, fit0));
                    assert forall|m: int| 0 <= m < scores@.len() implies #[trigger] scores@[m] == f(
                        pv[m],
                    ) by {
                        assert(fitness.ensures((&pop@[m],), scores@[m]));
                    }
                    assert(scores@ =~= Self::population_scores(f, pv));
                    let children = self.breed(pv, scores@, s, n).0;
                    assert(views(next@) =~= children.update(0, best_point@));
                    assert((g + 1) as nat - 1 == g as nat);
                }
                self.lemma_children_dimension(views(pop@), scores@, s, n);
                if self.dim == 0 {
                    self.lemma_breed_state_zero_dim(views(pop@), scores@, s, n);
                }
                assert forall|k: int| 0 <= k < next@.len() implies (#[trigger] next@[k])@.len() == self.dim by {
                    if k > 0 {
                        assert(next@[k]@ == self.breed(views(pop@), scores@, s, n).0[k]);
                    }
                }
                assert(((self.generations - g) - 1) as nat == rest);
            }
            pop = next;
            g = g + 1;
        }
        let r = (best_point, best_fit);
        assert(r.1 == Some(0u64) || (witness@ == r.0@ && fitness.ensures((&witness,), r.1)));
        assert forall|f: spec_fn(Seq<Ternary>) -> Score| #[trigger] computes(fitness, f) implies {
            let st = self.run_state(f, self.generation_count());
            &&& r.0@ == st.2
            &&& r.1 == st.3
            &&& forall|h: nat, k: int|
                h < self.generation_count() && 0 <= k < self.run_state(f, h).0.len() ==> !beats(
                    #[trigger] f(self.run_state(f, h).0[k]),
                    r.1,
                )
        } by {
            assert(self.run_matches(f, g as nat, views(pop@), rng, best_point@, best_fit));
            let gc = self.generation_count();
            assert forall|h: nat, k: int|
                h < gc && 0 <= k < self.run_state(f, h).0.len() implies !beats(
                #[trigger] f(self.run_state(f, h).0[k]),
                r.1,
            ) by {
                self.lemma_best_dominates(f, gc, h, k);
            }
        }
        r
    }
}

} // verus!
