use lib::landscape::{all_points, point_at};
use lib::score::select_improving;
use lib::{CoordinateDescent, GeneticOptimizer, HillClimbing, ScoreLandscape, Ternary, TernaryPoint};

/// The score of -infinity: the least score.
const NEG_INF_KEY: u64 = !0xFFF0_0000_0000_0000u64;

/// The score of a fitness value: a key that orders as the values do (NaN has none).
fn score(x: f64) -> Option<u64> {
    if x.is_nan() {
        return None;
    }
    let x = if x == 0.0 { 0.0 } else { x };
    let b = x.to_bits();
    let m = if b >> 63 == 1 { !b } else { b | (1u64 << 63) };
    Some(m - NEG_INF_KEY)
}

/// The fitness value of a score.
fn value(s: Option<u64>) -> f64 {
    match s {
        None => f64::NAN,
        Some(k) => {
            let m = k + NEG_INF_KEY;
            let b = if m >> 63 == 1 { m & !(1u64 << 63) } else { !m };
            f64::from_bits(b)
        }
    }
}

fn scored(f: fn(&TernaryPoint) -> f64) -> impl Fn(&TernaryPoint) -> Option<u64> {
    move |p: &TernaryPoint| score(f(p))
}

fn count_ones(p: &TernaryPoint) -> f64 {
    p.coords().iter().filter(|&&v| v == Ternary::Pos).count() as f64
}

fn negate_ones(p: &TernaryPoint) -> f64 {
    -(p.coords().iter().filter(|&&v| v == Ternary::Neg).count() as f64)
}

fn sum_fn(p: &TernaryPoint) -> f64 {
    p.coords().iter().map(|&v| v.to_i8() as f64).sum()
}

fn landscape_from_fn(dim: usize, f: fn(&TernaryPoint) -> f64) -> ScoreLandscape {
    ScoreLandscape::from_fn(dim, &scored(f))
}

#[test]
fn test_coordinate_descent_finds_optimum() {
    let cd = CoordinateDescent::new(4, 100);
    let start = TernaryPoint::from_i8_slice(&[0, 0, 0, 0]).unwrap();
    let (best, fit) = cd.optimize(&scored(count_ones), &start);
    let fit = value(fit);
    assert_eq!(fit, 4.0);
    assert!(best.coords().iter().all(|&v| v == Ternary::Pos));
}

#[test]
fn test_coordinate_descent_negate() {
    let cd = CoordinateDescent::new(3, 100);
    let start = TernaryPoint::from_i8_slice(&[0, 0, 0]).unwrap();
    let (_, fit) = cd.optimize(&scored(negate_ones), &start);
    assert_eq!(value(fit), 0.0); // best is no negatives
}

#[test]
fn test_hill_climbing_sum() {
    let hc = HillClimbing::new(100);
    let start = TernaryPoint::from_i8_slice(&[0, 0, 0]).unwrap();
    let (best, fit) = hc.optimize(&scored(sum_fn), &start);
    assert_eq!(value(fit), 3.0);
    assert!(best.coords().iter().all(|&v| v == Ternary::Pos));
}

#[test]
fn test_hill_climbing_already_optimal() {
    let hc = HillClimbing::new(100);
    let start = TernaryPoint::from_i8_slice(&[1, 1, 1]).unwrap();
    let (best, fit) = hc.optimize(&scored(sum_fn), &start);
    assert_eq!(value(fit), 3.0);
    assert_eq!(best, start);
}

#[test]
fn test_genetic_optimizer_basic() {
    let ga = GeneticOptimizer::new(4, 20, 50, 123);
    let (_, fit) = ga.optimize(&scored(count_ones));
    assert_eq!(value(fit), 4.0);
}

#[test]
fn test_genetic_optimizer_sum() {
    let ga = GeneticOptimizer::new(5, 30, 100, 456);
    let (_, fit) = ga.optimize(&scored(sum_fn));
    assert_eq!(value(fit), 5.0);
}

#[test]
fn test_fitness_landscape_evaluate() {
    let landscape = landscape_from_fn(2, sum_fn);
    let p = TernaryPoint::from_i8_slice(&[1, 1]).unwrap();
    assert_eq!(value(landscape.evaluate(&p)), 2.0);
}

#[test]
fn test_fitness_landscape_global_optimum() {
    let landscape = landscape_from_fn(3, count_ones);
    let (pt, val) = landscape.global_optimum();
    assert_eq!(value(val), 3.0);
    assert!(pt.coords().iter().all(|&v| v == Ternary::Pos));
}

#[test]
fn test_fitness_landscape_steepest_ascent() {
    let landscape = landscape_from_fn(3, sum_fn);
    let start = TernaryPoint::from_i8_slice(&[0, 0, 0]).unwrap();
    let (_, val) = landscape.steepest_ascent(&start);
    assert_eq!(value(val), 3.0);
}

#[test]
fn test_fitness_landscape_count_local_optima() {
    // sum_fn has exactly 1 local (and global) optimum: all +1
    let landscape = landscape_from_fn(2, sum_fn);
    assert!(landscape.count_local_optima() >= 1);
}

#[test]
fn test_coordinate_descent_max_iters_zero() {
    let cd = CoordinateDescent::new(2, 0);
    let start = TernaryPoint::from_i8_slice(&[-1, -1]).unwrap();
    let (_, fit) = cd.optimize(&scored(count_ones), &start);
    assert_eq!(value(fit), 0.0); // no improvement possible in zero iters
}

#[test]
fn score_keys_order_as_values() {
    let xs = [f64::NEG_INFINITY, -3.5, -1.0, -0.0, 0.0, 1e-300, 2.0, f64::INFINITY];
    for &a in &xs {
        for &b in &xs {
            assert_eq!(a > b, score(a) > score(b));
            assert_eq!(a == b, score(a) == score(b));
        }
        assert_eq!(value(score(a)), a);
    }
    assert_eq!(score(f64::NEG_INFINITY), Some(0));
    assert_eq!(score(f64::NAN), None);
}

#[test]
fn select_improving_picks_first_strict_maximum() {
    let c = vec![Some(3), Some(5), None, Some(5), Some(1)];
    assert_eq!(select_improving(Some(2), &c), Some(1));
    assert_eq!(select_improving(Some(5), &c), None);
    assert_eq!(select_improving(None, &c), None);
    assert_eq!(select_improving(Some(0), &vec![None, None]), None);
    assert_eq!(select_improving(Some(0), &vec![]), None);
}

#[test]
fn landscape_index_numbers_points_in_base_three() {
    let l = ScoreLandscape::new(2, (0..9).map(|i| Some(i as u64)).collect());
    let p = TernaryPoint::from_i8_slice(&[1, -1]).unwrap(); // digits 2, 0
    assert_eq!(l.index_of(&p), 6);
    // a shorter point weighs its coordinates as the leading ones
    let q = TernaryPoint::from_i8_slice(&[0]).unwrap();
    assert_eq!(l.index_of(&q), 3);
    for i in 0..9 {
        let pt = point_at(2, i);
        assert_eq!(pt.dim(), 2);
        assert_eq!(l.index_of(&pt), i);
        assert_eq!(l.evaluate(&pt), Some(i as u64));
    }
}

#[test]
fn landscape_all_points_in_number_order() {
    let pts = all_points(2);
    assert_eq!(pts.len(), 9);
    assert_eq!(pts[0].coords(), &[Ternary::Neg, Ternary::Neg]);
    assert_eq!(pts[1].coords(), &[Ternary::Neg, Ternary::Zero]);
    assert_eq!(pts[5].coords(), &[Ternary::Zero, Ternary::Pos]);
    assert_eq!(pts[8].coords(), &[Ternary::Pos, Ternary::Pos]);
    assert_eq!(all_points(0).len(), 1);
}

#[test]
fn landscape_global_optimum_keeps_last_maximum_and_its_point() {
    // scores peak at numbers 2 and 7: the later one wins
    let scores = vec![Some(1), Some(0), Some(9), Some(3), Some(4), Some(5), Some(6), Some(9), Some(2)];
    let l = ScoreLandscape::new(2, scores);
    let (pt, val) = l.global_optimum();
    assert_eq!(val, Some(9));
    assert_eq!(l.index_of(&pt), 7);
    assert_eq!(pt.coords(), &[Ternary::Pos, Ternary::Zero]);
    assert_eq!(l.evaluate(&pt), val);
}

#[test]
fn landscape_global_optimum_asymmetric_point() {
    // the maximum of an asymmetric fitness is at [Pos, Neg, Neg]
    let l = landscape_from_fn(3, |p: &TernaryPoint| {
        let c = p.coords();
        c[0].to_i8() as f64 * 4.0 - c[1].to_i8() as f64 * 2.0 - c[2].to_i8() as f64
    });
    let (pt, val) = l.global_optimum();
    assert_eq!(pt.coords(), &[Ternary::Pos, Ternary::Neg, Ternary::Neg]);
    assert_eq!(value(val), 7.0);
}

#[test]
fn landscape_steepest_ascent_stays_at_optimum_and_never_descends() {
    let l = landscape_from_fn(3, sum_fn);
    let top = TernaryPoint::from_i8_slice(&[1, 1, 1]).unwrap();
    let (p, v) = l.steepest_ascent(&top);
    assert_eq!(p, top);
    assert_eq!(value(v), 3.0);
    for start in all_points(3) {
        let (_, v) = l.steepest_ascent(&start);
        assert!(value(v) >= sum_fn(&start));
    }
}

#[test]
fn landscape_count_local_optima_exact() {
    let l = landscape_from_fn(2, sum_fn);
    assert_eq!(l.count_local_optima(), 1);
    // a flat landscape: every point is a local optimum
    let flat = ScoreLandscape::new(2, vec![Some(7); 9]);
    assert_eq!(flat.count_local_optima(), 9);
    // a point whose score compares with nothing is a local optimum, and never beats a neighbour
    let mut scores = vec![Some(1); 3];
    scores[1] = None;
    let l1 = ScoreLandscape::new(1, scores);
    assert_eq!(l1.count_local_optima(), 3);
}

#[test]
fn coordinate_descent_state_machine_steps() {
    let cd = CoordinateDescent::new(2, 5);
    let start = TernaryPoint::from_i8_slice(&[0, 0]).unwrap();
    let st = cd.start(&start);
    assert!(!st.is_finished());
    let trials = cd.trials(&st);
    assert_eq!(trials[0].coords(), &[Ternary::Neg, Ternary::Zero]);
    assert_eq!(trials[1].coords(), &[Ternary::Pos, Ternary::Zero]);
    let (st, choice) = cd.advance(st, Some(5), &vec![Some(4), Some(6)]);
    assert_eq!(choice, Some(1));
    assert_eq!(st.current().coords(), &[Ternary::Pos, Ternary::Zero]);
    let (st, choice) = cd.advance(st, Some(6), &vec![Some(6), Some(2)]);
    assert_eq!(choice, None);
    // end of the pass: it improved, so a new pass starts
    assert!(!st.is_finished());
    let (st, _) = cd.advance(st, Some(6), &vec![Some(1), None]);
    let (st, _) = cd.advance(st, Some(6), &vec![Some(1), Some(6)]);
    // a pass without improvement ends the run
    assert!(st.is_finished());
    assert_eq!(st.current().coords(), &[Ternary::Pos, Ternary::Zero]);
    assert!(cd.start(&TernaryPoint::new(vec![])).is_finished());
}

#[test]
fn hill_climbing_state_machine_steps() {
    let hc = HillClimbing::new(1);
    let start = TernaryPoint::from_i8_slice(&[0]).unwrap();
    let st = hc.start(&start);
    let (st, choice) = hc.advance(st, Some(1), &vec![Some(0), Some(2)]);
    assert_eq!(choice, Some(1));
    assert_eq!(st.current().coords(), &[Ternary::Pos]);
    // the single allowed move is made
    assert!(st.is_finished());
    assert!(HillClimbing::new(0).start(&start).is_finished());
    let hc = HillClimbing::new(3);
    let (st, choice) = hc.advance(hc.start(&start), Some(2), &vec![Some(2), None]);
    assert_eq!(choice, None);
    assert!(st.is_finished());
    assert_eq!(st.current(), &start);
}

#[test]
fn genetic_initial_population_and_elitism() {
    let ga = GeneticOptimizer::new(3, 4, 1, 7);
    let (pop, rng) = ga.initial_population();
    assert_eq!(pop.len(), 4);
    let mut s = 7u64;
    for p in &pop {
        s = lib::rng::lcg_next(s);
        assert_eq!(p, &TernaryPoint::random(3, s));
    }
    assert_eq!(rng, s);
    let scores = vec![Some(1), Some(2), Some(3), Some(4)];
    let best = TernaryPoint::from_i8_slice(&[1, 1, 1]).unwrap();
    let mut r = rng;
    let next = ga.next_generation(&pop, &scores, &best, &mut r);
    assert_eq!(next.len(), 4);
    assert_eq!(next[0], best);
    assert!(next.iter().all(|p| p.dim() == 3));
    assert_ne!(r, rng);
    assert!(ga.run_can_breed());
}

#[test]
fn genetic_zero_dimension_runs() {
    let ga = GeneticOptimizer::new(0, 1, 1, 0);
    let safe = ga.run_can_breed();
    if safe {
        let (p, _) = ga.optimize(&scored(count_ones));
        assert_eq!(p.dim(), 0);
    }
    // a long run in dimension 0 draws a mutation somewhere
    assert!(!GeneticOptimizer::new(0, 20, 50, 123).run_can_breed());
}

fn neg_one(_p: &TernaryPoint) -> f64 {
    -1.0
}

#[test]
fn genetic_zero_generations_returns_first_point_and_least_score() {
    let ga = GeneticOptimizer::new(3, 5, 0, 11);
    let (p, fit) = ga.optimize(&scored(count_ones));
    assert_eq!(fit, Some(0));
    assert_eq!(value(fit), f64::NEG_INFINITY);
    assert_eq!(p, TernaryPoint::random(3, lib::rng::lcg_next(11)));
}

#[test]
fn genetic_best_is_an_attained_score() {
    let ga = GeneticOptimizer::new(2, 2, 1, 0);
    let (p, fit) = ga.optimize(&scored(neg_one));
    assert_eq!(value(fit), -1.0);
    assert_eq!(p, TernaryPoint::random(2, 1442695040888963407));
}

#[test]
fn genetic_more_generations_never_lower_the_best() {
    let mut last = f64::NEG_INFINITY;
    for g in 0..8 {
        let (_, fit) = GeneticOptimizer::new(4, 6, g, 77).optimize(&scored(sum_fn));
        assert!(value(fit) >= last);
        last = value(fit);
    }
}

#[test]
fn climbing_and_descent_with_no_move_return_the_start() {
    let start = TernaryPoint::from_i8_slice(&[0, -1, 1]).unwrap();
    let (p, fit) = HillClimbing::new(0).optimize(&scored(sum_fn), &start);
    assert_eq!(p, start);
    assert_eq!(value(fit), 0.0);
    let (p, fit) = CoordinateDescent::new(3, 0).optimize(&scored(sum_fn), &start);
    assert_eq!(p, start);
    assert_eq!(value(fit), 0.0);
}

#[test]
fn hill_climbing_one_move_goes_to_first_best_neighbour() {
    // from [0, 0]: neighbours [-1,0], [1,0], [0,-1], [0,1]; [1,0] and [0,1] tie, the first wins
    let start = TernaryPoint::from_i8_slice(&[0, 0]).unwrap();
    let (p, fit) = HillClimbing::new(1).optimize(&scored(sum_fn), &start);
    assert_eq!(p.coords(), &[Ternary::Pos, Ternary::Zero]);
    assert_eq!(value(fit), 1.0);
}

#[test]
fn climbing_and_descent_end_at_local_optima() {
    let f = |p: &TernaryPoint| {
        let c = p.coords();
        -((c[0].to_i8() as f64 - 1.0).powi(2)) - (c[1].to_i8() as f64 + 1.0).powi(2)
    };
    let start = TernaryPoint::from_i8_slice(&[-1, 1]).unwrap();
    for (p, _) in [
        HillClimbing::new(100).optimize(&|q: &TernaryPoint| score(f(q)), &start),
        CoordinateDescent::new(2, 100).optimize(&|q: &TernaryPoint| score(f(q)), &start),
    ] {
        for n in p.neighbors() {
            assert!(f(&n) <= f(&p));
        }
        assert_eq!(p.coords(), &[Ternary::Pos, Ternary::Neg]);
    }
}
