use lib::rng::lcg_next;
use lib::{Ternary, TernaryPoint};

#[test]
fn test_point_from_i8() {
    let p = TernaryPoint::from_i8_slice(&[-1, 0, 1]).unwrap();
    assert_eq!(p.dim(), 3);
    assert_eq!(p.get(0), Some(Ternary::Neg));
}

#[test]
fn test_point_from_i8_invalid() {
    assert!(TernaryPoint::from_i8_slice(&[2]).is_none());
}

#[test]
fn test_point_neighbors() {
    let p = TernaryPoint::from_i8_slice(&[0]).unwrap();
    let n = p.neighbors();
    assert_eq!(n.len(), 2); // can go to -1 or +1
}

#[test]
fn test_point_hamming() {
    let a = TernaryPoint::from_i8_slice(&[-1, 0, 1]).unwrap();
    let b = TernaryPoint::from_i8_slice(&[1, 0, -1]).unwrap();
    assert_eq!(a.hamming_distance(&b), 2);
}

#[test]
fn test_random_point_dimensions() {
    let p = TernaryPoint::random(10, 99);
    assert_eq!(p.dim(), 10);
    for &v in p.coords() {
        assert!(v == Ternary::Neg || v == Ternary::Zero || v == Ternary::Pos);
    }
}

#[test]
fn test_point_set() {
    let mut p = TernaryPoint::from_i8_slice(&[0, 0]).unwrap();
    p.set(0, Ternary::Pos);
    assert_eq!(p.get(0), Some(Ternary::Pos));
    p.set(5, Ternary::Neg); // out of bounds, no panic
    assert_eq!(p.dim(), 2);
}

#[test]
fn point_from_i8_slice_keeps_values_in_order() {
    let p = TernaryPoint::from_i8_slice(&[1, -1, 0, 1]).unwrap();
    assert_eq!(p.coords(), &[Ternary::Pos, Ternary::Neg, Ternary::Zero, Ternary::Pos]);
    assert!(TernaryPoint::from_i8_slice(&[0, 1, -3]).is_none());
    assert_eq!(TernaryPoint::from_i8_slice(&[]).unwrap().dim(), 0);
}

#[test]
fn point_get_out_of_range_is_none() {
    let p = TernaryPoint::from_i8_slice(&[1]).unwrap();
    assert_eq!(p.get(1), None);
    assert_eq!(p.get(usize::MAX), None);
}

#[test]
fn point_set_leaves_other_coordinates() {
    let mut p = TernaryPoint::from_i8_slice(&[-1, 0, 1]).unwrap();
    p.set(1, Ternary::Neg);
    assert_eq!(p.coords(), &[Ternary::Neg, Ternary::Neg, Ternary::Pos]);
}

#[test]
fn point_neighbors_order_and_distance() {
    let p = TernaryPoint::from_i8_slice(&[0, 1]).unwrap();
    let n = p.neighbors();
    let expected: Vec<Vec<Ternary>> = vec![
        vec![Ternary::Neg, Ternary::Pos],
        vec![Ternary::Pos, Ternary::Pos],
        vec![Ternary::Zero, Ternary::Neg],
        vec![Ternary::Zero, Ternary::Zero],
    ];
    assert_eq!(n.len(), 4);
    for (q, e) in n.iter().zip(expected.iter()) {
        assert_eq!(q.coords(), e.as_slice());
        assert_eq!(p.hamming_distance(q), 1);
    }
    for i in 0..n.len() {
        for j in 0..n.len() {
            if i != j {
                assert_ne!(n[i], n[j]);
            }
        }
    }
}

#[test]
fn point_neighbors_of_empty_point() {
    let p = TernaryPoint::new(vec![]);
    assert!(p.neighbors().is_empty());
}

#[test]
fn point_hamming_metric_examples() {
    let a = TernaryPoint::from_i8_slice(&[1, 1, 0]).unwrap();
    let b = TernaryPoint::from_i8_slice(&[1, -1, 0]).unwrap();
    let c = TernaryPoint::from_i8_slice(&[0, -1, 1]).unwrap();
    assert_eq!(a.hamming_distance(&a), 0);
    assert_eq!(a.hamming_distance(&b), b.hamming_distance(&a));
    assert!(a.hamming_distance(&c) <= a.hamming_distance(&b) + b.hamming_distance(&c));
    assert_eq!(a.hamming_distance(&c), 3);
}

#[test]
fn point_hamming_uses_common_prefix() {
    let a = TernaryPoint::from_i8_slice(&[1, 0]).unwrap();
    let b = TernaryPoint::from_i8_slice(&[-1, 0, 1, 1]).unwrap();
    assert_eq!(a.hamming_distance(&b), 1);
}

#[test]
fn point_random_follows_generator() {
    let seed = 99u64;
    let p = TernaryPoint::random(5, seed);
    let mut s = seed;
    for k in 0..5 {
        let next = s.wrapping_mul(6364136223846793005).wrapping_add(1442695040888963407);
        assert_eq!(lcg_next(s), next);
        s = next;
        let idx = ((s >> 33) % 3) as usize;
        assert_eq!(p.get(k), Some(Ternary::all()[idx]));
    }
    assert_eq!(TernaryPoint::random(5, seed), p);
    assert_eq!(TernaryPoint::random(0, seed).dim(), 0);
}
