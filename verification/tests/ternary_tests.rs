use lib::Ternary;

#[test]
fn test_ternary_from_i8() {
    assert_eq!(Ternary::from_i8(-1), Some(Ternary::Neg));
    assert_eq!(Ternary::from_i8(0), Some(Ternary::Zero));
    assert_eq!(Ternary::from_i8(1), Some(Ternary::Pos));
    assert_eq!(Ternary::from_i8(2), None);
}

#[test]
fn test_ternary_flip() {
    assert_eq!(Ternary::Neg.flip(), Ternary::Pos);
    assert_eq!(Ternary::Pos.flip(), Ternary::Neg);
    assert_eq!(Ternary::Zero.flip(), Ternary::Zero);
}

#[test]
fn test_ternary_display() {
    assert_eq!(Ternary::Neg.to_string(), "-1");
    assert_eq!(Ternary::Zero.to_string(), "0");
    assert_eq!(Ternary::Pos.to_string(), "1");
}

#[test]
fn test_ternary_all_values() {
    let all = Ternary::all();
    assert_eq!(all.len(), 3);
    assert!(all.contains(&Ternary::Neg));
    assert!(all.contains(&Ternary::Zero));
    assert!(all.contains(&Ternary::Pos));
}

#[test]
fn ternary_from_i8_rejects_out_of_range() {
    assert_eq!(Ternary::from_i8(-2), None);
    assert_eq!(Ternary::from_i8(i8::MIN), None);
    assert_eq!(Ternary::from_i8(i8::MAX), None);
}

#[test]
fn ternary_to_i8_round_trip() {
    for t in Ternary::all() {
        assert_eq!(Ternary::from_i8(t.to_i8()), Some(t));
    }
    assert_eq!(Ternary::Neg.to_i8(), -1);
    assert_eq!(Ternary::Zero.to_i8(), 0);
    assert_eq!(Ternary::Pos.to_i8(), 1);
}

#[test]
fn ternary_flip_is_involution_and_negates() {
    for t in Ternary::all() {
        assert_eq!(t.flip().flip(), t);
        assert_eq!(t.flip().to_i8(), -t.to_i8());
    }
}

#[test]
fn ternary_all_is_ascending() {
    assert_eq!(Ternary::all(), [Ternary::Neg, Ternary::Zero, Ternary::Pos]);
}
