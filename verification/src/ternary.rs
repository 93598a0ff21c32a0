//! The three-valued digit `{-1, 0, +1}`.
use vstd::prelude::*;

verus! {

/// A ternary value: -1, 0, or +1.
#[derive(Clone, Copy, PartialEq, Eq, Debug, Hash, Structural)]
pub enum Ternary {
    Neg,
    Zero,
    Pos,
}

/// The three ternary values in ascending order: `Neg`, `Zero`, `Pos`.
pub open spec fn all_values() -> Seq<Ternary> {
    seq![Ternary::Neg, Ternary::Zero, Ternary::Pos]
}

/// The ternary value that stands for the integer `v`, if there is one.
pub open spec fn from_value(v: int) -> Option<Ternary> {
    if v == -1 {
        Some(Ternary::Neg)
    } else if v == 0 {
        Some(Ternary::Zero)
    } else if v == 1 {
        Some(Ternary::Pos)
    } else {
        None
    }
}

impl Ternary {
    /// The integer this value stands for.
    pub open spec fn value(self) -> int {
        match self {
            Ternary::Neg => -1,
            Ternary::Zero => 0,
            Ternary::Pos => 1,
        }
    }

    /// The value with the opposite sign.
    pub open spec fn flipped(self) -> Ternary {
        match self {
            Ternary::Neg => Ternary::Pos,
            Ternary::Zero => Ternary::Zero,
            Ternary::Pos => Ternary::Neg,
        }
    }

    /// The decimal text of the value: `"-1"`, `"0"` or `"1"`.
    pub open spec fn decimal(self) -> Seq<char> {
        match self {
            Ternary::Neg => seq!['-', '1'],
            Ternary::Zero => seq!['0'],
            Ternary::Pos => seq!['1'],
        }
    }

    /// The ternary value for `-1`, `0` or `1`; `None` for any other integer.
    pub fn from_i8(v: i8) -> (r: Option<Ternary>)
        ensures
            r == from_value(v as int),
            r is None <==> !(-1 <= v <= 1),
            r matches Some(t) ==> t.value() == v,
    {
        match v {
            -1 => Some(Ternary::Neg),
            0 => Some(Ternary::Zero),
            1 => Some(Ternary::Pos),
            _ => None,
        }
    }

    /// The integer this value stands for.
    pub fn to_i8(self) -> (r: i8)
        ensures
            r == self.value(),
    {
        match self {
            Ternary::Neg => -1,
            Ternary::Zero => 0,
            Ternary::Pos => 1,
        }
    }

    /// All three ternary values.
    pub fn all() -> (r: [Ternary; 3])
        ensures
            r@ == all_values(),
    {
        [Ternary::Neg, Ternary::Zero, Ternary::Pos]
    }

    /// Flip the sign (Neg<->Pos, Zero stays).
    pub fn flip(self) -> (r: Ternary)
        ensures
            r == self.flipped(),
            r.value() == -self.value(),
    {
        match self {
            Ternary::Neg => Ternary::Pos,
            Ternary::Zero => Ternary::Zero,
            Ternary::Pos => Ternary::Neg,
        }
    }

    /// The decimal text of the value, as it is displayed.
    pub fn to_string(self) -> (r: String)
        ensures
            r@ == self.decimal(),
    {
        match self {
            Ternary::Neg => {
                let s = "-1";
                proof {
                    reveal_strlit("-1");
                }
                s.to_owned()
            },
            Ternary::Zero => {
                let s = "0";
                proof {
                    reveal_strlit("0");
                }
                s.to_owned()
            },
            Ternary::Pos => {
                let s = "1";
                proof {
                    reveal_strlit("1");
                }
                s.to_owned()
            },
        }
    }
}

/// Flipping twice gives the value back.
pub proof fn lemma_flip_involution(t: Ternary)
    ensures
        t.flipped().flipped() == t,
{
}

/// Reading a value's integer back gives the value; an integer that reads as a value is that
/// value's integer.
pub proof fn lemma_value_round_trip(t: Ternary, v: int)
    ensures
        from_value(t.value()) == Some(t),
        from_value(v) == Some(t) ==> t.value() == v,
{
}

/// Every ternary value is one of the three listed by `all`, each listed once.
pub proof fn lemma_all_values_complete(t: Ternary)
    ensures
        all_values().contains(t),
        all_values().len() == 3,
        forall|i: int, j: int| 0 <= i < j < 3 ==> all_values()[i] != all_values()[j],
{
    match t {
        Ternary::Neg => assert(all_values()[0] == t),
        Ternary::Zero => assert(all_values()[1] == t),
        Ternary::Pos => assert(all_values()[2] == t),
    }
}

} // verus!
