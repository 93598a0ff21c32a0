//! The 64-bit linear congruential generator that drives every random choice of the library.
use vstd::prelude::*;

verus! {

/// Multiplier of the generator.
pub const LCG_MULTIPLIER: u64 = 6364136223846793005u64;

/// Increment of the generator.
pub const LCG_INCREMENT: u64 = 1442695040888963407u64;

/// One step of the generator: `s * LCG_MULTIPLIER + LCG_INCREMENT` modulo `2^64`.
#[verifier::opaque]
pub open spec fn lcg_step(s: u64) -> u64 {
    ((s as nat * LCG_MULTIPLIER as nat + LCG_INCREMENT as nat) % 0x1_0000_0000_0000_0000nat) as u64
}

/// The state after `n` steps of the generator from `s`.
pub open spec fn lcg_iter(s: u64, n: nat) -> u64
    decreases n,
{
    if n == 0 {
        s
    } else {
        lcg_step(lcg_iter(s, (n - 1) as nat))
    }
}

/// Advance the generator by one step, with wrapping multiplication and addition.
pub fn lcg_next(s: u64) -> (r: u64)
    ensures
        r == lcg_step(s),
{
    let m = s.wrapping_mul(LCG_MULTIPLIER);
    let r = m.wrapping_add(LCG_INCREMENT);
    proof {
        reveal(lcg_step);
        let modulus: int = 0x1_0000_0000_0000_0000int;
        let prod: int = s as int * LCG_MULTIPLIER as int;
        assert(m as int == prod % modulus);
        vstd::arithmetic::div_mod::lemma_add_mod_noop(prod, LCG_INCREMENT as int, modulus);
        vstd::arithmetic::div_mod::lemma_small_mod(LCG_INCREMENT as nat, modulus as nat);
        vstd::arithmetic::div_mod::lemma_mod_bound(prod, modulus);
        if m as int + LCG_INCREMENT as int >= modulus {
            vstd::arithmetic::div_mod::lemma_mod_sub_multiples_vanish(
                m as int + LCG_INCREMENT as int,
                modulus,
            );
            vstd::arithmetic::div_mod::lemma_small_mod(
                (m as int + LCG_INCREMENT as int - modulus) as nat,
                modulus as nat,
            );
        } else {
            vstd::arithmetic::div_mod::lemma_small_mod(
                (m as int + LCG_INCREMENT as int) as nat,
                modulus as nat,
            );
        }
    }
    r
}

/// Stepping `n` times and then once more is stepping `n + 1` times.
pub proof fn lemma_lcg_iter_succ(s: u64, n: nat)
    ensures
        lcg_iter(s, n + 1) == lcg_step(lcg_iter(s, n)),
{
}

/// Stepping `a` times and then `b` times is stepping `a + b` times.
pub proof fn lemma_lcg_iter_add(s: u64, a: nat, b: nat)
    ensures
        lcg_iter(lcg_iter(s, a), b) == lcg_iter(s, a + b),
    decreases b,
{
    if b > 0 {
        lemma_lcg_iter_add(s, a, (b - 1) as nat);
    }
}

} // verus!
