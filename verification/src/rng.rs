//! The pseudo-random number generator, as a mathematical recurrence.
//!
//! The benchmark draws its values from a classic ANSI-C style linear
//! congruential generator: `seed' = (1103515245 * seed + 12345) mod 2^31`.
//! The spec functions here describe single steps, iterated steps and whole
//! draw sequences; the executable generators in the sibling modules are
//! proved to follow them exactly.

use vstd::prelude::*;
use vstd::arithmetic::div_mod::{lemma_add_mod_noop, lemma_mul_mod_noop_right};

verus! {

/// One step of the linear congruential recurrence.
pub open spec fn lcg_next(s: nat) -> nat {
    (1103515245 * s + 12345) % 0x8000_0000
}

/// The generator state after `k` steps from state `s`.
pub open spec fn lcg_iter(s: nat, k: nat) -> nat
    decreases k,
{
    if k == 0 {
        s
    } else {
        lcg_next(lcg_iter(s, (k - 1) as nat))
    }
}

/// The sequence of the first `k` values drawn from seed `s`: each draw
/// advances the state once and hands the new state out as the value.
pub open spec fn lcg_values(s: nat, k: nat) -> Seq<nat> {
    Seq::new(k, |i: int| lcg_iter(s, (i + 1) as nat))
}

/// Every stepped state is below the modulus.
pub proof fn lemma_lcg_next_bound(s: nat)
    ensures
        lcg_next(s) < 0x8000_0000,
{
}

/// Every state reached by at least one step is below the modulus.
pub proof fn lemma_lcg_iter_bound(s: nat, k: nat)
    requires
        k >= 1,
    ensures
        lcg_iter(s, k) < 0x8000_0000,
{
    lemma_lcg_next_bound(lcg_iter(s, (k - 1) as nat));
}

/// Stepping `a` times and then `b` times is stepping `a + b` times.
pub proof fn lemma_lcg_iter_add(s: nat, a: nat, b: nat)
    ensures
        lcg_iter(lcg_iter(s, a), b) == lcg_iter(s, (a + b) as nat),
    decreases b,
{
    if b > 0 {
        lemma_lcg_iter_add(s, a, (b - 1) as nat);
    }
}

/// The draw sequence is a function of the seed alone: from equal seeds, any
/// number of draws reproduces the identical sequence of values, independent
/// of anything else the surrounding program does.
pub proof fn lemma_sequence_reproducible(s1: nat, s2: nat, k: nat)
    requires
        s1 == s2,
    ensures
        lcg_values(s1, k) == lcg_values(s2, k),
{
}

/// Reducing the state modulo 2^31 before the multiplication does not change
/// the stepped state.  The executable generators use this so that the product
/// fits in 64 bits for every representable seed, while still computing
/// `lcg_next` of the full seed value.
pub proof fn lemma_lcg_step_reduced(s: nat)
    ensures
        (1103515245 * (s % 0x8000_0000) + 12345) % 0x8000_0000 == lcg_next(s),
{
    lemma_mul_mod_noop_right(1103515245, s as int, 0x8000_0000);
    lemma_add_mod_noop(1103515245 * ((s as int) % 0x8000_0000), 12345, 0x8000_0000);
    lemma_add_mod_noop(1103515245 * (s as int), 12345, 0x8000_0000);
}

} // verus!
