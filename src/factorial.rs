use vstd::arithmetic::div_mod::{lemma_mul_mod_noop_right, lemma_small_mod};
use vstd::prelude::*;

verus! {

/// n! = 1 * 2 * ... * n, with 0! = 1.
pub open spec fn factorial_of(n: nat) -> nat
    decreases n,
{
    if n == 0 {
        1
    } else {
        n * factorial_of((n - 1) as nat)
    }
}

/// The number of values of a 64-bit unsigned word.
pub open spec fn word_modulus() -> nat {
    u64::MAX as nat + 1
}

/// Once a factorial is a multiple of the word modulus, every later one is.
proof fn lemma_factorial_stays_zero(i: nat, n: nat)
    requires
        i <= n,
        factorial_of(i) % word_modulus() == 0,
    ensures
        factorial_of(n) % word_modulus() == 0,
    decreases n - i,
{
    if i < n {
        lemma_factorial_stays_zero(i, (n - 1) as nat);
        lemma_mul_mod_noop_right(n as int, factorial_of((n - 1) as nat) as int, word_modulus() as int);
    }
}

/// n!, computed as the product 1 * 2 * ... * n in a 64-bit unsigned
/// accumulator: beyond 20! the product wraps around modulo 2^64.
pub fn factorial(n: u64) -> (r: u64)
    ensures
        r as nat == factorial_of(n as nat) % word_modulus(),
{
    let mut acc: u64 = 1;
    let mut i: u64 = 0;
    assert(factorial_of(0) == 1);
    proof {
        lemma_small_mod(1, word_modulus());
    }
    while i < n && acc != 0
        invariant
            i <= n,
            acc as nat == factorial_of(i as nat) % word_modulus(),
        decreases n - i,
    {
        i = i + 1;
        proof {
            lemma_mul_mod_noop_right(i as int, factorial_of((i - 1) as nat) as int, word_modulus() as int);
        }
        acc = acc.wrapping_mul(i);
    }
    if acc == 0 {
        proof {
            lemma_factorial_stays_zero(i as nat, n as nat);
        }
    }
    acc
}

} // verus!
