//! Residues of scaled powers, the arithmetic underneath the generator.

use rug::Integer;
use vstd::calc;
use vstd::arithmetic::div_mod::{
    lemma_mod_bound, lemma_mul_mod_noop_left, lemma_mul_mod_noop_right, lemma_small_mod,
};
use vstd::arithmetic::mul::{lemma_mul_is_associative, lemma_mul_is_commutative};
use vstd::arithmetic::power::{lemma_pow0, lemma_pow_adds, pow};
use vstd::prelude::*;

verus! {

/// The value reached from `value` by `n` steps of the recurrence
/// `x -> factor * x mod modulus`, written in closed form.
pub open spec fn scaled_residue(factor: int, n: nat, value: int, modulus: int) -> int {
    (pow(factor, n) * value) % modulus
}

/// A residue lies in `[0, modulus)`.
pub proof fn lemma_residue_bound(factor: int, n: nat, value: int, modulus: int)
    requires
        modulus > 0,
    ensures
        0 <= scaled_residue(factor, n, value, modulus) < modulus,
{
    lemma_mod_bound(pow(factor, n) * value, modulus);
}

/// Zero steps leave a value that is already reduced where it is.
pub proof fn lemma_residue_zero_steps(factor: int, value: int, modulus: int)
    requires
        0 <= value < modulus,
    ensures
        scaled_residue(factor, 0, value, modulus) == value,
{
    lemma_pow0(factor);
    lemma_small_mod(value as nat, modulus as nat);
}

/// `p` steps followed by `q` steps are `p + q` steps.
pub proof fn lemma_residue_compose(factor: int, p: nat, q: nat, value: int, modulus: int)
    requires
        modulus > 0,
    ensures
        scaled_residue(factor, q, scaled_residue(factor, p, value, modulus), modulus)
            == scaled_residue(factor, p + q, value, modulus),
{
    let fp = pow(factor, p);
    let fq = pow(factor, q);
    calc! {
        (==)
        (fq * ((fp * value) % modulus)) % modulus; {
            lemma_mul_mod_noop_right(fq, fp * value, modulus);
        }
        (fq * (fp * value)) % modulus; {
            lemma_mul_is_associative(fq, fp, value);
        }
        ((fq * fp) * value) % modulus; {
            lemma_mul_is_commutative(fq, fp);
            lemma_pow_adds(factor, p, q);
        }
        (pow(factor, p + q) * value) % modulus;
    }
}

/// Reducing the power before the multiplication does not change the residue.
pub proof fn lemma_residue_of_reduced_power(factor: int, n: nat, value: int, modulus: int)
    requires
        modulus > 0,
    ensures
        ((pow(factor, n) % modulus) * value) % modulus == scaled_residue(
            factor,
            n,
            value,
            modulus,
        ),
{
    lemma_mul_mod_noop_left(pow(factor, n), value, modulus);
}

/// Modular exponentiation by `rug::Integer::pow_mod`.
///
/// Trusted: for a non-negative exponent and a non-zero modulus the call
/// always yields `Ok`, and the value is `base` raised to `exp`, reduced into
/// `[0, modulus)`. The result is below `modulus`, so it fits a `u64` again.
#[verifier::external_body]
pub(crate) fn pow_mod(base: u64, exp: u64, modulus: u64) -> (r: u64)
    requires
        modulus > 0,
    ensures
        r as int == pow(base as int, exp as nat) % (modulus as int),
{
    let power = Integer::from(base).pow_mod(&Integer::from(exp), &Integer::from(modulus));
    power.unwrap().to_u64().unwrap()
}

} // verus!
