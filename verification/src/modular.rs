//! The arithmetic model: integers modulo the order of the BLS12-381
//! scalar field, together with the congruence lemmas the polynomial
//! and pairing proofs lean on.

use vstd::prelude::*;
use vstd::arithmetic::div_mod::{
    lemma_add_mod_noop, lemma_sub_mod_noop, lemma_mul_mod_noop_general, lemma_mod_twice,
};
use vstd::arithmetic::power::{pow, lemma_pow_mod_noop};

verus! {

/// The order of the BLS12-381 scalar field: the prime
/// 52435875175126190479447740508185965837690552500527637822603658699938581184513.
pub open spec fn fr_order() -> int {
    52435875175126190479447740508185965837690552500527637822603658699938581184513int
}

/// Canonical residue modulo the scalar-field order.
pub open spec fn rmod(x: int) -> int {
    x % fr_order()
}

pub broadcast proof fn lemma_rmod_twice(x: int)
    ensures
        #[trigger] rmod(rmod(x)) == rmod(x),
{
    lemma_mod_twice(x, fr_order());
}

/// Adding congruent values gives congruent sums.
pub proof fn lemma_rmod_add(a: int, b: int)
    ensures
        rmod(rmod(a) + rmod(b)) == rmod(a + b),
{
    lemma_add_mod_noop(a, b, fr_order());
    lemma_mod_twice(a, fr_order());
    lemma_mod_twice(b, fr_order());
    lemma_add_mod_noop(rmod(a), rmod(b), fr_order());
}

/// Subtracting congruent values gives congruent differences.
pub proof fn lemma_rmod_sub(a: int, b: int)
    ensures
        rmod(rmod(a) - rmod(b)) == rmod(a - b),
{
    lemma_sub_mod_noop(a, b, fr_order());
    lemma_mod_twice(a, fr_order());
    lemma_mod_twice(b, fr_order());
    lemma_sub_mod_noop(rmod(a), rmod(b), fr_order());
}

/// Multiplying congruent values gives congruent products.
pub proof fn lemma_rmod_mul(a: int, b: int)
    ensures
        rmod(rmod(a) * rmod(b)) == rmod(a * b),
{
    lemma_mul_mod_noop_general(a, b, fr_order());
    lemma_mul_mod_noop_general(rmod(a), rmod(b), fr_order());
    lemma_mod_twice(a, fr_order());
    lemma_mod_twice(b, fr_order());
}

/// Exponentiation respects congruence of the base.
pub proof fn lemma_rmod_pow(b: int, e: nat)
    ensures
        rmod(pow(rmod(b), e)) == rmod(pow(b, e)),
{
    lemma_pow_mod_noop(b, e, fr_order());
}

/// Reducing the right operand of a sum does not change the residue.
pub proof fn lemma_rmod_add_r(a: int, b: int)
    ensures
        rmod(a + rmod(b)) == rmod(a + b),
{
    vstd::arithmetic::div_mod::lemma_add_mod_noop_right(a, b, fr_order());
}

/// Reducing the subtrahend does not change the residue.
pub proof fn lemma_rmod_sub_r(a: int, b: int)
    ensures
        rmod(a - rmod(b)) == rmod(a - b),
{
    vstd::arithmetic::div_mod::lemma_sub_mod_noop_right(a, b, fr_order());
}

/// Reducing the right factor of a product does not change the residue.
pub proof fn lemma_rmod_mul_r(a: int, b: int)
    ensures
        rmod(a * rmod(b)) == rmod(a * b),
{
    vstd::arithmetic::div_mod::lemma_mul_mod_noop_right(a, b, fr_order());
}

/// Congruence is preserved when both sides of an addition are
/// replaced by congruent values.
pub proof fn lemma_rmod_add_cong(a1: int, a2: int, b1: int, b2: int)
    requires
        rmod(a1) == rmod(a2),
        rmod(b1) == rmod(b2),
    ensures
        rmod(a1 + b1) == rmod(a2 + b2),
{
    lemma_rmod_add(a1, b1);
    lemma_rmod_add(a2, b2);
}

/// Congruence is preserved when both factors of a product are
/// replaced by congruent values.
pub proof fn lemma_rmod_mul_cong(a1: int, a2: int, b1: int, b2: int)
    requires
        rmod(a1) == rmod(a2),
        rmod(b1) == rmod(b2),
    ensures
        rmod(a1 * b1) == rmod(a2 * b2),
{
    lemma_rmod_mul(a1, b1);
    lemma_rmod_mul(a2, b2);
}

/// Congruence is preserved under subtraction of congruent values.
pub proof fn lemma_rmod_sub_cong(a1: int, a2: int, b1: int, b2: int)
    requires
        rmod(a1) == rmod(a2),
        rmod(b1) == rmod(b2),
    ensures
        rmod(a1 - b1) == rmod(a2 - b2),
{
    lemma_rmod_sub(a1, b1);
    lemma_rmod_sub(a2, b2);
}

/// A value with a multiplicative inverse cannot be congruent to zero.
pub proof fn lemma_unit_nonzero(x: int, w: int)
    requires
        rmod(x * w) == 1,
    ensures
        rmod(x) != 0,
{
    if rmod(x) == 0 {
        lemma_rmod_mul(x, w);
        lemma_rmod_mul_cong(rmod(x), 0, rmod(w), rmod(w));
        assert(rmod(0 * rmod(w)) == rmod(0)) by {
            assert(0 * rmod(w) == 0) by (nonlinear_arith);
        }
    }
}

/// Multiplying a congruence through by a common factor.
pub proof fn lemma_rmod_scale(a: int, b: int, c: int)
    requires
        rmod(a) == rmod(b),
    ensures
        rmod(a * c) == rmod(b * c),
{
    lemma_rmod_mul_cong(a, b, c, c);
}

/// Cancelling an invertible factor from a congruence.
pub proof fn lemma_rmod_cancel(a: int, b: int, c: int, w: int)
    requires
        rmod(a * c) == rmod(b * c),
        rmod(c * w) == 1,
    ensures
        rmod(a) == rmod(b),
{
    assert(a * c * w == a * (c * w)) by (nonlinear_arith);
    assert(b * c * w == b * (c * w)) by (nonlinear_arith);
    lemma_rmod_scale(a * c, b * c, w);
    lemma_rmod_mul(a, c * w);
    lemma_rmod_mul(b, c * w);
    lemma_rmod_mul_cong(rmod(a), rmod(a), rmod(c * w), 1);
    lemma_rmod_mul_cong(rmod(b), rmod(b), rmod(c * w), 1);
    lemma_rmod_twice(a);
    lemma_rmod_twice(b);
}

} // verus!
