//! Polynomial arithmetic over the scalar field.
//!
//! A polynomial is a vector of coefficients, lowest degree first; its
//! mathematical meaning is the sequence of residues `pview` gives.
//! The spec functions here define coefficient-wise congruence,
//! evaluation, and convolution over that model, and the executable
//! functions are proved against them.

use vstd::prelude::*;
use vstd::arithmetic::power::pow;
use vstd::arithmetic::power2::pow2;
use crate::modular::{rmod, fr_order, lemma_rmod_add, lemma_rmod_add_r, lemma_rmod_mul_r,
    lemma_rmod_sub_r, lemma_rmod_add_cong, lemma_rmod_sub_cong, lemma_rmod_mul_cong,
    lemma_rmod_pow};
use crate::field::{Scalar, fr_val, pview, fr_add, fr_sub, fr_mul, fr_neg, fr_zero, fr_one,
    fr_is_zero, fr_inverse, fr_two_adic_root};
use crate::Error;

verus! {

/// The coefficient of `X^k`, zero outside the stored range.
pub open spec fn coeff(p: Seq<int>, k: int) -> int {
    if 0 <= k < p.len() {
        p[k]
    } else {
        0
    }
}

/// Two coefficient sequences agree modulo the field order at every
/// position; they stand for the same polynomial.
pub open spec fn poly_cong(a: Seq<int>, b: Seq<int>) -> bool {
    forall|k: int| rmod(#[trigger] coeff(a, k)) == rmod(coeff(b, k))
}

/// Polynomial evaluation over the integers (no reduction).
pub open spec fn poly_eval(p: Seq<int>, x: int) -> int
    decreases p.len(),
{
    if p.len() == 0 {
        0
    } else {
        p[0] + x * poly_eval(p.skip(1), x)
    }
}

pub open spec fn imax(a: int, b: int) -> int {
    if a >= b {
        a
    } else {
        b
    }
}

/// Coefficient-wise sum.
pub open spec fn poly_add_s(a: Seq<int>, b: Seq<int>) -> Seq<int> {
    Seq::new(imax(a.len() as int, b.len() as int) as nat, |k: int| coeff(a, k) + coeff(b, k))
}

/// Coefficient-wise scaling.
pub open spec fn poly_scale_s(c: int, b: Seq<int>) -> Seq<int> {
    Seq::new(b.len(), |k: int| c * b[k])
}

/// Partial convolution sum: the first `i` terms of the coefficient of
/// `X^k` in the product.
pub open spec fn conv_pre(a: Seq<int>, b: Seq<int>, k: int, i: int) -> int
    decreases i,
{
    if i <= 0 {
        0
    } else {
        conv_pre(a, b, k, i - 1) + coeff(a, i - 1) * coeff(b, k - (i - 1))
    }
}

/// The coefficient of `X^k` in the product of `a` and `b`.
pub open spec fn conv(a: Seq<int>, b: Seq<int>, k: int) -> int {
    conv_pre(a, b, k, a.len() as int)
}

/// The product polynomial (discrete convolution).
pub open spec fn poly_mul_s(a: Seq<int>, b: Seq<int>) -> Seq<int> {
    if a.len() == 0 || b.len() == 0 {
        Seq::empty()
    } else {
        Seq::new((a.len() + b.len() - 1) as nat, |k: int| conv(a, b, k))
    }
}

/// The tail of a sequence, or the empty sequence.
pub open spec fn tail_or_empty(a: Seq<int>) -> Seq<int> {
    if a.len() == 0 {
        a
    } else {
        a.skip(1)
    }
}

/// Congruent polynomials evaluate to congruent values.
pub proof fn lemma_eval_cong(a: Seq<int>, b: Seq<int>, x: int)
    requires
        poly_cong(a, b),
    ensures
        rmod(poly_eval(a, x)) == rmod(poly_eval(b, x)),
    decreases a.len() + b.len(),
{
    if a.len() == 0 && b.len() == 0 {
    } else if a.len() == 0 {
        assert(poly_cong(a, b.skip(1))) by {
            assert forall|k: int| rmod(#[trigger] coeff(a, k)) == rmod(coeff(b.skip(1), k)) by {
                if 0 <= k < b.len() - 1 {
                    assert(coeff(b.skip(1), k) == coeff(b, k + 1));
                    assert(rmod(coeff(a, k + 1)) == rmod(coeff(b, k + 1)));
                }
            }
        }
        lemma_eval_cong(a, b.skip(1), x);
        assert(rmod(coeff(b, 0)) == rmod(coeff(a, 0)));
        lemma_rmod_mul_r(x, poly_eval(b.skip(1), x));
        assert(rmod(x * rmod(poly_eval(b.skip(1), x))) == rmod(x * 0)) by {
            assert(rmod(poly_eval(b.skip(1), x)) == 0);
        }
        assert(x * 0 == 0) by (nonlinear_arith);
        lemma_rmod_add(b[0], x * poly_eval(b.skip(1), x));
        assert(rmod(poly_eval(b, x)) == rmod(rmod(b[0]) + rmod(x * poly_eval(b.skip(1), x))));
        assert(rmod(b[0]) == rmod(coeff(b, 0)));
        assert(rmod(coeff(a, 0)) == 0);
    } else if b.len() == 0 {
        assert(poly_cong(b, a.skip(1))) by {
            assert forall|k: int| rmod(#[trigger] coeff(b, k)) == rmod(coeff(a.skip(1), k)) by {
                if 0 <= k < a.len() - 1 {
                    assert(coeff(a.skip(1), k) == coeff(a, k + 1));
                    assert(rmod(coeff(a, k + 1)) == rmod(coeff(b, k + 1)));
                }
            }
        }
        lemma_eval_cong(b, a.skip(1), x);
        lemma_rmod_mul_r(x, poly_eval(a.skip(1), x));
        assert(rmod(x * rmod(poly_eval(a.skip(1), x))) == rmod(x * 0)) by {
            assert(rmod(poly_eval(a.skip(1), x)) == 0);
        }
        assert(x * 0 == 0) by (nonlinear_arith);
        lemma_rmod_add(a[0], x * poly_eval(a.skip(1), x));
        assert(rmod(poly_eval(a, x)) == rmod(rmod(a[0]) + rmod(x * poly_eval(a.skip(1), x))));
        assert(rmod(a[0]) == rmod(coeff(a, 0)));
        assert(rmod(coeff(b, 0)) == 0);
    } else {
        assert(poly_cong(a.skip(1), b.skip(1))) by {
            assert forall|k: int|
                rmod(#[trigger] coeff(a.skip(1), k)) == rmod(coeff(b.skip(1), k)) by {
                if k >= 0 {
                    assert(coeff(a.skip(1), k) == coeff(a, k + 1));
                    assert(coeff(b.skip(1), k) == coeff(b, k + 1));
                    assert(rmod(coeff(a, k + 1)) == rmod(coeff(b, k + 1)));
                }
            }
        }
        lemma_eval_cong(a.skip(1), b.skip(1), x);
        lemma_rmod_mul_r(x, poly_eval(a.skip(1), x));
        lemma_rmod_mul_r(x, poly_eval(b.skip(1), x));
        assert(rmod(coeff(a, 0)) == rmod(coeff(b, 0)));
        lemma_rmod_add_cong(
            a[0],
            b[0],
            x * poly_eval(a.skip(1), x),
            x * poly_eval(b.skip(1), x),
        );
    }
}

/// Appending a coefficient appends a monomial to the evaluation.
pub proof fn lemma_eval_snoc(p: Seq<int>, c: int, x: int)
    ensures
        poly_eval(p.push(c), x) == poly_eval(p, x) + c * pow(x, p.len()),
    decreases p.len(),
{
    vstd::arithmetic::power::lemma_pow0(x);
    if p.len() == 0 {
        assert(p.push(c).skip(1) =~= Seq::<int>::empty());
        assert(p.push(c)[0] == c);
        assert(c + x * 0 == c) by (nonlinear_arith);
        assert(c * 1 == c) by (nonlinear_arith);
        assert(poly_eval(p.push(c), x) == c + x * poly_eval(p.push(c).skip(1), x));
        assert(poly_eval(p.push(c), x) == poly_eval(p, x) + c * pow(x, p.len()));
    } else {
        assert(p.push(c).skip(1) =~= p.skip(1).push(c));
        lemma_eval_snoc(p.skip(1), c, x);
        assert(pow(x, p.len()) == x * pow(x, (p.len() - 1) as nat)) by {
            vstd::arithmetic::power::lemma_pow_adds(x, 1nat, (p.len() - 1) as nat);
            vstd::arithmetic::power::lemma_pow1(x);
        }
        assert(x * (poly_eval(p.skip(1), x) + c * pow(x, (p.len() - 1) as nat)) == x * poly_eval(
            p.skip(1),
            x,
        ) + c * (x * pow(x, (p.len() - 1) as nat))) by (nonlinear_arith);
        assert(poly_eval(p.push(c), x) == p[0] + x * poly_eval(p.skip(1).push(c), x));
        assert(poly_eval(p.push(c), x) == p[0] + x * poly_eval(p.skip(1), x) + c * (x * pow(
            x,
            (p.len() - 1) as nat,
        )));
        assert(poly_eval(p, x) == p[0] + x * poly_eval(p.skip(1), x));
        assert(c * (x * pow(x, (p.len() - 1) as nat)) == c * pow(x, p.len()));
        assert(poly_eval(p.push(c), x) == poly_eval(p, x) + c * pow(x, p.len()));
    }
}

/// Evaluation distributes over the coefficient-wise sum.
pub proof fn lemma_eval_add(a: Seq<int>, b: Seq<int>, x: int)
    ensures
        poly_eval(poly_add_s(a, b), x) == poly_eval(a, x) + poly_eval(b, x),
    decreases a.len() + b.len(),
{
    let s = poly_add_s(a, b);
    if a.len() == 0 && b.len() == 0 {
        assert(s.len() == 0);
    } else {
        assert(s.len() >= 1);
        assert(s.skip(1) =~= poly_add_s(tail_or_empty(a), tail_or_empty(b))) by {
            assert forall|j: int|
                0 <= j < s.len() - 1 implies s.skip(1)[j] == coeff(tail_or_empty(a), j) + coeff(
                tail_or_empty(b),
                j,
            ) by {
                assert(s.skip(1)[j] == s[j + 1]);
                assert(coeff(tail_or_empty(a), j) == coeff(a, j + 1));
                assert(coeff(tail_or_empty(b), j) == coeff(b, j + 1));
            }
        }
        lemma_eval_add(tail_or_empty(a), tail_or_empty(b), x);
        assert(poly_eval(s, x) == s[0] + x * poly_eval(s.skip(1), x));
        assert(s[0] == coeff(a, 0) + coeff(b, 0));
        assert(x * (poly_eval(tail_or_empty(a), x) + poly_eval(tail_or_empty(b), x)) == x
            * poly_eval(tail_or_empty(a), x) + x * poly_eval(tail_or_empty(b), x))
            by (nonlinear_arith);
        if a.len() == 0 {
            assert(poly_eval(a, x) == 0);
            assert(poly_eval(tail_or_empty(a), x) == 0);
            assert(coeff(a, 0) == 0);
        } else {
            assert(poly_eval(a, x) == a[0] + x * poly_eval(a.skip(1), x));
        }
        if b.len() == 0 {
            assert(poly_eval(b, x) == 0);
            assert(poly_eval(tail_or_empty(b), x) == 0);
            assert(coeff(b, 0) == 0);
        } else {
            assert(poly_eval(b, x) == b[0] + x * poly_eval(b.skip(1), x));
        }
    }
}

/// Evaluation commutes with coefficient-wise scaling.
pub proof fn lemma_eval_scale(c: int, b: Seq<int>, x: int)
    ensures
        poly_eval(poly_scale_s(c, b), x) == c * poly_eval(b, x),
    decreases b.len(),
{
    let s = poly_scale_s(c, b);
    if b.len() == 0 {
        assert(c * 0 == 0) by (nonlinear_arith);
    } else {
        assert(s.skip(1) =~= poly_scale_s(c, b.skip(1))) by {
            assert forall|j: int| 0 <= j < b.len() - 1 implies s.skip(1)[j] == c * b.skip(1)[j] by {
                assert(s.skip(1)[j] == s[j + 1]);
            }
        }
        lemma_eval_scale(c, b.skip(1), x);
        assert(c * b[0] + x * (c * poly_eval(b.skip(1), x)) == c * (b[0] + x * poly_eval(
            b.skip(1),
            x,
        ))) by (nonlinear_arith);
    }
}

/// A product coefficient with negative index is zero.
pub proof fn lemma_conv_neg(a: Seq<int>, b: Seq<int>, k: int, i: int)
    requires
        k < 0,
    ensures
        conv_pre(a, b, k, i) == 0,
    decreases i,
{
    if i > 0 {
        lemma_conv_neg(a, b, k, i - 1);
        assert(coeff(b, k - (i - 1)) == 0);
        assert(coeff(a, i - 1) * 0 == 0) by (nonlinear_arith);
    }
}

proof fn lemma_conv_pre_head(a: Seq<int>, b: Seq<int>, k: int, i: int)
    requires
        1 <= i,
        a.len() >= 1,
    ensures
        conv_pre(a, b, k, i) == coeff(a, 0) * coeff(b, k) + conv_pre(a.skip(1), b, k - 1, i - 1),
    decreases i,
{
    if i == 1 {
        assert(conv_pre(a, b, k, 1) == conv_pre(a, b, k, 0) + coeff(a, 0) * coeff(b, k));
        assert(conv_pre(a, b, k, 0) == 0);
        assert(conv_pre(a.skip(1), b, k - 1, 0) == 0);
    } else {
        lemma_conv_pre_head(a, b, k, i - 1);
        assert(coeff(a.skip(1), i - 2) == coeff(a, i - 1));
        assert(coeff(b, (k - 1) - (i - 2)) == coeff(b, k - (i - 1)));
        assert(conv_pre(a, b, k, i) == conv_pre(a, b, k, i - 1) + coeff(a, i - 1) * coeff(
            b,
            k - (i - 1),
        ));
        assert(conv_pre(a.skip(1), b, k - 1, i - 1) == conv_pre(a.skip(1), b, k - 1, i - 2)
            + coeff(a.skip(1), i - 2) * coeff(b, (k - 1) - (i - 2)));
    }
}

/// Head decomposition of a product coefficient.
pub proof fn lemma_conv_head(a: Seq<int>, b: Seq<int>, k: int)
    requires
        a.len() >= 1,
    ensures
        conv(a, b, k) == coeff(a, 0) * coeff(b, k) + conv(a.skip(1), b, k - 1),
{
    lemma_conv_pre_head(a, b, k, a.len() as int);
}

/// Evaluation turns convolution into multiplication.
pub proof fn lemma_eval_mul(a: Seq<int>, b: Seq<int>, x: int)
    ensures
        poly_eval(poly_mul_s(a, b), x) == poly_eval(a, x) * poly_eval(b, x),
    decreases a.len(),
{
    let m = poly_mul_s(a, b);
    if a.len() == 0 {
        assert(0 * poly_eval(b, x) == 0) by (nonlinear_arith);
    } else if b.len() == 0 {
        assert(poly_eval(a, x) * 0 == 0) by (nonlinear_arith);
    } else {
        let a1 = a.skip(1);
        let b1 = b.skip(1);
        assert(m[0] == conv(a, b, 0));
        lemma_conv_head(a, b, 0);
        lemma_conv_neg(a1, b, -1, a1.len() as int);
        assert(m[0] == a[0] * b[0]);
        let rest = poly_add_s(poly_scale_s(a[0], b1), poly_mul_s(a1, b));
        assert(m.skip(1) =~= rest) by {
            assert forall|j: int| 0 <= j < m.len() - 1 implies m.skip(1)[j] == coeff(
                poly_scale_s(a[0], b1),
                j,
            ) + coeff(poly_mul_s(a1, b), j) by {
                assert(m.skip(1)[j] == m[j + 1]);
                assert(m[j + 1] == conv(a, b, j + 1));
                lemma_conv_head(a, b, j + 1);
                assert(conv(a, b, j + 1) == coeff(a, 0) * coeff(b, j + 1) + conv(a1, b, j));
                if j < b1.len() {
                    assert(coeff(poly_scale_s(a[0], b1), j) == a[0] * b[j + 1]);
                } else {
                    assert(coeff(b, j + 1) == 0);
                    assert(coeff(a, 0) * 0 == 0) by (nonlinear_arith);
                }
                if a1.len() == 0 {
                    assert(conv(a1, b, j) == 0);
                    assert(coeff(poly_mul_s(a1, b), j) == 0);
                } else if j < a1.len() + b.len() - 1 {
                    assert(coeff(poly_mul_s(a1, b), j) == conv(a1, b, j));
                } else {
                    assert(coeff(poly_mul_s(a1, b), j) == 0);
                    lemma_conv_high(a1, b, j);
                }
            }
        }
        lemma_eval_add(poly_scale_s(a[0], b1), poly_mul_s(a1, b), x);
        lemma_eval_scale(a[0], b1, x);
        lemma_eval_mul(a1, b, x);
        let a0 = a[0];
        let b0 = b[0];
        let ea1 = poly_eval(a1, x);
        let eb1 = poly_eval(b1, x);
        assert(poly_eval(b, x) == b0 + x * eb1);
        assert(poly_eval(a, x) == a0 + x * ea1);
        assert(poly_eval(m, x) == m[0] + x * poly_eval(m.skip(1), x));
        assert(poly_eval(m.skip(1), x) == a0 * eb1 + ea1 * (b0 + x * eb1));
        assert(a0 * b0 + x * (a0 * eb1 + ea1 * (b0 + x * eb1)) == (a0 + x * ea1) * (b0 + x
            * eb1)) by (nonlinear_arith);
    }
}

/// A product coefficient beyond the product's degree is zero.
pub proof fn lemma_conv_high(a: Seq<int>, b: Seq<int>, k: int)
    requires
        k >= a.len() + b.len() - 1,
    ensures
        conv(a, b, k) == 0,
{
    lemma_conv_high_pre(a, b, k, a.len() as int);
}

proof fn lemma_conv_high_pre(a: Seq<int>, b: Seq<int>, k: int, i: int)
    requires
        k >= a.len() + b.len() - 1,
        i <= a.len(),
    ensures
        conv_pre(a, b, k, i) == 0,
    decreases i,
{
    if i > 0 {
        lemma_conv_high_pre(a, b, k, i - 1);
        assert(coeff(b, k - (i - 1)) == 0);
        assert(coeff(a, i - 1) * 0 == 0) by (nonlinear_arith);
    }
}

/// Coefficient-wise sum of two polynomials; absent coefficients count
/// as zero, so the result's length is the longer input's.
pub fn add(p1: &Vec<Scalar>, p2: &Vec<Scalar>) -> (r: Vec<Scalar>)
    ensures
        r@.len() == imax(p1@.len() as int, p2@.len() as int),
        forall|k: int|
            0 <= k < r@.len() ==> fr_val(#[trigger] r@[k]) == rmod(
                coeff(pview(p1@), k) + coeff(pview(p2@), k),
            ),
{
    let n = if p1.len() >= p2.len() {
        p1.len()
    } else {
        p2.len()
    };
    let mut r: Vec<Scalar> = Vec::new();
    let mut k: usize = 0;
    while k < n
        invariant
            0 <= k <= n,
            n == imax(p1@.len() as int, p2@.len() as int),
            r@.len() == k,
            forall|j: int|
                0 <= j < k ==> fr_val(#[trigger] r@[j]) == rmod(
                    coeff(pview(p1@), j) + coeff(pview(p2@), j),
                ),
        decreases n - k,
    {
        let c1 = if k < p1.len() {
            p1[k]
        } else {
            fr_zero()
        };
        let c2 = if k < p2.len() {
            p2[k]
        } else {
            fr_zero()
        };
        assert(fr_val(c1) == coeff(pview(p1@), k as int));
        assert(fr_val(c2) == coeff(pview(p2@), k as int));
        r.push(fr_add(c1, c2));
        k += 1;
    }
    r
}

/// Coefficient-wise product of a polynomial with one scalar.
pub fn scalar_mul(poly: &Vec<Scalar>, scalar: Scalar) -> (r: Vec<Scalar>)
    ensures
        r@.len() == poly@.len(),
        forall|k: int|
            0 <= k < r@.len() ==> fr_val(#[trigger] r@[k]) == rmod(
                pview(poly@)[k] * fr_val(scalar),
            ),
{
    let mut r: Vec<Scalar> = Vec::new();
    let mut k: usize = 0;
    while k < poly.len()
        invariant
            0 <= k <= poly@.len(),
            r@.len() == k,
            forall|j: int|
                0 <= j < k ==> fr_val(#[trigger] r@[j]) == rmod(pview(poly@)[j] * fr_val(scalar)),
        decreases poly@.len() - k,
    {
        r.push(fr_mul(poly[k], scalar));
        k += 1;
    }
    r
}

/// Horner evaluation of the polynomial at a point; the empty
/// polynomial evaluates to zero.
pub fn evaluate(p: &Vec<Scalar>, x: Scalar) -> (r: Scalar)
    ensures
        fr_val(r) == rmod(poly_eval(pview(p@), fr_val(x))),
{
    let mut acc = fr_zero();
    let mut k = p.len();
    while k > 0
        invariant
            0 <= k <= p@.len(),
            fr_val(acc) == rmod(poly_eval(pview(p@).skip(k as int), fr_val(x))),
        decreases k,
    {
        k -= 1;
        let ghost prev = pview(p@).skip(k as int + 1);
        let ghost cur = pview(p@).skip(k as int);
        let m = fr_mul(x, acc);
        proof {
            lemma_rmod_mul_r(fr_val(x), poly_eval(prev, fr_val(x)));
            assert(cur.skip(1) =~= prev);
            assert(cur[0] == pview(p@)[k as int]);
        }
        acc = fr_add(p[k], m);
        proof {
            lemma_rmod_add_r(fr_val(p@[k as int]), fr_val(x) * poly_eval(prev, fr_val(x)));
        }
    }
    proof {
        assert(pview(p@).skip(0) =~= pview(p@));
    }
    acc
}

/// Discrete convolution of two nonempty polynomials; the result's
/// coefficient of `X^k` is the sum of all `p1[i] * p2[k - i]`.
pub fn mul(p1: &Vec<Scalar>, p2: &Vec<Scalar>) -> (r: Vec<Scalar>)
    requires
        p1@.len() >= 1,
        p2@.len() >= 1,
        p1@.len() + p2@.len() - 1 <= usize::MAX,
    ensures
        r@.len() == p1@.len() + p2@.len() - 1,
        forall|k: int|
            0 <= k < r@.len() ==> fr_val(#[trigger] r@[k]) == rmod(
                conv(pview(p1@), pview(p2@), k),
            ),
{
    let n = p1.len() - 1 + p2.len();
    let mut r: Vec<Scalar> = Vec::new();
    let mut k: usize = 0;
    while k < n
        invariant
            0 <= k <= n,
            n == p1@.len() + p2@.len() - 1,
            p1@.len() >= 1,
            p2@.len() >= 1,
            r@.len() == k,
            forall|j: int|
                0 <= j < k ==> fr_val(#[trigger] r@[j]) == rmod(conv(pview(p1@), pview(p2@), j)),
        decreases n - k,
    {
        let mut acc = fr_zero();
        let mut i: usize = 0;
        while i < p1.len()
            invariant
                0 <= i <= p1@.len(),
                p2@.len() >= 1,
                k < p1@.len() + p2@.len() - 1,
                fr_val(acc) == rmod(conv_pre(pview(p1@), pview(p2@), k as int, i as int)),
            decreases p1@.len() - i,
        {
            let ghost partial = conv_pre(pview(p1@), pview(p2@), k as int, i as int);
            if i <= k && k - i < p2.len() {
                let m = fr_mul(p1[i], p2[k - i]);
                proof {
                    assert(coeff(pview(p2@), k - i) == pview(p2@)[k - i]);
                    assert(coeff(pview(p1@), i as int) == pview(p1@)[i as int]);
                }
                acc = fr_add(acc, m);
                proof {
                    lemma_rmod_add(partial, pview(p1@)[i as int] * pview(p2@)[k - i]);
                }
            } else {
                proof {
                    assert(coeff(pview(p2@), k - i) == 0);
                    assert(coeff(pview(p1@), i as int) * 0 == 0) by (nonlinear_arith);
                }
            }
            i += 1;
        }
        r.push(acc);
        k += 1;
    }
    r
}

/// A polynomial whose every coefficient is congruent to zero; the
/// empty polynomial counts.
pub open spec fn poly_zero(p: Seq<int>) -> bool {
    forall|k: int| rmod(#[trigger] coeff(p, k)) == 0
}

/// The sum's coefficient is the sum of the coefficients, at every
/// index.
pub proof fn lemma_add_coeff(a: Seq<int>, b: Seq<int>, k: int)
    ensures
        coeff(poly_add_s(a, b), k) == coeff(a, k) + coeff(b, k),
{
}

/// The product's coefficient is the convolution, at every index.
pub proof fn lemma_mul_coeff(a: Seq<int>, b: Seq<int>, k: int)
    requires
        a.len() >= 1,
        b.len() >= 1,
    ensures
        coeff(poly_mul_s(a, b), k) == conv(a, b, k),
{
    if k < 0 {
        lemma_conv_neg(a, b, k, a.len() as int);
    } else if k >= a.len() + b.len() - 1 {
        lemma_conv_high(a, b, k);
    }
}

proof fn lemma_conv_update_pre(q: Seq<int>, d: Seq<int>, pos: int, c: int, k: int, i: int)
    requires
        0 <= pos < q.len(),
        q[pos] == 0,
    ensures
        conv_pre(q.update(pos, c), d, k, i) == conv_pre(q, d, k, i) + (if pos < i {
            c * coeff(d, k - pos)
        } else {
            0
        }),
    decreases i,
{
    if i <= 0 {
    } else {
        lemma_conv_update_pre(q, d, pos, c, k, i - 1);
        let q1 = q.update(pos, c);
        if i - 1 == pos {
            assert(coeff(q1, i - 1) == c);
            assert(coeff(q, i - 1) == 0);
            assert(0 * coeff(d, k - (i - 1)) == 0) by (nonlinear_arith);
        } else {
            assert(coeff(q1, i - 1) == coeff(q, i - 1));
        }
    }
}

/// Changing one zero coefficient of a factor shifts the product by
/// the scaled, shifted other factor.
pub proof fn lemma_conv_update(q: Seq<int>, d: Seq<int>, pos: int, c: int, k: int)
    requires
        0 <= pos < q.len(),
        q[pos] == 0,
    ensures
        conv(q.update(pos, c), d, k) == conv(q, d, k) + c * coeff(d, k - pos),
{
    lemma_conv_update_pre(q, d, pos, c, k, q.len() as int);
}

/// Dropping a trailing coefficient congruent to zero keeps the
/// divisibility identity.
proof fn lemma_cong_drop_zero(a: Seq<int>, m: Seq<int>, r: Seq<int>)
    requires
        r.len() >= 1,
        rmod(r[r.len() - 1]) == 0,
        poly_cong(a, poly_add_s(m, r)),
    ensures
        poly_cong(a, poly_add_s(m, r.drop_last())),
{
    assert forall|k: int|
        rmod(#[trigger] coeff(a, k)) == rmod(coeff(poly_add_s(m, r.drop_last()), k)) by {
        lemma_add_coeff(m, r, k);
        lemma_add_coeff(m, r.drop_last(), k);
        assert(rmod(coeff(a, k)) == rmod(coeff(m, k) + coeff(r, k)));
        if k == r.len() - 1 {
            assert(coeff(r.drop_last(), k) == 0);
            lemma_rmod_add_cong(coeff(m, k), coeff(m, k), r[k], 0);
        } else {
            assert(coeff(r.drop_last(), k) == coeff(r, k));
        }
    }
}

proof fn lemma_conv_zero_pre(q: Seq<int>, d: Seq<int>, k: int, i: int)
    requires
        forall|j: int| 0 <= j < q.len() ==> q[j] == 0,
    ensures
        conv_pre(q, d, k, i) == 0,
    decreases i,
{
    if i > 0 {
        lemma_conv_zero_pre(q, d, k, i - 1);
        assert(coeff(q, i - 1) == 0);
        assert(0 * coeff(d, k - (i - 1)) == 0) by (nonlinear_arith);
    }
}

/// The coefficient count of a polynomial once trailing coefficients
/// congruent to zero are dropped: one more than its true degree.
pub open spec fn trimmed_len(d: Seq<int>) -> int
    decreases d.len(),
{
    if d.len() == 0 {
        0
    } else if rmod(d.last()) == 0 {
        trimmed_len(d.drop_last())
    } else {
        d.len() as int
    }
}

/// A cut that drops only zero coefficients and stops at a nonzero
/// one is the trimmed length.
proof fn lemma_trimmed_len_of(s: Seq<int>, m: int)
    requires
        0 <= m <= s.len(),
        forall|k: int| m <= k < s.len() ==> rmod(#[trigger] s[k]) == 0,
        m > 0 ==> rmod(s[m - 1]) != 0,
    ensures
        trimmed_len(s) == m,
    decreases s.len(),
{
    if s.len() == 0 {
    } else if s.len() == m {
        assert(rmod(s.last()) != 0);
    } else {
        assert(rmod(s.last()) == 0);
        assert forall|k: int| m <= k < s.drop_last().len() implies rmod(
            #[trigger] s.drop_last()[k],
        ) == 0 by {
            assert(s.drop_last()[k] == s[k]);
        }
        if m > 0 {
            assert(s.drop_last()[m - 1] == s[m - 1]);
        }
        lemma_trimmed_len_of(s.drop_last(), m);
    }
}

proof fn lemma_conv_cong_right_pre(a: Seq<int>, b: Seq<int>, b2: Seq<int>, k: int, i: int)
    requires
        poly_cong(b, b2),
    ensures
        rmod(conv_pre(a, b, k, i)) == rmod(conv_pre(a, b2, k, i)),
    decreases i,
{
    if i > 0 {
        lemma_conv_cong_right_pre(a, b, b2, k, i - 1);
        lemma_rmod_mul_cong(
            coeff(a, i - 1),
            coeff(a, i - 1),
            coeff(b, k - (i - 1)),
            coeff(b2, k - (i - 1)),
        );
        lemma_rmod_add_cong(
            conv_pre(a, b, k, i - 1),
            conv_pre(a, b2, k, i - 1),
            coeff(a, i - 1) * coeff(b, k - (i - 1)),
            coeff(a, i - 1) * coeff(b2, k - (i - 1)),
        );
    }
}

/// Replacing one factor by a congruent one keeps every product
/// coefficient congruent.
proof fn lemma_conv_cong_right(a: Seq<int>, b: Seq<int>, b2: Seq<int>, k: int)
    requires
        poly_cong(b, b2),
    ensures
        rmod(conv(a, b, k)) == rmod(conv(a, b2, k)),
{
    lemma_conv_cong_right_pre(a, b, b2, k, a.len() as int);
}

/// Schoolbook long division: returns the quotient and discards the
/// remainder.  The divisor's trailing zero coefficients are ignored
/// (they are padding that does not change the polynomial), so the
/// division fails, with `DivisionByZero`, exactly when the divisor
/// is empty or identically zero; when the dividend is shorter than
/// the divisor's trimmed length the quotient is the single
/// coefficient zero.  On success there is a remainder, shorter than
/// the divisor's trimmed length, with dividend congruent to quotient
/// times divisor plus remainder.
pub fn div(p1: &Vec<Scalar>, p2: &Vec<Scalar>) -> (r: Result<Vec<Scalar>, Error>)
    ensures
        r is Err <==> poly_zero(pview(p2@)),
        r is Err ==> r == Result::<Vec<Scalar>, Error>::Err(Error::DivisionByZero),
        r matches Ok(q) ==> q@.len() == (if p1@.len() < trimmed_len(pview(p2@)) {
            1int
        } else {
            p1@.len() - trimmed_len(pview(p2@)) + 1
        }),
        r matches Ok(q) ==> exists|rem: Seq<int>|
            #![trigger rem.len()]
            rem.len() < trimmed_len(pview(p2@)) && poly_cong(
                pview(p1@),
                poly_add_s(poly_mul_s(pview(q@), pview(p2@)), rem),
            ),
{
    let ghost a = pview(p1@);
    let ghost d0 = pview(p2@);

    // copy the divisor and trim its trailing zero coefficients: they
    // do not change the polynomial, and long division needs an
    // invertible leading coefficient
    let mut div_by: Vec<Scalar> = Vec::new();
    let mut t: usize = 0;
    while t < p2.len()
        invariant
            div_by@.len() == t <= p2@.len(),
            forall|j: int| 0 <= j < t ==> div_by@[j] == p2@[j],
        decreases p2@.len() - t,
    {
        div_by.push(p2[t]);
        t += 1;
    }
    proof {
        assert(div_by@ =~= p2@);
        assert(div_by@ =~= p2@.subrange(0, div_by@.len() as int));
    }
    let mut go = if div_by.len() > 0 {
        fr_is_zero(&div_by[div_by.len() - 1])
    } else {
        false
    };
    while go
        invariant
            go ==> div_by@.len() > 0 && rmod(pview(div_by@)[div_by@.len() - 1]) == 0,
            div_by@.len() <= p2@.len(),
            div_by@ == p2@.subrange(0, div_by@.len() as int),
            forall|k: int| div_by@.len() <= k < p2@.len() ==> rmod(#[trigger] pview(p2@)[k]) == 0,
            !go ==> (div_by@.len() == 0 || rmod(pview(div_by@)[div_by@.len() - 1]) != 0),
        decreases div_by@.len(),
    {
        let ghost before = div_by@;
        div_by.pop();
        proof {
            assert(div_by@ =~= before.drop_last());
            assert(div_by@ =~= p2@.subrange(0, div_by@.len() as int));
            assert(pview(p2@)[before.len() - 1] == fr_val(before.last()));
        }
        go = if div_by.len() > 0 {
            fr_is_zero(&div_by[div_by.len() - 1])
        } else {
            false
        };
    }
    let dlen = div_by.len();
    let ghost d = pview(div_by@);
    if dlen == 0 {
        proof {
            assert forall|k: int| rmod(#[trigger] coeff(d0, k)) == 0 by {
                if 0 <= k < d0.len() {
                    assert(rmod(pview(p2@)[k]) == 0);
                }
            }
        }
        return Err(Error::DivisionByZero);
    }
    proof {
        // the trimmed divisor stands for the original one
        assert(rmod(d[dlen - 1]) != 0);
        assert forall|k: int| rmod(#[trigger] coeff(d, k)) == rmod(coeff(d0, k)) by {
            if 0 <= k < d.len() {
                assert(div_by@[k] == p2@[k]);
            } else if 0 <= k < d0.len() {
                assert(rmod(pview(p2@)[k]) == 0);
            }
        }
        assert(poly_cong(d, d0));
        assert(coeff(d0, dlen - 1) == d[dlen - 1]);
        assert(!poly_zero(d0)) by {
            assert(rmod(coeff(d0, dlen - 1)) != 0);
        }
        lemma_trimmed_len_of(d0, dlen as int);
        assert(trimmed_len(d0) == dlen);
    }

    if p1.len() < dlen {
        let mut q: Vec<Scalar> = Vec::new();
        q.push(fr_zero());
        proof {
            let qv = pview(q@);
            assert forall|k: int|
                rmod(#[trigger] coeff(a, k)) == rmod(
                    coeff(poly_add_s(poly_mul_s(qv, d0), a), k),
                ) by {
                lemma_add_coeff(poly_mul_s(qv, d0), a, k);
                lemma_mul_coeff(qv, d0, k);
                lemma_conv_zero_pre(qv, d0, k, qv.len() as int);
            }
            assert(a.len() < trimmed_len(d0));
            assert(a.len() < trimmed_len(pview(p2@)) && poly_cong(
                pview(p1@),
                poly_add_s(poly_mul_s(pview(q@), pview(p2@)), a),
            ));
            assert(exists|rem: Seq<int>|
                #![trigger rem.len()]
                rem.len() < trimmed_len(pview(p2@)) && poly_cong(
                    pview(p1@),
                    poly_add_s(poly_mul_s(pview(q@), pview(p2@)), rem),
                ));
        }
        return Ok(q);
    }

    // the trimmed divisor's leading coefficient is invertible
    let dinv = match fr_inverse(&div_by[dlen - 1]) {
        Some(v) => v,
        None => {
            proof {
                assert(false);
            }
            return Err(Error::DivisionByZero);
        },
    };
    assert(rmod(fr_val(dinv) * d[d.len() - 1]) == 1);

    let qlen = p1.len() - dlen + 1;
    let mut q: Vec<Scalar> = Vec::new();
    let mut t: usize = 0;
    while t < qlen
        invariant
            q@.len() == t <= qlen,
            forall|j: int| 0 <= j < t ==> fr_val(#[trigger] q@[j]) == 0,
        decreases qlen - t,
    {
        q.push(fr_zero());
        t += 1;
    }
    let mut rem: Vec<Scalar> = Vec::new();
    let mut t: usize = 0;
    while t < p1.len()
        invariant
            rem@.len() == t <= p1@.len(),
            forall|j: int| 0 <= j < t ==> rem@[j] == p1@[j],
        decreases p1@.len() - t,
    {
        rem.push(p1[t]);
        t += 1;
    }
    proof {
        assert(rem@ =~= p1@);
        // the all-zero quotient satisfies the division invariant
        assert forall|k: int|
            rmod(#[trigger] coeff(a, k)) == rmod(
                coeff(poly_add_s(poly_mul_s(pview(q@), d), pview(rem@)), k),
            ) by {
            lemma_add_coeff(poly_mul_s(pview(q@), d), pview(rem@), k);
            lemma_mul_coeff(pview(q@), d, k);
            lemma_conv_zero_pre(pview(q@), d, k, pview(q@).len() as int);
        }
    }

    while rem.len() >= dlen
        invariant
            d == pview(div_by@),
            a == pview(p1@),
            d.len() == dlen,
            1 <= dlen,
            dlen <= a.len(),
            q@.len() == qlen,
            qlen == p1@.len() - dlen + 1,
            rem@.len() <= p1@.len(),
            rmod(fr_val(dinv) * d[d.len() - 1]) == 1,
            forall|j: int| 0 <= j && j + dlen <= rem@.len() ==> fr_val(#[trigger] q@[j]) == 0,
            poly_cong(a, poly_add_s(poly_mul_s(pview(q@), d), pview(rem@))),
        decreases rem@.len(),
    {
        let ghost q0 = pview(q@);
        let ghost r0 = pview(rem@);
        let rlen = rem.len();
        let pos = rlen - dlen;
        let top = rem[rlen - 1];
        let c = fr_mul(top, dinv);
        let ghost cv = fr_val(c);
        assert(fr_val(q@[pos as int]) == 0);
        q[pos] = c;
        proof {
            assert(pview(q@) =~= q0.update(pos as int, cv));
        }
        let ghost q1 = pview(q@);

        let mut i: usize = 0;
        while i < dlen
            invariant
                0 <= i <= dlen,
                dlen == d.len(),
                d == pview(div_by@),
                pos + dlen == rlen,
                rlen == rem@.len(),
                rem@.len() == r0.len(),
                cv == fr_val(c),
                forall|j: int|
                    0 <= j < i ==> fr_val(#[trigger] rem@[pos + j]) == rmod(r0[pos + j] - d[j] * cv),
                forall|j: int|
                    (0 <= j < pos || pos + i <= j < rem@.len()) ==> fr_val(#[trigger] rem@[j])
                        == r0[j],
            decreases dlen - i,
        {
            let idx = pos + i;
            let m = fr_mul(div_by[i], c);
            let s = fr_sub(rem[idx], m);
            proof {
                lemma_rmod_sub_r(r0[pos + i], d[i as int] * cv);
            }
            rem[idx] = s;
            i += 1;
        }
        let ghost r1 = pview(rem@);

        proof {
            // the leading coefficient of the remainder is now zero
            let dl = d[d.len() - 1];
            let tv = fr_val(top);
            assert(fr_val(rem@[pos + (dlen - 1)]) == rmod(r0[pos + (dlen - 1)] - d[dlen - 1] * cv));
            assert(fr_val(rem@[pos + dlen - 1]) == rmod(r0[pos + dlen - 1] - dl * cv));
            assert(r0[pos + dlen - 1] == tv);
            assert(rmod(dl * cv) == rmod(tv)) by {
                lemma_rmod_mul_r(dl, tv * fr_val(dinv));
                assert(dl * (tv * fr_val(dinv)) == tv * (fr_val(dinv) * dl)) by (nonlinear_arith);
                lemma_rmod_mul_r(tv, fr_val(dinv) * dl);
                assert(tv * 1 == tv) by (nonlinear_arith);
            }
            lemma_rmod_sub_cong(tv, tv, dl * cv, tv);
            assert(rmod(rmod(tv - dl * cv)) == rmod(tv - dl * cv)) by {
                vstd::arithmetic::div_mod::lemma_mod_twice(tv - dl * cv, fr_order());
            }
            assert(rmod(fr_val(rem@[pos + dlen - 1])) == 0);

            // the division invariant is preserved
            assert forall|k: int|
                rmod(#[trigger] coeff(a, k)) == rmod(coeff(poly_add_s(poly_mul_s(q1, d), r1), k)) by {
                lemma_add_coeff(poly_mul_s(q1, d), r1, k);
                lemma_add_coeff(poly_mul_s(q0, d), r0, k);
                lemma_mul_coeff(q1, d, k);
                lemma_mul_coeff(q0, d, k);
                lemma_conv_update(q0, d, pos as int, cv, k);
                assert(rmod(coeff(a, k)) == rmod(conv(q0, d, k) + coeff(r0, k)));
                if pos <= k < pos + dlen {
                    let j = k - pos;
                    assert(fr_val(rem@[pos + j]) == rmod(r0[pos + j] - d[j] * cv));
                    assert(pos + j == k);
                    assert(coeff(r1, k) == rmod(r0[k] - d[j] * cv));
                    assert(coeff(d, j) == d[j]);
                    lemma_rmod_add_r(conv(q0, d, k) + cv * d[j], r0[k] - d[j] * cv);
                    assert(conv(q0, d, k) + cv * d[j] + (r0[k] - d[j] * cv) == conv(q0, d, k)
                        + r0[k]) by (nonlinear_arith);
                } else {
                    assert(coeff(d, k - pos) == 0);
                    assert(cv * 0 == 0) by (nonlinear_arith);
                    if 0 <= k < r1.len() {
                        assert(fr_val(rem@[k]) == r0[k]);
                        assert(coeff(r1, k) == coeff(r0, k));
                    } else {
                        assert(coeff(r1, k) == 0 && coeff(r0, k) == 0);
                    }
                }
            }
        }

        // trim trailing zero coefficients; at least the leading one goes
        let ghost len_before = rem@.len();
        rem.pop();
        proof {
            assert(r1.drop_last() =~= pview(rem@));
            lemma_cong_drop_zero(a, poly_mul_s(q1, d), r1);
        }
        let mut go = if rem.len() > 0 {
            fr_is_zero(&rem[rem.len() - 1])
        } else {
            false
        };
        while go
            invariant
                go ==> rem@.len() > 0 && rmod(pview(rem@)[rem@.len() - 1]) == 0,
                rem@.len() < len_before,
                poly_cong(a, poly_add_s(poly_mul_s(q1, d), pview(rem@))),
            decreases rem@.len(),
        {
            let ghost rcur = pview(rem@);
            rem.pop();
            proof {
                assert(rcur.drop_last() =~= pview(rem@));
                lemma_cong_drop_zero(a, poly_mul_s(q1, d), rcur);
            }
            go = if rem.len() > 0 {
                fr_is_zero(&rem[rem.len() - 1])
            } else {
                false
            };
        }
        proof {
            assert(rem@.len() < len_before);
            assert forall|j: int|
                0 <= j && j + dlen <= rem@.len() implies fr_val(#[trigger] q@[j]) == 0 by {
                assert(j < pos);
                assert(q1[j] == q0[j]);
            }
        }
    }

    proof {
        let remv = pview(rem@);
        let qv = pview(q@);
        assert(remv.len() < d.len());
        // transfer the identity from the trimmed to the original divisor
        assert forall|k: int|
            rmod(#[trigger] coeff(a, k)) == rmod(
                coeff(poly_add_s(poly_mul_s(qv, d0), remv), k),
            ) by {
            lemma_add_coeff(poly_mul_s(qv, d), remv, k);
            lemma_add_coeff(poly_mul_s(qv, d0), remv, k);
            lemma_mul_coeff(qv, d, k);
            lemma_mul_coeff(qv, d0, k);
            lemma_conv_cong_right(qv, d, d0, k);
            lemma_rmod_add_cong(conv(qv, d, k), conv(qv, d0, k), coeff(remv, k), coeff(remv, k));
        }
        assert(remv.len() < trimmed_len(pview(p2@)) && poly_cong(
            pview(p1@),
            poly_add_s(poly_mul_s(pview(q@), pview(p2@)), remv),
        ));
        assert(exists|rem: Seq<int>|
            #![trigger rem.len()]
            rem.len() < trimmed_len(pview(p2@)) && poly_cong(
                pview(p1@),
                poly_add_s(poly_mul_s(pview(q@), pview(p2@)), rem),
            ));
    }
    Ok(q)
}


/// The Lagrange denominator for index `i`, restricted to the first
/// `hi` interpolation points: the product of `pts[i] - pts[j]` over
/// `j != i`, `j < hi`.
pub open spec fn lag_denom_pre(pts: Seq<int>, i: int, hi: int) -> int
    decreases hi,
{
    if hi <= 0 {
        1
    } else if hi - 1 == i {
        lag_denom_pre(pts, i, hi - 1)
    } else {
        lag_denom_pre(pts, i, hi - 1) * (pts[i] - pts[hi - 1])
    }
}

/// The full Lagrange denominator for index `i`.
pub open spec fn lag_denom(pts: Seq<int>, i: int) -> int {
    lag_denom_pre(pts, i, pts.len() as int)
}

/// An executable vector whose entries are the reduced coefficients of
/// a spec polynomial stands for that polynomial.
pub(crate) proof fn lemma_cong_of_reduced(w: Seq<int>, s: Seq<int>)
    requires
        w.len() == s.len(),
        forall|k: int| 0 <= k < w.len() ==> w[k] == rmod(#[trigger] s[k]),
    ensures
        poly_cong(w, s),
{
    assert forall|k: int| rmod(#[trigger] coeff(w, k)) == rmod(coeff(s, k)) by {
        if 0 <= k < w.len() {
            vstd::arithmetic::div_mod::lemma_mod_twice(s[k], fr_order());
        }
    }
}

/// Evaluating the monic linear factor `X - pj` stored as reduced
/// coefficients.
pub(crate) proof fn lemma_eval_linear_factor(f: Seq<int>, pj: int, x: int)
    requires
        f.len() == 2,
        f[0] == rmod(-pj),
        f[1] == 1,
    ensures
        rmod(poly_eval(f, x)) == rmod(x - pj),
{
    assert(f.skip(1).len() == 1);
    assert(f.skip(1)[0] == 1);
    assert(poly_eval(f.skip(1).skip(1), x) == 0);
    assert(poly_eval(f.skip(1), x) == f.skip(1)[0] + x * poly_eval(f.skip(1).skip(1), x));
    assert(x * 0 == 0) by (nonlinear_arith);
    assert(x * 1 == x) by (nonlinear_arith);
    assert(poly_eval(f.skip(1), x) == 1);
    assert(poly_eval(f, x) == f[0] + x * poly_eval(f.skip(1), x));
    assert(poly_eval(f, x) == rmod(-pj) + x);
    vstd::arithmetic::div_mod::lemma_mod_twice(-pj, fr_order());
    lemma_rmod_add_cong(rmod(-pj), -pj, x, x);
}

/// A polynomial congruent to a product evaluates to the product of
/// the factors' evaluations.
proof fn lemma_eval_of_mul(w: Seq<int>, aa: Seq<int>, bb: Seq<int>, x: int)
    requires
        poly_cong(w, poly_mul_s(aa, bb)),
    ensures
        rmod(poly_eval(w, x)) == rmod(poly_eval(aa, x) * poly_eval(bb, x)),
{
    lemma_eval_cong(w, poly_mul_s(aa, bb), x);
    lemma_eval_mul(aa, bb, x);
}

/// Lagrange interpolation: the returned polynomial, of length equal
/// to the number of points, passes through every `(points[k],
/// values[k])` pair.  Fails with `DivisionByZero` exactly when some
/// Lagrange denominator is zero, which happens whenever two points
/// coincide.
pub fn interpolate(points: &Vec<Scalar>, values: &Vec<Scalar>) -> (r: Result<Vec<Scalar>, Error>)
    requires
        points@.len() == values@.len(),
        points@.len() < usize::MAX,
    ensures
        r is Ok <==> (forall|i: int|
            0 <= i < points@.len() ==> rmod(#[trigger] lag_denom(pview(points@), i)) != 0),
        r is Err ==> r == Result::<Vec<Scalar>, Error>::Err(Error::DivisionByZero),
        r matches Ok(q) ==> q@.len() == points@.len(),
        r matches Ok(q) ==> forall|k: int|
            0 <= k < points@.len() ==> rmod(
                poly_eval(pview(q@), #[trigger] pview(points@)[k]),
            ) == rmod(pview(values@)[k]),
{
    let ghost pts = pview(points@);
    let ghost vals = pview(values@);
    let n = points.len();
    let mut result: Vec<Scalar> = Vec::new();
    let mut t: usize = 0;
    while t < n
        invariant
            result@.len() == t <= n,
            forall|j: int| 0 <= j < t ==> fr_val(#[trigger] result@[j]) == 0,
        decreases n - t,
    {
        result.push(fr_zero());
        t += 1;
    }
    proof {
        // an all-zero vector evaluates to zero everywhere
        assert forall|x: int| rmod(poly_eval(pview(result@), x)) == 0 by {
            assert(poly_cong(pview(result@), Seq::<int>::empty()));
            lemma_eval_cong(pview(result@), Seq::<int>::empty(), x);
        }
    }

    let mut i: usize = 0;
    while i < n
        invariant
            points@.len() == n,
            values@.len() == n,
            pts == pview(points@),
            vals == pview(values@),
            0 <= i <= n,
            n < usize::MAX,
            result@.len() == n,
            forall|k: int|
                0 <= k < i ==> rmod(poly_eval(pview(result@), #[trigger] pts[k])) == rmod(vals[k]),
            forall|k: int|
                i <= k < n ==> rmod(poly_eval(pview(result@), #[trigger] pts[k])) == 0,
            forall|k: int| 0 <= k < i ==> rmod(#[trigger] lag_denom(pts, k)) != 0,
        decreases n - i,
    {
        let mut num: Vec<Scalar> = Vec::new();
        num.push(fr_one());
        let mut den = fr_one();
        proof {
            assert(pview(num@).len() == 1);
            assert(pview(num@)[0] == 1);
            assert(poly_eval(pview(num@).skip(1), pts[i as int]) == 0);
            assert(poly_eval(pview(num@), pts[i as int]) == pview(num@)[0] + pts[i as int]
                * poly_eval(pview(num@).skip(1), pts[i as int]));
            assert(pts[i as int] * 0 == 0) by (nonlinear_arith);
            assert(poly_eval(pview(num@), pts[i as int]) == 1);
        }
        let mut j: usize = 0;
        while j < n
            invariant
                points@.len() == n,
                pts == pview(points@),
                0 <= j <= n,
                i < n,
                n < usize::MAX,
                num@.len() == (if j <= i {
                    j + 1
                } else {
                    j as int
                }),
                fr_val(den) == rmod(lag_denom_pre(pts, i as int, j as int)),
                rmod(poly_eval(pview(num@), pts[i as int])) == rmod(
                    lag_denom_pre(pts, i as int, j as int),
                ),
                forall|k: int|
                    0 <= k < j && k != i ==> rmod(
                        poly_eval(pview(num@), #[trigger] pts[k]),
                    ) == 0,
            decreases n - j,
        {
            if j != i {
                let ghost numv = pview(num@);
                let mut factor: Vec<Scalar> = Vec::new();
                factor.push(fr_neg(points[j]));
                factor.push(fr_one());
                proof {
                    assert(pview(factor@).len() == 2);
                    assert(pview(factor@)[0] == rmod(-pts[j as int]));
                    assert(pview(factor@)[1] == 1);
                }
                let new_num = crate::poly::mul(&num, &factor);
                proof {
                    lemma_cong_of_reduced(
                        pview(new_num@),
                        Seq::new(
                            pview(new_num@).len(),
                            |k: int| conv(numv, pview(factor@), k),
                        ),
                    );
                    assert(poly_cong(
                        pview(new_num@),
                        poly_mul_s(numv, pview(factor@)),
                    )) by {
                        assert(poly_mul_s(numv, pview(factor@)) =~= Seq::new(
                            pview(new_num@).len(),
                            |k: int| conv(numv, pview(factor@), k),
                        ));
                    }
                    // evaluation facts at every interpolation point
                    assert forall|k: int| 0 <= k < n implies rmod(
                        poly_eval(pview(new_num@), #[trigger] pts[k]),
                    ) == rmod(poly_eval(numv, pts[k]) * (pts[k] - pts[j as int])) by {
                        lemma_eval_of_mul(pview(new_num@), numv, pview(factor@), pts[k]);
                        lemma_eval_linear_factor(pview(factor@), pts[j as int], pts[k]);
                        lemma_rmod_mul_cong(
                            poly_eval(numv, pts[k]),
                            poly_eval(numv, pts[k]),
                            poly_eval(pview(factor@), pts[k]),
                            pts[k] - pts[j as int],
                        );
                    }
                }
                num = new_num;
                let diff = fr_sub(points[i], points[j]);
                let new_den = fr_mul(den, diff);
                proof {
                    let dp = lag_denom_pre(pts, i as int, j as int);
                    let df = pts[i as int] - pts[j as int];
                    // the running denominator gains the same factor
                    lemma_rmod_mul_cong(rmod(dp), dp, rmod(df), df);
                    vstd::arithmetic::div_mod::lemma_mod_twice(dp, fr_order());
                    vstd::arithmetic::div_mod::lemma_mod_twice(df, fr_order());
                    assert(fr_val(new_den) == rmod(dp * df));
                    assert(lag_denom_pre(pts, i as int, j as int + 1) == dp * df);
                    // the numerator keeps matching it at pts[i]
                    lemma_rmod_mul_cong(poly_eval(numv, pts[i as int]), dp, df, df);
                    assert(rmod(poly_eval(pview(num@), pts[i as int])) == rmod(dp * df));
                    // old roots stay roots, and pts[j] becomes one
                    assert forall|k: int| 0 <= k < j + 1 && k != i implies rmod(
                        poly_eval(pview(num@), #[trigger] pts[k]),
                    ) == 0 by {
                        if k < j {
                            lemma_rmod_mul_cong(
                                poly_eval(numv, pts[k]),
                                0,
                                pts[k] - pts[j as int],
                                pts[k] - pts[j as int],
                            );
                            assert(0 * (pts[k] - pts[j as int]) == 0) by (nonlinear_arith);
                        } else {
                            assert(pts[k] - pts[j as int] == 0);
                            assert(poly_eval(numv, pts[k]) * 0 == 0) by (nonlinear_arith);
                        }
                    }
                }
                den = new_den;
            } else {
                proof {
                    assert(lag_denom_pre(pts, i as int, j as int + 1) == lag_denom_pre(
                        pts,
                        i as int,
                        j as int,
                    ));
                }
            }
            j += 1;
        }

        let dinv = match fr_inverse(&den) {
            Some(v) => v,
            None => {
                proof {
                    assert(rmod(lag_denom(pts, i as int)) == 0) by {
                        vstd::arithmetic::div_mod::lemma_mod_twice(
                            lag_denom_pre(pts, i as int, n as int),
                            fr_order(),
                        );
                    }
                }
                return Err(Error::DivisionByZero);
            },
        };
        proof {
            assert(rmod(lag_denom(pts, i as int)) != 0) by {
                if rmod(lag_denom(pts, i as int)) == 0 {
                    vstd::arithmetic::div_mod::lemma_mod_twice(
                        lag_denom_pre(pts, i as int, n as int),
                        fr_order(),
                    );
                }
            }
        }
        let scale = fr_mul(values[i], dinv);
        let term = crate::poly::scalar_mul(&num, scale);
        let ghost resv = pview(result@);
        let new_result = crate::poly::add(&result, &term);
        proof {
            let numv = pview(num@);
            let termv = pview(term@);
            let sv = fr_val(scale);
            // the scaled numerator stands for scale * num
            assert forall|k: int|
                rmod(#[trigger] coeff(termv, k)) == rmod(coeff(poly_scale_s(sv, numv), k)) by {
                if 0 <= k < termv.len() {
                    assert(coeff(termv, k) == rmod(numv[k] * sv));
                    assert(coeff(poly_scale_s(sv, numv), k) == sv * numv[k]);
                    assert(numv[k] * sv == sv * numv[k]) by (nonlinear_arith);
                    vstd::arithmetic::div_mod::lemma_mod_twice(sv * numv[k], fr_order());
                }
            }
            assert(poly_cong(termv, poly_scale_s(sv, numv)));
            // the new running sum stands for result + term
            lemma_cong_of_reduced(
                pview(new_result@),
                Seq::new(
                    pview(new_result@).len(),
                    |k: int| coeff(resv, k) + coeff(termv, k),
                ),
            );
            assert(poly_cong(pview(new_result@), poly_add_s(resv, termv))) by {
                assert(poly_add_s(resv, termv) =~= Seq::new(
                    pview(new_result@).len(),
                    |k: int| coeff(resv, k) + coeff(termv, k),
                ));
            }
            // evaluations of the new running sum at every point
            assert forall|k: int| 0 <= k < n implies rmod(
                poly_eval(pview(new_result@), #[trigger] pts[k]),
            ) == rmod(poly_eval(resv, pts[k]) + sv * poly_eval(numv, pts[k])) by {
                lemma_eval_cong(pview(new_result@), poly_add_s(resv, termv), pts[k]);
                lemma_eval_add(resv, termv, pts[k]);
                lemma_eval_cong(termv, poly_scale_s(sv, numv), pts[k]);
                lemma_eval_scale(sv, numv, pts[k]);
                lemma_rmod_add_cong(
                    poly_eval(resv, pts[k]),
                    poly_eval(resv, pts[k]),
                    poly_eval(termv, pts[k]),
                    sv * poly_eval(numv, pts[k]),
                );
            }
            // the scale times the numerator reproduces the value at
            // pts[i] and vanishes at the other points
            let vi = vals[i as int];
            let dv = fr_val(dinv);
            let dd = lag_denom(pts, i as int);
            assert(rmod(sv * poly_eval(numv, pts[i as int])) == rmod(vi)) by {
                vstd::arithmetic::div_mod::lemma_mod_twice(vi * dv, fr_order());
                lemma_rmod_mul_cong(sv, vi * dv, poly_eval(numv, pts[i as int]), dd);
                assert((vi * dv) * dd == vi * (dv * dd)) by (nonlinear_arith);
                lemma_rmod_mul_r(vi, dv * dd);
                assert(rmod(dv * dd) == 1) by {
                    lemma_rmod_mul_r(dv, dd);
                }
                assert(vi * 1 == vi) by (nonlinear_arith);
            }
            assert forall|k: int| 0 <= k < n && k != i implies rmod(
                sv * poly_eval(numv, #[trigger] pts[k]),
            ) == 0 by {
                lemma_rmod_mul_r(sv, poly_eval(numv, pts[k]));
                assert(rmod(poly_eval(numv, pts[k])) == 0);
                assert(sv * 0 == 0) by (nonlinear_arith);
            }
            // the three outer invariants at i + 1
            assert forall|k: int| 0 <= k < i + 1 implies rmod(
                poly_eval(pview(new_result@), #[trigger] pts[k]),
            ) == rmod(vals[k]) by {
                if k < i {
                    lemma_rmod_add_cong(
                        poly_eval(resv, pts[k]),
                        poly_eval(resv, pts[k]),
                        sv * poly_eval(numv, pts[k]),
                        0,
                    );
                    assert(rmod(poly_eval(resv, pts[k]) + 0) == rmod(vals[k]));
                } else {
                    lemma_rmod_add_cong(
                        poly_eval(resv, pts[k]),
                        0,
                        sv * poly_eval(numv, pts[k]),
                        vals[k],
                    );
                    assert(rmod(0 + vals[k]) == rmod(vals[k]));
                }
            }
            assert forall|k: int| i + 1 <= k < n implies rmod(
                poly_eval(pview(new_result@), #[trigger] pts[k]),
            ) == 0 by {
                lemma_rmod_add_cong(
                    poly_eval(resv, pts[k]),
                    0,
                    sv * poly_eval(numv, pts[k]),
                    0,
                );
            }
        }
        result = new_result;
        i += 1;
    }
    Ok(result)
}


/// The smallest power of two that is at least `n`; one when `n` is
/// at most one.
pub open spec fn pow2_ceil(n: int) -> int
    decreases n,
{
    if n <= 1 {
        1
    } else {
        2 * pow2_ceil((n + 1) / 2)
    }
}

/// A power of two that reaches `len`, while its half does not, is
/// the padded domain size.
proof fn lemma_pow2_ceil_of(len: int, e: nat)
    requires
        pow2(e) >= len,
        e > 0 ==> pow2((e - 1) as nat) < len,
    ensures
        pow2_ceil(len) == pow2(e),
    decreases e,
{
    if e == 0 {
        assert(pow2(0) == 1) by {
            vstd::arithmetic::power2::lemma2_to64();
        }
        assert(len <= 1);
    } else {
        vstd::arithmetic::power2::lemma_pow2_pos((e - 1) as nat);
        assert(len >= 2);
        assert(pow2(e) == 2 * pow2((e - 1) as nat)) by {
            vstd::arithmetic::power2::lemma_pow2_adds((e - 1) as nat, 1);
            vstd::arithmetic::power2::lemma2_to64();
        }
        let half = (len + 1) / 2;
        assert(pow2((e - 1) as nat) >= half);
        if e - 1 > 0 {
            assert(pow2((e - 1) as nat) == 2 * pow2((e - 2) as nat)) by {
                vstd::arithmetic::power2::lemma_pow2_adds((e - 2) as nat, 1);
                vstd::arithmetic::power2::lemma2_to64();
            }
            assert(pow2((e - 2) as nat) < half);
        }
        lemma_pow2_ceil_of(half, (e - 1) as nat);
        assert(pow2_ceil(len) == 2 * pow2_ceil(half));
    }
}

/// The evaluation-domain size for a coefficient count: the smallest
/// power of two that is at least `len`, with its exponent.
pub(crate) fn domain_order(len: usize) -> (r: (usize, usize))
    requires
        len <= 0x40000000,
    ensures
        r.0 == pow2(r.1 as nat),
        r.0 == pow2_ceil(len as int),
        r.0 >= len,
        r.1 <= 30,
        r.1 > 0 ==> pow2((r.1 - 1) as nat) < len,
{
    let mut n: usize = 1;
    let mut e: usize = 0;
    proof {
        vstd::arithmetic::power2::lemma2_to64();
    }
    while n < len
        invariant
            len <= 0x40000000,
            n == pow2(e as nat),
            e <= 30,
            e > 0 ==> pow2((e - 1) as nat) < len,
            n <= 0x40000000,
        decreases 30 - e,
    {
        proof {
            vstd::arithmetic::power2::lemma2_to64();
            if e as nat >= 30 {
                vstd::arithmetic::power2::lemma_pow2_strictly_increases(30, e as nat + 1);
                assert(pow2(30) <= pow2(e as nat));
                assert(false);
            }
            vstd::arithmetic::power2::lemma_pow2_adds(e as nat, 1);
            assert(pow2(1) == 2);
            vstd::arithmetic::power2::lemma_pow2_strictly_increases(e as nat, 30);
        }
        n = n * 2;
        e = e + 1;
    }
    proof {
        lemma_pow2_ceil_of(len as int, e as nat);
    }
    (n, e)
}

/// The root of unity for the evaluation domain of a coefficient
/// vector: the coefficient count is padded up to the next power of
/// two `2^e`, and the returned scalar is a primitive `2^e`-th root of
/// unity, derived by squaring the field's canonical two-adic root.
pub fn get_omega(coefficients: &Vec<Scalar>) -> (r: Scalar)
    requires
        coefficients@.len() <= 0x40000000,
    ensures
        exists|e: nat|
            #![trigger pow2(e)]
            e <= 30 && pow2(e) >= coefficients@.len() && (e > 0 ==> pow2((e - 1) as nat)
                < coefficients@.len()) && rmod(pow(fr_val(r), pow2(e))) == 1 && (e > 0 ==> rmod(
                pow(fr_val(r), pow2((e - 1) as nat)),
            ) != 1),
{
    let (_n, e) = domain_order(coefficients.len());
    omega_pow2(e)
}

/// A primitive `2^e`-th root of unity, derived by squaring the
/// field's canonical two-adic root.
pub(crate) fn omega_pow2(e: usize) -> (r: Scalar)
    requires
        e <= 30,
    ensures
        rmod(pow(fr_val(r), pow2(e as nat))) == 1,
        e > 0 ==> rmod(pow(fr_val(r), pow2((e - 1) as nat))) != 1,
{
    let root = fr_two_adic_root();
    let ghost rootv = fr_val(root);
    let mut om = root;
    let mut t: usize = e;
    proof {
        vstd::arithmetic::power::lemma_pow1(rootv);
        assert(pow2(0) == 1) by {
            vstd::arithmetic::power2::lemma2_to64();
        }
    }
    while t < 32
        invariant
            e <= t <= 32,
            rootv == fr_val(root),
            rmod(pow(rootv, pow2(32))) == 1,
            rmod(pow(rootv, pow2(31))) != 1,
            rmod(fr_val(om)) == rmod(pow(rootv, pow2((t - e) as nat))),
        decreases 32 - t,
    {
        let ghost s = (t - e) as nat;
        let ghost p = pow(rootv, pow2(s));
        let om2 = fr_mul(om, om);
        proof {
            lemma_rmod_mul_cong(fr_val(om), p, fr_val(om), p);
            vstd::arithmetic::power::lemma_pow_adds(rootv, pow2(s), pow2(s));
            vstd::arithmetic::power2::lemma_pow2_adds(s, 1);
            assert(pow2(1) == 2) by {
                vstd::arithmetic::power2::lemma2_to64();
            }
            assert(pow2(s) + pow2(s) == pow2(s + 1));
            assert(rmod(rmod(fr_val(om) * fr_val(om))) == rmod(fr_val(om) * fr_val(om))) by {
                vstd::arithmetic::div_mod::lemma_mod_twice(fr_val(om) * fr_val(om), fr_order());
            }
        }
        om = om2;
        t += 1;
    }
    proof {
        let ghost s = (32 - e) as nat;
        let ghost q = pow(rootv, pow2(s));
        // raising to the domain order reaches the full two-adic order
        lemma_rmod_pow(fr_val(om), pow2(e as nat));
        lemma_rmod_pow(q, pow2(e as nat));
        assert(pow(rmod(fr_val(om)), pow2(e as nat)) == pow(rmod(q), pow2(e as nat)));
        vstd::arithmetic::power::lemma_pow_multiplies(rootv, pow2(s), pow2(e as nat));
        vstd::arithmetic::power2::lemma_pow2_adds(s, e as nat);
        assert(rmod(pow(fr_val(om), pow2(e as nat))) == rmod(pow(rootv, pow2(32))));
        if e > 0 {
            // one step short of the domain order stops at the
            // primitive exponent
            lemma_rmod_pow(fr_val(om), pow2((e - 1) as nat));
            lemma_rmod_pow(q, pow2((e - 1) as nat));
            assert(pow(rmod(fr_val(om)), pow2((e - 1) as nat)) == pow(
                rmod(q),
                pow2((e - 1) as nat),
            ));
            vstd::arithmetic::power::lemma_pow_multiplies(rootv, pow2(s), pow2((e - 1) as nat));
            vstd::arithmetic::power2::lemma_pow2_adds(s, (e - 1) as nat);
            assert(s + (e - 1) == 31);
            assert(rmod(pow(fr_val(om), pow2((e - 1) as nat))) == rmod(pow(rootv, pow2(31))));
        }
    }
    om
}



proof fn lemma_conv_top_pre(a: Seq<int>, b: Seq<int>, k: int, i: int)
    requires
        a.len() >= 1,
        b.len() >= 1,
        k == a.len() + b.len() - 2,
        0 <= i <= a.len(),
    ensures
        conv_pre(a, b, k, i) == if i == a.len() {
            a.last() * b.last()
        } else {
            0
        },
    decreases i,
{
    if i > 0 {
        lemma_conv_top_pre(a, b, k, i - 1);
        if i - 1 == a.len() - 1 {
            assert(coeff(a, i - 1) == a.last());
            assert(coeff(b, k - (i - 1)) == b.last());
        } else {
            assert(k - (i - 1) >= b.len());
            assert(coeff(b, k - (i - 1)) == 0);
            assert(coeff(a, i - 1) * 0 == 0) by (nonlinear_arith);
        }
    }
}

/// The leading coefficient of a product is the product of the
/// leading coefficients.
pub(crate) proof fn lemma_conv_top(a: Seq<int>, b: Seq<int>)
    requires
        a.len() >= 1,
        b.len() >= 1,
    ensures
        conv(a, b, a.len() + b.len() - 2) == a.last() * b.last(),
{
    lemma_conv_top_pre(a, b, a.len() + b.len() - 2, a.len() as int);
}


proof fn lemma_conv_diff_pre(u: Seq<int>, v: Seq<int>, d: Seq<int>, j: int, k: int, i: int)
    requires
        u.len() == v.len(),
        d.len() >= 1,
        0 <= j < u.len(),
        k == j + d.len() - 1,
        forall|t: int| j < t < u.len() ==> rmod(#[trigger] u[t]) == rmod(v[t]),
        0 <= i <= u.len(),
    ensures
        rmod(conv_pre(u, d, k, i) - conv_pre(v, d, k, i)) == (if i > j {
            rmod((u[j] - v[j]) * d[d.len() - 1])
        } else {
            0int
        }),
    decreases i,
{
    if i > 0 {
        lemma_conv_diff_pre(u, v, d, j, k, i - 1);
        let t = i - 1;
        let du = conv_pre(u, d, k, i - 1);
        let dvv = conv_pre(v, d, k, i - 1);
        let cu = coeff(u, t) * coeff(d, k - t);
        let cv = coeff(v, t) * coeff(d, k - t);
        assert(conv_pre(u, d, k, i) - conv_pre(v, d, k, i) == (du - dvv) + (cu - cv));
        if t < j {
            assert(k - t > d.len() - 1);
            assert(coeff(d, k - t) == 0);
            assert(coeff(u, t) * 0 == 0) by (nonlinear_arith);
            assert(coeff(v, t) * 0 == 0) by (nonlinear_arith);
        } else if t == j {
            assert(coeff(d, k - t) == d[d.len() - 1]);
            assert(rmod(du - dvv) == 0);
            assert(coeff(u, t) == u[j] && coeff(v, t) == v[j]);
            assert(u[j] * d[d.len() - 1] - v[j] * d[d.len() - 1] == (u[j] - v[j]) * d[d.len()
                - 1]) by (nonlinear_arith);
            lemma_rmod_add_cong(du - dvv, 0, cu - cv, cu - cv);
            assert(rmod(0 + (cu - cv)) == rmod(cu - cv)) by {
                assert(0 + (cu - cv) == cu - cv);
            }
        } else {
            assert(rmod(u[t]) == rmod(v[t]));
            lemma_rmod_mul_cong(u[t], v[t], coeff(d, k - t), coeff(d, k - t));
            assert(rmod(cu - cv) == 0) by {
                lemma_rmod_sub_cong(cu, cu, cv, cu);
                assert(rmod(cu - cu) == 0) by {
                    assert(cu - cu == 0);
                }
            }
            lemma_rmod_add_cong(du - dvv, du - dvv, cu - cv, 0);
            assert(rmod((du - dvv) + 0) == rmod(du - dvv));
        }
    }
}

proof fn lemma_div_unique_from(qv: Seq<int>, dv: Seq<int>, q2: Seq<int>, rem: Seq<int>, w: int, j: int)
    requires
        dv.len() >= 1,
        qv.len() >= 1,
        q2.len() == qv.len(),
        rem.len() < dv.len(),
        rmod(dv[dv.len() - 1] * w) == 1,
        poly_cong(poly_mul_s(qv, dv), poly_add_s(poly_mul_s(q2, dv), rem)),
        0 <= j <= qv.len(),
        forall|i: int| j <= i < qv.len() ==> rmod(#[trigger] qv[i]) == rmod(q2[i]),
    ensures
        forall|i: int| 0 <= i < qv.len() ==> rmod(#[trigger] qv[i]) == rmod(q2[i]),
    decreases j,
{
    if j > 0 {
        let t = j - 1;
        let k = t + dv.len() - 1;
        let cu = conv(qv, dv, k);
        let cv = conv(q2, dv, k);
        // extract the coefficient identity at index k
        assert(rmod(coeff(poly_mul_s(qv, dv), k)) == rmod(
            coeff(poly_add_s(poly_mul_s(q2, dv), rem), k),
        ));
        lemma_mul_coeff(qv, dv, k);
        lemma_mul_coeff(q2, dv, k);
        lemma_add_coeff(poly_mul_s(q2, dv), rem, k);
        assert(coeff(rem, k) == 0);
        assert(rmod(cu) == rmod(cv));
        vstd::arithmetic::div_mod::lemma_mod_equivalence(cu, cv, fr_order());
        // the difference collapses to the top-term difference
        lemma_conv_diff_pre(qv, q2, dv, t, k, qv.len() as int);
        assert(rmod((qv[t] - q2[t]) * dv[dv.len() - 1]) == 0);
        assert(0 * dv[dv.len() - 1] == 0) by (nonlinear_arith);
        assert(rmod(0 * dv[dv.len() - 1]) == rmod(0));
        crate::modular::lemma_rmod_cancel(qv[t] - q2[t], 0, dv[dv.len() - 1], w);
        vstd::arithmetic::div_mod::lemma_mod_equivalence(qv[t], q2[t], fr_order());
        assert(rmod(qv[t]) == rmod(q2[t]));
        lemma_div_unique_from(qv, dv, q2, rem, w, t);
    }
}

/// Exact division has a unique quotient: if `q * d` also equals
/// `q2 * d + rem` with a remainder shorter than `d` and the leading
/// coefficient of `d` invertible (witness `w`), then `q2` is `q`,
/// coefficient for coefficient.  Together with the contracts of
/// `mul` and `div` this says that dividing `mul(q, d)` by such a `d`
/// returns exactly `q`.
pub proof fn lemma_div_exact_roundtrip(qv: Seq<int>, dv: Seq<int>, q2: Seq<int>, rem: Seq<int>, w: int)
    requires
        dv.len() >= 1,
        qv.len() >= 1,
        q2.len() == qv.len(),
        rem.len() < dv.len(),
        rmod(dv[dv.len() - 1] * w) == 1,
        poly_cong(poly_mul_s(qv, dv), poly_add_s(poly_mul_s(q2, dv), rem)),
    ensures
        poly_cong(qv, q2),
{
    lemma_div_unique_from(qv, dv, q2, rem, w, qv.len() as int);
    assert forall|k: int| rmod(#[trigger] coeff(qv, k)) == rmod(coeff(q2, k)) by {
        if 0 <= k < qv.len() {
            assert(rmod(qv[k]) == rmod(q2[k]));
        }
    }
}


/// The quotient of a polynomial by the monic linear factor `X - a`:
/// coefficient `i` is the Horner tail `p(a)` of the coefficients
/// above `i`.
pub open spec fn synth_quot(p: Seq<int>, a: int) -> Seq<int> {
    Seq::new((p.len() - 1) as nat, |i: int| poly_eval(p.skip(i + 1), a))
}

/// Synthetic division identity: over the integers,
/// `p(x) = q(x) * (x - a) + p(a)` for the synthetic quotient `q`.
pub proof fn lemma_synth_division(p: Seq<int>, a: int, x: int)
    requires
        p.len() >= 1,
    ensures
        poly_eval(p, x) == poly_eval(synth_quot(p, a), x) * (x - a) + poly_eval(p, a),
    decreases p.len(),
{
    let q = synth_quot(p, a);
    if p.len() == 1 {
        assert(q.len() == 0);
        assert(poly_eval(p, x) == p[0] + x * poly_eval(p.skip(1), x));
        assert(poly_eval(p.skip(1), x) == 0);
        assert(poly_eval(p, a) == p[0] + a * poly_eval(p.skip(1), a));
        assert(x * 0 == 0 && a * 0 == 0 && 0 * (x - a) == 0) by (nonlinear_arith);
    } else {
        let p1 = p.skip(1);
        let q1 = synth_quot(p1, a);
        lemma_synth_division(p1, a, x);
        assert(q.skip(1) =~= q1) by {
            assert forall|i: int| 0 <= i < q.len() - 1 implies q.skip(1)[i] == q1[i] by {
                assert(q.skip(1)[i] == q[i + 1]);
                assert(q[i + 1] == poly_eval(p.skip(i + 2), a));
                assert(p1.skip(i + 1) =~= p.skip(i + 2));
            }
        }
        assert(q[0] == poly_eval(p1, a));
        assert(poly_eval(q, x) == q[0] + x * poly_eval(q1, x));
        assert(poly_eval(p, x) == p[0] + x * poly_eval(p1, x));
        assert(poly_eval(p, a) == p[0] + a * poly_eval(p1, a));
        // substitute the inductive identity and expand
        assert((poly_eval(p1, a) + x * poly_eval(q1, x)) * (x - a) + (p[0] + a * poly_eval(
            p1,
            a,
        )) == p[0] + x * (poly_eval(q1, x) * (x - a) + poly_eval(p1, a))) by (nonlinear_arith);
    }
}

/// The function `ws` inverts the difference of every pair of
/// entries: the points are pairwise distinct, in the strong sense a
/// field provides.
pub open spec fn pairwise_invertible(pts: Seq<int>, ws: spec_fn(int, int) -> int) -> bool {
    forall|i: int, j: int|
        0 <= i < j < pts.len() ==> rmod((pts[i] - pts[j]) * #[trigger] ws(i, j)) == 1
}

/// A polynomial of degree below `k` that vanishes at `k` points with
/// pairwise invertible differences vanishes everywhere.
pub proof fn lemma_roots_zero(rv: Seq<int>, pts: Seq<int>, ws: spec_fn(int, int) -> int)
    requires
        rv.len() <= pts.len(),
        forall|j: int| 0 <= j < pts.len() ==> rmod(poly_eval(rv, #[trigger] pts[j])) == 0,
        pairwise_invertible(pts, ws),
    ensures
        forall|x: int| rmod(#[trigger] poly_eval(rv, x)) == 0,
    decreases pts.len(),
{
    if rv.len() == 0 {
        assert forall|x: int| rmod(#[trigger] poly_eval(rv, x)) == 0 by {
            assert(poly_eval(rv, x) == 0);
        }
    } else {
        let a = pts.last();
        let q = synth_quot(rv, a);
        assert(rmod(poly_eval(rv, a)) == 0);
        // every evaluation of rv factors through q
        assert forall|x: int| rmod(#[trigger] poly_eval(rv, x)) == rmod(
            poly_eval(q, x) * (x - a),
        ) by {
            lemma_synth_division(rv, a, x);
            lemma_rmod_add_cong(poly_eval(q, x) * (x - a), poly_eval(q, x) * (x - a), poly_eval(
                rv,
                a,
            ), 0);
            assert(poly_eval(q, x) * (x - a) + 0 == poly_eval(q, x) * (x - a));
        }
        // q vanishes on the remaining points
        let pts1 = pts.drop_last();
        assert forall|j: int| 0 <= j < pts1.len() implies rmod(
            poly_eval(q, #[trigger] pts1[j]),
        ) == 0 by {
            assert(pts1[j] == pts[j]);
            assert(rmod(poly_eval(rv, pts[j])) == 0);
            assert(rmod(poly_eval(q, pts[j]) * (pts[j] - a)) == 0);
            let w = ws(j, pts.len() - 1);
            assert(rmod((pts[j] - pts[pts.len() - 1]) * w) == 1);
            assert(rmod((pts[j] - a) * w) == 1);
            assert(0 * (pts[j] - a) == 0) by (nonlinear_arith);
            assert(rmod(0 * (pts[j] - a)) == rmod(0));
            crate::modular::lemma_rmod_cancel(poly_eval(q, pts[j]), 0, pts[j] - a, w);
        }
        assert(q.len() <= pts1.len());
        assert forall|i: int, j: int|
            0 <= i < j < pts1.len() implies rmod((pts1[i] - pts1[j]) * #[trigger] ws(i, j))
            == 1 by {
            assert(pts1[i] == pts[i] && pts1[j] == pts[j]);
            assert(rmod((pts[i] - pts[j]) * ws(i, j)) == 1);
        }
        lemma_roots_zero(q, pts1, ws);
        assert forall|x: int| rmod(#[trigger] poly_eval(rv, x)) == 0 by {
            assert(rmod(poly_eval(q, x)) == 0);
            lemma_rmod_mul_cong(poly_eval(q, x), 0, x - a, x - a);
            assert(0 * (x - a) == 0) by (nonlinear_arith);
        }
    }
}


/// Interpolation is unique: two polynomials of degree below `k` that
/// agree at `k` points with pairwise invertible differences agree
/// everywhere, so `interpolate` returns the one polynomial through
/// its points.
pub proof fn lemma_interpolation_unique(
    p1: Seq<int>,
    p2: Seq<int>,
    pts: Seq<int>,
    ws: spec_fn(int, int) -> int,
)
    requires
        p1.len() <= pts.len(),
        p2.len() <= pts.len(),
        forall|j: int|
            0 <= j < pts.len() ==> rmod(poly_eval(p1, #[trigger] pts[j])) == rmod(
                poly_eval(p2, pts[j]),
            ),
        pairwise_invertible(pts, ws),
    ensures
        forall|x: int| #![trigger poly_eval(p1, x)] rmod(poly_eval(p1, x)) == rmod(poly_eval(p2, x)),
{
    let dv = poly_add_s(p1, poly_scale_s(-1, p2));
    assert forall|j: int| 0 <= j < pts.len() implies rmod(
        poly_eval(dv, #[trigger] pts[j]),
    ) == 0 by {
        lemma_eval_add(p1, poly_scale_s(-1, p2), pts[j]);
        lemma_eval_scale(-1, p2, pts[j]);
        assert(-1 * poly_eval(p2, pts[j]) == -poly_eval(p2, pts[j])) by (nonlinear_arith);
        assert(poly_eval(dv, pts[j]) == poly_eval(p1, pts[j]) - poly_eval(p2, pts[j]));
        lemma_rmod_sub_cong(
            poly_eval(p1, pts[j]),
            poly_eval(p2, pts[j]),
            poly_eval(p2, pts[j]),
            poly_eval(p2, pts[j]),
        );
        assert(rmod(poly_eval(p2, pts[j]) - poly_eval(p2, pts[j])) == 0) by {
            assert(poly_eval(p2, pts[j]) - poly_eval(p2, pts[j]) == 0);
        }
    }
    assert(dv.len() <= pts.len());
    lemma_roots_zero(dv, pts, ws);
    assert forall|x: int| #![trigger poly_eval(p1, x)] rmod(poly_eval(p1, x)) == rmod(
        poly_eval(p2, x),
    ) by {
        lemma_eval_add(p1, poly_scale_s(-1, p2), x);
        lemma_eval_scale(-1, p2, x);
        assert(-1 * poly_eval(p2, x) == -poly_eval(p2, x)) by (nonlinear_arith);
        assert(poly_eval(dv, x) == poly_eval(p1, x) - poly_eval(p2, x));
        assert(rmod(poly_eval(p1, x) - poly_eval(p2, x)) == 0);
        vstd::arithmetic::div_mod::lemma_mod_equivalence(
            poly_eval(p1, x),
            poly_eval(p2, x),
            fr_order(),
        );
    }
}

} // verus!
