//! The KZG polynomial commitment scheme over BLS12-381.
//!
//! A `KZG` instance holds the two generators, the configured degree
//! and, after `setup`, the structured reference string.  The trapdoor
//! is kept only as the ghost value `tau`: the well-formedness
//! predicate says every CRS entry is the base point scaled by the
//! matching power of `tau`, and the contracts of `commit`, `open` and
//! `verify` are stated over evaluations of the polynomial at `tau`.

use vstd::prelude::*;
use vstd::arithmetic::power::pow;
use crate::modular::{rmod, fr_order, lemma_rmod_add, lemma_rmod_add_cong, lemma_rmod_sub_cong,
    lemma_rmod_mul_cong, lemma_rmod_mul_r, lemma_rmod_sub_r, lemma_unit_nonzero,
    lemma_rmod_cancel};
use crate::field::{Scalar, fr_val, pview, fr_zero, fr_one, fr_mul, fr_sub, fr_neg};
use crate::group::{G1Point, G2Point, g1_val, g1_in, g2_val, g2_in, g1_add, g1_mul, g2_add,
    g2_mul, g1_sub, g2_sub, pairing_eq};
use crate::poly::{poly_eval, poly_cong, coeff, poly_add_s, poly_mul_s, poly_scale_s,
    pairwise_invertible, lemma_roots_zero, lemma_eval_scale, lemma_eval_cong,
    lemma_eval_add, lemma_eval_mul, lemma_eval_snoc, lemma_eval_linear_factor, lemma_conv_top,
    lag_denom};
use crate::Error;

verus! {

pub struct KZG {
    pub g1: G1Point,
    pub g2: G2Point,
    pub g2_tau: G2Point,
    pub degree: usize,
    pub crs_g1: Vec<G1Point>,
    pub crs_g2: Vec<G2Point>,
    /// The trusted-setup trapdoor, retained only as a ghost value.
    pub tau: Ghost<int>,
}

impl KZG {
    /// The trusted setup has run and the CRS is populated.
    pub open spec fn is_setup(self) -> bool {
        self.crs_g1@.len() > 0
    }

    /// Well-formedness: the bases lie in the pairing subgroups and
    /// every CRS entry is the base scaled by the matching power of
    /// the ghost trapdoor.
    pub open spec fn wf(self) -> bool {
        &&& g1_in(self.g1)
        &&& g2_in(self.g2)
        &&& g2_in(self.g2_tau)
        &&& self.degree < usize::MAX - 1
        &&& self.crs_g1@.len() == self.crs_g2@.len()
        &&& (self.crs_g1@.len() == 0 || self.crs_g1@.len() == self.degree + 1)
        &&& g2_val(self.g2_tau) == rmod(g2_val(self.g2) * self.tau@)
        &&& (self.is_setup() ==> {
            &&& (forall|i: int|
                0 <= i < self.crs_g1@.len() ==> g1_in(#[trigger] self.crs_g1@[i]) && g1_val(
                    self.crs_g1@[i],
                ) == rmod(g1_val(self.g1) * pow(self.tau@, i as nat)))
            &&& (forall|i: int|
                0 <= i < self.crs_g2@.len() ==> g2_in(#[trigger] self.crs_g2@[i]) && g2_val(
                    self.crs_g2@[i],
                ) == rmod(g2_val(self.g2) * pow(self.tau@, i as nat)))
        })
    }

    /// The pairing equation that `verify` decides, over the model:
    /// `e(commitment - g1*value, g2) == e(proof, g2*tau - g2*point)`.
    pub open spec fn kzg_check(c: int, z: int, v: int, pi: int, g1: int, g2: int, tau: int) -> bool {
        rmod((c - g1 * v) * g2) == rmod(pi * ((tau - z) * g2))
    }

    /// A fresh instance with an empty CRS; `setup` must run before
    /// commitments can be made.
    pub fn new(g1: G1Point, g2: G2Point, degree: usize) -> (r: Self)
        requires
            g1_in(g1),
            g2_in(g2),
            degree < usize::MAX - 1,
        ensures
            r.wf(),
            !r.is_setup(),
            r.g1 == g1,
            r.g2 == g2,
            r.degree == degree,
            r.tau@ == 0,
            g2_val(r.g2_tau) == 0,
    {
        let g2_tau = g2_mul(g2, fr_zero());
        proof {
            assert(g2_val(g2) * 0 == 0) by (nonlinear_arith);
        }
        Self {
            g1,
            g2,
            g2_tau,
            degree,
            crs_g1: Vec::new(),
            crs_g2: Vec::new(),
            tau: Ghost(0int),
        }
    }

    /// The trusted setup: populates the CRS with the powers of the
    /// secret, which the caller must then discard.  Afterwards the
    /// ghost trapdoor is the secret's residue.
    pub fn setup(&mut self, secret: Scalar)
        requires
            old(self).wf(),
            !old(self).is_setup(),
        ensures
            final(self).wf(),
            final(self).is_setup(),
            final(self).g1 == old(self).g1,
            final(self).g2 == old(self).g2,
            final(self).degree == old(self).degree,
            final(self).tau@ == rmod(fr_val(secret)),
    {
        let ghost tauv = rmod(fr_val(secret));
        proof {
            vstd::arithmetic::div_mod::lemma_mod_twice(fr_val(secret), fr_order());
        }
        let mut s_pow = fr_one();
        let mut i: usize = 0;
        let n = self.degree + 1;
        proof {
            vstd::arithmetic::power::lemma_pow0(tauv);
        }
        while i < n
            invariant
                0 <= i <= n,
                n == self.degree + 1,
                self.degree == old(self).degree,
                self.degree < usize::MAX,
                self.g1 == old(self).g1,
                self.g2 == old(self).g2,
                self.g2_tau == old(self).g2_tau,
                g2_in(self.g2_tau),
                g1_in(self.g1),
                g2_in(self.g2),
                tauv == rmod(fr_val(secret)),
                rmod(tauv) == tauv,
                self.crs_g1@.len() == i,
                self.crs_g2@.len() == i,
                fr_val(s_pow) == rmod(pow(tauv, i as nat)),
                forall|j: int|
                    0 <= j < i ==> g1_in(#[trigger] self.crs_g1@[j]) && g1_val(self.crs_g1@[j])
                        == rmod(g1_val(self.g1) * pow(tauv, j as nat)),
                forall|j: int|
                    0 <= j < i ==> g2_in(#[trigger] self.crs_g2@[j]) && g2_val(self.crs_g2@[j])
                        == rmod(g2_val(self.g2) * pow(tauv, j as nat)),
            decreases n - i,
        {
            let e1 = g1_mul(self.g1, s_pow);
            let e2 = g2_mul(self.g2, s_pow);
            proof {
                lemma_rmod_mul_r(g1_val(self.g1), pow(tauv, i as nat));
                lemma_rmod_mul_r(g2_val(self.g2), pow(tauv, i as nat));
            }
            self.crs_g1.push(e1);
            self.crs_g2.push(e2);
            let s_next = fr_mul(s_pow, secret);
            proof {
                lemma_rmod_mul_cong(fr_val(s_pow), pow(tauv, i as nat), fr_val(secret), tauv);
                vstd::arithmetic::power::lemma_pow_adds(tauv, i as nat, 1nat);
                vstd::arithmetic::power::lemma_pow1(tauv);
                assert((i + 1) as nat == i as nat + 1nat);
                assert(pow(tauv, (i + 1) as nat) == pow(tauv, i as nat) * tauv);
                assert(pow(tauv, i as nat) * tauv == tauv * pow(tauv, i as nat))
                    by (nonlinear_arith);
            }
            s_pow = s_next;
            i += 1;
        }
        self.g2_tau = g2_mul(self.g2, secret);
        proof {
            lemma_rmod_mul_r(g2_val(self.g2), fr_val(secret));
        }
        self.tau = Ghost(tauv);
    }
}

/// The linear combination of CRS points by polynomial coefficients:
/// the committed point is the base scaled by the polynomial's value
/// at the trapdoor.
pub(crate) fn g1_lincomb(
    crs: &Vec<G1Point>,
    coeffs: &Vec<Scalar>,
    base: G1Point,
    Ghost(tau): Ghost<int>,
) -> (r: G1Point)
    requires
        coeffs@.len() <= crs@.len(),
        g1_in(base),
        forall|i: int|
            0 <= i < crs@.len() ==> g1_in(#[trigger] crs@[i]) && g1_val(crs@[i]) == rmod(
                g1_val(base) * pow(tau, i as nat),
            ),
    ensures
        g1_in(r),
        g1_val(r) == rmod(g1_val(base) * poly_eval(pview(coeffs@), tau)),
{
    let mut acc = g1_mul(base, fr_zero());
    proof {
        assert(g1_val(base) * 0 == 0) by (nonlinear_arith);
        assert(pview(coeffs@).subrange(0, 0) =~= Seq::<int>::empty());
    }
    let mut i: usize = 0;
    while i < coeffs.len()
        invariant
            0 <= i <= coeffs@.len(),
            coeffs@.len() <= crs@.len(),
            g1_in(base),
            forall|j: int|
                0 <= j < crs@.len() ==> g1_in(#[trigger] crs@[j]) && g1_val(crs@[j]) == rmod(
                    g1_val(base) * pow(tau, j as nat),
                ),
            g1_in(acc),
            g1_val(acc) == rmod(g1_val(base) * poly_eval(pview(coeffs@).subrange(0, i as int), tau)),
        decreases coeffs@.len() - i,
    {
        let ghost pre = pview(coeffs@).subrange(0, i as int);
        let ghost ci = fr_val(coeffs@[i as int]);
        let term = g1_mul(crs[i], coeffs[i]);
        let acc2 = g1_add(acc, term);
        proof {
            let bv = g1_val(base);
            let e = poly_eval(pre, tau);
            // the new term is base * (tau^i * c_i)
            lemma_rmod_mul_cong(g1_val(crs@[i as int]), bv * pow(tau, i as nat), ci, ci);
            vstd::arithmetic::div_mod::lemma_mod_twice(bv * pow(tau, i as nat), fr_order());
            assert(g1_val(term) == rmod(bv * pow(tau, i as nat) * ci));
            // fold it into the running evaluation
            lemma_rmod_add(bv * e, bv * pow(tau, i as nat) * ci);
            assert(g1_val(acc2) == rmod(bv * e + bv * pow(tau, i as nat) * ci));
            lemma_eval_snoc(pre, ci, tau);
            assert(pre.len() == i as int);
            assert(bv * e + bv * pow(tau, i as nat) * ci == bv * (e + ci * pow(tau, i as nat)))
                by (nonlinear_arith);
            assert(pview(coeffs@).subrange(0, i as int + 1) =~= pre.push(ci));
        }
        acc = acc2;
        i += 1;
    }
    proof {
        assert(pview(coeffs@).subrange(0, coeffs@.len() as int) =~= pview(coeffs@));
    }
    acc
}

impl KZG {
    /// Commit to a polynomial of exactly `degree + 1` coefficients:
    /// the base point scaled by the polynomial's value at the
    /// trapdoor.
    pub fn commit(&self, poly: &Vec<Scalar>) -> (r: Result<G1Point, Error>)
        requires
            self.wf(),
        ensures
            r is Err <==> (!self.is_setup() || poly@.len() != self.degree + 1),
            !self.is_setup() ==> r == Result::<G1Point, Error>::Err(Error::UninitializedCRS),
            self.is_setup() && poly@.len() != self.degree + 1 ==> r == Result::<
                G1Point,
                Error,
            >::Err(Error::DimensionMismatch),
            r matches Ok(c) ==> g1_in(c) && g1_val(c) == rmod(
                g1_val(self.g1) * poly_eval(pview(poly@), self.tau@),
            ),
    {
        if self.crs_g1.len() == 0 {
            return Err(Error::UninitializedCRS);
        }
        if poly.len() != self.degree + 1 {
            return Err(Error::DimensionMismatch);
        }
        Ok(g1_lincomb(&self.crs_g1, poly, self.g1, Ghost(self.tau@)))
    }
}


/// The algebra behind `open`: if the quotient came from dividing
/// `p - p(z)` by `X - z`, then at any point `t` the quotient times
/// `t - z` gives `p(t) - p(z)`.
proof fn lemma_quotient_equation(
    pv: Seq<int>,
    nv: Seq<int>,
    dv: Seq<int>,
    qv: Seq<int>,
    remv: Seq<int>,
    zv: int,
    vv: int,
    t: int,
)
    requires
        pv.len() >= 1,
        nv.len() == pv.len(),
        nv[0] == rmod(pv[0] - vv),
        forall|k: int| 1 <= k < pv.len() ==> #[trigger] nv[k] == pv[k],
        vv == rmod(poly_eval(pv, zv)),
        dv.len() == 2,
        dv[0] == rmod(-zv),
        dv[1] == 1,
        remv.len() < 2,
        poly_cong(nv, poly_add_s(poly_mul_s(qv, dv), remv)),
    ensures
        rmod(poly_eval(qv, t) * (t - zv)) == rmod(poly_eval(pv, t) - poly_eval(pv, zv)),
{
    assert(nv.skip(1) =~= pv.skip(1));
    // the numerator differs from p only in the constant term
    assert forall|x: int| rmod(#[trigger] poly_eval(nv, x)) == rmod(poly_eval(pv, x) - vv) by {
        assert(poly_eval(nv, x) == nv[0] + x * poly_eval(nv.skip(1), x));
        assert(poly_eval(pv, x) == pv[0] + x * poly_eval(pv.skip(1), x));
        vstd::arithmetic::div_mod::lemma_mod_twice(pv[0] - vv, fr_order());
        lemma_rmod_add_cong(
            rmod(pv[0] - vv),
            pv[0] - vv,
            x * poly_eval(pv.skip(1), x),
            x * poly_eval(pv.skip(1), x),
        );
    }
    // the remainder is a constant, the same at every point
    let r0 = if remv.len() == 0 { 0int } else { remv[0] };
    assert forall|x: int| #[trigger] poly_eval(remv, x) == r0 by {
        if remv.len() == 1 {
            assert(poly_eval(remv.skip(1), x) == 0);
            assert(poly_eval(remv, x) == remv[0] + x * poly_eval(remv.skip(1), x));
            assert(x * 0 == 0) by (nonlinear_arith);
        }
    }
    // evaluate the division identity at z: the remainder vanishes
    let qdz = poly_eval(qv, zv) * poly_eval(dv, zv);
    lemma_eval_cong(nv, poly_add_s(poly_mul_s(qv, dv), remv), zv);
    lemma_eval_add(poly_mul_s(qv, dv), remv, zv);
    lemma_eval_mul(qv, dv, zv);
    lemma_eval_linear_factor(dv, zv, zv);
    assert(rmod(qdz) == 0) by {
        lemma_rmod_mul_r(poly_eval(qv, zv), poly_eval(dv, zv));
        assert(rmod(poly_eval(dv, zv)) == rmod(zv - zv));
        assert(poly_eval(qv, zv) * 0 == 0) by (nonlinear_arith);
    }
    assert(rmod(poly_eval(nv, zv)) == 0) by {
        lemma_rmod_sub_r(poly_eval(pv, zv), poly_eval(pv, zv));
    }
    assert(rmod(r0) == 0) by {
        lemma_rmod_add_cong(qdz, 0, r0, r0);
        assert(rmod(qdz + r0) == rmod(0 + r0));
        vstd::arithmetic::div_mod::lemma_mod_twice(r0, fr_order());
    }
    // evaluate the division identity at t
    let qdt = poly_eval(qv, t) * poly_eval(dv, t);
    lemma_eval_cong(nv, poly_add_s(poly_mul_s(qv, dv), remv), t);
    lemma_eval_add(poly_mul_s(qv, dv), remv, t);
    lemma_eval_mul(qv, dv, t);
    lemma_eval_linear_factor(dv, zv, t);
    assert(rmod(qdt + r0) == rmod(qdt)) by {
        lemma_rmod_add_cong(qdt, qdt, r0, 0);
    }
    assert(rmod(qdt) == rmod(poly_eval(qv, t) * (t - zv))) by {
        lemma_rmod_mul_r(poly_eval(qv, t), poly_eval(dv, t));
        lemma_rmod_mul_cong(poly_eval(qv, t), poly_eval(qv, t), rmod(poly_eval(dv, t)), rmod(t - zv));
        lemma_rmod_mul_r(poly_eval(qv, t), t - zv);
    }
    assert(rmod(poly_eval(nv, t)) == rmod(poly_eval(pv, t) - poly_eval(pv, zv))) by {
        lemma_rmod_sub_r(poly_eval(pv, t), poly_eval(pv, zv));
    }
}

impl KZG {
    /// Open the polynomial at a point: commit to the quotient
    /// `(p - p(point)) / (X - point)`.  The returned proof, scaled by
    /// `tau - point`, matches the base scaled by `p(tau) - p(point)`:
    /// exactly what the pairing check of `verify` tests.
    pub fn open(&self, poly: &Vec<Scalar>, point: Scalar) -> (r: Result<G1Point, Error>)
        requires
            self.wf(),
        ensures
            r is Err <==> (!self.is_setup() || poly@.len() != self.degree + 1),
            !self.is_setup() ==> r == Result::<G1Point, Error>::Err(Error::UninitializedCRS),
            self.is_setup() && poly@.len() != self.degree + 1 ==> r == Result::<
                G1Point,
                Error,
            >::Err(Error::DimensionMismatch),
            r matches Ok(pi) ==> g1_in(pi) && rmod(g1_val(pi) * (self.tau@ - fr_val(point)))
                == rmod(
                g1_val(self.g1) * (poly_eval(pview(poly@), self.tau@) - poly_eval(
                    pview(poly@),
                    fr_val(point),
                )),
            ),
    {
        if self.crs_g1.len() == 0 {
            return Err(Error::UninitializedCRS);
        }
        if poly.len() != self.degree + 1 {
            return Err(Error::DimensionMismatch);
        }
        let ghost pv = pview(poly@);
        let ghost zv = fr_val(point);
        let value = crate::poly::evaluate(poly, point);

        // numerator: subtract the value from the constant term
        let mut numerator: Vec<Scalar> = Vec::new();
        numerator.push(fr_sub(poly[0], value));
        let mut i: usize = 1;
        while i < poly.len()
            invariant
                1 <= i <= poly@.len(),
                numerator@.len() == i,
                fr_val(numerator@[0]) == rmod(pview(poly@)[0] - fr_val(value)),
                forall|k: int| 1 <= k < i ==> #[trigger] numerator@[k] == poly@[k],
            decreases poly@.len() - i,
        {
            numerator.push(poly[i]);
            i += 1;
        }
        let ghost nv = pview(numerator@);

        // denominator: X - point
        let mut denominator: Vec<Scalar> = Vec::new();
        denominator.push(fr_neg(point));
        denominator.push(fr_one());
        let ghost dv = pview(denominator@);
        proof {
            assert(dv.len() == 2 && dv[0] == rmod(-zv) && dv[1] == 1);
            assert(rmod(dv[1]) != 0);
        }

        let quotient = match crate::poly::div(&numerator, &denominator) {
            Ok(q) => q,
            Err(_) => {
                proof {
                    assert(rmod(coeff(dv, 1)) != 0);
                    assert(false);
                }
                return Err(Error::DivisionByZero);
            },
        };
        let pi = g1_lincomb(&self.crs_g1, &quotient, self.g1, Ghost(self.tau@));
        proof {
            let qv = pview(quotient@);
            let t = self.tau@;
            assert(crate::poly::trimmed_len(dv) == 2) by {
                assert(rmod(dv.last()) != 0);
            }
            let remv = choose|remv: Seq<int>|
                #![trigger remv.len()]
                remv.len() < crate::poly::trimmed_len(dv) && poly_cong(
                    nv,
                    poly_add_s(poly_mul_s(qv, dv), remv),
                );
            assert forall|k: int| 1 <= k < pv.len() implies #[trigger] nv[k] == pv[k] by {
                assert(numerator@[k] == poly@[k]);
            }
            lemma_quotient_equation(pv, nv, dv, qv, remv, zv, fr_val(value), t);
            // lift the quotient identity to the committed points
            let bv = g1_val(self.g1);
            let qt = poly_eval(qv, t);
            vstd::arithmetic::div_mod::lemma_mod_twice(bv * qt, fr_order());
            lemma_rmod_mul_cong(g1_val(pi), bv * qt, t - zv, t - zv);
            assert(bv * qt * (t - zv) == bv * (qt * (t - zv))) by (nonlinear_arith);
            lemma_rmod_mul_r(bv, qt * (t - zv));
            lemma_rmod_mul_cong(
                bv,
                bv,
                rmod(qt * (t - zv)),
                rmod(poly_eval(pv, t) - poly_eval(pv, zv)),
            );
            lemma_rmod_mul_r(bv, poly_eval(pv, t) - poly_eval(pv, zv));
        }
        Ok(pi)
    }

    /// The pairing check: `e(commitment - g1*value, g2)` against
    /// `e(proof, g2*tau - g2*point)`.  Wrong claims are rejected with
    /// `false`, never an error.
    pub fn verify(&self, point: Scalar, value: Scalar, commitment: G1Point, proof: G1Point) -> (r:
        bool)
        requires
            self.wf(),
            g1_in(commitment),
            g1_in(proof),
        ensures
            r <==> Self::kzg_check(
                g1_val(commitment),
                fr_val(point),
                fr_val(value),
                g1_val(proof),
                g1_val(self.g1),
                g2_val(self.g2),
                self.tau@,
            ),
    {
        let lhs_g1 = g1_sub(commitment, g1_mul(self.g1, value));
        let rhs_g2 = g2_sub(self.g2_tau, g2_mul(self.g2, point));
        let r = pairing_eq(lhs_g1, self.g2, proof, rhs_g2);
        proof {

            let c = g1_val(commitment);
            let g1v = g1_val(self.g1);
            let g2v = g2_val(self.g2);
            let vv = fr_val(value);
            let zv = fr_val(point);
            let t = self.tau@;
            // left pairing argument: commitment - g1 * value
            lemma_rmod_sub_r(c, g1v * vv);
            vstd::arithmetic::div_mod::lemma_mod_twice(c - g1v * vv, fr_order());
            lemma_rmod_mul_cong(g1_val(lhs_g1), c - g1v * vv, g2v, g2v);
            // right pairing argument: g2 * tau - g2 * point
            lemma_rmod_sub_cong(g2_val(self.g2_tau), g2v * t, rmod(g2v * zv), g2v * zv);
            vstd::arithmetic::div_mod::lemma_mod_twice(g2v * t, fr_order());
            vstd::arithmetic::div_mod::lemma_mod_twice(g2v * zv, fr_order());
            assert(g2_val(rhs_g2) == rmod(g2v * t - g2v * zv));
            assert(g2v * t - g2v * zv == (t - zv) * g2v) by (nonlinear_arith);
            lemma_rmod_mul_r(g1_val(proof), (t - zv) * g2v);
            vstd::arithmetic::div_mod::lemma_mod_twice((t - zv) * g2v, fr_order());
            lemma_rmod_mul_cong(g1_val(proof), g1_val(proof), g2_val(rhs_g2), (t - zv) * g2v);
            assert(g1_val(proof) * ((t - zv) * g2v) == g1_val(proof) * ((t - zv) * g2v));
        }
        r
    }
}


/// The linear combination of the second-group CRS points by
/// polynomial coefficients.
pub(crate) fn g2_lincomb(
    crs: &Vec<G2Point>,
    coeffs: &Vec<Scalar>,
    base: G2Point,
    Ghost(tau): Ghost<int>,
) -> (r: G2Point)
    requires
        coeffs@.len() <= crs@.len(),
        g2_in(base),
        forall|i: int|
            0 <= i < crs@.len() ==> g2_in(#[trigger] crs@[i]) && g2_val(crs@[i]) == rmod(
                g2_val(base) * pow(tau, i as nat),
            ),
    ensures
        g2_in(r),
        g2_val(r) == rmod(g2_val(base) * poly_eval(pview(coeffs@), tau)),
{
    let mut acc = g2_mul(base, fr_zero());
    proof {
        assert(g2_val(base) * 0 == 0) by (nonlinear_arith);
        assert(pview(coeffs@).subrange(0, 0) =~= Seq::<int>::empty());
    }
    let mut i: usize = 0;
    while i < coeffs.len()
        invariant
            0 <= i <= coeffs@.len(),
            coeffs@.len() <= crs@.len(),
            g2_in(base),
            forall|j: int|
                0 <= j < crs@.len() ==> g2_in(#[trigger] crs@[j]) && g2_val(crs@[j]) == rmod(
                    g2_val(base) * pow(tau, j as nat),
                ),
            g2_in(acc),
            g2_val(acc) == rmod(g2_val(base) * poly_eval(pview(coeffs@).subrange(0, i as int), tau)),
        decreases coeffs@.len() - i,
    {
        let ghost pre = pview(coeffs@).subrange(0, i as int);
        let ghost ci = fr_val(coeffs@[i as int]);
        let term = g2_mul(crs[i], coeffs[i]);
        let acc2 = g2_add(acc, term);
        proof {
            let bv = g2_val(base);
            let e = poly_eval(pre, tau);
            lemma_rmod_mul_cong(g2_val(crs@[i as int]), bv * pow(tau, i as nat), ci, ci);
            vstd::arithmetic::div_mod::lemma_mod_twice(bv * pow(tau, i as nat), fr_order());
            assert(g2_val(term) == rmod(bv * pow(tau, i as nat) * ci));
            lemma_rmod_add(bv * e, bv * pow(tau, i as nat) * ci);
            assert(g2_val(acc2) == rmod(bv * e + bv * pow(tau, i as nat) * ci));
            lemma_eval_snoc(pre, ci, tau);
            assert(pre.len() == i as int);
            assert(bv * e + bv * pow(tau, i as nat) * ci == bv * (e + ci * pow(tau, i as nat)))
                by (nonlinear_arith);
            assert(pview(coeffs@).subrange(0, i as int + 1) =~= pre.push(ci));
        }
        acc = acc2;
        i += 1;
    }
    proof {
        assert(pview(coeffs@).subrange(0, coeffs@.len() as int) =~= pview(coeffs@));
    }
    acc
}

/// The product of `x - pts[j]` over the whole point set: what the
/// vanishing polynomial evaluates to at `x`.
pub open spec fn vanish_eval(pts: Seq<int>, x: int) -> int
    decreases pts.len(),
{
    if pts.len() == 0 {
        1
    } else {
        vanish_eval(pts.drop_last(), x) * (x - pts.last())
    }
}

/// Build the vanishing polynomial of a point set: the product of the
/// monic linear factors `X - points[j]`.  The result is monic, one
/// coefficient longer than the point count, and evaluates everywhere
/// to the product of the differences.
pub(crate) fn vanishing(points: &Vec<Scalar>) -> (r: Vec<Scalar>)
    requires
        points@.len() < usize::MAX - 1,
    ensures
        r@.len() == points@.len() + 1,
        rmod(pview(r@)[r@.len() - 1]) == 1,
        forall|x: int| rmod(#[trigger] poly_eval(pview(r@), x)) == rmod(
            vanish_eval(pview(points@), x),
        ),
{
    let mut z: Vec<Scalar> = Vec::new();
    z.push(fr_one());
    proof {
        assert(pview(z@).len() == 1);
        assert(pview(z@)[0] == 1);
        assert forall|x: int| rmod(#[trigger] poly_eval(pview(z@), x)) == rmod(
            vanish_eval(pview(points@).subrange(0, 0), x),
        ) by {
            assert(poly_eval(pview(z@).skip(1), x) == 0);
            assert(poly_eval(pview(z@), x) == pview(z@)[0] + x * poly_eval(pview(z@).skip(1), x));
            assert(x * 0 == 0) by (nonlinear_arith);
            assert(pview(points@).subrange(0, 0) =~= Seq::<int>::empty());
        }
    }
    let mut j: usize = 0;
    while j < points.len()
        invariant
            0 <= j <= points@.len(),
            points@.len() < usize::MAX - 1,
            z@.len() == j + 1,
            rmod(pview(z@)[z@.len() - 1]) == 1,
            forall|x: int| rmod(#[trigger] poly_eval(pview(z@), x)) == rmod(
                vanish_eval(pview(points@).subrange(0, j as int), x),
            ),
        decreases points@.len() - j,
    {
        let ghost zv = pview(z@);
        let ghost pts = pview(points@);
        let mut factor: Vec<Scalar> = Vec::new();
        factor.push(fr_neg(points[j]));
        factor.push(fr_one());
        let z2 = crate::poly::mul(&z, &factor);
        proof {
            let fv = pview(factor@);
            lemma_conv_top(zv, fv);
            assert(fv.last() == 1);
            assert(zv.last() * 1 == zv.last()) by (nonlinear_arith);
            assert(fr_val(z2@[z2@.len() - 1]) == rmod(crate::poly::conv(zv, fv, zv.len() + fv.len() - 2)));
            vstd::arithmetic::div_mod::lemma_mod_twice(zv.last(), fr_order());
            // the product stands for z * (X - points[j])
            crate::poly::lemma_cong_of_reduced(
                pview(z2@),
                Seq::new(pview(z2@).len(), |k: int| crate::poly::conv(zv, fv, k)),
            );
            assert(poly_cong(pview(z2@), poly_mul_s(zv, fv))) by {
                assert(poly_mul_s(zv, fv) =~= Seq::new(
                    pview(z2@).len(),
                    |k: int| crate::poly::conv(zv, fv, k),
                ));
            }
            assert forall|x: int| rmod(#[trigger] poly_eval(pview(z2@), x)) == rmod(
                vanish_eval(pts.subrange(0, j as int + 1), x),
            ) by {
                lemma_eval_cong(pview(z2@), poly_mul_s(zv, fv), x);
                lemma_eval_mul(zv, fv, x);
                lemma_eval_linear_factor(fv, pts[j as int], x);
                lemma_rmod_mul_cong(
                    poly_eval(zv, x),
                    vanish_eval(pts.subrange(0, j as int), x),
                    poly_eval(fv, x),
                    x - pts[j as int],
                );
                assert(pts.subrange(0, j as int + 1).drop_last() =~= pts.subrange(0, j as int));
                assert(pts.subrange(0, j as int + 1).last() == pts[j as int]);
                assert(vanish_eval(pts.subrange(0, j as int + 1), x) == vanish_eval(
                    pts.subrange(0, j as int),
                    x,
                ) * (x - pts[j as int]));
            }
        }
        z = z2;
        j += 1;
    }
    proof {
        assert(pview(points@).subrange(0, points@.len() as int) =~= pview(points@));
    }
    z
}

impl KZG {
    /// One aggregated proof for the evaluations of the polynomial at
    /// several distinct points: the commitment to
    /// `(p - I) / Z`, where `I` interpolates the evaluations and `Z`
    /// is the points' vanishing polynomial.
    pub fn multi_open(&self, poly: &Vec<Scalar>, points: &Vec<Scalar>) -> (r: Result<
        G1Point,
        Error,
    >)
        requires
            self.wf(),
        ensures
            !self.is_setup() ==> r == Result::<G1Point, Error>::Err(Error::UninitializedCRS),
            self.is_setup() && (poly@.len() != self.degree + 1 || points@.len() > self.degree)
                ==> r == Result::<G1Point, Error>::Err(Error::DimensionMismatch),
            self.is_setup() && poly@.len() == self.degree + 1 && points@.len() <= self.degree
                ==> (r is Err <==> exists|i: int|
                0 <= i < points@.len() && rmod(#[trigger] lag_denom(pview(points@), i)) == 0),
            self.is_setup() && poly@.len() == self.degree + 1 && points@.len() <= self.degree
                && r is Err ==> r == Result::<G1Point, Error>::Err(Error::DivisionByZero),
            r matches Ok(pi) ==> g1_in(pi) && exists|iv: Seq<int>, qv: Seq<int>, rv: Seq<int>|
                #![trigger iv.len(), qv.len(), rv.len()]
                iv.len() == points@.len() && (forall|j: int|
                    0 <= j < points@.len() ==> rmod(
                        poly_eval(iv, #[trigger] pview(points@)[j]),
                    ) == rmod(poly_eval(pview(poly@), pview(points@)[j]))) && rv.len()
                    <= points@.len() && (forall|x: int|
                    rmod(poly_eval(pview(poly@), x) - poly_eval(iv, x)) == rmod(
                        poly_eval(qv, x) * #[trigger] vanish_eval(pview(points@), x) + poly_eval(
                            rv,
                            x,
                        ),
                    )) && g1_val(pi) == rmod(g1_val(self.g1) * poly_eval(qv, self.tau@)),
    {
        if self.crs_g1.len() == 0 {
            return Err(Error::UninitializedCRS);
        }
        if poly.len() != self.degree + 1 || points.len() > self.degree {
            return Err(Error::DimensionMismatch);
        }
        let ghost pv = pview(poly@);
        let ghost pts = pview(points@);
        // evaluate the polynomial at each point
        let mut values: Vec<Scalar> = Vec::new();
        let mut i: usize = 0;
        while i < points.len()
            invariant
                0 <= i <= points@.len(),
                values@.len() == i,
                pv == pview(poly@),
                pts == pview(points@),
                forall|j: int|
                    0 <= j < i ==> fr_val(#[trigger] values@[j]) == rmod(poly_eval(pv, pts[j])),
            decreases points@.len() - i,
        {
            values.push(crate::poly::evaluate(poly, points[i]));
            i += 1;
        }
        let interp = match crate::poly::interpolate(points, &values) {
            Ok(p) => p,
            Err(_) => {
                return Err(Error::DivisionByZero);
            },
        };
        // numerator: poly - I
        let neg_one = fr_neg(fr_one());
        let neg_interp = crate::poly::scalar_mul(&interp, neg_one);
        let numerator = crate::poly::add(poly, &neg_interp);
        // denominator: the vanishing polynomial of the points
        let z = vanishing(points);
        let quotient = match crate::poly::div(&numerator, &z) {
            Ok(q) => q,
            Err(_) => {
                proof {
                    assert(rmod(coeff(pview(z@), z@.len() - 1)) != 0);
                    assert(false);
                }
                return Err(Error::DivisionByZero);
            },
        };
        let pi = g1_lincomb(&self.crs_g1, &quotient, self.g1, Ghost(self.tau@));
        proof {
            let iv = pview(interp@);
            let qv = pview(quotient@);
            let nv = pview(numerator@);
            let zv = pview(z@);
            let t = self.tau@;
            // the interpolation agrees with the polynomial on the points
            assert forall|j: int| 0 <= j < points@.len() implies rmod(
                poly_eval(iv, #[trigger] pts[j]),
            ) == rmod(poly_eval(pv, pts[j])) by {
                assert(rmod(poly_eval(iv, pts[j])) == rmod(pview(values@)[j]));
                vstd::arithmetic::div_mod::lemma_mod_twice(poly_eval(pv, pts[j]), fr_order());
            }
            // the numerator stands for poly - I at every point
            assert forall|x: int| rmod(#[trigger] poly_eval(nv, x)) == rmod(
                poly_eval(pv, x) - poly_eval(iv, x),
            ) by {
                let sc = poly_scale_s(fr_val(neg_one), iv);
                assert(poly_cong(pview(neg_interp@), sc)) by {
                    assert forall|k: int|
                        rmod(#[trigger] coeff(pview(neg_interp@), k)) == rmod(coeff(sc, k)) by {
                        if 0 <= k < iv.len() {
                            assert(coeff(pview(neg_interp@), k) == rmod(iv[k] * fr_val(neg_one)));
                            assert(coeff(sc, k) == fr_val(neg_one) * iv[k]);
                            assert(iv[k] * fr_val(neg_one) == fr_val(neg_one) * iv[k])
                                by (nonlinear_arith);
                            vstd::arithmetic::div_mod::lemma_mod_twice(
                                fr_val(neg_one) * iv[k],
                                fr_order(),
                            );
                        }
                    }
                }
                assert(poly_cong(nv, poly_add_s(pv, pview(neg_interp@)))) by {
                    assert forall|k: int|
                        rmod(#[trigger] coeff(nv, k)) == rmod(
                        coeff(poly_add_s(pv, pview(neg_interp@)), k),
                    ) by {
                        crate::poly::lemma_add_coeff(pv, pview(neg_interp@), k);
                        if 0 <= k < nv.len() {
                            vstd::arithmetic::div_mod::lemma_mod_twice(
                                coeff(pv, k) + coeff(pview(neg_interp@), k),
                                fr_order(),
                            );
                        }
                    }
                }
                lemma_eval_cong(nv, poly_add_s(pv, pview(neg_interp@)), x);
                lemma_eval_add(pv, pview(neg_interp@), x);
                lemma_eval_cong(pview(neg_interp@), sc, x);
                crate::poly::lemma_eval_scale(fr_val(neg_one), iv, x);
                // the scale is minus one
                assert(fr_val(neg_one) == rmod(-1));
                lemma_rmod_mul_r(poly_eval(iv, x), -1);
                assert(rmod(fr_val(neg_one) * poly_eval(iv, x)) == rmod(
                    poly_eval(iv, x) * rmod(-1),
                )) by {
                    assert(fr_val(neg_one) * poly_eval(iv, x) == poly_eval(iv, x) * fr_val(
                        neg_one,
                    )) by (nonlinear_arith);
                    vstd::arithmetic::div_mod::lemma_mod_twice(-1, fr_order());
                    lemma_rmod_mul_cong(
                        poly_eval(iv, x),
                        poly_eval(iv, x),
                        fr_val(neg_one),
                        rmod(-1),
                    );
                }
                assert(poly_eval(iv, x) * -1 == -poly_eval(iv, x)) by (nonlinear_arith);
                lemma_rmod_add_cong(
                    poly_eval(pv, x),
                    poly_eval(pv, x),
                    poly_eval(pview(neg_interp@), x),
                    -poly_eval(iv, x),
                );
            }
            // the division identity, evaluated everywhere
            assert(crate::poly::trimmed_len(zv) == zv.len()) by {
                assert(rmod(zv.last()) != 0);
            }
            let rv = choose|rv: Seq<int>|
                #![trigger rv.len()]
                rv.len() < crate::poly::trimmed_len(zv) && poly_cong(
                    nv,
                    poly_add_s(poly_mul_s(qv, zv), rv),
                );
            assert forall|x: int|
                rmod(poly_eval(pv, x) - poly_eval(iv, x)) == rmod(
                    poly_eval(qv, x) * #[trigger] vanish_eval(pts, x) + poly_eval(rv, x),
                ) by {
                lemma_eval_cong(nv, poly_add_s(poly_mul_s(qv, zv), rv), x);
                lemma_eval_add(poly_mul_s(qv, zv), rv, x);
                lemma_eval_mul(qv, zv, x);
                assert(rmod(poly_eval(zv, x)) == rmod(vanish_eval(pts, x)));
                lemma_rmod_mul_r(poly_eval(qv, x), poly_eval(zv, x));
                lemma_rmod_mul_cong(
                    poly_eval(qv, x),
                    poly_eval(qv, x),
                    rmod(poly_eval(zv, x)),
                    rmod(vanish_eval(pts, x)),
                );
                lemma_rmod_mul_r(poly_eval(qv, x), vanish_eval(pts, x));
                lemma_rmod_add_cong(
                    poly_eval(qv, x) * poly_eval(zv, x),
                    poly_eval(qv, x) * vanish_eval(pts, x),
                    poly_eval(rv, x),
                    poly_eval(rv, x),
                );
            }
            assert(iv.len() == points@.len() && (forall|j: int|
                0 <= j < points@.len() ==> rmod(poly_eval(iv, #[trigger] pts[j])) == rmod(
                    poly_eval(pv, pts[j]),
                )) && rv.len() <= points@.len() && (forall|x: int|
                rmod(poly_eval(pv, x) - poly_eval(iv, x)) == rmod(
                    poly_eval(qv, x) * #[trigger] vanish_eval(pts, x) + poly_eval(rv, x),
                )) && g1_val(pi) == rmod(g1_val(self.g1) * poly_eval(qv, t)));
        }
        Ok(pi)
    }

    /// Check one aggregated proof against claimed evaluations at
    /// several points: the verifier interpolates the claims, commits
    /// the interpolation and the points' vanishing polynomial with
    /// the public CRS, and tests
    /// `e(commitment - Commit(I), g2) == e(proof, Commit_g2(Z))`.
    pub fn verify_multi(
        &self,
        points: &Vec<Scalar>,
        values: &Vec<Scalar>,
        commitment: G1Point,
        proof: G1Point,
    ) -> (r: Result<bool, Error>)
        requires
            self.wf(),
            g1_in(commitment),
            g1_in(proof),
        ensures
            !self.is_setup() ==> r == Result::<bool, Error>::Err(Error::UninitializedCRS),
            self.is_setup() && (points@.len() != values@.len() || points@.len() > self.degree)
                ==> r == Result::<bool, Error>::Err(Error::DimensionMismatch),
            self.is_setup() && points@.len() == values@.len() && points@.len() <= self.degree
                ==> (r is Err <==> exists|i: int|
                0 <= i < points@.len() && rmod(#[trigger] lag_denom(pview(points@), i)) == 0),
            self.is_setup() && points@.len() == values@.len() && points@.len() <= self.degree
                && r is Err ==> r == Result::<bool, Error>::Err(Error::DivisionByZero),
            r matches Ok(b) ==> exists|iv: Seq<int>|
                #![trigger iv.len()]
                iv.len() == points@.len() && (forall|j: int|
                    0 <= j < points@.len() ==> rmod(
                        poly_eval(iv, #[trigger] pview(points@)[j]),
                    ) == rmod(pview(values@)[j])) && (b <==> rmod(
                    (g1_val(commitment) - g1_val(self.g1) * poly_eval(iv, self.tau@)) * g2_val(
                        self.g2,
                    ),
                ) == rmod(
                    g1_val(proof) * (g2_val(self.g2) * vanish_eval(pview(points@), self.tau@)),
                )),
    {
        if self.crs_g1.len() == 0 {
            return Err(Error::UninitializedCRS);
        }
        if points.len() != values.len() || points.len() > self.degree {
            return Err(Error::DimensionMismatch);
        }
        let interp = match crate::poly::interpolate(points, values) {
            Ok(p) => p,
            Err(_) => {
                return Err(Error::DivisionByZero);
            },
        };
        let c_interp = g1_lincomb(&self.crs_g1, &interp, self.g1, Ghost(self.tau@));
        let z = vanishing(points);
        let c_z = g2_lincomb(&self.crs_g2, &z, self.g2, Ghost(self.tau@));
        let lhs = g1_sub(commitment, c_interp);
        let b = pairing_eq(lhs, self.g2, proof, c_z);
        proof {
            let iv = pview(interp@);
            let t = self.tau@;
            let c = g1_val(commitment);
            let g1v = g1_val(self.g1);
            let g2v = g2_val(self.g2);
            let piv = g1_val(proof);
            let ei = poly_eval(iv, t);
            let ez = poly_eval(pview(z@), t);
            let ve = vanish_eval(pview(points@), t);
            // the left side is (commitment - g1 * I(tau)) * g2
            lemma_rmod_sub_r(c, g1v * ei);
            vstd::arithmetic::div_mod::lemma_mod_twice(c - g1v * ei, fr_order());
            lemma_rmod_mul_cong(g1_val(lhs), c - g1v * ei, g2v, g2v);
            // the right side is proof * (g2 * Z(tau))
            lemma_rmod_mul_cong(g2v, g2v, ez, ve);
            lemma_rmod_mul_r(piv, g2v * ve);
            assert(g2_val(c_z) == rmod(g2v * ve));
            lemma_rmod_mul_cong(piv, piv, g2_val(c_z), g2v * ve);
            assert(iv.len() == points@.len() && (forall|j: int|
                0 <= j < points@.len() ==> rmod(
                    poly_eval(iv, #[trigger] pview(points@)[j]),
                ) == rmod(pview(values@)[j])) && (b <==> rmod((c - g1v * ei) * g2v) == rmod(
                piv * (g2v * ve),
            )));
        }
        Ok(b)
    }
}


/// Completeness of single-point opening: for any polynomial, an
/// honestly computed commitment, evaluation and opening proof always
/// satisfy the pairing check that `verify` decides.  The hypotheses
/// are exactly what `commit`, `evaluate` and `open` ensure.
pub proof fn lemma_single_open_verifies(
    p: Seq<int>,
    tau: int,
    zv: int,
    g1: int,
    g2: int,
    c: int,
    pi: int,
    vv: int,
)
    requires
        c == rmod(g1 * poly_eval(p, tau)),
        vv == rmod(poly_eval(p, zv)),
        rmod(pi * (tau - zv)) == rmod(g1 * (poly_eval(p, tau) - poly_eval(p, zv))),
    ensures
        KZG::kzg_check(c, zv, vv, pi, g1, g2, tau),
{
    let et = poly_eval(p, tau);
    let ez = poly_eval(p, zv);
    // the left pairing argument collapses to g1 * (p(tau) - p(z))
    assert(rmod(c - g1 * vv) == rmod(g1 * (et - ez))) by {
        vstd::arithmetic::div_mod::lemma_mod_twice(g1 * et, fr_order());
        lemma_rmod_mul_r(g1, ez);
        lemma_rmod_sub_cong(c, g1 * et, g1 * vv, g1 * ez);
        assert(g1 * et - g1 * ez == g1 * (et - ez)) by (nonlinear_arith);
    }
    // multiply both sides of the quotient identity by g2
    lemma_rmod_mul_cong(c - g1 * vv, g1 * (et - ez), g2, g2);
    lemma_rmod_mul_cong(pi * (tau - zv), g1 * (et - ez), g2, g2);
    assert(pi * ((tau - zv) * g2) == (pi * (tau - zv)) * g2) by (nonlinear_arith);
}

/// A tampered value is rejected: when the claimed value differs from
/// the true evaluation by an invertible delta, and the bases'
/// logarithms are invertible (the generators are actual generators),
/// the pairing check fails.  The witnesses `w1`, `w2`, `wd` are the
/// inverses that make those hypotheses exact.
pub proof fn lemma_wrong_value_rejected(
    p: Seq<int>,
    tau: int,
    zv: int,
    g1: int,
    g2: int,
    c: int,
    pi: int,
    vv: int,
    delta: int,
    w1: int,
    w2: int,
    wd: int,
)
    requires
        c == rmod(g1 * poly_eval(p, tau)),
        vv == rmod(poly_eval(p, zv)),
        rmod(pi * (tau - zv)) == rmod(g1 * (poly_eval(p, tau) - poly_eval(p, zv))),
        rmod(g1 * w1) == 1,
        rmod(g2 * w2) == 1,
        rmod(delta * wd) == 1,
    ensures
        !KZG::kzg_check(c, zv, rmod(vv + delta), pi, g1, g2, tau),
{
    lemma_single_open_verifies(p, tau, zv, g1, g2, c, pi, vv);
    if KZG::kzg_check(c, zv, rmod(vv + delta), pi, g1, g2, tau) {
        // both the honest and the tampered left side equal the right
        // side, so their difference, g1 * delta * g2, is zero
        let a = c - g1 * vv;
        let b = c - g1 * rmod(vv + delta);
        assert(rmod(a * g2) == rmod(b * g2));
        assert(rmod(b) == rmod(a - g1 * delta)) by {
            lemma_rmod_mul_r(g1, vv + delta);
            lemma_rmod_sub_cong(c, c, g1 * rmod(vv + delta), g1 * (vv + delta));
            assert(c - g1 * (vv + delta) == (c - g1 * vv) - g1 * delta) by (nonlinear_arith);
            vstd::arithmetic::div_mod::lemma_mod_twice(a - g1 * delta, fr_order());
        }
        lemma_rmod_mul_cong(b, a - g1 * delta, g2, g2);
        assert(rmod(a * g2) == rmod((a - g1 * delta) * g2));
        lemma_rmod_sub_cong(a * g2, a * g2, (a - g1 * delta) * g2, a * g2);
        assert((c - g1 * vv) * g2 - ((c - g1 * vv) - g1 * delta) * g2 == (g1 * delta) * g2)
            by (nonlinear_arith);
        assert(rmod((g1 * delta) * g2) == 0) by {
            assert(rmod(a * g2 - a * g2) == 0) by {
                assert((c - g1 * vv) * g2 - (c - g1 * vv) * g2 == 0) by (nonlinear_arith);
            }
        }
        // cancel g2, then delta, then g1
        assert(0 * g2 == 0) by (nonlinear_arith);
        assert(rmod(0 * g2) == rmod(0));
        lemma_rmod_cancel(g1 * delta, 0, g2, w2);
        assert(rmod(g1 * delta) == 0);
        assert(0 * delta == 0) by (nonlinear_arith);
        lemma_rmod_cancel(g1, 0, delta, wd);
        assert(rmod(g1) == 0);
        lemma_unit_nonzero(g1, w1);
        assert(false);
    }
}

/// The commitment is additive-homomorphic: the commitment to the
/// coefficient-wise sum of two equal-length polynomials is the sum of
/// their commitments.  The hypotheses on `s` are exactly what
/// `poly::add` ensures; those on the commitments are what `commit`
/// ensures.
pub proof fn lemma_commit_homomorphic(
    p1: Seq<int>,
    p2: Seq<int>,
    s: Seq<int>,
    tau: int,
    g1: int,
    c1: int,
    c2: int,
    cs: int,
)
    requires
        p1.len() == p2.len(),
        s.len() == p1.len(),
        forall|k: int| 0 <= k < s.len() ==> s[k] == rmod(coeff(p1, k) + #[trigger] coeff(p2, k)),
        c1 == rmod(g1 * poly_eval(p1, tau)),
        c2 == rmod(g1 * poly_eval(p2, tau)),
        cs == rmod(g1 * poly_eval(s, tau)),
    ensures
        cs == rmod(c1 + c2),
{
    let e1 = poly_eval(p1, tau);
    let e2 = poly_eval(p2, tau);
    assert(poly_cong(s, poly_add_s(p1, p2))) by {
        crate::poly::lemma_cong_of_reduced(s, poly_add_s(p1, p2));
    }
    lemma_eval_cong(s, poly_add_s(p1, p2), tau);
    lemma_eval_add(p1, p2, tau);
    lemma_rmod_mul_r(g1, poly_eval(s, tau));
    lemma_rmod_mul_cong(g1, g1, rmod(poly_eval(s, tau)), rmod(e1 + e2));
    lemma_rmod_mul_r(g1, e1 + e2);
    assert(g1 * (e1 + e2) == g1 * e1 + g1 * e2) by (nonlinear_arith);
    lemma_rmod_add(g1 * e1, g1 * e2);
    assert(cs == rmod(rmod(g1 * e1) + rmod(g1 * e2)));
}


/// The vanishing product is zero at each of its own points.
proof fn lemma_vanish_at_point(pts: Seq<int>, j: int)
    requires
        0 <= j < pts.len(),
    ensures
        rmod(vanish_eval(pts, pts[j])) == 0,
    decreases pts.len(),
{
    if j == pts.len() - 1 {
        assert(pts[j] - pts.last() == 0);
        assert(vanish_eval(pts.drop_last(), pts[j]) * 0 == 0) by (nonlinear_arith);
    } else {
        assert(pts.drop_last()[j] == pts[j]);
        lemma_vanish_at_point(pts.drop_last(), j);
        lemma_rmod_mul_cong(
            vanish_eval(pts.drop_last(), pts[j]),
            0,
            pts[j] - pts.last(),
            pts[j] - pts.last(),
        );
        assert(0 * (pts[j] - pts.last()) == 0) by (nonlinear_arith);
    }
}

/// Completeness of aggregated openings: for any polynomial and any
/// set of points with pairwise invertible differences, an honest
/// commitment, honestly evaluated values and an honest aggregated
/// proof always pass the multi-point pairing check.  The hypotheses
/// are exactly what `commit`, `multi_open` and `verify_multi` ensure
/// of their results and witnesses; `ws` carries the inverses of the
/// points' pairwise differences.
pub proof fn lemma_multi_open_verifies(
    p: Seq<int>,
    pts: Seq<int>,
    tau: int,
    g1: int,
    g2: int,
    c: int,
    pi: int,
    iv: Seq<int>,
    qv: Seq<int>,
    rv: Seq<int>,
    iv2: Seq<int>,
    b: bool,
    ws: spec_fn(int, int) -> int,
)
    requires
        c == rmod(g1 * poly_eval(p, tau)),
        iv.len() == pts.len(),
        forall|j: int|
            0 <= j < pts.len() ==> rmod(poly_eval(iv, #[trigger] pts[j])) == rmod(
                poly_eval(p, pts[j]),
            ),
        rv.len() <= pts.len(),
        forall|x: int|
            rmod(poly_eval(p, x) - poly_eval(iv, x)) == rmod(
                poly_eval(qv, x) * #[trigger] vanish_eval(pts, x) + poly_eval(rv, x),
            ),
        pi == rmod(g1 * poly_eval(qv, tau)),
        iv2.len() == pts.len(),
        forall|j: int|
            0 <= j < pts.len() ==> rmod(poly_eval(iv2, #[trigger] pts[j])) == rmod(
                poly_eval(p, pts[j]),
            ),
        b <==> rmod((c - g1 * poly_eval(iv2, tau)) * g2) == rmod(
            pi * (g2 * vanish_eval(pts, tau)),
        ),
        pairwise_invertible(pts, ws),
    ensures
        b,
{
    // the division remainder vanishes at every opened point, hence
    // everywhere
    assert forall|j: int| 0 <= j < pts.len() implies rmod(
        poly_eval(rv, #[trigger] pts[j]),
    ) == 0 by {
        let qe = poly_eval(qv, pts[j]);
        let ve = vanish_eval(pts, pts[j]);
        let re = poly_eval(rv, pts[j]);
        lemma_rmod_sub_cong(poly_eval(p, pts[j]), poly_eval(p, pts[j]), poly_eval(iv, pts[j]),
            poly_eval(p, pts[j]));
        assert(rmod(poly_eval(p, pts[j]) - poly_eval(iv, pts[j])) == 0);
        lemma_vanish_at_point(pts, j);
        lemma_rmod_mul_cong(qe, qe, ve, 0);
        assert(qe * 0 == 0) by (nonlinear_arith);
        lemma_rmod_add_cong(qe * ve, 0, re, re);
        assert(rmod(0 + re) == rmod(re));
    }
    lemma_roots_zero(rv, pts, ws);
    // the quotient identity at the trapdoor, with the remainder gone
    let ept = poly_eval(p, tau);
    let e1t = poly_eval(iv, tau);
    let e2t = poly_eval(iv2, tau);
    let qt = poly_eval(qv, tau);
    let vt = vanish_eval(pts, tau);
    assert(rmod(ept - e1t) == rmod(qt * vt)) by {
        lemma_rmod_add_cong(qt * vt, qt * vt, poly_eval(rv, tau), 0);
        assert(qt * vt + 0 == qt * vt);
    }
    // the two interpolations agree at the trapdoor
    let dv = poly_add_s(iv2, poly_scale_s(-1, iv));
    assert forall|j: int| 0 <= j < pts.len() implies rmod(
        poly_eval(dv, #[trigger] pts[j]),
    ) == 0 by {
        lemma_eval_add(iv2, poly_scale_s(-1, iv), pts[j]);
        lemma_eval_scale(-1, iv, pts[j]);
        assert(-1 * poly_eval(iv, pts[j]) == -poly_eval(iv, pts[j])) by (nonlinear_arith);
        lemma_rmod_sub_cong(poly_eval(iv2, pts[j]), poly_eval(p, pts[j]), poly_eval(iv, pts[j]),
            poly_eval(p, pts[j]));
        assert(poly_eval(dv, pts[j]) == poly_eval(iv2, pts[j]) - poly_eval(iv, pts[j]));
    }
    assert(dv.len() <= pts.len());
    lemma_roots_zero(dv, pts, ws);
    assert(rmod(e2t) == rmod(e1t)) by {
        lemma_eval_add(iv2, poly_scale_s(-1, iv), tau);
        lemma_eval_scale(-1, iv, tau);
        assert(-1 * e1t == -e1t) by (nonlinear_arith);
        assert(poly_eval(dv, tau) == e2t - e1t);
        assert(rmod(e2t - e1t) == 0);
        vstd::arithmetic::div_mod::lemma_mod_equivalence(e2t, e1t, fr_order());
    }
    // both pairing arguments collapse to g1 * q(tau) * Z(tau) * g2
    assert(rmod(c - g1 * e2t) == rmod(g1 * (qt * vt))) by {
        vstd::arithmetic::div_mod::lemma_mod_twice(g1 * ept, fr_order());
        lemma_rmod_mul_cong(g1, g1, e2t, e1t);
        lemma_rmod_sub_cong(c, g1 * ept, g1 * e2t, g1 * e1t);
        assert(g1 * ept - g1 * e1t == g1 * (ept - e1t)) by (nonlinear_arith);
        lemma_rmod_mul_r(g1, ept - e1t);
        lemma_rmod_mul_cong(g1, g1, rmod(ept - e1t), rmod(qt * vt));
        lemma_rmod_mul_r(g1, qt * vt);
    }
    lemma_rmod_mul_cong(c - g1 * e2t, g1 * (qt * vt), g2, g2);
    assert(rmod(pi * (g2 * vt)) == rmod((g1 * qt) * (g2 * vt))) by {
        vstd::arithmetic::div_mod::lemma_mod_twice(g1 * qt, fr_order());
        lemma_rmod_mul_cong(pi, g1 * qt, g2 * vt, g2 * vt);
    }
    assert((g1 * (qt * vt)) * g2 == (g1 * qt) * (g2 * vt)) by (nonlinear_arith);
}


/// Exactness of the aggregated check: with an honest commitment and
/// aggregated proof, the verifier accepts a set of claimed values
/// exactly when their interpolation agrees at the trapdoor with the
/// honest opening's interpolation.  Honest values always agree
/// (completeness above); a tampered set is rejected unless the
/// trapdoor happens to be a root of the two interpolations'
/// difference.
pub proof fn lemma_multi_verify_exact(
    p: Seq<int>,
    pts: Seq<int>,
    tau: int,
    g1: int,
    g2: int,
    c: int,
    pi: int,
    iv: Seq<int>,
    qv: Seq<int>,
    rv: Seq<int>,
    cv2: Seq<int>,
    b: bool,
    ws: spec_fn(int, int) -> int,
    w1: int,
    w2: int,
)
    requires
        c == rmod(g1 * poly_eval(p, tau)),
        iv.len() == pts.len(),
        forall|j: int|
            0 <= j < pts.len() ==> rmod(poly_eval(iv, #[trigger] pts[j])) == rmod(
                poly_eval(p, pts[j]),
            ),
        rv.len() <= pts.len(),
        forall|x: int|
            rmod(poly_eval(p, x) - poly_eval(iv, x)) == rmod(
                poly_eval(qv, x) * #[trigger] vanish_eval(pts, x) + poly_eval(rv, x),
            ),
        pi == rmod(g1 * poly_eval(qv, tau)),
        b <==> rmod((c - g1 * poly_eval(cv2, tau)) * g2) == rmod(
            pi * (g2 * vanish_eval(pts, tau)),
        ),
        pairwise_invertible(pts, ws),
        rmod(g1 * w1) == 1,
        rmod(g2 * w2) == 1,
    ensures
        b <==> rmod(poly_eval(cv2, tau)) == rmod(poly_eval(iv, tau)),
{
    // as in the completeness proof: the remainder vanishes
    // everywhere, so the honest left side equals the right side
    assert forall|j: int| 0 <= j < pts.len() implies rmod(
        poly_eval(rv, #[trigger] pts[j]),
    ) == 0 by {
        let qe = poly_eval(qv, pts[j]);
        let ve = vanish_eval(pts, pts[j]);
        let re = poly_eval(rv, pts[j]);
        lemma_rmod_sub_cong(poly_eval(p, pts[j]), poly_eval(p, pts[j]), poly_eval(iv, pts[j]),
            poly_eval(p, pts[j]));
        assert(rmod(poly_eval(p, pts[j]) - poly_eval(iv, pts[j])) == 0);
        lemma_vanish_at_point(pts, j);
        lemma_rmod_mul_cong(qe, qe, ve, 0);
        assert(qe * 0 == 0) by (nonlinear_arith);
        lemma_rmod_add_cong(qe * ve, 0, re, re);
        assert(rmod(0 + re) == rmod(re));
    }
    lemma_roots_zero(rv, pts, ws);
    let ept = poly_eval(p, tau);
    let e1 = poly_eval(iv, tau);
    let e2 = poly_eval(cv2, tau);
    let qt = poly_eval(qv, tau);
    let vt = vanish_eval(pts, tau);
    assert(rmod(ept - e1) == rmod(qt * vt)) by {
        lemma_rmod_add_cong(qt * vt, qt * vt, poly_eval(rv, tau), 0);
        assert(qt * vt + 0 == qt * vt);
    }
    assert(rmod((c - g1 * e1) * g2) == rmod(pi * (g2 * vt))) by {
        assert(rmod(c - g1 * e1) == rmod(g1 * (qt * vt))) by {
            vstd::arithmetic::div_mod::lemma_mod_twice(g1 * ept, fr_order());
            lemma_rmod_sub_cong(c, g1 * ept, g1 * e1, g1 * e1);
            assert(g1 * ept - g1 * e1 == g1 * (ept - e1)) by (nonlinear_arith);
            lemma_rmod_mul_r(g1, ept - e1);
            lemma_rmod_mul_cong(g1, g1, rmod(ept - e1), rmod(qt * vt));
            lemma_rmod_mul_r(g1, qt * vt);
        }
        lemma_rmod_mul_cong(c - g1 * e1, g1 * (qt * vt), g2, g2);
        assert(rmod(pi * (g2 * vt)) == rmod((g1 * qt) * (g2 * vt))) by {
            vstd::arithmetic::div_mod::lemma_mod_twice(g1 * qt, fr_order());
            lemma_rmod_mul_cong(pi, g1 * qt, g2 * vt, g2 * vt);
        }
        assert((g1 * (qt * vt)) * g2 == (g1 * qt) * (g2 * vt)) by (nonlinear_arith);
    }
    // acceptance is equality of the two left sides, which cancels
    // down to agreement at the trapdoor
    if rmod(e2) == rmod(e1) {
        lemma_rmod_mul_cong(g1, g1, e2, e1);
        lemma_rmod_sub_cong(c, c, g1 * e2, g1 * e1);
        lemma_rmod_mul_cong(c - g1 * e2, c - g1 * e1, g2, g2);
        assert(b);
    }
    if b {
        assert(rmod((c - g1 * e2) * g2) == rmod((c - g1 * e1) * g2));
        lemma_rmod_sub_cong(
            (c - g1 * e2) * g2,
            (c - g1 * e1) * g2,
            (c - g1 * e1) * g2,
            (c - g1 * e1) * g2,
        );
        assert(rmod(((c - g1 * e1) * g2) - ((c - g1 * e1) * g2)) == 0) by {
            assert(((c - g1 * e1) * g2) - ((c - g1 * e1) * g2) == 0);
        }
        assert((c - g1 * e2) * g2 - (c - g1 * e1) * g2 == (g1 * (e1 - e2)) * g2)
            by (nonlinear_arith);
        assert(rmod((g1 * (e1 - e2)) * g2) == 0);
        assert(0 * g2 == 0) by (nonlinear_arith);
        assert(rmod(0 * g2) == rmod(0));
        lemma_rmod_cancel(g1 * (e1 - e2), 0, g2, w2);
        assert(g1 * (e1 - e2) == (e1 - e2) * g1) by (nonlinear_arith);
        assert(0 * g1 == 0) by (nonlinear_arith);
        assert(rmod((e1 - e2) * g1) == rmod(0 * g1));
        lemma_rmod_cancel(e1 - e2, 0, g1, w1);
        assert(rmod(e1 - e2) == 0);
        vstd::arithmetic::div_mod::lemma_mod_equivalence(e1, e2, fr_order());
    }
}

} // verus!





