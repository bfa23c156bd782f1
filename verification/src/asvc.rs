//! Aggregatable subvector commitments (ASVC) over the KZG trusted
//! setup.
//!
//! A vector of length `n` (the evaluation-domain size, a power of
//! two) is read as the evaluations of a polynomial over the domain of
//! `n`-th roots of unity.  `key_gen` precomputes a commitment to each
//! Lagrange basis polynomial, so a vector commitment is a plain
//! linear combination; position proofs and their verification follow
//! the multi-point opening pattern of the KZG scheme.

use vstd::prelude::*;
use crate::modular::rmod;
use crate::field::{Scalar, fr_val, pview, fr_zero, fr_one, fr_mul};
use crate::group::{G1Point, G2Point, g1_val, g1_in, g2_val, g2_in, g1_add, g1_mul, g1_sub,
    pairing_eq};
use crate::kzg::{KZG, g1_lincomb, g2_lincomb, vanishing, vanish_eval};
use crate::poly::{poly_eval, poly_cong, coeff, poly_add_s, poly_mul_s, poly_scale_s,
    pairwise_invertible, lemma_roots_zero, lemma_eval_add, lemma_eval_scale, lemma_eval_cong,
    lemma_eval_mul, lemma_add_coeff};
use crate::modular::{fr_order, lemma_rmod_mul_cong, lemma_rmod_mul_r, lemma_rmod_add,
    lemma_rmod_add_cong, lemma_rmod_sub_cong};
use crate::poly::{lag_denom, domain_order, omega_pow2, pow2_ceil};
use crate::Error;

verus! {

pub struct ASVC {
    /// The underlying trusted setup: generators, degree and CRS.
    pub kzg: KZG,
    /// The evaluation domain: the powers of the root of unity.
    pub domain: Vec<Scalar>,
    /// One commitment to each Lagrange basis polynomial of the
    /// domain.
    pub lagrange_basis: Vec<G1Point>,
    /// The Lagrange basis polynomials themselves, kept as a ghost
    /// value: the well-formedness predicate ties each commitment to
    /// its polynomial.
    pub lag_polys: Ghost<Seq<Seq<int>>>,
}

/// A Lagrange basis polynomial for position `i` of a domain: one at
/// `dom[i]`, zero at every other domain point.
pub open spec fn lag_ok(liv: Seq<int>, dom: Seq<int>, i: int) -> bool {
    &&& liv.len() == dom.len()
    &&& (forall|j: int|
        0 <= j < dom.len() ==> rmod(poly_eval(liv, #[trigger] dom[j])) == (if j == i {
            1int
        } else {
            0int
        }))
}

impl ASVC {
    /// The domain size `n`.
    pub open spec fn domain_size(self) -> int {
        self.domain@.len() as int
    }

    pub open spec fn wf(self) -> bool {
        &&& self.kzg.wf()
        &&& self.kzg.is_setup()
        &&& self.lagrange_basis@.len() == self.domain@.len()
        &&& 1 <= self.domain@.len() <= self.kzg.degree + 1
        &&& (forall|i: int|
            0 <= i < self.lagrange_basis@.len() ==> g1_in(#[trigger] self.lagrange_basis@[i]))
        &&& self.lag_polys@.len() == self.lagrange_basis@.len()
        &&& (forall|i: int|
            0 <= i < self.lagrange_basis@.len() ==> lag_ok(
                #[trigger] self.lag_polys@[i],
                pview(self.domain@),
                i,
            ) && g1_val(self.lagrange_basis@[i]) == rmod(
                g1_val(self.kzg.g1) * poly_eval(self.lag_polys@[i], self.kzg.tau@),
            ))
    }

    /// Build the key material: run the trusted setup, derive the
    /// domain of roots of unity for the power of two reached from
    /// `degree`, and commit to each Lagrange basis polynomial.
    /// Fails with `DimensionMismatch` exactly when the CRS is too
    /// short for the domain, and with `DivisionByZero` when a
    /// Lagrange denominator of the derived domain degenerates.
    pub fn key_gen(g1: G1Point, g2: G2Point, degree: usize, secret: Scalar) -> (r: Result<
        Self,
        Error,
    >)
        requires
            g1_in(g1),
            g2_in(g2),
            0 < degree < 0x40000000,
        ensures
            r == Result::<Self, Error>::Err(Error::DimensionMismatch) <==> degree + 1
                < pow2_ceil(degree as int),
            r is Err ==> r == Result::<Self, Error>::Err(Error::DimensionMismatch) || r
                == Result::<Self, Error>::Err(Error::DivisionByZero),
            r matches Ok(a) ==> a.wf() && a.kzg.g1 == g1 && a.kzg.g2 == g2 && a.kzg.degree
                == degree && a.kzg.tau@ == rmod(fr_val(secret)) && a.domain@.len() == pow2_ceil(
                degree as int,
            ),
    {
        let (n, _e) = domain_order(degree);
        if degree + 1 < n {
            return Err(Error::DimensionMismatch);
        }
        let mut kzg = KZG::new(g1, g2, degree);
        kzg.setup(secret);

        // the evaluation domain: all powers of the root of unity
        let omega = omega_pow2(_e);
        let mut domain: Vec<Scalar> = Vec::new();
        let mut w = fr_one();
        let mut i: usize = 0;
        while i < n
            invariant
                0 <= i <= n,
                domain@.len() == i,
            decreases n - i,
        {
            domain.push(w);
            w = fr_mul(w, omega);
            i += 1;
        }

        // commit to each Lagrange basis polynomial of the domain
        let mut lagrange_basis: Vec<G1Point> = Vec::new();
        let ghost mut lag_polys: Seq<Seq<int>> = Seq::empty();
        let mut i: usize = 0;
        while i < n
            invariant
                0 <= i <= n,
                kzg.wf(),
                kzg.is_setup(),
                kzg.degree == degree,
                kzg.g1 == g1,
                kzg.g2 == g2,
                kzg.tau@ == rmod(fr_val(secret)),
                g1_in(g1),
                domain@.len() == n,
                n == pow2_ceil(degree as int),
                n <= degree + 1,
                lagrange_basis@.len() == i,
                forall|j: int| 0 <= j < i ==> g1_in(#[trigger] lagrange_basis@[j]),
                lag_polys.len() == i,
                forall|j: int|
                    0 <= j < i ==> lag_ok(#[trigger] lag_polys[j], pview(domain@), j) && g1_val(
                        lagrange_basis@[j],
                    ) == rmod(g1_val(kzg.g1) * poly_eval(lag_polys[j], kzg.tau@)),
            decreases n - i,
        {
            let mut unit: Vec<Scalar> = Vec::new();
            let mut j: usize = 0;
            while j < n
                invariant
                    0 <= j <= n,
                    unit@.len() == j,
                    i < n,
                    forall|a: int|
                        0 <= a < j ==> fr_val(#[trigger] unit@[a]) == (if a == i {
                            1int
                        } else {
                            0int
                        }),
                decreases n - j,
            {
                if j == i {
                    unit.push(fr_one());
                } else {
                    unit.push(fr_zero());
                }
                j += 1;
            }
            let li = match crate::poly::interpolate(&domain, &unit) {
                Ok(p) => p,
                Err(_) => {
                    return Err(Error::DivisionByZero);
                },
            };
            let entry = g1_lincomb(&kzg.crs_g1, &li, kzg.g1, Ghost(kzg.tau@));
            proof {
                let liv = pview(li@);
                assert(lag_ok(liv, pview(domain@), i as int)) by {
                    assert forall|j2: int|
                        0 <= j2 < domain@.len() implies rmod(
                        poly_eval(liv, #[trigger] pview(domain@)[j2]),
                    ) == (if j2 == i {
                        1int
                    } else {
                        0int
                    }) by {
                        assert(rmod(poly_eval(liv, pview(domain@)[j2])) == rmod(
                            pview(unit@)[j2],
                        ));
                        if j2 == i {
                            assert(fr_val(unit@[j2]) == 1);
                        } else {
                            assert(fr_val(unit@[j2]) == 0);
                        }
                    }
                }
                assert(liv.len() == domain@.len());
            }
            lagrange_basis.push(entry);
            proof {
                lag_polys = lag_polys.push(pview(li@));
            }
            i += 1;
        }
        Ok(Self { kzg, domain, lagrange_basis, lag_polys: Ghost(lag_polys) })
    }

    /// Commit to a vector of exactly the domain size: the sum of the
    /// Lagrange basis commitments scaled by the vector's entries,
    /// i.e. the commitment to a polynomial of degree below the domain
    /// size agreeing with the vector on the whole domain.
    pub fn vector_commit(&self, vector: &Vec<Scalar>) -> (r: Result<G1Point, Error>)
        requires
            self.wf(),
        ensures
            r is Err <==> vector@.len() != self.domain_size(),
            r is Err ==> r == Result::<G1Point, Error>::Err(Error::DimensionMismatch),
            r matches Ok(c) ==> g1_in(c) && exists|pv: Seq<int>|
                #![trigger pv.len()]
                pv.len() <= self.domain_size() && (forall|j: int|
                    0 <= j < self.domain_size() ==> rmod(
                        poly_eval(pv, #[trigger] pview(self.domain@)[j]),
                    ) == rmod(pview(vector@)[j])) && g1_val(c) == rmod(
                    g1_val(self.kzg.g1) * poly_eval(pv, self.kzg.tau@),
                ),
    {
        if vector.len() != self.domain.len() {
            return Err(Error::DimensionMismatch);
        }
        let ghost g1v = g1_val(self.kzg.g1);
        let ghost t = self.kzg.tau@;
        let ghost dom = pview(self.domain@);
        let mut acc = g1_mul(self.kzg.g1, fr_zero());
        let ghost mut pv: Seq<int> = Seq::empty();
        proof {
            assert(g1v * 0 == 0) by (nonlinear_arith);
        }
        let mut i: usize = 0;
        while i < vector.len()
            invariant
                0 <= i <= vector@.len(),
                vector@.len() == self.lagrange_basis@.len(),
                self.wf(),
                g1_in(acc),
                g1v == g1_val(self.kzg.g1),
                t == self.kzg.tau@,
                dom == pview(self.domain@),
                pv.len() <= self.domain_size(),
                forall|j: int|
                    0 <= j < self.domain_size() ==> rmod(poly_eval(pv, #[trigger] dom[j]))
                        == (if j < i {
                        rmod(pview(vector@)[j])
                    } else {
                        0int
                    }),
                g1_val(acc) == rmod(g1v * poly_eval(pv, t)),
            decreases vector@.len() - i,
        {
            let ghost liv = self.lag_polys@[i as int];
            let ghost vi = fr_val(vector@[i as int]);
            let term = g1_mul(self.lagrange_basis[i], vector[i]);
            let acc2 = g1_add(acc, term);
            let ghost pv2 = poly_add_s(pv, poly_scale_s(vi, liv));
            proof {
                let eliv = poly_eval(liv, t);
                let epv = poly_eval(pv, t);
                // the term commits the scaled basis polynomial
                lemma_rmod_mul_cong(g1_val(self.lagrange_basis@[i as int]), g1v * eliv, vi, vi);
                vstd::arithmetic::div_mod::lemma_mod_twice(g1v * eliv, crate::modular::fr_order());
                assert(g1_val(term) == rmod(g1v * eliv * vi));
                // fold it into the running polynomial
                lemma_rmod_add(g1v * epv, g1v * eliv * vi);
                lemma_eval_add(pv, poly_scale_s(vi, liv), t);
                lemma_eval_scale(vi, liv, t);
                assert(g1v * epv + g1v * eliv * vi == g1v * (epv + vi * eliv))
                    by (nonlinear_arith);
                assert(g1_val(acc2) == rmod(g1v * poly_eval(pv2, t)));
                // the running polynomial matches one more vector entry
                assert forall|j: int| 0 <= j < self.domain_size() implies rmod(
                    poly_eval(pv2, #[trigger] dom[j]),
                ) == (if j < i + 1 {
                    rmod(pview(vector@)[j])
                } else {
                    0int
                }) by {
                    lemma_eval_add(pv, poly_scale_s(vi, liv), dom[j]);
                    lemma_eval_scale(vi, liv, dom[j]);
                    let ed = poly_eval(liv, dom[j]);
                    lemma_rmod_mul_r(vi, ed);
                    if j == i {
                        assert(rmod(ed) == 1);
                        lemma_rmod_mul_cong(vi, vi, rmod(ed), 1);
                        assert(vi * 1 == vi) by (nonlinear_arith);
                        crate::modular::lemma_rmod_add_cong(
                            poly_eval(pv, dom[j]),
                            0,
                            vi * ed,
                            vi,
                        );
                        assert(rmod(0 + vi) == rmod(vi));
                    } else {
                        assert(rmod(ed) == 0);
                        assert(vi * 0 == 0) by (nonlinear_arith);
                        assert(rmod(vi * rmod(ed)) == rmod(0));
                        crate::modular::lemma_rmod_add_cong(
                            poly_eval(pv, dom[j]),
                            poly_eval(pv, dom[j]),
                            vi * ed,
                            0,
                        );
                        assert(poly_eval(pv, dom[j]) + 0 == poly_eval(pv, dom[j]));
                    }
                }
                assert(pv2.len() <= self.domain_size());
            }
            acc = acc2;
            proof {
                pv = pv2;
            }
            i += 1;
        }
        proof {
            assert(pv.len() <= self.domain_size() && (forall|j: int|
                0 <= j < self.domain_size() ==> rmod(poly_eval(pv, #[trigger] pview(
                    self.domain@,
                )[j])) == rmod(pview(vector@)[j])) && g1_val(acc) == rmod(
                g1v * poly_eval(pv, t),
            ));
            assert(exists|pw: Seq<int>|
                #![trigger pw.len()]
                pw.len() <= self.domain_size() && (forall|j: int|
                    0 <= j < self.domain_size() ==> rmod(
                        poly_eval(pw, #[trigger] pview(self.domain@)[j]),
                    ) == rmod(pview(vector@)[j])) && g1_val(acc) == rmod(
                    g1_val(self.kzg.g1) * poly_eval(pw, self.kzg.tau@),
                ));
        }
        Ok(acc)
    }

    /// The domain points that an index list selects.
    pub open spec fn sub_domain(self, indices: Seq<usize>) -> Seq<int> {
        Seq::new(indices.len(), |i: int| pview(self.domain@)[indices[i] as int])
    }

    /// Whether an index list has a repeated entry.
    pub open spec fn has_duplicate(indices: Seq<usize>) -> bool {
        exists|i: int, j: int|
            #![trigger indices[i], indices[j]]
            0 <= i < j < indices.len() && indices[i] == indices[j]
    }

    /// The index set is usable: nonempty, within the CRS bound, free
    /// of duplicates, and inside the domain.
    pub open spec fn good_index_set(self, indices: Seq<usize>) -> bool {
        &&& 1 <= indices.len() <= self.kzg.degree
        &&& !Self::has_duplicate(indices)
        &&& (forall|i: int| 0 <= i < indices.len() ==> #[trigger] indices[i] < self.domain_size())
    }

    /// A single proof that the committed vector holds the given
    /// values at a set of positions: the commitment to
    /// `(P - I_S) / Z_S`, where `P` interpolates the whole vector,
    /// `I_S` the queried positions, and `Z_S` vanishes on them.
    /// Rejects exactly the wrong vector length (`DimensionMismatch`)
    /// and an empty, oversized, duplicated or out-of-range index set
    /// (`InvalidIndexSet`); on good inputs it fails, with
    /// `DivisionByZero`, exactly when a Lagrange denominator of the
    /// domain or of the selected sub-domain degenerates.
    pub fn prove_position(&self, indices: &Vec<usize>, vector: &Vec<Scalar>) -> (r: Result<
        G1Point,
        Error,
    >)
        requires
            self.wf(),
        ensures
            r == Result::<G1Point, Error>::Err(Error::DimensionMismatch) <==> vector@.len()
                != self.domain_size(),
            vector@.len() == self.domain_size() ==> (r == Result::<G1Point, Error>::Err(
                Error::InvalidIndexSet,
            ) <==> !self.good_index_set(indices@)),
            vector@.len() == self.domain_size() && self.good_index_set(indices@) ==> (r is Err
                <==> ((exists|i: int|
                0 <= i < self.domain_size() && rmod(
                    #[trigger] lag_denom(pview(self.domain@), i),
                ) == 0) || (exists|i: int|
                0 <= i < indices@.len() && rmod(
                    #[trigger] lag_denom(self.sub_domain(indices@), i),
                ) == 0))),
            vector@.len() == self.domain_size() && self.good_index_set(indices@) && r is Err
                ==> r == Result::<G1Point, Error>::Err(Error::DivisionByZero),
            r matches Ok(pi) ==> g1_in(pi) && exists|
                fv: Seq<int>,
                iv: Seq<int>,
                qv: Seq<int>,
                rv: Seq<int>,
            |
                #![trigger fv.len(), iv.len(), qv.len(), rv.len()]
                fv.len() == self.domain_size() && (forall|j: int|
                    0 <= j < self.domain_size() ==> rmod(
                        poly_eval(fv, #[trigger] pview(self.domain@)[j]),
                    ) == rmod(pview(vector@)[j])) && iv.len() == indices@.len() && (forall|j: int|
                    0 <= j < indices@.len() ==> rmod(
                        poly_eval(iv, #[trigger] self.sub_domain(indices@)[j]),
                    ) == rmod(pview(vector@)[indices@[j] as int])) && rv.len() <= indices@.len()
                    && (forall|x: int|
                    rmod(poly_eval(fv, x) - poly_eval(iv, x)) == rmod(
                        poly_eval(qv, x) * #[trigger] vanish_eval(self.sub_domain(indices@), x)
                            + poly_eval(rv, x),
                    )) && g1_val(pi) == rmod(g1_val(self.kzg.g1) * poly_eval(qv, self.kzg.tau@)),
    {
        if vector.len() != self.domain.len() {
            return Err(Error::DimensionMismatch);
        }
        if indices.len() == 0 || indices.len() > self.kzg.degree {
            return Err(Error::InvalidIndexSet);
        }
        // every index must name a domain position, exactly once
        let mut i: usize = 0;
        while i < indices.len()
            invariant
                0 <= i <= indices@.len(),
                vector@.len() == self.domain_size(),
                1 <= indices@.len() <= self.kzg.degree,
                forall|a: int| 0 <= a < i ==> #[trigger] indices@[a] < self.domain_size(),
                forall|a: int, b: int| 0 <= a < b < i ==> indices@[a] != indices@[b],
                self.wf(),
            decreases indices@.len() - i,
        {
            if indices[i] >= self.domain.len() {
                return Err(Error::InvalidIndexSet);
            }
            let mut j: usize = 0;
            while j < i
                invariant
                    0 <= j <= i < indices@.len(),
                    vector@.len() == self.domain_size(),
                    1 <= indices@.len() <= self.kzg.degree,
                    forall|b: int| 0 <= b < j ==> indices@[b] != indices@[i as int],
                decreases i - j,
            {
                if indices[j] == indices[i] {
                    return Err(Error::InvalidIndexSet);
                }
                j += 1;
            }
            i += 1;
        }

        // the queried sub-domain and sub-vector
        let mut points: Vec<Scalar> = Vec::new();
        let mut values: Vec<Scalar> = Vec::new();
        let mut i: usize = 0;
        while i < indices.len()
            invariant
                0 <= i <= indices@.len(),
                points@.len() == i,
                values@.len() == i,
                vector@.len() == self.domain_size(),
                1 <= indices@.len() <= self.kzg.degree,
                forall|a: int| 0 <= a < indices@.len() ==> #[trigger] indices@[a]
                    < self.domain_size(),
                forall|a: int| 0 <= a < i ==> #[trigger] points@[a] == self.domain@[indices@[a]
                    as int],
                forall|a: int| 0 <= a < i ==> #[trigger] values@[a] == vector@[indices@[a]
                    as int],
                self.wf(),
            decreases indices@.len() - i,
        {
            points.push(self.domain[indices[i]]);
            values.push(vector[indices[i]]);
            i += 1;
        }
        proof {
            assert(pview(points@) =~= self.sub_domain(indices@));
        }

        // interpolate the whole vector and the queried positions
        let full = match crate::poly::interpolate(&self.domain, vector) {
            Ok(p) => p,
            Err(_) => {
                return Err(Error::DivisionByZero);
            },
        };
        let sub = match crate::poly::interpolate(&points, &values) {
            Ok(p) => p,
            Err(_) => {
                return Err(Error::DivisionByZero);
            },
        };
        let neg_one = crate::field::fr_neg(fr_one());
        let neg_sub = crate::poly::scalar_mul(&sub, neg_one);
        let numerator = crate::poly::add(&full, &neg_sub);
        let z = vanishing(&points);
        let quotient = match crate::poly::div(&numerator, &z) {
            Ok(q) => q,
            Err(_) => {
                proof {
                    assert(rmod(coeff(pview(z@), z@.len() - 1)) != 0);
                    assert(false);
                }
                return Err(Error::DivisionByZero);
            },
        };
        let pi = g1_lincomb(&self.kzg.crs_g1, &quotient, self.kzg.g1, Ghost(self.kzg.tau@));
        proof {
            let fv = pview(full@);
            let iv = pview(sub@);
            let qv = pview(quotient@);
            let nv = pview(numerator@);
            let zv = pview(z@);
            let sd = self.sub_domain(indices@);
            let t = self.kzg.tau@;
            // the sub-interpolation agrees with the vector entries
            assert forall|j: int| 0 <= j < indices@.len() implies rmod(
                poly_eval(iv, #[trigger] sd[j]),
            ) == rmod(pview(vector@)[indices@[j] as int]) by {
                assert(rmod(poly_eval(iv, pview(points@)[j])) == rmod(pview(values@)[j]));
                assert(values@[j] == vector@[indices@[j] as int]);
            }
            // the numerator stands for full - sub at every point
            assert forall|x: int| rmod(#[trigger] poly_eval(nv, x)) == rmod(
                poly_eval(fv, x) - poly_eval(iv, x),
            ) by {
                let sc = poly_scale_s(fr_val(neg_one), iv);
                assert(poly_cong(pview(neg_sub@), sc)) by {
                    assert forall|k: int|
                        rmod(#[trigger] coeff(pview(neg_sub@), k)) == rmod(coeff(sc, k)) by {
                        if 0 <= k < iv.len() {
                            assert(coeff(pview(neg_sub@), k) == rmod(iv[k] * fr_val(neg_one)));
                            assert(coeff(sc, k) == fr_val(neg_one) * iv[k]);
                            assert(iv[k] * fr_val(neg_one) == fr_val(neg_one) * iv[k])
                                by (nonlinear_arith);
                            vstd::arithmetic::div_mod::lemma_mod_twice(
                                fr_val(neg_one) * iv[k],
                                fr_order(),
                            );
                        }
                    }
                }
                assert(poly_cong(nv, poly_add_s(fv, pview(neg_sub@)))) by {
                    assert forall|k: int|
                        rmod(#[trigger] coeff(nv, k)) == rmod(
                        coeff(poly_add_s(fv, pview(neg_sub@)), k),
                    ) by {
                        lemma_add_coeff(fv, pview(neg_sub@), k);
                        if 0 <= k < nv.len() {
                            vstd::arithmetic::div_mod::lemma_mod_twice(
                                coeff(fv, k) + coeff(pview(neg_sub@), k),
                                fr_order(),
                            );
                        }
                    }
                }
                lemma_eval_cong(nv, poly_add_s(fv, pview(neg_sub@)), x);
                lemma_eval_add(fv, pview(neg_sub@), x);
                lemma_eval_cong(pview(neg_sub@), sc, x);
                lemma_eval_scale(fr_val(neg_one), iv, x);
                assert(fr_val(neg_one) == rmod(-1));
                lemma_rmod_mul_r(poly_eval(iv, x), -1);
                assert(rmod(fr_val(neg_one) * poly_eval(iv, x)) == rmod(
                    poly_eval(iv, x) * rmod(-1),
                )) by {
                    assert(fr_val(neg_one) * poly_eval(iv, x) == poly_eval(iv, x) * fr_val(
                        neg_one,
                    )) by (nonlinear_arith);
                    vstd::arithmetic::div_mod::lemma_mod_twice(-1, fr_order());
                    lemma_rmod_mul_cong(
                        poly_eval(iv, x),
                        poly_eval(iv, x),
                        fr_val(neg_one),
                        rmod(-1),
                    );
                }
                assert(poly_eval(iv, x) * -1 == -poly_eval(iv, x)) by (nonlinear_arith);
                lemma_rmod_add_cong(
                    poly_eval(fv, x),
                    poly_eval(fv, x),
                    poly_eval(pview(neg_sub@), x),
                    -poly_eval(iv, x),
                );
            }
            // the division identity, evaluated everywhere
            assert(crate::poly::trimmed_len(zv) == zv.len()) by {
                assert(rmod(zv.last()) != 0);
            }
            let rv = choose|rv: Seq<int>|
                #![trigger rv.len()]
                rv.len() < crate::poly::trimmed_len(zv) && poly_cong(
                    nv,
                    poly_add_s(poly_mul_s(qv, zv), rv),
                );
            assert forall|x: int|
                rmod(poly_eval(fv, x) - poly_eval(iv, x)) == rmod(
                    poly_eval(qv, x) * #[trigger] vanish_eval(sd, x) + poly_eval(rv, x),
                ) by {
                lemma_eval_cong(nv, poly_add_s(poly_mul_s(qv, zv), rv), x);
                lemma_eval_add(poly_mul_s(qv, zv), rv, x);
                lemma_eval_mul(qv, zv, x);
                assert(rmod(poly_eval(zv, x)) == rmod(vanish_eval(sd, x)));
                lemma_rmod_mul_r(poly_eval(qv, x), poly_eval(zv, x));
                lemma_rmod_mul_cong(
                    poly_eval(qv, x),
                    poly_eval(qv, x),
                    rmod(poly_eval(zv, x)),
                    rmod(vanish_eval(sd, x)),
                );
                lemma_rmod_mul_r(poly_eval(qv, x), vanish_eval(sd, x));
                lemma_rmod_add_cong(
                    poly_eval(qv, x) * poly_eval(zv, x),
                    poly_eval(qv, x) * vanish_eval(sd, x),
                    poly_eval(rv, x),
                    poly_eval(rv, x),
                );
            }
            assert(fv.len() == self.domain_size() && (forall|j: int|
                0 <= j < self.domain_size() ==> rmod(
                    poly_eval(fv, #[trigger] pview(self.domain@)[j]),
                ) == rmod(pview(vector@)[j])) && iv.len() == indices@.len() && (forall|j: int|
                0 <= j < indices@.len() ==> rmod(poly_eval(iv, #[trigger] sd[j])) == rmod(
                    pview(vector@)[indices@[j] as int],
                )) && rv.len() <= indices@.len() && (forall|x: int|
                rmod(poly_eval(fv, x) - poly_eval(iv, x)) == rmod(
                    poly_eval(qv, x) * #[trigger] vanish_eval(sd, x) + poly_eval(rv, x),
                )) && g1_val(pi) == rmod(g1_val(self.kzg.g1) * poly_eval(qv, t)));
        }
        Ok(pi)
    }

    /// Check a position proof: reconstruct the interpolation of the
    /// claimed values over the queried sub-domain, the sub-domain's
    /// vanishing polynomial, commit both with the public CRS, and
    /// test `e(commitment - Commit(I_S), g2) == e(proof,
    /// Commit_g2(Z_S))`.  Rejects exactly a subvector whose length
    /// differs from the index count (`DimensionMismatch`) and an
    /// empty, oversized, duplicated or out-of-range index set
    /// (`InvalidIndexSet`); on good inputs it fails, with
    /// `DivisionByZero`, exactly when a Lagrange denominator of the
    /// selected sub-domain degenerates.
    pub fn verify_position(
        &self,
        commitment: G1Point,
        indices: &Vec<usize>,
        subvector: &Vec<Scalar>,
        proof: G1Point,
    ) -> (r: Result<bool, Error>)
        requires
            self.wf(),
            g1_in(commitment),
            g1_in(proof),
        ensures
            r == Result::<bool, Error>::Err(Error::DimensionMismatch) <==> subvector@.len()
                != indices@.len(),
            subvector@.len() == indices@.len() ==> (r == Result::<bool, Error>::Err(
                Error::InvalidIndexSet,
            ) <==> !self.good_index_set(indices@)),
            subvector@.len() == indices@.len() && self.good_index_set(indices@) ==> (r is Err
                <==> exists|i: int|
                0 <= i < indices@.len() && rmod(
                    #[trigger] lag_denom(self.sub_domain(indices@), i),
                ) == 0),
            subvector@.len() == indices@.len() && self.good_index_set(indices@) && r is Err
                ==> r == Result::<bool, Error>::Err(Error::DivisionByZero),
            r matches Ok(b) ==> exists|iv: Seq<int>|
                #![trigger iv.len()]
                iv.len() == indices@.len() && (forall|j: int|
                    0 <= j < indices@.len() ==> rmod(
                        poly_eval(iv, #[trigger] self.sub_domain(indices@)[j]),
                    ) == rmod(pview(subvector@)[j])) && (b <==> rmod(
                    (g1_val(commitment) - g1_val(self.kzg.g1) * poly_eval(iv, self.kzg.tau@))
                        * g2_val(self.kzg.g2),
                ) == rmod(
                    g1_val(proof) * (g2_val(self.kzg.g2) * vanish_eval(
                        self.sub_domain(indices@),
                        self.kzg.tau@,
                    )),
                )),
    {
        if subvector.len() != indices.len() {
            return Err(Error::DimensionMismatch);
        }
        if indices.len() == 0 || indices.len() > self.kzg.degree {
            return Err(Error::InvalidIndexSet);
        }
        let mut i: usize = 0;
        while i < indices.len()
            invariant
                0 <= i <= indices@.len(),
                subvector@.len() == indices@.len(),
                1 <= indices@.len() <= self.kzg.degree,
                forall|a: int| 0 <= a < i ==> #[trigger] indices@[a] < self.domain_size(),
                forall|a: int, b: int| 0 <= a < b < i ==> indices@[a] != indices@[b],
                self.wf(),
            decreases indices@.len() - i,
        {
            if indices[i] >= self.domain.len() {
                return Err(Error::InvalidIndexSet);
            }
            let mut j: usize = 0;
            while j < i
                invariant
                    0 <= j <= i < indices@.len(),
                    subvector@.len() == indices@.len(),
                    1 <= indices@.len() <= self.kzg.degree,
                    forall|b: int| 0 <= b < j ==> indices@[b] != indices@[i as int],
                decreases i - j,
            {
                if indices[j] == indices[i] {
                    return Err(Error::InvalidIndexSet);
                }
                j += 1;
            }
            i += 1;
        }

        let mut points: Vec<Scalar> = Vec::new();
        let mut i: usize = 0;
        while i < indices.len()
            invariant
                0 <= i <= indices@.len(),
                points@.len() == i,
                subvector@.len() == indices@.len(),
                1 <= indices@.len() <= self.kzg.degree,
                forall|a: int| 0 <= a < indices@.len() ==> #[trigger] indices@[a]
                    < self.domain_size(),
                forall|a: int| 0 <= a < i ==> #[trigger] points@[a] == self.domain@[indices@[a]
                    as int],
                self.wf(),
            decreases indices@.len() - i,
        {
            points.push(self.domain[indices[i]]);
            i += 1;
        }
        proof {
            assert(pview(points@) =~= self.sub_domain(indices@));
        }

        let sub = match crate::poly::interpolate(&points, subvector) {
            Ok(p) => p,
            Err(_) => {
                return Err(Error::DivisionByZero);
            },
        };
        let c_sub = g1_lincomb(&self.kzg.crs_g1, &sub, self.kzg.g1, Ghost(
            self.kzg.tau@,
        ));
        let z = vanishing(&points);
        let c_z = g2_lincomb(&self.kzg.crs_g2, &z, self.kzg.g2, Ghost(self.kzg.tau@));
        let lhs = g1_sub(commitment, c_sub);
        let b = pairing_eq(lhs, self.kzg.g2, proof, c_z);
        proof {
            let iv = pview(sub@);
            let t = self.kzg.tau@;
            let c = g1_val(commitment);
            let g1v = g1_val(self.kzg.g1);
            let g2v = g2_val(self.kzg.g2);
            let piv = g1_val(proof);
            let ei = poly_eval(iv, t);
            let ez = poly_eval(pview(z@), t);
            let ve = vanish_eval(self.sub_domain(indices@), t);
            crate::modular::lemma_rmod_sub_r(c, g1v * ei);
            vstd::arithmetic::div_mod::lemma_mod_twice(c - g1v * ei, crate::modular::fr_order());
            crate::modular::lemma_rmod_mul_cong(g1_val(lhs), c - g1v * ei, g2v, g2v);
            crate::modular::lemma_rmod_mul_cong(g2v, g2v, ez, ve);
            crate::modular::lemma_rmod_mul_r(piv, g2v * ve);
            assert(g2_val(c_z) == rmod(g2v * ve));
            crate::modular::lemma_rmod_mul_cong(piv, piv, g2_val(c_z), g2v * ve);
            assert(iv.len() == indices@.len() && (forall|j: int|
                0 <= j < indices@.len() ==> rmod(
                    poly_eval(iv, #[trigger] self.sub_domain(indices@)[j]),
                ) == rmod(pview(subvector@)[j])) && (b <==> rmod((c - g1v * ei) * g2v) == rmod(
                piv * (g2v * ve),
            )));
        }
        Ok(b)
    }
}


/// Completeness of position proofs: for any committed vector, any
/// index subset whose domain points have pairwise invertible
/// differences (as the whole domain does), an honest vector
/// commitment, the true subvector and an honest position proof always
/// pass the pairing check.  The hypotheses are exactly what
/// `vector_commit`, `prove_position` and `verify_position` ensure of
/// their results and witnesses; `wd` and `ws` carry the inverses of
/// the pairwise differences of the domain and of the selected
/// sub-domain.
pub proof fn lemma_position_proof_verifies(
    v: Seq<int>,
    dom: Seq<int>,
    sd: Seq<int>,
    tau: int,
    g1: int,
    g2: int,
    c: int,
    pi: int,
    pv: Seq<int>,
    fv: Seq<int>,
    iv: Seq<int>,
    qv: Seq<int>,
    rv: Seq<int>,
    iv2: Seq<int>,
    b: bool,
    wd: spec_fn(int, int) -> int,
    ws: spec_fn(int, int) -> int,
)
    requires
        pv.len() <= dom.len(),
        forall|j: int|
            0 <= j < dom.len() ==> rmod(poly_eval(pv, #[trigger] dom[j])) == rmod(v[j]),
        c == rmod(g1 * poly_eval(pv, tau)),
        fv.len() <= dom.len(),
        forall|j: int|
            0 <= j < dom.len() ==> rmod(poly_eval(fv, #[trigger] dom[j])) == rmod(v[j]),
        iv.len() == sd.len(),
        forall|j: int|
            0 <= j < sd.len() ==> rmod(poly_eval(iv, #[trigger] sd[j])) == rmod(
                poly_eval(fv, sd[j]),
            ),
        rv.len() <= sd.len(),
        forall|x: int|
            rmod(poly_eval(fv, x) - poly_eval(iv, x)) == rmod(
                poly_eval(qv, x) * #[trigger] vanish_eval(sd, x) + poly_eval(rv, x),
            ),
        pi == rmod(g1 * poly_eval(qv, tau)),
        iv2.len() == sd.len(),
        forall|j: int|
            0 <= j < sd.len() ==> rmod(poly_eval(iv2, #[trigger] sd[j])) == rmod(
                poly_eval(fv, sd[j]),
            ),
        b <==> rmod((c - g1 * poly_eval(iv2, tau)) * g2) == rmod(
            pi * (g2 * vanish_eval(sd, tau)),
        ),
        pairwise_invertible(dom, wd),
        pairwise_invertible(sd, ws),
    ensures
        b,
{
    // the committed polynomial and the prover's full interpolation
    // agree on the whole domain, hence at the trapdoor
    let d0 = poly_add_s(fv, poly_scale_s(-1, pv));
    assert forall|j: int| 0 <= j < dom.len() implies rmod(
        poly_eval(d0, #[trigger] dom[j]),
    ) == 0 by {
        lemma_eval_add(fv, poly_scale_s(-1, pv), dom[j]);
        lemma_eval_scale(-1, pv, dom[j]);
        assert(-1 * poly_eval(pv, dom[j]) == -poly_eval(pv, dom[j])) by (nonlinear_arith);
        assert(poly_eval(d0, dom[j]) == poly_eval(fv, dom[j]) - poly_eval(pv, dom[j]));
        lemma_rmod_sub_cong(
            poly_eval(fv, dom[j]),
            v[j],
            poly_eval(pv, dom[j]),
            v[j],
        );
        assert(rmod(v[j] - v[j]) == 0) by {
            assert(v[j] - v[j] == 0);
        }
    }
    assert(d0.len() <= dom.len());
    lemma_roots_zero(d0, dom, wd);
    let eft = poly_eval(fv, tau);
    let ept = poly_eval(pv, tau);
    assert(c == rmod(g1 * eft)) by {
        lemma_eval_add(fv, poly_scale_s(-1, pv), tau);
        lemma_eval_scale(-1, pv, tau);
        assert(-1 * ept == -ept) by (nonlinear_arith);
        assert(poly_eval(d0, tau) == eft - ept);
        assert(rmod(eft - ept) == 0);
        vstd::arithmetic::div_mod::lemma_mod_equivalence(eft, ept, fr_order());
        lemma_rmod_mul_cong(g1, g1, ept, eft);
    }
    crate::kzg::lemma_multi_open_verifies(
        fv,
        sd,
        tau,
        g1,
        g2,
        c,
        pi,
        iv,
        qv,
        rv,
        iv2,
        b,
        ws,
    );
}


/// Exactness of the position check: with an honest vector commitment
/// and position proof, the verifier accepts a claimed subvector
/// exactly when its interpolation agrees at the trapdoor with the
/// honest sub-domain interpolation.  True values always agree
/// (completeness above); wrong ones are rejected unless the trapdoor
/// is a root of the two interpolations' difference.
pub proof fn lemma_position_check_exact(
    v: Seq<int>,
    dom: Seq<int>,
    sd: Seq<int>,
    tau: int,
    g1: int,
    g2: int,
    c: int,
    pi: int,
    pv: Seq<int>,
    fv: Seq<int>,
    iv: Seq<int>,
    qv: Seq<int>,
    rv: Seq<int>,
    cv2: Seq<int>,
    b: bool,
    wd: spec_fn(int, int) -> int,
    ws: spec_fn(int, int) -> int,
    w1: int,
    w2: int,
)
    requires
        pv.len() <= dom.len(),
        forall|j: int|
            0 <= j < dom.len() ==> rmod(poly_eval(pv, #[trigger] dom[j])) == rmod(v[j]),
        c == rmod(g1 * poly_eval(pv, tau)),
        fv.len() <= dom.len(),
        forall|j: int|
            0 <= j < dom.len() ==> rmod(poly_eval(fv, #[trigger] dom[j])) == rmod(v[j]),
        iv.len() == sd.len(),
        forall|j: int|
            0 <= j < sd.len() ==> rmod(poly_eval(iv, #[trigger] sd[j])) == rmod(
                poly_eval(fv, sd[j]),
            ),
        rv.len() <= sd.len(),
        forall|x: int|
            rmod(poly_eval(fv, x) - poly_eval(iv, x)) == rmod(
                poly_eval(qv, x) * #[trigger] vanish_eval(sd, x) + poly_eval(rv, x),
            ),
        pi == rmod(g1 * poly_eval(qv, tau)),
        b <==> rmod((c - g1 * poly_eval(cv2, tau)) * g2) == rmod(
            pi * (g2 * vanish_eval(sd, tau)),
        ),
        pairwise_invertible(dom, wd),
        pairwise_invertible(sd, ws),
        rmod(g1 * w1) == 1,
        rmod(g2 * w2) == 1,
    ensures
        b <==> rmod(poly_eval(cv2, tau)) == rmod(poly_eval(iv, tau)),
{
    // align the committed polynomial with the prover's full
    // interpolation at the trapdoor, as in the completeness proof
    let d0 = poly_add_s(fv, poly_scale_s(-1, pv));
    assert forall|j: int| 0 <= j < dom.len() implies rmod(
        poly_eval(d0, #[trigger] dom[j]),
    ) == 0 by {
        lemma_eval_add(fv, poly_scale_s(-1, pv), dom[j]);
        lemma_eval_scale(-1, pv, dom[j]);
        assert(-1 * poly_eval(pv, dom[j]) == -poly_eval(pv, dom[j])) by (nonlinear_arith);
        assert(poly_eval(d0, dom[j]) == poly_eval(fv, dom[j]) - poly_eval(pv, dom[j]));
        lemma_rmod_sub_cong(poly_eval(fv, dom[j]), v[j], poly_eval(pv, dom[j]), v[j]);
        assert(rmod(v[j] - v[j]) == 0) by {
            assert(v[j] - v[j] == 0);
        }
    }
    assert(d0.len() <= dom.len());
    lemma_roots_zero(d0, dom, wd);
    let eft = poly_eval(fv, tau);
    let ept = poly_eval(pv, tau);
    assert(c == rmod(g1 * eft)) by {
        lemma_eval_add(fv, poly_scale_s(-1, pv), tau);
        lemma_eval_scale(-1, pv, tau);
        assert(-1 * ept == -ept) by (nonlinear_arith);
        assert(poly_eval(d0, tau) == eft - ept);
        assert(rmod(eft - ept) == 0);
        vstd::arithmetic::div_mod::lemma_mod_equivalence(eft, ept, fr_order());
        lemma_rmod_mul_cong(g1, g1, ept, eft);
    }
    crate::kzg::lemma_multi_verify_exact(
        fv,
        sd,
        tau,
        g1,
        g2,
        c,
        pi,
        iv,
        qv,
        rv,
        cv2,
        b,
        ws,
        w1,
        w2,
    );
}

} // verus!


