use ark_bls12_381::{Fr, G1Projective as G1, G2Projective as G2};
use ark_ec::PrimeGroup;
use ark_std::UniformRand;

use kzg::asvc::ASVC;
use kzg::field::{scalar_from_u64, Scalar};
use kzg::group::{G1Point, G2Point};
use kzg::kzg::KZG;
use kzg::poly::{evaluate, get_omega, interpolate};
use kzg::Error;

fn s(n: u64) -> Scalar {
    scalar_from_u64(n)
}

fn poly_u64(cs: &[u64]) -> Vec<Scalar> {
    cs.iter().map(|&c| s(c)).collect()
}

/// The concrete scenario: degree 2, secret 5, curve base points,
/// p = 1 + 2x + 3x^2, so commit(p) = g1 * 86 and p(2) = 17.
#[test]
fn test_concrete_scenario() {
    let g1 = G1Point { inner: G1::generator() };
    let g2 = G2Point { inner: G2::generator() };
    let mut kzg_instance = KZG::new(g1, g2, 2);
    kzg_instance.setup(s(5));

    let poly = poly_u64(&[1, 2, 3]);
    let commitment = kzg_instance.commit(&poly).unwrap();
    assert_eq!(commitment.inner, G1::generator() * Fr::from(86u64));

    let value = evaluate(&poly, s(2));
    assert_eq!(value.inner, Fr::from(17u64));

    let proof = kzg_instance.open(&poly, s(2)).unwrap();
    assert!(kzg_instance.verify(s(2), s(17), commitment, proof));
    assert!(!kzg_instance.verify(s(2), s(18), commitment, proof));
}

/// Tampering any single claimed value makes multi-point verification
/// reject.
#[test]
fn test_multi_evaluation_tamper() {
    let mut rng = ark_std::test_rng();
    let degree = 8;
    let mut kzg_instance = KZG::new(
        G1Point { inner: G1::rand(&mut rng) },
        G2Point { inner: G2::rand(&mut rng) },
        degree,
    );
    kzg_instance.setup(Scalar { inner: Fr::rand(&mut rng) });

    let poly: Vec<Scalar> = (0..degree + 1)
        .map(|_| Scalar { inner: Fr::rand(&mut rng) })
        .collect();
    let commitment = kzg_instance.commit(&poly).unwrap();
    let points: Vec<Scalar> = (0..3).map(|_| Scalar { inner: Fr::rand(&mut rng) }).collect();
    let proof = kzg_instance.multi_open(&poly, &points).unwrap();

    let mut values: Vec<Scalar> = points.iter().map(|p| evaluate(&poly, *p)).collect();
    assert!(kzg_instance.verify_multi(&points, &values, commitment, proof).unwrap());

    // flip one claimed value
    values[1] = Scalar { inner: values[1].inner + Fr::from(1u64) };
    assert!(!kzg_instance.verify_multi(&points, &values, commitment, proof).unwrap());
}

/// commit is additive-homomorphic on equal-length polynomials.
#[test]
fn test_commit_homomorphic() {
    let mut rng = ark_std::test_rng();
    let degree = 6;
    let mut kzg_instance = KZG::new(
        G1Point { inner: G1::rand(&mut rng) },
        G2Point { inner: G2::rand(&mut rng) },
        degree,
    );
    kzg_instance.setup(Scalar { inner: Fr::rand(&mut rng) });

    let p1: Vec<Scalar> = (0..degree + 1)
        .map(|_| Scalar { inner: Fr::rand(&mut rng) })
        .collect();
    let p2: Vec<Scalar> = (0..degree + 1)
        .map(|_| Scalar { inner: Fr::rand(&mut rng) })
        .collect();
    let sum = kzg::poly::add(&p1, &p2);

    let c1 = kzg_instance.commit(&p1).unwrap();
    let c2 = kzg_instance.commit(&p2).unwrap();
    let cs = kzg_instance.commit(&sum).unwrap();
    assert_eq!(cs.inner, c1.inner + c2.inner);
}

/// Exact division round trip: div(mul(q, d), d) == q, and division by
/// an empty or zero divisor fails.
#[test]
fn test_div_mul_roundtrip() {
    let q = poly_u64(&[3, 1, 4, 1, 5]);
    let d = poly_u64(&[2, 7, 1]);
    let prod = kzg::poly::mul(&q, &d);
    let q2 = kzg::poly::div(&prod, &d).unwrap();
    assert_eq!(q2.len(), q.len());
    for i in 0..q.len() {
        assert_eq!(q2[i].inner, q[i].inner);
    }

    let empty: Vec<Scalar> = Vec::new();
    assert!(matches!(kzg::poly::div(&prod, &empty), Err(Error::DivisionByZero)));
    let zeros = poly_u64(&[0, 0, 0]);
    assert!(matches!(kzg::poly::div(&prod, &zeros), Err(Error::DivisionByZero)));

    // trailing zero coefficients on the divisor are padding, not a
    // different polynomial: the same quotient comes back
    let padded = poly_u64(&[2, 7, 1, 0]);
    let q3 = kzg::poly::div(&prod, &padded).unwrap();
    assert_eq!(q3.len(), q.len());
    for i in 0..q.len() {
        assert_eq!(q3[i].inner, q[i].inner);
    }
}

/// Interpolation reproduces every given value, and rejects duplicate
/// points.
#[test]
fn test_interpolate_roundtrip() {
    let points = poly_u64(&[1, 2, 3, 10, 111]);
    let values = poly_u64(&[5, 0, 42, 7, 9]);
    let p = interpolate(&points, &values).unwrap();
    assert_eq!(p.len(), points.len());
    for i in 0..points.len() {
        assert_eq!(evaluate(&p, points[i]).inner, values[i].inner);
    }

    let dup_points = poly_u64(&[1, 2, 1]);
    let dup_values = poly_u64(&[5, 6, 7]);
    assert!(matches!(interpolate(&dup_points, &dup_values), Err(Error::DivisionByZero)));
}

/// The derived root of unity has exactly the padded power-of-two
/// order.
#[test]
fn test_get_omega_order() {
    let coeffs = poly_u64(&[1, 2, 3, 4, 5]);
    // five coefficients pad up to eight
    let omega = get_omega(&coeffs).inner;
    let mut acc = Fr::from(1u64);
    for _ in 0..4 {
        acc *= omega;
    }
    assert_ne!(acc, Fr::from(1u64));
    acc *= omega;
    acc *= omega;
    acc *= omega;
    acc *= omega;
    assert_eq!(acc, Fr::from(1u64));
}

/// Scalar and vector arithmetic helpers behave as stated.
#[test]
fn test_poly_arithmetic() {
    let p1 = poly_u64(&[1, 2]);
    let p2 = poly_u64(&[10, 0, 7]);
    let sum = kzg::poly::add(&p1, &p2);
    assert_eq!(sum.len(), 3);
    assert_eq!(sum[0].inner, Fr::from(11u64));
    assert_eq!(sum[1].inner, Fr::from(2u64));
    assert_eq!(sum[2].inner, Fr::from(7u64));

    let prod = kzg::poly::mul(&p1, &p2);
    // (1 + 2x)(10 + 7x^2) = 10 + 20x + 7x^2 + 14x^3
    assert_eq!(prod.len(), 4);
    assert_eq!(prod[0].inner, Fr::from(10u64));
    assert_eq!(prod[1].inner, Fr::from(20u64));
    assert_eq!(prod[2].inner, Fr::from(7u64));
    assert_eq!(prod[3].inner, Fr::from(14u64));

    let scaled = kzg::poly::scalar_mul(&p2, s(3));
    assert_eq!(scaled[0].inner, Fr::from(30u64));
    assert_eq!(scaled[1].inner, Fr::from(0u64));
    assert_eq!(scaled[2].inner, Fr::from(21u64));

    // evaluate 1 + 2x + 3x^2 at 5: 86
    assert_eq!(evaluate(&poly_u64(&[1, 2, 3]), s(5)).inner, Fr::from(86u64));
    // the empty polynomial evaluates to zero
    assert_eq!(evaluate(&Vec::new(), s(9)).inner, Fr::from(0u64));
}

/// Every reportable precondition failure surfaces as its own error.
#[test]
fn test_error_conditions() {
    let mut rng = ark_std::test_rng();
    let degree = 4;
    let g1 = G1Point { inner: G1::rand(&mut rng) };
    let g2 = G2Point { inner: G2::rand(&mut rng) };

    // commit/open before setup
    let fresh = KZG::new(g1, g2, degree);
    let poly = poly_u64(&[1, 2, 3, 4, 5]);
    assert!(matches!(fresh.commit(&poly), Err(Error::UninitializedCRS)));
    assert!(matches!(fresh.open(&poly, s(1)), Err(Error::UninitializedCRS)));

    // wrong polynomial length
    let mut ready = KZG::new(g1, g2, degree);
    ready.setup(Scalar { inner: Fr::rand(&mut rng) });
    let short = poly_u64(&[1, 2]);
    assert!(matches!(ready.commit(&short), Err(Error::DimensionMismatch)));
    assert!(matches!(ready.open(&short, s(1)), Err(Error::DimensionMismatch)));

    // ASVC index-set errors
    let asvc = ASVC::key_gen(g1, g2, 8, Scalar { inner: Fr::rand(&mut rng) }).unwrap();
    let vector = poly_u64(&[1, 2, 3, 4, 5, 6, 7, 8]);
    let commitment = asvc.vector_commit(&vector).unwrap();

    let wrong_len = poly_u64(&[1, 2, 3]);
    assert!(matches!(asvc.vector_commit(&wrong_len), Err(Error::DimensionMismatch)));

    assert!(matches!(asvc.prove_position(&Vec::new(), &vector), Err(Error::InvalidIndexSet)));
    assert!(matches!(asvc.prove_position(&vec![1, 1], &vector), Err(Error::InvalidIndexSet)));
    assert!(matches!(asvc.prove_position(&vec![99], &vector), Err(Error::InvalidIndexSet)));
    assert!(matches!(asvc.prove_position(&vec![1], &wrong_len), Err(Error::DimensionMismatch)));

    let pi = asvc.prove_position(&vec![2], &vector).unwrap();
    assert!(matches!(
        asvc.verify_position(commitment, &vec![2], &poly_u64(&[3, 4]), pi),
        Err(Error::DimensionMismatch)
    ));
    assert!(matches!(
        asvc.verify_position(commitment, &vec![2, 2], &poly_u64(&[3, 3]), pi),
        Err(Error::InvalidIndexSet)
    ));
    assert!(asvc.verify_position(commitment, &vec![2], &poly_u64(&[3]), pi).unwrap());
    assert!(!asvc.verify_position(commitment, &vec![2], &poly_u64(&[4]), pi).unwrap());
}

/// ASVC round trip on a concrete vector, with a wrong value rejected.
#[test]
fn test_asvc_roundtrip() {
    let mut rng = ark_std::test_rng();
    let asvc = ASVC::key_gen(
        G1Point { inner: G1::rand(&mut rng) },
        G2Point { inner: G2::rand(&mut rng) },
        4,
        Scalar { inner: Fr::rand(&mut rng) },
    )
    .unwrap();

    let vector = poly_u64(&[10, 20, 30, 40]);
    let commitment = asvc.vector_commit(&vector).unwrap();
    let indices: Vec<usize> = vec![0, 3];
    let subvector = poly_u64(&[10, 40]);
    let pi = asvc.prove_position(&indices, &vector).unwrap();
    assert!(asvc.verify_position(commitment, &indices, &subvector, pi).unwrap());

    let tampered = poly_u64(&[10, 41]);
    assert!(!asvc.verify_position(commitment, &indices, &tampered, pi).unwrap());
}
