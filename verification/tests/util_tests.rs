//! Tests of the small helpers, timing and polynomials.

use ark_bls12_381::Fr;
use ark_ff::{BigInt, PrimeField};
use ark_poly::univariate::SparsePolynomial as ArkSparsePoly;
use ark_poly::Polynomial;

use sum_check_simulation::bench::sumcheck::{simulate_instance, trials_per_dimension};
use sum_check_simulation::field::Fe;
use sum_check_simulation::poly::SparsePolynomial;
use sum_check_simulation::sumcheck::fast::FastProver;
use sum_check_simulation::sumcheck::naive::NaiveProver;
use sum_check_simulation::sumcheck::protocol::restrict_poly;
use sum_check_simulation::mle::DenseMultilinearExtension;
use sum_check_simulation::timing::{timed, AnalysisResult, Track};
use sum_check_simulation::util::{index_to_field_element, line_point, log2_pow2};

fn to_fr(x: &Fe) -> Fr {
    Fr::from_bigint(BigInt::new(x.to_canonical_limbs())).unwrap()
}

#[test]
fn index_to_field_element_matches_bit_decomposition() {
    for mask in 0..30 {
        let field_index: Vec<Fe> = index_to_field_element(mask, 30);
        let expected: Vec<Fe> =
            (0..30).map(|j| if (mask >> j) & 1 != 0 { Fe::one() } else { Fe::zero() }).collect();
        assert_eq!(field_index, expected);
    }
}

#[test]
fn line_point_hits_endpoints() {
    let size = 5;
    let b_star = vec![Fe::zero(); size];
    let c_star = vec![Fe::one(); size];
    assert_eq!(line_point(&b_star, &c_star, Fe::zero()), b_star);
    assert_eq!(line_point(&b_star, &c_star, Fe::one()), c_star);
}

// ---------------------------------------------------------------------------
// Further checks.
// ---------------------------------------------------------------------------

#[test]
fn line_point_at_two() {
    let b = vec![Fe::from_u64(1), Fe::from_u64(10)];
    let c = vec![Fe::from_u64(4), Fe::from_u64(7)];
    // b + 2 (c - b) = 2c - b
    assert_eq!(line_point(&b, &c, Fe::from_u64(2)), vec![Fe::from_u64(7), Fe::from_u64(4)]);
}

#[test]
fn log2_of_powers_of_two() {
    assert_eq!(log2_pow2(1), 0);
    assert_eq!(log2_pow2(2), 1);
    assert_eq!(log2_pow2(1024), 10);
    assert_eq!(log2_pow2(1 << 40), 40);
}

#[test]
fn track_accumulates_and_saturates() {
    let mut track = Track::new();
    track.add_prover_time(5);
    track.add_prover_time(7);
    track.add_verifier_time(3);
    assert_eq!(track.prover(), 12);
    assert_eq!(track.verifier_time(), 3);
    track.add_verifier_time(u128::MAX);
    assert_eq!(track.verifier_time(), u128::MAX);
    let other = Track::new_times(1, 2);
    assert_eq!((other.prover(), other.verifier_time()), (1, 2));
    let d = Track::default();
    assert_eq!((d.prover(), d.verifier_time()), (0, 0));
}

#[test]
fn analysis_result_keeps_layers_in_order() {
    let mut result = AnalysisResult::new();
    result.add_time_per_layer(Track::new_times(1, 2));
    result.add_time_per_layer(Track::new_times(3, 4));
    assert_eq!(result.len(), 2);
    assert_eq!(result.get_time_for_layer(1).prover(), 3);
    assert_eq!(result.get_time_for_layer(0).verifier_time(), 2);
    assert_eq!(AnalysisResult::default().len(), 0);
}

#[test]
fn timed_returns_the_result() {
    let (value, _nanos) = timed(|| 6 * 7);
    assert_eq!(value, 42);
}

#[test]
fn trials_per_dimension_matches_the_report() {
    let trials = trials_per_dimension();
    assert_eq!(trials.len(), 21);
    assert_eq!(&trials[..6], &[0; 6]);
    assert_eq!(&trials[6..11], &[300; 5]);
    assert_eq!(&trials[11..], &[30; 10]);
}

#[test]
fn simulate_instance_accepts_the_honest_run() {
    for dimension in 1..3 {
        let (_, accepted) = simulate_instance::<NaiveProver>(dimension);
        assert!(accepted);
        let (_, accepted) = simulate_instance::<FastProver>(dimension);
        assert!(accepted);
    }
}

#[test]
fn polynomial_evaluation_matches_arkworks() {
    let terms = vec![(0usize, Fe::from_u64(3)), (2, Fe::from_u64(5)), (3, Fe::zero())];
    let ours = SparsePolynomial::from_coefficients_vec(terms);
    assert_eq!(ours.degree(), 2);
    let theirs = ArkSparsePoly::from_coefficients_vec(vec![(0usize, Fr::from(3u64)), (2, Fr::from(5u64))]);
    for x in [0u64, 1, 2, 9] {
        assert_eq!(to_fr(&ours.evaluate(&Fe::from_u64(x))), theirs.evaluate(&Fr::from(x)));
    }
    // 3 + 5 x^2 at x = 2 is 23
    assert_eq!(ours.evaluate(&Fe::from_u64(2)), Fe::from_u64(23));
    assert_eq!(ours.coefficient_sum(), Fe::from_u64(8));
}

#[test]
fn polynomial_product_and_one_minus() {
    // (1 + 2x)(3 + x) = 3 + 7x + 2x^2
    let a = SparsePolynomial::from_coefficients_vec(vec![(0, Fe::from_u64(1)), (1, Fe::from_u64(2))]);
    let b = SparsePolynomial::from_coefficients_vec(vec![(0, Fe::from_u64(3)), (1, Fe::from_u64(1))]);
    let p = a.mul(&b);
    assert_eq!(p.evaluate(&Fe::from_u64(2)), Fe::from_u64(25));
    assert_eq!(p.degree(), 2);
    // 1 - (1 + 2x) at x = 3 is -6
    let q = a.one_minus();
    let minus_six = Fe::zero().minus(&Fe::from_u64(6));
    assert_eq!(q.evaluate(&Fe::from_u64(3)), minus_six);
    let mut s = SparsePolynomial::zero();
    s.add_assign(&a);
    s.add_assign(&b);
    assert_eq!(s.evaluate(&Fe::from_u64(1)), Fe::from_u64(7));
}

#[test]
fn restriction_of_an_extension_to_a_line() {
    // W over one variable with table [2, 5]: W(z) = 2 + 3z; on the line
    // from b = 1 to c = 4, W(l(t)) = 5 + 9t.
    let mle = DenseMultilinearExtension::from_evaluations_vec(1, vec![Fe::from_u64(2), Fe::from_u64(5)]);
    let q = restrict_poly(&[Fe::from_u64(1)], &[Fe::from_u64(4)], &mle);
    assert_eq!(q.evaluate(&Fe::zero()), Fe::from_u64(5));
    assert_eq!(q.evaluate(&Fe::one()), Fe::from_u64(14));
    assert_eq!(q.evaluate(&Fe::from_u64(2)), Fe::from_u64(23));
}

/// The trailing zero term is dropped and the rest sorted by degree, terms of
/// equal degree keeping their order, as arkworks does.
#[test]
fn polynomial_terms_are_trimmed_then_sorted_by_degree() {
    let terms = vec![
        (2usize, Fe::from_u64(3)),
        (0usize, Fe::from_u64(5)),
        (2usize, Fe::from_u64(4)),
        (1usize, Fe::zero()),
    ];
    let ours = SparsePolynomial::from_coefficients_vec(terms.clone());
    let theirs = ArkSparsePoly::from_coefficients_vec(terms.iter().map(|(d, c)| (*d, to_fr(c))).collect());
    let ours_terms: Vec<(usize, Fr)> = ours.coeffs.iter().map(|(d, c)| (*d, to_fr(c))).collect();
    assert_eq!(ours_terms, theirs.to_vec());
    assert_eq!(ours.coeffs.len(), 3);
    assert_eq!(ours.coeffs[0].0, 0);
    assert!(ours.coeffs[1].1.equals(&Fe::from_u64(3)));
    assert!(ours.coeffs[2].1.equals(&Fe::from_u64(4)));
    assert_eq!(ours.degree(), 2);
    assert_eq!(to_fr(&ours.evaluate(&Fe::from_u64(2))), theirs.evaluate(&Fr::from(2u64)));
}
