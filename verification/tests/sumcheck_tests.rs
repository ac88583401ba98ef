//! Behavioral tests of the sum-check provers and verifier, written once and
//! instantiated for both provers. Reference sums are computed with plain
//! arkworks operations on the same instance.

use ark_bls12_381::Fr;
use ark_ff::{BigInt, Field, One, PrimeField, UniformRand, Zero};
use ark_poly::{
    DenseMultilinearExtension as ArkDense, MultilinearExtension, Polynomial,
    SparseMultilinearExtension as ArkSparse,
};
use ark_std::test_rng;

use sum_check_simulation::field::Fe;
use sum_check_simulation::mle::{DenseMultilinearExtension, SparseMultilinearExtension};
use sum_check_simulation::poly::SparsePolynomial;
use sum_check_simulation::sumcheck::fast::FastProver;
use sum_check_simulation::sumcheck::instance::GKRRound;
use sum_check_simulation::sumcheck::naive::NaiveProver;
use sum_check_simulation::sumcheck::protocol::{restrict_poly, SumCheckProver, SumCheckVerifier};
use sum_check_simulation::sumcheck::standard_verifier::StandardVerifier;
use sum_check_simulation::util::{index_to_field_element, line_point, random_gate};

const DIM: usize = 7;

fn to_fr(x: &Fe) -> Fr {
    Fr::from_bigint(BigInt::new(x.to_canonical_limbs())).unwrap()
}

fn to_fe(x: Fr) -> Fe {
    Fe::from_limbs(x.into_bigint().0)
}

fn ark_sparse(m: &SparseMultilinearExtension) -> ArkSparse<Fr> {
    let es: Vec<(usize, Fr)> = m.evaluations.iter().map(|(i, v)| (*i, to_fr(v))).collect();
    ArkSparse::from_evaluations(m.num_vars, &es)
}

fn ark_dense(m: &DenseMultilinearExtension) -> ArkDense<Fr> {
    ArkDense::from_evaluations_vec(m.num_vars, m.evaluations.iter().map(to_fr).collect())
}

fn ark_point(index: usize, nv: usize) -> Vec<Fr> {
    index_to_field_element(index, nv).iter().map(to_fr).collect()
}

/// A random sum-check instance together with a random label.
/// Deterministic: the generators are seeded, so every call returns the same instance.
fn random_instance() -> (GKRRound, Vec<Fe>) {
    let round = GKRRound::new_rand(DIM);
    let gate = random_gate(round.gate_labels());
    (round, gate)
}

fn prover<P: SumCheckProver>() -> P {
    let (round, gate) = random_instance();
    P::new(round, &gate)
}

/// Both provers, built over the same instance and label.
fn prover_pair() -> (FastProver, NaiveProver) {
    let (round, gate) = random_instance();
    (FastProver::new(round.clone(), &gate), NaiveProver::new(round, &gate))
}

fn random_fe() -> Fe {
    to_fe(Fr::rand(&mut test_rng()))
}

/// Reference implementation of the initial sum using only arkworks operations.
fn ark_compute_sum(round: &GKRRound, gate: &[Fe]) -> Fe {
    let gate: Vec<Fr> = gate.iter().map(to_fr).collect();
    let vi = ark_dense(round.vi());
    let vj = ark_dense(round.vj());
    let dim = vi.num_vars;
    let mult_at_gate = ark_sparse(round.mult_predicate()).fix_variables(&gate);
    let add_at_gate = ark_sparse(round.add_predicate()).fix_variables(&gate);
    let mut sum_xy = Fr::zero();
    for x in 0..(1 << dim) {
        let f2_x = vi[x];
        let x_index = ark_point(x, dim);
        let mf1_gx = mult_at_gate.fix_variables(&x_index).to_dense_multilinear_extension();
        let af1_gx = add_at_gate.fix_variables(&x_index).to_dense_multilinear_extension();
        for y in 0..(1 << dim) {
            let add_term = af1_gx[y] * f2_x + af1_gx[y] * vj[y];
            sum_xy += mf1_gx[y] * f2_x * vj[y] + add_term;
        }
    }
    to_fe(sum_xy)
}

/// Reference implementation of the sum after one variable has been fixed to `r`.
fn ark_compute_sum_after_fixing(round: &GKRRound, gate: &[Fe], r: Fe) -> Fe {
    let gate: Vec<Fr> = gate.iter().map(to_fr).collect();
    let r = to_fr(&r);
    let mult_at_gate = ark_sparse(round.mult_predicate()).fix_variables(&gate);
    let add_at_gate = ark_sparse(round.add_predicate()).fix_variables(&gate);
    let f2 = ark_dense(round.vi());
    let f3 = ark_dense(round.vj());
    let mut sum_xy = Fr::zero();
    for x in 0..(1 << (f2.num_vars - 1)) {
        let f2_x = f2.fix_variables(&[r])[x];
        let x_index = ark_point(x, f2.num_vars - 1);
        let mf1_gx = mult_at_gate.fix_variables(&[r]).fix_variables(&x_index).to_dense_multilinear_extension();
        let af1_gx = add_at_gate.fix_variables(&[r]).fix_variables(&x_index).to_dense_multilinear_extension();
        for y in 0..(1 << f3.num_vars) {
            let add_term = af1_gx[y] * f2_x + af1_gx[y] * f3[y];
            sum_xy += mf1_gx[y] * f2_x * f3[y] + add_term;
        }
    }
    to_fe(sum_xy)
}

fn evaluations_sum(points: &[(usize, Fe)]) -> Fe {
    to_fe(points.iter().rfold(Fr::zero(), |acc, (_, elem)| to_fr(elem) + acc))
}

fn assert_initial_sum_matches_ark_reference<P: SumCheckProver>() {
    let (round, gate) = random_instance();
    let mut prover = P::new(round.clone(), &gate);
    assert_eq!(prover.compute_sum(), ark_compute_sum(&round, &gate));
}

#[test]
fn naive_initial_sum_matches_ark_reference() {
    assert_initial_sum_matches_ark_reference::<NaiveProver>();
}

#[test]
fn fast_initial_sum_matches_ark_reference() {
    assert_initial_sum_matches_ark_reference::<FastProver>();
}

fn assert_verifier_accepts_initial_round<P: SumCheckProver>() {
    let mut prover: P = prover();
    // Degree bound 2 is arbitrary for the simulation; the round polynomials
    // sent here are of degree one.
    let verifier = StandardVerifier::new(2, prover.compute_sum());
    let points = prover.get_verifier_function();
    assert!(verifier.check_claimed_value(&SparsePolynomial::from_coefficients_vec(points)));
}

#[test]
fn naive_verifier_accepts_initial_round() {
    assert_verifier_accepts_initial_round::<NaiveProver>();
}

#[test]
fn fast_verifier_accepts_initial_round() {
    assert_verifier_accepts_initial_round::<FastProver>();
}

fn assert_verifier_function_sums_to_claim<P: SumCheckProver>() {
    let mut prover: P = prover();
    let points = prover.get_verifier_function();
    assert_eq!(prover.compute_sum(), evaluations_sum(&points));
}

#[test]
fn naive_verifier_function_sums_to_claim() {
    assert_verifier_function_sums_to_claim::<NaiveProver>();
}

#[test]
fn fast_verifier_function_sums_to_claim() {
    assert_verifier_function_sums_to_claim::<FastProver>();
}

/// After fixing the next variable to 0 (resp. 1), the new sum must equal the
/// round polynomial's evaluation g(0) (resp. g(1)).
fn assert_fixing_constant_yields_evaluation<P: SumCheckProver>(value: Fe, index: usize) {
    let mut prover: P = prover();
    let verifier_function = prover.get_verifier_function();
    prover.fix_variable(value);
    assert_eq!(prover.compute_sum(), verifier_function[index].1);
}

#[test]
fn naive_fixing_zero_yields_g0() {
    assert_fixing_constant_yields_evaluation::<NaiveProver>(Fe::zero(), 0);
}

#[test]
fn fast_fixing_zero_yields_g0() {
    assert_fixing_constant_yields_evaluation::<FastProver>(Fe::zero(), 0);
}

#[test]
fn naive_fixing_one_yields_g1() {
    assert_fixing_constant_yields_evaluation::<NaiveProver>(Fe::one(), 1);
}

#[test]
fn fast_fixing_one_yields_g1() {
    assert_fixing_constant_yields_evaluation::<FastProver>(Fe::one(), 1);
}

fn assert_fixing_matches_ark_reference<P: SumCheckProver>() {
    let (round, gate) = random_instance();
    let mut prover = P::new(round.clone(), &gate);

    let r = random_fe();
    prover.fix_variable(r);

    assert_eq!(prover.compute_sum(), ark_compute_sum_after_fixing(&round, &gate, r));
}

#[test]
fn naive_fixing_matches_ark_reference() {
    assert_fixing_matches_ark_reference::<NaiveProver>();
}

#[test]
fn fast_fixing_matches_ark_reference() {
    assert_fixing_matches_ark_reference::<FastProver>();
}

#[test]
fn provers_agree_on_initial_sum() {
    let (mut fast, mut naive) = prover_pair();
    assert_eq!(naive.compute_sum(), fast.compute_sum());
}

#[test]
fn provers_verifier_functions_agree() {
    let (mut fast, mut naive) = prover_pair();
    let fast_function = fast.get_verifier_function();
    let naive_function = naive.get_verifier_function();

    assert_eq!(evaluations_sum(&naive_function), evaluations_sum(&fast_function));
    assert_eq!(naive_function[0], fast_function[0]);
    assert_eq!(naive_function[1], fast_function[1]);
}

#[test]
fn provers_agree_after_fixing_one() {
    let (mut fast, mut naive) = prover_pair();
    let fast_function = fast.get_verifier_function();
    let naive_function = naive.get_verifier_function();

    fast.fix_variable(Fe::one());
    naive.fix_variable(Fe::one());

    assert_eq!(fast.compute_sum(), fast_function[1].1);
    assert_eq!(naive.compute_sum(), naive_function[1].1);
    assert_eq!(naive_function[1], fast_function[1]);
}

#[test]
fn provers_agree_after_fixing_random() {
    let (mut fast, mut naive) = prover_pair();
    let r = random_fe();

    fast.fix_variable(r);
    naive.fix_variable(r);

    assert_eq!(fast.compute_sum(), naive.compute_sum());
}

/// Covers both phases: rounds 1..n fix the `x` variables, rounds n+1..2n fix
/// the `y` variables.
#[test]
fn provers_agree_across_all_rounds() {
    let (round, gate) = random_instance();
    let mut fast = FastProver::new(round.clone(), &gate);
    let mut naive = NaiveProver::new(round.clone(), &gate);

    for i in 0..2 * round.gate_labels() {
        let r = random_fe();
        fast.fix_variable(r);
        naive.fix_variable(r);
        assert_eq!(fast.compute_sum(), naive.compute_sum(), "diverged at round {}", i + 1);
    }
    assert_eq!(fast.fixed_variables().len(), 2 * round.gate_labels());
}

#[test]
fn random_instance_has_expected_dimensions() {
    let (round, gate) = random_instance();
    assert_eq!(round.mult_predicate().num_vars, 3 * DIM);
    assert_eq!(gate.len(), DIM);
}

#[test]
fn fixing_a_variable_halves_the_tables() {
    let round = GKRRound::new_rand(7);
    let gate = random_gate(round.gate_labels());
    let mut prover = FastProver::new(round.clone(), &gate);

    prover.fix_variable(random_fe());

    assert_eq!(prover.mult_p().len(), 1 << (round.gate_labels() - 1));
    assert_eq!(prover.mult_q().len(), 1 << (round.gate_labels() - 1));
}

// ---------------------------------------------------------------------------
// Further checks of the provers and the verifier.
// ---------------------------------------------------------------------------

/// Every round of a full run: the round polynomial sums to the claim, the
/// verifier accepts it, and the layer-reduction message interpolates the
/// layer's extension on the line through the two halves of the points.
fn assert_full_rounds_pass<P: SumCheckProver>() {
    let (round, gate) = random_instance();
    let mut prover = P::new(round.clone(), &gate);
    let claim = prover.compute_sum();
    let mut verifier = StandardVerifier::new(2, claim);
    for _ in 0..2 * DIM {
        let points = prover.get_verifier_function();
        let poly = SparsePolynomial::from_coefficients_vec(points);
        assert!(verifier.verify_degree(&poly));
        assert!(verifier.check_claimed_value(&poly));
        let r = verifier.handle_round(&poly);
        prover.fix_variable(r);
        let next = prover.compute_sum();
        verifier.set_claim(next);
    }
    assert_eq!(verifier.random_points_chosen(), prover.fixed_variables().to_vec());
    let msg = prover.layer_reduction_message(DIM);
    let points = verifier.random_points_chosen();
    let w = ark_dense(round.vi());
    let b: Vec<Fr> = points[..DIM].iter().map(to_fr).collect();
    let c: Vec<Fr> = points[DIM..].iter().map(to_fr).collect();
    assert_eq!(to_fr(&msg.z1()), w.evaluate(&b));
    assert_eq!(to_fr(&msg.z2()), w.evaluate(&c));
    assert_eq!(to_fr(&msg.qt().evaluate(&Fe::zero())), to_fr(&msg.z1()));
    assert_eq!(to_fr(&msg.qt().evaluate(&Fe::one())), to_fr(&msg.z2()));
    let t = Fr::from(5u64);
    let on_line: Vec<Fr> = b.iter().zip(c.iter()).map(|(x, y)| *x + t * (*y - *x)).collect();
    assert_eq!(to_fr(&msg.qt().evaluate(&to_fe(t))), w.evaluate(&on_line));
    let (next_gate, next_claim) = verifier.handle_layer_reduction_message(&msg, DIM);
    let next_gate: Vec<Fr> = next_gate.iter().map(to_fr).collect();
    assert_eq!(to_fr(&next_claim), w.evaluate(&next_gate));
}

#[test]
fn naive_full_rounds_pass() {
    assert_full_rounds_pass::<NaiveProver>();
}

#[test]
fn fast_full_rounds_pass() {
    assert_full_rounds_pass::<FastProver>();
}

#[test]
fn verifier_rejects_a_wrong_claim_and_a_high_degree() {
    let verifier = StandardVerifier::new(2, Fe::from_u64(5));
    let good = SparsePolynomial::from_coefficients_vec(vec![(0, Fe::from_u64(2)), (1, Fe::from_u64(3))]);
    let wrong = SparsePolynomial::from_coefficients_vec(vec![(0, Fe::from_u64(2)), (1, Fe::from_u64(4))]);
    let high = SparsePolynomial::from_coefficients_vec(vec![(0, Fe::from_u64(2)), (2, Fe::from_u64(3))]);
    assert!(verifier.check_claimed_value(&good));
    assert!(!verifier.check_claimed_value(&wrong));
    assert!(verifier.verify_degree(&good));
    assert!(!verifier.verify_degree(&high));
    assert_eq!(*verifier.claimed_value(), Fe::from_u64(5));
    assert!(verifier.random_points_chosen().is_empty());
}

#[test]
fn verifier_records_its_points() {
    let mut verifier = StandardVerifier::new(2, Fe::zero());
    let a = verifier.get_random_field_element();
    let b = verifier.get_random_field_element();
    assert_eq!(verifier.random_points_chosen(), vec![a, b]);
    verifier.set_claim(Fe::from_u64(9));
    assert_eq!(*verifier.claimed_value(), Fe::from_u64(9));
}

/// The final oracle check compares the claim the verifier holds after the
/// last round with the value the predicates and the layer extension give at
/// the points: an honest run is accepted, a wrong claim is not.
#[test]
fn final_check_verdict_of_an_honest_run() {
    let round = GKRRound::new_rand(2);
    let gate = random_gate(round.gate_labels());
    let mut prover = NaiveProver::new(round.clone(), &gate);
    let claim = prover.compute_sum();
    let mut verifier = StandardVerifier::new(2, claim);
    let mut last = Vec::new();
    for _ in 0..4 {
        let points = prover.get_verifier_function();
        last = points.clone();
        let r = verifier.handle_round(&SparsePolynomial::from_coefficients_vec(points));
        prover.fix_variable(r);
        let next = prover.compute_sum();
        verifier.set_claim(next);
    }
    assert!(verifier.final_claim_matches(&gate, round.add_predicate(), round.mult_predicate(), round.vi()));
    verifier.final_check(&gate, round.add_predicate(), round.mult_predicate(), round.vi().clone(), last);
    let held = *verifier.claimed_value();
    verifier.set_claim(held.plus(&Fe::one()));
    assert!(!verifier.final_claim_matches(&gate, round.add_predicate(), round.mult_predicate(), round.vi()));
}

fn small_round() -> GKRRound {
    let f = Fe::from_u64;
    let mult = SparseMultilinearExtension::from_evaluations(3, &[(2, f(1))]);
    let add = SparseMultilinearExtension::from_evaluations(3, &[(4, f(2))]);
    let vi = DenseMultilinearExtension::from_evaluations_vec(1, vec![f(2), f(3)]);
    let vj = DenseMultilinearExtension::from_evaluations_vec(1, vec![f(5), f(7)]);
    GKRRound::new(&mult, &add, &vi, &vj)
}

/// Right after the `x` variable is fixed, without a `compute_sum` in
/// between, both provers report the round polynomial in the first `y`
/// variable.
#[test]
fn round_polynomial_right_after_fixing_the_x_variables() {
    let f = Fe::from_u64;
    let expected = vec![(0usize, f(0)), (1usize, f(18))];
    let mut naive = NaiveProver::new(small_round(), &[f(0)]);
    naive.fix_variable(f(0));
    assert_eq!(naive.get_verifier_function(), expected);
    assert_eq!(naive.get_verifier_function(), expected);
    let mut fast = FastProver::new(small_round(), &[f(0)]);
    fast.fix_variable(f(0));
    assert_eq!(fast.get_verifier_function(), expected);
}

/// With every variable fixed by `fix_variable` alone, both provers report
/// the remaining sum: `add(0,0,2)·(vi(0) + vj(2)) = 4·(2 + 9) = 44`.
#[test]
fn sum_once_every_variable_is_fixed() {
    let f = Fe::from_u64;
    let mut naive = NaiveProver::new(small_round(), &[f(0)]);
    naive.fix_variable(f(0));
    naive.fix_variable(f(2));
    assert_eq!(naive.compute_sum(), f(44));
    let mut fast = FastProver::new(small_round(), &[f(0)]);
    fast.fix_variable(f(0));
    fast.fix_variable(f(2));
    assert_eq!(fast.compute_sum(), f(44));
    assert_eq!(fast.fixed_variables().len(), 2);
}

/// The restriction of an extension to a line has degree at most the number
/// of variables.
#[test]
fn restriction_degree_is_at_most_the_number_of_variables() {
    let f = Fe::from_u64;
    let mle = DenseMultilinearExtension::from_evaluations_vec(2, vec![f(1), f(4), f(9), f(16)]);
    let b = vec![f(3), f(5)];
    let c = vec![f(7), f(2)];
    let q = restrict_poly(&b, &c, &mle);
    assert!(q.degree() <= 2);
    for t in 0..5u64 {
        let pt = line_point(&b, &c, f(t));
        assert_eq!(q.evaluate(&f(t)), mle.evaluate(&pt));
    }
}

#[test]
fn field_arithmetic_matches_arkworks() {
    let mut rng = test_rng();
    for _ in 0..20 {
        let a = Fr::rand(&mut rng);
        let b = Fr::rand(&mut rng);
        let (x, y) = (to_fe(a), to_fe(b));
        assert_eq!(to_fr(&x.plus(&y)), a + b);
        assert_eq!(to_fr(&x.minus(&y)), a - b);
        assert_eq!(to_fr(&x.times(&y)), a * b);
        assert!(x.equals(&x));
        assert_eq!(x.is_zero(), a.is_zero());
    }
    assert_eq!(to_fr(&Fe::one()), Fr::one());
    assert_eq!(to_fr(&Fe::from_u64(7)), Fr::from(7u64));
    let minus_one = Fe::zero().minus(&Fe::one());
    assert_eq!(to_fr(&minus_one), -Fr::one());
    assert_eq!(to_fr(&minus_one).inverse().unwrap(), -Fr::one());
}

/// Of two entries with the same index, the later one is kept, as arkworks
/// keeps it; the other entries stay as given.
#[test]
fn sparse_extension_keeps_the_last_entry_of_an_index() {
    let entries = vec![
        (1usize, Fe::from_u64(4)),
        (2usize, Fe::from_u64(9)),
        (1usize, Fe::from_u64(7)),
    ];
    let sparse = SparseMultilinearExtension::from_evaluations(2, &entries);
    assert_eq!(sparse.evaluations.len(), 2);
    let dense = sparse.to_dense_multilinear_extension();
    let expected: Vec<u64> = vec![0, 7, 9, 0];
    for (i, v) in expected.iter().enumerate() {
        assert!(dense.evaluations[i].equals(&Fe::from_u64(*v)));
    }
    let theirs_entries: Vec<(usize, Fr)> = entries.iter().map(|(i, v)| (*i, to_fr(v))).collect();
    let theirs = ArkSparse::from_evaluations(2, &theirs_entries);
    let point = vec![Fe::from_u64(3), Fe::from_u64(5)];
    let ark_pt: Vec<Fr> = point.iter().map(to_fr).collect();
    assert_eq!(to_fr(&sparse.evaluate(&point)), theirs.evaluate(&ark_pt));
}

/// The reported sum with points fixed is the sum over the remaining
/// hypercube of the layer term at the fixed points followed by the free ones,
/// each table read through its extension.
#[test]
fn fixed_sum_is_the_sum_over_the_remaining_hypercube() {
    let f = Fe::from_u64;
    let round = small_round();
    let add = ark_sparse(&round.add_predicate);
    let mult = ark_sparse(&round.mult_predicate);
    let vi = ark_dense(&round.vi);
    let vj = ark_dense(&round.vj);
    let zero = Fr::zero();
    let one = Fr::one();
    // no point fixed: the layer sum at the label 0
    let mut expected = zero;
    for x in [zero, one] {
        for y in [zero, one] {
            let p = vec![zero, x, y];
            let (a, m) = (add.evaluate(&p), mult.evaluate(&p));
            let (u, v) = (vi.evaluate(&vec![x]), vj.evaluate(&vec![y]));
            expected += a * (u + v) + m * u * v;
        }
    }
    let mut naive = NaiveProver::new(small_round(), &[f(0)]);
    assert_eq!(to_fr(&naive.compute_sum()), expected);
    assert_eq!(expected, Fr::from(33u64));
    // x fixed at 3
    let r = Fr::from(3u64);
    let mut expected = zero;
    for y in [zero, one] {
        let p = vec![zero, r, y];
        let (a, m) = (add.evaluate(&p), mult.evaluate(&p));
        let (u, v) = (vi.evaluate(&vec![r]), vj.evaluate(&vec![y]));
        expected += a * (u + v) + m * u * v;
    }
    naive.fix_variable(f(3));
    assert_eq!(to_fr(&naive.compute_sum()), expected);
    let mut fast = FastProver::new(small_round(), &[f(0)]);
    fast.fix_variable(f(3));
    assert_eq!(to_fr(&fast.compute_sum()), expected);
}

/// With no variable left, both provers report the pair `[(0, s), (1, 0)]`
/// for the remaining sum `s`, and the call changes nothing.
#[test]
fn round_polynomial_with_no_variable_left() {
    let f = Fe::from_u64;
    let expected = vec![(0usize, f(44)), (1usize, f(0))];
    let mut naive = NaiveProver::new(small_round(), &[f(0)]);
    naive.fix_variable(f(0));
    naive.fix_variable(f(2));
    assert_eq!(naive.get_verifier_function(), expected);
    assert_eq!(naive.get_verifier_function(), expected);
    assert_eq!(naive.compute_sum(), f(44));
    let mut fast = FastProver::new(small_round(), &[f(0)]);
    fast.fix_variable(f(0));
    fast.fix_variable(f(2));
    assert_eq!(fast.get_verifier_function(), expected);
    assert_eq!(fast.compute_sum(), f(44));
}
