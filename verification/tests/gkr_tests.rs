//! Tests of the GKR circuit, predicates and driver.

use ark_bls12_381::Fr;
use ark_ff::{BigInt, PrimeField};
use ark_poly::{DenseMultilinearExtension as ArkDense, MultilinearExtension, Polynomial};
use sum_check_simulation::random::deterministic_rng;

use sum_check_simulation::bench::gkr::{figure_circuit, random_circuit, simulate};
use sum_check_simulation::field::Fe;
use sum_check_simulation::gkr::circuit::{GKRCircuit, Gate, GateType, InputLayer, Layer};
use sum_check_simulation::gkr::driver::{run_layer, GKRDriver, LayerConnection};
use sum_check_simulation::gkr::gkr_prover::GKRProver;
use sum_check_simulation::gkr::gkr_verifier::GKRVerifier;
use sum_check_simulation::gkr::predicates::compute_predicates;
use sum_check_simulation::sumcheck::fast::FastProver;
use sum_check_simulation::sumcheck::instance::GKRRound;
use sum_check_simulation::sumcheck::naive::NaiveProver;
use sum_check_simulation::poly::SparsePolynomial;
use sum_check_simulation::sumcheck::protocol::{SumCheckProver, SumCheckVerifier};
use sum_check_simulation::sumcheck::standard_verifier::StandardVerifier;

fn to_fr(x: &Fe) -> Fr {
    Fr::from_bigint(BigInt::new(x.to_canonical_limbs())).unwrap()
}

fn driver(layer_sizes: &[usize]) -> GKRDriver {
    let circuit = GKRCircuit::random(layer_sizes, &mut deterministic_rng());
    let input = InputLayer::random(*layer_sizes.last().unwrap());
    let predicates = compute_predicates(&circuit, &input);
    let prover = GKRProver::new(&circuit, &input, predicates.clone());
    let verifier = GKRVerifier::new(input.clone(), predicates);
    GKRDriver::new(prover, verifier, circuit, input)
}

#[test]
fn layer_sum_check_folds_claim_to_next_layer_evaluation() {
    let mut driver = driver(&[2, 4, 8, 32, 64, 128, 256, 512, 2048, 1024]);

    let (connection, _) =
        driver.run_layer_sum_check::<FastProver>(LayerConnection::new(Vec::new(), Fe::zero()), 0);

    // The folded claim must match a direct evaluation of W_1 at the point
    // chosen by the verifier.
    let w_1 = driver.prover().evaluated_circuit().layers[1].value_extension();
    assert_eq!(connection.claim_mi, w_1.evaluate(&connection.next_gate));
}

fn assert_full_protocol_accepts_honest_prover<P: SumCheckProver>() {
    // run_circuit completes when the verifier accepts every check.
    let result = driver(&[2, 4, 8, 16]).run_circuit::<P>();
    assert_eq!(result.len(), 4);
}

#[test]
fn full_protocol_accepts_honest_naive_prover() {
    assert_full_protocol_accepts_honest_prover::<NaiveProver>();
}

#[test]
fn full_protocol_accepts_honest_fast_prover() {
    assert_full_protocol_accepts_honest_prover::<FastProver>();
}

// ---------------------------------------------------------------------------
// Further checks.
// ---------------------------------------------------------------------------

#[test]
fn figure_circuit_evaluates_products_of_inputs() {
    let circuit = GKRCircuit::figure_circuit();
    let input = InputLayer::new(vec![Fe::from_u64(2), Fe::from_u64(3), Fe::from_u64(5), Fe::from_u64(7)]);
    let evaluated = circuit.evaluate_circuit(&input);
    // middle layer: 2*2, 3*3, 3*5, 7*7
    let middle: Vec<Fe> = [4u64, 9, 15, 49].iter().map(|v| Fe::from_u64(*v)).collect();
    assert_eq!(evaluated.layers[1].values, middle);
    // output layer: 4*9, 15*49
    let output: Vec<Fe> = [36u64, 735].iter().map(|v| Fe::from_u64(*v)).collect();
    assert_eq!(evaluated.layers[0].values, output);
}

#[test]
fn mixed_circuit_evaluates_each_gate() {
    let circuit = GKRCircuit::new(vec![
        Layer::new(vec![Gate::new(0, 1, GateType::Add), Gate::new(1, 1, GateType::Mul)]),
    ]);
    let input = InputLayer::new(vec![Fe::from_u64(10), Fe::from_u64(4)]);
    let evaluated = circuit.evaluate_circuit(&input);
    assert_eq!(evaluated.layers[0].values, vec![Fe::from_u64(10).plus(&Fe::from_u64(4)), Fe::from_u64(4).times(&Fe::from_u64(4))]);
    assert_eq!(evaluated.layers[0].values, vec![Fe::from_u64(14), Fe::from_u64(16)]);
}

#[test]
fn predicates_mark_each_gate_once() {
    let circuit = GKRCircuit::new(vec![
        Layer::new(vec![Gate::new(0, 1, GateType::Add), Gate::new(1, 1, GateType::Mul)]),
    ]);
    let input = InputLayer::new(vec![Fe::from_u64(10), Fe::from_u64(4)]);
    let predicates = compute_predicates(&circuit, &input);
    assert_eq!(predicates.len(), 1);
    // one gate variable, then one variable per child: index = g + 2 b + 4 c
    assert_eq!(predicates[0].add.num_vars, 3);
    assert_eq!(predicates[0].add.evaluations, vec![(0 + 2 * 0 + 4 * 1, Fe::one())]);
    assert_eq!(predicates[0].mult.evaluations, vec![(1 + 2 * 1 + 4 * 1, Fe::one())]);
}

#[test]
fn output_claim_is_the_output_layer_extension() {
    let (_, circuit, input) = figure_circuit();
    let predicates = compute_predicates(&circuit, &input);
    let prover = GKRProver::new(&circuit, &input, predicates);
    let claim = prover.output_claim();
    let output = &prover.evaluated_circuit().layers[0].values;
    let dense = ArkDense::from_evaluations_vec(1, output.iter().map(to_fr).collect());
    let point = vec![Fe::from_u64(3)];
    assert_eq!(to_fr(&claim.evaluate(&point)), dense.evaluate(&vec![Fr::from(3u64)]));
    assert_eq!(claim.to_dense_multilinear_extension().evaluations, *output);
}

#[test]
fn figure_circuit_protocol_accepts_both_provers() {
    let (sizes, circuit, input) = figure_circuit();
    assert_eq!(sizes, vec![2, 4, 4]);
    assert_eq!(simulate::<NaiveProver>(&circuit, &input).len(), 3);
    assert_eq!(simulate::<FastProver>(&circuit, &input).len(), 3);
}

#[test]
fn random_circuit_has_the_report_sizes() {
    let (sizes, circuit, input) = random_circuit();
    assert_eq!(sizes, vec![1, 1024, 1024, 1024, 1024]);
    assert_eq!(circuit.layers.len(), 4);
    assert_eq!(circuit.layers[1].gates.len(), 1024);
    assert_eq!(input.values.len(), 1024);
    for layer in &circuit.layers {
        for gate in &layer.gates {
            assert!(gate.left < 1024 && gate.right < 1024);
        }
    }
}

#[test]
fn value_extension_matches_arkworks() {
    let input = InputLayer::random(8);
    let ours = input.value_extension();
    let theirs = ArkDense::from_evaluations_vec(3, input.values.iter().map(to_fr).collect());
    let point = vec![Fe::from_u64(2), Fe::from_u64(11), Fe::from_u64(5)];
    let ark_point: Vec<Fr> = point.iter().map(to_fr).collect();
    assert_eq!(to_fr(&ours.evaluate(&point)), theirs.evaluate(&ark_point));
    let fixed = ours.fix_variables(&point[..1]);
    let ark_fixed = theirs.fix_variables(&ark_point[..1]);
    assert_eq!(fixed.evaluations.iter().map(to_fr).collect::<Vec<_>>(), ark_fixed.evaluations);
}

/// The GKR identity on concrete values: the sum a layer's sum-check starts
/// from is the value of the layer's extension at the chosen label.
#[test]
fn layer_sum_is_the_layer_extension_at_the_label() {
    let (_, circuit, input) = figure_circuit();
    let predicates = compute_predicates(&circuit, &input);
    let prover = GKRProver::new(&circuit, &input, predicates.clone());
    let values = &prover.evaluated_circuit().layers;
    let w0 = values[0].value_extension();
    let w1 = values[1].value_extension();
    let label = vec![Fe::from_u64(12345)];
    let round = GKRRound::new(&predicates[0].mult, &predicates[0].add, &w1, &w1);
    let mut naive = NaiveProver::new(round.clone(), &label);
    let mut fast = FastProver::new(round, &label);
    let expected = w0.evaluate(&label);
    assert_eq!(naive.compute_sum(), expected);
    assert_eq!(fast.compute_sum(), expected);
    let dense = ArkDense::from_evaluations_vec(1, values[0].values.iter().map(to_fr).collect());
    assert_eq!(to_fr(&expected), dense.evaluate(&vec![Fr::from(12345u64)]));
}

fn figure_input() -> InputLayer {
    InputLayer::new(vec![Fe::from_u64(1), Fe::from_u64(2), Fe::from_u64(3), Fe::from_u64(4)])
}

/// The predicates store one entry `(g | b << s_i | c << (s_i + s_(i+1)), 1)`
/// per gate, in gate order.
#[test]
fn figure_circuit_predicate_entries() {
    let c = GKRCircuit::figure_circuit();
    let ps = compute_predicates(&c, &figure_input());
    assert_eq!(ps.len(), 2);
    let one = Fe::from_u64(1);
    assert_eq!(ps[0].mult.num_vars, 5);
    assert_eq!(ps[0].mult.evaluations, vec![(8usize, one), (29usize, one)]);
    assert_eq!(ps[1].mult.num_vars, 6);
    assert_eq!(ps[1].mult.evaluations, vec![(0usize, one), (21usize, one), (38usize, one), (63usize, one)]);
    assert!(ps[0].add.evaluations.is_empty());
    assert!(ps[1].add.evaluations.is_empty());
}

/// The output claim stores one entry `(k, output k)` per output gate.
#[test]
fn figure_circuit_output_claim_entries() {
    let c = GKRCircuit::figure_circuit();
    let input = figure_input();
    let p = GKRProver::new(&c, &input, compute_predicates(&c, &input));
    let o = p.output_claim();
    assert_eq!(o.num_vars, 1);
    assert_eq!(o.evaluations, vec![(0usize, Fe::from_u64(4)), (1usize, Fe::from_u64(96))]);
    assert_eq!(o.evaluate(&[Fe::zero()]), Fe::from_u64(4));
    assert_eq!(o.evaluate(&[Fe::one()]), Fe::from_u64(96));
}

/// One layer round driven on its own folds its two end claims into one true
/// claim about the layer extension.
#[test]
fn standalone_layer_round_gives_a_true_claim() {
    for k in 1..4 {
        let round = GKRRound::new_rand(k);
        let gate = sum_check_simulation::util::random_gate(round.gate_labels());
        let mut prover = NaiveProver::new(round.clone(), &gate);
        let claim = prover.compute_sum();
        let mut verifier = StandardVerifier::new(3, claim);
        let (next_r, next_claim, _) = run_layer(&mut prover, &mut verifier, k);
        assert_eq!(next_r.len(), k);
        assert_eq!(next_claim, round.vi.evaluate(&next_r));
    }
}

/// The last sum-check message of a layer is accepted exactly when the
/// verifier's own evaluation matches the running claim.
#[test]
fn last_sum_check_message_verdict() {
    let mut driver = driver(&[2, 4, 8]);
    let (connection, _) =
        driver.run_layer_sum_check::<NaiveProver>(LayerConnection::new(Vec::new(), Fe::zero()), 0);
    let layer = 1usize;
    let s = 3usize;
    let below = driver.input_layer.value_extension();
    let round = GKRRound::new(
        &driver.prover.predicates()[layer].mult,
        &driver.prover.predicates()[layer].add,
        &below,
        &below,
    );
    let mut prover = NaiveProver::new(round, &connection.next_gate);
    let mut verifier = StandardVerifier::new(2, connection.claim_mi);
    for _ in 0..2 * s {
        let points = prover.get_verifier_function();
        let r = verifier.handle_round(&SparsePolynomial::from_coefficients_vec(points));
        prover.fix_variable(r);
        let next = prover.compute_sum();
        verifier.set_claim(next);
    }
    let msg = prover.layer_reduction_message(s);
    let mut v = GKRVerifier::new(driver.input_layer.clone(), compute_predicates(&driver.circuit, &driver.input_layer));
    v.set_gate(&connection.next_gate, layer);
    assert!(v.last_sum_check_msg_matches(&msg, &verifier, layer));
    v.confirm_last_sum_check_msg(&msg, &verifier, layer);
    let held = *verifier.claimed_value();
    verifier.set_claim(held.plus(&Fe::one()));
    assert!(!v.last_sum_check_msg_matches(&msg, &verifier, layer));
}
