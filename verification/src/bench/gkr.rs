//! GKR benchmark: runs the full protocol with the naive and the fast
//! sum-check prover over the same circuit.
use crate::gkr::circuit::{children_in_range, layer_size, GKRCircuit, InputLayer, Layer};
use crate::gkr::driver::{honest_parts, layer_roles, GKRDriver};
use crate::gkr::gkr_prover::GKRProver;
use crate::gkr::gkr_verifier::GKRVerifier;
use crate::gkr::predicates::{compute_predicates, duplicate_predicates, layer_vars, lemma_layer_vars, lemma_same_gates, predicates_of, protocol_ready};
use crate::mle::vals;
use crate::random::deterministic_rng;
use crate::sumcheck::protocol::SumCheckProver;
use crate::timing::{roles, AnalysisResult, Role};
use crate::util::is_pow2;
use vstd::arithmetic::power2::pow2;
use vstd::prelude::*;

verus! {

/// The number of runs per prover.
pub const TRIALS: usize = 30;

/// Runs one full GKR protocol execution with the given sum-check prover.
/// The verifier accepts the honest prover: the run completes, with the
/// times of every layer and of the final input check.
#[verifier::rlimit(60)]
pub fn simulate<P: SumCheckProver>(circuit: &GKRCircuit, input: &InputLayer) -> (r: AnalysisResult)
    requires
        circuit.layers@.len() >= 1,
        protocol_ready(circuit.layers@, input.values.len() as int),
    ensures
        r.layers().len() == circuit.layers@.len() + 1,
        r.layers()[circuit.layers@.len() as int].prover_spent() == 0,
        forall|k: int|
            0 <= k < circuit.layers@.len() ==> roles((#[trigger] r.layers()[k]).entries()) == layer_roles(
                k,
                layer_vars(circuit.layers@, input.values.len() as int, k + 1),
            ),
        roles(r.layers()[circuit.layers@.len() as int].entries()) == seq![Role::Verifier],
{
    let predicates = compute_predicates(circuit, input);
    let prover = GKRProver::new(circuit, input, duplicate_predicates(&predicates));
    let verifier = GKRVerifier::new(input.duplicate(), predicates);
    let circuit_copy = circuit.duplicate();
    let input_copy = input.duplicate();
    proof {
        lemma_same_gates(circuit.layers@, circuit_copy.layers@, vals(input.values@));
        let layers = circuit_copy.layers@;
        let il = input.values.len() as int;
        assert forall|i: int| 0 <= i < layers.len() implies predicates_of(
            #[trigger] prover.preds()[i],
            layers[i].gates@,
            layer_vars(layers, il, i),
            layer_vars(layers, il, i + 1),
        ) by {
            assert(circuit.layers@[i].gates@ == layers[i].gates@);
        }
        assert(honest_parts(prover, verifier, circuit_copy, input_copy));
    }
    let mut driver = GKRDriver::new(prover, verifier, circuit_copy, input_copy);
    let ghost copy_layers = driver.circuit.layers@;
    let r = driver.run_circuit::<P>();
    proof {
        lemma_same_vars(copy_layers, circuit.layers@, input.values.len() as int);
    }
    r
}

/// Circuits with the same gates address their layers with the same numbers
/// of variables.
proof fn lemma_same_vars(a: Seq<Layer>, b: Seq<Layer>, il: int)
    requires
        a.len() == b.len(),
        forall|i: int| 0 <= i < b.len() ==> (#[trigger] a[i]).gates@ == b[i].gates@,
        protocol_ready(b, il),
    ensures
        forall|k: int| 0 <= k < b.len() ==> #[trigger] layer_vars(a, il, k + 1) == layer_vars(b, il, k + 1),
{
    assert forall|k: int| 0 <= k < b.len() implies #[trigger] layer_vars(a, il, k + 1) == layer_vars(b, il, k + 1) by {
        assert(is_pow2(layer_size(b, il, k + 1)));
        let v = layer_vars(b, il, k + 1);
        assert(pow2(v) == layer_size(b, il, k + 1));
        if k + 1 < b.len() {
            assert(a[k + 1].gates@ == b[k + 1].gates@);
        }
        assert(layer_size(a, il, k + 1) == layer_size(b, il, k + 1));
        lemma_layer_vars(a, il, k + 1, v);
    }
}

/// The powers of two the benchmark circuits are made of.
proof fn lemma_small_powers()
    ensures
        pow2(0) == 1,
        pow2(1) == 2,
        pow2(2) == 4,
        pow2(10) == 1024,
        is_pow2(1),
        is_pow2(2),
        is_pow2(4),
        is_pow2(1024),
{
    vstd::arithmetic::power2::lemma2_to64();
}

/// The large random circuit benchmarked in the report: layer sizes
/// `1, 1024, 1024, 1024` over `1024` inputs.
pub fn random_circuit() -> (r: (Vec<usize>, GKRCircuit, InputLayer))
    ensures
        r.1.layers@.len() == 4,
        protocol_ready(r.1.layers@, r.2.values.len() as int),
        r.0@ == seq![1usize, 1024, 1024, 1024, 1024],
{
    let layer_sizes = vec![1usize, 1024, 1024, 1024, 1024];
    let mut rng = deterministic_rng();
    let circuit = GKRCircuit::random(layer_sizes.as_slice(), &mut rng);
    let input = InputLayer::random(layer_sizes[layer_sizes.len() - 1]);
    proof {
        lemma_small_powers();
        let layers = circuit.layers@;
        let il = input.values.len() as int;
        assert forall|i: int| 0 <= i <= layers.len() implies #[trigger] is_pow2(layer_size(layers, il, i)) by {
            if i < layers.len() {
                assert(layers[i].gates@.len() == layer_sizes@[i]);
            }
        }
        assert forall|i: int| 0 <= i < layers.len() implies #[trigger] layer_size(layers, il, i) * layer_size(layers, il, i + 1)
            * layer_size(layers, il, i + 1) <= usize::MAX by {
            assert(layer_size(layers, il, i) <= 1024);
            assert(layer_size(layers, il, i + 1) <= 1024);
            assert(layer_size(layers, il, i) * layer_size(layers, il, i + 1) * layer_size(layers, il, i + 1) <= 1024 * 1024 * 1024)
                by (nonlinear_arith)
                requires
                    0 <= layer_size(layers, il, i) <= 1024,
                    0 <= layer_size(layers, il, i + 1) <= 1024,
            ;
        }
        assert(layer_sizes@ =~= seq![1usize, 1024, 1024, 1024, 1024]);
    }
    (layer_sizes, circuit, input)
}

/// The small hand-built circuit from the report's figure: layer sizes
/// `2, 4` over `4` random inputs.
pub fn figure_circuit() -> (r: (Vec<usize>, GKRCircuit, InputLayer))
    ensures
        r.1.layers@.len() == 2,
        protocol_ready(r.1.layers@, r.2.values.len() as int),
        r.0@ == seq![2usize, 4, 4],
{
    let layer_sizes = vec![2usize, 4, 4];
    let circuit = GKRCircuit::figure_circuit();
    let input = InputLayer::random(layer_sizes[layer_sizes.len() - 1]);
    proof {
        lemma_small_powers();
        let layers = circuit.layers@;
        let il = input.values.len() as int;
        assert(layer_size(layers, il, 0) == 2);
        assert(layer_size(layers, il, 1) == 4);
        assert(layer_size(layers, il, 2) == 4);
        assert forall|i: int| 0 <= i <= layers.len() implies #[trigger] is_pow2(layer_size(layers, il, i)) by {
            if i == 0 {
                assert(layer_size(layers, il, i) == 2);
            } else {
                assert(layer_size(layers, il, i) == 4);
            }
        }
        assert forall|i: int| 0 <= i < layers.len() implies #[trigger] layer_size(layers, il, i) * layer_size(layers, il, i + 1)
            * layer_size(layers, il, i + 1) <= usize::MAX by {
            assert(layer_size(layers, il, i) <= 4);
            assert(layer_size(layers, il, i + 1) == 4);
            assert(layer_size(layers, il, i) * 4 * 4 <= 64) by (nonlinear_arith)
                requires
                    0 <= layer_size(layers, il, i) <= 4,
            ;
        }
        assert(children_in_range(layers, il));
        assert(layer_sizes@ =~= seq![2usize, 4, 4]);
    }
    (layer_sizes, circuit, input)
}

} // verus!
