//! The GKR prover.
use crate::arith::{lemma_mod_id, lemma_sum_single};
use crate::field::{lemma_fe_range, Fe};
use crate::gkr::circuit::{children_in_range, layer_values, EvaluatedGKRCircuit, GKRCircuit, InputLayer};
use crate::gkr::predicates::LayerPredicates;
use crate::mle::{entry_term, vals, SparseMultilinearExtension};
use crate::util::{is_pow2, log2_pow2};
use vstd::arithmetic::power2::pow2;
use vstd::prelude::*;

verus! {

broadcast use lemma_fe_range;

/// The GKR prover: evaluates the circuit once up front and keeps the
/// per-layer wiring predicates plus all gate values needed to answer the
/// verifier's sum-check queries.
pub struct GKRProver {
    predicates: Vec<LayerPredicates>,
    evaluated_circuit: EvaluatedGKRCircuit,
}

impl GKRProver {
    /// The wiring predicates the prover holds, layer by layer.
    pub closed spec fn preds(&self) -> Seq<LayerPredicates> {
        self.predicates@
    }

    /// The evaluated circuit the prover holds.
    pub closed spec fn evaluation(&self) -> EvaluatedGKRCircuit {
        self.evaluated_circuit
    }

    pub fn new(circuit: &GKRCircuit, input: &InputLayer, predicates: Vec<LayerPredicates>) -> (r: Self)
        requires
            children_in_range(circuit.layers@, input.values.len() as int),
        ensures
            r.preds() == predicates@,
            r.evaluation().layers@.len() == circuit.layers@.len(),
            forall|i: int|
                0 <= i < circuit.layers@.len() ==> vals((#[trigger] r.evaluation().layers@[i]).values@) == layer_values(
                    circuit.layers@,
                    vals(input.values@),
                    i,
                ),
    {
        GKRProver { predicates, evaluated_circuit: circuit.evaluate_circuit(input) }
    }

    pub fn predicates(&self) -> (r: &[LayerPredicates])
        ensures
            r@ == self.preds(),
    {
        self.predicates.as_slice()
    }

    pub fn evaluated_circuit(&self) -> (r: &EvaluatedGKRCircuit)
        ensures
            *r == self.evaluation(),
    {
        &self.evaluated_circuit
    }

    /// The MLE of the output layer, sent to the verifier as the claimed
    /// output: one entry `(k, value k)` per output gate, in order; the output
    /// layer's size must be a power of two.
    pub fn output_claim(&self) -> (r: SparseMultilinearExtension)
        requires
            self.evaluation().layers@.len() >= 1,
            is_pow2(self.evaluation().layers@[0].values@.len() as int),
        ensures
            r.wf(),
            pow2(r.num_vars as nat) == self.evaluation().layers@[0].values@.len(),
            r.table() == vals(self.evaluation().layers@[0].values@),
            r.evaluations@.len() == self.evaluation().layers@[0].values@.len(),
            forall|k: int| 0 <= k < r.evaluations@.len() ==> #[trigger] r.evaluations@[k] == (
                k as usize,
                self.evaluation().layers@[0].values@[k],
            ),
    {
        let output = &self.evaluated_circuit.layers[0].values;
        let mut evaluations: Vec<(usize, Fe)> = Vec::with_capacity(output.len());
        let mut idx: usize = 0;
        while idx < output.len()
            invariant
                idx <= output.len(),
                evaluations.len() == idx,
                forall|k: int| 0 <= k < idx ==> (#[trigger] evaluations@[k]) == (k as usize, output@[k]),
            decreases output.len() - idx,
        {
            evaluations.push((idx, output[idx]));
            idx = idx + 1;
        }
        let nv = log2_pow2(output.len());
        proof {
            assert(crate::mle::distinct_indices(evaluations@));
        }
        let r = SparseMultilinearExtension::from_evaluations(nv, evaluations.as_slice());
        proof {
            let es = evaluations@;
            assert forall|i: int| 0 <= i < output.len() implies #[trigger] r.table()[i] == vals(output@)[i] by {
                assert forall|k: int| 0 <= k < es.len() && k != i implies #[trigger] entry_term(es, i)(k) == 0 by {
                    assert(es[k].0 == k);
                }
                lemma_sum_single(entry_term(es, i), i, es.len() as int);
                lemma_mod_id(output@[i]@);
            }
            assert(r.table() =~= vals(output@));
        }
        r
    }
}

} // verus!
