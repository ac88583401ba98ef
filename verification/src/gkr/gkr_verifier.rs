//! The GKR verifier.
//!
//! Unlike the standalone sum-check verifier, at the end of each layer's
//! sum-check the GKR verifier receives two claimed values from the prover and
//! restricts them to a line. Only at the input layer does it evaluate the
//! multilinear extension itself to check the final claim.
use crate::field::{fadd, fe_add, fe_mul, fmul, lemma_fe_range, Fe};
use crate::gkr::circuit::InputLayer;
use crate::gkr::predicates::{lemma_pow2_injective, LayerPredicates};
use crate::mle::vals;
use crate::mle_spec::{fold_all, mle_eval};
use crate::random::{deterministic_rng, random_fe};
use crate::sumcheck::protocol::{LayerReductionMessage, SumCheckVerifier};
use crate::sumcheck::standard_verifier::StandardVerifier;
use crate::util::is_pow2;
use vstd::arithmetic::power2::pow2;
use vstd::prelude::*;

verus! {

broadcast use lemma_fe_range;

/// The verifier's own evaluation
/// `mult(b*, c*) z1 z2 + add(b*, c*) (z1 + z2)` matches the running claim.
pub open spec fn layer_claim_consistent(z1: int, z2: int, a: int, m: int, claim: int) -> bool {
    fadd(fmul(fmul(z1, z2), m), fmul(a, fadd(z1, z2))) == claim
}

/// The GKR verifier: holds the input layer and the wiring predicates.
pub struct GKRVerifier {
    input: InputLayer,
    /// Per-layer wiring predicates, progressively fixed at the gates the
    /// verifier picks between layers.
    predicates: Vec<LayerPredicates>,
}

impl GKRVerifier {
    /// The input values.
    pub closed spec fn inputs(&self) -> Seq<Fe> {
        self.input.values@
    }

    /// The predicates of every layer, as fixed so far.
    pub closed spec fn preds(&self) -> Seq<LayerPredicates> {
        self.predicates@
    }

    pub fn new(input: InputLayer, predicates: Vec<LayerPredicates>) -> (r: Self)
        ensures
            r.inputs() == input.values@,
            r.preds() == predicates@,
    {
        GKRVerifier { input, predicates }
    }

    /// Picks a gate label of the given length.
    ///
    /// Only for simulation: draws from a fresh deterministic generator, which
    /// is not cryptographically secure.
    pub fn random_gate(&self, gate_length: usize) -> (r: Vec<Fe>)
        ensures
            r.len() == gate_length,
    {
        let mut rng = deterministic_rng();
        let mut out: Vec<Fe> = Vec::with_capacity(gate_length);
        let mut i: usize = 0;
        while i < gate_length
            invariant
                i <= gate_length,
                out.len() == i,
            decreases gate_length - i,
        {
            out.push(random_fe(&mut rng));
            i = i + 1;
        }
        out
    }

    /// Restricts the predicates of `layer` to the label the verifier picked, so
    /// they can be evaluated at the sum-check points later. Calls for the
    /// input layer (which has no predicates) are ignored.
    pub fn set_gate(&mut self, gate: &[Fe], layer: usize)
        requires
            layer <= old(self).preds().len(),
            layer < old(self).preds().len() ==> {
                let p = old(self).preds()[layer as int];
                &&& p.add.wf()
                &&& p.mult.wf()
                &&& gate.len() <= p.add.num_vars
                &&& gate.len() <= p.mult.num_vars
            },
        ensures
            final(self).inputs() == old(self).inputs(),
            final(self).preds().len() == old(self).preds().len(),
            forall|k: int| 0 <= k < old(self).preds().len() && k != layer ==> #[trigger] final(self).preds()[k] == old(self).preds()[k],
            layer < old(self).preds().len() ==> {
                let p = old(self).preds()[layer as int];
                let q = final(self).preds()[layer as int];
                &&& q.add.wf()
                &&& q.mult.wf()
                &&& q.add.num_vars == p.add.num_vars - gate.len()
                &&& q.mult.num_vars == p.mult.num_vars - gate.len()
                &&& q.add.table() == fold_all(p.add.table(), vals(gate@))
                &&& q.mult.table() == fold_all(p.mult.table(), vals(gate@))
            },
    {
        if layer == self.predicates.len() {
            return;
        }
        let add_fixed = self.predicates[layer].add.fix_variables(gate);
        let mult_fixed = self.predicates[layer].mult.fix_variables(gate);
        self.predicates.set(layer, LayerPredicates { add: add_fixed, mult: mult_fixed });
    }

    /// The verdict on the last sum-check claim of `layer`: whether
    /// `mult(b*,c*)·z1·z2 + add(b*,c*)·(z1 + z2)`, for the prover's claimed
    /// values `z1 = W(b*)` and `z2 = W(c*)`, equals the running claim.
    pub fn last_sum_check_msg_matches(&self, msg: &LayerReductionMessage, vrf: &StandardVerifier, layer: usize) -> (r: bool)
        requires
            layer < self.preds().len(),
            self.preds()[layer as int].add.wf(),
            self.preds()[layer as int].mult.wf(),
            self.preds()[layer as int].add.num_vars == vrf.points().len(),
            self.preds()[layer as int].mult.num_vars == vrf.points().len(),
        ensures
            r == layer_claim_consistent(
                msg.claim_b()@,
                msg.claim_c()@,
                mle_eval(self.preds()[layer as int].add.table(), vrf.points()),
                mle_eval(self.preds()[layer as int].mult.table(), vrf.points()),
                vrf.claim(),
            ),
    {
        let z1 = msg.z1();
        let z2 = msg.z2();
        let predicates = &self.predicates[layer];
        let b_c_star = vrf.random_points_chosen();
        let add_i = predicates.add.evaluate(b_c_star.as_slice());
        let mult_i = predicates.mult.evaluate(b_c_star.as_slice());
        let own_eval = fe_add(fe_mul(fe_mul(z1, z2), mult_i), fe_mul(add_i, fe_add(z1, z2)));
        let claimed = vrf.claimed_value();
        proof {
            assert(vals(b_c_star@) == vrf.points());
        }
        own_eval.equals(claimed)
    }

    /// Checks that the last sum-check claim of `layer` is consistent with the
    /// prover's claimed values `z1 = W(b*)` and `z2 = W(c*)`:
    /// `mult(b*,c*)·z1·z2 + add(b*,c*)·(z1 + z2)` must equal the running claim
    /// (see [`Self::last_sum_check_msg_matches`]). A message that fails is
    /// rejected, so the match is required.
    pub fn confirm_last_sum_check_msg(&self, msg: &LayerReductionMessage, vrf: &StandardVerifier, layer: usize)
        requires
            layer < self.preds().len(),
            self.preds()[layer as int].add.wf(),
            self.preds()[layer as int].mult.wf(),
            self.preds()[layer as int].add.num_vars == vrf.points().len(),
            self.preds()[layer as int].mult.num_vars == vrf.points().len(),
            layer_claim_consistent(
                msg.claim_b()@,
                msg.claim_c()@,
                mle_eval(self.preds()[layer as int].add.table(), vrf.points()),
                mle_eval(self.preds()[layer as int].mult.table(), vrf.points()),
                vrf.claim(),
            ),
    {
        let accepted = self.last_sum_check_msg_matches(msg, vrf, layer);
        assert(accepted);
    }

    /// Evaluates the input layer's MLE at the final gate and checks it
    /// against the claimed evaluation; a mismatch is a rejection, so the
    /// match is required.
    pub fn verify_final_claimed_value_point(&self, gate: &[Fe], claimed_evaluation: Fe)
        requires
            pow2(gate.len() as nat) == self.inputs().len(),
            mle_eval(vals(self.inputs()), vals(gate@)) == claimed_evaluation@,
    {
        assert(is_pow2(self.input.values.len() as int));
        let input_mle = self.input.value_extension();
        proof {
            lemma_pow2_injective(input_mle.num_vars as nat, gate.len() as nat);
        }
        let value = input_mle.evaluate(gate);
        assert(value@ == claimed_evaluation@);
    }
}

} // verus!
