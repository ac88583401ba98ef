//! The standard sum-check verifier.
use crate::field::{fe_add, fe_mul, lemma_fe_range, Fe};
use crate::mle::{copy_slice, vals, DenseMultilinearExtension, SparseMultilinearExtension};
use crate::poly::SparsePolynomial;
use crate::random::{deterministic_rng, random_fe, seeded_rng};
use crate::sumcheck::protocol::{final_claim_holds, LayerReductionMessage, SumCheckVerifier};
use crate::util::{line, line_point};
use ark_std::rand::rngs::StdRng;
use vstd::prelude::*;

verus! {

broadcast use lemma_fe_range;

/// Sum-check verifier that records the random points it hands out so the
/// final (or layer-reduction) check can be evaluated at them.
///
/// Only for simulation: the generator is deterministically seeded and not
/// cryptographically secure.
pub struct StandardVerifier {
    random_points_chosen: Vec<Fe>,
    claimed_value: Fe,
    max_degree: usize,
    rng: StdRng,
}

impl StandardVerifier {
    /// The claim the prover is held to.
    pub fn claimed_value(&self) -> (r: &Fe)
        ensures
            r@ == self.claim(),
    {
        &self.claimed_value
    }

    /// The points handed out so far, in order.
    pub fn random_points_chosen(&self) -> (r: Vec<Fe>)
        ensures
            vals(r@) == self.points(),
    {
        copy_slice(self.random_points_chosen.as_slice(), 0, self.random_points_chosen.len())
    }

    /// Checks the prover's layer-reduction message and reduces the two claims
    /// `z1 = W(b*)`, `z2 = W(c*)` to a single claim at a point on the line
    /// through `b*` and `c*`: the first `s_i_plus_1` points and the next
    /// `s_i_plus_1`. Returns the next gate and its claimed value. A message
    /// whose restriction does not pass through `z1` at 0 and `z2` at 1 is
    /// rejected, so that is required.
    ///
    /// Only for simulation: the point on the line is drawn from a fresh
    /// deterministic generator.
    pub fn handle_layer_reduction_message(&self, msg: &LayerReductionMessage, s_i_plus_1: usize) -> (r: (
        Vec<Fe>,
        Fe,
    ))
        requires
            msg.restriction().value(0) == msg.claim_b()@,
            msg.restriction().value(1) == msg.claim_c()@,
            2 * s_i_plus_1 <= self.points().len(),
        ensures
            exists|t: int|
                {
                    &&& vals(r.0@) == #[trigger] line(
                        self.points().subrange(0, s_i_plus_1 as int),
                        self.points().subrange(s_i_plus_1 as int, 2 * s_i_plus_1),
                        t,
                    )
                    &&& r.1@ == msg.restriction().value(t)
                },
    {
        let q0 = msg.qt().evaluate(&Fe::zero());
        let q1 = msg.qt().evaluate(&Fe::one());
        assert(q0@ == msg.claim_b()@ && q1@ == msg.claim_c()@);
        let mut rng = deterministic_rng();
        let r_star = random_fe(&mut rng);
        let r = self.handle_layer_reduction_message_at(msg, s_i_plus_1, r_star);
        proof {
            let pts = self.points();
            assert(line(pts.subrange(0, s_i_plus_1 as int), pts.subrange(s_i_plus_1 as int, 2 * s_i_plus_1), r_star@)
                == vals(r.0@));
        }
        r
    }

    /// The reduction of the layer-reduction message at the point `r_star`
    /// of the line: the next gate `l(r_star)` and its claimed value
    /// `q(r_star)`.
    pub fn handle_layer_reduction_message_at(
        &self,
        msg: &LayerReductionMessage,
        s_i_plus_1: usize,
        r_star: Fe,
    ) -> (r: (Vec<Fe>, Fe))
        requires
            2 * s_i_plus_1 <= self.points().len(),
        ensures
            vals(r.0@) == line(
                self.points().subrange(0, s_i_plus_1 as int),
                self.points().subrange(s_i_plus_1 as int, 2 * s_i_plus_1),
                r_star@,
            ),
            r.1@ == msg.restriction().value(r_star@),
    {
        let n = self.random_points_chosen.len();
        assert(2 * s_i_plus_1 <= n) by {
            assert(vals(self.random_points_chosen@).len() == self.random_points_chosen@.len());
        }
        let b_star = copy_slice(self.random_points_chosen.as_slice(), 0, s_i_plus_1);
        let c_star = copy_slice(self.random_points_chosen.as_slice(), s_i_plus_1, 2 * s_i_plus_1);
        let next_gate = line_point(b_star.as_slice(), c_star.as_slice(), r_star);
        let next_claim = msg.qt().evaluate(&r_star);
        proof {
            let pts = vals(self.random_points_chosen@);
            assert(vals(b_star@) =~= pts.subrange(0, s_i_plus_1 as int));
            assert(vals(c_star@) =~= pts.subrange(s_i_plus_1 as int, 2 * s_i_plus_1));
        }
        (next_gate, next_claim)
    }
}

impl StandardVerifier {
    /// The verdict of the final oracle check of a standalone sum-check: the
    /// claim held, the last round polynomial at the last point, against
    /// `mult(g, b*, c*) W(b*) W(c*) + add(g, b*, c*) (W(b*) + W(c*))`.
    pub fn final_claim_matches(
        &self,
        gate: &[Fe],
        add_pred: &SparseMultilinearExtension,
        mult_pred: &SparseMultilinearExtension,
        mle: &DenseMultilinearExtension,
    ) -> (r: bool)
        requires
            add_pred.wf(),
            mult_pred.wf(),
            mle.wf(),
            gate.len() + self.points().len() == add_pred.num_vars,
            gate.len() + self.points().len() == mult_pred.num_vars,
            self.points().len() == 2 * mle.num_vars,
            self.points().len() > 0,
        ensures
            r == final_claim_holds(
                self.points(),
                vals(gate@),
                add_pred.table(),
                mult_pred.table(),
                mle.table(),
                self.claim(),
            ),
    {
        let points = self.random_points_chosen.as_slice();
        let n = points.len();
        assert(n == vals(self.random_points_chosen@).len());
        let add_fixed = add_pred.fix_variables(gate).evaluate(points);
        let mult_fixed = mult_pred.fix_variables(gate).evaluate(points);
        let half = n / 2;
        let left = copy_slice(points, 0, half);
        let right = copy_slice(points, half, n);
        let mle_left = mle.evaluate(left.as_slice());
        let mle_right = mle.evaluate(right.as_slice());
        let mult_term = fe_mul(fe_mul(mle_left, mle_right), mult_fixed);
        let add_term = fe_mul(add_fixed, fe_add(mle_left, mle_right));
        proof {
            let pts = vals(self.random_points_chosen@);
            assert(vals(left@) =~= pts.subrange(0, half as int));
            assert(vals(right@) =~= pts.subrange(half as int, n as int));
        }
        let expected = fe_add(mult_term, add_term);
        self.claimed_value.equals(&expected)
    }
}

/// The points handed out are field values.
pub proof fn lemma_points_reduced(v: &StandardVerifier)
    ensures
        crate::mle_spec::reduced(v.points()),
{
    crate::mle::lemma_vals_reduced(v.random_points_chosen@);
}

impl SumCheckVerifier for StandardVerifier {
    closed spec fn points(&self) -> Seq<int> {
        vals(self.random_points_chosen@)
    }

    closed spec fn claim(&self) -> int {
        self.claimed_value@
    }

    closed spec fn degree_bound(&self) -> nat {
        self.max_degree as nat
    }

    fn new(max_degree: usize, claimed_value: Fe) -> (r: Self) {
        let r = StandardVerifier {
            random_points_chosen: Vec::new(),
            claimed_value,
            max_degree,
            rng: seeded_rng(42),
        };
        assert(vals(r.random_points_chosen@) =~= Seq::<int>::empty());
        r
    }

    fn verify_degree(&self, fx: &SparsePolynomial) -> (r: bool) {
        fx.degree() < self.max_degree
    }

    fn get_random_field_element(&mut self) -> (r: Fe) {
        let rand_element = random_fe(&mut self.rng);
        self.random_points_chosen.push(rand_element);
        proof {
            assert(vals(self.random_points_chosen@) =~= vals(old(self).random_points_chosen@).push(
                rand_element@,
            ));
        }
        rand_element
    }

    fn check_claimed_value(&self, gx: &SparsePolynomial) -> (r: bool) {
        let checked_claim = gx.coefficient_sum();
        checked_claim.equals(&self.claimed_value)
    }

    fn handle_round(&mut self, fx: &SparsePolynomial) -> (r: Fe) {
        let degree_ok = self.verify_degree(fx);
        let claim_ok = self.check_claimed_value(fx);
        assert(degree_ok && claim_ok);
        self.get_random_field_element()
    }

    fn set_claim(&mut self, claim: Fe) {
        self.claimed_value = claim;
    }

    fn final_check(
        &self,
        gate: &[Fe],
        add_pred: &SparseMultilinearExtension,
        mult_pred: &SparseMultilinearExtension,
        mle: DenseMultilinearExtension,
        vrf_func: Vec<(usize, Fe)>,
    ) {
        let accepted = self.final_claim_matches(gate, add_pred, mult_pred, &mle);
        assert(accepted);
    }
}

} // verus!
