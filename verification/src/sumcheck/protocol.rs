//! The layer-reduction message that connects consecutive GKR layers, and
//! the restriction of a multilinear extension to a line.
use crate::field::{fadd, fe_sub, fmul, lemma_fe_range, modulus, Fe};
use crate::mle::{copy_slice, last_value_table, lemma_vals_reduced, vals, DenseMultilinearExtension, SparseMultilinearExtension};
use crate::sumcheck::instance::{initial_state, GKRRound};
use crate::sumcheck::state::{lemma_fix_all_push, lemma_fix_all_wf, lemma_fix_bit, lemma_fixed_sum, lemma_total_split, point_values, RoundState};
use crate::mle_spec::{chi, fold_all, lagrange_terms, lemma_fold_all_len, lemma_mle_eval_lagrange, mle_eval, reduced};
use crate::arith::{lemma_mod_id, lemma_sum_ext, sum};
use crate::poly::{power, SparsePolynomial};
use crate::util::line;
use vstd::arithmetic::div_mod::{lemma_add_mod_noop_right, lemma_mod_twice, lemma_mul_mod_noop_general, lemma_mul_mod_noop_left};
use vstd::arithmetic::power2::pow2;
use vstd::prelude::*;

verus! {

broadcast use lemma_fe_range;

/// Message sent by the prover after the last sum-check round of a GKR layer.
///
/// It reduces the verifier's two claims about `W_{i+1}`, at the points `b*`
/// and `c*` fixed during sum-check, to a single claim about one point on the
/// line through `b*` and `c*`.
#[derive(Clone, Debug)]
pub struct LayerReductionMessage {
    z1: Fe,
    z2: Fe,
    qt: SparsePolynomial,
}

impl LayerReductionMessage {
    /// The claimed value at `b*`.
    pub closed spec fn claim_b(&self) -> Fe {
        self.z1
    }

    /// The claimed value at `c*`.
    pub closed spec fn claim_c(&self) -> Fe {
        self.z2
    }

    /// The restriction to the line.
    pub closed spec fn restriction(&self) -> SparsePolynomial {
        self.qt
    }

    pub fn new(z1: Fe, z2: Fe, qt: SparsePolynomial) -> (r: Self)
        ensures
            r.claim_b() == z1,
            r.claim_c() == z2,
            r.restriction() == qt,
    {
        LayerReductionMessage { z1, z2, qt }
    }

    /// The claimed value `W_{i+1}(b*)`.
    pub fn z1(&self) -> (r: Fe)
        ensures
            r == self.claim_b(),
    {
        self.z1
    }

    /// The claimed value `W_{i+1}(c*)`.
    pub fn z2(&self) -> (r: Fe)
        ensures
            r == self.claim_c(),
    {
        self.z2
    }

    /// The restriction `q(t) = W_{i+1}(l(t))` of the layer MLE to the line
    /// through `b*` and `c*`.
    pub fn qt(&self) -> (r: &SparsePolynomial)
        ensures
            *r == self.restriction(),
    {
        &self.qt
    }
}

/// The state a prover stands at: its starting state with the points fixed
/// so far applied in order.
pub open spec fn prover_state<P: SumCheckProver>(p: &P) -> RoundState {
    p.initial().fix_all(p.fixed())
}

/// A prover for one sum-check execution over a [`GKRRound`] instance.
///
/// Every prover is described by its starting state (`initial`), the points
/// fixed so far (`fixed`) and whether it can report its round polynomial
/// (`ready`), which every operation leaves it; its answers are those of the
/// mathematics of [`crate::sumcheck::state`].
pub trait SumCheckProver: Sized {
    spec fn wf(&self) -> bool;

    spec fn initial(&self) -> RoundState;

    spec fn fixed(&self) -> Seq<int>;

    spec fn ready(&self) -> bool;

    spec fn layer_mle(&self) -> DenseMultilinearExtension;

    /// Creates the prover for `round`, its predicates restricted to the label `gate`.
    fn new(round: GKRRound, gate: &[Fe]) -> (r: Self)
        requires
            round.wf(),
            round.vi.num_vars == round.vj.num_vars,
            gate.len() + round.vi.num_vars + round.vj.num_vars == round.mult_spec().num_vars,
        ensures
            r.wf(),
            r.initial() == initial_state(round, vals(gate@)),
            r.fixed() == Seq::<int>::empty(),
            r.layer_mle()@ == round.vi@,
            r.ready(),
    ;

    /// Computes the sum over the remaining boolean hypercube, i.e. the claim
    /// the prover currently stands behind.
    fn compute_sum(&mut self) -> (r: Fe)
        requires
            old(self).wf(),
        ensures
            final(self).wf(),
            final(self).initial() == old(self).initial(),
            final(self).fixed() == old(self).fixed(),
            final(self).layer_mle() == old(self).layer_mle(),
            final(self).ready(),
            r@ == final(self).initial().fix_all(final(self).fixed()).total(),
    ;

    /// Returns the current round polynomial as the pair
    /// `[(0, g(0)), (1, g(1))]`, where `g` fixes the next free variable;
    /// with no variable left, the pair `[(0, s), (1, 0)]` for the sum `s`.
    fn get_verifier_function(&mut self) -> (r: Vec<(usize, Fe)>)
        requires
            old(self).wf(),
            old(self).ready(),
        ensures
            final(self).wf(),
            final(self).initial() == old(self).initial(),
            final(self).fixed() == old(self).fixed(),
            final(self).layer_mle() == old(self).layer_mle(),
            final(self).ready(),
            r@.len() == 2,
            r@[0].0 == 0,
            r@[1].0 == 1,
            ({
                let st = old(self).initial().fix_all(old(self).fixed());
                &&& st.nx + st.ny > 0 ==> r@[0].1@ == st.half(0) && r@[1].1@ == st.half(1)
                &&& st.nx + st.ny == 0 ==> r@[0].1@ == st.total() && r@[1].1@ == 0
            }),
    ;

    /// Fixes the next free variable to the verifier's random point `r`.
    fn fix_variable(&mut self, r: Fe)
        requires
            old(self).wf(),
            old(self).ready(),
            old(self).initial().fix_all(old(self).fixed()).nx + old(self).initial().fix_all(old(self).fixed()).ny > 0,
        ensures
            final(self).wf(),
            final(self).initial() == old(self).initial(),
            final(self).fixed() == old(self).fixed().push(r@),
            final(self).layer_mle() == old(self).layer_mle(),
            final(self).ready(),
    ;

    /// All random points fixed so far, in order.
    fn fixed_variables(&self) -> (r: &[Fe])
        requires
            self.wf(),
        ensures
            vals(r@) == self.fixed(),
    ;

    /// The untouched MLE `W_{i+1}` of the next layer's values, used for the
    /// layer-reduction message.
    fn layer_value_mle(&self) -> (r: &DenseMultilinearExtension)
        requires
            self.wf(),
        ensures
            *r == self.layer_mle(),
    ;

    /// Builds the layer-reduction message from the points fixed during this
    /// sum-check: `b*` are the first `s_i_plus_1` fixed variables, `c*` the
    /// next `s_i_plus_1`.
    fn layer_reduction_message(&self, s_i_plus_1: usize) -> (r: LayerReductionMessage)
        requires
            self.wf(),
            2 * s_i_plus_1 <= self.fixed().len(),
            self.layer_mle().wf(),
            self.layer_mle().num_vars == s_i_plus_1,
        ensures
            r.claim_b()@ == mle_eval(self.layer_mle().table(), self.fixed().subrange(0, s_i_plus_1 as int)),
            r.claim_c()@ == mle_eval(
                self.layer_mle().table(),
                self.fixed().subrange(s_i_plus_1 as int, 2 * s_i_plus_1),
            ),
            forall|t: int| #[trigger] r.restriction().value(t) == mle_eval(
                self.layer_mle().table(),
                line(self.fixed().subrange(0, s_i_plus_1 as int), self.fixed().subrange(s_i_plus_1 as int, 2 * s_i_plus_1), t),
            ),
            r.restriction().max_degree() <= s_i_plus_1,
    {
        let mle = self.layer_value_mle();
        let fv = self.fixed_variables();
        let n = fv.len();
        assert(2 * s_i_plus_1 <= n) by {
            assert(fv@.len() == vals(fv@).len());
        }
        let b_star = copy_slice(fv, 0, s_i_plus_1);
        let c_star = copy_slice(fv, s_i_plus_1, 2 * s_i_plus_1);
        let qt = restrict_poly(&b_star, &c_star, mle);
        let z1 = mle.evaluate(&b_star);
        let z2 = mle.evaluate(&c_star);
        proof {
            assert(vals(b_star@) =~= self.fixed().subrange(0, s_i_plus_1 as int));
            assert(vals(c_star@) =~= self.fixed().subrange(s_i_plus_1 as int, 2 * s_i_plus_1));
            assert(vals(b_star@).take(s_i_plus_1 as int) =~= vals(b_star@));
            assert(vals(c_star@).take(s_i_plus_1 as int) =~= vals(c_star@));
        }
        LayerReductionMessage::new(z1, z2, qt)
    }
}

/// The sum a prover reports (`compute_sum`) once the points `r_1 .. r_k`
/// are fixed is the sum, over the points `z` of the remaining hypercube, of
/// `add(r, z) (vi(x) + vj(y)) + mult(r, z) vi(x) vj(y)` at `(x, y) = (r, z)`,
/// with the predicates restricted to the label and every table read through
/// its multilinear extension, the fixed points filling the lowest variables.
pub proof fn lemma_prover_sum_is_hypercube_sum<P: SumCheckProver>(p: &P)
    requires
        p.initial().wf(),
        p.fixed().len() <= p.initial().nx + p.initial().ny,
    ensures
        prover_state(p).total() == sum(
            point_values(p.initial(), p.fixed(), (p.initial().nx + p.initial().ny - p.fixed().len()) as nat),
            pow2((p.initial().nx + p.initial().ny - p.fixed().len()) as nat) as int,
        ) % modulus(),
{
    lemma_fixed_sum(p.initial(), p.fixed());
}

/// Two provers started from the same instance and fixed at the same points
/// stand behind the same sum and report the same round polynomial.
pub proof fn lemma_provers_agree<P: SumCheckProver, Q: SumCheckProver>(p: &P, q: &Q)
    requires
        p.initial() == q.initial(),
        p.fixed() == q.fixed(),
    ensures
        prover_state(p).total() == prover_state(q).total(),
        prover_state(p).half(0) == prover_state(q).half(0),
        prover_state(p).half(1) == prover_state(q).half(1),
{
}

/// The round polynomial a prover reports sums to the claim it stands
/// behind: `g(0) + g(1)` is the current sum.
pub proof fn lemma_round_polynomial_sums_to_claim<P: SumCheckProver>(p: &P)
    requires
        p.initial().wf(),
        p.fixed().len() < p.initial().nx + p.initial().ny,
    ensures
        prover_state(p).total() == (prover_state(p).half(0) + prover_state(p).half(1)) % modulus(),
{
    lemma_fix_all_wf(p.initial(), p.fixed());
    lemma_total_split(prover_state(p));
}

/// Fixing the next variable of a prover to `b` in {0, 1} leaves it standing
/// behind the value `g(b)` of the round polynomial it reported before.
pub proof fn lemma_fixing_bit_yields_round_value<P: SumCheckProver>(before: &P, after: &P, b: int)
    requires
        before.initial().wf(),
        before.fixed().len() < before.initial().nx + before.initial().ny,
        b == 0 || b == 1,
        after.initial() == before.initial(),
        after.fixed() == before.fixed().push(b),
    ensures
        prover_state(after).total() == prover_state(before).half(b),
{
    lemma_fix_all_wf(before.initial(), before.fixed());
    lemma_fix_all_push(before.initial(), before.fixed(), b);
    lemma_fix_bit(prover_state(before), b);
}

/// The restriction of an extension to the line through `b` and `c` takes the
/// extension's values at `b` at 0 and at `c` at 1.
pub proof fn lemma_restriction_endpoints(e: Seq<int>, b: Seq<int>, c: Seq<int>)
    requires
        b.len() == c.len(),
        reduced(b),
        reduced(c),
    ensures
        mle_eval(e, line(b, c, 0)) == mle_eval(e, b),
        mle_eval(e, line(b, c, 1)) == mle_eval(e, c),
{
    crate::util::lemma_line_endpoints(b, c);
}

/// The final oracle check of a standalone sum-check: once every variable is
/// fixed at `points`, the claim the verifier holds (the last round
/// polynomial at the last point) equals
/// `mult(g, b*, c*) W(b*) W(c*) + add(g, b*, c*) (W(b*) + W(c*))`, where
/// `b*` and `c*` are the two halves of the points.
pub open spec fn final_claim_holds(
    points: Seq<int>,
    gate: Seq<int>,
    add: Seq<int>,
    mult: Seq<int>,
    w: Seq<int>,
    claim: int,
) -> bool {
    let n = points.len() as int;
    let half = n / 2;
    let a = mle_eval(fold_all(add, gate), points);
    let m = mle_eval(fold_all(mult, gate), points);
    let l = mle_eval(w, points.subrange(0, half));
    let r = mle_eval(w, points.subrange(half, n));
    fadd(fmul(fmul(l, r), m), fmul(a, fadd(l, r))) == claim
}

/// An honest run passes the final oracle check: where the instance reads the
/// same extension `W` for both halves of the points, the sum the prover
/// stands behind once every variable is fixed is the value the check
/// expects.
pub proof fn lemma_honest_run_accepted(round: GKRRound, gate: Seq<int>, points: Seq<int>)
    requires
        round.wf(),
        round.vi.num_vars == round.vj.num_vars,
        round.vj.table() == round.vi.table(),
        gate.len() + round.vi.num_vars + round.vj.num_vars == round.mult_spec().num_vars,
        points.len() == 2 * round.vi.num_vars,
    ensures
        final_claim_holds(
            points,
            gate,
            round.add_spec().table(),
            round.mult_spec().table(),
            round.vi.table(),
            initial_state(round, gate).fix_all(points).total(),
        ),
{
    let t = round.vi.num_vars as nat;
    crate::sumcheck::instance::lemma_initial_wf(round, gate);
    assert(initial_state(round, gate) == crate::gkr::identity::gkr_start(
        round.add_spec().table(),
        round.mult_spec().table(),
        round.vi.table(),
        gate,
        t,
    ));
    crate::gkr::driver::lemma_layer_end(
        round.add_spec().table(),
        round.mult_spec().table(),
        round.vi.table(),
        gate,
        t,
        points,
    );
}

/// A verifier for one sum-check execution, described by the random points
/// it handed out (`points`), the claim it holds the prover to (`claim`) and
/// the degree bound of the round polynomials (`degree_bound`).
pub trait SumCheckVerifier: Sized {
    spec fn points(&self) -> Seq<int>;

    spec fn claim(&self) -> int;

    spec fn degree_bound(&self) -> nat;

    fn new(max_degree: usize, claim: Fe) -> (r: Self)
        ensures
            r.points() == Seq::<int>::empty(),
            r.claim() == claim@,
            r.degree_bound() == max_degree,
    ;

    /// Checks the degree of the round polynomial to ensure the prover does not cheat.
    fn verify_degree(&self, fx: &SparsePolynomial) -> (r: bool)
        ensures
            r == (fx.max_degree() < self.degree_bound()),
    ;

    /// Samples (and records) a random field element to send to the prover.
    fn get_random_field_element(&mut self) -> (r: Fe)
        ensures
            final(self).points() == old(self).points().push(r@),
            final(self).claim() == old(self).claim(),
            final(self).degree_bound() == old(self).degree_bound(),
    ;

    /// Checks that the round polynomial is consistent with the current
    /// claim: its entries sum to it.
    fn check_claimed_value(&self, fx: &SparsePolynomial) -> (r: bool)
        ensures
            r == (fx.coefficient_total() == self.claim()),
    ;

    /// Performs all checks for one round and returns the verifier's random
    /// point for this round; a round polynomial that fails a check is
    /// rejected, so the checks are required.
    fn handle_round(&mut self, fx: &SparsePolynomial) -> (r: Fe)
        requires
            fx.max_degree() < old(self).degree_bound(),
            fx.coefficient_total() == old(self).claim(),
        ensures
            final(self).points() == old(self).points().push(r@),
            final(self).claim() == old(self).claim(),
            final(self).degree_bound() == old(self).degree_bound(),
    ;

    fn set_claim(&mut self, claim: Fe)
        ensures
            final(self).points() == old(self).points(),
            final(self).claim() == claim@,
            final(self).degree_bound() == old(self).degree_bound(),
    ;

    /// Final oracle check of a standalone sum-check simulation; a failing
    /// check is a rejection, so it is required. The last round polynomial is
    /// of degree two, so its two entries in `vrf_func` do not give its value
    /// at the last point; the claim the verifier holds does. Inside GKR the final check is
    /// instead handled by reducing to a claim about the next layer, which is
    /// why this is given the layer MLE directly.
    fn final_check(
        &self,
        gate: &[Fe],
        add_pred: &SparseMultilinearExtension,
        mult_pred: &SparseMultilinearExtension,
        mle: DenseMultilinearExtension,
        vrf_func: Vec<(usize, Fe)>,
    )
        requires
            add_pred.wf(),
            mult_pred.wf(),
            mle.wf(),
            gate.len() + self.points().len() == add_pred.num_vars,
            gate.len() + self.points().len() == mult_pred.num_vars,
            self.points().len() == 2 * mle.num_vars,
            self.points().len() > 0,
            final_claim_holds(
                self.points(),
                vals(gate@),
                add_pred.table(),
                mult_pred.table(),
                mle.table(),
                self.claim(),
            ),
    ;
}

/// The terms `e[g] chi(g, z)` of the Lagrange form at a point.
pub open spec fn chi_terms(e: Seq<int>, z: Seq<int>) -> spec_fn(int) -> int {
    |g: int| e[g] * chi(g, z)
}

/// A table of `2^n` entries fits in memory only for `n < 64`.
pub proof fn lemma_small_num_vars(n: nat)
    requires
        pow2(n) <= usize::MAX,
    ensures
        n < 64,
{
    vstd::arithmetic::power2::lemma2_to64_rest();
    if n >= 64 {
        if n > 64 {
            vstd::arithmetic::power2::lemma_pow2_strictly_increases(64, n);
        }
    }
}

/// Multiplying a claim by a congruent factor.
pub proof fn lemma_cong_mul3(pv: int, tv: int, f: int, c: int)
    requires
        tv % modulus() == f % modulus(),
    ensures
        (((pv * tv) % modulus()) * c) % modulus() == (pv * (f * c)) % modulus(),
{
    let p = modulus();
    lemma_mul_mod_noop_left(pv * tv, c, p);
    assert((pv * tv) * c == (pv * c) * tv) by (nonlinear_arith);
    lemma_mul_mod_noop_general(pv * c, tv, p);
    lemma_mul_mod_noop_general(pv * c, f, p);
    assert((pv * c) * f == pv * (f * c)) by (nonlinear_arith);
}

/// Restricts `mle` to the line through `b` and `c` (their first
/// `num_vars` coordinates), returning the univariate polynomial
/// `q(t) = mle(l(t))` with `l(0) = b` and `l(1) = c`.
pub fn restrict_poly(b: &[Fe], c: &[Fe], mle: &DenseMultilinearExtension) -> (res: SparsePolynomial)
    requires
        mle.wf(),
        b.len() >= mle.num_vars,
        c.len() >= mle.num_vars,
    ensures
        forall|t: int| #[trigger] res.value(t) == mle_eval(
            mle.table(),
            line(vals(b@).take(mle.num_vars as int), vals(c@).take(mle.num_vars as int), t),
        ),
        res.max_degree() <= mle.num_vars,
{
    let nv = mle.num_vars;
    let ghost bv = vals(b@).take(nv as int);
    let ghost cv = vals(c@).take(nv as int);
    let ghost e = mle.table();
    proof {
        lemma_small_num_vars(nv as nat);
        lemma_vals_reduced(mle.evaluations@);
    }
    // k = c - b, coordinate by coordinate
    let mut k: Vec<Fe> = Vec::with_capacity(nv);
    let mut j: usize = 0;
    while j < nv
        invariant
            j <= nv,
            nv <= b.len(),
            nv <= c.len(),
            k.len() == j,
            forall|jj: int| 0 <= jj < j ==> (#[trigger] k@[jj])@ == (c@[jj]@ - b@[jj]@) % modulus(),
        decreases nv - j,
    {
        k.push(fe_sub(c[j], b[j]));
        j = j + 1;
    }
    let mut res = SparsePolynomial::zero();
    let n = mle.evaluations.len();
    let mut i: usize = 0;
    while i < n
        invariant
            n == mle.evaluations.len(),
            mle.wf(),
            nv == mle.num_vars,
            nv < 64,
            nv <= b.len(),
            nv <= c.len(),
            k.len() == nv,
            forall|jj: int| 0 <= jj < nv ==> (#[trigger] k@[jj])@ == (c@[jj]@ - b@[jj]@) % modulus(),
            bv == vals(b@).take(nv as int),
            cv == vals(c@).take(nv as int),
            e == mle.table(),
            i <= n,
            forall|t: int| #[trigger] res.value(t) == sum(chi_terms(e, line(bv, cv, t)), i as int) % modulus(),
            forall|kk: int| 0 <= kk < res.coeffs@.len() ==> #[trigger] res.coeffs@[kk].0 <= nv,
        decreases n - i,
    {
        let ev = mle.evaluations[i];
        let mut v0: Vec<(usize, Fe)> = Vec::new();
        v0.push((0, ev));
        let ghost cs0 = v0@;
        proof {
            crate::poly::lemma_sorted_terms(cs0);
        }
        let mut p = SparsePolynomial::from_coefficients_vec(v0);
        let mut rest = i;
        let mut bit: usize = 0;
        proof {
            assert(cs0[0] == (0usize, ev));
            assert forall|kk: int| 0 <= kk < p.coeffs@.len() implies #[trigger] p.coeffs@[kk].0 <= 0 by {
                assert(p.coeffs@[kk] == cs0[kk]);
            }
            crate::poly::lemma_max_index_bound(p.coeffs@, p.coeffs@.len() as int, 0);
            assert forall|t: int| #[trigger] p.value(t) == ev@ by {
                let cs = cs0;
                assert(sum(crate::poly::term_at(cs, t), 1) == sum(crate::poly::term_at(cs, t), 0) + crate::poly::term_at(cs, t)(0));
                assert(power(t, 0) == 1);
                lemma_mod_id(ev@);
            }
            assert forall|t: int| #[trigger] ((p.value(t) * chi(rest as int, line(bv, cv, t).skip(0))) % modulus())
                == (ev@ * chi(i as int, line(bv, cv, t))) % modulus() by {
                assert(line(bv, cv, t).skip(0) =~= line(bv, cv, t));
            }
            vstd::arithmetic::power2::lemma2_to64();
        }
        while bit < nv
            invariant
                nv < 64,
                nv <= b.len(),
                nv <= c.len(),
                k.len() == nv,
                forall|jj: int| 0 <= jj < nv ==> (#[trigger] k@[jj])@ == (c@[jj]@ - b@[jj]@) % modulus(),
                bv == vals(b@).take(nv as int),
                cv == vals(c@).take(nv as int),
                bit <= nv,
                p.coeffs.len() <= bit + 1,
                p.max_degree() <= bit,
                rest == i as int / (pow2(bit as nat) as int),
                forall|t: int| #[trigger] ((p.value(t) * chi(rest as int, line(bv, cv, t).skip(bit as int))) % modulus())
                    == (ev@ * chi(i as int, line(bv, cv, t))) % modulus(),
            decreases nv - bit,
        {
            let mut v1: Vec<(usize, Fe)> = Vec::new();
            v1.push((0, b[bit]));
            v1.push((1, k[bit]));
            let ghost cs1 = v1@;
            proof {
                assert(crate::poly::degree_sorted(cs1));
                crate::poly::lemma_sorted_terms(cs1);
            }
            let term0 = SparsePolynomial::from_coefficients_vec(v1);
            let ghost bb = b@[bit as int]@;
            let ghost kk = k@[bit as int]@;
            proof {
                assert forall|t: int| #[trigger] term0.value(t) == (bb + kk * t) % modulus() by {
                    let cs = cs1;
                    let f = crate::poly::term_at(cs, t);
                    assert(sum(f, 2) == sum(f, 1) + f(1));
                    assert(sum(f, 1) == sum(f, 0) + f(0));
                    assert(power(t, 0) == 1);
                    assert(power(t, 1) == t * power(t, 0));
                }
                crate::poly::lemma_max_index(term0.coeffs@, term0.coeffs@.len() as int);
                assert forall|kk: int| 0 <= kk < term0.coeffs@.len() implies #[trigger] term0.coeffs@[kk].0 <= 1 by {
                    assert(term0.coeffs@[kk] == cs1[kk]);
                }
                crate::poly::lemma_max_index_bound(term0.coeffs@, term0.coeffs@.len() as int, 1);
            }
            let term = if rest % 2 == 0 {
                term0.one_minus()
            } else {
                term0
            };
            proof {
                assert(p.coeffs.len() * term.coeffs.len() <= (bit + 1) * 3) by (nonlinear_arith)
                    requires
                        p.coeffs.len() <= bit + 1,
                        term.coeffs.len() <= 3,
                ;
            }
            let ghost pold = p;
            p = p.mul(&term);
            proof {
                assert forall|t: int| #[trigger] ((p.value(t) * chi((rest / 2) as int, line(bv, cv, t).skip(bit + 1))) % modulus())
                    == (ev@ * chi(i as int, line(bv, cv, t))) % modulus() by {
                    let z = line(bv, cv, t);
                    let zs = z.skip(bit as int);
                    assert(zs.drop_first() =~= z.skip(bit + 1));
                    assert(zs[0] == z[bit as int]);
                    let zb = z[bit as int];
                    assert(zb == (bb + t * (c@[bit as int]@ - bb)) % modulus());
                    let f = if rest % 2 == 0 { 1 - zb } else { zb };
                    assert(chi(rest as int, zs) == f * chi((rest / 2) as int, zs.drop_first()));
                    // the factor's value is congruent to f
                    let tv = term.value(t);
                    lemma_mul_mod_noop_left(c@[bit as int]@ - bb, t, modulus());
                    lemma_add_mod_noop_right(bb, kk * t, modulus());
                    lemma_add_mod_noop_right(bb, (c@[bit as int]@ - bb) * t, modulus());
                    assert((c@[bit as int]@ - bb) * t == t * (c@[bit as int]@ - bb)) by (nonlinear_arith);
                    assert(term0.value(t) == zb);
                    if rest % 2 == 0 {
                        lemma_mod_twice(1 - zb, modulus());
                        vstd::arithmetic::div_mod::lemma_sub_mod_noop_right(1, zb, modulus());
                        assert(tv % modulus() == f % modulus());
                    } else {
                        lemma_mod_twice(zb, modulus());
                    }
                    lemma_cong_mul3(pold.value(t), tv, f, chi((rest / 2) as int, zs.drop_first()));
                }
                vstd::arithmetic::power2::lemma_pow2_unfold((bit + 1) as nat);
                vstd::arithmetic::power2::lemma_pow2_pos(bit as nat);
                vstd::arithmetic::div_mod::lemma_div_denominator(i as int, pow2(bit as nat) as int, 2);
                assert(pow2(bit as nat) * 2 == pow2((bit + 1) as nat));
            }
            rest = rest / 2;
            bit = bit + 1;
        }
        let ghost rold = res;
        res.add_assign(&p);
        proof {
            crate::poly::lemma_max_index(p.coeffs@, p.coeffs@.len() as int);
            assert forall|kk: int| 0 <= kk < res.coeffs@.len() implies #[trigger] res.coeffs@[kk].0 <= nv by {
                if kk >= rold.coeffs@.len() {
                    assert(res.coeffs@[kk] == p.coeffs@[kk - rold.coeffs@.len()]);
                } else {
                    assert(res.coeffs@[kk] == rold.coeffs@[kk]);
                }
            }
            assert forall|t: int| #[trigger] res.value(t) == sum(chi_terms(e, line(bv, cv, t)), i + 1) % modulus() by {
                let z = line(bv, cv, t);
                assert(z.skip(nv as int) =~= Seq::<int>::empty());
                assert(chi(rest as int, z.skip(nv as int)) == 1);
                lemma_mod_twice(p.value(t), modulus());
                let s = sum(chi_terms(e, z), i as int);
                assert(sum(chi_terms(e, z), i + 1) == s + chi_terms(e, z)(i as int));
                assert(e[i as int] == ev@);
                crate::arith::lemma_fadd_acc(s, ev@ * chi(i as int, z));
                lemma_mod_twice(s, modulus());
                assert(p.value(t) * 1 == p.value(t));
            }
        }
        i = i + 1;
    }
    proof {
        crate::poly::lemma_max_index_bound(res.coeffs@, res.coeffs@.len() as int, nv as nat);
        assert forall|t: int| #[trigger] res.value(t) == mle_eval(e, line(bv, cv, t)) by {
            let z = line(bv, cv, t);
            assert(z.len() == nv);
            lemma_mle_eval_lagrange(e, z);
            lemma_sum_ext(chi_terms(e, z), lagrange_terms(e, z, 0), pow2(nv as nat) as int);
            lemma_fold_all_len(e, z, 0);
            lemma_vals_reduced(mle.evaluations@);
            vstd::arithmetic::power2::lemma2_to64();
            if nv > 0 {
                assert(reduced(crate::mle_spec::fold_all(e, z)));
            } else {
                assert(crate::mle_spec::fold_all(e, z) == e);
            }
            assert(0 <= crate::mle_spec::fold_all(e, z)[0] < modulus());
            lemma_mod_id(mle_eval(e, z));
        }
    }
    res
}

} // verus!
