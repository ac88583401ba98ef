//! The linear-time sum-check prover.
use crate::arith::{lemma_fadd_acc, lemma_mod_id, sum};
use crate::field::{fe_add, fe_mul, lemma_fe_range, modulus, Fe};
use crate::mle::{bucket, entries_weighted, fold_table, lemma_vals_reduced, pow2_usize, vals, DenseMultilinearExtension, SparseMultilinearExtension};
use crate::mle_spec::{fold, lemma_fold_bits};
use crate::sumcheck::instance::{initial_state, lemma_initial_wf, GKRRound};
use crate::sumcheck::protocol::SumCheckProver;
use crate::sumcheck::state::{lemma_fix_all_push, lemma_fix_all_tables, lemma_fix_all_wf, RoundState};
use crate::sumcheck::tables::{affine_terms, col_weight, lemma_col_sum_entries, lemma_phase_one_fold, lemma_phase_one_total, lemma_phase_two_fold, lemma_phase_two_total, lemma_sum_parity_part, lemma_tables_half, one_fn, parity_part, phase_one, phase_two, prod_terms, seq_fn, tables_total};
use crate::util::index_to_field_element;
use vstd::arithmetic::power2::{lemma_pow2_adds, lemma_pow2_pos, pow2};
use vstd::prelude::*;

verus! {

broadcast use lemma_fe_range;

/// A table of `n` zeros.
fn zero_table(n: usize) -> (r: Vec<Fe>)
    ensures
        r.len() == n,
        forall|j: int| 0 <= j < n ==> (#[trigger] r@[j])@ == 0,
{
    let mut r: Vec<Fe> = Vec::with_capacity(n);
    let mut i: usize = 0;
    while i < n
        invariant
            i <= n,
            r.len() == i,
            forall|j: int| 0 <= j < i ==> (#[trigger] r@[j])@ == 0,
        decreases n - i,
    {
        r.push(Fe::zero());
        i = i + 1;
    }
    r
}

/// The weighted column sums of sparse entries laid out in rows of `a`:
/// entry `(i, v)` adds `v · weights[i / a]` to column `i mod a`.
fn column_sums(es: &Vec<(usize, Fe)>, a: usize, weights: &Vec<Fe>) -> (r: Vec<Fe>)
    requires
        a > 0,
        forall|k: int| 0 <= k < es.len() ==> #[trigger] es@[k].0 < a * weights.len(),
    ensures
        r.len() == a,
        forall|x: int|
            0 <= x < a ==> (#[trigger] r@[x])@ == sum(
                entries_weighted(es@, col_weight(a as int, x, seq_fn(vals(weights@)))),
                es.len() as int,
            ) % modulus(),
{
    let ghost w = seq_fn(vals(weights@));
    let mut r = zero_table(a);
    proof {
        lemma_mod_id(0);
    }
    let mut k: usize = 0;
    while k < es.len()
        invariant
            a > 0,
            k <= es.len(),
            r.len() == a,
            w == seq_fn(vals(weights@)),
            forall|kk: int| 0 <= kk < es.len() ==> #[trigger] es@[kk].0 < a * weights.len(),
            forall|x: int|
                0 <= x < a ==> (#[trigger] r@[x])@ == sum(entries_weighted(es@, col_weight(a as int, x, w)), k as int)
                    % modulus(),
        decreases es.len() - k,
    {
        let (i, v) = es[k];
        proof {
            assert(es@[k as int].0 < a * weights.len());
            vstd::arithmetic::div_mod::lemma_fundamental_div_mod(i as int, a as int);
            vstd::arithmetic::div_mod::lemma_mod_bound(i as int, a as int);
            assert((i as int) / (a as int) < weights.len()) by (nonlinear_arith)
                requires
                    i as int == a * ((i as int) / (a as int)) + (i as int) % (a as int),
                    0 <= (i as int) % (a as int),
                    i < a * weights.len(),
                    a > 0,
            ;
        }
        let x0 = i % a;
        let y = i / a;
        let ghost old_r = r@;
        let t = fe_mul(v, weights[y]);
        let nv = fe_add(r[x0], t);
        r.set(x0, nv);
        proof {
            assert forall|x: int| 0 <= x < a implies (#[trigger] r@[x])@ == sum(
                entries_weighted(es@, col_weight(a as int, x, w)),
                k + 1,
            ) % modulus() by {
                let cw = col_weight(a as int, x, w);
                let s = sum(entries_weighted(es@, cw), k as int);
                assert(sum(entries_weighted(es@, cw), k + 1) == s + entries_weighted(es@, cw)(k as int));
                if x == x0 {
                    assert(cw(i as int) == vals(weights@)[y as int]);
                    lemma_fadd_acc(s, v@ * vals(weights@)[y as int]);
                    vstd::arithmetic::div_mod::lemma_mod_twice(s, modulus());
                } else {
                    assert(cw(i as int) == 0);
                    assert(r@[x] == old_r[x]);
                }
            }
        }
        k = k + 1;
    }
    r
}

/// The column sums of sparse entries laid out in rows of `a`: entry
/// `(i, v)` adds `v` to column `i mod a`.
fn column_totals(es: &Vec<(usize, Fe)>, a: usize) -> (r: Vec<Fe>)
    requires
        a > 0,
    ensures
        r.len() == a,
        forall|x: int|
            0 <= x < a ==> (#[trigger] r@[x])@ == sum(entries_weighted(es@, col_weight(a as int, x, one_fn())), es.len() as int)
                % modulus(),
{
    let mut r = zero_table(a);
    proof {
        lemma_mod_id(0);
    }
    let mut k: usize = 0;
    while k < es.len()
        invariant
            a > 0,
            k <= es.len(),
            r.len() == a,
            forall|x: int|
                0 <= x < a ==> (#[trigger] r@[x])@ == sum(entries_weighted(es@, col_weight(a as int, x, one_fn())), k as int)
                    % modulus(),
        decreases es.len() - k,
    {
        let (i, v) = es[k];
        let x0 = i % a;
        let ghost old_r = r@;
        let nv = fe_add(r[x0], v);
        r.set(x0, nv);
        proof {
            assert forall|x: int| 0 <= x < a implies (#[trigger] r@[x])@ == sum(
                entries_weighted(es@, col_weight(a as int, x, one_fn())),
                k + 1,
            ) % modulus() by {
                let cw = col_weight(a as int, x, one_fn());
                let s = sum(entries_weighted(es@, cw), k as int);
                assert(sum(entries_weighted(es@, cw), k + 1) == s + entries_weighted(es@, cw)(k as int));
                if x == x0 {
                    assert(cw(i as int) == 1);
                    lemma_fadd_acc(s, v@);
                    lemma_mod_id(v@);
                    vstd::arithmetic::div_mod::lemma_mod_twice(s, modulus());
                } else {
                    assert(cw(i as int) == 0);
                    assert(r@[x] == old_r[x]);
                }
            }
        }
        k = k + 1;
    }
    r
}

/// Linear-time sum-check prover following the prefix/suffix technique
/// (Thaler, ch. 4). Instead of re-evaluating the predicates every round it
/// maintains bookkeeping tables over the remaining hypercube (see
/// [`crate::sumcheck::tables`]), so the current sum is
/// `Σ_x mult_p·mult_q + add_pred·add_f2 + add_pred_f3`. Fixing a variable
/// folds each table in half. Once all `x` variables are fixed, phase two
/// re-initializes the tables over the `y` variables.
pub struct FastProver {
    fixed_mult: SparseMultilinearExtension,
    fixed_add: SparseMultilinearExtension,
    round: GKRRound,
    mult_p: Vec<Fe>,
    mult_q: Vec<Fe>,
    add_pred: Vec<Fe>,
    add_f2: Vec<Fe>,
    add_pred_f3: Vec<Fe>,
    fixed_variables: Vec<Fe>,
    has_phase_two_been_init: bool,
    /// Untouched copy of `vi`, kept for the layer-reduction message.
    layer_value_mle: DenseMultilinearExtension,
    /// The state the sum-check started from.
    start: Ghost<RoundState>,
}

impl FastProver {
    /// The remaining instance: the starting state with the fixed points applied.
    pub closed spec fn state(&self) -> RoundState {
        self.start@.fix_all(vals(self.fixed_variables@))
    }

    /// The predicates (restricted to the label) and the layer extensions
    /// hold the starting instance.
    pub closed spec fn base(&self) -> bool {
        let s = self.start@;
        &&& s.wf()
        &&& s.nx == s.ny
        &&& self.fixed_variables@.len() <= s.nx + s.ny
        &&& self.fixed_mult.wf()
        &&& self.fixed_add.wf()
        &&& self.fixed_mult.num_vars == s.nx + s.ny
        &&& self.fixed_add.num_vars == s.nx + s.ny
        &&& self.fixed_mult.table() == s.mult
        &&& self.fixed_add.table() == s.add
        &&& self.round.vi.wf()
        &&& self.round.vj.wf()
        &&& self.round.vi.num_vars == s.nx
        &&& self.round.vj.num_vars == s.ny
        &&& self.round.vi.table() == s.vi
        &&& self.round.vj.table() == s.vj
    }

    /// The tables hold their phase-one contents.
    pub closed spec fn in_phase_one(&self) -> bool {
        phase_one(
            self.state(),
            vals(self.mult_p@),
            vals(self.mult_q@),
            vals(self.add_pred@),
            vals(self.add_f2@),
            vals(self.add_pred_f3@),
        )
    }

    /// The tables hold their phase-two contents.
    pub closed spec fn in_phase_two(&self) -> bool {
        phase_two(
            self.state(),
            vals(self.mult_p@),
            vals(self.mult_q@),
            vals(self.add_pred@),
            vals(self.add_f2@),
            vals(self.add_pred_f3@),
        )
    }

    /// The length of the bookkeeping tables: `2^k` for the `k` variables
    /// remaining in the current phase.
    pub closed spec fn table_len(&self) -> nat {
        if self.has_phase_two_been_init {
            pow2(self.state().ny)
        } else if self.start@.nx > 0 {
            pow2(self.state().nx)
        } else {
            0
        }
    }

    /// The table `mult_p` (`Σ_y mult·vj` per `x` in phase one, `mult` in phase two).
    pub fn mult_p(&self) -> (r: &[Fe])
        requires
            self.inv(),
        ensures
            r@.len() == self.table_len(),
    {
        proof {
            lemma_vals_reduced(self.mult_p@);
            lemma_fix_all_wf(self.start@, vals(self.fixed_variables@));
        }
        self.mult_p.as_slice()
    }

    /// The table `mult_q` (`vi` in phase one, `vi(b*)·vj` in phase two).
    pub fn mult_q(&self) -> (r: &[Fe])
        requires
            self.inv(),
        ensures
            r@.len() == self.table_len(),
    {
        proof {
            lemma_vals_reduced(self.mult_q@);
        }
        self.mult_q.as_slice()
    }

    /// Phase one runs until every `x` variable is fixed; phase two starts
    /// as soon as the last of them is (at once where there is none).
    pub closed spec fn inv(&self) -> bool {
        &&& self.base()
        &&& if self.has_phase_two_been_init {
            self.fixed_variables@.len() >= self.start@.nx && self.in_phase_two()
        } else {
            &&& self.fixed_variables@.len() <= self.start@.nx
            &&& self.start@.nx > 0 ==> self.in_phase_one()
            &&& self.start@.nx == 0 ==> self.mult_p@.len() == 0 && self.mult_q@.len() == 0
        }
    }

    /// Creates the prover for `round`, its predicates restricted to the label
    /// `gate`, and fills the phase-one tables when there are `x` variables,
    /// the phase-two tables otherwise.
    pub fn new(round: GKRRound, gate: &[Fe]) -> (r: Self)
        requires
            round.wf(),
            round.vi.num_vars == round.vj.num_vars,
            gate.len() + round.vi.num_vars + round.vj.num_vars == round.mult_spec().num_vars,
        ensures
            r.wf(),
            r.initial() == initial_state(round, vals(gate@)),
            r.fixed() == Seq::<int>::empty(),
            r.layer_mle()@ == round.vi@,
            r.ready(),
    {
        proof {
            lemma_initial_wf(round, vals(gate@));
            lemma_vals_reduced(gate@);
        }
        let should_initialize_phase_one = round.vi.num_vars > 0;
        let fixed_mult = round.mult_predicate().fix_variables(gate);
        let fixed_add = round.add_predicate().fix_variables(gate);
        let layer_value_mle = round.vi.duplicate();
        let mut prover = FastProver {
            fixed_mult,
            fixed_add,
            mult_p: Vec::new(),
            mult_q: Vec::new(),
            add_f2: Vec::new(),
            add_pred: Vec::new(),
            add_pred_f3: Vec::new(),
            fixed_variables: Vec::new(),
            has_phase_two_been_init: false,
            layer_value_mle,
            round,
            start: Ghost(initial_state(round, vals(gate@))),
        };
        proof {
            assert(vals(prover.fixed_variables@) =~= Seq::<int>::empty());
        }
        if should_initialize_phase_one {
            prover.initialize_phase_one();
        } else {
            prover.has_phase_two_been_init = true;
            prover.initialize_phase_two();
        }
        prover
    }

    /// Fills the phase-one tables from the predicates and the extensions.
    fn initialize_phase_one(&mut self)
        requires
            old(self).base(),
            old(self).fixed_variables@.len() == 0,
            old(self).start@.nx > 0,
            !old(self).has_phase_two_been_init,
        ensures
            final(self).inv(),
            final(self).start == old(self).start,
            final(self).fixed_variables == old(self).fixed_variables,
            final(self).layer_value_mle == old(self).layer_value_mle,
            final(self).has_phase_two_been_init == old(self).has_phase_two_been_init,
    {
        let ghost s = self.start@;
        proof {
            assert(vals(self.fixed_variables@) =~= Seq::<int>::empty());
            assert(self.state() == s);
            lemma_pow2_adds(s.nx, s.ny);
            lemma_pow2_pos(s.nx);
            lemma_pow2_pos(s.ny);
            assert(pow2(s.nx) <= pow2(s.nx + s.ny)) by (nonlinear_arith)
                requires
                    pow2(s.nx + s.ny) == pow2(s.nx) * pow2(s.ny),
                    pow2(s.ny) >= 1,
            ;
        }
        let dim = self.round.vi.num_vars;
        let size = pow2_usize(dim);
        let ghost a = size as int;
        let ghost b = pow2(s.ny) as int;
        proof {
            assert forall|k: int| 0 <= k < self.fixed_mult.evaluations.len() implies #[trigger] self.fixed_mult.evaluations@[k].0
                < size * self.round.vj.evaluations.len() by {
                assert(self.fixed_mult.evaluations@[k].0 < pow2(self.fixed_mult.num_vars as nat));
            }
            assert forall|k: int| 0 <= k < self.fixed_add.evaluations.len() implies #[trigger] self.fixed_add.evaluations@[k].0
                < size * self.round.vj.evaluations.len() by {
                assert(self.fixed_add.evaluations@[k].0 < pow2(self.fixed_add.num_vars as nat));
            }
        }
        let mult_p = column_sums(&self.fixed_mult.evaluations, size, &self.round.vj.evaluations);
        let add_pred_f3 = column_sums(&self.fixed_add.evaluations, size, &self.round.vj.evaluations);
        let add_pred = column_totals(&self.fixed_add.evaluations, size);
        let mut mult_q: Vec<Fe> = Vec::with_capacity(size);
        let mut add_f2: Vec<Fe> = Vec::with_capacity(size);
        let mut i: usize = 0;
        while i < size
            invariant
                self.base(),
                s == self.start@,
                dim == s.nx,
                size == pow2(s.nx),
                i <= size,
                mult_q.len() == i,
                add_f2.len() == i,
                forall|j: int| 0 <= j < i ==> (#[trigger] mult_q@[j])@ == s.vi[j],
                forall|j: int| 0 <= j < i ==> (#[trigger] add_f2@[j])@ == s.vi[j],
            decreases size - i,
        {
            let i_index = index_to_field_element(i, dim);
            let vi_val = self.round.vi.evaluate(&i_index);
            proof {
                assert(s.nx + 0 == s.nx);
                lemma_vals_reduced(self.round.vi.evaluations@);
                lemma_fold_bits(s.vi, i as int, s.nx, 0);
                vstd::arithmetic::power2::lemma2_to64();
            }
            mult_q.push(vi_val);
            add_f2.push(vi_val);
            i = i + 1;
        }
        self.mult_p = mult_p;
        self.mult_q = mult_q;
        self.add_pred = add_pred;
        self.add_f2 = add_f2;
        self.add_pred_f3 = add_pred_f3;
        proof {
            let vjf = seq_fn(s.vj);
            assert(vals(self.round.vj.evaluations@) == s.vj);
            assert forall|x: int| 0 <= x < a implies #[trigger] vals(self.mult_p@)[x] == crate::sumcheck::tables::col_sum(
                s.mult,
                a,
                x,
                vjf,
                b,
            ) by {
                lemma_col_sum_entries(self.fixed_mult.evaluations@, s.nx + s.ny, s.mult, a, b, x, vjf);
            }
            assert forall|x: int| 0 <= x < a implies #[trigger] vals(self.add_pred_f3@)[x] == crate::sumcheck::tables::col_sum(
                s.add,
                a,
                x,
                vjf,
                b,
            ) by {
                lemma_col_sum_entries(self.fixed_add.evaluations@, s.nx + s.ny, s.add, a, b, x, vjf);
            }
            assert forall|x: int| 0 <= x < a implies #[trigger] vals(self.add_pred@)[x] == crate::sumcheck::tables::col_sum(
                s.add,
                a,
                x,
                one_fn(),
                b,
            ) by {
                lemma_col_sum_entries(self.fixed_add.evaluations@, s.nx + s.ny, s.add, a, b, x, one_fn());
            }
            assert forall|x: int| 0 <= x < a implies #[trigger] vals(self.mult_q@)[x] == s.vi[x] by {
                assert(self.mult_q@[x]@ == s.vi[x]);
            }
            assert forall|x: int| 0 <= x < a implies #[trigger] vals(self.add_f2@)[x] == s.vi[x] by {
                assert(self.add_f2@[x]@ == s.vi[x]);
            }
        }
    }

    /// Re-initializes the tables over the `y` variables once every `x`
    /// variable has been fixed at `b*`. The remaining sum is
    /// `Σ_y mult(b*,y)·vi(b*)·vj(y) + add(b*,y)·(vi(b*) + vj(y))`,
    /// where each factor is multilinear in `y`, so it maps onto the same
    /// two-table fold machinery as phase one (with `add_pred_f3` zero).
    fn initialize_phase_two(&mut self)
        requires
            old(self).base(),
            old(self).fixed_variables@.len() == old(self).start@.nx,
        ensures
            final(self).base(),
            final(self).in_phase_two(),
            final(self).start == old(self).start,
            final(self).fixed_variables == old(self).fixed_variables,
            final(self).layer_value_mle == old(self).layer_value_mle,
            final(self).has_phase_two_been_init == old(self).has_phase_two_been_init,
    {
        let ghost s = self.start@;
        let ghost st = self.state();
        proof {
            lemma_fix_all_wf(s, vals(self.fixed_variables@));
            lemma_fix_all_tables(s, vals(self.fixed_variables@));
            lemma_vals_reduced(self.round.vj.evaluations@);
            lemma_pow2_adds(s.nx, s.ny);
            lemma_pow2_pos(s.nx);
            assert(pow2(s.ny) <= pow2(s.nx + s.ny)) by (nonlinear_arith)
                requires
                    pow2(s.nx + s.ny) == pow2(s.nx) * pow2(s.ny),
                    pow2(s.nx) >= 1,
            ;
        }
        let size = pow2_usize(self.round.vj.num_vars);
        let fixed_mult = self.fixed_mult.fix_variables(self.fixed_variables.as_slice());
        let fixed_add = self.fixed_add.fix_variables(self.fixed_variables.as_slice());
        let vi_at_fixed = self.round.vi.evaluate(self.fixed_variables.as_slice());
        let mut mult_q: Vec<Fe> = Vec::with_capacity(size);
        let mut add_f2: Vec<Fe> = Vec::with_capacity(size);
        let mut i: usize = 0;
        while i < size
            invariant
                self.base(),
                s == self.start@,
                st.wf(),
                st.vj == s.vj,
                st.ny == s.ny,
                size == pow2(s.ny),
                i <= size,
                mult_q.len() == i,
                add_f2.len() == i,
                forall|j: int| 0 <= j < i ==> (#[trigger] mult_q@[j])@ == crate::field::fmul(vi_at_fixed@, st.vj[j]),
                forall|j: int| 0 <= j < i ==> (#[trigger] add_f2@[j])@ == crate::field::fadd(vi_at_fixed@, st.vj[j]),
            decreases size - i,
        {
            let field_index = index_to_field_element(i, self.round.vj.num_vars);
            let vj_i = self.round.vj.evaluate(&field_index);
            proof {
                assert(s.ny + 0 == s.ny);
                lemma_fold_bits(s.vj, i as int, s.ny, 0);
                vstd::arithmetic::power2::lemma2_to64();
            }
            mult_q.push(fe_mul(vi_at_fixed, vj_i));
            add_f2.push(fe_add(vi_at_fixed, vj_i));
            i = i + 1;
        }
        let mult_p = bucket(&fixed_mult.evaluations, size);
        let add_pred = bucket(&fixed_add.evaluations, size);
        let add_pred_f3 = zero_table(size);
        self.mult_p = mult_p;
        self.mult_q = mult_q;
        self.add_pred = add_pred;
        self.add_f2 = add_f2;
        self.add_pred_f3 = add_pred_f3;
        proof {
            assert(st == self.state());
            assert(vals(self.mult_p@) =~= st.mult);
            assert(vals(self.add_pred@) =~= st.add);
            lemma_mod_id(0);
        }
    }

    /// Folds the multiplication tables in half by fixing their lowest
    /// variable to `r`.
    fn fix_variable_mult(&mut self, r: Fe)
        ensures
            vals(final(self).mult_p@) == fold(vals(old(self).mult_p@), r@),
            vals(final(self).mult_q@) == fold(vals(old(self).mult_q@), r@),
            final(self).add_pred == old(self).add_pred,
            final(self).add_f2 == old(self).add_f2,
            final(self).add_pred_f3 == old(self).add_pred_f3,
            final(self).fixed_mult == old(self).fixed_mult,
            final(self).fixed_add == old(self).fixed_add,
            final(self).round == old(self).round,
            final(self).fixed_variables == old(self).fixed_variables,
            final(self).has_phase_two_been_init == old(self).has_phase_two_been_init,
            final(self).layer_value_mle == old(self).layer_value_mle,
            final(self).start == old(self).start,
    {
        let new_p = fold_table(&self.mult_p, r);
        let new_q = fold_table(&self.mult_q, r);
        self.mult_p = new_p;
        self.mult_q = new_q;
    }

    /// Folds the addition tables in half by fixing their lowest variable to `r`.
    fn fix_variable_add(&mut self, r: Fe)
        ensures
            vals(final(self).add_pred@) == fold(vals(old(self).add_pred@), r@),
            vals(final(self).add_f2@) == fold(vals(old(self).add_f2@), r@),
            vals(final(self).add_pred_f3@) == fold(vals(old(self).add_pred_f3@), r@),
            final(self).mult_p == old(self).mult_p,
            final(self).mult_q == old(self).mult_q,
            final(self).fixed_mult == old(self).fixed_mult,
            final(self).fixed_add == old(self).fixed_add,
            final(self).round == old(self).round,
            final(self).fixed_variables == old(self).fixed_variables,
            final(self).has_phase_two_been_init == old(self).has_phase_two_been_init,
            final(self).layer_value_mle == old(self).layer_value_mle,
            final(self).start == old(self).start,
    {
        let new_add_pred = fold_table(&self.add_pred, r);
        let new_add_f2 = fold_table(&self.add_f2, r);
        let new_add_pred_f3 = fold_table(&self.add_pred_f3, r);
        self.add_pred = new_add_pred;
        self.add_f2 = new_add_f2;
        self.add_pred_f3 = new_add_pred_f3;
    }

    /// `Σ mult_p·mult_q + add_pred·add_f2 + add_pred_f3`.
    fn tables_sum(&self) -> (r: Fe)
        requires
            self.mult_q.len() == self.mult_p.len(),
            self.add_f2.len() == self.add_pred.len(),
            self.add_pred_f3.len() == self.add_pred.len(),
        ensures
            r@ == tables_total(
                vals(self.mult_p@),
                vals(self.mult_q@),
                vals(self.add_pred@),
                vals(self.add_f2@),
                vals(self.add_pred_f3@),
            ),
    {
        let ghost mp = vals(self.mult_p@);
        let ghost mq = vals(self.mult_q@);
        let ghost ap = vals(self.add_pred@);
        let ghost af2 = vals(self.add_f2@);
        let ghost f3 = vals(self.add_pred_f3@);
        let mut sum_acc = Fe::zero();
        proof {
            lemma_mod_id(0);
        }
        let mut i: usize = 0;
        while i < self.mult_p.len()
            invariant
                i <= self.mult_p.len(),
                self.mult_q.len() == self.mult_p.len(),
                mp == vals(self.mult_p@),
                mq == vals(self.mult_q@),
                sum_acc@ == sum(prod_terms(mp, mq), i as int) % modulus(),
            decreases self.mult_p.len() - i,
        {
            let ghost s = sum(prod_terms(mp, mq), i as int);
            sum_acc = fe_add(sum_acc, fe_mul(self.mult_p[i], self.mult_q[i]));
            proof {
                lemma_fadd_acc(s, prod_terms(mp, mq)(i as int));
                vstd::arithmetic::div_mod::lemma_mod_twice(s, modulus());
            }
            i = i + 1;
        }
        let ghost m = sum(prod_terms(mp, mq), mp.len() as int);
        let mut i: usize = 0;
        while i < self.add_pred.len()
            invariant
                i <= self.add_pred.len(),
                self.add_f2.len() == self.add_pred.len(),
                self.add_pred_f3.len() == self.add_pred.len(),
                ap == vals(self.add_pred@),
                af2 == vals(self.add_f2@),
                f3 == vals(self.add_pred_f3@),
                sum_acc@ == (m + sum(affine_terms(ap, af2, f3), i as int)) % modulus(),
            decreases self.add_pred.len() - i,
        {
            let ghost s = m + sum(affine_terms(ap, af2, f3), i as int);
            let ghost pa = self.add_pred@[i as int]@;
            let ghost pb = self.add_f2@[i as int]@;
            let ghost pc = self.add_pred_f3@[i as int]@;
            sum_acc = fe_add(sum_acc, fe_mul(self.add_pred[i], self.add_f2[i]));
            sum_acc = fe_add(sum_acc, self.add_pred_f3[i]);
            proof {
                lemma_fadd_acc(s, pa * pb);
                vstd::arithmetic::div_mod::lemma_mod_twice(s, modulus());
                lemma_fadd_acc(s + pa * pb, pc);
                vstd::arithmetic::div_mod::lemma_mod_twice(s + pa * pb, modulus());
                lemma_mod_id(pc);
            }
            i = i + 1;
        }
        sum_acc
    }
}

impl SumCheckProver for FastProver {
    closed spec fn wf(&self) -> bool {
        self.inv()
    }

    closed spec fn initial(&self) -> RoundState {
        self.start@
    }

    closed spec fn fixed(&self) -> Seq<int> {
        vals(self.fixed_variables@)
    }

    closed spec fn ready(&self) -> bool {
        self.has_phase_two_been_init || self.fixed_variables@.len() < self.start@.nx
    }

    closed spec fn layer_mle(&self) -> DenseMultilinearExtension {
        self.layer_value_mle
    }

    fn new(round: GKRRound, gate: &[Fe]) -> (r: Self) {
        FastProver::new(round, gate)
    }

    fn compute_sum(&mut self) -> (r: Fe) {
        if self.fixed_variables.len() == self.round.vi.num_vars && !self.has_phase_two_been_init {
            self.has_phase_two_been_init = true;
            self.initialize_phase_two();
        }
        let ghost st = self.state();
        proof {
            lemma_fix_all_wf(self.start@, vals(self.fixed_variables@));
            if self.has_phase_two_been_init {
                lemma_phase_two_total(
                    st,
                    vals(self.mult_p@),
                    vals(self.mult_q@),
                    vals(self.add_pred@),
                    vals(self.add_f2@),
                    vals(self.add_pred_f3@),
                );
            } else {
                lemma_phase_one_total(
                    st,
                    vals(self.mult_p@),
                    vals(self.mult_q@),
                    vals(self.add_pred@),
                    vals(self.add_f2@),
                    vals(self.add_pred_f3@),
                );
            }
        }
        self.tables_sum()
    }

    fn get_verifier_function(&mut self) -> (r: Vec<(usize, Fe)>) {
        let ghost st = self.state();
        let ghost mp = vals(self.mult_p@);
        let ghost mq = vals(self.mult_q@);
        let ghost ap = vals(self.add_pred@);
        let ghost af2 = vals(self.add_f2@);
        let ghost f3 = vals(self.add_pred_f3@);
        proof {
            lemma_fix_all_wf(self.start@, vals(self.fixed_variables@));
            lemma_vals_reduced(self.mult_p@);
            lemma_vals_reduced(self.mult_q@);
            lemma_vals_reduced(self.add_pred@);
            lemma_vals_reduced(self.add_f2@);
            lemma_vals_reduced(self.add_pred_f3@);
            if st.nx + st.ny > 0 {
                lemma_tables_half(st, mp, mq, ap, af2, f3, 0);
                lemma_tables_half(st, mp, mq, ap, af2, f3, 1);
            } else {
                lemma_phase_two_total(st, mp, mq, ap, af2, f3);
                vstd::arithmetic::power2::lemma2_to64();
            }
        }
        let ghost pt = prod_terms(mp, mq);
        let ghost at = affine_terms(ap, af2, f3);
        let mut s0 = Fe::zero();
        let mut s1 = Fe::zero();
        proof {
            lemma_mod_id(0);
        }
        let mut mask: usize = 0;
        while mask < self.mult_p.len()
            invariant
                mask <= self.mult_p.len(),
                self.mult_q.len() == self.mult_p.len(),
                mp == vals(self.mult_p@),
                mq == vals(self.mult_q@),
                pt == prod_terms(mp, mq),
                s0@ == sum(parity_part(pt, 0), mask as int) % modulus(),
                s1@ == sum(parity_part(pt, 1), mask as int) % modulus(),
            decreases self.mult_p.len() - mask,
        {
            let value = fe_mul(self.mult_p[mask], self.mult_q[mask]);
            let ghost a0 = sum(parity_part(pt, 0), mask as int);
            let ghost a1 = sum(parity_part(pt, 1), mask as int);
            if mask % 2 == 0 {
                s0 = fe_add(s0, value);
                proof {
                    lemma_fadd_acc(a0, pt(mask as int));
                    vstd::arithmetic::div_mod::lemma_mod_twice(a0, modulus());
                }
            } else {
                s1 = fe_add(s1, value);
                proof {
                    lemma_fadd_acc(a1, pt(mask as int));
                    vstd::arithmetic::div_mod::lemma_mod_twice(a1, modulus());
                }
            }
            mask = mask + 1;
        }
        let ghost m0 = sum(parity_part(pt, 0), mp.len() as int);
        let ghost m1 = sum(parity_part(pt, 1), mp.len() as int);
        let mut mask: usize = 0;
        while mask < self.add_pred.len()
            invariant
                mask <= self.add_pred.len(),
                self.add_f2.len() == self.add_pred.len(),
                self.add_pred_f3.len() == self.add_pred.len(),
                ap == vals(self.add_pred@),
                af2 == vals(self.add_f2@),
                f3 == vals(self.add_pred_f3@),
                at == affine_terms(ap, af2, f3),
                s0@ == (m0 + sum(parity_part(at, 0), mask as int)) % modulus(),
                s1@ == (m1 + sum(parity_part(at, 1), mask as int)) % modulus(),
            decreases self.add_pred.len() - mask,
        {
            let value = fe_add(fe_mul(self.add_pred[mask], self.add_f2[mask]), self.add_pred_f3[mask]);
            let ghost a0 = m0 + sum(parity_part(at, 0), mask as int);
            let ghost a1 = m1 + sum(parity_part(at, 1), mask as int);
            proof {
                let pa = self.add_pred@[mask as int]@;
                let pb = self.add_f2@[mask as int]@;
                let pc = self.add_pred_f3@[mask as int]@;
                lemma_fadd_acc(pa * pb, pc);
                lemma_mod_id(pc);
            }
            if mask % 2 == 0 {
                s0 = fe_add(s0, value);
                proof {
                    lemma_fadd_acc(a0, at(mask as int));
                    vstd::arithmetic::div_mod::lemma_mod_twice(a0, modulus());
                }
            } else {
                s1 = fe_add(s1, value);
                proof {
                    lemma_fadd_acc(a1, at(mask as int));
                    vstd::arithmetic::div_mod::lemma_mod_twice(a1, modulus());
                }
            }
            mask = mask + 1;
        }
        proof {
            let h = mp.len() as int / 2;
            if st.nx + st.ny > 0 {
                lemma_sum_parity_part(pt, 0, h);
                lemma_sum_parity_part(pt, 1, h);
                lemma_sum_parity_part(at, 0, h);
                lemma_sum_parity_part(at, 1, h);
            } else {
                assert(mp.len() == 1);
                assert(sum(parity_part(pt, 0), 0) == 0 && sum(parity_part(at, 0), 0) == 0);
                assert(sum(parity_part(pt, 1), 0) == 0 && sum(parity_part(at, 1), 0) == 0);
                assert(sum(prod_terms(mp, mq), 0) == 0 && sum(affine_terms(ap, af2, f3), 0) == 0);
                assert(sum(parity_part(pt, 0), 1) == pt(0));
                assert(sum(parity_part(at, 0), 1) == at(0));
                assert(sum(parity_part(pt, 1), 1) == 0);
                assert(sum(parity_part(at, 1), 1) == 0);
                assert(sum(prod_terms(mp, mq), 1) == pt(0));
                assert(sum(affine_terms(ap, af2, f3), 1) == at(0));
                crate::arith::lemma_mod_id(0);
            }
        }
        vec![(0, s0), (1, s1)]
    }

    fn fix_variable(&mut self, r: Fe) {
        let ghost st = self.state();
        proof {
            lemma_fix_all_wf(self.start@, vals(self.fixed_variables@));
            lemma_fix_all_push(self.start@, vals(self.fixed_variables@), r@);
            assert(vals(self.fixed_variables@.push(r)) =~= vals(self.fixed_variables@).push(r@));
            if self.has_phase_two_been_init {
                lemma_phase_two_fold(
                    st,
                    vals(self.mult_p@),
                    vals(self.mult_q@),
                    vals(self.add_pred@),
                    vals(self.add_f2@),
                    vals(self.add_pred_f3@),
                    r@,
                );
            } else {
                lemma_phase_one_fold(
                    st,
                    vals(self.mult_p@),
                    vals(self.mult_q@),
                    vals(self.add_pred@),
                    vals(self.add_f2@),
                    vals(self.add_pred_f3@),
                    r@,
                );
            }
        }
        self.fixed_variables.push(r);
        self.fix_variable_mult(r);
        self.fix_variable_add(r);
        if self.fixed_variables.len() == self.round.vi.num_vars && !self.has_phase_two_been_init {
            self.has_phase_two_been_init = true;
            self.initialize_phase_two();
        }
    }

    fn fixed_variables(&self) -> (r: &[Fe]) {
        self.fixed_variables.as_slice()
    }

    fn layer_value_mle(&self) -> (r: &DenseMultilinearExtension) {
        &self.layer_value_mle
    }
}

} // verus!
