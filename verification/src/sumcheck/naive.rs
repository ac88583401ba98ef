//! A sum-check prover that recomputes the full sum from scratch every round.
use crate::arith::{lemma_acc_term, lemma_fadd_acc, lemma_fmul3, lemma_fmul_distrib, lemma_packed, row, row_sums, sum};
use crate::field::{fe_add, fe_mul, lemma_fe_range, modulus, Fe};
use crate::mle::{
    entries_weighted, lemma_vals_reduced, pow2_usize, vals, DenseMultilinearExtension,
    SparseMultilinearExtension,
};
use crate::mle_spec::lemma_fold_bits;
use crate::sumcheck::instance::{initial_state, lemma_initial_wf, GKRRound};
use crate::sumcheck::protocol::SumCheckProver;
use crate::sumcheck::state::{lemma_fix_all_push, lemma_fix_all_wf, lemma_fix_wf, lemma_half_by_entries, lemma_total_rows, RoundState};
use crate::util::index_to_field_element;
use vstd::arithmetic::power2::{lemma_pow2_adds, lemma_pow2_pos, pow2};
use vstd::prelude::*;

verus! {

broadcast use lemma_fe_range;

/// Naive sum-check prover: fixes variables directly in the multilinear
/// extensions and recomputes the whole sum whenever it is queried, giving the
/// baseline the linear-time [`FastProver`](crate::sumcheck::fast::FastProver)
/// is benchmarked against.
pub struct NaiveProver {
    round: GKRRound,
    /// The multiplication predicate restricted to the label.
    fixed_mult: SparseMultilinearExtension,
    /// The addition predicate restricted to the label.
    fixed_add: SparseMultilinearExtension,
    fixed_variables: Vec<Fe>,
    /// Untouched copy of `vi`, kept for the layer-reduction message.
    layer_value_mle: DenseMultilinearExtension,
    /// The state the sum-check started from.
    start: Ghost<RoundState>,
}

/// `2^a <= 2^(a + b)`.
proof fn lemma_pow2_le_sum(a: nat, b: nat)
    ensures
        pow2(a) <= pow2(a + b),
        pow2(b) <= pow2(a + b),
{
    lemma_pow2_adds(a, b);
    lemma_pow2_pos(a);
    lemma_pow2_pos(b);
    assert(pow2(a) <= pow2(a) * pow2(b)) by (nonlinear_arith)
        requires
            pow2(b) >= 1,
    ;
    assert(pow2(b) <= pow2(a) * pow2(b)) by (nonlinear_arith)
        requires
            pow2(a) >= 1,
    ;
}

impl NaiveProver {
    /// The remaining instance: the starting state with the fixed points applied.
    pub closed spec fn state(&self) -> RoundState {
        self.start@.fix_all(vals(self.fixed_variables@))
    }

    /// The predicates and extensions hold the tables of the remaining instance.
    pub closed spec fn inv(&self) -> bool {
        let st = self.state();
        &&& self.start@.wf()
        &&& self.fixed_variables@.len() <= self.start@.nx + self.start@.ny
        &&& self.fixed_mult.wf()
        &&& self.fixed_add.wf()
        &&& self.fixed_mult.num_vars == st.nx + st.ny
        &&& self.fixed_add.num_vars == st.nx + st.ny
        &&& self.fixed_mult.table() == st.mult
        &&& self.fixed_add.table() == st.add
        &&& self.round.vi.wf()
        &&& self.round.vj.wf()
        &&& self.round.vi.num_vars == st.nx
        &&& self.round.vj.num_vars == st.ny
        &&& self.round.vi.table() == st.vi
        &&& self.round.vj.table() == st.vj
    }

    /// Creates the prover for `round`, its predicates restricted to the label `gate`.
    pub fn new(round: GKRRound, gate: &[Fe]) -> (r: Self)
        requires
            round.wf(),
            gate.len() + round.vi.num_vars + round.vj.num_vars == round.mult_spec().num_vars,
        ensures
            r.wf(),
            r.initial() == initial_state(round, vals(gate@)),
            r.fixed() == Seq::<int>::empty(),
            r.layer_mle()@ == round.vi@,
    {
        proof {
            lemma_initial_wf(round, vals(gate@));
            lemma_vals_reduced(gate@);
        }
        let fixed_mult = round.mult_predicate().fix_variables(gate);
        let fixed_add = round.add_predicate().fix_variables(gate);
        let layer_value_mle = round.vi.duplicate();
        let r = NaiveProver {
            layer_value_mle,
            round,
            fixed_mult,
            fixed_add,
            fixed_variables: Vec::new(),
            start: Ghost(initial_state(round, vals(gate@))),
        };
        proof {
            assert(vals(r.fixed_variables@) =~= Seq::<int>::empty());
        }
        r
    }

    /// Evaluates the GKR layer sum
    /// `Σ_{x,y} add(g,x,y)·(vi(x) + vj(y)) + mult(g,x,y)·vi(x)·vj(y)`
    /// over the remaining hypercube by brute force.
    fn calculate_sum_naive(&self) -> (r: Fe)
        requires
            self.inv(),
        ensures
            r@ == self.state().total(),
    {
        let ghost st = self.state();
        proof {
            lemma_fix_all_wf(self.start@, vals(self.fixed_variables@));
            lemma_pow2_le_sum(st.nx, st.ny);
        }
        let vi_variables = self.round.vi.num_vars;
        let vj_variables = self.round.vj.num_vars;
        let size_x = pow2_usize(vi_variables);
        let size_y = pow2_usize(vj_variables);
        let ghost a = pow2(st.nx) as int;
        let ghost b = pow2(st.ny) as int;
        let ghost f2 = st.packed_terms();
        let mut sum_xy = Fe::zero();
        let mut x: usize = 0;
        proof {
            crate::arith::lemma_mod_id(0);
        }
        while x < size_x
            invariant
                self.inv(),
                st == self.state(),
                st.wf(),
                vi_variables == st.nx,
                vj_variables == st.ny,
                size_x == a,
                size_y == b,
                a == pow2(st.nx),
                b == pow2(st.ny),
                f2 == st.packed_terms(),
                x <= size_x,
                sum_xy@ == sum(row_sums(f2, b), x as int) % modulus(),
            decreases size_x - x,
        {
            let vi_x = self.round.vi.evaluations[x];
            let x_index = index_to_field_element(x, vi_variables);
            let mult_at_x = self.fixed_mult.fix_variables(&x_index).to_dense_multilinear_extension();
            let add_at_x = self.fixed_add.fix_variables(&x_index).to_dense_multilinear_extension();
            proof {
                lemma_fold_bits(st.mult, x as int, st.nx, st.ny);
                lemma_fold_bits(st.add, x as int, st.nx, st.ny);
            }
            let ghost outer = sum(row_sums(f2, b), x as int);
            let mut y: usize = 0;
            while y < size_y
                invariant
                    self.inv(),
                    st == self.state(),
                    st.wf(),
                    size_x == a,
                    size_y == b,
                    a == pow2(st.nx),
                    b == pow2(st.ny),
                    f2 == st.packed_terms(),
                    x < size_x,
                    y <= size_y,
                    vi_x == self.round.vi.evaluations@[x as int],
                    mult_at_x.evaluations.len() == b,
                    add_at_x.evaluations.len() == b,
                    forall|j: int| 0 <= j < b ==> #[trigger] mult_at_x.table()[j] == st.mult[x + a * j],
                    forall|j: int| 0 <= j < b ==> #[trigger] add_at_x.table()[j] == st.add[x + a * j],
                    sum_xy@ == (outer + sum(row(f2, x as int), y as int)) % modulus(),
                decreases size_y - y,
            {
                let a_y = add_at_x.evaluations[y];
                let m_y = mult_at_x.evaluations[y];
                let vj_y = self.round.vj.evaluations[y];
                let ghost before = outer + sum(row(f2, x as int), y as int);
                // ~add_i(g,b,c) · ~W_i(b)
                sum_xy = fe_add(sum_xy, fe_mul(a_y, vi_x));
                // ~add_i(g,b,c) · ~W_i(c)
                sum_xy = fe_add(sum_xy, fe_mul(a_y, vj_y));
                // ~mult_i(g,b,c) · ~W_i(b) · ~W_i(c)
                sum_xy = fe_add(sum_xy, fe_mul(fe_mul(m_y, vi_x), vj_y));
                proof {
                    assert(add_at_x.table()[y as int] == a_y@);
                    assert(mult_at_x.table()[y as int] == m_y@);
                    assert(st.vi[x as int] == vi_x@);
                    assert(st.vj[y as int] == vj_y@);
                    lemma_packed(x as int, a, y as int);
                    lemma_acc_term(before, a_y@, vi_x@, vj_y@, m_y@);
                    assert(row(f2, x as int)(y as int) == st.term(x + a * y));
                    assert(sum(row(f2, x as int), y + 1) == sum(row(f2, x as int), y as int) + row(f2, x as int)(y as int));
                }
                y = y + 1;
            }
            proof {
                assert(sum(row_sums(f2, b), x + 1) == outer + row_sums(f2, b)(x as int));
            }
            x = x + 1;
        }
        proof {
            lemma_total_rows(st);
        }
        sum_xy
    }
}

impl SumCheckProver for NaiveProver {
    closed spec fn wf(&self) -> bool {
        self.inv()
    }

    closed spec fn initial(&self) -> RoundState {
        self.start@
    }

    closed spec fn fixed(&self) -> Seq<int> {
        vals(self.fixed_variables@)
    }

    open spec fn ready(&self) -> bool {
        true
    }

    closed spec fn layer_mle(&self) -> DenseMultilinearExtension {
        self.layer_value_mle
    }

    fn new(round: GKRRound, gate: &[Fe]) -> (r: Self) {
        NaiveProver::new(round, gate)
    }

    fn compute_sum(&mut self) -> (r: Fe) {
        self.calculate_sum_naive()
    }

    fn get_verifier_function(&mut self) -> (r: Vec<(usize, Fe)>) {
        let ghost st = self.state();
        proof {
            lemma_fix_all_wf(self.start@, vals(self.fixed_variables@));
            lemma_pow2_le_sum(st.nx, st.ny);
            lemma_pow2_adds(st.nx, st.ny);
            lemma_pow2_pos(st.nx);
        }
        let ghost mw0 = st.mult_weight(0);
        let ghost mw1 = st.mult_weight(1);
        let ghost aw0 = st.add_weight(0);
        let ghost aw1 = st.add_weight(1);
        let ghost mes = self.fixed_mult.evaluations@;
        let ghost aes = self.fixed_add.evaluations@;
        let mut s0 = Fe::zero();
        let mut s1 = Fe::zero();
        let dim = self.round.vi.num_vars;
        let size_x = pow2_usize(dim);
        let ghost a = size_x as int;
        let ghost b = pow2(st.ny) as int;
        proof {
            crate::arith::lemma_mod_id(0);
        }
        let mut k: usize = 0;
        while k < self.fixed_mult.evaluations.len()
            invariant
                self.inv(),
                st == self.state(),
                st.wf(),
                mes == self.fixed_mult.evaluations@,
                dim == st.nx,
                a == size_x,
                a == pow2(st.nx),
                b == pow2(st.ny),
                a * b == pow2(st.nx + st.ny),
                mw0 == st.mult_weight(0),
                mw1 == st.mult_weight(1),
                k <= mes.len(),
                s0@ == sum(entries_weighted(mes, mw0), k as int) % modulus(),
                s1@ == sum(entries_weighted(mes, mw1), k as int) % modulus(),
            decreases mes.len() - k,
        {
            let (xy, val) = self.fixed_mult.evaluations[k];
            proof {
                assert(self.fixed_mult.evaluations@[k as int].0 < pow2(self.fixed_mult.num_vars as nat));
                vstd::arithmetic::div_mod::lemma_fundamental_div_mod(xy as int, a);
                vstd::arithmetic::div_mod::lemma_mod_bound(xy as int, a);
                assert(xy as int / a < b) by (nonlinear_arith)
                    requires
                        xy as int == a * (xy as int / a) + xy as int % a,
                        0 <= xy as int % a,
                        xy < a * b,
                        a > 0,
                ;
            }
            let x = xy % size_x;
            let y = xy / size_x;
            let value = fe_mul(fe_mul(val, self.round.vi.evaluations[x]), self.round.vj.evaluations[y]);
            let ghost t = value@;
            proof {
                lemma_fmul3(val@, self.round.vi.evaluations@[x as int]@, self.round.vj.evaluations@[y as int]@);
                assert(st.vi[x as int] == self.round.vi.evaluations@[x as int]@);
                assert(st.vj[y as int] == self.round.vj.evaluations@[y as int]@);
            }
            let ghost s0_before = sum(entries_weighted(mes, mw0), k as int);
            let ghost s1_before = sum(entries_weighted(mes, mw1), k as int);
            if xy % 2 == 0 {
                s0 = fe_add(s0, value);
                proof {
                    lemma_fadd_acc(s0_before, entries_weighted(mes, mw0)(k as int));
                    crate::arith::lemma_mod_id(t);
                    assert(mw1(xy as int) == 0);
                    assert(entries_weighted(mes, mw1)(k as int) == 0);
                }
            } else {
                s1 = fe_add(s1, value);
                proof {
                    lemma_fadd_acc(s1_before, entries_weighted(mes, mw1)(k as int));
                    crate::arith::lemma_mod_id(t);
                    assert(mw0(xy as int) == 0);
                    assert(entries_weighted(mes, mw0)(k as int) == 0);
                }
            }
            k = k + 1;
        }
        let ghost m0 = sum(entries_weighted(mes, mw0), mes.len() as int);
        let ghost m1 = sum(entries_weighted(mes, mw1), mes.len() as int);
        let mut k: usize = 0;
        while k < self.fixed_add.evaluations.len()
            invariant
                self.inv(),
                st == self.state(),
                st.wf(),
                aes == self.fixed_add.evaluations@,
                dim == st.nx,
                a == size_x,
                a == pow2(st.nx),
                b == pow2(st.ny),
                a * b == pow2(st.nx + st.ny),
                aw0 == st.add_weight(0),
                aw1 == st.add_weight(1),
                k <= aes.len(),
                s0@ == (m0 + sum(entries_weighted(aes, aw0), k as int)) % modulus(),
                s1@ == (m1 + sum(entries_weighted(aes, aw1), k as int)) % modulus(),
            decreases aes.len() - k,
        {
            let (xy, val) = self.fixed_add.evaluations[k];
            proof {
                assert(self.fixed_add.evaluations@[k as int].0 < pow2(self.fixed_add.num_vars as nat));
                vstd::arithmetic::div_mod::lemma_fundamental_div_mod(xy as int, a);
                vstd::arithmetic::div_mod::lemma_mod_bound(xy as int, a);
                assert(xy as int / a < b) by (nonlinear_arith)
                    requires
                        xy as int == a * (xy as int / a) + xy as int % a,
                        0 <= xy as int % a,
                        xy < a * b,
                        a > 0,
                ;
            }
            let x = xy % size_x;
            let y = xy / size_x;
            let value = fe_add(fe_mul(val, self.round.vi.evaluations[x]), fe_mul(val, self.round.vj.evaluations[y]));
            let ghost t = value@;
            proof {
                lemma_fmul_distrib(val@, self.round.vi.evaluations@[x as int]@, self.round.vj.evaluations@[y as int]@);
                assert(st.vi[x as int] == self.round.vi.evaluations@[x as int]@);
                assert(st.vj[y as int] == self.round.vj.evaluations@[y as int]@);
            }
            let ghost s0_before = m0 + sum(entries_weighted(aes, aw0), k as int);
            let ghost s1_before = m1 + sum(entries_weighted(aes, aw1), k as int);
            if xy % 2 == 0 {
                s0 = fe_add(s0, value);
                proof {
                    lemma_fadd_acc(s0_before, entries_weighted(aes, aw0)(k as int));
                    crate::arith::lemma_mod_id(t);
                    assert(aw1(xy as int) == 0);
                    assert(entries_weighted(aes, aw1)(k as int) == 0);
                }
            } else {
                s1 = fe_add(s1, value);
                proof {
                    lemma_fadd_acc(s1_before, entries_weighted(aes, aw1)(k as int));
                    crate::arith::lemma_mod_id(t);
                    assert(aw0(xy as int) == 0);
                    assert(entries_weighted(aes, aw0)(k as int) == 0);
                }
            }
            k = k + 1;
        }
        proof {
            lemma_half_by_entries(st, 0, mes, aes);
            lemma_half_by_entries(st, 1, mes, aes);
        }
        vec![(0, s0), (1, s1)]
    }

    fn fix_variable(&mut self, r: Fe) {
        // 1. Fix the next variable in the predicates.
        // 2. Then fix it in vi; once vi has no more variables, fix vj.
        let ghost st = self.state();
        proof {
            lemma_fix_all_wf(self.start@, vals(self.fixed_variables@));
            lemma_fix_wf(st, r@);
            lemma_fix_all_push(self.start@, vals(self.fixed_variables@), r@);
            assert(vals(self.fixed_variables@.push(r)) =~= vals(self.fixed_variables@).push(r@));
            assert(vals(seq![r]) =~= seq![r@]);
            crate::mle_spec::lemma_fold_all_single(st.mult, r@);
            crate::mle_spec::lemma_fold_all_single(st.add, r@);
            crate::mle_spec::lemma_fold_all_single(st.vi, r@);
            crate::mle_spec::lemma_fold_all_single(st.vj, r@);
        }
        let packed = vec![r];
        proof {
            assert(vals(packed@) =~= seq![r@]);
        }
        self.fixed_variables.push(r);
        self.fixed_mult = self.fixed_mult.fix_variables(packed.as_slice());
        self.fixed_add = self.fixed_add.fix_variables(packed.as_slice());
        if self.round.vi.num_vars > 0 {
            self.round.vi = self.round.vi.fix_variables(packed.as_slice());
        } else {
            self.round.vj = self.round.vj.fix_variables(packed.as_slice());
        }
    }

    fn fixed_variables(&self) -> (r: &[Fe]) {
        self.fixed_variables.as_slice()
    }

    fn layer_value_mle(&self) -> (r: &DenseMultilinearExtension) {
        &self.layer_value_mle
    }
}

} // verus!
