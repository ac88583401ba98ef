//! The per-layer instance that a sum-check execution runs over.
use crate::field::Fe;
use crate::mle::{distinct_indices, lemma_entries_table_reduced, lemma_vals_reduced, pow2_usize, DenseMultilinearExtension, SparseMultilinearExtension};
use crate::mle_spec::{fold_all, lemma_fold_all_len};
use crate::random::{deterministic_rng, random_dense_evaluations, random_sparse_entries};
use crate::sumcheck::state::RoundState;
use vstd::arithmetic::power2::pow2;
use vstd::prelude::*;

verus! {

/// The inputs to one sum-check execution for a GKR layer `i`: the add/mult
/// wiring predicates (indexed by `(g, b, c)`, `g` in the lowest bits) and the
/// MLEs `vi`/`vj` of the next layer's gate values (the `W_{i+1}(b)` and
/// `W_{i+1}(c)` factors of the GKR sum).
#[derive(Clone, Debug)]
pub struct GKRRound {
    pub mult_predicate: SparseMultilinearExtension,
    pub add_predicate: SparseMultilinearExtension,
    pub vi: DenseMultilinearExtension,
    pub vj: DenseMultilinearExtension,
    pub gate_labels: usize,
}

/// The state a sum-check starts from once the label `gate` is set.
pub open spec fn initial_state(round: GKRRound, gate: Seq<int>) -> RoundState {
    RoundState {
        add: fold_all(round.add_spec().table(), gate),
        mult: fold_all(round.mult_spec().table(), gate),
        vi: round.vi.table(),
        vj: round.vj.table(),
        nx: round.vi.num_vars as nat,
        ny: round.vj.num_vars as nat,
    }
}

impl View for GKRRound {
    type V = ((usize, Seq<(usize, Fe)>), (usize, Seq<(usize, Fe)>), (usize, Seq<Fe>), (usize, Seq<Fe>), usize);

    open spec fn view(&self) -> Self::V {
        (self.mult_predicate@, self.add_predicate@, self.vi@, self.vj@, self.gate_labels)
    }
}

impl GKRRound {
    /// The multiplication predicate.
    pub open spec fn mult_spec(&self) -> SparseMultilinearExtension {
        self.mult_predicate
    }

    /// The addition predicate.
    pub open spec fn add_spec(&self) -> SparseMultilinearExtension {
        self.add_predicate
    }

    /// The number of variables of a label.
    pub open spec fn labels(&self) -> usize {
        self.gate_labels
    }

    /// The predicates and extensions are well formed, the two predicates
    /// have the same variables, and those include the variables of `vi` and `vj`.
    pub open spec fn wf(&self) -> bool {
        &&& self.mult_spec().wf()
        &&& self.add_spec().wf()
        &&& self.vi.wf()
        &&& self.vj.wf()
        &&& self.mult_spec().num_vars == self.add_spec().num_vars
        &&& self.vi.num_vars + self.vj.num_vars <= self.mult_spec().num_vars
        &&& self.labels() == self.vi.num_vars
    }

    pub fn new(
        mult_predicate: &SparseMultilinearExtension,
        add_predicate: &SparseMultilinearExtension,
        vi: &DenseMultilinearExtension,
        vj: &DenseMultilinearExtension,
    ) -> (r: Self)
        ensures
            r.mult_spec()@ == mult_predicate@,
            r.add_spec()@ == add_predicate@,
            r.vi@ == vi@,
            r.vj@ == vj@,
            r.labels() == vi.num_vars,
    {
        GKRRound {
            mult_predicate: mult_predicate.duplicate(),
            add_predicate: add_predicate.duplicate(),
            gate_labels: vi.num_vars,
            vi: vi.duplicate(),
            vj: vj.duplicate(),
        }
    }

    /// A random instance with `dim` variables per gate label: the same
    /// random table for `vi` and `vj`, and random predicates over `3 dim`
    /// variables with `2^dim` entries at distinct indices each. Only for simulation: it draws
    /// from a fresh deterministic generator.
    pub fn new_rand(dim: usize) -> (r: Self)
        requires
            pow2((3 * dim) as nat) <= usize::MAX,
        ensures
            r.wf(),
            r.vi.num_vars == dim,
            r.vj@ == r.vi@,
            r.mult_spec().num_vars == 3 * dim,
            r.add_spec().num_vars == 3 * dim,
            r.mult_spec().evaluations@.len() == pow2(dim as nat),
            r.add_spec().evaluations@.len() == pow2(dim as nat),
            distinct_indices(r.mult_spec().evaluations@),
            distinct_indices(r.add_spec().evaluations@),
    {
        proof {
            assert(3 * dim == dim + 2 * dim);
            vstd::arithmetic::power2::lemma_pow2_adds(dim as nat, (2 * dim) as nat);
            vstd::arithmetic::power2::lemma_pow2_pos((2 * dim) as nat);
            assert(pow2(dim as nat) <= pow2((3 * dim) as nat)) by (nonlinear_arith)
                requires
                    pow2((3 * dim) as nat) == pow2(dim as nat) * pow2((2 * dim) as nat),
                    pow2((2 * dim) as nat) >= 1,
            ;
            crate::util::lemma_pow2_ge((3 * dim) as nat);
            if dim > 30 {
                vstd::arithmetic::power2::lemma2_to64_rest();
                vstd::arithmetic::power2::lemma_pow2_strictly_increases(64, (3 * dim) as nat);
            }
        }
        let mut rng = deterministic_rng();
        let table = random_dense_evaluations(dim, &mut rng);
        let count = pow2_usize(dim);
        let mult_entries = random_sparse_entries(dim * 3, count, &mut rng);
        let add_entries = random_sparse_entries(dim * 3, count, &mut rng);
        let mle = DenseMultilinearExtension::from_evaluations_vec(dim, table);
        GKRRound {
            mult_predicate: SparseMultilinearExtension::from_evaluations(dim * 3, &mult_entries),
            add_predicate: SparseMultilinearExtension::from_evaluations(dim * 3, &add_entries),
            vi: mle.duplicate(),
            vj: mle,
            gate_labels: dim,
        }
    }

    pub fn mult_predicate(&self) -> (r: &SparseMultilinearExtension)
        ensures
            *r == self.mult_spec(),
    {
        &self.mult_predicate
    }

    pub fn add_predicate(&self) -> (r: &SparseMultilinearExtension)
        ensures
            *r == self.add_spec(),
    {
        &self.add_predicate
    }

    pub fn vi(&self) -> (r: &DenseMultilinearExtension)
        ensures
            *r == self.vi,
    {
        &self.vi
    }

    pub fn vj(&self) -> (r: &DenseMultilinearExtension)
        ensures
            *r == self.vj,
    {
        &self.vj
    }

    /// Number of variables in a gate label of this layer.
    pub fn gate_labels(&self) -> (r: usize)
        ensures
            r == self.labels(),
    {
        self.gate_labels
    }

    /// A copy.
    pub fn duplicate(&self) -> (r: Self)
        ensures
            r@ == self@,
    {
        GKRRound {
            mult_predicate: self.mult_predicate.duplicate(),
            add_predicate: self.add_predicate.duplicate(),
            vi: self.vi.duplicate(),
            vj: self.vj.duplicate(),
            gate_labels: self.gate_labels,
        }
    }
}

/// The starting state is well formed.
pub proof fn lemma_initial_wf(round: GKRRound, gate: Seq<int>)
    requires
        round.wf(),
        gate.len() + round.vi.num_vars + round.vj.num_vars == round.mult_spec().num_vars,
    ensures
        initial_state(round, gate).wf(),
{
    let s = initial_state(round, gate);
    let n = (s.nx + s.ny) as nat;
    lemma_entries_table_reduced(round.add_spec().evaluations@, round.add_spec().num_vars as nat);
    lemma_entries_table_reduced(round.mult_spec().evaluations@, round.mult_spec().num_vars as nat);
    assert(n + gate.len() == round.mult_spec().num_vars);
    lemma_fold_all_len(round.add_spec().table(), gate, n);
    lemma_fold_all_len(round.mult_spec().table(), gate, n);
    lemma_vals_reduced(round.vi.evaluations@);
    lemma_vals_reduced(round.vj.evaluations@);
}

} // verus!
