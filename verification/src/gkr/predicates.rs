//! Wiring predicates: the sparse MLEs `~add_i` and `~mult_i` of each layer.
use crate::arith::{lemma_mod_id, lemma_packed, lemma_sum_ext, lemma_sum_single, sum};
use crate::field::{modulus, Fe};
use crate::gkr::circuit::{children_in_range, gate_value, layer_size, layer_values, GKRCircuit, Gate, GateType, InputLayer, Layer};
use crate::gkr::identity::{layer_relation, layer_term};
use crate::mle::{distinct_indices, entries_table, entry_sum, entry_term, pow2_usize, SparseMultilinearExtension};
use crate::mle_spec::reduced;
use crate::util::{is_pow2, log2_pow2};
use vstd::arithmetic::power2::{lemma_pow2_adds, lemma_pow2_pos, pow2};
use vstd::prelude::*;

verus! {

/// The add/mult wiring predicates of one circuit layer, as sparse MLEs over
/// the packed index `(g, b, c)`.
#[derive(Clone, Debug)]
pub struct LayerPredicates {
    pub add: SparseMultilinearExtension,
    pub mult: SparseMultilinearExtension,
}

impl View for LayerPredicates {
    type V = ((usize, Seq<(usize, Fe)>), (usize, Seq<(usize, Fe)>));

    open spec fn view(&self) -> Self::V {
        (self.add@, self.mult@)
    }
}

/// A copy of the predicates of every layer.
pub fn duplicate_predicates(ps: &Vec<LayerPredicates>) -> (r: Vec<LayerPredicates>)
    ensures
        r.len() == ps.len(),
        forall|i: int| 0 <= i < ps.len() ==> (#[trigger] r@[i])@ == ps@[i]@,
{
    let mut out: Vec<LayerPredicates> = Vec::with_capacity(ps.len());
    let mut i: usize = 0;
    while i < ps.len()
        invariant
            i <= ps.len(),
            out.len() == i,
            forall|k: int| 0 <= k < i ==> (#[trigger] out@[k])@ == ps@[k]@,
        decreases ps.len() - i,
    {
        out.push(LayerPredicates { add: ps[i].add.duplicate(), mult: ps[i].mult.duplicate() });
        i = i + 1;
    }
    out
}

/// The wiring predicate of a layer of kind `kind` at the packed index
/// `i = g + aa (b + t c)`: one when gate `g` is of that kind and reads
/// `b` and `c`, zero otherwise.
pub open spec fn wiring(gates: Seq<Gate>, kind: GateType, aa: int, t: int, i: int) -> int {
    let g = i % aa;
    let j = i / aa;
    if g < gates.len() && gates[g].predicate == kind && j == gates[g].left + t * gates[g].right {
        1
    } else {
        0
    }
}

/// The table of a wiring predicate, over `s + 2 t` variables.
pub open spec fn wiring_table(gates: Seq<Gate>, kind: GateType, s: nat, t: nat) -> Seq<int> {
    Seq::new(pow2(s + 2 * t), |i: int| wiring(gates, kind, pow2(s) as int, pow2(t) as int, i))
}

/// The entries of a wiring predicate of kind `kind` for the first `n`
/// gates: one `(g + aa (b + tt c), 1)` for each gate `g` of that kind, which
/// reads `b` and `c`, in the order of the gates.
pub open spec fn wiring_entries(gates: Seq<Gate>, kind: GateType, aa: int, tt: int, n: int) -> Seq<(usize, int)>
    decreases n,
{
    if n <= 0 {
        Seq::empty()
    } else {
        let rest = wiring_entries(gates, kind, aa, tt, n - 1);
        let g = gates[n - 1];
        if g.predicate == kind {
            rest.push(((n - 1 + aa * (g.left + tt * g.right)) as usize, 1int))
        } else {
            rest
        }
    }
}

/// Entries with their values read as integers.
pub open spec fn entry_views(es: Seq<(usize, Fe)>) -> Seq<(usize, int)> {
    es.map_values(|e: (usize, Fe)| (e.0, e.1@))
}

/// The predicates are those of a layer with `2^s` gates reading from a
/// layer of `2^t` values.
pub open spec fn predicates_of(p: LayerPredicates, gates: Seq<Gate>, s: nat, t: nat) -> bool {
    &&& p.add.wf()
    &&& p.mult.wf()
    &&& p.add.num_vars == s + 2 * t
    &&& p.mult.num_vars == s + 2 * t
    &&& p.add.table() == wiring_table(gates, GateType::Add, s, t)
    &&& p.mult.table() == wiring_table(gates, GateType::Mul, s, t)
}

/// The number of variables addressing layer `i` (the input layer past the last).
pub open spec fn layer_vars(layers: Seq<Layer>, input_len: int, i: int) -> nat {
    choose|k: nat| pow2(k) == layer_size(layers, input_len, i)
}

/// The circuit's wiring can be turned into predicates: every layer and the
/// input have a power-of-two size, every child is in range, and each
/// layer's predicates address a hypercube that fits a `usize`.
pub open spec fn protocol_ready(layers: Seq<Layer>, input_len: int) -> bool {
    &&& forall|i: int| 0 <= i <= layers.len() ==> #[trigger] is_pow2(layer_size(layers, input_len, i))
    &&& children_in_range(layers, input_len)
    &&& forall|i: int|
        0 <= i < layers.len() ==> #[trigger] layer_size(layers, input_len, i) * layer_size(layers, input_len, i + 1)
            * layer_size(layers, input_len, i + 1) <= usize::MAX
}

/// The predicates of every layer of the circuit.
pub open spec fn all_predicates_of(ps: Seq<LayerPredicates>, layers: Seq<Layer>, input_len: int) -> bool {
    &&& ps.len() == layers.len()
    &&& forall|i: int|
        0 <= i < layers.len() ==> predicates_of(
            #[trigger] ps[i],
            layers[i].gates@,
            layer_vars(layers, input_len, i),
            layer_vars(layers, input_len, i + 1),
        )
}

/// Powers of two are distinct.
pub proof fn lemma_pow2_injective(a: nat, b: nat)
    requires
        pow2(a) == pow2(b),
    ensures
        a == b,
{
    if a < b {
        vstd::arithmetic::power2::lemma_pow2_strictly_increases(a, b);
    } else if b < a {
        vstd::arithmetic::power2::lemma_pow2_strictly_increases(b, a);
    }
}

/// The exponent of a power of two is its number of variables.
pub proof fn lemma_layer_vars(layers: Seq<Layer>, input_len: int, i: int, k: nat)
    requires
        pow2(k) == layer_size(layers, input_len, i),
    ensures
        layer_vars(layers, input_len, i) == k,
{
    let v = layer_vars(layers, input_len, i);
    assert(pow2(v) == layer_size(layers, input_len, i));
    lemma_pow2_injective(v, k);
}

/// The wiring predicates relate each layer's values to those of the layer below.
pub proof fn lemma_layer_relation(gates: Seq<Gate>, below: Seq<int>, s: nat, t: nat)
    requires
        gates.len() == pow2(s),
        below.len() == pow2(t),
        reduced(below),
        forall|a: int| 0 <= a < gates.len() ==> (#[trigger] gates[a]).left < pow2(t) && gates[a].right < pow2(t),
    ensures
        layer_relation(
            wiring_table(gates, GateType::Add, s, t),
            wiring_table(gates, GateType::Mul, s, t),
            below,
            Seq::new(gates.len(), |a: int| gate_value(gates[a], below)),
            pow2(s) as int,
            pow2(t) as int,
        ),
{
    let aa = pow2(s) as int;
    let tt = pow2(t) as int;
    let ad = wiring_table(gates, GateType::Add, s, t);
    let mu = wiring_table(gates, GateType::Mul, s, t);
    let wi = Seq::new(gates.len(), |a: int| gate_value(gates[a], below));
    lemma_pow2_pos(s);
    lemma_pow2_pos(t);
    lemma_pow2_adds(t, t);
    lemma_pow2_adds(s, 2 * t);
    assert(t + t == 2 * t);
    assert forall|a: int| 0 <= a < aa implies #[trigger] wi[a] == sum(layer_term(ad, mu, below, a, aa, tt), tt * tt) % modulus() by {
        let g = gates[a];
        let l = g.left as int;
        let r = g.right as int;
        let j0 = l + tt * r;
        let lt = layer_term(ad, mu, below, a, aa, tt);
        assert(0 <= j0 < tt * tt) by (nonlinear_arith)
            requires
                0 <= l < tt,
                0 <= r < tt,
                j0 == l + tt * r,
        ;
        assert forall|j: int| 0 <= j < tt * tt && j != j0 implies #[trigger] lt(j) == 0 by {
            lemma_packed(a, aa, j);
            assert(a + aa * j < aa * (tt * tt)) by (nonlinear_arith)
                requires
                    0 <= a < aa,
                    0 <= j < tt * tt,
            ;
            assert(a + aa * j >= 0) by (nonlinear_arith)
                requires
                    0 <= a,
                    0 <= j,
                    aa > 0,
            ;
            let x = ad[a + aa * j];
            let y = mu[a + aa * j];
            let u = below[j % tt];
            let v = below[j / tt];
            assert(x == 0 && y == 0);
            assert(lt(j) == x * (u + v) + y * u * v);
            assert(x * (u + v) + y * u * v == 0) by (nonlinear_arith)
                requires
                    x == 0,
                    y == 0,
            ;
        }
        lemma_sum_single(lt, j0, tt * tt);
        lemma_packed(a, aa, j0);
        lemma_packed(l, tt, r);
        assert(a + aa * j0 < aa * (tt * tt)) by (nonlinear_arith)
            requires
                0 <= a < aa,
                0 <= j0 < tt * tt,
        ;
        assert(a + aa * j0 >= 0) by (nonlinear_arith)
            requires
                0 <= a,
                0 <= j0,
                aa > 0,
        ;
        assert(j0 % tt == l && j0 / tt == r);
        let u = below[l];
        let v = below[r];
        match g.predicate {
            GateType::Add => {
                assert(ad[a + aa * j0] == 1);
                assert(mu[a + aa * j0] == 0);
                assert(lt(j0) == 1 * (u + v) + 0 * u * v);
                assert(1 * (u + v) + 0 * u * v == u + v) by (nonlinear_arith);
            },
            GateType::Mul => {
                assert(ad[a + aa * j0] == 0);
                assert(mu[a + aa * j0] == 1);
                assert(lt(j0) == 0 * (u + v) + 1 * u * v);
                assert(0 * (u + v) + 1 * u * v == u * v) by (nonlinear_arith);
            },
        }
    }
}

/// Precomputes the add/mult wiring predicates for every layer of the circuit.
pub fn compute_predicates(circuit: &GKRCircuit, input: &InputLayer) -> (r: Vec<LayerPredicates>)
    requires
        protocol_ready(circuit.layers@, input.values.len() as int),
    ensures
        all_predicates_of(r@, circuit.layers@, input.values.len() as int),
        forall|i: int|
            0 <= i < circuit.layers@.len() ==> {
                let gates = circuit.layers@[i].gates@;
                let aa = pow2(layer_vars(circuit.layers@, input.values.len() as int, i)) as int;
                let tt = pow2(layer_vars(circuit.layers@, input.values.len() as int, i + 1)) as int;
                &&& entry_views((#[trigger] r@[i]).add.evaluations@) == wiring_entries(gates, GateType::Add, aa, tt, gates.len() as int)
                &&& entry_views(r@[i].mult.evaluations@) == wiring_entries(gates, GateType::Mul, aa, tt, gates.len() as int)
            },
{
    let ghost layers = circuit.layers@;
    let ghost il = input.values.len() as int;
    let mut out: Vec<LayerPredicates> = Vec::with_capacity(circuit.layers.len());
    let mut i: usize = 0;
    while i < circuit.layers.len()
        invariant
            layers == circuit.layers@,
            il == input.values.len() as int,
            protocol_ready(layers, il),
            i <= layers.len(),
            out.len() == i,
            forall|k: int|
                0 <= k < i ==> predicates_of(
                    #[trigger] out@[k],
                    layers[k].gates@,
                    layer_vars(layers, il, k),
                    layer_vars(layers, il, k + 1),
                ),
            forall|k: int|
                0 <= k < i ==> {
                    let gates = layers[k].gates@;
                    let aa = pow2(layer_vars(layers, il, k)) as int;
                    let tt = pow2(layer_vars(layers, il, k + 1)) as int;
                    &&& entry_views((#[trigger] out@[k]).add.evaluations@) == wiring_entries(gates, GateType::Add, aa, tt, gates.len() as int)
                    &&& entry_views(out@[k].mult.evaluations@) == wiring_entries(gates, GateType::Mul, aa, tt, gates.len() as int)
                },
        decreases layers.len() - i,
    {
        let layer = &circuit.layers[i];
        proof {
            assert(is_pow2(layer_size(layers, il, i as int)));
            assert(is_pow2(layer_size(layers, il, i + 1)));
        }
        // s_i is the number of bits addressing a gate in layer i.
        let s_i = log2_pow2(layer.gates.len());
        let next_s_i = log2_pow2(next_layer_size(circuit, input, i));
        proof {
            lemma_layer_vars(layers, il, i as int, s_i as nat);
            lemma_layer_vars(layers, il, i + 1, next_s_i as nat);
            assert(layer_size(layers, il, i as int) * layer_size(layers, il, i + 1) * layer_size(layers, il, i + 1)
                <= usize::MAX);
            lemma_pow2_adds(next_s_i as nat, next_s_i as nat);
            lemma_pow2_adds(s_i as nat, (2 * next_s_i) as nat);
            assert(next_s_i + next_s_i == 2 * next_s_i);
            assert(pow2((s_i + 2 * next_s_i) as nat) == pow2(s_i as nat) * (pow2(next_s_i as nat) * pow2(next_s_i as nat)));
            vstd::arithmetic::mul::lemma_mul_is_associative(
                pow2(s_i as nat) as int,
                pow2(next_s_i as nat) as int,
                pow2(next_s_i as nat) as int,
            );
            assert forall|a: int| 0 <= a < layer.gates@.len() implies (#[trigger] layer.gates@[a]).left < pow2(next_s_i as nat)
                && layer.gates@[a].right < pow2(next_s_i as nat) by {
                assert(layers[i as int].gates@[a].left < layer_size(layers, il, i + 1));
            }
        }
        out.push(layer_predicates(layer, s_i, next_s_i));
        i = i + 1;
    }
    out
}

/// The predicates of one layer, as entries `(g + 2^s b + 2^(s + t) c, 1)`:
/// `g` in the lowest `s` bits, then `b`, then `c`, so `g` is fixed first when
/// fixing variables.
fn layer_predicates(layer: &Layer, s_i: usize, next_s_i: usize) -> (r: LayerPredicates)
    requires
        layer.gates.len() == pow2(s_i as nat),
        pow2((s_i + 2 * next_s_i) as nat) <= usize::MAX,
        forall|a: int|
            0 <= a < layer.gates@.len() ==> (#[trigger] layer.gates@[a]).left < pow2(next_s_i as nat)
                && layer.gates@[a].right < pow2(next_s_i as nat),
    ensures
        predicates_of(r, layer.gates@, s_i as nat, next_s_i as nat),
        entry_views(r.add.evaluations@) == wiring_entries(
            layer.gates@,
            GateType::Add,
            pow2(s_i as nat) as int,
            pow2(next_s_i as nat) as int,
            layer.gates@.len() as int,
        ),
        entry_views(r.mult.evaluations@) == wiring_entries(
            layer.gates@,
            GateType::Mul,
            pow2(s_i as nat) as int,
            pow2(next_s_i as nat) as int,
            layer.gates@.len() as int,
        ),
{
    let ghost gates = layer.gates@;
    let ghost s = s_i as nat;
    let ghost t = next_s_i as nat;
    proof {
        crate::sumcheck::protocol::lemma_small_num_vars((s_i + 2 * next_s_i) as nat);
    }
    let total_vars = s_i + 2 * next_s_i;
    proof {
        lemma_pow2_pos(s);
        lemma_pow2_pos(t);
        lemma_pow2_adds(t, t);
        lemma_pow2_adds(s, 2 * t);
        assert(t + t == 2 * t);
        vstd::arithmetic::mul::lemma_mul_is_associative(pow2(s) as int, pow2(t) as int, pow2(t) as int);
        assert(pow2(s) <= pow2(s) * (pow2(t) * pow2(t))) by (nonlinear_arith)
            requires
                pow2(t) >= 1,
        ;
        assert(pow2(s) * pow2(t) <= pow2(s) * (pow2(t) * pow2(t))) by (nonlinear_arith)
            requires
                pow2(t) >= 1,
                pow2(s) >= 1,
        ;
        assert(pow2(t) <= pow2(s + 2 * t)) by (nonlinear_arith)
            requires
                pow2(s + 2 * t) == pow2(s) * (pow2(t) * pow2(t)),
                pow2(t) >= 1,
                pow2(s) >= 1,
        ;
    }
    let a_size = pow2_usize(s_i);
    let t_size = pow2_usize(next_s_i);
    let ghost aa = a_size as int;
    let ghost tt = t_size as int;
    let ghost n = pow2(s + 2 * t) as int;
    let mut add_terms: Vec<(usize, Fe)> = Vec::new();
    let mut mult_terms: Vec<(usize, Fe)> = Vec::new();
    let mut gate_idx: usize = 0;
    while gate_idx < layer.gates.len()
        invariant
            gates == layer.gates@,
            gates.len() == aa,
            a_size == aa,
            t_size == tt,
            aa == pow2(s),
            tt == pow2(t),
            aa > 0,
            tt > 0,
            n == aa * (tt * tt),
            n <= usize::MAX,
            forall|a: int| 0 <= a < gates.len() ==> (#[trigger] gates[a]).left < tt && gates[a].right < tt,
            gate_idx <= gates.len(),
            forall|k: int| 0 <= k < add_terms.len() ==> #[trigger] add_terms@[k].0 < n && (add_terms@[k].0 as int) % aa < gate_idx,
            forall|k: int| 0 <= k < mult_terms.len() ==> #[trigger] mult_terms@[k].0 < n && (mult_terms@[k].0 as int) % aa < gate_idx,
            distinct_indices(add_terms@),
            distinct_indices(mult_terms@),
            entry_views(add_terms@) == wiring_entries(gates, GateType::Add, aa, tt, gate_idx as int),
            entry_views(mult_terms@) == wiring_entries(gates, GateType::Mul, aa, tt, gate_idx as int),
            forall|i: int|
                0 <= i < n ==> #[trigger] entry_sum(add_terms@, i) == if i % aa < gate_idx {
                    wiring(gates, GateType::Add, aa, tt, i)
                } else {
                    0
                },
            forall|i: int|
                0 <= i < n ==> #[trigger] entry_sum(mult_terms@, i) == if i % aa < gate_idx {
                    wiring(gates, GateType::Mul, aa, tt, i)
                } else {
                    0
                },
        decreases gates.len() - gate_idx,
    {
        let gate = layer.gates[gate_idx];
        let ghost j0 = gate.left + tt * gate.right;
        proof {
            assert(gate.left < tt && gate.right < tt);
            assert(0 <= j0 < tt * tt) by (nonlinear_arith)
                requires
                    j0 == gate.left + tt * gate.right,
                    gate.left < tt,
                    gate.right < tt,
            ;
            assert(gate_idx + aa * j0 < aa * (tt * tt)) by (nonlinear_arith)
                requires
                    gate_idx < aa,
                    0 <= j0 < tt * tt,
            ;
            assert(gate_idx + gate.left * aa + gate.right * (aa * tt) == gate_idx + aa * j0) by (nonlinear_arith)
                requires
                    j0 == gate.left + tt * gate.right,
            ;
            assert(gate.left * aa <= (tt - 1) * aa) by (nonlinear_arith)
                requires
                    gate.left < tt,
                    aa > 0,
            ;
            assert(gate.right * (aa * tt) <= (tt - 1) * (aa * tt)) by (nonlinear_arith)
                requires
                    gate.right < tt,
                    aa > 0,
                    tt > 0,
            ;
            lemma_packed(gate_idx as int, aa, j0);
            assert(gate_idx + gate.left * aa + gate.right * (aa * tt) < n) by (nonlinear_arith)
                requires
                    gate_idx < aa,
                    gate.left * aa <= (tt - 1) * aa,
                    gate.right * (aa * tt) <= (tt - 1) * (aa * tt),
                    n == aa * (tt * tt),
            ;
            assert(aa * tt <= n) by (nonlinear_arith)
                requires
                    n == aa * (tt * tt),
                    tt >= 1,
                    aa >= 1,
            ;
        }
        proof {
            assert(gate_idx + gate.left * a_size < n) by (nonlinear_arith)
                requires
                    n == a_size * (tt * tt),
                    gate_idx < a_size,
                    gate.left < tt,
                    tt >= 1,
            ;
        }
        let index = gate_idx + gate.left * a_size + gate.right * (a_size * t_size);
        let ghost before_add = add_terms@;
        let ghost before_mult = mult_terms@;
        let one = Fe::one();
        match gate.predicate {
            GateType::Add => add_terms.push((index, one)),
            GateType::Mul => mult_terms.push((index, one)),
        }
        proof {
            assert(index == gate_idx + aa * j0);
            assert((index as int) % aa == gate_idx);
            assert((index as int) / aa == j0);
            assert(gates[gate_idx as int] == gate);
            if gate.predicate == GateType::Add {
                assert(entry_views(add_terms@) =~= entry_views(before_add).push((index, 1int)));
                assert(mult_terms@ == before_mult);
            } else {
                assert(entry_views(mult_terms@) =~= entry_views(before_mult).push((index, 1int)));
                assert(add_terms@ == before_add);
            }
            lemma_entries_push(before_add, add_terms@, (index, one), gate.predicate == GateType::Add);
            lemma_entries_push(before_mult, mult_terms@, (index, one), gate.predicate == GateType::Mul);
            assert forall|i: int| 0 <= i < n implies #[trigger] entry_sum(add_terms@, i) == if i % aa < gate_idx + 1 {
                wiring(gates, GateType::Add, aa, tt, i)
            } else {
                0
            } by {
                if i % aa == gate_idx {
                    vstd::arithmetic::div_mod::lemma_fundamental_div_mod(i, aa);
                    if i == index {
                        assert(i / aa == j0);
                    } else {
                        assert(i / aa != j0);
                    }
                } else {
                    assert(i != index);
                }
            }
            assert forall|i: int| 0 <= i < n implies #[trigger] entry_sum(mult_terms@, i) == if i % aa < gate_idx + 1 {
                wiring(gates, GateType::Mul, aa, tt, i)
            } else {
                0
            } by {
                if i % aa == gate_idx {
                    vstd::arithmetic::div_mod::lemma_fundamental_div_mod(i, aa);
                    if i == index {
                        assert(i / aa == j0);
                    } else {
                        assert(i / aa != j0);
                    }
                } else {
                    assert(i != index);
                }
            }
        }
        gate_idx = gate_idx + 1;
    }
    let add = SparseMultilinearExtension::from_evaluations(total_vars, add_terms.as_slice());
    let mult = SparseMultilinearExtension::from_evaluations(total_vars, mult_terms.as_slice());
    proof {
        assert forall|i: int| 0 <= i < n implies #[trigger] entries_table(add_terms@, s + 2 * t)[i] == wiring_table(
            gates,
            GateType::Add,
            s,
            t,
        )[i] by {
            lemma_mod_id(wiring(gates, GateType::Add, aa, tt, i));
        }
        assert forall|i: int| 0 <= i < n implies #[trigger] entries_table(mult_terms@, s + 2 * t)[i] == wiring_table(
            gates,
            GateType::Mul,
            s,
            t,
        )[i] by {
            lemma_mod_id(wiring(gates, GateType::Mul, aa, tt, i));
        }
        assert(add.table() =~= wiring_table(gates, GateType::Add, s, t));
        assert(mult.table() =~= wiring_table(gates, GateType::Mul, s, t));
    }
    LayerPredicates { add, mult }
}

/// Appending an entry `(index, 1)` (when `pushed`) adds one at `index` to the
/// sums of the entries and keeps the indices distinct when `index` is new.
proof fn lemma_entries_push(before: Seq<(usize, Fe)>, after: Seq<(usize, Fe)>, e: (usize, Fe), pushed: bool)
    requires
        e.1@ == 1,
        pushed ==> after == before.push(e),
        !pushed ==> after == before,
        distinct_indices(before),
        forall|k: int| 0 <= k < before.len() ==> #[trigger] before[k].0 != e.0,
    ensures
        distinct_indices(after),
        forall|i: int| #[trigger] entry_sum(after, i) == entry_sum(before, i) + if pushed && i == e.0 { 1int } else { 0 },
{
    if pushed {
        assert forall|i: int| #[trigger] entry_sum(after, i) == entry_sum(before, i) + if i == e.0 { 1int } else { 0 } by {
            let n = before.len() as int;
            lemma_sum_ext(entry_term(after, i), entry_term(before, i), n);
            assert(entry_sum(after, i) == sum(entry_term(after, i), n) + entry_term(after, i)(n));
        }
    }
}

/// The size of the layer below `layer`: the next layer's, or the input's
/// below the last layer.
fn next_layer_size(circuit: &GKRCircuit, input: &InputLayer, layer: usize) -> (r: usize)
    requires
        layer < circuit.layers.len(),
    ensures
        r == layer_size(circuit.layers@, input.values.len() as int, layer + 1),
{
    if layer == circuit.layers.len() - 1 {
        input.values.len()
    } else {
        circuit.layers[layer + 1].gates.len()
    }
}

/// The values of each layer satisfy the wiring relation of its predicates.
pub proof fn lemma_circuit_relation(layers: Seq<Layer>, input: Seq<int>, i: int)
    requires
        protocol_ready(layers, input.len() as int),
        0 <= i < layers.len(),
        reduced(input),
    ensures
        layer_relation(
            wiring_table(layers[i].gates@, GateType::Add, layer_vars(layers, input.len() as int, i), layer_vars(layers, input.len() as int, i + 1)),
            wiring_table(layers[i].gates@, GateType::Mul, layer_vars(layers, input.len() as int, i), layer_vars(layers, input.len() as int, i + 1)),
            layer_values(layers, input, i + 1),
            layer_values(layers, input, i),
            pow2(layer_vars(layers, input.len() as int, i)) as int,
            pow2(layer_vars(layers, input.len() as int, i + 1)) as int,
        ),
{
    let il = input.len() as int;
    let s = layer_vars(layers, il, i);
    let t = layer_vars(layers, il, i + 1);
    assert(is_pow2(layer_size(layers, il, i)));
    assert(is_pow2(layer_size(layers, il, i + 1)));
    let below = layer_values(layers, input, i + 1);
    lemma_layer_values_len(layers, input, i + 1);
    lemma_layer_values_reduced(layers, input, i + 1);
    let gates = layers[i].gates@;
    assert forall|a: int| 0 <= a < gates.len() implies (#[trigger] gates[a]).left < pow2(t) && gates[a].right < pow2(t) by {
        assert(layers[i].gates@[a].left < layer_size(layers, il, i + 1));
    }
    lemma_layer_relation(gates, below, s, t);
    assert(layer_values(layers, input, i) =~= Seq::new(gates.len(), |a: int| gate_value(gates[a], below)));
}

/// Each layer has as many values as gates; past the last, as many as inputs.
pub proof fn lemma_layer_values_len(layers: Seq<Layer>, input: Seq<int>, i: int)
    requires
        0 <= i <= layers.len(),
    ensures
        layer_values(layers, input, i).len() == layer_size(layers, input.len() as int, i),
{
}

/// Every value of an evaluated layer is reduced.
pub proof fn lemma_layer_values_reduced(layers: Seq<Layer>, input: Seq<int>, i: int)
    requires
        0 <= i <= layers.len(),
        reduced(input),
    ensures
        reduced(layer_values(layers, input, i)),
{
    if i < layers.len() {
        let below = layer_values(layers, input, i + 1);
        assert forall|a: int| 0 <= a < layer_values(layers, input, i).len() implies 0 <= #[trigger] layer_values(
            layers,
            input,
            i,
        )[a] < modulus() by {
            let g = layers[i].gates@[a];
            match g.predicate {
                GateType::Add => {
                    vstd::arithmetic::div_mod::lemma_mod_bound(below[g.left as int] + below[g.right as int], modulus());
                },
                GateType::Mul => {
                    vstd::arithmetic::div_mod::lemma_mod_bound(below[g.left as int] * below[g.right as int], modulus());
                },
            }
        }
    }
}

/// Two circuits with the same gates have the same values.
pub proof fn lemma_same_gates_values(a: Seq<Layer>, b: Seq<Layer>, input: Seq<int>, i: int)
    requires
        a.len() == b.len(),
        forall|k: int| 0 <= k < a.len() ==> (#[trigger] a[k]).gates@ == b[k].gates@,
    ensures
        layer_values(a, input, i) == layer_values(b, input, i),
    decreases a.len() - i,
{
    if 0 <= i < a.len() {
        lemma_same_gates_values(a, b, input, i + 1);
        assert(a[i].gates@ == b[i].gates@);
        assert(layer_values(a, input, i) =~= layer_values(b, input, i));
    }
}

/// Two circuits with the same gates are alike for the protocol.
pub proof fn lemma_same_gates(a: Seq<Layer>, b: Seq<Layer>, input: Seq<int>)
    requires
        a.len() == b.len(),
        forall|k: int| 0 <= k < a.len() ==> (#[trigger] a[k]).gates@ == b[k].gates@,
        protocol_ready(a, input.len() as int),
    ensures
        protocol_ready(b, input.len() as int),
        forall|i: int| #[trigger] layer_values(b, input, i) == layer_values(a, input, i),
        forall|i: int| 0 <= i <= a.len() ==> #[trigger] layer_vars(b, input.len() as int, i) == layer_vars(a, input.len() as int, i),
{
    let il = input.len() as int;
    assert forall|i: int| #[trigger] layer_size(b, il, i) == layer_size(a, il, i) by {
        if 0 <= i < a.len() {
            assert(a[i].gates@ == b[i].gates@);
        }
    }
    assert forall|i: int| 0 <= i <= b.len() implies #[trigger] is_pow2(layer_size(b, il, i)) by {
        assert(is_pow2(layer_size(a, il, i)));
    }
    assert forall|i: int, g: int|
        0 <= i < b.len() && 0 <= g < b[i].gates@.len() implies {
            &&& (#[trigger] b[i].gates@[g]).left < layer_size(b, il, i + 1)
            &&& b[i].gates@[g].right < layer_size(b, il, i + 1)
        } by {
        assert(a[i].gates@ == b[i].gates@);
        assert(a[i].gates@[g].left < layer_size(a, il, i + 1));
    }
    assert forall|i: int| 0 <= i < b.len() implies #[trigger] layer_size(b, il, i) * layer_size(b, il, i + 1) * layer_size(b, il, i + 1)
        <= usize::MAX by {
        assert(layer_size(a, il, i) * layer_size(a, il, i + 1) * layer_size(a, il, i + 1) <= usize::MAX);
    }
    assert forall|i: int| #[trigger] layer_values(b, input, i) == layer_values(a, input, i) by {
        lemma_same_gates_values(b, a, input, i);
    }
    assert forall|i: int| 0 <= i <= a.len() implies #[trigger] layer_vars(b, il, i) == layer_vars(a, il, i) by {
        assert(is_pow2(layer_size(a, il, i)));
        let k = layer_vars(a, il, i);
        assert(pow2(k) == layer_size(a, il, i));
        lemma_layer_vars(b, il, i, k);
    }
}

} // verus!
