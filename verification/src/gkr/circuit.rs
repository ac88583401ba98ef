//! Layered arithmetic circuits and their evaluation.
use crate::field::{fadd, fe_add, fe_mul, fmul, lemma_fe_range, Fe};
use crate::mle::{copy_slice, vals, DenseMultilinearExtension};
use crate::random::{deterministic_rng, random_below, random_fe, random_ratio};
use crate::util::{is_pow2, log2_pow2};
use ark_std::rand::rngs::StdRng;
use vstd::arithmetic::power2::pow2;
use vstd::prelude::*;

verus! {

broadcast use lemma_fe_range;

/// Gate type: add or multiply the two child outputs.
#[derive(Clone, Copy, Debug, PartialEq, Eq, Structural)]
pub enum GateType {
    Add,
    Mul,
}

/// A gate at one layer, referencing children at the layer below.
#[derive(Clone, Copy, Debug)]
pub struct Gate {
    pub left: usize,
    pub right: usize,
    pub predicate: GateType,
}

impl Gate {
    pub fn new(left: usize, right: usize, predicate: GateType) -> (r: Self)
        ensures
            r == (Gate { left, right, predicate }),
    {
        Gate { left, right, predicate }
    }
}

/// One layer of gate wiring (its size must be a power of two for the protocol).
#[derive(Clone, Debug)]
pub struct Layer {
    pub gates: Vec<Gate>,
}

impl Layer {
    pub fn new(gates: Vec<Gate>) -> (r: Self)
        ensures
            r.gates@ == gates@,
    {
        Layer { gates }
    }
}

/// The value of a gate over the values of the layer below.
pub open spec fn gate_value(g: Gate, below: Seq<int>) -> int {
    match g.predicate {
        GateType::Add => fadd(below[g.left as int], below[g.right as int]),
        GateType::Mul => fmul(below[g.left as int], below[g.right as int]),
    }
}

/// The values of layer `i` of the circuit over the input values; below the
/// last layer, the input values.
pub open spec fn layer_values(layers: Seq<Layer>, input: Seq<int>, i: int) -> Seq<int>
    decreases layers.len() - i,
{
    if 0 <= i < layers.len() {
        let below = layer_values(layers, input, i + 1);
        Seq::new(layers[i].gates@.len(), |a: int| gate_value(layers[i].gates@[a], below))
    } else {
        input
    }
}

/// The number of gates of layer `i`; past the last layer, the number of inputs.
pub open spec fn layer_size(layers: Seq<Layer>, input_len: int, i: int) -> int {
    if 0 <= i < layers.len() {
        layers[i].gates@.len() as int
    } else {
        input_len
    }
}

/// Every child index addresses the layer below.
pub open spec fn children_in_range(layers: Seq<Layer>, input_len: int) -> bool {
    forall|i: int, a: int|
        0 <= i < layers.len() && 0 <= a < layers[i].gates@.len() ==> {
            &&& (#[trigger] layers[i].gates@[a]).left < layer_size(layers, input_len, i + 1)
            &&& layers[i].gates@[a].right < layer_size(layers, input_len, i + 1)
        }
}

/// A layered arithmetic circuit. Layer 0 is the output layer; the last layer
/// reads from the input layer.
#[derive(Clone, Debug)]
pub struct GKRCircuit {
    pub layers: Vec<Layer>,
}

impl GKRCircuit {
    pub fn new(layers: Vec<Layer>) -> (r: Self)
        ensures
            r.layers@ == layers@,
    {
        GKRCircuit { layers }
    }

    /// A copy.
    pub fn duplicate(&self) -> (r: Self)
        ensures
            r.layers@.len() == self.layers@.len(),
            forall|i: int| 0 <= i < self.layers@.len() ==> (#[trigger] r.layers@[i]).gates@ == self.layers@[i].gates@,
    {
        let mut layers: Vec<Layer> = Vec::with_capacity(self.layers.len());
        let mut i: usize = 0;
        while i < self.layers.len()
            invariant
                i <= self.layers.len(),
                layers.len() == i,
                forall|k: int| 0 <= k < i ==> (#[trigger] layers@[k]).gates@ == self.layers@[k].gates@,
            decreases self.layers.len() - i,
        {
            let src = &self.layers[i].gates;
            let mut gates: Vec<Gate> = Vec::with_capacity(src.len());
            let mut k: usize = 0;
            while k < src.len()
                invariant
                    k <= src.len(),
                    gates@ == src@.take(k as int),
                decreases src.len() - k,
            {
                gates.push(src[k]);
                k = k + 1;
                proof {
                    assert(gates@ =~= src@.take(k as int));
                }
            }
            proof {
                assert(gates@ =~= src@);
            }
            layers.push(Layer { gates });
            i = i + 1;
        }
        GKRCircuit { layers }
    }

    /// Generates a random layered circuit with the given sizes, the last
    /// being the size of the input layer. Every size must be a power of two
    /// for the protocol; the generator draws, gate by gate, its type
    /// (`Rng::gen_bool(0.5)`, which compares a drawn word with `2^63`) and
    /// its two children.
    pub fn random(layer_sizes: &[usize], rng: &mut StdRng) -> (r: Self)
        requires
            layer_sizes.len() >= 2,
            forall|i: int| 0 <= i < layer_sizes.len() - 1 && #[trigger] layer_sizes@[i] > 0 ==> layer_sizes@[i + 1] > 0,
        ensures
            r.layers@.len() == layer_sizes.len() - 1,
            forall|i: int| 0 <= i < r.layers@.len() ==> (#[trigger] r.layers@[i]).gates@.len() == layer_sizes@[i],
            children_in_range(r.layers@, layer_sizes@[layer_sizes.len() - 1] as int),
    {
        let mut layers: Vec<Layer> = Vec::new();
        let n = layer_sizes.len();
        let mut i: usize = 0;
        while i < n - 1
            invariant
                n == layer_sizes.len(),
                n >= 2,
                i <= n - 1,
                layers.len() == i,
                forall|k: int| 0 <= k < n - 1 && #[trigger] layer_sizes@[k] > 0 ==> layer_sizes@[k + 1] > 0,
                forall|k: int| 0 <= k < i ==> (#[trigger] layers@[k]).gates@.len() == layer_sizes@[k],
                forall|k: int, a: int|
                    0 <= k < i && 0 <= a < layers@[k].gates@.len() ==> {
                        &&& (#[trigger] layers@[k].gates@[a]).left < layer_sizes@[k + 1]
                        &&& layers@[k].gates@[a].right < layer_sizes@[k + 1]
                    },
            decreases n - 1 - i,
        {
            let below = layer_sizes[i + 1];
            let mut gates: Vec<Gate> = Vec::with_capacity(layer_sizes[i]);
            let mut g: usize = 0;
            while g < layer_sizes[i]
                invariant
                    i + 1 < n,
                    n == layer_sizes.len(),
                    below == layer_sizes@[i + 1],
                    g < layer_sizes@[i as int] ==> below > 0,
                    g <= layer_sizes@[i as int],
                    gates.len() == g,
                    forall|a: int| 0 <= a < g ==> (#[trigger] gates@[a]).left < below && gates@[a].right < below,
                decreases layer_sizes@[i as int] - g,
            {
                let predicate = if random_ratio(rng, 1, 2) {
                    GateType::Add
                } else {
                    GateType::Mul
                };
                let left = random_below(rng, below);
                let right = random_below(rng, below);
                gates.push(Gate::new(left, right, predicate));
                g = g + 1;
            }
            layers.push(Layer::new(gates));
            i = i + 1;
        }
        let r = GKRCircuit::new(layers);
        proof {
            let last = layer_sizes@[n - 1] as int;
            assert forall|k: int, a: int|
                0 <= k < r.layers@.len() && 0 <= a < r.layers@[k].gates@.len() implies {
                    &&& (#[trigger] r.layers@[k].gates@[a]).left < layer_size(r.layers@, last, k + 1)
                    &&& r.layers@[k].gates@[a].right < layer_size(r.layers@, last, k + 1)
                } by {
                assert(r.layers@[k].gates@[a].left < layer_sizes@[k + 1]);
                if k + 1 < r.layers@.len() {
                    assert(layer_size(r.layers@, last, k + 1) == layer_sizes@[k + 1]);
                }
            }
        }
        r
    }

    /// The small hand-built circuit of the report's figure (only
    /// multiplication gates).
    pub fn figure_circuit() -> (r: Self)
        ensures
            r.layers@.len() == 2,
            r.layers@[0].gates@ == seq![
                Gate { left: 0, right: 1, predicate: GateType::Mul },
                Gate { left: 2, right: 3, predicate: GateType::Mul },
            ],
            r.layers@[1].gates@ == seq![
                Gate { left: 0, right: 0, predicate: GateType::Mul },
                Gate { left: 1, right: 1, predicate: GateType::Mul },
                Gate { left: 1, right: 2, predicate: GateType::Mul },
                Gate { left: 3, right: 3, predicate: GateType::Mul },
            ],
    {
        let output_layer = vec![Gate::new(0, 1, GateType::Mul), Gate::new(2, 3, GateType::Mul)];
        let middle_layer = vec![
            Gate::new(0, 0, GateType::Mul),
            Gate::new(1, 1, GateType::Mul),
            Gate::new(1, 2, GateType::Mul),
            Gate::new(3, 3, GateType::Mul),
        ];
        let r = GKRCircuit::new(vec![Layer::new(output_layer), Layer::new(middle_layer)]);
        assert(r.layers@[0].gates@ =~= seq![
            Gate { left: 0, right: 1, predicate: GateType::Mul },
            Gate { left: 2, right: 3, predicate: GateType::Mul },
        ]);
        assert(r.layers@[1].gates@ =~= seq![
            Gate { left: 0, right: 0, predicate: GateType::Mul },
            Gate { left: 1, right: 1, predicate: GateType::Mul },
            Gate { left: 1, right: 2, predicate: GateType::Mul },
            Gate { left: 3, right: 3, predicate: GateType::Mul },
        ]);
        r
    }

    /// Evaluates every gate of the circuit bottom-up for the given input layer.
    pub fn evaluate_circuit(&self, input: &InputLayer) -> (r: EvaluatedGKRCircuit)
        requires
            children_in_range(self.layers@, input.values.len() as int),
        ensures
            r.layers@.len() == self.layers@.len(),
            forall|i: int|
                0 <= i < self.layers@.len() ==> vals((#[trigger] r.layers@[i]).values@) == layer_values(
                    self.layers@,
                    vals(input.values@),
                    i,
                ),
    {
        let layers = self.layers.len();
        let ghost inv = vals(input.values@);
        // Create the empty evaluated layers so they can be filled bottom-up.
        let mut evaluated_layers: Vec<EvaluatedLayer> = Vec::with_capacity(layers);
        let mut k: usize = 0;
        while k < layers
            invariant
                k <= layers,
                evaluated_layers.len() == k,
            decreases layers - k,
        {
            evaluated_layers.push(EvaluatedLayer::empty());
            k = k + 1;
        }
        let mut i = layers;
        while i > 0
            invariant
                layers == self.layers@.len(),
                i <= layers,
                evaluated_layers.len() == layers,
                inv == vals(input.values@),
                children_in_range(self.layers@, input.values.len() as int),
                forall|k: int| i <= k < layers ==> vals((#[trigger] evaluated_layers@[k]).values@) == layer_values(
                    self.layers@,
                    inv,
                    k,
                ),
            decreases i,
        {
            i = i - 1;
            let ghost below = layer_values(self.layers@, inv, i + 1);
            proof {
                crate::mle::lemma_vals_reduced(input.values@);
                if i + 1 < layers {
                    assert(vals(evaluated_layers@[i + 1].values@) == below);
                } else {
                    assert(below == inv);
                }
            }
            let n_gates = self.layers[i].gates.len();
            let mut evaluated_gates: Vec<Fe> = Vec::with_capacity(n_gates);
            let mut idx: usize = 0;
            while idx < n_gates
                invariant
                    layers == self.layers@.len(),
                    i < layers,
                    n_gates == self.layers@[i as int].gates@.len(),
                    evaluated_layers.len() == layers,
                    inv == vals(input.values@),
                    below == layer_values(self.layers@, inv, i + 1),
                    i + 1 < layers ==> vals(evaluated_layers@[i + 1].values@) == below,
                    i + 1 == layers ==> below == inv,
                    children_in_range(self.layers@, input.values.len() as int),
                    idx <= n_gates,
                    evaluated_gates.len() == idx,
                    forall|a: int| 0 <= a < idx ==> (#[trigger] evaluated_gates@[a])@ == gate_value(
                        self.layers@[i as int].gates@[a],
                        below,
                    ),
                decreases n_gates - idx,
            {
                let gate = self.layers[i].gates[idx];
                proof {
                    assert(gate.left < layer_size(self.layers@, input.values.len() as int, i + 1));
                }
                let (left, right) = self.get_input_values(i, &gate, &evaluated_layers, input);
                let v = match gate.predicate {
                    GateType::Add => fe_add(left, right),
                    GateType::Mul => fe_mul(left, right),
                };
                evaluated_gates.push(v);
                idx = idx + 1;
            }
            proof {
                assert(vals(evaluated_gates@) =~= layer_values(self.layers@, inv, i as int));
            }
            evaluated_layers.set(i, EvaluatedLayer::new(evaluated_gates));
        }
        EvaluatedGKRCircuit::new(evaluated_layers)
    }

    /// The values of the two children of `gate`, a gate of `layer`.
    fn get_input_values(
        &self,
        layer: usize,
        gate: &Gate,
        evaluated_layers: &Vec<EvaluatedLayer>,
        input_layer: &InputLayer,
    ) -> (r: (Fe, Fe))
        requires
            layer < self.layers.len(),
            evaluated_layers.len() == self.layers.len(),
            gate.left < layer_size(self.layers@, input_layer.values.len() as int, layer + 1),
            gate.right < layer_size(self.layers@, input_layer.values.len() as int, layer + 1),
            layer + 1 < self.layers.len() ==> evaluated_layers@[layer + 1].values.len() == self.layers@[layer + 1].gates@.len(),
        ensures
            layer + 1 == self.layers.len() ==> r.0 == input_layer.values@[gate.left as int] && r.1
                == input_layer.values@[gate.right as int],
            layer + 1 < self.layers.len() ==> r.0 == evaluated_layers@[layer + 1].values@[gate.left as int]
                && r.1 == evaluated_layers@[layer + 1].values@[gate.right as int],
    {
        if layer == self.layers.len() - 1 {
            // The bottom layer of the circuit reads from the input layer.
            (input_layer.values[gate.left], input_layer.values[gate.right])
        } else {
            // Layer `layer + 1` is the layer below.
            (evaluated_layers[layer + 1].values[gate.left], evaluated_layers[layer + 1].values[gate.right])
        }
    }
}

/// The values computed for one layer.
#[derive(Clone, Debug)]
pub struct EvaluatedLayer {
    pub values: Vec<Fe>,
}

impl EvaluatedLayer {
    pub fn new(values: Vec<Fe>) -> (r: Self)
        ensures
            r.values@ == values@,
    {
        EvaluatedLayer { values }
    }

    pub fn empty() -> (r: Self)
        ensures
            r.values@ == Seq::<Fe>::empty(),
    {
        EvaluatedLayer { values: Vec::new() }
    }

    /// The multilinear extension `~W_i` of this layer's values, whose number
    /// must be a power of two.
    pub fn value_extension(&self) -> (r: DenseMultilinearExtension)
        requires
            is_pow2(self.values.len() as int),
        ensures
            r.wf(),
            pow2(r.num_vars as nat) == self.values.len(),
            r.evaluations@ == self.values@,
    {
        let variables = log2_pow2(self.values.len());
        DenseMultilinearExtension::from_evaluations_vec(
            variables,
            copy_slice(self.values.as_slice(), 0, self.values.len()),
        )
    }
}

/// The values computed for every layer of a circuit.
#[derive(Clone, Debug)]
pub struct EvaluatedGKRCircuit {
    pub layers: Vec<EvaluatedLayer>,
}

impl EvaluatedGKRCircuit {
    pub fn new(layers: Vec<EvaluatedLayer>) -> (r: Self)
        ensures
            r.layers@ == layers@,
    {
        EvaluatedGKRCircuit { layers }
    }
}

/// The circuit's input values.
#[derive(Clone, Debug)]
pub struct InputLayer {
    pub values: Vec<Fe>,
}

impl InputLayer {
    pub fn new(values: Vec<Fe>) -> (r: Self)
        ensures
            r.values@ == values@,
    {
        InputLayer { values }
    }

    /// A copy.
    pub fn duplicate(&self) -> (r: Self)
        ensures
            r.values@ == self.values@,
    {
        InputLayer { values: copy_slice(self.values.as_slice(), 0, self.values.len()) }
    }

    /// Random input values, drawn from a fresh deterministic generator:
    /// only for simulation.
    pub fn random(input_size: usize) -> (r: Self)
        ensures
            r.values.len() == input_size,
    {
        let mut rng = deterministic_rng();
        let mut values: Vec<Fe> = Vec::with_capacity(input_size);
        let mut i: usize = 0;
        while i < input_size
            invariant
                i <= input_size,
                values.len() == i,
            decreases input_size - i,
        {
            values.push(random_fe(&mut rng));
            i = i + 1;
        }
        InputLayer::new(values)
    }

    /// The multilinear extension of the input values, whose number must be
    /// a power of two.
    pub fn value_extension(&self) -> (r: DenseMultilinearExtension)
        requires
            is_pow2(self.values.len() as int),
        ensures
            r.wf(),
            pow2(r.num_vars as nat) == self.values.len(),
            r.evaluations@ == self.values@,
    {
        let variables = log2_pow2(self.values.len());
        DenseMultilinearExtension::from_evaluations_vec(
            variables,
            copy_slice(self.values.as_slice(), 0, self.values.len()),
        )
    }
}

} // verus!
