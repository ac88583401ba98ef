//! The GKR driver: simulates the full protocol between a [`GKRProver`] and a
//! [`GKRVerifier`], running one sum-check per circuit layer and timing prover
//! and verifier work separately.
use crate::arith::lemma_layer_claim;
use crate::field::modulus;
use crate::field::{lemma_fe_range, Fe};
use crate::gkr::circuit::{layer_size, layer_values, GKRCircuit, InputLayer, Layer};
use crate::gkr::gkr_prover::GKRProver;
use crate::gkr::gkr_verifier::{layer_claim_consistent, GKRVerifier};
use crate::gkr::identity::{gkr_start, layer_relation, lemma_gkr_identity};
use crate::gkr::predicates::{all_predicates_of, layer_vars, lemma_circuit_relation, lemma_layer_values_len, lemma_layer_values_reduced, lemma_layer_vars, lemma_pow2_injective, predicates_of, protocol_ready};
use crate::mle::{lemma_vals_reduced, vals, DenseMultilinearExtension};
use crate::mle_spec::{fold_all, mle_eval, reduced};
use crate::poly::{lemma_two_point_poly, SparsePolynomial};
use crate::sumcheck::instance::{initial_state, GKRRound};
use crate::sumcheck::protocol::{prover_state, SumCheckProver, SumCheckVerifier};
use crate::sumcheck::standard_verifier::{lemma_points_reduced, StandardVerifier};
use crate::sumcheck::state::{lemma_fix_all_split, lemma_fix_all_tables, lemma_fix_all_wf, lemma_total_split};
use crate::timing::{clock_now, lemma_roles_push, nanos_since, repeat_roles, roles, AnalysisResult, Role, Track};
use crate::util::{is_pow2, lemma_line_endpoints, line, log2_pow2};
use vstd::arithmetic::power2::pow2;
use vstd::prelude::*;

verus! {

broadcast use lemma_fe_range;

/// Degree bound handed to the sum-check verifier. The round polynomials sent
/// in this simulation are of degree one (see
/// [`SumCheckProver::get_verifier_function`]).
pub const MAX_ROUND_POLY_DEGREE: usize = 2;

/// The roles of the intervals of one sum-check round inside GKR: the
/// prover's round polynomial, the verifier's round check, the prover's
/// fixing of the variable together with its new sum, the verifier's taking
/// of the new claim.
pub open spec fn layer_round_roles() -> Seq<Role> {
    seq![Role::Prover, Role::Verifier, Role::Prover, Role::Verifier]
}

/// The roles of the intervals of layer `layer`, whose layer below has
/// `vars_below` variables: at the output layer first the verifier's choice
/// of the output gate and claim, then the prover's setup, the `2 vars_below`
/// rounds, the prover's layer-reduction message and the verifier's checks
/// and reduction.
pub open spec fn layer_roles(layer: int, vars_below: nat) -> Seq<Role> {
    (if layer == 0 {
        seq![Role::Verifier]
    } else {
        Seq::<Role>::empty()
    }) + seq![Role::Prover] + repeat_roles(layer_round_roles(), 2 * vars_below) + seq![Role::Prover, Role::Verifier]
}

/// Connects two consecutive layers of the protocol: the random point the
/// verifier picked during layer `i`'s reduction and the claimed value of
/// `W_{i+1}` at that point.
pub struct LayerConnection {
    pub next_gate: Vec<Fe>,
    pub claim_mi: Fe,
}

impl LayerConnection {
    pub fn new(next_gate: Vec<Fe>, claim_mi: Fe) -> (r: Self)
        ensures
            r.next_gate@ == next_gate@,
            r.claim_mi == claim_mi,
    {
        LayerConnection { next_gate, claim_mi }
    }
}

/// The prover and the verifier were built for the circuit and its input:
/// the circuit has a layer and can run the protocol, the prover holds the
/// predicates and the values of every layer, and the verifier holds the
/// input and the same predicates, none fixed yet.
pub open spec fn honest_parts(prover: GKRProver, verifier: GKRVerifier, circuit: GKRCircuit, input: InputLayer) -> bool {
    let layers = circuit.layers@;
    let il = input.values.len() as int;
    &&& layers.len() >= 1
    &&& protocol_ready(layers, il)
    &&& all_predicates_of(prover.preds(), layers, il)
    &&& prover.evaluation().layers@.len() == layers.len()
    &&& forall|i: int|
        0 <= i < layers.len() ==> vals((#[trigger] prover.evaluation().layers@[i]).values@) == layer_values(
            layers,
            vals(input.values@),
            i,
        )
    &&& verifier.inputs() == input.values@
    &&& verifier.preds().len() == layers.len()
    &&& forall|k: int| 0 <= k < layers.len() ==> (#[trigger] verifier.preds()[k])@ == prover.preds()[k]@
}

/// Runs the GKR protocol over a circuit, generic over the sum-check prover
/// used for each layer.
pub struct GKRDriver {
    pub prover: GKRProver,
    pub verifier: GKRVerifier,
    pub circuit: GKRCircuit,
    pub input_layer: InputLayer,
}

impl GKRDriver {
    /// The layers of the circuit.
    pub open spec fn layers(&self) -> Seq<Layer> {
        self.circuit.layers@
    }

    /// The number of inputs.
    pub open spec fn input_len(&self) -> int {
        self.input_layer.values.len() as int
    }

    /// The values of layer `i`; past the last layer, the input values.
    pub open spec fn values(&self, i: int) -> Seq<int> {
        layer_values(self.circuit.layers@, vals(self.input_layer.values@), i)
    }

    /// The number of variables addressing layer `i`.
    pub open spec fn vars(&self, i: int) -> nat {
        layer_vars(self.circuit.layers@, self.input_layer.values.len() as int, i)
    }

    /// The prover, the circuit and the input, which the protocol does not change.
    pub open spec fn fixed_parts(&self) -> (GKRProver, GKRCircuit, InputLayer) {
        (self.prover, self.circuit, self.input_layer)
    }

    /// The prover and the circuit agree, and the verifier holds the input and
    /// predicates for every layer.
    pub open spec fn honest(&self) -> bool {
        let layers = self.circuit.layers@;
        let il = self.input_layer.values.len() as int;
        &&& layers.len() >= 1
        &&& protocol_ready(layers, il)
        &&& all_predicates_of(self.prover.preds(), layers, il)
        &&& self.prover.evaluation().layers@.len() == layers.len()
        &&& forall|i: int|
            0 <= i < layers.len() ==> vals((#[trigger] self.prover.evaluation().layers@[i]).values@)
                == layer_values(layers, vals(self.input_layer.values@), i)
        &&& self.verifier.inputs() == self.input_layer.values@
        &&& self.verifier.preds().len() == layers.len()
    }

    /// The verifier's predicates of the layers from `from` on are untouched.
    pub open spec fn fresh_from(&self, from: int) -> bool {
        forall|k: int|
            from <= k < self.circuit.layers@.len() ==> (#[trigger] self.verifier.preds()[k])@ == self.prover.preds()[k]@
    }

    /// The verifier's predicates of layer `k` are restricted to the label `gate`.
    pub open spec fn fixed_at(&self, k: int, gate: Seq<int>) -> bool {
        let p = self.prover.preds()[k];
        let q = self.verifier.preds()[k];
        &&& q.add.wf()
        &&& q.mult.wf()
        &&& q.add.num_vars == p.add.num_vars - gate.len()
        &&& q.mult.num_vars == p.mult.num_vars - gate.len()
        &&& q.add.table() == fold_all(p.add.table(), gate)
        &&& q.mult.table() == fold_all(p.mult.table(), gate)
    }

    /// The verifier's predicates of layer `k` are restricted to a label of
    /// the layer.
    pub open spec fn settled(&self, k: int) -> bool {
        exists|g: Seq<int>| g.len() == self.vars(k) && #[trigger] self.fixed_at(k, g)
    }

    /// Entering layer `layer` with `conn`: past the output layer, the
    /// connection holds a gate of the layer and the value of the layer's
    /// extension there, and the verifier's predicates of the layer are fixed
    /// at that gate; the predicates of the layers below are untouched.
    pub open spec fn connected(&self, layer: int, conn: LayerConnection) -> bool {
        &&& layer == 0 ==> self.fresh_from(0)
        &&& layer > 0 ==> {
            &&& self.fresh_from(layer + 1)
            &&& conn.next_gate@.len() == self.vars(layer)
            &&& conn.claim_mi@ == mle_eval(self.values(layer), vals(conn.next_gate@))
            &&& layer < self.circuit.layers@.len() ==> self.fixed_at(layer, vals(conn.next_gate@))
        }
    }

    pub fn new(prover: GKRProver, verifier: GKRVerifier, circuit: GKRCircuit, input_layer: InputLayer) -> (r: Self)
        ensures
            r.layers() == circuit.layers@,
            r.input_len() == input_layer.values.len(),
            honest_parts(prover, verifier, circuit, input_layer) ==> r.honest() && r.fresh_from(0),
    {
        GKRDriver { prover, verifier, circuit, input_layer }
    }

    /// Simulates the whole protocol: one sum-check per layer followed by the
    /// final input-layer check. The verifier accepts the honest prover, so
    /// the run completes, with one entry per layer and one for the final
    /// check. In each entry every interval goes to the party whose calls it
    /// timed (`layer_roles`); the final check is the verifier's alone.
    pub fn run_circuit<P: SumCheckProver>(&mut self) -> (r: AnalysisResult)
        requires
            old(self).honest(),
            old(self).fresh_from(0),
        ensures
            r.layers().len() == old(self).layers().len() + 1,
            r.layers()[old(self).layers().len() as int].prover_spent() == 0,
            final(self).honest(),
            final(self).fixed_parts() == old(self).fixed_parts(),
            forall|k: int| 0 <= k < old(self).layers().len() ==> #[trigger] final(self).settled(k),
            forall|k: int|
                0 <= k < old(self).layers().len() ==> roles((#[trigger] r.layers()[k]).entries()) == layer_roles(
                    k,
                    old(self).vars(k + 1),
                ),
            roles(r.layers()[old(self).layers().len() as int].entries()) == seq![Role::Verifier],
    {
        let ghost parts = self.fixed_parts();
        let mut results = AnalysisResult::new();
        let mut connection = LayerConnection::new(vec![Fe::zero()], Fe::zero());
        let mut layer: usize = 0;
        while layer < self.circuit.layers.len()
            invariant
                self.honest(),
                self.connected(layer as int, connection),
                layer <= self.circuit.layers@.len(),
                self.layers() == old(self).layers(),
                self.fixed_parts() == parts,
                parts == old(self).fixed_parts(),
                results.layers().len() == layer,
                forall|k: int| 0 <= k < layer ==> #[trigger] self.settled(k),
                forall|k: int|
                    0 <= k < layer ==> roles((#[trigger] results.layers()[k]).entries()) == layer_roles(
                        k,
                        old(self).vars(k + 1),
                    ),
            decreases self.circuit.layers@.len() - layer,
        {
            let ghost before = *self;
            let (next_connection, track) = self.run_layer_sum_check::<P>(connection, layer);
            proof {
                assert(before.fixed_parts() == old(self).fixed_parts());
                assert(before.circuit == old(self).circuit && before.input_layer == old(self).input_layer);
                assert(before.vars(layer + 1) == old(self).vars(layer + 1));
                assert forall|k: int| 0 <= k < layer + 1 implies #[trigger] self.settled(k) by {
                    if k < layer {
                        assert(before.settled(k));
                        let g = choose|g: Seq<int>| g.len() == before.vars(k) && #[trigger] before.fixed_at(k, g);
                        assert(self.fixed_at(k, g));
                    }
                }
            }
            connection = next_connection;
            let ghost results_before = results.layers();
            results.add_time_per_layer(track);
            proof {
                assert forall|k: int| 0 <= k < layer + 1 implies roles((#[trigger] results.layers()[k]).entries())
                    == layer_roles(k, old(self).vars(k + 1)) by {
                    if k < layer {
                        assert(results.layers()[k] == results_before[k]);
                    }
                }
            }
            layer = layer + 1;
        }
        let mut track = Track::new();
        let start = clock_now();
        proof {
            let n = self.circuit.layers@.len() as int;
            let il = self.input_layer.values.len() as int;
            assert(is_pow2(layer_size(self.circuit.layers@, il, n)));
            let k = choose|k: nat| pow2(k) == layer_size(self.circuit.layers@, il, n);
            lemma_layer_vars(self.circuit.layers@, il, n, k);
        }
        self.verifier.verify_final_claimed_value_point(connection.next_gate.as_slice(), connection.claim_mi);
        track.add_verifier_time(nanos_since(&start));
        proof {
            assert(roles(track.entries()) =~= seq![Role::Verifier]);
        }
        results.add_time_per_layer(track);
        results
    }

    /// Runs the sum-check for one layer (`2 s_{i+1}` rounds) plus the layer
    /// reduction, and returns the connection to the next layer.
    #[verifier::rlimit(60)]
    pub fn run_layer_sum_check<P: SumCheckProver>(&mut self, connection: LayerConnection, layer: usize) -> (r: (
        LayerConnection,
        Track,
    ))
        requires
            old(self).honest(),
            layer < old(self).layers().len(),
            old(self).connected(layer as int, connection),
        ensures
            final(self).honest(),
            final(self).fixed_parts() == old(self).fixed_parts(),
            final(self).connected(layer + 1, r.0),
            forall|k: int| 0 <= k < layer ==> #[trigger] final(self).verifier.preds()[k] == old(self).verifier.preds()[k],
            final(self).settled(layer as int),
            roles(r.1.entries()) == layer_roles(layer as int, old(self).vars(layer + 1)),
    {
        let ghost layers = self.circuit.layers@;
        let ghost il = self.input_layer.values.len() as int;
        let ghost n = layers.len() as int;
        proof {
            assert(is_pow2(layer_size(layers, il, layer as int)));
            assert(is_pow2(layer_size(layers, il, layer + 1)));
            lemma_vals_reduced(self.input_layer.values@);
            assert(layer < self.circuit.layers.len());
        }
        let s_i_plus_1 = self.layer_num_vars(layer + 1);
        let s_i = self.layer_num_vars(layer);
        let value_extension = self.layer_value_extension(layer + 1);
        let ghost w_next = self.values(layer + 1);
        let ghost w_here = self.values(layer as int);
        let ghost pred = self.prover.preds()[layer as int];
        proof {
            assert(predicates_of(pred, layers[layer as int].gates@, s_i as nat, s_i_plus_1 as nat));
        }
        let round = GKRRound::new(
            &self.prover.predicates()[layer].mult,
            &self.prover.predicates()[layer].add,
            &value_extension,
            &value_extension,
        );
        let mut track = Track::new();
        let (gate, claim) = if layer == 0 {
            // The prover opens with the claimed output MLE; the verifier picks
            // a random output gate g and the sum-check starts on ~W_0(g).
            proof {
                lemma_layer_values_len(layers, vals(self.input_layer.values@), 0);
                assert(is_pow2(layer_size(layers, il, 0)));
                assert(vals(self.prover.evaluation().layers@[0].values@).len() == self.prover.evaluation().layers@[0].values@.len());
            }
            let output_claim = self.prover.output_claim();
            let output_vars = self.layer_num_vars(0);
            let start = clock_now();
            let gate = self.verifier.random_gate(output_vars);
            proof {
                lemma_pow2_injective(output_claim.num_vars as nat, output_vars as nat);
                assert(self.verifier.preds()[0]@ == self.prover.preds()[0]@);
            }
            self.verifier.set_gate(gate.as_slice(), 0);
            let claim = output_claim.evaluate(gate.as_slice());
            track.add_verifier_time(nanos_since(&start));
            (gate, claim)
        } else {
            (connection.next_gate, connection.claim_mi)
        };
        let ghost g = vals(gate@);
        let ghost st0 = initial_state(round, g);
        proof {
            lemma_vals_reduced(gate@);
            lemma_circuit_relation(layers, vals(self.input_layer.values@), layer as int);
            lemma_layer_values_len(layers, vals(self.input_layer.values@), layer as int);
            lemma_layer_values_len(layers, vals(self.input_layer.values@), layer + 1);
            lemma_layer_values_reduced(layers, vals(self.input_layer.values@), layer as int);
            assert(st0 == gkr_start(pred.add.table(), pred.mult.table(), w_next, g, s_i_plus_1 as nat));
            lemma_gkr_identity(pred.add.table(), pred.mult.table(), w_next, w_here, g, s_i_plus_1 as nat);
            assert(claim@ == st0.total());
            assert(self.fixed_at(layer as int, g));
            assert(g.len() == self.vars(layer as int));
        }
        let ghost settled_state = *self;
        proof {
            assert(roles(track.entries()) =~= if layer == 0 {
                seq![Role::Verifier]
            } else {
                Seq::<Role>::empty()
            });
        }
        let ghost opening = roles(track.entries());
        let start = clock_now();
        let mut prover = P::new(round, gate.as_slice());
        let ghost e0 = track.entries();
        track.add_prover_time(nanos_since(&start));
        proof {
            lemma_roles_push(e0, track.entries().last());
            assert(track.entries() == e0.push(track.entries().last()));
        }
        let ghost after_setup = roles(track.entries());

        let mut verifier = StandardVerifier::new(MAX_ROUND_POLY_DEGREE, claim);
        proof {
            crate::sumcheck::instance::lemma_initial_wf(round, g);
            assert(prover.fixed() == Seq::<int>::empty());
            assert(st0.fix_all(Seq::<int>::empty()) == st0);
        }
        run_sum_check_rounds(&mut prover, &mut verifier, 2 * s_i_plus_1, &mut track);
        let ghost after_rounds = roles(track.entries());
        let ghost e1 = track.entries();
        let start = clock_now();
        let msg = prover.layer_reduction_message(s_i_plus_1);
        track.add_prover_time(nanos_since(&start));
        proof {
            lemma_roles_push(e1, track.entries().last());
            assert(track.entries() == e1.push(track.entries().last()));
        }
        let ghost e2 = track.entries();
        let start = clock_now();
        let ghost pts = verifier.points();
        proof {
            lemma_points_reduced(&verifier);
            lemma_layer_end(pred.add.table(), pred.mult.table(), w_next, g, s_i_plus_1 as nat, pts);
            let b = pts.subrange(0, s_i_plus_1 as int);
            let c = pts.subrange(s_i_plus_1 as int, 2 * s_i_plus_1);
            lemma_line_endpoints(b, c);
            assert(msg.restriction().value(0) == mle_eval(w_next, line(b, c, 0)));
            assert(msg.restriction().value(1) == mle_eval(w_next, line(b, c, 1)));
        }
        self.verifier.confirm_last_sum_check_msg(&msg, &verifier, layer);
        let (next_gate, next_claim) = verifier.handle_layer_reduction_message(&msg, s_i_plus_1);
        proof {
            let b = pts.subrange(0, s_i_plus_1 as int);
            let c = pts.subrange(s_i_plus_1 as int, 2 * s_i_plus_1);
            let t = choose|t: int|
                {
                    &&& vals(next_gate@) == #[trigger] line(b, c, t)
                    &&& next_claim@ == msg.restriction().value(t)
                };
            assert(next_claim@ == mle_eval(w_next, vals(next_gate@)));
            if layer + 1 < n {
                assert(self.verifier.preds()[layer + 1]@ == self.prover.preds()[layer + 1]@);
                assert(predicates_of(
                    self.prover.preds()[layer + 1],
                    layers[layer + 1].gates@,
                    layer_vars(layers, il, layer + 1),
                    layer_vars(layers, il, layer + 2),
                ));
            }
        }
        self.verifier.set_gate(next_gate.as_slice(), layer + 1);
        track.add_verifier_time(nanos_since(&start));
        proof {
            lemma_roles_push(e2, track.entries().last());
            assert(track.entries() == e2.push(track.entries().last()));
            assert(after_setup =~= opening.push(Role::Prover));
            assert(roles(track.entries()) =~= opening + seq![Role::Prover] + repeat_roles(
                layer_round_roles(),
                2 * s_i_plus_1 as nat,
            ) + seq![Role::Prover, Role::Verifier]);
            assert(roles(track.entries()) =~= layer_roles(layer as int, self.vars(layer + 1)));
            assert(self.verifier.preds()[layer as int] == settled_state.verifier.preds()[layer as int]);
            assert(self.fixed_at(layer as int, g));
        }
        (LayerConnection::new(next_gate, next_claim), track)
    }

    /// The prover.
    pub fn prover(&self) -> (r: &GKRProver)
        ensures
            *r == self.fixed_parts().0,
    {
        &self.prover
    }

    /// The number of gate-label variables of `layer`; past the last circuit
    /// layer this is the input layer's.
    fn layer_num_vars(&self, layer: usize) -> (r: usize)
        requires
            self.honest(),
            layer <= self.layers().len(),
        ensures
            r == self.vars(layer as int),
            pow2(r as nat) == layer_size(self.layers(), self.input_len(), layer as int),
    {
        proof {
            assert(is_pow2(layer_size(self.circuit.layers@, self.input_layer.values.len() as int, layer as int)));
        }
        let r = if layer < self.circuit.layers.len() {
            log2_pow2(self.circuit.layers[layer].gates.len())
        } else {
            log2_pow2(self.input_layer.values.len())
        };
        proof {
            lemma_layer_vars(self.circuit.layers@, self.input_layer.values.len() as int, layer as int, r as nat);
        }
        r
    }

    /// The value MLE `~W_layer`; past the last circuit layer this is the
    /// input layer's extension.
    fn layer_value_extension(&self, layer: usize) -> (r: DenseMultilinearExtension)
        requires
            self.honest(),
            layer <= self.layers().len(),
        ensures
            r.wf(),
            r.num_vars == self.vars(layer as int),
            r.table() == self.values(layer as int),
    {
        let ghost layers = self.circuit.layers@;
        let ghost il = self.input_layer.values.len() as int;
        proof {
            assert(is_pow2(layer_size(layers, il, layer as int)));
            lemma_layer_values_len(layers, vals(self.input_layer.values@), layer as int);
        }
        let r = if layer < self.circuit.layers.len() {
            self.prover.evaluated_circuit().layers[layer].value_extension()
        } else {
            self.input_layer.value_extension()
        };
        proof {
            lemma_layer_vars(layers, il, layer as int, r.num_vars as nat);
        }
        r
    }
}

/// One GKR layer round driven on its own: the sum-check over the `2 k`
/// variables of `W(b) W(c)`-terms, then the layer reduction. The prover's
/// two end claims `W(b*)` and `W(c*)` fold into one claim about its layer
/// extension `W`, which holds: the returned claim is `W` at the returned
/// point, a point of `k` coordinates.
pub fn run_layer<P: SumCheckProver>(prover: &mut P, verifier: &mut StandardVerifier, k: usize) -> (r: (Vec<Fe>, Fe, Track))
    requires
        old(prover).wf(),
        old(prover).fixed() == Seq::<int>::empty(),
        old(prover).initial().wf(),
        old(prover).initial().nx == k,
        old(prover).initial().ny == k,
        old(prover).ready(),
        old(prover).layer_mle().wf(),
        old(prover).layer_mle().num_vars == k,
        old(verifier).points() == Seq::<int>::empty(),
        old(verifier).claim() == prover_state(old(prover)).total(),
        old(verifier).degree_bound() >= MAX_ROUND_POLY_DEGREE,
    ensures
        r.0@.len() == k,
        r.1@ == mle_eval(old(prover).layer_mle().table(), vals(r.0@)),
        final(prover).fixed().len() == 2 * k,
        final(prover).fixed() == final(verifier).points(),
        roles(r.2.entries()) == repeat_roles(layer_round_roles(), 2 * k as nat) + seq![Role::Prover, Role::Verifier],
{
    let mut track = Track::new();
    proof {
        crate::sumcheck::protocol::lemma_small_num_vars(k as nat);
    }
    let ghost w = prover.layer_mle().table();
    run_sum_check_rounds(prover, verifier, 2 * k, &mut track);
    let start = clock_now();
    let msg = prover.layer_reduction_message(k);
    track.add_prover_time(nanos_since(&start));
    let start = clock_now();
    let ghost pts = verifier.points();
    proof {
        let b = pts.subrange(0, k as int);
        let c = pts.subrange(k as int, 2 * k as int);
        lemma_points_reduced(verifier);
        lemma_line_endpoints(b, c);
        assert(msg.restriction().value(0) == mle_eval(w, line(b, c, 0)));
        assert(msg.restriction().value(1) == mle_eval(w, line(b, c, 1)));
    }
    let (next_gate, next_claim) = verifier.handle_layer_reduction_message(&msg, k);
    track.add_verifier_time(nanos_since(&start));
    proof {
        assert(roles(Seq::<(Role, u128)>::empty()) =~= Seq::<Role>::empty());
        assert(roles(track.entries()) =~= repeat_roles(layer_round_roles(), 2 * k as nat) + seq![Role::Prover, Role::Verifier]);
        let b = pts.subrange(0, k as int);
        let c = pts.subrange(k as int, 2 * k as int);
        let t = choose|t: int|
            {
                &&& vals(next_gate@) == #[trigger] line(b, c, t)
                &&& next_claim@ == msg.restriction().value(t)
            };
        assert(vals(next_gate@).len() == next_gate@.len());
    }
    (next_gate, next_claim, track)
}

/// The sum-check rounds of one layer: in each, the prover reports its round
/// polynomial, the verifier checks it and draws a point, the prover fixes
/// its next variable there and reports its new sum, which the verifier
/// takes as the claim. The honest prover passes every check.
fn run_sum_check_rounds<P: SumCheckProver>(
    prover: &mut P,
    verifier: &mut StandardVerifier,
    rounds: usize,
    track: &mut Track,
)
    requires
        old(prover).wf(),
        old(prover).fixed() == Seq::<int>::empty(),
        old(prover).initial().wf(),
        rounds == old(prover).initial().nx + old(prover).initial().ny,
        rounds > 0 ==> old(prover).ready(),
        old(verifier).points() == Seq::<int>::empty(),
        old(verifier).claim() == prover_state(old(prover)).total(),
        old(verifier).degree_bound() >= MAX_ROUND_POLY_DEGREE,
    ensures
        final(prover).wf(),
        final(prover).initial() == old(prover).initial(),
        final(prover).layer_mle() == old(prover).layer_mle(),
        final(prover).fixed() == final(verifier).points(),
        final(prover).fixed().len() == rounds,
        final(verifier).claim() == prover_state(final(prover)).total(),
        roles(final(track).entries()) == roles(old(track).entries()) + repeat_roles(layer_round_roles(), rounds as nat),
{
    let ghost st0 = prover.initial();
    let ghost mle0 = prover.layer_mle();
    let mut j: usize = 0;
    while j < rounds
        invariant
            prover.wf(),
            prover.initial() == st0,
            prover.layer_mle() == mle0,
            st0.wf(),
            rounds == st0.nx + st0.ny,
            prover.fixed() == verifier.points(),
            prover.fixed().len() == j,
            j <= rounds,
            j < rounds ==> prover.ready(),
            verifier.claim() == prover_state(prover).total(),
            verifier.degree_bound() >= MAX_ROUND_POLY_DEGREE,
            roles(track.entries()) == roles(old(track).entries()) + repeat_roles(layer_round_roles(), j as nat),
        decreases rounds - j,
    {
        let ghost entries_before = track.entries();
        let ghost st = prover_state(prover);
        proof {
            lemma_fix_all_wf(st0, prover.fixed());
            lemma_total_split(st);
        }
        let start = clock_now();
        let points = prover.get_verifier_function();
        track.add_prover_time(nanos_since(&start));
        let ghost pts = points@;
        let start = clock_now();
        proof {
            crate::poly::lemma_sorted_terms(pts);
        }
        let poly = SparsePolynomial::from_coefficients_vec(points);
        proof {
            lemma_two_point_poly(pts, poly);
        }
        let r_j = verifier.handle_round(&poly);
        track.add_verifier_time(nanos_since(&start));
        let start = clock_now();
        prover.fix_variable(r_j);
        let new_claim = prover.compute_sum();
        track.add_prover_time(nanos_since(&start));
        let start = clock_now();
        verifier.set_claim(new_claim);
        track.add_verifier_time(nanos_since(&start));
        proof {
            let es = track.entries();
            assert(es.len() == entries_before.len() + 4);
            assert(roles(es) =~= roles(entries_before) + layer_round_roles());
            assert(repeat_roles(layer_round_roles(), (j + 1) as nat) == repeat_roles(layer_round_roles(), j as nat)
                + layer_round_roles());
            assert(roles(es) =~= roles(old(track).entries()) + repeat_roles(layer_round_roles(), (j + 1) as nat));
        }
        j = j + 1;
    }
}

/// A false claim about a layer is rejected. Where the claimed value differs
/// from the layer's extension at the label `g`, the round polynomial the
/// honest prover sends first does not sum to it; where the layer's
/// sum-check has no round, the verifier's final consistency check fails.
pub proof fn lemma_false_layer_claim_rejected(
    ad: Seq<int>,
    mu: Seq<int>,
    wv: Seq<int>,
    wi: Seq<int>,
    g: Seq<int>,
    t: nat,
    claim: int,
    pts: Seq<int>,
)
    requires
        ad.len() == pow2(g.len() + 2 * t),
        mu.len() == pow2(g.len() + 2 * t),
        wv.len() == pow2(t),
        wi.len() == pow2(g.len()),
        reduced(wi),
        layer_relation(ad, mu, wv, wi, pow2(g.len()) as int, pow2(t) as int),
        gkr_start(ad, mu, wv, g, t).wf(),
        claim != mle_eval(wi, g),
        pts.len() == 2 * t,
    ensures
        t > 0 ==> (gkr_start(ad, mu, wv, g, t).half(0) + gkr_start(ad, mu, wv, g, t).half(1)) % modulus() != claim,
        t == 0 ==> !layer_claim_consistent(
            mle_eval(wv, pts.subrange(0, t as int)),
            mle_eval(wv, pts.subrange(t as int, 2 * t as int)),
            mle_eval(fold_all(ad, g), pts),
            mle_eval(fold_all(mu, g), pts),
            claim,
        ),
{
    let st = gkr_start(ad, mu, wv, g, t);
    lemma_gkr_identity(ad, mu, wv, wi, g, t);
    if t > 0 {
        lemma_total_split(st);
    } else {
        lemma_layer_end(ad, mu, wv, g, t, pts);
        assert(pts =~= Seq::<int>::empty());
        assert(st.fix_all(pts) == st);
    }
}

/// At the end of a layer's sum-check, the claim is the verifier's own
/// evaluation from the prover's values `W(b*)` and `W(c*)` and the
/// predicates restricted to the label and then evaluated at the points.
pub proof fn lemma_layer_end(ad: Seq<int>, mu: Seq<int>, w: Seq<int>, g: Seq<int>, t: nat, pts: Seq<int>)
    requires
        gkr_start(ad, mu, w, g, t).wf(),
        pts.len() == 2 * t,
    ensures
        layer_claim_consistent(
            mle_eval(w, pts.subrange(0, t as int)),
            mle_eval(w, pts.subrange(t as int, 2 * t as int)),
            mle_eval(fold_all(ad, g), pts),
            mle_eval(fold_all(mu, g), pts),
            gkr_start(ad, mu, w, g, t).fix_all(pts).total(),
        ),
{
    let s0 = gkr_start(ad, mu, w, g, t);
    let st = s0.fix_all(pts);
    lemma_fix_all_split(s0, pts);
    lemma_fix_all_tables(s0, pts);
    lemma_fix_all_wf(s0, pts);
    assert(pts.take(t as int) =~= pts.subrange(0, t as int));
    assert(pts.skip(t as int) =~= pts.subrange(t as int, 2 * t as int));
    vstd::arithmetic::power2::lemma2_to64();
    assert(st.size() == 1);
    let z1 = st.vi[0];
    let z2 = st.vj[0];
    let a = st.add[0];
    let m = st.mult[0];
    assert(0int % 1 == 0 && 0int / 1 == 0);
    assert(crate::arith::sum(st.terms(), 1) == crate::arith::sum(st.terms(), 0) + st.terms()(0));
    assert(st.term(0) == a * (z1 + z2) + m * z1 * z2);
    lemma_layer_claim(z1, z2, a, m);
}

} // verus!
