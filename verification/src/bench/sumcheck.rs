//! Standalone sum-check benchmark: naive vs. fast prover on random instances
//! of increasing dimension.
use crate::field::{lemma_fe_range, Fe};
use crate::mle::vals;
use crate::poly::{lemma_two_point_poly, SparsePolynomial};
use crate::sumcheck::instance::{lemma_initial_wf, GKRRound};
use crate::sumcheck::instance::initial_state;
use crate::sumcheck::protocol::{final_claim_holds, lemma_honest_run_accepted, prover_state, SumCheckProver, SumCheckVerifier};
use crate::sumcheck::standard_verifier::StandardVerifier;
use crate::sumcheck::state::{lemma_fix_all_wf, lemma_total_split};
use crate::timing::{clock_now, nanos_since, repeat_roles, roles, Role, Track};
use crate::util::random_gate;
use vstd::arithmetic::power2::pow2;
use vstd::prelude::*;

verus! {

broadcast use lemma_fe_range;

/// The largest dimension benchmarked.
pub const MAX_VARIABLES: usize = 10;

/// Trials per dimension as used for the report benchmarks: dimensions 0-5 are
/// skipped, 6-10 run 300 trials and everything above runs 30.
pub fn trials_per_dimension() -> (r: Vec<usize>)
    ensures
        r.len() == 21,
        forall|i: int| 0 <= i < 6 ==> #[trigger] r@[i] == 0,
        forall|i: int| 6 <= i < 11 ==> #[trigger] r@[i] == 300,
        forall|i: int| 11 <= i < 21 ==> #[trigger] r@[i] == 30,
{
    let mut r: Vec<usize> = Vec::with_capacity(21);
    let mut i: usize = 0;
    while i < 21
        invariant
            i <= 21,
            r.len() == i,
            forall|k: int| 0 <= k < i && k < 6 ==> #[trigger] r@[k] == 0,
            forall|k: int| 6 <= k < i && k < 11 ==> #[trigger] r@[k] == 300,
            forall|k: int| 11 <= k < i ==> #[trigger] r@[k] == 30,
        decreases 21 - i,
    {
        if i < 6 {
            r.push(0);
        } else if i < 11 {
            r.push(300);
        } else {
            r.push(30);
        }
        i = i + 1;
    }
    r
}

/// The roles of the intervals of one sum-check round: the prover's round
/// polynomial, the verifier's round check, the prover's fixing of the
/// variable, the prover's new sum, the verifier's taking of the new claim.
pub open spec fn sumcheck_round_roles() -> Seq<Role> {
    seq![Role::Prover, Role::Verifier, Role::Prover, Role::Prover, Role::Verifier]
}

/// The roles of the intervals of a standalone sum-check run of `rounds`
/// rounds: the prover's setup and first sum, the verifier's setup, the
/// rounds, and the verifier's final check.
pub open spec fn instance_roles(rounds: nat) -> Seq<Role> {
    seq![Role::Prover, Role::Prover, Role::Verifier] + repeat_roles(sumcheck_round_roles(), rounds) + seq![Role::Verifier]
}

/// Runs one full sum-check execution of an honest prover on `round` with
/// the label `gate` and returns the accumulated prover/verifier times, the
/// verdict of the verifier's final oracle check and the points the verifier
/// handed out. Every round check passes: the honest prover's round
/// polynomial sums to the claim. The verdict is the final check on the sum
/// the prover stands behind once every variable is fixed at those points,
/// and it accepts wherever the instance reads the same extension for both
/// halves of the points. Each call is timed on its own and its interval
/// goes to the party that made it (`instance_roles`): the prover's time is
/// the total of the intervals of its setup, its sums, its round
/// polynomials and its fixing of variables, the verifier's the total of the
/// intervals of its setup, its round checks, its taking of claims and its
/// final check.
pub fn run_instance<P: SumCheckProver>(round: GKRRound, gate: &[Fe]) -> (r: (Track, bool, Vec<Fe>))
    requires
        round.wf(),
        round.vi.num_vars == round.vj.num_vars,
        round.vi.num_vars > 0,
        gate.len() + round.vi.num_vars + round.vj.num_vars == round.mult_spec().num_vars,
    ensures
        r.2@.len() == 2 * round.vi.num_vars,
        r.1 == final_claim_holds(
            vals(r.2@),
            vals(gate@),
            round.add_spec().table(),
            round.mult_spec().table(),
            round.vi.table(),
            initial_state(round, vals(gate@)).fix_all(vals(r.2@)).total(),
        ),
        round.vj.table() == round.vi.table() ==> r.1,
        roles(r.0.entries()) == instance_roles(2 * round.vi.num_vars as nat),
{
    let mut track = Track::new();

    let start = clock_now();
    let mut prover = P::new(round.duplicate(), gate);
    track.add_prover_time(nanos_since(&start));
    let start = clock_now();
    let claim = prover.compute_sum();
    track.add_prover_time(nanos_since(&start));

    // Degree bound 2 is arbitrary for the simulation; the round polynomials
    // sent here are of degree one.
    let start = clock_now();
    let mut verifier = StandardVerifier::new(2, claim);
    track.add_verifier_time(nanos_since(&start));

    let ghost st0 = prover.initial();
    proof {
        lemma_initial_wf(round, vals(gate@));
    }
    let mut verifier_function: Vec<(usize, Fe)> = Vec::new();
    let rounds = 2 * round.vj.num_vars;
    let mut j: usize = 0;
    while j < rounds
        invariant
            prover.wf(),
            prover.initial() == st0,
            st0 == initial_state(round, vals(gate@)),
            st0.wf(),
            rounds == st0.nx + st0.ny,
            prover.ready(),
            prover.fixed() == verifier.points(),
            prover.fixed().len() == j,
            j <= rounds,
            verifier.claim() == prover_state(&prover).total(),
            verifier.degree_bound() == 2,
            roles(track.entries()) == seq![Role::Prover, Role::Prover, Role::Verifier] + repeat_roles(
                sumcheck_round_roles(),
                j as nat,
            ),
        decreases rounds - j,
    {
        let ghost entries_before = track.entries();
        let ghost st = prover_state(&prover);
        proof {
            lemma_fix_all_wf(st0, prover.fixed());
            lemma_total_split(st);
        }
        let start = clock_now();
        let points = prover.get_verifier_function();
        track.add_prover_time(nanos_since(&start));
        verifier_function = crate::mle::copy_entries(&points);
        let ghost pts = points@;

        let start = clock_now();
        proof {
            crate::poly::lemma_sorted_terms(pts);
        }
        let poly = SparsePolynomial::from_coefficients_vec(points);
        proof {
            lemma_two_point_poly(pts, poly);
        }
        let r_i = verifier.handle_round(&poly);
        track.add_verifier_time(nanos_since(&start));

        let start = clock_now();
        prover.fix_variable(r_i);
        track.add_prover_time(nanos_since(&start));

        let start = clock_now();
        let claim = prover.compute_sum();
        track.add_prover_time(nanos_since(&start));

        let start = clock_now();
        verifier.set_claim(claim);
        track.add_verifier_time(nanos_since(&start));
        proof {
            let es = track.entries();
            assert(es.len() == entries_before.len() + 5);
            assert(roles(es) =~= roles(entries_before) + sumcheck_round_roles());
            assert(repeat_roles(sumcheck_round_roles(), (j + 1) as nat) == repeat_roles(sumcheck_round_roles(), j as nat)
                + sumcheck_round_roles());
            assert(roles(es) =~= seq![Role::Prover, Role::Prover, Role::Verifier] + repeat_roles(
                sumcheck_round_roles(),
                (j + 1) as nat,
            ));
        }
        j = j + 1;
    }

    let start = clock_now();
    let accepted = verifier.final_claim_matches(gate, round.add_predicate(), round.mult_predicate(), &round.vi);
    if accepted {
        verifier.final_check(gate, round.add_predicate(), round.mult_predicate(), round.vi.duplicate(), verifier_function);
    }
    track.add_verifier_time(nanos_since(&start));
    let points = verifier.random_points_chosen();
    proof {
        if round.vj.table() == round.vi.table() {
            lemma_honest_run_accepted(round, vals(gate@), verifier.points());
        }
    }
    (track, accepted, points)
}

/// Simulates one full sum-check execution over a random instance of the
/// given dimension (at least one: the final check needs a point) and
/// returns the accumulated prover/verifier times together with the verdict
/// of the verifier's final oracle check, which accepts: the instance drawn
/// reads the same extension for both halves of the points.
pub fn simulate_instance<P: SumCheckProver>(dimension: usize) -> (r: (Track, bool))
    requires
        dimension > 0,
        pow2((3 * dimension) as nat) <= usize::MAX,
    ensures
        r.1,
        roles(r.0.entries()) == instance_roles(2 * dimension as nat),
{
    let round = GKRRound::new_rand(dimension);
    let gate = random_gate(round.gate_labels());
    let (track, accepted, _) = run_instance::<P>(round, gate.as_slice());
    (track, accepted)
}

} // verus!
