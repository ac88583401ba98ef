//! Instrumentation used by the simulations to time prover and verifier work
//! separately. Times are counted in nanoseconds.
use std::time::{Duration, Instant};
use vstd::prelude::*;

verus! {

/// `std::time::Instant`: opaque, it is only handed back to `nanos_since`.
#[verifier::external_type_specification]
#[verifier::external_body]
pub struct ExInstant(Instant);

/// Calls `Instant::now`: the current instant of the monotonic clock.
#[verifier::external_body]
pub(crate) fn clock_now() -> Instant {
    Instant::now()
}

/// Calls `Instant::elapsed`: the time since `start`. Nothing is stated of it.
#[verifier::external_body]
fn elapsed_since(start: &Instant) -> Duration {
    start.elapsed()
}

/// Calls `Duration::as_nanos`: the whole nanoseconds of `d`.
#[verifier::external_body]
fn duration_nanos(d: Duration) -> u128 {
    d.as_nanos()
}

/// The nanoseconds elapsed since `start`.
pub fn nanos_since(start: &Instant) -> u128 {
    duration_nanos(elapsed_since(start))
}

/// Runs `f` and returns its result together with the elapsed wall-clock
/// time in nanoseconds.
pub fn timed<T, F: FnOnce() -> T>(f: F) -> (r: (T, u128))
    requires
        f.requires(()),
    ensures
        f.ensures((), r.0),
{
    let start = clock_now();
    let result = f();
    (result, nanos_since(&start))
}

/// `a + b`, or `u128::MAX` where the sum does not fit.
pub open spec fn add_capped(a: u128, b: u128) -> u128 {
    if a + b <= u128::MAX {
        (a + b) as u128
    } else {
        u128::MAX
    }
}

/// Whose call a measured interval timed.
#[derive(PartialEq, Eq, Structural, Clone, Copy, Debug)]
pub enum Role {
    Prover,
    Verifier,
}

/// `x`, or `u128::MAX` where it does not fit.
pub open spec fn capped(x: int) -> u128 {
    if x <= u128::MAX {
        x as u128
    } else {
        u128::MAX
    }
}

/// The total of the intervals of `es` measured for `role` (unbounded).
pub open spec fn role_total(es: Seq<(Role, u128)>, role: Role) -> int
    decreases es.len(),
{
    if es.len() == 0 {
        0
    } else {
        role_total(es.drop_last(), role) + if es.last().0 == role {
            es.last().1 as int
        } else {
            0
        }
    }
}

/// The roles of the intervals of `es`, in order.
pub open spec fn roles(es: Seq<(Role, u128)>) -> Seq<Role> {
    es.map_values(|e: (Role, u128)| e.0)
}

/// `n` copies of `r`, one after the other.
pub open spec fn repeat_roles(r: Seq<Role>, n: nat) -> Seq<Role>
    decreases n,
{
    if n == 0 {
        Seq::empty()
    } else {
        repeat_roles(r, (n - 1) as nat) + r
    }
}

/// The roles of the intervals after one more is added.
pub proof fn lemma_roles_push(es: Seq<(Role, u128)>, e: (Role, u128))
    ensures
        roles(es.push(e)) == roles(es).push(e.0),
{
    assert(roles(es.push(e)) =~= roles(es).push(e.0));
}

/// Adding an interval to a role adds it to that role's total alone.
pub proof fn lemma_role_total_push(es: Seq<(Role, u128)>, e: (Role, u128), role: Role)
    ensures
        role_total(es.push(e), role) == role_total(es, role) + if e.0 == role { e.1 as int } else { 0 },
        role_total(es, role) >= 0,
    decreases es.len(),
{
    assert(es.push(e).drop_last() =~= es);
    lemma_role_total_nonneg(es, role);
}

/// A total of intervals is not negative.
pub proof fn lemma_role_total_nonneg(es: Seq<(Role, u128)>, role: Role)
    ensures
        role_total(es, role) >= 0,
    decreases es.len(),
{
    if es.len() > 0 {
        lemma_role_total_nonneg(es.drop_last(), role);
    }
}

/// Capping a sum after each addition is capping it once.
proof fn lemma_capped_add(x: int, t: u128)
    requires
        x >= 0,
    ensures
        capped(x + t) == add_capped(capped(x), t),
{
}

/// Accumulated prover/verifier time, in nanoseconds, for one protocol run
/// (or one layer of a GKR run): the measured intervals in order, each with
/// the role whose call it timed; the prover's time is the total of the
/// prover's intervals and the verifier's that of the verifier's. A total
/// that would exceed `u128::MAX` nanoseconds stays at `u128::MAX`.
#[derive(Clone, Copy)]
pub struct Track {
    prover: u128,
    verifier: u128,
    entries: Ghost<Seq<(Role, u128)>>,
}

impl Track {
    /// The measured intervals, in order, each with its role.
    pub closed spec fn entries(self) -> Seq<(Role, u128)> {
        self.entries@
    }

    /// The prover's accumulated time: the total of its intervals.
    pub open spec fn prover_spent(self) -> u128 {
        capped(role_total(self.entries(), Role::Prover))
    }

    /// The verifier's accumulated time: the total of its intervals.
    pub open spec fn verifier_spent(self) -> u128 {
        capped(role_total(self.entries(), Role::Verifier))
    }

    /// The stored totals are those of the intervals.
    #[verifier::type_invariant]
    spec fn totals_match(self) -> bool {
        &&& self.prover == capped(role_total(self.entries@, Role::Prover))
        &&& self.verifier == capped(role_total(self.entries@, Role::Verifier))
    }

    /// No time spent yet.
    pub fn new() -> (r: Self)
        ensures
            r.entries() == Seq::<(Role, u128)>::empty(),
            r.prover_spent() == 0,
            r.verifier_spent() == 0,
    {
        Track { prover: 0, verifier: 0, entries: Ghost(Seq::empty()) }
    }

    /// The given times, as one prover interval and one verifier interval.
    pub fn new_times(prover: u128, verifier: u128) -> (r: Self)
        ensures
            r.entries() == seq![(Role::Prover, prover), (Role::Verifier, verifier)],
            r.prover_spent() == prover,
            r.verifier_spent() == verifier,
    {
        let ghost e0 = Seq::<(Role, u128)>::empty();
        let ghost es = seq![(Role::Prover, prover), (Role::Verifier, verifier)];
        proof {
            assert(e0.push((Role::Prover, prover)).push((Role::Verifier, verifier)) =~= es);
            assert(role_total(e0, Role::Prover) == 0 && role_total(e0, Role::Verifier) == 0);
            lemma_role_total_push(e0, (Role::Prover, prover), Role::Prover);
            lemma_role_total_push(e0, (Role::Prover, prover), Role::Verifier);
            lemma_role_total_push(e0.push((Role::Prover, prover)), (Role::Verifier, verifier), Role::Prover);
            lemma_role_total_push(e0.push((Role::Prover, prover)), (Role::Verifier, verifier), Role::Verifier);
        }
        Track { prover, verifier, entries: Ghost(es) }
    }

    /// Adds an interval of the prover's.
    pub fn add_prover_time(&mut self, time: u128)
        ensures
            final(self).entries() == old(self).entries().push((Role::Prover, time)),
            final(self).prover_spent() == add_capped(old(self).prover_spent(), time),
            final(self).verifier_spent() == old(self).verifier_spent(),
    {
        proof {
            use_type_invariant(&*self);
            lemma_role_total_push(self.entries@, (Role::Prover, time), Role::Prover);
            lemma_role_total_push(self.entries@, (Role::Prover, time), Role::Verifier);
            lemma_capped_add(role_total(self.entries@, Role::Prover), time);
        }
        let ghost es = self.entries@.push((Role::Prover, time));
        *self = Track { prover: self.prover.saturating_add(time), verifier: self.verifier, entries: Ghost(es) };
    }

    /// Adds an interval of the verifier's.
    pub fn add_verifier_time(&mut self, time: u128)
        ensures
            final(self).entries() == old(self).entries().push((Role::Verifier, time)),
            final(self).verifier_spent() == add_capped(old(self).verifier_spent(), time),
            final(self).prover_spent() == old(self).prover_spent(),
    {
        proof {
            use_type_invariant(&*self);
            lemma_role_total_push(self.entries@, (Role::Verifier, time), Role::Prover);
            lemma_role_total_push(self.entries@, (Role::Verifier, time), Role::Verifier);
            lemma_capped_add(role_total(self.entries@, Role::Verifier), time);
        }
        let ghost es = self.entries@.push((Role::Verifier, time));
        *self = Track { prover: self.prover, verifier: self.verifier.saturating_add(time), entries: Ghost(es) };
    }

    /// The prover's time.
    pub fn prover(&self) -> (r: u128)
        ensures
            r == self.prover_spent(),
    {
        proof {
            use_type_invariant(self);
        }
        self.prover
    }

    /// The verifier's time.
    pub fn verifier_time(&self) -> (r: u128)
        ensures
            r == self.verifier_spent(),
    {
        proof {
            use_type_invariant(self);
        }
        self.verifier
    }
}

impl Default for Track {
    fn default() -> (r: Self)
        ensures
            r.prover_spent() == 0,
            r.verifier_spent() == 0,
    {
        Track::new()
    }
}

/// Prover/verifier times per GKR layer for one full protocol run.
/// The final input-layer check is appended as an extra entry.
pub struct AnalysisResult {
    time_per_layer: Vec<Track>,
}

impl AnalysisResult {
    /// The recorded entries, in order.
    pub closed spec fn layers(&self) -> Seq<Track> {
        self.time_per_layer@
    }

    pub fn new() -> (r: Self)
        ensures
            r.layers() == Seq::<Track>::empty(),
    {
        AnalysisResult { time_per_layer: Vec::new() }
    }

    /// Appends the times of the next layer.
    pub fn add_time_per_layer(&mut self, track: Track)
        ensures
            final(self).layers() == old(self).layers().push(track),
    {
        self.time_per_layer.push(track);
    }

    /// The times of entry `layer`.
    pub fn get_time_for_layer(&self, layer: usize) -> (r: &Track)
        requires
            layer < self.layers().len(),
        ensures
            *r == self.layers()[layer as int],
    {
        &self.time_per_layer[layer]
    }

    /// The number of recorded entries.
    pub fn len(&self) -> (r: usize)
        ensures
            r == self.layers().len(),
    {
        self.time_per_layer.len()
    }
}

impl Default for AnalysisResult {
    fn default() -> (r: Self)
        ensures
            r.layers() == Seq::<Track>::empty(),
    {
        AnalysisResult::new()
    }
}

} // verus!
