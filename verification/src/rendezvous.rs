//! Rendezvous with one provider: when to register and look up, and what to make of what
//! the provider hands out.

use vstd::prelude::*;

use crate::bytes::{bytes_before, copy_bytes, same_bytes, Id};
use crate::error::{NodeError, Result};
use crate::routes::{canonical_routes, in_byte_order};

verus! {

/// Most operations with rendezvous providers in one pass.
pub const MAX_RENDEZVOUS_OPERATIONS_PER_TICK: usize = 16;

/// First registrations are spread over this long.
pub const RENDEZVOUS_INITIAL_JITTER_SECS: u64 = 300;

/// A confirmed registration is renewed after this long.
pub const RENDEZVOUS_REGISTER_REFRESH_SECS: u64 = 3_600;

/// Routes are looked up again this long before they expire.
pub const RENDEZVOUS_NEAR_EXPIRY_SECS: u64 = 900;

/// Shortest wait after a failure.
pub const RENDEZVOUS_BACKOFF_MIN_SECS: u64 = 5;

/// Longest wait after a failure.
pub const RENDEZVOUS_BACKOFF_MAX_SECS: u64 = 900;

/// A provider that fails this often in a row is left alone for a while.
pub const RENDEZVOUS_CIRCUIT_FAILURES: u8 = 5;

/// How long it is left alone.
pub const RENDEZVOUS_CIRCUIT_OPEN_SECS: u64 = 1_800;

/// Registering or looking up takes at most this many operations.
pub const OPERATIONS_PER_EXCHANGE: usize = 3;

/// What is done with a provider.
#[derive(Clone, Copy, Debug, PartialEq, Eq, Structural)]
pub enum RendezvousOperationKind {
    /// Leaving one's own routes.
    Register,
    /// Asking for the peer's routes.
    Lookup,
}

/// What is known of one provider, for one device of a contact.
pub struct ProviderState {
    /// Identity of the provider.
    pub provider: Id,
    /// Own routes are published there.
    pub publish_enabled: bool,
    /// The peer publishes there.
    pub lookup_enabled: bool,
    /// Published routes have to be withdrawn.
    pub withdrawal_pending: bool,
    /// Generation of the last publication.
    pub publish_generation: u64,
    /// When a registration was last confirmed.
    pub registration_confirmed_at: u64,
    /// When to register next.
    pub next_register_at: u64,
    /// Generation of the last accepted record.
    pub accepted_generation: u64,
    /// Records up to this generation contradicted each other.
    pub conflict_generation: Option<u64>,
    /// Latest time at which a record was accepted.
    pub clock_floor: u64,
    /// The peer's routes. The kind of a route is part of its bytes: each is held as it is
    /// encoded, kind first.
    pub routes: Vec<Vec<u8>>,
    /// When they expire; zero without routes.
    pub routes_expires_at: u64,
    /// When to look up next.
    pub next_lookup_at: u64,
    /// Failures in a row.
    pub consecutive_failures: u8,
    /// The provider is left alone until then.
    pub circuit_open_until: u64,
}

/// The contents of a `ProviderState`.
#[verifier::ext_equal]
pub struct ProviderView {
    /// Identity of the provider.
    pub provider: Id,
    /// Own routes are published there.
    pub publish_enabled: bool,
    /// The peer publishes there.
    pub lookup_enabled: bool,
    /// Published routes have to be withdrawn.
    pub withdrawal_pending: bool,
    /// Generation of the last publication.
    pub publish_generation: u64,
    /// When a registration was last confirmed.
    pub registration_confirmed_at: u64,
    /// When to register next.
    pub next_register_at: u64,
    /// Generation of the last accepted record.
    pub accepted_generation: u64,
    /// Records up to this generation contradicted each other.
    pub conflict_generation: Option<u64>,
    /// Latest time at which a record was accepted.
    pub clock_floor: u64,
    /// The peer's routes.
    pub routes: Seq<Seq<u8>>,
    /// When they expire.
    pub routes_expires_at: u64,
    /// When to look up next.
    pub next_lookup_at: u64,
    /// Failures in a row.
    pub consecutive_failures: u8,
    /// The provider is left alone until then.
    pub circuit_open_until: u64,
}

/// Routes as sequences of bytes.
pub open spec fn routes_of(routes: Seq<Vec<u8>>) -> Seq<Seq<u8>> {
    Seq::new(routes.len(), |i: int| routes[i]@)
}

impl View for ProviderState {
    type V = ProviderView;

    open spec fn view(&self) -> ProviderView {
        ProviderView {
            provider: self.provider,
            publish_enabled: self.publish_enabled,
            lookup_enabled: self.lookup_enabled,
            withdrawal_pending: self.withdrawal_pending,
            publish_generation: self.publish_generation,
            registration_confirmed_at: self.registration_confirmed_at,
            next_register_at: self.next_register_at,
            accepted_generation: self.accepted_generation,
            conflict_generation: self.conflict_generation,
            clock_floor: self.clock_floor,
            routes: routes_of(self.routes@),
            routes_expires_at: self.routes_expires_at,
            next_lookup_at: self.next_lookup_at,
            consecutive_failures: self.consecutive_failures,
            circuit_open_until: self.circuit_open_until,
        }
    }
}

/// A record that a provider handed out and that passed all checks of its own.
pub struct RouteRecord {
    /// Its epoch.
    pub epoch: u64,
    /// Its generation.
    pub generation: u64,
    /// When it was issued.
    pub issued_at: u64,
    /// When it expires.
    pub expires_at: u64,
    /// The routes in it, each as it is encoded, kind first.
    pub routes: Vec<Vec<u8>>,
}

/// The contents of a `RouteRecord`.
#[verifier::ext_equal]
pub struct RecordView {
    /// Its epoch.
    pub epoch: u64,
    /// Its generation.
    pub generation: u64,
    /// When it was issued.
    pub issued_at: u64,
    /// When it expires.
    pub expires_at: u64,
    /// The routes in it.
    pub routes: Seq<Seq<u8>>,
}

impl View for RouteRecord {
    type V = RecordView;

    open spec fn view(&self) -> RecordView {
        RecordView {
            epoch: self.epoch,
            generation: self.generation,
            issued_at: self.issued_at,
            expires_at: self.expires_at,
            routes: routes_of(self.routes@),
        }
    }
}

/// Records as their contents.
pub open spec fn records_of(records: Seq<RouteRecord>) -> Seq<RecordView> {
    Seq::new(records.len(), |i: int| records[i]@)
}

/// Whether two lists of routes are the same.
pub fn same_routes(a: &Vec<Vec<u8>>, b: &Vec<Vec<u8>>) -> (res: bool)
    ensures
        res == (routes_of(a@) == routes_of(b@)),
{
    if a.len() != b.len() {
        assert(routes_of(a@).len() != routes_of(b@).len());
        return false;
    }
    let mut i: usize = 0;
    while i < a.len()
        invariant
            i <= a@.len(),
            a@.len() == b@.len(),
            forall|k: int| 0 <= k < i ==> (#[trigger] a@[k])@ == b@[k]@,
        decreases a@.len() - i,
    {
        if !same_bytes(&a[i], &b[i]) {
            assert(routes_of(a@)[i as int] != routes_of(b@)[i as int]);
            return false;
        }
        i = i + 1;
    }
    assert(routes_of(a@) =~= routes_of(b@));
    true
}

/// A copy of a list of routes.
pub fn copy_routes(a: &Vec<Vec<u8>>) -> (res: Vec<Vec<u8>>)
    ensures
        routes_of(res@) == routes_of(a@),
{
    let mut out: Vec<Vec<u8>> = Vec::new();
    let mut i: usize = 0;
    while i < a.len()
        invariant
            i <= a@.len(),
            out@.len() == i,
            forall|k: int| 0 <= k < i ==> (#[trigger] out@[k])@ == a@[k]@,
        decreases a@.len() - i,
    {
        out.push(copy_bytes(&a[i]));
        i = i + 1;
    }
    assert(routes_of(out@) =~= routes_of(a@));
    out
}

// ---- Timing ----

/// Time added without overflow.
pub open spec fn later(now: u64, secs: int) -> u64 {
    if now + secs > u64::MAX {
        u64::MAX
    } else {
        (now + secs) as u64
    }
}

/// The spread of a first registration, from a drawn number.
pub open spec fn jitter_of(draw: u64) -> int {
    draw as int % (RENDEZVOUS_INITIAL_JITTER_SECS + 1)
}

/// The spread of a first registration, from a drawn number.
pub fn rendezvous_jitter(draw: u64) -> (res: u64)
    ensures
        res == jitter_of(draw),
        res <= RENDEZVOUS_INITIAL_JITTER_SECS,
{
    draw % (RENDEZVOUS_INITIAL_JITTER_SECS + 1)
}

/// The wait after the given number of failures in a row: it doubles from the shortest to
/// the longest.
pub open spec fn backoff(failures: u8) -> int
    decreases failures,
{
    if failures <= 1 {
        RENDEZVOUS_BACKOFF_MIN_SECS as int
    } else {
        let doubled = 2 * backoff((failures - 1) as u8);
        if doubled > RENDEZVOUS_BACKOFF_MAX_SECS {
            RENDEZVOUS_BACKOFF_MAX_SECS as int
        } else {
            doubled
        }
    }
}

/// One failure more, as far as the count goes.
pub open spec fn failures_after(failures: u8) -> u8 {
    if failures == u8::MAX {
        u8::MAX
    } else {
        (failures + 1) as u8
    }
}

/// What a failure leaves behind: a longer wait for the operation that failed and, after too
/// many in a row, a pause of the whole provider.
pub open spec fn failure_noted(
    state: ProviderView,
    operation: RendezvousOperationKind,
    now: u64,
) -> ProviderView {
    let failures = failures_after(state.consecutive_failures);
    let paused = failures >= RENDEZVOUS_CIRCUIT_FAILURES;
    let retry_at = if paused {
        later(now, RENDEZVOUS_CIRCUIT_OPEN_SECS as int)
    } else {
        later(now, backoff(failures))
    };
    ProviderView {
        consecutive_failures: failures,
        circuit_open_until: if paused {
            retry_at
        } else {
            state.circuit_open_until
        },
        next_register_at: if operation == RendezvousOperationKind::Register {
            retry_at
        } else {
            state.next_register_at
        },
        next_lookup_at: if operation == RendezvousOperationKind::Lookup {
            retry_at
        } else {
            state.next_lookup_at
        },
        ..state
    }
}

/// Note a failed operation.
pub fn note_rendezvous_failure(
    state: &mut ProviderState,
    operation: RendezvousOperationKind,
    now: u64,
)
    ensures
        final(state)@ == failure_noted(old(state)@, operation, now),
        final(state).routes@ == old(state).routes@,
{
    if state.consecutive_failures < 255 {
        state.consecutive_failures = state.consecutive_failures + 1;
    }
    let failures: u8 = state.consecutive_failures;
    let retry_at: u64 = if failures >= RENDEZVOUS_CIRCUIT_FAILURES {
        state.circuit_open_until = now.saturating_add(RENDEZVOUS_CIRCUIT_OPEN_SECS);
        state.circuit_open_until
    } else {
        let mut delay: u64 = RENDEZVOUS_BACKOFF_MIN_SECS;
        let mut step: u8 = 1;
        while step < failures
            invariant
                1 <= step,
                step <= failures || failures == 0,
                failures < RENDEZVOUS_CIRCUIT_FAILURES,
                delay == backoff(step),
                delay <= RENDEZVOUS_BACKOFF_MAX_SECS,
            decreases failures - step,
        {
            step = step + 1;
            delay = if 2 * delay > RENDEZVOUS_BACKOFF_MAX_SECS {
                RENDEZVOUS_BACKOFF_MAX_SECS
            } else {
                2 * delay
            };
        }
        now.saturating_add(delay)
    };
    match operation {
        RendezvousOperationKind::Register => {
            state.next_register_at = retry_at;
        },
        RendezvousOperationKind::Lookup => {
            state.next_lookup_at = retry_at;
        },
    }
}

/// A failing provider is asked ever less often: the wait never shrinks from one failure in
/// a row to the next, and stays within its bounds.
pub proof fn law_backoff_grows(failures: u8)
    requires
        failures < u8::MAX,
    ensures
        RENDEZVOUS_BACKOFF_MIN_SECS <= backoff(failures) <= backoff((failures + 1) as u8)
            <= RENDEZVOUS_BACKOFF_MAX_SECS,
    decreases failures,
{
    if failures > 0 {
        law_backoff_grows((failures - 1) as u8);
    }
    assert(((failures + 1) as u8 - 1) as u8 == failures);
}

/// After a failure nothing else is tried at once: the operation that failed waits, and
/// repeated failures pause both operations.
pub proof fn law_failures_pause(state: ProviderView, operation: RendezvousOperationKind, now: u64)
    requires
        now < u64::MAX,
    ensures
        ({
            let after = failure_noted(state, operation, now);
            &&& operation == RendezvousOperationKind::Register ==> after.next_register_at > now
            &&& operation == RendezvousOperationKind::Lookup ==> after.next_lookup_at > now
            &&& state.consecutive_failures + 1 >= RENDEZVOUS_CIRCUIT_FAILURES
                ==> after.circuit_open_until > now
            &&& after.routes == state.routes
        }),
{
    let failures = failures_after(state.consecutive_failures);
    assert(failures >= 1);
    law_backoff_grows((failures - 1) as u8);
    assert(((failures - 1) as u8 + 1) as u8 == failures);
}

// ---- Registering ----

/// Registering is due: there is something to publish or withdraw, its time has come, and the
/// provider is not paused.
pub open spec fn register_due(state: ProviderView, now: u64) -> bool {
    &&& state.publish_enabled || state.withdrawal_pending
    &&& state.next_register_at <= now
    &&& state.circuit_open_until <= now
}

/// The generation of the next publication.
pub open spec fn next_generation(published: u64, configured: u64) -> int {
    let step = published + 1;
    let least = if configured > 1 {
        configured as int
    } else {
        1
    };
    if step > least {
        step
    } else {
        least
    }
}

/// A registration that is about to be made.
#[derive(Clone, Copy, Debug, PartialEq, Eq)]
pub struct Registration {
    /// Nothing is published any more.
    pub withdrawal: bool,
    /// Its generation, used for nothing else.
    pub generation: u64,
}

/// The registration that is begun with a provider, where one is due.
pub open spec fn registration_begun(
    state: ProviderView,
    configured: u64,
    now: u64,
) -> std::result::Result<Option<Registration>, NodeError> {
    if !register_due(state, now) {
        Ok(None)
    } else if state.publish_generation == u64::MAX {
        Err(NodeError::RendezvousUnavailable)
    } else {
        Ok(
            Some(
                Registration {
                    withdrawal: !state.publish_enabled,
                    generation: next_generation(state.publish_generation, configured) as u64,
                },
            ),
        )
    }
}

/// Begin a registration, where one is due. The generation is used up at once: an attempt
/// that is interrupted skips it.
pub fn begin_registration(state: &mut ProviderState, configured: u64, now: u64) -> (res: Result<
    Option<Registration>,
>)
    ensures
        res == registration_begun(old(state)@, configured, now),
        final(state)@ == match res {
            Ok(Some(registration)) => ProviderView {
                publish_generation: registration.generation,
                ..old(state)@
            },
            _ => old(state)@,
        },
        final(state).provider == old(state).provider,
{
    if state.next_register_at > now || state.circuit_open_until > now || (!state.publish_enabled
        && !state.withdrawal_pending) {
        return Ok(None);
    }
    let withdrawal = !state.publish_enabled && state.withdrawal_pending;
    if state.publish_generation == u64::MAX {
        return Err(NodeError::RendezvousUnavailable);
    }
    let step: u64 = state.publish_generation + 1;
    let least: u64 = if configured > 1 { configured } else { 1 };
    let generation: u64 = if step > least { step } else { least };
    state.publish_generation = generation;
    Ok(Some(Registration { withdrawal, generation }))
}

/// A generation is published at most once: every registration takes a larger one than all
/// before.
pub proof fn law_generations_are_not_reused(state: ProviderView, configured: u64)
    ensures
        next_generation(state.publish_generation, configured) > state.publish_generation,
        next_generation(state.publish_generation, configured) >= configured,
{
}

/// The smallest of the given routes in ascending order, each once, as many as there may be.
pub open spec fn smallest_routes(
    told: Seq<Seq<u8>>,
    given: Seq<Seq<u8>>,
    most: usize,
) -> bool {
    &&& in_byte_order(told)
    &&& told.len() <= most
    &&& forall|x: Seq<u8>| #[trigger] told.contains(x) ==> given.contains(x)
    &&& forall|x: Seq<u8>| #[trigger]
        given.contains(x) && !told.contains(x) ==> told.len() == most && comes_after(told, x)
}

/// The route comes after all others.
pub open spec fn comes_after(routes: Seq<Seq<u8>>, x: Seq<u8>) -> bool {
    forall|k: int| 0 <= k < routes.len() ==> bytes_before(#[trigger] routes[k], x)
}

/// The record that a registration leaves for an epoch. A withdrawal leaves one without routes.
pub fn registration_record(
    registration: Registration,
    own_routes: &Vec<Vec<u8>>,
    epoch: u64,
    most: usize,
    ttl: u64,
    now: u64,
) -> (res: RouteRecord)
    ensures
        res.epoch == epoch,
        res.generation == registration.generation,
        res.issued_at == now,
        res.expires_at == later(now, ttl as int),
        if registration.withdrawal {
            res.routes@.len() == 0
        } else {
            smallest_routes(routes_of(res.routes@), routes_of(own_routes@), most)
        },
{
    let expires_at: u64 = now.saturating_add(ttl);
    let mut routes: Vec<Vec<u8>> = Vec::new();
    if !registration.withdrawal {
        let all = canonical_routes(own_routes);
        let ghost given = routes_of(own_routes@);
        let ghost sorted = routes_of(all@);
        let mut i: usize = 0;
        while i < all.len() && i < most
            invariant
                i <= all@.len(),
                i <= most,
                sorted == routes_of(all@),
                routes@.len() == i,
                routes_of(routes@) == sorted.take(i as int),
            decreases all@.len() - i,
        {
            let ghost prior = routes@;
            routes.push(copy_bytes(&all[i]));
            proof {
                assert(sorted[i as int] == all@[i as int]@);
                assert(sorted.take(i + 1) =~= sorted.take(i as int).push(sorted[i as int]));
                assert(routes_of(routes@) =~= routes_of(prior).push(sorted[i as int]));
            }
            i = i + 1;
        }
        proof {
            let told = routes_of(routes@);
            assert forall|x: Seq<u8>| #[trigger] told.contains(x) implies given.contains(x) by {
                let k = choose|k: int| 0 <= k < told.len() && told[k] == x;
                assert(sorted[k] == x);
                assert(sorted.to_set().contains(x));
                assert(given.to_set().contains(x));
            }
            assert forall|x: Seq<u8>| #[trigger]
                given.contains(x) && !told.contains(x) implies told.len() == most && comes_after(
                told,
                x,
            ) by {
                assert(given.to_set().contains(x));
                assert(sorted.to_set().contains(x));
                let k = choose|k: int| 0 <= k < sorted.len() && sorted[k] == x;
                if k < i {
                    assert(told[k] == x);
                }
                assert forall|m: int| 0 <= m < told.len() implies bytes_before(
                    #[trigger] told[m],
                    x,
                ) by {
                    assert(told[m] == sorted[m]);
                    assert(bytes_before(sorted[m], sorted[k]));
                }
            }
            assert forall|a: int, b: int| 0 <= a < b < told.len() implies bytes_before(
                #[trigger] told[a],
                #[trigger] told[b],
            ) by {
                assert(told[a] == sorted[a] && told[b] == sorted[b]);
            }
        }
    }
    RouteRecord { epoch, generation: registration.generation, issued_at: now, expires_at, routes }
}

/// What to do next in a registration.
#[derive(Clone, Copy, Debug, PartialEq, Eq, Structural)]
pub enum RegistrationStep {
    /// Register for an epoch.
    Register {
        /// The epoch.
        epoch: u64,
    },
    /// Look up the own record of an epoch, which has to be there.
    Confirm {
        /// The epoch.
        epoch: u64,
    },
    /// Done.
    Finished {
        /// The registration can be relied on.
        confirmed: bool,
    },
}

/// A registration under way: the current epoch, the next one, and then a look at what was
/// left there.
#[derive(Clone, Copy, Debug, PartialEq, Eq)]
pub struct RegistrationRun {
    /// The current epoch.
    pub epoch: u64,
    /// Steps that succeeded.
    pub done: u8,
    /// A step failed.
    pub failed: bool,
}

/// The step of a registration, while operations and time are left.
pub open spec fn registration_step(run: RegistrationRun) -> RegistrationStep {
    if run.failed {
        RegistrationStep::Finished { confirmed: false }
    } else if run.done == 0 {
        RegistrationStep::Register { epoch: run.epoch }
    } else if run.done == 1 {
        RegistrationStep::Register { epoch: later(run.epoch, 1) }
    } else if run.done == 2 {
        RegistrationStep::Confirm { epoch: run.epoch }
    } else {
        RegistrationStep::Finished { confirmed: true }
    }
}

impl RegistrationRun {
    /// A registration that has not begun.
    pub fn new(epoch: u64) -> (run: RegistrationRun)
        ensures
            run == (RegistrationRun { epoch, done: 0, failed: false }),
    {
        RegistrationRun { epoch, done: 0, failed: false }
    }

    /// The next step. It takes one of the operations that are left; without any, or when it
    /// is late, the registration fails.
    pub fn next_step(&mut self, operations_left: &mut usize, late: bool) -> (res: RegistrationStep)
        ensures
            ({
                let step = registration_step(*old(self));
                if step is Finished {
                    &&& res == step
                    &&& *final(self) == *old(self)
                    &&& *final(operations_left) == *old(operations_left)
                } else if *old(operations_left) == 0 || late {
                    &&& res == (RegistrationStep::Finished { confirmed: false })
                    &&& *final(self) == (RegistrationRun { failed: true, ..*old(self) })
                    &&& *final(operations_left) == *old(operations_left)
                } else {
                    &&& res == step
                    &&& *final(self) == *old(self)
                    &&& *final(operations_left) == *old(operations_left) - 1
                }
            }),
    {
        if self.failed {
            return RegistrationStep::Finished { confirmed: false };
        }
        if self.done >= 3 {
            return RegistrationStep::Finished { confirmed: true };
        }
        if *operations_left == 0 || late {
            self.failed = true;
            return RegistrationStep::Finished { confirmed: false };
        }
        *operations_left = *operations_left - 1;
        if self.done == 0 {
            RegistrationStep::Register { epoch: self.epoch }
        } else if self.done == 1 {
            RegistrationStep::Register { epoch: self.epoch.saturating_add(1) }
        } else {
            RegistrationStep::Confirm { epoch: self.epoch }
        }
    }

    /// What came of the step: for a confirmation, whether exactly the own record was found.
    pub fn record(&mut self, succeeded: bool)
        ensures
            *final(self) == if succeeded && old(self).done < 3 {
                RegistrationRun { done: (old(self).done + 1) as u8, ..*old(self) }
            } else if succeeded {
                *old(self)
            } else {
                RegistrationRun { failed: true, ..*old(self) }
            },
    {
        if !succeeded {
            self.failed = true;
        } else if self.done < 3 {
            self.done = self.done + 1;
        }
    }
}

/// Only a registration whose own record was found again counts: that the provider
/// acknowledged it is not enough.
pub proof fn law_registration_needs_confirmation(run: RegistrationRun)
    requires
        registration_step(run) == (RegistrationStep::Finished { confirmed: true }),
    ensures
        !run.failed,
        run.done >= 3,
{
}

/// A provider after a registration.
pub open spec fn registration_concluded(
    state: ProviderView,
    confirmed: bool,
    draw: u64,
    now: u64,
) -> ProviderView {
    if confirmed {
        ProviderView {
            registration_confirmed_at: now,
            consecutive_failures: 0,
            circuit_open_until: 0,
            withdrawal_pending: false,
            next_register_at: if state.publish_enabled {
                later(later(now, RENDEZVOUS_REGISTER_REFRESH_SECS as int), jitter_of(draw))
            } else {
                0
            },
            ..state
        }
    } else {
        failure_noted(state, RendezvousOperationKind::Register, now)
    }
}

/// Note what came of a registration.
pub fn conclude_registration(state: &mut ProviderState, confirmed: bool, draw: u64, now: u64)
    ensures
        final(state)@ == registration_concluded(old(state)@, confirmed, draw, now),
{
    if confirmed {
        state.registration_confirmed_at = now;
        state.consecutive_failures = 0;
        state.circuit_open_until = 0;
        state.withdrawal_pending = false;
        state.next_register_at = if state.publish_enabled {
            now.saturating_add(RENDEZVOUS_REGISTER_REFRESH_SECS).saturating_add(
                rendezvous_jitter(draw),
            )
        } else {
            0
        };
    } else {
        note_rendezvous_failure(state, RendezvousOperationKind::Register, now);
    }
}

// ---- Looking up ----

/// Looking up is due: the peer publishes there, its time has come or someone asked, and the
/// provider is not paused.
pub open spec fn lookup_due(state: ProviderView, force: bool, now: u64) -> bool {
    &&& state.lookup_enabled
    &&& force || state.next_lookup_at <= now
    &&& state.circuit_open_until <= now
}

/// Whether looking up is due.
pub fn is_lookup_due(state: &ProviderState, force: bool, now: u64) -> (res: bool)
    ensures
        res == lookup_due(state@, force, now),
{
    state.lookup_enabled && (force || state.next_lookup_at <= now) && state.circuit_open_until
        <= now
}

/// What to do next in a lookup.
#[derive(Clone, Copy, Debug, PartialEq, Eq, Structural)]
pub enum LookupStep {
    /// Look up the record of an epoch.
    LookUp {
        /// The epoch.
        epoch: u64,
    },
    /// Nothing is asked for this epoch: its keys cannot be derived.
    Skip,
    /// Done.
    Finished,
}

/// A lookup under way: the epoch before, the current one, the one after.
#[derive(Clone, Copy, Debug, PartialEq, Eq)]
pub struct LookupRun {
    epoch: u64,
    passed: u8,
}

/// Where a lookup stands.
pub struct LookupView {
    /// The current epoch.
    pub epoch: int,
    /// Epochs that are done with.
    pub passed: int,
}

impl View for LookupRun {
    type V = LookupView;

    closed spec fn view(&self) -> LookupView {
        LookupView { epoch: self.epoch as int, passed: self.passed as int }
    }
}

/// The epoch that a lookup has come to.
pub open spec fn lookup_epoch(run: LookupView) -> Option<u64> {
    if run.passed == 0 {
        Some((run.epoch - 1) as u64)
    } else if run.passed == 1 {
        Some(run.epoch as u64)
    } else if run.passed == 2 {
        Some((run.epoch + 1) as u64)
    } else {
        None
    }
}

/// The next step of a lookup, the lookup after it, and the operations then left. Without
/// operations, or when it is late, it ends before the epoch; each epoch that is looked up
/// takes one.
pub open spec fn lookup_step(run: LookupView, keys: bool, operations: nat, late: bool) -> (
    LookupStep,
    LookupView,
    nat,
) {
    match lookup_epoch(run) {
        None => (LookupStep::Finished, run, operations),
        Some(epoch) => {
            let next = LookupView { passed: run.passed + 1, ..run };
            if operations == 0 || late {
                (LookupStep::Finished, LookupView { passed: 3, ..run }, operations)
            } else if !keys {
                (LookupStep::Skip, next, operations)
            } else {
                (LookupStep::LookUp { epoch }, next, (operations - 1) as nat)
            }
        },
    }
}

impl LookupRun {
    /// There is an epoch before and one after.
    pub closed spec fn wf(&self) -> bool {
        0 < self.epoch < u64::MAX
    }

    /// A lookup that has not begun. At either end of time there is none.
    pub fn new(epoch: u64) -> (res: Option<LookupRun>)
        ensures
            match res {
                Some(run) => 0 < epoch < u64::MAX && run.wf() && run@ == (LookupView {
                    epoch: epoch as int,
                    passed: 0,
                }),
                None => epoch == 0 || epoch == u64::MAX,
            },
    {
        if epoch == 0 || epoch == u64::MAX {
            None
        } else {
            Some(LookupRun { epoch, passed: 0 })
        }
    }

    /// The epoch that the lookup has come to.
    pub fn next_epoch(&self) -> (res: Option<u64>)
        requires
            self.wf(),
        ensures
            res == lookup_epoch(self@),
    {
        if self.passed == 0 {
            Some(self.epoch - 1)
        } else if self.passed == 1 {
            Some(self.epoch)
        } else if self.passed == 2 {
            Some(self.epoch + 1)
        } else {
            None
        }
    }

    /// The next step. `keys` says whether the keys of the epoch that the lookup has come to can
    /// be derived.
    pub fn next_step(&mut self, keys: bool, operations_left: &mut usize, late: bool) -> (res:
        LookupStep)
        requires
            old(self).wf(),
        ensures
            final(self).wf(),
            (res, final(self)@, *final(operations_left) as nat) == lookup_step(
                old(self)@,
                keys,
                *old(operations_left) as nat,
                late,
            ),
    {
        let epoch: u64 = match self.next_epoch() {
            Some(epoch) => epoch,
            None => {
                return LookupStep::Finished;
            },
        };
        if *operations_left == 0 || late {
            self.passed = 3;
            return LookupStep::Finished;
        }
        self.passed = self.passed + 1;
        if !keys {
            return LookupStep::Skip;
        }
        *operations_left = *operations_left - 1;
        LookupStep::LookUp { epoch }
    }
}

/// With time and operations enough, a lookup asks for three epochs in a row, one operation
/// each, and then ends.
pub proof fn law_lookups_cover_three_epochs(run: LookupView, operations: nat)
    requires
        0 < run.epoch < u64::MAX,
        run.passed == 0,
        operations >= 3,
    ensures
        ({
            let (first, after_first, left_first) = lookup_step(run, true, operations, false);
            let (second, after_second, left_second) = lookup_step(
                after_first,
                true,
                left_first,
                false,
            );
            let (third, after_third, left_third) = lookup_step(
                after_second,
                true,
                left_second,
                false,
            );
            &&& first == (LookupStep::LookUp { epoch: (run.epoch - 1) as u64 })
            &&& second == (LookupStep::LookUp { epoch: run.epoch as u64 })
            &&& third == (LookupStep::LookUp { epoch: (run.epoch + 1) as u64 })
            &&& left_third == operations - 3
            &&& lookup_step(after_third, true, left_third, false).0 == LookupStep::Finished
        }),
{
}

/// A lookup that ended stays ended.
pub proof fn law_lookups_stay_ended(
    run: LookupView,
    keys: bool,
    operations: nat,
    late: bool,
    keys_again: bool,
    operations_again: nat,
    late_again: bool,
)
    requires
        lookup_step(run, keys, operations, late).0 == LookupStep::Finished,
    ensures
        lookup_step(
            lookup_step(run, keys, operations, late).1,
            keys_again,
            operations_again,
            late_again,
        ).0 == LookupStep::Finished,
{
}

/// Whether another exchange may be started with the operations and time that are left.
pub fn may_start(operations_left: usize, late: bool) -> (res: bool)
    ensures
        res == (operations_left >= OPERATIONS_PER_EXCHANGE && !late),
{
    operations_left >= OPERATIONS_PER_EXCHANGE && !late
}

/// The record is newer than everything that was ever in conflict.
pub open spec fn eligible(record: RecordView, state: ProviderView) -> bool {
    state.conflict_generation matches Some(floor) ==> record.generation > floor
}

/// The record has the generation of what was accepted before, but says something else.
pub open spec fn contradicts_accepted(record: RecordView, state: ProviderView) -> bool {
    &&& record.generation == state.accepted_generation
    &&& state.accepted_generation != 0
    &&& if state.routes.len() == 0 {
        record.routes.len() > 0
    } else {
        record.routes != state.routes || record.expires_at != state.routes_expires_at
    }
}

/// Two records have one generation, but say different things.
pub open spec fn contradict(a: RecordView, b: RecordView) -> bool {
    a.generation == b.generation && (a.expires_at != b.expires_at || a.routes != b.routes)
}

/// One of the first `n` eligible records, of generation `generation`, contradicts what was
/// accepted before.
pub open spec fn stale_conflict(
    records: Seq<RecordView>,
    state: ProviderView,
    n: int,
    generation: u64,
) -> bool {
    exists|i: int|
        0 <= i < n && eligible(#[trigger] records[i], state) && contradicts_accepted(
            records[i],
            state,
        ) && records[i].generation == generation
}

/// Two eligible records of generation `generation` contradict each other.
pub open spec fn mutual_conflict(
    records: Seq<RecordView>,
    state: ProviderView,
    generation: u64,
) -> bool {
    exists|i: int, j: int|
        0 <= i < j < records.len() && eligible(#[trigger] records[i], state) && eligible(
            #[trigger] records[j],
            state,
        ) && contradict(records[i], records[j]) && records[i].generation == generation
}

/// There is a contradiction in generation `generation`.
pub open spec fn conflict_in(
    records: Seq<RecordView>,
    state: ProviderView,
    generation: u64,
) -> bool {
    stale_conflict(records, state, records.len() as int, generation) || mutual_conflict(
        records,
        state,
        generation,
    )
}

/// `b` is at least as new as `a`: by generation, then time of issue, then epoch.
pub open spec fn not_older(a: RecordView, b: RecordView) -> bool {
    ||| a.generation < b.generation
    ||| a.generation == b.generation && a.issued_at < b.issued_at
    ||| a.generation == b.generation && a.issued_at == b.issued_at && a.epoch <= b.epoch
}

/// What to make of the records that a provider handed out.
#[derive(Clone, Copy, Debug, PartialEq, Eq, Structural)]
pub enum LookupVerdict {
    /// They contradict each other or what was accepted, up to a generation.
    Conflict {
        /// The largest generation in conflict.
        generation: u64,
    },
    /// A record is accepted.
    Accept {
        /// Its position.
        at: usize,
    },
    /// There is nothing to accept.
    Nothing,
}

/// What is right to make of the records: a contradiction is reported with its largest
/// generation; else the newest eligible record is accepted, the last one of equals.
pub open spec fn verdict_right(
    verdict: LookupVerdict,
    records: Seq<RecordView>,
    state: ProviderView,
) -> bool {
    match verdict {
        LookupVerdict::Conflict { generation } => conflict_in(records, state, generation) && (
        forall|g: u64| #[trigger] conflict_in(records, state, g) ==> g <= generation),
        LookupVerdict::Accept { at } => {
            &&& forall|g: u64| !#[trigger] conflict_in(records, state, g)
            &&& at < records.len()
            &&& eligible(records[at as int], state)
            &&& forall|i: int|
                0 <= i < records.len() && eligible(#[trigger] records[i], state) ==> not_older(
                    records[i],
                    records[at as int],
                )
            &&& forall|i: int|
                at < i < records.len() && eligible(#[trigger] records[i], state) ==> !not_older(
                    records[at as int],
                    records[i],
                )
        },
        LookupVerdict::Nothing => {
            &&& forall|g: u64| !#[trigger] conflict_in(records, state, g)
            &&& forall|i: int| 0 <= i < records.len() ==> !eligible(#[trigger] records[i], state)
        },
    }
}

fn is_eligible(record: &RouteRecord, state: &ProviderState) -> (res: bool)
    ensures
        res == eligible(record@, state@),
{
    match state.conflict_generation {
        Some(floor) => record.generation > floor,
        None => true,
    }
}

fn is_contradicting(record: &RouteRecord, state: &ProviderState) -> (res: bool)
    ensures
        res == contradicts_accepted(record@, state@),
{
    record.generation == state.accepted_generation && state.accepted_generation != 0 && (
    if state.routes.len() == 0 {
        record.routes.len() > 0
    } else {
        !same_routes(&record.routes, &state.routes) || record.expires_at
            != state.routes_expires_at
    })
}

fn larger(conflict: Option<u64>, generation: u64) -> (res: Option<u64>)
    ensures
        res == Some(
            match conflict {
                Some(g) => if g > generation {
                    g
                } else {
                    generation
                },
                None => generation,
            },
        ),
{
    match conflict {
        Some(g) => if g > generation { Some(g) } else { Some(generation) },
        None => Some(generation),
    }
}

/// Some pair of eligible records with its first below `n`, or its first at `n` and its
/// second below `m`, contradicts.
spec fn pair_conflict(
    records: Seq<RecordView>,
    state: ProviderView,
    n: int,
    m: int,
    generation: u64,
) -> bool {
    exists|i: int, j: int|
        0 <= i < j < records.len() && (i < n || (i == n && j < m)) && eligible(
            #[trigger] records[i],
            state,
        ) && eligible(#[trigger] records[j], state) && contradict(records[i], records[j])
            && records[i].generation == generation
}

spec fn seen_conflict(
    records: Seq<RecordView>,
    state: ProviderView,
    n: int,
    m: int,
    generation: u64,
) -> bool {
    stale_conflict(records, state, records.len() as int, generation) || pair_conflict(
        records,
        state,
        n,
        m,
        generation,
    )
}

spec fn tracks(conflict: Option<u64>, seen: spec_fn(u64) -> bool) -> bool {
    match conflict {
        Some(g) => seen(g) && (forall|h: u64| #[trigger] seen(h) ==> h <= g),
        None => forall|h: u64| !#[trigger] seen(h),
    }
}

/// Work out what to make of the records that a provider handed out.
#[verifier::spinoff_prover]
pub fn judge_lookup(records: &Vec<RouteRecord>, state: &ProviderState) -> (res: LookupVerdict)
    ensures
        verdict_right(res, records_of(records@), state@),
{
    let ghost views = records_of(records@);
    let ghost s = state@;
    let mut conflict: Option<u64> = None;
    let mut i: usize = 0;
    while i < records.len()
        invariant
            i <= records@.len(),
            views == records_of(records@),
            s == state@,
            tracks(conflict, |g: u64| stale_conflict(views, s, i as int, g)),
        decreases records@.len() - i,
    {
        let ghost before = |g: u64| stale_conflict(views, s, i as int, g);
        let ghost after = |g: u64| stale_conflict(views, s, i + 1, g);
        let ghost prior = conflict;
        let hit = is_eligible(&records[i], state) && is_contradicting(&records[i], state);
        if hit {
            conflict = larger(conflict, records[i].generation);
        }
        proof {
            let own = views[i as int];
            assert forall|g: u64| #[trigger] after(g) == (before(g) || (hit && g
                == own.generation)) by {
                if hit && g == own.generation {
                    assert(stale_conflict(views, s, i + 1, g)) by {
                        assert(eligible(views[i as int], s));
                    }
                }
                if before(g) {
                    let k = choose|k: int|
                        0 <= k < i && eligible(#[trigger] views[k], s) && contradicts_accepted(
                            views[k],
                            s,
                        ) && views[k].generation == g;
                    assert(eligible(views[k], s));
                }
            }
            if hit {
                assert(after(own.generation));
                if let Some(g) = prior {
                    assert(before(g));
                    assert(after(g));
                }
            } else if let Some(g) = prior {
                assert(before(g));
                assert(after(g));
            }
            assert forall|h: u64| #[trigger] after(h) implies (conflict matches Some(g) && h
                <= g) by {
                if before(h) {
                }
            }
            assert(tracks(conflict, after));
        }
        i = i + 1;
    }
    assert(tracks(conflict, |g: u64| seen_conflict(views, s, 0, 0, g))) by {
        let stale = |g: u64| stale_conflict(views, s, i as int, g);
        let all = |g: u64| seen_conflict(views, s, 0, 0, g);
        assert forall|g: u64| #[trigger] all(g) == stale(g) by {
            assert(!pair_conflict(views, s, 0, 0, g));
        }
        if let Some(g) = conflict {
            assert(stale(g));
            assert(all(g));
        }
    }
    let mut left: usize = 0;
    while left < records.len()
        invariant
            left <= records@.len(),
            views == records_of(records@),
            s == state@,
            tracks(conflict, |g: u64| seen_conflict(views, s, left as int, 0, g)),
        decreases records@.len() - left,
    {
        let mut right: usize = left + 1;
        assert(tracks(conflict, |g: u64| seen_conflict(views, s, left as int, right as int, g)))
            by {
            let a = |g: u64| seen_conflict(views, s, left as int, 0, g);
            let b = |g: u64| seen_conflict(views, s, left as int, left + 1, g);
            assert forall|g: u64| #[trigger] b(g) == a(g) by {
                assert(pair_conflict(views, s, left as int, left + 1, g) == pair_conflict(
                    views,
                    s,
                    left as int,
                    0,
                    g,
                ));
            }
            if let Some(g) = conflict {
                assert(a(g));
                assert(b(g));
            }
        }
        while right < records.len()
            invariant
                left < right <= records@.len(),
                views == records_of(records@),
                s == state@,
                tracks(conflict, |g: u64| seen_conflict(views, s, left as int, right as int, g)),
            decreases records@.len() - right,
        {
            let ghost before = |g: u64| seen_conflict(views, s, left as int, right as int, g);
            let ghost after = |g: u64| seen_conflict(views, s, left as int, right + 1, g);
            let ghost prior = conflict;
            let a = &records[left];
            let b = &records[right];
            let hit = is_eligible(a, state) && is_eligible(b, state) && a.generation
                == b.generation && (a.expires_at != b.expires_at || !same_routes(
                &a.routes,
                &b.routes,
            ));
            if hit {
                conflict = larger(conflict, a.generation);
            }
            proof {
                let own = views[left as int];
                assert(hit == (eligible(views[left as int], s) && eligible(views[right as int], s)
                    && contradict(views[left as int], views[right as int])));
                assert forall|g: u64| #[trigger] after(g) == (before(g) || (hit && g
                    == own.generation)) by {
                    if hit && g == own.generation {
                        assert(eligible(views[left as int], s) && eligible(
                            views[right as int],
                            s,
                        ));
                        assert(pair_conflict(views, s, left as int, right + 1, g));
                    }
                    if pair_conflict(views, s, left as int, right as int, g) {
                        let (x, y) = choose|x: int, y: int|
                            0 <= x < y < views.len() && (x < left || (x == left && y < right))
                                && eligible(#[trigger] views[x], s) && eligible(
                                #[trigger] views[y],
                                s,
                            ) && contradict(views[x], views[y]) && views[x].generation == g;
                        assert(eligible(views[x], s) && eligible(views[y], s));
                        assert(pair_conflict(views, s, left as int, right + 1, g));
                    }
                }
                if hit {
                    assert(after(own.generation));
                }
                if let Some(g) = prior {
                    assert(before(g));
                    assert(after(g));
                }
                assert forall|h: u64| #[trigger] after(h) implies (conflict matches Some(g) && h
                    <= g) by {
                    if before(h) {
                    }
                }
                assert(tracks(conflict, after));
            }
            right = right + 1;
        }
        assert(tracks(conflict, |g: u64| seen_conflict(views, s, left + 1, 0, g))) by {
            let a = |g: u64| seen_conflict(views, s, left as int, right as int, g);
            let b = |g: u64| seen_conflict(views, s, left + 1, 0, g);
            assert forall|g: u64| #[trigger] b(g) == a(g) by {
                assert(pair_conflict(views, s, left as int, right as int, g) == pair_conflict(
                    views,
                    s,
                    left + 1,
                    0,
                    g,
                ));
            }
            if let Some(g) = conflict {
                assert(a(g));
                assert(b(g));
            }
        }
        left = left + 1;
    }
    proof {
        let seen = |g: u64| seen_conflict(views, s, left as int, 0, g);
        assert forall|g: u64| #[trigger] conflict_in(views, s, g) == seen(g) by {
            assert(pair_conflict(views, s, left as int, 0, g) == mutual_conflict(views, s, g));
        }
        if let Some(g) = conflict {
            assert(seen(g));
            assert(conflict_in(views, s, g));
        }
        assert forall|h: u64| #[trigger] conflict_in(views, s, h) implies (conflict matches Some(g)
            && h <= g) by {
            assert(seen(h));
        }
    }
    if let Some(generation) = conflict {
        return LookupVerdict::Conflict { generation };
    }
    let mut best: Option<usize> = None;
    let mut at: usize = 0;
    while at < records.len()
        invariant
            at <= records@.len(),
            views == records_of(records@),
            s == state@,
            match best {
                Some(b) => {
                    &&& b < at
                    &&& eligible(views[b as int], s)
                    &&& forall|k: int|
                        0 <= k < at && eligible(#[trigger] views[k], s) ==> not_older(
                            views[k],
                            views[b as int],
                        )
                    &&& forall|k: int|
                        b < k < at && eligible(#[trigger] views[k], s) ==> !not_older(
                            views[b as int],
                            views[k],
                        )
                },
                None => forall|k: int| 0 <= k < at ==> !eligible(#[trigger] views[k], s),
            },
        decreases records@.len() - at,
    {
        assert(views[at as int] == records@[at as int]@);
        if is_eligible(&records[at], state) {
            let newer = match best {
                Some(b) => {
                    let old = &records[b];
                    let new = &records[at];
                    assert(views[b as int] == old@);
                    old.generation < new.generation || (old.generation == new.generation && (
                    old.issued_at < new.issued_at || (old.issued_at == new.issued_at && old.epoch
                        <= new.epoch)))
                },
                None => true,
            };
            if newer {
                best = Some(at);
            }
        }
        at = at + 1;
    }
    match best {
        Some(b) => LookupVerdict::Accept { at: b },
        None => LookupVerdict::Nothing,
    }
}

/// When to look up again after a record was accepted: shortly before its routes expire, but
/// not at once; without routes, after the usual while.
pub open spec fn next_lookup(expires_at: u64, draw: u64, now: u64) -> u64 {
    if expires_at == 0 {
        later(later(now, RENDEZVOUS_REGISTER_REFRESH_SECS as int), jitter_of(draw))
    } else {
        let early = if expires_at > RENDEZVOUS_NEAR_EXPIRY_SECS {
            (expires_at - RENDEZVOUS_NEAR_EXPIRY_SECS) as u64
        } else {
            0
        };
        let soon = later(now, RENDEZVOUS_BACKOFF_MIN_SECS as int);
        if early > soon {
            early
        } else {
            soon
        }
    }
}

/// A provider after a lookup. A contradiction withdraws the routes; without anything to
/// accept, only expired routes go.
pub open spec fn lookup_concluded(
    state: ProviderView,
    verdict: LookupVerdict,
    records: Seq<RecordView>,
    draw: u64,
    now: u64,
) -> ProviderView {
    match verdict {
        LookupVerdict::Conflict { generation } => {
            let floor = match state.conflict_generation {
                Some(g) => if g > generation {
                    g
                } else {
                    generation
                },
                None => generation,
            };
            failure_noted(
                ProviderView {
                    conflict_generation: Some(floor),
                    routes: Seq::empty(),
                    routes_expires_at: 0,
                    ..state
                },
                RendezvousOperationKind::Lookup,
                now,
            )
        },
        LookupVerdict::Accept { at } => {
            let record = records[at as int];
            let expires_at = if record.routes.len() == 0 {
                0
            } else {
                record.expires_at
            };
            ProviderView {
                accepted_generation: record.generation,
                conflict_generation: None,
                clock_floor: if state.clock_floor > now {
                    state.clock_floor
                } else {
                    now
                },
                routes_expires_at: expires_at,
                routes: record.routes,
                consecutive_failures: 0,
                circuit_open_until: 0,
                next_lookup_at: next_lookup(expires_at, draw, now),
                ..state
            }
        },
        LookupVerdict::Nothing => {
            let expired = state.routes_expires_at <= now;
            failure_noted(
                ProviderView {
                    routes: if expired {
                        Seq::empty()
                    } else {
                        state.routes
                    },
                    routes_expires_at: if expired {
                        0
                    } else {
                        state.routes_expires_at
                    },
                    ..state
                },
                RendezvousOperationKind::Lookup,
                now,
            )
        },
    }
}

/// Note what came of a lookup.
pub fn conclude_lookup(
    state: &mut ProviderState,
    verdict: LookupVerdict,
    records: &Vec<RouteRecord>,
    draw: u64,
    now: u64,
)
    requires
        verdict matches LookupVerdict::Accept { at } ==> at < records@.len(),
    ensures
        final(state)@ == lookup_concluded(
            old(state)@,
            verdict,
            records_of(records@),
            draw,
            now,
        ),
{
    match verdict {
        LookupVerdict::Conflict { generation } => {
            state.conflict_generation = larger(state.conflict_generation, generation);
            state.routes = Vec::new();
            state.routes_expires_at = 0;
            assert(routes_of(state.routes@) =~= Seq::<Seq<u8>>::empty());
            note_rendezvous_failure(state, RendezvousOperationKind::Lookup, now);
        },
        LookupVerdict::Accept { at } => {
            let record = &records[at];
            state.accepted_generation = record.generation;
            state.conflict_generation = None;
            if state.clock_floor < now {
                state.clock_floor = now;
            }
            state.routes_expires_at = if record.routes.len() == 0 { 0 } else { record.expires_at };
            state.routes = copy_routes(&record.routes);
            state.consecutive_failures = 0;
            state.circuit_open_until = 0;
            state.next_lookup_at = if state.routes_expires_at == 0 {
                now.saturating_add(RENDEZVOUS_REGISTER_REFRESH_SECS).saturating_add(
                    rendezvous_jitter(draw),
                )
            } else {
                let early: u64 = if state.routes_expires_at > RENDEZVOUS_NEAR_EXPIRY_SECS {
                    state.routes_expires_at - RENDEZVOUS_NEAR_EXPIRY_SECS
                } else {
                    0
                };
                let soon: u64 = now.saturating_add(RENDEZVOUS_BACKOFF_MIN_SECS);
                if early > soon {
                    early
                } else {
                    soon
                }
            };
        },
        LookupVerdict::Nothing => {
            if state.routes_expires_at <= now {
                state.routes = Vec::new();
                state.routes_expires_at = 0;
                assert(routes_of(state.routes@) =~= Seq::<Seq<u8>>::empty());
            }
            note_rendezvous_failure(state, RendezvousOperationKind::Lookup, now);
        },
    }
}

/// Look at the records that a provider handed out and note what came of it. True says that
/// they contradicted each other or what was accepted before.
pub fn settle_lookup(
    state: &mut ProviderState,
    records: &Vec<RouteRecord>,
    draw: u64,
    now: u64,
) -> (res: bool)
    ensures
        res == exists|g: u64| #[trigger] conflict_in(records_of(records@), old(state)@, g),
        exists|verdict: LookupVerdict| #[trigger]
            verdict_right(verdict, records_of(records@), old(state)@) && final(state)@
                == lookup_concluded(old(state)@, verdict, records_of(records@), draw, now),
        final(state).provider == old(state).provider,
{
    let verdict = judge_lookup(records, state);
    conclude_lookup(state, verdict, records, draw, now);
    match verdict {
        LookupVerdict::Conflict { generation } => {
            assert(conflict_in(records_of(records@), old(state)@, generation));
            true
        },
        _ => false,
    }
}

/// Records admit only one right verdict.
pub proof fn law_verdict_is_unique(
    a: LookupVerdict,
    b: LookupVerdict,
    records: Seq<RecordView>,
    state: ProviderView,
)
    requires
        verdict_right(a, records, state),
        verdict_right(b, records, state),
    ensures
        a == b,
{
    match a {
        LookupVerdict::Conflict { generation } => {
            assert(conflict_in(records, state, generation));
            if let LookupVerdict::Conflict { generation: other } = b {
                assert(conflict_in(records, state, other));
            }
        },
        LookupVerdict::Accept { at } => {
            match b {
                LookupVerdict::Conflict { generation } => {
                    assert(conflict_in(records, state, generation));
                },
                LookupVerdict::Accept { at: other } => {
                    assert(not_older(records[at as int], records[other as int]));
                    assert(not_older(records[other as int], records[at as int]));
                },
                LookupVerdict::Nothing => {
                    assert(eligible(records[at as int], state));
                },
            }
        },
        LookupVerdict::Nothing => {
            match b {
                LookupVerdict::Conflict { generation } => {
                    assert(conflict_in(records, state, generation));
                },
                LookupVerdict::Accept { at: other } => {
                    assert(eligible(records[other as int], state));
                },
                LookupVerdict::Nothing => {},
            }
        },
    }
}

/// A generation in which a provider contradicted itself is never accepted again, whatever
/// the provider hands out afterwards.
pub proof fn law_conflicting_generations_stay_rejected(
    state: ProviderView,
    generation: u64,
    first: Seq<RecordView>,
    second: Seq<RecordView>,
    verdict: LookupVerdict,
    draw: u64,
    now: u64,
)
    requires
        verdict_right(LookupVerdict::Conflict { generation }, first, state),
        verdict_right(
            verdict,
            second,
            lookup_concluded(state, LookupVerdict::Conflict { generation }, first, draw, now),
        ),
    ensures
        verdict matches LookupVerdict::Accept { at } ==> second[at as int].generation > generation,
{
}

/// A contradiction leaves no route behind.
pub proof fn law_conflict_withdraws_routes(
    state: ProviderView,
    generation: u64,
    records: Seq<RecordView>,
    draw: u64,
    now: u64,
)
    ensures
        lookup_concluded(
            state,
            LookupVerdict::Conflict { generation },
            records,
            draw,
            now,
        ).routes.len() == 0,
{
}

// ---- Laws of timing ----

/// Times are added without running over the end.
pub proof fn law_later_times(now: u64, secs: u64)
    ensures
        now + secs <= u64::MAX ==> later(now, secs as int) == now + secs,
        now + secs > u64::MAX ==> later(now, secs as int) == u64::MAX,
{
}

/// The spread is at most five minutes, and every value up to it is drawn.
pub proof fn law_spread(draw: u64)
    ensures
        0 <= jitter_of(draw) <= 300,
        draw <= 300 ==> jitter_of(draw) == draw,
{
}

/// After a failure the wait is five seconds, and doubles with each further one up to a quarter
/// of an hour.
pub proof fn law_waits_after_failures(failures: u8)
    requires
        failures > 0,
    ensures
        backoff(1) == 5,
        failures < u8::MAX && 2 * backoff(failures) <= 900 ==> backoff((failures + 1) as u8) == 2
            * backoff(failures),
        failures < u8::MAX && 2 * backoff(failures) > 900 ==> backoff((failures + 1) as u8) == 900,
{
}

/// A failure is counted, and the operation that failed waits: by the number of failures, and
/// from the fifth on half an hour for everything. The other operation keeps its time.
pub proof fn law_failures_are_counted(
    state: ProviderView,
    operation: RendezvousOperationKind,
    now: u64,
)
    requires
        now <= u64::MAX - 1_800,
    ensures
        ({
            let after = failure_noted(state, operation, now);
            let n = state.consecutive_failures;
            &&& n < u8::MAX ==> after.consecutive_failures == n + 1
            &&& n == u8::MAX ==> after.consecutive_failures == u8::MAX
            &&& n >= 4 ==> after.circuit_open_until == now + 1_800
            &&& n < 4 ==> after.circuit_open_until == state.circuit_open_until
            &&& operation == RendezvousOperationKind::Register ==> {
                &&& after.next_lookup_at == state.next_lookup_at
                &&& n >= 4 ==> after.next_register_at == now + 1_800
                &&& n < 4 ==> after.next_register_at == now + backoff((n + 1) as u8)
            }
            &&& operation == RendezvousOperationKind::Lookup ==> {
                &&& after.next_register_at == state.next_register_at
                &&& n >= 4 ==> after.next_lookup_at == now + 1_800
                &&& n < 4 ==> after.next_lookup_at == now + backoff((n + 1) as u8)
            }
            &&& after.publish_enabled == state.publish_enabled
            &&& after.lookup_enabled == state.lookup_enabled
            &&& after.publish_generation == state.publish_generation
            &&& after.accepted_generation == state.accepted_generation
            &&& after.routes == state.routes
            &&& after.routes_expires_at == state.routes_expires_at
        }),
{
    reveal_with_fuel(backoff, 6);
}

// ---- Laws of registering ----

/// A registration is due where something is published or to be withdrawn, its time has come
/// and no pause is on.
pub proof fn law_when_registration_is_due(state: ProviderView, now: u64)
    ensures
        register_due(state, now) <==> (state.publish_enabled || state.withdrawal_pending)
            && state.next_register_at <= now && state.circuit_open_until <= now,
{
}

/// A registration that is due goes out under a new generation; without anything to publish it
/// is a withdrawal. Generations that are used up end it.
pub proof fn law_registrations_that_go_out(state: ProviderView, configured: u64, now: u64)
    ensures
        ({
            let res = registration_begun(state, configured, now);
            &&& !register_due(state, now) ==> res == Ok::<Option<Registration>, NodeError>(None)
            &&& register_due(state, now) && state.publish_generation == u64::MAX ==> res == Err::<
                Option<Registration>,
                NodeError,
            >(NodeError::RendezvousUnavailable)
            &&& register_due(state, now) && state.publish_generation < u64::MAX ==> (
            res matches Ok(Some(registration)) && registration.withdrawal == !state.publish_enabled
                && registration.generation > state.publish_generation && registration.generation
                >= configured && (registration.generation == state.publish_generation + 1
                || registration.generation == configured || registration.generation == 1))
        }),
{
}

/// A registration is told to the current epoch and the next, and then confirmed.
pub proof fn law_steps_of_registration(run: RegistrationRun)
    ensures
        run.failed ==> registration_step(run) == (RegistrationStep::Finished { confirmed: false }),
        !run.failed && run.done == 0 ==> registration_step(run) == (RegistrationStep::Register {
            epoch: run.epoch,
        }),
        !run.failed && run.done == 1 && run.epoch < u64::MAX ==> registration_step(run) == (
        RegistrationStep::Register { epoch: (run.epoch + 1) as u64 }),
        !run.failed && run.done == 2 ==> registration_step(run) == (RegistrationStep::Confirm {
            epoch: run.epoch,
        }),
        !run.failed && run.done >= 3 ==> registration_step(run) == (RegistrationStep::Finished {
            confirmed: true,
        }),
{
}

/// A confirmed registration clears every failure, ends a withdrawal, and is repeated an hour
/// later while something is published.
pub proof fn law_confirmed_registrations(state: ProviderView, draw: u64, now: u64)
    requires
        now <= u64::MAX - 3_900,
    ensures
        ({
            let after = registration_concluded(state, true, draw, now);
            &&& after.registration_confirmed_at == now
            &&& after.consecutive_failures == 0
            &&& after.circuit_open_until == 0
            &&& !after.withdrawal_pending
            &&& state.publish_enabled ==> now + 3_600 <= after.next_register_at <= now + 3_900
            &&& !state.publish_enabled ==> after.next_register_at == 0
            &&& after.publish_generation == state.publish_generation
            &&& after.routes == state.routes
        }),
        registration_concluded(state, false, draw, now) == failure_noted(
            state,
            RendezvousOperationKind::Register,
            now,
        ),
{
}

// ---- Laws of looking up ----

/// A lookup is due where it is enabled, its time has come or it is forced, and no pause is on.
pub proof fn law_when_lookup_is_due(state: ProviderView, now: u64)
    ensures
        lookup_due(state, true, now) <==> state.lookup_enabled && state.circuit_open_until <= now,
        lookup_due(state, false, now) <==> state.lookup_enabled && state.circuit_open_until <= now
            && state.next_lookup_at <= now,
{
}

/// A record counts only when it is newer than every generation that was in conflict.
pub proof fn law_records_that_count(record: RecordView, state: ProviderView)
    ensures
        state.conflict_generation is None ==> eligible(record, state),
        state.conflict_generation is Some ==> (eligible(record, state) <==> record.generation
            > state.conflict_generation->0),
{
}

/// A record of the accepted generation contradicts it when its routes or their time differ;
/// where nothing is held, when it brings routes at all.
pub proof fn law_contradictions(record: RecordView, state: ProviderView, other: RecordView)
    ensures
        record.generation != state.accepted_generation || state.accepted_generation == 0
            ==> !contradicts_accepted(record, state),
        record.generation == state.accepted_generation && record.generation != 0
            && state.routes.len() == 0 ==> contradicts_accepted(record, state) == (
        record.routes.len() > 0),
        record.generation == state.accepted_generation && record.generation != 0
            && state.routes.len() > 0 ==> contradicts_accepted(record, state) == !(record.routes
            == state.routes && record.expires_at == state.routes_expires_at),
        contradict(record, other) == contradict(other, record),
        record.generation != other.generation ==> !contradict(record, other),
        record.generation == other.generation ==> contradict(record, other) == !(record.routes
            == other.routes && record.expires_at == other.expires_at),
{
}

/// Two eligible records of one generation that differ are a conflict of that generation.
pub proof fn law_contradicting_records_conflict(
    records: Seq<RecordView>,
    state: ProviderView,
    i: int,
    j: int,
)
    requires
        0 <= i < j < records.len(),
        state.conflict_generation is None,
        records[i].generation == records[j].generation,
        records[i].routes != records[j].routes || records[i].expires_at != records[j].expires_at,
    ensures
        conflict_in(records, state, records[i].generation),
{
    assert(eligible(records[i], state) && eligible(records[j], state));
}

/// The newest record is accepted: by generation, then by date of issue, then by epoch.
pub proof fn law_newer_records(a: RecordView, b: RecordView)
    ensures
        a.generation < b.generation ==> not_older(a, b) && !not_older(b, a),
        a.generation == b.generation && a.issued_at < b.issued_at ==> not_older(a, b) && !not_older(
            b,
            a,
        ),
        a.generation == b.generation && a.issued_at == b.issued_at && a.epoch < b.epoch
            ==> not_older(a, b) && !not_older(b, a),
{
}

/// An accepted record is taken as it is: its routes, their time and its generation. It clears
/// every failure and every conflict, and the clock never goes back.
pub proof fn law_accepted_records(
    state: ProviderView,
    records: Seq<RecordView>,
    at: usize,
    draw: u64,
    now: u64,
)
    requires
        at < records.len(),
    ensures
        ({
            let after = lookup_concluded(state, LookupVerdict::Accept { at }, records, draw, now);
            let record = records[at as int];
            &&& after.accepted_generation == record.generation
            &&& after.routes == record.routes
            &&& record.routes.len() > 0 ==> after.routes_expires_at == record.expires_at
            &&& record.routes.len() == 0 ==> after.routes_expires_at == 0
            &&& after.conflict_generation is None
            &&& after.consecutive_failures == 0
            &&& after.circuit_open_until == 0
            &&& after.clock_floor >= state.clock_floor
            &&& after.clock_floor >= now
            &&& after.next_register_at == state.next_register_at
            &&& after.publish_generation == state.publish_generation
        }),
{
}

/// A conflict is remembered under its highest generation; finding nothing drops routes only
/// once they have expired. Both are failures of looking up.
pub proof fn law_lookups_without_a_record(
    state: ProviderView,
    generation: u64,
    records: Seq<RecordView>,
    draw: u64,
    now: u64,
)
    ensures
        ({
            let after = lookup_concluded(
                state,
                LookupVerdict::Conflict { generation },
                records,
                draw,
                now,
            );
            &&& after.conflict_generation matches Some(floor) && floor >= generation && (
            state.conflict_generation matches Some(g) ==> floor >= g) && (floor == generation
                || Some(floor) == state.conflict_generation)
            &&& after.routes_expires_at == 0
            &&& after.accepted_generation == state.accepted_generation
            &&& after.consecutive_failures == failures_after(state.consecutive_failures)
        }),
        ({
            let after = lookup_concluded(state, LookupVerdict::Nothing, records, draw, now);
            &&& state.routes_expires_at > now ==> after.routes == state.routes
                && after.routes_expires_at == state.routes_expires_at
            &&& state.routes_expires_at <= now ==> after.routes.len() == 0
                && after.routes_expires_at == 0
            &&& after.conflict_generation == state.conflict_generation
            &&& after.accepted_generation == state.accepted_generation
            &&& after.consecutive_failures == failures_after(state.consecutive_failures)
        }),
{
}

/// Routes are looked up again a quarter of an hour before they expire but never within five
/// seconds; without routes after an hour.
pub proof fn law_next_lookups(expires_at: u64, draw: u64, now: u64)
    requires
        now <= u64::MAX - 3_900,
    ensures
        expires_at == 0 ==> now + 3_600 <= next_lookup(expires_at, draw, now) <= now + 3_900,
        expires_at > 900 && expires_at - 900 > now + 5 ==> next_lookup(expires_at, draw, now)
            == expires_at - 900,
        0 < expires_at <= now + 905 ==> next_lookup(expires_at, draw, now) == now + 5,
{
}

/// The routes that are told are the smallest, as many as allowed, and all where they fit.
pub proof fn law_told_routes(told: Seq<Seq<u8>>, given: Seq<Seq<u8>>, most: usize, x: Seq<u8>)
    requires
        smallest_routes(told, given, most),
    ensures
        told.contains(x) ==> given.contains(x),
        given.contains(x) && told.len() < most ==> told.contains(x),
        told.len() <= most,
{
}

} // verus!
