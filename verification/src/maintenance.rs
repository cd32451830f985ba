//! A pass over the rendezvous providers: whom this device registers with, and whose routes it
//! looks up, within the operations that a pass may take.

use vstd::prelude::*;

use crate::bytes::{
    bytes_before, id_precedes, lemma_before_irreflexive, lemma_before_total,
    lemma_before_transitive, lemma_same_id, same, Id,
};
use crate::endpoints::ascending;
use crate::providers::ServiceState;
use crate::records::QueueItem;
use crate::relations::{lookup_requests, WaitingDevice};
use crate::rendezvous::{
    lookup_step, may_start, register_due, registration_step, LookupRun, LookupStep, LookupView,
    RegistrationRun, RegistrationStep, RendezvousOperationKind,
    MAX_RENDEZVOUS_OPERATIONS_PER_TICK, OPERATIONS_PER_EXCHANGE,
};
use crate::sessions::{BookView, SessionBook};

verus! {

/// A device with a session, and the providers used with it.
pub struct DeviceService {
    /// The device.
    pub device: Id,
    /// Its providers.
    pub state: ServiceState,
}

/// One pair of device and provider comes before another: by the device, then by the provider.
pub open spec fn pair_before(a: (Id, Id), b: (Id, Id)) -> bool {
    bytes_before(a.0@, b.0@) || (a.0 == b.0 && bytes_before(a.1@, b.1@))
}

/// Pairs stand in order, none twice.
pub open spec fn in_pair_order(pairs: Seq<(Id, Id)>) -> bool {
    forall|i: int, j: int|
        0 <= i < j < pairs.len() ==> pair_before(#[trigger] pairs[i], #[trigger] pairs[j])
}

proof fn lemma_pair_transitive(a: (Id, Id), b: (Id, Id), c: (Id, Id))
    requires
        pair_before(a, b),
        pair_before(b, c),
    ensures
        pair_before(a, c),
{
    if bytes_before(a.0@, b.0@) && bytes_before(b.0@, c.0@) {
        lemma_before_transitive(a.0@, b.0@, c.0@, 0);
    }
    if a.0 == b.0 && b.0 == c.0 && bytes_before(a.1@, b.1@) && bytes_before(b.1@, c.1@) {
        lemma_before_transitive(a.1@, b.1@, c.1@, 0);
    }
}

proof fn lemma_pair_total(a: (Id, Id), b: (Id, Id))
    requires
        !pair_before(a, b),
        a != b,
    ensures
        pair_before(b, a),
{
    lemma_before_total(a.0@, b.0@, 0);
    if a.0@ =~= b.0@ {
        lemma_same_id(a.0, b.0);
        lemma_before_total(a.1@, b.1@, 0);
        if a.1@ =~= b.1@ {
            lemma_same_id(a.1, b.1);
        }
    }
}

fn pair_precedes(a: &(Id, Id), b: &(Id, Id)) -> (res: bool)
    ensures
        res == pair_before(*a, *b),
{
    if same(&a.0, &b.0) {
        proof {
            lemma_before_irreflexive(a.0@, 0);
        }
        id_precedes(&a.1, &b.1)
    } else {
        id_precedes(&a.0, &b.0)
    }
}

/// Put a pair at its place, unless it is there already.
fn insert_pair(pairs: &mut Vec<(Id, Id)>, pair: (Id, Id))
    requires
        in_pair_order(old(pairs)@),
    ensures
        in_pair_order(final(pairs)@),
        forall|x: (Id, Id)| #[trigger]
            final(pairs)@.contains(x) <==> old(pairs)@.contains(x) || x == pair,
{
    let ghost before = pairs@;
    let mut at: usize = 0;
    while at < pairs.len() && pair_precedes(&pairs[at], &pair)
        invariant
            at <= pairs@.len(),
            pairs@ == before,
            forall|k: int| 0 <= k < at ==> pair_before(#[trigger] pairs@[k], pair),
        decreases pairs@.len() - at,
    {
        at = at + 1;
    }
    if at < pairs.len() && same(&pairs[at].0, &pair.0) && same(&pairs[at].1, &pair.1) {
        assert(pairs@[at as int] == pair);
        return ;
    }
    pairs.insert(at, pair);
    proof {
        let after = pairs@;
        if at < before.len() {
            lemma_pair_total(before[at as int], pair);
        }
        assert forall|i: int, j: int| 0 <= i < j < after.len() implies pair_before(
            #[trigger] after[i],
            #[trigger] after[j],
        ) by {
            if j < at {
                assert(after[i] == before[i] && after[j] == before[j]);
            } else if i < at && j == at {
                assert(after[i] == before[i]);
            } else if i < at {
                assert(after[i] == before[i] && after[j] == before[j - 1]);
            } else if i == at {
                assert(after[j] == before[j - 1]);
                if j - 1 > at {
                    lemma_pair_transitive(pair, before[at as int], before[j - 1]);
                }
            } else {
                assert(after[i] == before[i - 1] && after[j] == before[j - 1]);
            }
        }
        assert forall|x: (Id, Id)| #[trigger] after.contains(x) <==> before.contains(x) || x
            == pair by {
            if before.contains(x) {
                let k = choose|k: int| 0 <= k < before.len() && before[k] == x;
                if k < at {
                    assert(after[k] == x);
                } else {
                    assert(after[k + 1] == x);
                }
            }
            if x == pair {
                assert(after[at as int] == x);
            }
            if after.contains(x) && x != pair {
                let k = choose|k: int| 0 <= k < after.len() && after[k] == x;
                if k < at {
                    assert(before[k] == x);
                } else {
                    assert(before[k - 1] == x);
                }
            }
        }
    }
}

/// A registration with a provider is due for a device. While it is not certain that all own
/// routes are known, only withdrawals are made.
pub open spec fn registers(
    service: DeviceService,
    own_routes_known: bool,
    now: u64,
    pair: (Id, Id),
) -> bool {
    let known = service.state@.known;
    &&& service.device == pair.0
    &&& known.contains_key(pair.1)
    &&& register_due(known[pair.1], now)
    &&& own_routes_known || !known[pair.1].publish_enabled
}

/// A registration is due for one of the first `n` devices.
pub open spec fn some_registers(
    services: Seq<DeviceService>,
    n: int,
    own_routes_known: bool,
    now: u64,
    pair: (Id, Id),
) -> bool {
    exists|i: int|
        0 <= i < n && #[trigger] registers(services[i], own_routes_known, now, pair)
}

/// A pass over the rendezvous providers.
pub struct RendezvousPass {
    operations_left: usize,
    registrations: Vec<(Id, Id)>,
    lookups: Vec<Id>,
}

/// Where such a pass stands.
#[verifier::ext_equal]
pub struct RendezvousView {
    /// Operations that are left.
    pub operations_left: nat,
    /// Devices and providers still to register with, in order.
    pub registrations: Seq<(Id, Id)>,
    /// Devices whose routes are still to be looked up, in order.
    pub lookups: Seq<Id>,
}

impl View for RendezvousPass {
    type V = RendezvousView;

    closed spec fn view(&self) -> RendezvousView {
        RendezvousView {
            operations_left: self.operations_left as nat,
            registrations: self.registrations@,
            lookups: self.lookups@,
        }
    }
}

impl RendezvousView {
    /// Another exchange may be started.
    pub open spec fn may_go_on(self, late: bool) -> bool {
        self.operations_left >= OPERATIONS_PER_EXCHANGE && !late
    }
}

impl RendezvousPass {
    /// Begin a pass with its registrations, by ascending device and provider. Without a client
    /// there is none.
    pub fn begin(
        has_client: bool,
        services: &Vec<DeviceService>,
        own_routes_known: bool,
        now: u64,
    ) -> (res: Option<RendezvousPass>)
        requires
            forall|i: int| 0 <= i < services@.len() ==> (#[trigger] services@[i]).state.wf(),
        ensures
            match res {
                None => !has_client,
                Some(pass) => {
                    &&& has_client
                    &&& pass@.operations_left == MAX_RENDEZVOUS_OPERATIONS_PER_TICK
                    &&& in_pair_order(pass@.registrations)
                    &&& forall|pair: (Id, Id)| #[trigger]
                        pass@.registrations.contains(pair) <==> some_registers(
                            services@,
                            services@.len() as int,
                            own_routes_known,
                            now,
                            pair,
                        )
                    &&& pass@.lookups.len() == 0
                },
            },
    {
        if !has_client {
            return None;
        }
        let mut registrations: Vec<(Id, Id)> = Vec::new();
        let mut i: usize = 0;
        while i < services.len()
            invariant
                i <= services@.len(),
                forall|k: int| 0 <= k < services@.len() ==> (#[trigger] services@[k]).state.wf(),
                in_pair_order(registrations@),
                forall|pair: (Id, Id)| #[trigger]
                    registrations@.contains(pair) <==> some_registers(
                        services@,
                        i as int,
                        own_routes_known,
                        now,
                        pair,
                    ),
            decreases services@.len() - i,
        {
            let ghost before = registrations@;
            let service = &services[i];
            assert(services@[i as int].state.wf());
            let due = service.state.due_registrations(own_routes_known, now);
            let mut k: usize = 0;
            while k < due.len()
                invariant
                    k <= due@.len(),
                    in_pair_order(registrations@),
                    forall|pair: (Id, Id)| #[trigger]
                        registrations@.contains(pair) <==> before.contains(pair) || (pair.0
                            == service.device && due@.take(k as int).contains(pair.1)),
                decreases due@.len() - k,
            {
                let ghost some = registrations@;
                insert_pair(&mut registrations, (service.device, due[k]));
                proof {
                    let first = due@.take(k as int);
                    let more = due@.take(k + 1);
                    assert(more =~= first.push(due@[k as int]));
                    assert forall|id: Id| #[trigger] more.contains(id) <==> first.contains(id)
                        || id == due@[k as int] by {
                        if first.contains(id) {
                            let j = choose|j: int| 0 <= j < first.len() && first[j] == id;
                            assert(more[j] == id);
                        }
                        if id == due@[k as int] {
                            assert(more[k as int] == id);
                        }
                        if more.contains(id) && id != due@[k as int] {
                            let j = choose|j: int| 0 <= j < more.len() && more[j] == id;
                            assert(first[j] == id);
                        }
                    }
                    assert forall|pair: (Id, Id)| #[trigger]
                        registrations@.contains(pair) <==> before.contains(pair) || (pair.0
                            == service.device && more.contains(pair.1)) by {
                        assert(some.contains(pair) <==> before.contains(pair) || (pair.0
                            == service.device && first.contains(pair.1)));
                        assert(more.contains(pair.1) <==> first.contains(pair.1) || pair.1
                            == due@[k as int]);
                    }
                }
                k = k + 1;
            }
            proof {
                assert(due@.take(k as int) =~= due@);
                assert forall|pair: (Id, Id)| #[trigger]
                    registrations@.contains(pair) <==> some_registers(
                        services@,
                        i + 1,
                        own_routes_known,
                        now,
                        pair,
                    ) by {
                    assert(due@.contains(pair.1) && pair.0 == service.device <==> registers(
                        services@[i as int],
                        own_routes_known,
                        now,
                        pair,
                    ));
                    if some_registers(services@, i as int, own_routes_known, now, pair) {
                        let j = choose|j: int|
                            0 <= j < i && #[trigger] registers(
                                services@[j],
                                own_routes_known,
                                now,
                                pair,
                            );
                        assert(registers(services@[j], own_routes_known, now, pair));
                    }
                    if some_registers(services@, i + 1, own_routes_known, now, pair) {
                        let j = choose|j: int|
                            0 <= j < i + 1 && #[trigger] registers(
                                services@[j],
                                own_routes_known,
                                now,
                                pair,
                            );
                        if j < i {
                            assert(some_registers(
                                services@,
                                i as int,
                                own_routes_known,
                                now,
                                pair,
                            ));
                        }
                    }
                }
            }
            i = i + 1;
        }
        Some(
            RendezvousPass {
                operations_left: MAX_RENDEZVOUS_OPERATIONS_PER_TICK,
                registrations,
                lookups: Vec::new(),
            },
        )
    }

    /// The next device and provider to register with. Once too few operations are left, or it
    /// is late, no more registrations are begun in this pass.
    pub fn next_registration(&mut self, late: bool) -> (res: Option<(Id, Id)>)
        ensures
            match res {
                Some(pair) => {
                    &&& old(self)@.may_go_on(late)
                    &&& old(self)@.registrations.len() > 0
                    &&& pair == old(self)@.registrations[0]
                    &&& final(self)@ == (RendezvousView {
                        registrations: old(self)@.registrations.skip(1),
                        ..old(self)@
                    })
                },
                None => {
                    &&& !old(self)@.may_go_on(late) || old(self)@.registrations.len() == 0
                    &&& final(self)@ == (RendezvousView {
                        registrations: Seq::empty(),
                        ..old(self)@
                    })
                },
            },
    {
        if self.registrations.len() == 0 || !may_start(self.operations_left, late) {
            self.registrations = Vec::new();
            return None;
        }
        let pair = self.registrations.remove(0);
        assert(self.registrations@ =~= old(self).registrations@.skip(1));
        Some(pair)
    }

    /// The next step of a registration, out of the operations of this pass.
    pub fn registration_step(&mut self, run: &mut RegistrationRun, late: bool) -> (res:
        RegistrationStep)
        ensures
            ({
                let step = registration_step(*old(run));
                let spent = old(self)@.operations_left == 0 || late;
                &&& final(self)@ == (RendezvousView {
                    operations_left: if step is Finished || spent {
                        old(self)@.operations_left
                    } else {
                        (old(self)@.operations_left - 1) as nat
                    },
                    ..old(self)@
                })
                &&& res == if !(step is Finished) && spent {
                    RegistrationStep::Finished { confirmed: false }
                } else {
                    step
                }
                &&& *final(run) == if !(step is Finished) && spent {
                    RegistrationRun { failed: true, ..*old(run) }
                } else {
                    *old(run)
                }
            }),
    {
        run.next_step(&mut self.operations_left, late)
    }

    /// Go on to the lookups: of the devices whose routes are wanted, of those that something
    /// waits for which cannot be sent, and of those in use, in order.
    pub fn begin_lookups(
        &mut self,
        book: &SessionBook,
        waiting: &Vec<WaitingDevice>,
        active: &Vec<Id>,
    )
        ensures
            final(self)@.operations_left == old(self)@.operations_left,
            final(self)@.registrations == old(self)@.registrations,
            ascending(final(self)@.lookups),
            forall|device: Id| #[trigger]
                final(self)@.lookups.to_set().contains(device) <==> {
                    ||| book@.refresh.contains(device)
                    ||| active@.contains(device)
                    ||| exists|k: int|
                        0 <= k < waiting@.len() && (#[trigger] waiting@[k]).device == device
                            && !waiting@[k].has_route
                },
    {
        let requested = book.rendezvous_refresh_requested.items();
        self.lookups = lookup_requests(requested, waiting, active);
        proof {
            assert forall|device: Id| requested@.contains(device)
                == #[trigger] book@.refresh.contains(device) by {
                assert(requested@.to_set().contains(device) == requested@.contains(device));
            }
        }
    }

    /// The next device whose routes are looked up. Once too few operations are left, or it is
    /// late, no more are looked up in this pass.
    pub fn next_lookup(&mut self, late: bool) -> (res: Option<Id>)
        ensures
            match res {
                Some(device) => {
                    &&& old(self)@.may_go_on(late)
                    &&& old(self)@.lookups.len() > 0
                    &&& device == old(self)@.lookups[0]
                    &&& final(self)@ == (RendezvousView {
                        lookups: old(self)@.lookups.skip(1),
                        ..old(self)@
                    })
                },
                None => {
                    &&& !old(self)@.may_go_on(late) || old(self)@.lookups.len() == 0
                    &&& final(self)@ == (RendezvousView { lookups: Seq::empty(), ..old(self)@ })
                },
            },
    {
        if self.lookups.len() == 0 || !may_start(self.operations_left, late) {
            self.lookups = Vec::new();
            return None;
        }
        let device = self.lookups.remove(0);
        assert(self.lookups@ =~= old(self).lookups@.skip(1));
        Some(device)
    }

    /// Whether another provider of a device may be asked.
    pub fn may_ask(&self, late: bool) -> (res: bool)
        ensures
            res == self@.may_go_on(late),
    {
        may_start(self.operations_left, late)
    }

    /// The next step of a lookup, out of the operations of this pass.
    pub fn lookup_step(&mut self, run: &mut LookupRun, keys: bool, late: bool) -> (res: LookupStep)
        requires
            old(run).wf(),
        ensures
            final(run).wf(),
            (res, final(run)@, final(self)@.operations_left) == lookup_step(
                old(run)@,
                keys,
                old(self)@.operations_left,
                late,
            ),
            final(self)@.registrations == old(self)@.registrations,
            final(self)@.lookups == old(self)@.lookups,
    {
        run.next_step(keys, &mut self.operations_left, late)
    }
}

/// What happens with a device whose turn it is to be looked up.
#[derive(Clone, Copy, Debug, PartialEq, Eq, Structural)]
pub enum DeviceLookup {
    /// The wish is dropped: rendezvous is not set up with it, or it cannot be identified.
    Forget,
    /// Its providers are asked, and then the wish is fulfilled. Providers are asked before
    /// their time where the routes were asked for.
    LookUp {
        /// The routes were asked for.
        force: bool,
    },
}

/// What happens with a device whose turn it is to be looked up.
pub fn device_lookup(book: &SessionBook, device: &Id, set_up: bool, identified: bool) -> (res:
    DeviceLookup)
    ensures
        res == if !set_up || !identified {
            DeviceLookup::Forget
        } else {
            DeviceLookup::LookUp { force: book@.refresh.contains(*device) }
        },
{
    if !set_up || !identified {
        DeviceLookup::Forget
    } else {
        DeviceLookup::LookUp { force: book.rendezvous_refresh_requested.contains(device) }
    }
}

/// A device was dealt with: its routes are not wanted any more, whether or not any were found.
pub fn conclude_device_lookup(book: &mut SessionBook, device: &Id)
    ensures
        final(book)@ == (BookView { refresh: old(book)@.refresh.remove(*device), ..old(book)@ }),
{
    book.forget_refresh(device);
}

/// The devices of the first `n` queued envelopes.
pub open spec fn first_peers(queue: Seq<QueueItem>, n: int) -> Set<Id> {
    Set::new(|id: Id| exists|k: int| 0 <= k < n && k < queue.len() && (#[trigger] queue[k]).peer == id)
}

/// In a wake collection the routes of the devices that the first envelopes wait for are looked
/// up, as many as a pass may take operations.
pub fn want_queued(book: &mut SessionBook, queue: &Vec<QueueItem>)
    ensures
        final(book)@ == (BookView {
            refresh: old(book)@.refresh.union(
                first_peers(queue@, MAX_RENDEZVOUS_OPERATIONS_PER_TICK as int),
            ),
            ..old(book)@
        }),
{
    let ghost most = MAX_RENDEZVOUS_OPERATIONS_PER_TICK as int;
    let mut peers: Vec<Id> = Vec::new();
    let mut i: usize = 0;
    while i < queue.len() && i < MAX_RENDEZVOUS_OPERATIONS_PER_TICK
        invariant
            i <= queue@.len(),
            i <= MAX_RENDEZVOUS_OPERATIONS_PER_TICK,
            peers@.len() == i,
            forall|k: int| 0 <= k < i ==> #[trigger] peers@[k] == queue@[k].peer,
        decreases queue@.len() - i,
    {
        peers.push(queue[i].peer);
        i = i + 1;
    }
    book.want_routes(&peers);
    proof {
        assert forall|id: Id| peers@.to_set().contains(id) == #[trigger] first_peers(
            queue@,
            most,
        ).contains(id) by {
            if peers@.contains(id) {
                let k = choose|k: int| 0 <= k < peers@.len() && peers@[k] == id;
                assert(queue@[k].peer == id);
            }
            if first_peers(queue@, most).contains(id) {
                let k = choose|k: int|
                    0 <= k < most && k < queue@.len() && (#[trigger] queue@[k]).peer == id;
                assert(peers@[k] == id);
            }
        }
        assert(peers@.to_set() =~= first_peers(queue@, most));
    }
}

/// Asking for the record of an epoch takes one of the operations that are left, and nothing
/// else in a lookup takes any.
pub proof fn law_lookups_take_one_operation_each(
    run: LookupView,
    keys: bool,
    operations: nat,
    late: bool,
)
    ensures
        ({
            let (step, _, left) = lookup_step(run, keys, operations, late);
            if step is LookUp {
                left + 1 == operations
            } else {
                left == operations
            }
        }),
{
}

/// An exchange with a provider: the device it is for, the provider, and what is done.
pub type Exchange = (Id, Id, RendezvousOperationKind);

/// Exchanges that are under way.
pub struct InFlight {
    items: Vec<Exchange>,
}

impl View for InFlight {
    type V = Set<Exchange>;

    closed spec fn view(&self) -> Set<Exchange> {
        self.items@.to_set()
    }
}

fn same_exchange(a: &Exchange, b: &Exchange) -> (res: bool)
    ensures
        res == (*a == *b),
{
    same(&a.0, &b.0) && same(&a.1, &b.1) && a.2 == b.2
}

impl InFlight {
    /// None is under way.
    pub fn new() -> (res: InFlight)
        ensures
            res@ == Set::<Exchange>::empty(),
    {
        let res = InFlight { items: Vec::new() };
        assert(res@ =~= Set::<Exchange>::empty());
        res
    }

    /// Whether an exchange may be begun: not while the same one is under way. From then on it
    /// is.
    pub fn begin(&mut self, exchange: Exchange) -> (res: bool)
        ensures
            res == !old(self)@.contains(exchange),
            final(self)@ == old(self)@.insert(exchange),
    {
        let mut i: usize = 0;
        while i < self.items.len()
            invariant
                i <= self.items@.len(),
                *self == *old(self),
                forall|k: int| 0 <= k < i ==> #[trigger] self.items@[k] != exchange,
            decreases self.items@.len() - i,
        {
            if same_exchange(&self.items[i], &exchange) {
                assert(self.items@[i as int] == exchange);
                assert(self@.insert(exchange) =~= self@);
                return false;
            }
            i = i + 1;
        }
        let ghost before = self.items@;
        self.items.push(exchange);
        proof {
            assert forall|x: Exchange| self.items@.to_set().contains(x) == before.to_set().insert(
                exchange,
            ).contains(x) by {
                if before.contains(x) {
                    let k = choose|k: int| 0 <= k < before.len() && before[k] == x;
                    assert(self.items@[k] == x);
                }
                assert(self.items@[before.len() as int] == exchange);
            }
            assert(self@ =~= old(self)@.insert(exchange));
        }
        true
    }

    /// An exchange has ended.
    pub fn end(&mut self, exchange: &Exchange)
        ensures
            final(self)@ == old(self)@.remove(*exchange),
    {
        let mut kept: Vec<Exchange> = Vec::new();
        let mut i: usize = 0;
        while i < self.items.len()
            invariant
                i <= self.items@.len(),
                *self == *old(self),
                forall|x: Exchange| #[trigger]
                    kept@.contains(x) <==> x != *exchange && exists|k: int|
                        0 <= k < i && self.items@[k] == x,
            decreases self.items@.len() - i,
        {
            let item = self.items[i];
            let ghost prior = kept@;
            if !same_exchange(&item, exchange) {
                kept.push(item);
            }
            proof {
                assert forall|x: Exchange| #[trigger] kept@.contains(x) <==> x != *exchange
                    && exists|k: int| 0 <= k < i + 1 && self.items@[k] == x by {
                    if prior.contains(x) {
                        let k = choose|k: int| 0 <= k < prior.len() && prior[k] == x;
                        assert(kept@[k] == x);
                    }
                    if kept@.contains(x) && !prior.contains(x) {
                        let k = choose|k: int| 0 <= k < kept@.len() && kept@[k] == x;
                        if k < prior.len() {
                            assert(prior[k] == x);
                        }
                        assert(self.items@[i as int] == x);
                    }
                    if x == item && x != *exchange {
                        assert(kept@[kept@.len() - 1] == x);
                    }
                }
            }
            i = i + 1;
        }
        self.items = kept;
        assert(self@ =~= old(self)@.remove(*exchange));
    }
}

// ---- Laws of a pass ----

/// Pairs stand in order of their first part, and of one first part in order of their second.
pub proof fn law_pairs_stand_in_order(a: (Id, Id), b: (Id, Id))
    ensures
        bytes_before(a.0@, b.0@) ==> pair_before(a, b),
        a.0 == b.0 && bytes_before(a.1@, b.1@) ==> pair_before(a, b),
        !pair_before(a, a),
{
    crate::bytes::lemma_before_irreflexive(a.0@, 0);
    crate::bytes::lemma_before_irreflexive(a.1@, 0);
}

/// Own routes are published only once they are known; a device that publishes nothing may
/// register without them.
pub proof fn law_who_registers(
    service: DeviceService,
    own_routes_known: bool,
    now: u64,
    pair: (Id, Id),
)
    requires
        service.device == pair.0,
        service.state@.known.contains_key(pair.1),
    ensures
        ({
            let record = service.state@.known[pair.1];
            &&& !register_due(record, now) ==> !registers(service, own_routes_known, now, pair)
            &&& register_due(record, now) && own_routes_known ==> registers(
                service,
                own_routes_known,
                now,
                pair,
            )
            &&& register_due(record, now) && !own_routes_known ==> registers(
                service,
                own_routes_known,
                now,
                pair,
            ) == !record.publish_enabled
        }),
{
}

/// A pass goes on while it is in time and a whole exchange can still be made.
pub proof fn law_when_a_pass_goes_on(pass: RendezvousView)
    ensures
        !pass.may_go_on(true),
        pass.may_go_on(false) <==> pass.operations_left >= OPERATIONS_PER_EXCHANGE,
{
}

/// The routes to the first devices of the queue are wanted, and to no others.
pub proof fn law_first_of_the_queue_want_routes(queue: Seq<QueueItem>, n: int, k: int, id: Id)
    ensures
        0 <= k < n && k < queue.len() ==> first_peers(queue, n).contains(queue[k].peer),
        (forall|j: int| 0 <= j < n && j < queue.len() ==> (#[trigger] queue[j]).peer != id)
            ==> !first_peers(queue, n).contains(id),
{
}

/// A registration is made when any service asks for it, and only then.
pub proof fn law_any_service_registers(
    services: Seq<DeviceService>,
    own_routes_known: bool,
    now: u64,
    pair: (Id, Id),
    i: int,
)
    ensures
        0 <= i < services.len() && registers(services[i], own_routes_known, now, pair)
            ==> some_registers(services, services.len() as int, own_routes_known, now, pair),
        (forall|k: int|
            0 <= k < services.len() ==> !#[trigger] registers(
                services[k],
                own_routes_known,
                now,
                pair,
            )) ==> !some_registers(services, services.len() as int, own_routes_known, now, pair),
        0 <= i < services.len() && registers(services[i], own_routes_known, now, pair)
            ==> services[i].device == pair.0,
{
}

} // verus!
