//! Installing and dropping sessions: what goes with them, and what the node remembers of
//! each device while it runs.

use vstd::prelude::*;

use crate::bytes::{same, Id, IdSet};
use crate::delivery::DeliveryRule;
use crate::endpoints::{ascending, insert_id};
use crate::error::{NodeError, Result};
use crate::flights::{
    decide_inbound_session, session_decision, DeviceHandshakeIntent, HandshakeSessionDecision,
};
use crate::inbound::{PreparedInbound, ProviderSetReply};
use crate::records::{Event, GroupHistory, History, QueueDelete, QueueItem};
use crate::settlement::{
    deletions, lemma_deletions_none, lemma_deletions_step, members_known, members_moved,
    restart_for_replacement, retire_group_copies, retired_all, RestartPlan, RetirePlan,
};

verus! {

// ---- Running memory ----

/// What the node remembers of its live sessions while it runs.
pub struct SessionBook {
    /// Devices with a live session.
    pub sessions: IdSet,
    /// Devices that were told this device's content capabilities.
    pub capabilities_advertised: IdSet,
    /// Devices that were told the discovery capability.
    pub discovery_advertised: IdSet,
    /// Devices that were told the rendezvous providers.
    pub rendezvous_advertised: IdSet,
    /// Devices whose rendezvous routes should be looked up again.
    pub rendezvous_refresh_requested: IdSet,
    /// Devices with which a new handshake should give rendezvous keys.
    pub rendezvous_rehandshake_requested: IdSet,
}

/// The contents of the book.
#[verifier::ext_equal]
pub struct BookView {
    /// Devices with a live session.
    pub sessions: Set<Id>,
    /// Devices that were told this device's content capabilities.
    pub capabilities: Set<Id>,
    /// Devices that were told the discovery capability.
    pub discovery: Set<Id>,
    /// Devices that were told the rendezvous providers.
    pub rendezvous: Set<Id>,
    /// Devices whose rendezvous routes should be looked up again.
    pub refresh: Set<Id>,
    /// Devices with which a new handshake should give rendezvous keys.
    pub rehandshake: Set<Id>,
}

impl View for SessionBook {
    type V = BookView;

    open spec fn view(&self) -> BookView {
        BookView {
            sessions: self.sessions@,
            capabilities: self.capabilities_advertised@,
            discovery: self.discovery_advertised@,
            rendezvous: self.rendezvous_advertised@,
            refresh: self.rendezvous_refresh_requested@,
            rehandshake: self.rendezvous_rehandshake_requested@,
        }
    }
}

impl BookView {
    /// The book without a device.
    pub open spec fn without(self, device: Id) -> BookView {
        BookView {
            sessions: self.sessions.remove(device),
            capabilities: self.capabilities.remove(device),
            discovery: self.discovery.remove(device),
            rendezvous: self.rendezvous.remove(device),
            refresh: self.refresh.remove(device),
            rehandshake: self.rehandshake.remove(device),
        }
    }

    /// The book without the first `n` devices.
    pub open spec fn without_all(self, devices: Seq<Id>, n: int) -> BookView
        decreases n,
    {
        if n <= 0 {
            self
        } else {
            self.without_all(devices, n - 1).without(devices[n - 1])
        }
    }

    /// The book in which nothing was told to a device, and its routes are wanted.
    pub open spec fn untold(self, device: Id) -> BookView {
        BookView {
            capabilities: self.capabilities.remove(device),
            discovery: self.discovery.remove(device),
            rendezvous: self.rendezvous.remove(device),
            refresh: self.refresh.insert(device),
            ..self
        }
    }

    /// The book in which no device was told the discovery capability.
    pub open spec fn discovery_renewed(self) -> BookView {
        BookView { discovery: Set::empty(), ..self }
    }

    /// The book in which no device was told the rendezvous providers, and the routes of every
    /// device with a session are wanted.
    pub open spec fn rendezvous_renewed(self) -> BookView {
        BookView {
            rendezvous: Set::empty(),
            refresh: self.refresh.union(self.sessions),
            ..self
        }
    }

    /// The book after something was sent with a session. After a first flight the device has
    /// to be told everything again.
    pub open spec fn with_sent(self, device: Id, first_flight: bool) -> BookView {
        let told = if first_flight {
            self.untold(device)
        } else {
            self
        };
        BookView { sessions: told.sessions.insert(device), ..told }
    }

    /// The book with an inbound session installed. A session that is new has to be told
    /// everything again.
    pub open spec fn with_session(self, device: Id, keep_prior: bool) -> BookView {
        let told = if keep_prior {
            self
        } else {
            BookView {
                sessions: self.sessions,
                capabilities: self.capabilities.remove(device),
                discovery: self.discovery.remove(device),
                rendezvous: self.rendezvous.remove(device),
                refresh: self.refresh.insert(device),
                rehandshake: self.rehandshake.remove(device),
            }
        };
        BookView { sessions: told.sessions.insert(device), ..told }
    }
}

impl SessionBook {
    /// An empty book.
    pub fn new() -> (book: SessionBook)
        ensures
            book@ == (BookView {
                sessions: Set::empty(),
                capabilities: Set::empty(),
                discovery: Set::empty(),
                rendezvous: Set::empty(),
                refresh: Set::empty(),
                rehandshake: Set::empty(),
            }),
    {
        SessionBook {
            sessions: IdSet::new(),
            capabilities_advertised: IdSet::new(),
            discovery_advertised: IdSet::new(),
            rendezvous_advertised: IdSet::new(),
            rendezvous_refresh_requested: IdSet::new(),
            rendezvous_rehandshake_requested: IdSet::new(),
        }
    }

    /// Forget everything about a device.
    pub fn drop_device(&mut self, device: &Id)
        ensures
            final(self)@ == old(self)@.without(*device),
    {
        self.sessions.remove(device);
        self.capabilities_advertised.remove(device);
        self.discovery_advertised.remove(device);
        self.rendezvous_advertised.remove(device);
        self.rendezvous_refresh_requested.remove(device);
        self.rendezvous_rehandshake_requested.remove(device);
    }

    /// Keep the session with which something was sent. After a first flight the device has to
    /// be told everything again.
    pub fn keep_sent(&mut self, device: Id, first_flight: bool)
        ensures
            final(self)@ == old(self)@.with_sent(device, first_flight),
    {
        self.sessions.insert(device);
        if first_flight {
            self.forget_told(device);
        }
    }

    /// A device told its content capabilities: whether it is told the own ones in return, which
    /// happens once.
    pub fn answer_capabilities(&mut self, device: Id) -> (res: bool)
        ensures
            res == !old(self)@.capabilities.contains(device),
            final(self)@ == (BookView {
                capabilities: old(self)@.capabilities.insert(device),
                ..old(self)@
            }),
    {
        self.capabilities_advertised.insert(device)
    }

    /// A device told its discovery capability: whether it is told the own one in return, which
    /// happens once.
    pub fn answer_discovery(&mut self, device: Id) -> (res: bool)
        ensures
            res == !old(self)@.discovery.contains(device),
            final(self)@ == (BookView {
                discovery: old(self)@.discovery.insert(device),
                ..old(self)@
            }),
    {
        self.discovery_advertised.insert(device)
    }

    /// A device told its rendezvous providers. A set that contradicts another of its generation
    /// is not looked up; else what it asks for is noted.
    pub fn note_provider_set(&mut self, device: Id, conflict: bool, reply: ProviderSetReply)
        ensures
            final(self)@ == if conflict {
                BookView { refresh: old(self)@.refresh.remove(device), ..old(self)@ }
            } else {
                BookView {
                    rendezvous: if reply.advertise {
                        old(self)@.rendezvous.insert(device)
                    } else {
                        old(self)@.rendezvous
                    },
                    rehandshake: if reply.rehandshake {
                        old(self)@.rehandshake.insert(device)
                    } else {
                        old(self)@.rehandshake
                    },
                    refresh: if reply.refresh {
                        old(self)@.refresh.insert(device)
                    } else {
                        old(self)@.refresh
                    },
                    ..old(self)@
                }
            },
    {
        if conflict {
            self.rendezvous_refresh_requested.remove(&device);
            return;
        }
        if reply.advertise {
            self.rendezvous_advertised.insert(device);
        }
        if reply.rehandshake {
            self.rendezvous_rehandshake_requested.insert(device);
        }
        if reply.refresh {
            self.rendezvous_refresh_requested.insert(device);
        }
    }

    /// The routes of a device are not wanted any more, or were looked up.
    pub fn forget_refresh(&mut self, device: &Id)
        ensures
            final(self)@ == (BookView {
                refresh: old(self)@.refresh.remove(*device),
                ..old(self)@
            }),
    {
        self.rendezvous_refresh_requested.remove(device);
    }

    /// The rendezvous providers were configured: every device is told them again, and the
    /// routes of every device with a session are looked up again.
    pub fn renew_rendezvous(&mut self)
        ensures
            final(self)@ == old(self)@.rendezvous_renewed(),
    {
        self.rendezvous_advertised = IdSet::new();
        self.rendezvous_refresh_requested.join(&self.sessions);
    }

    /// The routes of some devices are wanted.
    pub fn want_routes(&mut self, devices: &Vec<Id>)
        ensures
            final(self)@ == (BookView {
                refresh: old(self)@.refresh.union(devices@.to_set()),
                ..old(self)@
            }),
    {
        let ghost first = self@;
        let mut i: usize = 0;
        assert(first.refresh.union(devices@.take(0).to_set()) =~= first.refresh);
        while i < devices.len()
            invariant
                i <= devices@.len(),
                self@ == (BookView {
                    refresh: first.refresh.union(devices@.take(i as int).to_set()),
                    ..first
                }),
            decreases devices@.len() - i,
        {
            self.rendezvous_refresh_requested.insert(devices[i]);
            proof {
                let some = devices@.take(i as int);
                let more = devices@.take(i + 1);
                assert(more =~= some.push(devices@[i as int]));
                assert forall|x: Id| more.to_set().contains(x) == some.to_set().insert(
                    devices@[i as int],
                ).contains(x) by {
                    if some.contains(x) {
                        let k = choose|k: int| 0 <= k < some.len() && some[k] == x;
                        assert(more[k] == x);
                    }
                    assert(more[i as int] == devices@[i as int]);
                }
                assert(self@.refresh =~= first.refresh.union(more.to_set()));
            }
            i = i + 1;
        }
        assert(devices@.take(devices@.len() as int) =~= devices@);
    }

    /// What is published of the account changed: every device is told the discovery capability
    /// again.
    pub fn renew_discovery(&mut self)
        ensures
            final(self)@ == old(self)@.discovery_renewed(),
    {
        self.discovery_advertised = IdSet::new();
    }

    /// What a device was told counts for nothing any more, and its routes are looked up again.
    /// Whether there is a session with it does not change.
    pub fn forget_told(&mut self, device: Id)
        ensures
            final(self)@ == old(self)@.untold(device),
    {
        self.capabilities_advertised.remove(&device);
        self.discovery_advertised.remove(&device);
        self.rendezvous_advertised.remove(&device);
        self.rendezvous_refresh_requested.insert(device);
    }

    /// No handshake for rendezvous keys is wanted with a device any more.
    pub fn forget_rehandshake(&mut self, device: &Id)
        ensures
            final(self)@ == (BookView {
                rehandshake: old(self)@.rehandshake.remove(*device),
                ..old(self)@
            }),
    {
        self.rendezvous_rehandshake_requested.remove(device);
    }

    /// Install an inbound session and forget the devices that go with it.
    pub fn install(&mut self, device: Id, keep_prior: bool, cleanup: &Vec<Id>)
        ensures
            final(self)@ == old(self)@.without_all(
                cleanup@,
                cleanup@.len() as int,
            ).with_session(device, keep_prior),
    {
        let ghost first = self@;
        let mut i: usize = 0;
        while i < cleanup.len()
            invariant
                i <= cleanup@.len(),
                self@ == first.without_all(cleanup@, i as int),
            decreases cleanup@.len() - i,
        {
            self.drop_device(&cleanup[i]);
            i = i + 1;
        }
        if !keep_prior {
            self.capabilities_advertised.remove(&device);
            self.discovery_advertised.remove(&device);
            self.rendezvous_advertised.remove(&device);
            self.rendezvous_refresh_requested.insert(device);
            self.rendezvous_rehandshake_requested.remove(&device);
        }
        self.sessions.insert(device);
    }
}

/// Installing a session keeps every other session that is not cleaned up, and after it the
/// device has one.
pub proof fn law_install_keeps_other_sessions(
    book: BookView,
    device: Id,
    keep_prior: bool,
    cleanup: Seq<Id>,
    other: Id,
)
    requires
        book.sessions.contains(other),
        !cleanup.contains(other),
    ensures
        ({
            let after = book.without_all(cleanup, cleanup.len() as int).with_session(
                device,
                keep_prior,
            );
            after.sessions.contains(other) && after.sessions.contains(device)
        }),
{
    lemma_without_all_keeps(book, cleanup, cleanup.len() as int, other);
}

proof fn lemma_without_all_keeps(book: BookView, cleanup: Seq<Id>, n: int, other: Id)
    requires
        book.sessions.contains(other),
        !cleanup.contains(other),
        n <= cleanup.len(),
    ensures
        book.without_all(cleanup, n).sessions.contains(other),
    decreases n,
{
    if n > 0 {
        lemma_without_all_keeps(book, cleanup, n - 1, other);
        assert(cleanup[n - 1] != other) by {
            if cleanup[n - 1] == other {
                assert(cleanup.contains(other));
            }
        }
    }
}

// ---- Installing an inbound session ----

/// A queued envelope for a device that goes, or for a device whose session is replaced.
pub open spec fn goes_with_session(
    cleanup: Seq<Id>,
    replacing: bool,
    device: Id,
    item: QueueItem,
) -> bool {
    cleanup.contains(item.peer) || (replacing && item.peer == device)
}

/// What goes when an inbound session is installed.
pub struct InstallPlan {
    /// The prior session stays; nothing starts over.
    pub keep_prior: bool,
    /// Devices whose session goes.
    pub delete_sessions: Vec<Id>,
    /// Devices whose content capabilities go.
    pub delete_capabilities: Vec<Id>,
    /// Queued envelopes that go.
    pub delete_queue: Vec<QueueDelete>,
    /// Pairwise copies that start over.
    pub restart: RestartPlan,
    /// Group copies that are given up.
    pub retire: RetirePlan,
}

/// What becomes of an inbound session.
pub enum InstallDecision {
    /// It is refused.
    Reject,
    /// More would go than one transaction can hold; it has to wait.
    Later,
    /// It is installed.
    Install(InstallPlan),
}

fn holds_id(ids: &Vec<Id>, id: &Id) -> (res: bool)
    ensures
        res == ids@.contains(*id),
{
    let mut i: usize = 0;
    while i < ids.len()
        invariant
            i <= ids@.len(),
            forall|k: int| 0 <= k < i ==> #[trigger] ids@[k] != *id,
        decreases ids@.len() - i,
    {
        if same(&ids[i], id) {
            assert(ids@[i as int] == *id);
            return true;
        }
        i = i + 1;
    }
    false
}

/// The queued envelopes that go with an installed session.
fn session_queue(
    queue: &Vec<QueueItem>,
    cleanup: &Vec<Id>,
    replacing: bool,
    device: Id,
) -> (res: Vec<QueueDelete>)
    ensures
        res@ == deletions(
            queue@,
            |item: QueueItem| goes_with_session(cleanup@, replacing, device, item),
        ),
{
    let ghost gone = |item: QueueItem| goes_with_session(cleanup@, replacing, device, item);
    let mut res: Vec<QueueDelete> = Vec::new();
    let mut i: usize = 0;
    proof {
        lemma_deletions_none(queue@, gone);
    }
    while i < queue.len()
        invariant
            i <= queue@.len(),
            gone == (|item: QueueItem| goes_with_session(cleanup@, replacing, device, item)),
            res@ == deletions(queue@.take(i as int), gone),
        decreases queue@.len() - i,
    {
        let item = queue[i];
        proof {
            lemma_deletions_step(queue@, gone, i as int);
        }
        if holds_id(cleanup, &item.peer) || (replacing && same(&item.peer, &device)) {
            res.push(QueueDelete { sequence: item.sequence, content_id: item.content_id });
        }
        i = i + 1;
    }
    proof {
        crate::seqs::lemma_take_all(queue@);
    }
    res
}

/// The prior session is there and the inbound one replaces it.
pub open spec fn replaces(prior: Option<Id>, decision: HandshakeSessionDecision) -> bool {
    prior is Some && decision == HandshakeSessionDecision::AcceptInbound
}

/// The histories that a session concerns: none unless it replaces another.
pub open spec fn concerned<A>(all: Seq<A>, replacing: bool) -> Seq<A> {
    if replacing {
        all
    } else {
        Seq::empty()
    }
}

/// Decide what becomes of an inbound session with `device` of account `peer`, and what goes
/// with it. `cleanup` are the devices that a manifest took away, `stored` the devices with
/// a stored session, `hs` and `gs` the messages with the account and all group messages,
/// `max_rows` what one transaction can hold of each kind.
pub fn plan_install(
    local: Id,
    peer: Id,
    device: Id,
    prior: Option<Id>,
    intent: DeviceHandshakeIntent,
    cleanup: &Vec<Id>,
    stored: &IdSet,
    hs: &Vec<History>,
    gs: &Vec<GroupHistory>,
    queue: &Vec<QueueItem>,
    max_rows: usize,
) -> (res: Result<InstallDecision>)
    requires
        ascending(cleanup@),
    ensures
        ({
            let decision = session_decision(local, device, prior, intent);
            let replacing = replaces(prior, decision);
            let messages = concerned(hs@, replacing);
            let groups = concerned(gs@, replacing);
            match res {
                Err(e) => {
                    &&& e == NodeError::CorruptState
                    &&& decision != HandshakeSessionDecision::Reject
                    &&& !members_known(peer, device, groups)
                },
                Ok(InstallDecision::Reject) => decision == HandshakeSessionDecision::Reject,
                Ok(InstallDecision::Later) => {
                    &&& decision != HandshakeSessionDecision::Reject
                    &&& members_known(peer, device, groups)
                    &&& exceeds(peer, device, messages, groups, queue@, cleanup@, replacing, max_rows)
                },
                Ok(InstallDecision::Install(plan)) => {
                    &&& decision != HandshakeSessionDecision::Reject
                    &&& members_known(peer, device, groups)
                    &&& !exceeds(
                        peer,
                        device,
                        messages,
                        groups,
                        queue@,
                        cleanup@,
                        replacing,
                        max_rows,
                    )
                    &&& plan.keep_prior == (decision == HandshakeSessionDecision::KeepPrior)
                    &&& plan.delete_sessions@ == cleanup@.filter(|d: Id| stored@.contains(d))
                    &&& ascending(plan.delete_capabilities@)
                    &&& plan.delete_capabilities@.to_set() == if plan.keep_prior {
                        cleanup@.to_set()
                    } else {
                        cleanup@.to_set().insert(device)
                    }
                    &&& plan.delete_queue@ == deletions(
                        queue@,
                        |item: QueueItem| goes_with_session(cleanup@, replacing, device, item),
                    )
                    &&& plan.restart.follows((DeliveryRule::Renegotiate { device }), messages)
                    &&& plan.retire.deliveries@ == retired_all(
                        peer,
                        device,
                        groups,
                        groups.len() as int,
                    )
                    &&& plan.retire.members@ == members_moved(
                        peer,
                        device,
                        groups,
                        groups.len() as int,
                    )
                    &&& plan.retire.events@ == crate::settlement::member_events(
                        plan.retire.members@,
                    )
                },
            }
        }),
{
    let prior_ref: Option<&Id> = match &prior {
        Some(id) => Some(id),
        None => None,
    };
    let decision = decide_inbound_session(local, device, prior_ref, intent);
    let keep_prior = match decision {
        HandshakeSessionDecision::Reject => {
            return Ok(InstallDecision::Reject);
        },
        HandshakeSessionDecision::KeepPrior => true,
        HandshakeSessionDecision::AcceptInbound => false,
    };
    let replacing = prior.is_some() && !keep_prior;
    let none_h: Vec<History> = Vec::new();
    let none_g: Vec<GroupHistory> = Vec::new();
    assert(none_h@ =~= Seq::empty());
    assert(none_g@ =~= Seq::empty());
    let messages: &Vec<History> = if replacing { hs } else { &none_h };
    let groups: &Vec<GroupHistory> = if replacing { gs } else { &none_g };
    let restart = restart_for_replacement(messages, device);
    let retire = match retire_group_copies(groups, peer, device) {
        Ok(plan) => plan,
        Err(e) => {
            return Err(e);
        },
    };
    let delete_queue = session_queue(queue, cleanup, replacing, device);
    if delete_queue.len() > max_rows || restart.messages.len() > max_rows
        || restart.deliveries.len() > max_rows || retire.members.len() > max_rows
        || retire.deliveries.len() > max_rows {
        return Ok(InstallDecision::Later);
    }
    let ghost has_session = |d: Id| stored@.contains(d);
    let mut delete_sessions: Vec<Id> = Vec::new();
    let mut delete_capabilities: Vec<Id> = Vec::new();
    let mut i: usize = 0;
    proof {
        crate::seqs::lemma_filter_none(cleanup@, has_session);
    }
    while i < cleanup.len()
        invariant
            i <= cleanup@.len(),
            has_session == (|d: Id| stored@.contains(d)),
            delete_sessions@ == cleanup@.take(i as int).filter(has_session),
            ascending(cleanup@),
            delete_capabilities@ == cleanup@.take(i as int),
        decreases cleanup@.len() - i,
    {
        proof {
            crate::seqs::lemma_filter_step(cleanup@, has_session, i as int);
        }
        if stored.contains(&cleanup[i]) {
            delete_sessions.push(cleanup[i]);
        }
        delete_capabilities.push(cleanup[i]);
        assert(delete_capabilities@ =~= cleanup@.take(i + 1));
        i = i + 1;
    }
    proof {
        crate::seqs::lemma_take_all(cleanup@);
    }
    if !keep_prior {
        insert_id(&mut delete_capabilities, device);
    }
    Ok(
        InstallDecision::Install(
            InstallPlan {
                keep_prior,
                delete_sessions,
                delete_capabilities,
                delete_queue,
                restart,
                retire,
            },
        ),
    )
}

/// More goes with the session than one transaction can hold of some kind.
pub open spec fn exceeds(
    peer: Id,
    device: Id,
    messages: Seq<History>,
    groups: Seq<GroupHistory>,
    queue: Seq<QueueItem>,
    cleanup: Seq<Id>,
    replacing: bool,
    max_rows: usize,
) -> bool {
    let rule = DeliveryRule::Renegotiate { device };
    let n = messages.len() as int;
    let m = groups.len() as int;
    ||| deletions(
        queue,
        |item: QueueItem| goes_with_session(cleanup, replacing, device, item),
    ).len() > max_rows
    ||| crate::settlement::messages_moved(rule, messages, n).len() > max_rows
    ||| crate::settlement::restarted_all(rule, messages, n).len() > max_rows
    ||| members_moved(peer, device, groups, m).len() > max_rows
    ||| retired_all(peer, device, groups, m).len() > max_rows
}

/// A session that keeps the prior one changes no message.
pub proof fn law_kept_session_restarts_nothing(
    local: Id,
    device: Id,
    prior: Option<Id>,
    intent: DeviceHandshakeIntent,
    hs: Seq<History>,
)
    requires
        session_decision(local, device, prior, intent) == HandshakeSessionDecision::KeepPrior,
    ensures
        ({
            let messages = concerned(
                hs,
                replaces(prior, session_decision(local, device, prior, intent)),
            );
            crate::settlement::restarted_all(
                DeliveryRule::Renegotiate { device },
                messages,
                messages.len() as int,
            ) == Seq::<
                (crate::records::DeliveryRow, crate::records::DeliveryRow),
            >::empty()
        }),
{
}

// ---- Size of the transaction ----

/// Sum of the first `n` counts.
pub open spec fn sum_of(counts: Seq<usize>, n: int) -> int
    decreases n,
{
    if n <= 0 {
        0
    } else {
        sum_of(counts, n - 1) + counts[n - 1]
    }
}

/// Whether a transaction with the given numbers of changes is small enough. An error when
/// the numbers cannot even be added.
pub fn fits_transaction(counts: &Vec<usize>, max_mutations: usize) -> (res: Result<bool>)
    ensures
        match res {
            Ok(fits) => sum_of(counts@, counts@.len() as int) <= usize::MAX && fits == (sum_of(
                counts@,
                counts@.len() as int,
            ) <= max_mutations),
            Err(e) => e == NodeError::CorruptState && sum_of(counts@, counts@.len() as int)
                > usize::MAX,
        },
{
    let mut total: usize = 0;
    let mut i: usize = 0;
    while i < counts.len()
        invariant
            i <= counts@.len(),
            total == sum_of(counts@, i as int),
        decreases counts@.len() - i,
    {
        match total.checked_add(counts[i]) {
            Some(next) => {
                total = next;
            },
            None => {
                proof {
                    lemma_sum_grows(counts@, i + 1, counts@.len() as int);
                }
                return Err(NodeError::CorruptState);
            },
        }
        i = i + 1;
    }
    Ok(total <= max_mutations)
}

proof fn lemma_sum_grows(counts: Seq<usize>, a: int, b: int)
    requires
        0 <= a <= b <= counts.len(),
    ensures
        sum_of(counts, a) <= sum_of(counts, b),
    decreases b - a,
{
    if a < b {
        lemma_sum_grows(counts, a, b - 1);
    }
}

/// One where it holds, else none.
pub open spec fn one_if(holds: bool) -> usize {
    if holds {
        1
    } else {
        0
    }
}

fn count_if(holds: bool) -> (res: usize)
    ensures
        res == one_if(holds),
{
    if holds {
        1
    } else {
        0
    }
}

/// The numbers of changes that an installed session makes: the prekeys, the session, the
/// contact, the devices, everything that goes, the groups, what its first content brings, the
/// receipt, the note that the flight was received, the note that its receipt can be repeated,
/// and the stored flight.
pub fn install_counts(
    plan: &InstallPlan,
    vault_changed: bool,
    endpoints: usize,
    deleted_endpoints: usize,
    groups: usize,
    first: Option<&PreparedInbound>,
    media_transfers: usize,
    media_objects: usize,
    from_pending: bool,
) -> (res: Vec<usize>)
    ensures
        res@ == seq![
            one_if(vault_changed),
            1usize,
            1usize,
            endpoints,
            deleted_endpoints,
            plan.delete_sessions@.len() as usize,
            plan.delete_capabilities@.len() as usize,
            plan.delete_queue@.len() as usize,
            plan.restart.messages@.len() as usize,
            plan.restart.deliveries@.len() as usize,
            plan.retire.members@.len() as usize,
            plan.retire.deliveries@.len() as usize,
            groups,
            one_if(first matches Some(content) && content.message is Some),
            one_if(first matches Some(content) && content.ephemeral is Some),
            if first is Some {
                media_transfers
            } else {
                0
            },
            if first is Some {
                media_objects
            } else {
                0
            },
            one_if(plan.keep_prior || first is Some),
            1usize,
            one_if(plan.keep_prior || first is Some),
            one_if(from_pending),
        ],
{
    let answered = needs_receipt(plan.keep_prior, first.is_some());
    let (message, ephemeral) = match first {
        Some(content) => (content.message.is_some(), content.ephemeral.is_some()),
        None => (false, false),
    };
    let transfers: usize = if first.is_some() { media_transfers } else { 0 };
    let objects: usize = if first.is_some() { media_objects } else { 0 };
    let res: Vec<usize> = vec![
        count_if(vault_changed),
        1,
        1,
        endpoints,
        deleted_endpoints,
        plan.delete_sessions.len(),
        plan.delete_capabilities.len(),
        plan.delete_queue.len(),
        plan.restart.messages.len(),
        plan.restart.deliveries.len(),
        plan.retire.members.len(),
        plan.retire.deliveries.len(),
        groups,
        count_if(message),
        count_if(ephemeral),
        transfers,
        objects,
        count_if(answered),
        1,
        count_if(answered),
        count_if(from_pending),
    ];
    assert(res@ =~= seq![
        one_if(vault_changed),
        1usize,
        1usize,
        endpoints,
        deleted_endpoints,
        plan.delete_sessions@.len() as usize,
        plan.delete_capabilities@.len() as usize,
        plan.delete_queue@.len() as usize,
        plan.restart.messages@.len() as usize,
        plan.restart.deliveries@.len() as usize,
        plan.retire.members@.len() as usize,
        plan.retire.deliveries@.len() as usize,
        groups,
        one_if(first matches Some(content) && content.message is Some),
        one_if(first matches Some(content) && content.ephemeral is Some),
        if first is Some {
            media_transfers
        } else {
            0
        },
        if first is Some {
            media_objects
        } else {
            0
        },
        one_if(plan.keep_prior || first is Some),
        1usize,
        one_if(plan.keep_prior || first is Some),
        one_if(from_pending),
    ]);
    res
}

/// What is told once an inbound session is installed: the session unless the prior one
/// stays, then what started over, what was given up, and what the first content brought.
pub fn install_events(peer: Id, plan: &InstallPlan, first_content: &Vec<Event>) -> (res: Vec<Event>)
    ensures
        res@ == (if plan.keep_prior {
            Seq::<Event>::empty()
        } else {
            seq![Event::SessionEstablished { peer }]
        }) + plan.restart.events@ + plan.retire.events@ + first_content@,
{
    let mut res: Vec<Event> = Vec::new();
    if !plan.keep_prior {
        res.push(Event::SessionEstablished { peer });
    }
    assert(res@ =~= if plan.keep_prior {
        Seq::<Event>::empty()
    } else {
        seq![Event::SessionEstablished { peer }]
    });
    push_events(&mut res, &plan.restart.events);
    push_events(&mut res, &plan.retire.events);
    push_events(&mut res, first_content);
    res
}

/// Append events.
pub fn push_events(out: &mut Vec<Event>, more: &Vec<Event>)
    ensures
        final(out)@ == old(out)@ + more@,
{
    let ghost first = out@;
    let mut i: usize = 0;
    assert(first + more@.take(0) =~= first);
    while i < more.len()
        invariant
            i <= more@.len(),
            out@ == first + more@.take(i as int),
        decreases more@.len() - i,
    {
        out.push(more[i]);
        i = i + 1;
        assert(out@ =~= first + more@.take(i as int));
    }
    assert(more@.take(more@.len() as int) =~= more@);
}

/// A receipt answers an inbound first flight when it brought content or when the prior
/// session stays.
pub fn needs_receipt(keep_prior: bool, brought_content: bool) -> (res: bool)
    ensures
        res == (keep_prior || brought_content),
{
    keep_prior || brought_content
}

// ---- Laws of the session memory ----

/// A dropped device is forgotten altogether, and no other device is.
pub proof fn law_dropped_devices_are_forgotten(book: BookView, device: Id, other: Id)
    requires
        other != device,
    ensures
        ({
            let after = book.without(device);
            &&& !after.sessions.contains(device)
            &&& !after.capabilities.contains(device)
            &&& !after.discovery.contains(device)
            &&& !after.rendezvous.contains(device)
            &&& !after.refresh.contains(device)
            &&& !after.rehandshake.contains(device)
            &&& after.sessions.contains(other) == book.sessions.contains(other)
            &&& after.capabilities.contains(other) == book.capabilities.contains(other)
            &&& after.discovery.contains(other) == book.discovery.contains(other)
            &&& after.rendezvous.contains(other) == book.rendezvous.contains(other)
            &&& after.refresh.contains(other) == book.refresh.contains(other)
            &&& after.rehandshake.contains(other) == book.rehandshake.contains(other)
        }),
{
}

/// Every device of the list is dropped.
pub proof fn law_all_dropped_devices_are_forgotten(
    book: BookView,
    devices: Seq<Id>,
    n: int,
    i: int,
)
    requires
        0 <= i < n <= devices.len(),
    ensures
        ({
            let after = book.without_all(devices, n);
            &&& !after.sessions.contains(devices[i])
            &&& !after.capabilities.contains(devices[i])
            &&& !after.discovery.contains(devices[i])
            &&& !after.rendezvous.contains(devices[i])
            &&& !after.refresh.contains(devices[i])
            &&& !after.rehandshake.contains(devices[i])
        }),
    decreases n,
{
    if i < n - 1 {
        law_all_dropped_devices_are_forgotten(book, devices, n - 1, i);
    }
}

/// A device that was told nothing yet is told everything again: its advertisements are
/// forgotten and its routes wanted, while its session and every other device stay.
pub proof fn law_untold_devices_are_told_again(book: BookView, device: Id, other: Id)
    requires
        other != device,
    ensures
        ({
            let after = book.untold(device);
            &&& !after.capabilities.contains(device)
            &&& !after.discovery.contains(device)
            &&& !after.rendezvous.contains(device)
            &&& after.refresh.contains(device)
            &&& after.sessions == book.sessions
            &&& after.rehandshake == book.rehandshake
            &&& after.capabilities.contains(other) == book.capabilities.contains(other)
            &&& after.discovery.contains(other) == book.discovery.contains(other)
            &&& after.rendezvous.contains(other) == book.rendezvous.contains(other)
            &&& after.refresh.contains(other) == book.refresh.contains(other)
        }),
{
}

/// Renewed routes are told to every device again, and asked of every device with a session.
pub proof fn law_renewal_concerns_every_device(book: BookView, device: Id)
    ensures
        !book.discovery_renewed().discovery.contains(device),
        book.discovery_renewed().sessions == book.sessions,
        book.discovery_renewed().capabilities == book.capabilities,
        book.discovery_renewed().rendezvous == book.rendezvous,
        book.discovery_renewed().refresh == book.refresh,
        book.discovery_renewed().rehandshake == book.rehandshake,
        !book.rendezvous_renewed().rendezvous.contains(device),
        book.rendezvous_renewed().refresh.contains(device) == (book.refresh.contains(device)
            || book.sessions.contains(device)),
        book.rendezvous_renewed().sessions == book.sessions,
        book.rendezvous_renewed().capabilities == book.capabilities,
        book.rendezvous_renewed().discovery == book.discovery,
        book.rendezvous_renewed().rehandshake == book.rehandshake,
{
}

/// Sending leaves a session with the device; a first flight starts a new one, which has been
/// told nothing.
pub proof fn law_sending_keeps_the_session(book: BookView, device: Id)
    ensures
        book.with_sent(device, false).sessions == book.sessions.insert(device),
        book.with_sent(device, false).capabilities == book.capabilities,
        book.with_sent(device, false).discovery == book.discovery,
        book.with_sent(device, false).rendezvous == book.rendezvous,
        book.with_sent(device, false).refresh == book.refresh,
        book.with_sent(device, true).sessions.contains(device),
        !book.with_sent(device, true).capabilities.contains(device),
        !book.with_sent(device, true).discovery.contains(device),
        !book.with_sent(device, true).rendezvous.contains(device),
        book.with_sent(device, true).refresh.contains(device),
        book.with_sent(device, true).rehandshake == book.rehandshake,
{
}

/// An installed session that replaces the prior one has been told nothing; beside a prior
/// one that is kept nothing changes.
pub proof fn law_installed_sessions_start_untold(book: BookView, device: Id, other: Id)
    requires
        other != device,
    ensures
        book.with_session(device, true) == (BookView {
            sessions: book.sessions.insert(device),
            ..book
        }),
        ({
            let after = book.with_session(device, false);
            &&& after.sessions.contains(device)
            &&& !after.capabilities.contains(device)
            &&& !after.discovery.contains(device)
            &&& !after.rendezvous.contains(device)
            &&& after.refresh.contains(device)
            &&& !after.rehandshake.contains(device)
            &&& after.sessions.contains(other) == book.sessions.contains(other)
            &&& after.capabilities.contains(other) == book.capabilities.contains(other)
            &&& after.discovery.contains(other) == book.discovery.contains(other)
            &&& after.rendezvous.contains(other) == book.rendezvous.contains(other)
            &&& after.refresh.contains(other) == book.refresh.contains(other)
            &&& after.rehandshake.contains(other) == book.rehandshake.contains(other)
        }),
{
}

/// A new session takes the queue of the devices that go, and that of its own device when it
/// replaces a session; nothing else.
pub proof fn law_queue_of_replaced_sessions(
    cleanup: Seq<Id>,
    replacing: bool,
    device: Id,
    item: QueueItem,
)
    ensures
        cleanup.contains(item.peer) ==> goes_with_session(cleanup, replacing, device, item),
        replacing && item.peer == device ==> goes_with_session(cleanup, replacing, device, item),
        !cleanup.contains(item.peer) && item.peer != device ==> !goes_with_session(
            cleanup,
            replacing,
            device,
            item,
        ),
        !cleanup.contains(item.peer) && !replacing ==> !goes_with_session(
            cleanup,
            replacing,
            device,
            item,
        ),
{
}

/// A session is replaced exactly where there was one and the inbound one is accepted; then
/// all messages are looked at, else none.
pub proof fn law_when_a_session_is_replaced(
    prior: Option<Id>,
    decision: HandshakeSessionDecision,
    hs: Seq<History>,
)
    ensures
        prior is None ==> !replaces(prior, decision),
        decision == HandshakeSessionDecision::KeepPrior ==> !replaces(prior, decision),
        decision == HandshakeSessionDecision::Reject ==> !replaces(prior, decision),
        prior is Some && decision == HandshakeSessionDecision::AcceptInbound ==> replaces(
            prior,
            decision,
        ),
        concerned(hs, true) == hs,
        concerned(hs, false).len() == 0,
{
}

/// An installation that touches too many rows waits, whichever kind of row it is.
pub proof fn law_large_installations_wait(
    peer: Id,
    device: Id,
    messages: Seq<History>,
    groups: Seq<GroupHistory>,
    queue: Seq<QueueItem>,
    cleanup: Seq<Id>,
    replacing: bool,
    max_rows: usize,
)
    ensures
        ({
            let rule = DeliveryRule::Renegotiate { device };
            let n = messages.len() as int;
            let m = groups.len() as int;
            let gone = |item: QueueItem| goes_with_session(cleanup, replacing, device, item);
            let res = exceeds(
                peer,
                device,
                messages,
                groups,
                queue,
                cleanup,
                replacing,
                max_rows,
            );
            &&& queue.filter(gone).len() > max_rows ==> res
            &&& crate::settlement::messages_moved(rule, messages, n).len() > max_rows ==> res
            &&& crate::settlement::restarted_all(rule, messages, n).len() > max_rows ==> res
            &&& members_moved(peer, device, groups, m).len() > max_rows ==> res
            &&& retired_all(peer, device, groups, m).len() > max_rows ==> res
            &&& res ==> queue.filter(gone).len() > max_rows || crate::settlement::messages_moved(
                rule,
                messages,
                n,
            ).len() > max_rows || crate::settlement::restarted_all(rule, messages, n).len()
                > max_rows || members_moved(peer, device, groups, m).len() > max_rows
                || retired_all(peer, device, groups, m).len() > max_rows
        }),
{
    let gone = |item: QueueItem| goes_with_session(cleanup, replacing, device, item);
    assert(deletions(queue, gone).len() == queue.filter(gone).len());
}

/// The size of a transaction is the sum of its counts: it is the same in parts.
pub proof fn law_transaction_sizes_add_up(a: Seq<usize>, b: Seq<usize>)
    ensures
        sum_of(a + b, (a + b).len() as int) == sum_of(a, a.len() as int) + sum_of(
            b,
            b.len() as int,
        ),
        forall|c: usize| sum_of(#[trigger] seq![c], 1) == c,
{
    lemma_sum_parts(a, b, b.len() as int);
    assert forall|c: usize| sum_of(#[trigger] seq![c], 1) == c by {
        reveal_with_fuel(sum_of, 2);
    }
}

proof fn lemma_sum_parts(a: Seq<usize>, b: Seq<usize>, n: int)
    requires
        0 <= n <= b.len(),
    ensures
        sum_of(a + b, a.len() + n) == sum_of(a, a.len() as int) + sum_of(b, n),
    decreases n,
{
    if n > 0 {
        lemma_sum_parts(a, b, n - 1);
        assert((a + b)[a.len() + n - 1] == b[n - 1]);
    } else {
        lemma_sum_prefix(a, b, a.len() as int);
    }
}

proof fn lemma_sum_prefix(a: Seq<usize>, b: Seq<usize>, n: int)
    requires
        0 <= n <= a.len(),
    ensures
        sum_of(a + b, n) == sum_of(a, n),
    decreases n,
{
    if n > 0 {
        lemma_sum_prefix(a, b, n - 1);
        assert((a + b)[n - 1] == a[n - 1]);
    }
}

/// What happens is one mutation, what does not is none.
pub proof fn law_single_mutations()
    ensures
        one_if(true) == 1,
        one_if(false) == 0,
{
}

} // verus!
