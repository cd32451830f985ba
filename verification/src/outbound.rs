//! What sending a message, or a control, comes to: which devices get a copy and how, and
//! what is recorded.

use vstd::prelude::*;
use vstd::utf8::valid_utf8;

use crate::bytes::{same, ContentId, Id};
use crate::content::{check_pairwise, pairwise_refusal, Content};
use crate::delivery::{first_wire, first_wire_id};
use crate::endpoints::{ascending, insert_id};
use crate::error::{NodeError, Result};
use crate::records::{
    DeliveryRow, DeliveryState, Direction, EphemeralConversation, EphemeralState, Event, MessageRow,
    QueueClass,
};
use crate::upkeep::EphemeralRow;
use crate::wire::is_utf8;

verus! {

/// A device that a message may go to.
#[derive(Clone, Copy, Debug, PartialEq, Eq)]
pub struct SendRoute {
    /// The device.
    pub device: Id,
    /// There is a session with it.
    pub has_session: bool,
    /// A prekey bundle of it is on record and valid now.
    pub valid_bundle: bool,
}

/// How a copy goes to a device.
#[derive(Clone, Copy, Debug, PartialEq, Eq, Structural)]
pub enum RouteUse {
    /// Through the session.
    Session,
    /// With a first flight, which sets up a session.
    FirstFlight,
    /// Not now.
    Unreachable,
}

/// What a device gets.
#[derive(Clone, Copy, Debug, PartialEq, Eq)]
pub struct RouteStep {
    /// The device.
    pub device: Id,
    /// How the copy goes to it.
    pub how: RouteUse,
}

/// The first record of a device, counted from `from`.
pub open spec fn route_of(routes: Seq<SendRoute>, device: Id, from: int) -> int
    decreases routes.len() - from,
{
    if from >= routes.len() || routes[from].device == device {
        from
    } else {
        route_of(routes, device, from + 1)
    }
}

proof fn lemma_route_of(routes: Seq<SendRoute>, device: Id, from: int)
    requires
        0 <= from <= routes.len(),
    ensures
        from <= route_of(routes, device, from) <= routes.len(),
        route_of(routes, device, from) < routes.len() ==> routes[route_of(
            routes,
            device,
            from,
        )].device == device,
        forall|k: int|
            from <= k < route_of(routes, device, from) ==> (#[trigger] routes[k]).device != device,
    decreases routes.len() - from,
{
    if from < routes.len() && routes[from].device != device {
        lemma_route_of(routes, device, from + 1);
    }
}

proof fn lemma_route_skip(routes: Seq<SendRoute>, device: Id, from: int, to: int)
    requires
        0 <= from <= to <= routes.len(),
        forall|k: int| from <= k < to ==> (#[trigger] routes[k]).device != device,
    ensures
        route_of(routes, device, from) == route_of(routes, device, to),
    decreases to - from,
{
    if from < to {
        lemma_route_skip(routes, device, from + 1, to);
    }
}

/// The routes that a message has: the devices on record or, where none is, the account
/// itself.
pub open spec fn routes_used(endpoints: Seq<SendRoute>, fallback: SendRoute) -> Seq<SendRoute> {
    if endpoints.len() == 0 {
        seq![fallback]
    } else {
        endpoints
    }
}

/// The devices of some routes.
pub open spec fn devices_of(routes: Seq<SendRoute>) -> Set<Id> {
    Set::new(|id: Id| exists|i: int| 0 <= i < routes.len() && (#[trigger] routes[i]).device == id)
}

/// A route can be used for something.
pub open spec fn usable(route: SendRoute) -> bool {
    route.has_session || route.valid_bundle
}

/// How a copy goes over a route. Retained content never rides on a first flight.
pub open spec fn use_of(route: SendRoute, retained: bool) -> RouteUse {
    if route.has_session {
        RouteUse::Session
    } else if !retained && route.valid_bundle {
        RouteUse::FirstFlight
    } else {
        RouteUse::Unreachable
    }
}

/// What the devices of some routes get: each once, by ascending identity.
pub open spec fn steps_for(steps: Seq<RouteStep>, routes: Seq<SendRoute>, retained: bool) -> bool {
    &&& ascending(steps.map_values(|s: RouteStep| s.device))
    &&& steps.map_values(|s: RouteStep| s.device).to_set() == devices_of(routes)
    &&& forall|k: int|
        0 <= k < steps.len() ==> {
            let at = route_of(routes, (#[trigger] steps[k]).device, 0);
            at < routes.len() && steps[k].how == use_of(routes[at], retained)
        }
}

/// The devices of some routes, by ascending identity.
fn sorted_devices(routes: &Vec<SendRoute>) -> (res: Vec<Id>)
    ensures
        ascending(res@),
        res@.to_set() == devices_of(routes@),
        res@.len() <= routes@.len(),
{
    let mut ids: Vec<Id> = Vec::new();
    let mut i: usize = 0;
    proof {
        assert(ids@.to_set() =~= devices_of(routes@.take(0)));
    }
    while i < routes.len()
        invariant
            i <= routes@.len(),
            ascending(ids@),
            ids@.len() <= i,
            ids@.to_set() == devices_of(routes@.take(i as int)),
        decreases routes@.len() - i,
    {
        insert_id(&mut ids, routes[i].device);
        proof {
            let front = routes@.take(i as int);
            let more = routes@.take(i + 1);
            let own = routes@[i as int].device;
            assert forall|id: Id| devices_of(more).contains(id) == (devices_of(front).contains(id)
                || id == own) by {
                if devices_of(more).contains(id) {
                    let k = choose|k: int|
                        0 <= k < more.len() && (#[trigger] more[k]).device == id;
                    if k < i {
                        assert(front[k].device == id);
                    }
                }
                if devices_of(front).contains(id) {
                    let k = choose|k: int|
                        0 <= k < front.len() && (#[trigger] front[k]).device == id;
                    assert(more[k].device == id);
                }
                if id == own {
                    assert(more[i as int].device == id);
                }
            }
            assert(devices_of(more) =~= devices_of(front).insert(own));
        }
        i = i + 1;
    }
    assert(routes@.take(i as int) =~= routes@);
    ids
}

fn find_route(routes: &Vec<SendRoute>, device: &Id) -> (at: usize)
    ensures
        at == route_of(routes@, *device, 0),
        at <= routes@.len(),
{
    let mut at: usize = 0;
    while at < routes.len()
        invariant
            at <= routes@.len(),
            forall|k: int| 0 <= k < at ==> (#[trigger] routes@[k]).device != *device,
        decreases routes@.len() - at,
    {
        if same(&routes[at].device, device) {
            proof {
                lemma_route_skip(routes@, *device, 0, at as int);
            }
            return at;
        }
        at = at + 1;
    }
    proof {
        lemma_route_skip(routes@, *device, 0, at as int);
    }
    at
}

/// What speaks against sending content to a contact, in the order in which it is looked at.
pub open spec fn send_refusal(
    content: Content,
    is_contact: bool,
    must_verify: bool,
    routes: Seq<SendRoute>,
    retained: bool,
    max_devices: usize,
) -> Option<NodeError> {
    if let Some(e) = pairwise_refusal(content) {
        Some(e)
    } else if !is_contact {
        Some(NodeError::UnknownPeer)
    } else if must_verify {
        Some(NodeError::ContactReverificationRequired)
    } else if devices_of(routes).len() > max_devices {
        Some(NodeError::CorruptState)
    } else if forall|i: int|
        0 <= i < routes.len() && #[trigger] is_first_route(routes, i) ==> !usable(routes[i]) {
        Some(NodeError::NoSession)
    } else if forall|i: int|
        0 <= i < routes.len() && #[trigger] is_first_route(routes, i) ==> use_of(
            routes[i],
            retained,
        ) == RouteUse::Unreachable {
        Some(NodeError::EphemeralUnsupported)
    } else {
        None
    }
}

/// The record at `i` is the first of its device: it is the one that counts.
pub open spec fn is_first_route(routes: Seq<SendRoute>, i: int) -> bool {
    route_of(routes, routes[i].device, 0) == i
}

proof fn lemma_first_routes(routes: Seq<SendRoute>, device: Id)
    requires
        devices_of(routes).contains(device),
    ensures
        0 <= route_of(routes, device, 0) < routes.len(),
        routes[route_of(routes, device, 0)].device == device,
        is_first_route(routes, route_of(routes, device, 0)),
{
    lemma_route_of(routes, device, 0);
    let k = choose|k: int| 0 <= k < routes.len() && (#[trigger] routes[k]).device == device;
    assert(routes[k].device == device);
}

/// An ascending list has as many entries as its set.
pub proof fn lemma_ascending_len(ids: Seq<Id>)
    requires
        ascending(ids),
    ensures
        ids.no_duplicates(),
        ids.to_set().len() == ids.len(),
{
    assert forall|i: int, j: int| 0 <= i < ids.len() && 0 <= j < ids.len() && i != j implies ids[i]
        != ids[j] by {
        crate::bytes::lemma_before_irreflexive(ids[i]@, 0);
        if i < j {
            assert(crate::bytes::bytes_before(ids[i]@, ids[j]@));
        } else {
            assert(crate::bytes::bytes_before(ids[j]@, ids[i]@));
        }
    }
    ids.unique_seq_to_set();
}

/// Decide what each device of a contact gets of a message, or why nothing is sent.
pub fn send_message(
    content: &Content,
    is_contact: bool,
    must_verify: bool,
    endpoints: &Vec<SendRoute>,
    fallback: SendRoute,
    retained: bool,
    max_devices: usize,
) -> (res: Result<Vec<RouteStep>>)
    ensures
        ({
            let routes = routes_used(endpoints@, fallback);
            let refusal = send_refusal(
                *content,
                is_contact,
                must_verify,
                routes,
                retained,
                max_devices,
            );
            match res {
                Ok(steps) => refusal is None && steps_for(steps@, routes, retained),
                Err(e) => refusal == Some(e),
            }
        }),
{
    check_pairwise(content)?;
    if !is_contact {
        return Err(NodeError::UnknownPeer);
    }
    if must_verify {
        return Err(NodeError::ContactReverificationRequired);
    }
    let mut routes: Vec<SendRoute> = Vec::new();
    let mut i: usize = 0;
    while i < endpoints.len()
        invariant
            i <= endpoints@.len(),
            routes@ == endpoints@.take(i as int),
        decreases endpoints@.len() - i,
    {
        routes.push(endpoints[i]);
        assert(routes@ =~= endpoints@.take(i + 1));
        i = i + 1;
    }
    assert(endpoints@.take(i as int) =~= endpoints@);
    if routes.len() == 0 {
        routes.push(fallback);
    }
    assert(routes@ =~= routes_used(endpoints@, fallback));
    let ids = sorted_devices(&routes);
    proof {
        lemma_ascending_len(ids@);
    }
    if ids.len() > max_devices {
        return Err(NodeError::CorruptState);
    }
    let mut steps: Vec<RouteStep> = Vec::new();
    let mut some_usable = false;
    let mut some_reached = false;
    let mut k: usize = 0;
    while k < ids.len()
        invariant
            k <= ids@.len(),
            ids@.to_set() == devices_of(routes@),
            steps@.len() == k,
            forall|m: int| 0 <= m < k ==> (#[trigger] steps@[m]).device == ids@[m],
            forall|m: int|
                0 <= m < k ==> {
                    let at = route_of(routes@, (#[trigger] steps@[m]).device, 0);
                    at < routes@.len() && steps@[m].how == use_of(routes@[at], retained)
                },
            some_usable == exists|m: int|
                0 <= m < k && usable(routes@[route_of(routes@, #[trigger] ids@[m], 0)]),
            some_reached == exists|m: int|
                0 <= m < k && use_of(routes@[route_of(routes@, #[trigger] ids@[m], 0)], retained)
                    != RouteUse::Unreachable,
        decreases ids@.len() - k,
    {
        let at = find_route(&routes, &ids[k]);
        proof {
            assert(ids@.to_set().contains(ids@[k as int]));
            lemma_first_routes(routes@, ids@[k as int]);
        }
        let route = routes[at];
        let how = if route.has_session {
            RouteUse::Session
        } else if !retained && route.valid_bundle {
            RouteUse::FirstFlight
        } else {
            RouteUse::Unreachable
        };
        let ghost was_usable = some_usable;
        let ghost was_reached = some_reached;
        if route.has_session || route.valid_bundle {
            some_usable = true;
        }
        match how {
            RouteUse::Unreachable => {},
            _ => {
                some_reached = true;
            },
        }
        steps.push(RouteStep { device: ids[k], how });
        proof {
            if usable(route) {
                assert(usable(routes@[route_of(routes@, ids@[k as int], 0)]));
            }
            if how != RouteUse::Unreachable {
                assert(use_of(routes@[route_of(routes@, ids@[k as int], 0)], retained)
                    != RouteUse::Unreachable);
            }
            if was_usable {
                let m = choose|m: int|
                    0 <= m < k && usable(routes@[route_of(routes@, #[trigger] ids@[m], 0)]);
                assert(usable(routes@[route_of(routes@, ids@[m], 0)]));
            }
            if was_reached {
                let m = choose|m: int|
                    0 <= m < k && use_of(
                        routes@[route_of(routes@, #[trigger] ids@[m], 0)],
                        retained,
                    ) != RouteUse::Unreachable;
                assert(use_of(routes@[route_of(routes@, ids@[m], 0)], retained)
                    != RouteUse::Unreachable);
            }
        }
        k = k + 1;
    }
    proof {
        assert forall|i: int|
            0 <= i < routes@.len() && #[trigger] is_first_route(routes@, i) implies exists|m: int|
            0 <= m < ids@.len() && ids@[m] == routes@[i].device by {
            assert(routes@[i].device == routes@[i].device);
            assert(devices_of(routes@).contains(routes@[i].device));
            assert(ids@.to_set().contains(routes@[i].device));
        }
        if some_usable {
            let m = choose|m: int|
                0 <= m < ids@.len() && usable(routes@[route_of(routes@, #[trigger] ids@[m], 0)]);
            assert(ids@.to_set().contains(ids@[m]));
            lemma_first_routes(routes@, ids@[m]);
            assert(is_first_route(routes@, route_of(routes@, ids@[m], 0)));
        } else {
            assert forall|i: int|
                0 <= i < routes@.len() && #[trigger] is_first_route(routes@, i) implies !usable(
                routes@[i],
            ) by {
                let m = choose|m: int| 0 <= m < ids@.len() && ids@[m] == routes@[i].device;
                assert(!usable(routes@[route_of(routes@, ids@[m], 0)]));
            }
        }
        if some_reached {
            let m = choose|m: int|
                0 <= m < ids@.len() && use_of(
                    routes@[route_of(routes@, #[trigger] ids@[m], 0)],
                    retained,
                ) != RouteUse::Unreachable;
            assert(ids@.to_set().contains(ids@[m]));
            lemma_first_routes(routes@, ids@[m]);
            assert(is_first_route(routes@, route_of(routes@, ids@[m], 0)));
        } else {
            assert forall|i: int|
                0 <= i < routes@.len() && #[trigger] is_first_route(routes@, i) implies use_of(
                routes@[i],
                retained,
            ) == RouteUse::Unreachable by {
                let m = choose|m: int| 0 <= m < ids@.len() && ids@[m] == routes@[i].device;
                assert(use_of(routes@[route_of(routes@, ids@[m], 0)], retained)
                    == RouteUse::Unreachable);
            }
        }
        assert(steps@.map_values(|s: RouteStep| s.device) =~= ids@);
    }
    if !some_usable {
        return Err(NodeError::NoSession);
    }
    if !some_reached {
        return Err(NodeError::EphemeralUnsupported);
    }
    Ok(steps)
}

/// Every device on record gets a copy or a place for one, exactly once.
pub proof fn law_every_device_has_its_copy(
    steps: Seq<RouteStep>,
    routes: Seq<SendRoute>,
    retained: bool,
    i: int,
)
    requires
        steps_for(steps, routes, retained),
        0 <= i < routes.len(),
    ensures
        exists|k: int| 0 <= k < steps.len() && (#[trigger] steps[k]).device == routes[i].device,
        forall|k: int, m: int|
            0 <= k < m < steps.len() ==> (#[trigger] steps[k]).device != (
            #[trigger] steps[m]).device,
{
    let ids = steps.map_values(|s: RouteStep| s.device);
    assert(routes[i].device == routes[i].device);
    assert(devices_of(routes).contains(routes[i].device));
    assert(ids.to_set().contains(routes[i].device));
    let k = choose|k: int| 0 <= k < ids.len() && ids[k] == routes[i].device;
    assert(steps[k].device == routes[i].device);
    lemma_ascending_len(ids);
    assert forall|k: int, m: int| 0 <= k < m < steps.len() implies (#[trigger] steps[k]).device != (
    #[trigger] steps[m]).device by {
        assert(ids[k] != ids[m]);
    }
}

/// Retained content only ever goes through sessions that are there already.
pub proof fn law_retained_content_rides_no_first_flight(
    steps: Seq<RouteStep>,
    routes: Seq<SendRoute>,
    k: int,
)
    requires
        steps_for(steps, routes, true),
        0 <= k < steps.len(),
    ensures
        steps[k].how != RouteUse::FirstFlight,
{
    let s = steps[k];
}

// ---- Records ----

/// An item to be queued.
#[derive(Clone, Copy, Debug, PartialEq, Eq)]
pub struct NewItem {
    /// Device it is for.
    pub peer: Id,
    /// Message that it carries.
    pub msg_id: Option<ContentId>,
    /// Urgency.
    pub class: QueueClass,
    /// When it counts as queued.
    pub created_at: u64,
    /// Failed attempts so far.
    pub attempts: u32,
    /// Earliest attempt.
    pub next_attempt_at: u64,
    /// Content identity of its envelope.
    pub content_id: ContentId,
}

/// What sending a message records.
pub struct SentMessage {
    /// The message.
    pub message: MessageRow,
    /// One copy for each device.
    pub deliveries: Vec<DeliveryRow>,
    /// What is queued.
    pub queue: Vec<NewItem>,
    /// Devices whose capabilities are not known any more.
    pub clear_capabilities: Vec<Id>,
    /// Reset markers that are done with.
    pub clear_reset_markers: Vec<Id>,
    /// What is told.
    pub events: Vec<Event>,
}

/// The copies of a message. `wires` holds the envelope made for each device, where one was.
pub open spec fn new_deliveries(
    id: ContentId,
    peer: Id,
    steps: Seq<RouteStep>,
    wires: Seq<Option<ContentId>>,
) -> Seq<DeliveryRow> {
    Seq::new(
        steps.len(),
        |k: int|
            DeliveryRow {
                message: id,
                account: peer,
                device: steps[k].device,
                state: DeliveryState::Queued,
                wire_id: wires[k],
            },
    )
}

/// A message as it is persisted before any envelope of it is made.
pub struct QueuedMessage {
    /// The message.
    pub message: MessageRow,
    /// One copy for each device.
    pub deliveries: Vec<DeliveryRow>,
}

/// No envelope is made for any of `n` devices.
pub open spec fn no_envelopes(n: nat) -> Seq<Option<ContentId>> {
    Seq::new(n, |k: int| None::<ContentId>)
}

/// The rows of a message before anything is encrypted: it is queued, and so is its copy for
/// each device.
pub fn queue_message(id: ContentId, peer: Id, timestamp: u64, steps: &Vec<RouteStep>) -> (res:
    QueuedMessage)
    ensures
        res.message == (MessageRow {
            id,
            peer,
            direction: Direction::Outbound,
            state: DeliveryState::Queued,
            timestamp,
            wire_id: None,
        }),
        res.deliveries@ == new_deliveries(id, peer, steps@, no_envelopes(steps@.len())),
{
    let mut deliveries: Vec<DeliveryRow> = Vec::new();
    let mut k: usize = 0;
    while k < steps.len()
        invariant
            k <= steps@.len(),
            deliveries@.len() == k,
            forall|m: int|
                0 <= m < k ==> #[trigger] deliveries@[m] == new_deliveries(
                    id,
                    peer,
                    steps@,
                    no_envelopes(steps@.len()),
                )[m],
        decreases steps@.len() - k,
    {
        deliveries.push(
            DeliveryRow {
                message: id,
                account: peer,
                device: steps[k].device,
                state: DeliveryState::Queued,
                wire_id: None,
            },
        );
        k = k + 1;
    }
    assert(deliveries@ =~= new_deliveries(id, peer, steps@, no_envelopes(steps@.len())));
    let message = MessageRow {
        id,
        peer,
        direction: Direction::Outbound,
        state: DeliveryState::Queued,
        timestamp,
        wire_id: None,
    };
    QueuedMessage { message, deliveries }
}

/// Making envelopes changes nothing of a message but which envelopes carry it: it and all its
/// copies are queued before, and stay queued whatever envelopes are made.
pub proof fn law_messages_are_queued_before_their_envelopes(
    id: ContentId,
    peer: Id,
    steps: Seq<RouteStep>,
    wires: Seq<Option<ContentId>>,
)
    requires
        wires.len() == steps.len(),
    ensures
        ({
            let before = new_deliveries(id, peer, steps, no_envelopes(steps.len()));
            let after = new_deliveries(id, peer, steps, wires);
            &&& first_wire(before, steps.len() as int) is None
            &&& after.len() == before.len()
            &&& forall|k: int|
                0 <= k < after.len() ==> {
                    &&& before[k].state == DeliveryState::Queued
                    &&& #[trigger] after[k] == (DeliveryRow { wire_id: wires[k], ..before[k] })
                }
        }),
{
    lemma_no_wire(id, peer, steps, steps.len() as int);
}

proof fn lemma_no_wire(id: ContentId, peer: Id, steps: Seq<RouteStep>, n: int)
    requires
        0 <= n <= steps.len(),
    ensures
        first_wire(new_deliveries(id, peer, steps, no_envelopes(steps.len())), n) is None,
    decreases n,
{
    if n > 0 {
        lemma_no_wire(id, peer, steps, n - 1);
    }
}

/// What has to disappear with a message that is sent: a record for text that disappears,
/// nothing for other content.
pub fn sent_note(content: &Content, me: Id, peer: Id) -> (res: Option<EphemeralRow>)
    ensures
        match *content {
            Content::DisappearingText { id, expires_at, .. } => {
                &&& res matches Some(row)
                &&& row.conversation == EphemeralConversation::Pairwise(peer)
                &&& row.author == me
                &&& row.content_id == id
                &&& row.expires_at == expires_at
                &&& row.state == EphemeralState::Active
                &&& row.transfer_ids@ == Seq::<ContentId>::empty()
            },
            _ => res is None,
        },
{
    match content {
        Content::DisappearingText { id, expires_at, .. } => Some(
            EphemeralRow {
                conversation: EphemeralConversation::Pairwise(peer),
                author: me,
                content_id: *id,
                expires_at: *expires_at,
                state: EphemeralState::Active,
                transfer_ids: Vec::new(),
            },
        ),
        _ => None,
    }
}

/// The items that the first `n` copies put into the queue.
pub open spec fn new_items(
    id: ContentId,
    steps: Seq<RouteStep>,
    wires: Seq<Option<ContentId>>,
    now: u64,
    n: int,
) -> Seq<NewItem>
    decreases n,
{
    if n <= 0 {
        Seq::empty()
    } else {
        let prior = new_items(id, steps, wires, now, n - 1);
        match wires[n - 1] {
            Some(content_id) => prior.push(
                NewItem {
                    peer: steps[n - 1].device,
                    msg_id: Some(id),
                    class: QueueClass::Interactive,
                    created_at: now,
                    attempts: 0,
                    next_attempt_at: now,
                    content_id,
                },
            ),
            None => prior,
        }
    }
}

/// The devices among the first `n` that get a first flight.
pub open spec fn first_flights(steps: Seq<RouteStep>, n: int) -> Seq<Id>
    decreases n,
{
    if n <= 0 {
        Seq::empty()
    } else if steps[n - 1].how == RouteUse::FirstFlight {
        first_flights(steps, n - 1).push(steps[n - 1].device)
    } else {
        first_flights(steps, n - 1)
    }
}

/// The device is reached now.
pub open spec fn reached(steps: Seq<RouteStep>, device: Id) -> bool {
    exists|k: int|
        0 <= k < steps.len() && (#[trigger] steps[k]).device == device && steps[k].how
            != RouteUse::Unreachable
}

fn is_reached(steps: &Vec<RouteStep>, device: &Id) -> (res: bool)
    ensures
        res == reached(steps@, *device),
{
    let mut k: usize = 0;
    while k < steps.len()
        invariant
            k <= steps@.len(),
            forall|m: int|
                0 <= m < k ==> !((#[trigger] steps@[m]).device == *device && steps@[m].how
                    != RouteUse::Unreachable),
        decreases steps@.len() - k,
    {
        let unreachable = match steps[k].how {
            RouteUse::Unreachable => true,
            _ => false,
        };
        if same(&steps[k].device, device) && !unreachable {
            assert(steps@[k as int].device == *device);
            return true;
        }
        k = k + 1;
    }
    false
}

/// Put together what sending a message records, once the envelopes are made.
pub fn record_message(
    id: ContentId,
    peer: Id,
    timestamp: u64,
    steps: &Vec<RouteStep>,
    wires: &Vec<Option<ContentId>>,
    reset_markers: &Vec<Id>,
    scheduled: bool,
    now: u64,
) -> (res: SentMessage)
    requires
        wires@.len() == steps@.len(),
    ensures
        res.message == (MessageRow {
            id,
            peer,
            direction: Direction::Outbound,
            state: DeliveryState::Queued,
            timestamp,
            wire_id: first_wire(new_deliveries(id, peer, steps@, wires@), steps@.len() as int),
        }),
        res.deliveries@ == new_deliveries(id, peer, steps@, wires@),
        res.queue@ == new_items(id, steps@, wires@, now, steps@.len() as int),
        res.clear_capabilities@ == first_flights(steps@, steps@.len() as int),
        res.clear_reset_markers@ == reset_markers@.filter(
            |marker: Id| marker == peer || reached(steps@, marker),
        ),
        res.events@ == if scheduled {
            seq![
                Event::DeliveryUpdated { id, state: DeliveryState::Queued },
                Event::ScheduledMessageActivated { id },
            ]
        } else {
            seq![Event::DeliveryUpdated { id, state: DeliveryState::Queued }]
        },
{
    let mut deliveries: Vec<DeliveryRow> = Vec::new();
    let mut queue: Vec<NewItem> = Vec::new();
    let mut clear_capabilities: Vec<Id> = Vec::new();
    let mut k: usize = 0;
    while k < steps.len()
        invariant
            k <= steps@.len(),
            wires@.len() == steps@.len(),
            deliveries@.len() == k,
            forall|m: int|
                0 <= m < k ==> #[trigger] deliveries@[m] == new_deliveries(
                    id,
                    peer,
                    steps@,
                    wires@,
                )[m],
            queue@ == new_items(id, steps@, wires@, now, k as int),
            clear_capabilities@ == first_flights(steps@, k as int),
        decreases steps@.len() - k,
    {
        let step = steps[k];
        deliveries.push(
            DeliveryRow {
                message: id,
                account: peer,
                device: step.device,
                state: DeliveryState::Queued,
                wire_id: wires[k],
            },
        );
        if let Some(content_id) = wires[k] {
            queue.push(
                NewItem {
                    peer: step.device,
                    msg_id: Some(id),
                    class: QueueClass::Interactive,
                    created_at: now,
                    attempts: 0,
                    next_attempt_at: now,
                    content_id,
                },
            );
        }
        match step.how {
            RouteUse::FirstFlight => {
                clear_capabilities.push(step.device);
            },
            _ => {},
        }
        k = k + 1;
    }
    assert(deliveries@ =~= new_deliveries(id, peer, steps@, wires@));
    let mut clear_reset_markers: Vec<Id> = Vec::new();
    let ghost done = |marker: Id| marker == peer || reached(steps@, marker);
    let mut i: usize = 0;
    proof {
        crate::seqs::lemma_filter_none(reset_markers@, done);
    }
    while i < reset_markers.len()
        invariant
            i <= reset_markers@.len(),
            done == (|marker: Id| marker == peer || reached(steps@, marker)),
            clear_reset_markers@ == reset_markers@.take(i as int).filter(done),
        decreases reset_markers@.len() - i,
    {
        proof {
            crate::seqs::lemma_filter_step(reset_markers@, done, i as int);
        }
        if same(&reset_markers[i], &peer) || is_reached(steps, &reset_markers[i]) {
            clear_reset_markers.push(reset_markers[i]);
        }
        i = i + 1;
    }
    proof {
        crate::seqs::lemma_take_all(reset_markers@);
    }
    let mut events: Vec<Event> = Vec::new();
    events.push(Event::DeliveryUpdated { id, state: DeliveryState::Queued });
    if scheduled {
        events.push(Event::ScheduledMessageActivated { id });
    }
    let message = MessageRow {
        id,
        peer,
        direction: Direction::Outbound,
        state: DeliveryState::Queued,
        timestamp,
        wire_id: first_wire_id(&deliveries),
    };
    SentMessage { message, deliveries, queue, clear_capabilities, clear_reset_markers, events }
}

/// The form in which a body goes out: framed, where it is text and the peer is known to read
/// framed text; else as it stands.
pub fn frames_text(body: &Vec<u8>, peer_supports_text: bool) -> (res: bool)
    ensures
        res == (valid_utf8(body@) && peer_supports_text),
{
    peer_supports_text && is_utf8(body.as_slice())
}

/// When disappearing text disappears.
pub open spec fn disappears_at(
    text_empty: bool,
    lifetime: u64,
    min_lifetime: u64,
    max_lifetime: u64,
    supported: bool,
    now: u64,
) -> std::result::Result<int, NodeError> {
    if text_empty || lifetime < min_lifetime || lifetime > max_lifetime {
        Err(NodeError::InvalidEphemeral)
    } else if !supported {
        Err(NodeError::EphemeralUnsupported)
    } else if now + lifetime > u64::MAX {
        Err(NodeError::InvalidEphemeral)
    } else {
        Ok(now + lifetime)
    }
}

/// Work out when disappearing text disappears. The peer needs a session and to know
/// ephemeral content.
pub fn send_disappearing_message(
    text_empty: bool,
    lifetime: u64,
    min_lifetime: u64,
    max_lifetime: u64,
    supported: bool,
    now: u64,
) -> (res: Result<u64>)
    ensures
        match (res, disappears_at(text_empty, lifetime, min_lifetime, max_lifetime, supported, now)) {
            (Ok(at), Ok(want)) => at == want,
            (Err(e), Err(want)) => e == want,
            _ => false,
        },
{
    if text_empty || lifetime < min_lifetime || lifetime > max_lifetime {
        return Err(NodeError::InvalidEphemeral);
    }
    if !supported {
        return Err(NodeError::EphemeralUnsupported);
    }
    match now.checked_add(lifetime) {
        Some(at) => Ok(at),
        None => Err(NodeError::InvalidEphemeral),
    }
}

// ---- Scheduled messages ----

/// Where a scheduled message goes.
#[derive(Clone, Copy, Debug, PartialEq, Eq)]
pub enum ScheduledConversation {
    /// To a contact.
    Peer(Id),
    /// To a group.
    Group(Id),
}

/// A message that waits for its time.
pub struct ScheduledMessage {
    /// Its identity.
    pub id: ContentId,
    /// Where it goes.
    pub conversation: ScheduledConversation,
    /// When it was written.
    pub created_at: u64,
    /// When it goes, at the earliest.
    pub not_before: u64,
    /// What it says.
    pub body: Vec<u8>,
}

/// A schedule lies ahead, and its body is text that fits.
pub open spec fn schedule_ok(not_before: u64, body: Seq<u8>, fits: bool, now: u64) -> bool {
    not_before > now && valid_utf8(body) && fits
}

/// What speaks against scheduling a message: the conversation is not known, a contact cannot
/// be reached at all, or the schedule is not right.
pub open spec fn schedule_refusal(
    conversation: ScheduledConversation,
    known: bool,
    reachable: bool,
    ok: bool,
) -> Option<NodeError> {
    match conversation {
        ScheduledConversation::Peer(_) => if !known {
            Some(NodeError::UnknownPeer)
        } else if !reachable {
            Some(NodeError::NoSession)
        } else if !ok {
            Some(NodeError::InvalidSchedule)
        } else {
            None
        },
        ScheduledConversation::Group(_) => if !known {
            Some(NodeError::UnknownGroup)
        } else if !ok {
            Some(NodeError::InvalidSchedule)
        } else {
            None
        },
    }
}

/// Schedule a message.
pub fn schedule(
    id: ContentId,
    conversation: ScheduledConversation,
    known: bool,
    reachable: bool,
    body: Vec<u8>,
    fits: bool,
    not_before: u64,
    now: u64,
) -> (res: Result<(ScheduledMessage, Event)>)
    ensures
        match res {
            Ok((message, event)) => {
                &&& schedule_refusal(
                    conversation,
                    known,
                    reachable,
                    schedule_ok(not_before, body@, fits, now),
                ) is None
                &&& message == (ScheduledMessage {
                    id,
                    conversation,
                    created_at: now,
                    not_before,
                    body,
                })
                &&& event == (Event::ScheduledMessageUpdated { id })
            },
            Err(e) => schedule_refusal(
                conversation,
                known,
                reachable,
                schedule_ok(not_before, body@, fits, now),
            ) == Some(e),
        },
{
    match conversation {
        ScheduledConversation::Peer(_) => {
            if !known {
                return Err(NodeError::UnknownPeer);
            }
            if !reachable {
                return Err(NodeError::NoSession);
            }
        },
        ScheduledConversation::Group(_) => {
            if !known {
                return Err(NodeError::UnknownGroup);
            }
        },
    }
    if not_before <= now || !fits || !is_utf8(body.as_slice()) {
        return Err(NodeError::InvalidSchedule);
    }
    Ok(
        (
            ScheduledMessage { id, conversation, created_at: now, not_before, body },
            Event::ScheduledMessageUpdated { id },
        ),
    )
}

/// Change a scheduled message that has not gone yet.
pub fn edit_scheduled_message(
    id: ContentId,
    stored: Option<ScheduledMessage>,
    body: Vec<u8>,
    fits: bool,
    not_before: u64,
    now: u64,
) -> (res: Result<(ScheduledMessage, Event)>)
    ensures
        match res {
            Ok((message, event)) => {
                &&& schedule_ok(not_before, body@, fits, now)
                &&& stored matches Some(old) && message == (ScheduledMessage {
                    body,
                    not_before,
                    ..old
                })
                &&& event == (Event::ScheduledMessageUpdated { id })
            },
            Err(e) => e == if !schedule_ok(not_before, body@, fits, now) {
                NodeError::InvalidSchedule
            } else {
                NodeError::UnknownScheduledMessage
            } && (schedule_ok(not_before, body@, fits, now) ==> stored is None),
        },
{
    if not_before <= now || !fits || !is_utf8(body.as_slice()) {
        return Err(NodeError::InvalidSchedule);
    }
    match stored {
        None => Err(NodeError::UnknownScheduledMessage),
        Some(old) => Ok(
            (
                ScheduledMessage {
                    id: old.id,
                    conversation: old.conversation,
                    created_at: old.created_at,
                    not_before,
                    body,
                },
                Event::ScheduledMessageUpdated { id },
            ),
        ),
    }
}

/// Take back a scheduled message that has not gone yet.
pub fn cancel_scheduled_message(id: ContentId, deleted: bool) -> (res: Result<Event>)
    ensures
        match res {
            Ok(event) => deleted && event == (Event::ScheduledMessageCancelled { id }),
            Err(e) => !deleted && e == NodeError::UnknownScheduledMessage,
        },
{
    if deleted {
        Ok(Event::ScheduledMessageCancelled { id })
    } else {
        Err(NodeError::UnknownScheduledMessage)
    }
}

/// Whether a scheduled message goes now: its time has come and, for a contact, some device
/// can be reached. What cannot go stays as it is.
pub fn activates(
    message: &ScheduledMessage,
    account_session: bool,
    is_contact: bool,
    endpoints: &Vec<SendRoute>,
    contact_bundle_valid: bool,
    now: u64,
) -> (res: bool)
    ensures
        res == (message.not_before <= now && (message.conversation is Group || account_session || (
        is_contact && if endpoints@.len() == 0 {
            contact_bundle_valid
        } else {
            exists|i: int| 0 <= i < endpoints@.len() && usable(#[trigger] endpoints@[i])
        }))),
{
    if now < message.not_before {
        return false;
    }
    if let ScheduledConversation::Group(_) = message.conversation {
        return true;
    }
    if account_session {
        return true;
    }
    if !is_contact {
        return false;
    }
    if endpoints.len() == 0 {
        return contact_bundle_valid;
    }
    any_usable(endpoints)
}

fn any_usable(routes: &Vec<SendRoute>) -> (res: bool)
    ensures
        res == exists|i: int| 0 <= i < routes@.len() && usable(#[trigger] routes@[i]),
{
    let mut i: usize = 0;
    while i < routes.len()
        invariant
            i <= routes@.len(),
            forall|k: int| 0 <= k < i ==> !usable(#[trigger] routes@[k]),
        decreases routes@.len() - i,
    {
        if routes[i].has_session || routes[i].valid_bundle {
            assert(usable(routes@[i as int]));
            return true;
        }
        i = i + 1;
    }
    false
}

// ---- Controls ----

/// Queue a control for a device: it is due at once and carries no message.
pub fn prepare_control_queue(peer: Id, content_id: ContentId, now: u64) -> (res: NewItem)
    ensures
        res == (NewItem {
            peer,
            msg_id: None,
            class: QueueClass::Normal,
            created_at: now,
            attempts: 0,
            next_attempt_at: now,
            content_id,
        }),
{
    NewItem {
        peer,
        msg_id: None,
        class: QueueClass::Normal,
        created_at: now,
        attempts: 0,
        next_attempt_at: now,
        content_id,
    }
}

// ---- Laws of sending ----

/// No earlier route goes to the device of route `i`.
pub open spec fn leads(routes: Seq<SendRoute>, i: int) -> bool {
    &&& 0 <= i < routes.len()
    &&& forall|j: int| 0 <= j < i ==> (#[trigger] routes[j]).device != routes[i].device
}

proof fn lemma_leads(routes: Seq<SendRoute>, i: int)
    requires
        leads(routes, i),
    ensures
        is_first_route(routes, i),
{
    lemma_route_of(routes, routes[i].device, 0);
}

/// Content that makes sense in groups or calls alone is never sent to a contact.
pub proof fn law_pairwise_content(content: Content)
    ensures
        content is Mention ==> pairwise_refusal(content) == Some(NodeError::InvalidMention),
        content is Poll ==> pairwise_refusal(content) == Some(NodeError::InvalidPoll),
        content is GroupAuthority ==> pairwise_refusal(content) == Some(
            NodeError::InvalidGroupAuthority,
        ),
        content is CallControl ==> pairwise_refusal(content) == Some(NodeError::InvalidCall),
        !(content is Mention) && !(content is Poll) && !(content is GroupAuthority) && !(
        content is CallControl) ==> pairwise_refusal(content) is None,
{
}

/// Only a contact that needs no new verification is sent to, and the failure says what is
/// missing.
pub proof fn law_sending_needs_a_verified_contact(
    content: Content,
    is_contact: bool,
    must_verify: bool,
    routes: Seq<SendRoute>,
    retained: bool,
    max_devices: usize,
)
    requires
        pairwise_refusal(content) is None,
    ensures
        ({
            let res = send_refusal(
                content,
                is_contact,
                must_verify,
                routes,
                retained,
                max_devices,
            );
            &&& !is_contact ==> res == Some(NodeError::UnknownPeer)
            &&& is_contact && must_verify ==> res == Some(NodeError::ContactReverificationRequired)
            &&& is_contact && !must_verify && devices_of(routes).len() > max_devices ==> res
                == Some(NodeError::CorruptState)
        }),
{
}

/// A message goes out as soon as one device can be reached: over a session, or by a first
/// flight when nothing of it is retained.
pub proof fn law_one_reachable_device_is_enough(
    content: Content,
    routes: Seq<SendRoute>,
    retained: bool,
    max_devices: usize,
    i: int,
)
    requires
        pairwise_refusal(content) is None,
        devices_of(routes).len() <= max_devices,
        leads(routes, i),
    ensures
        routes[i].has_session || (routes[i].valid_bundle && !retained) ==> send_refusal(
            content,
            true,
            false,
            routes,
            retained,
            max_devices,
        ) is None,
        routes[i].valid_bundle && retained && (forall|j: int|
            0 <= j < routes.len() ==> !(#[trigger] routes[j]).has_session) ==> send_refusal(
            content,
            true,
            false,
            routes,
            retained,
            max_devices,
        ) == Some(NodeError::EphemeralUnsupported),
{
    lemma_leads(routes, i);
    assert(usable(routes[i]) || !routes[i].valid_bundle && !routes[i].has_session);
}

/// Without any session or valid bundle nothing is sent.
pub proof fn law_no_route_no_message(
    content: Content,
    routes: Seq<SendRoute>,
    retained: bool,
    max_devices: usize,
)
    requires
        pairwise_refusal(content) is None,
        devices_of(routes).len() <= max_devices,
        forall|j: int|
            0 <= j < routes.len() ==> !(#[trigger] routes[j]).has_session
                && !routes[j].valid_bundle,
    ensures
        send_refusal(content, true, false, routes, retained, max_devices) == Some(
            NodeError::NoSession,
        ),
{
}

/// An existing session carries the copy of its device; without one a valid bundle starts a
/// first flight unless the content is retained; else the device waits.
pub proof fn law_how_each_device_is_reached(
    steps: Seq<RouteStep>,
    routes: Seq<SendRoute>,
    retained: bool,
    k: int,
    i: int,
)
    requires
        steps_for(steps, routes, retained),
        0 <= k < steps.len(),
        leads(routes, i),
        steps[k].device == routes[i].device,
    ensures
        routes[i].has_session ==> steps[k].how == RouteUse::Session,
        !routes[i].has_session && routes[i].valid_bundle && !retained ==> steps[k].how
            == RouteUse::FirstFlight,
        !routes[i].has_session && (retained || !routes[i].valid_bundle) ==> steps[k].how
            == RouteUse::Unreachable,
{
    lemma_leads(routes, i);
}

/// With known endpoints the message goes to each of them; only without any it goes to the
/// contact's own bundle.
pub proof fn law_endpoints_before_the_contact(endpoints: Seq<SendRoute>, fallback: SendRoute)
    ensures
        endpoints.len() > 0 ==> routes_used(endpoints, fallback) == endpoints,
        endpoints.len() == 0 ==> routes_used(endpoints, fallback).len() == 1 && routes_used(
            endpoints,
            fallback,
        )[0] == fallback,
{
}

/// A new message has one copy for each device, not yet sent, that names its envelope.
pub proof fn law_new_copies_wait(
    id: ContentId,
    peer: Id,
    steps: Seq<RouteStep>,
    wires: Seq<Option<ContentId>>,
    k: int,
)
    requires
        wires.len() == steps.len(),
        0 <= k < steps.len(),
    ensures
        new_deliveries(id, peer, steps, wires).len() == steps.len(),
        ({
            let row = new_deliveries(id, peer, steps, wires)[k];
            &&& row.message == id
            &&& row.account == peer
            &&& row.device == steps[k].device
            &&& row.state == DeliveryState::Queued
            &&& row.wire_id == wires[k]
        }),
{
}

/// Every envelope of a new message is queued at once, in the lane of messages, and nothing
/// else is.
pub proof fn law_new_envelopes_are_queued(
    id: ContentId,
    steps: Seq<RouteStep>,
    wires: Seq<Option<ContentId>>,
    now: u64,
    n: int,
)
    requires
        wires.len() == steps.len(),
        0 <= n <= steps.len(),
    ensures
        ({
            let items = new_items(id, steps, wires, now, n);
            &&& forall|k: int|
                0 <= k < n && (#[trigger] wires[k]) is Some ==> exists|m: int|
                    0 <= m < items.len() && (#[trigger] items[m]).content_id == wires[k]->0
                        && items[m].peer == steps[k].device
            &&& forall|m: int|
                0 <= m < items.len() ==> {
                    let item = #[trigger] items[m];
                    &&& item.msg_id == Some(id)
                    &&& item.class == QueueClass::Interactive
                    &&& item.created_at == now
                    &&& item.attempts == 0
                    &&& item.next_attempt_at == now
                    &&& exists|k: int|
                        0 <= k < n && #[trigger] wires[k] == Some(item.content_id)
                            && steps[k].device == item.peer
                }
            &&& items.len() == wires.take(n).filter(|w: Option<ContentId>| w is Some).len()
        }),
    decreases n,
{
    let keep = |w: Option<ContentId>| w is Some;
    if n > 0 {
        law_new_envelopes_are_queued(id, steps, wires, now, n - 1);
        let prior = new_items(id, steps, wires, now, n - 1);
        let items = new_items(id, steps, wires, now, n);
        reveal(Seq::filter);
        assert(wires.take(n).drop_last() =~= wires.take(n - 1));
        assert(wires.take(n).last() == wires[n - 1]);
        assert forall|k: int| 0 <= k < n && (#[trigger] wires[k]) is Some implies exists|m: int|
            0 <= m < items.len() && (#[trigger] items[m]).content_id == wires[k]->0
                && items[m].peer == steps[k].device by {
            if k < n - 1 {
                let m = choose|m: int|
                    0 <= m < prior.len() && (#[trigger] prior[m]).content_id == wires[k]->0
                        && prior[m].peer == steps[k].device;
                assert(items[m] == prior[m]);
            } else {
                assert(items.last().content_id == wires[k]->0);
            }
        }
        assert forall|m: int| 0 <= m < items.len() implies {
            let item = #[trigger] items[m];
            &&& item.msg_id == Some(id)
            &&& item.class == QueueClass::Interactive
            &&& item.created_at == now
            &&& item.attempts == 0
            &&& item.next_attempt_at == now
            &&& exists|k: int|
                0 <= k < n && #[trigger] wires[k] == Some(item.content_id) && steps[k].device
                    == item.peer
        } by {
            if m < prior.len() {
                assert(items[m] == prior[m]);
                let k = choose|k: int|
                    0 <= k < n - 1 && #[trigger] wires[k] == Some(prior[m].content_id)
                        && steps[k].device == prior[m].peer;
                assert(wires[k] == Some(items[m].content_id));
            } else {
                assert(wires[n - 1] == Some(items[m].content_id));
            }
        }
    } else {
        reveal(Seq::filter);
        assert(wires.take(0) =~= Seq::<Option<ContentId>>::empty());
    }
}

/// One of the first `n` steps is a first flight to `device`.
pub open spec fn flown(steps: Seq<RouteStep>, n: int, device: Id) -> bool {
    exists|k: int|
        0 <= k < n && (#[trigger] steps[k]).how == RouteUse::FirstFlight && steps[k].device
            == device
}

/// What is known of a device's abilities is forgotten exactly where a first flight goes.
pub proof fn law_first_flights_forget_abilities(steps: Seq<RouteStep>, n: int, device: Id)
    requires
        0 <= n <= steps.len(),
    ensures
        first_flights(steps, n).contains(device) <==> flown(steps, n, device),
    decreases n,
{
    if n > 0 {
        law_first_flights_forget_abilities(steps, n - 1, device);
        let prior = first_flights(steps, n - 1);
        let all = first_flights(steps, n);
        if prior.contains(device) {
            let m = choose|m: int| 0 <= m < prior.len() && prior[m] == device;
            assert(all[m] == device);
        }
        if flown(steps, n, device) && !flown(steps, n - 1, device) {
            assert(all.last() == device);
        }
        if all.contains(device) && !prior.contains(device) {
            let m = choose|m: int| 0 <= m < all.len() && all[m] == device;
            assert(m == prior.len());
            assert(steps[n - 1].device == device);
        }
    }
}

/// A message disappears its lifetime after it was sent; the lifetime must lie within the
/// bounds and the peer must know such messages.
pub proof fn law_lifetimes(
    text_empty: bool,
    lifetime: u64,
    min_lifetime: u64,
    max_lifetime: u64,
    supported: bool,
    now: u64,
)
    ensures
        ({
            let res = disappears_at(
                text_empty,
                lifetime,
                min_lifetime,
                max_lifetime,
                supported,
                now,
            );
            let fits = !text_empty && min_lifetime <= lifetime <= max_lifetime;
            &&& !fits ==> res == Err::<int, NodeError>(NodeError::InvalidEphemeral)
            &&& fits && !supported ==> res == Err::<int, NodeError>(
                NodeError::EphemeralUnsupported,
            )
            &&& fits && supported && now + lifetime > u64::MAX ==> res == Err::<int, NodeError>(
                NodeError::InvalidEphemeral,
            )
            &&& fits && supported && now + lifetime <= u64::MAX ==> res == Ok::<int, NodeError>(
                now + lifetime,
            )
        }),
{
}

/// Only text that fits and lies in the future is scheduled, and only where it can be sent.
pub proof fn law_schedules(
    conversation: ScheduledConversation,
    known: bool,
    reachable: bool,
    not_before: u64,
    body: Seq<u8>,
    fits: bool,
    now: u64,
)
    ensures
        ({
            let ok = schedule_ok(not_before, body, fits, now);
            let res = schedule_refusal(conversation, known, reachable, ok);
            let peer = conversation is Peer;
            &&& ok ==> not_before > now && fits && valid_utf8(body)
            &&& not_before > now && fits && valid_utf8(body) ==> ok
            &&& !known ==> res == Some(
                if peer {
                    NodeError::UnknownPeer
                } else {
                    NodeError::UnknownGroup
                },
            )
            &&& known && peer && !reachable ==> res == Some(NodeError::NoSession)
            &&& known && (reachable || !peer) && !ok ==> res == Some(NodeError::InvalidSchedule)
            &&& known && (reachable || !peer) && ok ==> res is None
        }),
{
}

/// A device is reached when its copy goes out in any way.
pub proof fn law_reached_devices(steps: Seq<RouteStep>, device: Id, k: int)
    ensures
        0 <= k < steps.len() && steps[k].device == device && (steps[k].how == RouteUse::Session
            || steps[k].how == RouteUse::FirstFlight) ==> reached(steps, device),
        (forall|j: int|
            0 <= j < steps.len() && (#[trigger] steps[j]).device == device ==> steps[j].how
                == RouteUse::Unreachable) ==> !reached(steps, device),
{
}

} // verus!
