//! Contacts and message requests.

use vstd::prelude::*;

use crate::admission::AdmissionTransportClass;
use crate::bytes::{
    bytes_before, id_precedes, lemma_before_irreflexive, lemma_before_total,
    lemma_before_transitive, same, ContentId, Id,
};
use crate::error::{NodeError, Result};
use crate::inbound::PreparedInbound;
use crate::records::{DeliveryRow, DeliveryState, Event, QueueItem};
use crate::rendezvous::routes_of;
use crate::routes::{merge_routes, with_new};
use crate::sessions::{push_events, BookView, SessionBook};

verus! {

// ---- Adding ----

/// How a contact is discovered.
#[derive(Clone, Copy, Debug, PartialEq, Eq)]
pub struct DiscoveryProjection {
    /// Capability behind its connect code.
    pub capability: Option<Id>,
    /// Generation of that capability.
    pub generation: u64,
}

/// How a new contact is discovered. A pairing bundle says so itself; what was supplied along
/// with it must not say anything else.
pub fn contact_discovery(supplied: DiscoveryProjection, pairing: Option<(Id, u64)>) -> (res: Result<
    DiscoveryProjection,
>)
    ensures
        match pairing {
            None => res == Ok::<DiscoveryProjection, NodeError>(supplied),
            Some((capability, generation)) => if supplied.capability is Some && (
            supplied.capability != Some(capability) || supplied.generation != generation) {
                res == Err::<DiscoveryProjection, NodeError>(NodeError::Crypto)
            } else {
                res == Ok::<DiscoveryProjection, NodeError>(
                    DiscoveryProjection { capability: Some(capability), generation },
                )
            },
        },
{
    match pairing {
        None => Ok(supplied),
        Some((capability, generation)) => {
            if let Some(claimed) = supplied.capability {
                if !same(&claimed, &capability) || supplied.generation != generation {
                    return Err(NodeError::Crypto);
                }
            }
            Ok(DiscoveryProjection { capability: Some(capability), generation })
        },
    }
}

/// A device on record and whether a new bundle is its own.
#[derive(Clone, Copy, Debug, PartialEq, Eq)]
pub struct StoredBundle {
    /// The device.
    pub device: Id,
    /// The bundle on record is the new one.
    pub same_bundle: bool,
}

/// The first record of a device, counted from `from`.
pub open spec fn stored_at(stored: Seq<StoredBundle>, device: Id, from: int) -> int
    decreases stored.len() - from,
{
    if from >= stored.len() || stored[from].device == device {
        from
    } else {
        stored_at(stored, device, from + 1)
    }
}

/// Whether a new bundle repairs a device: it is on record with another one. Sessions that
/// were never confirmed are then set up anew.
pub fn repairs_device(stored: &Vec<StoredBundle>, device: &Id) -> (res: bool)
    ensures
        ({
            let at = stored_at(stored@, *device, 0);
            res == (at < stored@.len() && !stored@[at].same_bundle)
        }),
{
    let mut at: usize = 0;
    while at < stored.len()
        invariant
            at <= stored@.len(),
            stored_at(stored@, *device, 0) == stored_at(stored@, *device, at as int),
        decreases stored@.len() - at,
    {
        if same(&stored[at].device, device) {
            return !stored[at].same_bundle;
        }
        at = at + 1;
    }
    false
}

/// What adding a contact records.
pub struct NewContact {
    /// How it is discovered.
    pub discovery: DiscoveryProjection,
    /// Its routes.
    pub routes: Vec<Vec<u8>>,
    /// A session that was never confirmed is given up: the device has another bundle now.
    pub resets_session: bool,
}

/// Add a contact, or take over a new bundle of one. Routes that were given come first, those
/// that the bundle tells follow; none stands twice.
pub fn add_contact(
    supplied: DiscoveryProjection,
    pairing: Option<(Id, u64)>,
    device: &Id,
    given: &Vec<Vec<u8>>,
    advertised: &Vec<Vec<u8>>,
    stored: &Vec<StoredBundle>,
) -> (res: Result<NewContact>)
    ensures
        match res {
            Ok(new) => {
                &&& match pairing {
                    None => new.discovery == supplied,
                    Some((capability, generation)) => {
                        &&& new.discovery == (DiscoveryProjection {
                            capability: Some(capability),
                            generation,
                        })
                        &&& supplied.capability is None || supplied == new.discovery
                    },
                }
                &&& routes_of(new.routes@) == with_new(
                    routes_of(given@),
                    routes_of(advertised@),
                    advertised@.len() as int,
                )
                &&& new.resets_session == {
                    let at = stored_at(stored@, *device, 0);
                    at < stored@.len() && !stored@[at].same_bundle
                }
            },
            Err(e) => {
                &&& e == NodeError::Crypto
                &&& pairing matches Some((capability, generation)) && supplied.capability is Some
                    && (supplied.capability != Some(capability) || supplied.generation
                    != generation)
            },
        },
{
    let discovery = match contact_discovery(supplied, pairing) {
        Ok(discovery) => discovery,
        Err(e) => {
            return Err(e);
        },
    };
    Ok(
        NewContact {
            discovery,
            routes: merge_routes(given, advertised),
            resets_session: repairs_device(stored, device),
        },
    )
}

// ---- Changing ----

/// Whether a contact is renamed. Warnings about the new name have to be accepted, and a name
/// that is the old one changes nothing.
pub fn rename_contact(
    peer: Id,
    known: bool,
    has_warnings: bool,
    accept_warnings: bool,
    same_name: bool,
) -> (res: Result<Option<Event>>)
    ensures
        match res {
            Ok(event) => known && (accept_warnings || !has_warnings) && event == if same_name {
                None
            } else {
                Some(Event::ContactRenamed { peer })
            },
            Err(e) => if !known {
                e == NodeError::UnknownPeer
            } else {
                has_warnings && !accept_warnings && e == NodeError::ContactNameReviewRequired
            },
        },
{
    if !known {
        return Err(NodeError::UnknownPeer);
    }
    if has_warnings && !accept_warnings {
        return Err(NodeError::ContactNameReviewRequired);
    }
    if same_name {
        Ok(None)
    } else {
        Ok(Some(Event::ContactRenamed { peer }))
    }
}

/// A device of a contact, as far as routes depend on it.
#[derive(Clone, Copy, Debug, PartialEq, Eq)]
pub struct DeviceRoutes {
    /// The device.
    pub device: Id,
    /// It was revoked.
    pub revoked: bool,
    /// Routes of it are on record.
    pub has_hints: bool,
}

/// The device takes over the routes of its account: it is the only one, stands for the
/// account itself, or has none of its own.
pub open spec fn inherits(devices: Seq<DeviceRoutes>, peer: Id, i: int) -> bool {
    devices.len() == 1 || devices[i].device == peer || !devices[i].has_hints
}

/// The devices among the first `n` that take over the routes of their account.
pub open spec fn heirs(devices: Seq<DeviceRoutes>, peer: Id, n: int) -> Seq<usize>
    decreases n,
{
    if n <= 0 {
        Seq::empty()
    } else if inherits(devices, peer, n - 1) {
        heirs(devices, peer, n - 1).push((n - 1) as usize)
    } else {
        heirs(devices, peer, n - 1)
    }
}

/// Work out which devices take over new routes of a contact.
pub fn set_hints(peer: &Id, known: bool, devices: &Vec<DeviceRoutes>) -> (res: Result<Vec<usize>>)
    ensures
        match res {
            Ok(at) => known && at@ == heirs(devices@, *peer, devices@.len() as int),
            Err(e) => !known && e == NodeError::UnknownPeer,
        },
{
    if !known {
        return Err(NodeError::UnknownPeer);
    }
    let sole = devices.len() == 1;
    let mut out: Vec<usize> = Vec::new();
    let mut i: usize = 0;
    while i < devices.len()
        invariant
            i <= devices@.len(),
            sole == (devices@.len() == 1),
            out@ == heirs(devices@, *peer, i as int),
        decreases devices@.len() - i,
    {
        if sole || same(&devices[i].device, peer) || !devices[i].has_hints {
            out.push(i);
        }
        i = i + 1;
    }
    Ok(out)
}

/// With several devices, one device's own routes are never replaced by those of another.
pub proof fn law_own_routes_are_kept(devices: Seq<DeviceRoutes>, peer: Id, n: int, k: int)
    requires
        1 < devices.len() <= usize::MAX,
        0 <= n <= devices.len(),
        0 <= k < heirs(devices, peer, n).len(),
    ensures
        ({
            let at = heirs(devices, peer, n)[k];
            at < n && (!devices[at as int].has_hints || devices[at as int].device == peer)
        }),
    decreases n,
{
    if n > 0 {
        if k < heirs(devices, peer, n - 1).len() {
            law_own_routes_are_kept(devices, peer, n - 1, k);
        }
    }
}

/// What marking a contact as verified does.
#[derive(Clone, Copy, Debug, PartialEq, Eq, Structural)]
pub enum VerifyStep {
    /// It confirms the contact after a reset of the account.
    ConfirmReset,
    /// It marks the contact.
    Mark,
}

/// What marking a contact as verified does. After a reset of the account it confirms the
/// contact, and only that.
pub fn mark_verified(must_verify: bool, known: bool) -> (res: Result<VerifyStep>)
    ensures
        match res {
            Ok(step) => step == if must_verify {
                VerifyStep::ConfirmReset
            } else {
                VerifyStep::Mark
            } && (must_verify || known),
            Err(e) => !must_verify && !known && e == NodeError::UnknownPeer,
        },
{
    if must_verify {
        return Ok(VerifyStep::ConfirmReset);
    }
    if !known {
        return Err(NodeError::UnknownPeer);
    }
    Ok(VerifyStep::Mark)
}

/// What came of marking a contact as verified. `confirmed` says that the records knew the
/// contact as one to confirm; a confirmation that finds none contradicts them.
pub fn conclude_verification(step: VerifyStep, confirmed: bool) -> (res: Result<()>)
    ensures
        match res {
            Ok(_) => step == VerifyStep::Mark || confirmed,
            Err(e) => step == VerifyStep::ConfirmReset && !confirmed && e
                == NodeError::CorruptState,
        },
{
    match step {
        VerifyStep::ConfirmReset => if confirmed {
            Ok(())
        } else {
            Err(NodeError::CorruptState)
        },
        VerifyStep::Mark => Ok(()),
    }
}

/// The live devices among the first `n`.
pub open spec fn live_devices(devices: Seq<DeviceRoutes>, n: int) -> Seq<Id>
    decreases n,
{
    if n <= 0 {
        Seq::empty()
    } else if devices[n - 1].revoked {
        live_devices(devices, n - 1)
    } else {
        live_devices(devices, n - 1).push(devices[n - 1].device)
    }
}

/// Whose routes are looked up for a contact: those of its live devices or, where none is on
/// record, of the account itself.
pub open spec fn lookup_targets(peer: Id, devices: Seq<DeviceRoutes>) -> Seq<Id> {
    if devices.len() == 0 {
        seq![peer]
    } else {
        live_devices(devices, devices.len() as int)
    }
}

/// Have the routes of a contact looked up. The result are the devices that this comes to.
pub fn request_rendezvous_refresh(
    book: &mut SessionBook,
    peer: Id,
    known: bool,
    devices: &Vec<DeviceRoutes>,
) -> (res: Result<Vec<Id>>)
    ensures
        match res {
            Ok(targets) => {
                &&& known
                &&& targets@ == lookup_targets(peer, devices@)
                &&& final(book)@ == (BookView {
                    refresh: old(book)@.refresh.union(lookup_targets(peer, devices@).to_set()),
                    ..old(book)@
                })
            },
            Err(e) => !known && e == NodeError::UnknownPeer && final(book)@ == old(book)@,
        },
{
    if !known {
        return Err(NodeError::UnknownPeer);
    }
    let mut out: Vec<Id> = Vec::new();
    if devices.len() == 0 {
        out.push(peer);
    }
    let mut i: usize = 0;
    while i < devices.len()
        invariant
            i <= devices@.len(),
            devices@.len() == 0 ==> out@ == seq![peer],
            devices@.len() > 0 ==> out@ == live_devices(devices@, i as int),
        decreases devices@.len() - i,
    {
        if !devices[i].revoked {
            out.push(devices[i].device);
        }
        i = i + 1;
    }
    book.want_routes(&out);
    Ok(out)
}

// ---- Support ----

/// A device, as far as what it understands is known.
#[derive(Clone, Copy, Debug, PartialEq, Eq)]
pub struct DeviceSupport {
    /// There is a session with it.
    pub has_session: bool,
    /// It said that it understands the content.
    pub supports: bool,
    /// A prekey bundle is on record.
    pub has_bundle: bool,
}

/// Whether a contact understands content: all of its devices do, over sessions with them.
/// Without devices on record the account itself counts.
pub fn peer_supports_kind(devices: &Vec<DeviceSupport>, account: DeviceSupport) -> (res: bool)
    ensures
        res == if devices@.len() == 0 {
            account.has_session && account.supports
        } else {
            forall|i: int|
                0 <= i < devices@.len() ==> (#[trigger] devices@[i]).has_session
                    && devices@[i].supports
        },
{
    if devices.len() == 0 {
        return account.has_session && account.supports;
    }
    let mut i: usize = 0;
    while i < devices.len()
        invariant
            i <= devices@.len(),
            devices@.len() > 0,
            forall|k: int|
                0 <= k < i ==> (#[trigger] devices@[k]).has_session && devices@[k].supports,
        decreases devices@.len() - i,
    {
        if !devices[i].has_session || !devices[i].supports {
            assert(!(devices@[i as int].has_session && devices@[i as int].supports));
            return false;
        }
        i = i + 1;
    }
    true
}

/// Whether there are sessions with all devices of a contact.
pub fn peer_has_live_device_sessions(devices: &Vec<DeviceSupport>, account: DeviceSupport) -> (res:
    bool)
    ensures
        res == if devices@.len() == 0 {
            account.has_session
        } else {
            forall|i: int| 0 <= i < devices@.len() ==> (#[trigger] devices@[i]).has_session
        },
{
    if devices.len() == 0 {
        return account.has_session;
    }
    let mut i: usize = 0;
    while i < devices.len()
        invariant
            i <= devices@.len(),
            devices@.len() > 0,
            forall|k: int| 0 <= k < i ==> (#[trigger] devices@[k]).has_session,
        decreases devices@.len() - i,
    {
        if !devices[i].has_session {
            assert(!devices@[i as int].has_session);
            return false;
        }
        i = i + 1;
    }
    true
}

/// Whether a contact can be reached at all: there is a session with some device of it, or a
/// prekey bundle.
pub fn peer_has_session_or_bundle(devices: &Vec<DeviceSupport>, account: DeviceSupport) -> (res:
    bool)
    ensures
        res == if devices@.len() == 0 {
            account.has_session || account.has_bundle
        } else {
            exists|i: int|
                0 <= i < devices@.len() && ((#[trigger] devices@[i]).has_session
                    || devices@[i].has_bundle)
        },
{
    if devices.len() == 0 {
        return account.has_session || account.has_bundle;
    }
    let mut i: usize = 0;
    while i < devices.len()
        invariant
            i <= devices@.len(),
            devices@.len() > 0,
            forall|k: int|
                0 <= k < i ==> !((#[trigger] devices@[k]).has_session || devices@[k].has_bundle),
        decreases devices@.len() - i,
    {
        if devices[i].has_session || devices[i].has_bundle {
            assert(devices@[i as int].has_session || devices@[i as int].has_bundle);
            return true;
        }
        i = i + 1;
    }
    false
}

// ---- Message requests ----

/// A message request, as far as answering it depends on it.
#[derive(Clone, Copy, Debug, PartialEq, Eq)]
pub struct MessageRequest {
    /// Its identity.
    pub request_id: ContentId,
    /// Account of the sender.
    pub account: Id,
    /// Device of the sender.
    pub device: Id,
    /// When it expires.
    pub expires_at: u64,
}

/// Content that a message request may bring: a message, and nothing else.
pub open spec fn is_plain(prepared: PreparedInbound) -> bool {
    prepared.message is Some && prepared.ephemeral is None && prepared.offer is None
}

/// What speaks against accepting a message request: it is not there or has expired, its
/// session is not whole, or what it brought is no plain message.
pub open spec fn accept_refusal(
    request: Option<MessageRequest>,
    session_whole: bool,
    content: Option<PreparedInbound>,
    now: u64,
) -> Option<NodeError> {
    match request {
        None => Some(NodeError::UnknownMessageRequest),
        Some(r) => if now > r.expires_at {
            Some(NodeError::UnknownMessageRequest)
        } else if !session_whole || (content is Some && !is_plain(content->0)) {
            Some(NodeError::CorruptState)
        } else {
            None
        },
    }
}

/// What is told when a message request is accepted.
pub open spec fn accept_events(r: MessageRequest, content: Option<PreparedInbound>) -> Seq<Event> {
    seq![
        Event::MessageRequestAccepted { request: r.request_id, peer: r.account },
        Event::ContactAdded { peer: r.account },
        Event::SessionEstablished { peer: r.account },
    ] + match content {
        Some(prepared) => prepared.events@,
        None => Seq::empty(),
    }
}

/// What accepting a message request comes to.
pub struct Acceptance {
    /// Account of the sender, now a contact.
    pub account: Id,
    /// Device of the sender, with which there is a session now. It is sent a receipt.
    pub device: Id,
    /// What the receipt acknowledges.
    pub acknowledged: ContentId,
    /// What is told.
    pub events: Vec<Event>,
}

/// Accept a message request.
pub fn accept_message_request(
    request: Option<MessageRequest>,
    session_whole: bool,
    content: &Option<PreparedInbound>,
    now: u64,
) -> (res: Result<Acceptance>)
    ensures
        match res {
            Ok(accepted) => {
                &&& accept_refusal(request, session_whole, *content, now) is None
                &&& accepted.account == request->0.account
                &&& accepted.device == request->0.device
                &&& accepted.acknowledged == request->0.request_id
                &&& accepted.events@ == accept_events(request->0, *content)
            },
            Err(e) => accept_refusal(request, session_whole, *content, now) == Some(e),
        },
{
    let r = match request {
        None => {
            return Err(NodeError::UnknownMessageRequest);
        },
        Some(r) => r,
    };
    if now > r.expires_at {
        return Err(NodeError::UnknownMessageRequest);
    }
    if !session_whole {
        return Err(NodeError::CorruptState);
    }
    let mut events: Vec<Event> = Vec::new();
    events.push(Event::MessageRequestAccepted { request: r.request_id, peer: r.account });
    events.push(Event::ContactAdded { peer: r.account });
    events.push(Event::SessionEstablished { peer: r.account });
    if let Some(prepared) = content {
        if prepared.message.is_none() || prepared.ephemeral.is_some() || prepared.offer.is_some() {
            return Err(NodeError::CorruptState);
        }
        push_events(&mut events, &prepared.events);
    }
    assert(events@ =~= accept_events(r, *content));
    Ok(Acceptance { account: r.account, device: r.device, acknowledged: r.request_id, events })
}

/// An acceptance was recorded: the session is kept, and its device is told everything anew.
pub fn conclude_acceptance(book: &mut SessionBook, accepted: &Acceptance)
    ensures
        final(book)@ == old(book)@.with_sent(accepted.device, true),
{
    book.keep_sent(accepted.device, true);
}

/// What is remembered of a request that was turned down, so that it cannot be repeated.
#[derive(Clone, Copy, Debug, PartialEq, Eq)]
pub struct Tombstone {
    /// The request.
    pub request_id: ContentId,
    /// Account of the sender.
    pub account: Id,
    /// Device of the sender.
    pub device: Id,
    /// When it was turned down.
    pub rejected_at: u64,
    /// When that is forgotten.
    pub expires_at: u64,
}

/// One is forgotten no later than another: by when it is forgotten, then when it was turned
/// down, then its identity.
pub open spec fn goes_first(a: Tombstone, b: Tombstone) -> bool {
    a.expires_at < b.expires_at || (a.expires_at == b.expires_at && (a.rejected_at < b.rejected_at
        || (a.rejected_at == b.rejected_at && !bytes_before(b.request_id@, a.request_id@))))
}

proof fn lemma_goes_first(a: Tombstone, b: Tombstone, c: Tombstone)
    requires
        goes_first(a, b),
        goes_first(b, c),
    ensures
        goes_first(a, c),
{
    if a.expires_at == c.expires_at && a.rejected_at == c.rejected_at && bytes_before(
        c.request_id@,
        a.request_id@,
    ) {
        lemma_before_total(a.request_id@, b.request_id@, 0);
        if bytes_before(a.request_id@, b.request_id@) {
            lemma_before_transitive(c.request_id@, a.request_id@, b.request_id@, 0);
        } else {
            assert(a.request_id@ =~= b.request_id@);
        }
    }
}

fn first_to_go(tombstones: &Vec<Tombstone>) -> (at: usize)
    requires
        tombstones@.len() > 0,
    ensures
        at < tombstones@.len(),
        forall|k: int|
            0 <= k < tombstones@.len() ==> goes_first(
                tombstones@[at as int],
                #[trigger] tombstones@[k],
            ),
{
    let mut at: usize = 0;
    let mut i: usize = 1;
    proof {
        lemma_before_irreflexive(tombstones@[0].request_id@, 0);
    }
    while i < tombstones.len()
        invariant
            at < i <= tombstones@.len(),
            forall|k: int|
                0 <= k < i ==> goes_first(tombstones@[at as int], #[trigger] tombstones@[k]),
        decreases tombstones@.len() - i,
    {
        let a = &tombstones[at];
        let b = &tombstones[i];
        let keeps = a.expires_at < b.expires_at || (a.expires_at == b.expires_at && (a.rejected_at
            < b.rejected_at || (a.rejected_at == b.rejected_at && !id_precedes(
            &b.request_id,
            &a.request_id,
        ))));
        if !keeps {
            proof {
                let x = tombstones@[i as int];
                let y = tombstones@[at as int];
                lemma_before_irreflexive(x.request_id@, 0);
                if bytes_before(x.request_id@, y.request_id@) && bytes_before(
                    y.request_id@,
                    x.request_id@,
                ) {
                    lemma_before_transitive(x.request_id@, y.request_id@, x.request_id@, 0);
                }
                assert(goes_first(x, y));
                assert forall|k: int| 0 <= k < i + 1 implies goes_first(
                    x,
                    #[trigger] tombstones@[k],
                ) by {
                    if k < i {
                        lemma_goes_first(x, y, tombstones@[k]);
                    }
                }
            }
            at = i;
        }
        i = i + 1;
    }
    at
}

/// A sender of whom nothing is taken any more.
#[derive(Clone, Copy, Debug, PartialEq, Eq)]
pub struct BlockedIdentity {
    /// The account.
    pub account: Id,
    /// The device.
    pub device: Id,
    /// When it was blocked.
    pub created_at: u64,
}

/// What turning down a message request comes to.
pub struct Discard {
    /// What is remembered.
    pub tombstone: Tombstone,
    /// Position of what is forgotten to make room.
    pub retire: Option<usize>,
    /// The sender, where it is blocked.
    pub block: Option<BlockedIdentity>,
    /// What is told.
    pub event: Event,
}

/// Turn down a message request. What is remembered of such requests is bounded: where there
/// is no room, the one that would be forgotten first is forgotten now.
pub fn discard_message_request(
    request: Option<MessageRequest>,
    tombstones: &Vec<Tombstone>,
    block: bool,
    lifetime: u64,
    max_tombstones: usize,
    now: u64,
) -> (res: Result<Discard>)
    requires
        max_tombstones > 0,
    ensures
        match (request, res) {
            (None, Err(e)) => e == NodeError::UnknownMessageRequest,
            (Some(r), Ok(d)) => {
                &&& d.tombstone == (Tombstone {
                    request_id: r.request_id,
                    account: r.account,
                    device: r.device,
                    rejected_at: now,
                    expires_at: if now + lifetime > u64::MAX {
                        u64::MAX
                    } else {
                        (now + lifetime) as u64
                    },
                })
                &&& d.block == if block {
                    Some(
                        BlockedIdentity { account: r.account, device: r.device, created_at: now },
                    )
                } else {
                    None
                }
                &&& d.event == if block {
                    Event::MessageRequestBlocked { request: r.request_id }
                } else {
                    Event::MessageRequestDeleted { request: r.request_id }
                }
                &&& match d.retire {
                    Some(at) => tombstones@.len() >= max_tombstones && at < tombstones@.len()
                        && forall|k: int|
                        0 <= k < tombstones@.len() ==> goes_first(
                            tombstones@[at as int],
                            #[trigger] tombstones@[k],
                        ),
                    None => tombstones@.len() < max_tombstones,
                }
            },
            _ => false,
        },
{
    let r = match request {
        None => {
            return Err(NodeError::UnknownMessageRequest);
        },
        Some(r) => r,
    };
    let tombstone = Tombstone {
        request_id: r.request_id,
        account: r.account,
        device: r.device,
        rejected_at: now,
        expires_at: now.saturating_add(lifetime),
    };
    let retire = if tombstones.len() >= max_tombstones {
        Some(first_to_go(tombstones))
    } else {
        None
    };
    let event = if block {
        Event::MessageRequestBlocked { request: r.request_id }
    } else {
        Event::MessageRequestDeleted { request: r.request_id }
    };
    let block = if block {
        Some(BlockedIdentity { account: r.account, device: r.device, created_at: now })
    } else {
        None
    };
    Ok(Discard { tombstone, retire, block, event })
}

/// A discard was recorded: what the device was told counts for nothing any more, and its
/// routes are looked up again. No session comes or goes with it.
pub fn conclude_discard(book: &mut SessionBook, discard: &Discard)
    ensures
        final(book)@ == old(book)@.untold(discard.tombstone.device),
{
    book.forget_told(discard.tombstone.device);
}

/// Turning a request down leaves every session as it was, and what every other device was
/// told; accepting one changes nothing but the session with its device.
pub proof fn law_requests_touch_one_device(book: BookView, device: Id, other: Id)
    requires
        other != device,
    ensures
        ({
            let discarded = book.untold(device);
            let accepted = book.with_sent(device, true);
            &&& discarded.sessions == book.sessions
            &&& accepted.sessions == book.sessions.insert(device)
            &&& discarded.capabilities.contains(other) == book.capabilities.contains(other)
            &&& accepted.capabilities.contains(other) == book.capabilities.contains(other)
            &&& discarded.discovery.contains(other) == book.discovery.contains(other)
            &&& accepted.discovery.contains(other) == book.discovery.contains(other)
            &&& discarded.rendezvous.contains(other) == book.rendezvous.contains(other)
            &&& accepted.rendezvous.contains(other) == book.rendezvous.contains(other)
        }),
{
}

// ---- What is shown ----

/// The first `n` digits in groups of five.
pub open spec fn grouped(digits: Seq<char>, n: int) -> Seq<char>
    decreases n,
{
    if n <= 0 {
        Seq::empty()
    } else {
        let prior = grouped(digits, n - 1);
        if n > 1 && (n - 1) % 5 == 0 {
            prior.push(' ').push(digits[n - 1])
        } else {
            prior.push(digits[n - 1])
        }
    }
}

/// Digits in groups of five, as safety numbers are shown.
pub fn group_digits(digits: &str) -> (res: String)
    ensures
        res@ == grouped(digits@, digits@.len() as int),
{
    let mut out = String::new();
    let mut count: u8 = 0;
    let mut first = true;
    for c in rest: digits.chars()
        invariant
            rest.seq() == digits@,
            out@ == grouped(digits@, rest.index() as int),
            count < 5,
            count as int == rest.index() as int % 5,
            first == (rest.index() == 0),
    {
        if count == 0 && !first {
            out.push(' ');
        }
        out.push(c);
        first = false;
        count = if count == 4 { 0 } else { count + 1 };
    }
    out
}

/// A first contact that waits for an answer, as it is stored.
pub struct StoredRequest {
    /// Its identity.
    pub request_id: ContentId,
    /// The account.
    pub account: Id,
    /// The device.
    pub device: Id,
    /// How the message begins.
    pub preview: String,
    /// Digits of the safety number.
    pub safety_number: String,
    /// When it arrived.
    pub arrived_at: u64,
    /// When it expires.
    pub expires_at: u64,
    /// How it came in.
    pub transport: AdmissionTransportClass,
}

/// A first contact that waits for an answer, as it is shown.
#[derive(Clone, Debug, PartialEq, Eq)]
pub struct MessageRequestInfo {
    /// Its identity.
    pub id: ContentId,
    /// The account.
    pub account: Id,
    /// The device.
    pub device: Id,
    /// How the message begins.
    pub preview: String,
    /// The safety number, in groups of five digits.
    pub safety_number: String,
    /// When it arrived.
    pub arrived_at: u64,
    /// When it expires.
    pub expires_at: u64,
    /// How it came in.
    pub transport: AdmissionTransportClass,
}

/// A shown request as a value.
#[verifier::ext_equal]
pub struct RequestView {
    /// Its identity.
    pub id: ContentId,
    /// The account.
    pub account: Id,
    /// The device.
    pub device: Id,
    /// How the message begins.
    pub preview: Seq<char>,
    /// The safety number.
    pub safety_number: Seq<char>,
    /// When it arrived.
    pub arrived_at: u64,
    /// When it expires.
    pub expires_at: u64,
    /// How it came in.
    pub transport: AdmissionTransportClass,
}

impl View for MessageRequestInfo {
    type V = RequestView;

    open spec fn view(&self) -> RequestView {
        RequestView {
            id: self.id,
            account: self.account,
            device: self.device,
            preview: self.preview@,
            safety_number: self.safety_number@,
            arrived_at: self.arrived_at,
            expires_at: self.expires_at,
            transport: self.transport,
        }
    }
}

/// How a stored request is shown.
pub open spec fn shown_request(r: StoredRequest) -> RequestView {
    RequestView {
        id: r.request_id,
        account: r.account,
        device: r.device,
        preview: r.preview@,
        safety_number: grouped(r.safety_number@, r.safety_number@.len() as int),
        arrived_at: r.arrived_at,
        expires_at: r.expires_at,
        transport: r.transport,
    }
}

/// Shown requests as values.
pub open spec fn request_views(infos: Seq<MessageRequestInfo>) -> Seq<RequestView> {
    infos.map_values(|info: MessageRequestInfo| info@)
}

/// A request did not arrive after another; of two that arrived together the one with the
/// smaller identity comes first.
pub open spec fn arrived_first(a: RequestView, b: RequestView) -> bool {
    a.arrived_at < b.arrived_at || (a.arrived_at == b.arrived_at && !bytes_before(b.id@, a.id@))
}

/// Requests in the order of their arrival.
pub open spec fn in_arrival_order(requests: Seq<RequestView>) -> bool {
    forall|i: int, j: int|
        0 <= i < j < requests.len() ==> arrived_first(#[trigger] requests[i], #[trigger] requests[j])
}

proof fn lemma_arrival_order(a: RequestView, b: RequestView, c: RequestView)
    ensures
        arrived_first(a, b) || arrived_first(b, a),
        arrived_first(a, b) && arrived_first(b, c) ==> arrived_first(a, c),
{
    lemma_before_total(a.id@, b.id@, 0);
    lemma_before_total(b.id@, c.id@, 0);
    lemma_before_total(a.id@, c.id@, 0);
    lemma_before_irreflexive(a.id@, 0);
    if bytes_before(a.id@, b.id@) && bytes_before(b.id@, a.id@) {
        lemma_before_transitive(a.id@, b.id@, a.id@, 0);
    }
    if bytes_before(c.id@, a.id@) && bytes_before(a.id@, b.id@) {
        lemma_before_transitive(c.id@, a.id@, b.id@, 0);
    }
}

proof fn lemma_request_inserted(prior: Seq<RequestView>, next: RequestView, at: int)
    requires
        in_arrival_order(prior),
        0 <= at <= prior.len(),
        forall|k: int| 0 <= k < at ==> arrived_first(#[trigger] prior[k], next),
        at < prior.len() ==> !arrived_first(prior[at], next),
    ensures
        in_arrival_order(prior.insert(at, next)),
{
    let after = prior.insert(at, next);
    assert forall|i: int, j: int| 0 <= i < j < after.len() implies arrived_first(
        #[trigger] after[i],
        #[trigger] after[j],
    ) by {
        if j < at {
            assert(after[i] == prior[i] && after[j] == prior[j]);
        } else if j == at {
            assert(after[i] == prior[i]);
        } else if i < at {
            assert(after[i] == prior[i] && after[j] == prior[j - 1]);
        } else if i == at {
            lemma_arrival_order(next, prior[at], prior[j - 1]);
            if j - 1 > at {
                assert(arrived_first(prior[at], prior[j - 1]));
            }
        } else {
            assert(after[i] == prior[i - 1] && after[j] == prior[j - 1]);
        }
    }
}

/// The first contacts that wait for an answer, in the order of their arrival.
pub fn message_requests(requests: Vec<StoredRequest>) -> (res: Vec<MessageRequestInfo>)
    ensures
        in_arrival_order(request_views(res@)),
        request_views(res@).to_multiset() == requests@.map_values(
            |r: StoredRequest| shown_request(r),
        ).to_multiset(),
{
    broadcast use vstd::seq_lib::group_to_multiset_ensures;

    let ghost show = |r: StoredRequest| shown_request(r);
    let ghost whole = requests@.map_values(show);
    let mut rest = requests;
    let mut out: Vec<MessageRequestInfo> = Vec::new();
    assert(request_views(out@).to_multiset().add(rest@.map_values(show).to_multiset())
        =~= whole.to_multiset());
    while rest.len() > 0
        invariant
            show == (|r: StoredRequest| shown_request(r)),
            in_arrival_order(request_views(out@)),
            request_views(out@).to_multiset().add(rest@.map_values(show).to_multiset())
                == whole.to_multiset(),
        decreases rest@.len(),
    {
        let ghost left = rest@.map_values(show);
        let r = match rest.pop() {
            Some(r) => r,
            None => {
                return out;
            },
        };
        let ghost value = shown_request(r);
        assert(left =~= rest@.map_values(show).push(value));
        let safety_number = group_digits(r.safety_number.as_str());
        let next = MessageRequestInfo {
            id: r.request_id,
            account: r.account,
            device: r.device,
            preview: r.preview,
            safety_number,
            arrived_at: r.arrived_at,
            expires_at: r.expires_at,
            transport: r.transport,
        };
        assert(next@ == value);
        let mut at: usize = 0;
        while at < out.len() && (out[at].arrived_at < next.arrived_at || (out[at].arrived_at
            == next.arrived_at && !id_precedes(&next.id, &out[at].id)))
            invariant
                at <= out@.len(),
                value == next@,
                forall|k: int|
                    0 <= k < at ==> arrived_first(#[trigger] request_views(out@)[k], value),
            decreases out@.len() - at,
        {
            at = at + 1;
        }
        let ghost prior = request_views(out@);
        proof {
            if at < out@.len() {
                assert(prior[at as int] == out@[at as int]@);
            }
        }
        out.insert(at, next);
        proof {
            vstd::seq_lib::to_multiset_insert(prior, at as int, value);
            vstd::seq_lib::to_multiset_build(rest@.map_values(show), value);
            assert(request_views(out@) =~= prior.insert(at as int, value));
            assert(request_views(out@).to_multiset().add(rest@.map_values(show).to_multiset())
                =~= whole.to_multiset());
            lemma_request_inserted(prior, value, at as int);
        }
    }
    assert(request_views(out@).to_multiset() =~= whole.to_multiset());
    out
}

/// An item of the queue counts as waiting: it carries no message, no copies of its message
/// are on record, or the copy for its device has not gone yet.
pub open spec fn is_waiting(item: QueueItem, copies: Seq<DeliveryRow>) -> bool {
    (item.msg_id is None && item.group_msg_id is None) || copies.len() == 0 || exists|k: int|
        0 <= k < copies.len() && (#[trigger] copies[k]).device == item.peer && copies[k].state
            == DeliveryState::Queued
}

/// How many of the first `n` items wait.
pub open spec fn waiting(queue: Seq<QueueItem>, copies: Seq<Vec<DeliveryRow>>, n: int) -> int
    decreases n,
{
    if n <= 0 {
        0
    } else {
        waiting(queue, copies, n - 1) + if is_waiting(queue[n - 1], copies[n - 1]@) {
            1int
        } else {
            0
        }
    }
}

fn has_queued_copy(copies: &Vec<DeliveryRow>, device: &Id) -> (res: bool)
    ensures
        res == exists|k: int|
            0 <= k < copies@.len() && (#[trigger] copies@[k]).device == *device && copies@[k].state
                == DeliveryState::Queued,
{
    let mut k: usize = 0;
    while k < copies.len()
        invariant
            k <= copies@.len(),
            forall|m: int|
                0 <= m < k ==> !((#[trigger] copies@[m]).device == *device && copies@[m].state
                    == DeliveryState::Queued),
        decreases copies@.len() - k,
    {
        let queued = match copies[k].state {
            DeliveryState::Queued => true,
            _ => false,
        };
        if queued && same(&copies[k].device, device) {
            assert(copies@[k as int].device == *device);
            return true;
        }
        k = k + 1;
    }
    false
}

/// The number of items that wait in the queue. `copies` holds the copies of each item's
/// message.
pub fn queued(queue: &Vec<QueueItem>, copies: &Vec<Vec<DeliveryRow>>) -> (res: usize)
    requires
        copies@.len() == queue@.len(),
    ensures
        res == waiting(queue@, copies@, queue@.len() as int),
{
    let mut count: usize = 0;
    let mut i: usize = 0;
    while i < queue.len()
        invariant
            i <= queue@.len(),
            copies@.len() == queue@.len(),
            count <= i,
            count == waiting(queue@, copies@, i as int),
        decreases queue@.len() - i,
    {
        if (queue[i].msg_id.is_none() && queue[i].group_msg_id.is_none()) || copies[i].len() == 0
            || has_queued_copy(&copies[i], &queue[i].peer) {
            count = count + 1;
        }
        i = i + 1;
    }
    count
}

/// A note to oneself, without its text.
#[derive(Clone, Copy, Debug, PartialEq, Eq)]
pub struct NoteHead {
    /// Its identity.
    pub id: ContentId,
    /// When it was written.
    pub timestamp: u64,
}

/// The notes to oneself as they are shown: in the order in which they were entered, whatever
/// times they carry.
pub fn note_to_self_messages(notes: &Vec<NoteHead>) -> (res: Vec<NoteHead>)
    ensures
        res@ == notes@,
{
    let mut out: Vec<NoteHead> = Vec::new();
    let mut i: usize = 0;
    while i < notes.len()
        invariant
            i <= notes@.len(),
            out@ == notes@.take(i as int),
        decreases notes@.len() - i,
    {
        out.push(notes[i]);
        assert(notes@.take(i + 1) =~= notes@.take(i as int).push(notes@[i as int]));
        i = i + 1;
    }
    assert(notes@.take(notes@.len() as int) =~= notes@);
    out
}

/// What writing a note to oneself does.
#[derive(Clone, Copy, Debug, PartialEq, Eq)]
pub struct NoteWritten {
    /// The conversation is recorded, as of now: this is its first note.
    pub starts_conversation: bool,
    /// The note.
    pub note: NoteHead,
    /// What is told.
    pub event: Event,
}

/// Write a note to oneself: it is entered after all earlier ones.
pub fn note_to_self_send(
    notes: &mut Vec<NoteHead>,
    has_conversation: bool,
    id: ContentId,
    now: u64,
) -> (res: NoteWritten)
    ensures
        final(notes)@ == old(notes)@.push(NoteHead { id, timestamp: now }),
        res == (NoteWritten {
            starts_conversation: !has_conversation,
            note: NoteHead { id, timestamp: now },
            event: Event::NoteToSelfMessageAdded { id, timestamp: now },
        }),
{
    notes.push(NoteHead { id, timestamp: now });
    NoteWritten {
        starts_conversation: !has_conversation,
        note: NoteHead { id, timestamp: now },
        event: Event::NoteToSelfMessageAdded { id, timestamp: now },
    }
}

// ---- Laws ----

/// New routes of a contact go to its only device, to the device that is the contact itself,
/// and to every device without routes; devices with routes of their own keep them.
pub proof fn law_who_inherits_routes(devices: Seq<DeviceRoutes>, peer: Id, n: int, i: int)
    requires
        0 <= i < n <= devices.len() <= usize::MAX,
    ensures
        heirs(devices, peer, n).contains(i as usize) <==> devices.len() == 1 || devices[i].device
            == peer || !devices[i].has_hints,
    decreases n,
{
    let prior = heirs(devices, peer, n - 1);
    let all = heirs(devices, peer, n);
    if i < n - 1 {
        law_who_inherits_routes(devices, peer, n - 1, i);
        if prior.contains(i as usize) {
            let k = choose|k: int| 0 <= k < prior.len() && prior[k] == i as usize;
            assert(all[k] == i as usize);
        }
        if all.contains(i as usize) && !prior.contains(i as usize) {
            let k = choose|k: int| 0 <= k < all.len() && all[k] == i as usize;
            assert(k == prior.len());
        }
    } else {
        lemma_heirs_below(devices, peer, n - 1);
        if inherits(devices, peer, i) {
            assert(all.last() == i as usize);
        } else if all.contains(i as usize) {
            let k = choose|k: int| 0 <= k < all.len() && all[k] == i as usize;
            assert(prior[k] == i as usize);
        }
    }
}

proof fn lemma_heirs_below(devices: Seq<DeviceRoutes>, peer: Id, n: int)
    requires
        0 <= n <= devices.len() <= usize::MAX,
    ensures
        forall|k: int| 0 <= k < heirs(devices, peer, n).len() ==> #[trigger] heirs(
            devices,
            peer,
            n,
        )[k] < n,
    decreases n,
{
    if n > 0 {
        lemma_heirs_below(devices, peer, n - 1);
        let prior = heirs(devices, peer, n - 1);
        let all = heirs(devices, peer, n);
        assert forall|k: int| 0 <= k < all.len() implies #[trigger] all[k] < n by {
            if k < prior.len() {
                assert(all[k] == prior[k]);
            }
        }
    }
}

/// The routes of a contact are asked of every device that is not revoked, or of the contact
/// itself when no device is known.
pub proof fn law_whose_routes_are_asked(peer: Id, devices: Seq<DeviceRoutes>, i: int)
    ensures
        devices.len() == 0 ==> lookup_targets(peer, devices) == seq![peer],
        0 <= i < devices.len() && !devices[i].revoked ==> lookup_targets(peer, devices).contains(
            devices[i].device,
        ),
        devices.len() > 0 ==> lookup_targets(peer, devices).len() == devices.filter(
            |d: DeviceRoutes| !d.revoked,
        ).len(),
{
    if devices.len() > 0 {
        lemma_live_devices(devices, devices.len() as int, i);
        crate::seqs::lemma_take_all(devices);
        assert(devices.take(devices.len() as int) =~= devices);
    }
}

proof fn lemma_live_devices(devices: Seq<DeviceRoutes>, n: int, i: int)
    requires
        0 <= n <= devices.len(),
    ensures
        0 <= i < n && !devices[i].revoked ==> live_devices(devices, n).contains(devices[i].device),
        live_devices(devices, n).len() == devices.take(n).filter(
            |d: DeviceRoutes| !d.revoked,
        ).len(),
    decreases n,
{
    reveal(Seq::filter);
    if n > 0 {
        lemma_live_devices(devices, n - 1, i);
        let prior = live_devices(devices, n - 1);
        let all = live_devices(devices, n);
        assert(devices.take(n).drop_last() =~= devices.take(n - 1));
        assert(devices.take(n).last() == devices[n - 1]);
        if 0 <= i < n && !devices[i].revoked {
            if i < n - 1 {
                let k = choose|k: int| 0 <= k < prior.len() && prior[k] == devices[i].device;
                assert(all[k] == devices[i].device);
            } else {
                assert(all.last() == devices[i].device);
            }
        }
    } else {
        assert(devices.take(0) =~= Seq::<DeviceRoutes>::empty());
    }
}

/// A request can be accepted as long as it has not expired, with its whole session and no
/// other first content than a plain message.
pub proof fn law_acceptable_requests(
    r: MessageRequest,
    session_whole: bool,
    content: PreparedInbound,
    now: u64,
)
    ensures
        accept_refusal(None, session_whole, Some(content), now) == Some(
            NodeError::UnknownMessageRequest,
        ),
        now > r.expires_at ==> accept_refusal(Some(r), session_whole, Some(content), now) == Some(
            NodeError::UnknownMessageRequest,
        ),
        now <= r.expires_at ==> {
            &&& accept_refusal(Some(r), false, None, now) == Some(NodeError::CorruptState)
            &&& accept_refusal(Some(r), true, None, now) is None
            &&& accept_refusal(Some(r), true, Some(content), now) is None <==> content.message
                is Some && content.ephemeral is None && content.offer is None
            &&& accept_refusal(Some(r), true, Some(content), now) is Some ==> accept_refusal(
                Some(r),
                true,
                Some(content),
                now,
            ) == Some(NodeError::CorruptState)
        },
{
}

/// An accepted request is told as such, then as a new contact, then as a session, and last
/// comes what it brought.
pub proof fn law_acceptance_is_told_in_order(r: MessageRequest, content: PreparedInbound)
    ensures
        ({
            let told = accept_events(r, Some(content));
            &&& told.len() == 3 + content.events@.len()
            &&& told[0] == (Event::MessageRequestAccepted {
                request: r.request_id,
                peer: r.account,
            })
            &&& told[1] == (Event::ContactAdded { peer: r.account })
            &&& told[2] == (Event::SessionEstablished { peer: r.account })
            &&& told.skip(3) == content.events@
        }),
        accept_events(r, None).len() == 3,
{
    let told = accept_events(r, Some(content));
    assert(told.skip(3) =~= content.events@);
}

/// Of two remembered refusals the one that expires first goes first, then the older one.
pub proof fn law_refusals_go_in_order(a: Tombstone, b: Tombstone)
    ensures
        a.expires_at < b.expires_at ==> goes_first(a, b) && !goes_first(b, a),
        a.expires_at == b.expires_at && a.rejected_at < b.rejected_at ==> goes_first(a, b)
            && !goes_first(b, a),
        a.expires_at == b.expires_at && a.rejected_at == b.rejected_at && bytes_before(
            a.request_id@,
            b.request_id@,
        ) ==> goes_first(a, b) && !goes_first(b, a),
{
    if bytes_before(a.request_id@, b.request_id@) && bytes_before(b.request_id@, a.request_id@) {
        crate::bytes::lemma_before_transitive(a.request_id@, b.request_id@, a.request_id@, 0);
        crate::bytes::lemma_before_irreflexive(a.request_id@, 0);
    }
}

/// A number is shown in groups of five digits: every sixth place is a space, every other
/// place a digit of the number, in order.
pub proof fn law_numbers_are_grouped_by_five(digits: Seq<char>, n: int, k: int)
    requires
        0 <= k < n <= digits.len(),
    ensures
        grouped(digits, n).len() == n + (n - 1) / 5,
        k + k / 5 < grouped(digits, n).len(),
        grouped(digits, n)[k + k / 5] == digits[k],
        k > 0 && k % 5 == 0 ==> grouped(digits, n)[k + k / 5 - 1] == ' ',
    decreases n,
{
    let prior = grouped(digits, n - 1);
    if n > 1 {
        law_numbers_are_grouped_by_five(
            digits,
            n - 1,
            if k < n - 1 {
                k
            } else {
                0
            },
        );
    } else {
        assert(prior.len() == 0);
    }
}

/// A stored request is shown with everything it holds, its safety number in groups.
pub proof fn law_requests_are_shown_whole(r: StoredRequest)
    ensures
        ({
            let shown = shown_request(r);
            &&& shown.id == r.request_id
            &&& shown.account == r.account
            &&& shown.device == r.device
            &&& shown.preview == r.preview@
            &&& shown.safety_number == grouped(r.safety_number@, r.safety_number@.len() as int)
            &&& shown.arrived_at == r.arrived_at
            &&& shown.expires_at == r.expires_at
            &&& shown.transport == r.transport
        }),
{
}

/// Requests are listed in the order they arrived.
pub proof fn law_requests_are_listed_by_arrival(a: RequestView, b: RequestView)
    ensures
        a.arrived_at < b.arrived_at ==> arrived_first(a, b) && !arrived_first(b, a),
        a.arrived_at == b.arrived_at && bytes_before(a.id@, b.id@) ==> arrived_first(a, b)
            && !arrived_first(b, a),
{
    if bytes_before(a.id@, b.id@) && bytes_before(b.id@, a.id@) {
        crate::bytes::lemma_before_transitive(a.id@, b.id@, a.id@, 0);
        crate::bytes::lemma_before_irreflexive(a.id@, 0);
    }
}

/// An envelope waits when it carries no message, when nothing is known of its copies, or when
/// the copy for its device is still queued; then it is counted, once.
pub proof fn law_waiting_envelopes_are_counted(
    queue: Seq<QueueItem>,
    copies: Seq<Vec<DeliveryRow>>,
    n: int,
)
    requires
        0 <= n < queue.len(),
        queue.len() == copies.len(),
    ensures
        waiting(queue, copies, 0) == 0,
        ({
            let item = queue[n];
            let more = waiting(queue, copies, n + 1) - waiting(queue, copies, n);
            let queued = exists|k: int|
                0 <= k < copies[n]@.len() && (#[trigger] copies[n]@[k]).device == item.peer
                    && copies[n]@[k].state == DeliveryState::Queued;
            &&& item.msg_id is None && item.group_msg_id is None ==> more == 1
            &&& copies[n]@.len() == 0 ==> more == 1
            &&& queued ==> more == 1
            &&& (item.msg_id is Some || item.group_msg_id is Some) && copies[n]@.len() > 0
                && !queued ==> more == 0
        }),
{
}

/// A device is found under its first entry, and not at all when there is none.
pub proof fn law_stored_devices_are_found(
    stored: Seq<StoredBundle>,
    device: Id,
    from: int,
    at: int,
)
    requires
        0 <= from <= at <= stored.len(),
        at < stored.len() ==> stored[at].device == device,
        forall|k: int| from <= k < at ==> (#[trigger] stored[k]).device != device,
    ensures
        stored_at(stored, device, from) == at,
    decreases at - from,
{
    if from < at {
        law_stored_devices_are_found(stored, device, from + 1, at);
    }
}

} // verus!
