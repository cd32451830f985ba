//! Routes to the devices of contacts, and what those devices are told about this one.

use vstd::prelude::*;

use crate::bytes::{bytes_before, precedes, same, Id, IdSet};
use crate::contacts::{live_devices, lookup_targets, request_rendezvous_refresh, DeviceRoutes};
use crate::endpoints::{ascending, insert_id};
use crate::error::{NodeError, Result};
use crate::rendezvous::{copy_routes, routes_of};
use crate::routes::{canonical_routes, in_byte_order, merge_routes, with_new};
use crate::sessions::{BookView, SessionBook};

verus! {

// ---- Routes to a device ----

/// Routes on record for a device, by where they stand.
pub struct RecordedRoutes {
    /// With the device, while it is not revoked.
    pub device: Option<Vec<Vec<u8>>>,
    /// With the contact that has the device's identity.
    pub contact: Option<Vec<Vec<u8>>>,
    /// With the contact that the device belongs to.
    pub account: Option<Vec<Vec<u8>>>,
}

/// The routes of a device: its own unless it has none, those of the contact otherwise.
pub open spec fn base_routes(recorded: RecordedRoutes) -> Seq<Seq<u8>> {
    if recorded.device matches Some(routes) && routes@.len() > 0 {
        routes_of(recorded.device->0@)
    } else {
        match recorded.contact {
            Some(routes) => routes_of(routes@),
            None => match recorded.account {
                Some(routes) => routes_of(routes@),
                None => Seq::empty(),
            },
        }
    }
}

/// The routes of a device that are on record.
pub fn base_hints_for(recorded: &RecordedRoutes) -> (res: Vec<Vec<u8>>)
    ensures
        routes_of(res@) == base_routes(*recorded),
{
    if let Some(routes) = &recorded.device {
        if routes.len() > 0 {
            return copy_routes(routes);
        }
    }
    if let Some(routes) = &recorded.contact {
        return copy_routes(routes);
    }
    if let Some(routes) = &recorded.account {
        return copy_routes(routes);
    }
    let none: Vec<Vec<u8>> = Vec::new();
    assert(routes_of(none@) =~= Seq::empty());
    none
}

/// Routes that a rendezvous provider gave for a device.
pub struct ProviderRoutes {
    /// The provider is asked for routes.
    pub lookup_enabled: bool,
    /// When the routes expire.
    pub expires_at: u64,
    /// The routes; nothing where one cannot be read.
    pub routes: Vec<Option<Vec<u8>>>,
}

/// The provider's routes can be used.
pub open spec fn is_fresh(provider: ProviderRoutes, now: u64) -> bool {
    provider.lookup_enabled && provider.expires_at > now
}

/// Those of the first `n` routes that can be read.
pub open spec fn readable(routes: Seq<Option<Vec<u8>>>, n: int) -> Seq<Seq<u8>>
    decreases n,
{
    if n <= 0 {
        Seq::empty()
    } else {
        match routes[n - 1] {
            Some(route) => readable(routes, n - 1).push(route@),
            None => readable(routes, n - 1),
        }
    }
}

/// The routes of the first `n` providers that can be used, provider by provider.
pub open spec fn fresh_routes(providers: Seq<ProviderRoutes>, now: u64, n: int) -> Seq<Seq<u8>>
    decreases n,
{
    if n <= 0 {
        Seq::empty()
    } else {
        let prior = fresh_routes(providers, now, n - 1);
        if is_fresh(providers[n - 1], now) {
            prior + readable(providers[n - 1].routes@, providers[n - 1].routes@.len() as int)
        } else {
            prior
        }
    }
}

fn add_readable(out: &mut Vec<Vec<u8>>, routes: &Vec<Option<Vec<u8>>>)
    ensures
        routes_of(final(out)@) == routes_of(old(out)@) + readable(
            routes@,
            routes@.len() as int,
        ),
{
    let ghost before = routes_of(out@);
    let mut i: usize = 0;
    assert(before + readable(routes@, 0) =~= before);
    while i < routes.len()
        invariant
            i <= routes@.len(),
            routes_of(out@) == before + readable(routes@, i as int),
        decreases routes@.len() - i,
    {
        if let Some(route) = &routes[i] {
            let ghost prior = out@;
            let copy = crate::bytes::copy_bytes(route);
            out.push(copy);
            assert(routes_of(out@) =~= routes_of(prior).push(copy@));
            assert(routes_of(out@) =~= before + readable(routes@, i + 1));
        }
        i = i + 1;
    }
}

/// All routes of a device: those on record first, then those that providers gave and that
/// can be used, none twice.
pub fn hints_for(recorded: &RecordedRoutes, providers: &Vec<ProviderRoutes>, now: u64) -> (res: Vec<
    Vec<u8>,
>)
    ensures
        ({
            let fresh = fresh_routes(providers@, now, providers@.len() as int);
            routes_of(res@) == with_new(base_routes(*recorded), fresh, fresh.len() as int)
        }),
{
    let base = base_hints_for(recorded);
    let mut fresh: Vec<Vec<u8>> = Vec::new();
    let mut i: usize = 0;
    assert(routes_of(fresh@) =~= fresh_routes(providers@, now, 0));
    while i < providers.len()
        invariant
            i <= providers@.len(),
            routes_of(fresh@) == fresh_routes(providers@, now, i as int),
        decreases providers@.len() - i,
    {
        if providers[i].lookup_enabled && providers[i].expires_at > now {
            add_readable(&mut fresh, &providers[i].routes);
        }
        i = i + 1;
    }
    merge_routes(&base, &fresh)
}

/// Whether a device can be reached by what is known of it: by routes on record, or by routes
/// that a provider gave and that have not expired.
pub fn has_fresh_relationship_route(
    recorded: &RecordedRoutes,
    providers: &Vec<ProviderRoutes>,
    now: u64,
) -> (res: bool)
    ensures
        res == (base_routes(*recorded).len() > 0 || exists|k: int|
            0 <= k < providers@.len() && is_fresh(#[trigger] providers@[k], now)
                && providers@[k].routes@.len() > 0),
{
    let base = base_hints_for(recorded);
    assert(base_routes(*recorded).len() == base@.len());
    if base.len() > 0 {
        return true;
    }
    let mut i: usize = 0;
    while i < providers.len()
        invariant
            i <= providers@.len(),
            forall|k: int|
                0 <= k < i ==> !(is_fresh(#[trigger] providers@[k], now)
                    && providers@[k].routes@.len() > 0),
        decreases providers@.len() - i,
    {
        let p = &providers[i];
        if p.lookup_enabled && p.expires_at > now && p.routes.len() > 0 {
            assert(is_fresh(providers@[i as int], now));
            return true;
        }
        i = i + 1;
    }
    false
}

/// Routes on record always come first and are always used, whatever providers say.
pub proof fn law_recorded_routes_come_first(
    recorded: RecordedRoutes,
    providers: Seq<ProviderRoutes>,
    now: u64,
    k: int,
)
    requires
        0 <= k < base_routes(recorded).len(),
    ensures
        ({
            let fresh = fresh_routes(providers, now, providers.len() as int);
            with_new(base_routes(recorded), fresh, fresh.len() as int)[k] == base_routes(
                recorded,
            )[k]
        }),
{
    let fresh = fresh_routes(providers, now, providers.len() as int);
    crate::routes::law_merging_keeps_routes(base_routes(recorded), fresh, fresh.len() as int);
}

/// Routes that have expired are not used.
pub proof fn law_expired_routes_are_not_used(providers: Seq<ProviderRoutes>, now: u64, n: int)
    requires
        0 <= n <= providers.len(),
        forall|k: int| 0 <= k < n ==> (#[trigger] providers[k]).expires_at <= now,
    ensures
        fresh_routes(providers, now, n).len() == 0,
    decreases n,
{
    if n > 0 {
        law_expired_routes_are_not_used(providers, now, n - 1);
    }
}

// ---- Conversations on screen ----

/// A conversation that is on screen.
pub struct ActiveConversation {
    /// The contact.
    pub peer: Id,
    /// The contact is still on record.
    pub known: bool,
    /// Its devices.
    pub devices: Vec<DeviceRoutes>,
}

/// Whose routes are kept fresh for a conversation that is on screen.
pub open spec fn active_targets(conversation: ActiveConversation) -> Seq<Id> {
    if conversation.devices@.len() > 0 {
        live_devices(conversation.devices@, conversation.devices@.len() as int)
    } else if conversation.known {
        seq![conversation.peer]
    } else {
        Seq::empty()
    }
}

/// The device is one whose routes are kept fresh for one of the first `n` conversations.
pub open spec fn is_active(conversations: Seq<ActiveConversation>, n: int, device: Id) -> bool {
    exists|k: int| 0 <= k < n && (#[trigger] active_targets(conversations[k])).contains(device)
}

fn add_targets(out: &mut Vec<Id>, conversation: &ActiveConversation)
    requires
        ascending(old(out)@),
    ensures
        ascending(final(out)@),
        final(out)@.to_set() == old(out)@.to_set() + active_targets(*conversation).to_set(),
{
    broadcast use vstd::seq_lib::group_seq_properties;

    let ghost before = out@.to_set();
    let devices = &conversation.devices;
    if devices.len() == 0 {
        if conversation.known {
            insert_id(out, conversation.peer);
            assert(out@.to_set() =~= before + active_targets(*conversation).to_set()) by {
                assert(active_targets(*conversation)[0] == conversation.peer);
                assert forall|id: Id| #[trigger]
                    active_targets(*conversation).to_set().contains(id) implies id
                    == conversation.peer by {
                    assert(active_targets(*conversation).contains(id));
                }
                assert(active_targets(*conversation).contains(conversation.peer));
            }
        } else {
            assert(out@.to_set() =~= before + active_targets(*conversation).to_set());
        }
        return ;
    }
    let mut i: usize = 0;
    assert(out@.to_set() =~= before + live_devices(devices@, 0).to_set());
    while i < devices.len()
        invariant
            i <= devices@.len(),
            devices@ == conversation.devices@,
            ascending(out@),
            out@.to_set() == before + live_devices(devices@, i as int).to_set(),
        decreases devices@.len() - i,
    {
        if !devices[i].revoked {
            let id = devices[i].device;
            insert_id(out, id);
            proof {
                let prior = live_devices(devices@, i as int);
                lemma_push_set(prior, id);
                assert(live_devices(devices@, i + 1) == prior.push(id));
                assert(out@.to_set() =~= before + live_devices(devices@, i + 1).to_set());
            }
        }
        i = i + 1;
    }
}

proof fn lemma_push_set(ids: Seq<Id>, id: Id)
    ensures
        ids.push(id).to_set() == ids.to_set().insert(id),
{
    assert forall|x: Id| ids.push(id).to_set().contains(x) == ids.to_set().insert(id).contains(x) by {
        if ids.push(id).contains(x) {
            let k = choose|k: int| 0 <= k < ids.push(id).len() && ids.push(id)[k] == x;
            if k < ids.len() {
                assert(ids[k] == x);
            }
        }
        if ids.contains(x) {
            let k = choose|k: int| 0 <= k < ids.len() && ids[k] == x;
            assert(ids.push(id)[k] == x);
        }
        if x == id {
            assert(ids.push(id)[ids.len() as int] == x);
        }
    }
    assert(ids.push(id).to_set() =~= ids.to_set().insert(id));
}

/// The devices whose routes are kept fresh for the conversations that are on screen, in
/// ascending order and none twice.
pub fn active_conversation_rendezvous_devices(conversations: &Vec<ActiveConversation>) -> (res: Vec<
    Id,
>)
    ensures
        ascending(res@),
        forall|device: Id| #[trigger]
            res@.to_set().contains(device) <==> is_active(
                conversations@,
                conversations@.len() as int,
                device,
            ),
{
    let mut out: Vec<Id> = Vec::new();
    let mut i: usize = 0;
    while i < conversations.len()
        invariant
            i <= conversations@.len(),
            ascending(out@),
            forall|device: Id| #[trigger]
                out@.to_set().contains(device) <==> is_active(conversations@, i as int, device),
        decreases conversations@.len() - i,
    {
        let ghost prior = out@.to_set();
        add_targets(&mut out, &conversations[i]);
        assert forall|device: Id| #[trigger] out@.to_set().contains(device) <==> is_active(
            conversations@,
            i + 1,
            device,
        ) by {
            let added = active_targets(conversations@[i as int]);
            assert(out@.to_set().contains(device) == (prior.contains(device)
                || added.contains(device)));
            if is_active(conversations@, i as int, device) {
                let k = choose|k: int|
                    0 <= k < i && (#[trigger] active_targets(conversations@[k])).contains(device);
                assert(active_targets(conversations@[k]).contains(device));
            }
            if is_active(conversations@, i + 1, device) {
                let k = choose|k: int|
                    0 <= k < i + 1 && (#[trigger] active_targets(conversations@[k])).contains(
                        device,
                    );
                if k < i {
                    assert(is_active(conversations@, i as int, device));
                }
            }
        }
        i = i + 1;
    }
    out
}

/// A device that something is queued for.
#[derive(Clone, Copy, Debug, PartialEq, Eq)]
pub struct WaitingDevice {
    /// The device.
    pub device: Id,
    /// It can be reached by what is known of it.
    pub has_route: bool,
}

/// Routes to the device are looked up: because it was asked for, because something waits for
/// it that cannot be sent, or because it is in use.
pub open spec fn is_wanted(
    requested: Seq<Id>,
    waiting: Seq<WaitingDevice>,
    active: Seq<Id>,
    device: Id,
) -> bool {
    ||| requested.contains(device)
    ||| active.contains(device)
    ||| exists|k: int|
        0 <= k < waiting.len() && (#[trigger] waiting[k]).device == device
            && !waiting[k].has_route
}

fn add_all(out: &mut Vec<Id>, ids: &Vec<Id>)
    requires
        ascending(old(out)@),
    ensures
        ascending(final(out)@),
        forall|id: Id| #[trigger]
            final(out)@.to_set().contains(id) <==> old(out)@.to_set().contains(id)
                || ids@.contains(id),
{
    let ghost before = out@.to_set();
    let mut i: usize = 0;
    while i < ids.len()
        invariant
            i <= ids@.len(),
            ascending(out@),
            forall|id: Id| #[trigger]
                out@.to_set().contains(id) <==> before.contains(id) || ids@.take(
                    i as int,
                ).contains(id),
        decreases ids@.len() - i,
    {
        insert_id(out, ids[i]);
        proof {
            lemma_take_push(ids@, i as int);
        }
        i = i + 1;
    }
    assert(ids@.take(ids@.len() as int) =~= ids@);
}

proof fn lemma_take_push(ids: Seq<Id>, i: int)
    requires
        0 <= i < ids.len(),
    ensures
        forall|id: Id| #[trigger]
            ids.take(i + 1).contains(id) <==> ids.take(i).contains(id) || id == ids[i],
{
    assert(ids.take(i + 1) =~= ids.take(i).push(ids[i]));
    assert forall|id: Id| #[trigger] ids.take(i + 1).contains(id) <==> ids.take(i).contains(id)
        || id == ids[i] by {
        lemma_push_set(ids.take(i), ids[i]);
        assert(ids.take(i + 1).to_set().contains(id) == ids.take(i + 1).contains(id));
        assert(ids.take(i).to_set().contains(id) == ids.take(i).contains(id));
    }
}

/// The devices whose routes are looked up in a pass, in ascending order and none twice.
pub fn lookup_requests(
    requested: &Vec<Id>,
    waiting: &Vec<WaitingDevice>,
    active: &Vec<Id>,
) -> (res: Vec<Id>)
    ensures
        ascending(res@),
        forall|device: Id| #[trigger]
            res@.to_set().contains(device) <==> is_wanted(requested@, waiting@, active@, device),
{
    let mut out: Vec<Id> = Vec::new();
    add_all(&mut out, requested);
    add_all(&mut out, active);
    let ghost before = out@.to_set();
    let mut i: usize = 0;
    while i < waiting.len()
        invariant
            i <= waiting@.len(),
            ascending(out@),
            forall|id: Id| #[trigger]
                out@.to_set().contains(id) <==> before.contains(id) || exists|k: int|
                    0 <= k < i && (#[trigger] waiting@[k]).device == id && !waiting@[k].has_route,
        decreases waiting@.len() - i,
    {
        if !waiting[i].has_route {
            insert_id(&mut out, waiting[i].device);
        }
        i = i + 1;
    }
    out
}

/// Note that a conversation came on screen or went off it. The routes of a contact whose
/// conversation comes on screen are looked up.
pub fn set_rendezvous_conversation_active(
    book: &mut SessionBook,
    on_screen: &mut IdSet,
    peer: Id,
    known: bool,
    active: bool,
    devices: &Vec<DeviceRoutes>,
) -> (res: Result<()>)
    ensures
        match res {
            Err(e) => {
                &&& !known
                &&& e == NodeError::UnknownPeer
                &&& final(on_screen)@ == old(on_screen)@
                &&& final(book)@ == old(book)@
            },
            Ok(_) => known && if active {
                &&& final(on_screen)@ == old(on_screen)@.insert(peer)
                &&& final(book)@ == (BookView {
                    refresh: old(book)@.refresh.union(lookup_targets(peer, devices@).to_set()),
                    ..old(book)@
                })
            } else {
                &&& final(on_screen)@ == old(on_screen)@.remove(peer)
                &&& final(book)@ == old(book)@
            },
        },
{
    if !known {
        return Err(NodeError::UnknownPeer);
    }
    if active {
        let _ = request_rendezvous_refresh(book, peer, known, devices);
        let _ = on_screen.insert(peer);
    } else {
        let _ = on_screen.remove(&peer);
    }
    Ok(())
}

// ---- What devices are told ----

/// What devices are told of their own accord.
#[derive(Clone, Copy, Debug, PartialEq, Eq, Structural)]
pub enum Advertisement {
    /// The content capabilities of this device.
    Capabilities,
    /// The discovery capability.
    Discovery,
    /// The rendezvous providers.
    Rendezvous,
}

/// The devices that were told something.
pub open spec fn told(book: BookView, what: Advertisement) -> Set<Id> {
    match what {
        Advertisement::Capabilities => book.capabilities,
        Advertisement::Discovery => book.discovery,
        Advertisement::Rendezvous => book.rendezvous,
    }
}

fn was_told(book: &SessionBook, what: Advertisement, device: &Id) -> (res: bool)
    ensures
        res == told(book@, what).contains(*device),
{
    match what {
        Advertisement::Capabilities => book.capabilities_advertised.contains(device),
        Advertisement::Discovery => book.discovery_advertised.contains(device),
        Advertisement::Rendezvous => book.rendezvous_advertised.contains(device),
    }
}

/// The devices with a session that have not been told yet, in ascending order.
pub fn due_advertisements(book: &SessionBook, what: Advertisement) -> (res: Vec<Id>)
    ensures
        ascending(res@),
        res@.to_set() == book@.sessions.difference(told(book@, what)),
{
    let sessions = book.sessions.items();
    let mut out: Vec<Id> = Vec::new();
    let mut i: usize = 0;
    while i < sessions.len()
        invariant
            i <= sessions@.len(),
            ascending(out@),
            forall|id: Id| #[trigger]
                out@.to_set().contains(id) <==> sessions@.take(i as int).contains(id) && !told(
                    book@,
                    what,
                ).contains(id),
        decreases sessions@.len() - i,
    {
        if !was_told(book, what, &sessions[i]) {
            insert_id(&mut out, sessions[i]);
        }
        proof {
            lemma_take_push(sessions@, i as int);
        }
        i = i + 1;
    }
    proof {
        assert(sessions@.take(i as int) =~= sessions@);
        assert forall|id: Id| #[trigger] out@.to_set().contains(id) == book@.sessions.difference(
            told(book@, what),
        ).contains(id) by {
            assert(sessions@.to_set().contains(id) == sessions@.contains(id));
        }
        assert(out@.to_set() =~= book@.sessions.difference(told(book@, what)));
    }
    out
}

/// Note what came of telling a device: only what was queued for it counts as told.
pub fn conclude_advertisement(
    book: &mut SessionBook,
    what: Advertisement,
    device: Id,
    queued: bool,
)
    ensures
        final(book)@ == if !queued {
            old(book)@
        } else {
            match what {
                Advertisement::Capabilities => BookView {
                    capabilities: old(book)@.capabilities.insert(device),
                    ..old(book)@
                },
                Advertisement::Discovery => BookView {
                    discovery: old(book)@.discovery.insert(device),
                    ..old(book)@
                },
                Advertisement::Rendezvous => BookView {
                    rendezvous: old(book)@.rendezvous.insert(device),
                    ..old(book)@
                },
            }
        },
{
    if queued {
        match what {
            Advertisement::Capabilities => {
                book.capabilities_advertised.insert(device);
            },
            Advertisement::Discovery => {
                book.discovery_advertised.insert(device);
            },
            Advertisement::Rendezvous => {
                book.rendezvous_advertised.insert(device);
            },
        }
    }
}

/// What devices are told about how this account is discovered.
pub struct DiscoveryUpgrade {
    /// The account.
    pub account: Id,
    /// Capability behind its connect code.
    pub capability: Id,
    /// Generation of that capability.
    pub generation: u64,
    /// Generation of the device manifest.
    pub authority_generation: u64,
    /// The routes are all there are.
    pub routes_complete: bool,
    /// The routes, in byte order.
    pub routes: Vec<Vec<u8>>,
}

/// What devices are told about how this account is discovered. Routes are told only when they
/// are known to be complete.
pub fn local_discovery_upgrade(
    account: Id,
    capability: Id,
    generation: u64,
    authority_generation: u64,
    own_routes: &Vec<Vec<u8>>,
    authoritative: bool,
) -> (res: DiscoveryUpgrade)
    ensures
        res.account == account,
        res.capability == capability,
        res.generation == generation,
        res.authority_generation == authority_generation,
        res.routes_complete == authoritative,
        in_byte_order(routes_of(res.routes@)),
        routes_of(res.routes@).to_set() == if authoritative {
            routes_of(own_routes@).to_set()
        } else {
            Set::empty()
        },
        !authoritative ==> res.routes@.len() == 0,
{
    let routes = if authoritative {
        canonical_routes(own_routes)
    } else {
        Vec::new()
    };
    assert(!authoritative ==> routes_of(routes@) =~= Seq::empty());
    assert(!authoritative ==> routes_of(routes@).to_set() =~= Set::empty());
    DiscoveryUpgrade {
        account,
        capability,
        generation,
        authority_generation,
        routes_complete: authoritative,
        routes,
    }
}

/// How a rendezvous provider is reached.
pub struct ProviderDescriptor {
    /// Where it is.
    pub origin: Vec<u8>,
    /// Its key.
    pub static_key: Id,
}

/// A descriptor as a value.
pub open spec fn descriptor_view(d: ProviderDescriptor) -> (Seq<u8>, Id) {
    (d.origin@, d.static_key)
}

/// Descriptors as values.
pub open spec fn descriptor_views(ds: Seq<ProviderDescriptor>) -> Seq<(Seq<u8>, Id)> {
    ds.map_values(|d: ProviderDescriptor| descriptor_view(d))
}

/// A descriptor stands before another: by where the provider is, then by its key.
pub open spec fn descriptor_before(a: (Seq<u8>, Id), b: (Seq<u8>, Id)) -> bool {
    bytes_before(a.0, b.0) || (a.0 == b.0 && !bytes_before(b.1@, a.1@))
}

/// Descriptors in the order in which they are told.
pub open spec fn in_descriptor_order(ds: Seq<(Seq<u8>, Id)>) -> bool {
    forall|i: int, j: int|
        0 <= i < j < ds.len() ==> descriptor_before(#[trigger] ds[i], #[trigger] ds[j])
}

/// What devices are told about rendezvous providers.
pub struct ProviderAnnouncement {
    /// The account.
    pub account: Id,
    /// This device.
    pub device: Id,
    /// Generation of the device manifest.
    pub authority_generation: u64,
    /// Generation of the set.
    pub generation: u64,
    /// The providers.
    pub providers: Vec<ProviderDescriptor>,
}

fn stands_before(a: &ProviderDescriptor, b: &ProviderDescriptor) -> (res: bool)
    ensures
        res == descriptor_before(descriptor_view(*a), descriptor_view(*b)),
{
    if precedes(a.origin.as_slice(), b.origin.as_slice()) {
        return true;
    }
    crate::bytes::same_bytes(&a.origin, &b.origin) && !crate::bytes::id_precedes(
        &b.static_key,
        &a.static_key,
    )
}

proof fn lemma_descriptor_order(a: (Seq<u8>, Id), b: (Seq<u8>, Id), c: (Seq<u8>, Id))
    ensures
        descriptor_before(a, b) || descriptor_before(b, a),
        descriptor_before(a, b) && descriptor_before(b, c) ==> descriptor_before(a, c),
{
    crate::bytes::lemma_before_total(a.0, b.0, 0);
    crate::bytes::lemma_before_total(a.1@, b.1@, 0);
    crate::bytes::lemma_before_total(b.1@, c.1@, 0);
    crate::bytes::lemma_before_total(a.1@, c.1@, 0);
    if bytes_before(a.0, b.0) && bytes_before(b.0, c.0) {
        crate::bytes::lemma_before_transitive(a.0, b.0, c.0, 0);
    }
    if bytes_before(b.1@, a.1@) && bytes_before(a.1@, b.1@) {
        crate::bytes::lemma_before_transitive(a.1@, b.1@, a.1@, 0);
        crate::bytes::lemma_before_irreflexive(a.1@, 0);
    }
    if bytes_before(c.1@, a.1@) {
        if bytes_before(a.1@, b.1@) {
            crate::bytes::lemma_before_transitive(c.1@, a.1@, b.1@, 0);
        }
    }
}

/// What devices are told about rendezvous providers: nothing before the first set, the whole
/// set in order afterwards.
pub fn local_rendezvous_provider_control(
    account: Id,
    device: Id,
    authority_generation: u64,
    generation: u64,
    providers: Vec<ProviderDescriptor>,
) -> (res: Option<ProviderAnnouncement>)
    ensures
        res is None <==> generation == 0,
        res matches Some(told) ==> {
            &&& told.account == account
            &&& told.device == device
            &&& told.authority_generation == authority_generation
            &&& told.generation == generation
            &&& in_descriptor_order(descriptor_views(told.providers@))
            &&& told.providers@.to_multiset() == providers@.to_multiset()
        },
{
    broadcast use vstd::seq_lib::group_to_multiset_ensures;

    if generation == 0 {
        return None;
    }
    let ghost whole = providers@;
    let mut rest = providers;
    let mut out: Vec<ProviderDescriptor> = Vec::new();
    assert(out@.to_multiset().add(rest@.to_multiset()) =~= whole.to_multiset());
    while rest.len() > 0
        invariant
            in_descriptor_order(descriptor_views(out@)),
            out@.to_multiset().add(rest@.to_multiset()) == whole.to_multiset(),
        decreases rest@.len(),
    {
        let ghost left = rest@;
        let next = match rest.pop() {
            Some(next) => next,
            None => {
                return None;
            },
        };
        assert(left =~= rest@.push(next));
        let mut at: usize = 0;
        while at < out.len() && stands_before(&out[at], &next)
            invariant
                at <= out@.len(),
                forall|k: int|
                    0 <= k < at ==> descriptor_before(
                        descriptor_view(#[trigger] out@[k]),
                        descriptor_view(next),
                    ),
            decreases out@.len() - at,
        {
            at = at + 1;
        }
        let ghost prior = out@;
        out.insert(at, next);
        proof {
            vstd::seq_lib::to_multiset_insert(prior, at as int, next);
            vstd::seq_lib::to_multiset_build(rest@, next);
            assert(out@ =~= prior.insert(at as int, next));
            assert(out@.to_multiset().add(rest@.to_multiset()) =~= whole.to_multiset());
            let views = descriptor_views(out@);
            let old_views = descriptor_views(prior);
            assert forall|i: int, j: int| 0 <= i < j < views.len() implies descriptor_before(
                #[trigger] views[i],
                #[trigger] views[j],
            ) by {
                let n = descriptor_view(next);
                if j < at {
                    assert(descriptor_before(old_views[i], old_views[j]));
                } else if j == at {
                    assert(descriptor_before(descriptor_view(prior[i]), n));
                } else if i == at {
                    lemma_descriptor_order(old_views[at as int], n, n);
                    if j - 1 > at {
                        assert(descriptor_before(old_views[at as int], old_views[j - 1]));
                        lemma_descriptor_order(n, old_views[at as int], old_views[j - 1]);
                    }
                } else if i < at {
                    assert(descriptor_before(old_views[i], old_views[j - 1]));
                } else {
                    assert(descriptor_before(old_views[i - 1], old_views[j - 1]));
                }
            }
        }
    }
    assert(out@.to_multiset() =~= whole.to_multiset());
    Some(
        ProviderAnnouncement { account, device, authority_generation, generation, providers: out },
    )
}

// ---- The identity of a device ----

/// A device of a contact, as far as rendezvous with it depends on its certificate.
#[derive(Clone, Copy, Debug, PartialEq, Eq)]
pub struct CertifiedDevice {
    /// The device.
    pub device: Id,
    /// It was revoked.
    pub revoked: bool,
    /// A certificate is on record.
    pub has_certificate: bool,
    /// The certificate can be read to its end, verifies, and names the device and its account.
    pub certificate_valid: bool,
}

/// The device at `k` is the one looked for: live, and with a certificate.
pub open spec fn is_certified(devices: Seq<CertifiedDevice>, device: Id, k: int) -> bool {
    &&& 0 <= k < devices.len()
    &&& devices[k].device == device
    &&& !devices[k].revoked
    &&& devices[k].has_certificate
}

/// Find the record whose certificate gives the identity of a device for rendezvous.
pub fn rendezvous_peer_identity(devices: &Vec<CertifiedDevice>, device: &Id) -> (res: Result<usize>)
    ensures
        match res {
            Ok(at) => {
                &&& is_certified(devices@, *device, at as int)
                &&& devices@[at as int].certificate_valid
                &&& forall|k: int| 0 <= k < at ==> !#[trigger] is_certified(devices@, *device, k)
            },
            Err(NodeError::RendezvousUnavailable) => forall|k: int|
                !#[trigger] is_certified(devices@, *device, k),
            Err(e) => e == NodeError::CorruptState && exists|at: int|
                {
                    &&& #[trigger] is_certified(devices@, *device, at)
                    &&& !devices@[at].certificate_valid
                    &&& forall|k: int|
                        0 <= k < at ==> !#[trigger] is_certified(devices@, *device, k)
                },
        },
{
    let mut i: usize = 0;
    while i < devices.len()
        invariant
            i <= devices@.len(),
            forall|k: int| 0 <= k < i ==> !#[trigger] is_certified(devices@, *device, k),
        decreases devices@.len() - i,
    {
        if same(&devices[i].device, device) && !devices[i].revoked && devices[i].has_certificate {
            assert(is_certified(devices@, *device, i as int));
            if devices[i].certificate_valid {
                return Ok(i);
            }
            return Err(NodeError::CorruptState);
        }
        i = i + 1;
    }
    Err(NodeError::RendezvousUnavailable)
}

// ---- Laws of routes ----

/// The routes of the device itself count before those of the contact, and those before the
/// routes of its account.
pub proof fn law_nearest_routes_count(
    device: Vec<Vec<u8>>,
    contact: Vec<Vec<u8>>,
    account: Vec<Vec<u8>>,
    recorded: RecordedRoutes,
)
    ensures
        recorded.device == Some(device) && device@.len() > 0 ==> base_routes(recorded) == routes_of(
            device@,
        ),
        (recorded.device is None || recorded.device->0@.len() == 0) && recorded.contact == Some(
            contact,
        ) ==> base_routes(recorded) == routes_of(contact@),
        (recorded.device is None || recorded.device->0@.len() == 0) && recorded.contact is None
            && recorded.account == Some(account) ==> base_routes(recorded) == routes_of(account@),
        (recorded.device is None || recorded.device->0@.len() == 0) && recorded.contact is None
            && recorded.account is None ==> base_routes(recorded).len() == 0,
{
}

/// Routes of a provider count while it may be asked and they have not expired.
pub proof fn law_when_routes_are_fresh(provider: ProviderRoutes, now: u64)
    ensures
        is_fresh(provider, now) <==> provider.lookup_enabled && now < provider.expires_at,
{
}

/// Every readable route of every provider whose routes are fresh is used.
pub proof fn law_fresh_routes_are_used(
    providers: Seq<ProviderRoutes>,
    now: u64,
    n: int,
    i: int,
    k: int,
    route: Vec<u8>,
)
    requires
        0 <= i < n <= providers.len(),
        providers[i].lookup_enabled,
        now < providers[i].expires_at,
        0 <= k < providers[i].routes@.len(),
        providers[i].routes@[k] == Some(route),
    ensures
        fresh_routes(providers, now, n).contains(route@),
    decreases n,
{
    let all = fresh_routes(providers, now, n);
    let prior = fresh_routes(providers, now, n - 1);
    if i < n - 1 {
        law_fresh_routes_are_used(providers, now, n - 1, i, k, route);
        let m = choose|m: int| 0 <= m < prior.len() && prior[m] == route@;
        assert(all[m] == route@);
    } else {
        let own = providers[i].routes@;
        lemma_readable(own, own.len() as int, k, route);
        let read = readable(own, own.len() as int);
        let m = choose|m: int| 0 <= m < read.len() && read[m] == route@;
        assert(all[prior.len() + m] == route@);
    }
}

proof fn lemma_readable(routes: Seq<Option<Vec<u8>>>, n: int, k: int, route: Vec<u8>)
    requires
        0 <= k < n <= routes.len(),
        routes[k] == Some(route),
    ensures
        readable(routes, n).contains(route@),
    decreases n,
{
    let all = readable(routes, n);
    let prior = readable(routes, n - 1);
    if k < n - 1 {
        lemma_readable(routes, n - 1, k, route);
        let m = choose|m: int| 0 <= m < prior.len() && prior[m] == route@;
        assert(all[m] == route@);
    } else {
        assert(all.last() == route@);
    }
}

/// A conversation on screen keeps the routes to every live device of the contact fresh, or to
/// the contact itself when it is known and no device is.
pub proof fn law_conversations_on_screen(conversation: ActiveConversation, i: int)
    ensures
        conversation.devices@.len() == 0 && conversation.known ==> active_targets(conversation)
            == seq![conversation.peer],
        conversation.devices@.len() == 0 && !conversation.known ==> active_targets(
            conversation,
        ).len() == 0,
        0 <= i < conversation.devices@.len() && !conversation.devices@[i].revoked
            ==> active_targets(conversation).contains(conversation.devices@[i].device),
{
    crate::contacts::law_whose_routes_are_asked(conversation.peer, conversation.devices@, i);
}

/// A device is looked up when it was asked for, is on screen, or waits without a route; for
/// no other reason.
pub proof fn law_who_is_looked_up(
    requested: Seq<Id>,
    waiting: Seq<WaitingDevice>,
    active: Seq<Id>,
    device: Id,
    k: int,
)
    ensures
        requested.contains(device) ==> is_wanted(requested, waiting, active, device),
        active.contains(device) ==> is_wanted(requested, waiting, active, device),
        0 <= k < waiting.len() && waiting[k].device == device && !waiting[k].has_route
            ==> is_wanted(requested, waiting, active, device),
        !requested.contains(device) && !active.contains(device) && (forall|j: int|
            0 <= j < waiting.len() && (#[trigger] waiting[j]).device == device
                ==> waiting[j].has_route) ==> !is_wanted(requested, waiting, active, device),
{
}

/// Each kind of advertisement is remembered by itself.
pub proof fn law_advertisements_are_remembered_apart(book: BookView)
    ensures
        told(book, Advertisement::Capabilities) == book.capabilities,
        told(book, Advertisement::Discovery) == book.discovery,
        told(book, Advertisement::Rendezvous) == book.rendezvous,
{
}

/// Providers are announced by origin, and of one origin by key.
pub proof fn law_providers_are_announced_in_order(a: (Seq<u8>, Id), b: (Seq<u8>, Id))
    ensures
        bytes_before(a.0, b.0) ==> descriptor_before(a, b) && !descriptor_before(b, a),
        a.0 == b.0 && bytes_before(a.1@, b.1@) ==> descriptor_before(a, b) && !descriptor_before(
            b,
            a,
        ),
{
    if bytes_before(a.0, b.0) {
        if bytes_before(b.0, a.0) {
            crate::bytes::lemma_before_transitive(a.0, b.0, a.0, 0);
        }
        crate::bytes::lemma_before_irreflexive(a.0, 0);
    }
    crate::bytes::lemma_before_irreflexive(a.0, 0);
    if bytes_before(a.1@, b.1@) && bytes_before(b.1@, a.1@) {
        crate::bytes::lemma_before_transitive(a.1@, b.1@, a.1@, 0);
        crate::bytes::lemma_before_irreflexive(a.1@, 0);
    }
}

/// A device is on screen when any conversation there concerns it.
pub proof fn law_devices_on_screen(
    conversations: Seq<ActiveConversation>,
    device: Id,
    k: int,
)
    ensures
        0 <= k < conversations.len() && active_targets(conversations[k]).contains(device)
            ==> is_active(conversations, conversations.len() as int, device),
        (forall|j: int|
            0 <= j < conversations.len() ==> !(#[trigger] active_targets(
                conversations[j],
            )).contains(device)) ==> !is_active(
            conversations,
            conversations.len() as int,
            device,
        ),
{
}

/// Only a live device with a certificate has an identity.
pub proof fn law_certified_devices(devices: Seq<CertifiedDevice>, device: Id, k: int)
    requires
        0 <= k < devices.len(),
    ensures
        devices[k].device != device || devices[k].revoked || !devices[k].has_certificate
            ==> !is_certified(devices, device, k),
        devices[k].device == device && !devices[k].revoked && devices[k].has_certificate
            ==> is_certified(devices, device, k),
{
}

} // verus!
