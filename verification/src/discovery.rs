//! What is published about this account, and what is taken from what others publish.

use vstd::prelude::*;

use crate::bytes::{bytes_before, copy_bytes, same, same_bytes, Id};
use crate::error::{NodeError, Result};
use crate::providers::{all_dirtied, mark_all_dirty, ServiceState};
use crate::relations::{told, Advertisement};
use crate::rendezvous::routes_of;
use crate::routes::{canonical_routes, in_byte_order};
use crate::sessions::{BookView, SessionBook};
use crate::wire::{digest, sha256};

verus! {

/// How long a prekey bundle that is given out can be used.
pub const BUNDLE_TTL_SECS: u64 = 2_592_000;

/// How the account is discovered.
#[derive(Clone, Copy, Debug, PartialEq, Eq, Structural)]
pub enum DiscoveryMode {
    /// Replaceable defaults; public records hold mailboxes only.
    Standard,
    /// Metadata-hiding ingress; public records hold mailboxes only.
    Private,
    /// Run by the user, with a separate switch for direct routes.
    Sovereign,
}

impl Default for DiscoveryMode {
    fn default() -> (res: DiscoveryMode)
        ensures
            res == DiscoveryMode::Standard,
    {
        DiscoveryMode::Standard
    }
}

/// What may be published in one discovery pass.
#[derive(Clone, Copy, Debug, PartialEq, Eq, Structural)]
pub struct DiscoveryPublicationPolicy {
    /// Current operating mode.
    pub mode: DiscoveryMode,
    /// The user knows that holders of the connect code can poll published direct routes.
    pub publish_direct_routes: bool,
}

impl Default for DiscoveryPublicationPolicy {
    fn default() -> (res: DiscoveryPublicationPolicy)
        ensures
            res.mode == DiscoveryMode::Standard,
            !res.publish_direct_routes,
    {
        DiscoveryPublicationPolicy { mode: DiscoveryMode::Standard, publish_direct_routes: false }
    }
}

impl DiscoveryPublicationPolicy {
    /// Direct routes may be published.
    pub open spec fn direct_ok(self) -> bool {
        self.mode == DiscoveryMode::Sovereign && self.publish_direct_routes
    }

    /// Whether direct routes may be published.
    pub fn permits_direct_routes(self) -> (res: bool)
        ensures
            res == self.direct_ok(),
    {
        self.mode == DiscoveryMode::Sovereign && self.publish_direct_routes
    }
}

// ---- Routes ----

/// What a route is.
#[derive(Clone, Copy, Debug, PartialEq, Eq, Structural)]
pub enum HintKind {
    /// A mailbox relay.
    Relay,
    /// A direct address.
    Multiaddr,
    /// A node of the radio mesh.
    MeshNode,
    /// A courier's spool.
    Spool,
    /// Something newer.
    Other,
}

/// A route of this account, with its encoded form.
pub struct Hint {
    /// What it is.
    pub kind: HintKind,
    /// Its encoded form.
    pub value: Vec<u8>,
}

/// The bytes that stand for the two kinds of published routes.
#[derive(Clone, Copy, Debug, PartialEq, Eq)]
pub struct RouteCodes {
    /// A mailbox for introductions.
    pub mailbox: u8,
    /// A direct address.
    pub direct: u8,
}

/// The published form of a route, where it is published: mailboxes always, direct addresses
/// only with consent, everything else never.
pub open spec fn published_route(
    hint: Hint,
    policy: DiscoveryPublicationPolicy,
    codes: RouteCodes,
) -> Option<Seq<u8>> {
    match hint.kind {
        HintKind::Relay => Some(seq![codes.mailbox] + hint.value@),
        HintKind::Multiaddr => if policy.direct_ok() {
            Some(seq![codes.direct] + hint.value@)
        } else {
            None
        },
        _ => None,
    }
}

/// The published forms of the first `n` routes.
pub open spec fn published(
    hints: Seq<Hint>,
    policy: DiscoveryPublicationPolicy,
    codes: RouteCodes,
    n: int,
) -> Seq<Seq<u8>>
    decreases n,
{
    if n <= 0 {
        Seq::empty()
    } else {
        let prior = published(hints, policy, codes, n - 1);
        match published_route(hints[n - 1], policy, codes) {
            Some(route) => prior.push(route),
            None => prior,
        }
    }
}

fn append(out: &mut Vec<u8>, more: &[u8])
    ensures
        final(out)@ == old(out)@ + more@,
{
    let ghost start = out@;
    let mut i: usize = 0;
    assert(start + more@.take(0) =~= start);
    while i < more.len()
        invariant
            i <= more@.len(),
            out@ == start + more@.take(i as int),
        decreases more@.len() - i,
    {
        out.push(more[i]);
        assert(out@ =~= start + more@.take(i + 1));
        i = i + 1;
    }
    assert(more@.take(i as int) =~= more@);
}

/// The routes to publish, each once and in their one order: a byte for the kind, then the
/// encoded route.
pub fn discovery_routes(
    hints: &Vec<Hint>,
    policy: DiscoveryPublicationPolicy,
    codes: RouteCodes,
    max_routes: usize,
) -> (res: Result<Vec<Vec<u8>>>)
    ensures
        ({
            let wanted = published(hints@, policy, codes, hints@.len() as int).to_set();
            match res {
                Ok(routes) => in_byte_order(routes_of(routes@)) && routes_of(routes@).to_set()
                    == wanted && routes@.len() <= max_routes,
                Err(e) => e == NodeError::TooLarge && wanted.len() > max_routes,
            }
        }),
{
    let ghost n = hints@.len() as int;
    let mut all: Vec<Vec<u8>> = Vec::new();
    let mut i: usize = 0;
    assert(routes_of(all@) =~= published(hints@, policy, codes, 0));
    while i < hints.len()
        invariant
            i <= hints@.len(),
            routes_of(all@) == published(hints@, policy, codes, i as int),
        decreases hints@.len() - i,
    {
        let code = match hints[i].kind {
            HintKind::Relay => Some(codes.mailbox),
            HintKind::Multiaddr => if policy.permits_direct_routes() {
                Some(codes.direct)
            } else {
                None
            },
            _ => None,
        };
        if let Some(code) = code {
            let mut route: Vec<u8> = Vec::new();
            route.push(code);
            append(&mut route, hints[i].value.as_slice());
            assert(route@ =~= seq![code] + hints@[i as int].value@);
            let ghost prior = all@;
            let ghost own = route@;
            all.push(route);
            assert(routes_of(all@) =~= routes_of(prior).push(own));
        }
        i = i + 1;
    }
    let routes = canonical_routes(&all);
    proof {
        let r = routes_of(routes@);
        lemma_byte_order_len(r);
        assert(r.to_set().len() == r.len());
    }
    if routes.len() > max_routes {
        return Err(NodeError::TooLarge);
    }
    Ok(routes)
}

proof fn lemma_byte_order_len(values: Seq<Seq<u8>>)
    requires
        in_byte_order(values),
    ensures
        values.to_set().len() == values.len(),
{
    assert forall|i: int, j: int|
        0 <= i < values.len() && 0 <= j < values.len() && i != j implies values[i]
        != values[j] by {
        crate::bytes::lemma_before_irreflexive(values[i], 0);
        if i < j {
            assert(bytes_before(values[i], values[j]));
        } else {
            assert(bytes_before(values[j], values[i]));
        }
    }
    values.unique_seq_to_set();
}

/// Without consent in sovereign mode nothing but mailboxes is published.
pub proof fn law_direct_routes_need_consent(
    hints: Seq<Hint>,
    policy: DiscoveryPublicationPolicy,
    codes: RouteCodes,
    n: int,
    k: int,
)
    requires
        0 <= n <= hints.len(),
        !policy.direct_ok(),
        0 <= k < published(hints, policy, codes, n).len(),
    ensures
        exists|i: int|
            0 <= i < n && (#[trigger] hints[i]).kind == HintKind::Relay && published(
                hints,
                policy,
                codes,
                n,
            )[k] == seq![codes.mailbox] + hints[i].value@,
    decreases n,
{
    if n > 0 {
        let prior = published(hints, policy, codes, n - 1);
        if k < prior.len() {
            law_direct_routes_need_consent(hints, policy, codes, n - 1, k);
            let i = choose|i: int|
                0 <= i < n - 1 && (#[trigger] hints[i]).kind == HintKind::Relay && prior[k]
                    == seq![codes.mailbox] + hints[i].value@;
            assert(hints[i].kind == HintKind::Relay);
        } else {
            assert(hints[n - 1].kind == HintKind::Relay);
        }
    }
}

/// Whether a published route is what its kind says: a mailbox is a relay, a direct route an
/// address, and nothing stands behind the encoded route.
pub fn route_matches(code: u8, codes: RouteCodes, kind: HintKind, complete: bool) -> (res: bool)
    ensures
        res == (complete && ((code == codes.mailbox && kind == HintKind::Relay) || (code
            == codes.direct && kind == HintKind::Multiaddr))),
{
    complete && ((code == codes.mailbox && kind == HintKind::Relay) || (code == codes.direct && kind
        == HintKind::Multiaddr))
}

/// Whether the routes of a discovery upgrade are all in canonical form: each decodes, with
/// nothing behind it, to something that encodes to the same bytes. `encoded` holds what each
/// one encodes to again, where it decodes completely.
pub fn validate_upgrade_routes(routes: &Vec<Vec<u8>>, encoded: &Vec<Option<Vec<u8>>>) -> (res:
    Result<()>)
    requires
        encoded@.len() == routes@.len(),
    ensures
        ({
            let ok = forall|i: int|
                0 <= i < routes@.len() ==> (#[trigger] encoded@[i]) is Some && encoded@[i]->0@
                    == routes@[i]@;
            match res {
                Ok(_) => ok,
                Err(e) => !ok && e == NodeError::CorruptState,
            }
        }),
{
    let mut i: usize = 0;
    while i < routes.len()
        invariant
            i <= routes@.len(),
            encoded@.len() == routes@.len(),
            forall|k: int|
                0 <= k < i ==> (#[trigger] encoded@[k]) is Some && encoded@[k]->0@ == routes@[k]@,
        decreases routes@.len() - i,
    {
        let right = match &encoded[i] {
            Some(bytes) => same_bytes(bytes, &routes[i]),
            None => false,
        };
        if !right {
            assert(!(encoded@[i as int] is Some && encoded@[i as int]->0@ == routes@[i as int]@));
            return Err(NodeError::CorruptState);
        }
        i = i + 1;
    }
    Ok(())
}

// ---- The capability behind the connect code ----

/// The state of discovery that a profile keeps.
#[derive(Clone, Copy, Debug, PartialEq, Eq)]
pub struct DiscoveryState {
    /// Capability behind the connect code; all zeros before there is one.
    pub capability: Id,
    /// Generation of what is published.
    pub generation: u64,
    /// Records of the former kind are published too.
    pub legacy_v1_enabled: bool,
}

/// Give the account a new connect code. Records of the former kind would lead around it, so
/// they end with it.
pub fn rotate_connect_code(state: &DiscoveryState, minted: Id) -> (res: Result<DiscoveryState>)
    ensures
        match res {
            Ok(after) => after == (DiscoveryState {
                capability: minted,
                generation: (state.generation + 1) as u64,
                legacy_v1_enabled: false,
            }) && state.generation < u64::MAX,
            Err(e) => state.generation == u64::MAX && e == NodeError::CorruptState,
        },
{
    if state.generation == u64::MAX {
        return Err(NodeError::CorruptState);
    }
    Ok(
        DiscoveryState {
            capability: minted,
            generation: state.generation + 1,
            legacy_v1_enabled: false,
        },
    )
}

/// Stop publishing records of the former kind. Nothing comes back where that was done
/// before.
pub fn retire_legacy_discovery(state: &DiscoveryState) -> (res: Result<Option<DiscoveryState>>)
    ensures
        match res {
            Ok(None) => !state.legacy_v1_enabled,
            Ok(Some(after)) => state.legacy_v1_enabled && state.generation < u64::MAX && after == (
            DiscoveryState {
                capability: state.capability,
                generation: (state.generation + 1) as u64,
                legacy_v1_enabled: false,
            }),
            Err(e) => state.legacy_v1_enabled && state.generation == u64::MAX && e
                == NodeError::CorruptState,
        },
{
    if !state.legacy_v1_enabled {
        return Ok(None);
    }
    if state.generation == u64::MAX {
        return Err(NodeError::CorruptState);
    }
    Ok(
        Some(
            DiscoveryState {
                capability: state.capability,
                generation: state.generation + 1,
                legacy_v1_enabled: false,
            },
        ),
    )
}

/// A changed state of discovery was recorded and takes effect: every device is told the
/// capability again.
pub fn adopt_discovery(state: &mut DiscoveryState, book: &mut SessionBook, next: DiscoveryState)
    ensures
        *final(state) == next,
        final(book)@ == old(book)@.discovery_renewed(),
{
    *state = next;
    book.renew_discovery();
}

/// After the connect code was rotated, former records were retired or something was published,
/// every device with a session is due to be told.
pub proof fn law_changes_of_discovery_are_told_to_every_device(book: BookView)
    ensures
        ({
            let after = book.discovery_renewed();
            after.sessions.difference(told(after, Advertisement::Discovery)) == book.sessions
        }),
{
    let after = book.discovery_renewed();
    assert(after.sessions.difference(told(after, Advertisement::Discovery)) =~= book.sessions);
}

/// The routes on which this device is reached.
pub struct OwnRoutes {
    /// The routes.
    pub hints: Vec<Hint>,
    /// They are known to be all.
    pub authoritative: bool,
}

/// Routes were given out as all there are: they replace those known before, every device is
/// told, and every provider gets them at once. `services` are the providers of each device
/// with a session.
pub fn adopt_own_routes(
    own: &mut OwnRoutes,
    book: &mut SessionBook,
    services: &mut Vec<ServiceState>,
    hints: Vec<Hint>,
)
    requires
        forall|i: int| 0 <= i < old(services)@.len() ==> (#[trigger] old(services)@[i]).wf(),
    ensures
        *final(own) == (OwnRoutes { hints, authoritative: true }),
        final(book)@ == old(book)@.discovery_renewed(),
        final(services)@.len() == old(services)@.len(),
        forall|i: int|
            0 <= i < final(services)@.len() ==> (#[trigger] final(services)@[i]).wf()
                && final(services)@[i]@ == all_dirtied(old(services)@[i]@),
{
    *own = OwnRoutes { hints, authoritative: true };
    book.renew_discovery();
    mark_all_dirty(services);
}

/// A publication that is about to be made.
pub struct Publication {
    /// The state of discovery with which it is made.
    pub state: DiscoveryState,
    /// The routes that it names.
    pub routes: Vec<Vec<u8>>,
}

/// Begin a publication: it takes the next generation, and names of the routes those that the
/// policy lets out.
pub fn begin_publication(
    state: &DiscoveryState,
    planes: usize,
    hints: &Vec<Hint>,
    policy: DiscoveryPublicationPolicy,
    codes: RouteCodes,
    max_routes: usize,
) -> (res: Result<Publication>)
    ensures
        ({
            let wanted = published(hints@, policy, codes, hints@.len() as int).to_set();
            match res {
                Ok(p) => {
                    &&& planes > 0
                    &&& state.generation < u64::MAX
                    &&& p.state == (DiscoveryState {
                        generation: (state.generation + 1) as u64,
                        ..*state
                    })
                    &&& in_byte_order(routes_of(p.routes@))
                    &&& routes_of(p.routes@).to_set() == wanted
                    &&& p.routes@.len() <= max_routes
                },
                Err(e) => if planes == 0 {
                    e == NodeError::NoDiscovery
                } else if wanted.len() > max_routes {
                    e == NodeError::TooLarge
                } else {
                    state.generation == u64::MAX && e == NodeError::CorruptState
                },
            }
        }),
{
    if planes == 0 {
        return Err(NodeError::NoDiscovery);
    }
    let routes = match discovery_routes(hints, policy, codes, max_routes) {
        Ok(routes) => routes,
        Err(e) => {
            return Err(e);
        },
    };
    proof {
        lemma_byte_order_len(routes_of(routes@));
    }
    if state.generation == u64::MAX {
        return Err(NodeError::CorruptState);
    }
    let state = DiscoveryState {
        capability: state.capability,
        generation: state.generation + 1,
        legacy_v1_enabled: state.legacy_v1_enabled,
    };
    Ok(Publication { state, routes })
}

/// A publication was recorded and takes effect, before it goes out: its generation is used up,
/// the routes are known to be all, every device is told, and every provider gets them.
pub fn adopt_publication(
    state: &mut DiscoveryState,
    own: &mut OwnRoutes,
    book: &mut SessionBook,
    services: &mut Vec<ServiceState>,
    publication: &Publication,
    hints: Vec<Hint>,
)
    requires
        forall|i: int| 0 <= i < old(services)@.len() ==> (#[trigger] old(services)@[i]).wf(),
    ensures
        *final(state) == publication.state,
        *final(own) == (OwnRoutes { hints, authoritative: true }),
        final(book)@ == old(book)@.discovery_renewed(),
        final(services)@.len() == old(services)@.len(),
        forall|i: int|
            0 <= i < final(services)@.len() ==> (#[trigger] final(services)@[i]).wf()
                && final(services)@[i]@ == all_dirtied(old(services)@[i]@),
{
    *state = publication.state;
    adopt_own_routes(own, book, services, hints);
}

/// A record of the former kind.
pub struct FormerRecord {
    /// The routes that it names.
    pub hints: Vec<Hint>,
    /// When it expires.
    pub expires_at: u64,
}

/// The mailboxes among the first `n` routes.
pub open spec fn mailboxes(hints: Seq<Hint>, n: int) -> Seq<Seq<u8>>
    decreases n,
{
    if n <= 0 {
        Seq::empty()
    } else if hints[n - 1].kind == HintKind::Relay {
        mailboxes(hints, n - 1).push(hints[n - 1].value@)
    } else {
        mailboxes(hints, n - 1)
    }
}

/// Every route is a mailbox with that address.
pub open spec fn are_mailboxes(hints: Seq<Hint>, values: Seq<Seq<u8>>) -> bool {
    &&& hints.len() == values.len()
    &&& forall|k: int|
        0 <= k < hints.len() ==> (#[trigger] hints[k]).kind == HintKind::Relay && hints[k].value@
            == values[k]
}

/// The record of the former kind that goes with a publication, while such records are
/// published. Whatever the policy lets out, it names mailboxes only.
pub fn former_record(state: &DiscoveryState, hints: &Vec<Hint>, now: u64) -> (res: Option<
    FormerRecord,
>)
    ensures
        match res {
            None => !state.legacy_v1_enabled,
            Some(record) => {
                &&& state.legacy_v1_enabled
                &&& are_mailboxes(record.hints@, mailboxes(hints@, hints@.len() as int))
                &&& record.expires_at == if now + BUNDLE_TTL_SECS > u64::MAX {
                    u64::MAX as int
                } else {
                    now + BUNDLE_TTL_SECS
                }
            },
        },
{
    if !state.legacy_v1_enabled {
        return None;
    }
    let mut out: Vec<Hint> = Vec::new();
    let mut i: usize = 0;
    while i < hints.len()
        invariant
            i <= hints@.len(),
            are_mailboxes(out@, mailboxes(hints@, i as int)),
        decreases hints@.len() - i,
    {
        if hints[i].kind == HintKind::Relay {
            out.push(Hint { kind: HintKind::Relay, value: copy_bytes(&hints[i].value) });
        }
        i = i + 1;
    }
    Some(FormerRecord { hints: out, expires_at: now.saturating_add(BUNDLE_TTL_SECS) })
}

/// The epochs around the current one, first and last.
pub fn epochs_around(current: u64, behind: u64, ahead: u64) -> (res: Result<(u64, u64)>)
    ensures
        match res {
            Ok((first, last)) => {
                &&& first == if current > behind {
                    current - behind
                } else {
                    0
                }
                &&& last == current + ahead
            },
            Err(e) => current + ahead > u64::MAX && e == NodeError::CorruptState,
        },
{
    match current.checked_add(ahead) {
        Some(last) => Ok((current.saturating_sub(behind), last)),
        None => Err(NodeError::CorruptState),
    }
}

/// All records were taken.
pub open spec fn all_taken(results: Seq<bool>) -> bool {
    forall|k: int| 0 <= k < results.len() ==> #[trigger] results[k]
}

/// Whether a publication succeeded: some plane took all of its records. `results` holds what
/// each plane said to each record. What was published is then remembered, by its digest; a
/// publication that failed leaves what is remembered.
pub fn conclude_publication(
    results: &Vec<Vec<bool>>,
    published: &mut Option<Id>,
    material: Id,
) -> (res: Result<()>)
    ensures
        ({
            let done = exists|p: int|
                0 <= p < results@.len() && all_taken((#[trigger] results@[p])@);
            match res {
                Ok(_) => done && *final(published) == Some(material),
                Err(e) => !done && e == NodeError::NoDiscovery && *final(published) == *old(
                    published,
                ),
            }
        }),
{
    let mut p: usize = 0;
    while p < results.len()
        invariant
            p <= results@.len(),
            *published == *old(published),
            forall|q: int| 0 <= q < p ==> !all_taken((#[trigger] results@[q])@),
        decreases results@.len() - p,
    {
        if every(&results[p]) {
            assert(all_taken(results@[p as int]@));
            *published = Some(material);
            return Ok(());
        }
        p = p + 1;
    }
    Err(NodeError::NoDiscovery)
}

fn every(results: &Vec<bool>) -> (res: bool)
    ensures
        res == all_taken(results@),
{
    let mut k: usize = 0;
    while k < results.len()
        invariant
            k <= results@.len(),
            forall|m: int| 0 <= m < k ==> #[trigger] results@[m],
        decreases results@.len() - k,
    {
        if !results[k] {
            assert(!results@[k as int]);
            return false;
        }
        k = k + 1;
    }
    true
}

// ---- What a publication is made from ----

/// Everything that a publication is made from. Secrets are not among it.
pub struct PublicationMaterial {
    /// Digest behind the account's address.
    pub address_digest: Id,
    /// This device.
    pub device: Id,
    /// Capability behind the connect code.
    pub capability: Id,
    /// Records of the former kind are published too.
    pub legacy_v1_enabled: bool,
    /// The encoded manifest.
    pub manifest: Vec<u8>,
    /// Number of the signed prekey.
    pub spk_id: u32,
    /// The signed prekey.
    pub spk: Vec<u8>,
    /// Number of the post-quantum prekey.
    pub pqspk_id: u32,
    /// The post-quantum prekey.
    pub pqspk: Vec<u8>,
    /// Difficulty of admission.
    pub difficulty: u8,
    /// Largest first flight.
    pub max_first_ciphertext: u32,
    /// Largest difference between clocks.
    pub max_clock_skew_secs: u64,
    /// Issuers of admission tokens.
    pub token_issuers: u64,
    /// What may be published.
    pub policy: DiscoveryPublicationPolicy,
    /// The routes: a byte for the kind, then the encoded route.
    pub routes: Vec<Vec<u8>>,
}

/// A number in eight bytes, largest first.
pub open spec fn be64(x: u64) -> Seq<u8> {
    seq![
        (x / 0x0100_0000_0000_0000) as u8,
        (x / 0x0001_0000_0000_0000 % 256) as u8,
        (x / 0x0000_0100_0000_0000 % 256) as u8,
        (x / 0x0000_0001_0000_0000 % 256) as u8,
        (x / 0x0100_0000 % 256) as u8,
        (x / 0x0001_0000 % 256) as u8,
        (x / 0x0100 % 256) as u8,
        (x % 256) as u8,
    ]
}

/// A number in four bytes, largest first.
pub open spec fn be32(x: u32) -> Seq<u8> {
    seq![
        (x / 0x0100_0000) as u8,
        (x / 0x0001_0000 % 256) as u8,
        (x / 0x0100 % 256) as u8,
        (x % 256) as u8,
    ]
}

/// A truth value in a byte.
pub open spec fn flag(b: bool) -> Seq<u8> {
    if b {
        seq![1u8]
    } else {
        seq![0u8]
    }
}

/// A mode in a byte.
pub open spec fn mode_byte(mode: DiscoveryMode) -> u8 {
    match mode {
        DiscoveryMode::Standard => 1,
        DiscoveryMode::Private => 2,
        DiscoveryMode::Sovereign => 3,
    }
}

/// The first bytes of all material.
pub open spec fn material_label() -> Seq<u8> {
    seq![
        75u8, 111, 109, 109, 115, 45, 68, 105, 115, 99, 111, 118, 101, 114, 121, 45, 80, 117, 98,
        108, 105, 99, 97, 116, 105, 111, 110, 45, 77, 97, 116, 101, 114, 105, 97, 108, 45, 118, 50,
    ]
}

/// The bytes of the first `n` routes: the kind, the length of the encoded route, and the
/// encoded route.
pub open spec fn route_bytes(routes: Seq<Seq<u8>>, n: int) -> Seq<u8>
    decreases n,
{
    if n <= 0 {
        Seq::empty()
    } else {
        let route = routes[n - 1];
        route_bytes(routes, n - 1) + route.take(1) + be64((route.len() - 1) as u64) + route.skip(1)
    }
}

/// The bytes that a publication is recognised by.
pub open spec fn material_bytes(m: PublicationMaterial) -> Seq<u8> {
    material_label() + m.address_digest@ + m.device@ + m.capability@ + flag(m.legacy_v1_enabled)
        + be64(m.manifest@.len() as u64) + m.manifest@ + be32(m.spk_id) + m.spk@ + be32(m.pqspk_id)
        + be64(m.pqspk@.len() as u64) + m.pqspk@ + seq![m.difficulty] + be32(
        m.max_first_ciphertext,
    ) + be64(m.max_clock_skew_secs) + be64(m.token_issuers) + seq![mode_byte(m.policy.mode)] + flag(
        m.policy.publish_direct_routes,
    ) + be64(m.routes@.len() as u64) + route_bytes(routes_of(m.routes@), m.routes@.len() as int)
}

fn append_be64(out: &mut Vec<u8>, x: u64)
    ensures
        final(out)@ == old(out)@ + be64(x),
{
    let ghost start = out@;
    out.push((x / 0x0100_0000_0000_0000) as u8);
    out.push((x / 0x0001_0000_0000_0000 % 256) as u8);
    out.push((x / 0x0000_0100_0000_0000 % 256) as u8);
    out.push((x / 0x0000_0001_0000_0000 % 256) as u8);
    out.push((x / 0x0100_0000 % 256) as u8);
    out.push((x / 0x0001_0000 % 256) as u8);
    out.push((x / 0x0100 % 256) as u8);
    out.push((x % 256) as u8);
    assert(out@ =~= start + be64(x));
}

fn append_be32(out: &mut Vec<u8>, x: u32)
    ensures
        final(out)@ == old(out)@ + be32(x),
{
    let ghost start = out@;
    out.push((x / 0x0100_0000) as u8);
    out.push((x / 0x0001_0000 % 256) as u8);
    out.push((x / 0x0100 % 256) as u8);
    out.push((x % 256) as u8);
    assert(out@ =~= start + be32(x));
}

fn append_flag(out: &mut Vec<u8>, b: bool)
    ensures
        final(out)@ == old(out)@ + flag(b),
{
    let ghost start = out@;
    if b {
        out.push(1);
    } else {
        out.push(0);
    }
    assert(out@ =~= start + flag(b));
}

fn append_byte(out: &mut Vec<u8>, b: u8)
    ensures
        final(out)@ == old(out)@ + seq![b],
{
    let ghost start = out@;
    out.push(b);
    assert(out@ =~= start + seq![b]);
}

fn append_routes(out: &mut Vec<u8>, routes: &Vec<Vec<u8>>)
    requires
        forall|i: int| 0 <= i < routes@.len() ==> (#[trigger] routes@[i])@.len() > 0,
    ensures
        final(out)@ == old(out)@ + route_bytes(routes_of(routes@), routes@.len() as int),
{
    let ghost start = out@;
    let ghost all = routes_of(routes@);
    let mut i: usize = 0;
    assert(start + route_bytes(all, 0) =~= start);
    while i < routes.len()
        invariant
            i <= routes@.len(),
            all == routes_of(routes@),
            forall|k: int| 0 <= k < routes@.len() ==> (#[trigger] routes@[k])@.len() > 0,
            out@ == start + route_bytes(all, i as int),
        decreases routes@.len() - i,
    {
        let route = &routes[i];
        assert(all[i as int] == route@);
        let ghost before = out@;
        append_byte(out, route[0]);
        append_be64(out, (route.len() - 1) as u64);
        let ghost begun = out@;
        let mut k: usize = 1;
        assert(begun + route@.subrange(1, 1) =~= begun);
        while k < route.len()
            invariant
                1 <= k <= route@.len(),
                out@ == begun + route@.subrange(1, k as int),
            decreases route@.len() - k,
        {
            out.push(route[k]);
            assert(out@ =~= begun + route@.subrange(1, k + 1));
            k = k + 1;
        }
        proof {
            assert(route@.take(1) =~= seq![route@[0]]);
            assert(route@.subrange(1, k as int) =~= route@.skip(1));
            assert(out@ =~= start + route_bytes(all, i + 1));
        }
        i = i + 1;
    }
}

/// The bytes that a publication is recognised by.
pub fn encode_material(m: &PublicationMaterial) -> (res: Vec<u8>)
    requires
        names_routes(*m),
    ensures
        res@ == material_bytes(*m),
{
    let label: [u8; 39] = [
        75, 111, 109, 109, 115, 45, 68, 105, 115, 99, 111, 118, 101, 114, 121, 45, 80, 117, 98, 108,
        105, 99, 97, 116, 105, 111, 110, 45, 77, 97, 116, 101, 114, 105, 97, 108, 45, 118, 50,
    ];
    let mut out: Vec<u8> = Vec::new();
    append(&mut out, label.as_slice());
    assert(out@ =~= material_label());
    append(&mut out, m.address_digest.as_slice());
    append(&mut out, m.device.as_slice());
    append(&mut out, m.capability.as_slice());
    append_flag(&mut out, m.legacy_v1_enabled);
    append_be64(&mut out, m.manifest.len() as u64);
    append(&mut out, m.manifest.as_slice());
    append_be32(&mut out, m.spk_id);
    append(&mut out, m.spk.as_slice());
    append_be32(&mut out, m.pqspk_id);
    append_be64(&mut out, m.pqspk.len() as u64);
    append(&mut out, m.pqspk.as_slice());
    append_byte(&mut out, m.difficulty);
    append_be32(&mut out, m.max_first_ciphertext);
    append_be64(&mut out, m.max_clock_skew_secs);
    append_be64(&mut out, m.token_issuers);
    let mode: u8 = match m.policy.mode {
        DiscoveryMode::Standard => 1,
        DiscoveryMode::Private => 2,
        DiscoveryMode::Sovereign => 3,
    };
    append_byte(&mut out, mode);
    append_flag(&mut out, m.policy.publish_direct_routes);
    append_be64(&mut out, m.routes.len() as u64);
    append_routes(&mut out, &m.routes);
    out
}

/// Every route of the material says of what kind it is.
pub open spec fn names_routes(m: PublicationMaterial) -> bool {
    forall|i: int| 0 <= i < m.routes@.len() ==> (#[trigger] m.routes@[i])@.len() > 0
}

/// Whether every route of the material says of what kind it is.
pub fn are_routes_named(m: &PublicationMaterial) -> (res: bool)
    ensures
        res == names_routes(*m),
{
    let mut i: usize = 0;
    while i < m.routes.len()
        invariant
            i <= m.routes@.len(),
            forall|k: int| 0 <= k < i ==> (#[trigger] m.routes@[k])@.len() > 0,
        decreases m.routes@.len() - i,
    {
        if m.routes[i].len() == 0 {
            assert(m.routes@[i as int]@.len() == 0);
            return false;
        }
        i = i + 1;
    }
    true
}

/// The digest that a publication is recognised by.
pub fn discovery_material_digest(m: &PublicationMaterial) -> (res: Id)
    requires
        names_routes(*m),
    ensures
        res@ == sha256(material_bytes(*m)),
{
    let bytes = encode_material(m);
    digest(bytes.as_slice())
}

/// Whether a publication is needed: its material is not that of the last complete one.
pub fn discovery_publication_needed(last: &Option<Id>, current: &Id) -> (res: bool)
    ensures
        res == (*last != Some(*current)),
{
    match last {
        Some(published) => !same(published, current),
        None => true,
    }
}

// ---- Laws of publication ----

/// Direct routes are published only by a sovereign node that asked for it.
pub proof fn law_direct_routes_are_sovereign(policy: DiscoveryPublicationPolicy)
    ensures
        policy.direct_ok() <==> policy.mode == DiscoveryMode::Sovereign
            && policy.publish_direct_routes,
{
}

/// A mailbox is always published under its code, a direct route under its own where it may
/// be, and no other route ever.
pub proof fn law_published_routes(hint: Hint, policy: DiscoveryPublicationPolicy, codes: RouteCodes)
    ensures
        hint.kind == HintKind::Relay ==> published_route(hint, policy, codes) == Some(
            seq![codes.mailbox] + hint.value@,
        ),
        hint.kind == HintKind::Multiaddr && policy.direct_ok() ==> published_route(
            hint,
            policy,
            codes,
        ) == Some(seq![codes.direct] + hint.value@),
        hint.kind == HintKind::Multiaddr && !policy.direct_ok() ==> published_route(
            hint,
            policy,
            codes,
        ) is None,
        hint.kind == HintKind::MeshNode || hint.kind == HintKind::Spool || hint.kind
            == HintKind::Other ==> published_route(hint, policy, codes) is None,
{
}

/// Every route that may be published is.
pub proof fn law_every_mailbox_is_published(
    hints: Seq<Hint>,
    policy: DiscoveryPublicationPolicy,
    codes: RouteCodes,
    n: int,
    i: int,
)
    requires
        0 <= i < n <= hints.len(),
    ensures
        hints[i].kind == HintKind::Relay ==> published(hints, policy, codes, n).contains(
            seq![codes.mailbox] + hints[i].value@,
        ) && mailboxes(hints, n).contains(hints[i].value@),
        hints[i].kind == HintKind::Multiaddr && policy.direct_ok() ==> published(
            hints,
            policy,
            codes,
            n,
        ).contains(seq![codes.direct] + hints[i].value@),
    decreases n,
{
    let all = published(hints, policy, codes, n);
    let prior = published(hints, policy, codes, n - 1);
    let boxes = mailboxes(hints, n);
    let mailbox = seq![codes.mailbox] + hints[i].value@;
    let direct = seq![codes.direct] + hints[i].value@;
    if i < n - 1 {
        law_every_mailbox_is_published(hints, policy, codes, n - 1, i);
        if prior.contains(mailbox) {
            let k = choose|k: int| 0 <= k < prior.len() && prior[k] == mailbox;
            assert(all[k] == mailbox);
        }
        if prior.contains(direct) {
            let k = choose|k: int| 0 <= k < prior.len() && prior[k] == direct;
            assert(all[k] == direct);
        }
        let before = mailboxes(hints, n - 1);
        if before.contains(hints[i].value@) {
            let k = choose|k: int| 0 <= k < before.len() && before[k] == hints[i].value@;
            assert(boxes[k] == hints[i].value@);
        }
    } else {
        if hints[i].kind == HintKind::Relay {
            assert(all.last() == mailbox);
            assert(boxes.last() == hints[i].value@);
        } else if hints[i].kind == HintKind::Multiaddr && policy.direct_ok() {
            assert(all.last() == direct);
        }
    }
}

/// A former record names mailboxes and nothing else.
pub proof fn law_former_records_name_mailboxes(hints: Seq<Hint>, n: int, k: int)
    requires
        0 <= n <= hints.len(),
        0 <= k < mailboxes(hints, n).len(),
    ensures
        exists|i: int|
            0 <= i < n && (#[trigger] hints[i]).kind == HintKind::Relay && hints[i].value@
                == mailboxes(hints, n)[k],
    decreases n,
{
    if n > 0 {
        let prior = mailboxes(hints, n - 1);
        let all = mailboxes(hints, n);
        if k < prior.len() {
            law_former_records_name_mailboxes(hints, n - 1, k);
            assert(all[k] == prior[k]);
        } else {
            assert(hints[n - 1].value@ == all[k]);
        }
    }
}

/// Numbers are written with their highest byte first.
pub proof fn law_numbers_are_big_endian(x: u64, y: u32)
    ensures
        be64(x).len() == 8,
        be32(y).len() == 4,
        x == be64(x)[0] * 0x0100_0000_0000_0000 + be64(x)[1] * 0x0001_0000_0000_0000 + be64(x)[2]
            * 0x0000_0100_0000_0000 + be64(x)[3] * 0x0000_0001_0000_0000 + be64(x)[4] * 0x0100_0000
            + be64(x)[5] * 0x0001_0000 + be64(x)[6] * 0x0100 + be64(x)[7],
        y == be32(y)[0] * 0x0100_0000 + be32(y)[1] * 0x0001_0000 + be32(y)[2] * 0x0100 + be32(y)[3],
{
    let a = be64(x);
    let b = be32(y);
    let a0: u64 = x / 0x0100_0000_0000_0000;
    let a1: u64 = x / 0x0001_0000_0000_0000 % 256;
    let a2: u64 = x / 0x0000_0100_0000_0000 % 256;
    let a3: u64 = x / 0x0000_0001_0000_0000 % 256;
    let a4: u64 = x / 0x0100_0000 % 256;
    let a5: u64 = x / 0x0001_0000 % 256;
    let a6: u64 = x / 0x0100 % 256;
    let a7: u64 = x % 256;
    assert(a0 < 256 && x == a0 * 0x0100_0000_0000_0000 + a1 * 0x0001_0000_0000_0000 + a2
        * 0x0000_0100_0000_0000 + a3 * 0x0000_0001_0000_0000 + a4 * 0x0100_0000 + a5 * 0x0001_0000
        + a6 * 0x0100 + a7) by (bit_vector)
        requires
            a0 == x / 0x0100_0000_0000_0000,
            a1 == x / 0x0001_0000_0000_0000 % 256,
            a2 == x / 0x0000_0100_0000_0000 % 256,
            a3 == x / 0x0000_0001_0000_0000 % 256,
            a4 == x / 0x0100_0000 % 256,
            a5 == x / 0x0001_0000 % 256,
            a6 == x / 0x0100 % 256,
            a7 == x % 256,
    ;
    assert(a[0] == a0 && a[1] == a1 && a[2] == a2 && a[3] == a3);
    assert(a[4] == a4 && a[5] == a5 && a[6] == a6 && a[7] == a7);
    let b0: u32 = y / 0x0100_0000;
    let b1: u32 = y / 0x0001_0000 % 256;
    let b2: u32 = y / 0x0100 % 256;
    let b3: u32 = y % 256;
    assert(b0 < 256 && y == b0 * 0x0100_0000 + b1 * 0x0001_0000 + b2 * 0x0100 + b3) by (bit_vector)
        requires
            b0 == y / 0x0100_0000,
            b1 == y / 0x0001_0000 % 256,
            b2 == y / 0x0100 % 256,
            b3 == y % 256,
    ;
    assert(b[0] == b0 && b[1] == b1 && b[2] == b2 && b[3] == b3);
}

/// The three modes and the two flags are told apart.
pub proof fn law_modes_are_told_apart()
    ensures
        mode_byte(DiscoveryMode::Standard) == 1,
        mode_byte(DiscoveryMode::Private) == 2,
        mode_byte(DiscoveryMode::Sovereign) == 3,
        flag(true) == seq![1u8],
        flag(false) == seq![0u8],
{
}

/// The material of a publication starts with its label, the addressee, the device, the
/// capability and whether the former form is enabled, and ends with the routes.
#[verifier::rlimit(60)]
#[verifier::spinoff_prover]
pub proof fn law_layout_of_material(m: PublicationMaterial)
    ensures
        material_bytes(m).len() >= 136,
        material_bytes(m).subrange(0, 39) == material_label(),
        material_bytes(m).subrange(39, 71) == m.address_digest@,
        material_bytes(m).subrange(71, 103) == m.device@,
        material_bytes(m).subrange(103, 135) == m.capability@,
        material_bytes(m)[135] == if m.legacy_v1_enabled {
            1u8
        } else {
            0u8
        },
        material_bytes(m).subrange(136, 144) == be64(m.manifest@.len() as u64),
        material_bytes(m).subrange(144, 144 + m.manifest@.len() as int) == m.manifest@,
{
    let head = material_label() + m.address_digest@ + m.device@ + m.capability@ + flag(
        m.legacy_v1_enabled,
    ) + be64(m.manifest@.len() as u64) + m.manifest@;
    let n = 144 + m.manifest@.len() as int;
    assert(head.len() == n);
    lemma_material_head(m);
    let all = material_bytes(m);
    assert forall|i: int| 0 <= i < n implies #[trigger] all[i] == head[i] by {
        assert(all.take(n)[i] == head.take(n)[i]);
    }
    assert(all.subrange(0, 39) =~= material_label());
    assert(all.subrange(39, 71) =~= m.address_digest@);
    assert(all.subrange(71, 103) =~= m.device@);
    assert(all.subrange(103, 135) =~= m.capability@);
    assert(all.subrange(136, 144) =~= be64(m.manifest@.len() as u64));
    assert(all.subrange(144, 144 + m.manifest@.len() as int) =~= m.manifest@);
}

proof fn lemma_starts(a: Seq<u8>, b: Seq<u8>, n: int)
    requires
        0 <= n <= a.len(),
    ensures
        (a + b).take(n) == a.take(n),
        (a + b).len() >= n,
{
    assert((a + b).take(n) =~= a.take(n));
}

proof fn lemma_material_head(m: PublicationMaterial)
    ensures
        ({
            let head = material_label() + m.address_digest@ + m.device@ + m.capability@ + flag(
                m.legacy_v1_enabled,
            ) + be64(m.manifest@.len() as u64) + m.manifest@;
            &&& material_bytes(m).len() >= head.len()
            &&& material_bytes(m).take(head.len() as int) == head.take(head.len() as int)
        }),
{
    let head = material_label() + m.address_digest@ + m.device@ + m.capability@ + flag(
        m.legacy_v1_enabled,
    ) + be64(m.manifest@.len() as u64) + m.manifest@;
    let n = head.len() as int;
    let s1 = head + be32(m.spk_id);
    lemma_starts(head, be32(m.spk_id), n);
    let s2 = s1 + m.spk@;
    lemma_starts(s1, m.spk@, n);
    let s3 = s2 + be32(m.pqspk_id);
    lemma_starts(s2, be32(m.pqspk_id), n);
    let s4 = s3 + be64(m.pqspk@.len() as u64);
    lemma_starts(s3, be64(m.pqspk@.len() as u64), n);
    let s5 = s4 + m.pqspk@;
    lemma_starts(s4, m.pqspk@, n);
    let s6 = s5 + seq![m.difficulty];
    lemma_starts(s5, seq![m.difficulty], n);
    let s7 = s6 + be32(m.max_first_ciphertext);
    lemma_starts(s6, be32(m.max_first_ciphertext), n);
    let s8 = s7 + be64(m.max_clock_skew_secs);
    lemma_starts(s7, be64(m.max_clock_skew_secs), n);
    let s9 = s8 + be64(m.token_issuers);
    lemma_starts(s8, be64(m.token_issuers), n);
    let s10 = s9 + seq![mode_byte(m.policy.mode)];
    lemma_starts(s9, seq![mode_byte(m.policy.mode)], n);
    let s11 = s10 + flag(m.policy.publish_direct_routes);
    lemma_starts(s10, flag(m.policy.publish_direct_routes), n);
    let s12 = s11 + be64(m.routes@.len() as u64);
    lemma_starts(s11, be64(m.routes@.len() as u64), n);
    let rest = route_bytes(routes_of(m.routes@), m.routes@.len() as int);
    lemma_starts(s12, rest, n);
    assert(material_bytes(m) == s12 + rest);
}

/// Each route is written with its code, its length and its bytes, one after another.
pub proof fn law_layout_of_routes(routes: Seq<Seq<u8>>, n: int)
    requires
        0 <= n < routes.len(),
        routes[n].len() > 0,
    ensures
        route_bytes(routes, 0).len() == 0,
        route_bytes(routes, n + 1) == route_bytes(routes, n) + seq![routes[n][0]] + be64(
            (routes[n].len() - 1) as u64,
        ) + routes[n].subrange(1, routes[n].len() as int),
{
    assert(routes[n].take(1) =~= seq![routes[n][0]]);
    assert(routes[n].skip(1) =~= routes[n].subrange(1, routes[n].len() as int));
}

/// A plane has the whole publication only when it took every part of it.
pub proof fn law_planes_take_every_part(results: Seq<bool>, k: int)
    ensures
        0 <= k < results.len() && !results[k] ==> !all_taken(results),
        (forall|j: int| 0 <= j < results.len() ==> #[trigger] results[j]) ==> all_taken(results),
{
}

/// Nothing but the routes of one's own hints is published, in their order.
pub proof fn law_only_own_routes_are_published(
    hints: Seq<Hint>,
    policy: DiscoveryPublicationPolicy,
    codes: RouteCodes,
    n: int,
)
    requires
        0 <= n < hints.len(),
    ensures
        published(hints, policy, codes, 0).len() == 0,
        published_route(hints[n], policy, codes) is None ==> published(
            hints,
            policy,
            codes,
            n + 1,
        ) == published(hints, policy, codes, n),
        published_route(hints[n], policy, codes) matches Some(route) ==> published(
            hints,
            policy,
            codes,
            n + 1,
        ) == published(hints, policy, codes, n).push(route),
{
}

} // verus!
