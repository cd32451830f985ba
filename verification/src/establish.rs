//! Setting up sessions: what a first flight says, and who gets one without a message.

use vstd::prelude::*;

use crate::bytes::{bytes_before, same, ContentId, Id};
use crate::endpoints::{ascending, insert_id};
use crate::error::{NodeError, Result};
use crate::flights::{session_decision, DeviceHandshakeIntent, HandshakeSessionDecision};
use crate::outbound::NewItem;
use crate::records::QueueClass;
use crate::seqs::{at_most, first_of};
use crate::sessions::{BookView, SessionBook};

verus! {

/// Most reset markers that one pass works off.
pub const MAX_RESET_MARKERS_PER_TICK: usize = 8;

/// Most handshakes that one pass makes to set up rendezvous.
pub const MAX_RENDEZVOUS_REHANDSHAKES_PER_TICK: usize = 4;

/// What the bundle of the peer says about admission.
#[derive(Clone, Copy, Debug, PartialEq, Eq)]
pub struct AdmissionTerms {
    /// Largest sealed first flight that the peer takes.
    pub max_first_ciphertext: u32,
    /// An invitation came with the bundle.
    pub has_invitation: bool,
}

/// How a first flight proves that it is welcome.
#[derive(Clone, Copy, Debug, PartialEq, Eq, Structural)]
pub enum FlightProof {
    /// With the invitation.
    Invitation,
    /// With a solved puzzle.
    Puzzle,
    /// It does not: contacts of old may come without.
    Absent,
}

/// What a first flight says.
#[derive(Clone, Copy, Debug, PartialEq, Eq)]
pub struct FlightPlan {
    /// What it is for.
    pub intent: DeviceHandshakeIntent,
    /// The one-time prekey of the bundle is used.
    pub uses_opk: bool,
    /// How it proves that it is welcome.
    pub proof: FlightProof,
    /// The capability that its token is derived from, where there is one.
    pub capability: Option<Id>,
}

/// What a first flight is for: to reset where this device lost its sessions, to replace
/// exactly the session that is there, or to establish the first one.
pub open spec fn flight_intent(resetting: bool, prior: Option<Id>) -> DeviceHandshakeIntent {
    if resetting {
        DeviceHandshakeIntent::Reset
    } else {
        match prior {
            Some(prior_session_id) => DeviceHandshakeIntent::Replace { prior_session_id },
            None => DeviceHandshakeIntent::Establish,
        }
    }
}

/// How a first flight proves that it is welcome. Invitations and one-time prekeys of old are
/// not used after a reset.
pub open spec fn flight_proof(resetting: bool, terms: Option<AdmissionTerms>) -> FlightProof {
    match terms {
        Some(terms) => if terms.has_invitation && !resetting {
            FlightProof::Invitation
        } else {
            FlightProof::Puzzle
        },
        None => FlightProof::Absent,
    }
}

fn is_marked(markers: &Vec<Id>, id: &Id) -> (res: bool)
    ensures
        res == markers@.contains(*id),
{
    let mut i: usize = 0;
    while i < markers.len()
        invariant
            i <= markers@.len(),
            forall|k: int| 0 <= k < i ==> #[trigger] markers@[k] != *id,
        decreases markers@.len() - i,
    {
        if same(&markers[i], id) {
            assert(markers@[i as int] == *id);
            return true;
        }
        i = i + 1;
    }
    false
}

/// Decide what a first flight to a device says.
pub fn plan_flight(
    account: &Id,
    device: &Id,
    reset_markers: &Vec<Id>,
    prior_session: Option<Id>,
    terms: Option<AdmissionTerms>,
    capability: Option<Id>,
) -> (res: FlightPlan)
    ensures
        ({
            let resetting = reset_markers@.contains(*account) || reset_markers@.contains(*device);
            &&& res.intent == flight_intent(resetting, prior_session)
            &&& res.uses_opk == !resetting
            &&& res.proof == flight_proof(resetting, terms)
            &&& res.capability == capability
        }),
{
    let resetting = is_marked(reset_markers, account) || is_marked(reset_markers, device);
    let intent = if resetting {
        DeviceHandshakeIntent::Reset
    } else {
        match prior_session {
            Some(prior_session_id) => DeviceHandshakeIntent::Replace { prior_session_id },
            None => DeviceHandshakeIntent::Establish,
        }
    };
    let proof_used = match terms {
        Some(terms) => if terms.has_invitation && !resetting {
            FlightProof::Invitation
        } else {
            FlightProof::Puzzle
        },
        None => FlightProof::Absent,
    };
    FlightPlan { intent, uses_opk: !resetting, proof: proof_used, capability }
}

/// Check that a sealed first flight is not larger than the peer takes.
pub fn check_flight_size(terms: Option<AdmissionTerms>, sealed_len: usize) -> (res: Result<()>)
    ensures
        match res {
            Ok(_) => terms matches Some(t) ==> sealed_len <= t.max_first_ciphertext,
            Err(e) => e == NodeError::TooLarge && (terms matches Some(t) && sealed_len
                > t.max_first_ciphertext),
        },
{
    if let Some(terms) = terms {
        if sealed_len > terms.max_first_ciphertext as usize {
            return Err(NodeError::TooLarge);
        }
    }
    Ok(())
}

/// The peer takes a replacement that names the session it has too: what one device sends to
/// replace their common session, the other accepts.
pub proof fn law_replacement_is_accepted_by_the_peer(local: Id, peer: Id, session: Id)
    ensures
        session_decision(peer, local, Some(session), flight_intent(false, Some(session)))
            == HandshakeSessionDecision::AcceptInbound,
{
}

/// After a reset the peer takes the flight whatever session it still has.
pub proof fn law_reset_is_accepted_by_the_peer(
    local: Id,
    peer: Id,
    kept: Option<Id>,
    prior: Option<Id>,
)
    ensures
        session_decision(peer, local, kept, flight_intent(true, prior))
            == HandshakeSessionDecision::AcceptInbound,
{
}

// ---- Without a message ----

/// A device on record, as far as handshakes depend on it.
#[derive(Clone, Copy, Debug, PartialEq, Eq)]
pub struct DeviceEntry {
    /// Account of the device.
    pub account: Id,
    /// The device.
    pub device: Id,
    /// It was revoked.
    pub revoked: bool,
    /// A prekey bundle is on record.
    pub has_bundle: bool,
    /// There is a session with it.
    pub has_session: bool,
}

/// The first live record of a device, counted from `from`.
pub open spec fn live_entry(entries: Seq<DeviceEntry>, device: Id, from: int) -> int
    decreases entries.len() - from,
{
    if from >= entries.len() || (entries[from].device == device && !entries[from].revoked) {
        from
    } else {
        live_entry(entries, device, from + 1)
    }
}

/// Who a reset marker speaks of: the account of the device that it names, or the account
/// itself.
pub open spec fn marked_account(entries: Seq<DeviceEntry>, marker: Id) -> Id {
    let at = live_entry(entries, marker, 0);
    if at < entries.len() {
        entries[at].account
    } else {
        marker
    }
}

/// The device can get a handshake, and needs one.
pub open spec fn wants_handshake(entry: DeviceEntry) -> bool {
    !entry.has_session && entry.has_bundle
}

/// The devices that a reset marker of an account concerns, among the first `n`.
pub open spec fn account_handshakes(entries: Seq<DeviceEntry>, account: Id, n: int) -> Seq<Id>
    decreases n,
{
    if n <= 0 {
        Seq::empty()
    } else {
        let prior = account_handshakes(entries, account, n - 1);
        if entries[n - 1].account == account && wants_handshake(entries[n - 1]) {
            prior.push(entries[n - 1].device)
        } else {
            prior
        }
    }
}

/// The account has a device on record.
pub open spec fn has_entry(entries: Seq<DeviceEntry>, account: Id) -> bool {
    exists|i: int| 0 <= i < entries.len() && (#[trigger] entries[i]).account == account
}

/// Who gets a handshake for a reset marker: the device that it names, or all devices of the
/// account or, where none is on record, the account itself.
pub open spec fn marker_handshakes(
    entries: Seq<DeviceEntry>,
    marker: Id,
    account_bundle: bool,
    account_session: bool,
) -> Seq<Id> {
    let at = live_entry(entries, marker, 0);
    if at < entries.len() {
        if wants_handshake(entries[at]) {
            seq![marker]
        } else {
            Seq::empty()
        }
    } else if has_entry(entries, marker) {
        account_handshakes(entries, marker, entries.len() as int)
    } else if account_bundle && !account_session {
        seq![marker]
    } else {
        Seq::empty()
    }
}

/// What a reset marker asks for.
pub struct MarkerPlan {
    /// The account that it speaks of.
    pub account: Id,
    /// The devices that get a handshake.
    pub devices: Vec<Id>,
}

/// Work out what a reset marker asks for. `account_bundle` and `account_session` say whether
/// there is a prekey bundle of the contact itself, and a session with it.
pub fn plan_marker(
    entries: &Vec<DeviceEntry>,
    marker: Id,
    account_bundle: bool,
    account_session: bool,
) -> (res: MarkerPlan)
    ensures
        res.account == marked_account(entries@, marker),
        res.devices@ == marker_handshakes(entries@, marker, account_bundle, account_session),
{
    let at = find_live(entries, &marker);
    if at < entries.len() {
        let entry = entries[at];
        let mut devices: Vec<Id> = Vec::new();
        if !entry.has_session && entry.has_bundle {
            devices.push(marker);
        }
        return MarkerPlan { account: entry.account, devices };
    }
    let mut devices: Vec<Id> = Vec::new();
    let mut some = false;
    let mut i: usize = 0;
    while i < entries.len()
        invariant
            i <= entries@.len(),
            devices@ == account_handshakes(entries@, marker, i as int),
            some == exists|k: int| 0 <= k < i && (#[trigger] entries@[k]).account == marker,
        decreases entries@.len() - i,
    {
        let ghost before = some;
        if same(&entries[i].account, &marker) {
            some = true;
            assert(entries@[i as int].account == marker);
            if !entries[i].has_session && entries[i].has_bundle {
                devices.push(entries[i].device);
            }
        }
        proof {
            if before {
                let k = choose|k: int| 0 <= k < i && (#[trigger] entries@[k]).account == marker;
                assert(entries@[k].account == marker);
            }
        }
        i = i + 1;
    }
    if !some && account_bundle && !account_session {
        let mut only: Vec<Id> = Vec::new();
        only.push(marker);
        return MarkerPlan { account: marker, devices: only };
    }
    if !some {
        return MarkerPlan { account: marker, devices: Vec::new() };
    }
    MarkerPlan { account: marker, devices }
}

/// The reset markers that a pass works off: the first of them, and no more than it may.
pub fn markers_of_pass(markers: &Vec<Id>) -> (res: Vec<Id>)
    ensures
        res@ == at_most(markers@, MAX_RESET_MARKERS_PER_TICK as nat),
{
    first_of(markers, MAX_RESET_MARKERS_PER_TICK)
}

/// A first flight without content, sealed for a device.
#[derive(Clone, Copy, Debug, PartialEq, Eq)]
pub struct MadeFlight {
    /// The device.
    pub device: Id,
    /// Content identity of its envelope.
    pub content_id: ContentId,
}

/// What a first flight without content is queued as.
pub open spec fn flight_item(flight: MadeFlight, now: u64) -> NewItem {
    NewItem {
        peer: flight.device,
        msg_id: None,
        class: QueueClass::Normal,
        created_at: now,
        attempts: 0,
        next_attempt_at: now,
        content_id: flight.content_id,
    }
}

/// What is recorded once a reset marker was worked off.
pub struct MarkerCommit {
    /// The marker, which is cleared.
    pub clear_marker: Id,
    /// The flights, which are queued.
    pub queue: Vec<NewItem>,
    /// Devices whose content capabilities are forgotten.
    pub clear_capabilities: Vec<Id>,
}

/// What is recorded of a reset marker after one attempt. The marker is cleared whether or not a
/// flight could be made: one whose bundle has expired is not tried again.
pub fn record_marker(marker: Id, made: &Vec<MadeFlight>, now: u64) -> (res: MarkerCommit)
    ensures
        res.clear_marker == marker,
        res.queue@ == made@.map_values(|flight: MadeFlight| flight_item(flight, now)),
        res.clear_capabilities@ == made@.map_values(|flight: MadeFlight| flight.device),
{
    let mut queue: Vec<NewItem> = Vec::new();
    let mut clear_capabilities: Vec<Id> = Vec::new();
    let ghost item = |flight: MadeFlight| flight_item(flight, now);
    let ghost device = |flight: MadeFlight| flight.device;
    let mut i: usize = 0;
    while i < made.len()
        invariant
            i <= made@.len(),
            item == (|flight: MadeFlight| flight_item(flight, now)),
            device == (|flight: MadeFlight| flight.device),
            queue@ == made@.take(i as int).map_values(item),
            clear_capabilities@ == made@.take(i as int).map_values(device),
        decreases made@.len() - i,
    {
        queue.push(
            NewItem {
                peer: made[i].device,
                msg_id: None,
                class: QueueClass::Normal,
                created_at: now,
                attempts: 0,
                next_attempt_at: now,
                content_id: made[i].content_id,
            },
        );
        clear_capabilities.push(made[i].device);
        assert(queue@ =~= made@.take(i + 1).map_values(item));
        assert(clear_capabilities@ =~= made@.take(i + 1).map_values(device));
        i = i + 1;
    }
    assert(made@.take(i as int) =~= made@);
    MarkerCommit { clear_marker: marker, queue, clear_capabilities }
}

/// The book after first flights to the first `n` devices.
pub open spec fn after_flights(book: BookView, devices: Seq<Id>, n: int) -> BookView
    decreases n,
{
    if n <= 0 {
        book
    } else {
        after_flights(book, devices, n - 1).with_sent(devices[n - 1], true)
    }
}

/// What was recorded of a reset marker takes effect: there are sessions with the devices that
/// flights were made for.
pub fn conclude_marker(book: &mut SessionBook, commit: &MarkerCommit)
    ensures
        final(book)@ == after_flights(
            old(book)@,
            commit.clear_capabilities@,
            commit.clear_capabilities@.len() as int,
        ),
{
    let devices = &commit.clear_capabilities;
    let mut i: usize = 0;
    while i < devices.len()
        invariant
            i <= devices@.len(),
            devices@ == commit.clear_capabilities@,
            book@ == after_flights(old(book)@, devices@, i as int),
        decreases devices@.len() - i,
    {
        book.keep_sent(devices[i], true);
        i = i + 1;
    }
}

/// Working off a marker sets up a session with every device that a flight was made for, and
/// ends none.
pub proof fn law_flights_set_up_sessions(book: BookView, devices: Seq<Id>, n: int)
    requires
        0 <= n <= devices.len(),
    ensures
        after_flights(book, devices, n).sessions == book.sessions.union(devices.take(n).to_set()),
    decreases n,
{
    if n > 0 {
        law_flights_set_up_sessions(book, devices, n - 1);
        let some = devices.take(n - 1);
        let more = devices.take(n);
        assert(more =~= some.push(devices[n - 1]));
        assert forall|x: Id| more.to_set().contains(x) == some.to_set().insert(
            devices[n - 1],
        ).contains(x) by {
            if some.contains(x) {
                let k = choose|k: int| 0 <= k < some.len() && some[k] == x;
                assert(more[k] == x);
            }
            assert(more[n - 1] == devices[n - 1]);
        }
    }
    assert(after_flights(book, devices, n).sessions =~= book.sessions.union(
        devices.take(n).to_set(),
    ));
}

fn find_live(entries: &Vec<DeviceEntry>, device: &Id) -> (at: usize)
    ensures
        at == live_entry(entries@, *device, 0),
        at <= entries@.len(),
        at < entries@.len() ==> entries@[at as int].device == *device,
{
    let mut at: usize = 0;
    while at < entries.len()
        invariant
            at <= entries@.len(),
            live_entry(entries@, *device, 0) == live_entry(entries@, *device, at as int),
        decreases entries@.len() - at,
    {
        if same(&entries[at].device, device) && !entries[at].revoked {
            return at;
        }
        at = at + 1;
    }
    at
}

/// A handshake never goes to a device that has a session already.
pub proof fn law_markers_spare_sessions(
    entries: Seq<DeviceEntry>,
    marker: Id,
    account_bundle: bool,
    account_session: bool,
    k: int,
)
    requires
        0 <= k < marker_handshakes(entries, marker, account_bundle, account_session).len(),
    ensures
        ({
            let device = marker_handshakes(entries, marker, account_bundle, account_session)[k];
            (device == marker && !account_session && !has_entry(entries, marker)) || exists|i: int|
                0 <= i < entries.len() && (#[trigger] entries[i]).device == device
                    && !entries[i].has_session && entries[i].has_bundle
        }),
{
    let at = live_entry(entries, marker, 0);
    lemma_live(entries, marker, 0);
    if at < entries.len() {
        assert(entries[at].device == marker);
    } else if has_entry(entries, marker) {
        lemma_account_handshakes(entries, marker, entries.len() as int, k);
    }
}

proof fn lemma_live(entries: Seq<DeviceEntry>, device: Id, from: int)
    requires
        0 <= from <= entries.len(),
    ensures
        from <= live_entry(entries, device, from) <= entries.len(),
        live_entry(entries, device, from) < entries.len() ==> entries[live_entry(
            entries,
            device,
            from,
        )].device == device && !entries[live_entry(entries, device, from)].revoked,
        forall|i: int|
            from <= i < live_entry(entries, device, from) ==> (#[trigger] entries[i]).device
                != device || entries[i].revoked,
    decreases entries.len() - from,
{
    if from < entries.len() && !(entries[from].device == device && !entries[from].revoked) {
        lemma_live(entries, device, from + 1);
    }
}

proof fn lemma_account_handshakes(entries: Seq<DeviceEntry>, account: Id, n: int, k: int)
    requires
        0 <= n <= entries.len(),
        0 <= k < account_handshakes(entries, account, n).len(),
    ensures
        exists|i: int|
            0 <= i < n && (#[trigger] entries[i]).device == account_handshakes(
                entries,
                account,
                n,
            )[k] && !entries[i].has_session && entries[i].has_bundle,
    decreases n,
{
    if n > 0 {
        let prior = account_handshakes(entries, account, n - 1);
        if k < prior.len() {
            lemma_account_handshakes(entries, account, n - 1, k);
        } else {
            assert(entries[n - 1].device == account_handshakes(entries, account, n)[k]);
        }
    }
}

/// What happens with a request for a handshake that sets up rendezvous.
#[derive(Clone, Copy, Debug, PartialEq, Eq, Structural)]
pub enum RehandshakeStep {
    /// It is moot: there is no session, or it can do without.
    Forget,
    /// It waits for a prekey bundle.
    Wait,
    /// The handshake is made.
    Handshake,
}

/// What happens with a request for a handshake that sets up rendezvous.
pub fn rehandshake_step(
    device: &Id,
    entries: &Vec<DeviceEntry>,
    has_session: bool,
    has_exporter: bool,
) -> (res: RehandshakeStep)
    ensures
        res == if !has_session || has_exporter {
            RehandshakeStep::Forget
        } else if exists|i: int|
            0 <= i < entries@.len() && (#[trigger] entries@[i]).device == *device
                && !entries@[i].revoked && entries@[i].has_bundle {
            RehandshakeStep::Handshake
        } else {
            RehandshakeStep::Wait
        },
{
    if !has_session || has_exporter {
        return RehandshakeStep::Forget;
    }
    let mut found = false;
    let mut i: usize = 0;
    while i < entries.len()
        invariant
            i <= entries@.len(),
            found == exists|k: int|
                0 <= k < i && (#[trigger] entries@[k]).device == *device && !entries@[k].revoked
                    && entries@[k].has_bundle,
        decreases entries@.len() - i,
    {
        let ghost before = found;
        if same(&entries[i].device, device) && !entries[i].revoked && entries[i].has_bundle {
            found = true;
            assert(entries@[i as int].device == *device);
        }
        proof {
            if before {
                let k = choose|k: int|
                    0 <= k < i && (#[trigger] entries@[k]).device == *device
                        && !entries@[k].revoked && entries@[k].has_bundle;
                assert(entries@[k].device == *device);
            }
        }
        i = i + 1;
    }
    if found {
        RehandshakeStep::Handshake
    } else {
        RehandshakeStep::Wait
    }
}

/// What becomes of the book when a request for a handshake was dealt with. A request is dropped
/// when it is moot, or when the handshake was made; else it stays.
pub open spec fn after_rehandshake(
    book: BookView,
    device: Id,
    step: RehandshakeStep,
    made: bool,
) -> BookView {
    match step {
        RehandshakeStep::Forget => BookView { rehandshake: book.rehandshake.remove(device), ..book },
        RehandshakeStep::Wait => book,
        RehandshakeStep::Handshake => if made {
            book.with_session(device, false)
        } else {
            book
        },
    }
}

/// Deal with a request for a handshake that sets up rendezvous. `made` says that a handshake
/// that was asked for could be made, and was recorded.
pub fn conclude_rehandshake(book: &mut SessionBook, device: Id, step: RehandshakeStep, made: bool)
    ensures
        final(book)@ == after_rehandshake(old(book)@, device, step, made),
{
    match step {
        RehandshakeStep::Forget => {
            book.forget_rehandshake(&device);
        },
        RehandshakeStep::Wait => {},
        RehandshakeStep::Handshake => {
            if made {
                book.keep_sent(device, true);
                book.forget_rehandshake(&device);
            }
        },
    }
}

/// The requests for handshakes that a pass deals with: the first in order, and no more than it
/// may.
pub fn due_rehandshakes(book: &SessionBook) -> (res: Vec<Id>)
    ensures
        ascending(res@),
        res@.len() <= MAX_RENDEZVOUS_REHANDSHAKES_PER_TICK,
        forall|k: int|
            0 <= k < res@.len() ==> book@.rehandshake.contains(#[trigger] res@[k]),
        forall|id: Id| #[trigger]
            book@.rehandshake.contains(id) ==> res@.contains(id) || (res@.len()
                == MAX_RENDEZVOUS_REHANDSHAKES_PER_TICK && forall|k: int|
                0 <= k < res@.len() ==> bytes_before((#[trigger] res@[k])@, id@)),
{
    let requested = book.rendezvous_rehandshake_requested.items();
    let res = first_due(requested, MAX_RENDEZVOUS_REHANDSHAKES_PER_TICK);
    proof {
        assert forall|k: int| 0 <= k < res@.len() implies book@.rehandshake.contains(
            #[trigger] res@[k],
        ) by {
            assert(requested@.to_set().contains(res@[k]));
        }
        assert forall|id: Id| #[trigger] book@.rehandshake.contains(id) implies res@.contains(id)
            || (res@.len() == MAX_RENDEZVOUS_REHANDSHAKES_PER_TICK && forall|k: int|
            0 <= k < res@.len() ==> bytes_before((#[trigger] res@[k])@, id@)) by {
            assert(requested@.to_set().contains(id));
            assert(requested@.contains(id));
        }
    }
    res
}

/// A request for a handshake stays until a handshake was made or it is moot, and no other
/// request is touched.
pub proof fn law_rehandshakes_stay_until_made(
    book: BookView,
    device: Id,
    step: RehandshakeStep,
    made: bool,
    other: Id,
)
    ensures
        ({
            let after = after_rehandshake(book, device, step, made);
            &&& after.rehandshake.contains(device) == (book.rehandshake.contains(device) && (step
                == RehandshakeStep::Wait || (step == RehandshakeStep::Handshake && !made)))
            &&& other != device ==> after.rehandshake.contains(other)
                == book.rehandshake.contains(other)
        }),
{
}

/// The first ids in order, at most `most` of them.
pub fn first_due(requested: &Vec<Id>, most: usize) -> (res: Vec<Id>)
    ensures
        ascending(res@),
        res@.len() <= most,
        forall|k: int| 0 <= k < res@.len() ==> requested@.contains(#[trigger] res@[k]),
        forall|id: Id| #[trigger]
            requested@.contains(id) ==> res@.contains(id) || (res@.len() == most && forall|k: int|
                0 <= k < res@.len() ==> bytes_before((#[trigger] res@[k])@, id@)),
{
    let mut ids: Vec<Id> = Vec::new();
    let mut i: usize = 0;
    assert(ids@.to_set() =~= requested@.take(0).to_set());
    while i < requested.len()
        invariant
            i <= requested@.len(),
            ascending(ids@),
            ids@.to_set() == requested@.take(i as int).to_set(),
        decreases requested@.len() - i,
    {
        insert_id(&mut ids, requested[i]);
        proof {
            let front = requested@.take(i as int);
            assert(requested@.take(i + 1) =~= front.push(requested@[i as int]));
            let more = front.push(requested@[i as int]);
            assert forall|id: Id| more.to_set().contains(id) == front.to_set().insert(
                requested@[i as int],
            ).contains(id) by {
                if front.contains(id) {
                    let k = choose|k: int| 0 <= k < front.len() && front[k] == id;
                    assert(more[k] == id);
                }
                if id == requested@[i as int] {
                    assert(more[front.len() as int] == id);
                }
                if more.contains(id) {
                    let k = choose|k: int| 0 <= k < more.len() && more[k] == id;
                    if k < front.len() {
                        assert(front[k] == id);
                    }
                }
            }
            assert(more.to_set() =~= front.to_set().insert(requested@[i as int]));
        }
        i = i + 1;
    }
    assert(requested@.take(i as int) =~= requested@);
    let ghost all = ids@;
    if ids.len() > most {
        ids.truncate(most);
    }
    proof {
        assert forall|k: int| 0 <= k < ids@.len() implies requested@.contains(
            #[trigger] ids@[k],
        ) by {
            assert(all[k] == ids@[k]);
            assert(all.to_set().contains(all[k]));
        }
        assert forall|id: Id| #[trigger] requested@.contains(id) implies ids@.contains(id) || (
        ids@.len() == most && forall|k: int|
            0 <= k < ids@.len() ==> bytes_before((#[trigger] ids@[k])@, id@)) by {
            assert(requested@.to_set().contains(id));
            let j = choose|j: int| 0 <= j < all.len() && all[j] == id;
            if j < ids@.len() {
                assert(ids@[j] == id);
            } else {
                assert forall|k: int| 0 <= k < ids@.len() implies bytes_before(
                    (#[trigger] ids@[k])@,
                    id@,
                ) by {
                    assert(ids@[k] == all[k]);
                    assert(bytes_before(all[k]@, all[j]@));
                }
            }
        }
    }
    ids
}

// ---- Laws of first flights ----

/// A flight resets where a reset is marked, replaces the session that is left, and else
/// establishes one.
pub proof fn law_flight_intents(prior: Id, kept: Option<Id>)
    ensures
        flight_intent(true, kept) == DeviceHandshakeIntent::Reset,
        flight_intent(false, Some(prior)) == (DeviceHandshakeIntent::Replace {
            prior_session_id: prior,
        }),
        flight_intent(false, None) == DeviceHandshakeIntent::Establish,
{
}

/// Where the peer demands admission the flight shows its invitation, or solves a puzzle; a
/// reset never spends the invitation.
pub proof fn law_flight_proofs(resetting: bool, terms: AdmissionTerms)
    ensures
        flight_proof(resetting, None) == FlightProof::Absent,
        flight_proof(true, Some(terms)) == FlightProof::Puzzle,
        terms.has_invitation ==> flight_proof(false, Some(terms)) == FlightProof::Invitation,
        !terms.has_invitation ==> flight_proof(false, Some(terms)) == FlightProof::Puzzle,
{
}

/// The marker names a device that is not revoked, and no earlier entry does.
pub open spec fn names_device(entries: Seq<DeviceEntry>, marker: Id, i: int) -> bool {
    &&& 0 <= i < entries.len()
    &&& entries[i].device == marker
    &&& !entries[i].revoked
    &&& forall|j: int|
        0 <= j < i ==> (#[trigger] entries[j]).device != marker || entries[j].revoked
}

/// A marker on a device concerns that device alone: it gets a handshake when it has a bundle
/// and no session.
pub proof fn law_markers_of_devices(
    entries: Seq<DeviceEntry>,
    marker: Id,
    account_bundle: bool,
    account_session: bool,
    i: int,
)
    requires
        names_device(entries, marker, i),
    ensures
        marked_account(entries, marker) == entries[i].account,
        ({
            let devices = marker_handshakes(entries, marker, account_bundle, account_session);
            &&& entries[i].has_bundle && !entries[i].has_session ==> devices == seq![marker]
            &&& entries[i].has_session || !entries[i].has_bundle ==> devices.len() == 0
        }),
{
    lemma_live(entries, marker, 0);
    assert(live_entry(entries, marker, 0) == i);
}

/// A marker on an account concerns its devices: each with a bundle and no session gets a
/// handshake. An account without known devices gets one itself.
pub proof fn law_markers_of_accounts(
    entries: Seq<DeviceEntry>,
    marker: Id,
    account_bundle: bool,
    account_session: bool,
)
    requires
        forall|i: int|
            0 <= i < entries.len() ==> (#[trigger] entries[i]).device != marker
                || entries[i].revoked,
    ensures
        marked_account(entries, marker) == marker,
        ({
            let devices = marker_handshakes(entries, marker, account_bundle, account_session);
            let known = exists|i: int|
                0 <= i < entries.len() && (#[trigger] entries[i]).account == marker;
            &&& known ==> forall|i: int|
                0 <= i < entries.len() && (#[trigger] entries[i]).account == marker
                    && entries[i].has_bundle && !entries[i].has_session ==> devices.contains(
                    entries[i].device,
                )
            &&& !known && account_bundle && !account_session ==> devices == seq![marker]
            &&& !known && !(account_bundle && !account_session) ==> devices.len() == 0
        }),
{
    lemma_live(entries, marker, 0);
    let n = entries.len() as int;
    if live_entry(entries, marker, 0) < entries.len() {
        assert(entries[live_entry(entries, marker, 0)].device == marker);
    }
    if has_entry(entries, marker) {
        assert forall|i: int|
            0 <= i < entries.len() && (#[trigger] entries[i]).account == marker
                && entries[i].has_bundle && !entries[i].has_session implies account_handshakes(
            entries,
            marker,
            n,
        ).contains(entries[i].device) by {
            lemma_handshake_of(entries, marker, n, i);
        }
    }
}

proof fn lemma_handshake_of(entries: Seq<DeviceEntry>, account: Id, n: int, i: int)
    requires
        0 <= i < n <= entries.len(),
        entries[i].account == account,
        wants_handshake(entries[i]),
    ensures
        account_handshakes(entries, account, n).contains(entries[i].device),
    decreases n,
{
    let all = account_handshakes(entries, account, n);
    if i < n - 1 {
        lemma_handshake_of(entries, account, n - 1, i);
        let prior = account_handshakes(entries, account, n - 1);
        let k = choose|k: int| 0 <= k < prior.len() && prior[k] == entries[i].device;
        assert(all[k] == entries[i].device);
    } else {
        assert(all.last() == entries[i].device);
    }
}

/// A handshake without a message waits in the lane of controls and names no message.
pub proof fn law_flights_are_queued_as_controls(flight: MadeFlight, now: u64)
    ensures
        ({
            let item = flight_item(flight, now);
            &&& item.peer == flight.device
            &&& item.content_id == flight.content_id
            &&& item.msg_id is None
            &&& item.class == QueueClass::Normal
            &&& item.created_at == now
            &&& item.attempts == 0
            &&& item.next_attempt_at == now
        }),
{
}

/// A repeated handshake that was made leaves a session that has been told nothing.
pub proof fn law_repeated_handshakes_start_untold(book: BookView, device: Id)
    ensures
        ({
            let after = after_rehandshake(book, device, RehandshakeStep::Handshake, true);
            &&& after.sessions.contains(device)
            &&& !after.capabilities.contains(device)
            &&& !after.discovery.contains(device)
            &&& !after.rendezvous.contains(device)
            &&& after.refresh.contains(device)
        }),
        after_rehandshake(book, device, RehandshakeStep::Handshake, false) == book,
        after_rehandshake(book, device, RehandshakeStep::Wait, true) == book,
        after_rehandshake(book, device, RehandshakeStep::Forget, true).sessions == book.sessions,
{
}

/// Every device that a first flight went to has been told nothing yet.
pub proof fn law_flown_devices_are_untold(book: BookView, devices: Seq<Id>, n: int, i: int)
    requires
        0 <= i < n <= devices.len(),
    ensures
        ({
            let after = after_flights(book, devices, n);
            &&& after.sessions.contains(devices[i])
            &&& !after.capabilities.contains(devices[i])
            &&& !after.discovery.contains(devices[i])
            &&& !after.rendezvous.contains(devices[i])
            &&& after.refresh.contains(devices[i])
        }),
    decreases n,
{
    if i < n - 1 {
        law_flown_devices_are_untold(book, devices, n - 1, i);
    }
}

} // verus!
