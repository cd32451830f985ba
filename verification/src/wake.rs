//! Waking peers up: which capabilities are handed out, asked for, used and taken back.

use vstd::prelude::*;

use crate::bytes::{
    bytes_before, id_precedes, lemma_before_irreflexive, lemma_before_total,
    lemma_before_transitive, same, ContentId, Id, IdSet,
};
use crate::discovery::DiscoveryMode;
use crate::endpoints::{ascending, sorted_ids};
use crate::error::{NodeError, Result};
use crate::inbound::expiries_ok;

verus! {

/// Most gateway operations of one pass.
pub const MAX_WAKE_GATEWAY_OPERATIONS_PER_TICK: usize = 8;

/// Most of them that take capabilities back.
pub const MAX_WAKE_REVOCATIONS_PER_TICK: usize = 4;

/// Most revocations that one pass settles.
pub const MAX_WAKE_REVOCATION_CHANGES_PER_TICK: usize = 32;

/// Most contacts that one registration serves.
pub const MAX_WAKE_REGISTRATION_RELATIONSHIPS_PER_CALL: usize = 8;

/// What one registration came to.
#[derive(Clone, Copy, Debug, PartialEq, Eq, Structural)]
pub struct NativeWakeRegistrationResult {
    /// Contacts whose capabilities were replaced.
    pub updated: usize,
    /// Contacts are left for a later call.
    pub remaining: bool,
}

impl Default for NativeWakeRegistrationResult {
    fn default() -> (res: NativeWakeRegistrationResult)
        ensures
            res.updated == 0,
            !res.remaining,
    {
        NativeWakeRegistrationResult { updated: 0, remaining: false }
    }
}

/// Whether a wake client may be configured: sovereign mode has none.
pub fn configure_wake(mode: DiscoveryMode, has_client: bool) -> (res: Result<()>)
    ensures
        match res {
            Ok(_) => !(mode == DiscoveryMode::Sovereign && has_client),
            Err(e) => mode == DiscoveryMode::Sovereign && has_client && e
                == NodeError::WakeUnavailable,
        },
{
    if mode == DiscoveryMode::Sovereign && has_client {
        Err(NodeError::WakeUnavailable)
    } else {
        Ok(())
    }
}

/// All bytes are zero.
pub open spec fn is_zero_nonce(nonce: ContentId) -> bool {
    forall|i: int| 0 <= i < 16 ==> #[trigger] nonce@[i] == 0
}

/// A request nonce from drawn bytes: never all zeros.
pub fn request_nonce(drawn: ContentId) -> (res: ContentId)
    ensures
        res@ == if is_zero_nonce(drawn) {
            drawn@.update(15, 1)
        } else {
            drawn@
        },
        !is_zero_nonce(res),
{
    let mut i: usize = 0;
    while i < 16
        invariant
            i <= 16,
            forall|k: int| 0 <= k < i ==> #[trigger] drawn@[k] == 0,
        decreases 16 - i,
    {
        if drawn[i] != 0 {
            assert(drawn@[i as int] != 0);
            return drawn;
        }
        i = i + 1;
    }
    let mut nonce = drawn;
    nonce[15] = 1;
    assert(nonce@ =~= drawn@.update(15, 1));
    assert(nonce@[15] == 1);
    nonce
}

/// The generation after the last one that was issued.
pub fn next_issued_generation(issued: u64) -> (res: Result<u64>)
    ensures
        match res {
            Ok(generation) => generation == issued + 1,
            Err(e) => issued == u64::MAX && e == NodeError::CorruptState,
        },
{
    match issued.checked_add(1) {
        Some(generation) => Ok(generation),
        None => Err(NodeError::CorruptState),
    }
}

// ---- Capabilities handed out ----

/// A capability that was handed out to a contact.
#[derive(Clone, Copy, Debug, PartialEq, Eq)]
pub struct IssuedCapability {
    /// Its gateway.
    pub provider: Id,
    /// When it expires.
    pub expires_at: u64,
}

/// The capability is still good: its gateway is one of those allowed, and it has not
/// expired.
pub open spec fn is_kept(capability: IssuedCapability, allowed: Seq<Id>, now: u64) -> bool {
    allowed.contains(capability.provider) && capability.expires_at > now
}

fn allows(allowed: &Vec<Id>, provider: &Id) -> (res: bool)
    ensures
        res == allowed@.contains(*provider),
{
    let mut i: usize = 0;
    while i < allowed.len()
        invariant
            i <= allowed@.len(),
            forall|k: int| 0 <= k < i ==> #[trigger] allowed@[k] != *provider,
        decreases allowed@.len() - i,
    {
        if same(&allowed[i], provider) {
            assert(allowed@[i as int] == *provider);
            return true;
        }
        i = i + 1;
    }
    false
}

fn kept_capabilities(issued: &Vec<IssuedCapability>, allowed: &Vec<Id>, now: u64) -> (out: Vec<
    IssuedCapability,
>)
    ensures
        out@ == issued@.filter(|c: IssuedCapability| is_kept(c, allowed@, now)),
        out@.len() <= issued@.len(),
{
    let ghost keep = |c: IssuedCapability| is_kept(c, allowed@, now);
    let mut out: Vec<IssuedCapability> = Vec::new();
    let mut i: usize = 0;
    proof {
        crate::seqs::lemma_filter_none(issued@, keep);
        crate::seqs::lemma_filter_kept(issued@, keep);
    }
    while i < issued.len()
        invariant
            i <= issued@.len(),
            keep == (|c: IssuedCapability| is_kept(c, allowed@, now)),
            out@ == issued@.take(i as int).filter(keep),
        decreases issued@.len() - i,
    {
        proof {
            crate::seqs::lemma_filter_step(issued@, keep, i as int);
        }
        if allows(allowed, &issued[i].provider) && issued[i].expires_at > now {
            out.push(issued[i]);
        }
        i = i + 1;
    }
    proof {
        crate::seqs::lemma_take_all(issued@);
    }
    out
}

/// The capabilities on record for a device.
pub struct IssuedRecord {
    /// Generation of the set.
    pub generation: u64,
    /// The capabilities.
    pub issued: Vec<IssuedCapability>,
}

/// The set that a device is told when the gateways change, with its generation: the
/// capabilities that stay. Nothing is told when all of them do. Every device with a session has
/// a record, and its generations do not run out.
pub fn reconcile_wake_providers(
    record: Option<&IssuedRecord>,
    allowed: &Vec<Id>,
    now: u64,
) -> (res: Result<Option<(u64, Vec<IssuedCapability>)>>)
    ensures
        match record {
            None => res matches Err(e) && e == NodeError::CorruptState,
            Some(state) => {
                let kept = state.issued@.filter(|c: IssuedCapability| is_kept(c, allowed@, now));
                match res {
                    Ok(None) => kept.len() == state.issued@.len(),
                    Ok(Some((generation, out))) => {
                        &&& kept.len() < state.issued@.len()
                        &&& generation == state.generation + 1
                        &&& out@ == kept
                    },
                    Err(e) => {
                        &&& kept.len() < state.issued@.len()
                        &&& state.generation == u64::MAX
                        &&& e == NodeError::CorruptState
                    },
                }
            },
        },
{
    let state = match record {
        Some(state) => state,
        None => {
            return Err(NodeError::CorruptState);
        },
    };
    let kept = kept_capabilities(&state.issued, allowed, now);
    if kept.len() == state.issued.len() {
        return Ok(None);
    }
    match next_issued_generation(state.generation) {
        Ok(generation) => Ok(Some((generation, kept))),
        Err(e) => Err(e),
    }
}

/// Whether gateways can be reconciled at all.
pub fn check_reconciliation(providers: usize, max_providers: usize, now: u64) -> (res: Result<()>)
    ensures
        match res {
            Ok(_) => now > 0 && providers <= max_providers,
            Err(e) => (now == 0 || providers > max_providers) && e == NodeError::WakeUnavailable,
        },
{
    if now == 0 || providers > max_providers {
        Err(NodeError::WakeUnavailable)
    } else {
        Ok(())
    }
}

/// Whether capabilities can be handed out to a device: there is a client unless they are all
/// taken back, the device is known and live, and all expiries lie ahead but not too far.
pub fn check_publication(
    now: u64,
    has_client: bool,
    known_and_live: bool,
    expiries: &Vec<u64>,
    max_lifetime: u64,
) -> (res: Result<()>)
    ensures
        match res {
            Ok(_) => now > 0 && (expiries@.len() == 0 || has_client) && known_and_live
                && expiries_ok(expiries@, max_lifetime, now),
            Err(e) => if now == 0 || (expiries@.len() > 0 && !has_client) {
                e == NodeError::WakeUnavailable
            } else if !known_and_live {
                e == NodeError::UnknownPeer
            } else {
                e == NodeError::WakeUnavailable && !expiries_ok(expiries@, max_lifetime, now)
            },
        },
{
    if now == 0 || (expiries.len() > 0 && !has_client) {
        return Err(NodeError::WakeUnavailable);
    }
    if !known_and_live {
        return Err(NodeError::UnknownPeer);
    }
    if !all_current(expiries, max_lifetime, now) {
        return Err(NodeError::WakeUnavailable);
    }
    Ok(())
}

fn all_current(expiries: &Vec<u64>, max_lifetime: u64, now: u64) -> (res: bool)
    ensures
        res == expiries_ok(expiries@, max_lifetime, now),
{
    let mut i: usize = 0;
    while i < expiries.len()
        invariant
            i <= expiries@.len(),
            forall|k: int|
                0 <= k < i ==> now < (#[trigger] expiries@[k]) && expiries@[k] <= now
                    + max_lifetime,
        decreases expiries@.len() - i,
    {
        if expiries[i] <= now || expiries[i] > now.saturating_add(max_lifetime) {
            assert(!(now < expiries@[i as int] && expiries@[i as int] <= now + max_lifetime));
            return false;
        }
        i = i + 1;
    }
    true
}

/// What the store makes of a new set of capabilities.
#[derive(Clone, Copy, Debug, PartialEq, Eq, Structural)]
pub enum Replacement {
    /// There is no record for the device.
    NoRecord,
    /// It contradicts the set of that generation, or is older.
    Invalid,
    /// It is the set on record.
    Unchanged,
    /// It is a new set; the record belongs to the current session or not.
    Changed {
        /// It belongs to the current session.
        same_session: bool,
    },
}

/// Whether a new set of capabilities is sent: only when it changes something.
pub fn publication_step(replacement: Replacement, has_session: bool) -> (res: Result<bool>)
    ensures
        match replacement {
            Replacement::NoRecord => res == Err::<bool, NodeError>(NodeError::CorruptState),
            Replacement::Invalid => res == Err::<bool, NodeError>(NodeError::WakeConflict),
            Replacement::Unchanged => res == Ok::<bool, NodeError>(false),
            Replacement::Changed { same_session } => if !has_session {
                res == Err::<bool, NodeError>(NodeError::NoSession)
            } else if !same_session {
                res == Err::<bool, NodeError>(NodeError::CorruptState)
            } else {
                res == Ok::<bool, NodeError>(true)
            },
        },
{
    match replacement {
        Replacement::NoRecord => Err(NodeError::CorruptState),
        Replacement::Invalid => Err(NodeError::WakeConflict),
        Replacement::Unchanged => Ok(false),
        Replacement::Changed { same_session } => if !has_session {
            Err(NodeError::NoSession)
        } else if !same_session {
            Err(NodeError::CorruptState)
        } else {
            Ok(true)
        },
    }
}

// ---- Registering ----

/// Whether a native token can be registered: there is a client, a time, and gateways, none
/// twice and not too many.
pub fn check_registration(
    has_client: bool,
    now: u64,
    providers: &Vec<Id>,
    max_providers: usize,
) -> (res: Result<()>)
    ensures
        match res {
            Ok(_) => has_client && now > 0 && 0 < providers@.len() <= max_providers
                && providers@.no_duplicates(),
            Err(e) => !(has_client && now > 0 && 0 < providers@.len() <= max_providers
                && providers@.no_duplicates()) && e == NodeError::WakeUnavailable,
        },
{
    if !has_client || now == 0 || providers.len() == 0 || providers.len() > max_providers {
        return Err(NodeError::WakeUnavailable);
    }
    if !all_different(providers) {
        return Err(NodeError::WakeUnavailable);
    }
    Ok(())
}

fn all_different(ids: &Vec<Id>) -> (res: bool)
    ensures
        res == ids@.no_duplicates(),
{
    let mut j: usize = 0;
    while j < ids.len()
        invariant
            j <= ids@.len(),
            forall|a: int, b: int| 0 <= a < b < j ==> #[trigger] ids@[a] != #[trigger] ids@[b],
        decreases ids@.len() - j,
    {
        let mut m: usize = 0;
        while m < j
            invariant
                m <= j,
                j < ids@.len(),
                forall|a: int| 0 <= a < m ==> #[trigger] ids@[a] != ids@[j as int],
            decreases j - m,
        {
            if same(&ids[m], &ids[j]) {
                assert(ids@[m as int] == ids@[j as int]);
                return false;
            }
            m = m + 1;
        }
        j = j + 1;
    }
    true
}

/// Whether a gateway's answer is good: it handed out a capability that expires ahead, but
/// not too far.
pub fn accept_registration(
    has_capability: bool,
    accepted: bool,
    expires_at: u64,
    max_lifetime: u64,
    now: u64,
) -> (res: bool)
    ensures
        res == (has_capability && accepted && now < expires_at && expires_at <= now
            + max_lifetime),
{
    has_capability && accepted && expires_at > now && expires_at <= now.saturating_add(max_lifetime)
}

/// A gateway's answer to a registration.
#[derive(Clone, Copy, Debug, PartialEq, Eq)]
pub struct GatewayReply {
    /// It handed out a capability.
    pub has_capability: bool,
    /// It accepted the registration.
    pub accepted: bool,
    /// When the capability expires.
    pub expires_at: u64,
}

/// The answer is good.
pub open spec fn is_good(reply: GatewayReply, max_lifetime: u64, now: u64) -> bool {
    reply.has_capability && reply.accepted && now < reply.expires_at && reply.expires_at <= now
        + max_lifetime
}

/// Whether the answers make up a set to publish: each of the gateways gave a good one. A
/// gateway that did not answer is nothing.
pub fn completes_set(
    replies: &Vec<Option<GatewayReply>>,
    gateways: usize,
    max_lifetime: u64,
    now: u64,
) -> (res: bool)
    ensures
        res == all_good(replies@, gateways, max_lifetime, now),
{
    if replies.len() != gateways {
        return false;
    }
    let mut i: usize = 0;
    while i < replies.len()
        invariant
            i <= replies@.len(),
            forall|k: int|
                0 <= k < i ==> (#[trigger] replies@[k] matches Some(reply) && is_good(
                    reply,
                    max_lifetime,
                    now,
                )),
        decreases replies@.len() - i,
    {
        let good = match replies[i] {
            Some(r) => accept_registration(
                r.has_capability,
                r.accepted,
                r.expires_at,
                max_lifetime,
                now,
            ),
            None => false,
        };
        if !good {
            assert(!(replies@[i as int] matches Some(reply) && is_good(reply, max_lifetime, now)));
            return false;
        }
        i = i + 1;
    }
    true
}

/// The answers make up a set to publish.
pub open spec fn all_good(
    replies: Seq<Option<GatewayReply>>,
    gateways: usize,
    max_lifetime: u64,
    now: u64,
) -> bool {
    replies.len() == gateways && forall|k: int|
        0 <= k < replies.len() ==> (#[trigger] replies[k] matches Some(reply) && is_good(
            reply,
            max_lifetime,
            now,
        ))
}

/// The generation under which a device is told the capabilities that the gateways handed out
/// for it: nothing unless all of them did. `issued` is the generation on record; every device
/// with a session has a record, and its generations do not run out.
pub fn register_native_wake_destination(
    replies: &Vec<Option<GatewayReply>>,
    gateways: usize,
    max_lifetime: u64,
    issued: Option<u64>,
    now: u64,
) -> (res: Result<Option<u64>>)
    ensures
        ({
            let complete = all_good(replies@, gateways, max_lifetime, now);
            match res {
                Ok(None) => !complete,
                Ok(Some(generation)) => complete && (issued matches Some(last) && generation
                    == last + 1),
                Err(e) => {
                    &&& complete
                    &&& issued is None || issued == Some(u64::MAX)
                    &&& e == NodeError::CorruptState
                },
            }
        }),
{
    if !completes_set(replies, gateways, max_lifetime, now) {
        return Ok(None);
    }
    match issued {
        None => Err(NodeError::CorruptState),
        Some(last) => match next_issued_generation(last) {
            Ok(generation) => Ok(Some(generation)),
            Err(e) => Err(e),
        },
    }
}

/// Where a registration begins: at the cursor, or over again behind the last contact.
pub open spec fn span_start(cursor: usize, contacts: usize) -> int {
    if cursor >= contacts {
        0
    } else {
        cursor as int
    }
}

/// Where a registration ends at the latest.
pub open spec fn span_end(cursor: usize, contacts: usize) -> int {
    let end = span_start(cursor, contacts) + MAX_WAKE_REGISTRATION_RELATIONSHIPS_PER_CALL;
    if end < contacts {
        end
    } else {
        contacts as int
    }
}

/// The contacts that a registration serves, by position: first, and one behind the last.
pub fn registration_span(cursor: usize, contacts: usize) -> (res: (usize, usize))
    ensures
        res.0 == span_start(cursor, contacts),
        res.1 == span_end(cursor, contacts),
        res.0 <= res.1 <= contacts,
{
    let start: usize = if cursor >= contacts { 0 } else { cursor };
    let end: usize = if contacts - start < MAX_WAKE_REGISTRATION_RELATIONSHIPS_PER_CALL {
        contacts
    } else {
        start + MAX_WAKE_REGISTRATION_RELATIONSHIPS_PER_CALL
    };
    (start, end)
}

/// End a registration in which `attempted` contacts were tried from `start` on: the cursor
/// for the next one, and what came of this one.
pub fn conclude_registration(start: usize, attempted: usize, updated: usize, contacts: usize) -> (res:
    (usize, NativeWakeRegistrationResult))
    requires
        start + attempted <= contacts,
    ensures
        res.1.updated == updated,
        res.1.remaining == (start + attempted < contacts),
        res.0 == if start + attempted < contacts {
            start + attempted
        } else {
            0
        },
{
    let next: usize = start + attempted;
    let remaining = next < contacts;
    let cursor: usize = if remaining { next } else { 0 };
    (cursor, NativeWakeRegistrationResult { updated, remaining })
}

/// Registrations get round to every contact: one that tries all of its contacts either
/// reaches the last contact, or the next one begins right behind it.
pub proof fn law_registrations_get_round(cursor: usize, contacts: usize)
    requires
        contacts > 0,
    ensures
        span_start(cursor, contacts) < span_end(cursor, contacts),
        span_end(cursor, contacts) < contacts ==> span_start(
            span_end(cursor, contacts) as usize,
            contacts,
        ) == span_end(cursor, contacts),
{
}

// ---- Maintenance ----

/// A capability to take back.
#[derive(Clone, Copy, Debug, PartialEq, Eq)]
pub struct RevocationRow {
    /// Its record.
    pub id: Id,
    /// When it expires by itself.
    pub expires_at: u64,
    /// When to try next.
    pub next_attempt_at: u64,
}

/// When a revocation is due: at once where the capability has expired.
pub open spec fn due_at(row: RevocationRow, now: u64) -> u64 {
    if row.expires_at <= now {
        0
    } else {
        row.next_attempt_at
    }
}

/// A revocation does not come after another.
pub open spec fn not_after(a: RevocationRow, b: RevocationRow, now: u64) -> bool {
    due_at(a, now) < due_at(b, now) || (due_at(a, now) == due_at(b, now) && !bytes_before(
        b.id@,
        a.id@,
    ))
}

/// Revocations in the order in which they are worked off.
pub open spec fn in_due_order(rows: Seq<RevocationRow>, now: u64) -> bool {
    forall|i: int, j: int|
        0 <= i < j < rows.len() ==> not_after(#[trigger] rows[i], #[trigger] rows[j], now)
}

proof fn lemma_not_after_transitive(a: RevocationRow, b: RevocationRow, c: RevocationRow, now: u64)
    requires
        not_after(a, b, now),
        not_after(b, c, now),
    ensures
        not_after(a, c, now),
{
    if due_at(a, now) == due_at(c, now) && bytes_before(c.id@, a.id@) {
        lemma_before_total(a.id@, b.id@, 0);
        if bytes_before(a.id@, b.id@) {
            lemma_before_transitive(c.id@, a.id@, b.id@, 0);
        } else {
            assert(a.id@ =~= b.id@);
        }
    }
}

fn may_stand_before(a: &RevocationRow, b: &RevocationRow, now: u64) -> (res: bool)
    ensures
        res == not_after(*a, *b, now),
{
    let x: u64 = if a.expires_at <= now { 0 } else { a.next_attempt_at };
    let y: u64 = if b.expires_at <= now { 0 } else { b.next_attempt_at };
    x < y || (x == y && !id_precedes(&b.id, &a.id))
}

/// Put revocations into the order in which they are worked off: expired ones first, then by
/// when they are due.
pub fn revocation_order(rows: &Vec<RevocationRow>, now: u64) -> (res: Vec<RevocationRow>)
    ensures
        in_due_order(res@, now),
        res@.to_multiset() == rows@.to_multiset(),
{
    broadcast use vstd::seq_lib::group_to_multiset_ensures;

    let mut out: Vec<RevocationRow> = Vec::new();
    let mut i: usize = 0;
    assert(rows@.take(0) =~= Seq::<RevocationRow>::empty());
    while i < rows.len()
        invariant
            i <= rows@.len(),
            out@.len() == i,
            in_due_order(out@, now),
            out@.to_multiset() == rows@.take(i as int).to_multiset(),
        decreases rows@.len() - i,
    {
        let row = rows[i];
        let mut at: usize = 0;
        while at < out.len() && may_stand_before(&out[at], &row, now)
            invariant
                at <= out@.len(),
                forall|k: int| 0 <= k < at ==> not_after(#[trigger] out@[k], row, now),
            decreases out@.len() - at,
        {
            at = at + 1;
        }
        let ghost prior = out@;
        out.insert(at, row);
        proof {
            lemma_insert_due(prior, row, at as int, now);
            assert(rows@.take(i + 1) =~= rows@.take(i as int).push(row));
            vstd::seq_lib::to_multiset_insert(prior, at as int, row);
            assert(prior.insert(at as int, row).to_multiset() =~= prior.to_multiset().insert(row));
            vstd::seq_lib::to_multiset_build(rows@.take(i as int), row);
        }
        i = i + 1;
    }
    assert(rows@.take(rows@.len() as int) =~= rows@);
    out
}

proof fn lemma_insert_due(prior: Seq<RevocationRow>, row: RevocationRow, at: int, now: u64)
    requires
        in_due_order(prior, now),
        0 <= at <= prior.len(),
        forall|k: int| 0 <= k < at ==> not_after(#[trigger] prior[k], row, now),
        at < prior.len() ==> !not_after(prior[at], row, now),
    ensures
        in_due_order(prior.insert(at, row), now),
{
    let after = prior.insert(at, row);
    assert forall|i: int, j: int| 0 <= i < j < after.len() implies not_after(
        #[trigger] after[i],
        #[trigger] after[j],
        now,
    ) by {
        if j < at {
            assert(after[i] == prior[i] && after[j] == prior[j]);
        } else if j == at {
            assert(after[i] == prior[i]);
        } else if i < at {
            assert(after[i] == prior[i] && after[j] == prior[j - 1]);
        } else if i == at {
            let first = prior[at];
            lemma_before_total(first.id@, row.id@, 0);
            lemma_before_irreflexive(row.id@, 0);
            if due_at(first, now) == due_at(row, now) {
                assert(bytes_before(row.id@, first.id@));
                if bytes_before(first.id@, row.id@) {
                    lemma_before_transitive(row.id@, first.id@, row.id@, 0);
                }
            }
            assert(not_after(row, first, now));
            if j - 1 > at {
                assert(not_after(prior[at], prior[j - 1], now));
                lemma_not_after_transitive(row, first, prior[j - 1], now);
            }
        } else {
            assert(after[i] == prior[i - 1] && after[j] == prior[j - 1]);
        }
    }
}

/// How far a pass has come.
#[derive(Clone, Copy, Debug, PartialEq, Eq)]
pub struct WakePass {
    /// Gateway operations.
    pub attempts: usize,
    /// Those of them that take capabilities back.
    pub revocation_attempts: usize,
    /// Revocations settled.
    pub changes: usize,
}

/// What happens with a revocation.
#[derive(Clone, Copy, Debug, PartialEq, Eq, Structural)]
pub enum RevocationStep {
    /// The pass has done enough.
    Stop,
    /// The capability has expired: the record is dropped.
    Retire,
    /// It waits for another pass.
    Skip,
    /// The gateway is asked to take it back.
    Attempt,
}

/// What happens with a revocation.
pub open spec fn revocation_step(
    pass: WakePass,
    row: RevocationRow,
    has_client: bool,
    late: bool,
    now: u64,
) -> RevocationStep {
    if pass.changes >= MAX_WAKE_REVOCATION_CHANGES_PER_TICK || late {
        RevocationStep::Stop
    } else if row.expires_at <= now {
        RevocationStep::Retire
    } else if row.next_attempt_at > now || pass.attempts >= MAX_WAKE_GATEWAY_OPERATIONS_PER_TICK
        || pass.revocation_attempts >= MAX_WAKE_REVOCATIONS_PER_TICK || !has_client {
        RevocationStep::Skip
    } else {
        RevocationStep::Attempt
    }
}

/// The pass once a step was taken with a revocation.
pub open spec fn pass_after(pass: WakePass, step: RevocationStep) -> WakePass {
    match step {
        RevocationStep::Retire => WakePass { changes: (pass.changes + 1) as usize, ..pass },
        RevocationStep::Attempt => WakePass {
            attempts: (pass.attempts + 1) as usize,
            revocation_attempts: (pass.revocation_attempts + 1) as usize,
            changes: (pass.changes + 1) as usize,
        },
        _ => pass,
    }
}

/// A fresh pass after the first `n` revocations.
pub open spec fn after_revocations(
    rows: Seq<RevocationRow>,
    has_client: bool,
    now: u64,
    n: int,
) -> WakePass
    decreases n,
{
    if n <= 0 {
        WakePass { attempts: 0, revocation_attempts: 0, changes: 0 }
    } else {
        let pass = after_revocations(rows, has_client, now, n - 1);
        pass_after(pass, revocation_step(pass, rows[n - 1], has_client, false, now))
    }
}

impl WakePass {
    /// The pass is within its bounds.
    pub open spec fn bounded(self) -> bool {
        &&& self.attempts <= MAX_WAKE_GATEWAY_OPERATIONS_PER_TICK
        &&& self.revocation_attempts <= MAX_WAKE_REVOCATIONS_PER_TICK
        &&& self.changes <= MAX_WAKE_REVOCATION_CHANGES_PER_TICK
    }

    /// A pass that has not begun.
    pub fn new() -> (res: WakePass)
        ensures
            res == (WakePass { attempts: 0, revocation_attempts: 0, changes: 0 }),
            res.bounded(),
    {
        WakePass { attempts: 0, revocation_attempts: 0, changes: 0 }
    }

    /// Decide what happens with a revocation.
    pub fn revocation(&mut self, row: &RevocationRow, has_client: bool, late: bool, now: u64) -> (res:
        RevocationStep)
        ensures
            old(self).bounded() ==> final(self).bounded(),
            res == revocation_step(*old(self), *row, has_client, late, now),
            *final(self) == pass_after(*old(self), res),
    {
        if self.changes >= MAX_WAKE_REVOCATION_CHANGES_PER_TICK || late {
            return RevocationStep::Stop;
        }
        if row.expires_at <= now {
            self.changes = self.changes + 1;
            return RevocationStep::Retire;
        }
        if row.next_attempt_at > now || self.attempts >= MAX_WAKE_GATEWAY_OPERATIONS_PER_TICK
            || self.revocation_attempts >= MAX_WAKE_REVOCATIONS_PER_TICK || !has_client {
            return RevocationStep::Skip;
        }
        self.attempts = self.attempts + 1;
        self.revocation_attempts = self.revocation_attempts + 1;
        self.changes = self.changes + 1;
        RevocationStep::Attempt
    }

    /// Whether another gateway may be asked to wake a peer up.
    pub fn may_trigger(&self, late: bool) -> (res: bool)
        ensures
            res == (self.attempts < MAX_WAKE_GATEWAY_OPERATIONS_PER_TICK && !late),
    {
        self.attempts < MAX_WAKE_GATEWAY_OPERATIONS_PER_TICK && !late
    }

    /// Decide whether a capability of a peer is used now: something waits for the peer, it
    /// has not expired, and it is due.
    pub fn trigger(
        &mut self,
        pending: bool,
        expires_at: u64,
        next_attempt_at: u64,
        late: bool,
        now: u64,
    ) -> (res: bool)
        ensures
            old(self).bounded() ==> final(self).bounded(),
            res == (old(self).attempts < MAX_WAKE_GATEWAY_OPERATIONS_PER_TICK && !late && pending
                && expires_at > now && next_attempt_at <= now),
            *final(self) == if res {
                WakePass { attempts: (old(self).attempts + 1) as usize, ..*old(self) }
            } else {
                *old(self)
            },
    {
        if self.attempts >= MAX_WAKE_GATEWAY_OPERATIONS_PER_TICK || late || !pending || expires_at
            <= now || next_attempt_at > now {
            return false;
        }
        self.attempts = self.attempts + 1;
        true
    }
}

/// Expired capabilities are dropped before any gateway is asked.
pub proof fn law_expired_revocations_go_first(
    rows: Seq<RevocationRow>,
    now: u64,
    i: int,
    j: int,
)
    requires
        in_due_order(rows, now),
        0 <= i < j < rows.len(),
        rows[j].expires_at <= now,
    ensures
        rows[i].expires_at <= now || rows[i].next_attempt_at == 0,
{
    assert(not_after(rows[i], rows[j], now));
}

/// However many revocations wait, a pass has gateway operations left to wake peers up.
pub proof fn law_revocations_leave_room_for_triggers(
    rows: Seq<RevocationRow>,
    has_client: bool,
    now: u64,
    n: int,
)
    ensures
        ({
            let pass = after_revocations(rows, has_client, now, n);
            &&& pass.bounded()
            &&& pass.attempts == pass.revocation_attempts
            &&& pass.attempts < MAX_WAKE_GATEWAY_OPERATIONS_PER_TICK
        }),
    decreases n,
{
    if n > 0 {
        law_revocations_leave_room_for_triggers(rows, has_client, now, n - 1);
    }
}

/// Whether the gateway of a capability that is being taken back is the one on record: its
/// identity follows from where it is and its key.
pub fn check_gateway(recorded: &Id, derived: &Id) -> (res: Result<()>)
    ensures
        match res {
            Ok(_) => *recorded == *derived,
            Err(e) => *recorded != *derived && e == NodeError::CorruptState,
        },
{
    if same(recorded, derived) {
        Ok(())
    } else {
        Err(NodeError::CorruptState)
    }
}

/// The capabilities of a peer that are marked for use when something waits for it: those
/// that have not expired, unless the peer's sets contradict each other.
pub fn marks_pending(has_client: bool, in_conflict: bool, expires_at: u64, now: u64) -> (res: bool)
    ensures
        res == (has_client && !in_conflict && expires_at > now),
{
    has_client && !in_conflict && expires_at > now
}

// ---- Taking all capabilities back ----

/// The capabilities handed out to a device.
#[derive(Clone, Copy, Debug, PartialEq, Eq)]
pub struct IssuedSet {
    /// The device.
    pub device: Id,
    /// How many there are.
    pub count: usize,
    /// Generation of the set.
    pub generation: u64,
}

/// A device that is told an empty set.
#[derive(Clone, Copy, Debug, PartialEq, Eq)]
pub struct EmptySet {
    /// The device.
    pub device: Id,
    /// Generation of the empty set.
    pub generation: u64,
}

/// The record of the capabilities handed out to a device, where there is one: the first from
/// `from` on.
pub open spec fn issued_to(sets: Seq<IssuedSet>, device: Id, from: int) -> Option<IssuedSet>
    decreases sets.len() - from,
{
    if from >= sets.len() {
        None
    } else if sets[from].device == device {
        Some(sets[from])
    } else {
        issued_to(sets, device, from + 1)
    }
}

/// The empty sets told to the first `n` devices: to each that has capabilities, one generation
/// after its set. A device without any record is passed over.
pub open spec fn emptied(devices: Seq<Id>, sets: Seq<IssuedSet>, n: int) -> Seq<EmptySet>
    decreases n,
{
    if n <= 0 {
        Seq::empty()
    } else {
        let prior = emptied(devices, sets, n - 1);
        match issued_to(sets, devices[n - 1], 0) {
            Some(set) => if set.count == 0 {
                prior
            } else {
                prior.push(
                    EmptySet {
                        device: devices[n - 1],
                        generation: (set.generation + 1) as u64,
                    },
                )
            },
            None => prior,
        }
    }
}

/// The device has a set that cannot be followed by another.
pub open spec fn exhausted(sets: Seq<IssuedSet>, device: Id) -> bool {
    match issued_to(sets, device, 0) {
        Some(set) => set.count > 0 && set.generation == u64::MAX,
        None => false,
    }
}

fn find_issued(sets: &Vec<IssuedSet>, device: &Id) -> (res: Option<IssuedSet>)
    ensures
        res == issued_to(sets@, *device, 0),
{
    let mut i: usize = 0;
    while i < sets.len()
        invariant
            i <= sets@.len(),
            issued_to(sets@, *device, 0) == issued_to(sets@, *device, i as int),
        decreases sets@.len() - i,
    {
        if same(&sets[i].device, device) {
            return Some(sets[i]);
        }
        i = i + 1;
    }
    None
}

/// What taking all capabilities back comes to.
pub struct Revocation {
    /// Devices that are told an empty set, in order.
    pub told: Vec<EmptySet>,
    /// The device whose generations are used up, where there is one: the devices after it are
    /// not told.
    pub stopped: Option<Id>,
}

/// The devices in ascending order, and what is told to them.
pub open spec fn revoked(
    devices: Seq<Id>,
    sets: Seq<IssuedSet>,
    told: Seq<EmptySet>,
    stopped: Option<Id>,
) -> bool {
    match stopped {
        Some(device) => exists|at: int|
            0 <= at < devices.len() && #[trigger] devices[at] == device && exhausted(sets, device)
                && (forall|k: int| 0 <= k < at ==> !exhausted(sets, #[trigger] devices[k]))
                && told == emptied(devices, sets, at),
        None => (forall|k: int| 0 <= k < devices.len() ==> !exhausted(sets, #[trigger] devices[k]))
            && told == emptied(devices, sets, devices.len() as int),
    }
}

/// Take all capabilities back. The devices with a session are told in ascending order; one
/// without a record of capabilities is passed over, as is one that was handed none.
pub fn revoke_native_wake_capabilities(
    sessions: &IdSet,
    sets: &Vec<IssuedSet>,
    now: u64,
) -> (res: Result<Revocation>)
    ensures
        match res {
            Err(e) => now == 0 && e == NodeError::WakeUnavailable,
            Ok(revocation) => now != 0 && exists|devices: Seq<Id>| #[trigger]
                ascending(devices) && devices.to_set() == sessions@ && revoked(
                    devices,
                    sets@,
                    revocation.told@,
                    revocation.stopped,
                ),
        },
{
    if now == 0 {
        return Err(NodeError::WakeUnavailable);
    }
    let devices = sorted_ids(sessions);
    let mut told: Vec<EmptySet> = Vec::new();
    let mut i: usize = 0;
    while i < devices.len()
        invariant
            i <= devices@.len(),
            now != 0,
            ascending(devices@),
            devices@.to_set() == sessions@,
            told@ == emptied(devices@, sets@, i as int),
            forall|k: int| 0 <= k < i ==> !exhausted(sets@, #[trigger] devices@[k]),
        decreases devices@.len() - i,
    {
        if let Some(set) = find_issued(sets, &devices[i]) {
            if set.count > 0 {
                match next_issued_generation(set.generation) {
                    Ok(generation) => {
                        told.push(EmptySet { device: devices[i], generation });
                    },
                    Err(_) => {
                        let revocation = Revocation { told, stopped: Some(devices[i]) };
                        assert(devices@[i as int] == revocation.stopped->0);
                        assert(revoked(
                            devices@,
                            sets@,
                            revocation.told@,
                            revocation.stopped,
                        ));
                        return Ok(revocation);
                    },
                }
            }
        }
        i = i + 1;
    }
    let revocation = Revocation { told, stopped: None };
    assert(revoked(devices@, sets@, revocation.told@, revocation.stopped));
    Ok(revocation)
}

/// Once the empty sets were handed out: how many devices were told. Registration starts anew
/// then, unless a device was in the way.
pub fn conclude_revocation(revocation: &Revocation, cursor: &mut usize) -> (res: Result<usize>)
    ensures
        match res {
            Ok(updated) => revocation.stopped is None && updated == revocation.told@.len()
                && *final(cursor) == 0,
            Err(e) => revocation.stopped is Some && e == NodeError::CorruptState && *final(cursor)
                == *old(cursor),
        },
{
    if revocation.stopped.is_some() {
        return Err(NodeError::CorruptState);
    }
    *cursor = 0;
    Ok(revocation.told.len())
}

// ---- Laws ----

/// A capability is kept while its gateway is allowed and it has not expired.
pub proof fn law_kept_capabilities(capability: IssuedCapability, allowed: Seq<Id>, now: u64)
    ensures
        is_kept(capability, allowed, now) <==> allowed.contains(capability.provider) && now
            < capability.expires_at,
{
}

/// A reply of a gateway is good when it accepts, brings a capability, and this lasts from now
/// on but not longer than allowed.
pub proof fn law_good_replies(reply: GatewayReply, max_lifetime: u64, now: u64)
    ensures
        is_good(reply, max_lifetime, now) <==> reply.has_capability && reply.accepted && now
            < reply.expires_at <= now + max_lifetime,
{
}

/// A set of gateways is registered only when every one of them has given a good reply.
pub proof fn law_registration_needs_every_gateway(
    replies: Seq<Option<GatewayReply>>,
    gateways: usize,
    max_lifetime: u64,
    now: u64,
    k: int,
)
    ensures
        replies.len() != gateways ==> !all_good(replies, gateways, max_lifetime, now),
        0 <= k < replies.len() && replies[k] is None ==> !all_good(
            replies,
            gateways,
            max_lifetime,
            now,
        ),
        0 <= k < replies.len() && replies[k] is Some && !is_good(replies[k]->0, max_lifetime, now)
            ==> !all_good(replies, gateways, max_lifetime, now),
        replies.len() == gateways && (forall|j: int|
            0 <= j < replies.len() ==> (#[trigger] replies[j]) is Some && is_good(
                replies[j]->0,
                max_lifetime,
                now,
            )) ==> all_good(replies, gateways, max_lifetime, now),
{
    if 0 <= k < replies.len() {
        let reply = replies[k];
    }
}

/// A call registers the next eight contacts, from where the last one stopped.
pub proof fn law_spans_of_registration(cursor: usize, contacts: usize)
    ensures
        cursor >= contacts ==> span_start(cursor, contacts) == 0,
        cursor < contacts ==> span_start(cursor, contacts) == cursor,
        span_start(cursor, contacts) + 8 <= contacts ==> span_end(cursor, contacts) == span_start(
            cursor,
            contacts,
        ) + 8,
        span_start(cursor, contacts) + 8 > contacts ==> span_end(cursor, contacts) == contacts,
{
}

/// What expired is due at once, everything else at its next attempt; what is due first stands
/// first.
pub proof fn law_order_of_revocations(a: RevocationRow, b: RevocationRow, now: u64)
    ensures
        a.expires_at <= now ==> due_at(a, now) == 0,
        a.expires_at > now ==> due_at(a, now) == a.next_attempt_at,
        due_at(a, now) < due_at(b, now) ==> not_after(a, b, now) && !not_after(b, a, now),
{
}

/// What is done with a revocation: an expired one is retired, one whose time has not come or
/// that no gateway can take is passed over, and every other one is tried while the allowance
/// lasts.
pub proof fn law_steps_of_revocation(
    pass: WakePass,
    row: RevocationRow,
    has_client: bool,
    now: u64,
)
    ensures
        revocation_step(pass, row, has_client, true, now) == RevocationStep::Stop,
        pass.changes >= 32 ==> revocation_step(pass, row, has_client, false, now)
            == RevocationStep::Stop,
        pass.changes < 32 && row.expires_at <= now ==> revocation_step(
            pass,
            row,
            has_client,
            false,
            now,
        ) == RevocationStep::Retire,
        pass.changes < 32 && row.expires_at > now && (row.next_attempt_at > now || !has_client)
            ==> revocation_step(pass, row, has_client, false, now) == RevocationStep::Skip,
        pass.changes < 32 && row.expires_at > now && (pass.attempts >= 8
            || pass.revocation_attempts >= 4) ==> revocation_step(pass, row, has_client, false, now)
            == RevocationStep::Skip,
        pass.changes < 32 && row.expires_at > now && row.next_attempt_at <= now && has_client
            && pass.attempts < 8 && pass.revocation_attempts < 4 ==> revocation_step(
            pass,
            row,
            has_client,
            false,
            now,
        ) == RevocationStep::Attempt,
{
}

/// A retired revocation is a change; an attempted one is also an operation and an attempt;
/// what was passed over costs nothing.
pub proof fn law_costs_of_revocation(pass: WakePass)
    requires
        pass.bounded(),
    ensures
        pass_after(pass, RevocationStep::Stop) == pass,
        pass_after(pass, RevocationStep::Skip) == pass,
        ({
            let after = pass_after(pass, RevocationStep::Retire);
            &&& after.changes == pass.changes + 1
            &&& after.attempts == pass.attempts
            &&& after.revocation_attempts == pass.revocation_attempts
        }),
        ({
            let after = pass_after(pass, RevocationStep::Attempt);
            &&& after.changes == pass.changes + 1
            &&& after.attempts == pass.attempts + 1
            &&& after.revocation_attempts == pass.revocation_attempts + 1
        }),
{
}

proof fn lemma_issued_to(sets: Seq<IssuedSet>, device: Id, from: int, at: int)
    requires
        0 <= from <= at < sets.len(),
        sets[at].device == device,
        forall|j: int| from <= j < at ==> (#[trigger] sets[j]).device != device,
    ensures
        issued_to(sets, device, from) == Some(sets[at]),
    decreases at - from,
{
    if from < at {
        lemma_issued_to(sets, device, from + 1, at);
    }
}

/// Every device that holds capabilities is told that it has none, under the next generation.
pub proof fn law_all_capabilities_are_taken_back(
    devices: Seq<Id>,
    sets: Seq<IssuedSet>,
    n: int,
    i: int,
    at: int,
)
    requires
        0 <= i < n <= devices.len(),
        0 <= at < sets.len(),
        sets[at].device == devices[i],
        forall|j: int| 0 <= j < at ==> (#[trigger] sets[j]).device != devices[i],
        sets[at].count > 0,
        sets[at].generation < u64::MAX,
    ensures
        emptied(devices, sets, n).contains(
            EmptySet { device: devices[i], generation: (sets[at].generation + 1) as u64 },
        ),
        !exhausted(sets, devices[i]),
    decreases n,
{
    lemma_issued_to(sets, devices[i], 0, at);
    let told = EmptySet { device: devices[i], generation: (sets[at].generation + 1) as u64 };
    let all = emptied(devices, sets, n);
    if i < n - 1 {
        law_all_capabilities_are_taken_back(devices, sets, n - 1, i, at);
        let prior = emptied(devices, sets, n - 1);
        let k = choose|k: int| 0 <= k < prior.len() && prior[k] == told;
        assert(all[k] == told);
    } else {
        assert(all.last() == told);
    }
}

/// A device without capabilities is told nothing; one whose generations are used up stops the
/// call.
pub proof fn law_devices_without_capabilities_are_told_nothing(
    devices: Seq<Id>,
    sets: Seq<IssuedSet>,
    n: int,
    k: int,
    at: int,
    device: Id,
)
    requires
        0 <= n <= devices.len(),
    ensures
        0 <= k < emptied(devices, sets, n).len() ==> exists|i: int|
            0 <= i < n && #[trigger] devices[i] == emptied(devices, sets, n)[k].device && (
            issued_to(sets, devices[i], 0) matches Some(set) && set.count > 0),
        0 <= at < sets.len() && sets[at].device == device && (forall|j: int|
            0 <= j < at ==> (#[trigger] sets[j]).device != device) ==> exhausted(sets, device) == (
        sets[at].count > 0 && sets[at].generation == u64::MAX),
    decreases n,
{
    if 0 <= at < sets.len() && sets[at].device == device && (forall|j: int|
        0 <= j < at ==> (#[trigger] sets[j]).device != device) {
        lemma_issued_to(sets, device, 0, at);
    }
    if n > 0 && 0 <= k < emptied(devices, sets, n).len() {
        let prior = emptied(devices, sets, n - 1);
        let all = emptied(devices, sets, n);
        if k < prior.len() {
            law_devices_without_capabilities_are_told_nothing(devices, sets, n - 1, k, at, device);
            assert(all[k] == prior[k]);
        } else {
            assert(devices[n - 1] == all[k].device);
        }
    }
}

/// Every capability is taken back unless the generations of one device are used up; then the
/// devices before it have been told.
pub proof fn law_taking_back_stops_at_the_first_failure(
    devices: Seq<Id>,
    sets: Seq<IssuedSet>,
    told: Seq<EmptySet>,
    stopped: Option<Id>,
    i: int,
)
    requires
        revoked(devices, sets, told, stopped),
        0 <= i < devices.len(),
    ensures
        stopped is None ==> !exhausted(sets, devices[i]) && told == emptied(
            devices,
            sets,
            devices.len() as int,
        ),
        stopped is Some ==> exhausted(sets, stopped->0) && devices.contains(stopped->0) && exists|
            at: int,
        |
            0 <= at < devices.len() && #[trigger] devices[at] == stopped->0 && told == emptied(
                devices,
                sets,
                at,
            ),
        (forall|k: int| 0 <= k < devices.len() ==> !exhausted(sets, #[trigger] devices[k]))
            ==> stopped is None,
{
}

/// Capabilities that are handed out all expire later than now, and none lasts too long.
pub proof fn law_lifetimes_of_capabilities(expiries: Seq<u64>, max_lifetime: u64, now: u64, i: int)
    requires
        0 <= i < expiries.len(),
    ensures
        expiries[i] <= now || expiries[i] > now + max_lifetime ==> !expiries_ok(
            expiries,
            max_lifetime,
            now,
        ),
        (forall|k: int|
            0 <= k < expiries.len() ==> now < #[trigger] expiries[k] <= now + max_lifetime)
            ==> expiries_ok(expiries, max_lifetime, now),
{
}

} // verus!
