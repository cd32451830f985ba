//! Bridging between radio mesh and internet: a bounded queue of third-party envelopes.
//!
//! The bridge handles nothing but sealed envelopes and rotating tokens, the same view any
//! relay already has. Transit never returns to the side it came from.

use vstd::prelude::*;

use crate::bytes::{same, ContentId};
use crate::records::EnvelopeKind;
use crate::schedule::{
    airtime_ceiling, ceiling_of, doubled, doubling, min_of, Reachability, RETRY_BASE_SECS,
    RETRY_CAP_SECS,
};

verus! {

/// How long a transit envelope may wait for a sink.
pub const TRANSIT_TTL_SECS: u64 = 259_200;

/// Cap on transit envelopes.
pub const MAX_TRANSIT_ITEMS: usize = 256;

/// Cap on transit bytes.
pub const MAX_TRANSIT_BYTES: usize = 524_288;

/// Cap on remembered content identities.
pub const MAX_TRANSIT_SEEN: usize = 4_096;

/// Rounds of deposits before an envelope that no relay recognizes is dropped.
pub const TRANSIT_DEPOSIT_ATTEMPTS: u32 = 8;

/// First delay between deposit rounds.
pub const TRANSIT_DEPOSIT_RETRY_BASE_SECS: u64 = 5;

/// Floods of one envelope.
pub const TRANSIT_MESH_FLOODS: u32 = 3;

/// First delay between floods.
pub const TRANSIT_REFLOOD_BASE_SECS: u64 = 300;

/// Longest wait between two attempts with an envelope of others.
pub const MAX_TRANSIT_DELAY_SECS: u64 = 76_800;

/// Every wait between two attempts ends before time does.
pub open spec fn dates_retries(now: u64) -> bool {
    now <= u64::MAX - MAX_TRANSIT_DELAY_SECS
}

/// Whether every wait between two attempts ends before time does.
pub fn can_date_retries(now: u64) -> (res: bool)
    ensures
        res == dates_retries(now),
{
    now <= u64::MAX - MAX_TRANSIT_DELAY_SECS
}

/// Floods in one pass.
pub const TRANSIT_MESH_PER_TICK: usize = 4;

/// A third-party envelope, as far as the bridge looks at it.
#[derive(Clone, Copy, Debug, PartialEq, Eq)]
pub struct TransitEnvelope {
    /// Content identity.
    pub content_id: ContentId,
    /// What it holds.
    pub kind: EnvelopeKind,
    /// Encoded size.
    pub encoded_len: usize,
    /// When it stops being worth delivering.
    pub retention_until: Option<u64>,
}

/// A third-party envelope in transit.
#[derive(Clone, Copy, Debug, PartialEq, Eq)]
pub struct TransitItem {
    /// The envelope.
    pub envelope: TransitEnvelope,
    /// It arrived over the mesh.
    pub from_mesh: bool,
    /// When it arrived.
    pub first_seen: u64,
    /// Rounds so far.
    pub attempts: u32,
    /// Earliest next round.
    pub next_ok: u64,
}

/// Bytes of the first `n` envelopes.
pub open spec fn bytes_of(queue: Seq<TransitItem>, n: int) -> int
    decreases n,
{
    if n <= 0 {
        0
    } else {
        bytes_of(queue, n - 1) + queue[n - 1].envelope.encoded_len
    }
}

/// Bytes of all envelopes.
pub open spec fn total_bytes(queue: Seq<TransitItem>) -> int {
    bytes_of(queue, queue.len() as int)
}

/// The envelope is no longer worth delivering at `now`.
pub open spec fn is_stale(envelope: TransitEnvelope, now: u64) -> bool {
    envelope.retention_until matches Some(deadline) && deadline <= now
}

/// The bridge: the relays it deposits with, the transit queue, and the content identities it
/// has seen.
pub struct Bridge {
    relays: Vec<String>,
    queue: Vec<TransitItem>,
    queue_bytes: usize,
    seen: Vec<ContentId>,
}

/// What the bridge holds.
#[verifier::ext_equal]
pub struct BridgeView {
    /// Addresses of the relays that deposits are offered to, in order.
    pub relays: Seq<Seq<char>>,
    /// Envelopes in transit, oldest first.
    pub queue: Seq<TransitItem>,
    /// Content identities seen, oldest first.
    pub seen: Seq<ContentId>,
}

impl View for Bridge {
    type V = BridgeView;

    closed spec fn view(&self) -> BridgeView {
        BridgeView {
            relays: addresses(self.relays@),
            queue: self.queue@,
            seen: self.seen@,
        }
    }
}

/// Addresses as characters.
pub open spec fn addresses(relays: Seq<String>) -> Seq<Seq<char>> {
    relays.map_values(|r: String| r@)
}

/// A bridge with nothing in transit.
pub open spec fn idle(relays: Seq<Seq<char>>) -> BridgeView {
    BridgeView { relays, queue: Seq::empty(), seen: Seq::empty() }
}

/// A new envelope that is worth delivering, small enough for its class, not seen before,
/// and for which there is room.
pub open spec fn admits(bridge: BridgeView, envelope: TransitEnvelope, now: u64) -> bool {
    &&& !is_stale(envelope, now)
    &&& envelope.encoded_len <= ceiling_of(envelope.kind)
    &&& !bridge.seen.contains(envelope.content_id)
    &&& bridge.queue.len() < MAX_TRANSIT_ITEMS
    &&& total_bytes(bridge.queue) + envelope.encoded_len <= MAX_TRANSIT_BYTES
}

/// The bridge once it has taken an envelope over.
pub open spec fn admitted(
    bridge: BridgeView,
    envelope: TransitEnvelope,
    from_mesh: bool,
    now: u64,
) -> BridgeView {
    let seen = bridge.seen.push(envelope.content_id);
    BridgeView {
        relays: bridge.relays,
        queue: bridge.queue.push(
            TransitItem { envelope, from_mesh, first_seen: now, attempts: 0, next_ok: now },
        ),
        seen: if seen.len() > MAX_TRANSIT_SEEN {
            seen.skip(1)
        } else {
            seen
        },
    }
}

proof fn lemma_bytes_prefix(a: Seq<TransitItem>, b: Seq<TransitItem>, n: int)
    requires
        0 <= n <= a.len(),
        n <= b.len(),
        forall|i: int| 0 <= i < n ==> #[trigger] a[i] == b[i],
    ensures
        bytes_of(a, n) == bytes_of(b, n),
    decreases n,
{
    if n > 0 {
        lemma_bytes_prefix(a, b, n - 1);
    }
}

proof fn lemma_bytes_push(queue: Seq<TransitItem>, item: TransitItem)
    ensures
        total_bytes(queue.push(item)) == total_bytes(queue) + item.envelope.encoded_len,
{
    lemma_bytes_prefix(queue, queue.push(item), queue.len() as int);
}

proof fn lemma_bytes_nonnegative(queue: Seq<TransitItem>, n: int)
    ensures
        bytes_of(queue, n) >= 0,
    decreases n,
{
    if n > 0 {
        lemma_bytes_nonnegative(queue, n - 1);
    }
}

proof fn lemma_bytes_filter(queue: Seq<TransitItem>, keep: spec_fn(TransitItem) -> bool, n: int)
    requires
        0 <= n <= queue.len(),
    ensures
        total_bytes(queue.take(n).filter(keep)) <= bytes_of(queue, n),
    decreases n,
{
    if n > 0 {
        lemma_bytes_filter(queue, keep, n - 1);
        crate::seqs::lemma_filter_step(queue, keep, n - 1);
        lemma_bytes_push(queue.take(n - 1).filter(keep), queue[n - 1]);
    } else {
        crate::seqs::lemma_filter_none(queue, keep);
    }
}

/// Kept by a flush: not too old and still worth delivering.
pub open spec fn is_live(item: TransitItem, now: u64) -> bool {
    now - item.first_seen <= TRANSIT_TTL_SECS && !is_stale(item.envelope, now)
}

impl Bridge {
    /// The accounts agree with the queue, and every cap holds.
    pub closed spec fn well_formed(self) -> bool {
        &&& self.queue_bytes == total_bytes(self.queue@)
        &&& self.queue@.len() <= MAX_TRANSIT_ITEMS
        &&& self.queue_bytes <= MAX_TRANSIT_BYTES
        &&& self.seen@.len() <= MAX_TRANSIT_SEEN
    }

    /// Every cap holds of a well-formed bridge.
    pub proof fn law_transit_is_bounded(self)
        requires
            self.well_formed(),
        ensures
            self@.queue.len() <= MAX_TRANSIT_ITEMS,
            total_bytes(self@.queue) <= MAX_TRANSIT_BYTES,
            self@.seen.len() <= MAX_TRANSIT_SEEN,
    {
    }

    /// A bridge that deposits with `relays`, with nothing in transit.
    pub fn new(relays: Vec<String>) -> (bridge: Bridge)
        ensures
            bridge.well_formed(),
            bridge@ == idle(addresses(relays@)),
    {
        let bridge = Bridge { relays, queue: Vec::new(), queue_bytes: 0, seen: Vec::new() };
        assert(bridge@ =~= idle(addresses(relays@)));
        bridge
    }

    /// The relays that deposits are offered to, in order.
    pub fn relays(&self) -> (res: &Vec<String>)
        ensures
            addresses(res@) == self@.relays,
    {
        &self.relays
    }

    fn has_seen(&self, id: &ContentId) -> (res: bool)
        ensures
            res == self@.seen.contains(*id),
    {
        crate::settlement::holds(&self.seen, id)
    }

    /// Take one foreign envelope over, if it is new and fits every cap. An envelope refused for
    /// lack of room is not remembered, so a later copy may still get in. The result says
    /// whether it was taken over.
    pub fn take_over(&mut self, envelope: TransitEnvelope, from_mesh: bool, now: u64) -> (res: bool)
        requires
            old(self).well_formed(),
        ensures
            final(self).well_formed(),
            res == admits(old(self)@, envelope, now),
            final(self)@ == if admits(old(self)@, envelope, now) {
                admitted(old(self)@, envelope, from_mesh, now)
            } else {
                old(self)@
            },
    {
        let stale = match envelope.retention_until {
            Some(deadline) => deadline <= now,
            None => false,
        };
        if stale || envelope.encoded_len > airtime_ceiling(envelope.kind) || self.has_seen(
            &envelope.content_id,
        ) {
            return false;
        }
        if self.queue.len() >= MAX_TRANSIT_ITEMS || self.queue_bytes + envelope.encoded_len
            > MAX_TRANSIT_BYTES {
            return false;
        }
        let ghost prior = self@;
        let item = TransitItem { envelope, from_mesh, first_seen: now, attempts: 0, next_ok: now };
        proof {
            lemma_bytes_push(self.queue@, item);
        }
        self.seen.push(envelope.content_id);
        if self.seen.len() > MAX_TRANSIT_SEEN {
            self.seen.remove(0);
            assert(self.seen@ =~= prior.seen.push(envelope.content_id).skip(1));
        }
        self.queue_bytes = self.queue_bytes + envelope.encoded_len;
        self.queue.push(item);
        assert(self@ =~= admitted(prior, envelope, from_mesh, now));
        true
    }

    /// Start a pass: what is too old or no longer worth delivering is dropped, and the rest
    /// is handed to the pass.
    pub fn begin_pass(&mut self, now: u64) -> (pass: TransitPass)
        requires
            old(self).well_formed(),
        ensures
            final(self).well_formed(),
            final(self)@ == (BridgeView { queue: Seq::empty(), ..old(self)@ }),
            pass.well_formed(),
            pass@ == (PassView {
                rest: old(self)@.queue.filter(|i: TransitItem| is_live(i, now)),
                kept: Seq::empty(),
                floods: 0,
            }),
    {
        let ghost whole = self.queue@;
        let ghost keep = |i: TransitItem| is_live(i, now);
        let mut items: Vec<TransitItem> = Vec::new();
        let mut i: usize = 0;
        proof {
            crate::seqs::lemma_filter_none(whole, keep);
        }
        while i < self.queue.len()
            invariant
                i <= self.queue@.len(),
                whole == self.queue@,
                keep == (|i: TransitItem| is_live(i, now)),
                items@ == whole.take(i as int).filter(keep),
            decreases self.queue@.len() - i,
        {
            proof {
                crate::seqs::lemma_filter_step(whole, keep, i as int);
            }
            let item = self.queue[i];
            let stale = match item.envelope.retention_until {
                Some(deadline) => deadline <= now,
                None => false,
            };
            if now.saturating_sub(item.first_seen) <= TRANSIT_TTL_SECS && !stale {
                items.push(item);
            }
            i = i + 1;
        }
        proof {
            crate::seqs::lemma_take_all(whole);
            crate::seqs::lemma_filter_kept(whole, keep);
            lemma_bytes_filter(whole, keep, whole.len() as int);
        }
        self.queue = Vec::new();
        self.queue_bytes = 0;
        let pass = TransitPass { items, index: 0, kept: Vec::new(), floods: 0 };
        assert(pass@.rest =~= whole.filter(keep));
        assert(pass@.kept =~= Seq::<TransitItem>::empty());
        assert(self@.queue =~= Seq::<TransitItem>::empty());
        assert(pass.items@.take(0) =~= Seq::<TransitItem>::empty());
        pass
    }

    /// End a pass: what it kept is the queue again.
    pub fn end_pass(&mut self, pass: TransitPass)
        requires
            old(self).well_formed(),
            pass.well_formed(),
            pass@.rest.len() == 0,
        ensures
            final(self).well_formed(),
            final(self)@ == (BridgeView { queue: pass@.kept, ..old(self)@ }),
    {
        let ghost prior = self@;
        let mut bytes: usize = 0;
        let mut i: usize = 0;
        proof {
            pass.lemma_kept();
        }
        while i < pass.kept.len()
            invariant
                i <= pass.kept@.len(),
                bytes == bytes_of(pass.kept@, i as int),
                total_bytes(pass.kept@) <= MAX_TRANSIT_BYTES,
            decreases pass.kept@.len() - i,
        {
            proof {
                lemma_bytes_grow(pass.kept@, i + 1, pass.kept@.len() as int);
            }
            bytes = bytes + pass.kept[i].envelope.encoded_len;
            i = i + 1;
        }
        self.queue_bytes = bytes;
        self.queue = pass.kept;
        assert(self@ =~= (BridgeView { queue: pass@.kept, ..prior }));
    }
}

proof fn lemma_bytes_grow(queue: Seq<TransitItem>, a: int, b: int)
    requires
        0 <= a <= b <= queue.len(),
    ensures
        bytes_of(queue, a) <= bytes_of(queue, b),
    decreases b - a,
{
    if a < b {
        lemma_bytes_grow(queue, a, b - 1);
    }
}

/// One pass over the transit queue.
pub struct TransitPass {
    items: Vec<TransitItem>,
    index: usize,
    kept: Vec<TransitItem>,
    floods: usize,
}

/// Where a pass stands.
#[verifier::ext_equal]
pub struct PassView {
    /// Envelopes still to look at.
    pub rest: Seq<TransitItem>,
    /// Envelopes that stay in transit.
    pub kept: Seq<TransitItem>,
    /// Floods so far.
    pub floods: int,
}

/// What to do with the next envelope.
#[derive(Clone, Copy, Debug, PartialEq, Eq, Structural)]
pub enum TransitAction {
    /// Nothing yet.
    Wait,
    /// Offer it to the internet-side relays.
    Deposit,
    /// Flood it on the broadcast carriers.
    Flood,
}

/// What came of it.
#[derive(Clone, Copy, Debug, PartialEq, Eq, Structural)]
pub enum TransitOutcome {
    /// Nothing was done.
    Waited,
    /// A relay took the deposit.
    Accepted,
    /// Relays were reachable but none took it.
    Refused,
    /// No relay was reachable.
    Unreachable,
    /// Some broadcast carrier took it.
    Flooded,
    /// No broadcast carrier took it.
    NotFlooded,
}

/// What to do with an envelope: mesh-heard ones are deposited, internet-side ones are
/// flooded, a bounded number per pass.
pub open spec fn action_for(item: TransitItem, floods: int, now: u64) -> TransitAction {
    if now < item.next_ok {
        TransitAction::Wait
    } else if item.from_mesh {
        TransitAction::Deposit
    } else if floods >= TRANSIT_MESH_PER_TICK {
        TransitAction::Wait
    } else {
        TransitAction::Flood
    }
}

/// The outcome answers the action.
pub open spec fn answers(action: TransitAction, outcome: TransitOutcome) -> bool {
    match action {
        TransitAction::Wait => outcome == TransitOutcome::Waited,
        TransitAction::Deposit => outcome == TransitOutcome::Accepted || outcome
            == TransitOutcome::Refused || outcome == TransitOutcome::Unreachable,
        TransitAction::Flood => outcome == TransitOutcome::Flooded || outcome
            == TransitOutcome::NotFlooded,
    }
}

/// Delay before the next deposit round.
pub open spec fn deposit_delay(attempts: u32) -> int {
    min_of(
        TRANSIT_DEPOSIT_RETRY_BASE_SECS * doubling(min_of(attempts as int, 7)),
        RETRY_CAP_SECS as int,
    )
}

/// An envelope after its turn, or nothing when it leaves transit: it was taken over, no
/// relay recognized it in any round, or its floods are spent.
pub open spec fn after_turn(item: TransitItem, outcome: TransitOutcome, now: u64) -> Option<
    TransitItem,
> {
    match outcome {
        TransitOutcome::Waited => Some(item),
        TransitOutcome::Accepted => None,
        TransitOutcome::Unreachable => Some(
            TransitItem { next_ok: (now + RETRY_BASE_SECS) as u64, ..item },
        ),
        TransitOutcome::Refused => if item.attempts + 1 >= TRANSIT_DEPOSIT_ATTEMPTS {
            None
        } else {
            Some(
                TransitItem {
                    attempts: (item.attempts + 1) as u32,
                    next_ok: (now + deposit_delay(item.attempts)) as u64,
                    ..item
                },
            )
        },
        TransitOutcome::Flooded => if item.attempts + 1 >= TRANSIT_MESH_FLOODS {
            None
        } else {
            Some(
                TransitItem {
                    attempts: (item.attempts + 1) as u32,
                    next_ok: (now + TRANSIT_REFLOOD_BASE_SECS * doubling(
                        min_of(item.attempts + 1, 7),
                    )) as u64,
                    ..item
                },
            )
        },
        TransitOutcome::NotFlooded => Some(
            TransitItem { next_ok: (now + RETRY_BASE_SECS) as u64, ..item },
        ),
    }
}

impl View for TransitPass {
    type V = PassView;

    closed spec fn view(&self) -> PassView {
        PassView {
            rest: self.items@.skip(self.index as int),
            kept: self.kept@,
            floods: self.floods as int,
        }
    }
}

impl TransitPass {
    /// What was looked at is not less than what was kept, and the caps still hold.
    pub closed spec fn well_formed(self) -> bool {
        &&& self.index <= self.items@.len() <= MAX_TRANSIT_ITEMS
        &&& self.kept@.len() <= self.index
        &&& total_bytes(self.items@) <= MAX_TRANSIT_BYTES
        &&& total_bytes(self.kept@) <= bytes_of(self.items@, self.index as int)
        &&& self.floods <= self.index
    }

    /// What a pass kept meets the caps.
    proof fn lemma_kept(self)
        requires
            self.well_formed(),
        ensures
            self.kept@.len() <= MAX_TRANSIT_ITEMS,
            total_bytes(self.kept@) <= MAX_TRANSIT_BYTES,
    {
        lemma_bytes_grow(self.items@, self.index as int, self.items@.len() as int);
    }

    /// The next envelope and what to do with it.
    pub fn next_action(&self, now: u64) -> (res: Option<(TransitItem, TransitAction)>)
        requires
            self.well_formed(),
        ensures
            match res {
                Some((item, action)) => {
                    &&& self@.rest.len() > 0
                    &&& item == self@.rest[0]
                    &&& action == action_for(item, self@.floods, now)
                },
                None => self@.rest.len() == 0,
            },
    {
        if self.index >= self.items.len() {
            return None;
        }
        let item = self.items[self.index];
        let action = if now < item.next_ok {
            TransitAction::Wait
        } else if item.from_mesh {
            TransitAction::Deposit
        } else if self.floods >= TRANSIT_MESH_PER_TICK {
            TransitAction::Wait
        } else {
            TransitAction::Flood
        };
        Some((item, action))
    }

    /// Record what came of the next envelope's turn; whether it stays in transit.
    pub fn record(&mut self, outcome: TransitOutcome, now: u64) -> (res: bool)
        requires
            old(self).well_formed(),
            old(self)@.rest.len() > 0,
            answers(action_for(old(self)@.rest[0], old(self)@.floods, now), outcome),
            dates_retries(now),
        ensures
            final(self).well_formed(),
            res == (after_turn(old(self)@.rest[0], outcome, now) is Some),
            final(self)@ == (PassView {
                rest: old(self)@.rest.skip(1),
                kept: match after_turn(old(self)@.rest[0], outcome, now) {
                    Some(item) => old(self)@.kept.push(item),
                    None => old(self)@.kept,
                },
                floods: if outcome == TransitOutcome::Flooded {
                    old(self)@.floods + 1
                } else {
                    old(self)@.floods
                },
            }),
    {
        let ghost prior = self@;
        let item = self.items[self.index];
        assert(item == prior.rest[0]);
        let mut next = item;
        let mut stays = true;
        match outcome {
            TransitOutcome::Waited => {},
            TransitOutcome::Accepted => {
                stays = false;
            },
            TransitOutcome::Unreachable | TransitOutcome::NotFlooded => {
                next.next_ok = now + RETRY_BASE_SECS;
            },
            TransitOutcome::Refused => {
                if item.attempts >= TRANSIT_DEPOSIT_ATTEMPTS - 1 {
                    stays = false;
                } else {
                    let raw = doubled(TRANSIT_DEPOSIT_RETRY_BASE_SECS, item.attempts);
                    let delay = if raw < RETRY_CAP_SECS { raw } else { RETRY_CAP_SECS };
                    next.attempts = item.attempts + 1;
                    next.next_ok = now + delay;
                }
            },
            TransitOutcome::Flooded => {
                if item.attempts >= TRANSIT_MESH_FLOODS - 1 {
                    stays = false;
                } else {
                    next.attempts = item.attempts + 1;
                    next.next_ok = now + doubled(TRANSIT_REFLOOD_BASE_SECS, item.attempts + 1);
                }
            },
        }
        let flooded = match outcome {
            TransitOutcome::Flooded => true,
            _ => false,
        };
        if flooded {
            self.floods = self.floods + 1;
        }
        proof {
            lemma_bytes_push(self.kept@, next);
            assert(next.envelope == item.envelope);
        }
        if stays {
            self.kept.push(next);
        }
        self.index = self.index + 1;
        assert(self@.rest =~= prior.rest.skip(1));
        stays
    }
}

/// Whether an envelope from the mesh is offered to a relay over a carrier: never back over the
/// air, and only where the relay can be reached.
pub fn may_deposit(airtime: bool, reach: Reachability) -> (res: bool)
    ensures
        res == (!airtime && reach != Reachability::Unreachable),
{
    match reach {
        Reachability::Unreachable => false,
        _ => !airtime,
    }
}

/// What came of offering an envelope to the relays. `answers` says for each offer, in order,
/// whether it was taken; the first that takes it ends the offers.
pub open spec fn deposited(answers: Seq<bool>) -> TransitOutcome {
    if answers.contains(true) {
        TransitOutcome::Accepted
    } else if answers.len() > 0 {
        TransitOutcome::Refused
    } else {
        TransitOutcome::Unreachable
    }
}

fn any(answers: &Vec<bool>) -> (res: bool)
    ensures
        res == answers@.contains(true),
{
    let mut i: usize = 0;
    while i < answers.len()
        invariant
            i <= answers@.len(),
            forall|k: int| 0 <= k < i ==> !#[trigger] answers@[k],
        decreases answers@.len() - i,
    {
        if answers[i] {
            assert(answers@[i as int]);
            return true;
        }
        i = i + 1;
    }
    false
}

/// What came of offering an envelope to the relays.
pub fn deposit_outcome(answers: &Vec<bool>) -> (res: TransitOutcome)
    ensures
        res == deposited(answers@),
{
    if any(answers) {
        TransitOutcome::Accepted
    } else if answers.len() > 0 {
        TransitOutcome::Refused
    } else {
        TransitOutcome::Unreachable
    }
}

/// What came of flooding an envelope. `answers` says for each broadcast carrier whether it took
/// the envelope.
pub fn flood_outcome(answers: &Vec<bool>) -> (res: TransitOutcome)
    ensures
        res == if answers@.contains(true) {
            TransitOutcome::Flooded
        } else {
            TransitOutcome::NotFlooded
        },
{
    if any(answers) {
        TransitOutcome::Flooded
    } else {
        TransitOutcome::NotFlooded
    }
}

/// An envelope that no relay could be offered is held, not failed: it loses no attempt.
pub proof fn law_unreachable_relays_cost_nothing(item: TransitItem, now: u64)
    requires
        dates_retries(now),
    ensures
        after_turn(item, deposited(Seq::empty()), now) matches Some(after) && after.attempts
            == item.attempts,
{
}

/// Transit never returns to the side it came from: what was heard on the mesh is never
/// flooded, and what came from the internet is never deposited.
pub proof fn law_split_horizon(item: TransitItem, floods: int, now: u64)
    ensures
        item.from_mesh ==> action_for(item, floods, now) != TransitAction::Flood,
        !item.from_mesh ==> action_for(item, floods, now) != TransitAction::Deposit,
{
}

/// What an envelope costs is bounded: while it stays in transit it has been flooded less
/// than the allowed number of times, or offered in fewer than the allowed rounds.
pub proof fn law_transit_attempts_are_bounded(
    item: TransitItem,
    outcome: TransitOutcome,
    now: u64,
)
    requires
        outcome == TransitOutcome::Flooded || outcome == TransitOutcome::Refused,
    ensures
        after_turn(item, outcome, now) matches Some(next) ==> {
            &&& next.attempts == item.attempts + 1
            &&& outcome == TransitOutcome::Flooded ==> next.attempts < TRANSIT_MESH_FLOODS
            &&& outcome == TransitOutcome::Refused ==> next.attempts < TRANSIT_DEPOSIT_ATTEMPTS
        },
{
}

/// An envelope that was admitted is remembered: a second copy of it is refused.
pub proof fn law_second_copy_is_refused(
    bridge: BridgeView,
    envelope: TransitEnvelope,
    from_mesh: bool,
    now: u64,
    later: u64,
)
    requires
        admits(bridge, envelope, now),
    ensures
        !admits(admitted(bridge, envelope, from_mesh, now), envelope, later),
{
    let seen = bridge.seen.push(envelope.content_id);
    let after = admitted(bridge, envelope, from_mesh, now).seen;
    assert(after[after.len() - 1] == envelope.content_id);
}

/// Turn bridging on with these relays, or off. Changing the relays keeps what is in transit;
/// turning bridging off drops it.
pub fn set_bridge(current: Option<Bridge>, relays: Option<Vec<String>>) -> (res: Option<Bridge>)
    requires
        current matches Some(bridge) ==> bridge.well_formed(),
    ensures
        match relays {
            None => res is None,
            Some(relays) => res matches Some(bridge) && bridge.well_formed() && bridge@
                == match current {
                Some(prior) => BridgeView { relays: addresses(relays@), ..prior@ },
                None => idle(addresses(relays@)),
            },
        },
{
    match relays {
        None => None,
        Some(relays) => match current {
            Some(bridge) => {
                let mut bridge = bridge;
                bridge.relays = relays;
                Some(bridge)
            },
            None => Some(Bridge::new(relays)),
        },
    }
}

// ---- Laws of transit ----

/// The size of what is under way is the sum of the sizes of its envelopes.
pub proof fn law_transit_sizes_add_up(queue: Seq<TransitItem>, item: TransitItem)
    ensures
        total_bytes(Seq::empty()) == 0,
        total_bytes(queue.push(item)) == total_bytes(queue) + item.envelope.encoded_len,
{
    lemma_bytes_push(queue, item);
}

/// An envelope is taken over unless its time has passed, it is too large for its kind, it has
/// been seen, or there is no room for it.
pub proof fn law_what_is_taken_over(bridge: BridgeView, envelope: TransitEnvelope, now: u64)
    ensures
        envelope.retention_until is Some && envelope.retention_until->0 <= now ==> !admits(
            bridge,
            envelope,
            now,
        ),
        envelope.encoded_len > ceiling_of(envelope.kind) ==> !admits(bridge, envelope, now),
        bridge.seen.contains(envelope.content_id) ==> !admits(bridge, envelope, now),
        bridge.queue.len() >= 256 ==> !admits(bridge, envelope, now),
        total_bytes(bridge.queue) + envelope.encoded_len > 524_288 ==> !admits(
            bridge,
            envelope,
            now,
        ),
        (envelope.retention_until is None || now < envelope.retention_until->0)
            && envelope.encoded_len <= ceiling_of(envelope.kind) && !bridge.seen.contains(
            envelope.content_id,
        ) && bridge.queue.len() < 256 && total_bytes(bridge.queue) + envelope.encoded_len
            <= 524_288 ==> admits(bridge, envelope, now),
{
}

/// What is taken over waits at the end, may go at once, and is remembered; the oldest memory
/// goes first.
pub proof fn law_taken_over_envelopes_wait(
    bridge: BridgeView,
    envelope: TransitEnvelope,
    from_mesh: bool,
    now: u64,
)
    ensures
        ({
            let after = admitted(bridge, envelope, from_mesh, now);
            &&& after.relays == bridge.relays
            &&& after.queue.drop_last() == bridge.queue
            &&& after.queue.last() == (TransitItem {
                envelope,
                from_mesh,
                first_seen: now,
                attempts: 0,
                next_ok: now,
            })
            &&& after.seen.len() > 0 && after.seen.last() == envelope.content_id
            &&& bridge.seen.len() < 4_096 ==> after.seen == bridge.seen.push(envelope.content_id)
            &&& bridge.seen.len() == 4_096 ==> after.seen == bridge.seen.skip(1).push(
                envelope.content_id,
            )
        }),
{
    let after = admitted(bridge, envelope, from_mesh, now);
    assert(after.queue.drop_last() =~= bridge.queue);
    if bridge.seen.len() == 4_096 {
        assert(after.seen =~= bridge.seen.skip(1).push(envelope.content_id));
    }
}

/// What is under way is given up after three days, or when its time has passed.
pub proof fn law_transit_ends(item: TransitItem, now: u64)
    ensures
        now > item.first_seen + 259_200 ==> !is_live(item, now),
        item.envelope.retention_until is Some && item.envelope.retention_until->0 <= now
            ==> !is_live(item, now),
        now <= item.first_seen + 259_200 && (item.envelope.retention_until is None || now
            < item.envelope.retention_until->0) ==> is_live(item, now),
{
}

/// What came over the mesh is deposited, what came otherwise is flooded, each when its turn
/// has come; at most four are flooded in one pass.
pub proof fn law_turns_of_transit(item: TransitItem, floods: int, now: u64)
    ensures
        now < item.next_ok ==> action_for(item, floods, now) == TransitAction::Wait,
        now >= item.next_ok && item.from_mesh ==> action_for(item, floods, now)
            == TransitAction::Deposit,
        now >= item.next_ok && !item.from_mesh && floods < 4 ==> action_for(item, floods, now)
            == TransitAction::Flood,
        now >= item.next_ok && !item.from_mesh && floods >= 4 ==> action_for(item, floods, now)
            == TransitAction::Wait,
{
}

/// What each turn leaves: a deposit that is accepted is done, a refused one is tried again
/// until its eighth attempt, a flooded envelope is flooded three times, and what nobody
/// answered stays as it is for a while.
pub proof fn law_after_each_turn(item: TransitItem, now: u64)
    requires
        dates_retries(now),
    ensures
        after_turn(item, TransitOutcome::Waited, now) == Some(item),
        after_turn(item, TransitOutcome::Accepted, now) is None,
        item.attempts >= 7 ==> after_turn(item, TransitOutcome::Refused, now) is None,
        item.attempts < 7 ==> (after_turn(item, TransitOutcome::Refused, now) matches Some(next)
            && next.attempts == item.attempts + 1 && next.next_ok > now && next.envelope
            == item.envelope && next.from_mesh == item.from_mesh && next.first_seen
            == item.first_seen),
        item.attempts >= 2 ==> after_turn(item, TransitOutcome::Flooded, now) is None,
        item.attempts < 2 ==> (after_turn(item, TransitOutcome::Flooded, now) matches Some(next)
            && next.attempts == item.attempts + 1 && next.envelope == item.envelope
            && next.from_mesh == item.from_mesh && next.first_seen == item.first_seen),
        after_turn(item, TransitOutcome::Unreachable, now) matches Some(next) && next.attempts
            == item.attempts && next.next_ok > now && next.envelope == item.envelope,
        after_turn(item, TransitOutcome::NotFlooded, now) matches Some(next) && next.attempts
            == item.attempts && next.next_ok > now && next.envelope == item.envelope,
{
    reveal_with_fuel(doubling, 9);
}

/// The wait between attempts doubles: a refused deposit waits five seconds at first, a
/// flooded envelope ten minutes after its first time and twenty after its second.
pub proof fn law_transit_waits_double(item: TransitItem, now: u64)
    requires
        dates_retries(now),
    ensures
        deposit_delay(0) == 5,
        deposit_delay(1) == 10,
        deposit_delay(2) == 20,
        deposit_delay(3) == 40,
        deposit_delay(4) == 80,
        deposit_delay(5) == 160,
        deposit_delay(6) == 320,
        item.attempts == 0 ==> (after_turn(item, TransitOutcome::Flooded, now) matches Some(next)
            && next.next_ok == now + 600),
        item.attempts == 1 ==> (after_turn(item, TransitOutcome::Flooded, now) matches Some(next)
            && next.next_ok == now + 1_200),
{
    reveal_with_fuel(doubling, 9);
}

/// One relay that takes the envelope is enough; if all that answered refused it, it was
/// refused; if none answered, none was reached.
pub proof fn law_outcomes_of_deposits(answers: Seq<bool>, i: int)
    ensures
        0 <= i < answers.len() && answers[i] ==> deposited(answers) == TransitOutcome::Accepted,
        answers.len() > 0 && (forall|k: int| 0 <= k < answers.len() ==> !#[trigger] answers[k])
            ==> deposited(answers) == TransitOutcome::Refused,
        answers.len() == 0 ==> deposited(answers) == TransitOutcome::Unreachable,
{
    if 0 <= i < answers.len() && answers[i] {
        assert(answers.contains(true));
    }
}

} // verus!
