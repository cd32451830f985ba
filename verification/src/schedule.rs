//! The transport scheduler: retry pacing, flush order, carrier choice, and what follows an
//! attempt.

use vstd::prelude::*;

use crate::bytes::ContentId;
use crate::records::{EnvelopeKind, QueueClass, QueueDelete, QueueItem};

verus! {

/// First retry delay after a failed send, in seconds.
pub const RETRY_BASE_SECS: u64 = 30;

/// Longest retry delay after failed sends, in seconds.
pub const RETRY_CAP_SECS: u64 = 3_600;

/// First retry delay after a reached next hop refused for lack of capacity.
pub const CAPACITY_RETRY_BASE_SECS: u64 = 1;

/// Longest retry delay after refusals for lack of capacity.
pub const CAPACITY_RETRY_CAP_SECS: u64 = 30;

/// After this many attempts an unreachable delivery moves to a low-frequency lane.
pub const PASSIVE_AFTER_ATTEMPTS: u32 = 3;

/// Shortest delay in the low-frequency lane.
pub const PASSIVE_RETRY_MIN_SECS: u64 = 900;

/// Ordinary encrypted content above this size never rides an airtime-budgeted link.
pub const AIRTIME_CEILING_BYTES: usize = 4_096;

/// First flights above this size never ride an airtime-budgeted link.
pub const AIRTIME_HANDSHAKE_CEILING_BYTES: usize = 8_192;

// ---- Retry pacing ----

/// Two to the power `n`.
pub open spec fn doubling(n: int) -> int
    decreases n,
{
    if n <= 0 {
        1
    } else {
        2 * doubling(n - 1)
    }
}

/// The smaller of two numbers.
pub open spec fn min_of(a: int, b: int) -> int {
    if a < b {
        a
    } else {
        b
    }
}

/// The larger of two numbers.
pub open spec fn max_of(a: int, b: int) -> int {
    if a < b {
        b
    } else {
        a
    }
}

/// Doublings before attempt number `attempts`, at most `most`.
pub open spec fn exponent(attempts: u32, most: int) -> int {
    min_of(max_of(attempts - 1, 0), most)
}

/// Delay after a failed attempt: doubling from half a minute to an hour, and at least a
/// quarter of an hour once the delivery is passive.
pub open spec fn retry_secs(attempts: u32) -> int {
    let active = min_of(RETRY_BASE_SECS * doubling(exponent(attempts, 7)), RETRY_CAP_SECS as int);
    if attempts >= PASSIVE_AFTER_ATTEMPTS {
        max_of(active, PASSIVE_RETRY_MIN_SECS as int)
    } else {
        active
    }
}

/// Delay after a refusal for lack of capacity: doubling from a second to half a minute.
pub open spec fn capacity_secs(attempts: u32) -> int {
    min_of(
        CAPACITY_RETRY_BASE_SECS * doubling(exponent(attempts, 5)),
        CAPACITY_RETRY_CAP_SECS as int,
    )
}

proof fn lemma_doubling(n: int)
    requires
        0 <= n <= 8,
    ensures
        1 <= doubling(n) <= 256,
{
    reveal_with_fuel(doubling, 9);
}

/// `base` doubled `times` times.
pub fn doubled(base: u64, times: u32) -> (res: u64)
    requires
        base <= 1_000_000,
        times <= 8,
    ensures
        res == base * doubling(times as int),
        res <= 256 * base,
{
    let mut res: u64 = base;
    let mut i: u32 = 0;
    assert(base * doubling(0) == base);
    while i < times
        invariant
            base <= 1_000_000,
            i <= times <= 8,
            res == base * doubling(i as int),
            res <= 256 * base,
        decreases times - i,
    {
        proof {
            lemma_doubling(i as int);
            lemma_doubling(i + 1);
            assert(base * (2 * doubling(i as int)) == 2 * (base * doubling(i as int)))
                by (nonlinear_arith);
            assert(base * doubling(i + 1) <= base * 256) by (nonlinear_arith)
                requires
                    doubling(i + 1) <= 256,
            ;
        }
        res = res * 2;
        i = i + 1;
    }
    res
}

fn capped_exponent(attempts: u32, most: u32) -> (res: u32)
    ensures
        res == exponent(attempts, most as int),
{
    let before = attempts.saturating_sub(1);
    if before < most {
        before
    } else {
        most
    }
}

/// Delay after a failed attempt.
pub fn retry_delay(attempts: u32) -> (delay: u64)
    ensures
        delay == retry_secs(attempts),
        1 <= delay <= RETRY_CAP_SECS,
{
    let raw = doubled(RETRY_BASE_SECS, capped_exponent(attempts, 7));
    proof {
        lemma_doubling(exponent(attempts, 7));
    }
    let active = if raw < RETRY_CAP_SECS { raw } else { RETRY_CAP_SECS };
    if attempts >= PASSIVE_AFTER_ATTEMPTS && active < PASSIVE_RETRY_MIN_SECS {
        PASSIVE_RETRY_MIN_SECS
    } else {
        active
    }
}

/// Delay after a refusal for lack of capacity.
pub fn capacity_retry_delay(attempts: u32) -> (delay: u64)
    ensures
        delay == capacity_secs(attempts),
        1 <= delay <= CAPACITY_RETRY_CAP_SECS,
{
    let raw = doubled(CAPACITY_RETRY_BASE_SECS, capped_exponent(attempts, 5));
    proof {
        lemma_doubling(exponent(attempts, 5));
    }
    if raw < CAPACITY_RETRY_CAP_SECS {
        raw
    } else {
        CAPACITY_RETRY_CAP_SECS
    }
}

/// A queued envelope after an attempt at `now`: the attempts, and when the next may follow.
pub open spec fn rescheduled(item: QueueItem, attempts: u32, delay: int, now: u64) -> QueueItem {
    QueueItem {
        created_at: if item.created_at == 0 {
            now
        } else {
            item.created_at
        },
        attempts,
        next_attempt_at: min_of(now + delay, u64::MAX as int) as u64,
        ..item
    }
}

/// One attempt more.
pub open spec fn one_more(attempts: u32) -> u32 {
    min_of(attempts + 1, u32::MAX as int) as u32
}

/// Attempts after a carrier accepted the envelope: passive at once.
pub open spec fn after_acceptance(attempts: u32) -> u32 {
    if attempts < PASSIVE_AFTER_ATTEMPTS {
        PASSIVE_AFTER_ATTEMPTS
    } else {
        one_more(attempts)
    }
}

/// Schedule the next attempt after a failed one.
pub fn schedule_passive_retry(item: &mut QueueItem, now: u64)
    ensures
        ({
            let attempts = one_more(old(item).attempts);
            *final(item) == rescheduled(*old(item), attempts, retry_secs(attempts), now)
        }),
{
    if item.created_at == 0 {
        item.created_at = now;
    }
    item.attempts = item.attempts.saturating_add(1);
    item.next_attempt_at = now.saturating_add(retry_delay(item.attempts));
}

/// Schedule the next attempt after a refusal for lack of capacity.
pub fn schedule_capacity_retry(item: &mut QueueItem, now: u64)
    ensures
        ({
            let attempts = one_more(old(item).attempts);
            *final(item) == rescheduled(*old(item), attempts, capacity_secs(attempts), now)
        }),
{
    if item.created_at == 0 {
        item.created_at = now;
    }
    item.attempts = item.attempts.saturating_add(1);
    item.next_attempt_at = now.saturating_add(capacity_retry_delay(item.attempts));
}

/// Schedule the next attempt after a carrier accepted the envelope: until a receipt comes,
/// it is retried passively.
pub fn schedule_after_handoff(item: &mut QueueItem, now: u64)
    ensures
        ({
            let attempts = after_acceptance(old(item).attempts);
            *final(item) == rescheduled(*old(item), attempts, retry_secs(attempts), now)
        }),
{
    if item.created_at == 0 {
        item.created_at = now;
    }
    item.attempts = if item.attempts < PASSIVE_AFTER_ATTEMPTS {
        PASSIVE_AFTER_ATTEMPTS
    } else {
        item.attempts.saturating_add(1)
    };
    item.next_attempt_at = now.saturating_add(retry_delay(item.attempts));
}

/// Retry delays never shrink from one attempt to the next.
pub proof fn law_retry_delay_is_monotone(attempts: u32)
    requires
        attempts < u32::MAX,
    ensures
        retry_secs(attempts) <= retry_secs((attempts + 1) as u32),
        capacity_secs(attempts) <= capacity_secs((attempts + 1) as u32),
{
    reveal_with_fuel(doubling, 9);
}

// ---- Flush order ----

/// Foreground calls and fresh user messages lead; upkeep follows; an interactive envelope
/// that repeatedly failed is demoted behind normal upkeep; attachment bulk remains last.
pub open spec fn lane(item: QueueItem) -> int {
    match item.class {
        QueueClass::Realtime => 0,
        QueueClass::Interactive => if item.attempts < PASSIVE_AFTER_ATTEMPTS {
            1
        } else {
            3
        },
        QueueClass::Normal => 2,
        QueueClass::Bulk => 4,
    }
}

/// Text before receipts before first flights. Fragments rank with text: a retransmitted
/// piece completes a message that has mostly been paid for. Group text is text; group
/// control ranks with receipts.
pub open spec fn priority(kind: EnvelopeKind) -> int {
    match kind {
        EnvelopeKind::Message => 0,
        EnvelopeKind::Fragment => 0,
        EnvelopeKind::GroupMessage => 0,
        EnvelopeKind::Receipt => 1,
        EnvelopeKind::GroupControl => 1,
        EnvelopeKind::Handshake => 2,
    }
}

/// The lane of a queued envelope.
pub fn queue_lane(item: &QueueItem) -> (res: u8)
    ensures
        res == lane(*item),
{
    match item.class {
        QueueClass::Realtime => 0,
        QueueClass::Interactive => if item.attempts < PASSIVE_AFTER_ATTEMPTS {
            1
        } else {
            3
        },
        QueueClass::Normal => 2,
        QueueClass::Bulk => 4,
    }
}

/// The flush priority of an envelope kind.
pub fn flush_class(kind: EnvelopeKind) -> (res: u8)
    ensures
        res == priority(kind),
{
    match kind {
        EnvelopeKind::Message | EnvelopeKind::Fragment | EnvelopeKind::GroupMessage => 0,
        EnvelopeKind::Receipt | EnvelopeKind::GroupControl => 1,
        EnvelopeKind::Handshake => 2,
    }
}

/// `a` may go before `b`: by lane, then by priority, then by age.
pub open spec fn goes_before(a: QueueItem, b: QueueItem) -> bool {
    if lane(a) != lane(b) {
        lane(a) < lane(b)
    } else if priority(a.kind) != priority(b.kind) {
        priority(a.kind) < priority(b.kind)
    } else {
        a.sequence <= b.sequence
    }
}

/// A queue in flush order.
pub open spec fn in_flush_order(queue: Seq<QueueItem>) -> bool {
    forall|i: int, j: int|
        0 <= i <= j < queue.len() ==> goes_before(#[trigger] queue[i], #[trigger] queue[j])
}

fn may_precede(a: &QueueItem, b: &QueueItem) -> (res: bool)
    ensures
        res == goes_before(*a, *b),
{
    if queue_lane(a) != queue_lane(b) {
        queue_lane(a) < queue_lane(b)
    } else if flush_class(a.kind) != flush_class(b.kind) {
        flush_class(a.kind) < flush_class(b.kind)
    } else {
        a.sequence <= b.sequence
    }
}

/// The queue in flush order: exactly its envelopes, by lane, then by priority, then by age.
pub fn flush_order(queue: &Vec<QueueItem>) -> (res: Vec<QueueItem>)
    ensures
        in_flush_order(res@),
        res@.to_multiset() == queue@.to_multiset(),
{
    broadcast use vstd::seq_lib::group_to_multiset_ensures;

    let mut res: Vec<QueueItem> = Vec::new();
    let mut i: usize = 0;
    assert(queue@.take(0) =~= Seq::<QueueItem>::empty());
    while i < queue.len()
        invariant
            i <= queue@.len(),
            res@.len() == i,
            in_flush_order(res@),
            res@.to_multiset() == queue@.take(i as int).to_multiset(),
        decreases queue@.len() - i,
    {
        let item = queue[i];
        let mut at: usize = res.len();
        while at > 0 && !may_precede(&res[at - 1], &item)
            invariant
                at <= res@.len(),
                forall|k: int|
                    at <= k < res@.len() ==> !goes_before(#[trigger] res@[k], item),
            decreases at,
        {
            at = at - 1;
        }
        let ghost prior = res@;
        res.insert(at, item);
        proof {
            lemma_insert_in_order(prior, item, at as int);
            assert(queue@.take(i + 1) =~= queue@.take(i as int).push(item));
            vstd::seq_lib::to_multiset_insert(prior, at as int, item);
            assert(prior.insert(at as int, item).to_multiset() =~= prior.to_multiset().insert(
                item,
            ));
            vstd::seq_lib::to_multiset_build(queue@.take(i as int), item);
        }
        i = i + 1;
    }
    assert(queue@.take(queue@.len() as int) =~= queue@);
    res
}

proof fn lemma_insert_in_order(prior: Seq<QueueItem>, item: QueueItem, at: int)
    requires
        in_flush_order(prior),
        0 <= at <= prior.len(),
        at > 0 ==> goes_before(prior[at - 1], item),
        forall|k: int| at <= k < prior.len() ==> !goes_before(#[trigger] prior[k], item),
    ensures
        in_flush_order(prior.insert(at, item)),
{
    let res = prior.insert(at, item);
    assert forall|i: int, j: int| 0 <= i <= j < res.len() implies goes_before(
        #[trigger] res[i],
        #[trigger] res[j],
    ) by {
        if i < at && j == at {
            assert(goes_before(prior[i], prior[at - 1]));
        } else if i == at && j > at {
            assert(!goes_before(prior[j - 1], item));
        } else if i < at && j > at {
            assert(goes_before(prior[i], prior[j - 1]));
        } else if i > at {
            assert(goes_before(prior[i - 1], prior[j - 1]));
        } else if j < at {
            assert(goes_before(prior[i], prior[j]));
        }
    }
}

/// Within a lane text is flushed before receipts and receipts before first flights, and
/// within one kind of traffic what was queued first goes first.
pub proof fn law_text_flushes_first(queue: Seq<QueueItem>, i: int, j: int)
    requires
        in_flush_order(queue),
        0 <= i < j < queue.len(),
        lane(queue[i]) == lane(queue[j]),
    ensures
        priority(queue[i].kind) <= priority(queue[j].kind),
        priority(queue[i].kind) == priority(queue[j].kind) ==> queue[i].sequence
            <= queue[j].sequence,
{
    assert(goes_before(queue[i], queue[j]));
}

// ---- Carriers ----

/// What the scheduler knows of a carrier.
#[derive(Clone, Copy, Debug, PartialEq, Eq, Structural)]
pub struct CarrierProfile {
    /// Rank of its latency, faster carriers first.
    pub latency: u8,
    /// Rank of its cost, cheaper carriers first.
    pub cost: u8,
    /// It delivers within milliseconds.
    pub millis: bool,
    /// It spends scarce airtime.
    pub airtime: bool,
}

/// Whether a carrier reaches a route.
#[derive(Clone, Copy, Debug, PartialEq, Eq, Structural)]
pub enum Reachability {
    /// At once.
    Now,
    /// Through a store-and-forward hop.
    StoreAndForward,
    /// Not at all.
    Unreachable,
}

/// The largest envelope of a kind that may ride an airtime-budgeted link.
pub open spec fn ceiling_of(kind: EnvelopeKind) -> int {
    if kind == EnvelopeKind::Handshake {
        AIRTIME_HANDSHAKE_CEILING_BYTES as int
    } else {
        AIRTIME_CEILING_BYTES as int
    }
}

/// The largest envelope of a kind that may ride an airtime-budgeted link.
pub fn airtime_ceiling(kind: EnvelopeKind) -> (res: usize)
    ensures
        res == ceiling_of(kind),
{
    if kind == EnvelopeKind::Handshake {
        AIRTIME_HANDSHAKE_CEILING_BYTES
    } else {
        AIRTIME_CEILING_BYTES
    }
}

/// What the scheduler makes of a carrier for an envelope.
#[derive(Clone, Copy, Debug, PartialEq, Eq, Structural)]
pub enum CarrierUse {
    /// Too large for scarce airtime: held for a faster carrier.
    Held,
    /// Not for this envelope.
    Unfit,
    /// Worth a try.
    Fit,
}

/// Large envelopes and bulk are held off scarce airtime; calls need a fast link that is
/// not scarce airtime.
pub open spec fn carrier_use(item: QueueItem, carrier: CarrierProfile) -> CarrierUse {
    if (item.encoded_len > ceiling_of(item.kind) || item.class == QueueClass::Bulk) && carrier.airtime {
        CarrierUse::Held
    } else if item.class == QueueClass::Realtime && (carrier.airtime || !carrier.millis) {
        CarrierUse::Unfit
    } else {
        CarrierUse::Fit
    }
}

/// What the scheduler makes of a carrier for an envelope.
pub fn consider_carrier(item: &QueueItem, carrier: CarrierProfile) -> (res:
    CarrierUse)
    ensures
        res == carrier_use(*item, carrier),
{
    if (item.encoded_len > airtime_ceiling(item.kind) || item.class == QueueClass::Bulk) && carrier.airtime {
        CarrierUse::Held
    } else if item.class == QueueClass::Realtime && (carrier.airtime || !carrier.millis) {
        CarrierUse::Unfit
    } else {
        CarrierUse::Fit
    }
}

/// Rank of a route on a fit carrier: what is reachable now beats store-and-forward. Calls
/// only use direct routes that are reachable now.
pub open spec fn route_rank(item: QueueItem, direct: bool, reach: Reachability) -> Option<int> {
    if item.class == QueueClass::Realtime && !direct {
        None
    } else {
        match reach {
            Reachability::Now => Some(0),
            Reachability::StoreAndForward => if item.class == QueueClass::Realtime {
                None
            } else {
                Some(1)
            },
            Reachability::Unreachable => None,
        }
    }
}

/// Rank of a route on a fit carrier.
pub fn rank_route(item: &QueueItem, direct: bool, reach: Reachability) -> (res: Option<u8>)
    ensures
        match res {
            Some(rank) => route_rank(*item, direct, reach) == Some(rank as int),
            None => route_rank(*item, direct, reach) is None,
        },
{
    if item.class == QueueClass::Realtime && !direct {
        None
    } else {
        match reach {
            Reachability::Now => Some(0),
            Reachability::StoreAndForward => if item.class == QueueClass::Realtime {
                None
            } else {
                Some(1)
            },
            Reachability::Unreachable => None,
        }
    }
}

/// `needle` stands in `text` at `at`.
pub open spec fn stands_at(text: Seq<char>, needle: Seq<char>, at: int) -> bool {
    0 <= at && at + needle.len() <= text.len() && text.subrange(at, at + needle.len()) == needle
}

/// `needle` occurs in `text`.
pub open spec fn occurs(text: Seq<char>, needle: Seq<char>) -> bool {
    exists|at: int| #[trigger] stands_at(text, needle, at)
}

fn characters(text: &str) -> (res: Vec<char>)
    ensures
        res@ == text@,
{
    let mut res: Vec<char> = Vec::new();
    for c in rest: text.chars()
        invariant
            rest.seq() == text@,
            res@ == text@.take(rest.index()),
    {
        res.push(c);
        assert(res@ =~= text@.take(rest.index() + 1));
    }
    assert(res@ =~= text@);
    res
}

/// Whether `needle` stands in `text` at `at`.
fn text_at(text: &Vec<char>, needle: &Vec<char>, at: usize) -> (res: bool)
    requires
        at + needle@.len() <= text@.len(),
    ensures
        res == stands_at(text@, needle@, at as int),
{
    let n: usize = text.len();
    let mut k: usize = 0;
    while k < needle.len()
        invariant
            k <= needle@.len(),
            n == text@.len(),
            at + needle@.len() <= n,
            forall|j: int| 0 <= j < k ==> text@[at + j] == #[trigger] needle@[j],
        decreases needle@.len() - k,
    {
        if text[at + k] != needle[k] {
            assert(text@.subrange(at as int, at + needle@.len())[k as int] == text@[at + k]);
            return false;
        }
        k = k + 1;
    }
    assert(text@.subrange(at as int, at + needle@.len()) =~= needle@);
    true
}

/// Whether `needle` occurs in `text`.
fn contains_text(text: &Vec<char>, needle: &Vec<char>) -> (res: bool)
    ensures
        res == occurs(text@, needle@),
{
    if needle.len() > text.len() {
        return false;
    }
    let last: usize = text.len() - needle.len();
    let mut at: usize = 0;
    while at < last
        invariant
            at <= last,
            last + needle@.len() == text@.len(),
            forall|k: int| 0 <= k < at ==> !#[trigger] stands_at(text@, needle@, k),
        decreases last - at,
    {
        if text_at(text, needle, at) {
            return true;
        }
        at = at + 1;
    }
    text_at(text, needle, last)
}

/// Whether a network address is a direct QUIC route: it names QUIC and no relay circuit.
pub fn is_direct_quic(address: &str) -> (res: bool)
    ensures
        res == (occurs(address@, "/quic-v1"@) && !occurs(address@, "/p2p-circuit"@)),
{
    let text = characters(address);
    contains_text(&text, &characters("/quic-v1")) && !contains_text(
        &text,
        &characters("/p2p-circuit"),
    )
}

/// A carrier and a route that an envelope can be handed to.
#[derive(Clone, Copy, Debug, PartialEq, Eq)]
pub struct Candidate {
    /// Rank of the route.
    pub rank: u8,
    /// Rank of the carrier's latency.
    pub latency: u8,
    /// Rank of the carrier's cost.
    pub cost: u8,
    /// Position of the carrier.
    pub carrier: usize,
    /// Position of the route.
    pub route: usize,
}

/// `a` is at least as good as `b`: by reachability, then latency, then cost.
pub open spec fn at_least_as_good(a: Candidate, b: Candidate) -> bool {
    if a.rank != b.rank {
        a.rank < b.rank
    } else if a.latency != b.latency {
        a.latency < b.latency
    } else {
        a.cost <= b.cost
    }
}

/// Candidates from best to worst.
pub open spec fn ranked(candidates: Seq<Candidate>) -> bool {
    forall|i: int, j: int|
        0 <= i <= j < candidates.len() ==> at_least_as_good(
            #[trigger] candidates[i],
            #[trigger] candidates[j],
        )
}

/// A candidate put behind all that are at least as good.
pub open spec fn ranked_insert(candidates: Seq<Candidate>, c: Candidate) -> Seq<Candidate>
    decreases candidates.len(),
{
    if candidates.len() == 0 || at_least_as_good(candidates.last(), c) {
        candidates.push(c)
    } else {
        ranked_insert(candidates.drop_last(), c).push(candidates.last())
    }
}

fn good_enough(a: &Candidate, b: &Candidate) -> (res: bool)
    ensures
        res == at_least_as_good(*a, *b),
{
    if a.rank != b.rank {
        a.rank < b.rank
    } else if a.latency != b.latency {
        a.latency < b.latency
    } else {
        a.cost <= b.cost
    }
}

/// Add a candidate at its place: better ones first, equally good ones in the order in
/// which they were added.
pub fn add_candidate(candidates: &mut Vec<Candidate>, c: Candidate)
    ensures
        final(candidates)@ == ranked_insert(old(candidates)@, c),
        ranked(old(candidates)@) ==> ranked(final(candidates)@),
{
    let ghost whole = candidates@;
    let mut at: usize = candidates.len();
    proof {
        assert(whole.take(whole.len() as int) =~= whole);
        assert(ranked_insert(whole, c) =~= ranked_insert(whole, c) + whole.skip(whole.len() as int));
    }
    while at > 0 && !good_enough(&candidates[at - 1], &c)
        invariant
            at <= candidates@.len(),
            candidates@ == whole,
            ranked_insert(whole, c) == ranked_insert(whole.take(at as int), c) + whole.skip(
                at as int,
            ),
            forall|k: int| at <= k < whole.len() ==> !at_least_as_good(#[trigger] whole[k], c),
        decreases at,
    {
        proof {
            let front = whole.take(at as int);
            assert(front.drop_last() =~= whole.take(at - 1));
            assert(front.last() == whole[at - 1]);
            assert(ranked_insert(front.drop_last(), c).push(front.last()) + whole.skip(at as int)
                =~= ranked_insert(whole.take(at - 1), c) + whole.skip(at - 1));
        }
        at = at - 1;
    }
    proof {
        let front = whole.take(at as int);
        if at > 0 {
            assert(front.last() == whole[at - 1]);
        }
        assert(front.push(c) + whole.skip(at as int) =~= whole.insert(at as int, c));
        if ranked(whole) {
            let res = whole.insert(at as int, c);
            assert forall|i: int, j: int| 0 <= i <= j < res.len() implies at_least_as_good(
                #[trigger] res[i],
                #[trigger] res[j],
            ) by {
                if i < at && j == at {
                    assert(at_least_as_good(whole[i], whole[at - 1]));
                } else if i == at && j > at {
                    assert(!at_least_as_good(whole[j - 1], c));
                } else if i < at && j > at {
                    assert(at_least_as_good(whole[i], whole[j - 1]));
                } else if i > at {
                    assert(at_least_as_good(whole[i - 1], whole[j - 1]));
                } else if j < at {
                    assert(at_least_as_good(whole[i], whole[j]));
                }
            }
        }
    }
    candidates.insert(at, c);
}

// ---- One queued envelope in a flush ----

/// What a flush does with a queued envelope before it looks for carriers.
#[derive(Clone, Copy, Debug, PartialEq, Eq, Structural)]
pub enum FlushGate {
    /// No longer worth delivering: taken out.
    Drop,
    /// Not yet due.
    Wait,
    /// Due.
    Attempt,
}

/// Calls without a live deadline and envelopes past their retention are taken out; the
/// rest waits for its next attempt.
pub open spec fn gate(item: QueueItem, call_deadline: Option<u64>, now: u64) -> FlushGate {
    if item.class == QueueClass::Realtime && !(call_deadline matches Some(deadline) && now
        < deadline) {
        FlushGate::Drop
    } else if item.retention_until matches Some(deadline) && deadline <= now {
        FlushGate::Drop
    } else if now < item.next_attempt_at {
        FlushGate::Wait
    } else {
        FlushGate::Attempt
    }
}

/// What a flush does with a queued envelope before it looks for carriers.
pub fn flush_gate(item: &QueueItem, call_deadline: Option<u64>, now: u64) -> (res: FlushGate)
    ensures
        res == gate(*item, call_deadline, now),
{
    let live_call = match call_deadline {
        Some(deadline) => now < deadline,
        None => false,
    };
    let lapsed = match item.retention_until {
        Some(deadline) => deadline <= now,
        None => false,
    };
    if item.class == QueueClass::Realtime && !live_call {
        FlushGate::Drop
    } else if lapsed {
        FlushGate::Drop
    } else if now < item.next_attempt_at {
        FlushGate::Wait
    } else {
        FlushGate::Attempt
    }
}

/// What came of the attempts for one envelope.
#[derive(Clone, Copy, Debug, PartialEq, Eq, Structural)]
pub enum AttemptOutcome {
    /// A carrier accepted the envelope.
    Accepted {
        /// The next hop itself acknowledged it.
        acked_by_next_hop: bool,
    },
    /// No carrier accepted it.
    Refused {
        /// There was some candidate.
        had_candidates: bool,
        /// Some carrier was passed over to spare airtime.
        held_for_airtime: bool,
        /// A reached next hop refused for lack of capacity.
        capacity_refused: bool,
    },
}

/// What becomes of a queued envelope after the attempts.
#[derive(Clone, Copy, Debug, PartialEq, Eq)]
pub enum FlushAction {
    /// It stays with these values.
    Keep(QueueItem),
    /// It leaves the queue.
    Remove,
    /// It stays as it was, and its message is reported as held.
    ReportHeld(ContentId),
    /// It stays as it was.
    Leave,
}

/// A message's envelope stays until its receipt arrives; other envelopes are done at
/// acceptance. Envelopes held for a faster carrier are not charged an attempt, and their
/// message is reported once.
pub open spec fn conclusion(
    item: QueueItem,
    outcome: AttemptOutcome,
    reported: bool,
    now: u64,
) -> FlushAction {
    match outcome {
        AttemptOutcome::Accepted { .. } => if item.msg_id is Some || item.group_msg_id is Some {
            let attempts = after_acceptance(item.attempts);
            FlushAction::Keep(rescheduled(item, attempts, retry_secs(attempts), now))
        } else {
            FlushAction::Remove
        },
        AttemptOutcome::Refused { had_candidates, held_for_airtime, capacity_refused } => {
            let attempts = one_more(item.attempts);
            if !had_candidates && held_for_airtime {
                match item.msg_id {
                    Some(id) => if reported {
                        FlushAction::Leave
                    } else {
                        FlushAction::ReportHeld(id)
                    },
                    None => FlushAction::Leave,
                }
            } else if capacity_refused {
                FlushAction::Keep(rescheduled(item, attempts, capacity_secs(attempts), now))
            } else {
                FlushAction::Keep(rescheduled(item, attempts, retry_secs(attempts), now))
            }
        },
    }
}

/// What becomes of a queued envelope after the attempts. `reported` says whether its
/// message was already reported as held.
pub fn conclude_attempts(
    item: &QueueItem,
    outcome: AttemptOutcome,
    reported: bool,
    now: u64,
) -> (res: FlushAction)
    ensures
        res == conclusion(*item, outcome, reported, now),
{
    let mut next = *item;
    match outcome {
        AttemptOutcome::Accepted { .. } => if item.msg_id.is_some()
            || item.group_msg_id.is_some() {
            schedule_after_handoff(&mut next, now);
            FlushAction::Keep(next)
        } else {
            FlushAction::Remove
        },
        AttemptOutcome::Refused { had_candidates, held_for_airtime, capacity_refused } => {
            if !had_candidates && held_for_airtime {
                match item.msg_id {
                    Some(id) => if reported {
                        FlushAction::Leave
                    } else {
                        FlushAction::ReportHeld(id)
                    },
                    None => FlushAction::Leave,
                }
            } else if capacity_refused {
                schedule_capacity_retry(&mut next, now);
                FlushAction::Keep(next)
            } else {
                schedule_passive_retry(&mut next, now);
                FlushAction::Keep(next)
            }
        },
    }
}

/// A wake is worth asking for when the next hop itself acknowledged a message's envelope.
pub fn wants_wake(item: &QueueItem, outcome: AttemptOutcome) -> (res: bool)
    ensures
        res == (outcome matches AttemptOutcome::Accepted { acked_by_next_hop }
            && acked_by_next_hop && (item.msg_id is Some || item.group_msg_id is Some)),
{
    match outcome {
        AttemptOutcome::Accepted { acked_by_next_hop } => acked_by_next_hop && (
        item.msg_id.is_some() || item.group_msg_id.is_some()),
        _ => false,
    }
}

/// A message's envelope never leaves the queue by an attempt, whatever came of it: only a
/// receipt or the end of its time takes it out.
pub proof fn law_messages_stay_until_receipt(
    item: QueueItem,
    outcome: AttemptOutcome,
    reported: bool,
    now: u64,
)
    requires
        item.msg_id is Some || item.group_msg_id is Some,
    ensures
        conclusion(item, outcome, reported, now) != FlushAction::Remove,
        conclusion(item, outcome, reported, now) matches FlushAction::Keep(next)
            ==> next.content_id == item.content_id && next.sequence == item.sequence,
{
}

// ---- Handing one envelope to a carrier ----

/// How an envelope is handed to a carrier.
#[derive(Clone, Copy, Debug, PartialEq, Eq, Structural)]
pub enum SendPlan {
    /// In one piece.
    Whole,
    /// In pieces of at most so many bytes each.
    Fragments {
        /// Bytes of each piece.
        budget: usize,
    },
    /// Not at all on this carrier.
    MtuTooSmall,
}

/// An envelope that fits is sent whole. A larger one is cut into pieces that leave room
/// for the header, unless it is itself a piece: pieces never nest.
pub open spec fn plan_of(kind: EnvelopeKind, encoded_len: usize, mtu: usize, header: usize) -> SendPlan {
    if encoded_len <= mtu {
        SendPlan::Whole
    } else if kind == EnvelopeKind::Fragment || mtu < header {
        SendPlan::MtuTooSmall
    } else {
        SendPlan::Fragments { budget: (mtu - header) as usize }
    }
}

/// How an envelope is handed to a carrier with the given largest transmission unit.
pub fn plan_send(kind: EnvelopeKind, encoded_len: usize, mtu: usize, header: usize) -> (res:
    SendPlan)
    ensures
        res == plan_of(kind, encoded_len, mtu, header),
{
    if encoded_len <= mtu {
        SendPlan::Whole
    } else if kind == EnvelopeKind::Fragment || mtu < header {
        SendPlan::MtuTooSmall
    } else {
        SendPlan::Fragments { budget: mtu - header }
    }
}

// ---- All carriers for one envelope ----

/// The routes of a carrier among the first `m` that an envelope can be handed to, added to
/// candidates that there are already.
pub open spec fn with_routes(
    candidates: Seq<Candidate>,
    item: QueueItem,
    carrier: CarrierProfile,
    at: int,
    direct: Seq<bool>,
    reach: Seq<Reachability>,
    m: int,
) -> Seq<Candidate>
    decreases m,
{
    if m <= 0 {
        candidates
    } else {
        let prior = with_routes(candidates, item, carrier, at, direct, reach, m - 1);
        match route_rank(item, direct[m - 1], reach[m - 1]) {
            Some(rank) => ranked_insert(
                prior,
                Candidate {
                    rank: rank as u8,
                    latency: carrier.latency,
                    cost: carrier.cost,
                    carrier: at as usize,
                    route: (m - 1) as usize,
                },
            ),
            None => prior,
        }
    }
}

/// What an envelope can be handed to among the first `n` carriers, from best to worst.
pub open spec fn candidates_of(
    item: QueueItem,
    carriers: Seq<CarrierProfile>,
    direct: Seq<bool>,
    reach: Seq<Vec<Reachability>>,
    n: int,
) -> Seq<Candidate>
    decreases n,
{
    if n <= 0 {
        Seq::empty()
    } else {
        let prior = candidates_of(item, carriers, direct, reach, n - 1);
        if carrier_use(item, carriers[n - 1]) == CarrierUse::Fit {
            with_routes(
                prior,
                item,
                carriers[n - 1],
                n - 1,
                direct,
                reach[n - 1]@,
                direct.len() as int,
            )
        } else {
            prior
        }
    }
}

fn add_routes(
    candidates: &mut Vec<Candidate>,
    item: &QueueItem,
    carrier: CarrierProfile,
    at: usize,
    direct: &Vec<bool>,
    reach: &Vec<Reachability>,
)
    requires
        reach@.len() == direct@.len(),
    ensures
        final(candidates)@ == with_routes(
            old(candidates)@,
            *item,
            carrier,
            at as int,
            direct@,
            reach@,
            direct@.len() as int,
        ),
        ranked(old(candidates)@) ==> ranked(final(candidates)@),
{
    let ghost before = candidates@;
    let mut m: usize = 0;
    while m < direct.len()
        invariant
            m <= direct@.len() == reach@.len(),
            candidates@ == with_routes(
                before,
                *item,
                carrier,
                at as int,
                direct@,
                reach@,
                m as int,
            ),
            ranked(before) ==> ranked(candidates@),
        decreases direct@.len() - m,
    {
        if let Some(rank) = rank_route(item, direct[m], reach[m]) {
            add_candidate(
                candidates,
                Candidate {
                    rank,
                    latency: carrier.latency,
                    cost: carrier.cost,
                    carrier: at,
                    route: m,
                },
            );
        }
        m = m + 1;
    }
}

/// What an envelope can be handed to, from best to worst, and whether a carrier was passed
/// over to spare airtime. `direct` says which routes are direct, `reach` whether each carrier
/// reaches each route.
pub fn rank_candidates(
    item: &QueueItem,
    carriers: &Vec<CarrierProfile>,
    direct: &Vec<bool>,
    reach: &Vec<Vec<Reachability>>,
) -> (res: (Vec<Candidate>, bool))
    requires
        reach@.len() == carriers@.len(),
        forall|k: int| 0 <= k < reach@.len() ==> (#[trigger] reach@[k])@.len() == direct@.len(),
    ensures
        res.0@ == candidates_of(*item, carriers@, direct@, reach@, carriers@.len() as int),
        ranked(res.0@),
        res.1 == exists|k: int|
            0 <= k < carriers@.len() && carrier_use(*item, #[trigger] carriers@[k])
                == CarrierUse::Held,
{
    let mut candidates: Vec<Candidate> = Vec::new();
    let mut held = false;
    let mut i: usize = 0;
    while i < carriers.len()
        invariant
            i <= carriers@.len() == reach@.len(),
            forall|k: int|
                0 <= k < reach@.len() ==> (#[trigger] reach@[k])@.len() == direct@.len(),
            candidates@ == candidates_of(*item, carriers@, direct@, reach@, i as int),
            ranked(candidates@),
            held == exists|k: int|
                0 <= k < i && carrier_use(*item, #[trigger] carriers@[k]) == CarrierUse::Held,
        decreases carriers@.len() - i,
    {
        let carrier = carriers[i];
        match consider_carrier(item, carrier) {
            CarrierUse::Held => {
                assert(carrier_use(*item, carriers@[i as int]) == CarrierUse::Held);
                held = true;
            },
            CarrierUse::Unfit => {},
            CarrierUse::Fit => {
                add_routes(&mut candidates, item, carrier, i, direct, &reach[i]);
            },
        }
        i = i + 1;
    }
    (candidates, held)
}

/// Large envelopes and bulk never spend scarce airtime, whatever the carriers reach.
pub proof fn law_airtime_is_spared(
    item: QueueItem,
    carriers: Seq<CarrierProfile>,
    direct: Seq<bool>,
    reach: Seq<Vec<Reachability>>,
    n: int,
    k: int,
)
    requires
        0 <= n <= carriers.len() <= usize::MAX,
        item.encoded_len > ceiling_of(item.kind) || item.class == QueueClass::Bulk,
        0 <= k < candidates_of(item, carriers, direct, reach, n).len(),
    ensures
        ({
            let c = candidates_of(item, carriers, direct, reach, n)[k];
            c.carrier < n && !carriers[c.carrier as int].airtime
        }),
    decreases n,
{
    if n > 0 {
        let prior = candidates_of(item, carriers, direct, reach, n - 1);
        let ok = |c: Candidate| c.carrier < n && !carriers[c.carrier as int].airtime;
        assert forall|j: int| 0 <= j < prior.len() implies #[trigger] ok(prior[j]) by {
            law_airtime_is_spared(item, carriers, direct, reach, n - 1, j);
        }
        if carrier_use(item, carriers[n - 1]) == CarrierUse::Fit {
            lemma_routes_keep(
                prior,
                item,
                carriers[n - 1],
                n - 1,
                direct,
                reach[n - 1]@,
                direct.len() as int,
                ok,
            );
        }
        assert(ok(candidates_of(item, carriers, direct, reach, n)[k]));
    }
}

proof fn lemma_inserted(candidates: Seq<Candidate>, c: Candidate, ok: spec_fn(Candidate) -> bool)
    requires
        forall|j: int| 0 <= j < candidates.len() ==> #[trigger] ok(candidates[j]),
        ok(c),
    ensures
        forall|j: int|
            0 <= j < ranked_insert(candidates, c).len() ==> #[trigger] ok(
                ranked_insert(candidates, c)[j],
            ),
    decreases candidates.len(),
{
    if candidates.len() > 0 && !at_least_as_good(candidates.last(), c) {
        let front = candidates.drop_last();
        assert forall|j: int| 0 <= j < front.len() implies #[trigger] ok(front[j]) by {
            assert(ok(candidates[j]));
        }
        lemma_inserted(front, c, ok);
        let res = ranked_insert(candidates, c);
        let inner = ranked_insert(front, c);
        assert(ok(candidates[candidates.len() - 1]));
        assert forall|j: int| 0 <= j < res.len() implies #[trigger] ok(res[j]) by {
            if j < inner.len() {
                assert(ok(inner[j]));
            }
        }
    } else {
        let res = ranked_insert(candidates, c);
        assert forall|j: int| 0 <= j < res.len() implies #[trigger] ok(res[j]) by {
            if j < candidates.len() {
                assert(ok(candidates[j]));
            }
        }
    }
}

proof fn lemma_routes_keep(
    candidates: Seq<Candidate>,
    item: QueueItem,
    carrier: CarrierProfile,
    at: int,
    direct: Seq<bool>,
    reach: Seq<Reachability>,
    m: int,
    ok: spec_fn(Candidate) -> bool,
)
    requires
        forall|j: int| 0 <= j < candidates.len() ==> #[trigger] ok(candidates[j]),
        forall|c: Candidate| c.carrier == at as usize ==> #[trigger] ok(c),
    ensures
        forall|j: int|
            0 <= j < with_routes(candidates, item, carrier, at, direct, reach, m).len()
                ==> #[trigger] ok(
                with_routes(candidates, item, carrier, at, direct, reach, m)[j],
            ),
    decreases m,
{
    if m > 0 {
        lemma_routes_keep(candidates, item, carrier, at, direct, reach, m - 1, ok);
        let prior = with_routes(candidates, item, carrier, at, direct, reach, m - 1);
        if let Some(rank) = route_rank(item, direct[m - 1], reach[m - 1]) {
            lemma_inserted(
                prior,
                Candidate {
                    rank: rank as u8,
                    latency: carrier.latency,
                    cost: carrier.cost,
                    carrier: at as usize,
                    route: (m - 1) as usize,
                },
                ok,
            );
        }
    }
}

// ---- Recording what came of it ----

/// What is recorded for a queued envelope.
#[derive(Clone, Copy, Debug, PartialEq, Eq)]
pub struct QueueCommit {
    /// It leaves the queue.
    pub delete: Option<QueueDelete>,
    /// Its new values.
    pub update: Option<QueueItem>,
    /// What is shown changes.
    pub presentation_changed: bool,
}

/// Record what becomes of a queued envelope: it gets new values or leaves the queue, never
/// both. `events` is the number of events that come with it.
pub fn commit_queue_maintenance(before: &QueueItem, after: Option<QueueItem>, events: usize) -> (res:
    QueueCommit)
    ensures
        res.update == after,
        res.delete == if after is None {
            Some(QueueDelete { sequence: before.sequence, content_id: before.content_id })
        } else {
            None
        },
        res.presentation_changed == (events > 0),
{
    let delete = match after {
        None => Some(QueueDelete { sequence: before.sequence, content_id: before.content_id }),
        Some(_) => None,
    };
    QueueCommit { delete, update: after, presentation_changed: events > 0 }
}

// ---- Laws of the flush ----

/// The envelope is the same but for its attempts, when it is tried next and, where that was not
/// known, when it was queued.
pub open spec fn same_envelope(a: QueueItem, b: QueueItem) -> bool {
    &&& a.sequence == b.sequence
    &&& a.peer == b.peer
    &&& a.msg_id == b.msg_id
    &&& a.group_msg_id == b.group_msg_id
    &&& a.class == b.class
    &&& a.kind == b.kind
    &&& a.content_id == b.content_id
    &&& a.encoded_len == b.encoded_len
    &&& a.retention_until == b.retention_until
}

/// No envelope leaves the queue because no carrier accepted it. Unless it was held to spare
/// airtime it stays with one attempt more and is tried again later: after a refusal for lack of
/// capacity within half a minute, else after at least half a minute and within an hour.
pub proof fn law_refused_envelopes_are_tried_again(
    item: QueueItem,
    had_candidates: bool,
    held_for_airtime: bool,
    capacity_refused: bool,
    reported: bool,
    now: u64,
)
    requires
        now <= u64::MAX - 3_600,
    ensures
        ({
            let outcome = AttemptOutcome::Refused {
                had_candidates,
                held_for_airtime,
                capacity_refused,
            };
            let action = conclusion(item, outcome, reported, now);
            &&& action != FlushAction::Remove
            &&& had_candidates || !held_for_airtime ==> {
                &&& action is Keep
                &&& same_envelope(action->Keep_0, item)
                &&& action->Keep_0.attempts == if item.attempts == u32::MAX {
                    u32::MAX as int
                } else {
                    item.attempts + 1
                }
                &&& action->Keep_0.created_at == if item.created_at == 0 {
                    now
                } else {
                    item.created_at
                }
                &&& capacity_refused ==> now < action->Keep_0.next_attempt_at <= now + 30
                &&& !capacity_refused ==> now + 30 <= action->Keep_0.next_attempt_at <= now + 3_600
            }
        }),
{
    reveal_with_fuel(doubling, 9);
}

/// An envelope that is held to spare airtime stays as it is and is charged nothing. Its message
/// is reported, once.
pub proof fn law_held_envelopes_are_reported_once(
    item: QueueItem,
    capacity_refused: bool,
    now: u64,
)
    ensures
        ({
            let outcome = AttemptOutcome::Refused {
                had_candidates: false,
                held_for_airtime: true,
                capacity_refused,
            };
            &&& conclusion(item, outcome, true, now) == FlushAction::Leave
            &&& item.msg_id matches Some(id) ==> conclusion(item, outcome, false, now)
                == FlushAction::ReportHeld(id)
            &&& item.msg_id is None ==> conclusion(item, outcome, false, now) == FlushAction::Leave
        }),
{
}

/// Once a carrier accepted it, an envelope without a message is done. That of a message stays,
/// and is tried again after a quarter of an hour at the earliest and an hour at the latest.
pub proof fn law_accepted_messages_wait_for_their_receipt(
    item: QueueItem,
    acked_by_next_hop: bool,
    reported: bool,
    now: u64,
)
    requires
        now <= u64::MAX - 3_600,
    ensures
        ({
            let outcome = AttemptOutcome::Accepted { acked_by_next_hop };
            let action = conclusion(item, outcome, reported, now);
            &&& item.msg_id is None && item.group_msg_id is None ==> action == FlushAction::Remove
            &&& item.msg_id is Some || item.group_msg_id is Some ==> {
                &&& action is Keep
                &&& same_envelope(action->Keep_0, item)
                &&& action->Keep_0.attempts >= 3
                &&& action->Keep_0.attempts >= item.attempts
                &&& now + 900 <= action->Keep_0.next_attempt_at <= now + 3_600
            }
        }),
{
    reveal_with_fuel(doubling, 9);
}

/// The delays between attempts, in seconds: half a minute, a minute, then a quarter of an hour
/// and from there on doubling to an hour.
pub proof fn law_retry_delays(attempts: u32)
    ensures
        attempts <= 1 ==> retry_secs(attempts) == 30,
        attempts == 2 ==> retry_secs(attempts) == 60,
        3 <= attempts <= 5 ==> retry_secs(attempts) == 900,
        attempts == 6 ==> retry_secs(attempts) == 960,
        attempts == 7 ==> retry_secs(attempts) == 1_920,
        attempts >= 8 ==> retry_secs(attempts) == 3_600,
        attempts <= 1 ==> capacity_secs(attempts) == 1,
        attempts == 2 ==> capacity_secs(attempts) == 2,
        attempts == 3 ==> capacity_secs(attempts) == 4,
        attempts == 4 ==> capacity_secs(attempts) == 8,
        attempts == 5 ==> capacity_secs(attempts) == 16,
        attempts >= 6 ==> capacity_secs(attempts) == 30,
{
    reveal_with_fuel(doubling, 9);
}

/// In flush order calls lead. Then come messages that have not failed often, then upkeep, then
/// messages that have, and attachment data comes last.
pub proof fn law_lanes(a: QueueItem, b: QueueItem)
    ensures
        a.class == QueueClass::Realtime && b.class != QueueClass::Realtime ==> goes_before(a, b)
            && !goes_before(b, a),
        a.class != QueueClass::Bulk && b.class == QueueClass::Bulk ==> goes_before(a, b)
            && !goes_before(b, a),
        a.class == QueueClass::Interactive && a.attempts < 3 && b.class == QueueClass::Normal
            ==> goes_before(a, b) && !goes_before(b, a),
        a.class == QueueClass::Normal && b.class == QueueClass::Interactive && b.attempts >= 3
            ==> goes_before(a, b) && !goes_before(b, a),
        a.class == QueueClass::Interactive && a.attempts < 3 && b.class == QueueClass::Interactive
            && b.attempts >= 3 ==> goes_before(a, b) && !goes_before(b, a),
{
}

/// Text, whole or in pieces, pairwise or in a group.
pub open spec fn is_text(kind: EnvelopeKind) -> bool {
    kind == EnvelopeKind::Message || kind == EnvelopeKind::Fragment || kind
        == EnvelopeKind::GroupMessage
}

/// Of two envelopes of one class that were tried equally often, text goes before everything
/// else, receipts and group controls before first flights, and otherwise what was queued first.
pub proof fn law_kinds_within_a_lane(a: QueueItem, b: QueueItem)
    requires
        a.class == b.class,
        a.attempts == b.attempts,
    ensures
        is_text(a.kind) && !is_text(b.kind) ==> goes_before(a, b) && !goes_before(b, a),
        !is_text(a.kind) && a.kind != EnvelopeKind::Handshake && b.kind == EnvelopeKind::Handshake
            ==> goes_before(a, b) && !goes_before(b, a),
        a.kind == b.kind && a.sequence < b.sequence ==> goes_before(a, b) && !goes_before(b, a),
        is_text(a.kind) && is_text(b.kind) && a.sequence < b.sequence ==> goes_before(a, b)
            && !goes_before(b, a),
{
}

/// A due envelope is tried. One whose retention has passed, and a call without a deadline that
/// lies ahead, is dropped whether or not it is due; everything else waits for its time.
pub proof fn law_due_envelopes_are_tried(item: QueueItem, call_deadline: Option<u64>, now: u64)
    ensures
        item.retention_until matches Some(until) && until <= now ==> gate(item, call_deadline, now)
            == FlushGate::Drop,
        item.class == QueueClass::Realtime && call_deadline is None ==> gate(
            item,
            call_deadline,
            now,
        ) == FlushGate::Drop,
        item.class == QueueClass::Realtime && (call_deadline matches Some(until) && until <= now)
            ==> gate(item, call_deadline, now) == FlushGate::Drop,
        item.class != QueueClass::Realtime && (item.retention_until matches Some(until) ==> now
            < until) ==> gate(item, call_deadline, now) == if now < item.next_attempt_at {
            FlushGate::Wait
        } else {
            FlushGate::Attempt
        },
        item.class == QueueClass::Realtime && (call_deadline matches Some(until) && now < until)
            && item.retention_until is None ==> gate(item, call_deadline, now) == if now
            < item.next_attempt_at {
            FlushGate::Wait
        } else {
            FlushGate::Attempt
        },
{
}

/// Over scarce airtime go only envelopes of up to four kibibytes, first flights of up to eight,
/// and neither attachment data nor calls. Calls need a carrier that delivers within
/// milliseconds. Every other carrier is worth a try for everything.
pub proof fn law_carriers_that_are_tried(item: QueueItem, carrier: CarrierProfile)
    ensures
        carrier.airtime && item.class == QueueClass::Bulk ==> carrier_use(item, carrier)
            == CarrierUse::Held,
        carrier.airtime && item.kind != EnvelopeKind::Handshake && item.encoded_len > 4_096
            ==> carrier_use(item, carrier) == CarrierUse::Held,
        carrier.airtime && item.encoded_len > 8_192 ==> carrier_use(item, carrier)
            == CarrierUse::Held,
        carrier.airtime && item.class == QueueClass::Realtime ==> carrier_use(item, carrier)
            != CarrierUse::Fit,
        !carrier.millis && item.class == QueueClass::Realtime ==> carrier_use(item, carrier)
            != CarrierUse::Fit,
        !carrier.airtime && item.class != QueueClass::Realtime ==> carrier_use(item, carrier)
            == CarrierUse::Fit,
        !carrier.airtime && carrier.millis ==> carrier_use(item, carrier) == CarrierUse::Fit,
        carrier.airtime && item.class != QueueClass::Realtime && item.class != QueueClass::Bulk
            && item.encoded_len <= 4_096 ==> carrier_use(item, carrier) == CarrierUse::Fit,
        carrier.airtime && item.class != QueueClass::Realtime && item.class != QueueClass::Bulk
            && item.kind == EnvelopeKind::Handshake && item.encoded_len <= 8_192 ==> carrier_use(
            item,
            carrier,
        ) == CarrierUse::Fit,
{
}

/// A route that is reached at once is better than one that is reached through another hop, and
/// one that is not reached is not used. Calls go over direct routes that are reached at once,
/// and over no others.
pub proof fn law_routes_that_are_used(item: QueueItem, direct: bool)
    ensures
        route_rank(item, direct, Reachability::Unreachable) is None,
        item.class != QueueClass::Realtime ==> route_rank(item, direct, Reachability::Now) is Some
            && route_rank(item, direct, Reachability::StoreAndForward) is Some && route_rank(
            item,
            direct,
            Reachability::Now,
        )->0 < route_rank(item, direct, Reachability::StoreAndForward)->0,
        item.class == QueueClass::Realtime ==> route_rank(
            item,
            direct,
            Reachability::StoreAndForward,
        ) is None,
        item.class == QueueClass::Realtime ==> (route_rank(item, direct, Reachability::Now)
            is Some <==> direct),
{
}

/// Of two candidates the one that is reached at once comes first, then the one over the faster
/// carrier, then the one over the cheaper one.
pub proof fn law_better_candidates_come_first(candidates: Seq<Candidate>, i: int, j: int)
    requires
        ranked(candidates),
        0 <= i < j < candidates.len(),
    ensures
        candidates[i].rank <= candidates[j].rank,
        candidates[i].rank == candidates[j].rank ==> candidates[i].latency
            <= candidates[j].latency,
        candidates[i].rank == candidates[j].rank && candidates[i].latency == candidates[j].latency
            ==> candidates[i].cost <= candidates[j].cost,
{
    assert(at_least_as_good(candidates[i], candidates[j]));
}

/// A candidate over that carrier and route.
pub open spec fn offered(candidates: Seq<Candidate>, carrier: int, route: int) -> bool {
    exists|k: int|
        0 <= k < candidates.len() && (#[trigger] candidates[k]).carrier == carrier
            && candidates[k].route == route
}

proof fn lemma_insert_offers(candidates: Seq<Candidate>, c: Candidate, carrier: int, route: int)
    ensures
        offered(ranked_insert(candidates, c), carrier, route) <==> offered(
            candidates,
            carrier,
            route,
        ) || (c.carrier == carrier && c.route == route),
    decreases candidates.len(),
{
    let res = ranked_insert(candidates, c);
    if candidates.len() == 0 || at_least_as_good(candidates.last(), c) {
        assert(res[candidates.len() as int] == c);
        if offered(candidates, carrier, route) {
            let k = choose|k: int|
                0 <= k < candidates.len() && (#[trigger] candidates[k]).carrier == carrier
                    && candidates[k].route == route;
            assert(res[k] == candidates[k]);
        }
        if offered(res, carrier, route) {
            let k = choose|k: int|
                0 <= k < res.len() && (#[trigger] res[k]).carrier == carrier && res[k].route
                    == route;
            if k < candidates.len() {
                assert(candidates[k] == res[k]);
            }
        }
    } else {
        let front = candidates.drop_last();
        let inner = ranked_insert(front, c);
        lemma_insert_offers(front, c, carrier, route);
        assert(res[inner.len() as int] == candidates.last());
        if offered(candidates, carrier, route) {
            let k = choose|k: int|
                0 <= k < candidates.len() && (#[trigger] candidates[k]).carrier == carrier
                    && candidates[k].route == route;
            if k < front.len() {
                assert(front[k] == candidates[k]);
            }
        }
        if offered(front, carrier, route) {
            let k = choose|k: int|
                0 <= k < front.len() && (#[trigger] front[k]).carrier == carrier && front[k].route
                    == route;
            assert(candidates[k] == front[k]);
        }
        if offered(inner, carrier, route) {
            let k = choose|k: int|
                0 <= k < inner.len() && (#[trigger] inner[k]).carrier == carrier && inner[k].route
                    == route;
            assert(res[k] == inner[k]);
        }
        if offered(res, carrier, route) {
            let k = choose|k: int|
                0 <= k < res.len() && (#[trigger] res[k]).carrier == carrier && res[k].route
                    == route;
            if k < inner.len() {
                assert(inner[k] == res[k]);
            } else {
                assert(candidates[candidates.len() - 1] == res[k]);
            }
        }
    }
}

proof fn lemma_routes_offered(
    candidates: Seq<Candidate>,
    item: QueueItem,
    carrier: CarrierProfile,
    at: int,
    direct: Seq<bool>,
    reach: Seq<Reachability>,
    m: int,
    c: int,
    r: int,
)
    requires
        0 <= m <= direct.len() <= usize::MAX,
        0 <= at <= usize::MAX,
        0 <= r,
    ensures
        offered(with_routes(candidates, item, carrier, at, direct, reach, m), c, r) <==> offered(
            candidates,
            c,
            r,
        ) || (c == at && r < m && route_rank(item, direct[r], reach[r]) is Some),
    decreases m,
{
    if m > 0 {
        lemma_routes_offered(candidates, item, carrier, at, direct, reach, m - 1, c, r);
        let prior = with_routes(candidates, item, carrier, at, direct, reach, m - 1);
        if let Some(rank) = route_rank(item, direct[m - 1], reach[m - 1]) {
            lemma_insert_offers(
                prior,
                Candidate {
                    rank: rank as u8,
                    latency: carrier.latency,
                    cost: carrier.cost,
                    carrier: at as usize,
                    route: (m - 1) as usize,
                },
                c,
                r,
            );
        }
    }
}

/// Whatever is not a call is offered over every route that some carrier reaches, at once or
/// through another hop, unless that carrier spends scarce airtime on it that it must not.
pub proof fn law_every_reached_route_is_offered(
    item: QueueItem,
    carriers: Seq<CarrierProfile>,
    direct: Seq<bool>,
    reach: Seq<Vec<Reachability>>,
    n: int,
    c: int,
    r: int,
)
    requires
        0 <= n <= carriers.len() <= usize::MAX,
        direct.len() <= usize::MAX,
        item.class != QueueClass::Realtime,
        0 <= c < n,
        0 <= r < direct.len(),
        !carriers[c].airtime || (item.encoded_len <= 4_096 && item.class != QueueClass::Bulk),
    ensures
        offered(candidates_of(item, carriers, direct, reach, n), c, r) <==> reach[c]@[r]
            != Reachability::Unreachable,
    decreases n,
{
    let prior = candidates_of(item, carriers, direct, reach, n - 1);
    if carrier_use(item, carriers[n - 1]) == CarrierUse::Fit {
        lemma_routes_offered(
            prior,
            item,
            carriers[n - 1],
            n - 1,
            direct,
            reach[n - 1]@,
            direct.len() as int,
            c,
            r,
        );
    }
    if c < n - 1 {
        law_every_reached_route_is_offered(item, carriers, direct, reach, n - 1, c, r);
    } else {
        lemma_not_offered_yet(item, carriers, direct, reach, n - 1, c, r);
    }
}

proof fn lemma_not_offered_yet(
    item: QueueItem,
    carriers: Seq<CarrierProfile>,
    direct: Seq<bool>,
    reach: Seq<Vec<Reachability>>,
    n: int,
    c: int,
    r: int,
)
    requires
        0 <= n <= c,
        n <= carriers.len() <= usize::MAX,
        direct.len() <= usize::MAX,
        0 <= r,
    ensures
        !offered(candidates_of(item, carriers, direct, reach, n), c, r),
    decreases n,
{
    if n > 0 {
        lemma_not_offered_yet(item, carriers, direct, reach, n - 1, c, r);
        if carrier_use(item, carriers[n - 1]) == CarrierUse::Fit {
            lemma_routes_offered(
                candidates_of(item, carriers, direct, reach, n - 1),
                item,
                carriers[n - 1],
                n - 1,
                direct,
                reach[n - 1]@,
                direct.len() as int,
                c,
                r,
            );
        }
    }
}

/// An envelope that fits its carrier goes whole. A larger one goes in pieces that fit with
/// their header, unless it is a piece itself or there is no room for a header.
pub proof fn law_pieces_fit_their_carrier(
    kind: EnvelopeKind,
    encoded_len: usize,
    mtu: usize,
    header: usize,
)
    ensures
        plan_of(kind, encoded_len, mtu, header) == SendPlan::Whole <==> encoded_len <= mtu,
        plan_of(kind, encoded_len, mtu, header) matches SendPlan::Fragments { budget } ==> budget
            + header == mtu && kind != EnvelopeKind::Fragment,
        encoded_len > mtu && kind != EnvelopeKind::Fragment && header <= mtu ==> plan_of(
            kind,
            encoded_len,
            mtu,
            header,
        ) is Fragments,
{
}

/// A word occurs in a text exactly when the text can be split around it.
pub proof fn law_words_in_a_text(a: Seq<char>, needle: Seq<char>, b: Seq<char>, text: Seq<char>)
    ensures
        occurs(a + needle + b, needle),
        occurs(text, needle) ==> exists|at: int|
            0 <= at <= text.len() - needle.len() && #[trigger] text.subrange(
                at,
                at + needle.len() as int,
            ) == needle,
{
    let whole = a + needle + b;
    let at = a.len() as int;
    assert(whole.subrange(at, at + needle.len() as int) =~= needle);
    assert(stands_at(whole, needle, at));
    if occurs(text, needle) {
        let at = choose|at: int| #[trigger] stands_at(text, needle, at);
        assert(text.subrange(at, at + needle.len() as int) == needle);
    }
}

} // verus!
