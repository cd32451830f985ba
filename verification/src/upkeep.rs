//! Bounded upkeep: ephemeral content and unanswered requests.

use vstd::prelude::*;

use crate::bytes::{same, same_option, ContentId, Id};
use crate::records::{
    Direction, EphemeralConversation, EphemeralState, Event, QueueDelete, QueueItem,
};
use crate::seqs::at_most;
use crate::settlement::{deletion, holds};

verus! {

/// Ephemeral contents retired in one pass.
pub const MAX_EPHEMERAL_EXPIRIES_PER_TICK: usize = 4;

/// Requests and tombstones retired in one pass.
pub const MAX_ADMISSION_EXPIRIES_PER_TICK: usize = 16;

// ---- Unanswered requests ----

/// A request of someone unknown, as far as its expiry depends on it.
#[derive(Clone, Copy, Debug, PartialEq, Eq)]
pub struct RequestRow {
    /// The request.
    pub request_id: ContentId,
    /// Account that asks.
    pub account: Id,
    /// When it arrived.
    pub arrived_at: u64,
    /// When it expires.
    pub expires_at: u64,
}

/// A reminder not to ask again, as far as its expiry depends on it.
#[derive(Clone, Copy, Debug, PartialEq, Eq)]
pub struct TombstoneRow {
    /// Account that asked.
    pub account: Id,
    /// When it expires.
    pub expires_at: u64,
}

/// Expired requests and tombstones to retire.
pub struct AdmissionSweep {
    /// Requests.
    pub requests: Vec<RequestRow>,
    /// Tombstones.
    pub tombstones: Vec<TombstoneRow>,
    /// What is told.
    pub events: Vec<Event>,
}

/// The requests that expired, up to the bound.
pub open spec fn expired_requests(requests: Seq<RequestRow>, now: u64) -> Seq<RequestRow> {
    at_most(
        requests.filter(|r: RequestRow| r.expires_at <= now),
        MAX_ADMISSION_EXPIRIES_PER_TICK as nat,
    )
}

/// The tombstones that expired, up to what the requests leave of the bound.
pub open spec fn expired_tombstones(
    tombstones: Seq<TombstoneRow>,
    requests: nat,
    now: u64,
) -> Seq<TombstoneRow> {
    at_most(
        tombstones.filter(|t: TombstoneRow| t.expires_at <= now),
        (MAX_ADMISSION_EXPIRIES_PER_TICK - requests) as nat,
    )
}

/// What is told about expired requests, as far as notifications are left.
pub open spec fn expired_request_events(requests: Seq<RequestRow>, notifications: nat) -> Seq<
    Event,
> {
    at_most(requests, notifications).map_values(
        |r: RequestRow| Event::MessageRequestExpired { request: r.request_id },
    )
}

proof fn lemma_at_most_push<A>(s: Seq<A>, limit: nat, x: A)
    ensures
        at_most(s.push(x), limit) == if s.len() < limit {
            at_most(s, limit).push(x)
        } else {
            at_most(s, limit)
        },
{
    assert(at_most(s.push(x), limit) =~= if s.len() < limit {
        at_most(s, limit).push(x)
    } else {
        at_most(s, limit)
    });
}

/// Retire expired requests and tombstones, a bounded number at a time. Every retired
/// request is told while notifications are left.
pub fn sweep_admission(
    requests: &Vec<RequestRow>,
    tombstones: &Vec<TombstoneRow>,
    notifications: &mut usize,
    now: u64,
) -> (res: AdmissionSweep)
    ensures
        res.requests@ == expired_requests(requests@, now),
        res.requests@.len() <= MAX_ADMISSION_EXPIRIES_PER_TICK,
        res.tombstones@ == expired_tombstones(tombstones@, res.requests@.len(), now),
        res.events@ == expired_request_events(res.requests@, *old(notifications) as nat),
        *final(notifications) == *old(notifications) - res.events@.len(),
{
    let ghost late = |r: RequestRow| r.expires_at <= now;
    let ghost bound = MAX_ADMISSION_EXPIRIES_PER_TICK as nat;
    let mut gone: Vec<RequestRow> = Vec::new();
    let mut i: usize = 0;
    proof {
        crate::seqs::lemma_filter_none(requests@, late);
    }
    while i < requests.len()
        invariant
            i <= requests@.len(),
            bound == MAX_ADMISSION_EXPIRIES_PER_TICK,
            late == (|r: RequestRow| r.expires_at <= now),
            gone@ == at_most(requests@.take(i as int).filter(late), bound),
        decreases requests@.len() - i,
    {
        proof {
            crate::seqs::lemma_filter_step(requests@, late, i as int);
            lemma_at_most_push(
                requests@.take(i as int).filter(late),
                bound,
                requests@[i as int],
            );
        }
        if requests[i].expires_at <= now && gone.len() < MAX_ADMISSION_EXPIRIES_PER_TICK {
            gone.push(requests[i]);
        }
        i = i + 1;
    }
    proof {
        crate::seqs::lemma_take_all(requests@);
    }
    let left: usize = MAX_ADMISSION_EXPIRIES_PER_TICK - gone.len();
    let ghost old_stone = |t: TombstoneRow| t.expires_at <= now;
    let mut stones: Vec<TombstoneRow> = Vec::new();
    let mut i: usize = 0;
    proof {
        crate::seqs::lemma_filter_none(tombstones@, old_stone);
    }
    while i < tombstones.len()
        invariant
            i <= tombstones@.len(),
            old_stone == (|t: TombstoneRow| t.expires_at <= now),
            stones@ == at_most(tombstones@.take(i as int).filter(old_stone), left as nat),
        decreases tombstones@.len() - i,
    {
        proof {
            crate::seqs::lemma_filter_step(tombstones@, old_stone, i as int);
            lemma_at_most_push(
                tombstones@.take(i as int).filter(old_stone),
                left as nat,
                tombstones@[i as int],
            );
        }
        if tombstones[i].expires_at <= now && stones.len() < left {
            stones.push(tombstones[i]);
        }
        i = i + 1;
    }
    proof {
        crate::seqs::lemma_take_all(tombstones@);
    }
    let ghost granted = *notifications as nat;
    let mut events: Vec<Event> = Vec::new();
    let mut i: usize = 0;
    while i < gone.len() && *notifications > 0
        invariant
            i <= gone@.len(),
            i <= granted,
            *notifications == granted - i,
            events@.len() == i,
            forall|k: int|
                0 <= k < i ==> #[trigger] events@[k] == (Event::MessageRequestExpired {
                    request: gone@[k].request_id,
                }),
        decreases gone@.len() - i,
    {
        *notifications = *notifications - 1;
        events.push(Event::MessageRequestExpired { request: gone[i].request_id });
        i = i + 1;
    }
    assert(events@ =~= expired_request_events(gone@, granted));
    AdmissionSweep { requests: gone, tombstones: stones, events }
}

// ---- Ephemeral content ----

/// Ephemeral content.
pub struct EphemeralRow {
    /// Where it is.
    pub conversation: EphemeralConversation,
    /// Who wrote it.
    pub author: Id,
    /// What it is.
    pub content_id: ContentId,
    /// When it disappears.
    pub expires_at: u64,
    /// Whether it is still there.
    pub state: EphemeralState,
    /// Transfers that belong to it.
    pub transfer_ids: Vec<ContentId>,
}

/// A stored message to delete.
#[derive(Clone, Copy, Debug, PartialEq, Eq)]
pub enum MessageTarget {
    /// The message `id` with `peer` that went `direction`.
    Pairwise {
        /// The account.
        peer: Id,
        /// The message.
        id: ContentId,
        /// Which way it went.
        direction: Direction,
    },
    /// The message `id` of `sender` in `group`.
    Group {
        /// The group.
        group: Id,
        /// The message.
        id: ContentId,
        /// Who wrote it.
        sender: Id,
    },
}

/// Still there although its time has passed.
pub open spec fn is_lapsed(row: EphemeralRow, now: u64) -> bool {
    row.state == EphemeralState::Active && now >= row.expires_at
}

/// The stored message that holds ephemeral content.
pub open spec fn target_of(row: EphemeralRow, me: Id) -> MessageTarget {
    match row.conversation {
        EphemeralConversation::Pairwise(peer) => MessageTarget::Pairwise {
            peer,
            id: row.content_id,
            direction: if row.author == me {
                Direction::Outbound
            } else {
                Direction::Inbound
            },
        },
        EphemeralConversation::Group(group) => MessageTarget::Group {
            group,
            id: row.content_id,
            sender: row.author,
        },
    }
}

/// A queued envelope that carries ephemeral content of this account.
pub open spec fn carries_row(row: EphemeralRow, me: Id, item: QueueItem) -> bool {
    &&& row.author == me
    &&& match row.conversation {
        EphemeralConversation::Pairwise(_) => item.msg_id == Some(row.content_id),
        EphemeralConversation::Group(_) => item.group_msg_id == Some(row.content_id),
    }
}

/// What is told about ephemeral content that is gone.
pub open spec fn removal_event(row: EphemeralRow) -> Event {
    Event::EphemeralRemoved {
        conversation: row.conversation,
        author: row.author,
        content_id: row.content_id,
        reason: EphemeralState::Expired,
    }
}

/// Positions of the lapsed rows among the first `n`, up to the bound.
pub open spec fn lapsed(rows: Seq<EphemeralRow>, now: u64, n: int) -> Seq<usize>
    decreases n,
{
    if n <= 0 {
        Seq::empty()
    } else {
        let prior = lapsed(rows, now, n - 1);
        if is_lapsed(rows[n - 1], now) && prior.len() < MAX_EPHEMERAL_EXPIRIES_PER_TICK {
            prior.push((n - 1) as usize)
        } else {
            prior
        }
    }
}

/// A queue row put at its place by sequence, unless that sequence is there already.
pub open spec fn insert_by_sequence(rows: Seq<QueueDelete>, d: QueueDelete) -> Seq<QueueDelete>
    decreases rows.len(),
{
    if rows.len() == 0 || rows.last().sequence < d.sequence {
        rows.push(d)
    } else if rows.last().sequence == d.sequence {
        rows
    } else {
        insert_by_sequence(rows.drop_last(), d).push(rows.last())
    }
}

/// The rows so far with those among the first `n` queue rows that carry the content.
pub open spec fn with_carriers(
    rows: Seq<QueueDelete>,
    row: EphemeralRow,
    me: Id,
    queue: Seq<QueueItem>,
    n: int,
) -> Seq<QueueDelete>
    decreases n,
{
    if n <= 0 {
        rows
    } else {
        let prior = with_carriers(rows, row, me, queue, n - 1);
        if carries_row(row, me, queue[n - 1]) {
            insert_by_sequence(prior, deletion(queue[n - 1]))
        } else {
            prior
        }
    }
}

/// The queue rows that carry any of the first `n` due contents, by sequence.
pub open spec fn carriers(
    rows: Seq<EphemeralRow>,
    due: Seq<usize>,
    me: Id,
    queue: Seq<QueueItem>,
    n: int,
) -> Seq<QueueDelete>
    decreases n,
{
    if n <= 0 {
        Seq::empty()
    } else {
        with_carriers(
            carriers(rows, due, me, queue, n - 1),
            rows[due[n - 1] as int],
            me,
            queue,
            queue.len() as int,
        )
    }
}

/// The transfers of the first `n` due contents.
pub open spec fn due_transfers(rows: Seq<EphemeralRow>, due: Seq<usize>, n: int) -> Seq<ContentId>
    decreases n,
{
    if n <= 0 {
        Seq::empty()
    } else {
        due_transfers(rows, due, n - 1) + rows[due[n - 1] as int].transfer_ids@
    }
}

/// Queue rows in strictly ascending order of their sequences.
pub open spec fn by_sequence(rows: Seq<QueueDelete>) -> bool {
    forall|i: int, j: int|
        0 <= i < j < rows.len() ==> (#[trigger] rows[i]).sequence < (#[trigger] rows[j]).sequence
}

/// Inserting keeps the order.
pub proof fn lemma_insert_by_sequence(rows: Seq<QueueDelete>, d: QueueDelete)
    requires
        by_sequence(rows),
    ensures
        by_sequence(insert_by_sequence(rows, d)),
        forall|k: int|
            0 <= k < insert_by_sequence(rows, d).len() ==> (#[trigger] insert_by_sequence(
                rows,
                d,
            )[k]).sequence == d.sequence || exists|j: int|
                0 <= j < rows.len() && rows[j] == insert_by_sequence(rows, d)[k],
    decreases rows.len(),
{
    let out = insert_by_sequence(rows, d);
    if rows.len() > 0 && rows.last().sequence > d.sequence {
        let front = rows.drop_last();
        lemma_insert_by_sequence(front, d);
        let inner = insert_by_sequence(front, d);
        assert forall|i: int, j: int| 0 <= i < j < out.len() implies (#[trigger] out[i]).sequence < (
        #[trigger] out[j]).sequence by {
            if j == out.len() - 1 {
                assert(out[i] == inner[i]);
                if inner[i].sequence != d.sequence {
                    let k = choose|k: int| 0 <= k < front.len() && front[k] == inner[i];
                    assert(rows[k] == inner[i]);
                }
            } else {
                assert(out[i] == inner[i] && out[j] == inner[j]);
            }
        }
        assert forall|k: int| 0 <= k < out.len() implies (#[trigger] out[k]).sequence == d.sequence
            || exists|j: int| 0 <= j < rows.len() && rows[j] == out[k] by {
            if k < inner.len() {
                assert(out[k] == inner[k]);
                if inner[k].sequence != d.sequence {
                    let j = choose|j: int| 0 <= j < front.len() && front[j] == inner[k];
                    assert(rows[j] == out[k]);
                }
            } else {
                assert(rows[rows.len() - 1] == out[k]);
            }
        }
    } else if rows.len() > 0 && rows.last().sequence == d.sequence {
        assert forall|k: int| 0 <= k < out.len() implies exists|j: int|
            0 <= j < rows.len() && rows[j] == #[trigger] out[k] by {
            assert(rows[k] == out[k]);
        }
    } else {
        assert forall|k: int| 0 <= k < out.len() implies (#[trigger] out[k]).sequence == d.sequence
            || exists|j: int| 0 <= j < rows.len() && rows[j] == out[k] by {
            if k < rows.len() {
                assert(rows[k] == out[k]);
            }
        }
    }
}

/// Put a queue row at its place by sequence, unless that sequence is there already.
fn insert_row(rows: &mut Vec<QueueDelete>, d: QueueDelete)
    ensures
        final(rows)@ == insert_by_sequence(old(rows)@, d),
{
    let ghost whole = rows@;
    let mut at: usize = rows.len();
    proof {
        assert(whole.take(whole.len() as int) =~= whole);
        assert(insert_by_sequence(whole, d) =~= insert_by_sequence(whole, d) + whole.skip(
            whole.len() as int,
        ));
    }
    while at > 0 && rows[at - 1].sequence > d.sequence
        invariant
            at <= rows@.len(),
            rows@ == whole,
            insert_by_sequence(whole, d) == insert_by_sequence(whole.take(at as int), d)
                + whole.skip(at as int),
        decreases at,
    {
        proof {
            let front = whole.take(at as int);
            assert(front.drop_last() =~= whole.take(at - 1));
            assert(front.last() == whole[at - 1]);
            assert(insert_by_sequence(front.drop_last(), d).push(front.last()) + whole.skip(
                at as int,
            ) =~= insert_by_sequence(whole.take(at - 1), d) + whole.skip(at - 1));
        }
        at = at - 1;
    }
    let ghost front = whole.take(at as int);
    if at > 0 && rows[at - 1].sequence == d.sequence {
        assert(front.last() == whole[at - 1]);
        assert(front + whole.skip(at as int) =~= whole);
    } else {
        proof {
            if at > 0 {
                assert(front.last() == whole[at - 1]);
            }
        }
        rows.insert(at, d);
        assert(front.push(d) + whole.skip(at as int) =~= whole.insert(at as int, d));
    }
}

/// Ephemeral content to retire.
pub struct EphemeralSweep {
    /// Positions of the retired rows; each becomes expired.
    pub due: Vec<usize>,
    /// Stored messages to delete where they exist.
    pub targets: Vec<MessageTarget>,
    /// Queued envelopes to take out.
    pub delete_queue: Vec<QueueDelete>,
    /// Transfers to delete where they exist.
    pub transfers: Vec<ContentId>,
    /// What is told.
    pub events: Vec<Event>,
}

/// Retire ephemeral content whose time has passed, a bounded number at a time: its stored
/// message, its transfers and, where this account wrote it, its queued envelopes go. What
/// remains is the expired row.
pub fn sweep_ephemeral(rows: &Vec<EphemeralRow>, queue: &Vec<QueueItem>, me: Id, now: u64) -> (res:
    EphemeralSweep)
    ensures
        res.due@ == lapsed(rows@, now, rows@.len() as int),
        res.due@.len() <= MAX_EPHEMERAL_EXPIRIES_PER_TICK,
        forall|k: int| 0 <= k < res.due@.len() ==> #[trigger] res.due@[k] < rows@.len(),
        res.targets@ == res.due@.map_values(|i: usize| target_of(rows@[i as int], me)),
        res.delete_queue@ == carriers(rows@, res.due@, me, queue@, res.due@.len() as int),
        res.transfers@ == due_transfers(rows@, res.due@, res.due@.len() as int),
        res.events@ == res.due@.map_values(|i: usize| removal_event(rows@[i as int])),
{
    let mut due: Vec<usize> = Vec::new();
    let mut i: usize = 0;
    while i < rows.len()
        invariant
            i <= rows@.len(),
            due@ == lapsed(rows@, now, i as int),
            due@.len() <= MAX_EPHEMERAL_EXPIRIES_PER_TICK,
            forall|k: int| 0 <= k < due@.len() ==> #[trigger] due@[k] < rows@.len(),
        decreases rows@.len() - i,
    {
        let row = &rows[i];
        if row.state == EphemeralState::Active && now >= row.expires_at && due.len()
            < MAX_EPHEMERAL_EXPIRIES_PER_TICK {
            due.push(i);
        }
        i = i + 1;
    }
    let mut targets: Vec<MessageTarget> = Vec::new();
    let mut delete_queue: Vec<QueueDelete> = Vec::new();
    let mut transfers: Vec<ContentId> = Vec::new();
    let mut events: Vec<Event> = Vec::new();
    let mut k: usize = 0;
    while k < due.len()
        invariant
            k <= due@.len(),
            forall|k: int| 0 <= k < due@.len() ==> #[trigger] due@[k] < rows@.len(),
            targets@.len() == k,
            events@.len() == k,
            forall|j: int|
                0 <= j < k ==> #[trigger] targets@[j] == target_of(rows@[due@[j] as int], me),
            forall|j: int|
                0 <= j < k ==> #[trigger] events@[j] == removal_event(rows@[due@[j] as int]),
            delete_queue@ == carriers(rows@, due@, me, queue@, k as int),
            transfers@ == due_transfers(rows@, due@, k as int),
        decreases due@.len() - k,
    {
        let row = &rows[due[k]];
        let mine = same(&row.author, &me);
        let target = match row.conversation {
            EphemeralConversation::Pairwise(peer) => MessageTarget::Pairwise {
                peer,
                id: row.content_id,
                direction: if mine { Direction::Outbound } else { Direction::Inbound },
            },
            EphemeralConversation::Group(group) => MessageTarget::Group {
                group,
                id: row.content_id,
                sender: row.author,
            },
        };
        targets.push(target);
        let ghost rows_before = delete_queue@;
        let wanted = Some(row.content_id);
        let mut q: usize = 0;
        while q < queue.len()
            invariant
                q <= queue@.len(),
                mine == (row.author == me),
                wanted == Some(row.content_id),
                delete_queue@ == with_carriers(rows_before, *row, me, queue@, q as int),
            decreases queue@.len() - q,
        {
            let item = queue[q];
            let hit = match row.conversation {
                EphemeralConversation::Pairwise(_) => same_option(&item.msg_id, &wanted),
                EphemeralConversation::Group(_) => same_option(&item.group_msg_id, &wanted),
            };
            if mine && hit {
                insert_row(
                    &mut delete_queue,
                    QueueDelete { sequence: item.sequence, content_id: item.content_id },
                );
            }
            q = q + 1;
        }
        let ghost moved = transfers@;
        let mut t: usize = 0;
        assert(moved + row.transfer_ids@.take(0) =~= moved);
        while t < row.transfer_ids.len()
            invariant
                t <= row.transfer_ids@.len(),
                transfers@ == moved + row.transfer_ids@.take(t as int),
            decreases row.transfer_ids@.len() - t,
        {
            transfers.push(row.transfer_ids[t]);
            t = t + 1;
            assert(transfers@ =~= moved + row.transfer_ids@.take(t as int));
        }
        proof {
            crate::seqs::lemma_take_all(row.transfer_ids@);
        }
        events.push(
            Event::EphemeralRemoved {
                conversation: row.conversation,
                author: row.author,
                content_id: row.content_id,
                reason: EphemeralState::Expired,
            },
        );
        k = k + 1;
    }
    assert(targets@ =~= due@.map_values(|i: usize| target_of(rows@[i as int], me)));
    assert(events@ =~= due@.map_values(|i: usize| removal_event(rows@[i as int])));
    EphemeralSweep { due, targets, delete_queue, transfers, events }
}

/// The queue rows of an ephemeral sweep stand in ascending order of their sequences, none
/// twice.
pub proof fn law_ephemeral_queue_rows_are_ordered(
    rows: Seq<EphemeralRow>,
    due: Seq<usize>,
    me: Id,
    queue: Seq<QueueItem>,
    n: int,
)
    ensures
        by_sequence(carriers(rows, due, me, queue, n)),
    decreases n,
{
    if n > 0 {
        law_ephemeral_queue_rows_are_ordered(rows, due, me, queue, n - 1);
        lemma_with_carriers_ordered(
            carriers(rows, due, me, queue, n - 1),
            rows[due[n - 1] as int],
            me,
            queue,
            queue.len() as int,
        );
    }
}

proof fn lemma_with_carriers_ordered(
    out: Seq<QueueDelete>,
    row: EphemeralRow,
    me: Id,
    queue: Seq<QueueItem>,
    n: int,
)
    requires
        by_sequence(out),
    ensures
        by_sequence(with_carriers(out, row, me, queue, n)),
    decreases n,
{
    if n > 0 {
        lemma_with_carriers_ordered(out, row, me, queue, n - 1);
        lemma_insert_by_sequence(
            with_carriers(out, row, me, queue, n - 1),
            deletion(queue[n - 1]),
        );
    }
}

/// Content whose time has not passed, or that is gone already, is left alone.
pub proof fn law_only_lapsed_content_is_retired(
    rows: Seq<EphemeralRow>,
    now: u64,
    n: int,
    k: int,
)
    requires
        n <= rows.len(),
        rows.len() <= usize::MAX,
        0 <= k < lapsed(rows, now, n).len(),
    ensures
        0 <= lapsed(rows, now, n)[k] < n,
        is_lapsed(rows[lapsed(rows, now, n)[k] as int], now),
    decreases n,
{
    if n > 0 && k < lapsed(rows, now, n - 1).len() {
        law_only_lapsed_content_is_retired(rows, now, n - 1, k);
    }
}

// ---- Laws ----

/// Requests that expired are taken out, up to the allowance of a tick; no other is.
pub proof fn law_expired_requests_go(requests: Seq<RequestRow>, now: u64, k: int, i: int)
    ensures
        0 <= k < expired_requests(requests, now).len() ==> expired_requests(requests, now)[k].expires_at
            <= now && requests.contains(expired_requests(requests, now)[k]),
        0 <= i < requests.len() && requests[i].expires_at <= now && expired_requests(
            requests,
            now,
        ).len() < 16 ==> expired_requests(requests, now).contains(requests[i]),
        expired_requests(requests, now).len() <= 16,
{
    let gone = |r: RequestRow| r.expires_at <= now;
    let all = requests.filter(gone);
    let some = expired_requests(requests, now);
    crate::seqs::lemma_filter_kept(requests, gone);
    if 0 <= k < some.len() {
        assert(some[k] == all[k]);
    }
    if 0 <= i < requests.len() && requests[i].expires_at <= now && some.len() < 16 {
        assert(some =~= all);
        requests.lemma_filter_contains_rev(gone, requests[i]);
    }
}

/// Remembered refusals that expired are taken out with what the requests left of the
/// allowance.
pub proof fn law_expired_refusals_go(
    tombstones: Seq<TombstoneRow>,
    requests: nat,
    now: u64,
    k: int,
    i: int,
)
    requires
        requests <= 16,
    ensures
        ({
            let some = expired_tombstones(tombstones, requests, now);
            &&& some.len() + requests <= 16
            &&& 0 <= k < some.len() ==> some[k].expires_at <= now
            &&& 0 <= i < tombstones.len() && tombstones[i].expires_at <= now && some.len()
                + requests < 16 ==> some.contains(tombstones[i])
        }),
{
    let gone = |t: TombstoneRow| t.expires_at <= now;
    let all = tombstones.filter(gone);
    let some = expired_tombstones(tombstones, requests, now);
    crate::seqs::lemma_filter_kept(tombstones, gone);
    if 0 <= k < some.len() {
        assert(some[k] == all[k]);
    }
    if 0 <= i < tombstones.len() && tombstones[i].expires_at <= now && some.len() + requests < 16 {
        assert(some =~= all);
        tombstones.lemma_filter_contains_rev(gone, tombstones[i]);
    }
}

/// Each expired request is told as such while the allowance of notices lasts.
pub proof fn law_expired_requests_are_told(requests: Seq<RequestRow>, notifications: nat, k: int)
    requires
        0 <= k < requests.len(),
        k < notifications,
    ensures
        k < expired_request_events(requests, notifications).len(),
        expired_request_events(requests, notifications)[k] == (Event::MessageRequestExpired {
            request: requests[k].request_id,
        }),
        expired_request_events(requests, notifications).len() <= notifications,
{
}

/// Content lapses when its time has come, unless it is gone already.
pub proof fn law_when_content_lapses(row: EphemeralRow, now: u64)
    ensures
        row.state == EphemeralState::Active && now >= row.expires_at ==> is_lapsed(row, now),
        now < row.expires_at ==> !is_lapsed(row, now),
        row.state != EphemeralState::Active ==> !is_lapsed(row, now),
{
}

/// Lapsed content is retired in order, up to the allowance of a tick.
pub proof fn law_lapsed_content_is_retired(rows: Seq<EphemeralRow>, now: u64, n: int, i: int)
    requires
        0 <= i < n <= rows.len() <= usize::MAX,
        rows[i].state == EphemeralState::Active,
        now >= rows[i].expires_at,
        lapsed(rows, now, n).len() < 4,
    ensures
        lapsed(rows, now, n).contains(i as usize),
    decreases n,
{
    let all = lapsed(rows, now, n);
    let prior = lapsed(rows, now, n - 1);
    if i < n - 1 {
        law_lapsed_content_is_retired(rows, now, n - 1, i);
        let k = choose|k: int| 0 <= k < prior.len() && prior[k] == i as usize;
        assert(all[k] == i as usize);
    } else {
        assert(all.last() == i as usize);
    }
}

/// What lapsed is removed from its own conversation, as sent or as received.
pub proof fn law_what_is_removed(row: EphemeralRow, me: Id, peer: Id, group: Id)
    ensures
        row.conversation == EphemeralConversation::Pairwise(peer) && row.author == me ==> target_of(
            row,
            me,
        ) == (MessageTarget::Pairwise {
            peer,
            id: row.content_id,
            direction: Direction::Outbound,
        }),
        row.conversation == EphemeralConversation::Pairwise(peer) && row.author != me ==> target_of(
            row,
            me,
        ) == (MessageTarget::Pairwise { peer, id: row.content_id, direction: Direction::Inbound }),
        row.conversation == EphemeralConversation::Group(group) ==> target_of(row, me) == (
        MessageTarget::Group { group, id: row.content_id, sender: row.author }),
        removal_event(row) == (Event::EphemeralRemoved {
            conversation: row.conversation,
            author: row.author,
            content_id: row.content_id,
            reason: EphemeralState::Expired,
        }),
{
}

/// Own lapsed content takes its waiting envelopes with it; that of others has none here.
pub proof fn law_envelopes_of_lapsed_content(row: EphemeralRow, me: Id, item: QueueItem)
    ensures
        row.author != me ==> !carries_row(row, me, item),
        row.author == me && row.conversation is Pairwise ==> carries_row(row, me, item) == (
        item.msg_id == Some(row.content_id)),
        row.author == me && row.conversation is Group ==> carries_row(row, me, item) == (
        item.group_msg_id == Some(row.content_id)),
{
}

/// A row goes into the ordered list unless its sequence number stands there already.
pub proof fn law_rows_are_inserted_once(rows: Seq<QueueDelete>, d: QueueDelete, s: i64)
    requires
        by_sequence(rows),
    ensures
        exists|k: int|
            0 <= k < insert_by_sequence(rows, d).len() && (#[trigger] insert_by_sequence(
                rows,
                d,
            )[k]).sequence == d.sequence,
        s != d.sequence ==> ((exists|k: int|
            0 <= k < insert_by_sequence(rows, d).len() && (#[trigger] insert_by_sequence(
                rows,
                d,
            )[k]).sequence == s) <==> exists|k: int|
            0 <= k < rows.len() && (#[trigger] rows[k]).sequence == s),
        insert_by_sequence(rows, d).len() <= rows.len() + 1,
    decreases rows.len(),
{
    let all = insert_by_sequence(rows, d);
    if rows.len() == 0 || rows.last().sequence < d.sequence {
        assert(all.last() == d);
        assert forall|k: int| 0 <= k < rows.len() implies all[k] == rows[k] by {}
        if exists|k: int| 0 <= k < rows.len() && (#[trigger] rows[k]).sequence == s {
            let k = choose|k: int| 0 <= k < rows.len() && (#[trigger] rows[k]).sequence == s;
            assert(all[k].sequence == s);
        }
    } else if rows.last().sequence == d.sequence {
        assert(rows[rows.len() - 1].sequence == d.sequence);
    } else {
        let front = rows.drop_last();
        law_rows_are_inserted_once(front, d, s);
        let inner = insert_by_sequence(front, d);
        let k = choose|k: int| 0 <= k < inner.len() && (#[trigger] inner[k]).sequence == d.sequence;
        assert(all[k] == inner[k]);
        if exists|k: int| 0 <= k < rows.len() && (#[trigger] rows[k]).sequence == s {
            let k = choose|k: int| 0 <= k < rows.len() && (#[trigger] rows[k]).sequence == s;
            if k < front.len() {
                assert(front[k].sequence == s);
                let m = choose|m: int|
                    0 <= m < inner.len() && (#[trigger] inner[m]).sequence == s;
                if s != d.sequence {
                    assert(all[m] == inner[m]);
                }
            } else {
                assert(all.last() == rows.last());
                assert(all[all.len() - 1].sequence == s);
            }
        }
        if s != d.sequence && exists|k: int|
            0 <= k < all.len() && (#[trigger] all[k]).sequence == s {
            let k = choose|k: int| 0 <= k < all.len() && (#[trigger] all[k]).sequence == s;
            if k < inner.len() {
                assert(inner[k].sequence == s);
                let m = choose|m: int|
                    0 <= m < front.len() && (#[trigger] front[m]).sequence == s;
                assert(rows[m].sequence == s);
            } else {
                assert(rows[rows.len() - 1].sequence == s);
            }
        }
    }
}

/// The transfers of everything that lapsed end with it.
pub proof fn law_transfers_of_lapsed_content_end(
    rows: Seq<EphemeralRow>,
    due: Seq<usize>,
    n: int,
    k: int,
    t: int,
)
    requires
        0 <= k < n <= due.len(),
        due[k] < rows.len(),
        0 <= t < rows[due[k] as int].transfer_ids@.len(),
    ensures
        due_transfers(rows, due, n).contains(rows[due[k] as int].transfer_ids@[t]),
    decreases n,
{
    let all = due_transfers(rows, due, n);
    let prior = due_transfers(rows, due, n - 1);
    let id = rows[due[k] as int].transfer_ids@[t];
    if k < n - 1 {
        law_transfers_of_lapsed_content_end(rows, due, n - 1, k, t);
        let m = choose|m: int| 0 <= m < prior.len() && prior[m] == id;
        assert(all[m] == id);
    } else {
        assert(all[prior.len() + t] == id);
    }
}

/// Every waiting envelope of own content that lapsed is taken out.
pub proof fn law_envelopes_of_lapsed_content_go(
    rows: Seq<EphemeralRow>,
    due: Seq<usize>,
    me: Id,
    queue: Seq<QueueItem>,
    n: int,
    k: int,
    i: int,
)
    requires
        0 <= k < n <= due.len(),
        due[k] < rows.len(),
        0 <= i < queue.len(),
        carries_row(rows[due[k] as int], me, queue[i]),
    ensures
        holds_sequence(carriers(rows, due, me, queue, n), queue[i].sequence),
    decreases n,
{
    let prior = carriers(rows, due, me, queue, n - 1);
    let row = rows[due[n - 1] as int];
    law_ephemeral_queue_rows_are_ordered(rows, due, me, queue, n - 1);
    if k < n - 1 {
        law_envelopes_of_lapsed_content_go(rows, due, me, queue, n - 1, k, i);
        lemma_carriers_kept(prior, row, me, queue, queue.len() as int, queue[i].sequence);
    } else {
        lemma_carrier_added(prior, row, me, queue, queue.len() as int, i);
    }
}

/// A row with that sequence number stands in the list.
pub open spec fn holds_sequence(rows: Seq<QueueDelete>, sequence: i64) -> bool {
    exists|k: int| 0 <= k < rows.len() && (#[trigger] rows[k]).sequence == sequence
}

proof fn lemma_inserted_in_order(rows: Seq<QueueDelete>, d: QueueDelete)
    requires
        by_sequence(rows),
    ensures
        by_sequence(insert_by_sequence(rows, d)),
        forall|k: int|
            0 <= k < insert_by_sequence(rows, d).len() ==> (#[trigger] insert_by_sequence(
                rows,
                d,
            )[k]).sequence <= d.sequence || (rows.len() > 0 && insert_by_sequence(
                rows,
                d,
            )[k].sequence <= rows.last().sequence),
    decreases rows.len(),
{
    if rows.len() == 0 || rows.last().sequence <= d.sequence {
    } else {
        lemma_inserted_in_order(rows.drop_last(), d);
        let inner = insert_by_sequence(rows.drop_last(), d);
        assert forall|k: int| 0 <= k < inner.len() implies (#[trigger] inner[k]).sequence
            < rows.last().sequence by {
            if rows.drop_last().len() > 0 {
                assert(rows.drop_last().last().sequence < rows.last().sequence);
            }
        }
    }
}

proof fn lemma_carriers_kept(
    rows: Seq<QueueDelete>,
    row: EphemeralRow,
    me: Id,
    queue: Seq<QueueItem>,
    n: int,
    sequence: i64,
)
    requires
        by_sequence(rows),
        0 <= n <= queue.len(),
    ensures
        by_sequence(with_carriers(rows, row, me, queue, n)),
        holds_sequence(rows, sequence) ==> holds_sequence(
            with_carriers(rows, row, me, queue, n),
            sequence,
        ),
    decreases n,
{
    if n > 0 {
        lemma_carriers_kept(rows, row, me, queue, n - 1, sequence);
        let prior = with_carriers(rows, row, me, queue, n - 1);
        if carries_row(row, me, queue[n - 1]) {
            let d = deletion(queue[n - 1]);
            lemma_inserted_in_order(prior, d);
            law_rows_are_inserted_once(prior, d, sequence);
        }
    }
}

proof fn lemma_carrier_added(
    rows: Seq<QueueDelete>,
    row: EphemeralRow,
    me: Id,
    queue: Seq<QueueItem>,
    n: int,
    i: int,
)
    requires
        by_sequence(rows),
        0 <= i < n <= queue.len(),
        carries_row(row, me, queue[i]),
    ensures
        holds_sequence(with_carriers(rows, row, me, queue, n), queue[i].sequence),
    decreases n,
{
    let prior = with_carriers(rows, row, me, queue, n - 1);
    lemma_carriers_kept(rows, row, me, queue, n - 1, queue[i].sequence);
    if i < n - 1 {
        lemma_carrier_added(rows, row, me, queue, n - 1, i);
    }
    if carries_row(row, me, queue[n - 1]) {
        law_rows_are_inserted_once(prior, deletion(queue[n - 1]), queue[i].sequence);
    }
}

/// Envelopes of other content stay.
pub proof fn law_other_envelopes_stay(
    rows: Seq<QueueDelete>,
    row: EphemeralRow,
    me: Id,
    queue: Seq<QueueItem>,
    n: int,
    sequence: i64,
)
    requires
        by_sequence(rows),
        0 <= n <= queue.len(),
        !holds_sequence(rows, sequence),
        forall|i: int|
            0 <= i < n && (#[trigger] queue[i]).sequence == sequence ==> !carries_row(
                row,
                me,
                queue[i],
            ),
    ensures
        !holds_sequence(with_carriers(rows, row, me, queue, n), sequence),
    decreases n,
{
    if n > 0 {
        law_other_envelopes_stay(rows, row, me, queue, n - 1, sequence);
        let prior = with_carriers(rows, row, me, queue, n - 1);
        lemma_carriers_kept(rows, row, me, queue, n - 1, sequence);
        if carries_row(row, me, queue[n - 1]) {
            law_rows_are_inserted_once(prior, deletion(queue[n - 1]), sequence);
        }
    }
}

} // verus!
