//! Deliveries that ran out of time.

use vstd::prelude::*;

use crate::bytes::{same, ContentId};
use crate::delivery::{any_in, apply_rule_all, is_settled, ruled_all, transitions, DeliveryRule};
use crate::records::{
    DeliveryRow, DeliveryState, Direction, Event, GroupHistory, History, MemberDelivery,
    MessageRow, QueueDelete, QueueItem,
};
use crate::seqs::at_most;
use crate::settlement::{
    deletion, deletions, holds, lemma_deletions_none, lemma_deletions_step, push_rows, MemberChange,
    DELIVERY_EXPIRY_SECS, MAX_MAINTENANCE_MESSAGES_PER_TICK, MAX_MAINTENANCE_QUEUE_ROWS_PER_TICK,
};

verus! {

/// Receipts kept for repetition that are forgotten in one pass.
pub const MAX_MAINTENANCE_REPLAY_ROWS_PER_TICK: usize = 16;

// ---- What is overdue ----

/// A message with its copies.
#[verifier::ext_equal]
pub struct MessageWork {
    /// The message.
    pub message: MessageRow,
    /// Its copies.
    pub copies: Seq<DeliveryRow>,
}

/// A group message with its member entries and its copies.
#[verifier::ext_equal]
pub struct GroupWork {
    /// The message.
    pub id: ContentId,
    /// Who wrote it.
    pub direction: Direction,
    /// When it was written.
    pub timestamp: u64,
    /// Its member entries.
    pub members: Seq<MemberDelivery>,
    /// Its copies.
    pub copies: Seq<DeliveryRow>,
}

/// Messages as values.
pub open spec fn works(hs: Seq<History>) -> Seq<MessageWork> {
    hs.map_values(|h: History| MessageWork { message: h.message, copies: h.deliveries@ })
}

/// Group messages as values.
pub open spec fn group_works(gs: Seq<GroupHistory>) -> Seq<GroupWork> {
    gs.map_values(
        |g: GroupHistory|
            GroupWork {
                id: g.id,
                direction: g.direction,
                timestamp: g.timestamp,
                members: g.members@,
                copies: g.deliveries@,
            },
    )
}

/// An outbound message written at or before the cutoff.
pub open spec fn is_overdue(direction: Direction, timestamp: u64, cutoff: u64) -> bool {
    direction == Direction::Outbound && timestamp <= cutoff
}

/// A message is given up unless it is settled or one of its copies arrived.
pub open spec fn gives_up(w: MessageWork) -> bool {
    !is_settled(w.message.state) && !any_in(w.copies, DeliveryState::Delivered)
}

/// Some copy is not settled.
pub open spec fn any_open(ds: Seq<DeliveryRow>) -> bool {
    exists|i: int| 0 <= i < ds.len() && !is_settled((#[trigger] ds[i]).state)
}

/// Some member entry is not settled.
pub open spec fn any_open_member(ms: Seq<MemberDelivery>) -> bool {
    exists|i: int| 0 <= i < ms.len() && !is_settled((#[trigger] ms[i]).state)
}

/// The message that a queued envelope carries.
pub open spec fn carried(item: QueueItem) -> Option<ContentId> {
    match item.msg_id {
        Some(id) => Some(id),
        None => item.group_msg_id,
    }
}

/// An envelope of the message is queued.
pub open spec fn has_row(queue: Seq<QueueItem>, id: ContentId) -> bool {
    exists|k: int| 0 <= k < queue.len() && carried(#[trigger] queue[k]) == Some(id)
}

/// The message is overdue and there is something of it to retire: its own state, a copy, or
/// a queued envelope.
pub open spec fn is_due(w: MessageWork, queue: Seq<QueueItem>, cutoff: u64) -> bool {
    &&& is_overdue(w.message.direction, w.message.timestamp, cutoff)
    &&& gives_up(w) || any_open(w.copies) || has_row(queue, w.message.id)
}

/// The group message is overdue and there is something of it to retire.
pub open spec fn is_group_due(g: GroupWork, queue: Seq<QueueItem>, cutoff: u64) -> bool {
    &&& is_overdue(g.direction, g.timestamp, cutoff)
    &&& any_open_member(g.members) || any_open(g.copies) || has_row(queue, g.id)
}

/// Identities with one more, once.
pub open spec fn with_id(ids: Seq<ContentId>, id: ContentId) -> Seq<ContentId> {
    if ids.contains(id) {
        ids
    } else {
        ids.push(id)
    }
}

/// The messages selected from the first `n`, up to the bound. Messages with nothing to retire
/// do not count.
pub open spec fn selected(
    hs: Seq<MessageWork>,
    queue: Seq<QueueItem>,
    cutoff: u64,
    n: int,
) -> Seq<ContentId>
    decreases n,
{
    if n <= 0 {
        Seq::empty()
    } else {
        let prior = selected(hs, queue, cutoff, n - 1);
        if is_due(hs[n - 1], queue, cutoff) && prior.len() < MAX_MAINTENANCE_MESSAGES_PER_TICK {
            with_id(prior, hs[n - 1].message.id)
        } else {
            prior
        }
    }
}

/// Message `i` is due and the bound is not reached before it.
pub open spec fn picks(hs: Seq<MessageWork>, queue: Seq<QueueItem>, cutoff: u64, i: int) -> bool {
    &&& is_due(hs[i], queue, cutoff)
    &&& selected(hs, queue, cutoff, i).len() < MAX_MAINTENANCE_MESSAGES_PER_TICK
}

/// The copies of the first `n` messages that are given up.
pub open spec fn expired_rows(
    hs: Seq<MessageWork>,
    queue: Seq<QueueItem>,
    cutoff: u64,
    n: int,
) -> Seq<(DeliveryRow, DeliveryRow)>
    decreases n,
{
    if n <= 0 {
        Seq::empty()
    } else {
        let ds = hs[n - 1].copies;
        let prior = expired_rows(hs, queue, cutoff, n - 1);
        if picks(hs, queue, cutoff, n - 1) {
            prior + transitions(DeliveryRule::Expire, Seq::empty(), ds, ds.len() as int)
        } else {
            prior
        }
    }
}

/// The messages among the first `n` that are given up.
pub open spec fn expired_messages(
    hs: Seq<MessageWork>,
    queue: Seq<QueueItem>,
    cutoff: u64,
    n: int,
) -> Seq<(MessageRow, MessageRow)>
    decreases n,
{
    if n <= 0 {
        Seq::empty()
    } else {
        let prior = expired_messages(hs, queue, cutoff, n - 1);
        let w = hs[n - 1];
        if picks(hs, queue, cutoff, n - 1) && gives_up(w) {
            prior.push((w.message, MessageRow { state: DeliveryState::Failed, ..w.message }))
        } else {
            prior
        }
    }
}

/// The messages selected from the pairwise ones and then from the first `n` group ones.
pub open spec fn selected_groups(
    base: Seq<ContentId>,
    gs: Seq<GroupWork>,
    queue: Seq<QueueItem>,
    cutoff: u64,
    n: int,
) -> Seq<ContentId>
    decreases n,
{
    if n <= 0 {
        base
    } else {
        let prior = selected_groups(base, gs, queue, cutoff, n - 1);
        if is_group_due(gs[n - 1], queue, cutoff) && prior.len()
            < MAX_MAINTENANCE_MESSAGES_PER_TICK {
            with_id(prior, gs[n - 1].id)
        } else {
            prior
        }
    }
}

/// Group message `i` is due and the bound is not reached before it.
pub open spec fn picks_group(
    base: Seq<ContentId>,
    gs: Seq<GroupWork>,
    queue: Seq<QueueItem>,
    cutoff: u64,
    i: int,
) -> bool {
    &&& is_group_due(gs[i], queue, cutoff)
    &&& selected_groups(base, gs, queue, cutoff, i).len() < MAX_MAINTENANCE_MESSAGES_PER_TICK
}

/// The copies of the first `n` group messages that are given up.
pub open spec fn expired_group_rows(
    base: Seq<ContentId>,
    gs: Seq<GroupWork>,
    queue: Seq<QueueItem>,
    cutoff: u64,
    n: int,
) -> Seq<(DeliveryRow, DeliveryRow)>
    decreases n,
{
    if n <= 0 {
        Seq::empty()
    } else {
        let ds = gs[n - 1].copies;
        let prior = expired_group_rows(base, gs, queue, cutoff, n - 1);
        if picks_group(base, gs, queue, cutoff, n - 1) {
            prior + transitions(DeliveryRule::Expire, Seq::empty(), ds, ds.len() as int)
        } else {
            prior
        }
    }
}

/// The entries among the first `n` members that are given up.
pub open spec fn expired_entries(g: GroupWork, n: int) -> Seq<MemberChange>
    decreases n,
{
    if n <= 0 {
        Seq::empty()
    } else {
        let prior = expired_entries(g, n - 1);
        let m = g.members[n - 1];
        if is_settled(m.state) {
            prior
        } else {
            prior.push(
                MemberChange {
                    message: g.id,
                    member: (n - 1) as usize,
                    after: MemberDelivery { state: DeliveryState::Failed, ..m },
                },
            )
        }
    }
}

/// All entries of the first `n` group messages that are given up.
pub open spec fn expired_entries_all(
    base: Seq<ContentId>,
    gs: Seq<GroupWork>,
    queue: Seq<QueueItem>,
    cutoff: u64,
    n: int,
) -> Seq<MemberChange>
    decreases n,
{
    if n <= 0 {
        Seq::empty()
    } else {
        let prior = expired_entries_all(base, gs, queue, cutoff, n - 1);
        if picks_group(base, gs, queue, cutoff, n - 1) {
            prior + expired_entries(gs[n - 1], gs[n - 1].members.len() as int)
        } else {
            prior
        }
    }
}

/// A queued envelope of a selected message, or a control queued at or before the cutoff.
pub open spec fn sweeps(ids: Seq<ContentId>, cutoff: u64, item: QueueItem) -> bool {
    match carried(item) {
        Some(id) => ids.contains(id),
        None => item.created_at != 0 && item.created_at <= cutoff,
    }
}

/// The queued envelopes that a pass takes out, up to the bound.
pub open spec fn swept_rows(
    ids: Seq<ContentId>,
    queue: Seq<QueueItem>,
    cutoff: u64,
) -> Seq<QueueDelete> {
    at_most(
        deletions(queue, |item: QueueItem| sweeps(ids, cutoff, item)),
        MAX_MAINTENANCE_QUEUE_ROWS_PER_TICK as nat,
    )
}

/// All messages that a pass selects.
pub open spec fn all_selected(
    hs: Seq<MessageWork>,
    gs: Seq<GroupWork>,
    queue: Seq<QueueItem>,
    cutoff: u64,
) -> Seq<ContentId> {
    selected_groups(
        selected(hs, queue, cutoff, hs.len() as int),
        gs,
        queue,
        cutoff,
        gs.len() as int,
    )
}

/// Overdue work to retire.
pub struct ExpirySweep {
    /// Messages, before and after.
    pub messages: Vec<(MessageRow, MessageRow)>,
    /// Copies, before and after.
    pub deliveries: Vec<(DeliveryRow, DeliveryRow)>,
    /// Group member entries that change; their messages lose the sealed body.
    pub members: Vec<MemberChange>,
    /// Queued envelopes to take out.
    pub delete_queue: Vec<QueueDelete>,
    /// Receipts that are no longer repeated.
    pub delete_replay: Vec<ContentId>,
    /// What is told.
    pub events: Vec<Event>,
}

impl ExpirySweep {
    /// There is nothing to record.
    pub open spec fn idle(&self) -> bool {
        &&& self.messages@.len() == 0
        &&& self.deliveries@.len() == 0
        &&& self.members@.len() == 0
        &&& self.delete_queue@.len() == 0
        &&& self.delete_replay@.len() == 0
    }

    /// Whether there is nothing to record.
    pub fn is_idle(&self) -> (res: bool)
        ensures
            res == self.idle(),
    {
        self.messages.len() == 0 && self.deliveries.len() == 0 && self.members.len() == 0
            && self.delete_queue.len() == 0 && self.delete_replay.len() == 0
    }
}

/// When overdue messages were written at the latest.
pub open spec fn cutoff_at(now: u64) -> u64 {
    if now < DELIVERY_EXPIRY_SECS {
        0
    } else {
        (now - DELIVERY_EXPIRY_SECS) as u64
    }
}

/// When overdue messages were written, and receipts for repetition kept, at the latest.
pub fn expiry_cutoff(now: u64) -> (res: u64)
    ensures
        res == cutoff_at(now),
{
    now.saturating_sub(DELIVERY_EXPIRY_SECS)
}

/// What is told about given-up messages and member entries.
pub open spec fn expiry_events(
    messages: Seq<(MessageRow, MessageRow)>,
    members: Seq<MemberChange>,
) -> Seq<Event> {
    crate::receipts::delivered_events(messages) + crate::settlement::member_events(members)
}

/// Note an identity once.
fn note_id(ids: &mut Vec<ContentId>, id: ContentId)
    ensures
        final(ids)@ == with_id(old(ids)@, id),
{
    if !holds(ids, &id) {
        ids.push(id);
    }
}

fn row_of(queue: &Vec<QueueItem>, id: &ContentId) -> (res: bool)
    ensures
        res == has_row(queue@, *id),
{
    let mut i: usize = 0;
    while i < queue.len()
        invariant
            i <= queue@.len(),
            forall|k: int| 0 <= k < i ==> carried(#[trigger] queue@[k]) != Some(*id),
        decreases queue@.len() - i,
    {
        let message = match queue[i].msg_id {
            Some(m) => Some(m),
            None => queue[i].group_msg_id,
        };
        if let Some(m) = &message {
            if same(m, id) {
                assert(carried(queue@[i as int]) == Some(*id));
                return true;
            }
        }
        i = i + 1;
    }
    false
}

fn settled(state: DeliveryState) -> (res: bool)
    ensures
        res == is_settled(state),
{
    state == DeliveryState::Delivered || state == DeliveryState::Failed
}

fn some_open(ds: &Vec<DeliveryRow>) -> (res: bool)
    ensures
        res == any_open(ds@),
{
    let mut i: usize = 0;
    while i < ds.len()
        invariant
            i <= ds@.len(),
            forall|k: int| 0 <= k < i ==> is_settled((#[trigger] ds@[k]).state),
        decreases ds@.len() - i,
    {
        if !settled(ds[i].state) {
            assert(!is_settled(ds@[i as int].state));
            return true;
        }
        i = i + 1;
    }
    false
}

fn some_open_member(ms: &Vec<MemberDelivery>) -> (res: bool)
    ensures
        res == any_open_member(ms@),
{
    let mut i: usize = 0;
    while i < ms.len()
        invariant
            i <= ms@.len(),
            forall|k: int| 0 <= k < i ==> is_settled((#[trigger] ms@[k]).state),
        decreases ms@.len() - i,
    {
        if !settled(ms[i].state) {
            assert(!is_settled(ms@[i as int].state));
            return true;
        }
        i = i + 1;
    }
    false
}

fn gives_up_on(h: &History) -> (res: bool)
    ensures
        res == gives_up(MessageWork { message: h.message, copies: h.deliveries@ }),
{
    !settled(h.message.state) && !any_delivered(&h.deliveries)
}

fn due(h: &History, queue: &Vec<QueueItem>, cutoff: u64) -> (res: bool)
    ensures
        res == is_due(
            MessageWork { message: h.message, copies: h.deliveries@ },
            queue@,
            cutoff,
        ),
{
    h.message.direction == Direction::Outbound && h.message.timestamp <= cutoff && (gives_up_on(h)
        || some_open(&h.deliveries) || row_of(queue, &h.message.id))
}

fn group_due(g: &GroupHistory, queue: &Vec<QueueItem>, cutoff: u64) -> (res: bool)
    ensures
        res == is_group_due(
            GroupWork {
                id: g.id,
                direction: g.direction,
                timestamp: g.timestamp,
                members: g.members@,
                copies: g.deliveries@,
            },
            queue@,
            cutoff,
        ),
{
    g.direction == Direction::Outbound && g.timestamp <= cutoff && (some_open_member(&g.members)
        || some_open(&g.deliveries) || row_of(queue, &g.id))
}

/// Append the member entries of one group message that are given up, with what is told.
fn push_expired_entries(g: &GroupHistory, out: &mut Vec<MemberChange>, events: &mut Vec<Event>)
    ensures
        ({
            let w = GroupWork {
                id: g.id,
                direction: g.direction,
                timestamp: g.timestamp,
                members: g.members@,
                copies: g.deliveries@,
            };
            let more = expired_entries(w, g.members@.len() as int);
            &&& final(out)@ == old(out)@ + more
            &&& final(events)@ == old(events)@ + crate::settlement::member_events(more)
        }),
{
    let ghost w = GroupWork {
        id: g.id,
        direction: g.direction,
        timestamp: g.timestamp,
        members: g.members@,
        copies: g.deliveries@,
    };
    let ghost first = out@;
    let ghost told = events@;
    let mut i: usize = 0;
    assert(first + Seq::<MemberChange>::empty() =~= first);
    assert(told + crate::settlement::member_events(Seq::empty()) =~= told);
    while i < g.members.len()
        invariant
            i <= g.members@.len(),
            w.id == g.id,
            w.members == g.members@,
            out@ == first + expired_entries(w, i as int),
            events@ == told + crate::settlement::member_events(expired_entries(w, i as int)),
        decreases g.members@.len() - i,
    {
        let m = g.members[i];
        let ghost prior = expired_entries(w, i as int);
        if !settled(m.state) {
            let change = MemberChange {
                message: g.id,
                member: i,
                after: MemberDelivery {
                    peer: m.peer,
                    state: DeliveryState::Failed,
                    wire_id: m.wire_id,
                },
            };
            out.push(change);
            let event = Event::GroupDeliveryUpdated {
                id: g.id,
                peer: m.peer,
                state: DeliveryState::Failed,
            };
            events.push(event);
            assert(out@ =~= first + prior.push(change));
            assert(events@ =~= told + crate::settlement::member_events(prior.push(change)));
        }
        i = i + 1;
    }
}

/// Retire outbound work that has gone the whole delivery window without a receipt.
/// History is retained with an explicit terminal state, while envelopes and per-device
/// copies stop consuming queue, discovery and transport resources. Only messages with
/// something to retire count toward the bound of a pass. `hs` are the messages of all
/// contacts in order, `replays` the receipts for repetition that were kept at or before
/// `expiry_cutoff`.
pub fn sweep_failed_deliveries(
    hs: &Vec<History>,
    gs: &Vec<GroupHistory>,
    queue: &Vec<QueueItem>,
    replays: Vec<ContentId>,
    now: u64,
) -> (res: ExpirySweep)
    ensures
        ({
            let cutoff = cutoff_at(now);
            let ws = works(hs@);
            let vs = group_works(gs@);
            let n = hs@.len() as int;
            let m = gs@.len() as int;
            let base = selected(ws, queue@, cutoff, n);
            &&& res.messages@ == expired_messages(ws, queue@, cutoff, n)
            &&& res.deliveries@ == expired_rows(ws, queue@, cutoff, n) + expired_group_rows(
                base,
                vs,
                queue@,
                cutoff,
                m,
            )
            &&& res.members@ == expired_entries_all(base, vs, queue@, cutoff, m)
            &&& res.events@ == expiry_events(res.messages@, res.members@)
            &&& res.delete_queue@ == swept_rows(
                all_selected(ws, vs, queue@, cutoff),
                queue@,
                cutoff,
            )
            &&& res.delete_replay@ == at_most(
                replays@,
                MAX_MAINTENANCE_REPLAY_ROWS_PER_TICK as nat,
            )
        }),
{
    let cutoff: u64 = expiry_cutoff(now);
    let ghost ws = works(hs@);
    let ghost vs = group_works(gs@);
    let none: Vec<ContentId> = Vec::new();
    assert(none@ =~= Seq::empty());
    let mut messages: Vec<(MessageRow, MessageRow)> = Vec::new();
    let mut deliveries: Vec<(DeliveryRow, DeliveryRow)> = Vec::new();
    let mut events: Vec<Event> = Vec::new();
    let mut ids: Vec<ContentId> = Vec::new();
    let mut i: usize = 0;
    assert(events@ =~= crate::receipts::delivered_events(messages@));
    while i < hs.len()
        invariant
            i <= hs@.len(),
            ws == works(hs@),
            none@ == Seq::<ContentId>::empty(),
            ids@ == selected(ws, queue@, cutoff, i as int),
            messages@ == expired_messages(ws, queue@, cutoff, i as int),
            deliveries@ == expired_rows(ws, queue@, cutoff, i as int),
            events@ == crate::receipts::delivered_events(messages@),
        decreases hs@.len() - i,
    {
        let h = &hs[i];
        if ids.len() < MAX_MAINTENANCE_MESSAGES_PER_TICK && due(h, queue, cutoff) {
            assert(picks(ws, queue@, cutoff, i as int));
            note_id(&mut ids, h.message.id);
            let rows = apply_rule_all(DeliveryRule::Expire, &none, &h.deliveries);
            push_rows(&mut deliveries, &rows.changed);
            if gives_up_on(h) {
                let mut after = h.message;
                after.state = DeliveryState::Failed;
                let ghost prior = messages@;
                events.push(
                    Event::DeliveryUpdated { id: h.message.id, state: DeliveryState::Failed },
                );
                messages.push((h.message, after));
                assert(events@ =~= crate::receipts::delivered_events(
                    prior.push((h.message, after)),
                ));
            }
        } else {
            assert(!picks(ws, queue@, cutoff, i as int));
        }
        i = i + 1;
    }
    let ghost base = ids@;
    let ghost pairwise_rows = deliveries@;
    let ghost pairwise_events = events@;
    let mut members: Vec<MemberChange> = Vec::new();
    let mut i: usize = 0;
    assert(deliveries@ =~= pairwise_rows + Seq::<(DeliveryRow, DeliveryRow)>::empty());
    assert(events@ =~= pairwise_events + crate::settlement::member_events(members@));
    while i < gs.len()
        invariant
            i <= gs@.len(),
            vs == group_works(gs@),
            none@ == Seq::<ContentId>::empty(),
            ids@ == selected_groups(base, vs, queue@, cutoff, i as int),
            deliveries@ == pairwise_rows + expired_group_rows(base, vs, queue@, cutoff, i as int),
            members@ == expired_entries_all(base, vs, queue@, cutoff, i as int),
            events@ == pairwise_events + crate::settlement::member_events(members@),
        decreases gs@.len() - i,
    {
        let g = &gs[i];
        if ids.len() < MAX_MAINTENANCE_MESSAGES_PER_TICK && group_due(g, queue, cutoff) {
            assert(picks_group(base, vs, queue@, cutoff, i as int));
            note_id(&mut ids, g.id);
            let ghost prior_rows = expired_group_rows(base, vs, queue@, cutoff, i as int);
            let ghost prior_members = members@;
            let ghost more = expired_entries(vs[i as int], g.members@.len() as int);
            push_expired_entries(g, &mut members, &mut events);
            let rows = apply_rule_all(DeliveryRule::Expire, &none, &g.deliveries);
            push_rows(&mut deliveries, &rows.changed);
            assert(deliveries@ =~= pairwise_rows + (prior_rows + rows.changed@));
            assert(events@ =~= pairwise_events + crate::settlement::member_events(
                prior_members + more,
            ));
        }
        i = i + 1;
    }
    let ghost gone = |item: QueueItem| sweeps(ids@, cutoff, item);
    let ghost bound = MAX_MAINTENANCE_QUEUE_ROWS_PER_TICK as nat;
    let mut delete_queue: Vec<QueueDelete> = Vec::new();
    let mut i: usize = 0;
    proof {
        lemma_deletions_none(queue@, gone);
    }
    while i < queue.len()
        invariant
            i <= queue@.len(),
            gone == (|item: QueueItem| sweeps(ids@, cutoff, item)),
            bound == MAX_MAINTENANCE_QUEUE_ROWS_PER_TICK,
            delete_queue@ == at_most(deletions(queue@.take(i as int), gone), bound),
        decreases queue@.len() - i,
    {
        let item = queue[i];
        proof {
            lemma_deletions_step(queue@, gone, i as int);
        }
        let message = match item.msg_id {
            Some(id) => Some(id),
            None => item.group_msg_id,
        };
        let hit = match &message {
            Some(id) => holds(&ids, id),
            None => item.created_at != 0 && item.created_at <= cutoff,
        };
        let ghost prior = deletions(queue@.take(i as int), gone);
        if hit && delete_queue.len() < MAX_MAINTENANCE_QUEUE_ROWS_PER_TICK {
            delete_queue.push(
                QueueDelete { sequence: item.sequence, content_id: item.content_id },
            );
        }
        proof {
            if hit {
                assert(at_most(prior.push(deletion(item)), bound) =~= delete_queue@);
            }
        }
        i = i + 1;
    }
    proof {
        crate::seqs::lemma_take_all(queue@);
    }
    let ghost kept = replays@;
    let mut delete_replay = replays;
    if delete_replay.len() > MAX_MAINTENANCE_REPLAY_ROWS_PER_TICK {
        delete_replay.truncate(MAX_MAINTENANCE_REPLAY_ROWS_PER_TICK);
    }
    assert(delete_replay@ =~= at_most(kept, MAX_MAINTENANCE_REPLAY_ROWS_PER_TICK as nat));
    ExpirySweep { messages, deliveries, members, delete_queue, delete_replay, events }
}

fn any_delivered(ds: &Vec<DeliveryRow>) -> (res: bool)
    ensures
        res == any_in(ds@, DeliveryState::Delivered),
{
    let mut i: usize = 0;
    while i < ds.len()
        invariant
            i <= ds@.len(),
            forall|k: int| 0 <= k < i ==> (#[trigger] ds@[k]).state != DeliveryState::Delivered,
        decreases ds@.len() - i,
    {
        if ds[i].state == DeliveryState::Delivered {
            assert(ds@[i as int].state == DeliveryState::Delivered);
            return true;
        }
        i = i + 1;
    }
    false
}

// ---- Laws ----

/// One pass never selects more messages than the bound.
pub proof fn law_sweep_is_bounded(
    hs: Seq<MessageWork>,
    gs: Seq<GroupWork>,
    queue: Seq<QueueItem>,
    cutoff: u64,
    n: int,
    m: int,
)
    requires
        n <= hs.len(),
        m <= gs.len(),
    ensures
        selected_groups(selected(hs, queue, cutoff, n), gs, queue, cutoff, m).len()
            <= MAX_MAINTENANCE_MESSAGES_PER_TICK,
    decreases n, m,
{
    if m > 0 {
        law_sweep_is_bounded(hs, gs, queue, cutoff, n, m - 1);
    } else if n > 0 {
        law_sweep_is_bounded(hs, gs, queue, cutoff, n - 1, 0);
        let prior = selected(hs, queue, cutoff, n - 1);
        assert(selected_groups(prior, gs, queue, cutoff, 0) == prior);
    }
}

/// Only outbound messages that were neither settled nor delivered to any device are given
/// up, and only once their window has passed.
pub proof fn law_sweep_spares_settled_history(
    hs: Seq<MessageWork>,
    queue: Seq<QueueItem>,
    cutoff: u64,
    n: int,
    k: int,
)
    requires
        n <= hs.len(),
        0 <= k < expired_messages(hs, queue, cutoff, n).len(),
    ensures
        ({
            let (before, after) = expired_messages(hs, queue, cutoff, n)[k];
            &&& before.direction == Direction::Outbound
            &&& before.timestamp <= cutoff
            &&& !is_settled(before.state)
            &&& after == (MessageRow { state: DeliveryState::Failed, ..before })
        }),
    decreases n,
{
    if n > 0 && k < expired_messages(hs, queue, cutoff, n - 1).len() {
        law_sweep_spares_settled_history(hs, queue, cutoff, n - 1, k);
    }
}

/// Everything that a sweep looks at.
#[verifier::ext_equal]
pub struct Ledger {
    /// Messages of contacts.
    pub hs: Seq<MessageWork>,
    /// Group messages.
    pub gs: Seq<GroupWork>,
    /// Queued envelopes.
    pub queue: Seq<QueueItem>,
}

/// A selected message once the sweep is recorded.
pub open spec fn retired(w: MessageWork) -> MessageWork {
    MessageWork {
        message: if gives_up(w) {
            MessageRow { state: DeliveryState::Failed, ..w.message }
        } else {
            w.message
        },
        copies: ruled_all(DeliveryRule::Expire, Seq::empty(), w.copies),
    }
}

/// A member entry once the sweep is recorded.
pub open spec fn retired_member(m: MemberDelivery) -> MemberDelivery {
    if is_settled(m.state) {
        m
    } else {
        MemberDelivery { state: DeliveryState::Failed, ..m }
    }
}

/// A selected group message once the sweep is recorded.
pub open spec fn retired_group(g: GroupWork) -> GroupWork {
    GroupWork {
        members: g.members.map_values(|m: MemberDelivery| retired_member(m)),
        copies: ruled_all(DeliveryRule::Expire, Seq::empty(), g.copies),
        ..g
    }
}

/// The ledger once a sweep is recorded.
pub open spec fn swept(l: Ledger, cutoff: u64) -> Ledger {
    let base = selected(l.hs, l.queue, cutoff, l.hs.len() as int);
    let gone = swept_rows(all_selected(l.hs, l.gs, l.queue, cutoff), l.queue, cutoff);
    Ledger {
        hs: Seq::new(
            l.hs.len(),
            |i: int|
                if picks(l.hs, l.queue, cutoff, i) {
                    retired(l.hs[i])
                } else {
                    l.hs[i]
                },
        ),
        gs: Seq::new(
            l.gs.len(),
            |i: int|
                if picks_group(base, l.gs, l.queue, cutoff, i) {
                    retired_group(l.gs[i])
                } else {
                    l.gs[i]
                },
        ),
        queue: l.queue.filter(|item: QueueItem| !gone.contains(deletion(item))),
    }
}

/// The ledger after the first `n` sweeps.
pub open spec fn after_sweeps(l: Ledger, cutoffs: Seq<u64>, n: int) -> Ledger
    decreases n,
{
    if n <= 0 {
        l
    } else {
        swept(after_sweeps(l, cutoffs, n - 1), cutoffs[n - 1])
    }
}

/// A queued control that waited too long.
pub open spec fn is_stale_control(item: QueueItem, cutoff: u64) -> bool {
    carried(item) is None && item.created_at != 0 && item.created_at <= cutoff
}

/// Nothing overdue is left to retire.
pub open spec fn is_clear(l: Ledger, cutoff: u64) -> bool {
    &&& forall|k: int|
        0 <= k < l.queue.len() ==> !is_stale_control(#[trigger] l.queue[k], cutoff)
    &&& forall|i: int| 0 <= i < l.hs.len() ==> !is_due(#[trigger] l.hs[i], l.queue, cutoff)
    &&& forall|i: int| 0 <= i < l.gs.len() ==> !is_group_due(#[trigger] l.gs[i], l.queue, cutoff)
}

/// Copies among the first `n` that are not settled.
pub open spec fn open_copies(ds: Seq<DeliveryRow>, n: int) -> nat
    decreases n,
{
    if n <= 0 {
        0
    } else {
        open_copies(ds, n - 1) + if is_settled(ds[n - 1].state) {
            0nat
        } else {
            1
        }
    }
}

/// Member entries among the first `n` that are not settled.
pub open spec fn open_members(ms: Seq<MemberDelivery>, n: int) -> nat
    decreases n,
{
    if n <= 0 {
        0
    } else {
        open_members(ms, n - 1) + if is_settled(ms[n - 1].state) {
            0nat
        } else {
            1
        }
    }
}

/// What of a message can still be retired.
pub open spec fn weight(w: MessageWork) -> nat {
    open_copies(w.copies, w.copies.len() as int) + if gives_up(w) {
        1nat
    } else {
        0
    }
}

/// What of a group message can still be retired.
pub open spec fn group_weight(g: GroupWork) -> nat {
    open_copies(g.copies, g.copies.len() as int) + open_members(g.members, g.members.len() as int)
}

/// What of the first `n` messages can still be retired.
pub open spec fn total_weight(hs: Seq<MessageWork>, n: int) -> nat
    decreases n,
{
    if n <= 0 {
        0
    } else {
        total_weight(hs, n - 1) + weight(hs[n - 1])
    }
}

/// What of the first `n` group messages can still be retired.
pub open spec fn total_group_weight(gs: Seq<GroupWork>, n: int) -> nat
    decreases n,
{
    if n <= 0 {
        0
    } else {
        total_group_weight(gs, n - 1) + group_weight(gs[n - 1])
    }
}

/// Everything that sweeps can still retire.
pub open spec fn work_left(l: Ledger) -> nat {
    total_weight(l.hs, l.hs.len() as int) + total_group_weight(l.gs, l.gs.len() as int)
        + l.queue.len()
}

proof fn lemma_open_copies(ds: Seq<DeliveryRow>, n: int)
    requires
        0 <= n <= ds.len(),
    ensures
        open_copies(ds, n) == 0 <==> forall|i: int|
            0 <= i < n ==> is_settled((#[trigger] ds[i]).state),
    decreases n,
{
    if n > 0 {
        lemma_open_copies(ds, n - 1);
        if open_copies(ds, n) == 0 {
            assert(is_settled(ds[n - 1].state));
        }
        if open_copies(ds, n - 1) > 0 {
            let i = choose|i: int| 0 <= i < n - 1 && !is_settled((#[trigger] ds[i]).state);
            assert(!is_settled(ds[i].state));
        }
    }
}

proof fn lemma_open_members(ms: Seq<MemberDelivery>, n: int)
    requires
        0 <= n <= ms.len(),
    ensures
        open_members(ms, n) == 0 <==> forall|i: int|
            0 <= i < n ==> is_settled((#[trigger] ms[i]).state),
    decreases n,
{
    if n > 0 {
        lemma_open_members(ms, n - 1);
        if open_members(ms, n) == 0 {
            assert(is_settled(ms[n - 1].state));
        }
        if open_members(ms, n - 1) > 0 {
            let i = choose|i: int| 0 <= i < n - 1 && !is_settled((#[trigger] ms[i]).state);
            assert(!is_settled(ms[i].state));
        }
    }
}

proof fn lemma_weight(w: MessageWork)
    ensures
        weight(w) == 0 <==> !gives_up(w) && !any_open(w.copies),
{
    lemma_open_copies(w.copies, w.copies.len() as int);
}

proof fn lemma_group_weight(g: GroupWork)
    ensures
        group_weight(g) == 0 <==> !any_open_member(g.members) && !any_open(g.copies),
{
    lemma_open_copies(g.copies, g.copies.len() as int);
    lemma_open_members(g.members, g.members.len() as int);
}

proof fn lemma_retired(w: MessageWork)
    ensures
        weight(retired(w)) == 0,
        any_in(retired(w).copies, DeliveryState::Delivered) == any_in(
            w.copies,
            DeliveryState::Delivered,
        ),
{
    let r = retired(w);
    assert forall|i: int| 0 <= i < r.copies.len() implies is_settled((#[trigger] r.copies[i]).state)
        && (r.copies[i].state == DeliveryState::Delivered) == (w.copies[i].state
        == DeliveryState::Delivered) by {}
    if any_in(w.copies, DeliveryState::Delivered) {
        let i = choose|i: int|
            0 <= i < w.copies.len() && (#[trigger] w.copies[i]).state == DeliveryState::Delivered;
        assert(r.copies[i].state == DeliveryState::Delivered);
    }
    if any_in(r.copies, DeliveryState::Delivered) {
        let i = choose|i: int|
            0 <= i < r.copies.len() && (#[trigger] r.copies[i]).state == DeliveryState::Delivered;
        assert(w.copies[i].state == DeliveryState::Delivered);
    }
    lemma_weight(r);
}

proof fn lemma_retired_group(g: GroupWork)
    ensures
        group_weight(retired_group(g)) == 0,
{
    let r = retired_group(g);
    assert forall|i: int| 0 <= i < r.copies.len() implies is_settled(
        (#[trigger] r.copies[i]).state,
    ) by {}
    assert forall|i: int| 0 <= i < r.members.len() implies is_settled(
        (#[trigger] r.members[i]).state,
    ) by {}
    lemma_group_weight(r);
}

proof fn lemma_total_weight(l: Ledger, cutoff: u64, n: int)
    requires
        0 <= n <= l.hs.len(),
    ensures
        total_weight(swept(l, cutoff).hs, n) <= total_weight(l.hs, n),
        (exists|i: int|
            0 <= i < n && picks(l.hs, l.queue, cutoff, i) && weight(#[trigger] l.hs[i]) > 0)
            ==> total_weight(swept(l, cutoff).hs, n) < total_weight(l.hs, n),
    decreases n,
{
    if n > 0 {
        lemma_total_weight(l, cutoff, n - 1);
        lemma_retired(l.hs[n - 1]);
        if exists|i: int|
            0 <= i < n && picks(l.hs, l.queue, cutoff, i) && weight(#[trigger] l.hs[i]) > 0 {
            let i = choose|i: int|
                0 <= i < n && picks(l.hs, l.queue, cutoff, i) && weight(#[trigger] l.hs[i]) > 0;
            if i < n - 1 {
                assert(weight(l.hs[i]) > 0);
            }
        }
    }
}

proof fn lemma_total_group_weight(l: Ledger, cutoff: u64, n: int)
    requires
        0 <= n <= l.gs.len(),
    ensures
        ({
            let base = selected(l.hs, l.queue, cutoff, l.hs.len() as int);
            &&& total_group_weight(swept(l, cutoff).gs, n) <= total_group_weight(l.gs, n)
            &&& (exists|i: int|
                0 <= i < n && picks_group(base, l.gs, l.queue, cutoff, i) && group_weight(
                    #[trigger] l.gs[i],
                ) > 0) ==> total_group_weight(swept(l, cutoff).gs, n) < total_group_weight(l.gs, n)
        }),
    decreases n,
{
    let base = selected(l.hs, l.queue, cutoff, l.hs.len() as int);
    if n > 0 {
        lemma_total_group_weight(l, cutoff, n - 1);
        lemma_retired_group(l.gs[n - 1]);
        if exists|i: int|
            0 <= i < n && picks_group(base, l.gs, l.queue, cutoff, i) && group_weight(
                #[trigger] l.gs[i],
            ) > 0 {
            let i = choose|i: int|
                0 <= i < n && picks_group(base, l.gs, l.queue, cutoff, i) && group_weight(
                    #[trigger] l.gs[i],
                ) > 0;
            if i < n - 1 {
                assert(group_weight(l.gs[i]) > 0);
            }
        }
    }
}

/// A filter that drops something is shorter.
proof fn lemma_filter_shorter(queue: Seq<QueueItem>, keep: spec_fn(QueueItem) -> bool, k: int)
    requires
        0 <= k < queue.len(),
        !keep(queue[k]),
    ensures
        queue.filter(keep).len() < queue.len(),
    decreases queue.len(),
{
    reveal(Seq::filter);
    let front = queue.drop_last();
    if k < queue.len() - 1 {
        assert(front[k] == queue[k]);
        lemma_filter_shorter(front, keep, k);
    } else {
        front.lemma_filter_len(keep);
    }
}

/// An envelope of a selected message shortens the queue.
proof fn lemma_queue_shrinks(l: Ledger, cutoff: u64, id: ContentId)
    requires
        all_selected(l.hs, l.gs, l.queue, cutoff).contains(id),
        has_row(l.queue, id),
    ensures
        swept(l, cutoff).queue.len() < l.queue.len(),
{
    let k = choose|k: int| 0 <= k < l.queue.len() && carried(#[trigger] l.queue[k]) == Some(id);
    lemma_row_goes(l, cutoff, k);
}

/// An envelope that is swept shortens the queue.
proof fn lemma_row_goes(l: Ledger, cutoff: u64, k: int)
    requires
        0 <= k < l.queue.len(),
        sweeps(all_selected(l.hs, l.gs, l.queue, cutoff), cutoff, l.queue[k]),
    ensures
        swept(l, cutoff).queue.len() < l.queue.len(),
{
    let ids = all_selected(l.hs, l.gs, l.queue, cutoff);
    let hit = |item: QueueItem| sweeps(ids, cutoff, item);
    let gone = swept_rows(ids, l.queue, cutoff);
    l.queue.lemma_filter_contains(hit, k);
    crate::seqs::lemma_filter_kept(l.queue, hit);
    let hits = l.queue.filter(hit);
    assert(hits.len() > 0);
    assert(deletions(l.queue, hit)[0] == deletion(hits[0]));
    assert(gone[0] == deletion(hits[0]));
    assert(l.queue.contains(hits[0]));
    let j = choose|j: int| 0 <= j < l.queue.len() && l.queue[j] == hits[0];
    let keep = |item: QueueItem| !gone.contains(deletion(item));
    assert(!keep(l.queue[j]));
    lemma_filter_shorter(l.queue, keep, j);
}

proof fn lemma_queue_kept(l: Ledger, cutoff: u64)
    ensures
        swept(l, cutoff).queue.len() <= l.queue.len(),
        forall|id: ContentId| #[trigger]
            has_row(swept(l, cutoff).queue, id) ==> has_row(l.queue, id),
        forall|k: int|
            0 <= k < swept(l, cutoff).queue.len() ==> l.queue.contains(
                #[trigger] swept(l, cutoff).queue[k],
            ),
{
    let gone = swept_rows(all_selected(l.hs, l.gs, l.queue, cutoff), l.queue, cutoff);
    let keep = |item: QueueItem| !gone.contains(deletion(item));
    crate::seqs::lemma_filter_kept(l.queue, keep);
    let rest = swept(l, cutoff).queue;
    assert forall|id: ContentId| #[trigger] has_row(rest, id) implies has_row(l.queue, id) by {
        let k = choose|k: int| 0 <= k < rest.len() && carried(#[trigger] rest[k]) == Some(id);
        assert(l.queue.contains(rest[k]));
        let j = choose|j: int| 0 <= j < l.queue.len() && l.queue[j] == rest[k];
        assert(carried(l.queue[j]) == Some(id));
    }
}

/// Selected identities stay selected.
proof fn lemma_selected_grows(l: Ledger, cutoff: u64, a: int, b: int, id: ContentId)
    requires
        0 <= a <= b <= l.hs.len(),
        selected(l.hs, l.queue, cutoff, a).contains(id),
    ensures
        selected(l.hs, l.queue, cutoff, b).contains(id),
    decreases b - a,
{
    if a < b {
        lemma_selected_grows(l, cutoff, a, b - 1, id);
        let prior = selected(l.hs, l.queue, cutoff, b - 1);
        lemma_with_id(prior, l.hs[b - 1].message.id, id);
    }
}

proof fn lemma_groups_grow(
    base: Seq<ContentId>,
    l: Ledger,
    cutoff: u64,
    a: int,
    b: int,
    id: ContentId,
)
    requires
        0 <= a <= b <= l.gs.len(),
        selected_groups(base, l.gs, l.queue, cutoff, a).contains(id),
    ensures
        selected_groups(base, l.gs, l.queue, cutoff, b).contains(id),
    decreases b - a,
{
    if a < b {
        lemma_groups_grow(base, l, cutoff, a, b - 1, id);
        let prior = selected_groups(base, l.gs, l.queue, cutoff, b - 1);
        lemma_with_id(prior, l.gs[b - 1].id, id);
    }
}

proof fn lemma_with_id(ids: Seq<ContentId>, new: ContentId, id: ContentId)
    ensures
        ids.contains(id) ==> with_id(ids, new).contains(id),
        with_id(ids, new).contains(new),
{
    if ids.contains(id) {
        let k = choose|k: int| 0 <= k < ids.len() && ids[k] == id;
        assert(ids.push(new)[k] == id);
    }
    assert(ids.push(new)[ids.len() as int] == new);
}

/// Before the first due message nothing is selected.
proof fn lemma_none_selected(l: Ledger, cutoff: u64, n: int)
    requires
        0 <= n <= l.hs.len(),
        forall|i: int| 0 <= i < n ==> !is_due(#[trigger] l.hs[i], l.queue, cutoff),
    ensures
        selected(l.hs, l.queue, cutoff, n).len() == 0,
    decreases n,
{
    if n > 0 {
        lemma_none_selected(l, cutoff, n - 1);
        assert(!is_due(l.hs[n - 1], l.queue, cutoff));
    }
}

proof fn lemma_no_group_selected(base: Seq<ContentId>, l: Ledger, cutoff: u64, n: int)
    requires
        0 <= n <= l.gs.len(),
        forall|i: int| 0 <= i < n ==> !is_group_due(#[trigger] l.gs[i], l.queue, cutoff),
    ensures
        selected_groups(base, l.gs, l.queue, cutoff, n) == base,
    decreases n,
{
    if n > 0 {
        lemma_no_group_selected(base, l, cutoff, n - 1);
        assert(!is_group_due(l.gs[n - 1], l.queue, cutoff));
    }
}

/// The first message from `i` back that is due.
proof fn lemma_first_due(l: Ledger, cutoff: u64, i: int) -> (first: int)
    requires
        0 <= i < l.hs.len(),
        is_due(l.hs[i], l.queue, cutoff),
    ensures
        0 <= first <= i,
        is_due(l.hs[first], l.queue, cutoff),
        forall|k: int| 0 <= k < first ==> !is_due(#[trigger] l.hs[k], l.queue, cutoff),
    decreases i,
{
    if exists|k: int| 0 <= k < i && is_due(#[trigger] l.hs[k], l.queue, cutoff) {
        let k = choose|k: int| 0 <= k < i && is_due(#[trigger] l.hs[k], l.queue, cutoff);
        lemma_first_due(l, cutoff, k)
    } else {
        i
    }
}

proof fn lemma_first_group_due(l: Ledger, cutoff: u64, i: int) -> (first: int)
    requires
        0 <= i < l.gs.len(),
        is_group_due(l.gs[i], l.queue, cutoff),
    ensures
        0 <= first <= i,
        is_group_due(l.gs[first], l.queue, cutoff),
        forall|k: int| 0 <= k < first ==> !is_group_due(#[trigger] l.gs[k], l.queue, cutoff),
    decreases i,
{
    if exists|k: int| 0 <= k < i && is_group_due(#[trigger] l.gs[k], l.queue, cutoff) {
        let k = choose|k: int| 0 <= k < i && is_group_due(#[trigger] l.gs[k], l.queue, cutoff);
        lemma_first_group_due(l, cutoff, k)
    } else {
        i
    }
}

/// A sweep retires something whenever something is due: however many settled messages come
/// before, overdue work is reached.
pub proof fn law_each_sweep_makes_progress(l: Ledger, cutoff: u64)
    ensures
        work_left(swept(l, cutoff)) <= work_left(l),
        !is_clear(l, cutoff) ==> work_left(swept(l, cutoff)) < work_left(l),
{
    let n = l.hs.len() as int;
    let m = l.gs.len() as int;
    let base = selected(l.hs, l.queue, cutoff, n);
    lemma_total_weight(l, cutoff, n);
    lemma_total_group_weight(l, cutoff, m);
    lemma_queue_kept(l, cutoff);
    if !is_clear(l, cutoff) {
        if exists|k: int|
            0 <= k < l.queue.len() && is_stale_control(#[trigger] l.queue[k], cutoff) {
            let k = choose|k: int|
                0 <= k < l.queue.len() && is_stale_control(#[trigger] l.queue[k], cutoff);
            lemma_row_goes(l, cutoff, k);
        } else if exists|i: int| 0 <= i < n && is_due(#[trigger] l.hs[i], l.queue, cutoff) {
            let i = choose|i: int| 0 <= i < n && is_due(#[trigger] l.hs[i], l.queue, cutoff);
            let first = lemma_first_due(l, cutoff, i);
            lemma_none_selected(l, cutoff, first);
            assert(picks(l.hs, l.queue, cutoff, first));
            lemma_weight(l.hs[first]);
            if weight(l.hs[first]) == 0 {
                let id = l.hs[first].message.id;
                lemma_with_id(selected(l.hs, l.queue, cutoff, first), id, id);
                lemma_selected_grows(l, cutoff, first + 1, n, id);
                lemma_groups_grow(base, l, cutoff, 0, m, id);
                lemma_queue_shrinks(l, cutoff, id);
            }
        } else {
            let i = choose|i: int| 0 <= i < m && is_group_due(#[trigger] l.gs[i], l.queue, cutoff);
            let first = lemma_first_group_due(l, cutoff, i);
            lemma_none_selected(l, cutoff, n);
            lemma_no_group_selected(base, l, cutoff, first);
            assert(picks_group(base, l.gs, l.queue, cutoff, first));
            lemma_group_weight(l.gs[first]);
            if group_weight(l.gs[first]) == 0 {
                let id = l.gs[first].id;
                lemma_with_id(selected_groups(base, l.gs, l.queue, cutoff, first), id, id);
                lemma_groups_grow(base, l, cutoff, first + 1, m, id);
                lemma_queue_shrinks(l, cutoff, id);
            }
        }
    }
}

/// What is clear stays clear.
proof fn lemma_stays_clear(l: Ledger, cutoff: u64, later: u64)
    requires
        is_clear(l, cutoff),
    ensures
        is_clear(swept(l, later), cutoff),
{
    let s = swept(l, later);
    lemma_queue_kept(l, later);
    assert forall|k: int| 0 <= k < s.queue.len() implies !is_stale_control(
        #[trigger] s.queue[k],
        cutoff,
    ) by {
        assert(l.queue.contains(s.queue[k]));
        let j = choose|j: int| 0 <= j < l.queue.len() && l.queue[j] == s.queue[k];
        assert(!is_stale_control(l.queue[j], cutoff));
    }
    assert forall|i: int| 0 <= i < s.hs.len() implies !is_due(
        #[trigger] s.hs[i],
        s.queue,
        cutoff,
    ) by {
        assert(!is_due(l.hs[i], l.queue, cutoff));
        lemma_retired(l.hs[i]);
        lemma_weight(retired(l.hs[i]));
    }
    assert forall|i: int| 0 <= i < s.gs.len() implies !is_group_due(
        #[trigger] s.gs[i],
        s.queue,
        cutoff,
    ) by {
        assert(!is_group_due(l.gs[i], l.queue, cutoff));
        lemma_retired_group(l.gs[i]);
        lemma_group_weight(retired_group(l.gs[i]));
    }
}

proof fn lemma_clears(l: Ledger, cutoff: u64, cutoffs: Seq<u64>, n: int)
    requires
        0 <= n <= cutoffs.len(),
        forall|k: int| 0 <= k < cutoffs.len() ==> #[trigger] cutoffs[k] >= cutoff,
    ensures
        is_clear(after_sweeps(l, cutoffs, n), cutoff) || work_left(after_sweeps(l, cutoffs, n)) + n
            <= work_left(l),
    decreases n,
{
    if n > 0 {
        lemma_clears(l, cutoff, cutoffs, n - 1);
        let prior = after_sweeps(l, cutoffs, n - 1);
        let at = cutoffs[n - 1];
        if is_clear(prior, cutoff) {
            lemma_stays_clear(prior, cutoff, at);
        } else {
            if is_clear(prior, at) {
                assert forall|k: int| 0 <= k < prior.queue.len() implies !is_stale_control(
                    #[trigger] prior.queue[k],
                    cutoff,
                ) by {
                    assert(!is_stale_control(prior.queue[k], at));
                }
                assert forall|i: int| 0 <= i < prior.hs.len() implies !is_due(
                    #[trigger] prior.hs[i],
                    prior.queue,
                    cutoff,
                ) by {
                    assert(!is_due(prior.hs[i], prior.queue, at));
                }
                assert forall|i: int| 0 <= i < prior.gs.len() implies !is_group_due(
                    #[trigger] prior.gs[i],
                    prior.queue,
                    cutoff,
                ) by {
                    assert(!is_group_due(prior.gs[i], prior.queue, at));
                }
                assert(is_clear(prior, cutoff));
            }
            law_each_sweep_makes_progress(prior, at);
        }
    }
}

proof fn lemma_message_kept(l: Ledger, cutoffs: Seq<u64>, n: int, i: int)
    requires
        0 <= n <= cutoffs.len(),
        0 <= i < l.hs.len(),
    ensures
        ({
            let now = after_sweeps(l, cutoffs, n);
            &&& now.hs.len() == l.hs.len()
            &&& now.hs[i].message == l.hs[i].message || (gives_up(l.hs[i]) && now.hs[i].message
                == (MessageRow { state: DeliveryState::Failed, ..l.hs[i].message }))
            &&& any_in(now.hs[i].copies, DeliveryState::Delivered) == any_in(
                l.hs[i].copies,
                DeliveryState::Delivered,
            )
        }),
    decreases n,
{
    if n > 0 {
        lemma_message_kept(l, cutoffs, n - 1, i);
        lemma_retired(after_sweeps(l, cutoffs, n - 1).hs[i]);
    }
}

/// Work that is overdue is retired after finitely many sweeps, whenever they run: then no
/// envelope of an overdue message is queued, all of its copies are settled, and the message
/// itself has failed unless it was settled or had arrived before.
pub proof fn law_overdue_work_is_retired(l: Ledger, cutoff: u64, cutoffs: Seq<u64>)
    requires
        forall|k: int| 0 <= k < cutoffs.len() ==> #[trigger] cutoffs[k] >= cutoff,
        cutoffs.len() > work_left(l),
    ensures
        ({
            let end = after_sweeps(l, cutoffs, cutoffs.len() as int);
            &&& is_clear(end, cutoff)
            &&& end.hs.len() == l.hs.len()
            &&& forall|i: int|
                #![trigger l.hs[i]]
                0 <= i < l.hs.len() && is_overdue(
                    l.hs[i].message.direction,
                    l.hs[i].message.timestamp,
                    cutoff,
                ) ==> {
                    &&& !has_row(end.queue, l.hs[i].message.id)
                    &&& !any_open(end.hs[i].copies)
                    &&& end.hs[i].message == if gives_up(l.hs[i]) {
                        MessageRow { state: DeliveryState::Failed, ..l.hs[i].message }
                    } else {
                        l.hs[i].message
                    }
                }
        }),
{
    let n = cutoffs.len() as int;
    let end = after_sweeps(l, cutoffs, n);
    lemma_clears(l, cutoff, cutoffs, n);
    lemma_lengths(l, cutoffs, n);
    assert forall|i: int|
        #![trigger l.hs[i]]
        0 <= i < l.hs.len() && is_overdue(
            l.hs[i].message.direction,
            l.hs[i].message.timestamp,
            cutoff,
        ) implies {
        &&& !has_row(end.queue, l.hs[i].message.id)
        &&& !any_open(end.hs[i].copies)
        &&& end.hs[i].message == if gives_up(l.hs[i]) {
            MessageRow { state: DeliveryState::Failed, ..l.hs[i].message }
        } else {
            l.hs[i].message
        }
    } by {
        lemma_message_kept(l, cutoffs, n, i);
        assert(!is_due(end.hs[i], end.queue, cutoff));
    }
}

proof fn lemma_member_kept(l: Ledger, cutoffs: Seq<u64>, n: int, i: int, j: int)
    requires
        0 <= n <= cutoffs.len(),
        0 <= i < l.gs.len(),
        0 <= j < l.gs[i].members.len(),
    ensures
        ({
            let now = after_sweeps(l, cutoffs, n);
            &&& now.gs.len() == l.gs.len()
            &&& now.gs[i].id == l.gs[i].id
            &&& now.gs[i].direction == l.gs[i].direction
            &&& now.gs[i].timestamp == l.gs[i].timestamp
            &&& now.gs[i].members.len() == l.gs[i].members.len()
            &&& now.gs[i].members[j] == l.gs[i].members[j] || now.gs[i].members[j]
                == retired_member(l.gs[i].members[j])
        }),
    decreases n,
{
    if n > 0 {
        lemma_member_kept(l, cutoffs, n - 1, i, j);
    }
}

/// Group work that is overdue is retired after finitely many sweeps, whenever they run: then no
/// envelope of an overdue group message is queued, all of its copies are settled, and every
/// member that it had not reached has failed.
pub proof fn law_overdue_group_work_is_retired(
    l: Ledger,
    cutoff: u64,
    cutoffs: Seq<u64>,
    i: int,
    j: int,
)
    requires
        forall|k: int| 0 <= k < cutoffs.len() ==> #[trigger] cutoffs[k] >= cutoff,
        cutoffs.len() > work_left(l),
        0 <= i < l.gs.len(),
        0 <= j < l.gs[i].members.len(),
        is_overdue(l.gs[i].direction, l.gs[i].timestamp, cutoff),
    ensures
        ({
            let end = after_sweeps(l, cutoffs, cutoffs.len() as int);
            &&& end.gs.len() == l.gs.len()
            &&& !has_row(end.queue, l.gs[i].id)
            &&& !any_open(end.gs[i].copies)
            &&& end.gs[i].members.len() == l.gs[i].members.len()
            &&& end.gs[i].members[j] == retired_member(l.gs[i].members[j])
        }),
{
    let n = cutoffs.len() as int;
    let end = after_sweeps(l, cutoffs, n);
    lemma_clears(l, cutoff, cutoffs, n);
    lemma_member_kept(l, cutoffs, n, i, j);
    assert(!is_group_due(end.gs[i], end.queue, cutoff));
    assert(is_settled(end.gs[i].members[j].state));
}

proof fn lemma_lengths(l: Ledger, cutoffs: Seq<u64>, n: int)
    ensures
        after_sweeps(l, cutoffs, n).hs.len() == l.hs.len(),
    decreases n,
{
    if n > 0 {
        lemma_lengths(l, cutoffs, n - 1);
    }
}

// ---- Laws of single sweeps ----

/// A message is overdue thirty days after it was sent; one that was received never is.
pub proof fn law_thirty_days(direction: Direction, timestamp: u64, now: u64)
    requires
        now >= 2_592_000,
    ensures
        is_overdue(Direction::Outbound, timestamp, cutoff_at(now)) <==> timestamp + 2_592_000
            <= now,
        direction != Direction::Outbound ==> !is_overdue(direction, timestamp, cutoff_at(now)),
{
}

/// A message is given up unless it or one of its copies has arrived, or it was given up
/// before.
pub proof fn law_messages_given_up(w: MessageWork, i: int)
    requires
        0 <= i < w.copies.len(),
    ensures
        w.copies[i].state == DeliveryState::Delivered ==> !gives_up(w),
        w.message.state == DeliveryState::Delivered || w.message.state == DeliveryState::Failed
            ==> !gives_up(w),
        (w.message.state == DeliveryState::Queued || w.message.state == DeliveryState::Sent) && (
        forall|k: int|
            0 <= k < w.copies.len() ==> (#[trigger] w.copies[k]).state
                != DeliveryState::Delivered) ==> gives_up(w),
{
}

/// The first overdue messages are dealt with: one of the first eight always is.
pub proof fn law_due_messages_are_picked(
    hs: Seq<MessageWork>,
    queue: Seq<QueueItem>,
    cutoff: u64,
    i: int,
)
    requires
        0 <= i < hs.len(),
        i < 8,
        is_due(hs[i], queue, cutoff),
    ensures
        picks(hs, queue, cutoff, i),
{
    lemma_selected_len(hs, queue, cutoff, i);
}

proof fn lemma_selected_len(hs: Seq<MessageWork>, queue: Seq<QueueItem>, cutoff: u64, n: int)
    requires
        0 <= n <= hs.len(),
    ensures
        selected(hs, queue, cutoff, n).len() <= n,
    decreases n,
{
    if n > 0 {
        lemma_selected_len(hs, queue, cutoff, n - 1);
    }
}

/// What makes an overdue message due: it is to be given up, a copy of it is still open, or an
/// envelope of it still waits.
pub proof fn law_due_messages(
    w: MessageWork,
    queue: Seq<QueueItem>,
    cutoff: u64,
    i: int,
    k: int,
)
    requires
        w.message.direction == Direction::Outbound,
        w.message.timestamp <= cutoff,
    ensures
        gives_up(w) ==> is_due(w, queue, cutoff),
        0 <= i < w.copies.len() && (w.copies[i].state == DeliveryState::Queued
            || w.copies[i].state == DeliveryState::Sent) ==> is_due(w, queue, cutoff),
        0 <= k < queue.len() && queue[k].msg_id == Some(w.message.id) ==> is_due(w, queue, cutoff),
{
    if 0 <= k < queue.len() && queue[k].msg_id == Some(w.message.id) {
        assert(carried(queue[k]) == Some(w.message.id));
    }
}

/// Every message that is dealt with and given up is written as failed, and every open copy
/// of it with it.
pub proof fn law_given_up_messages_fail(
    hs: Seq<MessageWork>,
    queue: Seq<QueueItem>,
    cutoff: u64,
    n: int,
    i: int,
    j: int,
)
    requires
        0 <= i < n <= hs.len(),
        picks(hs, queue, cutoff, i),
    ensures
        gives_up(hs[i]) ==> expired_messages(hs, queue, cutoff, n).contains(
            (hs[i].message, MessageRow { state: DeliveryState::Failed, ..hs[i].message }),
        ),
        0 <= j < hs[i].copies.len() && (hs[i].copies[j].state == DeliveryState::Queued
            || hs[i].copies[j].state == DeliveryState::Sent) ==> expired_rows(
            hs,
            queue,
            cutoff,
            n,
        ).contains(
            (
                hs[i].copies[j],
                DeliveryRow { state: DeliveryState::Failed, ..hs[i].copies[j] },
            ),
        ),
    decreases n,
{
    let w = hs[i];
    let change = (w.message, MessageRow { state: DeliveryState::Failed, ..w.message });
    let messages = expired_messages(hs, queue, cutoff, n);
    let rows = expired_rows(hs, queue, cutoff, n);
    let d = w.copies[j];
    let row = (d, DeliveryRow { state: DeliveryState::Failed, ..d });
    let open = 0 <= j < w.copies.len() && (d.state == DeliveryState::Queued || d.state
        == DeliveryState::Sent);
    let prior = expired_rows(hs, queue, cutoff, n - 1);
    if i < n - 1 {
        law_given_up_messages_fail(hs, queue, cutoff, n - 1, i, j);
        if gives_up(w) {
            let before = expired_messages(hs, queue, cutoff, n - 1);
            let k = choose|k: int| 0 <= k < before.len() && before[k] == change;
            assert(messages[k] == change);
        }
        if open {
            let k = choose|k: int| 0 <= k < prior.len() && prior[k] == row;
            assert(rows[k] == row);
        }
    } else {
        if gives_up(w) {
            assert(messages.last() == change);
        }
        if open {
            crate::delivery::law_changed_copies_are_reported(
                DeliveryRule::Expire,
                Seq::empty(),
                w.copies,
                w.copies.len() as int,
            );
            let more = transitions(
                DeliveryRule::Expire,
                Seq::empty(),
                w.copies,
                w.copies.len() as int,
            );
            assert(crate::delivery::ruled(DeliveryRule::Expire, Seq::empty(), w.copies[j]) == row.1);
            assert(row.1 != row.0);
            assert(more.contains(row));
            let k = choose|k: int| 0 <= k < more.len() && more[k] == row;
            assert(rows[prior.len() + k] == row);
        }
    }
}

/// Every open member of an overdue group message that is dealt with is written as failed
/// under its position.
pub proof fn law_open_members_fail(g: GroupWork, n: int, j: int)
    requires
        0 <= j < n <= g.members.len() <= usize::MAX,
    ensures
        g.members[j].state == DeliveryState::Queued || g.members[j].state == DeliveryState::Sent
            ==> expired_entries(g, n).contains(
            MemberChange {
                message: g.id,
                member: j as usize,
                after: MemberDelivery { state: DeliveryState::Failed, ..g.members[j] },
            },
        ),
        forall|k: int|
            0 <= k < expired_entries(g, n).len() ==> {
                let change = #[trigger] expired_entries(g, n)[k];
                &&& change.message == g.id
                &&& change.member < n
                &&& change.after.state == DeliveryState::Failed
                &&& !is_settled(g.members[change.member as int].state)
            },
    decreases n,
{
    let all = expired_entries(g, n);
    let change = MemberChange {
        message: g.id,
        member: j as usize,
        after: MemberDelivery { state: DeliveryState::Failed, ..g.members[j] },
    };
    let open = g.members[j].state == DeliveryState::Queued || g.members[j].state
        == DeliveryState::Sent;
    let prior = expired_entries(g, n - 1);
    if n > 1 {
        law_open_members_fail(
            g,
            n - 1,
            if j < n - 1 {
                j
            } else {
                0
            },
        );
    }
    if j < n - 1 {
        if open {
            let k = choose|k: int| 0 <= k < prior.len() && prior[k] == change;
            assert(all[k] == change);
        }
    } else if open {
        assert(all.last() == change);
    }
}

/// An envelope is swept with its message; one that carries no message is swept once it is
/// overdue itself.
pub proof fn law_swept_envelopes(ids: Seq<ContentId>, cutoff: u64, item: QueueItem)
    ensures
        item.msg_id is Some ==> sweeps(ids, cutoff, item) == ids.contains(item.msg_id->0),
        item.msg_id is None && item.group_msg_id is Some ==> sweeps(ids, cutoff, item)
            == ids.contains(item.group_msg_id->0),
        item.msg_id is None && item.group_msg_id is None ==> sweeps(ids, cutoff, item) == (0
            < item.created_at <= cutoff),
{
}

/// A group message is due like any other: when a member or a copy is still open, or an
/// envelope of it still waits, after thirty days and only if it is one's own.
pub proof fn law_due_group_messages(
    g: GroupWork,
    queue: Seq<QueueItem>,
    cutoff: u64,
    i: int,
    k: int,
)
    ensures
        g.direction != Direction::Outbound || g.timestamp > cutoff ==> !is_group_due(
            g,
            queue,
            cutoff,
        ),
        g.direction == Direction::Outbound && g.timestamp <= cutoff ==> {
            &&& 0 <= i < g.members.len() && (g.members[i].state == DeliveryState::Queued
                || g.members[i].state == DeliveryState::Sent) ==> is_group_due(g, queue, cutoff)
            &&& 0 <= i < g.copies.len() && (g.copies[i].state == DeliveryState::Queued
                || g.copies[i].state == DeliveryState::Sent) ==> is_group_due(g, queue, cutoff)
            &&& 0 <= k < queue.len() && queue[k].msg_id is None && queue[k].group_msg_id == Some(
                g.id,
            ) ==> is_group_due(g, queue, cutoff)
        },
{
    if 0 <= k < queue.len() && queue[k].msg_id is None && queue[k].group_msg_id == Some(g.id) {
        assert(carried(queue[k]) == Some(g.id));
    }
}

/// Every open copy and every open member of a group message that is dealt with is written as
/// failed.
pub proof fn law_given_up_group_messages_fail(
    base: Seq<ContentId>,
    gs: Seq<GroupWork>,
    queue: Seq<QueueItem>,
    cutoff: u64,
    n: int,
    i: int,
    j: int,
)
    requires
        0 <= i < n <= gs.len(),
        picks_group(base, gs, queue, cutoff, i),
        gs[i].members.len() <= usize::MAX,
    ensures
        0 <= j < gs[i].copies.len() && (gs[i].copies[j].state == DeliveryState::Queued
            || gs[i].copies[j].state == DeliveryState::Sent) ==> expired_group_rows(
            base,
            gs,
            queue,
            cutoff,
            n,
        ).contains(
            (
                gs[i].copies[j],
                DeliveryRow { state: DeliveryState::Failed, ..gs[i].copies[j] },
            ),
        ),
        0 <= j < gs[i].members.len() && (gs[i].members[j].state == DeliveryState::Queued
            || gs[i].members[j].state == DeliveryState::Sent) ==> expired_entries_all(
            base,
            gs,
            queue,
            cutoff,
            n,
        ).contains(
            MemberChange {
                message: gs[i].id,
                member: j as usize,
                after: MemberDelivery { state: DeliveryState::Failed, ..gs[i].members[j] },
            },
        ),
    decreases n,
{
    let g = gs[i];
    let rows = expired_group_rows(base, gs, queue, cutoff, n);
    let prior = expired_group_rows(base, gs, queue, cutoff, n - 1);
    let d = g.copies[j];
    let row = (d, DeliveryRow { state: DeliveryState::Failed, ..d });
    let open = 0 <= j < g.copies.len() && (d.state == DeliveryState::Queued || d.state
        == DeliveryState::Sent);
    let entries = expired_entries_all(base, gs, queue, cutoff, n);
    let before = expired_entries_all(base, gs, queue, cutoff, n - 1);
    let change = MemberChange {
        message: g.id,
        member: j as usize,
        after: MemberDelivery { state: DeliveryState::Failed, ..g.members[j] },
    };
    let waits = 0 <= j < g.members.len() && (g.members[j].state == DeliveryState::Queued
        || g.members[j].state == DeliveryState::Sent);
    if i < n - 1 {
        law_given_up_group_messages_fail(base, gs, queue, cutoff, n - 1, i, j);
        if open {
            let k = choose|k: int| 0 <= k < prior.len() && prior[k] == row;
            assert(rows[k] == row);
        }
        if waits {
            let k = choose|k: int| 0 <= k < before.len() && before[k] == change;
            assert(entries[k] == change);
        }
    } else {
        if open {
            crate::delivery::law_changed_copies_are_reported(
                DeliveryRule::Expire,
                Seq::empty(),
                g.copies,
                g.copies.len() as int,
            );
            let more = transitions(
                DeliveryRule::Expire,
                Seq::empty(),
                g.copies,
                g.copies.len() as int,
            );
            assert(crate::delivery::ruled(DeliveryRule::Expire, Seq::empty(), g.copies[j]) == row.1);
            assert(row.1 != row.0);
            assert(more.contains(row));
            let k = choose|k: int| 0 <= k < more.len() && more[k] == row;
            assert(rows[prior.len() + k] == row);
        }
        if waits {
            law_open_members_fail(g, g.members.len() as int, j);
            let more = expired_entries(g, g.members.len() as int);
            let k = choose|k: int| 0 <= k < more.len() && more[k] == change;
            assert(entries[before.len() + k] == change);
        }
    }
}

/// Everything that failed is told: each message under its own identity and each member under
/// its account.
pub proof fn law_failures_are_told(
    messages: Seq<(MessageRow, MessageRow)>,
    members: Seq<MemberChange>,
    i: int,
    j: int,
)
    ensures
        expiry_events(messages, members).len() == messages.len() + members.len(),
        0 <= i < messages.len() ==> expiry_events(messages, members)[i] == (
        Event::DeliveryUpdated { id: messages[i].1.id, state: messages[i].1.state }),
        0 <= j < members.len() ==> expiry_events(messages, members)[messages.len() + j] == (
        Event::GroupDeliveryUpdated {
            id: members[j].message,
            peer: members[j].after.peer,
            state: members[j].after.state,
        }),
{
}

/// Envelopes are swept in order, up to the allowance of a tick.
pub proof fn law_swept_envelopes_in_order(
    ids: Seq<ContentId>,
    queue: Seq<QueueItem>,
    cutoff: u64,
    i: int,
)
    requires
        0 <= i < queue.len(),
        sweeps(ids, cutoff, queue[i]),
    ensures
        swept_rows(ids, queue, cutoff).len() <= 32,
        swept_rows(ids, queue, cutoff).len() < 32 ==> swept_rows(ids, queue, cutoff).contains(
            QueueDelete { sequence: queue[i].sequence, content_id: queue[i].content_id },
        ),
{
    let gone = |item: QueueItem| sweeps(ids, cutoff, item);
    crate::settlement::law_deletions_name_their_envelopes(queue, gone, i);
    assert(gone(queue[i]));
}

/// What is dealt with is noted, so that its envelopes are swept with it.
pub proof fn law_picked_messages_are_noted(
    hs: Seq<MessageWork>,
    gs: Seq<GroupWork>,
    queue: Seq<QueueItem>,
    cutoff: u64,
    i: int,
)
    ensures
        0 <= i < hs.len() && picks(hs, queue, cutoff, i) ==> all_selected(
            hs,
            gs,
            queue,
            cutoff,
        ).contains(hs[i].message.id),
        0 <= i < gs.len() && picks_group(
            selected(hs, queue, cutoff, hs.len() as int),
            gs,
            queue,
            cutoff,
            i,
        ) ==> all_selected(hs, gs, queue, cutoff).contains(gs[i].id),
{
    let base = selected(hs, queue, cutoff, hs.len() as int);
    if 0 <= i < hs.len() && picks(hs, queue, cutoff, i) {
        lemma_noted(hs, queue, cutoff, hs.len() as int, i);
        lemma_base_noted(base, gs, queue, cutoff, gs.len() as int, hs[i].message.id);
    }
    if 0 <= i < gs.len() && picks_group(base, gs, queue, cutoff, i) {
        lemma_group_noted(base, gs, queue, cutoff, gs.len() as int, i);
    }
}

proof fn lemma_noted(hs: Seq<MessageWork>, queue: Seq<QueueItem>, cutoff: u64, n: int, i: int)
    requires
        0 <= i < n <= hs.len(),
        picks(hs, queue, cutoff, i),
    ensures
        selected(hs, queue, cutoff, n).contains(hs[i].message.id),
    decreases n,
{
    let prior = selected(hs, queue, cutoff, n - 1);
    lemma_with_id(prior, hs[n - 1].message.id, hs[i].message.id);
    if i < n - 1 {
        lemma_noted(hs, queue, cutoff, n - 1, i);
    }
}

proof fn lemma_base_noted(
    base: Seq<ContentId>,
    gs: Seq<GroupWork>,
    queue: Seq<QueueItem>,
    cutoff: u64,
    n: int,
    id: ContentId,
)
    requires
        0 <= n <= gs.len(),
        base.contains(id),
    ensures
        selected_groups(base, gs, queue, cutoff, n).contains(id),
    decreases n,
{
    if n > 0 {
        lemma_base_noted(base, gs, queue, cutoff, n - 1, id);
        lemma_with_id(selected_groups(base, gs, queue, cutoff, n - 1), gs[n - 1].id, id);
    }
}

proof fn lemma_group_noted(
    base: Seq<ContentId>,
    gs: Seq<GroupWork>,
    queue: Seq<QueueItem>,
    cutoff: u64,
    n: int,
    i: int,
)
    requires
        0 <= i < n <= gs.len(),
        picks_group(base, gs, queue, cutoff, i),
    ensures
        selected_groups(base, gs, queue, cutoff, n).contains(gs[i].id),
    decreases n,
{
    let prior = selected_groups(base, gs, queue, cutoff, n - 1);
    lemma_with_id(prior, gs[n - 1].id, gs[i].id);
    if i < n - 1 {
        lemma_group_noted(base, gs, queue, cutoff, n - 1, i);
    }
}

/// Only copies of messages that are dealt with are written.
pub proof fn law_only_picked_messages_lose_copies(
    hs: Seq<MessageWork>,
    queue: Seq<QueueItem>,
    cutoff: u64,
    n: int,
)
    requires
        0 <= n < hs.len(),
    ensures
        !picks(hs, queue, cutoff, n) ==> expired_rows(hs, queue, cutoff, n + 1) == expired_rows(
            hs,
            queue,
            cutoff,
            n,
        ) && expired_messages(hs, queue, cutoff, n + 1) == expired_messages(hs, queue, cutoff, n),
        !gives_up(hs[n]) ==> expired_messages(hs, queue, cutoff, n + 1) == expired_messages(
            hs,
            queue,
            cutoff,
            n,
        ),
        picks(hs, queue, cutoff, n) ==> expired_rows(hs, queue, cutoff, n + 1).len()
            <= expired_rows(hs, queue, cutoff, n).len() + hs[n].copies.len(),
{
    crate::delivery::law_changed_copies_are_reported(
        DeliveryRule::Expire,
        Seq::empty(),
        hs[n].copies,
        hs[n].copies.len() as int,
    );
}

/// A group message that is not dealt with keeps its copies and its members.
pub proof fn law_only_picked_groups_lose_copies(
    base: Seq<ContentId>,
    gs: Seq<GroupWork>,
    queue: Seq<QueueItem>,
    cutoff: u64,
    n: int,
)
    requires
        0 <= n < gs.len(),
        !is_group_due(gs[n], queue, cutoff),
    ensures
        expired_group_rows(base, gs, queue, cutoff, n + 1) == expired_group_rows(
            base,
            gs,
            queue,
            cutoff,
            n,
        ),
        expired_entries_all(base, gs, queue, cutoff, n + 1) == expired_entries_all(
            base,
            gs,
            queue,
            cutoff,
            n,
        ),
        selected_groups(base, gs, queue, cutoff, n + 1) == selected_groups(
            base,
            gs,
            queue,
            cutoff,
            n,
        ),
{
}

} // verus!
