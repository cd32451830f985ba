//! What an end-to-end receipt and a carrier's acceptance do to the history.

use vstd::prelude::*;

use crate::bytes::{same, ContentId, Id};
use crate::delivery::{
    apply_rule_all, contains_ack, is_acked, transitions, wire_acked, DeliveryRule,
};
use crate::fragments::{FragmentCache, FragmentId, Retransmission};
use crate::records::{
    DeliveryRow, DeliveryState, Direction, Event, GroupHistory, History, MemberDelivery, MessageRow,
    QueueDelete, QueueItem,
};
use crate::settlement::{
    deletions, lemma_deletions_none, lemma_deletions_step, push_rows, MemberChange,
};

verus! {

/// A group control that waits for a member's receipt.
#[derive(Clone, Copy, Debug, PartialEq, Eq)]
pub struct PendingControl {
    /// Account of the member.
    pub peer: Id,
    /// Content identity of the envelope that carries it.
    pub wire_id: Option<ContentId>,
}

/// The copies of one message that a receipt delivers.
pub open spec fn acked_rows(device: Id, acks: Seq<ContentId>, h: History) -> Seq<
    (DeliveryRow, DeliveryRow),
> {
    transitions(
        DeliveryRule::Acknowledge { account: None, device },
        acks,
        h.deliveries@,
        h.deliveries@.len() as int,
    )
}

/// A receipt delivers an outbound message when it names a copy for the device or the
/// message's own envelope.
pub open spec fn acked_message(device: Id, acks: Seq<ContentId>, h: History) -> bool {
    &&& acked_rows(device, acks, h).len() > 0 || is_acked(acks, h.message.wire_id)
    &&& h.message.direction == Direction::Outbound
    &&& h.message.state != DeliveryState::Delivered
}

/// All copies of the first `n` messages that a receipt delivers.
pub open spec fn acked_rows_all(device: Id, acks: Seq<ContentId>, hs: Seq<History>, n: int) -> Seq<
    (DeliveryRow, DeliveryRow),
>
    decreases n,
{
    if n <= 0 {
        Seq::empty()
    } else {
        acked_rows_all(device, acks, hs, n - 1) + acked_rows(device, acks, hs[n - 1])
    }
}

/// The messages among the first `n` that a receipt delivers.
pub open spec fn acked_messages(device: Id, acks: Seq<ContentId>, hs: Seq<History>, n: int) -> Seq<
    (MessageRow, MessageRow),
>
    decreases n,
{
    if n <= 0 {
        Seq::empty()
    } else {
        let prior = acked_messages(device, acks, hs, n - 1);
        let m = hs[n - 1].message;
        if acked_message(device, acks, hs[n - 1]) {
            prior.push((m, MessageRow { state: DeliveryState::Delivered, ..m }))
        } else {
            prior
        }
    }
}

/// What is told about delivered messages.
pub open spec fn delivered_events(messages: Seq<(MessageRow, MessageRow)>) -> Seq<Event> {
    messages.map_values(
        |m: (MessageRow, MessageRow)| Event::DeliveryUpdated { id: m.1.id, state: m.1.state },
    )
}

/// The copies of one group message that a receipt delivers.
pub open spec fn acked_group_rows(
    peer: Id,
    device: Id,
    acks: Seq<ContentId>,
    g: GroupHistory,
) -> Seq<(DeliveryRow, DeliveryRow)> {
    transitions(
        DeliveryRule::Acknowledge { account: Some(peer), device },
        acks,
        g.deliveries@,
        g.deliveries@.len() as int,
    )
}

/// A receipt delivers a group message to a member when it names a copy for the device or
/// the member's own envelope.
pub open spec fn acked_member(
    peer: Id,
    copy_acked: bool,
    acks: Seq<ContentId>,
    m: MemberDelivery,
) -> bool {
    &&& m.peer == peer
    &&& m.state != DeliveryState::Delivered
    &&& copy_acked || is_acked(acks, m.wire_id)
}

/// The entries among the first `n` members that a receipt delivers.
pub open spec fn acked_members(
    peer: Id,
    copy_acked: bool,
    acks: Seq<ContentId>,
    g: GroupHistory,
    n: int,
) -> Seq<MemberChange>
    decreases n,
{
    if n <= 0 {
        Seq::empty()
    } else {
        let prior = acked_members(peer, copy_acked, acks, g, n - 1);
        let m = g.members@[n - 1];
        if acked_member(peer, copy_acked, acks, m) {
            prior.push(
                MemberChange {
                    message: g.id,
                    member: (n - 1) as usize,
                    after: MemberDelivery { state: DeliveryState::Delivered, ..m },
                },
            )
        } else {
            prior
        }
    }
}

/// The entries of one group message that a receipt delivers.
pub open spec fn acked_entries(
    peer: Id,
    device: Id,
    acks: Seq<ContentId>,
    g: GroupHistory,
) -> Seq<MemberChange> {
    acked_members(
        peer,
        acked_group_rows(peer, device, acks, g).len() > 0,
        acks,
        g,
        g.members@.len() as int,
    )
}

/// All copies of the first `n` group messages that a receipt delivers.
pub open spec fn acked_group_rows_all(
    peer: Id,
    device: Id,
    acks: Seq<ContentId>,
    gs: Seq<GroupHistory>,
    n: int,
) -> Seq<(DeliveryRow, DeliveryRow)>
    decreases n,
{
    if n <= 0 {
        Seq::empty()
    } else {
        acked_group_rows_all(peer, device, acks, gs, n - 1) + acked_group_rows(
            peer,
            device,
            acks,
            gs[n - 1],
        )
    }
}

/// All entries of the first `n` group messages that a receipt delivers.
pub open spec fn acked_entries_all(
    peer: Id,
    device: Id,
    acks: Seq<ContentId>,
    gs: Seq<GroupHistory>,
    n: int,
) -> Seq<MemberChange>
    decreases n,
{
    if n <= 0 {
        Seq::empty()
    } else {
        acked_entries_all(peer, device, acks, gs, n - 1) + acked_entries(
            peer,
            device,
            acks,
            gs[n - 1],
        )
    }
}

/// What is told about the first `n` group messages: once for each that has a delivered
/// entry.
pub open spec fn acked_group_events(
    peer: Id,
    device: Id,
    acks: Seq<ContentId>,
    gs: Seq<GroupHistory>,
    n: int,
) -> Seq<Event>
    decreases n,
{
    if n <= 0 {
        Seq::empty()
    } else {
        let prior = acked_group_events(peer, device, acks, gs, n - 1);
        if acked_entries(peer, device, acks, gs[n - 1]).len() > 0 {
            prior.push(
                Event::GroupDeliveryUpdated {
                    id: gs[n - 1].id,
                    peer,
                    state: DeliveryState::Delivered,
                },
            )
        } else {
            prior
        }
    }
}

/// A queued envelope for the device that the receipt names.
pub open spec fn acked_item(device: Id, acks: Seq<ContentId>, item: QueueItem) -> bool {
    item.peer == device && acks.contains(item.content_id)
}

/// The group controls that still wait after a receipt of `peer`.
pub open spec fn still_pending(
    peer: Id,
    acks: Seq<ContentId>,
    pending: Seq<PendingControl>,
) -> Seq<PendingControl> {
    pending.filter(|p: PendingControl| !(p.peer == peer && is_acked(acks, p.wire_id)))
}

/// What a receipt does.
pub struct PreparedReceipt {
    /// Queued envelopes that arrived.
    pub delete_queue: Vec<QueueDelete>,
    /// Pieces to send again.
    pub retransmit: Vec<Retransmission>,
    /// Messages, before and after.
    pub messages: Vec<(MessageRow, MessageRow)>,
    /// Copies, before and after.
    pub deliveries: Vec<(DeliveryRow, DeliveryRow)>,
    /// Group member entries that change.
    pub members: Vec<MemberChange>,
    /// What is told.
    pub events: Vec<Event>,
}

/// The queued envelopes that a receipt takes out.
fn acked_queue(device: Id, acks: &Vec<ContentId>, queue: &Vec<QueueItem>) -> (res: Vec<QueueDelete>)
    ensures
        res@ == deletions(queue@, |item: QueueItem| acked_item(device, acks@, item)),
{
    let ghost gone = |item: QueueItem| acked_item(device, acks@, item);
    let mut res: Vec<QueueDelete> = Vec::new();
    let mut i: usize = 0;
    proof {
        lemma_deletions_none(queue@, gone);
    }
    while i < queue.len()
        invariant
            i <= queue@.len(),
            gone == (|item: QueueItem| acked_item(device, acks@, item)),
            res@ == deletions(queue@.take(i as int), gone),
        decreases queue@.len() - i,
    {
        let item = queue[i];
        proof {
            lemma_deletions_step(queue@, gone, i as int);
        }
        if same(&item.peer, &device) && contains_ack(acks, &item.content_id) {
            res.push(QueueDelete { sequence: item.sequence, content_id: item.content_id });
        }
        i = i + 1;
    }
    proof {
        crate::seqs::lemma_take_all(queue@);
    }
    res
}

/// The group controls that still wait after a receipt of `peer`.
pub fn retain_pending(peer: Id, acks: &Vec<ContentId>, pending: &Vec<PendingControl>) -> (res: Vec<
    PendingControl,
>)
    ensures
        res@ == still_pending(peer, acks@, pending@),
{
    let ghost keep = |p: PendingControl| !(p.peer == peer && is_acked(acks@, p.wire_id));
    let mut res: Vec<PendingControl> = Vec::new();
    let mut i: usize = 0;
    proof {
        crate::seqs::lemma_filter_none(pending@, keep);
    }
    while i < pending.len()
        invariant
            i <= pending@.len(),
            keep == (|p: PendingControl| !(p.peer == peer && is_acked(acks@, p.wire_id))),
            res@ == pending@.take(i as int).filter(keep),
        decreases pending@.len() - i,
    {
        proof {
            crate::seqs::lemma_filter_step(pending@, keep, i as int);
        }
        let p = pending[i];
        if !(same(&p.peer, &peer) && wire_acked(acks, &p.wire_id)) {
            res.push(p);
        }
        i = i + 1;
    }
    proof {
        crate::seqs::lemma_take_all(pending@);
    }
    res
}

/// Append member entries.
fn push_members(
    peer: Id,
    copy_acked: bool,
    acks: &Vec<ContentId>,
    g: &GroupHistory,
    out: &mut Vec<MemberChange>,
) -> (any: bool)
    ensures
        final(out)@ == old(out)@ + acked_members(
            peer,
            copy_acked,
            acks@,
            *g,
            g.members@.len() as int,
        ),
        any == (acked_members(peer, copy_acked, acks@, *g, g.members@.len() as int).len() > 0),
{
    let ghost first = out@;
    let mut any = false;
    let mut i: usize = 0;
    assert(first + Seq::<MemberChange>::empty() =~= first);
    while i < g.members.len()
        invariant
            i <= g.members@.len(),
            out@ == first + acked_members(peer, copy_acked, acks@, *g, i as int),
            any == (acked_members(peer, copy_acked, acks@, *g, i as int).len() > 0),
        decreases g.members@.len() - i,
    {
        let m = g.members[i];
        let ghost prior = acked_members(peer, copy_acked, acks@, *g, i as int);
        if same(&m.peer, &peer) && m.state != DeliveryState::Delivered && (copy_acked
            || wire_acked(acks, &m.wire_id)) {
            let change = MemberChange {
                message: g.id,
                member: i,
                after: MemberDelivery {
                    peer: m.peer,
                    state: DeliveryState::Delivered,
                    wire_id: m.wire_id,
                },
            };
            out.push(change);
            assert(out@ =~= first + prior.push(change));
            any = true;
        }
        i = i + 1;
    }
    any
}

/// Work out what a receipt from `device`, a device of account `peer`, does: acknowledged
/// envelopes leave the queue, their messages and copies are delivered, and requested
/// fragments are sent again.
pub fn prepare_receipt(
    peer: Id,
    device: Id,
    acks: &Vec<ContentId>,
    nacks: &Vec<(FragmentId, Vec<u16>)>,
    cache: &FragmentCache,
    queue: &Vec<QueueItem>,
    hs: &Vec<History>,
    gs: &Vec<GroupHistory>,
    now: u64,
    limit: usize,
) -> (res: PreparedReceipt)
    ensures
        res.delete_queue@ == deletions(
            queue@,
            |item: QueueItem| acked_item(device, acks@, item),
        ),
        ({
            let all = crate::fragments::wanted_all(
                cache.entries(),
                device,
                nacks@,
                now,
                nacks@.len() as int,
            );
            res.retransmit@ == all.take(crate::fragments::shorter(all.len(), limit as nat))
        }),
        res.messages@ == acked_messages(device, acks@, hs@, hs@.len() as int),
        res.deliveries@ == acked_rows_all(device, acks@, hs@, hs@.len() as int)
            + acked_group_rows_all(peer, device, acks@, gs@, gs@.len() as int),
        res.members@ == acked_entries_all(peer, device, acks@, gs@, gs@.len() as int),
        res.events@ == delivered_events(res.messages@) + acked_group_events(
            peer,
            device,
            acks@,
            gs@,
            gs@.len() as int,
        ),
{
    let delete_queue = acked_queue(device, acks, queue);
    let retransmit = cache.retransmissions(device, nacks, now, limit);
    let mut messages: Vec<(MessageRow, MessageRow)> = Vec::new();
    let mut deliveries: Vec<(DeliveryRow, DeliveryRow)> = Vec::new();
    let mut members: Vec<MemberChange> = Vec::new();
    let mut events: Vec<Event> = Vec::new();
    let mut i: usize = 0;
    assert(events@ =~= delivered_events(messages@));
    while i < hs.len()
        invariant
            i <= hs@.len(),
            messages@ == acked_messages(device, acks@, hs@, i as int),
            deliveries@ == acked_rows_all(device, acks@, hs@, i as int),
            events@ == delivered_events(messages@),
        decreases hs@.len() - i,
    {
        let h = &hs[i];
        let rows = apply_rule_all(
            DeliveryRule::Acknowledge { account: None, device },
            acks,
            &h.deliveries,
        );
        push_rows(&mut deliveries, &rows.changed);
        let named = wire_acked(acks, &h.message.wire_id);
        if (rows.changed.len() > 0 || named) && h.message.direction == Direction::Outbound
            && h.message.state != DeliveryState::Delivered {
            let mut after = h.message;
            after.state = DeliveryState::Delivered;
            let ghost prior = messages@;
            events.push(
                Event::DeliveryUpdated { id: after.id, state: DeliveryState::Delivered },
            );
            messages.push((h.message, after));
            assert(events@ =~= delivered_events(prior.push((h.message, after))));
        }
        i = i + 1;
    }
    let ghost pairwise_rows = deliveries@;
    let ghost pairwise_events = events@;
    let mut i: usize = 0;
    assert(deliveries@ =~= pairwise_rows + Seq::<(DeliveryRow, DeliveryRow)>::empty());
    assert(events@ =~= pairwise_events + Seq::<Event>::empty());
    while i < gs.len()
        invariant
            i <= gs@.len(),
            deliveries@ == pairwise_rows + acked_group_rows_all(
                peer,
                device,
                acks@,
                gs@,
                i as int,
            ),
            members@ == acked_entries_all(peer, device, acks@, gs@, i as int),
            events@ == pairwise_events + acked_group_events(peer, device, acks@, gs@, i as int),
        decreases gs@.len() - i,
    {
        let g = &gs[i];
        let ghost prior_events = acked_group_events(peer, device, acks@, gs@, i as int);
        let rows = apply_rule_all(
            DeliveryRule::Acknowledge { account: Some(peer), device },
            acks,
            &g.deliveries,
        );
        let ghost prior_rows = acked_group_rows_all(peer, device, acks@, gs@, i as int);
        push_rows(&mut deliveries, &rows.changed);
        assert(deliveries@ =~= pairwise_rows + (prior_rows + rows.changed@));
        let any = push_members(peer, rows.changed.len() > 0, acks, g, &mut members);
        if any {
            let event = Event::GroupDeliveryUpdated {
                id: g.id,
                peer,
                state: DeliveryState::Delivered,
            };
            events.push(event);
            assert(events@ =~= pairwise_events + prior_events.push(event));
        }
        i = i + 1;
    }
    PreparedReceipt { delete_queue, retransmit, messages, deliveries, members, events }
}

/// Every message that a receipt moves becomes delivered, was outbound and not delivered
/// before.
pub proof fn law_receipt_only_delivers(
    device: Id,
    acks: Seq<ContentId>,
    hs: Seq<History>,
    n: int,
    k: int,
)
    requires
        n <= hs.len(),
        0 <= k < acked_messages(device, acks, hs, n).len(),
    ensures
        ({
            let (before, after) = acked_messages(device, acks, hs, n)[k];
            &&& before.direction == Direction::Outbound
            &&& before.state != DeliveryState::Delivered
            &&& after == (MessageRow { state: DeliveryState::Delivered, ..before })
        }),
    decreases n,
{
    if n > 0 && k < acked_messages(device, acks, hs, n - 1).len() {
        law_receipt_only_delivers(device, acks, hs, n - 1, k);
    }
}

/// A receipt without acknowledgements moves nothing.
pub proof fn law_empty_receipt_moves_nothing(device: Id, hs: Seq<History>, n: int)
    requires
        n <= hs.len(),
    ensures
        acked_messages(device, Seq::empty(), hs, n) == Seq::<(MessageRow, MessageRow)>::empty(),
        acked_rows_all(device, Seq::empty(), hs, n) == Seq::<(DeliveryRow, DeliveryRow)>::empty(),
    decreases n,
{
    if n > 0 {
        law_empty_receipt_moves_nothing(device, hs, n - 1);
        lemma_no_acks(device, hs[n - 1].deliveries@, hs[n - 1].deliveries@.len() as int);
        assert(acked_rows_all(device, Seq::empty(), hs, n) =~= Seq::<
            (DeliveryRow, DeliveryRow),
        >::empty());
    }
}

proof fn lemma_no_acks(device: Id, ds: Seq<DeliveryRow>, n: int)
    ensures
        transitions(
            DeliveryRule::Acknowledge { account: None, device },
            Seq::empty(),
            ds,
            n,
        ) == Seq::<(DeliveryRow, DeliveryRow)>::empty(),
    decreases n,
{
    if n > 0 {
        lemma_no_acks(device, ds, n - 1);
    }
}

// ---- Hand-off ----

/// What a carrier's acceptance does.
pub struct HandOff {
    /// Messages, before and after.
    pub messages: Vec<(MessageRow, MessageRow)>,
    /// Copies, before and after.
    pub deliveries: Vec<(DeliveryRow, DeliveryRow)>,
    /// What is told.
    pub events: Vec<Event>,
}

/// The queued messages among the first `n` with the given identity, now sent.
pub open spec fn sent_messages(id: ContentId, ms: Seq<MessageRow>, n: int) -> Seq<
    (MessageRow, MessageRow),
>
    decreases n,
{
    if n <= 0 {
        Seq::empty()
    } else {
        let prior = sent_messages(id, ms, n - 1);
        let m = ms[n - 1];
        if m.id == id && m.state == DeliveryState::Queued {
            prior.push((m, MessageRow { state: DeliveryState::Sent, ..m }))
        } else {
            prior
        }
    }
}

/// A carrier accepted the copy of message `id` for `device`: the queued copy and the
/// queued message become sent. `ms` are the messages with the device's account.
pub fn prepare_mark_sent(
    device: Id,
    id: ContentId,
    copies: &Vec<DeliveryRow>,
    ms: &Vec<MessageRow>,
) -> (res: HandOff)
    ensures
        res.deliveries@ == transitions(
            DeliveryRule::HandOff { device },
            Seq::empty(),
            copies@,
            copies@.len() as int,
        ),
        res.messages@ == sent_messages(id, ms@, ms@.len() as int),
        res.events@ == delivered_events(res.messages@),
{
    let none: Vec<ContentId> = Vec::new();
    assert(none@ =~= Seq::empty());
    let rows = apply_rule_all(DeliveryRule::HandOff { device }, &none, copies);
    let mut messages: Vec<(MessageRow, MessageRow)> = Vec::new();
    let mut events: Vec<Event> = Vec::new();
    let mut i: usize = 0;
    assert(events@ =~= delivered_events(messages@));
    while i < ms.len()
        invariant
            i <= ms@.len(),
            messages@ == sent_messages(id, ms@, i as int),
            events@ == delivered_events(messages@),
        decreases ms@.len() - i,
    {
        let m = ms[i];
        if same(&m.id, &id) && m.state == DeliveryState::Queued {
            let mut after = m;
            after.state = DeliveryState::Sent;
            let ghost prior = messages@;
            messages.push((m, after));
            events.push(Event::DeliveryUpdated { id, state: DeliveryState::Sent });
            assert(events@ =~= delivered_events(prior.push((m, after))));
        }
        i = i + 1;
    }
    HandOff { messages, deliveries: rows.changed, events }
}

// ---- Laws of receipts ----

/// Every copy that a receipt changes was for the device that sent it, was named by it, was not
/// delivered before and is afterwards, all else equal.
pub proof fn law_receipts_deliver_copies(
    rule_account: Option<Id>,
    device: Id,
    acks: Seq<ContentId>,
    ds: Seq<DeliveryRow>,
    n: int,
    k: int,
)
    requires
        0 <= n <= ds.len(),
        0 <= k < transitions(
            DeliveryRule::Acknowledge { account: rule_account, device },
            acks,
            ds,
            n,
        ).len(),
    ensures
        ({
            let (before, after) = transitions(
                DeliveryRule::Acknowledge { account: rule_account, device },
                acks,
                ds,
                n,
            )[k];
            &&& ds.contains(before)
            &&& before.device == device
            &&& rule_account matches Some(account) ==> before.account == account
            &&& before.wire_id is Some
            &&& acks.contains(before.wire_id->0)
            &&& before.state != DeliveryState::Delivered
            &&& after == (DeliveryRow { state: DeliveryState::Delivered, ..before })
        }),
    decreases n,
{
    let rule = DeliveryRule::Acknowledge { account: rule_account, device };
    let prior = transitions(rule, acks, ds, n - 1);
    if n > 0 {
        if k < prior.len() {
            law_receipts_deliver_copies(rule_account, device, acks, ds, n - 1, k);
        } else {
            assert(ds[n - 1] == transitions(rule, acks, ds, n)[k].0);
        }
    }
}

/// Every copy for the device that its receipt names becomes delivered, unless it was.
pub proof fn law_named_copies_are_delivered(
    device: Id,
    acks: Seq<ContentId>,
    ds: Seq<DeliveryRow>,
    n: int,
    i: int,
)
    requires
        0 <= i < n <= ds.len(),
        ds[i].device == device,
        ds[i].wire_id is Some,
        acks.contains(ds[i].wire_id->0),
        ds[i].state != DeliveryState::Delivered,
    ensures
        transitions(DeliveryRule::Acknowledge { account: None, device }, acks, ds, n).contains(
            (ds[i], DeliveryRow { state: DeliveryState::Delivered, ..ds[i] }),
        ),
        transitions(
            DeliveryRule::Acknowledge { account: Some(ds[i].account), device },
            acks,
            ds,
            n,
        ).contains((ds[i], DeliveryRow { state: DeliveryState::Delivered, ..ds[i] })),
    decreases n,
{
    let change = (ds[i], DeliveryRow { state: DeliveryState::Delivered, ..ds[i] });
    let any = DeliveryRule::Acknowledge { account: None, device };
    let own = DeliveryRule::Acknowledge { account: Some(ds[i].account), device };
    if i < n - 1 {
        law_named_copies_are_delivered(device, acks, ds, n - 1, i);
        let prior = transitions(any, acks, ds, n - 1);
        let k = choose|k: int| 0 <= k < prior.len() && prior[k] == change;
        assert(transitions(any, acks, ds, n)[k] == change);
        let prior = transitions(own, acks, ds, n - 1);
        let k = choose|k: int| 0 <= k < prior.len() && prior[k] == change;
        assert(transitions(own, acks, ds, n)[k] == change);
    } else {
        assert(change.0 != change.1);
        let all = transitions(any, acks, ds, n);
        assert(all[all.len() - 1] == change);
        let all = transitions(own, acks, ds, n);
        assert(all[all.len() - 1] == change);
    }
}

/// An outbound message that was not delivered becomes delivered when its envelope is named, or
/// that of one of its copies for the device; its delivery is told.
pub proof fn law_named_messages_are_delivered(
    device: Id,
    acks: Seq<ContentId>,
    hs: Seq<History>,
    n: int,
    i: int,
    c: int,
)
    requires
        0 <= i < n <= hs.len(),
        hs[i].message.direction == Direction::Outbound,
        hs[i].message.state != DeliveryState::Delivered,
        (hs[i].message.wire_id matches Some(id) && acks.contains(id)) || (0 <= c
            < hs[i].deliveries@.len() && hs[i].deliveries@[c].device == device
            && hs[i].deliveries@[c].state != DeliveryState::Delivered
            && (hs[i].deliveries@[c].wire_id matches Some(id) && acks.contains(id))),
    ensures
        ({
            let m = hs[i].message;
            let moved = acked_messages(device, acks, hs, n);
            &&& moved.contains((m, MessageRow { state: DeliveryState::Delivered, ..m }))
            &&& delivered_events(moved).contains(
                Event::DeliveryUpdated { id: m.id, state: DeliveryState::Delivered },
            )
        }),
    decreases n,
{
    let m = hs[i].message;
    let change = (m, MessageRow { state: DeliveryState::Delivered, ..m });
    let moved = acked_messages(device, acks, hs, n);
    let at = if i < n - 1 {
        law_named_messages_are_delivered(device, acks, hs, n - 1, i, c);
        let prior = acked_messages(device, acks, hs, n - 1);
        choose|k: int| 0 <= k < prior.len() && prior[k] == change
    } else {
        if !is_acked(acks, m.wire_id) {
            law_named_copies_are_delivered(
                device,
                acks,
                hs[i].deliveries@,
                hs[i].deliveries@.len() as int,
                c,
            );
        }
        moved.len() - 1
    };
    assert(moved[at] == change);
    assert(delivered_events(moved)[at] == (Event::DeliveryUpdated {
        id: m.id,
        state: DeliveryState::Delivered,
    }));
}

/// Every entry of a group message that a receipt changes was of the account that sent it, was
/// not delivered before and is afterwards, all else equal.
pub proof fn law_receipts_deliver_to_their_member(
    peer: Id,
    copy_acked: bool,
    acks: Seq<ContentId>,
    g: GroupHistory,
    n: int,
    k: int,
)
    requires
        0 <= n <= g.members@.len() <= usize::MAX,
        0 <= k < acked_members(peer, copy_acked, acks, g, n).len(),
    ensures
        ({
            let change = acked_members(peer, copy_acked, acks, g, n)[k];
            &&& change.message == g.id
            &&& change.member < n
            &&& g.members@[change.member as int].peer == peer
            &&& g.members@[change.member as int].state != DeliveryState::Delivered
            &&& change.after.state == DeliveryState::Delivered
            &&& change.after.peer == peer
            &&& change.after.wire_id == g.members@[change.member as int].wire_id
            &&& copy_acked || (change.after.wire_id matches Some(id) && acks.contains(id))
        }),
    decreases n,
{
    if n > 0 && k < acked_members(peer, copy_acked, acks, g, n - 1).len() {
        law_receipts_deliver_to_their_member(peer, copy_acked, acks, g, n - 1, k);
    }
}

/// The entry at that position is delivered.
pub open spec fn delivers_entry(changes: Seq<MemberChange>, member: int) -> bool {
    exists|k: int|
        0 <= k < changes.len() && (#[trigger] changes[k]).member == member && changes[k].after.state
            == DeliveryState::Delivered
}

/// Every undelivered entry of the account that sent a receipt is delivered when its envelope is
/// named, or that of a copy for the device, and the group message is told to be delivered to
/// that account.
pub proof fn law_named_entries_are_delivered(
    peer: Id,
    device: Id,
    acks: Seq<ContentId>,
    gs: Seq<GroupHistory>,
    n: int,
    g: int,
    i: int,
    c: int,
)
    requires
        0 <= g < n <= gs.len(),
        0 <= i < gs[g].members@.len() <= usize::MAX,
        gs[g].members@[i].peer == peer,
        gs[g].members@[i].state != DeliveryState::Delivered,
        (gs[g].members@[i].wire_id matches Some(id) && acks.contains(id)) || (0 <= c
            < gs[g].deliveries@.len() && gs[g].deliveries@[c].account == peer
            && gs[g].deliveries@[c].device == device && gs[g].deliveries@[c].state
            != DeliveryState::Delivered && (gs[g].deliveries@[c].wire_id matches Some(id)
            && acks.contains(id))),
    ensures
        delivers_entry(acked_entries(peer, device, acks, gs[g]), i),
        acked_group_events(peer, device, acks, gs, n).contains(
            Event::GroupDeliveryUpdated {
                id: gs[g].id,
                peer,
                state: DeliveryState::Delivered,
            },
        ),
    decreases n,
{
    let copy_acked = acked_group_rows(peer, device, acks, gs[g]).len() > 0;
    if !is_acked(acks, gs[g].members@[i].wire_id) {
        law_named_copies_are_delivered(
            device,
            acks,
            gs[g].deliveries@,
            gs[g].deliveries@.len() as int,
            c,
        );
    }
    lemma_entry_delivered(peer, copy_acked, acks, gs[g], gs[g].members@.len() as int, i);
    let event = Event::GroupDeliveryUpdated {
        id: gs[g].id,
        peer,
        state: DeliveryState::Delivered,
    };
    let events = acked_group_events(peer, device, acks, gs, n);
    if g < n - 1 {
        law_named_entries_are_delivered(peer, device, acks, gs, n - 1, g, i, c);
        let prior = acked_group_events(peer, device, acks, gs, n - 1);
        let k = choose|k: int| 0 <= k < prior.len() && prior[k] == event;
        assert(events[k] == event);
    } else {
        assert(events[events.len() - 1] == event);
    }
}

proof fn lemma_entry_delivered(
    peer: Id,
    copy_acked: bool,
    acks: Seq<ContentId>,
    g: GroupHistory,
    n: int,
    i: int,
)
    requires
        0 <= i < n <= g.members@.len() <= usize::MAX,
        acked_member(peer, copy_acked, acks, g.members@[i]),
    ensures
        delivers_entry(acked_members(peer, copy_acked, acks, g, n), i),
    decreases n,
{
    let all = acked_members(peer, copy_acked, acks, g, n);
    if i < n - 1 {
        lemma_entry_delivered(peer, copy_acked, acks, g, n - 1, i);
        let prior = acked_members(peer, copy_acked, acks, g, n - 1);
        let k = choose|k: int|
            0 <= k < prior.len() && (#[trigger] prior[k]).member == i && prior[k].after.state
                == DeliveryState::Delivered;
        assert(all[k] == prior[k]);
    } else {
        assert(all[all.len() - 1].member == i);
    }
}

/// What is told about group messages is told about some group message, of the account that sent
/// the receipt, and as delivered.
pub proof fn law_group_deliveries_are_told_as_such(
    peer: Id,
    device: Id,
    acks: Seq<ContentId>,
    gs: Seq<GroupHistory>,
    n: int,
    k: int,
)
    requires
        0 <= n <= gs.len(),
        0 <= k < acked_group_events(peer, device, acks, gs, n).len(),
    ensures
        exists|g: int|
            0 <= g < n && acked_group_events(peer, device, acks, gs, n)[k] == (
            Event::GroupDeliveryUpdated {
                id: (#[trigger] gs[g]).id,
                peer,
                state: DeliveryState::Delivered,
            }),
    decreases n,
{
    if n > 0 {
        let prior = acked_group_events(peer, device, acks, gs, n - 1);
        if k < prior.len() {
            law_group_deliveries_are_told_as_such(peer, device, acks, gs, n - 1, k);
        } else {
            assert(acked_group_events(peer, device, acks, gs, n)[k] == (
            Event::GroupDeliveryUpdated {
                id: gs[n - 1].id,
                peer,
                state: DeliveryState::Delivered,
            }));
        }
    }
}

/// What a receipt takes out of the queue was for the device that sent it and is named by it,
/// and everything of that kind is taken out.
pub proof fn law_receipts_clear_the_queue(
    device: Id,
    acks: Seq<ContentId>,
    queue: Seq<QueueItem>,
    item: QueueItem,
)
    requires
        queue.contains(item),
        item.peer == device,
        acks.contains(item.content_id),
    ensures
        deletions(queue, |q: QueueItem| acked_item(device, acks, q)).contains(
            QueueDelete { sequence: item.sequence, content_id: item.content_id },
        ),
{
    let gone = |q: QueueItem| acked_item(device, acks, q);
    let i = choose|i: int| 0 <= i < queue.len() && queue[i] == item;
    lemma_deletion_of(queue, gone, queue.len() as int, i);
    crate::seqs::lemma_take_all(queue);
}

proof fn lemma_deletion_of(
    queue: Seq<QueueItem>,
    gone: spec_fn(QueueItem) -> bool,
    n: int,
    i: int,
)
    requires
        0 <= i < n <= queue.len(),
        gone(queue[i]),
    ensures
        deletions(queue.take(n), gone).contains(
            QueueDelete { sequence: queue[i].sequence, content_id: queue[i].content_id },
        ),
    decreases n,
{
    let want = QueueDelete { sequence: queue[i].sequence, content_id: queue[i].content_id };
    lemma_deletions_step(queue, gone, n - 1);
    let all = deletions(queue.take(n), gone);
    let prior = deletions(queue.take(n - 1), gone);
    if i < n - 1 {
        lemma_deletion_of(queue, gone, n - 1, i);
        let k = choose|k: int| 0 <= k < prior.len() && prior[k] == want;
        assert(all[k] == want);
    } else {
        assert(all[all.len() - 1] == want);
    }
}

/// Envelopes for other devices, and envelopes that a receipt does not name, stay queued: what it
/// takes out is the position and identity of an envelope of its device that it names.
pub proof fn law_receipts_spare_the_rest(
    device: Id,
    acks: Seq<ContentId>,
    queue: Seq<QueueItem>,
    n: int,
    k: int,
)
    requires
        0 <= n <= queue.len(),
        0 <= k < deletions(
            queue.take(n),
            |q: QueueItem| acked_item(device, acks, q),
        ).len(),
    ensures
        exists|i: int|
            0 <= i < n && (#[trigger] queue[i]).peer == device && acks.contains(
                queue[i].content_id,
            ) && deletions(queue.take(n), |q: QueueItem| acked_item(device, acks, q))[k] == (
            QueueDelete { sequence: queue[i].sequence, content_id: queue[i].content_id }),
    decreases n,
{
    let gone = |q: QueueItem| acked_item(device, acks, q);
    if n > 0 {
        lemma_deletions_step(queue, gone, n - 1);
        let prior = deletions(queue.take(n - 1), gone);
        if k < prior.len() {
            law_receipts_spare_the_rest(device, acks, queue, n - 1, k);
            let i = choose|i: int|
                0 <= i < n - 1 && (#[trigger] queue[i]).peer == device && acks.contains(
                    queue[i].content_id,
                ) && prior[k] == (QueueDelete {
                    sequence: queue[i].sequence,
                    content_id: queue[i].content_id,
                });
            assert(queue[i].peer == device);
        } else {
            assert(queue[n - 1].peer == device);
        }
    } else {
        assert(queue.take(0) =~= Seq::<QueueItem>::empty());
        lemma_deletions_none(queue, gone);
    }
}

/// A group control of a member goes on waiting until that member's receipt names its envelope;
/// the controls of other members go on waiting whatever it names.
pub proof fn law_controls_wait_for_their_receipt(
    peer: Id,
    acks: Seq<ContentId>,
    pending: Seq<PendingControl>,
    p: PendingControl,
)
    requires
        pending.contains(p),
    ensures
        still_pending(peer, acks, pending).contains(p) <==> p.peer != peer || p.wire_id is None
            || !acks.contains(p.wire_id->0),
{
    let keep = |p: PendingControl| !(p.peer == peer && is_acked(acks, p.wire_id));
    crate::seqs::lemma_filter_kept(pending, keep);
    if still_pending(peer, acks, pending).contains(p) {
        let kept = pending.filter(keep);
        let k = choose|k: int| 0 <= k < kept.len() && kept[k] == p;
        assert(keep(kept[k]));
    }
}

/// A message that is handed off is sent from then on, if it waited; no other is.
pub proof fn law_handed_off_messages_are_sent(id: ContentId, ms: Seq<MessageRow>, n: int, i: int)
    requires
        0 <= i < n <= ms.len(),
    ensures
        ms[i].id == id && ms[i].state == DeliveryState::Queued ==> sent_messages(
            id,
            ms,
            n,
        ).contains((ms[i], MessageRow { state: DeliveryState::Sent, ..ms[i] })),
        forall|k: int|
            0 <= k < sent_messages(id, ms, n).len() ==> {
                let (before, after) = #[trigger] sent_messages(id, ms, n)[k];
                &&& before.id == id
                &&& before.state == DeliveryState::Queued
                &&& after == (MessageRow { state: DeliveryState::Sent, ..before })
            },
    decreases n,
{
    let all = sent_messages(id, ms, n);
    let prior = sent_messages(id, ms, n - 1);
    let change = (ms[i], MessageRow { state: DeliveryState::Sent, ..ms[i] });
    if n > 1 {
        law_handed_off_messages_are_sent(
            id,
            ms,
            n - 1,
            if i < n - 1 {
                i
            } else {
                0
            },
        );
    }
    if ms[i].id == id && ms[i].state == DeliveryState::Queued {
        if i < n - 1 {
            let k = choose|k: int| 0 <= k < prior.len() && prior[k] == change;
            assert(all[k] == change);
        } else {
            assert(all.last() == change);
        }
    }
    assert forall|k: int| 0 <= k < all.len() implies {
        let (before, after) = #[trigger] all[k];
        &&& before.id == id
        &&& before.state == DeliveryState::Queued
        &&& after == (MessageRow { state: DeliveryState::Sent, ..before })
    } by {
        if k < prior.len() {
            assert(all[k] == prior[k]);
        }
    }
}

/// A group message is told of once when the receipt delivers one of its entries, and not
/// otherwise.
pub proof fn law_delivered_groups_are_told_once(
    peer: Id,
    device: Id,
    acks: Seq<ContentId>,
    gs: Seq<GroupHistory>,
    n: int,
)
    requires
        0 <= n < gs.len(),
    ensures
        ({
            let before = acked_group_events(peer, device, acks, gs, n);
            let after = acked_group_events(peer, device, acks, gs, n + 1);
            let moved = acked_entries(peer, device, acks, gs[n]).len() > 0;
            &&& acked_group_events(peer, device, acks, gs, 0).len() == 0
            &&& moved ==> after == before.push(
                Event::GroupDeliveryUpdated {
                    id: gs[n].id,
                    peer,
                    state: DeliveryState::Delivered,
                },
            )
            &&& !moved ==> after == before
        }),
{
}

} // verus!
