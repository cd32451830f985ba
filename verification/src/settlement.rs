//! What receipts, replaced sessions and passed deadlines do to the message history.

use vstd::prelude::*;

use crate::bytes::{same, same_option, ContentId, Id};
use crate::delivery::{
    apply_rule_all, first_wire, first_wire_id, furthest, furthest_state, is_settled, ruled, ruled_all,
    same_message, transitions, DeliveryRule,
};
use crate::error::{NodeError, Result};
use crate::records::{
    DeliveryRow, DeliveryState, Direction, Event, GroupHistory, History, MemberDelivery, MessageRow,
    QueueDelete, QueueItem,
};

verus! {

/// Messages without a receipt are given up after this long.
pub const DELIVERY_EXPIRY_SECS: u64 = 2_592_000;

/// Messages given up in one pass.
pub const MAX_MAINTENANCE_MESSAGES_PER_TICK: usize = 8;

/// Queue rows taken out in one pass.
pub const MAX_MAINTENANCE_QUEUE_ROWS_PER_TICK: usize = 32;

/// How far a group message has come for one of its members, after a change.
#[derive(Clone, Copy, Debug, PartialEq, Eq)]
pub struct MemberChange {
    /// The message.
    pub message: ContentId,
    /// Position of the member in the message.
    pub member: usize,
    /// The member's entry, after.
    pub after: MemberDelivery,
}

/// The entry of the queue to take out for a queued envelope.
pub open spec fn deletion(item: QueueItem) -> QueueDelete {
    QueueDelete { sequence: item.sequence, content_id: item.content_id }
}

/// The queue rows that meet the condition, in order.
pub open spec fn deletions(queue: Seq<QueueItem>, gone: spec_fn(QueueItem) -> bool) -> Seq<
    QueueDelete,
> {
    queue.filter(gone).map_values(|item: QueueItem| deletion(item))
}

/// One queue row more.
pub proof fn lemma_deletions_step(
    queue: Seq<QueueItem>,
    gone: spec_fn(QueueItem) -> bool,
    i: int,
)
    requires
        0 <= i < queue.len(),
    ensures
        deletions(queue.take(i + 1), gone) == if gone(queue[i]) {
            deletions(queue.take(i), gone).push(deletion(queue[i]))
        } else {
            deletions(queue.take(i), gone)
        },
        queue.take(queue.len() as int) == queue,
{
    crate::seqs::lemma_filter_step(queue, gone, i);
    let prior = queue.take(i).filter(gone);
    if gone(queue[i]) {
        assert(prior.push(queue[i]).map_values(|item: QueueItem| deletion(item))
            =~= prior.map_values(|item: QueueItem| deletion(item)).push(deletion(queue[i])));
    }
}

pub proof fn lemma_deletions_none(queue: Seq<QueueItem>, gone: spec_fn(QueueItem) -> bool)
    ensures
        deletions(queue.take(0), gone) == Seq::<QueueDelete>::empty(),
{
    crate::seqs::lemma_filter_none(queue, gone);
    assert(deletions(queue.take(0), gone) =~= Seq::<QueueDelete>::empty());
}

// ---- Replaced and dropped sessions ----

/// A replaced session concerns every outbound message; a dropped unconfirmed one only
/// those that are not settled.
pub open spec fn concerns(rule: DeliveryRule, message: MessageRow) -> bool {
    &&& message.direction == Direction::Outbound
    &&& rule is Unconfirm ==> !is_settled(message.state)
}

/// The copies of one message that start over.
pub open spec fn restarted(rule: DeliveryRule, h: History) -> Seq<(DeliveryRow, DeliveryRow)> {
    if concerns(rule, h.message) {
        transitions(rule, Seq::empty(), h.deliveries@, h.deliveries@.len() as int)
    } else {
        Seq::empty()
    }
}

/// A message whose copies were changed: it is where the furthest copy is.
pub open spec fn message_after(rule: DeliveryRule, h: History) -> MessageRow {
    let ds = ruled_all(rule, Seq::empty(), h.deliveries@);
    MessageRow { state: furthest(ds), wire_id: first_wire(ds, ds.len() as int), ..h.message }
}

/// All copies of the first `n` messages that start over.
pub open spec fn restarted_all(rule: DeliveryRule, hs: Seq<History>, n: int) -> Seq<
    (DeliveryRow, DeliveryRow),
>
    decreases n,
{
    if n <= 0 {
        Seq::empty()
    } else {
        restarted_all(rule, hs, n - 1) + restarted(rule, hs[n - 1])
    }
}

/// The messages among the first `n` that change because copies start over.
pub open spec fn messages_moved(rule: DeliveryRule, hs: Seq<History>, n: int) -> Seq<
    (MessageRow, MessageRow),
>
    decreases n,
{
    if n <= 0 {
        Seq::empty()
    } else {
        let prior = messages_moved(rule, hs, n - 1);
        let h = hs[n - 1];
        if restarted(rule, h).len() > 0 && message_after(rule, h) != h.message {
            prior.push((h.message, message_after(rule, h)))
        } else {
            prior
        }
    }
}

/// What is told about the first `n` messages. A dropped unconfirmed session is told for
/// every message whose copies start over, a replaced one only where the message moved.
pub open spec fn restart_events(rule: DeliveryRule, hs: Seq<History>, n: int) -> Seq<Event>
    decreases n,
{
    if n <= 0 {
        Seq::empty()
    } else {
        let prior = restart_events(rule, hs, n - 1);
        let h = hs[n - 1];
        let after = message_after(rule, h);
        if restarted(rule, h).len() > 0 && (rule is Unconfirm || after != h.message) {
            prior.push(Event::DeliveryUpdated { id: after.id, state: after.state })
        } else {
            prior
        }
    }
}

/// The messages among the first `n` whose copies start over.
pub open spec fn restarted_ids(rule: DeliveryRule, hs: Seq<History>, n: int) -> Seq<ContentId>
    decreases n,
{
    if n <= 0 {
        Seq::empty()
    } else {
        let prior = restarted_ids(rule, hs, n - 1);
        if restarted(rule, hs[n - 1]).len() > 0 {
            prior.push(hs[n - 1].message.id)
        } else {
            prior
        }
    }
}

/// Messages that start over.
pub struct RestartPlan {
    /// Messages, before and after.
    pub messages: Vec<(MessageRow, MessageRow)>,
    /// Copies, before and after.
    pub deliveries: Vec<(DeliveryRow, DeliveryRow)>,
    /// What is told.
    pub events: Vec<Event>,
    /// The messages whose copies start over.
    pub affected: Vec<ContentId>,
}

impl RestartPlan {
    /// The plan is what the rule makes of the messages.
    pub open spec fn follows(self, rule: DeliveryRule, hs: Seq<History>) -> bool {
        let n = hs.len() as int;
        &&& self.messages@ == messages_moved(rule, hs, n)
        &&& self.deliveries@ == restarted_all(rule, hs, n)
        &&& self.events@ == restart_events(rule, hs, n)
        &&& self.affected@ == restarted_ids(rule, hs, n)
    }
}

/// Append rows.
pub fn push_rows(out: &mut Vec<(DeliveryRow, DeliveryRow)>, more: &Vec<(DeliveryRow, DeliveryRow)>)
    ensures
        final(out)@ == old(out)@ + more@,
{
    let ghost first = out@;
    let mut i: usize = 0;
    assert(first + more@.take(0) =~= first);
    while i < more.len()
        invariant
            i <= more@.len(),
            out@ == first + more@.take(i as int),
        decreases more@.len() - i,
    {
        out.push(more[i]);
        i = i + 1;
        assert(out@ =~= first + more@.take(i as int));
    }
    assert(more@.take(more@.len() as int) =~= more@);
}

/// Let the messages of a replaced or dropped session start over.
fn restart(rule: DeliveryRule, hs: &Vec<History>) -> (plan: RestartPlan)
    requires
        rule is Renegotiate || rule is Unconfirm,
    ensures
        plan.follows(rule, hs@),
{
    let none: Vec<ContentId> = Vec::new();
    assert(none@ =~= Seq::empty());
    let mut plan = RestartPlan {
        messages: Vec::new(),
        deliveries: Vec::new(),
        events: Vec::new(),
        affected: Vec::new(),
    };
    let unconfirmed = match rule {
        DeliveryRule::Unconfirm { .. } => true,
        _ => false,
    };
    let mut i: usize = 0;
    while i < hs.len()
        invariant
            i <= hs@.len(),
            none@ == Seq::<ContentId>::empty(),
            unconfirmed == (rule is Unconfirm),
            plan.messages@ == messages_moved(rule, hs@, i as int),
            plan.deliveries@ == restarted_all(rule, hs@, i as int),
            plan.events@ == restart_events(rule, hs@, i as int),
            plan.affected@ == restarted_ids(rule, hs@, i as int),
        decreases hs@.len() - i,
    {
        let h = &hs[i];
        let settled = h.message.state == DeliveryState::Delivered || h.message.state
            == DeliveryState::Failed;
        let concerned = h.message.direction == Direction::Outbound && !(unconfirmed && settled);
        assert(concerned == concerns(rule, h.message));
        if concerned {
            let rows = apply_rule_all(rule, &none, &h.deliveries);
            push_rows(&mut plan.deliveries, &rows.changed);
            if rows.changed.len() > 0 {
                let after = MessageRow {
                    id: h.message.id,
                    peer: h.message.peer,
                    direction: h.message.direction,
                    state: furthest_state(&rows.after),
                    timestamp: h.message.timestamp,
                    wire_id: first_wire_id(&rows.after),
                };
                assert(after == message_after(rule, *h));
                let moved = !same_message(&after, &h.message);
                if moved {
                    plan.messages.push((h.message, after));
                }
                if unconfirmed || moved {
                    plan.events.push(Event::DeliveryUpdated { id: after.id, state: after.state });
                }
                plan.affected.push(h.message.id);
            }
        } else {
            assert(plan.deliveries@ + restarted(rule, *h) =~= plan.deliveries@);
        }
        i = i + 1;
    }
    plan
}

/// An inbound session replaced the one with `device`: every outbound copy for it that was
/// under way starts over under the new session.
pub fn restart_for_replacement(hs: &Vec<History>, device: Id) -> (plan: RestartPlan)
    ensures
        plan.follows((DeliveryRule::Renegotiate { device }), hs@),
{
    restart(DeliveryRule::Renegotiate { device }, hs)
}

/// A dropped unconfirmed session.
pub struct UnconfirmedReset {
    /// What starts over.
    pub restart: RestartPlan,
    /// Queued envelopes of the dropped session.
    pub delete_queue: Vec<QueueDelete>,
}

/// A queued envelope that carries one of the given messages to `device`.
pub open spec fn carries_to(ids: Seq<ContentId>, device: Id, item: QueueItem) -> bool {
    item.peer == device && (item.msg_id matches Some(id) && ids.contains(id))
}

/// Whether a list holds a content identity.
pub fn holds(ids: &Vec<ContentId>, id: &ContentId) -> (res: bool)
    ensures
        res == ids@.contains(*id),
{
    let mut i: usize = 0;
    while i < ids.len()
        invariant
            i <= ids@.len(),
            forall|k: int| 0 <= k < i ==> #[trigger] ids@[k] != *id,
        decreases ids@.len() - i,
    {
        if same(&ids[i], id) {
            assert(ids@[i as int] == *id);
            return true;
        }
        i = i + 1;
    }
    false
}

/// Drop the session with `device` if messages still await a receipt under it: their
/// copies start over, and the envelopes of the old session leave the queue. Nothing is
/// returned when no copy is concerned; the session then stays. Delivered history and
/// other devices are left untouched.
pub fn reset_unconfirmed_session(hs: &Vec<History>, queue: &Vec<QueueItem>, device: Id) -> (res:
    Option<UnconfirmedReset>)
    ensures
        ({
            let rule = DeliveryRule::Unconfirm { device };
            let ids = restarted_ids(rule, hs@, hs@.len() as int);
            match res {
                Some(reset) => {
                    &&& ids.len() > 0
                    &&& reset.restart.follows(rule, hs@)
                    &&& reset.delete_queue@ == deletions(
                        queue@,
                        |item: QueueItem| carries_to(ids, device, item),
                    )
                },
                None => ids.len() == 0,
            }
        }),
{
    let rule = DeliveryRule::Unconfirm { device };
    let plan = restart(rule, hs);
    if plan.affected.len() == 0 {
        return None;
    }
    let ghost ids = plan.affected@;
    let ghost gone = |item: QueueItem| carries_to(ids, device, item);
    let mut delete_queue: Vec<QueueDelete> = Vec::new();
    let mut i: usize = 0;
    proof {
        lemma_deletions_none(queue@, gone);
    }
    while i < queue.len()
        invariant
            i <= queue@.len(),
            ids == plan.affected@,
            gone == (|item: QueueItem| carries_to(ids, device, item)),
            delete_queue@ == deletions(queue@.take(i as int), gone),
        decreases queue@.len() - i,
    {
        let item = queue[i];
        proof {
            lemma_deletions_step(queue@, gone, i as int);
        }
        let carried = match &item.msg_id {
            Some(id) => holds(&plan.affected, id),
            None => false,
        };
        if same(&item.peer, &device) && carried {
            delete_queue.push(
                QueueDelete { sequence: item.sequence, content_id: item.content_id },
            );
        }
        i = i + 1;
    }
    proof {
        crate::seqs::lemma_take_all(queue@);
    }
    Some(UnconfirmedReset { restart: plan, delete_queue })
}

// ---- Groups under a replaced session ----

/// The copies that belong to `account`.
pub open spec fn of_account(account: Id, ds: Seq<DeliveryRow>) -> Seq<DeliveryRow> {
    ds.filter(|d: DeliveryRow| d.account == account)
}

/// The first member entry of an account among the first `n`, or `n`.
pub open spec fn member_index(members: Seq<MemberDelivery>, account: Id, from: int) -> int
    decreases members.len() - from,
{
    if from >= members.len() || members[from].peer == account {
        from
    } else {
        member_index(members, account, from + 1)
    }
}

/// The copies of a group message that are given up.
pub open spec fn retired(account: Id, device: Id, g: GroupHistory) -> Seq<
    (DeliveryRow, DeliveryRow),
> {
    if g.direction == Direction::Outbound {
        transitions(
            DeliveryRule::Retire { account, device },
            Seq::empty(),
            g.deliveries@,
            g.deliveries@.len() as int,
        )
    } else {
        Seq::empty()
    }
}

/// A member's entry once some of its copies were given up.
pub open spec fn member_after(account: Id, device: Id, g: GroupHistory) -> MemberDelivery {
    let all = ruled_all(DeliveryRule::Retire { account, device }, Seq::empty(), g.deliveries@);
    let ds = of_account(account, all);
    MemberDelivery {
        peer: account,
        state: furthest(ds),
        wire_id: first_wire(ds, ds.len() as int),
    }
}

/// Every group message with copies to give up names the account as a member.
pub open spec fn members_known(account: Id, device: Id, gs: Seq<GroupHistory>) -> bool {
    forall|i: int|
        #![trigger gs[i]]
        0 <= i < gs.len() && retired(account, device, gs[i]).len() > 0 ==> member_index(
            gs[i].members@,
            account,
            0,
        ) < gs[i].members@.len()
}

/// All copies of the first `n` group messages that are given up.
pub open spec fn retired_all(account: Id, device: Id, gs: Seq<GroupHistory>, n: int) -> Seq<
    (DeliveryRow, DeliveryRow),
>
    decreases n,
{
    if n <= 0 {
        Seq::empty()
    } else {
        retired_all(account, device, gs, n - 1) + retired(account, device, gs[n - 1])
    }
}

/// The member entries of the first `n` group messages that change.
pub open spec fn members_moved(account: Id, device: Id, gs: Seq<GroupHistory>, n: int) -> Seq<
    MemberChange,
>
    decreases n,
{
    if n <= 0 {
        Seq::empty()
    } else {
        let prior = members_moved(account, device, gs, n - 1);
        let g = gs[n - 1];
        let at = member_index(g.members@, account, 0);
        let after = member_after(account, device, g);
        if retired(account, device, g).len() > 0 && after != g.members@[at] {
            prior.push(MemberChange { message: g.id, member: at as usize, after })
        } else {
            prior
        }
    }
}

/// What is told about the member entries that change.
pub open spec fn member_events(changes: Seq<MemberChange>) -> Seq<Event> {
    changes.map_values(
        |c: MemberChange|
            Event::GroupDeliveryUpdated {
                id: c.message,
                peer: c.after.peer,
                state: c.after.state,
            },
    )
}

/// Group messages whose copies for one device are given up.
pub struct RetirePlan {
    /// Copies, before and after.
    pub deliveries: Vec<(DeliveryRow, DeliveryRow)>,
    /// Member entries that change.
    pub members: Vec<MemberChange>,
    /// What is told.
    pub events: Vec<Event>,
}

/// Whether two member entries are the same.
fn same_member(a: &MemberDelivery, b: &MemberDelivery) -> (res: bool)
    ensures
        res == (*a == *b),
{
    same(&a.peer, &b.peer) && a.state == b.state && same_option(&a.wire_id, &b.wire_id)
}

/// The copies that belong to `account`.
fn account_rows(account: Id, ds: &Vec<DeliveryRow>) -> (res: Vec<DeliveryRow>)
    ensures
        res@ == of_account(account, ds@),
{
    let ghost ours = |d: DeliveryRow| d.account == account;
    let mut res: Vec<DeliveryRow> = Vec::new();
    let mut i: usize = 0;
    proof {
        crate::seqs::lemma_filter_none(ds@, ours);
    }
    while i < ds.len()
        invariant
            i <= ds@.len(),
            ours == (|d: DeliveryRow| d.account == account),
            res@ == ds@.take(i as int).filter(ours),
        decreases ds@.len() - i,
    {
        proof {
            crate::seqs::lemma_filter_step(ds@, ours, i as int);
        }
        if same(&ds[i].account, &account) {
            res.push(ds[i]);
        }
        i = i + 1;
    }
    proof {
        crate::seqs::lemma_take_all(ds@);
    }
    res
}

/// The first member entry of an account, or the number of members.
fn find_member(members: &Vec<MemberDelivery>, account: Id) -> (at: usize)
    ensures
        at == member_index(members@, account, 0),
        at <= members@.len(),
        at < members@.len() ==> members@[at as int].peer == account,
{
    let mut at: usize = 0;
    while at < members.len() && !same(&members[at].peer, &account)
        invariant
            at <= members@.len(),
            member_index(members@, account, at as int) == member_index(members@, account, 0),
        decreases members@.len() - at,
    {
        at = at + 1;
    }
    at
}

/// An inbound session replaced the one with `device`: group copies for it that were under
/// way are given up, and the member's entry follows its remaining copies. An error when a
/// message with such copies does not name the account as a member.
pub fn retire_group_copies(gs: &Vec<GroupHistory>, account: Id, device: Id) -> (res: Result<
    RetirePlan,
>)
    ensures
        match res {
            Ok(plan) => {
                &&& members_known(account, device, gs@)
                &&& plan.deliveries@ == retired_all(account, device, gs@, gs@.len() as int)
                &&& plan.members@ == members_moved(account, device, gs@, gs@.len() as int)
                &&& plan.events@ == member_events(plan.members@)
            },
            Err(e) => e == NodeError::CorruptState && !members_known(account, device, gs@),
        },
{
    let rule = DeliveryRule::Retire { account, device };
    let none: Vec<ContentId> = Vec::new();
    assert(none@ =~= Seq::empty());
    let mut plan = RetirePlan { deliveries: Vec::new(), members: Vec::new(), events: Vec::new() };
    let mut i: usize = 0;
    assert(plan.events@ =~= member_events(plan.members@));
    while i < gs.len()
        invariant
            i <= gs@.len(),
            none@ == Seq::<ContentId>::empty(),
            rule == (DeliveryRule::Retire { account, device }),
            plan.deliveries@ == retired_all(account, device, gs@, i as int),
            plan.members@ == members_moved(account, device, gs@, i as int),
            plan.events@ == member_events(plan.members@),
            forall|k: int|
                #![trigger gs@[k]]
                0 <= k < i && retired(account, device, gs@[k]).len() > 0 ==> member_index(
                    gs@[k].members@,
                    account,
                    0,
                ) < gs@[k].members@.len(),
        decreases gs@.len() - i,
    {
        let g = &gs[i];
        if g.direction == Direction::Outbound {
            let rows = apply_rule_all(rule, &none, &g.deliveries);
            push_rows(&mut plan.deliveries, &rows.changed);
            if rows.changed.len() > 0 {
                assert(retired(account, device, gs@[i as int]).len() > 0);
                let at = find_member(&g.members, account);
                if at >= g.members.len() {
                    return Err(NodeError::CorruptState);
                }
                let ours = account_rows(account, &rows.after);
                let after = MemberDelivery {
                    peer: account,
                    state: furthest_state(&ours),
                    wire_id: first_wire_id(&ours),
                };
                if !same_member(&after, &g.members[at]) {
                    let change = MemberChange { message: g.id, member: at, after };
                    let ghost changes = plan.members@;
                    plan.members.push(change);
                    plan.events.push(
                        Event::GroupDeliveryUpdated {
                            id: g.id,
                            peer: account,
                            state: after.state,
                        },
                    );
                    assert(plan.events@ =~= member_events(changes.push(change)));
                }
            }
        } else {
            assert(plan.deliveries@ + retired(account, device, *g) =~= plan.deliveries@);
        }
        i = i + 1;
    }
    Ok(plan)
}

// ---- Laws ----

/// Every copy that the rule changes, of every message it concerns, is written, and nothing
/// else is. Received messages are never touched.
pub proof fn law_restarts_reach_every_copy(
    rule: DeliveryRule,
    hs: Seq<History>,
    n: int,
    change: (DeliveryRow, DeliveryRow),
)
    requires
        0 <= n <= hs.len(),
    ensures
        restarted_all(rule, hs, n).contains(change) <==> exists|i: int|
            0 <= i < n && restarts(rule, #[trigger] hs[i], change),
    decreases n,
{
    if n > 0 {
        law_restarts_reach_every_copy(rule, hs, n - 1, change);
        let h = hs[n - 1];
        let ds = h.deliveries@;
        crate::delivery::law_changed_copies_are_reported(
            rule,
            Seq::empty(),
            ds,
            ds.len() as int,
        );
        let prior = restarted_all(rule, hs, n - 1);
        let more = restarted(rule, h);
        let all = restarted_all(rule, hs, n);
        if more.contains(change) {
            let k = choose|k: int| 0 <= k < more.len() && more[k] == change;
            assert(all[prior.len() + k] == change);
            assert(transitions(rule, Seq::empty(), ds, ds.len() as int)[k] == change);
            assert(restarts(rule, hs[n - 1], change));
        }
        if prior.contains(change) {
            let k = choose|k: int| 0 <= k < prior.len() && prior[k] == change;
            assert(all[k] == change);
            let i = choose|i: int| 0 <= i < n - 1 && restarts(rule, #[trigger] hs[i], change);
            assert(restarts(rule, hs[i], change));
        }
        if all.contains(change) {
            let k = choose|k: int| 0 <= k < all.len() && all[k] == change;
            if k < prior.len() {
                assert(prior[k] == change);
            } else {
                assert(more[k - prior.len()] == change);
            }
        }
        if exists|i: int| 0 <= i < n && restarts(rule, #[trigger] hs[i], change) {
            let i = choose|i: int| 0 <= i < n && restarts(rule, #[trigger] hs[i], change);
            if i < n - 1 {
                assert(prior.contains(change));
            } else {
                let j = choose|j: int| 0 <= j < ds.len() && #[trigger] ds[j] == change.0;
                assert(ruled(rule, Seq::empty(), ds[j]) != ds[j]);
                assert(more.contains(change));
            }
        }
    }
}

/// The change is what the rule makes of a copy of this message, which it concerns: an own
/// message, and for an unconfirmed session one that is neither delivered nor given up.
pub open spec fn restarts(
    rule: DeliveryRule,
    h: History,
    change: (DeliveryRow, DeliveryRow),
) -> bool {
    &&& h.message.direction == Direction::Outbound
    &&& rule is Unconfirm ==> h.message.state != DeliveryState::Delivered && h.message.state
        != DeliveryState::Failed
    &&& exists|j: int| 0 <= j < h.deliveries@.len() && #[trigger] h.deliveries@[j] == change.0
    &&& change.1 == ruled(rule, Seq::empty(), change.0)
    &&& change.1 != change.0
}

/// A message whose copies changed follows them: it is as far as its furthest copy, names the
/// first envelope that is left, and keeps everything else.
pub proof fn law_messages_follow_their_copies(rule: DeliveryRule, h: History)
    ensures
        ({
            let after = message_after(rule, h);
            let ds = h.deliveries@.map_values(|d: DeliveryRow| ruled(rule, Seq::empty(), d));
            &&& after.id == h.message.id
            &&& after.peer == h.message.peer
            &&& after.direction == h.message.direction
            &&& after.timestamp == h.message.timestamp
            &&& after.state == furthest(ds)
            &&& after.wire_id == first_wire(ds, ds.len() as int)
        }),
{
}

/// The message has changed copies and differs after them.
pub open spec fn moves(rule: DeliveryRule, h: History) -> bool {
    &&& exists|change: (DeliveryRow, DeliveryRow)| restarts(rule, h, change)
    &&& message_after(rule, h) != h.message
}

proof fn lemma_restarted_some(rule: DeliveryRule, h: History)
    ensures
        restarted(rule, h).len() > 0 <==> exists|change: (DeliveryRow, DeliveryRow)| restarts(
            rule,
            h,
            change,
        ),
{
    let ds = h.deliveries@;
    crate::delivery::law_changed_copies_are_reported(rule, Seq::empty(), ds, ds.len() as int);
    let all = transitions(rule, Seq::empty(), ds, ds.len() as int);
    if restarted(rule, h).len() > 0 {
        assert(restarts(rule, h, all[0]));
    }
    if exists|change: (DeliveryRow, DeliveryRow)| restarts(rule, h, change) {
        let change = choose|change: (DeliveryRow, DeliveryRow)| restarts(rule, h, change);
        let j = choose|j: int| 0 <= j < ds.len() && #[trigger] ds[j] == change.0;
        assert(ruled(rule, Seq::empty(), ds[j]) != ds[j]);
        assert(all.contains(change));
    }
}

/// Every message that its changed copies move is written once, and no other.
pub proof fn law_moved_messages_are_written(
    rule: DeliveryRule,
    hs: Seq<History>,
    n: int,
    change: (MessageRow, MessageRow),
)
    requires
        0 <= n <= hs.len(),
    ensures
        messages_moved(rule, hs, n).contains(change) <==> exists|i: int|
            0 <= i < n && moves(rule, #[trigger] hs[i]) && change == (
                hs[i].message,
                message_after(rule, hs[i]),
            ),
    decreases n,
{
    if n > 0 {
        law_moved_messages_are_written(rule, hs, n - 1, change);
        lemma_restarted_some(rule, hs[n - 1]);
        let prior = messages_moved(rule, hs, n - 1);
        let all = messages_moved(rule, hs, n);
        if prior.contains(change) {
            let k = choose|k: int| 0 <= k < prior.len() && prior[k] == change;
            assert(all[k] == change);
            let i = choose|i: int|
                0 <= i < n - 1 && moves(rule, #[trigger] hs[i]) && change == (
                    hs[i].message,
                    message_after(rule, hs[i]),
                );
            assert(moves(rule, hs[i]));
        }
        if moves(rule, hs[n - 1]) && change == (hs[n - 1].message, message_after(rule, hs[n - 1])) {
            assert(all.last() == change);
        }
        if all.contains(change) && !prior.contains(change) {
            let k = choose|k: int| 0 <= k < all.len() && all[k] == change;
            assert(k == prior.len());
            assert(moves(rule, hs[n - 1]));
        }
    }
}

/// A message with changed copies is told of when it moved, and after an unconfirmed session
/// in any case.
pub proof fn law_restarted_messages_are_told_of(
    rule: DeliveryRule,
    hs: Seq<History>,
    n: int,
    i: int,
)
    requires
        0 <= i < n <= hs.len(),
        exists|change: (DeliveryRow, DeliveryRow)| restarts(rule, hs[i], change),
    ensures
        restarted_ids(rule, hs, n).contains(hs[i].message.id),
        rule is Unconfirm || message_after(rule, hs[i]) != hs[i].message ==> restart_events(
            rule,
            hs,
            n,
        ).contains(
            Event::DeliveryUpdated {
                id: hs[i].message.id,
                state: message_after(rule, hs[i]).state,
            },
        ),
    decreases n,
{
    let event = Event::DeliveryUpdated {
        id: hs[i].message.id,
        state: message_after(rule, hs[i]).state,
    };
    let ids = restarted_ids(rule, hs, n);
    let events = restart_events(rule, hs, n);
    lemma_restarted_some(rule, hs[n - 1]);
    if i < n - 1 {
        law_restarted_messages_are_told_of(rule, hs, n - 1, i);
        let before = restarted_ids(rule, hs, n - 1);
        let k = choose|k: int| 0 <= k < before.len() && before[k] == hs[i].message.id;
        assert(ids[k] == hs[i].message.id);
        if rule is Unconfirm || message_after(rule, hs[i]) != hs[i].message {
            let told = restart_events(rule, hs, n - 1);
            let k = choose|k: int| 0 <= k < told.len() && told[k] == event;
            assert(events[k] == event);
        }
    } else {
        assert(ids.last() == hs[i].message.id);
        if rule is Unconfirm || message_after(rule, hs[i]) != hs[i].message {
            assert(events.last() == event);
        }
    }
}

/// Each queued envelope that goes is deleted under its own sequence number, and no other is.
pub proof fn law_deletions_name_their_envelopes(
    queue: Seq<QueueItem>,
    gone: spec_fn(QueueItem) -> bool,
    i: int,
)
    requires
        0 <= i < queue.len(),
    ensures
        gone(queue[i]) ==> deletions(queue, gone).contains(
            QueueDelete { sequence: queue[i].sequence, content_id: queue[i].content_id },
        ),
        deletions(queue, gone).len() == queue.filter(gone).len(),
{
    crate::seqs::lemma_filter_kept(queue, gone);
    if gone(queue[i]) {
        let kept = queue.filter(gone);
        queue.lemma_filter_contains_rev(gone, queue[i]);
        let k = choose|k: int| 0 <= k < kept.len() && kept[k] == queue[i];
        assert(deletions(queue, gone)[k] == deletion(queue[i]));
    }
}

/// An envelope carries one of the messages to the device exactly when it goes to that device
/// and names one of them.
pub proof fn law_carried_messages(ids: Seq<ContentId>, device: Id, item: QueueItem)
    ensures
        item.peer != device ==> !carries_to(ids, device, item),
        item.msg_id is None ==> !carries_to(ids, device, item),
        item.peer == device && item.msg_id is Some ==> carries_to(ids, device, item)
            == ids.contains(item.msg_id->0),
{
}

/// Copies of a group message that a replaced session carried are given up, and only those of
/// own group messages.
pub proof fn law_replaced_sessions_give_up_group_copies(
    account: Id,
    device: Id,
    g: GroupHistory,
    j: int,
)
    requires
        0 <= j < g.deliveries@.len(),
    ensures
        ({
            let d = g.deliveries@[j];
            let open = d.state == DeliveryState::Queued || d.state == DeliveryState::Sent;
            &&& g.direction == Direction::Outbound && d.account == account && d.device == device
                && open ==> retired(account, device, g).contains(
                (d, DeliveryRow { state: DeliveryState::Failed, wire_id: None, ..d }),
            )
            &&& g.direction != Direction::Outbound ==> retired(account, device, g).len() == 0
        }),
{
    let ds = g.deliveries@;
    let rule = DeliveryRule::Retire { account, device };
    crate::delivery::law_changed_copies_are_reported(rule, Seq::empty(), ds, ds.len() as int);
    let d = ds[j];
    if d.account == account && d.device == device && (d.state == DeliveryState::Queued || d.state
        == DeliveryState::Sent) {
        assert(ruled(rule, Seq::empty(), d).state == DeliveryState::Failed);
        assert(ruled(rule, Seq::empty(), ds[j]) != ds[j]);
    }
}

/// A member is as far as its furthest copy, and is told of under its own account.
pub proof fn law_members_follow_their_copies(account: Id, device: Id, g: GroupHistory)
    ensures
        ({
            let rule = DeliveryRule::Retire { account, device };
            let ds = g.deliveries@.map_values(|d: DeliveryRow| ruled(rule, Seq::empty(), d)).filter(
                |d: DeliveryRow| d.account == account,
            );
            let after = member_after(account, device, g);
            &&& after.peer == account
            &&& after.state == furthest(ds)
            &&& after.wire_id == first_wire(ds, ds.len() as int)
        }),
{
}

/// Each change of a member is told as such.
pub proof fn law_member_changes_are_told(changes: Seq<MemberChange>, k: int)
    requires
        0 <= k < changes.len(),
    ensures
        member_events(changes).len() == changes.len(),
        member_events(changes)[k] == (Event::GroupDeliveryUpdated {
            id: changes[k].message,
            peer: changes[k].after.peer,
            state: changes[k].after.state,
        }),
{
}

/// A group whose member entry moves is written under the position of that member.
pub proof fn law_moved_members_are_written(
    account: Id,
    device: Id,
    gs: Seq<GroupHistory>,
    n: int,
    i: int,
    at: int,
)
    requires
        0 <= i < n <= gs.len(),
        0 <= at < gs[i].members@.len() <= usize::MAX,
        gs[i].members@[at].peer == account,
        forall|k: int| 0 <= k < at ==> (#[trigger] gs[i].members@[k]).peer != account,
        retired(account, device, gs[i]).len() > 0,
        member_after(account, device, gs[i]) != gs[i].members@[at],
    ensures
        members_moved(account, device, gs, n).contains(
            MemberChange {
                message: gs[i].id,
                member: at as usize,
                after: member_after(account, device, gs[i]),
            },
        ),
    decreases n,
{
    let change = MemberChange {
        message: gs[i].id,
        member: at as usize,
        after: member_after(account, device, gs[i]),
    };
    let all = members_moved(account, device, gs, n);
    if i < n - 1 {
        law_moved_members_are_written(account, device, gs, n - 1, i, at);
        let prior = members_moved(account, device, gs, n - 1);
        let k = choose|k: int| 0 <= k < prior.len() && prior[k] == change;
        assert(all[k] == change);
    } else {
        lemma_member_at(gs[i].members@, account, 0, at);
        assert(all.last() == change);
    }
}

proof fn lemma_member_at(members: Seq<MemberDelivery>, account: Id, from: int, at: int)
    requires
        0 <= from <= at < members.len(),
        members[at].peer == account,
        forall|k: int| from <= k < at ==> (#[trigger] members[k]).peer != account,
    ensures
        member_index(members, account, from) == at,
    decreases at - from,
{
    if from < at {
        lemma_member_at(members, account, from + 1, at);
    }
}

/// The groups of a replaced session are in order exactly when each one that loses a copy
/// lists the account among its members.
pub proof fn law_members_that_must_be_known(
    account: Id,
    device: Id,
    gs: Seq<GroupHistory>,
    i: int,
)
    requires
        0 <= i < gs.len(),
        retired(account, device, gs[i]).len() > 0,
    ensures
        (forall|k: int| 0 <= k < gs[i].members@.len() ==> (#[trigger] gs[i].members@[k]).peer
            != account) ==> !members_known(account, device, gs),
        (forall|g: int|
            0 <= g < gs.len() ==> exists|k: int|
                0 <= k < (#[trigger] gs[g]).members@.len() && (
                #[trigger] gs[g].members@[k]).peer == account) ==> members_known(
            account,
            device,
            gs,
        ),
{
    let ms = gs[i].members@;
    lemma_member_found(ms, account, 0);
    if forall|g: int|
        0 <= g < gs.len() ==> exists|k: int|
            0 <= k < (#[trigger] gs[g]).members@.len() && (#[trigger] gs[g].members@[k]).peer
                == account {
        assert forall|g: int|
            #![trigger gs[g]]
            0 <= g < gs.len() && retired(account, device, gs[g]).len() > 0 implies member_index(
            gs[g].members@,
            account,
            0,
        ) < gs[g].members@.len() by {
            lemma_member_found(gs[g].members@, account, 0);
        }
    }
}

proof fn lemma_member_found(members: Seq<MemberDelivery>, account: Id, from: int)
    requires
        0 <= from <= members.len(),
    ensures
        from <= member_index(members, account, from) <= members.len(),
        member_index(members, account, from) < members.len() ==> members[member_index(
            members,
            account,
            from,
        )].peer == account,
        forall|k: int|
            from <= k < member_index(members, account, from) ==> (#[trigger] members[k]).peer
                != account,
    decreases members.len() - from,
{
    if from < members.len() && members[from].peer != account {
        lemma_member_found(members, account, from + 1);
    }
}

/// A message without changed copies is neither written, nor told of, nor counted as
/// restarted.
pub proof fn law_untouched_messages_stay(rule: DeliveryRule, hs: Seq<History>, n: int)
    requires
        0 <= n < hs.len(),
        forall|change: (DeliveryRow, DeliveryRow)| !restarts(rule, hs[n], change),
    ensures
        messages_moved(rule, hs, n + 1) == messages_moved(rule, hs, n),
        restarted_all(rule, hs, n + 1) == restarted_all(rule, hs, n),
        restart_events(rule, hs, n + 1) == restart_events(rule, hs, n),
        restarted_ids(rule, hs, n + 1) == restarted_ids(rule, hs, n),
{
    lemma_restarted_some(rule, hs[n]);
    assert(restarted(rule, hs[n]) =~= Seq::empty());
    assert(restarted_all(rule, hs, n + 1) =~= restarted_all(rule, hs, n));
}

/// A message with changed copies is counted as restarted once, and told of at most once.
pub proof fn law_restarted_messages_are_counted_once(
    rule: DeliveryRule,
    hs: Seq<History>,
    n: int,
)
    requires
        0 <= n < hs.len(),
        exists|change: (DeliveryRow, DeliveryRow)| restarts(rule, hs[n], change),
    ensures
        restarted_ids(rule, hs, n + 1) == restarted_ids(rule, hs, n).push(hs[n].message.id),
        !(rule is Unconfirm) && message_after(rule, hs[n]) == hs[n].message ==> restart_events(
            rule,
            hs,
            n + 1,
        ) == restart_events(rule, hs, n),
{
    lemma_restarted_some(rule, hs[n]);
}

} // verus!
