//! How copies of messages move between delivery states.

use vstd::prelude::*;

use crate::bytes::{same, same_option, ContentId, Id};
use crate::records::{DeliveryRow, DeliveryState, MessageRow};
use crate::wire::constant_time_same;

verus! {

/// What happens to the copies of a message.
#[derive(Clone, Copy)]
pub enum DeliveryRule {
    /// The session with `device` was replaced: what was under way starts over.
    Renegotiate {
        /// The device.
        device: Id,
    },
    /// The session with `device` was dropped unconfirmed: all but receipts starts over.
    Unconfirm {
        /// The device.
        device: Id,
    },
    /// The session with `device` was replaced: group copies under way are given up.
    Retire {
        /// Account of the device.
        account: Id,
        /// The device.
        device: Id,
    },
    /// The delivery window passed: what is not settled is given up.
    Expire,
    /// A carrier accepted the copy for `device`.
    HandOff {
        /// The device.
        device: Id,
    },
    /// `device` sent a receipt.
    Acknowledge {
        /// Account of the device, where copies of several accounts are mixed.
        account: Option<Id>,
        /// The device.
        device: Id,
    },
}

/// Delivered or given up.
pub open spec fn is_settled(state: DeliveryState) -> bool {
    state == DeliveryState::Delivered || state == DeliveryState::Failed
}

/// The envelope that carries the copy is among the receipts.
pub open spec fn is_acked(acks: Seq<ContentId>, wire_id: Option<ContentId>) -> bool {
    match wire_id {
        Some(id) => acks.contains(id),
        None => false,
    }
}

/// A copy after the rule.
pub open spec fn ruled(rule: DeliveryRule, acks: Seq<ContentId>, d: DeliveryRow) -> DeliveryRow {
    match rule {
        DeliveryRule::Renegotiate { device } => if d.device == device && !is_settled(d.state) {
            DeliveryRow { state: DeliveryState::Queued, wire_id: None, ..d }
        } else {
            d
        },
        DeliveryRule::Unconfirm { device } => if d.device == device && d.state
            != DeliveryState::Delivered {
            DeliveryRow { state: DeliveryState::Queued, wire_id: None, ..d }
        } else {
            d
        },
        DeliveryRule::Retire { account, device } => if d.account == account && d.device == device
            && !is_settled(d.state) {
            DeliveryRow { state: DeliveryState::Failed, wire_id: None, ..d }
        } else {
            d
        },
        DeliveryRule::Expire => if !is_settled(d.state) {
            DeliveryRow { state: DeliveryState::Failed, ..d }
        } else {
            d
        },
        DeliveryRule::HandOff { device } => if d.device == device && d.state
            == DeliveryState::Queued {
            DeliveryRow { state: DeliveryState::Sent, ..d }
        } else {
            d
        },
        DeliveryRule::Acknowledge { account, device } => if (account is None || account == Some(
            d.account,
        )) && d.device == device && is_acked(acks, d.wire_id) {
            DeliveryRow { state: DeliveryState::Delivered, ..d }
        } else {
            d
        },
    }
}

/// The first `n` copies after the rule.
pub open spec fn ruled_all(
    rule: DeliveryRule,
    acks: Seq<ContentId>,
    ds: Seq<DeliveryRow>,
) -> Seq<DeliveryRow> {
    ds.map_values(|d: DeliveryRow| ruled(rule, acks, d))
}

/// The copies among the first `n` that the rule changes, before and after.
pub open spec fn transitions(
    rule: DeliveryRule,
    acks: Seq<ContentId>,
    ds: Seq<DeliveryRow>,
    n: int,
) -> Seq<(DeliveryRow, DeliveryRow)>
    decreases n,
{
    if n <= 0 {
        Seq::empty()
    } else {
        let prior = transitions(rule, acks, ds, n - 1);
        let d = ds[n - 1];
        if ruled(rule, acks, d) != d {
            prior.push((d, ruled(rule, acks, d)))
        } else {
            prior
        }
    }
}

/// Some copy is in the given state.
pub open spec fn any_in(ds: Seq<DeliveryRow>, state: DeliveryState) -> bool {
    exists|i: int| 0 <= i < ds.len() && (#[trigger] ds[i]).state == state
}

/// The furthest state that any copy has come to.
pub open spec fn furthest(ds: Seq<DeliveryRow>) -> DeliveryState {
    if any_in(ds, DeliveryState::Delivered) {
        DeliveryState::Delivered
    } else if any_in(ds, DeliveryState::Sent) {
        DeliveryState::Sent
    } else if any_in(ds, DeliveryState::Queued) {
        DeliveryState::Queued
    } else {
        DeliveryState::Failed
    }
}

/// The first envelope that carries one of the first `n` copies.
pub open spec fn first_wire(ds: Seq<DeliveryRow>, n: int) -> Option<ContentId>
    decreases n,
{
    if n <= 0 {
        None
    } else {
        match first_wire(ds, n - 1) {
            Some(id) => Some(id),
            None => ds[n - 1].wire_id,
        }
    }
}

/// Whether two copies are the same.
pub fn same_delivery(a: &DeliveryRow, b: &DeliveryRow) -> (res: bool)
    ensures
        res == (*a == *b),
{
    same(&a.message, &b.message) && same(&a.account, &b.account) && same(&a.device, &b.device)
        && a.state == b.state && same_option(&a.wire_id, &b.wire_id)
}

/// Whether two messages are the same.
pub fn same_message(a: &MessageRow, b: &MessageRow) -> (res: bool)
    ensures
        res == (*a == *b),
{
    same(&a.id, &b.id) && same(&a.peer, &b.peer) && a.direction == b.direction && a.state
        == b.state && a.timestamp == b.timestamp && same_option(&a.wire_id, &b.wire_id)
}

/// Whether a content identity is in a list, compared in constant time.
pub fn contains_ack(acks: &Vec<ContentId>, id: &ContentId) -> (res: bool)
    ensures
        res == acks@.contains(*id),
{
    let mut i: usize = 0;
    while i < acks.len()
        invariant
            i <= acks@.len(),
            forall|k: int| 0 <= k < i ==> #[trigger] acks@[k] != *id,
        decreases acks@.len() - i,
    {
        if constant_time_same(acks[i].as_slice(), id.as_slice()) {
            proof {
                lemma_same_view(acks@[i as int], *id);
            }
            return true;
        }
        i = i + 1;
    }
    false
}

/// Content identities with the same bytes are the same.
proof fn lemma_same_view(a: ContentId, b: ContentId)
    requires
        a@ == b@,
    ensures
        a == b,
{
    assert forall|i: int| 0 <= i < 16 implies a[i] == b[i] by {
        assert(a@[i] == b@[i]);
    }
    assert(a =~= b);
}

/// Whether the envelope that carries a copy is among the receipts.
pub fn wire_acked(acks: &Vec<ContentId>, wire_id: &Option<ContentId>) -> (res: bool)
    ensures
        res == is_acked(acks@, *wire_id),
{
    match wire_id {
        Some(id) => contains_ack(acks, id),
        None => false,
    }
}

fn settled(state: DeliveryState) -> (res: bool)
    ensures
        res == is_settled(state),
{
    state == DeliveryState::Delivered || state == DeliveryState::Failed
}

/// A copy after the rule.
pub fn apply_rule(rule: DeliveryRule, acks: &Vec<ContentId>, d: DeliveryRow) -> (after: DeliveryRow)
    ensures
        after == ruled(rule, acks@, d),
{
    let (hit, state, keep_wire) = match rule {
        DeliveryRule::Renegotiate { device } => (
            same(&d.device, &device) && !settled(d.state),
            DeliveryState::Queued,
            false,
        ),
        DeliveryRule::Unconfirm { device } => (
            same(&d.device, &device) && d.state != DeliveryState::Delivered,
            DeliveryState::Queued,
            false,
        ),
        DeliveryRule::Retire { account, device } => (
            same(&d.account, &account) && same(&d.device, &device) && !settled(d.state),
            DeliveryState::Failed,
            false,
        ),
        DeliveryRule::Expire => (!settled(d.state), DeliveryState::Failed, true),
        DeliveryRule::HandOff { device } => (
            same(&d.device, &device) && d.state == DeliveryState::Queued,
            DeliveryState::Sent,
            true,
        ),
        DeliveryRule::Acknowledge { account, device } => {
            let ours = match account {
                Some(account) => same(&account, &d.account),
                None => true,
            };
            (
                ours && same(&d.device, &device) && wire_acked(acks, &d.wire_id),
                DeliveryState::Delivered,
                true,
            )
        },
    };
    if hit {
        DeliveryRow {
            message: d.message,
            account: d.account,
            device: d.device,
            state,
            wire_id: if keep_wire { d.wire_id } else { None },
        }
    } else {
        d
    }
}

/// Copies after a rule, and those among them that it changed.
pub struct RuledRows {
    /// All copies, after.
    pub after: Vec<DeliveryRow>,
    /// The changed copies, before and after.
    pub changed: Vec<(DeliveryRow, DeliveryRow)>,
}

/// Apply a rule to the copies of a message.
pub fn apply_rule_all(rule: DeliveryRule, acks: &Vec<ContentId>, ds: &Vec<DeliveryRow>) -> (res:
    RuledRows)
    ensures
        res.after@ == ruled_all(rule, acks@, ds@),
        res.changed@ == transitions(rule, acks@, ds@, ds@.len() as int),
{
    let mut after: Vec<DeliveryRow> = Vec::new();
    let mut changed: Vec<(DeliveryRow, DeliveryRow)> = Vec::new();
    let mut i: usize = 0;
    while i < ds.len()
        invariant
            i <= ds@.len(),
            after@.len() == i,
            forall|k: int| 0 <= k < i ==> #[trigger] after@[k] == ruled(rule, acks@, ds@[k]),
            changed@ == transitions(rule, acks@, ds@, i as int),
        decreases ds@.len() - i,
    {
        let d = ds[i];
        let new = apply_rule(rule, acks, d);
        if !same_delivery(&new, &d) {
            changed.push((d, new));
        }
        after.push(new);
        i = i + 1;
    }
    assert(after@ =~= ruled_all(rule, acks@, ds@));
    RuledRows { after, changed }
}

fn has_state(ds: &Vec<DeliveryRow>, state: DeliveryState) -> (res: bool)
    ensures
        res == any_in(ds@, state),
{
    let mut i: usize = 0;
    while i < ds.len()
        invariant
            i <= ds@.len(),
            forall|k: int| 0 <= k < i ==> (#[trigger] ds@[k]).state != state,
        decreases ds@.len() - i,
    {
        if ds[i].state == state {
            assert(ds@[i as int].state == state);
            return true;
        }
        i = i + 1;
    }
    false
}

/// The furthest state that any copy has come to.
pub fn furthest_state(ds: &Vec<DeliveryRow>) -> (state: DeliveryState)
    ensures
        state == furthest(ds@),
{
    if has_state(ds, DeliveryState::Delivered) {
        DeliveryState::Delivered
    } else if has_state(ds, DeliveryState::Sent) {
        DeliveryState::Sent
    } else if has_state(ds, DeliveryState::Queued) {
        DeliveryState::Queued
    } else {
        DeliveryState::Failed
    }
}

/// The first envelope that carries one of the copies.
pub fn first_wire_id(ds: &Vec<DeliveryRow>) -> (res: Option<ContentId>)
    ensures
        res == first_wire(ds@, ds@.len() as int),
{
    let mut res: Option<ContentId> = None;
    let mut i: usize = 0;
    while i < ds.len()
        invariant
            i <= ds@.len(),
            res == first_wire(ds@, i as int),
        decreases ds@.len() - i,
    {
        if res.is_none() {
            res = ds[i].wire_id;
        }
        i = i + 1;
    }
    res
}

// ---- Laws ----

/// Only a receipt makes a copy delivered: every other rule leaves a copy that was not
/// delivered undelivered.
pub proof fn law_only_receipts_deliver(
    rule: DeliveryRule,
    acks: Seq<ContentId>,
    d: DeliveryRow,
)
    requires
        d.state != DeliveryState::Delivered,
        ruled(rule, acks, d).state == DeliveryState::Delivered,
    ensures
        rule is Acknowledge,
        rule->Acknowledge_device == d.device,
        is_acked(acks, d.wire_id),
{
}

/// Only a carrier's acceptance makes a copy sent.
pub proof fn law_only_hand_off_sends(rule: DeliveryRule, acks: Seq<ContentId>, d: DeliveryRow)
    requires
        d.state != DeliveryState::Sent,
        ruled(rule, acks, d).state == DeliveryState::Sent,
    ensures
        rule is HandOff,
        d.state == DeliveryState::Queued,
{
}

/// No rule takes back a delivered copy.
pub proof fn law_delivered_is_final(rule: DeliveryRule, acks: Seq<ContentId>, d: DeliveryRow)
    requires
        d.state == DeliveryState::Delivered,
    ensures
        ruled(rule, acks, d) == d,
{
}

/// A rule for one device leaves the copies for every other device as they are.
pub proof fn law_other_devices_untouched(
    rule: DeliveryRule,
    acks: Seq<ContentId>,
    d: DeliveryRow,
)
    requires
        match rule {
            DeliveryRule::Renegotiate { device } => d.device != device,
            DeliveryRule::Unconfirm { device } => d.device != device,
            DeliveryRule::Retire { account, device } => d.device != device,
            DeliveryRule::Expire => false,
            DeliveryRule::HandOff { device } => d.device != device,
            DeliveryRule::Acknowledge { account, device } => d.device != device,
        },
    ensures
        ruled(rule, acks, d) == d,
{
}

/// Applying a rule twice changes nothing more: a repeated receipt, hand-off or sweep is
/// harmless.
pub proof fn law_rules_are_idempotent(rule: DeliveryRule, acks: Seq<ContentId>, d: DeliveryRow)
    ensures
        ruled(rule, acks, ruled(rule, acks, d)) == ruled(rule, acks, d),
{
}

/// After a session was renegotiated, no copy for the device is still under way with an
/// envelope of the old session.
pub proof fn law_renegotiation_leaves_nothing_in_flight(
    device: Id,
    acks: Seq<ContentId>,
    d: DeliveryRow,
)
    requires
        d.device == device,
    ensures
        ({
            let after = ruled(DeliveryRule::Renegotiate { device }, acks, d);
            is_settled(after.state) || (after.state == DeliveryState::Queued && after.wire_id
                is None)
        }),
{
}

/// A carrier's acceptance makes the copy for its device sent where it was queued, and changes
/// nothing else of it.
pub proof fn law_hand_off_sends(device: Id, acks: Seq<ContentId>, d: DeliveryRow)
    requires
        d.device == device,
    ensures
        d.state == DeliveryState::Queued ==> ruled(DeliveryRule::HandOff { device }, acks, d) == (
        DeliveryRow { state: DeliveryState::Sent, ..d }),
        d.state != DeliveryState::Queued ==> ruled(DeliveryRule::HandOff { device }, acks, d) == d,
{
}

/// A receipt of a device delivers its copy when it names the envelope, whatever state the copy
/// was in, and leaves it otherwise.
pub proof fn law_receipts_deliver_what_they_name(
    device: Id,
    acks: Seq<ContentId>,
    d: DeliveryRow,
    id: ContentId,
)
    requires
        d.device == device,
        d.wire_id == Some(id),
    ensures
        acks.contains(id) ==> ruled(
            DeliveryRule::Acknowledge { account: None, device },
            acks,
            d,
        ) == (DeliveryRow { state: DeliveryState::Delivered, ..d }),
        acks.contains(id) ==> ruled(
            DeliveryRule::Acknowledge { account: Some(d.account), device },
            acks,
            d,
        ) == (DeliveryRow { state: DeliveryState::Delivered, ..d }),
        !acks.contains(id) ==> ruled(
            DeliveryRule::Acknowledge { account: None, device },
            acks,
            d,
        ) == d,
{
}

/// A receipt of one account leaves the copies for another as they are.
pub proof fn law_receipts_deliver_to_their_account(
    account: Id,
    device: Id,
    acks: Seq<ContentId>,
    d: DeliveryRow,
)
    requires
        d.account != account,
    ensures
        ruled(DeliveryRule::Acknowledge { account: Some(account), device }, acks, d) == d,
{
}

/// When the delivery window has passed, what was queued or sent is given up with its envelope
/// known; what was delivered or given up stays.
pub proof fn law_expiry_gives_up(acks: Seq<ContentId>, d: DeliveryRow)
    ensures
        d.state == DeliveryState::Queued || d.state == DeliveryState::Sent ==> ruled(
            DeliveryRule::Expire,
            acks,
            d,
        ) == (DeliveryRow { state: DeliveryState::Failed, ..d }),
        d.state == DeliveryState::Failed ==> ruled(DeliveryRule::Expire, acks, d) == d,
{
}

/// When a session is replaced, a copy for its device that was queued or sent starts over; when
/// it was dropped unconfirmed, one that was given up starts over too. When group copies are
/// retired, what was under way is given up.
pub proof fn law_replaced_sessions_start_over(
    account: Id,
    device: Id,
    acks: Seq<ContentId>,
    d: DeliveryRow,
)
    requires
        d.device == device,
        d.account == account,
    ensures
        d.state == DeliveryState::Queued || d.state == DeliveryState::Sent ==> {
            let again = DeliveryRow { state: DeliveryState::Queued, wire_id: None, ..d };
            &&& ruled(DeliveryRule::Renegotiate { device }, acks, d) == again
            &&& ruled(DeliveryRule::Unconfirm { device }, acks, d) == again
            &&& ruled(DeliveryRule::Retire { account, device }, acks, d) == (DeliveryRow {
                state: DeliveryState::Failed,
                wire_id: None,
                ..d
            })
        },
        d.state == DeliveryState::Failed ==> {
            &&& ruled(DeliveryRule::Renegotiate { device }, acks, d) == d
            &&& ruled(DeliveryRule::Unconfirm { device }, acks, d) == (DeliveryRow {
                state: DeliveryState::Queued,
                wire_id: None,
                ..d
            })
            &&& ruled(DeliveryRule::Retire { account, device }, acks, d) == d
        },
{
}

/// No rule changes which message a copy is of, or whom it is for.
pub proof fn law_rules_keep_the_copy(rule: DeliveryRule, acks: Seq<ContentId>, d: DeliveryRow)
    ensures
        ruled(rule, acks, d).message == d.message,
        ruled(rule, acks, d).account == d.account,
        ruled(rule, acks, d).device == d.device,
{
}

/// A message is as far as its furthest copy: delivered before sent, sent before queued, and
/// given up only where every copy is.
pub proof fn law_messages_are_as_far_as_their_furthest_copy(ds: Seq<DeliveryRow>, i: int)
    requires
        0 <= i < ds.len(),
    ensures
        ds[i].state == DeliveryState::Delivered ==> furthest(ds) == DeliveryState::Delivered,
        ds[i].state == DeliveryState::Sent ==> furthest(ds) == DeliveryState::Delivered || furthest(
            ds,
        ) == DeliveryState::Sent,
        ds[i].state == DeliveryState::Queued ==> furthest(ds) != DeliveryState::Failed,
        furthest(ds) == DeliveryState::Delivered ==> exists|k: int|
            0 <= k < ds.len() && (#[trigger] ds[k]).state == DeliveryState::Delivered,
        furthest(ds) == DeliveryState::Sent ==> exists|k: int|
            0 <= k < ds.len() && (#[trigger] ds[k]).state == DeliveryState::Sent,
        furthest(ds) == DeliveryState::Queued ==> exists|k: int|
            0 <= k < ds.len() && (#[trigger] ds[k]).state == DeliveryState::Queued,
{
}

/// A message goes by the envelope of the first of its copies that has one.
pub proof fn law_messages_go_by_their_first_envelope(ds: Seq<DeliveryRow>, n: int, i: int)
    requires
        0 <= i < n <= ds.len(),
        ds[i].wire_id is Some,
        forall|k: int| 0 <= k < i ==> (#[trigger] ds[k]).wire_id is None,
    ensures
        first_wire(ds, n) == ds[i].wire_id,
    decreases n,
{
    if n - 1 > i {
        law_messages_go_by_their_first_envelope(ds, n - 1, i);
    } else {
        lemma_no_envelope(ds, n - 1);
    }
}

proof fn lemma_no_envelope(ds: Seq<DeliveryRow>, n: int)
    requires
        0 <= n <= ds.len(),
        forall|k: int| 0 <= k < n ==> (#[trigger] ds[k]).wire_id is None,
    ensures
        first_wire(ds, n) is None,
    decreases n,
{
    if n > 0 {
        lemma_no_envelope(ds, n - 1);
    }
}

/// The rows that a rule changes are reported, each with what it becomes, and no others.
pub proof fn law_changed_copies_are_reported(
    rule: DeliveryRule,
    acks: Seq<ContentId>,
    ds: Seq<DeliveryRow>,
    n: int,
)
    requires
        0 <= n <= ds.len(),
    ensures
        forall|i: int|
            0 <= i < n && ruled(rule, acks, #[trigger] ds[i]) != ds[i] ==> transitions(
                rule,
                acks,
                ds,
                n,
            ).contains((ds[i], ruled(rule, acks, ds[i]))),
        forall|k: int|
            0 <= k < transitions(rule, acks, ds, n).len() ==> {
                let (before, after) = #[trigger] transitions(rule, acks, ds, n)[k];
                &&& before != after
                &&& after == ruled(rule, acks, before)
                &&& exists|i: int| 0 <= i < n && #[trigger] ds[i] == before
            },
        transitions(rule, acks, ds, n).len() <= n,
    decreases n,
{
    if n > 0 {
        law_changed_copies_are_reported(rule, acks, ds, n - 1);
        let prior = transitions(rule, acks, ds, n - 1);
        let all = transitions(rule, acks, ds, n);
        let d = ds[n - 1];
        assert forall|i: int|
            0 <= i < n && ruled(rule, acks, #[trigger] ds[i]) != ds[i] implies all.contains(
            (ds[i], ruled(rule, acks, ds[i])),
        ) by {
            let pair = (ds[i], ruled(rule, acks, ds[i]));
            if i < n - 1 {
                let at = choose|at: int| 0 <= at < prior.len() && prior[at] == pair;
                assert(all[at] == pair);
            } else {
                assert(all.last() == pair);
            }
        }
        assert forall|k: int| 0 <= k < all.len() implies {
            let (before, after) = #[trigger] all[k];
            &&& before != after
            &&& after == ruled(rule, acks, before)
            &&& exists|i: int| 0 <= i < n && #[trigger] ds[i] == before
        } by {
            if k < prior.len() {
                assert(all[k] == prior[k]);
                let i = choose|i: int| 0 <= i < n - 1 && #[trigger] ds[i] == prior[k].0;
                assert(ds[i] == all[k].0);
            } else {
                assert(ds[n - 1] == all[k].0);
            }
        }
    }
}

} // verus!
