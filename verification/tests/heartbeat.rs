use kult_node::admission::{AdmissionTransportClass, IngressClass};
use kult_node::heartbeat::{
    accepts_introduction, drains_carrier, drop_expired, group_by_peer, settle_pass, sweep_due,
    tick, tries_again, wake_tick, Arrival, ArrivalStep, Gather, Outcome, PendingDelete, TickStep, TransitGate,
    WorkItem, MAX_PENDING_WORK_PER_TICK, PENDING_TTL_SECS,
};
use kult_node::records::EnvelopeKind;
use kult_node::NodeError;

fn work(n: u8) -> WorkItem {
    WorkItem {
        sequence: Some(n as i64),
        content_id: [n; 16],
        encoded_len: 100,
        first_seen: 1_000,
        transport: AdmissionTransportClass::Direct,
        retention_until: None,
        source: 0,
    }
}

fn arrival(n: u8) -> Arrival {
    Arrival {
        content_id: [n; 16],
        kind: EnvelopeKind::Message,
        encoded_len: 100,
        retention_until: None,
        ingress: IngressClass::Direct,
        transport: AdmissionTransportClass::Direct,
        has_receipt: true,
        is_introduction: false,
        seen: false,
        source: 3,
    }
}

#[test]
fn pending_work_comes_first_and_copies_are_dropped() {
    let mut copy = work(1);
    copy.sequence = Some(9);
    let (gather, redundant) = Gather::begin(false, &vec![work(1), work(2), copy]);
    assert_eq!(redundant, vec![PendingDelete { sequence: 9, content_id: [1; 16] }]);
    let items: Vec<Option<i64>> = gather.into_work().iter().map(|w| w.sequence).collect();
    assert_eq!(items, vec![Some(1), Some(2)]);
}

#[test]
fn arrivals_are_staged_before_they_are_accepted() {
    let (mut gather, _) = Gather::begin(false, &Vec::new());
    assert_eq!(gather.offer(&arrival(5), 50), ArrivalStep::Stage);
    gather.staged(&arrival(5), 12, 50);
    assert_eq!(gather.offer(&arrival(5), 50), ArrivalStep::Settle { accept: true });
    let items = gather.into_work();
    assert_eq!(items.len(), 1);
    assert_eq!((items[0].sequence, items[0].first_seen, items[0].source), (Some(12), 50, 3));
}

#[test]
fn fragments_are_assembled_unaccepted() {
    let (mut gather, _) = Gather::begin(false, &Vec::new());
    let piece = Arrival { kind: EnvelopeKind::Fragment, ..arrival(5) };
    assert_eq!(gather.offer(&piece, 50), ArrivalStep::Assemble);
    let items = gather.into_work();
    assert_eq!((items.len(), items[0].sequence), (1, None));
}

#[test]
fn repeated_introductions_look_refused() {
    let (mut gather, _) = Gather::begin(false, &Vec::new());
    let intro = Arrival { kind: EnvelopeKind::Handshake, is_introduction: true, ..arrival(5) };
    assert_eq!(gather.offer(&intro, 50), ArrivalStep::ConsumeNow);
    gather.consumed_now([5; 16], true);
    assert_eq!(gather.offer(&intro, 50), ArrivalStep::Settle { accept: false });
    let (mut gather, _) = Gather::begin(false, &Vec::new());
    let seen = Arrival { seen: true, ..intro };
    assert_eq!(gather.offer(&seen, 50), ArrivalStep::Settle { accept: false });
    let (mut gather, _) = Gather::begin(true, &Vec::new());
    assert_eq!(gather.offer(&intro, 50), ArrivalStep::Settle { accept: false });
}

#[test]
fn work_of_one_pass_is_bounded() {
    let pending: Vec<WorkItem> = (0..100).map(work).collect();
    let (gather, _) = Gather::begin(false, &pending);
    assert_eq!(gather.into_work().len(), MAX_PENDING_WORK_PER_TICK);
    let (gather, _) = Gather::begin(true, &pending);
    assert_eq!(gather.into_work().len(), 32);
    let large: Vec<WorkItem> = (0..3).map(|n| WorkItem { encoded_len: 262_144, ..work(n) }).collect();
    let (gather, _) = Gather::begin(true, &large);
    assert_eq!(gather.into_work().len(), 2);
}

#[test]
fn foreign_envelopes_are_passed_on_once_each_way() {
    let mut gate = TransitGate::new();
    assert!(gate.offers([1; 16], true, false));
    assert!(!gate.offers([1; 16], true, false));
    assert!(gate.offers([1; 16], false, false));
    assert!(!gate.offers([2; 16], true, true));
}

#[test]
fn old_work_is_dropped() {
    let mut lapsed = work(2);
    lapsed.retention_until = Some(1_100);
    let mut fresh = work(3);
    fresh.first_seen = 2_000;
    let items = vec![work(1), lapsed, fresh];
    let at_deadline = drop_expired(&items, 1_100);
    assert_eq!(at_deadline.seen, vec![[2; 16]]);
    assert_eq!(at_deadline.deletes, vec![PendingDelete { sequence: 2, content_id: [2; 16] }]);
    assert_eq!(at_deadline.work.len(), 2);
    let much_later = drop_expired(&items, 1_001 + PENDING_TTL_SECS);
    assert_eq!(much_later.seen, vec![[1; 16], [2; 16]]);
}

#[test]
fn what_waits_is_durable() {
    let mut volatile = work(3);
    volatile.sequence = None;
    let items = vec![work(1), work(2), volatile, volatile];
    let outcomes = vec![
        Outcome::Done,
        Outcome::Later { restaged: None },
        Outcome::Later { restaged: Some(40) },
        Outcome::Later { restaged: None },
    ];
    let result = settle_pass(&items, &outcomes);
    assert_eq!(result.acks, vec![PendingDelete { sequence: 1, content_id: [1; 16] }]);
    let waiting: Vec<Option<i64>> = result.stash.iter().map(|w| w.sequence).collect();
    assert_eq!(waiting, vec![Some(2), Some(40)]);
    assert!(tries_again(1, true, false));
    assert!(tries_again(1, false, true));
    assert!(!tries_again(1, false, false));
    assert!(!tries_again(0, true, true));
}

#[test]
fn requests_for_fragments_are_grouped_by_peer() {
    let groups = group_by_peer(&vec![Some([2; 32]), None, Some([1; 32]), Some([2; 32])]);
    let flat: Vec<([u8; 32], Vec<usize>)> =
        groups.into_iter().map(|g| (g.peer, g.items)).collect();
    assert_eq!(flat, vec![([1; 32], vec![2]), ([2; 32], vec![0, 3])]);
}

#[test]
fn wake_collections_are_short_and_do_not_nest() {
    assert_eq!(wake_tick(2_000_000_000, false), Ok(2_000_000_000));
    assert_eq!(wake_tick(1, false), Ok(1));
    assert_eq!(wake_tick(90_000_000_000, false), Ok(25_000_000_000));
    assert_eq!(wake_tick(u128::MAX, false), Ok(25_000_000_000));
    assert_eq!(wake_tick(0, false), Err(NodeError::WakeUnavailable));
    assert_eq!(wake_tick(2_000_000_000, true), Err(NodeError::WakeUnavailable));
    assert!(accepts_introduction(&Outcome::Done));
    assert!(accepts_introduction(&Outcome::DoneAtomic));
    assert!(!accepts_introduction(&Outcome::RejectedAtomic));
    assert!(!accepts_introduction(&Outcome::Later { restaged: None }));
    assert!(drains_carrier(true, false, false));
    assert!(!drains_carrier(true, true, false));
    assert!(!drains_carrier(true, false, true));
    assert!(drains_carrier(false, true, true));
}

#[test]
fn deliveries_are_swept_hourly() {
    assert_eq!(sweep_due(0, 100), (true, 3_700));
    assert_eq!(sweep_due(3_700, 3_699), (false, 3_700));
    assert_eq!(sweep_due(0, u64::MAX), (true, u64::MAX));
}

#[test]
fn a_pass_removes_before_it_receives_and_receives_before_it_sends() {
    let steps = tick(false, true, false);
    let at = |step| steps.iter().position(|s| *s == step).unwrap();
    assert!(at(TickStep::SweepEphemeral) < at(TickStep::ActivateScheduled));
    assert!(at(TickStep::SweepEphemeral) < at(TickStep::Gather));
    assert!(at(TickStep::Consume) < at(TickStep::Flush));
    assert!(at(TickStep::Flush) < at(TickStep::FlushTransit));
    assert_eq!(steps.len(), 29);
    assert_eq!(steps[steps.len() - 1], TickStep::DrainEvents);
    assert!(!tick(false, false, true).contains(&TickStep::SweepFailedDeliveries));
    assert!(!tick(false, false, true).contains(&TickStep::ReconcileMedia));
}

#[test]
fn wake_collection_does_not_flush_or_touch_mesh_and_sneakernet() {
    let steps = tick(true, true, false);
    assert!(!steps.contains(&TickStep::Flush));
    assert!(!steps.contains(&TickStep::FlushTransit));
    assert!(drains_carrier(true, false, false));
    assert!(!drains_carrier(true, true, false));
    assert!(!drains_carrier(true, false, true));
}

#[test]
fn a_wake_collection_only_receives() {
    assert_eq!(
        tick(true, true, false),
        vec![
            TickStep::Gather,
            TickStep::DropExpired,
            TickStep::Consume,
            TickStep::AcknowledgePending,
            TickStep::RequestRoutes,
            TickStep::MaintainRendezvous,
            TickStep::DrainEvents,
        ]
    );
}
