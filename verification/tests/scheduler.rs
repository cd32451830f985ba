use kult_node::queue_memory::QueueMemory;
use kult_node::records::{EnvelopeKind, QueueClass, QueueDelete, QueueItem};
use kult_node::schedule::{
    airtime_ceiling, capacity_retry_delay, commit_queue_maintenance, conclude_attempts,
    consider_carrier, flush_class, flush_gate, flush_order, is_direct_quic, plan_send, queue_lane,
    rank_candidates, rank_route, retry_delay, schedule_after_handoff, schedule_capacity_retry,
    schedule_passive_retry, wants_wake, AttemptOutcome, CarrierProfile, CarrierUse, FlushAction,
    FlushGate, Reachability, SendPlan,
};

fn item(sequence: i64, class: QueueClass, kind: EnvelopeKind) -> QueueItem {
    QueueItem {
        sequence,
        peer: [7; 32],
        msg_id: Some([1; 16]),
        group_msg_id: None,
        class,
        created_at: 100,
        attempts: 0,
        next_attempt_at: 100,
        kind,
        content_id: [sequence as u8; 16],
        encoded_len: 300,
        retention_until: None,
    }
}

const FAST: CarrierProfile = CarrierProfile { latency: 0, cost: 1, millis: true, airtime: false };
const MESH: CarrierProfile = CarrierProfile { latency: 1, cost: 2, millis: false, airtime: true };

#[test]
fn capacity_refusal_retries_promptly_then_caps() {
    assert_eq!(capacity_retry_delay(1), 1);
    assert_eq!(capacity_retry_delay(2), 2);
    assert_eq!(capacity_retry_delay(3), 4);
    assert_eq!(capacity_retry_delay(4), 8);
    assert_eq!(capacity_retry_delay(5), 16);
    assert_eq!(capacity_retry_delay(6), 30);
    assert_eq!(capacity_retry_delay(u32::MAX), 30);
}

#[test]
fn passive_retries_double_from_half_a_minute_to_an_hour() {
    assert_eq!(retry_delay(0), 30);
    assert_eq!(retry_delay(1), 30);
    assert_eq!(retry_delay(2), 60);
    assert_eq!(retry_delay(3), 900);
    assert_eq!(retry_delay(5), 900);
    assert_eq!(retry_delay(6), 960);
    assert_eq!(retry_delay(7), 1_920);
    assert_eq!(retry_delay(8), 3_600);
    assert_eq!(retry_delay(u32::MAX), 3_600);
}

#[test]
fn retries_are_counted_and_dated() {
    let mut queued = item(1, QueueClass::Interactive, EnvelopeKind::Message);
    queued.created_at = 0;
    schedule_passive_retry(&mut queued, 1_000);
    assert_eq!((queued.created_at, queued.attempts, queued.next_attempt_at), (1_000, 1, 1_030));
    schedule_capacity_retry(&mut queued, 2_000);
    assert_eq!((queued.created_at, queued.attempts, queued.next_attempt_at), (1_000, 2, 2_002));
    schedule_after_handoff(&mut queued, 3_000);
    assert_eq!((queued.attempts, queued.next_attempt_at), (3, 3_900));
    schedule_after_handoff(&mut queued, u64::MAX);
    assert_eq!((queued.attempts, queued.next_attempt_at), (4, u64::MAX));
}

#[test]
fn calls_and_fresh_messages_lead_the_queue() {
    assert_eq!(queue_lane(&item(1, QueueClass::Realtime, EnvelopeKind::Message)), 0);
    assert_eq!(queue_lane(&item(1, QueueClass::Interactive, EnvelopeKind::Message)), 1);
    let mut tired = item(1, QueueClass::Interactive, EnvelopeKind::Message);
    tired.attempts = 3;
    assert_eq!(queue_lane(&tired), 3);
    assert_eq!(queue_lane(&item(1, QueueClass::Normal, EnvelopeKind::Receipt)), 2);
    assert_eq!(queue_lane(&item(1, QueueClass::Bulk, EnvelopeKind::Receipt)), 4);
    assert_eq!(flush_class(EnvelopeKind::GroupMessage), 0);
    assert_eq!(flush_class(EnvelopeKind::GroupControl), 1);
    assert_eq!(flush_class(EnvelopeKind::Handshake), 2);
}

#[test]
fn text_then_receipts_then_handshakes_in_order_of_arrival() {
    let queue = vec![
        item(1, QueueClass::Normal, EnvelopeKind::Handshake),
        item(2, QueueClass::Normal, EnvelopeKind::Receipt),
        item(3, QueueClass::Normal, EnvelopeKind::Message),
        item(4, QueueClass::Interactive, EnvelopeKind::Handshake),
        item(5, QueueClass::Normal, EnvelopeKind::Message),
    ];
    let order: Vec<i64> = flush_order(&queue).iter().map(|i| i.sequence).collect();
    assert_eq!(order, vec![4, 3, 5, 2, 1]);
}

#[test]
fn large_and_bulk_envelopes_are_held_off_airtime() {
    assert_eq!(airtime_ceiling(EnvelopeKind::Message), 4_096);
    assert_eq!(airtime_ceiling(EnvelopeKind::Handshake), 8_192);
    let mut large = item(1, QueueClass::Normal, EnvelopeKind::Message);
    large.encoded_len = 4_096;
    assert_eq!(consider_carrier(&large, MESH), CarrierUse::Fit);
    large.encoded_len = 4_097;
    assert_eq!(consider_carrier(&large, MESH), CarrierUse::Held);
    assert_eq!(consider_carrier(&large, FAST), CarrierUse::Fit);
    assert_eq!(
        consider_carrier(&item(1, QueueClass::Bulk, EnvelopeKind::Receipt), MESH),
        CarrierUse::Held
    );
    assert_eq!(
        consider_carrier(&item(1, QueueClass::Realtime, EnvelopeKind::Message), MESH),
        CarrierUse::Unfit
    );
}

#[test]
fn calls_use_direct_routes_that_are_reachable_now() {
    let call = item(1, QueueClass::Realtime, EnvelopeKind::Message);
    let text = item(1, QueueClass::Interactive, EnvelopeKind::Message);
    assert_eq!(rank_route(&call, true, Reachability::Now), Some(0));
    assert_eq!(rank_route(&call, false, Reachability::Now), None);
    assert_eq!(rank_route(&call, true, Reachability::StoreAndForward), None);
    assert_eq!(rank_route(&text, false, Reachability::StoreAndForward), Some(1));
    assert_eq!(rank_route(&text, false, Reachability::Unreachable), None);
    assert!(is_direct_quic("/ip4/10.0.0.1/udp/1/quic-v1"));
    assert!(!is_direct_quic("/ip4/10.0.0.1/tcp/1"));
    assert!(!is_direct_quic("/ip4/10.0.0.1/udp/1/quic-v1/p2p/x/p2p-circuit"));
    assert!(!is_direct_quic(""));
}

#[test]
fn candidates_are_tried_by_reachability_then_latency_then_cost() {
    let text = item(1, QueueClass::Interactive, EnvelopeKind::Message);
    let slow = CarrierProfile { latency: 2, cost: 0, millis: false, airtime: false };
    let carriers = vec![slow, MESH, FAST];
    let direct = vec![false, true];
    let reach = vec![
        vec![Reachability::Now, Reachability::StoreAndForward],
        vec![Reachability::Unreachable, Reachability::Now],
        vec![Reachability::StoreAndForward, Reachability::Now],
    ];
    let (candidates, held) = rank_candidates(&text, &carriers, &direct, &reach);
    let order: Vec<(usize, usize)> = candidates.iter().map(|c| (c.carrier, c.route)).collect();
    assert_eq!(order, vec![(2, 1), (1, 1), (0, 0), (2, 0), (0, 1)]);
    assert!(!held);

    let bulk = item(1, QueueClass::Bulk, EnvelopeKind::Receipt);
    let (candidates, held) = rank_candidates(&bulk, &vec![MESH], &direct, &vec![reach[1].clone()]);
    assert!(candidates.is_empty());
    assert!(held);
}

#[test]
fn lapsed_envelopes_leave_and_others_wait_their_turn() {
    let mut text = item(1, QueueClass::Interactive, EnvelopeKind::Message);
    assert_eq!(flush_gate(&text, None, 99), FlushGate::Wait);
    assert_eq!(flush_gate(&text, None, 100), FlushGate::Attempt);
    text.retention_until = Some(150);
    assert_eq!(flush_gate(&text, None, 149), FlushGate::Attempt);
    assert_eq!(flush_gate(&text, None, 150), FlushGate::Drop);
    let call = item(1, QueueClass::Realtime, EnvelopeKind::Message);
    assert_eq!(flush_gate(&call, None, 100), FlushGate::Drop);
    assert_eq!(flush_gate(&call, Some(120), 119), FlushGate::Attempt);
    assert_eq!(flush_gate(&call, Some(120), 120), FlushGate::Drop);
}

#[test]
fn messages_stay_queued_until_their_receipt() {
    let text = item(1, QueueClass::Interactive, EnvelopeKind::Message);
    let mut control = item(2, QueueClass::Normal, EnvelopeKind::Receipt);
    control.msg_id = None;
    let accepted = AttemptOutcome::Accepted { acked_by_next_hop: true };
    match conclude_attempts(&text, accepted, false, 1_000) {
        FlushAction::Keep(next) => assert_eq!((next.attempts, next.next_attempt_at), (3, 1_900)),
        other => panic!("{:?}", other),
    }
    assert_eq!(conclude_attempts(&control, accepted, false, 1_000), FlushAction::Remove);
    assert!(wants_wake(&text, accepted));
    assert!(!wants_wake(&control, accepted));
    assert!(!wants_wake(&text, AttemptOutcome::Accepted { acked_by_next_hop: false }));

    let held = AttemptOutcome::Refused {
        had_candidates: false,
        held_for_airtime: true,
        capacity_refused: false,
    };
    assert_eq!(conclude_attempts(&text, held, false, 1_000), FlushAction::ReportHeld([1; 16]));
    assert_eq!(conclude_attempts(&text, held, true, 1_000), FlushAction::Leave);
    assert_eq!(conclude_attempts(&control, held, false, 1_000), FlushAction::Leave);
    let full = AttemptOutcome::Refused {
        had_candidates: true,
        held_for_airtime: true,
        capacity_refused: true,
    };
    match conclude_attempts(&text, full, false, 1_000) {
        FlushAction::Keep(next) => assert_eq!((next.attempts, next.next_attempt_at), (1, 1_001)),
        other => panic!("{:?}", other),
    }
    let lost = AttemptOutcome::Refused {
        had_candidates: false,
        held_for_airtime: false,
        capacity_refused: false,
    };
    match conclude_attempts(&text, lost, false, 1_000) {
        FlushAction::Keep(next) => assert_eq!((next.attempts, next.next_attempt_at), (1, 1_030)),
        other => panic!("{:?}", other),
    }
}

#[test]
fn envelopes_are_cut_only_where_they_do_not_fit() {
    assert_eq!(plan_send(EnvelopeKind::Message, 200, 200, 16), SendPlan::Whole);
    assert_eq!(
        plan_send(EnvelopeKind::Message, 201, 200, 16),
        SendPlan::Fragments { budget: 184 }
    );
    assert_eq!(plan_send(EnvelopeKind::Fragment, 201, 200, 16), SendPlan::MtuTooSmall);
    assert_eq!(plan_send(EnvelopeKind::Message, 201, 15, 16), SendPlan::MtuTooSmall);
}

#[test]
fn a_queued_envelope_is_updated_or_taken_out() {
    let before = item(9, QueueClass::Normal, EnvelopeKind::Message);
    let gone = commit_queue_maintenance(&before, None, 1);
    assert_eq!(gone.delete, Some(QueueDelete { sequence: 9, content_id: [9; 16] }));
    assert_eq!(gone.update, None);
    assert!(gone.presentation_changed);
    let mut after = before;
    after.attempts = 4;
    let kept = commit_queue_maintenance(&before, Some(after), 0);
    assert_eq!(kept.delete, None);
    assert_eq!(kept.update, Some(after));
    assert!(!kept.presentation_changed);
}

#[test]
fn what_leaves_the_queue_is_forgotten() {
    let mut memory = QueueMemory::new();
    memory.note_held(4);
    memory.note_held(7);
    memory.expect_by(4, 100);
    memory.expect_by(9, 50);
    memory.expect_by(9, 60);
    assert!(memory.is_held(4));
    assert!(!memory.is_held(9));
    assert_eq!(memory.call_deadline(9), Some(60));
    assert_eq!(memory.call_deadline(7), None);
    memory.forget(&vec![QueueDelete { sequence: 4, content_id: [1; 16] }]);
    assert!(!memory.is_held(4));
    assert!(memory.is_held(7));
    assert_eq!(memory.call_deadline(4), None);
    assert_eq!(memory.call_deadline(9), Some(60));
    memory.forget(&Vec::new());
    assert!(memory.is_held(7));
}
