use kult_node::bytes::IdSet;
use kult_node::delivery::{apply_rule, furthest_state, first_wire_id, DeliveryRule};
use kult_node::flights::DeviceHandshakeIntent;
use kult_node::fragments::FragmentCache;
use kult_node::inbound::PreparedInbound;
use kult_node::receipts::{prepare_mark_sent, prepare_receipt, retain_pending, PendingControl};
use kult_node::records::{
    DeliveryRow, DeliveryState, Direction, EnvelopeKind, GroupHistory, History, MemberDelivery,
    MessageRow, QueueClass, QueueDelete, QueueItem,
};
use kult_node::sessions::{
    fits_transaction, install_counts, install_events, needs_receipt, plan_install, InstallDecision, SessionBook,
};
use kult_node::settlement::reset_unconfirmed_session;
use kult_node::expiry::{expiry_cutoff, sweep_failed_deliveries};
use kult_node::upkeep::{sweep_admission, sweep_ephemeral, EphemeralRow, RequestRow, TombstoneRow};
use kult_node::records::{EphemeralConversation, EphemeralState};
use kult_node::{Event, NodeError};

const PEER: [u8; 32] = [1; 32];
const DEVICE: [u8; 32] = [2; 32];
const WIRE: [u8; 16] = [7; 16];

fn copy(device: [u8; 32], state: DeliveryState) -> DeliveryRow {
    DeliveryRow { message: [9; 16], account: PEER, device, state, wire_id: Some(WIRE) }
}

fn history(state: DeliveryState) -> History {
    History {
        message: MessageRow {
            id: [9; 16],
            peer: PEER,
            direction: Direction::Outbound,
            state,
            timestamp: 10,
            wire_id: Some(WIRE),
        },
        deliveries: vec![copy(DEVICE, state)],
    }
}

fn queued() -> QueueItem {
    QueueItem {
        sequence: 5,
        peer: DEVICE,
        msg_id: Some([9; 16]),
        group_msg_id: None,
        class: QueueClass::Interactive,
        created_at: 10,
        attempts: 0,
        next_attempt_at: 10,
        kind: EnvelopeKind::Message,
        content_id: WIRE,
        encoded_len: 100,
        retention_until: None,
    }
}

#[test]
fn only_receipts_deliver_and_only_their_own_copy() {
    let rule = DeliveryRule::Acknowledge { account: None, device: DEVICE };
    let acks = vec![WIRE];
    assert_eq!(
        apply_rule(rule, &acks, copy(DEVICE, DeliveryState::Sent)).state,
        DeliveryState::Delivered
    );
    assert_eq!(
        apply_rule(rule, &Vec::new(), copy(DEVICE, DeliveryState::Sent)).state,
        DeliveryState::Sent
    );
    assert_eq!(
        apply_rule(rule, &acks, copy([3; 32], DeliveryState::Sent)).state,
        DeliveryState::Sent
    );
    let hand_off = DeliveryRule::HandOff { device: DEVICE };
    assert_eq!(
        apply_rule(hand_off, &Vec::new(), copy(DEVICE, DeliveryState::Queued)).state,
        DeliveryState::Sent
    );
    assert_eq!(
        apply_rule(hand_off, &Vec::new(), copy(DEVICE, DeliveryState::Delivered)).state,
        DeliveryState::Delivered
    );
}

#[test]
fn a_message_is_as_far_as_its_furthest_copy() {
    let rows = vec![copy(DEVICE, DeliveryState::Failed), copy([3; 32], DeliveryState::Sent)];
    assert_eq!(furthest_state(&rows), DeliveryState::Sent);
    assert_eq!(furthest_state(&rows[..1].to_vec()), DeliveryState::Failed);
    assert_eq!(first_wire_id(&rows), Some(WIRE));
}

#[test]
fn a_receipt_delivers_and_clears_the_queue() {
    let prepared = prepare_receipt(
        PEER,
        DEVICE,
        &vec![WIRE],
        &Vec::new(),
        &FragmentCache::new(),
        &vec![queued()],
        &vec![history(DeliveryState::Sent)],
        &Vec::new(),
        100,
        16,
    );
    assert_eq!(prepared.delete_queue, vec![QueueDelete { sequence: 5, content_id: WIRE }]);
    assert_eq!(prepared.messages[0].1.state, DeliveryState::Delivered);
    assert_eq!(
        prepared.events,
        vec![Event::DeliveryUpdated { id: [9; 16], state: DeliveryState::Delivered }]
    );
    let empty = prepare_receipt(
        PEER,
        DEVICE,
        &Vec::new(),
        &Vec::new(),
        &FragmentCache::new(),
        &vec![queued()],
        &vec![history(DeliveryState::Sent)],
        &Vec::new(),
        100,
        16,
    );
    assert!(empty.delete_queue.is_empty() && empty.events.is_empty());
}

#[test]
fn acceptance_by_a_carrier_is_only_sent() {
    let marked = prepare_mark_sent(
        DEVICE,
        [9; 16],
        &vec![copy(DEVICE, DeliveryState::Queued)],
        &vec![history(DeliveryState::Queued).message],
    );
    assert_eq!(marked.deliveries[0].1.state, DeliveryState::Sent);
    assert_eq!(marked.messages[0].1.state, DeliveryState::Sent);
    let pending = vec![
        PendingControl { peer: PEER, wire_id: Some(WIRE) },
        PendingControl { peer: PEER, wire_id: Some([8; 16]) },
        PendingControl { peer: [5; 32], wire_id: Some(WIRE) },
    ];
    assert_eq!(retain_pending(PEER, &vec![WIRE], &pending), pending[1..].to_vec());
}

#[test]
fn a_replaced_session_starts_its_copies_over() {
    let decision = plan_install(
        [9; 32],
        PEER,
        DEVICE,
        Some([4; 32]),
        DeviceHandshakeIntent::Reset,
        &Vec::new(),
        &IdSet::new(),
        &vec![history(DeliveryState::Sent)],
        &Vec::new(),
        &vec![queued()],
        16,
    )
    .unwrap();
    let plan = match decision {
        InstallDecision::Install(plan) => plan,
        _ => panic!("not installed"),
    };
    assert!(!plan.keep_prior);
    assert_eq!(plan.delete_queue, vec![QueueDelete { sequence: 5, content_id: WIRE }]);
    assert_eq!(plan.restart.deliveries[0].1.state, DeliveryState::Queued);
    assert_eq!(plan.restart.deliveries[0].1.wire_id, None);
    assert_eq!(plan.delete_capabilities, vec![DEVICE]);
    let events = install_events(PEER, &plan, &Vec::new());
    assert_eq!(events[0], Event::SessionEstablished { peer: PEER });
    assert_eq!(events[1], Event::DeliveryUpdated { id: [9; 16], state: DeliveryState::Queued });
    let bare = install_counts(&plan, false, 2, 0, 0, None, 1, 3, false);
    assert_eq!(
        bare,
        vec![0, 1, 1, 2, 0, 0, 1, 1, plan.restart.messages.len(), 1, 0, 0, 0, 0, 0, 0, 0, 0, 1, 0, 0]
    );
    let first = PreparedInbound {
        message: Some(history(DeliveryState::Delivered).message),
        ephemeral: None,
        offer: Some([3; 16]),
        shows_text: false,
        events: Vec::new(),
    };
    let full = install_counts(&plan, true, 2, 0, 4, Some(&first), 1, 3, true);
    assert_eq!(full[0], 1);
    assert_eq!(full[12..], [4, 1, 0, 1, 3, 1, 1, 1, 1]);
}

#[test]
fn too_much_for_one_transaction_waits() {
    let decision = plan_install(
        [9; 32],
        PEER,
        DEVICE,
        Some([4; 32]),
        DeviceHandshakeIntent::Reset,
        &Vec::new(),
        &IdSet::new(),
        &Vec::new(),
        &Vec::new(),
        &vec![queued(), queued()],
        1,
    )
    .unwrap();
    assert!(matches!(decision, InstallDecision::Later));
    let rejected = plan_install(
        [9; 32],
        PEER,
        DEVICE,
        None,
        DeviceHandshakeIntent::Replace { prior_session_id: [4; 32] },
        &Vec::new(),
        &IdSet::new(),
        &Vec::new(),
        &Vec::new(),
        &Vec::new(),
        16,
    )
    .unwrap();
    assert!(matches!(rejected, InstallDecision::Reject));
    assert_eq!(fits_transaction(&vec![3, 4], 7), Ok(true));
    assert_eq!(fits_transaction(&vec![3, 5], 7), Ok(false));
    assert_eq!(fits_transaction(&vec![usize::MAX, 1], 7), Err(NodeError::CorruptState));
    assert!(needs_receipt(true, false));
    assert!(needs_receipt(false, true));
    assert!(!needs_receipt(false, false));
}

#[test]
fn a_new_session_is_told_everything_again() {
    let mut book = SessionBook::new();
    book.install(DEVICE, false, &Vec::new());
    assert!(book.sessions.contains(&DEVICE));
    assert!(book.rendezvous_refresh_requested.contains(&DEVICE));
    book.capabilities_advertised.insert(DEVICE);
    book.install(DEVICE, true, &Vec::new());
    assert!(book.capabilities_advertised.contains(&DEVICE));
    book.install([3; 32], false, &vec![DEVICE]);
    assert!(!book.sessions.contains(&DEVICE));
    assert!(book.sessions.contains(&[3; 32]));
    book.drop_device(&[3; 32]);
    assert!(!book.sessions.contains(&[3; 32]));
}

#[test]
fn an_unconfirmed_session_is_given_up() {
    let reset =
        reset_unconfirmed_session(&vec![history(DeliveryState::Queued)], &vec![queued()], DEVICE);
    assert!(reset.is_some());
    let quiet =
        reset_unconfirmed_session(&vec![history(DeliveryState::Delivered)], &Vec::new(), DEVICE);
    assert!(quiet.is_none());
}

#[test]
fn deliveries_fail_after_a_month() {
    let month = 30 * 24 * 3_600;
    let early = sweep_failed_deliveries(
        &vec![history(DeliveryState::Sent)],
        &Vec::new(),
        &vec![queued()],
        Vec::new(),
        10 + month - 1,
    );
    assert!(early.is_idle());
    let late = sweep_failed_deliveries(
        &vec![history(DeliveryState::Sent)],
        &Vec::new(),
        &vec![queued()],
        Vec::new(),
        10 + month,
    );
    assert_eq!(late.messages[0].1.state, DeliveryState::Failed);
    assert_eq!(late.deliveries[0].1.state, DeliveryState::Failed);
    assert_eq!(late.delete_queue, vec![QueueDelete { sequence: 5, content_id: WIRE }]);
    let group = GroupHistory {
        id: [9; 16],
        direction: Direction::Outbound,
        timestamp: 10,
        members: vec![MemberDelivery { peer: PEER, state: DeliveryState::Sent, wire_id: None }],
        deliveries: vec![copy(DEVICE, DeliveryState::Sent)],
    };
    let swept = sweep_failed_deliveries(&Vec::new(), &vec![group], &Vec::new(), vec![[8; 16]], 10 + month);
    assert_eq!(swept.members[0].after.state, DeliveryState::Failed);
    assert_eq!(swept.delete_replay, vec![[8; 16]]);
    assert!(!swept.is_idle());
    assert_eq!(expiry_cutoff(10 + month), 10);
    assert_eq!(expiry_cutoff(month - 1), 0);
}

#[test]
fn settled_history_does_not_hold_up_overdue_messages() {
    let month = 30 * 24 * 3_600;
    let mut histories: Vec<History> = (0..8)
        .map(|i| {
            let mut settled = history(DeliveryState::Delivered);
            settled.message.id = [20 + i; 16];
            settled
        })
        .collect();
    histories.push(history(DeliveryState::Sent));
    let mut queue: Vec<QueueItem> = (0..40)
        .map(|i| QueueItem { sequence: 100 + i, ..queued() })
        .collect();
    let swept =
        sweep_failed_deliveries(&histories, &Vec::new(), &queue, Vec::new(), 10 + month);
    assert_eq!(swept.messages.len(), 1);
    assert_eq!(swept.messages[0].1.id, [9; 16]);
    assert_eq!(swept.messages[0].1.state, DeliveryState::Failed);
    assert_eq!(swept.delete_queue.len(), 32);
    histories[8] = history(DeliveryState::Failed);
    queue.retain(|item| !swept.delete_queue.iter().any(|gone| gone.sequence == item.sequence));
    let again =
        sweep_failed_deliveries(&histories, &Vec::new(), &queue, Vec::new(), 10 + month);
    assert!(again.messages.is_empty());
    assert_eq!(again.delete_queue.len(), 8);
    let rest = sweep_failed_deliveries(&histories, &Vec::new(), &Vec::new(), Vec::new(), 10 + month);
    assert!(rest.is_idle());
    let replays: Vec<[u8; 16]> = (0..20).map(|i| [i; 16]).collect();
    let forgotten = sweep_failed_deliveries(&Vec::new(), &Vec::new(), &Vec::new(), replays, month);
    assert_eq!(forgotten.delete_replay.len(), 16);
    assert_eq!(forgotten.delete_replay[15], [15; 16]);
}

#[test]
fn expired_requests_are_swept_and_told() {
    let requests = vec![
        RequestRow { request_id: [1; 16], account: PEER, arrived_at: 0, expires_at: 50 },
        RequestRow { request_id: [2; 16], account: PEER, arrived_at: 0, expires_at: 500 },
    ];
    let tombstones = vec![TombstoneRow { account: PEER, expires_at: 50 }];
    let mut notifications = 1;
    let sweep = sweep_admission(&requests, &tombstones, &mut notifications, 100);
    assert_eq!(sweep.requests, requests[..1].to_vec());
    assert_eq!(sweep.tombstones, tombstones);
    assert_eq!(sweep.events, vec![Event::MessageRequestExpired { request: [1; 16] }]);
    assert_eq!(notifications, 0);
}

#[test]
fn disappearing_content_goes_with_its_traces() {
    let row = |expires_at| EphemeralRow {
        conversation: EphemeralConversation::Pairwise(PEER),
        author: PEER,
        content_id: [9; 16],
        expires_at,
        state: EphemeralState::Active,
        transfer_ids: vec![[4; 16]],
    };
    let sweep = sweep_ephemeral(&vec![row(50), row(500)], &vec![queued()], [8; 32], 100);
    assert_eq!(sweep.due, vec![0]);
    assert_eq!(sweep.transfers, vec![[4; 16]]);
    assert_eq!(
        sweep.events,
        vec![Event::EphemeralRemoved {
            conversation: EphemeralConversation::Pairwise(PEER),
            author: PEER,
            content_id: [9; 16],
            reason: EphemeralState::Expired,
        }]
    );
}
