use kult_node::bytes::IdSet;
use kult_node::content::Content;
use kult_node::establish::{
    check_flight_size, conclude_marker, conclude_rehandshake, due_rehandshakes, first_due,
    markers_of_pass, plan_flight, plan_marker, record_marker, rehandshake_step, AdmissionTerms,
    DeviceEntry, FlightProof, MadeFlight, RehandshakeStep,
};
use kult_node::flights::DeviceHandshakeIntent;
use kult_node::outbound::{
    activates, cancel_scheduled_message, edit_scheduled_message, frames_text,
    prepare_control_queue, queue_message, record_message, schedule, send_disappearing_message,
    send_message, sent_note, NewItem, RouteUse, ScheduledConversation, ScheduledMessage, SendRoute,
};
use kult_node::pending::{
    deferred_step, plan_copies, plan_payloads, record_copies, CopyUse, DeferredPass, DeferredStep,
    DeferredTry, MadeCopy, PendingMessage,
};
use kult_node::records::{
    DeliveryRow, DeliveryState, Direction, EphemeralConversation, EphemeralState, History,
    MessageRow, QueueClass,
};
use kult_node::sessions::SessionBook;
use kult_node::{Event, NodeError};

const PEER: [u8; 32] = [1; 32];
const TEXT: Content = Content::Text { id: [2; 16] };

fn route(n: u8, has_session: bool, valid_bundle: bool) -> SendRoute {
    SendRoute { device: [n; 32], has_session, valid_bundle }
}

#[test]
fn each_device_gets_its_copy() {
    let endpoints = vec![route(3, false, true), route(2, true, true), route(4, false, false)];
    let steps =
        send_message(&TEXT, true, false, &endpoints, route(1, false, false), false, 8).unwrap();
    let mut how: Vec<([u8; 32], RouteUse)> = steps.iter().map(|s| (s.device, s.how)).collect();
    how.sort_by_key(|s| s.0);
    assert_eq!(
        how,
        vec![
            ([2; 32], RouteUse::Session),
            ([3; 32], RouteUse::FirstFlight),
            ([4; 32], RouteUse::Unreachable),
        ]
    );
}

#[test]
fn sending_is_refused_to_strangers_and_unverified_contacts() {
    let endpoints = vec![route(2, true, true)];
    let fallback = route(1, false, false);
    assert_eq!(
        send_message(&TEXT, false, false, &endpoints, fallback, false, 8),
        Err(NodeError::UnknownPeer)
    );
    assert!(send_message(&TEXT, true, true, &endpoints, fallback, false, 8).is_err());
    assert_eq!(
        send_message(&TEXT, true, false, &Vec::new(), fallback, false, 8),
        Err(NodeError::NoSession)
    );
}

#[test]
fn a_sent_message_is_recorded_with_its_copies() {
    let endpoints = vec![route(2, true, true), route(3, false, false)];
    let steps =
        send_message(&TEXT, true, false, &endpoints, route(1, false, false), false, 8).unwrap();
    let wires: Vec<Option<[u8; 16]>> = steps
        .iter()
        .map(|s| if s.how == RouteUse::Session { Some([7; 16]) } else { None })
        .collect();
    let queued = queue_message([9; 16], PEER, 50, &steps);
    assert_eq!(queued.message.state, DeliveryState::Queued);
    assert_eq!(queued.message.wire_id, None);
    assert!(queued.deliveries.iter().all(|d| d.state == DeliveryState::Queued
        && d.wire_id.is_none()));
    let sent = record_message([9; 16], PEER, 50, &steps, &wires, &Vec::new(), false, 60);
    assert_eq!(sent.message.id, [9; 16]);
    assert_eq!(sent.message.state, DeliveryState::Queued);
    assert_eq!(sent.deliveries.len(), 2);
    assert_eq!(sent.queue.len(), 1);
    assert_eq!(sent.queue[0].peer, [2; 32]);
    assert_eq!(sent.queue[0].class, QueueClass::Interactive);
    assert_eq!(sent.queue[0].content_id, [7; 16]);
}

#[test]
fn disappearing_text_that_is_sent_is_noted() {
    let text =
        Content::DisappearingText { id: [5; 16], expires_at: 900, retention_until: 900 };
    let row = sent_note(&text, [8; 32], PEER).unwrap();
    assert_eq!(row.conversation, EphemeralConversation::Pairwise(PEER));
    assert_eq!((row.author, row.content_id, row.expires_at), ([8; 32], [5; 16], 900));
    assert_eq!(row.state, EphemeralState::Active);
    assert!(row.transfer_ids.is_empty());
    assert!(sent_note(&Content::Text { id: [5; 16] }, [8; 32], PEER).is_none());
}

#[test]
fn sessions_made_by_a_first_flight_are_told_everything_again() {
    let mut book = SessionBook::new();
    book.capabilities_advertised.insert(PEER);
    book.keep_sent(PEER, false);
    assert!(book.capabilities_advertised.contains(&PEER));
    assert!(book.sessions.contains(&PEER));
    book.keep_sent(PEER, true);
    assert!(!book.capabilities_advertised.contains(&PEER));
    assert!(book.rendezvous_refresh_requested.contains(&PEER));
}

#[test]
fn text_is_framed_for_those_who_understand_it() {
    let text = "héllo".as_bytes().to_vec();
    assert!(frames_text(&text, true));
    assert!(!frames_text(&text, false));
    assert!(frames_text(&Vec::new(), true));
    // A sequence cut short, a surrogate and an overlong form are no text.
    for bytes in [vec![0xc3], vec![0xed, 0xa0, 0x80], vec![0xc0, 0x80], vec![0xff]] {
        assert!(!frames_text(&bytes, true));
    }
}

#[test]
fn disappearing_messages_have_bounded_lives() {
    let send = |empty, life, supported| send_disappearing_message(empty, life, 5, 100, supported, 1_000);
    assert_eq!(send(false, 60, true), Ok(1_060));
    assert_eq!(send(true, 60, true), Err(NodeError::InvalidEphemeral));
    assert_eq!(send(false, 4, true), Err(NodeError::InvalidEphemeral));
    assert_eq!(send(false, 101, true), Err(NodeError::InvalidEphemeral));
    assert_eq!(send(false, 60, false), Err(NodeError::EphemeralUnsupported));
}

fn later(conversation: ScheduledConversation, not_before: u64) -> Result<u64, NodeError> {
    schedule([1; 16], conversation, true, true, b"hi".to_vec(), true, not_before, 100)
        .map(|(message, _)| message.not_before)
}

#[test]
fn messages_are_scheduled_for_the_future() {
    let to_peer = ScheduledConversation::Peer(PEER);
    assert_eq!(later(to_peer, 101), Ok(101));
    assert_eq!(later(to_peer, 100), Err(NodeError::InvalidSchedule));
    let refused = |conversation, known, reachable| {
        schedule([1; 16], conversation, known, reachable, Vec::new(), true, 200, 100)
            .map(|_| ())
            .unwrap_err()
    };
    assert_eq!(refused(to_peer, false, true), NodeError::UnknownPeer);
    assert_eq!(refused(to_peer, true, false), NodeError::NoSession);
    assert_eq!(
        refused(ScheduledConversation::Group([5; 32]), false, true),
        NodeError::UnknownGroup
    );
    let stored = || ScheduledMessage {
        id: [1; 16],
        conversation: to_peer,
        created_at: 50,
        not_before: 200,
        body: b"hi".to_vec(),
    };
    let (edited, event) =
        edit_scheduled_message([1; 16], Some(stored()), b"ho".to_vec(), true, 300, 100)
            .unwrap();
    assert_eq!((edited.not_before, edited.body), (300, b"ho".to_vec()));
    assert_eq!(event, Event::ScheduledMessageUpdated { id: [1; 16] });
    assert!(edit_scheduled_message([1; 16], None, Vec::new(), true, 300, 100).is_err());
    let odd = |stored| {
        edit_scheduled_message([1; 16], stored, vec![0x61, 0xff], true, 300, 100)
            .map(|_| ())
            .unwrap_err()
    };
    assert_eq!(odd(Some(stored())), NodeError::InvalidSchedule);
    assert_eq!(odd(None), NodeError::InvalidSchedule);
    assert_eq!(
        schedule([1; 16], to_peer, true, true, vec![0x80], true, 200, 100)
            .map(|_| ())
            .unwrap_err(),
        NodeError::InvalidSchedule
    );
    assert_eq!(
        schedule([1; 16], to_peer, true, true, b"hi".to_vec(), false, 200, 100)
            .map(|_| ())
            .unwrap_err(),
        NodeError::InvalidSchedule
    );
    assert_eq!(
        cancel_scheduled_message([1; 16], true),
        Ok(Event::ScheduledMessageCancelled { id: [1; 16] })
    );
    assert!(cancel_scheduled_message([1; 16], false).is_err());
    let ready = vec![route(2, true, false)];
    assert!(!activates(&stored(), false, true, &ready, false, 199));
    assert!(activates(&stored(), false, true, &ready, false, 200));
    assert!(!activates(&stored(), false, true, &vec![route(2, false, false)], false, 200));
}

#[test]
fn controls_are_queued_at_once() {
    assert_eq!(
        prepare_control_queue(PEER, [3; 16], 77),
        NewItem {
            peer: PEER,
            msg_id: None,
            class: QueueClass::Normal,
            created_at: 77,
            attempts: 0,
            next_attempt_at: 77,
            content_id: [3; 16],
        }
    );
}

#[test]
fn first_flights_say_what_they_want() {
    let terms = AdmissionTerms { max_first_ciphertext: 100, has_invitation: true };
    let fresh = plan_flight(&PEER, &[2; 32], &Vec::new(), None, Some(terms), Some([8; 32]));
    assert_eq!(fresh.intent, DeviceHandshakeIntent::Establish);
    assert_eq!(fresh.proof, FlightProof::Invitation);
    let again = plan_flight(&PEER, &[2; 32], &Vec::new(), Some([6; 32]), None, None);
    assert_eq!(again.intent, DeviceHandshakeIntent::Replace { prior_session_id: [6; 32] });
    assert_eq!(again.proof, FlightProof::Absent);
    let reset = plan_flight(&PEER, &[2; 32], &vec![[2; 32]], None, None, None);
    assert_eq!(reset.intent, DeviceHandshakeIntent::Reset);
    assert_eq!(check_flight_size(Some(terms), 100), Ok(()));
    assert!(check_flight_size(Some(terms), 101).is_err());
    assert_eq!(check_flight_size(None, 1_000_000), Ok(()));
}

fn entry(n: u8, has_bundle: bool, has_session: bool) -> DeviceEntry {
    DeviceEntry { account: PEER, device: [n; 32], revoked: false, has_bundle, has_session }
}

#[test]
fn lost_sessions_are_set_up_again() {
    let entries = vec![entry(2, true, false), entry(3, true, true), entry(4, false, false)];
    let plan = plan_marker(&entries, PEER, false, false);
    assert_eq!(plan.account, PEER);
    assert_eq!(plan.devices, vec![[2; 32]]);
    assert_eq!(first_due(&vec![[3; 32], [1; 32], [2; 32]], 2), vec![[1; 32], [2; 32]]);
    assert_eq!(
        rehandshake_step(&[3; 32], &entries, false, false),
        RehandshakeStep::Forget
    );
    assert_eq!(rehandshake_step(&[9; 32], &entries, true, false), RehandshakeStep::Wait);
    assert_eq!(rehandshake_step(&[3; 32], &entries, true, true), RehandshakeStep::Forget);
    assert_eq!(rehandshake_step(&[4; 32], &entries, true, false), RehandshakeStep::Wait);
    assert_eq!(rehandshake_step(&[3; 32], &entries, true, false), RehandshakeStep::Handshake);
}

fn pending(state: DeliveryState) -> PendingMessage {
    PendingMessage {
        history: History {
            message: MessageRow {
                id: [9; 16],
                peer: PEER,
                direction: Direction::Outbound,
                state: DeliveryState::Queued,
                timestamp: 10,
                wire_id: None,
            },
            deliveries: vec![DeliveryRow {
                message: [9; 16],
                account: PEER,
                device: [2; 32],
                state,
                wire_id: None,
            }],
        },
        ephemeral: false,
        attachment: false,
    }
}

#[test]
fn missing_copies_are_made_once_a_device_is_reachable() {
    let mut sessions = IdSet::new();
    let none = plan_copies(
        &vec![pending(DeliveryState::Queued)],
        &Vec::new(),
        &vec![route(2, false, false)],
        &mut sessions,
    );
    assert!(none.is_empty());
    let steps = plan_copies(
        &vec![pending(DeliveryState::Queued)],
        &Vec::new(),
        &vec![route(2, false, true)],
        &mut sessions,
    );
    assert_eq!(steps.len(), 1);
    assert_eq!((steps[0].message, steps[0].row, steps[0].how), (0, 0, CopyUse::FirstFlight));
    assert!(sessions.contains(&[2; 32]));
    let done = plan_copies(
        &vec![pending(DeliveryState::Delivered)],
        &Vec::new(),
        &vec![route(2, false, true)],
        &mut sessions,
    );
    assert!(done.is_empty());
    let recorded = record_copies(
        &pending(DeliveryState::Queued),
        &vec![MadeCopy { row: 0, wire_id: [4; 16], adopted: false }],
        70,
    );
    assert_eq!(recorded.deliveries[0].1.wire_id, Some([4; 16]));
    assert_eq!(recorded.queue.len(), 1);
    assert_eq!(recorded.message.wire_id, Some([4; 16]));
}

#[test]
fn a_second_missing_copy_goes_with_the_envelope_of_the_first() {
    let mut message = pending(DeliveryState::Queued);
    let again = message.history.deliveries[0];
    message.history.deliveries.push(again);
    let mut sessions = IdSet::new();
    let steps = plan_copies(
        &vec![pending(DeliveryState::Delivered), message],
        &Vec::new(),
        &vec![route(2, false, true)],
        &mut sessions,
    );
    let uses: Vec<(usize, usize, CopyUse)> =
        steps.iter().map(|s| (s.message, s.row, s.how)).collect();
    assert_eq!(uses, vec![(1, 0, CopyUse::FirstFlight), (1, 1, CopyUse::Follow(0))]);
}

#[test]
fn the_last_record_of_a_device_decides_whether_it_can_be_reached() {
    let plan = |routes| {
        plan_copies(
            &vec![pending(DeliveryState::Queued)],
            &Vec::new(),
            &routes,
            &mut IdSet::new(),
        )
        .len()
    };
    assert_eq!(plan(vec![route(2, false, true), route(2, false, false)]), 0);
    assert_eq!(plan(vec![route(2, false, false), route(2, false, true)]), 1);
}

#[test]
fn payloads_go_to_devices_with_sessions() {
    let mut sessions = IdSet::new();
    sessions.insert([2; 32]);
    sessions.insert([3; 32]);
    assert_eq!(
        plan_payloads(&vec![[3; 32], [2; 32], [3; 32]], &sessions, 1, 2),
        Ok(vec![[2; 32], [3; 32]])
    );
    assert_eq!(
        plan_payloads(&vec![[2; 32], [4; 32]], &sessions, 1, 2),
        Err(NodeError::NoSession)
    );
    assert_eq!(
        plan_payloads(&vec![[2; 32], [3; 32]], &sessions, 1, 1),
        Err(NodeError::NoSession)
    );
    assert_eq!(plan_payloads(&vec![[2; 32]], &sessions, 0, 2), Err(NodeError::NoSession));
}

#[test]
fn controls_put_aside_are_worked_off() {
    let group = |applied, deleted, from_origin| {
        deferred_step(DeferredTry::Group { applied, deleted, from_origin })
    };
    assert_eq!(group(false, false, true), DeferredStep::Keep);
    assert_eq!(group(true, true, true), DeferredStep::Gone);
    assert_eq!(group(true, false, false), DeferredStep::Delete);
    assert_eq!(group(true, false, true), DeferredStep::Acknowledge);
    let attachment = |acknowledged| deferred_step(DeferredTry::Attachment { acknowledged });
    assert_eq!(attachment(true), DeferredStep::Gone);
    assert_eq!(attachment(false), DeferredStep::Delete);
}

#[test]
fn a_pass_tries_so_many_controls() {
    let controls: Vec<[u8; 16]> = (0..20).map(|n| [n; 16]).collect();
    let mut pass = DeferredPass::begin(&controls);
    assert_eq!(pass.next(), Some([0; 16]));
    assert!(!pass.record(DeferredStep::Keep, true));
    assert!(!pass.made_progress());
    assert_eq!(pass.next(), Some([1; 16]));
    assert!(!pass.record(DeferredStep::Acknowledge, false));
    assert!(pass.made_progress());
    assert!(pass.record(DeferredStep::Acknowledge, true));
    assert!(pass.record(DeferredStep::Delete, false));
    assert!(!pass.record(DeferredStep::Gone, true));
    let mut last = None;
    while let Some(control) = pass.next() {
        last = Some(control);
        pass.record(DeferredStep::Keep, false);
    }
    assert_eq!(last, Some([15; 16]));
    assert!(pass.made_progress());
    assert_eq!(DeferredPass::begin(&Vec::new()).next(), None);
}

#[test]
fn reset_markers_are_cleared_after_one_attempt() {
    let markers: Vec<[u8; 32]> = (0..9).map(|n| [n; 32]).collect();
    assert_eq!(markers_of_pass(&markers), markers[..8].to_vec());
    assert_eq!(markers_of_pass(&vec![[4; 32]]), vec![[4; 32]]);
    let failed = record_marker([1; 32], &Vec::new(), 50);
    assert_eq!(failed.clear_marker, [1; 32]);
    assert!(failed.queue.is_empty() && failed.clear_capabilities.is_empty());
    let made = record_marker(
        [1; 32],
        &vec![MadeFlight { device: [2; 32], content_id: [9; 16] }],
        50,
    );
    assert_eq!(made.clear_marker, [1; 32]);
    assert_eq!(made.clear_capabilities, vec![[2; 32]]);
    let item = made.queue[0];
    assert_eq!((item.peer, item.msg_id, item.content_id), ([2; 32], None, [9; 16]));
    assert_eq!((item.created_at, item.attempts, item.next_attempt_at), (50, 0, 50));
    let mut book = SessionBook::new();
    book.answer_capabilities([2; 32]);
    conclude_marker(&mut book, &failed);
    assert!(!book.sessions.contains(&[2; 32]));
    conclude_marker(&mut book, &made);
    assert!(book.sessions.contains(&[2; 32]));
    assert!(!book.capabilities_advertised.contains(&[2; 32]));
}

#[test]
fn rehandshakes_stay_wanted_until_made() {
    let mut book = SessionBook::new();
    for n in [7, 3, 9, 1, 5] {
        book.rendezvous_rehandshake_requested.insert([n; 32]);
    }
    assert_eq!(due_rehandshakes(&book), vec![[1; 32], [3; 32], [5; 32], [7; 32]]);
    conclude_rehandshake(&mut book, [1; 32], RehandshakeStep::Forget, false);
    conclude_rehandshake(&mut book, [3; 32], RehandshakeStep::Wait, false);
    conclude_rehandshake(&mut book, [5; 32], RehandshakeStep::Handshake, false);
    book.answer_discovery([7; 32]);
    conclude_rehandshake(&mut book, [7; 32], RehandshakeStep::Handshake, true);
    assert_eq!(due_rehandshakes(&book), vec![[3; 32], [5; 32], [9; 32]]);
    assert!(book.sessions.contains(&[7; 32]));
    assert!(!book.discovery_advertised.contains(&[7; 32]));
    assert!(book.rendezvous_refresh_requested.contains(&[7; 32]));
    assert!(!book.sessions.contains(&[5; 32]));
}
