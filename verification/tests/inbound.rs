use kult_node::content::{Content, StoredContent};
use kult_node::endpoints::EndpointRow;
use kult_node::heartbeat::PendingDelete;
use kult_node::inbound::{
    accept_device_control, accept_wake_control, changes_presentation, commit_terminal_input,
    consume, consume_ratchet, event_body, prepare_inbound, provider_set_event, provider_set_reply,
    receive_commit, settle_wake_control, wake_conflict_event, ConsumeAction, Consumed, ControlClass, Effect, RatchetAction,
    RatchetOpening, RatchetStep, WakeControlHead,
};
use kult_node::records::{ContentStatus, Direction, EnvelopeKind};
use kult_node::sessions::SessionBook;
use kult_node::{Event, NodeError};

const PEER: [u8; 32] = [1; 32];
const OPENED: RatchetOpening = RatchetOpening {
    matched: true,
    decoded: true,
    stored: true,
    decrypted: true,
    unpadded: true,
};
const QUIET: Effect = Effect { refused: false, changes: false, keeps_control: false };

#[test]
fn received_text_is_stored_and_told() {
    let content = Content::Text { id: [2; 16] };
    let prepared = prepare_inbound(PEER, &content, None, false, &Vec::new(), [9; 16], [8; 16], 50);
    let message = prepared.message.unwrap();
    assert_eq!((message.peer, message.timestamp), (PEER, 50));
    assert_eq!(message.direction, Direction::Inbound);
    assert_eq!(
        prepared.events,
        vec![Event::MessageReceived {
            peer: PEER,
            id: message.id,
            timestamp: 50,
            content: ContentStatus::Text { id: [2; 16] },
        }]
    );
}

#[test]
fn text_is_shown_and_nothing_else() {
    let text = b"hi".to_vec();
    let disappearing =
        Content::DisappearingText { id: [2; 16], expires_at: 60, retention_until: 60 };
    for content in [Content::LegacyText, Content::Text { id: [2; 16] }, disappearing] {
        assert_eq!(event_body(&content, &text, 50), text);
    }
    let edit = Content::Edit {
        id: [2; 16],
        target_author: PEER,
        target_content_id: [3; 16],
        revision: 1,
    };
    for content in [
        Content::Attachment { id: [2; 16] },
        edit,
        Content::ViewOnceAttachment { id: [2; 16], expires_at: 60, retention_until: 60 },
        Content::Mention { id: [2; 16] },
        Content::Unsupported { format_version: 9, kind: 1 },
        Content::Malformed,
    ] {
        assert!(event_body(&content, &text, 50).is_empty());
    }
    assert!(event_body(&disappearing, &text, 60).is_empty());
    let prepared = |content, retention, now| {
        prepare_inbound(PEER, &content, retention, false, &Vec::new(), [9; 16], [8; 16], now)
    };
    assert!(prepared(disappearing, Some(60), 50).shows_text);
    assert!(!prepared(disappearing, Some(60), 60).shows_text);
    assert!(!prepared(disappearing, None, 50).shows_text);
}

#[test]
fn repeated_content_is_dropped() {
    let content = Content::Text { id: [2; 16] };
    let stored = vec![StoredContent { direction: Direction::Inbound, content }];
    let prepared = prepare_inbound(PEER, &content, None, false, &stored, [9; 16], [8; 16], 50);
    assert!(prepared.message.is_none());
    assert!(prepared.events.is_empty());
    assert!(!changes_presentation(&prepared));
}

#[test]
fn sessions_move_on_only_with_what_they_decrypt() {
    let step = |opening| {
        consume_ratchet(opening, EnvelopeKind::Message, false, ControlClass::Unknown, false, false)
    };
    assert_eq!(step(OPENED), Ok(RatchetStep::Act(RatchetAction::Receive)));
    assert_eq!(step(RatchetOpening { matched: false, ..OPENED }), Ok(RatchetStep::KeepForLater));
    assert_eq!(step(RatchetOpening { decoded: false, ..OPENED }), Ok(RatchetStep::Retire));
    assert_eq!(step(RatchetOpening { stored: false, ..OPENED }), Err(NodeError::CorruptState));
    assert_eq!(step(RatchetOpening { decrypted: false, ..OPENED }), Ok(RatchetStep::Retire));
    assert_eq!(step(RatchetOpening { unpadded: false, ..OPENED }), Ok(RatchetStep::AdvanceOnly));
    assert_eq!(
        consume_ratchet(OPENED, EnvelopeKind::Message, true, ControlClass::Unknown, true, false),
        Ok(RatchetStep::KeepForLater)
    );
    assert_eq!(
        consume_ratchet(OPENED, EnvelopeKind::Message, true, ControlClass::Unknown, false, true),
        Ok(RatchetStep::Act(RatchetAction::Call { apply: false }))
    );
}

#[test]
fn one_commit_holds_all_that_an_envelope_leads_to() {
    let receive = RatchetStep::Act(RatchetAction::Receive);
    let effect = Effect { changes: true, ..QUIET };
    let (commit, consumed) = receive_commit(receive, [3; 16], Some(7), effect);
    let commit = commit.unwrap();
    assert!(commit.advances && commit.acknowledges && commit.presentation_changed);
    assert!(!commit.defers);
    assert_eq!(commit.seen, [3; 16]);
    assert_eq!(
        commit.delete_pending,
        Some(PendingDelete { sequence: 7, content_id: [3; 16] })
    );
    assert_eq!(consumed, Consumed::DoneAtomic);

    let bulk = RatchetStep::Act(RatchetAction::Control(ControlClass::AttachmentBulk));
    let commit = receive_commit(bulk, [3; 16], None, effect).0.unwrap();
    assert!(commit.defers && commit.advances);
    assert!(!commit.acknowledges && !commit.presentation_changed);
    assert_eq!(commit.delete_pending, None);
    assert_eq!(
        receive_commit(RatchetStep::KeepForLater, [3; 16], Some(7), effect),
        (None, Consumed::Later)
    );
}

#[test]
fn refused_controls_leave_the_session_alone() {
    let (terminal, consumed) = commit_terminal_input([3; 16], Some(7));
    assert!(!terminal.advances);
    assert_eq!(consumed, Consumed::RejectedAtomic);
    let refused = Effect { refused: true, changes: true, keeps_control: true };
    for class in [
        ControlClass::Wake,
        ControlClass::Rendezvous,
        ControlClass::Discovery,
        ControlClass::Capabilities,
    ] {
        let step = RatchetStep::Act(RatchetAction::Control(class));
        assert_eq!(
            receive_commit(step, [3; 16], Some(7), refused),
            (Some(terminal), Consumed::RejectedAtomic)
        );
    }
    assert_eq!(
        receive_commit(RatchetStep::Retire, [3; 16], Some(7), QUIET),
        (Some(terminal), Consumed::RejectedAtomic)
    );
}

fn device_row() -> EndpointRow {
    EndpointRow {
        device: [4; 32],
        manifest_generation: 3,
        last_seen: 0,
        introduction_capability: None,
        introduction_generation: 0,
        revoked_at: None,
        has_bundle: true,
        has_hints: true,
    }
}

#[test]
fn controls_come_from_the_device_that_they_name() {
    let rows = vec![device_row()];
    assert!(accept_device_control(&PEER, &[4; 32], 3, &PEER, &[4; 32], &rows));
    assert!(!accept_device_control(&[9; 32], &[4; 32], 3, &PEER, &[4; 32], &rows));
    assert!(!accept_device_control(&PEER, &[5; 32], 3, &PEER, &[4; 32], &rows));
    let mut revoked = device_row();
    revoked.revoked_at = Some(1);
    assert!(!accept_device_control(&PEER, &[4; 32], 3, &PEER, &[4; 32], &vec![revoked]));
}

#[test]
fn exactly_one_of_two_devices_asks_for_a_handshake() {
    let low = provider_set_reply(&[1; 32], &[2; 32], true, false, false, true);
    let high = provider_set_reply(&[2; 32], &[1; 32], true, false, false, true);
    assert!(low.advertise);
    assert_ne!(low.rehandshake, high.rehandshake);
    assert!(!provider_set_reply(&[1; 32], &[2; 32], true, true, true, false).advertise);
}

#[test]
fn wake_controls_are_addressed_and_bounded() {
    let head = WakeControlHead {
        sender_account: PEER,
        sender_device: [4; 32],
        recipient_account: [6; 32],
        recipient_device: [7; 32],
        authority_generation: 3,
    };
    let rows = vec![device_row()];
    let ok = |head: &WakeControlHead, expiry: u64| {
        accept_wake_control(head, PEER, [4; 32], [6; 32], [7; 32], &rows, &vec![expiry], 100, 50)
    };
    assert!(ok(&head, 150));
    assert!(!ok(&head, 50));
    assert!(!ok(&head, 151));
    assert!(!ok(&WakeControlHead { recipient_device: [8; 32], ..head }, 150));
    assert_eq!(wake_conflict_event(PEER, [4; 32], 5, None, true), None);
    assert_eq!(
        wake_conflict_event(PEER, [4; 32], 5, Some(5), true),
        Some(Event::WakeConflict { peer: PEER, device: [4; 32], generation: 5 })
    );
}

#[test]
fn wake_controls_need_a_record_of_their_session() {
    let refused = Effect { refused: true, ..QUIET };
    assert_eq!(settle_wake_control(false, None, None, 5), Ok(refused));
    assert_eq!(settle_wake_control(true, None, None, 5), Err(NodeError::CorruptState));
    assert_eq!(
        settle_wake_control(true, Some(false), Some((true, None)), 5),
        Err(NodeError::CorruptState)
    );
    assert_eq!(settle_wake_control(true, Some(true), None, 5), Ok(refused));
    assert_eq!(settle_wake_control(true, Some(true), Some((true, None)), 5), Ok(QUIET));
    assert_eq!(
        settle_wake_control(true, Some(true), Some((true, Some(5))), 5),
        Ok(Effect { changes: true, ..QUIET })
    );
    assert_eq!(settle_wake_control(true, Some(true), Some((false, Some(5))), 5), Ok(QUIET));
}

#[test]
fn what_a_device_tells_is_answered_once() {
    let mut book = SessionBook::new();
    assert!(book.answer_discovery(PEER));
    assert!(!book.answer_discovery(PEER));
    assert!(book.answer_capabilities(PEER));
    assert!(!book.answer_capabilities(PEER));
    let reply = provider_set_reply(&[1; 32], &[2; 32], true, false, false, true);
    book.note_provider_set([2; 32], false, reply);
    assert!(book.rendezvous_advertised.contains(&[2; 32]));
    assert!(book.rendezvous_rehandshake_requested.contains(&[2; 32]));
    assert!(book.rendezvous_refresh_requested.contains(&[2; 32]));
    book.note_provider_set([2; 32], true, reply);
    assert!(!book.rendezvous_refresh_requested.contains(&[2; 32]));
    assert_eq!(provider_set_event(PEER, [2; 32], false), None);
    assert_eq!(
        provider_set_event(PEER, [2; 32], true),
        Some(Event::RendezvousConflict { peer: PEER, device: [2; 32], provider: [0; 32] })
    );
}

#[test]
fn seen_envelopes_are_not_processed_again() {
    assert_eq!(
        consume(EnvelopeKind::Message, true, true, false, false),
        ConsumeAction::RepeatReceipt
    );
    assert_eq!(consume(EnvelopeKind::Message, true, false, true, false), ConsumeAction::Retire);
    assert_eq!(consume(EnvelopeKind::Message, true, false, false, false), ConsumeAction::Done);
    assert_eq!(consume(EnvelopeKind::Message, false, false, false, false), ConsumeAction::Ratchet);
    assert_eq!(
        consume(EnvelopeKind::Handshake, false, false, false, false),
        ConsumeAction::Handshake
    );
    assert_eq!(
        consume(EnvelopeKind::Fragment, false, false, false, false),
        ConsumeAction::Reassemble
    );
    assert_eq!(
        consume(EnvelopeKind::GroupMessage, false, false, false, false),
        ConsumeAction::Group
    );
}
