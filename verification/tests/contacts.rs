use kult_node::admission::AdmissionTransportClass;
use kult_node::bytes::IdSet;
use kult_node::contacts::{
    accept_message_request, add_contact, conclude_acceptance, conclude_discard,
    conclude_verification, contact_discovery, discard_message_request, group_digits,
    mark_verified, message_requests, note_to_self_messages, note_to_self_send, peer_has_live_device_sessions,
    peer_has_session_or_bundle, peer_supports_kind, queued, rename_contact, repairs_device,
    request_rendezvous_refresh, set_hints, BlockedIdentity, DeviceRoutes, DeviceSupport, DiscoveryProjection,
    MessageRequest, NoteHead, StoredBundle, StoredRequest, Tombstone, VerifyStep,
};
use kult_node::records::{DeliveryRow, DeliveryState, EnvelopeKind, QueueClass, QueueItem};
use kult_node::relations::{
    active_conversation_rendezvous_devices, base_hints_for, conclude_advertisement,
    due_advertisements,
    has_fresh_relationship_route, hints_for, local_discovery_upgrade,
    local_rendezvous_provider_control, lookup_requests, rendezvous_peer_identity,
    set_rendezvous_conversation_active, ActiveConversation, Advertisement, CertifiedDevice, ProviderDescriptor,
    ProviderRoutes, RecordedRoutes, WaitingDevice,
};
use kult_node::sessions::SessionBook;
use kult_node::{Event, NodeError};

const PEER: [u8; 32] = [1; 32];

fn device(n: u8, revoked: bool, has_hints: bool) -> DeviceRoutes {
    DeviceRoutes { device: [n; 32], revoked, has_hints }
}

fn support(has_session: bool, supports: bool, has_bundle: bool) -> DeviceSupport {
    DeviceSupport { has_session, supports, has_bundle }
}

#[test]
fn pairing_says_how_a_contact_is_discovered() {
    let none = DiscoveryProjection { capability: None, generation: 0 };
    let some = DiscoveryProjection { capability: Some([2; 32]), generation: 3 };
    assert_eq!(contact_discovery(none, Some(([2; 32], 3))), Ok(some));
    assert_eq!(contact_discovery(some, Some(([2; 32], 3))), Ok(some));
    assert_eq!(contact_discovery(some, None), Ok(some));
    assert!(contact_discovery(some, Some(([9; 32], 3))).is_err());
    let stored = vec![StoredBundle { device: [4; 32], same_bundle: false }];
    let same = vec![StoredBundle { device: [4; 32], same_bundle: true }];
    assert_ne!(repairs_device(&stored, &[4; 32]), repairs_device(&same, &[4; 32]));
}

#[test]
fn doubtful_names_need_consent() {
    assert_eq!(rename_contact(PEER, false, false, false, false), Err(NodeError::UnknownPeer));
    assert_eq!(
        rename_contact(PEER, true, true, false, false),
        Err(NodeError::ContactNameReviewRequired)
    );
    assert_eq!(
        rename_contact(PEER, true, true, true, false),
        Ok(Some(Event::ContactRenamed { peer: PEER }))
    );
    assert_eq!(rename_contact(PEER, true, false, false, true), Ok(None));
}

#[test]
fn routes_of_an_account_go_to_devices_without_their_own() {
    let devices = vec![device(1, false, true), device(2, false, true), device(3, false, false)];
    assert_eq!(set_hints(&PEER, true, &devices), Ok(vec![0, 2]));
    assert_eq!(set_hints(&PEER, true, &vec![device(5, false, true)]), Ok(vec![0]));
    assert_eq!(set_hints(&PEER, false, &devices), Err(NodeError::UnknownPeer));
    assert_eq!(mark_verified(true, true), Ok(VerifyStep::ConfirmReset));
    assert_eq!(mark_verified(false, true), Ok(VerifyStep::Mark));
    assert_eq!(mark_verified(false, false), Err(NodeError::UnknownPeer));
    assert_eq!(conclude_verification(VerifyStep::ConfirmReset, true), Ok(()));
    assert_eq!(
        conclude_verification(VerifyStep::ConfirmReset, false),
        Err(NodeError::CorruptState)
    );
    assert_eq!(conclude_verification(VerifyStep::Mark, false), Ok(()));
}

#[test]
fn all_devices_have_to_understand_content() {
    let nobody = support(false, false, false);
    assert!(peer_supports_kind(&vec![support(true, true, true); 2], nobody));
    assert!(!peer_supports_kind(&vec![support(true, true, true), support(true, false, true)], nobody));
    assert!(peer_supports_kind(&Vec::new(), support(true, true, false)));
    assert!(!peer_supports_kind(&Vec::new(), support(false, true, false)));
    assert!(peer_has_live_device_sessions(&vec![support(true, false, false)], nobody));
    assert!(!peer_has_live_device_sessions(&vec![nobody], support(true, true, true)));
    assert!(peer_has_session_or_bundle(&vec![support(false, false, true)], nobody));
    assert!(!peer_has_session_or_bundle(&Vec::new(), nobody));
}

fn request() -> MessageRequest {
    MessageRequest { request_id: [5; 16], account: PEER, device: [2; 32], expires_at: 100 }
}

#[test]
fn requests_are_accepted_while_they_last() {
    let refused = |request, whole, now| {
        accept_message_request(request, whole, &None, now).map(|_| ()).unwrap_err()
    };
    assert_eq!(refused(None, true, 50), NodeError::UnknownMessageRequest);
    assert_eq!(refused(Some(request()), true, 101), NodeError::UnknownMessageRequest);
    assert_eq!(refused(Some(request()), false, 50), NodeError::CorruptState);
    let accepted = accept_message_request(Some(request()), true, &None, 50).unwrap();
    assert_eq!((accepted.account, accepted.device), (PEER, [2; 32]));
    assert_eq!(accepted.acknowledged, [5; 16]);
    assert_eq!(
        accepted.events,
        vec![
            Event::MessageRequestAccepted { request: [5; 16], peer: PEER },
            Event::ContactAdded { peer: PEER },
            Event::SessionEstablished { peer: PEER },
        ]
    );
    let mut book = SessionBook::new();
    book.answer_capabilities([2; 32]);
    book.answer_discovery([3; 32]);
    conclude_acceptance(&mut book, &accepted);
    assert!(book.sessions.contains(&[2; 32]));
    assert!(!book.capabilities_advertised.contains(&[2; 32]));
    assert!(book.discovery_advertised.contains(&[3; 32]));
    assert!(book.rendezvous_refresh_requested.contains(&[2; 32]));
}

#[test]
fn turning_a_request_down_keeps_the_sessions() {
    let gone = discard_message_request(Some(request()), &Vec::new(), false, 60, 2, 1_000).unwrap();
    assert_eq!(gone.block, None);
    let mut book = SessionBook::new();
    book.keep_sent([2; 32], false);
    book.answer_discovery([2; 32]);
    conclude_discard(&mut book, &gone);
    assert!(book.sessions.contains(&[2; 32]));
    assert!(!book.discovery_advertised.contains(&[2; 32]));
    assert!(book.rendezvous_refresh_requested.contains(&[2; 32]));
    let mut book = SessionBook::new();
    conclude_discard(&mut book, &gone);
    assert!(!book.sessions.contains(&[2; 32]));
}

#[test]
fn turned_down_requests_are_remembered_for_a_while() {
    let gone = discard_message_request(Some(request()), &Vec::new(), false, 60, 2, 1_000).unwrap();
    assert_eq!(gone.tombstone.expires_at, 1_060);
    assert_eq!(gone.event, Event::MessageRequestDeleted { request: [5; 16] });
    assert_eq!(gone.retire, None);
    let row = |n: u8, expires_at| Tombstone {
        request_id: [n; 16],
        account: [n; 32],
        device: [n; 32],
        rejected_at: 0,
        expires_at,
    };
    let full = vec![row(1, 50), row(2, 40)];
    let blocked = discard_message_request(Some(request()), &full, true, 60, 2, 1_000).unwrap();
    assert_eq!(blocked.event, Event::MessageRequestBlocked { request: [5; 16] });
    assert_eq!(blocked.retire, Some(1));
    assert_eq!(
        blocked.block,
        Some(BlockedIdentity { account: PEER, device: [2; 32], created_at: 1_000 })
    );
    assert!(matches!(
        discard_message_request(None, &full, true, 60, 2, 1_000),
        Err(NodeError::UnknownMessageRequest)
    ));
}

#[test]
fn safety_numbers_are_shown_in_fives() {
    assert_eq!(group_digits("123456789012"), "12345 67890 12");
    assert_eq!(group_digits("12345"), "12345");
    assert_eq!(group_digits(""), "");
}

#[test]
fn waiting_copies_are_counted_once() {
    let item = |msg_id| QueueItem {
        sequence: 1,
        peer: PEER,
        msg_id,
        group_msg_id: None,
        class: QueueClass::Interactive,
        created_at: 0,
        attempts: 0,
        next_attempt_at: 0,
        kind: EnvelopeKind::Message,
        content_id: [7; 16],
        encoded_len: 1,
        retention_until: None,
    };
    let row = |state| DeliveryRow {
        message: [1; 16],
        account: PEER,
        device: PEER,
        state,
        wire_id: Some([7; 16]),
    };
    let queue = vec![item(Some([1; 16])), item(Some([1; 16]))];
    let copies = vec![vec![row(DeliveryState::Queued)], vec![row(DeliveryState::Sent)]];
    assert_eq!(queued(&queue, &copies), 1);
}

#[test]
fn requests_are_shown_in_the_order_of_their_arrival() {
    let stored = |n: u8, arrived_at| StoredRequest {
        request_id: [n; 16],
        account: PEER,
        device: PEER,
        preview: "hello".to_string(),
        safety_number: "123456789012".to_string(),
        arrived_at,
        expires_at: 99,
        transport: AdmissionTransportClass::Mesh,
    };
    let shown = message_requests(vec![stored(3, 20), stored(2, 10), stored(1, 20)]);
    let order: Vec<[u8; 16]> = shown.iter().map(|r| r.id).collect();
    assert_eq!(order, vec![[2; 16], [1; 16], [3; 16]]);
    assert_eq!(shown[0].safety_number, "12345 67890 12");
    assert_eq!(shown[0].preview, "hello");
    assert_eq!((shown[0].arrived_at, shown[0].expires_at), (10, 99));
    assert_eq!(shown[0].transport, AdmissionTransportClass::Mesh);
}

#[test]
fn notes_are_shown_in_the_order_entered() {
    let note = |n: u8, timestamp| NoteHead { id: [n; 16], timestamp };
    let mut notes = Vec::new();
    let first = note_to_self_send(&mut notes, false, [9; 16], 2);
    assert!(first.starts_conversation);
    assert_eq!(first.note, note(9, 2));
    assert_eq!(first.event, Event::NoteToSelfMessageAdded { id: [9; 16], timestamp: 2 });
    assert!(!note_to_self_send(&mut notes, true, [3; 16], 1).starts_conversation);
    assert_eq!(note_to_self_messages(&notes), vec![note(9, 2), note(3, 1)]);
}

#[test]
fn routes_on_record_are_tried_before_those_of_providers() {
    let recorded = RecordedRoutes {
        device: Some(vec![vec![1]]),
        contact: Some(vec![vec![2]]),
        account: None,
    };
    let providers = vec![
        ProviderRoutes {
            lookup_enabled: true,
            expires_at: 100,
            routes: vec![Some(vec![5]), None, Some(vec![1])],
        },
        ProviderRoutes { lookup_enabled: false, expires_at: 100, routes: vec![Some(vec![6])] },
    ];
    assert_eq!(hints_for(&recorded, &providers, 99), vec![vec![1], vec![5]]);
    assert_eq!(hints_for(&recorded, &providers, 100), vec![vec![1]]);
    let empty = RecordedRoutes { device: Some(Vec::new()), contact: None, account: None };
    assert!(base_hints_for(&empty).is_empty());
    let other = RecordedRoutes {
        device: Some(Vec::new()),
        contact: None,
        account: Some(vec![vec![3]]),
    };
    assert_eq!(base_hints_for(&other), vec![vec![3]]);
    assert!(has_fresh_relationship_route(&empty, &providers, 99));
    assert!(!has_fresh_relationship_route(&empty, &providers, 100));
    assert!(has_fresh_relationship_route(&other, &Vec::new(), 100));
}

#[test]
fn conversations_on_screen_keep_their_devices_fresh() {
    let conversations = vec![
        ActiveConversation {
            peer: [9; 32],
            known: true,
            devices: vec![device(3, false, true), device(2, true, true)],
        },
        ActiveConversation { peer: [1; 32], known: true, devices: Vec::new() },
        ActiveConversation { peer: [8; 32], known: false, devices: Vec::new() },
        ActiveConversation { peer: [7; 32], known: true, devices: vec![device(3, false, true)] },
    ];
    assert_eq!(
        active_conversation_rendezvous_devices(&conversations),
        vec![[1; 32], [3; 32]]
    );
    let mut on_screen = IdSet::new();
    let mut book = SessionBook::new();
    let devices = vec![device(3, false, true), device(4, true, true)];
    let mut set = |book: &mut SessionBook, known, active| {
        let res =
            set_rendezvous_conversation_active(book, &mut on_screen, PEER, known, active, &devices);
        (res, on_screen.contains(&PEER))
    };
    assert_eq!(set(&mut book, true, true), (Ok(()), true));
    assert!(book.rendezvous_refresh_requested.contains(&[3; 32]));
    assert!(!book.rendezvous_refresh_requested.contains(&[4; 32]));
    assert_eq!(set(&mut book, true, false), (Ok(()), false));
    assert_eq!(set(&mut book, false, true), (Err(NodeError::UnknownPeer), false));
    let mut book = SessionBook::new();
    assert_eq!(
        request_rendezvous_refresh(&mut book, PEER, true, &Vec::new()),
        Ok(vec![PEER])
    );
    assert!(book.rendezvous_refresh_requested.contains(&PEER));
    assert_eq!(
        request_rendezvous_refresh(&mut book, PEER, false, &Vec::new()),
        Err(NodeError::UnknownPeer)
    );
}

#[test]
fn devices_are_told_once() {
    let mut book = SessionBook::new();
    for n in [3, 1, 2] {
        book.keep_sent([n; 32], false);
    }
    book.answer_capabilities([2; 32]);
    let due = |book: &SessionBook, what| due_advertisements(book, what);
    assert_eq!(due(&book, Advertisement::Capabilities), vec![[1; 32], [3; 32]]);
    assert_eq!(due(&book, Advertisement::Discovery), vec![[1; 32], [2; 32], [3; 32]]);
    conclude_advertisement(&mut book, Advertisement::Capabilities, [1; 32], false);
    conclude_advertisement(&mut book, Advertisement::Capabilities, [3; 32], true);
    assert_eq!(due(&book, Advertisement::Capabilities), vec![[1; 32]]);
    conclude_advertisement(&mut book, Advertisement::Discovery, [2; 32], true);
    assert_eq!(due(&book, Advertisement::Discovery), vec![[1; 32], [3; 32]]);
    conclude_advertisement(&mut book, Advertisement::Rendezvous, [1; 32], true);
    assert_eq!(due(&book, Advertisement::Rendezvous), vec![[2; 32], [3; 32]]);
}

#[test]
fn own_routes_are_told_only_when_complete() {
    let routes = vec![vec![2], vec![1], vec![2]];
    let whole = local_discovery_upgrade(PEER, [2; 32], 3, 4, &routes, true);
    assert!(whole.routes_complete);
    assert_eq!(whole.routes, vec![vec![1], vec![2]]);
    assert_eq!((whole.generation, whole.authority_generation), (3, 4));
    let partial = local_discovery_upgrade(PEER, [2; 32], 3, 4, &routes, false);
    assert!(!partial.routes_complete);
    assert!(partial.routes.is_empty());
}

#[test]
fn provider_sets_are_told_in_order_once_there_is_one() {
    let set = || {
        vec![
            ProviderDescriptor { origin: b"b".to_vec(), static_key: [1; 32] },
            ProviderDescriptor { origin: b"a".to_vec(), static_key: [9; 32] },
            ProviderDescriptor { origin: b"a".to_vec(), static_key: [8; 32] },
        ]
    };
    assert!(local_rendezvous_provider_control(PEER, PEER, 1, 0, set()).is_none());
    let told = local_rendezvous_provider_control(PEER, [2; 32], 1, 5, set()).unwrap();
    let order: Vec<(Vec<u8>, u8)> =
        told.providers.iter().map(|p| (p.origin.clone(), p.static_key[0])).collect();
    assert_eq!(order, vec![(b"a".to_vec(), 8), (b"a".to_vec(), 9), (b"b".to_vec(), 1)]);
    assert_eq!((told.device, told.generation), ([2; 32], 5));
}

#[test]
fn rendezvous_needs_a_valid_certificate() {
    let entry = |revoked, has_certificate, certificate_valid| CertifiedDevice {
        device: [4; 32],
        revoked,
        has_certificate,
        certificate_valid,
    };
    assert_eq!(
        rendezvous_peer_identity(&vec![entry(true, true, true), entry(false, true, true)], &[4; 32]),
        Ok(1)
    );
    assert_eq!(
        rendezvous_peer_identity(&vec![entry(false, false, true)], &[4; 32]),
        Err(NodeError::RendezvousUnavailable)
    );
    assert_eq!(
        rendezvous_peer_identity(&vec![entry(false, true, false)], &[4; 32]),
        Err(NodeError::CorruptState)
    );
}

#[test]
fn given_routes_come_before_advertised_ones() {
    let supplied = DiscoveryProjection { capability: None, generation: 0 };
    let stored = vec![StoredBundle { device: [4; 32], same_bundle: false }];
    let new = add_contact(
        supplied,
        Some(([2; 32], 3)),
        &[4; 32],
        &vec![vec![9]],
        &vec![vec![1], vec![9]],
        &stored,
    )
    .unwrap();
    assert_eq!(new.routes, vec![vec![9], vec![1]]);
    assert_eq!(new.discovery, DiscoveryProjection { capability: Some([2; 32]), generation: 3 });
    assert!(new.resets_session);
    let other = DiscoveryProjection { capability: Some([2; 32]), generation: 4 };
    let refused =
        add_contact(other, Some(([2; 32], 3)), &[4; 32], &Vec::new(), &Vec::new(), &stored);
    assert!(matches!(refused, Err(NodeError::Crypto)));
}

#[test]
fn routes_are_looked_up_for_those_who_need_them() {
    let waiting = vec![
        WaitingDevice { device: [5; 32], has_route: true },
        WaitingDevice { device: [4; 32], has_route: false },
    ];
    assert_eq!(
        lookup_requests(&vec![[9; 32], [1; 32]], &waiting, &vec![[1; 32], [3; 32]]),
        vec![[1; 32], [3; 32], [4; 32], [9; 32]]
    );
}
