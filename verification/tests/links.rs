use kult_node::bridge::{
    deposit_outcome, flood_outcome, may_deposit, set_bridge, Bridge, TransitAction,
    TransitEnvelope, TransitOutcome, MAX_TRANSIT_ITEMS,
};
use kult_node::endpoints::{
    apply_discovery_upgrade, insert_id, merge_manifest, sender_authorized, single_endpoint,
    EndpointRow, ManifestEntry,
};
use kult_node::fragments::{FragmentCache, PartialTable, Retransmission};
use kult_node::pins::{pin_info, pins_changed, reorder_pins, stale_pins, PinStatus};
use kult_node::presentation::Presentation;
use kult_node::records::EnvelopeKind;
use kult_node::schedule::Reachability;
use kult_node::theme::{theme_changed, theme_preference};
use kult_node::{ConversationId, Event, ThemePreference};

fn envelope(n: u8) -> TransitEnvelope {
    TransitEnvelope {
        content_id: [n; 16],
        kind: EnvelopeKind::Message,
        encoded_len: 100,
        retention_until: None,
    }
}

#[test]
fn what_the_mesh_hears_is_deposited_and_the_rest_flooded() {
    let mut bridge = Bridge::new(Vec::new());
    assert!(bridge.take_over(envelope(1), true, 100));
    assert!(!bridge.take_over(envelope(1), true, 100));
    bridge.take_over(envelope(2), false, 100);
    let mut pass = bridge.begin_pass(100);
    let (first, action) = pass.next_action(100).unwrap();
    assert_eq!((first.envelope.content_id, action), ([1; 16], TransitAction::Deposit));
    assert!(!pass.record(TransitOutcome::Accepted, 100));
    let (second, action) = pass.next_action(100).unwrap();
    assert_eq!((second.envelope.content_id, action), ([2; 16], TransitAction::Flood));
    pass.record(TransitOutcome::Flooded, 100);
    assert!(pass.next_action(100).is_none());
    bridge.end_pass(pass);
    let mut pass = bridge.begin_pass(101);
    let (again, action) = pass.next_action(101).unwrap();
    assert_eq!((again.envelope.content_id, action), ([2; 16], TransitAction::Wait));
    pass.record(TransitOutcome::Waited, 101);
    assert!(pass.next_action(101).is_none());
    bridge.end_pass(pass);
}

#[test]
fn transit_is_bounded_and_expires() {
    let mut bridge = Bridge::new(Vec::new());
    for n in 0..=(MAX_TRANSIT_ITEMS as u32) {
        let mut item = envelope(0);
        item.content_id[..4].copy_from_slice(&n.to_le_bytes());
        bridge.take_over(item, true, 100);
    }
    let mut pass = bridge.begin_pass(100);
    let mut count = 0;
    while pass.next_action(100).is_some() {
        pass.record(TransitOutcome::Unreachable, 100);
        count += 1;
    }
    assert_eq!(count, MAX_TRANSIT_ITEMS);
    bridge.end_pass(pass);
    let pass = bridge.begin_pass(100 + 259_201);
    assert!(pass.next_action(100 + 259_201).is_none());
    bridge.end_pass(pass);
}

#[test]
fn lost_pieces_are_sent_again_to_their_recipient_only() {
    let mut cache = FragmentCache::new();
    let bodies = vec![vec![1, 2, 3, 4, 0], vec![1, 2, 3, 4, 1]];
    cache.remember_fragments([7; 32], [8; 32], Some(500), bodies, 100, 50);
    assert!(cache.get(&[1, 2, 3, 4]).is_some());
    let nacks = vec![([1, 2, 3, 4], vec![1, 9])];
    assert_eq!(
        cache.retransmissions([7; 32], &nacks, 120, 8),
        vec![Retransmission { id: [1, 2, 3, 4], index: 1, retention_until: Some(500) }]
    );
    assert!(cache.retransmissions([6; 32], &nacks, 120, 8).is_empty());
    assert!(cache.retransmissions([7; 32], &nacks, 500, 8).is_empty());
}

#[test]
fn missing_pieces_are_asked_for_after_a_minute() {
    let mut table = PartialTable::new();
    table.note_piece(&vec![1, 2, 3, 4, 9], [8; 32], 100);
    table.note_piece(&vec![1, 2], [8; 32], 100);
    let missing = vec![([1, 2, 3, 4], vec![0u16, 2])];
    assert!(table.stale_partials(&missing, 159).is_empty());
    let asked = table.stale_partials(&missing, 160);
    assert_eq!(asked, missing);
    table.note_nack(&[1, 2, 3, 4], 160);
    assert!(table.stale_partials(&missing, 1_059).is_empty());
    assert_eq!(table.stale_partials(&missing, 1_060), missing);
    assert!(table.stale_partials(&Vec::new(), 5_000).is_empty());
    assert!(table.stale_partials(&missing, 5_000).is_empty());
}

fn row(n: u8, generation: u64) -> EndpointRow {
    EndpointRow {
        device: [n; 32],
        manifest_generation: generation,
        last_seen: 50,
        introduction_capability: None,
        introduction_generation: 0,
        revoked_at: None,
        has_bundle: true,
        has_hints: true,
    }
}

fn listed(n: u8, revoked_at: Option<u64>) -> ManifestEntry {
    ManifestEntry {
        device: [n; 32],
        issued_at: n as u64,
        last_seen: 10,
        revoked_at,
        revoked_after_counter: None,
    }
}

#[test]
fn a_manifest_says_which_devices_there_are() {
    let merge = merge_manifest(
        &vec![row(2, 1), row(3, 1), row(5, 1)],
        &vec![listed(2, None), listed(3, Some(90)), listed(4, None)],
        [1; 32],
        [2; 32],
        true,
        2,
        100,
    );
    let devices: Vec<[u8; 32]> = merge.endpoints.iter().map(|e| e.device).collect();
    assert_eq!(devices, vec![[2; 32], [3; 32], [4; 32]]);
    assert_eq!(merge.endpoints[0].last_seen, 100);
    assert_eq!(merge.endpoints[1].last_seen, 50);
    assert_eq!(merge.delete, vec![2]);
    assert_eq!(merge.cleanup, vec![[3; 32], [5; 32]]);
    let single = single_endpoint(&vec![row(2, 1)], [2; 32], false, false, 100);
    assert_eq!((single.prior, single.last_seen), (Some(0), 100));
}

#[test]
fn only_live_devices_of_the_current_manifest_speak() {
    assert!(sender_authorized(&vec![row(2, 3)], &[2; 32], 3));
    let mut revoked = row(2, 3);
    revoked.revoked_at = Some(1);
    assert!(!sender_authorized(&vec![revoked], &[2; 32], 3));
    assert!(!sender_authorized(&vec![row(2, 3)], &[4; 32], 3));
    let updates = apply_discovery_upgrade(&vec![row(2, 3)], [2; 32], 3, [9; 32], 1, true).unwrap();
    assert_eq!(updates.len(), 1);
    assert!(updates[0].replace_hints);
    let mut ids = vec![[1; 32], [3; 32]];
    insert_id(&mut ids, [2; 32]);
    insert_id(&mut ids, [3; 32]);
    assert_eq!(ids, vec![[1; 32], [2; 32], [3; 32]]);
}

#[test]
fn changes_are_told_again_until_delivery_is_recorded() {
    let mut shown = Presentation::new(Some([1; 16]), &Vec::new());
    assert_eq!(shown.drain_events(), vec![Event::StateResyncRequired]);
    assert_eq!(shown.acknowledge_presentation(Some([1; 16])), Some([1; 16]));
    shown.accept_commit_receipt(Some([2; 16]), &vec![Event::PinsChanged]);
    assert_eq!(shown.acknowledge_presentation(Some([2; 16])), None);
    assert_eq!(shown.drain_events(), vec![Event::PinsChanged]);
    assert_eq!(shown.acknowledge_presentation(Some([3; 16])), None);
}

#[test]
fn pins_and_appearance_are_told_when_they_change() {
    assert_eq!(pins_changed(true), Some(Event::PinsChanged));
    assert_eq!(pins_changed(false), None);
    assert_eq!(theme_changed(true), Some(Event::ThemeChanged));
    assert_eq!(theme_changed(false), None);
    assert_eq!(theme_preference(None), ThemePreference::System);
    assert_eq!(theme_preference(Some(ThemePreference::Chosen(2))), ThemePreference::Chosen(2));
    let pin = |n: u8, active| PinStatus {
        conversation: ConversationId::Peer([n; 32]),
        order: n as u64,
        active,
    };
    let pins = vec![pin(1, true), pin(2, false)];
    let order = |a: u8, b: u8| vec![ConversationId::Peer([a; 32]), ConversationId::Peer([b; 32])];
    assert_eq!(reorder_pins(&pins, &order(1, 2)), None);
    assert_eq!(reorder_pins(&pins, &order(2, 1)), Some(Event::PinsChanged));
    assert_eq!(stale_pins(&pins), vec![pin(2, false)]);
    assert_eq!(pin_info(&pin(1, true), Some("Ada".to_string())).display_name, Some("Ada".to_string()));
    assert_eq!(pin_info(&pin(2, false), Some("Ada".to_string())).display_name, None);
}

#[test]
fn changing_relays_keeps_what_is_in_transit() {
    let relays = |names: &[&str]| names.iter().map(|n| n.to_string()).collect::<Vec<String>>();
    let mut bridge = set_bridge(None, Some(relays(&["a", "b"]))).unwrap();
    assert_eq!(bridge.relays(), &relays(&["a", "b"]));
    bridge.take_over(envelope(1), true, 100);
    let mut bridge = set_bridge(Some(bridge), Some(relays(&["c"]))).unwrap();
    assert_eq!(bridge.relays(), &relays(&["c"]));
    let pass = bridge.begin_pass(100);
    assert_eq!(pass.next_action(100).unwrap().0.envelope.content_id, [1; 16]);
    assert_eq!(bridge.relays(), &relays(&["c"]));
    assert!(set_bridge(Some(bridge), None).is_none());
}

#[test]
fn deposits_never_go_back_over_the_air() {
    assert!(may_deposit(false, Reachability::Now));
    assert!(may_deposit(false, Reachability::StoreAndForward));
    assert!(!may_deposit(false, Reachability::Unreachable));
    assert!(!may_deposit(true, Reachability::Now));
    assert_eq!(deposit_outcome(&Vec::new()), TransitOutcome::Unreachable);
    assert_eq!(deposit_outcome(&vec![false, false]), TransitOutcome::Refused);
    assert_eq!(deposit_outcome(&vec![false, true]), TransitOutcome::Accepted);
    assert_eq!(flood_outcome(&vec![true, false]), TransitOutcome::Flooded);
    assert_eq!(flood_outcome(&Vec::new()), TransitOutcome::NotFlooded);
}
