use kult_node::candidates::{
    add_contact_by_address, check_relations, choose_former, choose_ingress, choose_record, first_by_digest, first_by_key,
    take_values, AuthorityRelation, IngressHead, Keyed, RecordHead,
};
use kult_node::discovery::{
    adopt_discovery, adopt_publication, begin_publication, conclude_publication,
    discovery_material_digest, discovery_publication_needed, discovery_routes, encode_material,
    epochs_around, former_record, retire_legacy_discovery, rotate_connect_code, route_matches,
    validate_upgrade_routes, DiscoveryState, Hint, HintKind, OwnRoutes, PublicationMaterial,
    RouteCodes,
};
use kult_node::providers::ServiceState;
use kult_node::relations::{due_advertisements, Advertisement};
use kult_node::rendezvous::ProviderState;
use kult_node::routes::{bounded_routes, canonical_routes, merge_routes};
use kult_node::sessions::SessionBook;
use kult_node::{DiscoveryMode, DiscoveryPublicationPolicy, NodeError};
use sha2::{Digest, Sha256};

const CODES: RouteCodes = RouteCodes { mailbox: 1, direct: 2 };

fn policy(mode: DiscoveryMode, publish_direct_routes: bool) -> DiscoveryPublicationPolicy {
    DiscoveryPublicationPolicy { mode, publish_direct_routes }
}

fn hints() -> Vec<Hint> {
    vec![
        Hint { kind: HintKind::Multiaddr, value: b"/ip4/1".to_vec() },
        Hint { kind: HintKind::Relay, value: b"relay".to_vec() },
        Hint { kind: HintKind::MeshNode, value: b"mesh".to_vec() },
    ]
}

#[test]
fn direct_routes_are_published_with_consent_only() {
    assert!(policy(DiscoveryMode::Sovereign, true).permits_direct_routes());
    assert!(!policy(DiscoveryMode::Sovereign, false).permits_direct_routes());
    assert!(!policy(DiscoveryMode::Private, true).permits_direct_routes());
    assert!(!policy(DiscoveryMode::Standard, true).permits_direct_routes());
    let open = discovery_routes(&hints(), policy(DiscoveryMode::Sovereign, true), CODES, 8).unwrap();
    assert_eq!(open, vec![b"\x01relay".to_vec(), b"\x02/ip4/1".to_vec()]);
    let shy = discovery_routes(&hints(), policy(DiscoveryMode::Standard, false), CODES, 8).unwrap();
    assert_eq!(shy, vec![b"\x01relay".to_vec()]);
}

#[test]
fn routes_on_record_match_their_kind() {
    assert!(route_matches(1, CODES, HintKind::Relay, true));
    assert!(route_matches(2, CODES, HintKind::Multiaddr, true));
    assert!(!route_matches(1, CODES, HintKind::Multiaddr, true));
    assert!(!route_matches(2, CODES, HintKind::Multiaddr, false));
}

#[test]
fn told_routes_are_canonical() {
    let routes = vec![vec![1], vec![2]];
    assert_eq!(
        validate_upgrade_routes(&routes, &vec![Some(vec![1]), Some(vec![2])]),
        Ok(())
    );
    assert!(validate_upgrade_routes(&routes, &vec![Some(vec![1]), None]).is_err());
    assert!(validate_upgrade_routes(&routes, &vec![Some(vec![1]), Some(vec![3])]).is_err());
}

#[test]
fn a_new_connect_code_ends_the_former_kind_of_record() {
    let state = DiscoveryState { capability: [1; 32], generation: 4, legacy_v1_enabled: true };
    let rotated = rotate_connect_code(&state, [2; 32]).unwrap();
    assert_eq!(rotated.capability, [2; 32]);
    assert_eq!(rotated.generation, 5);
    assert!(!rotated.legacy_v1_enabled);
    let worn = DiscoveryState { generation: u64::MAX, ..state };
    assert!(rotate_connect_code(&worn, [2; 32]).is_err());
    let retired = retire_legacy_discovery(&state).unwrap().unwrap();
    assert_eq!((retired.capability, retired.generation), ([1; 32], 5));
    assert_eq!(retire_legacy_discovery(&retired), Ok(None));
}

#[test]
fn changes_of_discovery_are_told_to_every_device() {
    let mut state = DiscoveryState { capability: [1; 32], generation: 4, legacy_v1_enabled: true };
    let mut book = SessionBook::new();
    book.keep_sent([8; 32], false);
    book.keep_sent([7; 32], false);
    book.answer_discovery([7; 32]);
    book.answer_capabilities([7; 32]);
    assert_eq!(due_advertisements(&book, Advertisement::Discovery), vec![[8; 32]]);
    let rotated = rotate_connect_code(&state, [2; 32]).unwrap();
    adopt_discovery(&mut state, &mut book, rotated);
    assert_eq!(state, rotated);
    assert!(book.capabilities_advertised.contains(&[7; 32]));
    assert_eq!(due_advertisements(&book, Advertisement::Discovery), vec![[7; 32], [8; 32]]);
}

#[test]
fn publishing_needs_a_plane_and_takes_a_generation() {
    let mut state = DiscoveryState { capability: [1; 32], generation: 4, legacy_v1_enabled: true };
    let shy = policy(DiscoveryMode::Standard, false);
    let begin = |state: &DiscoveryState, planes, most| {
        begin_publication(state, planes, &hints(), shy, CODES, most)
    };
    assert!(begin(&state, 0, 0).is_err_and(|e| e == NodeError::NoDiscovery));
    assert!(begin(&state, 1, 0).is_err_and(|e| e == NodeError::TooLarge));
    let worn = DiscoveryState { generation: u64::MAX, ..state };
    assert!(begin(&worn, 1, 8).is_err_and(|e| e == NodeError::CorruptState));
    let publication = begin(&state, 1, 8).unwrap();
    assert_eq!(publication.state.generation, 5);
    assert_eq!(publication.routes, vec![b"\x01relay".to_vec()]);

    let known = ServiceState::restored(0, None, vec![published_with()]).unwrap();
    let mut services = vec![known];
    let mut own = OwnRoutes { hints: Vec::new(), authoritative: false };
    let mut book = SessionBook::new();
    book.answer_discovery([7; 32]);
    adopt_publication(&mut state, &mut own, &mut book, &mut services, &publication, hints());
    assert_eq!(state.generation, 5);
    assert!(own.authoritative);
    assert_eq!(own.hints.len(), 3);
    assert!(!book.discovery_advertised.contains(&[7; 32]));
    let provider = &services[0].providers()[0];
    assert_eq!((provider.next_register_at, provider.consecutive_failures), (0, 0));
    assert_eq!(provider.circuit_open_until, 0);
    assert_eq!(provider.next_lookup_at, 9_000);

    assert_eq!(epochs_around(10, 1, 1), Ok((9, 11)));
    assert_eq!(epochs_around(0, 1, 1), Ok((0, 1)));
    assert!(epochs_around(u64::MAX, 1, 1).is_err());
}

fn published_with() -> ProviderState {
    ProviderState {
        provider: [1; 32],
        publish_enabled: true,
        lookup_enabled: true,
        withdrawal_pending: false,
        publish_generation: 3,
        registration_confirmed_at: 100,
        next_register_at: 4_000,
        accepted_generation: 0,
        conflict_generation: None,
        clock_floor: 0,
        routes: Vec::new(),
        routes_expires_at: 0,
        next_lookup_at: 9_000,
        consecutive_failures: 4,
        circuit_open_until: 5_000,
    }
}

#[test]
fn former_records_name_mailboxes_only() {
    let state = DiscoveryState { capability: [1; 32], generation: 4, legacy_v1_enabled: true };
    let record = former_record(&state, &hints(), 100).unwrap();
    assert_eq!(record.expires_at, 100 + 30 * 86_400);
    assert_eq!(record.hints.len(), 1);
    assert_eq!(record.hints[0].value, b"relay".to_vec());
    assert_eq!(former_record(&state, &hints(), u64::MAX).unwrap().expires_at, u64::MAX);
    let retired = retire_legacy_discovery(&state).unwrap().unwrap();
    assert!(former_record(&retired, &hints(), 100).is_none());
}

#[test]
fn one_plane_has_to_take_every_record() {
    let mut published = Some([1; 32]);
    assert_eq!(
        conclude_publication(
            &vec![vec![false, true], vec![true, false]],
            &mut published,
            [2; 32]
        ),
        Err(NodeError::NoDiscovery)
    );
    assert_eq!(published, Some([1; 32]));
    assert_eq!(
        conclude_publication(&vec![vec![false, true], vec![true, true]], &mut published, [2; 32]),
        Ok(())
    );
    assert_eq!(published, Some([2; 32]));
}

fn material() -> PublicationMaterial {
    PublicationMaterial {
        address_digest: [1; 32],
        device: [2; 32],
        capability: [3; 32],
        legacy_v1_enabled: true,
        manifest: vec![4, 5],
        spk_id: 6,
        spk: vec![7],
        pqspk_id: 8,
        pqspk: vec![9],
        difficulty: 10,
        max_first_ciphertext: 11,
        max_clock_skew_secs: 12,
        token_issuers: 0,
        policy: policy(DiscoveryMode::Private, false),
        routes: vec![vec![1, 0x61], vec![2, 0x62, 0x63]],
    }
}

#[test]
fn what_is_published_is_digested_with_its_label() {
    let bytes = encode_material(&material());
    assert!(bytes.starts_with(b"Komms-Discovery-Publication-Material-v2"));
    let digest: [u8; 32] = Sha256::digest(&bytes).into();
    assert_eq!(discovery_material_digest(&material()), digest);
    assert!(discovery_publication_needed(&None, &digest));
    assert!(!discovery_publication_needed(&Some(digest), &digest));
    let mut other = material();
    other.routes[1][2] = 0x64;
    let changed = discovery_material_digest(&other);
    assert!(discovery_publication_needed(&Some(digest), &changed));
}

#[test]
fn routes_are_kept_in_byte_order() {
    let routes = vec![vec![3], vec![1, 2], vec![1], vec![3]];
    assert_eq!(canonical_routes(&routes), vec![vec![1], vec![1, 2], vec![3]]);
    assert_eq!(bounded_routes(&routes, 2), vec![vec![1], vec![1, 2]]);
    assert_eq!(
        merge_routes(&vec![vec![3], vec![1]], &vec![vec![2], vec![1], vec![2]]),
        vec![vec![3], vec![1], vec![2]]
    );
}

#[test]
fn the_first_by_digest_are_looked_at() {
    let values: Vec<Vec<u8>> = (0..6u8).map(|n| vec![n]).collect();
    let mut sorted = values.clone();
    sorted.sort_by_key(|v| Sha256::digest(v).to_vec());
    assert_eq!(first_by_digest(&values, 3), sorted[..3].to_vec());
    let keyed = vec![
        Keyed { key: [2; 32], value: vec![2] },
        Keyed { key: [1; 32], value: vec![1] },
        Keyed { key: [1; 32], value: vec![1] },
    ];
    assert_eq!(first_by_key(&keyed, 2), vec![vec![1], vec![2]]);
}

#[test]
fn oversized_answers_are_passed_over() {
    let values = vec![vec![1; 4], vec![2; 5], vec![3; 4]];
    let taken = take_values(&values, 4, 2);
    assert!(taken.is_empty());
    assert!(take_values(&vec![vec![1; 4], vec![2; 5]], 4, 2).is_empty());
    assert_eq!(take_values(&vec![vec![1; 4], vec![2; 3]], 4, 2), vec![vec![1; 4]]);
    assert_eq!(take_values(&vec![vec![1; 4], vec![1; 4]], 4, usize::MAX), vec![vec![1; 4]]);
}

#[test]
fn forks_of_an_authority_are_told() {
    assert_eq!(check_relations(&vec![AuthorityRelation::Compatible]), Ok(()));
    assert_eq!(
        check_relations(&vec![AuthorityRelation::Compatible, AuthorityRelation::Fork]),
        Err(NodeError::DeviceAuthorityFork)
    );
    assert_eq!(
        check_relations(&vec![AuthorityRelation::RecoveryConflict]),
        Err(NodeError::DeviceRecoveryConflict)
    );
}

#[test]
fn the_newest_record_wins() {
    let head = |generation, issued_at, digest| RecordHead { generation, issued_at, digest };
    assert_eq!(choose_record(&Vec::new()), None);
    assert_eq!(
        choose_record(&vec![head(1, 9, [1; 32]), head(2, 1, [1; 32]), head(2, 3, [1; 32])]),
        Some(2)
    );
    assert_eq!(choose_former(&vec![5, 9, 9, 2]), Some(1));
    assert_eq!(choose_former(&Vec::new()), None);
    let ingress = |expires_at, device| IngressHead { expires_at, device };
    assert!(choose_ingress(&vec![ingress(5, [2; 32]), ingress(9, [1; 32])]).is_some());
    assert_eq!(choose_ingress(&Vec::new()), None);
}

#[test]
fn a_connect_code_leads_to_the_longest_lasting_device() {
    let head = |generation| RecordHead { generation, issued_at: 1, digest: [1; 32] };
    let device = |expires_at, n: u8| IngressHead { expires_at, device: [n; 32] };
    let records = vec![head(1), head(2)];
    let ingress = vec![vec![device(9, 1)], vec![device(5, 3), device(5, 2), device(4, 1)]];
    let target = add_contact_by_address(1, &records, &ingress).unwrap();
    assert_eq!((target.record, target.ingress), (1, 1));
    assert_eq!(add_contact_by_address(0, &records, &ingress), Err(NodeError::NoDiscovery));
    assert_eq!(
        add_contact_by_address(1, &Vec::new(), &Vec::new()),
        Err(NodeError::BundleNotFound)
    );
    assert_eq!(
        add_contact_by_address(1, &vec![head(1)], &vec![Vec::new()]),
        Err(NodeError::BundleNotFound)
    );
}
