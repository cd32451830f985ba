use kult_node::provider_sets::{adopt_configuration, ConfiguredProvider, LocalConfig};
use kult_node::sessions::SessionBook;
use kult_node::{DiscoveryMode, NodeError};

fn provider(origin: &str, key: u8) -> ConfiguredProvider {
    ConfiguredProvider { origin: origin.as_bytes().to_vec(), static_key: [key; 32], id: [key; 32] }
}

fn copied(providers: &[ConfiguredProvider]) -> Vec<ConfiguredProvider> {
    providers
        .iter()
        .map(|p| ConfiguredProvider {
            origin: p.origin.clone(),
            static_key: p.static_key,
            id: p.id,
        })
        .collect()
}

fn reopened(config: &LocalConfig) -> LocalConfig {
    let derived = config.providers.iter().map(|p| p.id).collect();
    LocalConfig::restored(config.generation, copied(&config.providers), &derived).unwrap()
}

fn empty() -> LocalConfig {
    LocalConfig { generation: 0, providers: Vec::new() }
}

#[test]
fn mode_reconciliation_is_monotonic_restart_safe_and_sovereign_empty() {
    let first = || provider("https://first.example", 1);
    let mut node = empty();
    let mut stored: Option<LocalConfig> = None;
    let written = node
        .reconcile_rendezvous(stored.as_ref(), DiscoveryMode::Standard, true, vec![first()], 4)
        .unwrap();
    assert!(written);
    stored = Some(reopened(&node));
    assert_eq!(node.generation, 1);

    node.reconcile_rendezvous(stored.as_ref(), DiscoveryMode::Private, true, vec![first()], 4)
        .unwrap();
    assert_eq!(node.generation, 1);

    node.reconcile_rendezvous(stored.as_ref(), DiscoveryMode::Sovereign, false, Vec::new(), 4)
        .unwrap();
    assert_eq!(node.generation, 2);
    assert!(node.providers.is_empty());
    let stored = Some(reopened(&node));

    let mut node = reopened(stored.as_ref().unwrap());
    assert_eq!(node.generation, 2);
    assert!(node.providers.is_empty());
    node.reconcile_rendezvous(stored.as_ref(), DiscoveryMode::Sovereign, false, Vec::new(), 4)
        .unwrap();
    assert_eq!(node.generation, 2);

    let replacement = provider("https://replacement.example", 2);
    node.reconcile_rendezvous(stored.as_ref(), DiscoveryMode::Standard, true, vec![replacement], 4)
        .unwrap();
    assert_eq!(node.generation, 3);
}

#[test]
fn sovereign_mode_refuses_clients_and_providers() {
    let mut node = empty();
    assert_eq!(
        node.configure_rendezvous(None, DiscoveryMode::Sovereign, true, Vec::new(), 1, 4),
        Err(NodeError::RendezvousUnavailable)
    );
    assert_eq!(
        node.configure_rendezvous(
            None,
            DiscoveryMode::Sovereign,
            false,
            vec![provider("a", 1)],
            1,
            4
        ),
        Err(NodeError::RendezvousUnavailable)
    );
    assert_eq!(node.generation, 0);
}

#[test]
fn older_generations_and_other_sets_of_the_same_one_conflict() {
    let mut node = LocalConfig { generation: 5, providers: vec![provider("a", 1)] };
    let stored = reopened(&node);
    let mut configure = |key: u8, generation: u64| {
        node.configure_rendezvous(
            Some(&stored),
            DiscoveryMode::Standard,
            true,
            vec![provider("a", key)],
            generation,
            4,
        )
    };
    assert_eq!(configure(1, 4), Err(NodeError::RendezvousUnavailable));
    assert_eq!(configure(2, 5), Err(NodeError::RendezvousConflict));
    assert_eq!(configure(1, 5), Ok(false));
    assert_eq!(configure(2, 6), Ok(true));
    assert_eq!((node.generation, node.providers[0].id), (6, [2; 32]));
}

#[test]
fn providers_are_kept_by_origin_and_key_in_any_order_given() {
    let mut node = empty();
    let set = vec![provider("b", 1), provider("a", 3), provider("a", 2)];
    node.reconcile_rendezvous(None, DiscoveryMode::Standard, true, set, 4).unwrap();
    let kept: Vec<(Vec<u8>, [u8; 32])> =
        node.providers.iter().map(|p| (p.origin.clone(), p.static_key)).collect();
    assert_eq!(
        kept,
        vec![
            (b"a".to_vec(), [2; 32]),
            (b"a".to_vec(), [3; 32]),
            (b"b".to_vec(), [1; 32])
        ]
    );
    let stored = reopened(&node);
    let other = vec![provider("a", 2), provider("b", 1), provider("a", 3)];
    assert_eq!(
        node.reconcile_rendezvous(Some(&stored), DiscoveryMode::Private, true, other, 4),
        Ok(false)
    );
    assert_eq!(node.generation, 1);
    let twice = vec![provider("a", 2), provider("a", 2)];
    assert_eq!(
        node.reconcile_rendezvous(Some(&stored), DiscoveryMode::Private, true, twice, 4),
        Err(NodeError::RendezvousUnavailable)
    );
    assert_eq!(node.generation, 1);
}

#[test]
fn stored_identities_that_do_not_follow_are_corrupt() {
    assert!(LocalConfig::restored(1, vec![provider("a", 1)], &vec![[1; 32]]).is_ok());
    assert_eq!(
        LocalConfig::restored(1, vec![provider("a", 1)], &vec![[2; 32]]).err(),
        Some(NodeError::CorruptState)
    );
    assert_eq!(
        LocalConfig::restored(u64::MAX, Vec::new(), &Vec::new())
            .unwrap()
            .reconcile_rendezvous(None, DiscoveryMode::Standard, true, vec![provider("a", 1)], 4),
        Err(NodeError::CorruptState)
    );
}

#[test]
fn configuring_providers_tells_everyone_again() {
    let mut book = SessionBook::new();
    book.sessions.insert([1; 32]);
    book.sessions.insert([2; 32]);
    book.rendezvous_advertised.insert([1; 32]);
    book.rendezvous_refresh_requested.insert([3; 32]);
    adopt_configuration(&mut book, &mut Vec::new());
    assert!(!book.rendezvous_advertised.contains(&[1; 32]));
    for device in [[1; 32], [2; 32], [3; 32]] {
        assert!(book.rendezvous_refresh_requested.contains(&device));
    }
    book.forget_refresh(&[3; 32]);
    assert!(!book.rendezvous_refresh_requested.contains(&[3; 32]));
}
