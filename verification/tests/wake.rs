use kult_node::bytes::IdSet;
use kult_node::wake::{
    accept_registration, check_gateway, check_publication, check_reconciliation, check_registration,
    completes_set, conclude_registration, conclude_revocation, configure_wake, marks_pending, next_issued_generation, publication_step,
    reconcile_wake_providers, register_native_wake_destination, registration_span, request_nonce, revocation_order,
    revoke_native_wake_capabilities, EmptySet, GatewayReply, IssuedCapability, IssuedRecord, IssuedSet,
    NativeWakeRegistrationResult, Replacement, RevocationRow, RevocationStep, WakePass,
    MAX_WAKE_REVOCATIONS_PER_TICK,
};
use kult_node::{DiscoveryMode, NodeError};

const NOW: u64 = 1_900_000_000;

fn sessions(devices: &[u8]) -> IdSet {
    let mut ids = IdSet::new();
    for n in devices {
        ids.insert([*n; 32]);
    }
    ids
}

#[test]
fn native_wake_revocation_skips_a_legacy_session_without_service_state() {
    let mut cursor = 0;
    let revocation =
        revoke_native_wake_capabilities(&sessions(&[2]), &Vec::new(), NOW + 1).unwrap();
    assert_eq!(conclude_revocation(&revocation, &mut cursor).unwrap(), 0);
    let known = vec![IssuedSet { device: [3; 32], count: 1, generation: 4 }];
    let revocation =
        revoke_native_wake_capabilities(&sessions(&[3, 2]), &known, NOW + 1).unwrap();
    assert_eq!(revocation.told, vec![EmptySet { device: [3; 32], generation: 5 }]);
}

#[test]
fn every_device_with_capabilities_is_told_an_empty_set() {
    let sets = vec![
        IssuedSet { device: [3; 32], count: 1, generation: 0 },
        IssuedSet { device: [2; 32], count: 0, generation: 9 },
        IssuedSet { device: [1; 32], count: 2, generation: 2 },
        IssuedSet { device: [4; 32], count: 2, generation: u64::MAX },
    ];
    let mut cursor = 5;
    let all = revoke_native_wake_capabilities(&sessions(&[3, 1, 2]), &sets, NOW).unwrap();
    assert_eq!(
        all.told,
        vec![
            EmptySet { device: [1; 32], generation: 3 },
            EmptySet { device: [3; 32], generation: 1 },
        ]
    );
    assert_eq!(all.stopped, None);
    assert!(revoke_native_wake_capabilities(&sessions(&[1]), &sets, 0)
        .is_err_and(|e| e == NodeError::WakeUnavailable));
    let worn = revoke_native_wake_capabilities(&sessions(&[5, 4, 1]), &sets, NOW).unwrap();
    assert_eq!((worn.told.len(), worn.stopped), (1, Some([4; 32])));
    assert_eq!(conclude_revocation(&worn, &mut cursor), Err(NodeError::CorruptState));
    assert_eq!(cursor, 5);
    assert_eq!(conclude_revocation(&all, &mut cursor), Ok(2));
    assert_eq!(cursor, 0);
}

#[test]
fn revocation_backlog_cannot_starve_an_eligible_wake_trigger() {
    let mut pass = WakePass::new();
    let mut attempted = 0;
    let mut left = 0;
    for n in 0..8u8 {
        let row = RevocationRow { id: [n; 32], expires_at: NOW + 3_600, next_attempt_at: NOW };
        match pass.revocation(&row, true, false, NOW) {
            RevocationStep::Attempt => attempted += 1,
            RevocationStep::Skip => left += 1,
            other => panic!("{:?}", other),
        }
    }
    assert_eq!(attempted, MAX_WAKE_REVOCATIONS_PER_TICK);
    assert_eq!(left, 4);
    assert_eq!(check_gateway(&[1; 32], &[1; 32]), Ok(()));
    assert_eq!(check_gateway(&[1; 32], &[2; 32]), Err(NodeError::CorruptState));
    assert!(pass.may_trigger(false));
    assert!(pass.trigger(true, NOW + 3_600, NOW, false, NOW));
    assert!(!pass.trigger(false, NOW + 3_600, NOW, false, NOW));
    assert!(!pass.may_trigger(true));
}

#[test]
fn expired_revocations_are_retired_without_an_attempt() {
    let rows = vec![
        RevocationRow { id: [1; 32], expires_at: NOW + 10, next_attempt_at: NOW },
        RevocationRow { id: [2; 32], expires_at: NOW, next_attempt_at: NOW },
    ];
    let order: Vec<[u8; 32]> = revocation_order(&rows, NOW).iter().map(|r| r.id).collect();
    assert_eq!(order, vec![[2; 32], [1; 32]]);
    let mut pass = WakePass::new();
    assert_eq!(pass.revocation(&rows[1], true, false, NOW), RevocationStep::Retire);
    let early = RevocationRow { id: [3; 32], expires_at: NOW + 10, next_attempt_at: NOW + 1 };
    assert_eq!(pass.revocation(&early, true, false, NOW), RevocationStep::Skip);
}

#[test]
fn sovereign_mode_has_no_wake_client() {
    assert_eq!(configure_wake(DiscoveryMode::Standard, true), Ok(()));
    assert_eq!(configure_wake(DiscoveryMode::Sovereign, false), Ok(()));
    assert_eq!(
        configure_wake(DiscoveryMode::Sovereign, true),
        Err(NodeError::WakeUnavailable)
    );
}

#[test]
fn nonces_are_never_zero() {
    assert_eq!(request_nonce([9; 16]), [9; 16]);
    let mut one = [0; 16];
    one[15] = 1;
    assert_eq!(request_nonce([0; 16]), one);
}

#[test]
fn generations_follow_each_other_until_they_run_out() {
    assert_eq!(next_issued_generation(4), Ok(5));
    assert_eq!(next_issued_generation(u64::MAX), Err(NodeError::CorruptState));
}

#[test]
fn capabilities_of_dropped_gateways_and_expired_ones_go() {
    let issued = vec![
        IssuedCapability { provider: [1; 32], expires_at: NOW + 5 },
        IssuedCapability { provider: [2; 32], expires_at: NOW + 5 },
        IssuedCapability { provider: [1; 32], expires_at: NOW },
    ];
    let record = |generation, issued| IssuedRecord { generation, issued };
    let allowed = vec![[1; 32]];
    assert_eq!(
        reconcile_wake_providers(Some(&record(6, issued.clone())), &allowed, NOW),
        Ok(Some((7, vec![issued[0]])))
    );
    assert_eq!(
        reconcile_wake_providers(Some(&record(6, vec![issued[0]])), &allowed, NOW),
        Ok(None)
    );
    assert_eq!(
        reconcile_wake_providers(Some(&record(6, Vec::new())), &allowed, NOW),
        Ok(None)
    );
    assert_eq!(
        reconcile_wake_providers(Some(&record(u64::MAX, issued.clone())), &allowed, NOW),
        Err(NodeError::CorruptState)
    );
    assert_eq!(
        reconcile_wake_providers(None, &allowed, NOW),
        Err(NodeError::CorruptState)
    );
    assert_eq!(check_reconciliation(4, 4, NOW), Ok(()));
    assert_eq!(check_reconciliation(5, 4, NOW), Err(NodeError::WakeUnavailable));
    assert_eq!(check_reconciliation(4, 4, 0), Err(NodeError::WakeUnavailable));
}

#[test]
fn published_capabilities_are_live_and_bounded() {
    let check = |now, client, live, expiry| check_publication(now, client, live, &vec![expiry], 100);
    assert_eq!(check(NOW, true, true, NOW + 100), Ok(()));
    assert!(check(0, true, true, 1).is_err());
    assert!(check(NOW, false, true, NOW + 1).is_err());
    assert!(check(NOW, true, false, NOW + 1).is_err());
    assert!(check(NOW, true, true, NOW).is_err());
    assert!(check(NOW, true, true, NOW + 101).is_err());
}

#[test]
fn an_unchanged_set_is_not_published_again() {
    assert_eq!(publication_step(Replacement::Unchanged, true), Ok(false));
    assert_eq!(publication_step(Replacement::Changed { same_session: true }, true), Ok(true));
    assert!(publication_step(Replacement::Invalid, true).is_err());
    assert!(publication_step(Replacement::NoRecord, true).is_err());
    assert!(publication_step(Replacement::Changed { same_session: true }, false).is_err());
}

#[test]
fn registration_goes_round_all_contacts() {
    assert_eq!(registration_span(0, 20), (0, 8));
    assert_eq!(registration_span(16, 20), (16, 20));
    assert_eq!(registration_span(20, 20), (0, 8));
    let (cursor, result) = conclude_registration(0, 8, 5, 20);
    assert_eq!(cursor, 8);
    assert_eq!(result, NativeWakeRegistrationResult { updated: 5, remaining: true });
    let (cursor, result) = conclude_registration(16, 4, 4, 20);
    assert_eq!(cursor, 0);
    assert_eq!(result, NativeWakeRegistrationResult { updated: 4, remaining: false });
}

#[test]
fn registrations_need_a_client_time_and_gateways() {
    let gateways = vec![[1; 32], [2; 32]];
    assert_eq!(check_registration(true, NOW, &gateways, 4), Ok(()));
    assert!(check_registration(false, NOW, &gateways, 4).is_err());
    assert!(check_registration(true, 0, &gateways, 4).is_err());
    assert!(check_registration(true, NOW, &Vec::new(), 4).is_err());
    assert!(check_registration(true, NOW, &gateways, 1).is_err());
    assert!(check_registration(true, NOW, &vec![[1; 32], [1; 32]], 4).is_err());
    assert!(accept_registration(true, true, NOW + 10, 100, NOW));
    assert!(!accept_registration(true, false, NOW + 10, 100, NOW));
    assert!(!accept_registration(false, true, NOW + 10, 100, NOW));
    assert!(!accept_registration(true, true, NOW, 100, NOW));
    assert!(!accept_registration(true, true, NOW + 101, 100, NOW));
}

#[test]
fn only_live_capabilities_without_conflict_are_marked() {
    assert!(marks_pending(true, false, NOW + 1, NOW));
    assert!(!marks_pending(false, false, NOW + 1, NOW));
    assert!(!marks_pending(true, true, NOW + 1, NOW));
    assert!(!marks_pending(true, false, NOW, NOW));
}

#[test]
fn a_set_is_published_only_when_every_gateway_answered() {
    let good = GatewayReply { has_capability: true, accepted: true, expires_at: NOW + 10 };
    let complete = |replies: Vec<Option<GatewayReply>>| completes_set(&replies, 2, 100, NOW);
    assert!(complete(vec![Some(good), Some(good)]));
    assert!(!complete(vec![Some(good), None]));
    assert!(!complete(vec![Some(good)]));
    assert!(!complete(vec![Some(good), Some(GatewayReply { accepted: false, ..good })]));
    assert!(!complete(vec![Some(good), Some(GatewayReply { expires_at: NOW, ..good })]));
}

#[test]
fn registrations_need_every_gateway_and_a_record() {
    let good = Some(GatewayReply { has_capability: true, accepted: true, expires_at: NOW + 5 });
    let register = |replies: Vec<Option<GatewayReply>>, issued| {
        register_native_wake_destination(&replies, 2, 100, issued, NOW)
    };
    assert_eq!(register(vec![good, good], Some(4)), Ok(Some(5)));
    assert_eq!(register(vec![good], Some(4)), Ok(None));
    assert_eq!(register(vec![good, None], None), Ok(None));
    assert_eq!(register(vec![good, good], None), Err(NodeError::CorruptState));
    assert_eq!(register(vec![good, good], Some(u64::MAX)), Err(NodeError::CorruptState));
}

#[test]
fn native_token_registration_rotates_and_permission_revocation_is_complete() {
    let reply = |now| {
        vec![Some(GatewayReply { has_capability: true, accepted: true, expires_at: now + 60 })]
    };
    let register =
        |now, issued| register_native_wake_destination(&reply(now), 1, 3_600, Some(issued), now);
    let (start, end) = registration_span(0, 1);
    assert_eq!(register(NOW, 0), Ok(Some(1)));
    let (cursor, first) = conclude_registration(start, end - start, 1, 1);
    assert_eq!(first, NativeWakeRegistrationResult { updated: 1, remaining: false });
    assert_eq!(cursor, 0);
    assert_eq!(register(NOW + 1, 1), Ok(Some(2)));
    let sets = vec![IssuedSet { device: [1; 32], count: 1, generation: 2 }];
    let revocation = revoke_native_wake_capabilities(&sessions(&[1]), &sets, NOW + 2).unwrap();
    assert_eq!(revocation.told, vec![EmptySet { device: [1; 32], generation: 3 }]);
    let mut cursor = cursor;
    assert_eq!(conclude_revocation(&revocation, &mut cursor), Ok(1));
}

#[test]
fn partial_gateway_registration_preserves_prior_complete_set() {
    let good = Some(GatewayReply { has_capability: true, accepted: true, expires_at: NOW + 60 });
    let refused =
        Some(GatewayReply { has_capability: false, accepted: false, expires_at: NOW + 60 });
    assert_eq!(
        register_native_wake_destination(&vec![good, refused], 2, 3_600, Some(1), NOW),
        Ok(None)
    );
    assert_eq!(
        register_native_wake_destination(&vec![good, None], 2, 3_600, Some(1), NOW),
        Ok(None)
    );
}
