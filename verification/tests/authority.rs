use kult_node::authority::{
    check_layout, complete_authority_migration, complete_authority_reset, confirm_migration,
    confirm_reset, confirm_restored_reset, conflict_events, first_connect_code,
    prepare_authority_migration, prepare_authority_reset, sessions_to_load, AuthorityStep, ContactEntry,
    FormerState, SessionConflicts,
};
use kult_node::discovery::DiscoveryState;
use kult_node::establish::DeviceEntry;
use kult_node::{Event, NodeError};

const ONE: FormerState = FormerState { devices: 1, channels: 0 };
const COPIED: FormerState = FormerState { devices: 2, channels: 0 };

#[test]
fn any_durable_evidence_of_a_copied_alpha_root_requires_new_identity_reset() {
    assert_eq!(check_layout(true, Some(COPIED)), Err(NodeError::AuthorityResetRequired));
    assert_eq!(
        prepare_authority_migration(true, Some(COPIED)),
        Err(NodeError::AuthorityResetRequired)
    );
    let synced = FormerState { devices: 1, channels: 1 };
    assert_eq!(check_layout(true, Some(synced)), Err(NodeError::AuthorityResetRequired));
}

#[test]
fn a_profile_of_one_device_migrates() {
    assert_eq!(check_layout(false, None), Ok(()));
    assert_eq!(check_layout(true, Some(ONE)), Err(NodeError::AuthorityMigrationRequired));
    assert_eq!(check_layout(true, None), Err(NodeError::AuthorityMigrationRequired));
    assert_eq!(prepare_authority_migration(true, Some(ONE)), Ok(()));
    assert_eq!(prepare_authority_migration(false, Some(ONE)), Err(NodeError::CorruptState));
    assert_eq!(prepare_authority_migration(true, None), Err(NodeError::CorruptState));
}

#[test]
fn migration_keeps_the_account_and_can_be_repeated() {
    let root = [1; 32];
    assert_eq!(
        complete_authority_migration(root, Some(root), None, Some(ONE), true),
        Ok(AuthorityStep::Proceed)
    );
    assert_eq!(
        complete_authority_migration(root, None, Some(root), None, true),
        Ok(AuthorityStep::AlreadyDone)
    );
    assert!(complete_authority_migration([2; 32], Some(root), None, Some(ONE), true).is_err());
    assert!(complete_authority_migration([2; 32], None, Some(root), None, true).is_err());
}

#[test]
fn a_reset_takes_another_account() {
    let root = [1; 32];
    assert_eq!(
        complete_authority_reset([2; 32], Some(root), None, None, true, false),
        Ok(AuthorityStep::Proceed)
    );
    assert!(complete_authority_reset(root, Some(root), None, None, true, false).is_err());
}

#[test]
fn changes_of_authority_are_read_back() {
    let (old, new) = ([1; 32], [2; 32]);
    let state = vec![7, 8];
    let migrated = |root, account, recorded: Option<Vec<u8>>| {
        confirm_migration(root, old, account, &state, &recorded)
    };
    assert_eq!(migrated(false, Some(old), Some(vec![7, 8])), Ok(()));
    for (root, account, recorded) in [
        (true, Some(old), Some(vec![7, 8])),
        (false, None, Some(vec![7, 8])),
        (false, Some(new), Some(vec![7, 8])),
        (false, Some(old), Some(vec![7])),
        (false, Some(old), None),
    ] {
        assert_eq!(migrated(root, account, recorded), Err(NodeError::CorruptState));
    }
    assert_eq!(confirm_reset(false, old, new, old, new), Ok(()));
    for (root, former, account) in [(true, old, new), (false, new, new), (false, old, old)] {
        assert_eq!(
            confirm_reset(root, old, new, former, account),
            Err(NodeError::CorruptState)
        );
    }
    assert_eq!(confirm_restored_reset(false, new, new, Some(new)), Ok(()));
    for (root, reset, account) in
        [(true, new, Some(new)), (false, old, Some(new)), (false, new, Some(old)), (false, new, None)]
    {
        assert_eq!(
            confirm_restored_reset(root, new, reset, account),
            Err(NodeError::CorruptState)
        );
    }
}

#[test]
fn changes_of_authority_need_a_whole_profile() {
    let root = [1; 32];
    assert_eq!(
        complete_authority_migration(root, Some(root), None, Some(ONE), false),
        Err(NodeError::CorruptState)
    );
    assert_eq!(
        complete_authority_migration(root, None, Some(root), None, false),
        Err(NodeError::CorruptState)
    );
    assert_eq!(
        complete_authority_reset(root, None, Some(root), Some(root), false, true),
        Ok(AuthorityStep::AlreadyDone)
    );
    assert_eq!(
        complete_authority_reset(root, None, Some(root), Some(root), false, false),
        Err(NodeError::CorruptState)
    );
    assert_eq!(prepare_authority_reset(Some(root), true, [2; 32]), Ok(()));
    assert_eq!(prepare_authority_reset(Some(root), true, root), Err(NodeError::CorruptState));
    assert_eq!(prepare_authority_reset(Some(root), false, [2; 32]), Err(NodeError::CorruptState));
    assert_eq!(prepare_authority_reset(None, true, [2; 32]), Err(NodeError::CorruptState));
}

#[test]
fn a_connect_code_is_minted_once() {
    let mut state = DiscoveryState { capability: [0; 32], generation: 0, legacy_v1_enabled: true };
    assert!(first_connect_code(&mut state, [5; 32]));
    assert_eq!((state.capability, state.generation), ([5; 32], 1));
    assert!(!first_connect_code(&mut state, [6; 32]));
    assert_eq!(state.capability, [5; 32]);
}

#[test]
fn revoked_devices_have_no_session() {
    let entries = vec![
        DeviceEntry { device: [1; 32], revoked: false, has_session: true, ..entry() },
        DeviceEntry { device: [2; 32], revoked: true, has_session: true, ..entry() },
        DeviceEntry { device: [3; 32], revoked: false, has_session: false, ..entry() },
    ];
    let contacts = vec![
        ContactEntry { peer: [2; 32], has_session: true },
        ContactEntry { peer: [9; 32], has_session: true },
        ContactEntry { peer: [8; 32], has_session: false },
    ];
    assert_eq!(sessions_to_load(&entries, &contacts), vec![[1; 32], [9; 32]]);
}

fn entry() -> DeviceEntry {
    DeviceEntry {
        account: [0; 32],
        device: [0; 32],
        revoked: false,
        has_bundle: false,
        has_session: false,
    }
}

#[test]
fn conflicts_are_told_again_after_a_restart() {
    let sessions = vec![SessionConflicts {
        peer: [1; 32],
        device: [2; 32],
        provider_set: true,
        providers: vec![[3; 32]],
        wake: Some(7),
    }];
    let events = conflict_events(&sessions);
    assert_eq!(
        events,
        vec![
            Event::RendezvousConflict { peer: [1; 32], device: [2; 32], provider: [0; 32] },
            Event::RendezvousConflict { peer: [1; 32], device: [2; 32], provider: [3; 32] },
            Event::WakeConflict { peer: [1; 32], device: [2; 32], generation: 7 },
        ]
    );
}
