use kult_node::admission::select_prekeys;
use kult_node::discovery::DiscoveryState;
use kult_node::handshakes::{handshake_bundle, spend_prekeys};
use kult_node::vault::{PrekeyVault, MAX_OPKS};
use kult_node::NodeError;

fn vault() -> PrekeyVault {
    PrekeyVault::generate([7; 32], vec![1, 2, 3], vec![4, 5])
}

#[test]
fn a_vault_survives_its_encoding() {
    let mut before = vault();
    let first = before.fresh_opk([8; 32]);
    let second = before.fresh_opk([9; 32]);
    assert_eq!((first, second), (1, 2));
    let after = PrekeyVault::decode(&before.encode()).unwrap();
    assert_eq!(after.spk(), (1, [7; 32]));
    assert_eq!(after.pqspk(), (1, vec![1, 2, 3], vec![4, 5]));
    assert_eq!(after.opk(1), Some([8; 32]));
    assert_eq!(after.opk(2), Some([9; 32]));
    assert_eq!(after.encode(), before.encode());
}

#[test]
fn a_vault_is_laid_out_field_by_field() {
    let mut expected = vec![1u8];
    expected.extend([7; 32]);
    expected.extend([1, 3, 1, 2, 3, 2, 4, 5, 0, 1]);
    assert_eq!(vault().encode(), expected);
}

#[test]
fn a_cut_vault_is_corrupt() {
    let bytes = vault().encode();
    assert!(matches!(PrekeyVault::decode(&bytes[..bytes.len() - 1]), Err(NodeError::CorruptState)));
    assert!(matches!(PrekeyVault::decode(&[]), Err(NodeError::CorruptState)));
}

#[test]
fn what_follows_a_vault_is_left_unread() {
    let mut bytes = vault().encode();
    bytes.extend([9, 9]);
    assert_eq!(PrekeyVault::decode(&bytes).unwrap().encode(), vault().encode());
    let mut long = vec![0x81, 0x00];
    long.extend(&vault().encode()[1..]);
    assert_eq!(PrekeyVault::decode(&long).unwrap().encode(), vault().encode());
    let mut wrong = vec![0x81, 0x80, 0x80, 0x80, 0x10];
    wrong.extend(&vault().encode()[1..]);
    assert!(matches!(PrekeyVault::decode(&wrong), Err(NodeError::CorruptState)));
}

#[test]
fn the_oldest_one_time_prekey_makes_room() {
    let mut vault = vault();
    for n in 0..=MAX_OPKS as u8 {
        vault.fresh_opk([n; 32]);
    }
    assert_eq!(vault.opk(1), None);
    assert_eq!(vault.opk(2), Some([1; 32]));
    assert_eq!(vault.opk(MAX_OPKS as u32 + 1), Some([MAX_OPKS as u8; 32]));
}

#[test]
fn a_one_time_prekey_is_used_once() {
    let mut vault = vault();
    let id = vault.fresh_opk([8; 32]);
    let other = vault.fresh_opk([9; 32]);
    assert_eq!(select_prekeys(&vault, 1, 1, Some(id)), Some(Some([8; 32])));
    assert!(spend_prekeys(&mut vault, Some(id), false));
    assert_eq!(select_prekeys(&vault, 1, 1, Some(id)), None);
    assert_eq!(select_prekeys(&vault, 1, 1, Some(other)), Some(Some([9; 32])));
    assert!(!spend_prekeys(&mut vault, None, false));
    assert!(spend_prekeys(&mut vault, None, true));
}

#[test]
fn outdated_prekeys_are_not_answered() {
    let vault = vault();
    assert_eq!(select_prekeys(&vault, 1, 1, None), Some(None));
    assert_eq!(select_prekeys(&vault, 2, 1, None), None);
    assert_eq!(select_prekeys(&vault, 1, 2, None), None);
}

#[test]
fn wiping_leaves_nothing() {
    let mut vault = vault();
    let id = vault.fresh_opk([8; 32]);
    vault.zeroize();
    assert_eq!(vault.spk(), (0, [0; 32]));
    assert_eq!(vault.pqspk(), (0, Vec::new(), Vec::new()));
    assert_eq!(vault.opk(id), None);
}

#[test]
fn each_bundle_takes_its_own_one_time_prekey() {
    let mut vault = vault();
    let state = DiscoveryState { capability: [5; 32], generation: 6, legacy_v1_enabled: false };
    let first = handshake_bundle(&mut vault, &state, [8; 32], 100);
    let second = handshake_bundle(&mut vault, &state, [9; 32], 100);
    assert_ne!(first.opk_id, second.opk_id);
    assert_eq!(first.expires_at, 100 + 30 * 86_400);
    assert_eq!((first.capability, first.generation), ([5; 32], 6));
    let select = |vault: &PrekeyVault, id| select_prekeys(vault, 1, 1, Some(id));
    assert_eq!(select(&vault, first.opk_id), Some(Some([8; 32])));
    assert!(spend_prekeys(&mut vault, Some(first.opk_id), false));
    assert_eq!(select(&vault, first.opk_id), None);
    assert_eq!(select(&vault, second.opk_id), Some(Some([9; 32])));
}
