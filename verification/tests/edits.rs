use kult_node::content::{
    check_body, check_pairwise, content_identity, content_retention, edit_message,
    is_already_received, Content, StoredContent,
};
use kult_node::records::Direction;
use kult_node::NodeError;

const ME: [u8; 32] = [1; 32];
const TARGET: [u8; 16] = [2; 16];

fn history() -> Vec<StoredContent> {
    vec![
        StoredContent { direction: Direction::Outbound, content: Content::Text { id: TARGET } },
        StoredContent { direction: Direction::Inbound, content: Content::Text { id: [3; 16] } },
    ]
}

fn edit_of(revision: u64) -> StoredContent {
    StoredContent {
        direction: Direction::Outbound,
        content: Content::Edit {
            id: [revision as u8; 16],
            target_author: ME,
            target_content_id: TARGET,
            revision,
        },
    }
}

#[test]
fn pairwise_edit_refuses_missing_old_client_capability() {
    assert_eq!(
        edit_message(&history(), ME, ME, TARGET, 13, 4_096, false, 64),
        Err(NodeError::EditUnsupported)
    );
}

#[test]
fn edits_are_numbered_from_one() {
    let mut stored = history();
    assert_eq!(edit_message(&stored, ME, ME, TARGET, 5, 4_096, true, 64), Ok(1));
    stored.push(edit_of(4));
    stored.push(edit_of(2));
    assert_eq!(edit_message(&stored, ME, ME, TARGET, 5, 4_096, true, 64), Ok(5));
}

#[test]
fn only_own_texts_of_bounded_size_are_edited() {
    let stored = history();
    let edit = |author, target, len| {
        edit_message(&stored, ME, author, target, len, 4_096, true, 64).unwrap_err()
    };
    assert_eq!(edit([9; 32], TARGET, 5), NodeError::InvalidEdit);
    assert_eq!(edit(ME, [3; 16], 5), NodeError::InvalidEdit);
    assert_eq!(edit(ME, TARGET, 4_097), NodeError::InvalidEdit);
    assert_eq!(edit(ME, TARGET, 0), NodeError::InvalidEdit);
}

#[test]
fn edits_run_out() {
    let mut stored = history();
    stored.push(edit_of(1));
    stored.push(edit_of(2));
    assert_eq!(
        edit_message(&stored, ME, ME, TARGET, 5, 4_096, true, 2),
        Err(NodeError::EditLimit)
    );
}

#[test]
fn content_says_what_it_is_and_how_long_it_stays() {
    let note = Content::DisappearingText { id: [4; 16], expires_at: 10, retention_until: 20 };
    assert_eq!(content_identity(&note), Some([4; 16]));
    assert_eq!(content_retention(&note), Some(20));
    assert_eq!(content_identity(&Content::LegacyText), None);
    assert_eq!(content_retention(&Content::Text { id: [4; 16] }), None);
    assert!(is_already_received(&history(), &[3; 16]));
    assert!(!is_already_received(&history(), &TARGET));
}

#[test]
fn plain_messages_carry_plain_content() {
    let id = [5; 16];
    let refusal = |content: Content| check_body(&content).unwrap_err();
    assert_eq!(check_body(&Content::LegacyText), Ok(()));
    assert_eq!(check_body(&Content::Text { id }), Ok(()));
    assert_eq!(refusal(Content::Mention { id }), NodeError::InvalidMention);
    assert_eq!(
        refusal(Content::Edit { id, target_author: ME, target_content_id: TARGET, revision: 1 }),
        NodeError::InvalidEdit
    );
    assert_eq!(
        refusal(Content::DisappearingText { id, expires_at: 1, retention_until: 1 }),
        NodeError::InvalidEphemeral
    );
    assert_eq!(refusal(Content::Poll { id }), NodeError::InvalidPoll);
    assert_eq!(refusal(Content::GroupAuthority { id }), NodeError::InvalidGroupAuthority);
    assert_eq!(refusal(Content::CallControl), NodeError::InvalidCall);
    assert!(check_pairwise(&Content::Mention { id }).is_err());
}
