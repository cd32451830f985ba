use kult_node::tokens::{
    mailbox_tokens, match_session, token_is_mine, token_window, SessionTokens, TokenRequest,
};

fn sessions() -> Vec<SessionTokens> {
    vec![
        SessionTokens { peer: [1; 32], tokens: vec![[10; 32], [11; 32]] },
        SessionTokens { peer: [2; 32], tokens: vec![[20; 32]] },
    ]
}

#[test]
fn tokens_are_looked_for_over_five_weeks_and_a_little_ahead() {
    assert_eq!(token_window(100), (65, 102));
    assert_eq!(token_window(10), (0, 12));
}

#[test]
fn a_token_names_its_session() {
    assert_eq!(match_session(&sessions(), &[20; 32]), Some([2; 32]));
    assert_eq!(match_session(&sessions(), &[11; 32]), Some([1; 32]));
    let mut close = [20; 32];
    close[31] = 21;
    assert_eq!(match_session(&sessions(), &close), None);
}

#[test]
fn former_introduction_tokens_count_only_while_enabled() {
    let introductions = vec![[30; 32]];
    let former = vec![[40; 32]];
    assert!(token_is_mine(&sessions(), &introductions, &former, false, &[10; 32]));
    assert!(token_is_mine(&sessions(), &introductions, &former, false, &[30; 32]));
    assert!(!token_is_mine(&sessions(), &introductions, &former, false, &[40; 32]));
    assert!(token_is_mine(&sessions(), &introductions, &former, true, &[40; 32]));
    assert!(!token_is_mine(&sessions(), &introductions, &former, true, &[50; 32]));
}

#[test]
fn mailboxes_are_watched_from_the_window_to_five_weeks_ahead() {
    let plain = mailbox_tokens(100, false, false, 1);
    assert!(plain.contains(&TokenRequest::Introduction { epoch: 100 }));
    assert!(plain.contains(&TokenRequest::SessionAccount { epoch: 100, session: 0 }));
    assert!(!plain.contains(&TokenRequest::FormerAccount { epoch: 100 }));
    let all = mailbox_tokens(100, true, true, 2);
    assert!(all.contains(&TokenRequest::FormerAccount { epoch: 100 }));
    assert!(all.contains(&TokenRequest::SessionDevice { epoch: 100, session: 1 }));
    assert!(all.len() > plain.len());
}
