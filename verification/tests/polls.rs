use kult_node::polls::{
    group_close_poll, group_create_poll, group_vote_poll, mint_unique_id, resolve_polls, PollEvent,
    PollInfo, PollOption, PollRecord, PollVoteInfo,
};
use kult_node::NodeError;

const GROUP: [u8; 32] = [0x10; 32];
const AUTHOR: [u8; 32] = [0x20; 32];
const VOTER: [u8; 32] = [0x30; 32];
const OUTSIDER: [u8; 32] = [0x40; 32];
const POLL_ID: [u8; 16] = [0x50; 16];
const OPTION_A: [u8; 16] = [0x60; 16];
const OPTION_B: [u8; 16] = [0x70; 16];

fn create() -> PollRecord {
    PollRecord {
        sender: AUTHOR,
        id: POLL_ID,
        event: PollEvent::Create {
            generation: 9,
            question: "Pick one".to_string(),
            options: vec![
                PollOption { id: OPTION_A, text: "A".to_string() },
                PollOption { id: OPTION_B, text: "B".to_string() },
            ],
            voters: vec![AUTHOR, VOTER],
        },
    }
}

fn vote(sender: [u8; 32], event_id: [u8; 16], option: [u8; 16], revision: u64) -> PollRecord {
    PollRecord {
        sender,
        id: event_id,
        event: PollEvent::Vote {
            poll_author: AUTHOR,
            poll_id: POLL_ID,
            option_id: option,
            revision,
        },
    }
}

fn close(event_id: [u8; 16], head: PollVoteInfo) -> PollRecord {
    PollRecord {
        sender: AUTHOR,
        id: event_id,
        event: PollEvent::Close { poll_author: AUTHOR, poll_id: POLL_ID, heads: vec![head] },
    }
}

fn only(local: [u8; 32], records: Vec<PollRecord>) -> PollInfo {
    resolve_polls(GROUP, local, &records).remove(0)
}

#[test]
fn revisions_duplicates_reordering_and_outsiders_converge() {
    let records = vec![
        create(),
        vote(VOTER, [1; 16], OPTION_A, 1),
        vote(VOTER, [2; 16], OPTION_B, 2),
        vote(VOTER, [3; 16], OPTION_A, 2),
        vote(OUTSIDER, [9; 16], OPTION_B, 99),
        vote(VOTER, [3; 16], OPTION_A, 2),
    ];
    let expected = resolve_polls(GROUP, VOTER, &records);
    let mut reordered = records;
    reordered.reverse();
    let actual = resolve_polls(GROUP, VOTER, &reordered);
    assert_eq!(actual, expected);
    assert_eq!(expected.len(), 1);
    assert_eq!(expected[0].votes.len(), 1);
    assert_eq!(expected[0].votes[0].option_id, OPTION_A);
    assert_eq!(expected[0].votes[0].revision, 2);
    assert_eq!(expected[0].options[0].votes, 1);
    assert!(expected[0].options[0].selected_by_me);
    assert!(!expected[0].closed);
}

#[test]
fn smallest_valid_close_snapshot_freezes_the_final_tally() {
    let close_b = close(
        [4; 16],
        PollVoteInfo { voter: VOTER, event_id: [2; 16], option_id: OPTION_B, revision: 2 },
    );
    let close_a = close(
        [5; 16],
        PollVoteInfo { voter: VOTER, event_id: [3; 16], option_id: OPTION_A, revision: 3 },
    );
    let poll = only(
        AUTHOR,
        vec![close_a, vote(VOTER, [3; 16], OPTION_A, 3), create(), close_b],
    );
    assert!(poll.closed);
    assert_eq!(poll.close_event_id, Some([4; 16]));
    assert_eq!(poll.votes[0].option_id, OPTION_B);
    assert_eq!(poll.options[1].votes, 1);
    assert!(!poll.can_close);
}

#[test]
fn creation_time_electorate_is_stable_and_visible() {
    let poll = only(OUTSIDER, vec![create()]);
    assert_eq!(poll.generation, 9);
    assert_eq!(poll.eligible_voters, vec![AUTHOR, VOTER]);
    assert!(!poll.eligible);
    assert!(!poll.can_close);
}

#[test]
fn votes_for_unknown_answers_and_foreign_closings_do_not_count() {
    let mut foreign = close(
        [6; 16],
        PollVoteInfo { voter: VOTER, event_id: [2; 16], option_id: OPTION_B, revision: 2 },
    );
    foreign.sender = VOTER;
    let poll = only(
        AUTHOR,
        vec![create(), vote(VOTER, [1; 16], [0x7f; 16], 1), foreign],
    );
    assert!(poll.votes.is_empty());
    assert!(!poll.closed);
    assert!(poll.can_close);
    assert!(poll.eligible);
}

#[test]
fn polls_need_members_answers_and_support() {
    let members = vec![VOTER, AUTHOR];
    assert_eq!(
        group_create_poll(true, &members, &AUTHOR, 2, 10, true),
        Ok(vec![AUTHOR, VOTER])
    );
    assert_eq!(
        group_create_poll(false, &members, &AUTHOR, 2, 10, true),
        Err(NodeError::UnknownGroup)
    );
    assert_eq!(
        group_create_poll(true, &members, &OUTSIDER, 2, 10, true),
        Err(NodeError::InvalidPoll)
    );
    assert_eq!(
        group_create_poll(true, &members, &AUTHOR, 11, 10, true),
        Err(NodeError::InvalidPoll)
    );
    assert_eq!(
        group_create_poll(true, &members, &AUTHOR, 2, 10, false),
        Err(NodeError::PollUnsupported)
    );
}

#[test]
fn votes_are_numbered_and_limited() {
    let mut records = vec![create(), vote(VOTER, [1; 16], OPTION_A, 1)];
    let poll = Some(only(VOTER, records.clone()));
    let again = |poll: &Option<PollInfo>, records: &Vec<PollRecord>, me: &[u8; 32], option| {
        group_vote_poll(true, true, poll, records, me, &AUTHOR, &POLL_ID, option)
    };
    assert_eq!(again(&poll, &records, &VOTER, &OPTION_B), Ok(2));
    assert_eq!(again(&poll, &records, &OUTSIDER, &OPTION_B), Err(NodeError::InvalidPoll));
    assert_eq!(again(&poll, &records, &VOTER, &[0; 16]), Err(NodeError::InvalidPoll));
    assert_eq!(again(&None, &records, &VOTER, &OPTION_B), Err(NodeError::InvalidPoll));
    assert_eq!(
        group_vote_poll(false, true, &poll, &records, &VOTER, &AUTHOR, &POLL_ID, &OPTION_A),
        Err(NodeError::UnknownGroup)
    );
    assert_eq!(
        group_vote_poll(true, false, &poll, &records, &VOTER, &AUTHOR, &POLL_ID, &OPTION_A),
        Err(NodeError::PollUnsupported)
    );
    for n in 2..=64u8 {
        records.push(vote(VOTER, [n; 16], OPTION_A, n as u64));
    }
    let poll = Some(only(VOTER, records.clone()));
    assert_eq!(again(&poll, &records, &VOTER, &OPTION_B), Err(NodeError::PollVoteLimit));
}

#[test]
fn only_the_creator_closes_and_only_once() {
    let records = vec![create(), vote(VOTER, [1; 16], OPTION_A, 1)];
    let poll = Some(only(AUTHOR, records.clone()));
    let heads = group_close_poll(true, true, &AUTHOR, &AUTHOR, &poll).unwrap();
    assert_eq!(
        heads,
        vec![PollVoteInfo { voter: VOTER, event_id: [1; 16], option_id: OPTION_A, revision: 1 }]
    );
    assert_eq!(
        group_close_poll(true, true, &VOTER, &AUTHOR, &poll),
        Err(NodeError::NotPollCreator)
    );
    assert_eq!(
        group_close_poll(false, true, &AUTHOR, &AUTHOR, &poll),
        Err(NodeError::UnknownGroup)
    );
    assert_eq!(
        group_close_poll(true, false, &AUTHOR, &AUTHOR, &poll),
        Err(NodeError::PollUnsupported)
    );
    let mut closed = records;
    closed.push(close([8; 16], heads[0]));
    let poll = Some(only(AUTHOR, closed.clone()));
    assert_eq!(
        group_close_poll(true, true, &AUTHOR, &AUTHOR, &poll),
        Err(NodeError::PollClosed)
    );
    assert_eq!(
        group_vote_poll(true, true, &poll, &closed, &VOTER, &AUTHOR, &POLL_ID, &OPTION_B),
        Err(NodeError::PollClosed)
    );
}

#[test]
fn minted_identities_avoid_those_taken() {
    assert_eq!(mint_unique_id(&vec![[1; 16], [2; 16]], &vec![[1; 16]]), Ok([2; 16]));
    assert_eq!(
        mint_unique_id(&vec![[1; 16], [1; 16]], &vec![[1; 16]]),
        Err(NodeError::InvalidPoll)
    );
}
