//! Group polls, worked out from the group's messages: who may vote, which vote of each
//! counts, and when a poll is closed.

use vstd::prelude::*;

use crate::bytes::{bytes_before, id_precedes, same, ContentId, Id};
use crate::endpoints::{ascending, insert_id};
use crate::error::{NodeError, Result};

verus! {

/// Most votes of one account in one poll.
pub const MAX_POLL_VOTE_REVISIONS: usize = 64;

/// How often a new identity is drawn before giving up.
pub const ID_RETRY_LIMIT: usize = 16;

/// An answer of a poll.
#[derive(Clone, Debug, PartialEq, Eq)]
pub struct PollOption {
    /// Its identity.
    pub id: ContentId,
    /// What it says.
    pub text: String,
}

/// A vote that counts.
#[derive(Clone, Copy, Debug, PartialEq, Eq)]
pub struct PollVoteInfo {
    /// Who voted.
    pub voter: Id,
    /// Identity of the message with the vote.
    pub event_id: ContentId,
    /// The answer.
    pub option_id: ContentId,
    /// Number of the vote.
    pub revision: u64,
}

/// What a message says about polls.
#[derive(Clone, Debug, PartialEq, Eq)]
pub enum PollEvent {
    /// It creates one.
    Create {
        /// Generation of the group.
        generation: u64,
        /// The question.
        question: String,
        /// The answers.
        options: Vec<PollOption>,
        /// Who may vote.
        voters: Vec<Id>,
    },
    /// It votes.
    Vote {
        /// Who created the poll.
        poll_author: Id,
        /// The poll.
        poll_id: ContentId,
        /// The answer.
        option_id: ContentId,
        /// Number of the vote.
        revision: u64,
    },
    /// It closes a poll with the votes that count.
    Close {
        /// Who created the poll.
        poll_author: Id,
        /// The poll.
        poll_id: ContentId,
        /// The votes.
        heads: Vec<PollVoteInfo>,
    },
}

/// A message of a group that is about polls.
#[derive(Clone, Debug, PartialEq, Eq)]
pub struct PollRecord {
    /// Who sent it.
    pub sender: Id,
    /// Its identity.
    pub id: ContentId,
    /// What it says.
    pub event: PollEvent,
}

/// The contents of a `PollEvent`.
#[verifier::ext_equal]
pub enum PollEventView {
    /// It creates a poll.
    Create {
        /// Generation of the group.
        generation: u64,
        /// The question.
        question: Seq<char>,
        /// Identities of the answers.
        options: Seq<ContentId>,
        /// What the answers say.
        texts: Seq<Seq<char>>,
        /// Who may vote.
        voters: Seq<Id>,
    },
    /// It votes.
    Vote {
        /// Who created the poll.
        poll_author: Id,
        /// The poll.
        poll_id: ContentId,
        /// The answer.
        option_id: ContentId,
        /// Number of the vote.
        revision: u64,
    },
    /// It closes a poll.
    Close {
        /// Who created the poll.
        poll_author: Id,
        /// The poll.
        poll_id: ContentId,
        /// The votes.
        heads: Seq<PollVoteInfo>,
    },
}

/// The contents of a `PollRecord`.
#[verifier::ext_equal]
pub struct PollRecordView {
    /// Who sent it.
    pub sender: Id,
    /// Its identity.
    pub id: ContentId,
    /// What it says.
    pub event: PollEventView,
}

impl View for PollEvent {
    type V = PollEventView;

    open spec fn view(&self) -> PollEventView {
        match *self {
            PollEvent::Create { generation, question, options, voters } => PollEventView::Create {
                generation,
                question: question@,
                options: Seq::new(options@.len(), |i: int| options@[i].id),
                texts: Seq::new(options@.len(), |i: int| options@[i].text@),
                voters: voters@,
            },
            PollEvent::Vote { poll_author, poll_id, option_id, revision } => PollEventView::Vote {
                poll_author,
                poll_id,
                option_id,
                revision,
            },
            PollEvent::Close { poll_author, poll_id, heads } => PollEventView::Close {
                poll_author,
                poll_id,
                heads: heads@,
            },
        }
    }
}

impl View for PollRecord {
    type V = PollRecordView;

    open spec fn view(&self) -> PollRecordView {
        PollRecordView { sender: self.sender, id: self.id, event: self.event@ }
    }
}

/// Records as their contents.
pub open spec fn records_of(records: Seq<PollRecord>) -> Seq<PollRecordView> {
    Seq::new(records.len(), |i: int| records[i]@)
}

// ---- Which polls there are ----

/// The message creates a poll: its author is one of those who may vote.
pub open spec fn is_creation(r: PollRecordView) -> bool {
    r.event matches PollEventView::Create { voters, .. } && voters.contains(r.sender)
}

/// The message at `i` creates a poll, and no earlier one creates the same.
pub open spec fn is_poll(records: Seq<PollRecordView>, i: int) -> bool {
    &&& is_creation(records[i])
    &&& forall|k: int|
        0 <= k < i && #[trigger] is_creation(records[k]) ==> !(records[k].sender
            == records[i].sender && records[k].id == records[i].id)
}

/// The positions of the messages among the first `n` that create polls.
pub open spec fn poll_positions(records: Seq<PollRecordView>, n: int) -> Seq<int>
    decreases n,
{
    if n <= 0 {
        Seq::empty()
    } else if is_poll(records, n - 1) {
        poll_positions(records, n - 1).push(n - 1)
    } else {
        poll_positions(records, n - 1)
    }
}

/// Who may vote in the poll that a message creates.
pub open spec fn voters_of(create: PollRecordView) -> Seq<Id> {
    match create.event {
        PollEventView::Create { voters, .. } => voters,
        _ => Seq::empty(),
    }
}

/// The answers of the poll that a message creates.
pub open spec fn options_of(create: PollRecordView) -> Seq<ContentId> {
    match create.event {
        PollEventView::Create { options, .. } => options,
        _ => Seq::empty(),
    }
}

// ---- Which votes count ----

/// The vote that a message casts in a poll, where it counts: its sender may vote, and the
/// answer is one of the poll.
pub open spec fn vote_in(create: PollRecordView, r: PollRecordView) -> Option<PollVoteInfo> {
    match r.event {
        PollEventView::Vote { poll_author, poll_id, option_id, revision } => if poll_author
            == create.sender && poll_id == create.id && voters_of(create).contains(r.sender)
            && options_of(create).contains(option_id) {
            Some(PollVoteInfo { voter: r.sender, event_id: r.id, option_id, revision })
        } else {
            None
        },
        _ => None,
    }
}

/// One vote is later than another: by number, then by identity.
pub open spec fn is_later(a: PollVoteInfo, b: PollVoteInfo) -> bool {
    a.revision > b.revision || (a.revision == b.revision && bytes_before(b.event_id@, a.event_id@))
}

/// The vote of an account that counts, among the first `n` messages: its latest.
pub open spec fn head_vote(
    records: Seq<PollRecordView>,
    create: PollRecordView,
    voter: Id,
    n: int,
) -> Option<PollVoteInfo>
    decreases n,
{
    if n <= 0 {
        None
    } else {
        let prior = head_vote(records, create, voter, n - 1);
        match vote_in(create, records[n - 1]) {
            Some(vote) => if vote.voter == voter && (prior is None || is_later(vote, prior->0)) {
                Some(vote)
            } else {
                prior
            },
            None => prior,
        }
    }
}

/// The votes that count while a poll is open: the latest of each voter, by ascending voter.
pub open spec fn open_votes(
    votes: Seq<PollVoteInfo>,
    records: Seq<PollRecordView>,
    create: PollRecordView,
) -> bool {
    &&& ascending(votes.map_values(|v: PollVoteInfo| v.voter))
    &&& forall|vote: PollVoteInfo| #[trigger]
        votes.contains(vote) <==> head_vote(
            records,
            create,
            vote.voter,
            records.len() as int,
        ) == Some(vote)
}

// ---- When a poll is closed ----

/// The votes could count: their voters may vote, and the answers are those of the poll.
pub open spec fn could_all_count(create: PollRecordView, heads: Seq<PollVoteInfo>) -> bool {
    forall|k: int|
        0 <= k < heads.len() ==> voters_of(create).contains((#[trigger] heads[k]).voter)
            && options_of(create).contains(heads[k].option_id)
}

/// The message closes a poll: it is its creator's, and holds only votes that could count.
pub open spec fn closes(create: PollRecordView, r: PollRecordView) -> bool {
    match r.event {
        PollEventView::Close { poll_author, poll_id, heads } => r.sender == poll_author
            && poll_author == create.sender && poll_id == create.id && could_all_count(
            create,
            heads,
        ),
        _ => false,
    }
}

/// The message among the first `n` that closes a poll: the one with the smallest identity
/// (of equals, the first).
pub open spec fn closing(records: Seq<PollRecordView>, create: PollRecordView, n: int) -> Option<int>
    decreases n,
{
    if n <= 0 {
        None
    } else {
        let prior = closing(records, create, n - 1);
        if closes(create, records[n - 1]) && (prior is None || bytes_before(
            records[n - 1].id@,
            records[prior->0].id@,
        )) {
            Some(n - 1)
        } else {
            prior
        }
    }
}

/// The votes that a closing message holds.
pub open spec fn heads_of(r: PollRecordView) -> Seq<PollVoteInfo> {
    match r.event {
        PollEventView::Close { heads, .. } => heads,
        _ => Seq::empty(),
    }
}

/// Votes by ascending voter, those of one voter in any order.
pub open spec fn by_voter(votes: Seq<PollVoteInfo>) -> bool {
    forall|i: int, j: int|
        0 <= i < j < votes.len() ==> !bytes_before(
            (#[trigger] votes[j]).voter@,
            (#[trigger] votes[i]).voter@,
        )
}

/// The first position from `from` on whose voter comes after that of a vote, or the end.
pub open spec fn place_of(votes: Seq<PollVoteInfo>, vote: PollVoteInfo, from: int) -> int
    decreases votes.len() - from,
{
    if from >= votes.len() || bytes_before(vote.voter@, votes[from].voter@) {
        from
    } else {
        place_of(votes, vote, from + 1)
    }
}

/// The first `n` votes by ascending voter, those of one voter in the order given.
pub open spec fn voter_ordered(heads: Seq<PollVoteInfo>, n: int) -> Seq<PollVoteInfo>
    decreases n,
{
    if n <= 0 {
        Seq::empty()
    } else {
        let prior = voter_ordered(heads, n - 1);
        prior.insert(place_of(prior, heads[n - 1], 0), heads[n - 1])
    }
}

// ---- What is shown ----

/// How many votes among the first `n` are for an answer.
pub open spec fn tally(votes: Seq<PollVoteInfo>, option_id: ContentId, n: int) -> int
    decreases n,
{
    if n <= 0 {
        0
    } else {
        tally(votes, option_id, n - 1) + if votes[n - 1].option_id == option_id {
            1int
        } else {
            0
        }
    }
}

/// An answer with its votes.
#[derive(Clone, Debug, PartialEq, Eq)]
pub struct PollOptionInfo {
    /// Its identity.
    pub id: ContentId,
    /// What it says.
    pub text: String,
    /// How many voted for it.
    pub votes: u32,
    /// This account voted for it.
    pub selected_by_me: bool,
}

/// A poll as it is shown.
#[derive(Clone, Debug, PartialEq, Eq)]
pub struct PollInfo {
    /// Its group.
    pub group: Id,
    /// Who created it.
    pub author: Id,
    /// Its identity.
    pub id: ContentId,
    /// Generation of the group when it was created.
    pub generation: u64,
    /// The question.
    pub question: String,
    /// Who may vote.
    pub eligible_voters: Vec<Id>,
    /// The answers.
    pub options: Vec<PollOptionInfo>,
    /// The votes that count.
    pub votes: Vec<PollVoteInfo>,
    /// This account may vote.
    pub eligible: bool,
    /// This account can close it.
    pub can_close: bool,
    /// It is closed.
    pub closed: bool,
    /// The message that closed it.
    pub close_event_id: Option<ContentId>,
}

/// An answer is shown right.
pub open spec fn option_right(
    option: PollOptionInfo,
    votes: Seq<PollVoteInfo>,
    local: Id,
    id: ContentId,
    text: Seq<char>,
) -> bool {
    &&& option.id == id
    &&& option.text@ == text
    &&& option.votes == tally(votes, id, votes.len() as int) as u32
    &&& option.selected_by_me == exists|k: int|
        0 <= k < votes.len() && (#[trigger] votes[k]).voter == local && votes[k].option_id == id
}

/// The votes of a poll are shown right: those that its closing message holds, by ascending
/// voter, or, while it is open, the latest of each voter.
pub open spec fn votes_right(
    votes: Seq<PollVoteInfo>,
    records: Seq<PollRecordView>,
    create: PollRecordView,
) -> bool {
    match closing(records, create, records.len() as int) {
        Some(at) => votes == voter_ordered(
            heads_of(records[at]),
            heads_of(records[at]).len() as int,
        ),
        None => open_votes(votes, records, create),
    }
}

/// The poll that the message at `c` creates is shown right.
pub open spec fn info_right(
    info: PollInfo,
    records: Seq<PollRecordView>,
    c: int,
    group: Id,
    local: Id,
) -> bool {
    let create = records[c];
    let close = closing(records, create, records.len() as int);
    &&& info.group == group
    &&& info.author == create.sender
    &&& info.id == create.id
    &&& create.event matches PollEventView::Create { generation, question, options, texts, voters }
    &&& info.generation == generation
    &&& info.question@ == question
    &&& info.eligible_voters@ == voters
    &&& info.options@.len() == options.len()
    &&& forall|j: int|
        0 <= j < options.len() ==> option_right(
            #[trigger] info.options@[j],
            info.votes@,
            local,
            options[j],
            texts[j],
        )
    &&& votes_right(info.votes@, records, create)
    &&& info.closed == (close is Some)
    &&& info.close_event_id == match close {
        Some(at) => Some(records[at].id),
        None => None,
    }
    &&& info.eligible == voters.contains(local)
    &&& info.can_close == (create.sender == local && close is None)
}

// ---- Working it out ----

fn lists_id(ids: &Vec<Id>, id: &Id) -> (res: bool)
    ensures
        res == ids@.contains(*id),
{
    let mut i: usize = 0;
    while i < ids.len()
        invariant
            i <= ids@.len(),
            forall|k: int| 0 <= k < i ==> #[trigger] ids@[k] != *id,
        decreases ids@.len() - i,
    {
        if same(&ids[i], id) {
            assert(ids@[i as int] == *id);
            return true;
        }
        i = i + 1;
    }
    false
}

fn may_vote(create: &PollRecord, voter: &Id) -> (res: bool)
    ensures
        res == voters_of(create@).contains(*voter),
{
    match &create.event {
        PollEvent::Create { voters, .. } => lists_id(voters, voter),
        _ => false,
    }
}

fn has_option(create: &PollRecord, option_id: &ContentId) -> (res: bool)
    ensures
        res == options_of(create@).contains(*option_id),
{
    match &create.event {
        PollEvent::Create { options, .. } => {
            let ghost ids = options_of(create@);
            let mut i: usize = 0;
            while i < options.len()
                invariant
                    i <= options@.len(),
                    ids.len() == options@.len(),
                    forall|k: int| 0 <= k < ids.len() ==> #[trigger] ids[k] == options@[k].id,
                    forall|k: int| 0 <= k < i ==> #[trigger] ids[k] != *option_id,
                    ids == options_of(create@),
                decreases options@.len() - i,
            {
                if same(&options[i].id, option_id) {
                    assert(ids[i as int] == *option_id);
                    return true;
                }
                i = i + 1;
            }
            false
        },
        _ => false,
    }
}

fn vote_of(create: &PollRecord, r: &PollRecord) -> (res: Option<PollVoteInfo>)
    ensures
        res == vote_in(create@, r@),
{
    match &r.event {
        PollEvent::Vote { poll_author, poll_id, option_id, revision } => {
            if same(poll_author, &create.sender) && same(poll_id, &create.id) && may_vote(
                create,
                &r.sender,
            ) && has_option(create, option_id) {
                Some(
                    PollVoteInfo {
                        voter: r.sender,
                        event_id: r.id,
                        option_id: *option_id,
                        revision: *revision,
                    },
                )
            } else {
                None
            }
        },
        _ => None,
    }
}

fn later_vote(a: &PollVoteInfo, b: &PollVoteInfo) -> (res: bool)
    ensures
        res == is_later(*a, *b),
{
    a.revision > b.revision || (a.revision == b.revision && id_precedes(&b.event_id, &a.event_id))
}

fn head_of(records: &Vec<PollRecord>, create: &PollRecord, voter: &Id) -> (res: Option<
    PollVoteInfo,
>)
    ensures
        res == head_vote(records_of(records@), create@, *voter, records@.len() as int),
{
    let ghost views = records_of(records@);
    let mut head: Option<PollVoteInfo> = None;
    let mut i: usize = 0;
    while i < records.len()
        invariant
            i <= records@.len(),
            views == records_of(records@),
            head == head_vote(views, create@, *voter, i as int),
        decreases records@.len() - i,
    {
        assert(views[i as int] == records@[i as int]@);
        if let Some(vote) = vote_of(create, &records[i]) {
            let replaces = match &head {
                Some(current) => later_vote(&vote, current),
                None => true,
            };
            if same(&vote.voter, voter) && replaces {
                head = Some(vote);
            }
        }
        i = i + 1;
    }
    head
}

fn could_count(create: &PollRecord, heads: &Vec<PollVoteInfo>) -> (res: bool)
    ensures
        res == could_all_count(create@, heads@),
{
    let mut k: usize = 0;
    while k < heads.len()
        invariant
            k <= heads@.len(),
            forall|m: int|
                0 <= m < k ==> voters_of(create@).contains((#[trigger] heads@[m]).voter)
                    && options_of(create@).contains(heads@[m].option_id),
        decreases heads@.len() - k,
    {
        if !may_vote(create, &heads[k].voter) || !has_option(create, &heads[k].option_id) {
            assert(!(voters_of(create@).contains(heads@[k as int].voter) && options_of(
                create@,
            ).contains(heads@[k as int].option_id)));
            return false;
        }
        k = k + 1;
    }
    true
}

fn closes_poll(create: &PollRecord, r: &PollRecord) -> (res: bool)
    ensures
        res == closes(create@, r@),
{
    match &r.event {
        PollEvent::Close { poll_author, poll_id, heads } => same(&r.sender, poll_author) && same(
            poll_author,
            &create.sender,
        ) && same(poll_id, &create.id) && could_count(create, heads),
        _ => false,
    }
}

fn closing_at(records: &Vec<PollRecord>, create: &PollRecord) -> (res: Option<usize>)
    ensures
        match (res, closing(records_of(records@), create@, records@.len() as int)) {
            (Some(at), Some(want)) => at == want && at < records@.len() && closes(
                create@,
                records@[at as int]@,
            ),
            (None, None) => true,
            _ => false,
        },
{
    let ghost views = records_of(records@);
    let mut at: Option<usize> = None;
    let mut i: usize = 0;
    while i < records.len()
        invariant
            i <= records@.len(),
            views == records_of(records@),
            match (at, closing(views, create@, i as int)) {
                (Some(a), Some(want)) => a == want && a < i && closes(
                    create@,
                    records@[a as int]@,
                ),
                (None, None) => true,
                _ => false,
            },
        decreases records@.len() - i,
    {
        assert(views[i as int] == records@[i as int]@);
        let first = match at {
            Some(a) => {
                assert(views[a as int] == records@[a as int]@);
                id_precedes(&records[i].id, &records[a].id)
            },
            None => true,
        };
        if closes_poll(create, &records[i]) && first {
            at = Some(i);
        }
        i = i + 1;
    }
    at
}

fn sort_by_voter(heads: &Vec<PollVoteInfo>) -> (res: Vec<PollVoteInfo>)
    ensures
        res@ == voter_ordered(heads@, heads@.len() as int),
{
    let mut out: Vec<PollVoteInfo> = Vec::new();
    let mut i: usize = 0;
    while i < heads.len()
        invariant
            i <= heads@.len(),
            out@.len() == i,
            out@ == voter_ordered(heads@, i as int),
        decreases heads@.len() - i,
    {
        let vote = heads[i];
        let mut at: usize = 0;
        while at < out.len() && !id_precedes(&vote.voter, &out[at].voter)
            invariant
                at <= out@.len(),
                place_of(out@, vote, 0) == place_of(out@, vote, at as int),
            decreases out@.len() - at,
        {
            at = at + 1;
        }
        out.insert(at, vote);
        i = i + 1;
    }
    out
}

proof fn lemma_place_of(votes: Seq<PollVoteInfo>, vote: PollVoteInfo, from: int)
    requires
        0 <= from <= votes.len(),
    ensures
        ({
            let at = place_of(votes, vote, from);
            &&& from <= at <= votes.len()
            &&& forall|k: int|
                from <= k < at ==> !bytes_before(vote.voter@, (#[trigger] votes[k]).voter@)
            &&& at < votes.len() ==> bytes_before(vote.voter@, votes[at].voter@)
        }),
    decreases votes.len() - from,
{
    if from < votes.len() && !bytes_before(vote.voter@, votes[from].voter@) {
        lemma_place_of(votes, vote, from + 1);
    }
}

/// A closed poll shows exactly the votes that its closing message holds, by ascending voter.
pub proof fn law_closed_polls_show_their_heads(heads: Seq<PollVoteInfo>, n: int)
    requires
        0 <= n <= heads.len(),
    ensures
        by_voter(voter_ordered(heads, n)),
        voter_ordered(heads, n).to_multiset() == heads.take(n).to_multiset(),
    decreases n,
{
    broadcast use vstd::seq_lib::group_to_multiset_ensures;

    if n > 0 {
        law_closed_polls_show_their_heads(heads, n - 1);
        let prior = voter_ordered(heads, n - 1);
        let vote = heads[n - 1];
        let at = place_of(prior, vote, 0);
        lemma_place_of(prior, vote, 0);
        lemma_insert_by_voter(prior, vote, at);
        assert(heads.take(n) =~= heads.take(n - 1).push(vote));
        vstd::seq_lib::to_multiset_insert(prior, at, vote);
        assert(prior.insert(at, vote).to_multiset() =~= prior.to_multiset().insert(vote));
        vstd::seq_lib::to_multiset_build(heads.take(n - 1), vote);
    } else {
        assert(heads.take(0) =~= Seq::<PollVoteInfo>::empty());
    }
}

proof fn lemma_insert_by_voter(prior: Seq<PollVoteInfo>, vote: PollVoteInfo, at: int)
    requires
        by_voter(prior),
        0 <= at <= prior.len(),
        forall|k: int| 0 <= k < at ==> !bytes_before(vote.voter@, (#[trigger] prior[k]).voter@),
        at < prior.len() ==> bytes_before(vote.voter@, prior[at].voter@),
    ensures
        by_voter(prior.insert(at, vote)),
{
    let after = prior.insert(at, vote);
    assert forall|i: int, j: int| 0 <= i < j < after.len() implies !bytes_before(
        (#[trigger] after[j]).voter@,
        (#[trigger] after[i]).voter@,
    ) by {
        if j < at {
            assert(after[i] == prior[i] && after[j] == prior[j]);
        } else if j == at {
            assert(after[i] == prior[i]);
        } else if i < at {
            assert(after[i] == prior[i] && after[j] == prior[j - 1]);
        } else if i == at {
            let next = prior[j - 1];
            if bytes_before(next.voter@, vote.voter@) {
                crate::bytes::lemma_before_transitive(
                    next.voter@,
                    vote.voter@,
                    prior[at].voter@,
                    0,
                );
                if j - 1 > at {
                    assert(!bytes_before(prior[j - 1].voter@, prior[at].voter@));
                } else {
                    crate::bytes::lemma_before_irreflexive(next.voter@, 0);
                }
            }
        } else {
            assert(after[i] == prior[i - 1] && after[j] == prior[j - 1]);
        }
    }
}

/// An account that may not vote has no vote that counts.
proof fn lemma_head_vote(
    records: Seq<PollRecordView>,
    create: PollRecordView,
    voter: Id,
    n: int,
)
    requires
        0 <= n <= records.len(),
    ensures
        head_vote(records, create, voter, n) matches Some(vote) ==> {
            &&& vote.voter == voter
            &&& voters_of(create).contains(voter)
            &&& options_of(create).contains(vote.option_id)
            &&& exists|i: int| 0 <= i < n && #[trigger] vote_in(create, records[i]) == Some(vote)
        },
    decreases n,
{
    if n > 0 {
        lemma_head_vote(records, create, voter, n - 1);
        if let Some(vote) = vote_in(create, records[n - 1]) {
            assert(vote_in(create, records[n - 1]) == Some(vote));
        }
        if let Some(vote) = head_vote(records, create, voter, n - 1) {
            let i = choose|i: int|
                0 <= i < n - 1 && #[trigger] vote_in(create, records[i]) == Some(vote);
            assert(vote_in(create, records[i]) == Some(vote));
        }
    }
}

fn current_votes(records: &Vec<PollRecord>, create: &PollRecord) -> (res: Vec<PollVoteInfo>)
    ensures
        open_votes(res@, records_of(records@), create@),
{
    let ghost views = records_of(records@);
    let mut ids: Vec<Id> = Vec::new();
    if let PollEvent::Create { voters, .. } = &create.event {
        let mut i: usize = 0;
        assert(ids@.to_set() =~= voters@.take(0).to_set());
        while i < voters.len()
            invariant
                i <= voters@.len(),
                ascending(ids@),
                voters@ == voters_of(create@),
                ids@.to_set() == voters@.take(i as int).to_set(),
            decreases voters@.len() - i,
        {
            insert_id(&mut ids, voters[i]);
            proof {
                let front = voters@.take(i as int);
                let more = voters@.take(i + 1);
                assert(more =~= front.push(voters@[i as int]));
                assert forall|id: Id| more.to_set().contains(id) == front.to_set().insert(
                    voters@[i as int],
                ).contains(id) by {
                    if front.contains(id) {
                        let k = choose|k: int| 0 <= k < front.len() && front[k] == id;
                        assert(more[k] == id);
                    }
                    if id == voters@[i as int] {
                        assert(more[i as int] == id);
                    }
                    if more.contains(id) {
                        let k = choose|k: int| 0 <= k < more.len() && more[k] == id;
                        if k < i {
                            assert(front[k] == id);
                        }
                    }
                }
                assert(more.to_set() =~= front.to_set().insert(voters@[i as int]));
            }
            i = i + 1;
        }
        assert(voters@.take(i as int) =~= voters@);
        assert(ids@.to_set() == voters_of(create@).to_set());
    } else {
        assert(ids@.to_set() =~= voters_of(create@).to_set());
    }
    assert(ids@.to_set() == voters_of(create@).to_set());
    assert(ascending(ids@));
    let mut votes: Vec<PollVoteInfo> = Vec::new();
    let mut k: usize = 0;
    while k < ids.len()
        invariant
            k <= ids@.len(),
            views == records_of(records@),
            ascending(ids@),
            forall|m: int|
                0 <= m < votes@.len() ==> is_head(
                    views,
                    create@,
                    ids@,
                    k as int,
                    #[trigger] votes@[m],
                ),
            forall|vote: PollVoteInfo| #[trigger]
                is_head(views, create@, ids@, k as int, vote) ==> votes@.contains(vote),
            forall|a: int, b: int|
                0 <= a < b < votes@.len() ==> bytes_before(
                    (#[trigger] votes@[a]).voter@,
                    (#[trigger] votes@[b]).voter@,
                ),
        decreases ids@.len() - k,
    {
        let ghost before = votes@;
        let voter = ids[k];
        let head = head_of(records, create, &voter);
        proof {
            lemma_head_vote(views, create@, voter, views.len() as int);
        }
        if let Some(vote) = head {
            votes.push(vote);
        }
        proof {
            assert forall|vote: PollVoteInfo| #[trigger]
                is_head(views, create@, ids@, k + 1, vote) == (is_head(
                    views,
                    create@,
                    ids@,
                    k as int,
                    vote,
                ) || head == Some(vote)) by {
                if is_head(views, create@, ids@, k as int, vote) {
                    let m = choose|m: int| 0 <= m < k && #[trigger] ids@[m] == vote.voter;
                    assert(ids@[m] == vote.voter);
                }
                if head == Some(vote) {
                    assert(ids@[k as int] == vote.voter);
                }
                if is_head(views, create@, ids@, k + 1, vote) {
                    let m = choose|m: int| 0 <= m < k + 1 && #[trigger] ids@[m] == vote.voter;
                    if m < k {
                        assert(ids@[m] == vote.voter);
                    }
                }
            }
            assert forall|m: int| 0 <= m < before.len() implies bytes_before(
                (#[trigger] before[m]).voter@,
                voter@,
            ) by {
                assert(is_head(views, create@, ids@, k as int, before[m]));
                let j = choose|j: int| 0 <= j < k && #[trigger] ids@[j] == before[m].voter;
                assert(bytes_before(ids@[j]@, ids@[k as int]@));
            }
            assert forall|vote: PollVoteInfo| #[trigger] is_head(
                views,
                create@,
                ids@,
                k + 1,
                vote,
            ) implies votes@.contains(vote) by {
                if head == Some(vote) {
                    assert(votes@[before.len() as int] == vote);
                } else {
                    assert(is_head(views, create@, ids@, k as int, vote));
                    let m = choose|m: int| 0 <= m < before.len() && before[m] == vote;
                    assert(votes@[m] == vote);
                }
            }
            assert forall|m: int| 0 <= m < votes@.len() implies is_head(
                views,
                create@,
                ids@,
                k + 1,
                #[trigger] votes@[m],
            ) by {
                if m < before.len() {
                    assert(votes@[m] == before[m]);
                    assert(is_head(views, create@, ids@, k as int, before[m]));
                }
            }
            assert forall|a: int, b: int| 0 <= a < b < votes@.len() implies bytes_before(
                (#[trigger] votes@[a]).voter@,
                (#[trigger] votes@[b]).voter@,
            ) by {
                assert(votes@[a] == before[a]);
                if b < before.len() {
                    assert(votes@[b] == before[b]);
                }
            }
        }
        k = k + 1;
    }
    proof {
        let voters = votes@.map_values(|v: PollVoteInfo| v.voter);
        assert forall|a: int, b: int| 0 <= a < b < voters.len() implies bytes_before(
            (#[trigger] voters[a])@,
            (#[trigger] voters[b])@,
        ) by {
            assert(voters[a] == votes@[a].voter && voters[b] == votes@[b].voter);
        }
        assert forall|vote: PollVoteInfo| #[trigger] votes@.contains(vote) <==> head_vote(
            views,
            create@,
            vote.voter,
            views.len() as int,
        ) == Some(vote) by {
            if votes@.contains(vote) {
                let m = choose|m: int| 0 <= m < votes@.len() && votes@[m] == vote;
                assert(is_head(views, create@, ids@, k as int, votes@[m]));
            }
            if head_vote(views, create@, vote.voter, views.len() as int) == Some(vote) {
                lemma_head_vote(views, create@, vote.voter, views.len() as int);
                assert(voters_of(create@).to_set().contains(vote.voter));
                assert(ids@.to_set().contains(vote.voter));
                let m = choose|m: int| 0 <= m < ids@.len() && ids@[m] == vote.voter;
                assert(ids@[m] == vote.voter);
                assert(is_head(views, create@, ids@, k as int, vote));
            }
        }
    }
    votes
}

/// The vote counts, and its voter is one of the first `n`.
spec fn is_head(
    records: Seq<PollRecordView>,
    create: PollRecordView,
    ids: Seq<Id>,
    n: int,
    vote: PollVoteInfo,
) -> bool {
    &&& head_vote(records, create, vote.voter, records.len() as int) == Some(vote)
    &&& exists|m: int| 0 <= m < n && #[trigger] ids[m] == vote.voter
}

fn creates_poll(r: &PollRecord) -> (res: bool)
    ensures
        res == is_creation(r@),
{
    match &r.event {
        PollEvent::Create { voters, .. } => lists_id(voters, &r.sender),
        _ => false,
    }
}

fn first_creation(records: &Vec<PollRecord>, at: usize) -> (res: bool)
    requires
        at < records@.len(),
    ensures
        res == is_poll(records_of(records@), at as int),
{
    let ghost views = records_of(records@);
    assert(views[at as int] == records@[at as int]@);
    if !creates_poll(&records[at]) {
        return false;
    }
    let mut k: usize = 0;
    while k < at
        invariant
            k <= at < records@.len(),
            views == records_of(records@),
            forall|m: int|
                0 <= m < k && #[trigger] is_creation(views[m]) ==> !(views[m].sender
                    == views[at as int].sender && views[m].id == views[at as int].id),
        decreases at - k,
    {
        assert(views[k as int] == records@[k as int]@);
        assert(views[at as int] == records@[at as int]@);
        if creates_poll(&records[k]) && same(&records[k].sender, &records[at].sender) && same(
            &records[k].id,
            &records[at].id,
        ) {
            assert(is_creation(views[k as int]));
            return false;
        }
        k = k + 1;
    }
    true
}

fn count_votes(votes: &Vec<PollVoteInfo>, option_id: &ContentId) -> (res: u32)
    ensures
        res == tally(votes@, *option_id, votes@.len() as int) as u32,
{
    let mut count: usize = 0;
    let mut i: usize = 0;
    while i < votes.len()
        invariant
            i <= votes@.len(),
            count <= i,
            count == tally(votes@, *option_id, i as int),
        decreases votes@.len() - i,
    {
        if same(&votes[i].option_id, option_id) {
            count = count + 1;
        }
        i = i + 1;
    }
    #[verifier::truncate]
    let res: u32 = count as u32;
    res
}

fn chose(votes: &Vec<PollVoteInfo>, local: &Id, option_id: &ContentId) -> (res: bool)
    ensures
        res == exists|k: int|
            0 <= k < votes@.len() && (#[trigger] votes@[k]).voter == *local && votes@[k].option_id
                == *option_id,
{
    let mut k: usize = 0;
    while k < votes.len()
        invariant
            k <= votes@.len(),
            forall|m: int|
                0 <= m < k ==> !((#[trigger] votes@[m]).voter == *local && votes@[m].option_id
                    == *option_id),
        decreases votes@.len() - k,
    {
        if same(&votes[k].voter, local) && same(&votes[k].option_id, option_id) {
            assert(votes@[k as int].voter == *local);
            return true;
        }
        k = k + 1;
    }
    false
}

fn copy_ids(ids: &Vec<Id>) -> (res: Vec<Id>)
    ensures
        res@ == ids@,
{
    let mut out: Vec<Id> = Vec::new();
    let mut i: usize = 0;
    while i < ids.len()
        invariant
            i <= ids@.len(),
            out@ == ids@.take(i as int),
        decreases ids@.len() - i,
    {
        out.push(ids[i]);
        assert(out@ =~= ids@.take(i + 1));
        i = i + 1;
    }
    assert(out@ =~= ids@);
    out
}

fn show_options(options: &Vec<PollOption>, votes: &Vec<PollVoteInfo>, local: &Id) -> (res: Vec<
    PollOptionInfo,
>)
    ensures
        res@.len() == options@.len(),
        forall|j: int|
            0 <= j < options@.len() ==> option_right(
                #[trigger] res@[j],
                votes@,
                *local,
                options@[j].id,
                options@[j].text@,
            ),
{
    let mut out: Vec<PollOptionInfo> = Vec::new();
    let mut j: usize = 0;
    while j < options.len()
        invariant
            j <= options@.len(),
            out@.len() == j,
            forall|m: int|
                0 <= m < j ==> option_right(
                    #[trigger] out@[m],
                    votes@,
                    *local,
                    options@[m].id,
                    options@[m].text@,
                ),
        decreases options@.len() - j,
    {
        let option = PollOptionInfo {
            id: options[j].id,
            text: options[j].text.clone(),
            votes: count_votes(votes, &options[j].id),
            selected_by_me: chose(votes, local, &options[j].id),
        };
        out.push(option);
        j = j + 1;
    }
    out
}

fn show_poll(records: &Vec<PollRecord>, at: usize, group: Id, local: Id) -> (res: PollInfo)
    requires
        at < records@.len(),
        is_poll(records_of(records@), at as int),
    ensures
        info_right(res, records_of(records@), at as int, group, local),
{
    let ghost views = records_of(records@);
    let create = &records[at];
    assert(views[at as int] == create@);
    let close = closing_at(records, create);
    let votes = match close {
        Some(c) => {
            assert(views[c as int] == records@[c as int]@);
            match &records[c].event {
                PollEvent::Close { heads, .. } => sort_by_voter(heads),
                _ => Vec::new(),
            }
        },
        None => current_votes(records, create),
    };
    let close_event_id = match close {
        Some(c) => Some(records[c].id),
        None => None,
    };
    match &create.event {
        PollEvent::Create { generation, question, options, voters } => {
            let shown = show_options(options, &votes, &local);
            let closed = close.is_some();
            PollInfo {
                group,
                author: create.sender,
                id: create.id,
                generation: *generation,
                question: question.clone(),
                eligible_voters: copy_ids(voters),
                options: shown,
                votes,
                eligible: lists_id(voters, &local),
                can_close: same(&create.sender, &local) && !closed,
                closed,
                close_event_id,
            }
        },
        _ => PollInfo {
            group,
            author: create.sender,
            id: create.id,
            generation: 0,
            question: String::new(),
            eligible_voters: Vec::new(),
            options: Vec::new(),
            votes,
            eligible: false,
            can_close: false,
            closed: false,
            close_event_id: None,
        },
    }
}

/// The polls are shown right, in the order in which they were created.
pub open spec fn polls_right(
    polls: Seq<PollInfo>,
    records: Seq<PollRecordView>,
    group: Id,
    local: Id,
) -> bool {
    let positions = poll_positions(records, records.len() as int);
    &&& polls.len() == positions.len()
    &&& forall|k: int|
        0 <= k < polls.len() ==> info_right(
            #[trigger] polls[k],
            records,
            positions[k],
            group,
            local,
        )
}

/// Work out the polls of a group from its messages about polls.
pub fn resolve_polls(group: Id, local_peer: Id, records: &Vec<PollRecord>) -> (res: Vec<PollInfo>)
    ensures
        polls_right(res@, records_of(records@), group, local_peer),
{
    let ghost views = records_of(records@);
    let mut out: Vec<PollInfo> = Vec::new();
    let mut i: usize = 0;
    while i < records.len()
        invariant
            i <= records@.len(),
            views == records_of(records@),
            out@.len() == poll_positions(views, i as int).len(),
            forall|k: int|
                0 <= k < out@.len() ==> info_right(
                    #[trigger] out@[k],
                    views,
                    poll_positions(views, i as int)[k],
                    group,
                    local_peer,
                ),
        decreases records@.len() - i,
    {
        if first_creation(records, i) {
            let ghost before = out@;
            out.push(show_poll(records, i, group, local_peer));
            assert forall|k: int| 0 <= k < out@.len() implies info_right(
                #[trigger] out@[k],
                views,
                poll_positions(views, i + 1)[k],
                group,
                local_peer,
            ) by {
                if k < before.len() {
                    assert(out@[k] == before[k]);
                }
            }
        }
        i = i + 1;
    }
    out
}

// ---- Laws ----

/// A message identity stands for one message of its sender.
pub open spec fn consistent(records: Seq<PollRecordView>) -> bool {
    forall|i: int, j: int|
        0 <= i < records.len() && 0 <= j < records.len() && (#[trigger] records[i]).sender == (
        #[trigger] records[j]).sender && records[i].id == records[j].id ==> records[i]
            == records[j]
}

/// What counts of the votes of an account is its latest one: every vote that it cast is that
/// one, or is outdone by it.
pub proof fn law_head_vote_is_latest(
    records: Seq<PollRecordView>,
    create: PollRecordView,
    voter: Id,
    n: int,
    i: int,
)
    requires
        consistent(records),
        0 <= i < n <= records.len(),
        vote_in(create, records[i]) matches Some(vote) && vote.voter == voter,
    ensures
        head_vote(records, create, voter, n) matches Some(head) && (head == vote_in(
            create,
            records[i],
        )->0 || is_later(head, vote_in(create, records[i])->0)),
    decreases n,
{
    let vote = vote_in(create, records[i])->0;
    let prior = head_vote(records, create, voter, n - 1);
    lemma_head_vote(records, create, voter, n - 1);
    if i < n - 1 {
        law_head_vote_is_latest(records, create, voter, n - 1, i);
        if let Some(last) = vote_in(create, records[n - 1]) {
            if last.voter == voter && is_later(last, prior->0) {
                lemma_later_transitive(last, prior->0, vote);
            }
        }
    } else if prior is Some && !is_later(vote, prior->0) {
        let head = prior->0;
        let k = choose|k: int|
            0 <= k < n - 1 && #[trigger] vote_in(create, records[k]) == Some(head);
        crate::bytes::lemma_before_total(head.event_id@, vote.event_id@, 0);
        if head.event_id@ =~= vote.event_id@ {
            crate::bytes::lemma_same_id(head.event_id, vote.event_id);
            assert(records[k].sender == records[i].sender && records[k].id == records[i].id);
        }
    }
}

proof fn lemma_later_transitive(a: PollVoteInfo, b: PollVoteInfo, c: PollVoteInfo)
    requires
        is_later(a, b),
        b == c || is_later(b, c),
    ensures
        is_later(a, c),
{
    if b != c && a.revision == b.revision && b.revision == c.revision {
        crate::bytes::lemma_before_transitive(c.event_id@, b.event_id@, a.event_id@, 0);
    }
}

proof fn lemma_not_both_later(a: PollVoteInfo, b: PollVoteInfo)
    ensures
        !(is_later(a, b) && is_later(b, a)),
{
    if is_later(a, b) && is_later(b, a) {
        crate::bytes::lemma_before_transitive(a.event_id@, b.event_id@, a.event_id@, 0);
        crate::bytes::lemma_before_irreflexive(a.event_id@, 0);
    }
}

/// The same messages, whatever their order and however often.
pub open spec fn same_messages(a: Seq<PollRecordView>, b: Seq<PollRecordView>) -> bool {
    forall|r: PollRecordView| #[trigger] a.contains(r) <==> b.contains(r)
}

proof fn lemma_consistent(a: Seq<PollRecordView>, b: Seq<PollRecordView>)
    requires
        consistent(a),
        same_messages(a, b),
    ensures
        consistent(b),
{
    assert forall|i: int, j: int|
        0 <= i < b.len() && 0 <= j < b.len() && (#[trigger] b[i]).sender == (
        #[trigger] b[j]).sender && b[i].id == b[j].id implies b[i] == b[j] by {
        assert(b.contains(b[i]) && b.contains(b[j]));
        assert(a.contains(b[i]) && a.contains(b[j]));
        let x = choose|x: int| 0 <= x < a.len() && a[x] == b[i];
        let y = choose|y: int| 0 <= y < a.len() && a[y] == b[j];
        assert(a[x].sender == a[y].sender && a[x].id == a[y].id);
    }
}

/// Which vote of an account counts does not depend on the order in which messages arrived,
/// nor on how often.
pub proof fn law_votes_converge(
    a: Seq<PollRecordView>,
    b: Seq<PollRecordView>,
    create: PollRecordView,
    voter: Id,
)
    requires
        consistent(a),
        same_messages(a, b),
    ensures
        head_vote(a, create, voter, a.len() as int) == head_vote(
            b,
            create,
            voter,
            b.len() as int,
        ),
{
    lemma_consistent(a, b);
    let ha = head_vote(a, create, voter, a.len() as int);
    let hb = head_vote(b, create, voter, b.len() as int);
    lemma_head_vote(a, create, voter, a.len() as int);
    lemma_head_vote(b, create, voter, b.len() as int);
    if let Some(x) = ha {
        let i = choose|i: int| 0 <= i < a.len() && #[trigger] vote_in(create, a[i]) == Some(x);
        assert(a.contains(a[i]));
        let j = choose|j: int| 0 <= j < b.len() && b[j] == a[i];
        law_head_vote_is_latest(b, create, voter, b.len() as int, j);
    }
    if let Some(y) = hb {
        let j = choose|j: int| 0 <= j < b.len() && #[trigger] vote_in(create, b[j]) == Some(y);
        assert(b.contains(b[j]));
        assert(a.contains(b[j]));
        let i = choose|i: int| 0 <= i < a.len() && a[i] == b[j];
        law_head_vote_is_latest(a, create, voter, a.len() as int, i);
    }
    if ha is Some && hb is Some && ha != hb {
        lemma_not_both_later(ha->0, hb->0);
    }
}

proof fn lemma_closing(records: Seq<PollRecordView>, create: PollRecordView, n: int)
    requires
        0 <= n <= records.len(),
    ensures
        match closing(records, create, n) {
            Some(at) => {
                &&& 0 <= at < n
                &&& closes(create, records[at])
                &&& forall|i: int|
                    0 <= i < n && #[trigger] closes(create, records[i]) ==> !bytes_before(
                        records[i].id@,
                        records[at].id@,
                    )
            },
            None => forall|i: int| 0 <= i < n ==> !#[trigger] closes(create, records[i]),
        },
    decreases n,
{
    if n > 0 {
        lemma_closing(records, create, n - 1);
        let prior = closing(records, create, n - 1);
        if closes(create, records[n - 1]) {
            crate::bytes::lemma_before_irreflexive(records[n - 1].id@, 0);
            if let Some(at) = prior {
                if bytes_before(records[n - 1].id@, records[at].id@) {
                    assert forall|i: int|
                        0 <= i < n && #[trigger] closes(create, records[i]) implies !bytes_before(
                        records[i].id@,
                        records[n - 1].id@,
                    ) by {
                        if bytes_before(records[i].id@, records[n - 1].id@) {
                            crate::bytes::lemma_before_transitive(
                                records[i].id@,
                                records[n - 1].id@,
                                records[at].id@,
                                0,
                            );
                        }
                    }
                }
            }
        }
    }
}

/// Which message closes a poll does not depend on the order in which messages arrived, nor
/// on how often.
pub proof fn law_closing_converges(
    a: Seq<PollRecordView>,
    b: Seq<PollRecordView>,
    create: PollRecordView,
)
    requires
        consistent(a),
        same_messages(a, b),
    ensures
        match (closing(a, create, a.len() as int), closing(b, create, b.len() as int)) {
            (Some(x), Some(y)) => a[x] == b[y],
            (None, None) => true,
            _ => false,
        },
{
    lemma_closing(a, create, a.len() as int);
    lemma_closing(b, create, b.len() as int);
    let ca = closing(a, create, a.len() as int);
    let cb = closing(b, create, b.len() as int);
    if let Some(x) = ca {
        assert(a.contains(a[x]));
        let j = choose|j: int| 0 <= j < b.len() && b[j] == a[x];
        assert(closes(create, b[j]));
        if let Some(y) = cb {
            assert(b.contains(b[y]));
            assert(a.contains(b[y]));
            let i = choose|i: int| 0 <= i < a.len() && a[i] == b[y];
            assert(closes(create, a[i]));
            crate::bytes::lemma_before_total(a[x].id@, b[y].id@, 0);
            crate::bytes::lemma_same_id(a[x].id, b[y].id);
            assert(a[x].sender == a[i].sender && a[x].id == a[i].id);
        }
    }
    if let Some(y) = cb {
        assert(b.contains(b[y]));
        assert(a.contains(b[y]));
        let i = choose|i: int| 0 <= i < a.len() && a[i] == b[y];
        assert(closes(create, a[i]));
    }
}

proof fn lemma_same_votes(s: Seq<PollVoteInfo>, t: Seq<PollVoteInfo>)
    requires
        ascending(s.map_values(|v: PollVoteInfo| v.voter)),
        ascending(t.map_values(|v: PollVoteInfo| v.voter)),
        forall|x: PollVoteInfo| #[trigger] s.contains(x) <==> t.contains(x),
    ensures
        s == t,
    decreases s.len(),
{
    let sv = s.map_values(|v: PollVoteInfo| v.voter);
    let tv = t.map_values(|v: PollVoteInfo| v.voter);
    if s.len() == 0 {
        if t.len() > 0 {
            assert(t.contains(t[0]));
            assert(s.contains(t[0]));
        }
        assert(s =~= t);
    } else {
        let x = s.last();
        assert(s.contains(x));
        let j = choose|j: int| 0 <= j < t.len() && t[j] == x;
        let y = t.last();
        assert(t.contains(y));
        assert(s.contains(y));
        let i = choose|i: int| 0 <= i < s.len() && s[i] == y;
        if x != y {
            assert(bytes_before(sv[i]@, sv[s.len() - 1]@));
            assert(bytes_before(tv[j]@, tv[t.len() - 1]@));
            crate::bytes::lemma_before_transitive(x.voter@, y.voter@, x.voter@, 0);
            crate::bytes::lemma_before_irreflexive(x.voter@, 0);
        }
        let front = s.drop_last();
        let rest = t.drop_last();
        let fv = front.map_values(|v: PollVoteInfo| v.voter);
        let rv = rest.map_values(|v: PollVoteInfo| v.voter);
        assert forall|p: int, q: int| 0 <= p < q < fv.len() implies bytes_before(
            (#[trigger] fv[p])@,
            (#[trigger] fv[q])@,
        ) by {
            assert(fv[p] == sv[p] && fv[q] == sv[q]);
        }
        assert forall|p: int, q: int| 0 <= p < q < rv.len() implies bytes_before(
            (#[trigger] rv[p])@,
            (#[trigger] rv[q])@,
        ) by {
            assert(rv[p] == tv[p] && rv[q] == tv[q]);
        }
        assert forall|z: PollVoteInfo| #[trigger] front.contains(z) <==> rest.contains(z) by {
            crate::bytes::lemma_before_irreflexive(x.voter@, 0);
            if front.contains(z) {
                let p = choose|p: int| 0 <= p < front.len() && front[p] == z;
                assert(s[p] == z);
                assert(bytes_before(sv[p]@, sv[s.len() - 1]@));
                assert(s.contains(z) && t.contains(z));
                let q = choose|q: int| 0 <= q < t.len() && t[q] == z;
                assert(q < t.len() - 1);
                assert(rest[q] == z);
            }
            if rest.contains(z) {
                let q = choose|q: int| 0 <= q < rest.len() && rest[q] == z;
                assert(t[q] == z);
                assert(bytes_before(tv[q]@, tv[t.len() - 1]@));
                assert(t.contains(z));
                assert(s.contains(z));
                let p = choose|p: int| 0 <= p < s.len() && s[p] == z;
                assert(p < s.len() - 1);
                assert(front[p] == z);
            }
        }
        lemma_same_votes(front, rest);
        assert(s =~= front.push(x));
        assert(t =~= rest.push(y));
    }
}

/// An open poll shows the same votes to everyone who has the same messages.
pub proof fn law_open_polls_converge(
    a: Seq<PollRecordView>,
    b: Seq<PollRecordView>,
    create: PollRecordView,
    va: Seq<PollVoteInfo>,
    vb: Seq<PollVoteInfo>,
)
    requires
        consistent(a),
        same_messages(a, b),
        open_votes(va, a, create),
        open_votes(vb, b, create),
    ensures
        va == vb,
{
    assert forall|x: PollVoteInfo| #[trigger] va.contains(x) <==> vb.contains(x) by {
        law_votes_converge(a, b, create, x.voter);
    }
    lemma_same_votes(va, vb);
}

proof fn lemma_closing_prefix(
    records: Seq<PollRecordView>,
    r: PollRecordView,
    create: PollRecordView,
    n: int,
)
    requires
        0 <= n <= records.len(),
    ensures
        closing(records.push(r), create, n) == closing(records, create, n),
    decreases n,
{
    if n > 0 {
        lemma_closing_prefix(records, r, create, n - 1);
        lemma_closing(records, create, n - 1);
    }
}

/// A closed poll is frozen: votes that arrive later change nothing in it.
pub proof fn law_closed_polls_are_frozen(
    records: Seq<PollRecordView>,
    r: PollRecordView,
    create: PollRecordView,
    votes: Seq<PollVoteInfo>,
)
    requires
        closing(records, create, records.len() as int) is Some,
        !closes(create, r),
    ensures
        votes_right(votes, records, create) == votes_right(votes, records.push(r), create),
        closing(records.push(r), create, records.len() as int + 1) == closing(
            records,
            create,
            records.len() as int,
        ),
{
    lemma_closing_prefix(records, r, create, records.len() as int);
    lemma_closing(records, create, records.len() as int);
}

/// Only those who may vote have votes that count, and only for answers of the poll.
pub proof fn law_outsiders_do_not_count(
    records: Seq<PollRecordView>,
    create: PollRecordView,
    votes: Seq<PollVoteInfo>,
    k: int,
)
    requires
        votes_right(votes, records, create),
        0 <= k < votes.len(),
    ensures
        voters_of(create).contains(votes[k].voter),
        options_of(create).contains(votes[k].option_id),
{
    broadcast use vstd::seq_lib::group_to_multiset_ensures;

    match closing(records, create, records.len() as int) {
        Some(at) => {
            lemma_closing(records, create, records.len() as int);
            let heads = heads_of(records[at]);
            law_closed_polls_show_their_heads(heads, heads.len() as int);
            assert(heads.take(heads.len() as int) =~= heads);
            assert(votes.contains(votes[k]));
            assert(votes.to_multiset().contains(votes[k]));
            assert(heads.to_multiset().contains(votes[k]));
            assert(heads.contains(votes[k]));
            let j = choose|j: int| 0 <= j < heads.len() && heads[j] == votes[k];
            assert(voters_of(create).contains(heads[j].voter));
        },
        None => {
            assert(votes.contains(votes[k]));
            lemma_head_vote(records, create, votes[k].voter, records.len() as int);
        },
    }
}

/// The messages among the first `n` that create polls, in order.
pub open spec fn creations(records: Seq<PollRecordView>, n: int) -> Seq<PollRecordView> {
    poll_positions(records, n).map_values(|i: int| records[i])
}

/// Two polls are shown alike.
pub open spec fn shown_alike(a: PollInfo, b: PollInfo) -> bool {
    &&& a.group == b.group
    &&& a.author == b.author
    &&& a.id == b.id
    &&& a.generation == b.generation
    &&& a.question@ == b.question@
    &&& a.eligible_voters@ == b.eligible_voters@
    &&& a.options@.len() == b.options@.len()
    &&& forall|j: int|
        0 <= j < a.options@.len() ==> option_alike(#[trigger] a.options@[j], b.options@[j])
    &&& a.votes@ == b.votes@
    &&& a.eligible == b.eligible
    &&& a.can_close == b.can_close
    &&& a.closed == b.closed
    &&& a.close_event_id == b.close_event_id
}

/// Two answers are shown alike.
pub open spec fn option_alike(a: PollOptionInfo, b: PollOptionInfo) -> bool {
    &&& a.id == b.id
    &&& a.text@ == b.text@
    &&& a.votes == b.votes
    &&& a.selected_by_me == b.selected_by_me
}

/// Everyone who has the same messages is shown the same list of polls, in whatever order they
/// arrived and however often, as long as the polls themselves come up in the same order.
pub proof fn law_polls_converge(
    a: Seq<PollRecordView>,
    b: Seq<PollRecordView>,
    group: Id,
    local: Id,
    pa: Seq<PollInfo>,
    pb: Seq<PollInfo>,
)
    requires
        consistent(a),
        same_messages(a, b),
        creations(a, a.len() as int) == creations(b, b.len() as int),
        polls_right(pa, a, group, local),
        polls_right(pb, b, group, local),
    ensures
        pa.len() == pb.len(),
        forall|k: int| 0 <= k < pa.len() ==> shown_alike(#[trigger] pa[k], pb[k]),
{
    let xs = poll_positions(a, a.len() as int);
    let ys = poll_positions(b, b.len() as int);
    assert(creations(a, a.len() as int).len() == xs.len());
    assert(creations(b, b.len() as int).len() == ys.len());
    assert forall|k: int| 0 <= k < pa.len() implies shown_alike(#[trigger] pa[k], pb[k]) by {
        assert(creations(a, a.len() as int)[k] == a[xs[k]]);
        assert(creations(b, b.len() as int)[k] == b[ys[k]]);
        let create = a[xs[k]];
        let x = pa[k];
        let y = pb[k];
        assert(info_right(x, a, xs[k], group, local));
        assert(info_right(y, b, ys[k], group, local));
        law_closing_converges(a, b, create);
        if closing(a, create, a.len() as int) is None {
            law_open_polls_converge(a, b, create, x.votes@, y.votes@);
        }
        assert(x.votes@ == y.votes@);
        assert forall|j: int| 0 <= j < x.options@.len() implies option_alike(
            #[trigger] x.options@[j],
            y.options@[j],
        ) by {
            if let PollEventView::Create { options, texts, .. } = create.event {
                assert(option_right(x.options@[j], x.votes@, local, options[j], texts[j]));
                assert(option_right(y.options@[j], y.votes@, local, options[j], texts[j]));
            }
        }
    }
}

proof fn lemma_positions_prefix(records: Seq<PollRecordView>, r: PollRecordView, n: int)
    requires
        0 <= n <= records.len(),
    ensures
        poll_positions(records.push(r), n) == poll_positions(records, n),
        forall|k: int|
            0 <= k < poll_positions(records, n).len() ==> 0 <= #[trigger] poll_positions(
                records,
                n,
            )[k] < n,
    decreases n,
{
    if n > 0 {
        lemma_positions_prefix(records, r, n - 1);
        let more = records.push(r);
        assert(more[n - 1] == records[n - 1]);
        assert(is_poll(more, n - 1) == is_poll(records, n - 1)) by {
            if is_poll(records, n - 1) {
                assert forall|k: int| 0 <= k < n - 1 && #[trigger] is_creation(
                    more[k],
                ) implies !(more[k].sender == more[n - 1].sender && more[k].id
                    == more[n - 1].id) by {
                    assert(is_creation(records[k]));
                }
            }
            if is_poll(more, n - 1) {
                assert forall|k: int| 0 <= k < n - 1 && #[trigger] is_creation(
                    records[k],
                ) implies !(records[k].sender == records[n - 1].sender && records[k].id
                    == records[n - 1].id) by {
                    assert(is_creation(more[k]));
                }
            }
        }
    }
}

/// A message that arrives again, or that creates no poll, brings up no poll and leaves their
/// order as it is.
pub proof fn law_repeats_create_nothing(records: Seq<PollRecordView>, r: PollRecordView)
    requires
        records.contains(r) || !is_creation(r),
    ensures
        creations(records.push(r), records.len() as int + 1) == creations(
            records,
            records.len() as int,
        ),
{
    let n = records.len() as int;
    let more = records.push(r);
    lemma_positions_prefix(records, r, n);
    if records.contains(r) && is_creation(r) {
        let k = choose|k: int| 0 <= k < records.len() && records[k] == r;
        assert(is_creation(more[k]));
        assert(!is_poll(more, n));
    }
    assert(poll_positions(more, n + 1) == poll_positions(records, n));
    assert(creations(more, n + 1) =~= creations(records, n));
}

// ---- Taking part ----

/// The first of the drawn identities that is not taken, out of the first `n`.
pub open spec fn first_free(drawn: Seq<ContentId>, taken: Seq<ContentId>, n: int) -> Option<
    ContentId,
>
    decreases n,
{
    if n <= 0 {
        None
    } else {
        match first_free(drawn, taken, n - 1) {
            Some(id) => Some(id),
            None => if taken.contains(drawn[n - 1]) {
                None
            } else {
                Some(drawn[n - 1])
            },
        }
    }
}

/// How many drawn identities are tried.
pub open spec fn tries(drawn: Seq<ContentId>) -> int {
    if drawn.len() < ID_RETRY_LIMIT {
        drawn.len() as int
    } else {
        ID_RETRY_LIMIT as int
    }
}

/// Take a new identity: the first of the drawn ones that is not taken yet.
pub fn mint_unique_id(drawn: &Vec<ContentId>, taken: &Vec<ContentId>) -> (res: Result<ContentId>)
    ensures
        match res {
            Ok(id) => first_free(drawn@, taken@, tries(drawn@)) == Some(id) && !taken@.contains(id),
            Err(e) => first_free(drawn@, taken@, tries(drawn@)) is None && e
                == NodeError::InvalidPoll,
        },
{
    let most: usize = if drawn.len() < ID_RETRY_LIMIT { drawn.len() } else { ID_RETRY_LIMIT };
    let mut found: Option<ContentId> = None;
    let mut i: usize = 0;
    while i < most
        invariant
            i <= most,
            most <= drawn@.len(),
            found == first_free(drawn@, taken@, i as int),
            found matches Some(id) ==> !taken@.contains(id),
        decreases most - i,
    {
        if found.is_none() && !crate::settlement::holds(taken, &drawn[i]) {
            found = Some(drawn[i]);
        }
        i = i + 1;
    }
    match found {
        Some(id) => Ok(id),
        None => Err(NodeError::InvalidPoll),
    }
}

/// What speaks against creating a poll: the group is not known, this account is no member,
/// there are too few or too many answers, or some member cannot show polls.
pub open spec fn create_refusal(
    known: bool,
    members: Seq<Id>,
    me: Id,
    options: int,
    max_options: usize,
    supported: bool,
) -> Option<NodeError> {
    if !known {
        Some(NodeError::UnknownGroup)
    } else if !members.contains(me) || options < 2 || options > max_options {
        Some(NodeError::InvalidPoll)
    } else if !supported {
        Some(NodeError::PollUnsupported)
    } else {
        None
    }
}

/// Check that a poll can be created, and work out who may vote: all members, each once.
pub fn group_create_poll(
    known: bool,
    members: &Vec<Id>,
    me: &Id,
    options: usize,
    max_options: usize,
    supported: bool,
) -> (res: Result<Vec<Id>>)
    ensures
        match res {
            Ok(voters) => {
                &&& create_refusal(known, members@, *me, options as int, max_options, supported)
                    is None
                &&& ascending(voters@)
                &&& voters@.to_set() == members@.to_set()
            },
            Err(e) => create_refusal(
                known,
                members@,
                *me,
                options as int,
                max_options,
                supported,
            ) == Some(e),
        },
{
    if !known {
        return Err(NodeError::UnknownGroup);
    }
    if !lists_id(members, me) || options < 2 || options > max_options {
        return Err(NodeError::InvalidPoll);
    }
    if !supported {
        return Err(NodeError::PollUnsupported);
    }
    let mut voters: Vec<Id> = Vec::new();
    let mut i: usize = 0;
    assert(voters@.to_set() =~= members@.take(0).to_set());
    while i < members.len()
        invariant
            i <= members@.len(),
            ascending(voters@),
            voters@.to_set() == members@.take(i as int).to_set(),
        decreases members@.len() - i,
    {
        insert_id(&mut voters, members[i]);
        proof {
            let front = members@.take(i as int);
            let more = members@.take(i + 1);
            assert(more =~= front.push(members@[i as int]));
            assert forall|id: Id| more.to_set().contains(id) == front.to_set().insert(
                members@[i as int],
            ).contains(id) by {
                if front.contains(id) {
                    let k = choose|k: int| 0 <= k < front.len() && front[k] == id;
                    assert(more[k] == id);
                }
                if id == members@[i as int] {
                    assert(more[i as int] == id);
                }
                if more.contains(id) {
                    let k = choose|k: int| 0 <= k < more.len() && more[k] == id;
                    if k < i {
                        assert(front[k] == id);
                    }
                }
            }
            assert(more.to_set() =~= front.to_set().insert(members@[i as int]));
        }
        i = i + 1;
    }
    assert(members@.take(i as int) =~= members@);
    Ok(voters)
}

/// The message is a vote of an account in a poll, whether or not it counts.
pub open spec fn is_own_vote(r: PollRecordView, me: Id, author: Id, id: ContentId) -> bool {
    r.sender == me && (r.event matches PollEventView::Vote { poll_author, poll_id, .. }
        && poll_author == author && poll_id == id)
}

/// How often an account voted in a poll, among the first `n` messages.
pub open spec fn own_votes(
    records: Seq<PollRecordView>,
    me: Id,
    author: Id,
    id: ContentId,
    n: int,
) -> int
    decreases n,
{
    if n <= 0 {
        0
    } else {
        own_votes(records, me, author, id, n - 1) + if is_own_vote(
            records[n - 1],
            me,
            author,
            id,
        ) {
            1int
        } else {
            0
        }
    }
}

/// The largest number of a vote of an account in a poll, among the first `n` messages.
pub open spec fn last_revision(
    records: Seq<PollRecordView>,
    me: Id,
    author: Id,
    id: ContentId,
    n: int,
) -> u64
    decreases n,
{
    if n <= 0 {
        0
    } else {
        let prior = last_revision(records, me, author, id, n - 1);
        match records[n - 1].event {
            PollEventView::Vote { revision, .. } => if is_own_vote(
                records[n - 1],
                me,
                author,
                id,
            ) && revision > prior {
                revision
            } else {
                prior
            },
            _ => prior,
        }
    }
}

/// What speaks against a vote: the group is not known, some member cannot show polls, there
/// is no such poll, it is closed, this account may not vote or there is no such answer, or
/// it voted too often.
pub open spec fn vote_refusal(
    known: bool,
    supported: bool,
    poll: Option<PollInfo>,
    me: Id,
    option_id: ContentId,
    votes: int,
    last: u64,
) -> Option<NodeError> {
    if !known {
        Some(NodeError::UnknownGroup)
    } else if !supported {
        Some(NodeError::PollUnsupported)
    } else {
        match poll {
            None => Some(NodeError::InvalidPoll),
            Some(info) => if info.closed {
                Some(NodeError::PollClosed)
            } else if !info.eligible_voters@.contains(me) || !(exists|j: int|
                0 <= j < info.options@.len() && (#[trigger] info.options@[j]).id == option_id) {
                Some(NodeError::InvalidPoll)
            } else if votes >= MAX_POLL_VOTE_REVISIONS || last == u64::MAX {
                Some(NodeError::PollVoteLimit)
            } else {
                None
            },
        }
    }
}

fn shows_option(options: &Vec<PollOptionInfo>, option_id: &ContentId) -> (res: bool)
    ensures
        res == exists|j: int|
            0 <= j < options@.len() && (#[trigger] options@[j]).id == *option_id,
{
    let mut j: usize = 0;
    while j < options.len()
        invariant
            j <= options@.len(),
            forall|k: int| 0 <= k < j ==> (#[trigger] options@[k]).id != *option_id,
        decreases options@.len() - j,
    {
        if same(&options[j].id, option_id) {
            assert(options@[j as int].id == *option_id);
            return true;
        }
        j = j + 1;
    }
    false
}

/// Check that a vote can be cast, and work out its number: one more than any before.
pub fn group_vote_poll(
    known: bool,
    supported: bool,
    poll: &Option<PollInfo>,
    records: &Vec<PollRecord>,
    me: &Id,
    poll_author: &Id,
    poll_id: &ContentId,
    option_id: &ContentId,
) -> (res: Result<u64>)
    ensures
        ({
            let views = records_of(records@);
            let n = views.len() as int;
            let votes = own_votes(views, *me, *poll_author, *poll_id, n);
            let last = last_revision(views, *me, *poll_author, *poll_id, n);
            let refusal = vote_refusal(known, supported, *poll, *me, *option_id, votes, last);
            match res {
                Ok(revision) => refusal is None && revision == last + 1,
                Err(e) => refusal == Some(e),
            }
        }),
{
    if !known {
        return Err(NodeError::UnknownGroup);
    }
    if !supported {
        return Err(NodeError::PollUnsupported);
    }
    match poll {
        None => {
            return Err(NodeError::InvalidPoll);
        },
        Some(info) => {
            if info.closed {
                return Err(NodeError::PollClosed);
            }
            if !lists_id(&info.eligible_voters, me) || !shows_option(&info.options, option_id) {
                return Err(NodeError::InvalidPoll);
            }
        },
    }
    let ghost views = records_of(records@);
    let mut count: usize = 0;
    let mut last: u64 = 0;
    let mut i: usize = 0;
    while i < records.len()
        invariant
            i <= records@.len(),
            views == records_of(records@),
            count <= i,
            count == own_votes(views, *me, *poll_author, *poll_id, i as int),
            last == last_revision(views, *me, *poll_author, *poll_id, i as int),
        decreases records@.len() - i,
    {
        assert(views[i as int] == records@[i as int]@);
        if let PollEvent::Vote { poll_author: author, poll_id: id, revision, .. } =
            &records[i].event {
            if same(&records[i].sender, me) && same(author, poll_author) && same(id, poll_id) {
                count = count + 1;
                if *revision > last {
                    last = *revision;
                }
            }
        }
        i = i + 1;
    }
    if count >= MAX_POLL_VOTE_REVISIONS || last == u64::MAX {
        return Err(NodeError::PollVoteLimit);
    }
    Ok(last + 1)
}

/// A new vote is later than every one that the account cast before, so that it counts once
/// it arrives.
pub proof fn law_new_vote_counts(
    records: Seq<PollRecordView>,
    create: PollRecordView,
    r: PollRecordView,
)
    requires
        vote_in(create, r) matches Some(vote) && vote.revision > last_revision(
            records,
            vote.voter,
            create.sender,
            create.id,
            records.len() as int,
        ),
    ensures
        head_vote(
            records.push(r),
            create,
            vote_in(create, r)->0.voter,
            records.len() as int + 1,
        ) == vote_in(create, r),
{
    let vote = vote_in(create, r)->0;
    let n = records.len() as int;
    lemma_head_prefix(records, r, create, vote.voter, n);
    lemma_head_revision(records, create, vote.voter, n);
    assert(records.push(r)[n] == r);
}

proof fn lemma_head_prefix(
    records: Seq<PollRecordView>,
    r: PollRecordView,
    create: PollRecordView,
    voter: Id,
    n: int,
)
    requires
        0 <= n <= records.len(),
    ensures
        head_vote(records.push(r), create, voter, n) == head_vote(records, create, voter, n),
    decreases n,
{
    if n > 0 {
        lemma_head_prefix(records, r, create, voter, n - 1);
    }
}

proof fn lemma_head_revision(
    records: Seq<PollRecordView>,
    create: PollRecordView,
    voter: Id,
    n: int,
)
    requires
        0 <= n <= records.len(),
    ensures
        head_vote(records, create, voter, n) matches Some(head) ==> head.revision
            <= last_revision(records, voter, create.sender, create.id, n),
    decreases n,
{
    if n > 0 {
        lemma_head_revision(records, create, voter, n - 1);
    }
}

/// What speaks against closing a poll.
pub open spec fn close_refusal(
    known: bool,
    supported: bool,
    me: Id,
    poll_author: Id,
    poll: Option<PollInfo>,
) -> Option<NodeError> {
    if !known {
        Some(NodeError::UnknownGroup)
    } else if !supported {
        Some(NodeError::PollUnsupported)
    } else if me != poll_author {
        Some(NodeError::NotPollCreator)
    } else {
        match poll {
            None => Some(NodeError::InvalidPoll),
            Some(info) => if info.closed {
                Some(NodeError::PollClosed)
            } else {
                None
            },
        }
    }
}

/// Check that a poll can be closed, and take the votes that count now.
pub fn group_close_poll(
    known: bool,
    supported: bool,
    me: &Id,
    poll_author: &Id,
    poll: &Option<PollInfo>,
) -> (res: Result<Vec<PollVoteInfo>>)
    ensures
        match res {
            Ok(heads) => close_refusal(known, supported, *me, *poll_author, *poll) is None && poll
                is Some && heads@ == poll->0.votes@,
            Err(e) => close_refusal(known, supported, *me, *poll_author, *poll) == Some(e),
        },
{
    if !known {
        return Err(NodeError::UnknownGroup);
    }
    if !supported {
        return Err(NodeError::PollUnsupported);
    }
    if !same(me, poll_author) {
        return Err(NodeError::NotPollCreator);
    }
    match poll {
        None => Err(NodeError::InvalidPoll),
        Some(info) => {
            if info.closed {
                return Err(NodeError::PollClosed);
            }
            let mut heads: Vec<PollVoteInfo> = Vec::new();
            let mut i: usize = 0;
            while i < info.votes.len()
                invariant
                    i <= info.votes@.len(),
                    heads@ == info.votes@.take(i as int),
                decreases info.votes@.len() - i,
            {
                heads.push(info.votes[i]);
                assert(heads@ =~= info.votes@.take(i + 1));
                i = i + 1;
            }
            assert(heads@ =~= info.votes@);
            Ok(heads)
        },
    }
}

// ---- Laws of counting ----

/// The count of an answer is the number of votes for it.
pub proof fn law_counts_are_numbers_of_votes(votes: Seq<PollVoteInfo>, option_id: ContentId)
    ensures
        tally(votes, option_id, votes.len() as int) == votes.filter(
            |v: PollVoteInfo| v.option_id == option_id,
        ).len(),
    decreases votes.len(),
{
    let for_it = |v: PollVoteInfo| v.option_id == option_id;
    reveal(Seq::filter);
    if votes.len() > 0 {
        let front = votes.drop_last();
        law_counts_are_numbers_of_votes(front, option_id);
        lemma_tally_prefix(votes, front, option_id, front.len() as int);
        assert(for_it(votes.last()) == (votes.last().option_id == option_id));
    }
}

proof fn lemma_tally_prefix(
    a: Seq<PollVoteInfo>,
    b: Seq<PollVoteInfo>,
    option_id: ContentId,
    n: int,
)
    requires
        n <= a.len(),
        n <= b.len(),
        forall|k: int| 0 <= k < n ==> #[trigger] a[k] == b[k],
    ensures
        tally(a, option_id, n) == tally(b, option_id, n),
    decreases n,
{
    if n > 0 {
        lemma_tally_prefix(a, b, option_id, n - 1);
        assert(a[n - 1] == b[n - 1]);
    }
}

/// One vote more raises the count of its answer by one, and that of no other.
pub proof fn law_every_vote_counts_once(
    votes: Seq<PollVoteInfo>,
    vote: PollVoteInfo,
    option_id: ContentId,
)
    ensures
        tally(votes.push(vote), option_id, votes.len() as int + 1) == tally(
            votes,
            option_id,
            votes.len() as int,
        ) + if vote.option_id == option_id {
            1int
        } else {
            0
        },
{
    lemma_tally_prefix(votes.push(vote), votes, option_id, votes.len() as int);
}

/// What is shown of an answer: its text, as many votes as are shown for it, and whether one of
/// them is one's own.
pub proof fn law_answers_show_their_votes(
    option: PollOptionInfo,
    votes: Seq<PollVoteInfo>,
    local: Id,
    id: ContentId,
    text: Seq<char>,
)
    requires
        option_right(option, votes, local, id, text),
        votes.len() <= u32::MAX,
    ensures
        option.id == id,
        option.text@ == text,
        option.votes == votes.filter(|v: PollVoteInfo| v.option_id == id).len(),
        option.selected_by_me ==> exists|k: int|
            0 <= k < votes.len() && (#[trigger] votes[k]).voter == local && votes[k].option_id
                == id,
        forall|k: int|
            0 <= k < votes.len() && (#[trigger] votes[k]).voter == local && votes[k].option_id == id
                ==> option.selected_by_me,
{
    law_counts_are_numbers_of_votes(votes, id);
    crate::seqs::lemma_filter_kept(votes, |v: PollVoteInfo| v.option_id == id);
}

// ---- Laws of polls and votes ----

/// A poll is created by one of its own voters.
pub proof fn law_who_creates_polls(r: PollRecordView)
    ensures
        is_creation(r) <==> (r.event is Create && r.event->voters.contains(r.sender)),
        r.event is Create ==> voters_of(r) == r.event->voters && options_of(r)
            == r.event->options,
{
}

/// Every poll that was created is shown, at its first creation and only there.
pub proof fn law_every_poll_is_shown(records: Seq<PollRecordView>, n: int, i: int)
    requires
        0 <= n <= records.len(),
    ensures
        poll_positions(records, n).contains(i) <==> 0 <= i < n && is_creation(records[i])
            && forall|k: int|
            0 <= k < i && #[trigger] is_creation(records[k]) ==> records[k].sender
                != records[i].sender || records[k].id != records[i].id,
    decreases n,
{
    if n > 0 {
        law_every_poll_is_shown(records, n - 1, i);
        let prior = poll_positions(records, n - 1);
        let all = poll_positions(records, n);
        if prior.contains(i) {
            let k = choose|k: int| 0 <= k < prior.len() && prior[k] == i;
            assert(all[k] == i);
        }
        if i == n - 1 && is_poll(records, i) {
            assert(all.last() == i);
        }
        if all.contains(i) && !prior.contains(i) {
            let k = choose|k: int| 0 <= k < all.len() && all[k] == i;
            assert(k == prior.len());
        }
    }
}

/// A vote counts when it names the poll, its sender may vote and its answer is offered; it
/// counts as what it says.
pub proof fn law_which_votes_count(create: PollRecordView, r: PollRecordView)
    ensures
        !(r.event is Vote) ==> vote_in(create, r) is None,
        r.event is Vote ==> {
            let counts = r.event->Vote_poll_author == create.sender && r.event->Vote_poll_id
                == create.id && voters_of(create).contains(r.sender) && options_of(
                create,
            ).contains(r.event->option_id);
            &&& !counts ==> vote_in(create, r) is None
            &&& counts ==> vote_in(create, r) == Some(
                PollVoteInfo {
                    voter: r.sender,
                    event_id: r.id,
                    option_id: r.event->option_id,
                    revision: r.event->revision,
                },
            )
        },
{
}

/// The higher revision counts, and of two equal ones the greater identity.
pub proof fn law_later_votes(a: PollVoteInfo, b: PollVoteInfo)
    ensures
        a.revision > b.revision ==> is_later(a, b) && !is_later(b, a),
        a.revision == b.revision ==> is_later(a, b) == bytes_before(b.event_id@, a.event_id@),
{
}

/// The vote that counts for a member is one that the member sent.
pub proof fn law_counted_votes_were_sent(
    records: Seq<PollRecordView>,
    create: PollRecordView,
    voter: Id,
    n: int,
)
    requires
        0 <= n <= records.len(),
    ensures
        head_vote(records, create, voter, n) matches Some(vote) ==> vote.voter == voter && exists|
            i: int,
        |
            0 <= i < n && vote_in(create, #[trigger] records[i]) == Some(vote),
    decreases n,
{
    if n > 0 {
        law_counted_votes_were_sent(records, create, voter, n - 1);
        if let Some(vote) = vote_in(create, records[n - 1]) {
            if head_vote(records, create, voter, n) == Some(vote) {
                assert(vote_in(create, records[n - 1]) == Some(vote));
            }
        }
    }
}

/// Only the creator closes a poll, and only with votes that can count.
pub proof fn law_who_closes_polls(create: PollRecordView, r: PollRecordView)
    ensures
        !(r.event is Close) ==> !closes(create, r),
        closes(create, r) ==> r.sender == create.sender && r.event is Close
            && r.event->Close_poll_author == create.sender && r.event->Close_poll_id == create.id,
        r.event is Close && r.sender == create.sender && r.event->Close_poll_author == create.sender
            && r.event->Close_poll_id == create.id && r.event->heads.len() == 0 ==> closes(
            create,
            r,
        ),
{
}

/// A poll is closed by the closing event with the smallest identity, and open without any.
pub proof fn law_first_closing_counts(
    records: Seq<PollRecordView>,
    create: PollRecordView,
    n: int,
    i: int,
)
    requires
        0 <= n <= records.len(),
    ensures
        closing(records, create, n) matches Some(at) ==> 0 <= at < n && closes(create, records[at]),
        0 <= i < n && closes(create, records[i]) ==> (closing(records, create, n) matches Some(at)
            && !bytes_before(records[i].id@, records[at].id@)),
    decreases n,
{
    if n > 0 {
        law_first_closing_counts(records, create, n - 1, i);
        crate::bytes::lemma_before_irreflexive(records[n - 1].id@, 0);
        if 0 <= i < n - 1 && closes(create, records[i]) && closing(records, create, n) == Some(
            n - 1,
        ) {
            let at = closing(records, create, n - 1)->0;
            if bytes_before(records[i].id@, records[n - 1].id@) {
                crate::bytes::lemma_before_transitive(
                    records[i].id@,
                    records[n - 1].id@,
                    records[at].id@,
                    0,
                );
            }
        }
    }
}

/// A poll is shown as it was created, with whether one may vote and whether one may close it.
pub proof fn law_polls_are_shown_as_created(
    info: PollInfo,
    records: Seq<PollRecordView>,
    c: int,
    group: Id,
    local: Id,
)
    requires
        0 <= c < records.len(),
        info_right(info, records, c, group, local),
    ensures
        info.group == group,
        info.author == records[c].sender,
        info.id == records[c].id,
        info.question@ == records[c].event->question,
        info.generation == records[c].event->generation,
        info.eligible_voters@ == voters_of(records[c]),
        info.options@.len() == options_of(records[c]).len(),
        info.eligible == voters_of(records[c]).contains(local),
        info.can_close ==> local == info.author && !info.closed,
        local == info.author && !info.closed ==> info.can_close,
        info.closed == (info.close_event_id is Some),
        (forall|i: int| 0 <= i < records.len() ==> !closes(records[c], #[trigger] records[i]))
            ==> !info.closed,
        (exists|i: int| 0 <= i < records.len() && closes(records[c], #[trigger] records[i]))
            ==> info.closed,
{
    let n = records.len() as int;
    law_first_closing_counts(records, records[c], n, 0);
    if exists|i: int| 0 <= i < records.len() && closes(records[c], #[trigger] records[i]) {
        let i = choose|i: int| 0 <= i < records.len() && closes(records[c], #[trigger] records[i]);
        law_first_closing_counts(records, records[c], n, i);
    }
}

/// An identity is the first that was drawn and is not taken; sixteen draws are made at most.
pub proof fn law_new_identities_are_free(
    drawn: Seq<ContentId>,
    taken: Seq<ContentId>,
    n: int,
    i: int,
)
    requires
        0 <= n <= drawn.len(),
    ensures
        0 <= i < n && !taken.contains(drawn[i]) && (forall|k: int|
            0 <= k < i ==> taken.contains(#[trigger] drawn[k])) ==> first_free(drawn, taken, n)
            == Some(drawn[i]),
        (forall|k: int| 0 <= k < n ==> taken.contains(#[trigger] drawn[k])) ==> first_free(
            drawn,
            taken,
            n,
        ) is None,
        first_free(drawn, taken, n) matches Some(id) ==> !taken.contains(id),
        tries(drawn) <= 16,
        drawn.len() <= 16 ==> tries(drawn) == drawn.len(),
    decreases n,
{
    if n > 0 {
        law_new_identities_are_free(drawn, taken, n - 1, i);
    }
}

/// Who may create a poll: a member of a known group that supports polls, with at least two
/// answers and not too many.
pub proof fn law_creating_polls(
    known: bool,
    members: Seq<Id>,
    me: Id,
    options: int,
    max_options: usize,
    supported: bool,
)
    ensures
        ({
            let res = create_refusal(known, members, me, options, max_options, supported);
            let valid = members.contains(me) && 2 <= options <= max_options;
            &&& !known ==> res == Some(NodeError::UnknownGroup)
            &&& known && !valid ==> res == Some(NodeError::InvalidPoll)
            &&& known && valid && !supported ==> res == Some(NodeError::PollUnsupported)
            &&& known && valid && supported ==> res is None
        }),
{
}

/// Who may vote: one of the voters, for an answer that is offered, in a poll that is open, and
/// sixty-four times at most.
pub proof fn law_voting(
    info: PollInfo,
    supported: bool,
    me: Id,
    option_id: ContentId,
    votes: int,
    last: u64,
    j: int,
)
    ensures
        vote_refusal(false, supported, Some(info), me, option_id, votes, last) == Some(
            NodeError::UnknownGroup,
        ),
        vote_refusal(true, false, Some(info), me, option_id, votes, last) == Some(
            NodeError::PollUnsupported,
        ),
        vote_refusal(true, true, None, me, option_id, votes, last) == Some(NodeError::InvalidPoll),
        info.closed ==> vote_refusal(true, true, Some(info), me, option_id, votes, last) == Some(
            NodeError::PollClosed,
        ),
        !info.closed && !info.eligible_voters@.contains(me) ==> vote_refusal(
            true,
            true,
            Some(info),
            me,
            option_id,
            votes,
            last,
        ) == Some(NodeError::InvalidPoll),
        !info.closed && (forall|k: int|
            0 <= k < info.options@.len() ==> (#[trigger] info.options@[k]).id != option_id)
            ==> vote_refusal(true, true, Some(info), me, option_id, votes, last) == Some(
            NodeError::InvalidPoll,
        ),
        !info.closed && info.eligible_voters@.contains(me) && 0 <= j < info.options@.len()
            && info.options@[j].id == option_id ==> {
            let res = vote_refusal(true, true, Some(info), me, option_id, votes, last);
            &&& votes >= 64 || last == u64::MAX ==> res == Some(NodeError::PollVoteLimit)
            &&& votes < 64 && last < u64::MAX ==> res is None
        },
{
}

/// Who may close a poll: its creator, as long as it is open.
pub proof fn law_closing_polls(info: PollInfo, supported: bool, me: Id, author: Id)
    ensures
        close_refusal(false, supported, me, author, Some(info)) == Some(NodeError::UnknownGroup),
        close_refusal(true, false, me, author, Some(info)) == Some(NodeError::PollUnsupported),
        me != author ==> close_refusal(true, true, me, author, Some(info)) == Some(
            NodeError::NotPollCreator,
        ),
        close_refusal(true, true, author, author, None) == Some(NodeError::InvalidPoll),
        info.closed ==> close_refusal(true, true, author, author, Some(info)) == Some(
            NodeError::PollClosed,
        ),
        !info.closed ==> close_refusal(true, true, author, author, Some(info)) is None,
{
}

/// Own votes in a poll are counted, and the last revision is the highest among them.
pub proof fn law_own_votes_are_counted(
    records: Seq<PollRecordView>,
    me: Id,
    author: Id,
    id: ContentId,
    n: int,
    i: int,
)
    requires
        0 <= n <= records.len(),
    ensures
        own_votes(records, me, author, id, n) == records.take(n).filter(
            |r: PollRecordView| is_own_vote(r, me, author, id),
        ).len(),
        0 <= i < n && is_own_vote(records[i], me, author, id) ==> records[i].event->revision
            <= last_revision(records, me, author, id, n),
        last_revision(records, me, author, id, n) == 0 || exists|k: int|
            0 <= k < n && is_own_vote(#[trigger] records[k], me, author, id)
                && records[k].event->revision == last_revision(records, me, author, id, n),
    decreases n,
{
    reveal(Seq::filter);
    if n > 0 {
        law_own_votes_are_counted(records, me, author, id, n - 1, i);
        assert(records.take(n).drop_last() =~= records.take(n - 1));
        assert(records.take(n).last() == records[n - 1]);
        if is_own_vote(records[n - 1], me, author, id) {
            assert(is_own_vote(records[n - 1], me, author, id));
        }
    } else {
        assert(records.take(0) =~= Seq::<PollRecordView>::empty());
    }
}

/// A vote is one's own in a poll exactly when one sent it and it names the poll.
pub proof fn law_own_votes(r: PollRecordView, me: Id, author: Id, id: ContentId)
    ensures
        !(r.event is Vote) ==> !is_own_vote(r, me, author, id),
        r.event is Vote ==> is_own_vote(r, me, author, id) == (r.sender == me
            && r.event->Vote_poll_author == author && r.event->Vote_poll_id == id),
{
}

} // verus!
