//! What decoded content is, as far as decisions depend on it, and where it may be sent.

use vstd::prelude::*;

use crate::bytes::{same, ContentId, Id};
use crate::error::{NodeError, Result};
use crate::records::Direction;

verus! {

/// Decoded content without its opaque parts.
#[derive(Clone, Copy, Debug, PartialEq, Eq)]
pub enum Content {
    /// Text from before content had identities.
    LegacyText,
    /// Text.
    Text {
        /// Identity of the content.
        id: ContentId,
    },
    /// An attachment offer.
    Attachment {
        /// Identity of the content.
        id: ContentId,
    },
    /// Text that mentions group members.
    Mention {
        /// Identity of the content.
        id: ContentId,
    },
    /// An edit of earlier content.
    Edit {
        /// Identity of the content.
        id: ContentId,
        /// Author of the edited content.
        target_author: Id,
        /// The edited content.
        target_content_id: ContentId,
        /// Number of the edit.
        revision: u64,
    },
    /// Text that disappears.
    DisappearingText {
        /// Identity of the content.
        id: ContentId,
        /// When it disappears.
        expires_at: u64,
        /// When its envelope stops being worth delivering.
        retention_until: u64,
    },
    /// An attachment that can be opened once.
    ViewOnceAttachment {
        /// Identity of the content.
        id: ContentId,
        /// When it disappears.
        expires_at: u64,
        /// When its envelope stops being worth delivering.
        retention_until: u64,
    },
    /// A poll event.
    Poll {
        /// Identity of the content.
        id: ContentId,
    },
    /// A group authority event.
    GroupAuthority {
        /// Identity of the content.
        id: ContentId,
    },
    /// A call control.
    CallControl,
    /// Content of a kind this version does not know.
    Unsupported {
        /// Format version.
        format_version: u16,
        /// Kind in that format.
        kind: u16,
    },
    /// Content that cannot be read.
    Malformed,
}

/// The identity that content carries.
pub open spec fn identity_of(content: Content) -> Option<ContentId> {
    match content {
        Content::Text { id } => Some(id),
        Content::Attachment { id } => Some(id),
        Content::Mention { id } => Some(id),
        Content::Edit { id, .. } => Some(id),
        Content::DisappearingText { id, .. } => Some(id),
        Content::ViewOnceAttachment { id, .. } => Some(id),
        Content::Poll { id } => Some(id),
        Content::GroupAuthority { id } => Some(id),
        _ => None,
    }
}

/// The identity that content carries.
pub fn content_identity(content: &Content) -> (res: Option<ContentId>)
    ensures
        res == identity_of(*content),
{
    match content {
        Content::Text { id } => Some(*id),
        Content::Attachment { id } => Some(*id),
        Content::Mention { id } => Some(*id),
        Content::Edit { id, .. } => Some(*id),
        Content::DisappearingText { id, .. } => Some(*id),
        Content::ViewOnceAttachment { id, .. } => Some(*id),
        Content::Poll { id } => Some(*id),
        Content::GroupAuthority { id } => Some(*id),
        _ => None,
    }
}

/// The retention that content authenticates for its envelope.
pub open spec fn retention_of(content: Content) -> Option<u64> {
    match content {
        Content::DisappearingText { retention_until, .. } => Some(retention_until),
        Content::ViewOnceAttachment { retention_until, .. } => Some(retention_until),
        _ => None,
    }
}

/// The retention that content authenticates for its envelope.
pub fn content_retention(content: &Content) -> (res: Option<u64>)
    ensures
        res == retention_of(*content),
{
    match content {
        Content::DisappearingText { retention_until, .. } => Some(*retention_until),
        Content::ViewOnceAttachment { retention_until, .. } => Some(*retention_until),
        _ => None,
    }
}

/// Why content cannot be sent as it stands in a pairwise message. Mentions, polls, group
/// authority and call controls never can.
pub open spec fn pairwise_refusal(content: Content) -> Option<NodeError> {
    match content {
        Content::Mention { .. } => Some(NodeError::InvalidMention),
        Content::Poll { .. } => Some(NodeError::InvalidPoll),
        Content::GroupAuthority { .. } => Some(NodeError::InvalidGroupAuthority),
        Content::CallControl => Some(NodeError::InvalidCall),
        _ => None,
    }
}

/// Why an application's body cannot be sent as a message: besides what a pairwise message
/// never holds, edits and ephemeral content have their own ways.
pub open spec fn body_refusal(content: Content) -> Option<NodeError> {
    match content {
        Content::Edit { .. } => Some(NodeError::InvalidEdit),
        Content::DisappearingText { .. } => Some(NodeError::InvalidEphemeral),
        Content::ViewOnceAttachment { .. } => Some(NodeError::InvalidEphemeral),
        _ => pairwise_refusal(content),
    }
}

/// Check that content can be sent in a pairwise message.
pub fn check_pairwise(content: &Content) -> (res: Result<()>)
    ensures
        match res {
            Ok(_) => pairwise_refusal(*content) is None,
            Err(e) => pairwise_refusal(*content) == Some(e),
        },
{
    match content {
        Content::Mention { .. } => Err(NodeError::InvalidMention),
        Content::Poll { .. } => Err(NodeError::InvalidPoll),
        Content::GroupAuthority { .. } => Err(NodeError::InvalidGroupAuthority),
        Content::CallControl => Err(NodeError::InvalidCall),
        _ => Ok(()),
    }
}

/// Check that an application's body can be sent as a message.
pub fn check_body(content: &Content) -> (res: Result<()>)
    ensures
        match res {
            Ok(_) => body_refusal(*content) is None,
            Err(e) => body_refusal(*content) == Some(e),
        },
{
    match content {
        Content::Edit { .. } => Err(NodeError::InvalidEdit),
        Content::DisappearingText { .. } | Content::ViewOnceAttachment { .. } => Err(
            NodeError::InvalidEphemeral,
        ),
        _ => check_pairwise(content),
    }
}

/// A stored message, as far as its content matters.
#[derive(Clone, Copy, Debug, PartialEq, Eq)]
pub struct StoredContent {
    /// Which way it went.
    pub direction: Direction,
    /// What it holds.
    pub content: Content,
}

/// Some inbound message already carries the identity.
pub open spec fn already_received(stored: Seq<StoredContent>, id: ContentId) -> bool {
    exists|i: int|
        0 <= i < stored.len() && (#[trigger] stored[i]).direction == Direction::Inbound
            && identity_of(stored[i].content) == Some(id)
}

/// Whether some inbound message already carries the identity.
pub fn is_already_received(stored: &Vec<StoredContent>, id: &ContentId) -> (res: bool)
    ensures
        res == already_received(stored@, *id),
{
    let mut i: usize = 0;
    while i < stored.len()
        invariant
            i <= stored@.len(),
            forall|k: int|
                0 <= k < i ==> !((#[trigger] stored@[k]).direction == Direction::Inbound
                    && identity_of(stored@[k].content) == Some(*id)),
        decreases stored@.len() - i,
    {
        if stored[i].direction == Direction::Inbound {
            if let Some(known) = content_identity(&stored[i].content) {
                if same(&known, id) {
                    assert(stored@[i as int].direction == Direction::Inbound);
                    return true;
                }
            }
        }
        i = i + 1;
    }
    false
}

// ---- Edits ----

/// The stored message is outbound text with the given identity.
pub open spec fn is_own_text(stored: StoredContent, target: ContentId) -> bool {
    stored.direction == Direction::Outbound && stored.content == (Content::Text { id: target })
}

/// The stored message is an outbound edit of the author's content.
pub open spec fn is_own_edit(stored: StoredContent, me: Id, target: ContentId) -> bool {
    &&& stored.direction == Direction::Outbound
    &&& stored.content matches Content::Edit { target_author, target_content_id, .. }
        && target_author == me && target_content_id == target
}

/// Number of edits of the content among the first `n` messages.
pub open spec fn edit_count(stored: Seq<StoredContent>, me: Id, target: ContentId, n: int) -> int
    decreases n,
{
    if n <= 0 {
        0
    } else {
        edit_count(stored, me, target, n - 1) + if is_own_edit(stored[n - 1], me, target) {
            1int
        } else {
            0int
        }
    }
}

/// Highest number of an edit of the content among the first `n` messages.
pub open spec fn last_revision(stored: Seq<StoredContent>, me: Id, target: ContentId, n: int) -> u64
    decreases n,
{
    if n <= 0 {
        0
    } else {
        let prior = last_revision(stored, me, target, n - 1);
        if is_own_edit(stored[n - 1], me, target) && stored[n - 1].content->Edit_revision > prior {
            stored[n - 1].content->Edit_revision
        } else {
            prior
        }
    }
}

/// Some outbound text has the given identity.
pub open spec fn has_own_text(stored: Seq<StoredContent>, target: ContentId) -> bool {
    exists|i: int| 0 <= i < stored.len() && is_own_text(#[trigger] stored[i], target)
}

/// Why an edit is refused, in the order in which the reasons are looked at.
pub open spec fn edit_refusal(
    stored: Seq<StoredContent>,
    me: Id,
    target_author: Id,
    target: ContentId,
    text_len: usize,
    max_text: usize,
    supported: bool,
    max_edits: usize,
) -> Option<NodeError> {
    let n = stored.len() as int;
    if target_author != me || text_len == 0 || text_len > max_text {
        Some(NodeError::InvalidEdit)
    } else if !supported {
        Some(NodeError::EditUnsupported)
    } else if !has_own_text(stored, target) {
        Some(NodeError::InvalidEdit)
    } else if edit_count(stored, me, target, n) >= max_edits || last_revision(stored, me, target, n)
        == u64::MAX {
        Some(NodeError::EditLimit)
    } else {
        None
    }
}

/// The number of the next edit of this account's own text, or why it is refused.
/// `supported` says whether every device of the peer has a live session and can show
/// edits.
pub fn edit_message(
    stored: &Vec<StoredContent>,
    me: Id,
    target_author: Id,
    target: ContentId,
    text_len: usize,
    max_text: usize,
    supported: bool,
    max_edits: usize,
) -> (res: Result<u64>)
    ensures
        ({
            let refusal = edit_refusal(
                stored@,
                me,
                target_author,
                target,
                text_len,
                max_text,
                supported,
                max_edits,
            );
            match res {
                Ok(revision) => refusal is None && revision == last_revision(
                    stored@,
                    me,
                    target,
                    stored@.len() as int,
                ) + 1,
                Err(e) => refusal == Some(e),
            }
        }),
{
    if !same(&target_author, &me) || text_len == 0 || text_len > max_text {
        return Err(NodeError::InvalidEdit);
    }
    if !supported {
        return Err(NodeError::EditUnsupported);
    }
    let mut found = false;
    let mut count: usize = 0;
    let mut revision: u64 = 0;
    let mut i: usize = 0;
    while i < stored.len()
        invariant
            i <= stored@.len(),
            found == (exists|k: int| 0 <= k < i && is_own_text(#[trigger] stored@[k], target)),
            count == edit_count(stored@, me, target, i as int),
            count <= i,
            revision == last_revision(stored@, me, target, i as int),
        decreases stored@.len() - i,
    {
        let item = stored[i];
        if item.direction == Direction::Outbound {
            match &item.content {
                Content::Text { id } => {
                    if same(id, &target) {
                        found = true;
                        assert(is_own_text(stored@[i as int], target));
                    }
                },
                Content::Edit {
                    target_author: author,
                    target_content_id,
                    revision: number,
                    ..
                } => {
                    if same(author, &me) && same(target_content_id, &target) {
                        count = count + 1;
                        if *number > revision {
                            revision = *number;
                        }
                    }
                },
                _ => {},
            }
        }
        i = i + 1;
    }
    if !found {
        return Err(NodeError::InvalidEdit);
    }
    if count >= max_edits {
        return Err(NodeError::EditLimit);
    }
    if revision == u64::MAX {
        return Err(NodeError::EditLimit);
    }
    Ok(revision + 1)
}

/// Every edit gets a higher number than all earlier edits of the same content.
pub proof fn law_edit_revisions_increase(
    stored: Seq<StoredContent>,
    me: Id,
    target: ContentId,
    n: int,
    k: int,
)
    requires
        0 <= k < n <= stored.len(),
        is_own_edit(stored[k], me, target),
    ensures
        stored[k].content->Edit_revision <= last_revision(stored, me, target, n),
    decreases n,
{
    if k < n - 1 {
        law_edit_revisions_increase(stored, me, target, n - 1, k);
    }
}

// ---- Laws ----

/// Content is known by the identity it carries; what carries none has none.
pub proof fn law_content_identities(content: Content, id: ContentId)
    ensures
        identity_of(Content::Text { id }) == Some(id),
        identity_of(Content::Attachment { id }) == Some(id),
        identity_of(Content::Mention { id }) == Some(id),
        identity_of(Content::Poll { id }) == Some(id),
        identity_of(Content::GroupAuthority { id }) == Some(id),
        content is Edit ==> identity_of(content) == Some(content->Edit_id),
        content is DisappearingText ==> identity_of(content) == Some(content->DisappearingText_id),
        content is ViewOnceAttachment ==> identity_of(content) == Some(
            content->ViewOnceAttachment_id,
        ),
        content is LegacyText || content is CallControl || content is Unsupported
            || content is Malformed ==> identity_of(content) is None,
{
}

/// Only what disappears is retained for a time, and for the time it states.
pub proof fn law_content_retention(content: Content)
    ensures
        content is DisappearingText ==> retention_of(content) == Some(
            content->DisappearingText_retention_until,
        ),
        content is ViewOnceAttachment ==> retention_of(content) == Some(
            content->ViewOnceAttachment_retention_until,
        ),
        !(content is DisappearingText) && !(content is ViewOnceAttachment) ==> retention_of(
            content,
        ) is None,
{
}

/// What has its own way of being sent is no plain message body.
pub proof fn law_message_bodies(content: Content)
    ensures
        content is Edit ==> body_refusal(content) == Some(NodeError::InvalidEdit),
        content is DisappearingText || content is ViewOnceAttachment ==> body_refusal(content)
            == Some(NodeError::InvalidEphemeral),
        content is Mention ==> body_refusal(content) == Some(NodeError::InvalidMention),
        content is Poll ==> body_refusal(content) == Some(NodeError::InvalidPoll),
        content is GroupAuthority ==> body_refusal(content) == Some(
            NodeError::InvalidGroupAuthority,
        ),
        content is CallControl ==> body_refusal(content) == Some(NodeError::InvalidCall),
        content is LegacyText || content is Text || content is Attachment || content is Unsupported
            || content is Malformed ==> body_refusal(content) is None,
{
}

/// The number of edits is the number of stored edits of that message.
pub proof fn law_edits_are_counted(stored: Seq<StoredContent>, me: Id, target: ContentId, n: int)
    requires
        0 <= n <= stored.len(),
    ensures
        edit_count(stored, me, target, n) == stored.take(n).filter(
            |s: StoredContent| is_own_edit(s, me, target),
        ).len(),
    decreases n,
{
    reveal(Seq::filter);
    if n > 0 {
        law_edits_are_counted(stored, me, target, n - 1);
        assert(stored.take(n).drop_last() =~= stored.take(n - 1));
        assert(stored.take(n).last() == stored[n - 1]);
    } else {
        assert(stored.take(0) =~= Seq::<StoredContent>::empty());
    }
}

/// The last revision is that of some stored edit, or zero when there is none.
pub proof fn law_last_revision_is_stored(
    stored: Seq<StoredContent>,
    me: Id,
    target: ContentId,
    n: int,
)
    requires
        0 <= n <= stored.len(),
    ensures
        last_revision(stored, me, target, n) == 0 || exists|k: int|
            0 <= k < n && is_own_edit(#[trigger] stored[k], me, target)
                && stored[k].content->Edit_revision == last_revision(stored, me, target, n),
    decreases n,
{
    if n > 0 {
        law_last_revision_is_stored(stored, me, target, n - 1);
        if is_own_edit(stored[n - 1], me, target) {
            assert(is_own_edit(stored[n - 1], me, target));
        }
    }
}

/// Whether a stored message can be edited: it is one's own text, the new text fits, the peer
/// knows edits, and neither their number nor their revisions are used up.
pub proof fn law_editable_messages(
    stored: Seq<StoredContent>,
    me: Id,
    target_author: Id,
    target: ContentId,
    text_len: usize,
    max_text: usize,
    supported: bool,
    max_edits: usize,
)
    ensures
        ({
            let res = edit_refusal(
                stored,
                me,
                target_author,
                target,
                text_len,
                max_text,
                supported,
                max_edits,
            );
            let n = stored.len() as int;
            let text = 0 < text_len <= max_text;
            let own = exists|i: int|
                0 <= i < stored.len() && (#[trigger] stored[i]).direction == Direction::Outbound
                    && stored[i].content == (Content::Text { id: target });
            let spent = edit_count(stored, me, target, n) >= max_edits || last_revision(
                stored,
                me,
                target,
                n,
            ) == u64::MAX;
            &&& target_author != me ==> res == Some(NodeError::InvalidEdit)
            &&& !text ==> res == Some(NodeError::InvalidEdit)
            &&& target_author == me && text && !supported ==> res == Some(
                NodeError::EditUnsupported,
            )
            &&& target_author == me && text && supported && !own ==> res == Some(
                NodeError::InvalidEdit,
            )
            &&& target_author == me && text && supported && own && spent ==> res == Some(
                NodeError::EditLimit,
            )
            &&& target_author == me && text && supported && own && !spent ==> res is None
        }),
{
    let own = exists|i: int|
        0 <= i < stored.len() && (#[trigger] stored[i]).direction == Direction::Outbound
            && stored[i].content == (Content::Text { id: target });
    if own {
        let i = choose|i: int|
            0 <= i < stored.len() && (#[trigger] stored[i]).direction == Direction::Outbound
                && stored[i].content == (Content::Text { id: target });
        assert(is_own_text(stored[i], target));
    }
    if has_own_text(stored, target) {
        let i = choose|i: int|
            0 <= i < stored.len() && is_own_text(#[trigger] stored[i], target);
        assert(stored[i].direction == Direction::Outbound);
    }
}

/// An edit is one's own exactly when one sent it and it names one's own message.
pub proof fn law_own_edits(stored: StoredContent, me: Id, target: ContentId)
    requires
        stored.content is Edit,
    ensures
        is_own_edit(stored, me, target) <==> stored.direction == Direction::Outbound
            && stored.content->Edit_target_author == me && stored.content->Edit_target_content_id
            == target,
{
}

/// Content has been received before exactly when an arrived row holds its identity.
pub proof fn law_repeats_are_recognised(stored: Seq<StoredContent>, id: ContentId, i: int)
    requires
        0 <= i < stored.len(),
    ensures
        stored[i].direction == Direction::Inbound && stored[i].content == (Content::Text { id })
            ==> already_received(stored, id),
        (forall|k: int|
            0 <= k < stored.len() ==> (#[trigger] stored[k]).direction == Direction::Outbound)
            ==> !already_received(stored, id),
{
    if stored[i].direction == Direction::Inbound && stored[i].content == (Content::Text { id }) {
        assert(identity_of(stored[i].content) == Some(id));
    }
}

} // verus!
