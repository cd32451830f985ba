//! What received content becomes, and where decrypted envelopes go.

use vstd::prelude::*;

use crate::bytes::{
    bytes_before, copy_bytes, id_precedes, lemma_before_irreflexive, lemma_before_total,
    lemma_before_transitive, lemma_same_id, same, zero_id, ContentId, Id,
};
use crate::content::{
    already_received, content_identity, content_retention, identity_of, is_already_received,
    retention_of, Content, StoredContent,
};
use crate::endpoints::{row_of, sender_authorized, EndpointRow};
use crate::error::{NodeError, Result};
use crate::heartbeat::PendingDelete;
use crate::records::{
    ContentStatus, DeliveryState, Direction, EnvelopeKind, EphemeralConversation, EphemeralState,
    Event, MessageRow,
};

verus! {

/// Ephemeral content to note.
#[derive(Clone, Copy, Debug, PartialEq, Eq)]
pub struct EphemeralNote {
    /// Account of the conversation and author.
    pub author: Id,
    /// Identity of the content.
    pub content_id: ContentId,
    /// When it disappears.
    pub expires_at: u64,
    /// It is an attachment that can be opened once.
    pub view_once: bool,
    /// Whether it is still there.
    pub state: EphemeralState,
    /// Its transfer.
    pub transfer: Option<ContentId>,
}

/// What received content becomes.
pub struct PreparedInbound {
    /// The message to store.
    pub message: Option<MessageRow>,
    /// The ephemeral content to note.
    pub ephemeral: Option<EphemeralNote>,
    /// The transfer under which its attachment is offered.
    pub offer: Option<ContentId>,
    /// What is told of it shows its text.
    pub shows_text: bool,
    /// What is told.
    pub events: Vec<Event>,
}

/// Received content is ignored when its envelope claims another retention than it
/// authenticates, when it is a call control, or when its identity is known already.
pub open spec fn is_ignored(
    content: Content,
    envelope_retention: Option<u64>,
    known_ephemeral: bool,
    stored: Seq<StoredContent>,
) -> bool {
    ||| envelope_retention != retention_of(content)
    ||| content is CallControl
    ||| identity_of(content) matches Some(id) && (known_ephemeral || already_received(stored, id))
}

/// The content disappeared before it arrived.
pub open spec fn arrived_late(content: Content, now: u64) -> bool {
    match content {
        Content::DisappearingText { expires_at, .. } => now >= expires_at,
        Content::ViewOnceAttachment { expires_at, .. } => now >= expires_at,
        _ => false,
    }
}

/// The identity under which content is stored: its own where it may stand in a pairwise
/// conversation, else a fresh one.
pub open spec fn stored_id(content: Content, fresh: ContentId) -> ContentId {
    match content {
        Content::Text { id } => id,
        Content::Attachment { id } => id,
        Content::Edit { id, .. } => id,
        Content::DisappearingText { id, .. } => id,
        Content::ViewOnceAttachment { id, .. } => id,
        _ => fresh,
    }
}

/// How content is shown. An edit of someone else's content, and content that belongs into
/// groups, is malformed here.
pub open spec fn status_of(content: Content, peer: Id, transfer: ContentId) -> ContentStatus {
    match content {
        Content::LegacyText => ContentStatus::LegacyText,
        Content::Text { id } => ContentStatus::Text { id },
        Content::Attachment { id } => ContentStatus::Attachment { id, transfer },
        Content::Edit { id, target_author, target_content_id, revision } => if target_author
            == peer {
            ContentStatus::Edit { id, target_author, target_content_id, revision }
        } else {
            ContentStatus::Malformed
        },
        Content::DisappearingText { id, expires_at, .. } => ContentStatus::DisappearingText {
            id,
            expires_at,
        },
        Content::ViewOnceAttachment { id, expires_at, .. } => ContentStatus::ViewOnceAttachment {
            id,
            transfer,
            expires_at,
        },
        Content::Unsupported { format_version, kind } => ContentStatus::Unsupported {
            format_version,
            kind,
        },
        _ => ContentStatus::Malformed,
    }
}

/// Content whose text is shown when it arrives: plain text, framed text, and text that has not
/// disappeared yet. Of everything else nothing is shown.
pub open spec fn has_text(content: Content, now: u64) -> bool {
    match content {
        Content::LegacyText => true,
        Content::Text { .. } => true,
        Content::DisappearingText { expires_at, .. } => now < expires_at,
        _ => false,
    }
}

/// The bytes that are shown of content when it arrives. `text` is the text that was decoded
/// from it, where it holds any.
pub fn event_body(content: &Content, text: &Vec<u8>, now: u64) -> (res: Vec<u8>)
    ensures
        res@ == if has_text(*content, now) {
            text@
        } else {
            Seq::empty()
        },
{
    let shown = match content {
        Content::LegacyText => true,
        Content::Text { .. } => true,
        Content::DisappearingText { expires_at, .. } => now < *expires_at,
        _ => false,
    };
    if shown {
        copy_bytes(text)
    } else {
        Vec::new()
    }
}

/// What is told of stored content: an edit by its author, nothing of another's edit, and
/// everything else as a message.
pub open spec fn arrival_events(
    content: Content,
    peer: Id,
    id: ContentId,
    transfer: ContentId,
    now: u64,
) -> Seq<Event> {
    match content {
        Content::Edit { target_author, target_content_id, .. } => if target_author == peer {
            seq![Event::MessageEdited { peer, target_content_id }]
        } else {
            Seq::empty()
        },
        _ => seq![
            Event::MessageReceived {
                peer,
                id,
                timestamp: now,
                content: status_of(content, peer, transfer),
            },
        ],
    }
}

/// The ephemeral content to note.
pub open spec fn note_of(content: Content, peer: Id, transfer: ContentId, now: u64) -> Option<
    EphemeralNote,
> {
    let late = arrived_late(content, now);
    let state = if late {
        EphemeralState::Expired
    } else {
        EphemeralState::Active
    };
    match content {
        Content::DisappearingText { id, expires_at, .. } => Some(
            EphemeralNote {
                author: peer,
                content_id: id,
                expires_at,
                view_once: false,
                state,
                transfer: None,
            },
        ),
        Content::ViewOnceAttachment { id, expires_at, .. } => Some(
            EphemeralNote {
                author: peer,
                content_id: id,
                expires_at,
                view_once: true,
                state,
                transfer: if late {
                    None
                } else {
                    Some(transfer)
                },
            },
        ),
        _ => None,
    }
}

/// Attachments are offered unless they disappeared before they arrived.
pub open spec fn offers(content: Content, now: u64) -> bool {
    content is Attachment || (content is ViewOnceAttachment && !arrived_late(content, now))
}

/// Work out what content received from `peer` becomes. `fresh` and `transfer` are newly
/// drawn identities, used where the content needs them; `known_ephemeral` says whether
/// ephemeral content with its identity was noted before.
pub fn prepare_inbound(
    peer: Id,
    content: &Content,
    envelope_retention: Option<u64>,
    known_ephemeral: bool,
    stored: &Vec<StoredContent>,
    fresh: ContentId,
    transfer: ContentId,
    now: u64,
) -> (res: PreparedInbound)
    ensures
        if is_ignored(*content, envelope_retention, known_ephemeral, stored@) {
            &&& !res.shows_text
            &&& res.message is None
            &&& res.ephemeral is None
            &&& res.offer is None
            &&& res.events@ == Seq::<Event>::empty()
        } else {
            let id = stored_id(*content, fresh);
            &&& res.shows_text == has_text(*content, now)
            &&& res.ephemeral == note_of(*content, peer, transfer, now)
            &&& res.offer == if offers(*content, now) {
                Some(transfer)
            } else {
                None
            }
            &&& if arrived_late(*content, now) {
                &&& res.message is None
                &&& res.events@ == seq![
                    Event::EphemeralRemoved {
                        conversation: EphemeralConversation::Pairwise(peer),
                        author: peer,
                        content_id: id,
                        reason: EphemeralState::Expired,
                    },
                ]
            } else {
                &&& res.message == Some(
                    MessageRow {
                        id,
                        peer,
                        direction: Direction::Inbound,
                        state: DeliveryState::Received,
                        timestamp: now,
                        wire_id: None,
                    },
                )
                &&& res.events@ == arrival_events(*content, peer, id, transfer, now)
            }
        },
{
    let nothing = PreparedInbound {
        message: None,
        ephemeral: None,
        offer: None,
        shows_text: false,
        events: Vec::new(),
    };
    assert(nothing.events@ =~= Seq::<Event>::empty());
    let authentic = match (envelope_retention, content_retention(content)) {
        (Some(a), Some(b)) => a == b,
        (None, None) => true,
        _ => false,
    };
    if !authentic {
        return nothing;
    }
    if let Some(id) = content_identity(content) {
        if known_ephemeral || is_already_received(stored, &id) {
            return nothing;
        }
    }
    let mut events: Vec<Event> = Vec::new();
    let mut ephemeral: Option<EphemeralNote> = None;
    let mut offer: Option<ContentId> = None;
    let mut late = false;
    let mut id = fresh;
    let mut status = ContentStatus::Malformed;
    let mut silent = false;
    let mut shows_text = false;
    match content {
        Content::LegacyText => {
            shows_text = true;
            status = ContentStatus::LegacyText;
        },
        Content::Text { id: own } => {
            id = *own;
            shows_text = true;
            status = ContentStatus::Text { id: *own };
        },
        Content::Attachment { id: own } => {
            id = *own;
            offer = Some(transfer);
            status = ContentStatus::Attachment { id: *own, transfer };
        },
        Content::Edit { id: own, target_author, target_content_id, revision } => {
            id = *own;
            silent = true;
            if same(target_author, &peer) {
                events.push(
                    Event::MessageEdited { peer, target_content_id: *target_content_id },
                );
            }
        },
        Content::DisappearingText { id: own, expires_at, .. } => {
            id = *own;
            late = now >= *expires_at;
            shows_text = !late;
            ephemeral = Some(
                EphemeralNote {
                    author: peer,
                    content_id: *own,
                    expires_at: *expires_at,
                    view_once: false,
                    state: if late { EphemeralState::Expired } else { EphemeralState::Active },
                    transfer: None,
                },
            );
            status = ContentStatus::DisappearingText { id: *own, expires_at: *expires_at };
        },
        Content::ViewOnceAttachment { id: own, expires_at, .. } => {
            id = *own;
            late = now >= *expires_at;
            if !late {
                offer = Some(transfer);
            }
            ephemeral = Some(
                EphemeralNote {
                    author: peer,
                    content_id: *own,
                    expires_at: *expires_at,
                    view_once: true,
                    state: if late { EphemeralState::Expired } else { EphemeralState::Active },
                    transfer: offer,
                },
            );
            status = ContentStatus::ViewOnceAttachment {
                id: *own,
                transfer,
                expires_at: *expires_at,
            };
        },
        Content::CallControl => {
            return nothing;
        },
        Content::Unsupported { format_version, kind } => {
            status = ContentStatus::Unsupported { format_version: *format_version, kind: *kind };
        },
        _ => {},
    }
    if late {
        events.push(
            Event::EphemeralRemoved {
                conversation: EphemeralConversation::Pairwise(peer),
                author: peer,
                content_id: id,
                reason: EphemeralState::Expired,
            },
        );
        assert(events@.len() == 1);
        return PreparedInbound { message: None, ephemeral, offer, shows_text, events };
    }
    if !silent {
        events.push(Event::MessageReceived { peer, id, timestamp: now, content: status });
    }
    assert(events@ =~= arrival_events(*content, peer, id, transfer, now));
    PreparedInbound {
        message: Some(
            MessageRow {
                id,
                peer,
                direction: Direction::Inbound,
                state: DeliveryState::Received,
                timestamp: now,
                wire_id: None,
            },
        ),
        ephemeral,
        offer,
        shows_text,
        events,
    }
}

/// Content that was received once is ignored from then on: a second copy with the same
/// identity changes nothing, whatever else it holds.
pub proof fn law_received_content_is_not_processed_again(
    first: Content,
    again: Content,
    envelope_retention: Option<u64>,
    known_ephemeral: bool,
    stored: Seq<StoredContent>,
)
    requires
        identity_of(first) is Some,
        identity_of(again) == identity_of(first),
    ensures
        is_ignored(
            again,
            envelope_retention,
            known_ephemeral,
            stored.push(StoredContent { direction: Direction::Inbound, content: first }),
        ),
{
    let after = stored.push(StoredContent { direction: Direction::Inbound, content: first });
    assert(after[stored.len() as int].direction == Direction::Inbound);
}

/// Content that disappeared before it arrived is never stored as a message.
pub proof fn law_late_ephemeral_content_is_not_offered(content: Content, now: u64)
    requires
        arrived_late(content, now),
    ensures
        !offers(content, now),
        forall|peer: Id, transfer: ContentId|
            (#[trigger] note_of(content, peer, transfer, now)) matches Some(note) && note.state
                == EphemeralState::Expired && note.transfer is None,
{
}

// ---- Decrypted envelopes ----

/// What the body of a decrypted control is.
#[derive(Clone, Copy, Debug, PartialEq, Eq, Structural)]
pub enum ControlClass {
    /// Attachment data.
    AttachmentBulk,
    /// Wake capabilities.
    Wake,
    /// Rendezvous providers.
    Rendezvous,
    /// A discovery capability.
    Discovery,
    /// Content capabilities.
    Capabilities,
    /// A receipt.
    Receipt,
    /// Nothing known.
    Unknown,
}

/// What happens with a decrypted envelope.
#[derive(Clone, Copy, Debug, PartialEq, Eq, Structural)]
pub enum RatchetAction {
    /// It waits for a pass that handles calls.
    Later,
    /// The call control is applied, or dropped when its envelope claims a retention.
    Call {
        /// Whether it is applied.
        apply: bool,
    },
    /// The content is received.
    Receive,
    /// The control is handled by its class.
    Control(ControlClass),
    /// The group control is put aside.
    DeferGroupControl,
    /// The envelope does not belong here.
    Misrouted,
}

/// Where a decrypted envelope goes. Calls wait during a wake collection.
pub open spec fn ratchet_action(
    kind: EnvelopeKind,
    is_call: bool,
    class: ControlClass,
    collecting_wake: bool,
    retained: bool,
) -> RatchetAction {
    match kind {
        EnvelopeKind::Message => if is_call {
            if collecting_wake {
                RatchetAction::Later
            } else {
                RatchetAction::Call { apply: !retained }
            }
        } else {
            RatchetAction::Receive
        },
        EnvelopeKind::Receipt => RatchetAction::Control(class),
        EnvelopeKind::GroupControl => RatchetAction::DeferGroupControl,
        _ => RatchetAction::Misrouted,
    }
}

/// Where a decrypted envelope goes.
pub fn route_ratchet(
    kind: EnvelopeKind,
    is_call: bool,
    class: ControlClass,
    collecting_wake: bool,
    retained: bool,
) -> (res: RatchetAction)
    ensures
        res == ratchet_action(kind, is_call, class, collecting_wake, retained),
{
    match kind {
        EnvelopeKind::Message => if is_call {
            if collecting_wake {
                RatchetAction::Later
            } else {
                RatchetAction::Call { apply: !retained }
            }
        } else {
            RatchetAction::Receive
        },
        EnvelopeKind::Receipt => RatchetAction::Control(class),
        EnvelopeKind::GroupControl => RatchetAction::DeferGroupControl,
        _ => RatchetAction::Misrouted,
    }
}

/// How far an envelope of a session could be opened.
#[derive(Clone, Copy, Debug, PartialEq, Eq, Structural)]
pub struct RatchetOpening {
    /// Its delivery token is that of a session.
    pub matched: bool,
    /// Its body is a ratchet message.
    pub decoded: bool,
    /// The session is on record.
    pub stored: bool,
    /// The session decrypts it.
    pub decrypted: bool,
    /// What it decrypts to is padded as it should be.
    pub unpadded: bool,
}

/// What happens with an envelope of a session.
#[derive(Clone, Copy, Debug, PartialEq, Eq, Structural)]
pub enum RatchetStep {
    /// It is kept: its session may come up later.
    KeepForLater,
    /// It is retired, and the session stays as it was.
    Retire,
    /// The session moves on, and nothing else.
    AdvanceOnly,
    /// The session moves on, and what it says is acted on.
    Act(RatchetAction),
}

/// What happens with an envelope of a session. The session moves on exactly when the
/// envelope was decrypted and is dealt with now.
pub open spec fn ratchet_step(
    opening: RatchetOpening,
    kind: EnvelopeKind,
    is_call: bool,
    class: ControlClass,
    collecting_wake: bool,
    retained: bool,
) -> Option<RatchetStep> {
    if !opening.matched {
        Some(RatchetStep::KeepForLater)
    } else if !opening.decoded {
        Some(RatchetStep::Retire)
    } else if !opening.stored {
        None
    } else if !opening.decrypted {
        Some(RatchetStep::Retire)
    } else if !opening.unpadded {
        Some(RatchetStep::AdvanceOnly)
    } else {
        match ratchet_action(kind, is_call, class, collecting_wake, retained) {
            RatchetAction::Later => Some(RatchetStep::KeepForLater),
            action => Some(RatchetStep::Act(action)),
        }
    }
}

/// What happens with an envelope of a session. A session that is known but not on record is
/// an error.
pub fn consume_ratchet(
    opening: RatchetOpening,
    kind: EnvelopeKind,
    is_call: bool,
    class: ControlClass,
    collecting_wake: bool,
    retained: bool,
) -> (res: Result<RatchetStep>)
    ensures
        match res {
            Ok(step) => ratchet_step(opening, kind, is_call, class, collecting_wake, retained)
                == Some(step),
            Err(e) => e == NodeError::CorruptState && ratchet_step(
                opening,
                kind,
                is_call,
                class,
                collecting_wake,
                retained,
            ) is None,
        },
{
    if !opening.matched {
        return Ok(RatchetStep::KeepForLater);
    }
    if !opening.decoded {
        return Ok(RatchetStep::Retire);
    }
    if !opening.stored {
        return Err(NodeError::CorruptState);
    }
    if !opening.decrypted {
        return Ok(RatchetStep::Retire);
    }
    if !opening.unpadded {
        return Ok(RatchetStep::AdvanceOnly);
    }
    match route_ratchet(kind, is_call, class, collecting_wake, retained) {
        RatchetAction::Later => Ok(RatchetStep::KeepForLater),
        action => Ok(RatchetStep::Act(action)),
    }
}

/// What became of an envelope.
#[derive(Clone, Copy, Debug, PartialEq, Eq, Structural)]
pub enum Consumed {
    /// It is dealt with, together with where it was put aside.
    DoneAtomic,
    /// It is rejected, together with where it was put aside.
    RejectedAtomic,
    /// It cannot be dealt with yet.
    Later,
}

/// What acting on a decrypted envelope comes to.
#[derive(Clone, Copy, Debug, PartialEq, Eq, Structural)]
pub struct Effect {
    /// The control is not accepted.
    pub refused: bool,
    /// What is shown changes.
    pub changes: bool,
    /// The group control is kept for later.
    pub keeps_control: bool,
}

/// What is committed, all at once, with an envelope of a session.
#[derive(Clone, Copy, Debug, PartialEq, Eq)]
pub struct ReceiveCommit {
    /// The session moves on.
    pub advances: bool,
    /// The envelope counts as consumed.
    pub seen: ContentId,
    /// Where it was put aside.
    pub delete_pending: Option<PendingDelete>,
    /// A receipt for it is queued, and can be repeated.
    pub acknowledges: bool,
    /// What it says is put aside, to be worked off later.
    pub defers: bool,
    /// What is shown changes.
    pub presentation_changed: bool,
}

/// Where an envelope was put aside.
pub open spec fn put_aside(pending: Option<i64>, content_id: ContentId) -> Option<PendingDelete> {
    match pending {
        Some(sequence) => Some(PendingDelete { sequence, content_id }),
        None => None,
    }
}

/// Where an envelope was put aside.
pub fn pending_delete(pending: Option<i64>, content_id: ContentId) -> (res: Option<PendingDelete>)
    ensures
        res == put_aside(pending, content_id),
{
    match pending {
        Some(sequence) => Some(PendingDelete { sequence, content_id }),
        None => None,
    }
}

/// What is committed with an envelope that is retired and leads to nothing else.
pub open spec fn terminal_commit(content_id: ContentId, pending: Option<i64>) -> ReceiveCommit {
    ReceiveCommit {
        advances: false,
        seen: content_id,
        delete_pending: put_aside(pending, content_id),
        acknowledges: false,
        defers: false,
        presentation_changed: false,
    }
}

/// What is committed with an envelope of a session.
pub open spec fn commit_of(
    step: RatchetStep,
    content_id: ContentId,
    pending: Option<i64>,
    effect: Effect,
) -> Option<ReceiveCommit> {
    let terminal = terminal_commit(content_id, pending);
    let base = ReceiveCommit { advances: true, ..terminal };
    match step {
        RatchetStep::KeepForLater => None,
        RatchetStep::Retire => Some(terminal),
        RatchetStep::AdvanceOnly => Some(base),
        RatchetStep::Act(RatchetAction::Receive) => Some(
            ReceiveCommit { acknowledges: true, presentation_changed: effect.changes, ..base },
        ),
        RatchetStep::Act(RatchetAction::Call { apply }) => Some(
            ReceiveCommit { presentation_changed: apply, ..base },
        ),
        RatchetStep::Act(RatchetAction::DeferGroupControl) => Some(
            ReceiveCommit {
                defers: effect.keeps_control,
                presentation_changed: effect.changes,
                ..base
            },
        ),
        RatchetStep::Act(RatchetAction::Control(class)) => match class {
            ControlClass::AttachmentBulk => Some(ReceiveCommit { defers: true, ..base }),
            ControlClass::Unknown => Some(base),
            ControlClass::Receipt => Some(
                ReceiveCommit { presentation_changed: effect.changes, ..base },
            ),
            ControlClass::Capabilities => Some(
                if effect.refused {
                    terminal
                } else {
                    base
                },
            ),
            _ => Some(
                if effect.refused {
                    terminal
                } else {
                    ReceiveCommit { presentation_changed: effect.changes, ..base }
                },
            ),
        },
        _ => None,
    }
}

/// What became of an envelope, going by what is committed with it: what is retired without
/// moving the session on was rejected.
pub open spec fn consumed_as(commit: Option<ReceiveCommit>) -> Consumed {
    match commit {
        None => Consumed::Later,
        Some(commit) => if commit.advances {
            Consumed::DoneAtomic
        } else {
            Consumed::RejectedAtomic
        },
    }
}

/// What is committed with an envelope that is retired and leads to nothing else.
pub fn commit_terminal_input(content_id: ContentId, pending: Option<i64>) -> (res: (
    ReceiveCommit,
    Consumed,
))
    ensures
        res.0 == terminal_commit(content_id, pending),
        res.1 == Consumed::RejectedAtomic,
{
    let commit = ReceiveCommit {
        advances: false,
        seen: content_id,
        delete_pending: pending_delete(pending, content_id),
        acknowledges: false,
        defers: false,
        presentation_changed: false,
    };
    (commit, Consumed::RejectedAtomic)
}

/// Work out what is committed with an envelope of a session, and what became of it.
pub fn receive_commit(
    step: RatchetStep,
    content_id: ContentId,
    pending: Option<i64>,
    effect: Effect,
) -> (res: (Option<ReceiveCommit>, Consumed))
    requires
        step != RatchetStep::Act(RatchetAction::Misrouted),
    ensures
        res.0 == commit_of(step, content_id, pending, effect),
        res.1 == consumed_as(res.0),
{
    let (terminal, rejected) = commit_terminal_input(content_id, pending);
    let mut commit = terminal;
    commit.advances = true;
    match step {
        RatchetStep::KeepForLater => {
            return (None, Consumed::Later);
        },
        RatchetStep::Retire => {
            return (Some(terminal), rejected);
        },
        RatchetStep::AdvanceOnly => {},
        RatchetStep::Act(action) => {
            match action {
                RatchetAction::Later | RatchetAction::Misrouted => {
                    return (None, Consumed::Later);
                },
                RatchetAction::Receive => {
                    commit.acknowledges = true;
                    commit.presentation_changed = effect.changes;
                },
                RatchetAction::Call { apply } => {
                    commit.presentation_changed = apply;
                },
                RatchetAction::DeferGroupControl => {
                    commit.defers = effect.keeps_control;
                    commit.presentation_changed = effect.changes;
                },
                RatchetAction::Control(class) => {
                    match class {
                        ControlClass::AttachmentBulk => {
                            commit.defers = true;
                        },
                        ControlClass::Unknown => {},
                        ControlClass::Receipt => {
                            commit.presentation_changed = effect.changes;
                        },
                        ControlClass::Capabilities => {
                            if effect.refused {
                                return (Some(terminal), rejected);
                            }
                        },
                        ControlClass::Wake | ControlClass::Rendezvous | ControlClass::Discovery => {
                            if effect.refused {
                                return (Some(terminal), rejected);
                            }
                            commit.presentation_changed = effect.changes;
                        },
                    }
                },
            }
        },
    }
    (Some(commit), Consumed::DoneAtomic)
}

/// Whatever is done with an envelope, it counts as consumed from then on, and where it was
/// put aside is cleared in the same commit: nothing is processed twice or left behind.
pub proof fn law_commits_retire_their_envelope(
    step: RatchetStep,
    content_id: ContentId,
    pending: Option<i64>,
    effect: Effect,
)
    requires
        commit_of(step, content_id, pending, effect) is Some,
    ensures
        commit_of(step, content_id, pending, effect)->0.seen == content_id,
        commit_of(step, content_id, pending, effect)->0.delete_pending == put_aside(
            pending,
            content_id,
        ),
{
}

/// A receipt is sent exactly for content that was decrypted and received.
pub proof fn law_receipts_need_content(
    step: RatchetStep,
    content_id: ContentId,
    pending: Option<i64>,
    effect: Effect,
)
    requires
        commit_of(step, content_id, pending, effect) is Some,
    ensures
        commit_of(step, content_id, pending, effect)->0.acknowledges <==> step == RatchetStep::Act(
            RatchetAction::Receive,
        ),
{
}

/// What is refused leaves no trace but that it counts as consumed: the session stays where it
/// was, nothing is sent and nothing is shown.
pub proof fn law_refused_controls_change_nothing(
    class: ControlClass,
    content_id: ContentId,
    pending: Option<i64>,
    effect: Effect,
)
    requires
        effect.refused,
        class == ControlClass::Wake || class == ControlClass::Rendezvous || class
            == ControlClass::Discovery || class == ControlClass::Capabilities,
    ensures
        commit_of(RatchetStep::Act(RatchetAction::Control(class)), content_id, pending, effect)
            == Some(terminal_commit(content_id, pending)),
{
}

/// What cannot be decrypted never moves a session on, and is never acted on.
pub proof fn law_undecryptable_input_changes_no_session(
    opening: RatchetOpening,
    kind: EnvelopeKind,
    is_call: bool,
    class: ControlClass,
    collecting_wake: bool,
    retained: bool,
)
    requires
        !opening.decrypted,
    ensures
        match ratchet_step(opening, kind, is_call, class, collecting_wake, retained) {
            Some(step) => step == RatchetStep::KeepForLater || step == RatchetStep::Retire,
            None => true,
        },
{
}

/// Whether a control that speaks for a device is from that device: it names exactly the
/// session it came over, and its sender is a live device of the manifest that it names.
pub fn accept_device_control(
    claimed_account: &Id,
    claimed_device: &Id,
    authority_generation: u64,
    peer: &Id,
    device: &Id,
    rows: &Vec<EndpointRow>,
) -> (res: bool)
    ensures
        ({
            let at = row_of(rows@, *device, 0);
            res == (*claimed_account == *peer && *claimed_device == *device && at < rows@.len()
                && rows@[at].revoked_at is None && rows@[at].manifest_generation
                == authority_generation)
        }),
{
    same(claimed_account, peer) && same(claimed_device, device) && sender_authorized(
        rows,
        device,
        authority_generation,
    )
}

/// What a provider set of the peer asks for.
#[derive(Clone, Copy, Debug, PartialEq, Eq, Structural)]
pub struct ProviderSetReply {
    /// Answer with the own set.
    pub advertise: bool,
    /// Ask for a new handshake, which sets up rendezvous.
    pub rehandshake: bool,
    /// Look up the peer's routes.
    pub refresh: bool,
}

/// What a provider set of the peer asks for: the own set once per session, a new handshake
/// from the device with the smaller identity where rendezvous is not set up yet, and a
/// lookup where something changed.
pub fn provider_set_reply(
    local_device: &Id,
    peer_device: &Id,
    has_own_set: bool,
    advertised: bool,
    set_up: bool,
    changed: bool,
) -> (res: ProviderSetReply)
    ensures
        res.advertise == (has_own_set && !advertised),
        res.rehandshake == (!set_up && bytes_before(local_device@, peer_device@)),
        res.refresh == changed,
{
    ProviderSetReply {
        advertise: has_own_set && !advertised,
        rehandshake: !set_up && id_precedes(local_device, peer_device),
        refresh: changed,
    }
}

/// Of two devices without rendezvous exactly one asks for a new handshake.
pub proof fn law_one_side_asks_for_a_handshake(a: Id, b: Id)
    requires
        a != b,
    ensures
        bytes_before(a@, b@) != bytes_before(b@, a@),
{
    lemma_before_total(a@, b@, 0);
    if a@ =~= b@ {
        lemma_same_id(a, b);
    }
    if bytes_before(a@, b@) && bytes_before(b@, a@) {
        lemma_before_transitive(a@, b@, a@, 0);
        lemma_before_irreflexive(a@, 0);
    }
}

/// What is told when wake capabilities of one generation contradict each other: once, when
/// the contradiction is found.
pub fn wake_conflict_event(
    peer: Id,
    device: Id,
    generation: u64,
    conflict_generation: Option<u64>,
    changed: bool,
) -> (res: Option<Event>)
    ensures
        res == if conflict_generation == Some(generation) && changed {
            Some(Event::WakeConflict { peer, device, generation })
        } else {
            None
        },
{
    match conflict_generation {
        Some(g) => if g == generation && changed {
            Some(Event::WakeConflict { peer, device, generation })
        } else {
            None
        },
        None => None,
    }
}

/// Who a wake control is from and for.
#[derive(Clone, Copy, Debug, PartialEq, Eq)]
pub struct WakeControlHead {
    /// Account of the sender.
    pub sender_account: Id,
    /// Device of the sender.
    pub sender_device: Id,
    /// Account of the recipient.
    pub recipient_account: Id,
    /// Device of the recipient.
    pub recipient_device: Id,
    /// Generation of the manifest that authorizes the sender.
    pub authority_generation: u64,
}

/// Every expiry lies ahead, but not further than capabilities may live.
pub open spec fn expiries_ok(expiries: Seq<u64>, max_lifetime: u64, now: u64) -> bool {
    forall|i: int|
        0 <= i < expiries.len() ==> now < (#[trigger] expiries[i]) && expiries[i] <= now
            + max_lifetime
}

/// A wake control is accepted when it names exactly the session it came over, its sender is
/// a live authorized device, and all its capabilities are current.
pub fn accept_wake_control(
    head: &WakeControlHead,
    peer: Id,
    device: Id,
    account: Id,
    local_device: Id,
    rows: &Vec<EndpointRow>,
    expiries: &Vec<u64>,
    max_lifetime: u64,
    now: u64,
) -> (res: bool)
    ensures
        ({
            let at = row_of(rows@, device, 0);
            res == (head.sender_account == peer && head.sender_device == device
                && head.recipient_account == account && head.recipient_device == local_device
                && at < rows@.len() && rows@[at].revoked_at is None && rows@[at].manifest_generation
                == head.authority_generation && expiries_ok(expiries@, max_lifetime, now))
        }),
{
    if !(same(&head.sender_account, &peer) && same(&head.sender_device, &device) && same(
        &head.recipient_account,
        &account,
    ) && same(&head.recipient_device, &local_device)) {
        return false;
    }
    if !sender_authorized(rows, &device, head.authority_generation) {
        return false;
    }
    let mut i: usize = 0;
    while i < expiries.len()
        invariant
            i <= expiries@.len(),
            forall|k: int|
                0 <= k < i ==> now < (#[trigger] expiries@[k]) && expiries@[k] <= now
                    + max_lifetime,
        decreases expiries@.len() - i,
    {
        if expiries[i] <= now || expiries[i] > now.saturating_add(max_lifetime) {
            assert(!(now < expiries@[i as int] && expiries@[i as int] <= now + max_lifetime));
            return false;
        }
        i = i + 1;
    }
    true
}

/// What a wake control comes to. An accepted one needs a record of the session that it came
/// over: `record` says, where there is one, whether it is of that session. `replaced` says, where
/// the set on record could be replaced, whether that changed it, and in which generation sets
/// contradict each other then.
pub fn settle_wake_control(
    accepted: bool,
    record: Option<bool>,
    replaced: Option<(bool, Option<u64>)>,
    generation: u64,
) -> (res: Result<Effect>)
    ensures
        if !accepted {
            res == Ok::<Effect, NodeError>(
                Effect { refused: true, changes: false, keeps_control: false },
            )
        } else if record != Some(true) {
            res == Err::<Effect, NodeError>(NodeError::CorruptState)
        } else {
            match replaced {
                None => res == Ok::<Effect, NodeError>(
                    Effect { refused: true, changes: false, keeps_control: false },
                ),
                Some((changed, conflict)) => res == Ok::<Effect, NodeError>(
                    Effect {
                        refused: false,
                        changes: changed && conflict == Some(generation),
                        keeps_control: false,
                    },
                ),
            }
        },
{
    let refused = Effect { refused: true, changes: false, keeps_control: false };
    if !accepted {
        return Ok(refused);
    }
    match record {
        Some(true) => {},
        _ => {
            return Err(NodeError::CorruptState);
        },
    }
    match replaced {
        None => Ok(refused),
        Some((changed, conflict)) => {
            let told = match conflict {
                Some(at) => at == generation,
                None => false,
            };
            Ok(Effect { refused: false, changes: changed && told, keeps_control: false })
        },
    }
}

/// What is told when provider sets of a peer contradict each other. No single provider is to
/// blame.
pub fn provider_set_event(peer: Id, device: Id, conflict: bool) -> (res: Option<Event>)
    ensures
        res == if conflict {
            Some(Event::RendezvousConflict { peer, device, provider: zero_id() })
        } else {
            None
        },
{
    if conflict {
        Some(Event::RendezvousConflict { peer, device, provider: [0u8; 32] })
    } else {
        None
    }
}

/// Whether received content changes what is shown.
pub fn changes_presentation(prepared: &PreparedInbound) -> (res: bool)
    ensures
        res == (prepared.events@.len() > 0 || prepared.offer is Some || prepared.ephemeral
            is Some),
{
    prepared.events.len() > 0 || prepared.offer.is_some() || prepared.ephemeral.is_some()
}

// ---- Sealed envelopes ----

/// What happens with a sealed envelope.
#[derive(Clone, Copy, Debug, PartialEq, Eq, Structural)]
pub enum ConsumeAction {
    /// It was consumed before: the receipt is sent once more.
    RepeatReceipt,
    /// It was consumed before, or cannot be anything: it is retired.
    Retire,
    /// It was consumed before and nothing is left to retire.
    Done,
    /// It is a piece of another envelope.
    Reassemble,
    /// It is a first flight.
    Handshake,
    /// It belongs to a session.
    Ratchet,
    /// It belongs to a group.
    Group,
}

/// What happens with a sealed envelope. Duplicates are dropped here, after repeating the
/// receipt where one is still owed; pieces never nest.
pub open spec fn consume_action(
    kind: EnvelopeKind,
    seen: bool,
    receipt_owed: bool,
    from_pending: bool,
    nested: bool,
) -> ConsumeAction {
    if seen {
        if receipt_owed {
            ConsumeAction::RepeatReceipt
        } else if from_pending {
            ConsumeAction::Retire
        } else {
            ConsumeAction::Done
        }
    } else {
        match kind {
            EnvelopeKind::Fragment => if nested {
                ConsumeAction::Retire
            } else {
                ConsumeAction::Reassemble
            },
            EnvelopeKind::Handshake => ConsumeAction::Handshake,
            EnvelopeKind::GroupMessage => ConsumeAction::Group,
            _ => ConsumeAction::Ratchet,
        }
    }
}

/// What happens with a sealed envelope. `receipt_owed` says whether its receipt is to be
/// repeated to a peer with a session, `from_pending` whether it was put aside before,
/// `nested` whether it was put together from pieces.
pub fn consume(
    kind: EnvelopeKind,
    seen: bool,
    receipt_owed: bool,
    from_pending: bool,
    nested: bool,
) -> (res: ConsumeAction)
    ensures
        res == consume_action(kind, seen, receipt_owed, from_pending, nested),
{
    if seen {
        if receipt_owed {
            ConsumeAction::RepeatReceipt
        } else if from_pending {
            ConsumeAction::Retire
        } else {
            ConsumeAction::Done
        }
    } else {
        match kind {
            EnvelopeKind::Fragment => if nested {
                ConsumeAction::Retire
            } else {
                ConsumeAction::Reassemble
            },
            EnvelopeKind::Handshake => ConsumeAction::Handshake,
            EnvelopeKind::GroupMessage => ConsumeAction::Group,
            EnvelopeKind::Message | EnvelopeKind::Receipt | EnvelopeKind::GroupControl =>
                ConsumeAction::Ratchet,
        }
    }
}

/// An envelope that was consumed before is never processed as new.
pub proof fn law_consumed_envelopes_are_not_processed_again(
    kind: EnvelopeKind,
    receipt_owed: bool,
    from_pending: bool,
    nested: bool,
)
    ensures
        ({
            let action = consume_action(kind, true, receipt_owed, from_pending, nested);
            action == ConsumeAction::RepeatReceipt || action == ConsumeAction::Retire || action
                == ConsumeAction::Done
        }),
{
}

// ---- Laws of receiving ----

/// What a session decrypted is acted on as what it is: a control by the class that was decoded,
/// content as content, a group control by putting it aside. A call is applied, unless its
/// envelope claims a retention or a wake collection leaves it for later.
pub proof fn law_opened_envelopes_are_acted_on(
    opening: RatchetOpening,
    class: ControlClass,
    collecting_wake: bool,
    retained: bool,
    is_call: bool,
)
    requires
        opening.matched,
        opening.decoded,
        opening.stored,
        opening.decrypted,
        opening.unpadded,
    ensures
        ratchet_step(opening, EnvelopeKind::Receipt, is_call, class, collecting_wake, retained)
            == Some(RatchetStep::Act(RatchetAction::Control(class))),
        ratchet_step(
            opening,
            EnvelopeKind::GroupControl,
            is_call,
            class,
            collecting_wake,
            retained,
        ) == Some(RatchetStep::Act(RatchetAction::DeferGroupControl)),
        ratchet_step(opening, EnvelopeKind::Message, false, class, collecting_wake, retained)
            == Some(RatchetStep::Act(RatchetAction::Receive)),
        ratchet_step(opening, EnvelopeKind::Message, true, class, true, retained) == Some(
            RatchetStep::KeepForLater,
        ),
        ratchet_step(opening, EnvelopeKind::Message, true, class, false, retained) == Some(
            RatchetStep::Act(RatchetAction::Call { apply: !retained }),
        ),
{
}

/// How far an envelope could be opened decides what becomes of it: without a session it is kept,
/// what is no ratchet message or does not decrypt is retired with the session as it was, and
/// what decrypts to nothing only moves the session on. A session that is known but not on record
/// is the one error.
pub proof fn law_openings_decide(
    opening: RatchetOpening,
    kind: EnvelopeKind,
    is_call: bool,
    class: ControlClass,
    collecting_wake: bool,
    retained: bool,
)
    ensures
        ({
            let step = ratchet_step(opening, kind, is_call, class, collecting_wake, retained);
            &&& !opening.matched ==> step == Some(RatchetStep::KeepForLater)
            &&& opening.matched && !opening.decoded ==> step == Some(RatchetStep::Retire)
            &&& step is None <==> opening.matched && opening.decoded && !opening.stored
            &&& opening.matched && opening.decoded && opening.stored && !opening.decrypted ==> step
                == Some(RatchetStep::Retire)
            &&& opening.matched && opening.decoded && opening.stored && opening.decrypted
                && !opening.unpadded ==> step == Some(RatchetStep::AdvanceOnly)
        }),
{
}

/// What is committed with content that was received: the session moves on, a receipt goes out,
/// and nothing is put aside.
pub proof fn law_received_content_is_acknowledged(
    content_id: ContentId,
    pending: Option<i64>,
    effect: Effect,
)
    ensures
        ({
            let commit = commit_of(
                RatchetStep::Act(RatchetAction::Receive),
                content_id,
                pending,
                effect,
            );
            &&& commit is Some
            &&& commit->0.advances
            &&& commit->0.acknowledges
            &&& !commit->0.defers
            &&& commit->0.presentation_changed == effect.changes
            &&& consumed_as(commit) == Consumed::DoneAtomic
        }),
{
}

/// Every control that is not refused moves its session on, and is done with once it is
/// committed. Attachment data, and group controls that are kept, are put aside; no other control
/// is. Only receipts and controls that change something show it.
pub proof fn law_accepted_controls_move_their_session_on(
    class: ControlClass,
    content_id: ContentId,
    pending: Option<i64>,
    effect: Effect,
)
    requires
        !effect.refused,
    ensures
        ({
            let commit = commit_of(
                RatchetStep::Act(RatchetAction::Control(class)),
                content_id,
                pending,
                effect,
            );
            &&& commit is Some
            &&& commit->0.advances
            &&& !commit->0.acknowledges
            &&& commit->0.defers == (class == ControlClass::AttachmentBulk)
            &&& commit->0.presentation_changed == (effect.changes && class
                != ControlClass::AttachmentBulk && class != ControlClass::Unknown && class
                != ControlClass::Capabilities)
            &&& consumed_as(commit) == Consumed::DoneAtomic
        }),
        ({
            let commit = commit_of(
                RatchetStep::Act(RatchetAction::DeferGroupControl),
                content_id,
                pending,
                effect,
            );
            &&& commit is Some
            &&& commit->0.advances
            &&& !commit->0.acknowledges
            &&& commit->0.defers == effect.keeps_control
            &&& commit->0.presentation_changed == effect.changes
        }),
{
}

/// A receipt, attachment data and a control that is not known cannot be refused: whatever comes
/// of them, the session that decrypted them moves on.
pub proof fn law_receipts_always_move_their_session_on(
    class: ControlClass,
    content_id: ContentId,
    pending: Option<i64>,
    effect: Effect,
)
    requires
        class == ControlClass::Receipt || class == ControlClass::AttachmentBulk || class
            == ControlClass::Unknown,
    ensures
        ({
            let commit = commit_of(
                RatchetStep::Act(RatchetAction::Control(class)),
                content_id,
                pending,
                effect,
            );
            commit is Some && commit->0.advances
        }),
{
}

/// What is committed with a call: the session moves on, and what is shown changes exactly when
/// the call is applied. Calls get no receipt.
pub proof fn law_calls_are_shown_when_applied(
    apply: bool,
    content_id: ContentId,
    pending: Option<i64>,
    effect: Effect,
)
    ensures
        ({
            let commit = commit_of(
                RatchetStep::Act(RatchetAction::Call { apply }),
                content_id,
                pending,
                effect,
            );
            &&& commit is Some
            &&& commit->0.advances
            &&& !commit->0.acknowledges
            &&& !commit->0.defers
            &&& commit->0.presentation_changed == apply
        }),
{
}

/// What is retired leaves its session as it was and counts as rejected; what only moves the
/// session on shows nothing; what is kept for later commits nothing.
pub proof fn law_retired_envelopes_leave_their_session(
    content_id: ContentId,
    pending: Option<i64>,
    effect: Effect,
)
    ensures
        ({
            let retired = commit_of(RatchetStep::Retire, content_id, pending, effect);
            &&& retired is Some
            &&& !retired->0.advances
            &&& !retired->0.acknowledges
            &&& !retired->0.defers
            &&& !retired->0.presentation_changed
            &&& consumed_as(retired) == Consumed::RejectedAtomic
        }),
        ({
            let moved = commit_of(RatchetStep::AdvanceOnly, content_id, pending, effect);
            &&& moved is Some
            &&& moved->0.advances
            &&& !moved->0.acknowledges
            &&& !moved->0.defers
            &&& !moved->0.presentation_changed
        }),
        commit_of(RatchetStep::KeepForLater, content_id, pending, effect) is None,
        consumed_as(None) == Consumed::Later,
{
}

/// An envelope that was put aside is taken from there by its own position and identity; one
/// that was not leaves nothing to take away.
pub proof fn law_put_aside_by_position(sequence: i64, content_id: ContentId)
    ensures
        put_aside(Some(sequence), content_id) == Some(PendingDelete { sequence, content_id }),
        put_aside(None, content_id) is None,
{
}

/// A new envelope goes by its kind: messages, receipts and group controls to their session,
/// group messages to their group, first flights to the handshake, and pieces are put together,
/// unless they came out of pieces themselves.
pub proof fn law_new_envelopes_go_by_their_kind(
    receipt_owed: bool,
    from_pending: bool,
    nested: bool,
)
    ensures
        consume_action(EnvelopeKind::Message, false, receipt_owed, from_pending, nested)
            == ConsumeAction::Ratchet,
        consume_action(EnvelopeKind::Receipt, false, receipt_owed, from_pending, nested)
            == ConsumeAction::Ratchet,
        consume_action(EnvelopeKind::GroupControl, false, receipt_owed, from_pending, nested)
            == ConsumeAction::Ratchet,
        consume_action(EnvelopeKind::GroupMessage, false, receipt_owed, from_pending, nested)
            == ConsumeAction::Group,
        consume_action(EnvelopeKind::Handshake, false, receipt_owed, from_pending, nested)
            == ConsumeAction::Handshake,
        consume_action(EnvelopeKind::Fragment, false, receipt_owed, from_pending, false)
            == ConsumeAction::Reassemble,
        consume_action(EnvelopeKind::Fragment, false, receipt_owed, from_pending, true)
            == ConsumeAction::Retire,
{
}

/// A copy of an envelope that was consumed before: its receipt is repeated where one is owed,
/// whatever else; else it is taken from where it was put aside, or ignored.
pub proof fn law_owed_receipts_are_repeated(kind: EnvelopeKind, from_pending: bool, nested: bool)
    ensures
        consume_action(kind, true, true, from_pending, nested) == ConsumeAction::RepeatReceipt,
        consume_action(kind, true, false, true, nested) == ConsumeAction::Retire,
        consume_action(kind, true, false, false, nested) == ConsumeAction::Done,
{
}

/// Content that brings its own identity is stored under it, so that a second copy is
/// recognised; everything else is stored under a fresh one.
pub proof fn law_content_keeps_its_identity(content: Content, fresh: ContentId)
    ensures
        content matches Content::Text { id: own } ==> stored_id(content, fresh) == own,
        content matches Content::Attachment { id: own } ==> stored_id(content, fresh) == own,
        content matches Content::Edit { id: own, .. } ==> stored_id(content, fresh) == own,
        content matches Content::DisappearingText { id: own, .. } ==> stored_id(content, fresh)
            == own,
        content matches Content::ViewOnceAttachment { id: own, .. } ==> stored_id(content, fresh)
            == own,
        content is LegacyText || content is Unsupported || content is Malformed || content
            is Mention || content is Poll || content is GroupAuthority ==> stored_id(
            content,
            fresh,
        ) == fresh,
{
}

/// Text that arrives is told as a message of its sender with its text, and nothing else is told
/// of it.
pub proof fn law_arrived_text_is_told(peer: Id, id: ContentId, transfer: ContentId, now: u64)
    ensures
        arrival_events(Content::Text { id }, peer, id, transfer, now) == seq![
            Event::MessageReceived {
                peer,
                id,
                timestamp: now,
                content: ContentStatus::Text { id },
            },
        ],
        arrival_events(Content::LegacyText, peer, id, transfer, now) == seq![
            Event::MessageReceived { peer, id, timestamp: now, content: ContentStatus::LegacyText },
        ],
        has_text(Content::Text { id }, now),
        has_text(Content::LegacyText, now),
{
}

/// An attachment that arrives is offered under its transfer, and told with it; nothing of it is
/// shown as text.
pub proof fn law_arrived_attachments_are_offered(
    peer: Id,
    id: ContentId,
    transfer: ContentId,
    now: u64,
)
    ensures
        offers(Content::Attachment { id }, now),
        !has_text(Content::Attachment { id }, now),
        note_of(Content::Attachment { id }, peer, transfer, now) is None,
        arrival_events(Content::Attachment { id }, peer, id, transfer, now) == seq![
            Event::MessageReceived {
                peer,
                id,
                timestamp: now,
                content: ContentStatus::Attachment { id, transfer },
            },
        ],
{
}

/// An edit counts only from the author of what it edits: theirs is told as an edit of that
/// content, another's is not told at all, and neither shows text.
pub proof fn law_edits_count_from_their_author(
    peer: Id,
    id: ContentId,
    target_author: Id,
    target_content_id: ContentId,
    revision: u64,
    transfer: ContentId,
    now: u64,
)
    ensures
        ({
            let edit = Content::Edit { id, target_author, target_content_id, revision };
            &&& !has_text(edit, now)
            &&& !offers(edit, now)
            &&& target_author == peer ==> arrival_events(edit, peer, id, transfer, now) == seq![
                Event::MessageEdited { peer, target_content_id },
            ]
            &&& target_author != peer ==> arrival_events(edit, peer, id, transfer, now).len() == 0
        }),
{
}

/// Text that disappears: before its time it is told, shown and noted as there; from then on it
/// is noted as gone and neither shown nor offered.
pub proof fn law_disappearing_text_is_shown_in_time(
    peer: Id,
    id: ContentId,
    expires_at: u64,
    retention_until: u64,
    transfer: ContentId,
    now: u64,
)
    ensures
        ({
            let text = Content::DisappearingText { id, expires_at, retention_until };
            &&& arrived_late(text, now) == (now >= expires_at)
            &&& has_text(text, now) == (now < expires_at)
            &&& !offers(text, now)
            &&& note_of(text, peer, transfer, now) == Some(
                EphemeralNote {
                    author: peer,
                    content_id: id,
                    expires_at,
                    view_once: false,
                    state: if now < expires_at {
                        EphemeralState::Active
                    } else {
                        EphemeralState::Expired
                    },
                    transfer: None,
                },
            )
            &&& arrival_events(text, peer, id, transfer, now) == seq![
                Event::MessageReceived {
                    peer,
                    id,
                    timestamp: now,
                    content: ContentStatus::DisappearingText { id, expires_at },
                },
            ]
        }),
{
}

/// An attachment that can be opened once: before its time it is offered and noted with its
/// transfer; from then on it is noted as gone, without one.
pub proof fn law_view_once_attachments_are_offered_in_time(
    peer: Id,
    id: ContentId,
    expires_at: u64,
    retention_until: u64,
    transfer: ContentId,
    now: u64,
)
    ensures
        ({
            let attachment = Content::ViewOnceAttachment { id, expires_at, retention_until };
            let note = note_of(attachment, peer, transfer, now);
            &&& arrived_late(attachment, now) == (now >= expires_at)
            &&& offers(attachment, now) == (now < expires_at)
            &&& !has_text(attachment, now)
            &&& note is Some
            &&& note->0.author == peer
            &&& note->0.content_id == id
            &&& note->0.expires_at == expires_at
            &&& note->0.view_once
            &&& now < expires_at ==> note->0.state == EphemeralState::Active && note->0.transfer
                == Some(transfer)
            &&& now >= expires_at ==> note->0.state == EphemeralState::Expired && note->0.transfer
                is None
            &&& arrival_events(attachment, peer, id, transfer, now) == seq![
                Event::MessageReceived {
                    peer,
                    id,
                    timestamp: now,
                    content: ContentStatus::ViewOnceAttachment { id, transfer, expires_at },
                },
            ]
        }),
{
}

/// Content that this version cannot read is told as what it is: of a kind that is not known, or
/// malformed. Content that belongs into groups is malformed here. None of it shows text.
pub proof fn law_unreadable_content_is_told_as_such(
    peer: Id,
    id: ContentId,
    format_version: u16,
    kind: u16,
    transfer: ContentId,
    now: u64,
)
    ensures
        arrival_events(Content::Unsupported { format_version, kind }, peer, id, transfer, now)
            == seq![
            Event::MessageReceived {
                peer,
                id,
                timestamp: now,
                content: ContentStatus::Unsupported { format_version, kind },
            },
        ],
        arrival_events(Content::Malformed, peer, id, transfer, now) == seq![
            Event::MessageReceived { peer, id, timestamp: now, content: ContentStatus::Malformed },
        ],
        arrival_events(Content::Mention { id }, peer, id, transfer, now) == seq![
            Event::MessageReceived { peer, id, timestamp: now, content: ContentStatus::Malformed },
        ],
        arrival_events(Content::Poll { id }, peer, id, transfer, now) == seq![
            Event::MessageReceived { peer, id, timestamp: now, content: ContentStatus::Malformed },
        ],
        arrival_events(Content::GroupAuthority { id }, peer, id, transfer, now) == seq![
            Event::MessageReceived { peer, id, timestamp: now, content: ContentStatus::Malformed },
        ],
        !has_text(Content::Unsupported { format_version, kind }, now),
        !has_text(Content::Malformed, now),
        !has_text(Content::Mention { id }, now),
        !has_text(Content::Poll { id }, now),
        !has_text(Content::GroupAuthority { id }, now),
{
}

/// New content without a retention of its own is taken in; with an envelope that claims one it
/// is not, and neither is a call control.
pub proof fn law_new_content_is_taken_in(
    id: ContentId,
    claimed: Option<u64>,
    stored: Seq<StoredContent>,
)
    ensures
        is_ignored(Content::Text { id }, claimed, false, stored) <==> claimed is Some || exists|
            k: int,
        |
            0 <= k < stored.len() && (#[trigger] stored[k]).direction == Direction::Inbound
                && identity_of(stored[k].content) == Some(id),
        is_ignored(Content::LegacyText, claimed, false, stored) <==> claimed is Some,
        is_ignored(Content::CallControl, claimed, false, stored),
{
}

} // verus!
