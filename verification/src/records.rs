//! Plain records of the durable state, as far as decisions depend on them. Message
//! bodies, sealed envelopes and other opaque data stay with the store.

use vstd::prelude::*;

use crate::bytes::{ContentId, Id};

verus! {

/// Which way a message went.
#[derive(Clone, Copy, Debug, PartialEq, Eq, Structural)]
pub enum Direction {
    /// From a peer to this account.
    Inbound,
    /// From this account to a peer.
    Outbound,
}

/// How far a message or one of its copies has come.
#[derive(Clone, Copy, Debug, PartialEq, Eq, Structural)]
pub enum DeliveryState {
    /// Waiting for a carrier.
    Queued,
    /// A carrier accepted the envelope.
    Sent,
    /// An end-to-end receipt came back.
    Delivered,
    /// An inbound message.
    Received,
    /// Given up.
    Failed,
}

/// A pairwise message.
#[derive(Clone, Copy, Debug, PartialEq, Eq)]
pub struct MessageRow {
    /// Identity of the message.
    pub id: ContentId,
    /// Account of the conversation.
    pub peer: Id,
    /// Which way it went.
    pub direction: Direction,
    /// How far it has come.
    pub state: DeliveryState,
    /// When it was written.
    pub timestamp: u64,
    /// Content identity of the envelope that carries it.
    pub wire_id: Option<ContentId>,
}

/// The copy of one outbound message for one device.
#[derive(Clone, Copy, Debug, PartialEq, Eq)]
pub struct DeliveryRow {
    /// Identity of the message.
    pub message: ContentId,
    /// Account of the device.
    pub account: Id,
    /// The device.
    pub device: Id,
    /// How far the copy has come.
    pub state: DeliveryState,
    /// Content identity of the envelope that carries the copy.
    pub wire_id: Option<ContentId>,
}

/// A pairwise message with the copies for each device.
pub struct History {
    /// The message.
    pub message: MessageRow,
    /// Its copies.
    pub deliveries: Vec<DeliveryRow>,
}

/// How far a group message has come for one member.
#[derive(Clone, Copy, Debug, PartialEq, Eq)]
pub struct MemberDelivery {
    /// Account of the member.
    pub peer: Id,
    /// How far the message has come for it.
    pub state: DeliveryState,
    /// Content identity of the envelope that carries it.
    pub wire_id: Option<ContentId>,
}

/// A group message with its members and the copies for each device.
pub struct GroupHistory {
    /// Identity of the message.
    pub id: ContentId,
    /// Which way it went.
    pub direction: Direction,
    /// When it was written.
    pub timestamp: u64,
    /// How far it has come for each member.
    pub members: Vec<MemberDelivery>,
    /// The copies for each device.
    pub deliveries: Vec<DeliveryRow>,
}

/// Urgency of a queued envelope.
#[derive(Clone, Copy, Debug, PartialEq, Eq, Structural)]
pub enum QueueClass {
    /// Foreground calls.
    Realtime,
    /// Fresh user messages.
    Interactive,
    /// Upkeep.
    Normal,
    /// Attachment data.
    Bulk,
}

/// What an envelope holds.
#[derive(Clone, Copy, Debug, PartialEq, Eq, Structural)]
pub enum EnvelopeKind {
    /// A pairwise message.
    Message,
    /// Part of a larger envelope.
    Fragment,
    /// A group message.
    GroupMessage,
    /// A receipt or another control.
    Receipt,
    /// A group control.
    GroupControl,
    /// A first flight.
    Handshake,
}

/// A queued envelope.
#[derive(Clone, Copy, Debug, PartialEq, Eq)]
pub struct QueueItem {
    /// Position in the queue.
    pub sequence: i64,
    /// Device it is for.
    pub peer: Id,
    /// Pairwise message that it carries.
    pub msg_id: Option<ContentId>,
    /// Group message that it carries.
    pub group_msg_id: Option<ContentId>,
    /// Urgency.
    pub class: QueueClass,
    /// When it was queued; zero when unknown.
    pub created_at: u64,
    /// Failed attempts so far.
    pub attempts: u32,
    /// Earliest next attempt.
    pub next_attempt_at: u64,
    /// What the envelope holds.
    pub kind: EnvelopeKind,
    /// Content identity of the envelope.
    pub content_id: ContentId,
    /// Encoded size of the envelope.
    pub encoded_len: usize,
    /// When the envelope stops being worth delivering.
    pub retention_until: Option<u64>,
}

/// A queued envelope to take out.
#[derive(Clone, Copy, Debug, PartialEq, Eq)]
pub struct QueueDelete {
    /// Position in the queue.
    pub sequence: i64,
    /// Content identity that must stand there.
    pub content_id: ContentId,
}

/// A conversation that holds ephemeral content.
#[derive(Clone, Copy, Debug, PartialEq, Eq)]
pub enum EphemeralConversation {
    /// With one account.
    Pairwise(Id),
    /// In a group.
    Group(Id),
}

/// Whether ephemeral content is still there.
#[derive(Clone, Copy, Debug, PartialEq, Eq, Structural)]
pub enum EphemeralState {
    /// Still there.
    Active,
    /// Its time has passed.
    Expired,
}

/// What the node tells the application.
#[derive(Clone, Copy, Debug, PartialEq, Eq)]
pub enum Event {
    /// Everything that is shown has to be read again.
    StateResyncRequired,
    /// There is a new contact.
    ContactAdded {
        /// Account of the contact.
        peer: Id,
    },
    /// A contact is called something else.
    ContactRenamed {
        /// Account of the contact.
        peer: Id,
    },
    /// A message request was accepted.
    MessageRequestAccepted {
        /// The request.
        request: ContentId,
        /// Account of the new contact.
        peer: Id,
    },
    /// A message request was deleted.
    MessageRequestDeleted {
        /// The request.
        request: ContentId,
    },
    /// The sender of a message request was blocked.
    MessageRequestBlocked {
        /// The request.
        request: ContentId,
    },
    /// A message moved to another state.
    DeliveryUpdated {
        /// The message.
        id: ContentId,
        /// Its new state.
        state: DeliveryState,
    },
    /// A group message moved to another state for one member.
    GroupDeliveryUpdated {
        /// The message.
        id: ContentId,
        /// The member.
        peer: Id,
        /// The new state.
        state: DeliveryState,
    },
    /// A session with an account was established.
    SessionEstablished {
        /// The account.
        peer: Id,
    },
    /// Someone unknown asks to write.
    MessageRequestReceived {
        /// The request.
        request: ContentId,
    },
    /// A request was not answered in time.
    MessageRequestExpired {
        /// The request.
        request: ContentId,
    },
    /// A message arrived.
    MessageReceived {
        /// Account it is from.
        peer: Id,
        /// The message.
        id: ContentId,
        /// When it arrived.
        timestamp: u64,
        /// What it holds.
        content: ContentStatus,
    },
    /// A message was edited by its author.
    MessageEdited {
        /// Account of the conversation.
        peer: Id,
        /// The edited content.
        target_content_id: ContentId,
    },
    /// Ephemeral content is gone.
    EphemeralRemoved {
        /// Where it was.
        conversation: EphemeralConversation,
        /// Who wrote it.
        author: Id,
        /// What it was.
        content_id: ContentId,
        /// Why it is gone.
        reason: EphemeralState,
    },
    /// A peer announced two different sets of wake capabilities for one generation.
    WakeConflict {
        /// Account of the peer.
        peer: Id,
        /// Device of the peer.
        device: Id,
        /// The generation.
        generation: u64,
    },
    /// A peer's rendezvous announcements contradict each other.
    RendezvousConflict {
        /// Account of the peer.
        peer: Id,
        /// Device of the peer.
        device: Id,
        /// The provider, or zeros for the whole provider set.
        provider: Id,
    },
    /// An envelope is too large for every carrier that can reach its recipient.
    AwaitingFasterLink {
        /// The message.
        id: ContentId,
    },
    /// A scheduled message was written or changed.
    ScheduledMessageUpdated {
        /// The message.
        id: ContentId,
    },
    /// A scheduled message was cancelled.
    ScheduledMessageCancelled {
        /// The message.
        id: ContentId,
    },
    /// A scheduled message became an ordinary one.
    ScheduledMessageActivated {
        /// The message.
        id: ContentId,
    },
    /// A note to self was written.
    NoteToSelfMessageAdded {
        /// The note.
        id: ContentId,
        /// When it was written.
        timestamp: u64,
    },
    /// The pinned conversations changed.
    PinsChanged,
    /// The appearance preference changed.
    ThemeChanged,
}

/// What a received message holds.
#[derive(Clone, Copy, Debug, PartialEq, Eq)]
pub enum ContentStatus {
    /// Text from before content had identities.
    LegacyText,
    /// Text.
    Text {
        /// Identity of the content.
        id: ContentId,
    },
    /// An attachment offer.
    Attachment {
        /// Identity of the content.
        id: ContentId,
        /// Local transfer.
        transfer: ContentId,
    },
    /// An edit of earlier content.
    Edit {
        /// Identity of the content.
        id: ContentId,
        /// Author of the edited content.
        target_author: Id,
        /// The edited content.
        target_content_id: ContentId,
        /// Number of the edit.
        revision: u64,
    },
    /// Text that disappears.
    DisappearingText {
        /// Identity of the content.
        id: ContentId,
        /// When it disappears.
        expires_at: u64,
    },
    /// An attachment that can be opened once.
    ViewOnceAttachment {
        /// Identity of the content.
        id: ContentId,
        /// Local transfer.
        transfer: ContentId,
        /// When it disappears.
        expires_at: u64,
    },
    /// Content of a kind this version does not know.
    Unsupported {
        /// Format version.
        format_version: u16,
        /// Kind in that format.
        kind: u16,
    },
    /// Content that cannot be read or is not allowed where it arrived.
    Malformed,
}

} // verus!
