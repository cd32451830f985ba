use vstd::prelude::*;

verus! {

/// Everything the node core can refuse.
#[derive(Clone, Copy, Debug, PartialEq, Eq, Structural)]
pub enum NodeError {
    /// Text or highlight ranges outside what the formatter accepts.
    InvalidTextFormatting,
    /// Stored or computed state contradicts itself.
    CorruptState,
    /// The account is no contact.
    UnknownPeer,
    /// The group is not known.
    UnknownGroup,
    /// The scheduled message is not there (any more).
    UnknownScheduledMessage,
    /// There is neither a session nor a usable prekey bundle.
    NoSession,
    /// The contact's reset account has to be verified again first.
    ContactReverificationRequired,
    /// A mention outside a group.
    InvalidMention,
    /// An edit that is not allowed.
    InvalidEdit,
    /// The peer cannot show edits.
    EditUnsupported,
    /// Too many edits of one message.
    EditLimit,
    /// Ephemeral content that is not allowed.
    InvalidEphemeral,
    /// The peer cannot keep ephemeral content.
    EphemeralUnsupported,
    /// A poll that is not allowed.
    InvalidPoll,
    /// The poll is closed.
    PollClosed,
    /// The group cannot hold polls.
    PollUnsupported,
    /// Group authority outside a group.
    InvalidGroupAuthority,
    /// A call control that is not allowed.
    InvalidCall,
    /// A schedule that is not allowed.
    InvalidSchedule,
    /// Something is larger than the protocol allows.
    TooLarge,
    /// Too many attempts to open a recovery file.
    RecoveryAttemptLimited,
    /// The account's authority is of the former layout and has to be migrated.
    AuthorityMigrationRequired,
    /// The account's authority has to be reset.
    AuthorityResetRequired,
    /// This needs the account's recovery authority.
    RecoveryAuthorityRequired,
    /// The recovery authority is gone already.
    RecoveryAuthorityUnavailable,
    /// Two manifests of one generation contradict each other.
    DeviceAuthorityFork,
    /// The recovery file is another account's.
    DeviceRecoveryConflict,
    /// No prekey bundle was found.
    BundleNotFound,
    /// The contact's name has to be looked at first.
    ContactNameReviewRequired,
    /// No discovery plane is configured.
    NoDiscovery,
    /// Only the creator may close a poll.
    NotPollCreator,
    /// Too many votes of one account in one poll.
    PollVoteLimit,
    /// The message request is not there (any more).
    UnknownMessageRequest,
    /// Rendezvous is not available like this.
    RendezvousUnavailable,
    /// Two provider sets of one generation contradict each other.
    RendezvousConflict,
    /// Wake-ups are not available like this.
    WakeUnavailable,
    /// Two capability sets of one generation contradict each other.
    WakeConflict,
    /// A key or signature is not what it claims to be.
    Crypto,
}

/// Convenience alias.
pub type Result<T> = std::result::Result<T, NodeError>;

} // verus!
