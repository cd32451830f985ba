//! Decision core of a store-and-forward messaging node.

pub mod admission;
pub mod authority;
pub mod bridge;
pub mod bytes;
pub mod candidates;
pub mod contacts;
pub mod content;
pub mod delivery;
pub mod discovery;
pub mod endpoints;
pub mod error;
pub mod establish;
pub mod expiry;
pub mod failpoints;
pub mod flights;
pub mod fragments;
pub mod handshakes;
pub mod heartbeat;
pub mod inbound;
pub mod maintenance;
pub mod markup_laws;
pub mod outbound;
pub mod pending;
pub mod pins;
pub mod polls;
pub mod presentation;
pub mod provider_sets;
pub mod providers;
pub mod queue_memory;
pub mod receipts;
pub mod records;
pub mod recovery;
pub mod relations;
pub mod rendezvous;
pub mod routes;
pub mod schedule;
pub mod screen_security;
pub mod seqs;
pub mod sessions;
pub mod settlement;
pub mod text_formatting;
pub mod text_grammar;
pub mod text_laws;
pub mod theme;
pub mod tokens;
pub mod upkeep;
pub mod vault;
pub mod wake;
pub mod wire;

pub use discovery::{DiscoveryMode, DiscoveryPublicationPolicy};
pub use error::{NodeError, Result};
pub use failpoints::TransitionFailpoint;
pub use pins::{ConversationId, PinInfo};
pub use polls::PollInfo;
pub use records::Event;
pub use screen_security::{
    screen_security_policy, ScreenSecurityLevel, ScreenSecurityPlatform, ScreenSecurityPolicy,
};
pub use text_formatting::{
    format_text, FormattedText, FormattedTextBlock, FormattedTextRun, TextFormatBlockKind,
    TextFormatHighlight, TextFormatStyle, MAX_FORMAT_BLOCKS, MAX_FORMAT_HIGHLIGHTS,
    MAX_FORMAT_INLINE_DEPTH, MAX_FORMAT_LIST_DEPTH, MAX_FORMAT_RUNS, MAX_FORMAT_SOURCE_BYTES,
};
pub use theme::ThemePreference;
pub use wake::NativeWakeRegistrationResult;
