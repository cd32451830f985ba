//! Pinned conversations: they change the order in which conversations are shown here, and
//! nothing else.

use vstd::prelude::*;

use crate::bytes::{same, Id};
use crate::records::Event;

verus! {

/// A conversation.
#[derive(Clone, Copy, Debug, PartialEq, Eq)]
pub enum ConversationId {
    /// With a contact.
    Peer(Id),
    /// Of a group.
    Group(Id),
    /// The notes to oneself.
    NoteToSelf,
}

/// A pin on record.
#[derive(Clone, Copy, Debug, PartialEq, Eq)]
pub struct PinStatus {
    /// The conversation.
    pub conversation: ConversationId,
    /// Its place among the pins.
    pub order: u64,
    /// The conversation is there.
    pub active: bool,
}

/// A pin as it is shown.
#[derive(Clone, Debug, PartialEq, Eq)]
pub struct PinInfo {
    /// The conversation.
    pub conversation: ConversationId,
    /// What it is called; nothing once it is gone.
    pub display_name: Option<String>,
    /// Its place among the pins.
    pub order: u64,
    /// The conversation is there.
    pub active: bool,
}

/// What is told after pins were asked to change.
pub fn pins_changed(changed: bool) -> (res: Option<Event>)
    ensures
        res == if changed {
            Some(Event::PinsChanged)
        } else {
            None
        },
{
    if changed {
        Some(Event::PinsChanged)
    } else {
        None
    }
}

fn same_conversation(a: &ConversationId, b: &ConversationId) -> (res: bool)
    ensures
        res == (*a == *b),
{
    match (a, b) {
        (ConversationId::Peer(x), ConversationId::Peer(y)) => same(x, y),
        (ConversationId::Group(x), ConversationId::Group(y)) => same(x, y),
        (ConversationId::NoteToSelf, ConversationId::NoteToSelf) => true,
        _ => false,
    }
}

/// What is told after pins were put into an order: nothing when it is the order that they
/// had.
pub fn reorder_pins(before: &Vec<PinStatus>, ordered: &Vec<ConversationId>) -> (res: Option<
    Event,
>)
    ensures
        res == if before@.map_values(|p: PinStatus| p.conversation) == ordered@ {
            None
        } else {
            Some(Event::PinsChanged)
        },
{
    let ghost had = before@.map_values(|p: PinStatus| p.conversation);
    if before.len() != ordered.len() {
        assert(had.len() != ordered@.len());
        return Some(Event::PinsChanged);
    }
    let mut i: usize = 0;
    while i < before.len()
        invariant
            i <= before@.len(),
            before@.len() == ordered@.len(),
            had == before@.map_values(|p: PinStatus| p.conversation),
            forall|k: int| 0 <= k < i ==> #[trigger] had[k] == ordered@[k],
        decreases before@.len() - i,
    {
        if !same_conversation(&before[i].conversation, &ordered[i]) {
            assert(had[i as int] != ordered@[i as int]);
            return Some(Event::PinsChanged);
        }
        i = i + 1;
    }
    assert(had =~= ordered@);
    None
}

/// The pins whose conversations are gone.
pub fn stale_pins(pins: &Vec<PinStatus>) -> (res: Vec<PinStatus>)
    ensures
        res@ == pins@.filter(|p: PinStatus| !p.active),
{
    let ghost stale = |p: PinStatus| !p.active;
    let mut out: Vec<PinStatus> = Vec::new();
    let mut i: usize = 0;
    proof {
        crate::seqs::lemma_filter_none(pins@, stale);
    }
    while i < pins.len()
        invariant
            i <= pins@.len(),
            stale == (|p: PinStatus| !p.active),
            out@ == pins@.take(i as int).filter(stale),
        decreases pins@.len() - i,
    {
        proof {
            crate::seqs::lemma_filter_step(pins@, stale, i as int);
        }
        if !pins[i].active {
            out.push(pins[i]);
        }
        i = i + 1;
    }
    proof {
        crate::seqs::lemma_take_all(pins@);
    }
    out
}

/// A pin as it is shown. `name` is what the contact or group is called, where it is known.
pub fn pin_info(status: &PinStatus, name: Option<String>) -> (res: PinInfo)
    ensures
        res.conversation == status.conversation,
        res.order == status.order,
        res.active == status.active,
        res.display_name == if status.active && !(status.conversation is NoteToSelf) {
            name
        } else {
            None
        },
{
    let named = match status.conversation {
        ConversationId::NoteToSelf => false,
        _ => true,
    };
    PinInfo {
        conversation: status.conversation,
        display_name: if status.active && named { name } else { None },
        order: status.order,
        active: status.active,
    }
}

} // verus!
