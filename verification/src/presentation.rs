//! What is told to the user interface, and how it is made sure that nothing is missed over a
//! restart.

use vstd::prelude::*;

use crate::bytes::{same_option, ContentId};
use crate::records::Event;
use crate::sessions::push_events;

verus! {

/// Events that wait to be told. The store keeps a marker while changes may not have been
/// told yet; it is taken back once events that came with it were delivered.
pub struct Presentation {
    events: Vec<Event>,
    marker: Option<ContentId>,
    delivered: Option<ContentId>,
}

/// The contents of a `Presentation`.
#[verifier::ext_equal]
pub struct PresentationView {
    /// Events that wait.
    pub events: Seq<Event>,
    /// The last marker that the store is known to hold.
    pub marker: Option<ContentId>,
    /// The marker up to which events were delivered.
    pub delivered: Option<ContentId>,
}

impl View for Presentation {
    type V = PresentationView;

    closed spec fn view(&self) -> PresentationView {
        PresentationView {
            events: self.events@,
            marker: self.marker,
            delivered: self.delivered,
        }
    }
}

/// After a change was committed.
pub open spec fn accepted(
    v: PresentationView,
    marker: Option<ContentId>,
    events: Seq<Event>,
) -> PresentationView {
    PresentationView {
        events: v.events + events,
        marker: if marker is Some {
            marker
        } else {
            v.marker
        },
        delivered: v.delivered,
    }
}

/// After the events were delivered.
pub open spec fn drained(v: PresentationView) -> PresentationView {
    PresentationView {
        events: Seq::empty(),
        marker: v.marker,
        delivered: if v.events.len() > 0 {
            v.marker
        } else {
            v.delivered
        },
    }
}

/// The marker that the store can take back: the one it holds, when events were delivered up
/// to it.
pub open spec fn taken_back(v: PresentationView, stored: Option<ContentId>) -> Option<ContentId> {
    if v.delivered is Some && stored == v.delivered {
        stored
    } else {
        None
    }
}

/// After looking at the marker that the store holds.
pub open spec fn acknowledged(v: PresentationView, stored: Option<ContentId>) -> PresentationView {
    PresentationView {
        events: v.events,
        marker: if v.delivered is None {
            v.marker
        } else if stored == v.delivered {
            if v.marker == stored {
                None
            } else {
                v.marker
            }
        } else {
            stored
        },
        delivered: None,
    }
}

impl Presentation {
    /// After a start: with a marker in the store, everything has to be read again.
    pub fn new(marker: Option<ContentId>, conflicts: &Vec<Event>) -> (res: Presentation)
        ensures
            res@ == (PresentationView {
                events: if marker is Some {
                    seq![Event::StateResyncRequired] + conflicts@
                } else {
                    conflicts@
                },
                marker,
                delivered: None,
            }),
    {
        let mut events: Vec<Event> = Vec::new();
        if marker.is_some() {
            events.push(Event::StateResyncRequired);
        }
        push_events(&mut events, conflicts);
        let res = Presentation { events, marker, delivered: None };
        assert(marker is None ==> Seq::<Event>::empty() + conflicts@ =~= conflicts@);
        assert(res@.events =~= if marker is Some {
            seq![Event::StateResyncRequired] + conflicts@
        } else {
            conflicts@
        });
        res
    }

    /// A change was committed, with its marker and events.
    pub fn accept_commit_receipt(&mut self, marker: Option<ContentId>, events: &Vec<Event>)
        ensures
            final(self)@ == accepted(old(self)@, marker, events@),
    {
        if marker.is_some() {
            self.marker = marker;
        }
        push_events(&mut self.events, events);
    }

    /// Deliver the events that wait.
    pub fn drain_events(&mut self) -> (res: Vec<Event>)
        ensures
            res@ == old(self)@.events,
            final(self)@ == drained(old(self)@),
    {
        let mut out: Vec<Event> = Vec::new();
        push_events(&mut out, &self.events);
        assert(out@ =~= old(self)@.events);
        if self.events.len() > 0 {
            self.delivered = self.marker;
        }
        self.events = Vec::new();
        out
    }

    /// Work out whether the store's marker can be taken back: it can when it is the one up
    /// to which events were delivered. `stored` is the marker that the store holds now.
    pub fn acknowledge_presentation(&mut self, stored: Option<ContentId>) -> (res: Option<ContentId>)
        ensures
            res == taken_back(old(self)@, stored),
            final(self)@ == acknowledged(old(self)@, stored),
    {
        let delivered = self.delivered;
        self.delivered = None;
        if delivered.is_none() {
            return None;
        }
        if same_option(&stored, &delivered) {
            if same_option(&self.marker, &stored) {
                self.marker = None;
            }
            return stored;
        }
        self.marker = stored;
        None
    }
}

/// A change that was not delivered keeps its marker: however much was delivered before, the
/// store's marker of a later change is not taken back, and is known afterwards.
pub proof fn law_undelivered_changes_keep_their_marker(
    before: PresentationView,
    marker: ContentId,
    events: Seq<Event>,
)
    requires
        before.marker != Some(marker),
        before.delivered != Some(marker),
    ensures
        ({
            let changed = accepted(drained(before), Some(marker), events);
            &&& taken_back(changed, Some(marker)) is None
            &&& acknowledged(changed, Some(marker)).marker == Some(marker)
            &&& acknowledged(changed, Some(marker)).events == events
        }),
{
    assert(Seq::<Event>::empty() + events =~= events);
}

/// Once everything was delivered, the marker is taken back.
pub proof fn law_delivered_changes_are_acknowledged(
    before: PresentationView,
    marker: ContentId,
    events: Seq<Event>,
)
    requires
        events.len() > 0,
    ensures
        ({
            let delivered = drained(accepted(before, Some(marker), events));
            &&& taken_back(delivered, Some(marker)) == Some(marker)
            &&& acknowledged(delivered, Some(marker)).marker is None
        }),
{
}

/// Changes are shown in the order they came, all of them, once.
pub proof fn law_changes_are_shown_once(
    v: PresentationView,
    first: Option<ContentId>,
    second: Option<ContentId>,
    a: Seq<Event>,
    b: Seq<Event>,
)
    ensures
        accepted(accepted(v, first, a), second, b).events == v.events + a + b,
        drained(v).events.len() == 0,
        drained(accepted(drained(v), first, a)).events.len() == 0,
        accepted(drained(v), first, a).events == a,
        second is Some ==> accepted(v, second, b).marker == second,
        second is None ==> accepted(v, second, b).marker == v.marker,
        accepted(v, second, b).delivered == v.delivered,
{
    assert(accepted(accepted(v, first, a), second, b).events =~= v.events + a + b);
    assert(accepted(drained(v), first, a).events =~= a);
}

/// Only what was handed out counts as delivered; an empty hand-out changes nothing.
pub proof fn law_hand_outs_deliver(v: PresentationView)
    ensures
        v.events.len() > 0 ==> drained(v).delivered == v.marker,
        v.events.len() == 0 ==> drained(v).delivered == v.delivered,
        drained(v).marker == v.marker,
{
}

/// A marker is taken back when it is the one that was delivered and no other; then it is
/// forgotten unless a later one has come.
pub proof fn law_markers_taken_back(v: PresentationView, stored: ContentId, later: ContentId)
    ensures
        v.delivered == Some(stored) ==> taken_back(v, Some(stored)) == Some(stored),
        v.delivered != Some(stored) ==> taken_back(v, Some(stored)) is None,
        taken_back(v, None) is None,
        v.delivered == Some(stored) && v.marker == Some(stored) ==> acknowledged(
            v,
            Some(stored),
        ).marker is None,
        v.delivered == Some(stored) && v.marker == Some(later) && later != stored ==> acknowledged(
            v,
            Some(stored),
        ).marker == Some(later),
        v.delivered is None ==> acknowledged(v, Some(stored)).marker == v.marker,
        v.delivered is Some && v.delivered != Some(stored) ==> acknowledged(
            v,
            Some(stored),
        ).marker == Some(stored),
        acknowledged(v, Some(stored)).delivered is None,
        acknowledged(v, Some(stored)).events == v.events,
{
}

} // verus!
