//! Copies of messages that could not be made when the message was sent, controls that were
//! put aside, and payloads for several devices.

use vstd::prelude::*;

use crate::bytes::{same, ContentId, Id, IdSet};
use crate::endpoints::{ascending, insert_id};
use crate::error::{NodeError, Result};
use crate::outbound::{NewItem, SendRoute};
use crate::records::{
    DeliveryRow, DeliveryState, Direction, History, MessageRow, QueueClass, QueueItem,
};
use crate::seqs::{at_most, first_of};

verus! {

/// Most copies that one pass makes up for.
pub const MAX_PENDING_DEVICE_DELIVERIES_PER_TICK: usize = 8;

/// Most controls put aside that one pass works off.
pub const MAX_DEFERRED_CONTROLS_PER_TICK: usize = 16;

/// A message with its copies, as far as making up for them depends on it.
pub struct PendingMessage {
    /// The message and its copies.
    pub history: History,
    /// It still has to disappear: its copies are not made up for.
    pub ephemeral: bool,
    /// It is an attachment.
    pub attachment: bool,
}

/// How a copy is made up for.
#[derive(Clone, Copy, Debug, PartialEq, Eq)]
pub enum CopyUse {
    /// It is queued already, in an envelope.
    Adopt(ContentId),
    /// In the envelope of an earlier step of this pass, by the position of that step.
    Follow(usize),
    /// Through the session.
    Session,
    /// With a first flight.
    FirstFlight,
}

/// A copy to make up for.
#[derive(Clone, Copy, Debug, PartialEq, Eq)]
pub struct CopyStep {
    /// Position of the message.
    pub message: usize,
    /// Position of the copy in it.
    pub row: usize,
    /// How it is made up for.
    pub how: CopyUse,
}

/// How far a pass has come.
#[verifier::ext_equal]
pub struct CopyProgress {
    /// What is made up for.
    pub steps: Seq<CopyStep>,
    /// How many more copies may be.
    pub left: int,
    /// Devices with a session.
    pub sessions: Set<Id>,
    /// The messages and devices for which envelopes are made, with the positions of the steps.
    pub made: Seq<(ContentId, Id, usize)>,
}

/// A copy has not been made yet.
pub open spec fn is_missing(row: DeliveryRow, account: Id) -> bool {
    row.account == account && row.state == DeliveryState::Queued && row.wire_id is None
}

/// The last queued envelope with which a message goes to a device, among the first `n`.
pub open spec fn queued_copy(queue: Seq<QueueItem>, message: ContentId, device: Id, n: int) -> Option<
    ContentId,
>
    decreases n,
{
    if n <= 0 {
        None
    } else if queue[n - 1].msg_id == Some(message) && queue[n - 1].peer == device {
        Some(queue[n - 1].content_id)
    } else {
        queued_copy(queue, message, device, n - 1)
    }
}

/// The step among the first `n` made that carries a message to a device.
pub open spec fn made_copy(
    made: Seq<(ContentId, Id, usize)>,
    message: ContentId,
    device: Id,
    n: int,
) -> Option<usize>
    decreases n,
{
    if n <= 0 {
        None
    } else if made[n - 1].0 == message && made[n - 1].1 == device {
        Some(made[n - 1].2)
    } else {
        made_copy(made, message, device, n - 1)
    }
}

/// The last of the first `n` records of a live device holds a valid prekey bundle.
pub open spec fn has_bundle(endpoints: Seq<SendRoute>, device: Id, n: int) -> bool
    decreases n,
{
    if n <= 0 {
        false
    } else if endpoints[n - 1].device == device {
        endpoints[n - 1].valid_bundle
    } else {
        has_bundle(endpoints, device, n - 1)
    }
}

/// How a missing copy is made up for, where it can be.
pub open spec fn copy_use(
    queue: Seq<QueueItem>,
    endpoints: Seq<SendRoute>,
    progress: CopyProgress,
    message: ContentId,
    device: Id,
) -> Option<CopyUse> {
    match queued_copy(queue, message, device, queue.len() as int) {
        Some(id) => Some(CopyUse::Adopt(id)),
        None => match made_copy(progress.made, message, device, progress.made.len() as int) {
            Some(step) => Some(CopyUse::Follow(step)),
            None => if progress.sessions.contains(device) {
                Some(CopyUse::Session)
            } else if has_bundle(endpoints, device, endpoints.len() as int) {
                Some(CopyUse::FirstFlight)
            } else {
                None
            },
        },
    }
}

/// An envelope is made for the copy.
pub open spec fn makes_envelope(how: CopyUse) -> bool {
    how is Session || how is FirstFlight
}

/// One copy more. A first flight makes a session, which later messages use; later copies of
/// the message for the same device go with the envelope that was made.
pub open spec fn copy_step(
    progress: CopyProgress,
    queue: Seq<QueueItem>,
    endpoints: Seq<SendRoute>,
    message: int,
    row: int,
    head: MessageRow,
    rows: Seq<DeliveryRow>,
) -> CopyProgress {
    let device = rows[row].device;
    if progress.left <= 0 || !is_missing(rows[row], head.peer) {
        progress
    } else {
        match copy_use(queue, endpoints, progress, head.id, device) {
            None => progress,
            Some(how) => CopyProgress {
                steps: progress.steps.push(
                    CopyStep { message: message as usize, row: row as usize, how },
                ),
                left: progress.left - 1,
                sessions: if how is FirstFlight {
                    progress.sessions.insert(device)
                } else {
                    progress.sessions
                },
                made: if makes_envelope(how) {
                    progress.made.push((head.id, device, progress.steps.len() as usize))
                } else {
                    progress.made
                },
            },
        }
    }
}

/// The first `n` copies of a message.
pub open spec fn copy_rows(
    start: CopyProgress,
    queue: Seq<QueueItem>,
    endpoints: Seq<SendRoute>,
    message: int,
    head: MessageRow,
    rows: Seq<DeliveryRow>,
    n: int,
) -> CopyProgress
    decreases n,
{
    if n <= 0 {
        start
    } else {
        copy_step(
            copy_rows(start, queue, endpoints, message, head, rows, n - 1),
            queue,
            endpoints,
            message,
            n - 1,
            head,
            rows,
        )
    }
}

/// Copies of the message are made up for.
pub open spec fn is_considered(message: PendingMessage) -> bool {
    message.history.message.direction == Direction::Outbound && !message.ephemeral
}

/// The copies of the first `n` messages.
pub open spec fn copies_made(
    sessions: Set<Id>,
    queue: Seq<QueueItem>,
    endpoints: Seq<SendRoute>,
    messages: Seq<PendingMessage>,
    n: int,
) -> CopyProgress
    decreases n,
{
    if n <= 0 {
        CopyProgress {
            steps: Seq::empty(),
            left: MAX_PENDING_DEVICE_DELIVERIES_PER_TICK as int,
            sessions,
            made: Seq::empty(),
        }
    } else {
        let start = copies_made(sessions, queue, endpoints, messages, n - 1);
        let message = messages[n - 1];
        if is_considered(message) {
            copy_rows(
                start,
                queue,
                endpoints,
                n - 1,
                message.history.message,
                message.history.deliveries@,
                message.history.deliveries@.len() as int,
            )
        } else {
            start
        }
    }
}

fn find_queued(queue: &Vec<QueueItem>, message: &ContentId, device: &Id) -> (res: Option<ContentId>)
    ensures
        res == queued_copy(queue@, *message, *device, queue@.len() as int),
{
    let mut found: Option<ContentId> = None;
    let mut i: usize = 0;
    while i < queue.len()
        invariant
            i <= queue@.len(),
            found == queued_copy(queue@, *message, *device, i as int),
        decreases queue@.len() - i,
    {
        let hit = match queue[i].msg_id {
            Some(id) => same(&id, message) && same(&queue[i].peer, device),
            None => false,
        };
        if hit {
            found = Some(queue[i].content_id);
        }
        i = i + 1;
    }
    found
}

fn find_made(made: &Vec<(ContentId, Id, usize)>, message: &ContentId, device: &Id) -> (res: Option<
    usize,
>)
    ensures
        res == made_copy(made@, *message, *device, made@.len() as int),
{
    let mut found: Option<usize> = None;
    let mut i: usize = 0;
    while i < made.len()
        invariant
            i <= made@.len(),
            found == made_copy(made@, *message, *device, i as int),
        decreases made@.len() - i,
    {
        if same(&made[i].0, message) && same(&made[i].1, device) {
            found = Some(made[i].2);
        }
        i = i + 1;
    }
    found
}

fn find_bundle(endpoints: &Vec<SendRoute>, device: &Id) -> (res: bool)
    ensures
        res == has_bundle(endpoints@, *device, endpoints@.len() as int),
{
    let mut found = false;
    let mut i: usize = 0;
    while i < endpoints.len()
        invariant
            i <= endpoints@.len(),
            found == has_bundle(endpoints@, *device, i as int),
        decreases endpoints@.len() - i,
    {
        if same(&endpoints[i].device, device) {
            found = endpoints[i].valid_bundle;
        }
        i = i + 1;
    }
    found
}

/// Decide which missing copies are made up for now, and how. `endpoints` are the live
/// devices on record, of which the last record of a device counts, `sessions` the devices with
/// a session: it comes back with those that get one by a first flight.
pub fn plan_copies(
    messages: &Vec<PendingMessage>,
    queue: &Vec<QueueItem>,
    endpoints: &Vec<SendRoute>,
    sessions: &mut IdSet,
) -> (res: Vec<CopyStep>)
    ensures
        ({
            let progress = copies_made(
                old(sessions)@,
                queue@,
                endpoints@,
                messages@,
                messages@.len() as int,
            );
            &&& res@ == progress.steps
            &&& final(sessions)@ == progress.sessions
        }),
{
    let ghost start = sessions@;
    let mut steps: Vec<CopyStep> = Vec::new();
    let mut made: Vec<(ContentId, Id, usize)> = Vec::new();
    let mut left: usize = MAX_PENDING_DEVICE_DELIVERIES_PER_TICK;
    let mut i: usize = 0;
    while i < messages.len()
        invariant
            i <= messages@.len(),
            start == old(sessions)@,
            copies_made(start, queue@, endpoints@, messages@, i as int) == (CopyProgress {
                steps: steps@,
                left: left as int,
                sessions: sessions@,
                made: made@,
            }),
        decreases messages@.len() - i,
    {
        let message = &messages[i];
        let outbound = match message.history.message.direction {
            Direction::Outbound => true,
            Direction::Inbound => false,
        };
        if outbound && !message.ephemeral {
            let head = message.history.message;
            let ghost begun = copies_made(start, queue@, endpoints@, messages@, i as int);
            let mut k: usize = 0;
            while k < message.history.deliveries.len()
                invariant
                    i < messages@.len(),
                    *message == messages@[i as int],
                    head == message.history.message,
                    k <= message.history.deliveries@.len(),
                    copy_rows(
                        begun,
                        queue@,
                        endpoints@,
                        i as int,
                        head,
                        message.history.deliveries@,
                        k as int,
                    ) == (CopyProgress {
                        steps: steps@,
                        left: left as int,
                        sessions: sessions@,
                        made: made@,
                    }),
                decreases message.history.deliveries@.len() - k,
            {
                let row = message.history.deliveries[k];
                let queued = match row.state {
                    DeliveryState::Queued => true,
                    _ => false,
                };
                if left > 0 && same(&row.account, &head.peer) && queued && row.wire_id.is_none() {
                    let how = match find_queued(queue, &head.id, &row.device) {
                        Some(id) => Some(CopyUse::Adopt(id)),
                        None => match find_made(&made, &head.id, &row.device) {
                            Some(step) => Some(CopyUse::Follow(step)),
                            None => if sessions.contains(&row.device) {
                                Some(CopyUse::Session)
                            } else if find_bundle(endpoints, &row.device) {
                                Some(CopyUse::FirstFlight)
                            } else {
                                None
                            },
                        },
                    };
                    if let Some(how) = how {
                        let makes = match how {
                            CopyUse::Session | CopyUse::FirstFlight => true,
                            _ => false,
                        };
                        if makes {
                            made.push((head.id, row.device, steps.len()));
                        }
                        steps.push(CopyStep { message: i, row: k, how });
                        left = left - 1;
                        if let CopyUse::FirstFlight = how {
                            sessions.insert(row.device);
                        }
                    }
                }
                k = k + 1;
            }
        }
        i = i + 1;
    }
    steps
}

/// One pass makes up for a bounded number of copies.
pub proof fn law_copies_are_bounded(
    sessions: Set<Id>,
    queue: Seq<QueueItem>,
    endpoints: Seq<SendRoute>,
    messages: Seq<PendingMessage>,
    n: int,
)
    requires
        0 <= n <= messages.len(),
    ensures
        ({
            let progress = copies_made(sessions, queue, endpoints, messages, n);
            progress.left >= 0 && progress.steps.len() + progress.left
                == MAX_PENDING_DEVICE_DELIVERIES_PER_TICK
        }),
    decreases n,
{
    if n > 0 {
        law_copies_are_bounded(sessions, queue, endpoints, messages, n - 1);
        let start = copies_made(sessions, queue, endpoints, messages, n - 1);
        let message = messages[n - 1];
        if is_considered(message) {
            lemma_rows_count(
                start,
                queue,
                endpoints,
                n - 1,
                message.history.message,
                message.history.deliveries@,
                message.history.deliveries@.len() as int,
            );
        }
    }
}

proof fn lemma_rows_count(
    start: CopyProgress,
    queue: Seq<QueueItem>,
    endpoints: Seq<SendRoute>,
    message: int,
    head: MessageRow,
    rows: Seq<DeliveryRow>,
    n: int,
)
    requires
        0 <= n <= rows.len(),
        start.left >= 0,
    ensures
        ({
            let progress = copy_rows(start, queue, endpoints, message, head, rows, n);
            progress.left >= 0 && progress.steps.len() + progress.left == start.steps.len()
                + start.left
        }),
    decreases n,
{
    if n > 0 {
        lemma_rows_count(start, queue, endpoints, message, head, rows, n - 1);
    }
}

/// No two steps of one pass make an envelope for the same message and device.
pub open spec fn made_once(made: Seq<(ContentId, Id, usize)>) -> bool {
    forall|i: int, j: int|
        0 <= i < j < made.len() ==> !((#[trigger] made[i]).0 == (#[trigger] made[j]).0 && made[i].1
            == made[j].1)
}

proof fn lemma_made_copy(made: Seq<(ContentId, Id, usize)>, message: ContentId, device: Id, n: int)
    requires
        0 <= n <= made.len(),
        made_copy(made, message, device, n) is None,
    ensures
        forall|i: int|
            0 <= i < n ==> !((#[trigger] made[i]).0 == message && made[i].1 == device),
    decreases n,
{
    if n > 0 {
        lemma_made_copy(made, message, device, n - 1);
    }
}

proof fn lemma_rows_made_once(
    start: CopyProgress,
    queue: Seq<QueueItem>,
    endpoints: Seq<SendRoute>,
    message: int,
    head: MessageRow,
    rows: Seq<DeliveryRow>,
    n: int,
)
    requires
        0 <= n <= rows.len(),
        made_once(start.made),
    ensures
        made_once(copy_rows(start, queue, endpoints, message, head, rows, n).made),
    decreases n,
{
    if n > 0 {
        lemma_rows_made_once(start, queue, endpoints, message, head, rows, n - 1);
        let prior = copy_rows(start, queue, endpoints, message, head, rows, n - 1);
        let device = rows[n - 1].device;
        if made_copy(prior.made, head.id, device, prior.made.len() as int) is None {
            lemma_made_copy(prior.made, head.id, device, prior.made.len() as int);
        }
    }
}

/// One pass makes at most one envelope for a message and a device: a second copy that is
/// missing goes with the envelope of the first.
pub proof fn law_one_envelope_per_message_and_device(
    sessions: Set<Id>,
    queue: Seq<QueueItem>,
    endpoints: Seq<SendRoute>,
    messages: Seq<PendingMessage>,
    n: int,
)
    requires
        0 <= n <= messages.len(),
    ensures
        made_once(copies_made(sessions, queue, endpoints, messages, n).made),
    decreases n,
{
    if n > 0 {
        law_one_envelope_per_message_and_device(sessions, queue, endpoints, messages, n - 1);
        let start = copies_made(sessions, queue, endpoints, messages, n - 1);
        let message = messages[n - 1];
        if is_considered(message) {
            lemma_rows_made_once(
                start,
                queue,
                endpoints,
                n - 1,
                message.history.message,
                message.history.deliveries@,
                message.history.deliveries@.len() as int,
            );
        }
    }
}

/// What making up for copies of one message records.
pub struct CopiesRecorded {
    /// The message afterwards.
    pub message: MessageRow,
    /// The copies that changed, before and after.
    pub deliveries: Vec<(DeliveryRow, DeliveryRow)>,
    /// What is queued.
    pub queue: Vec<NewItem>,
}

/// A copy that was made up for, with the envelope that carries it.
#[derive(Clone, Copy, Debug, PartialEq, Eq)]
pub struct MadeCopy {
    /// Position of the copy.
    pub row: usize,
    /// Its envelope.
    pub wire_id: ContentId,
    /// The envelope was queued before, or made for an earlier copy.
    pub adopted: bool,
}

/// The copies that changed, before and after.
pub open spec fn copies_recorded(rows: Seq<DeliveryRow>, made: Seq<MadeCopy>) -> Seq<
    (DeliveryRow, DeliveryRow),
> {
    Seq::new(
        made.len(),
        |k: int|
            (
                rows[made[k].row as int],
                DeliveryRow { wire_id: Some(made[k].wire_id), ..rows[made[k].row as int] },
            ),
    )
}

/// What the first `n` copies put into the queue.
pub open spec fn copies_queued(
    message: PendingMessage,
    made: Seq<MadeCopy>,
    now: u64,
    n: int,
) -> Seq<NewItem>
    decreases n,
{
    if n <= 0 {
        Seq::empty()
    } else {
        let prior = copies_queued(message, made, now, n - 1);
        let copy = made[n - 1];
        if copy.adopted {
            prior
        } else {
            prior.push(
                NewItem {
                    peer: message.history.deliveries@[copy.row as int].device,
                    msg_id: Some(message.history.message.id),
                    class: if message.attachment {
                        QueueClass::Bulk
                    } else {
                        QueueClass::Interactive
                    },
                    created_at: message.history.message.timestamp,
                    attempts: 0,
                    next_attempt_at: now,
                    content_id: copy.wire_id,
                },
            )
        }
    }
}

/// Put together what making up for copies of one message records. The message keeps the
/// envelope that it has, or takes the first new one.
pub fn record_copies(message: &PendingMessage, made: &Vec<MadeCopy>, now: u64) -> (res:
    CopiesRecorded)
    requires
        forall|k: int|
            0 <= k < made@.len() ==> (#[trigger] made@[k]).row
                < message.history.deliveries@.len(),
    ensures
        res.deliveries@ == copies_recorded(message.history.deliveries@, made@),
        res.queue@ == copies_queued(*message, made@, now, made@.len() as int),
        res.message == (MessageRow {
            wire_id: if message.history.message.wire_id is Some || made@.len() == 0 {
                message.history.message.wire_id
            } else {
                Some(made@[0].wire_id)
            },
            ..message.history.message
        }),
{
    let mut deliveries: Vec<(DeliveryRow, DeliveryRow)> = Vec::new();
    let mut queue: Vec<NewItem> = Vec::new();
    let mut after = message.history.message;
    let mut k: usize = 0;
    while k < made.len()
        invariant
            k <= made@.len(),
            forall|m: int|
                0 <= m < made@.len() ==> (#[trigger] made@[m]).row
                    < message.history.deliveries@.len(),
            deliveries@.len() == k,
            forall|m: int|
                0 <= m < k ==> #[trigger] deliveries@[m] == copies_recorded(
                    message.history.deliveries@,
                    made@,
                )[m],
            queue@ == copies_queued(*message, made@, now, k as int),
            after == (MessageRow {
                wire_id: if message.history.message.wire_id is Some || k == 0 {
                    message.history.message.wire_id
                } else {
                    Some(made@[0].wire_id)
                },
                ..message.history.message
            }),
        decreases made@.len() - k,
    {
        let copy = made[k];
        let before = message.history.deliveries[copy.row];
        let mut row = before;
        row.wire_id = Some(copy.wire_id);
        deliveries.push((before, row));
        if after.wire_id.is_none() {
            after.wire_id = Some(copy.wire_id);
        }
        if !copy.adopted {
            queue.push(
                NewItem {
                    peer: before.device,
                    msg_id: Some(message.history.message.id),
                    class: if message.attachment {
                        QueueClass::Bulk
                    } else {
                        QueueClass::Interactive
                    },
                    created_at: message.history.message.timestamp,
                    attempts: 0,
                    next_attempt_at: now,
                    content_id: copy.wire_id,
                },
            );
        }
        k = k + 1;
    }
    assert(deliveries@ =~= copies_recorded(message.history.deliveries@, made@));
    CopiesRecorded { message: after, deliveries, queue }
}

// ---- Payloads ----

/// The devices that payloads go to, each once and by ascending identity. All of them need a
/// session.
pub fn plan_payloads(
    devices: &Vec<Id>,
    sessions: &IdSet,
    payloads: usize,
    max_devices: usize,
) -> (res: Result<Vec<Id>>)
    ensures
        ({
            let wanted = devices@.to_set();
            let refused = wanted.len() == 0 || wanted.len() > max_devices || payloads == 0
                || !wanted.subset_of(sessions@);
            match res {
                Ok(routes) => !refused && ascending(routes@) && routes@.to_set() == wanted,
                Err(e) => refused && e == NodeError::NoSession,
            }
        }),
{
    let mut routes: Vec<Id> = Vec::new();
    let mut all = true;
    let mut i: usize = 0;
    assert(routes@.to_set() =~= devices@.take(0).to_set());
    while i < devices.len()
        invariant
            i <= devices@.len(),
            ascending(routes@),
            routes@.to_set() == devices@.take(i as int).to_set(),
            all == forall|k: int| 0 <= k < i ==> sessions@.contains(#[trigger] devices@[k]),
        decreases devices@.len() - i,
    {
        let ghost before = all;
        insert_id(&mut routes, devices[i]);
        if !sessions.contains(&devices[i]) {
            all = false;
            assert(!sessions@.contains(devices@[i as int]));
        }
        proof {
            let front = devices@.take(i as int);
            let more = devices@.take(i + 1);
            assert(more =~= front.push(devices@[i as int]));
            assert forall|id: Id| more.to_set().contains(id) == front.to_set().insert(
                devices@[i as int],
            ).contains(id) by {
                if front.contains(id) {
                    let k = choose|k: int| 0 <= k < front.len() && front[k] == id;
                    assert(more[k] == id);
                }
                if id == devices@[i as int] {
                    assert(more[i as int] == id);
                }
                if more.contains(id) {
                    let k = choose|k: int| 0 <= k < more.len() && more[k] == id;
                    if k < i {
                        assert(front[k] == id);
                    }
                }
            }
            assert(more.to_set() =~= front.to_set().insert(devices@[i as int]));
        }
        i = i + 1;
    }
    proof {
        assert(devices@.take(i as int) =~= devices@);
        crate::outbound::lemma_ascending_len(routes@);
        let wanted = devices@.to_set();
        if all {
            assert forall|id: Id| wanted.contains(id) implies sessions@.contains(id) by {
                let k = choose|k: int| 0 <= k < devices@.len() && devices@[k] == id;
                assert(sessions@.contains(devices@[k]));
            }
            assert(wanted.subset_of(sessions@));
        } else {
            let k = choose|k: int|
                0 <= k < devices@.len() && !sessions@.contains(#[trigger] devices@[k]);
            assert(wanted.contains(devices@[k]));
            assert(!wanted.subset_of(sessions@));
        }
    }
    if routes.len() == 0 || routes.len() > max_devices || payloads == 0 || !all {
        return Err(NodeError::NoSession);
    }
    Ok(routes)
}

// ---- Controls put aside ----

/// What happens with a control that was put aside, once it was tried.
#[derive(Clone, Copy, Debug, PartialEq, Eq, Structural)]
pub enum DeferredStep {
    /// It stays for another time.
    Keep,
    /// It is gone already.
    Gone,
    /// It is acknowledged to the sender and, when that worked, deleted.
    Acknowledge,
    /// It is deleted.
    Delete,
}

/// What came of trying a control that was put aside.
#[derive(Clone, Copy, Debug, PartialEq, Eq, Structural)]
pub enum DeferredTry {
    /// Parts of attachments were taken in.
    Attachment {
        /// The acknowledgement that took the control away was recorded with them.
        acknowledged: bool,
    },
    /// A control of a group was tried.
    Group {
        /// It could be applied.
        applied: bool,
        /// It was taken away with what it did.
        deleted: bool,
        /// It came from the group's origin.
        from_origin: bool,
    },
}

/// What happens with a control that was put aside, once it was tried. Group controls that
/// came from the group's origin are acknowledged.
pub open spec fn after_try(tried: DeferredTry) -> DeferredStep {
    match tried {
        DeferredTry::Attachment { acknowledged } => if acknowledged {
            DeferredStep::Gone
        } else {
            DeferredStep::Delete
        },
        DeferredTry::Group { applied, deleted, from_origin } => if !applied {
            DeferredStep::Keep
        } else if deleted {
            DeferredStep::Gone
        } else if from_origin {
            DeferredStep::Acknowledge
        } else {
            DeferredStep::Delete
        },
    }
}

/// What happens with a control that was put aside, once it was tried.
pub fn deferred_step(tried: DeferredTry) -> (res: DeferredStep)
    ensures
        res == after_try(tried),
{
    match tried {
        DeferredTry::Attachment { acknowledged } => if acknowledged {
            DeferredStep::Gone
        } else {
            DeferredStep::Delete
        },
        DeferredTry::Group { applied, deleted, from_origin } => if !applied {
            DeferredStep::Keep
        } else if deleted {
            DeferredStep::Gone
        } else if from_origin {
            DeferredStep::Acknowledge
        } else {
            DeferredStep::Delete
        },
    }
}

/// A pass over the controls that were put aside.
pub struct DeferredPass {
    rest: Vec<ContentId>,
    index: usize,
    progress: bool,
}

/// Where a pass over controls stands.
#[verifier::ext_equal]
pub struct DeferredView {
    /// Controls still to try, in order.
    pub rest: Seq<ContentId>,
    /// Some control was applied.
    pub progress: bool,
}

impl View for DeferredPass {
    type V = DeferredView;

    closed spec fn view(&self) -> DeferredView {
        DeferredView { rest: self.rest@.skip(self.index as int), progress: self.progress }
    }
}

impl DeferredPass {
    /// The position lies within the controls.
    pub closed spec fn wf(&self) -> bool {
        self.index <= self.rest@.len()
    }

    /// Begin a pass over the controls that were put aside, oldest first: it tries the first of
    /// them, and no more than it may.
    pub fn begin(controls: &Vec<ContentId>) -> (res: DeferredPass)
        ensures
            res.wf(),
            res@.rest == at_most(controls@, MAX_DEFERRED_CONTROLS_PER_TICK as nat),
            !res@.progress,
    {
        let rest = first_of(controls, MAX_DEFERRED_CONTROLS_PER_TICK);
        assert(rest@.skip(0) =~= rest@);
        DeferredPass { rest, index: 0, progress: false }
    }

    /// The control to try next.
    pub fn next(&self) -> (res: Option<ContentId>)
        requires
            self.wf(),
        ensures
            res == if self@.rest.len() > 0 {
                Some(self@.rest[0])
            } else {
                None
            },
    {
        if self.index < self.rest.len() {
            Some(self.rest[self.index])
        } else {
            None
        }
    }

    /// Note what came of trying the next control; whether it is deleted now. `acknowledged`
    /// says that the acknowledgement, where one was asked for, was recorded: without it the
    /// control stays.
    pub fn record(&mut self, step: DeferredStep, acknowledged: bool) -> (res: bool)
        requires
            old(self).wf(),
            old(self)@.rest.len() > 0,
        ensures
            final(self).wf(),
            final(self)@.rest == old(self)@.rest.skip(1),
            final(self)@.progress == (old(self)@.progress || step != DeferredStep::Keep),
            res == (step == DeferredStep::Delete || (step == DeferredStep::Acknowledge
                && acknowledged)),
    {
        assert(self.index < self.rest.len());
        self.index = self.index + 1;
        proof {
            assert(self.rest@.skip(self.index as int) =~= old(self).rest@.skip(
                old(self).index as int,
            ).skip(1));
        }
        match step {
            DeferredStep::Keep => false,
            DeferredStep::Gone => {
                self.progress = true;
                false
            },
            DeferredStep::Acknowledge => {
                self.progress = true;
                acknowledged
            },
            DeferredStep::Delete => {
                self.progress = true;
                true
            },
        }
    }

    /// Whether some control was applied.
    pub fn made_progress(&self) -> (res: bool)
        ensures
            res == self@.progress,
    {
        self.progress
    }
}

// ---- Laws of missing copies ----

/// An envelope of the message to the device stands among the first `n` of the queue.
pub open spec fn is_queued(queue: Seq<QueueItem>, message: ContentId, device: Id, n: int) -> bool {
    exists|i: int|
        0 <= i < n && (#[trigger] queue[i]).msg_id == Some(message) && queue[i].peer == device
}

proof fn lemma_queued_copy(queue: Seq<QueueItem>, message: ContentId, device: Id, n: int)
    requires
        0 <= n <= queue.len(),
    ensures
        queued_copy(queue, message, device, n) is Some <==> is_queued(queue, message, device, n),
        queued_copy(queue, message, device, n) matches Some(id) ==> exists|i: int|
            0 <= i < n && (#[trigger] queue[i]).msg_id == Some(message) && queue[i].peer == device
                && queue[i].content_id == id,
    decreases n,
{
    if n > 0 {
        lemma_queued_copy(queue, message, device, n - 1);
        if queue[n - 1].msg_id == Some(message) && queue[n - 1].peer == device {
            assert(is_queued(queue, message, device, n));
        } else if is_queued(queue, message, device, n) {
            assert(is_queued(queue, message, device, n - 1));
        } else if is_queued(queue, message, device, n - 1) {
            assert(is_queued(queue, message, device, n));
        }
    }
}

/// A copy that waits in the queue is adopted. One that was just made is shared. Otherwise a
/// session makes it, a valid bundle starts a first flight, and without either it waits.
pub proof fn law_how_missing_copies_are_made(
    queue: Seq<QueueItem>,
    endpoints: Seq<SendRoute>,
    progress: CopyProgress,
    message: ContentId,
    device: Id,
)
    ensures
        ({
            let how = copy_use(queue, endpoints, progress, message, device);
            let queued = is_queued(queue, message, device, queue.len() as int);
            let made = exists|i: int|
                0 <= i < progress.made.len() && (#[trigger] progress.made[i]).0 == message
                    && progress.made[i].1 == device;
            &&& queued ==> (how matches Some(CopyUse::Adopt(id)) && exists|i: int|
                0 <= i < queue.len() && (#[trigger] queue[i]).msg_id == Some(message)
                    && queue[i].peer == device && queue[i].content_id == id)
            &&& !queued && made ==> (how matches Some(CopyUse::Follow(step)) && exists|i: int|
                0 <= i < progress.made.len() && #[trigger] progress.made[i] == (
                    message,
                    device,
                    step,
                ))
            &&& !queued && !made && progress.sessions.contains(device) ==> how == Some(
                CopyUse::Session,
            )
            &&& !queued && !made && !progress.sessions.contains(device) && has_bundle(
                endpoints,
                device,
                endpoints.len() as int,
            ) ==> how == Some(CopyUse::FirstFlight)
            &&& !queued && !made && !progress.sessions.contains(device) && !has_bundle(
                endpoints,
                device,
                endpoints.len() as int,
            ) ==> how is None
        }),
{
    lemma_queued_copy(queue, message, device, queue.len() as int);
    lemma_copy_made(progress.made, message, device, progress.made.len() as int);
}

proof fn lemma_copy_made(
    made: Seq<(ContentId, Id, usize)>,
    message: ContentId,
    device: Id,
    n: int,
)
    requires
        0 <= n <= made.len(),
    ensures
        made_copy(made, message, device, n) is None ==> forall|i: int|
            0 <= i < n ==> !((#[trigger] made[i]).0 == message && made[i].1 == device),
        made_copy(made, message, device, n) matches Some(step) ==> exists|i: int|
            0 <= i < n && #[trigger] made[i] == (message, device, step),
    decreases n,
{
    if n > 0 {
        lemma_copy_made(made, message, device, n - 1);
        if made[n - 1].0 == message && made[n - 1].1 == device {
            assert(made[n - 1] == (message, device, made[n - 1].2));
        }
    }
}

/// A device has a bundle exactly when the last endpoint that names it has a valid one.
pub proof fn law_bundles_of_endpoints(endpoints: Seq<SendRoute>, device: Id, n: int, i: int)
    requires
        0 <= i < n <= endpoints.len(),
        endpoints[i].device == device,
        forall|j: int| i < j < n ==> (#[trigger] endpoints[j]).device != device,
    ensures
        has_bundle(endpoints, device, n) == endpoints[i].valid_bundle,
    decreases n,
{
    if i < n - 1 {
        law_bundles_of_endpoints(endpoints, device, n - 1, i);
    }
}

proof fn lemma_rows_grow(
    start: CopyProgress,
    queue: Seq<QueueItem>,
    endpoints: Seq<SendRoute>,
    message: int,
    head: MessageRow,
    rows: Seq<DeliveryRow>,
    n: int,
)
    requires
        0 <= n <= rows.len() <= usize::MAX,
        0 <= message <= usize::MAX,
    ensures
        ({
            let end = copy_rows(start, queue, endpoints, message, head, rows, n);
            &&& start.steps.len() <= end.steps.len()
            &&& start.steps =~= end.steps.take(start.steps.len() as int)
            &&& end.left <= start.left
            &&& start.sessions.subset_of(end.sessions)
            &&& forall|k: int|
                start.steps.len() <= k < end.steps.len() ==> {
                    &&& (#[trigger] end.steps[k]).message == message
                    &&& end.steps[k].row < n
                    &&& is_missing(rows[end.steps[k].row as int], head.peer)
                }
        }),
    decreases n,
{
    if n > 0 {
        lemma_rows_grow(start, queue, endpoints, message, head, rows, n - 1);
    }
}

proof fn lemma_rows_reach(
    start: CopyProgress,
    queue: Seq<QueueItem>,
    endpoints: Seq<SendRoute>,
    message: int,
    head: MessageRow,
    rows: Seq<DeliveryRow>,
    n: int,
    r: int,
)
    requires
        0 <= r < n <= rows.len() <= usize::MAX,
        0 <= message <= usize::MAX,
        is_missing(rows[r], head.peer),
        start.sessions.contains(rows[r].device) || has_bundle(
            endpoints,
            rows[r].device,
            endpoints.len() as int,
        ),
        copy_rows(start, queue, endpoints, message, head, rows, n).left > 0,
    ensures
        ({
            let end = copy_rows(start, queue, endpoints, message, head, rows, n);
            exists|k: int|
                start.steps.len() <= k < end.steps.len() && (#[trigger] end.steps[k]).message
                    == message && end.steps[k].row == r
        }),
    decreases n,
{
    lemma_rows_grow(start, queue, endpoints, message, head, rows, n - 1);
    lemma_rows_grow(start, queue, endpoints, message, head, rows, n);
    let prior = copy_rows(start, queue, endpoints, message, head, rows, n - 1);
    let end = copy_rows(start, queue, endpoints, message, head, rows, n);
    if r < n - 1 {
        lemma_rows_reach(start, queue, endpoints, message, head, rows, n - 1, r);
        let k = choose|k: int|
            start.steps.len() <= k < prior.steps.len() && (#[trigger] prior.steps[k]).message
                == message && prior.steps[k].row == r;
        assert(end.steps[k] == prior.steps[k]);
    } else {
        assert(end.steps.last().row == r);
    }
}

proof fn lemma_made_grows(
    sessions: Set<Id>,
    queue: Seq<QueueItem>,
    endpoints: Seq<SendRoute>,
    messages: Seq<PendingMessage>,
    n: int,
)
    requires
        0 <= n <= messages.len() <= usize::MAX,
        forall|m: int|
            0 <= m < messages.len() ==> (#[trigger] messages[m]).history.deliveries@.len()
                <= usize::MAX,
    ensures
        ({
            let end = copies_made(sessions, queue, endpoints, messages, n);
            &&& sessions.subset_of(end.sessions)
            &&& forall|k: int|
                0 <= k < end.steps.len() ==> {
                    let step = #[trigger] end.steps[k];
                    let message = messages[step.message as int];
                    &&& step.message < n
                    &&& is_considered(message)
                    &&& step.row < message.history.deliveries@.len()
                    &&& is_missing(
                        message.history.deliveries@[step.row as int],
                        message.history.message.peer,
                    )
                }
        }),
    decreases n,
{
    if n > 0 {
        lemma_made_grows(sessions, queue, endpoints, messages, n - 1);
        let start = copies_made(sessions, queue, endpoints, messages, n - 1);
        let end = copies_made(sessions, queue, endpoints, messages, n);
        let message = messages[n - 1];
        if is_considered(message) {
            let rows = message.history.deliveries@;
            lemma_rows_grow(
                start,
                queue,
                endpoints,
                n - 1,
                message.history.message,
                rows,
                rows.len() as int,
            );
            assert forall|k: int| 0 <= k < end.steps.len() implies {
                let step = #[trigger] end.steps[k];
                let message = messages[step.message as int];
                &&& step.message < n
                &&& is_considered(message)
                &&& step.row < message.history.deliveries@.len()
                &&& is_missing(
                    message.history.deliveries@[step.row as int],
                    message.history.message.peer,
                )
            } by {
                if k < start.steps.len() {
                    assert(end.steps.take(start.steps.len() as int)[k] == end.steps[k]);
                    assert(end.steps[k] == start.steps[k]);
                }
            }
        }
    }
}

/// Only copies that are missing are made: copies without an envelope, of one's own messages
/// that do not disappear, to a device of the contact.
pub proof fn law_only_missing_copies_are_made(
    sessions: Set<Id>,
    queue: Seq<QueueItem>,
    endpoints: Seq<SendRoute>,
    messages: Seq<PendingMessage>,
    k: int,
)
    requires
        messages.len() <= usize::MAX,
        forall|m: int|
            0 <= m < messages.len() ==> (#[trigger] messages[m]).history.deliveries@.len()
                <= usize::MAX,
        0 <= k < copies_made(
            sessions,
            queue,
            endpoints,
            messages,
            messages.len() as int,
        ).steps.len(),
    ensures
        ({
            let step = copies_made(
                sessions,
                queue,
                endpoints,
                messages,
                messages.len() as int,
            ).steps[k];
            let history = messages[step.message as int].history;
            let row = history.deliveries@[step.row as int];
            &&& step.message < messages.len()
            &&& step.row < history.deliveries@.len()
            &&& history.message.direction == Direction::Outbound
            &&& !messages[step.message as int].ephemeral
            &&& row.account == history.message.peer
            &&& row.state == DeliveryState::Queued
            &&& row.wire_id is None
        }),
{
    lemma_made_grows(sessions, queue, endpoints, messages, messages.len() as int);
}

/// As long as the allowance of a tick is not used up, every missing copy that a session or a
/// valid bundle reaches is made.
pub proof fn law_reachable_copies_are_made(
    sessions: Set<Id>,
    queue: Seq<QueueItem>,
    endpoints: Seq<SendRoute>,
    messages: Seq<PendingMessage>,
    n: int,
    m: int,
    r: int,
)
    requires
        0 <= m < n <= messages.len() <= usize::MAX,
        forall|i: int|
            0 <= i < messages.len() ==> (#[trigger] messages[i]).history.deliveries@.len()
                <= usize::MAX,
        messages[m].history.message.direction == Direction::Outbound,
        !messages[m].ephemeral,
        0 <= r < messages[m].history.deliveries@.len(),
        ({
            let row = messages[m].history.deliveries@[r];
            &&& row.account == messages[m].history.message.peer
            &&& row.state == DeliveryState::Queued
            &&& row.wire_id is None
            &&& sessions.contains(row.device) || has_bundle(
                endpoints,
                row.device,
                endpoints.len() as int,
            )
        }),
        copies_made(sessions, queue, endpoints, messages, n).steps.len() < 8,
    ensures
        ({
            let end = copies_made(sessions, queue, endpoints, messages, n);
            exists|k: int|
                0 <= k < end.steps.len() && (#[trigger] end.steps[k]).message == m
                    && end.steps[k].row == r
        }),
    decreases n,
{
    law_copies_are_bounded(sessions, queue, endpoints, messages, n);
    let start = copies_made(sessions, queue, endpoints, messages, n - 1);
    let end = copies_made(sessions, queue, endpoints, messages, n);
    lemma_made_grows(sessions, queue, endpoints, messages, n - 1);
    let message = messages[n - 1];
    let rows = message.history.deliveries@;
    if is_considered(message) {
        lemma_rows_grow(
            start,
            queue,
            endpoints,
            n - 1,
            message.history.message,
            rows,
            rows.len() as int,
        );
    }
    if m == n - 1 {
        lemma_rows_reach(
            start,
            queue,
            endpoints,
            n - 1,
            message.history.message,
            rows,
            rows.len() as int,
            r,
        );
    } else {
        law_reachable_copies_are_made(sessions, queue, endpoints, messages, n - 1, m, r);
        let k = choose|k: int|
            0 <= k < start.steps.len() && (#[trigger] start.steps[k]).message == m
                && start.steps[k].row == r;
        if is_considered(message) {
            assert(end.steps.take(start.steps.len() as int)[k] == end.steps[k]);
        }
        assert(end.steps[k] == start.steps[k]);
    }
}

/// A made copy names its envelope from then on and changes in nothing else.
pub proof fn law_made_copies_name_their_envelope(
    rows: Seq<DeliveryRow>,
    made: Seq<MadeCopy>,
    k: int,
)
    requires
        0 <= k < made.len(),
        made[k].row < rows.len(),
    ensures
        copies_recorded(rows, made).len() == made.len(),
        ({
            let (before, after) = copies_recorded(rows, made)[k];
            &&& before == rows[made[k].row as int]
            &&& after.wire_id == Some(made[k].wire_id)
            &&& after.message == before.message
            &&& after.account == before.account
            &&& after.device == before.device
            &&& after.state == before.state
        }),
{
}

/// The envelopes of new copies are queued; those of adopted copies are queued already.
pub proof fn law_new_copies_are_queued(
    message: PendingMessage,
    made: Seq<MadeCopy>,
    now: u64,
    n: int,
)
    requires
        0 <= n <= made.len(),
    ensures
        ({
            let items = copies_queued(message, made, now, n);
            &&& items.len() == made.take(n).filter(|c: MadeCopy| !c.adopted).len()
            &&& forall|k: int|
                0 <= k < n && !(#[trigger] made[k]).adopted ==> exists|m: int|
                    0 <= m < items.len() && (#[trigger] items[m]).content_id == made[k].wire_id
                        && items[m].peer
                        == message.history.deliveries@[made[k].row as int].device
            &&& forall|m: int|
                0 <= m < items.len() ==> {
                    let item = #[trigger] items[m];
                    &&& item.msg_id == Some(message.history.message.id)
                    &&& message.attachment ==> item.class == QueueClass::Bulk
                    &&& !message.attachment ==> item.class == QueueClass::Interactive
                    &&& item.created_at == message.history.message.timestamp
                    &&& item.attempts == 0
                    &&& item.next_attempt_at == now
                }
        }),
    decreases n,
{
    reveal(Seq::filter);
    if n > 0 {
        law_new_copies_are_queued(message, made, now, n - 1);
        assert(made.take(n).drop_last() =~= made.take(n - 1));
        assert(made.take(n).last() == made[n - 1]);
        let prior = copies_queued(message, made, now, n - 1);
        let items = copies_queued(message, made, now, n);
        assert forall|k: int| 0 <= k < n && !(#[trigger] made[k]).adopted implies exists|m: int|
            0 <= m < items.len() && (#[trigger] items[m]).content_id == made[k].wire_id
                && items[m].peer == message.history.deliveries@[made[k].row as int].device by {
            if k < n - 1 {
                let m = choose|m: int|
                    0 <= m < prior.len() && (#[trigger] prior[m]).content_id == made[k].wire_id
                        && prior[m].peer
                        == message.history.deliveries@[made[k].row as int].device;
                assert(items[m] == prior[m]);
            } else {
                assert(items.last().content_id == made[k].wire_id);
            }
        }
    } else {
        assert(made.take(0) =~= Seq::<MadeCopy>::empty());
    }
}

/// What becomes of a control that was put aside, once it has been tried again.
pub proof fn law_controls_tried_again(acknowledged: bool, deleted: bool, from_origin: bool)
    ensures
        after_try(DeferredTry::Attachment { acknowledged: true }) == DeferredStep::Gone,
        after_try(DeferredTry::Attachment { acknowledged: false }) == DeferredStep::Delete,
        after_try(DeferredTry::Group { applied: false, deleted, from_origin })
            == DeferredStep::Keep,
        after_try(DeferredTry::Group { applied: true, deleted: true, from_origin })
            == DeferredStep::Gone,
        after_try(DeferredTry::Group { applied: true, deleted: false, from_origin: true })
            == DeferredStep::Acknowledge,
        after_try(DeferredTry::Group { applied: true, deleted: false, from_origin: false })
            == DeferredStep::Delete,
{
}

/// A copy that was just made is made once: another row of the same message and device shares
/// it. A first flight leaves a session behind for the rest.
pub proof fn law_made_copies_are_shared(
    progress: CopyProgress,
    queue: Seq<QueueItem>,
    endpoints: Seq<SendRoute>,
    message: int,
    row: int,
    head: MessageRow,
    rows: Seq<DeliveryRow>,
)
    requires
        0 <= row < rows.len() <= usize::MAX,
        0 <= message <= usize::MAX,
        progress.left > 0,
        rows[row].account == head.peer,
        rows[row].state == DeliveryState::Queued,
        rows[row].wire_id is None,
    ensures
        ({
            let device = rows[row].device;
            let how = copy_use(queue, endpoints, progress, head.id, device);
            let after = copy_step(progress, queue, endpoints, message, row, head, rows);
            &&& how is None ==> after == progress
            &&& how is Some ==> {
                &&& after.left == progress.left - 1
                &&& after.steps == progress.steps.push(
                    CopyStep { message: message as usize, row: row as usize, how: how->0 },
                )
            }
            &&& how == Some(CopyUse::FirstFlight) ==> after.sessions.contains(device)
            &&& how == Some(CopyUse::FirstFlight) || how == Some(CopyUse::Session)
                ==> after.made.len() == progress.made.len() + 1 && after.made.last() == (
                head.id,
                device,
                progress.steps.len() as usize,
            )
            &&& how is Some && (how->0 is Adopt || how->0 is Follow) ==> after.made
                == progress.made && after.sessions == progress.sessions
        }),
{
}

} // verus!
