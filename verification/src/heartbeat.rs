//! One pass of the node: what is gathered, what has expired, and what is tried again.

use vstd::prelude::*;

use crate::admission::{AdmissionTransportClass, IngressClass};
use crate::bytes::{same, ContentId, ContentSet, Id};
use crate::endpoints::{ascending, insert_id};
use crate::error::{NodeError, Result};
use crate::records::EnvelopeKind;

verus! {

/// Most envelopes that one pass works on.
pub const MAX_PENDING_WORK_PER_TICK: usize = 64;

/// Most envelopes that one wake collection works on.
pub const MAX_WAKE_PENDING_WORK_PER_TICK: usize = 32;

/// Most encoded bytes that one wake collection takes.
pub const MAX_WAKE_COLLECTION_BYTES: usize = 524_288;

/// Envelopes are put aside for this long.
pub const PENDING_TTL_SECS: u64 = 2_592_000;

/// Time between two sweeps of old deliveries.
pub const DELIVERY_SWEEP_INTERVAL_SECS: u64 = 3_600;

/// Longest wake collection.
pub const MAX_WAKE_COLLECTION_SECS: u64 = 25;

/// An envelope to work on.
#[derive(Clone, Copy, Debug, PartialEq, Eq)]
pub struct WorkItem {
    /// Where it is put aside; fragments are not.
    pub sequence: Option<i64>,
    /// Its content identity.
    pub content_id: ContentId,
    /// Its encoded size.
    pub encoded_len: usize,
    /// When it was first seen.
    pub first_seen: u64,
    /// The class of carrier that it came over.
    pub transport: AdmissionTransportClass,
    /// When it stops being worth anything.
    pub retention_until: Option<u64>,
    /// Where the caller keeps the envelope itself.
    pub source: usize,
}

/// An envelope put aside that is not needed any more.
#[derive(Clone, Copy, Debug, PartialEq, Eq)]
pub struct PendingDelete {
    /// Where it is put aside.
    pub sequence: i64,
    /// Its content identity.
    pub content_id: ContentId,
}

/// An envelope that a carrier hands over.
#[derive(Clone, Copy, Debug, PartialEq, Eq)]
pub struct Arrival {
    /// Its content identity.
    pub content_id: ContentId,
    /// What it holds.
    pub kind: EnvelopeKind,
    /// Its encoded size.
    pub encoded_len: usize,
    /// When it stops being worth anything.
    pub retention_until: Option<u64>,
    /// How it came in.
    pub ingress: IngressClass,
    /// The class of carrier that it came over.
    pub transport: AdmissionTransportClass,
    /// The carrier waits for an answer.
    pub has_receipt: bool,
    /// It is an introduction that asks for admission.
    pub is_introduction: bool,
    /// It was consumed before.
    pub seen: bool,
    /// Where the caller keeps the envelope itself.
    pub source: usize,
}

/// What is done with an envelope that a carrier hands over.
#[derive(Clone, Copy, Debug, PartialEq, Eq, Structural)]
pub enum ArrivalStep {
    /// Nothing more; a waiting carrier is told whether it was accepted.
    Settle {
        /// It was accepted.
        accept: bool,
    },
    /// It is a fragment to work on; a waiting carrier keeps it.
    Assemble,
    /// It is an introduction: it is consumed at once, and the carrier is told the outcome.
    ConsumeNow,
    /// It is put aside before anything else is done.
    Stage,
}

/// What a pass has gathered.
pub struct Gather {
    wake: bool,
    gathered: ContentSet,
    durable: ContentSet,
    work: Vec<WorkItem>,
    bytes: usize,
    fragments: usize,
}

/// The contents of a `Gather`.
#[verifier::ext_equal]
pub struct GatherView {
    /// It is a wake collection.
    pub wake: bool,
    /// Envelopes that were handed over in this pass.
    pub gathered: Set<ContentId>,
    /// Those of them that are safe on disk.
    pub durable: Set<ContentId>,
    /// What to work on.
    pub work: Seq<WorkItem>,
    /// Encoded bytes taken by a wake collection.
    pub bytes: int,
    /// Fragments taken.
    pub fragments: int,
}

impl GatherView {
    /// Most envelopes to work on.
    pub open spec fn limit(self) -> int {
        if self.wake {
            MAX_WAKE_PENDING_WORK_PER_TICK as int
        } else {
            MAX_PENDING_WORK_PER_TICK as int
        }
    }

    /// There is room for an envelope of that size.
    pub open spec fn fits(self, encoded_len: usize) -> bool {
        !self.wake || self.bytes + encoded_len <= MAX_WAKE_COLLECTION_BYTES
    }

    /// The bytes with an envelope of that size.
    pub open spec fn bytes_with(self, encoded_len: usize) -> int {
        if self.wake {
            self.bytes + encoded_len
        } else {
            self.bytes
        }
    }

    /// Work and bytes are within bounds.
    pub open spec fn bounded(self) -> bool {
        &&& self.work.len() <= self.limit() + self.fragments
        &&& 0 <= self.fragments <= self.limit()
        &&& 0 <= self.bytes <= MAX_WAKE_COLLECTION_BYTES
    }
}

/// How far envelopes put aside have been taken up.
#[verifier::ext_equal]
pub struct PendingProgress {
    /// What was gathered.
    pub gather: GatherView,
    /// Copies that are not needed.
    pub redundant: Seq<PendingDelete>,
    /// No more fit.
    pub full: bool,
}

/// One envelope put aside more: taken up, unless it is a second copy or does not fit.
pub open spec fn pending_step(progress: PendingProgress, item: WorkItem) -> PendingProgress {
    if progress.full || !progress.gather.fits(item.encoded_len) {
        PendingProgress { full: true, ..progress }
    } else {
        let g = progress.gather;
        let durable = g.durable.insert(item.content_id);
        if g.gathered.contains(item.content_id) {
            PendingProgress {
                gather: GatherView { durable, ..g },
                redundant: match item.sequence {
                    Some(sequence) => progress.redundant.push(
                        PendingDelete { sequence, content_id: item.content_id },
                    ),
                    None => progress.redundant,
                },
                full: false,
            }
        } else {
            PendingProgress {
                gather: GatherView {
                    gathered: g.gathered.insert(item.content_id),
                    durable,
                    work: g.work.push(item),
                    bytes: g.bytes_with(item.encoded_len),
                    ..g
                },
                redundant: progress.redundant,
                full: false,
            }
        }
    }
}

/// The first `n` envelopes put aside.
pub open spec fn pending_taken(wake: bool, pending: Seq<WorkItem>, n: int) -> PendingProgress
    decreases n,
{
    if n <= 0 {
        PendingProgress {
            gather: GatherView {
                wake,
                gathered: Set::empty(),
                durable: Set::empty(),
                work: Seq::empty(),
                bytes: 0,
                fragments: 0,
            },
            redundant: Seq::empty(),
            full: false,
        }
    } else {
        pending_step(pending_taken(wake, pending, n - 1), pending[n - 1])
    }
}

/// The number of envelopes put aside that are looked at.
pub open spec fn pending_considered(wake: bool, pending: Seq<WorkItem>) -> int {
    let limit = if wake {
        MAX_WAKE_PENDING_WORK_PER_TICK as int
    } else {
        MAX_PENDING_WORK_PER_TICK as int
    };
    if pending.len() < limit {
        pending.len() as int
    } else {
        limit
    }
}

/// What is done with an envelope that a carrier hands over. Second copies are answered
/// without being looked at, and introductions that are tried again are refused like any
/// other; fragments wait until they are complete; everything else is put aside first.
pub open spec fn arrival_step(g: GatherView, arrival: Arrival) -> ArrivalStep {
    let direct_introduction = arrival.ingress == IngressClass::Direct && arrival.kind
        == EnvelopeKind::Handshake && arrival.is_introduction;
    if g.gathered.contains(arrival.content_id) {
        ArrivalStep::Settle {
            accept: !direct_introduction && (g.durable.contains(arrival.content_id)
                || arrival.seen),
        }
    } else if arrival.kind == EnvelopeKind::Fragment {
        if g.fragments < g.limit() && g.fits(arrival.encoded_len) {
            ArrivalStep::Assemble
        } else {
            ArrivalStep::Settle { accept: false }
        }
    } else if arrival.has_receipt && direct_introduction {
        if g.wake || arrival.seen {
            ArrivalStep::Settle { accept: false }
        } else {
            ArrivalStep::ConsumeNow
        }
    } else if !g.fits(arrival.encoded_len) {
        ArrivalStep::Settle { accept: false }
    } else {
        ArrivalStep::Stage
    }
}

/// The work item of an arrival.
pub open spec fn work_of(arrival: Arrival, sequence: Option<i64>, now: u64) -> WorkItem {
    WorkItem {
        sequence,
        content_id: arrival.content_id,
        encoded_len: arrival.encoded_len,
        first_seen: now,
        transport: arrival.transport,
        retention_until: arrival.retention_until,
        source: arrival.source,
    }
}

impl View for Gather {
    type V = GatherView;

    closed spec fn view(&self) -> GatherView {
        GatherView {
            wake: self.wake,
            gathered: self.gathered@,
            durable: self.durable@,
            work: self.work@,
            bytes: self.bytes as int,
            fragments: self.fragments as int,
        }
    }
}

impl Gather {
    fn limit(&self) -> (res: usize)
        ensures
            res == self@.limit(),
    {
        if self.wake {
            MAX_WAKE_PENDING_WORK_PER_TICK
        } else {
            MAX_PENDING_WORK_PER_TICK
        }
    }

    fn fits(&self, encoded_len: usize) -> (res: bool)
        requires
            self@.bounded(),
        ensures
            res == self@.fits(encoded_len),
    {
        !self.wake || (encoded_len <= MAX_WAKE_COLLECTION_BYTES && self.bytes + encoded_len
            <= MAX_WAKE_COLLECTION_BYTES)
    }

    /// Begin a pass with what was put aside before. Copies that are not needed come back.
    pub fn begin(wake: bool, pending: &Vec<WorkItem>) -> (res: (Gather, Vec<PendingDelete>))
        ensures
            ({
                let progress = pending_taken(wake, pending@, pending_considered(wake, pending@));
                &&& res.0@ == progress.gather
                &&& res.1@ == progress.redundant
                &&& res.0@.bounded()
            }),
    {
        let mut gather = Gather {
            wake,
            gathered: ContentSet::new(),
            durable: ContentSet::new(),
            work: Vec::new(),
            bytes: 0,
            fragments: 0,
        };
        let mut redundant: Vec<PendingDelete> = Vec::new();
        let mut full = false;
        let limit: usize = gather.limit();
        let most: usize = if pending.len() < limit { pending.len() } else { limit };
        let mut i: usize = 0;
        assert(gather@ == pending_taken(wake, pending@, 0).gather);
        while i < most
            invariant
                i <= most,
                most <= pending@.len(),
                most <= limit,
                limit == gather@.limit(),
                gather@.wake == wake,
                gather@.bounded(),
                gather@.fragments == 0,
                gather@.work.len() <= i,
                pending_taken(wake, pending@, i as int) == (PendingProgress {
                    gather: gather@,
                    redundant: redundant@,
                    full,
                }),
            decreases most - i,
        {
            let item = pending[i];
            if full || !gather.fits(item.encoded_len) {
                full = true;
            } else if gather.gathered.insert(item.content_id) {
                gather.durable.insert(item.content_id);
                if gather.wake {
                    gather.bytes = gather.bytes + item.encoded_len;
                }
                gather.work.push(item);
            } else {
                assert(gather@.gathered.insert(item.content_id) =~= gather@.gathered);
                gather.durable.insert(item.content_id);
                if let Some(sequence) = item.sequence {
                    redundant.push(PendingDelete { sequence, content_id: item.content_id });
                }
            }
            i = i + 1;
        }
        (gather, redundant)
    }

    /// Look at an envelope that a carrier hands over.
    pub fn offer(&mut self, arrival: &Arrival, now: u64) -> (res: ArrivalStep)
        requires
            old(self)@.bounded(),
        ensures
            final(self)@.bounded(),
            res == arrival_step(old(self)@, *arrival),
            final(self)@ == if res is Assemble {
                GatherView {
                    gathered: old(self)@.gathered.insert(arrival.content_id),
                    work: old(self)@.work.push(work_of(*arrival, None, now)),
                    bytes: old(self)@.bytes_with(arrival.encoded_len),
                    fragments: old(self)@.fragments + 1,
                    ..old(self)@
                }
            } else {
                GatherView {
                    gathered: old(self)@.gathered.insert(arrival.content_id),
                    ..old(self)@
                }
            },
    {
        let is_handshake = match arrival.kind {
            EnvelopeKind::Handshake => true,
            _ => false,
        };
        let is_fragment = match arrival.kind {
            EnvelopeKind::Fragment => true,
            _ => false,
        };
        let is_direct = match arrival.ingress {
            IngressClass::Direct => true,
            _ => false,
        };
        let direct_introduction = is_direct && is_handshake && arrival.is_introduction;
        let ghost before = self@;
        if !self.gathered.insert(arrival.content_id) {
            assert(before.gathered.insert(arrival.content_id) =~= before.gathered);
            return ArrivalStep::Settle {
                accept: !direct_introduction && (self.durable.contains(&arrival.content_id)
                    || arrival.seen),
            };
        }
        if is_fragment {
            if self.fragments < self.limit() && self.fits(arrival.encoded_len) {
                self.fragments = self.fragments + 1;
                if self.wake {
                    self.bytes = self.bytes + arrival.encoded_len;
                }
                self.work.push(
                    WorkItem {
                        sequence: None,
                        content_id: arrival.content_id,
                        encoded_len: arrival.encoded_len,
                        first_seen: now,
                        transport: arrival.transport,
                        retention_until: arrival.retention_until,
                        source: arrival.source,
                    },
                );
                return ArrivalStep::Assemble;
            }
            return ArrivalStep::Settle { accept: false };
        }
        if arrival.has_receipt && direct_introduction {
            if self.wake || arrival.seen {
                return ArrivalStep::Settle { accept: false };
            }
            return ArrivalStep::ConsumeNow;
        }
        if !self.fits(arrival.encoded_len) {
            return ArrivalStep::Settle { accept: false };
        }
        ArrivalStep::Stage
    }

    /// The envelope was put aside. It is worked on in this pass while there is room, else in
    /// a later one.
    pub fn staged(&mut self, arrival: &Arrival, sequence: i64, now: u64)
        requires
            old(self)@.bounded(),
            old(self)@.fits(arrival.encoded_len),
        ensures
            final(self)@.bounded(),
            final(self)@ == if old(self)@.work.len() < old(self)@.limit() {
                GatherView {
                    durable: old(self)@.durable.insert(arrival.content_id),
                    work: old(self)@.work.push(work_of(*arrival, Some(sequence), now)),
                    bytes: old(self)@.bytes_with(arrival.encoded_len),
                    ..old(self)@
                }
            } else {
                GatherView {
                    durable: old(self)@.durable.insert(arrival.content_id),
                    ..old(self)@
                }
            },
    {
        self.durable.insert(arrival.content_id);
        if self.work.len() < self.limit() {
            if self.wake {
                self.bytes = self.bytes + arrival.encoded_len;
            }
            self.work.push(
                WorkItem {
                    sequence: Some(sequence),
                    content_id: arrival.content_id,
                    encoded_len: arrival.encoded_len,
                    first_seen: now,
                    transport: arrival.transport,
                    retention_until: arrival.retention_until,
                    source: arrival.source,
                },
            );
        }
    }

    /// An envelope from transit was put aside. It came for others too: no carrier waits for an
    /// answer about it.
    pub fn staged_transit(&mut self, arrival: &Arrival, sequence: i64, now: u64)
        requires
            old(self)@.bounded(),
            !old(self)@.wake,
        ensures
            final(self)@.bounded(),
            final(self)@ == if old(self)@.work.len() < old(self)@.limit() {
                GatherView {
                    work: old(self)@.work.push(work_of(*arrival, Some(sequence), now)),
                    ..old(self)@
                }
            } else {
                old(self)@
            },
    {
        if self.work.len() < self.limit() {
            self.work.push(
                WorkItem {
                    sequence: Some(sequence),
                    content_id: arrival.content_id,
                    encoded_len: arrival.encoded_len,
                    first_seen: now,
                    transport: arrival.transport,
                    retention_until: arrival.retention_until,
                    source: arrival.source,
                },
            );
        }
    }

    /// An introduction was consumed at once; `seen` says whether that is on record.
    pub fn consumed_now(&mut self, content_id: ContentId, seen: bool)
        requires
            old(self)@.bounded(),
        ensures
            final(self)@.bounded(),
            final(self)@ == if seen {
                GatherView { durable: old(self)@.durable.insert(content_id), ..old(self)@ }
            } else {
                old(self)@
            },
    {
        if seen {
            self.durable.insert(content_id);
        }
    }

    /// End gathering: what to work on.
    pub fn into_work(self) -> (res: Vec<WorkItem>)
        ensures
            res@ == self@.work,
    {
        self.work
    }
}

/// Which envelopes of a pass were offered to the bridge.
pub struct TransitGate {
    from_mesh: ContentSet,
    from_net: ContentSet,
}

impl TransitGate {
    /// Envelopes of one side that were offered.
    pub closed spec fn offered(&self, from_mesh: bool) -> Set<ContentId> {
        if from_mesh {
            self.from_mesh@
        } else {
            self.from_net@
        }
    }

    /// Nothing was offered yet.
    pub fn new() -> (res: TransitGate)
        ensures
            res.offered(true) == Set::<ContentId>::empty(),
            res.offered(false) == Set::<ContentId>::empty(),
    {
        TransitGate { from_mesh: ContentSet::new(), from_net: ContentSet::new() }
    }

    /// Whether an envelope is offered to the bridge: it is for others, and was not offered
    /// from that side before.
    pub fn offers(&mut self, content_id: ContentId, from_mesh: bool, is_own: bool) -> (res: bool)
        ensures
            res == (!is_own && !old(self).offered(from_mesh).contains(content_id)),
            final(self).offered(from_mesh) == if is_own {
                old(self).offered(from_mesh)
            } else {
                old(self).offered(from_mesh).insert(content_id)
            },
            final(self).offered(!from_mesh) == old(self).offered(!from_mesh),
    {
        if is_own {
            return false;
        }
        if from_mesh {
            self.from_mesh.insert(content_id)
        } else {
            self.from_net.insert(content_id)
        }
    }
}

/// One pass works on a bounded number of envelopes.
pub proof fn law_work_is_bounded(g: GatherView)
    requires
        g.bounded(),
    ensures
        g.work.len() <= 2 * MAX_PENDING_WORK_PER_TICK,
        g.wake ==> g.work.len() <= 2 * MAX_WAKE_PENDING_WORK_PER_TICK,
{
}

/// A carrier is never told that an envelope was accepted that is neither safe on disk nor
/// consumed before.
pub proof fn law_acceptance_means_durable(g: GatherView, arrival: Arrival)
    requires
        arrival_step(g, arrival) == (ArrivalStep::Settle { accept: true }),
    ensures
        g.durable.contains(arrival.content_id) || arrival.seen,
{
}

/// An introduction over a direct carrier that is tried again is always refused: the answer
/// does not tell whether the first copy was taken.
pub proof fn law_repeated_introductions_look_alike(g: GatherView, arrival: Arrival)
    requires
        arrival.ingress == IngressClass::Direct,
        arrival.kind == EnvelopeKind::Handshake,
        arrival.is_introduction,
        g.gathered.contains(arrival.content_id) || (arrival.seen && arrival.has_receipt),
    ensures
        arrival_step(g, arrival) == (ArrivalStep::Settle { accept: false }),
{
}

// ---- Expiry ----

/// An envelope has expired: it was put aside for too long, or is not worth anything any
/// more.
pub open spec fn has_expired(item: WorkItem, now: u64) -> bool {
    now - item.first_seen > PENDING_TTL_SECS || (item.retention_until matches Some(until) && until
        <= now)
}

/// What is dropped with the first `n` envelopes.
pub open spec fn expired_deletes(work: Seq<WorkItem>, now: u64, n: int) -> Seq<PendingDelete>
    decreases n,
{
    if n <= 0 {
        Seq::empty()
    } else {
        let prior = expired_deletes(work, now, n - 1);
        let item = work[n - 1];
        match item.sequence {
            Some(sequence) => if has_expired(item, now) {
                prior.push(PendingDelete { sequence, content_id: item.content_id })
            } else {
                prior
            },
            None => prior,
        }
    }
}

/// The expired ones among the first `n` envelopes.
pub open spec fn expired_ids(work: Seq<WorkItem>, now: u64, n: int) -> Seq<ContentId>
    decreases n,
{
    if n <= 0 {
        Seq::empty()
    } else if has_expired(work[n - 1], now) {
        expired_ids(work, now, n - 1).push(work[n - 1].content_id)
    } else {
        expired_ids(work, now, n - 1)
    }
}

/// What expiry leaves.
pub struct Expiry {
    /// What is still worth working on.
    pub work: Vec<WorkItem>,
    /// Envelopes that count as consumed.
    pub seen: Vec<ContentId>,
    /// Envelopes put aside that are dropped.
    pub deletes: Vec<PendingDelete>,
}

/// Drop the envelopes that have expired.
pub fn drop_expired(work: &Vec<WorkItem>, now: u64) -> (res: Expiry)
    ensures
        res.work@ == work@.filter(|item: WorkItem| !has_expired(item, now)),
        res.seen@ == expired_ids(work@, now, work@.len() as int),
        res.deletes@ == expired_deletes(work@, now, work@.len() as int),
{
    let mut kept: Vec<WorkItem> = Vec::new();
    let mut seen: Vec<ContentId> = Vec::new();
    let mut deletes: Vec<PendingDelete> = Vec::new();
    let ghost keep = |item: WorkItem| !has_expired(item, now);
    let mut i: usize = 0;
    proof {
        crate::seqs::lemma_filter_none(work@, keep);
    }
    while i < work.len()
        invariant
            i <= work@.len(),
            keep == (|item: WorkItem| !has_expired(item, now)),
            kept@ == work@.take(i as int).filter(keep),
            seen@ == expired_ids(work@, now, i as int),
            deletes@ == expired_deletes(work@, now, i as int),
        decreases work@.len() - i,
    {
        proof {
            crate::seqs::lemma_filter_step(work@, keep, i as int);
        }
        let item = work[i];
        let late = match item.retention_until {
            Some(until) => until <= now,
            None => false,
        };
        if (now > item.first_seen && now - item.first_seen > PENDING_TTL_SECS) || late {
            seen.push(item.content_id);
            if let Some(sequence) = item.sequence {
                deletes.push(PendingDelete { sequence, content_id: item.content_id });
            }
        } else {
            kept.push(item);
        }
        i = i + 1;
    }
    proof {
        crate::seqs::lemma_take_all(work@);
    }
    Expiry { work: kept, seen, deletes }
}

// ---- Consuming ----

/// What became of an envelope.
#[derive(Clone, Copy, Debug, PartialEq, Eq)]
pub enum Outcome {
    /// It is dealt with; where it was put aside, it is dropped at the end of the pass.
    Done,
    /// It is dealt with, together with where it was put aside.
    DoneAtomic,
    /// It is rejected, together with where it was put aside.
    RejectedAtomic,
    /// It cannot be dealt with yet. `restaged` is where it was put aside just now, if it was
    /// not before and there was room.
    Later {
        /// Where it was put aside.
        restaged: Option<i64>,
    },
}

/// Where an envelope that has to wait is put aside.
pub open spec fn waits_at(item: WorkItem, outcome: Outcome) -> Option<i64> {
    match outcome {
        Outcome::Later { restaged } => match item.sequence {
            Some(sequence) => Some(sequence),
            None => restaged,
        },
        _ => None,
    }
}

/// The envelopes among the first `n` that are dropped at the end of the pass.
pub open spec fn pass_acks(work: Seq<WorkItem>, outcomes: Seq<Outcome>, n: int) -> Seq<
    PendingDelete,
>
    decreases n,
{
    if n <= 0 {
        Seq::empty()
    } else {
        let prior = pass_acks(work, outcomes, n - 1);
        let item = work[n - 1];
        match item.sequence {
            Some(sequence) => if outcomes[n - 1] is Done {
                prior.push(PendingDelete { sequence, content_id: item.content_id })
            } else {
                prior
            },
            None => prior,
        }
    }
}

/// The envelopes among the first `n` that wait.
pub open spec fn pass_stash(work: Seq<WorkItem>, outcomes: Seq<Outcome>, n: int) -> Seq<WorkItem>
    decreases n,
{
    if n <= 0 {
        Seq::empty()
    } else {
        let prior = pass_stash(work, outcomes, n - 1);
        match waits_at(work[n - 1], outcomes[n - 1]) {
            Some(sequence) => prior.push(WorkItem { sequence: Some(sequence), ..work[n - 1] }),
            None => prior,
        }
    }
}

/// What a pass over the work leaves.
pub struct PassResult {
    /// Dropped at the end.
    pub acks: Vec<PendingDelete>,
    /// What waits.
    pub stash: Vec<WorkItem>,
}

/// Settle a pass over the work. A wake collection may stop before the end: `outcomes` holds
/// what became of the first envelopes, and the others wait where they are.
pub fn settle_pass(work: &Vec<WorkItem>, outcomes: &Vec<Outcome>) -> (res: PassResult)
    requires
        outcomes@.len() <= work@.len(),
    ensures
        res.acks@ == pass_acks(work@, outcomes@, outcomes@.len() as int),
        res.stash@ == pass_stash(work@, outcomes@, outcomes@.len() as int),
{
    let mut acks: Vec<PendingDelete> = Vec::new();
    let mut stash: Vec<WorkItem> = Vec::new();
    let mut i: usize = 0;
    while i < outcomes.len()
        invariant
            i <= outcomes@.len(),
            outcomes@.len() <= work@.len(),
            acks@ == pass_acks(work@, outcomes@, i as int),
            stash@ == pass_stash(work@, outcomes@, i as int),
        decreases outcomes@.len() - i,
    {
        let item = work[i];
        match outcomes[i] {
            Outcome::Done => {
                if let Some(sequence) = item.sequence {
                    acks.push(PendingDelete { sequence, content_id: item.content_id });
                }
            },
            Outcome::DoneAtomic => {},
            Outcome::RejectedAtomic => {},
            Outcome::Later { restaged } => {
                let at = match item.sequence {
                    Some(sequence) => Some(sequence),
                    None => restaged,
                };
                if let Some(sequence) = at {
                    let mut waiting = item;
                    waiting.sequence = Some(sequence);
                    stash.push(waiting);
                }
            },
        }
        i = i + 1;
    }
    PassResult { acks, stash }
}

/// Whether what waits is tried again in this pass: a session came up, or controls that were
/// put aside made progress.
pub fn tries_again(stash_len: usize, established: bool, controls_progressed: bool) -> (res: bool)
    ensures
        res == (stash_len > 0 && (established || controls_progressed)),
{
    stash_len > 0 && (established || controls_progressed)
}

/// A pass that dealt with an envelope leaves fewer to try again, so that trying again comes
/// to an end.
pub proof fn law_each_round_is_smaller(work: Seq<WorkItem>, outcomes: Seq<Outcome>, k: int)
    requires
        outcomes.len() <= work.len(),
        0 <= k < outcomes.len(),
        !(outcomes[k] is Later),
    ensures
        pass_stash(work, outcomes, outcomes.len() as int).len() < work.len(),
{
    lemma_stash_len(work, outcomes, outcomes.len() as int, k);
}

proof fn lemma_stash_len(work: Seq<WorkItem>, outcomes: Seq<Outcome>, n: int, k: int)
    requires
        0 <= n <= outcomes.len(),
        outcomes.len() <= work.len(),
        0 <= k < outcomes.len(),
        !(outcomes[k] is Later),
    ensures
        pass_stash(work, outcomes, n).len() <= n,
        k < n ==> pass_stash(work, outcomes, n).len() < n,
    decreases n,
{
    if n > 0 {
        lemma_stash_len(work, outcomes, n - 1, k);
    }
}

/// Everything that waits is safe on disk.
pub proof fn law_what_waits_is_durable(
    work: Seq<WorkItem>,
    outcomes: Seq<Outcome>,
    n: int,
    i: int,
)
    requires
        0 <= n <= outcomes.len(),
        outcomes.len() <= work.len(),
        0 <= i < pass_stash(work, outcomes, n).len(),
    ensures
        pass_stash(work, outcomes, n)[i].sequence is Some,
    decreases n,
{
    if n > 0 {
        if i < pass_stash(work, outcomes, n - 1).len() {
            law_what_waits_is_durable(work, outcomes, n - 1, i);
        }
    }
}

// ---- Requests for missing fragments ----

/// What is asked of one peer.
pub struct PeerGroup {
    /// The peer.
    pub peer: Id,
    /// Positions of what is asked.
    pub items: Vec<usize>,
}

/// The positions among the first `n` that concern a peer.
pub open spec fn positions_of(peers: Seq<Option<Id>>, peer: Id, n: int) -> Seq<usize>
    decreases n,
{
    if n <= 0 {
        Seq::empty()
    } else if peers[n - 1] == Some(peer) {
        positions_of(peers, peer, n - 1).push((n - 1) as usize)
    } else {
        positions_of(peers, peer, n - 1)
    }
}

/// The peers of groups.
pub open spec fn group_peers(groups: Seq<PeerGroup>) -> Seq<Id> {
    Seq::new(groups.len(), |k: int| groups[k].peer)
}

/// Put what is asked of one peer together, by ascending peer. What no session is known for
/// is left out.
pub fn group_by_peer(peers: &Vec<Option<Id>>) -> (res: Vec<PeerGroup>)
    ensures
        ascending(group_peers(res@)),
        forall|id: Id| #[trigger]
            group_peers(res@).contains(id) <==> peers@.contains(Some(id)),
        forall|k: int|
            0 <= k < res@.len() ==> (#[trigger] res@[k]).items@ == positions_of(
                peers@,
                res@[k].peer,
                peers@.len() as int,
            ),
{
    let mut ids: Vec<Id> = Vec::new();
    let mut i: usize = 0;
    while i < peers.len()
        invariant
            i <= peers@.len(),
            ascending(ids@),
            forall|id: Id| #[trigger]
                ids@.to_set().contains(id) <==> peers@.take(i as int).contains(Some(id)),
        decreases peers@.len() - i,
    {
        let ghost before = ids@;
        if let Some(id) = peers[i] {
            insert_id(&mut ids, id);
        }
        proof {
            let front = peers@.take(i as int);
            let more = peers@.take(i + 1);
            assert(more =~= front.push(peers@[i as int]));
            assert forall|id: Id| #[trigger] ids@.to_set().contains(id) <==> more.contains(
                Some(id),
            ) by {
                assert(before.to_set().contains(id) <==> front.contains(Some(id)));
                if front.contains(Some(id)) {
                    let k = choose|k: int| 0 <= k < front.len() && front[k] == Some(id);
                    assert(more[k] == Some(id));
                }
                if peers@[i as int] == Some(id) {
                    assert(more[i as int] == Some(id));
                }
                if more.contains(Some(id)) {
                    let k = choose|k: int| 0 <= k < more.len() && more[k] == Some(id);
                    if k < i {
                        assert(front[k] == Some(id));
                    }
                }
            }
        }
        i = i + 1;
    }
    assert(peers@.take(i as int) =~= peers@);
    let mut groups: Vec<PeerGroup> = Vec::new();
    let mut g: usize = 0;
    while g < ids.len()
        invariant
            g <= ids@.len(),
            groups@.len() == g,
            forall|k: int| 0 <= k < g ==> (#[trigger] groups@[k]).peer == ids@[k],
            forall|k: int|
                0 <= k < g ==> (#[trigger] groups@[k]).items@ == positions_of(
                    peers@,
                    groups@[k].peer,
                    peers@.len() as int,
                ),
        decreases ids@.len() - g,
    {
        let peer = ids[g];
        let mut items: Vec<usize> = Vec::new();
        let mut k: usize = 0;
        while k < peers.len()
            invariant
                k <= peers@.len(),
                items@ == positions_of(peers@, peer, k as int),
            decreases peers@.len() - k,
        {
            if let Some(id) = peers[k] {
                if same(&id, &peer) {
                    items.push(k);
                }
            }
            k = k + 1;
        }
        groups.push(PeerGroup { peer, items });
        g = g + 1;
    }
    proof {
        assert(group_peers(groups@) =~= ids@);
        assert forall|id: Id| #[trigger]
            group_peers(groups@).contains(id) <==> peers@.contains(Some(id)) by {
            assert(ids@.to_set().contains(id) == ids@.contains(id));
        }
    }
    groups
}

// ---- Wake collections ----

/// Begin a wake collection: how long it may take, in nanoseconds. There is none without any
/// time, nor while another is running.
pub fn wake_tick(budget_nanos: u128, running: bool) -> (res: Result<u64>)
    ensures
        match res {
            Ok(nanos) => budget_nanos > 0 && !running && nanos == if budget_nanos
                < MAX_WAKE_COLLECTION_SECS * 1_000_000_000 {
                budget_nanos as int
            } else {
                MAX_WAKE_COLLECTION_SECS * 1_000_000_000
            },
            Err(e) => (budget_nanos == 0 || running) && e == NodeError::WakeUnavailable,
        },
{
    if budget_nanos == 0 || running {
        return Err(NodeError::WakeUnavailable);
    }
    let most: u64 = MAX_WAKE_COLLECTION_SECS * 1_000_000_000;
    if budget_nanos < most as u128 {
        Ok(budget_nanos as u64)
    } else {
        Ok(most)
    }
}

/// What the carrier of an introduction that was consumed at once is answered: that it was
/// accepted, where it was dealt with.
pub fn accepts_introduction(outcome: &Outcome) -> (res: bool)
    ensures
        res == (*outcome is Done || *outcome is DoneAtomic),
{
    match outcome {
        Outcome::Done | Outcome::DoneAtomic => true,
        _ => false,
    }
}

/// Whether a carrier is drained: a wake collection leaves out those that cost airtime or
/// take as long as people do.
pub fn drains_carrier(wake: bool, airtime: bool, human_scale: bool) -> (res: bool)
    ensures
        res == !(wake && (airtime || human_scale)),
{
    !(wake && (airtime || human_scale))
}

/// Whether old deliveries are swept in this pass, and when next.
pub fn sweep_due(next: u64, now: u64) -> (res: (bool, u64))
    ensures
        res.0 == (now >= next),
        res.1 == if now >= next {
            if now + DELIVERY_SWEEP_INTERVAL_SECS > u64::MAX {
                u64::MAX
            } else {
                (now + DELIVERY_SWEEP_INTERVAL_SECS) as u64
            }
        } else {
            next
        },
{
    if now >= next {
        (true, now.saturating_add(DELIVERY_SWEEP_INTERVAL_SECS))
    } else {
        (false, next)
    }
}

// ---- The order of a pass ----

/// A step of a pass.
#[derive(Clone, Copy, Debug, PartialEq, Eq, Structural)]
pub enum TickStep {
    /// Take back the marker of changes that were delivered.
    AcknowledgePresentation,
    /// Take over what other own devices settled.
    ApplyDeviceSync,
    /// Drop expired message requests.
    SweepAdmission,
    /// Bring stored media into line.
    ReconcileMedia,
    /// Work off controls that were put aside.
    ApplyDeferredControls,
    /// Remove what has disappeared.
    SweepEphemeral,
    /// Give up on old deliveries.
    SweepFailedDeliveries,
    /// End old calls.
    SweepCalls,
    /// Make handshakes for lost sessions.
    RekeyResetPeers,
    /// Make handshakes that set up rendezvous.
    ProcessRehandshakes,
    /// Make up for missing copies.
    QueuePendingDeliveries,
    /// Send scheduled messages.
    ActivateScheduled,
    /// Say what content is understood.
    AdvertiseCapabilities,
    /// Say how this account is discovered.
    AdvertiseDiscovery,
    /// Say which rendezvous providers are used.
    AdvertiseRendezvous,
    /// Register and look up with rendezvous providers.
    MaintainRendezvous,
    /// Take up what was put aside and what carriers hand over.
    Gather,
    /// Drop what has expired.
    DropExpired,
    /// Consume what was gathered.
    Consume,
    /// Work for groups.
    TickGroups,
    /// Find out what carriers can do.
    RefreshCarriers,
    /// Offer and ask for attachments.
    ActivateAttachments,
    /// Ask for missing fragments.
    RequestFragments,
    /// Drop what was put aside and is dealt with.
    AcknowledgePending,
    /// Ask for the routes of peers that something waits for.
    RequestRoutes,
    /// Send what is queued.
    Flush,
    /// Wake peers up.
    MaintainWake,
    /// Pass on what is for others.
    FlushTransit,
    /// Deliver events.
    DrainEvents,
}

/// The steps before anything is received.
pub open spec fn upkeep_steps(sweep: bool, media_reconciled: bool) -> Seq<TickStep> {
    seq![
        TickStep::AcknowledgePresentation,
        TickStep::ApplyDeviceSync,
        TickStep::SweepAdmission,
    ] + if media_reconciled {
        Seq::empty()
    } else {
        seq![TickStep::ReconcileMedia]
    } + seq![TickStep::ApplyDeferredControls, TickStep::SweepEphemeral] + if sweep {
        seq![TickStep::SweepFailedDeliveries]
    } else {
        Seq::empty()
    } + seq![
        TickStep::SweepCalls,
        TickStep::RekeyResetPeers,
        TickStep::ProcessRehandshakes,
        TickStep::QueuePendingDeliveries,
        TickStep::ActivateScheduled,
        TickStep::AdvertiseCapabilities,
        TickStep::AdvertiseDiscovery,
        TickStep::AdvertiseRendezvous,
        TickStep::MaintainRendezvous,
    ]
}

/// The steps of a pass. A wake collection only receives, and asks for routes.
pub open spec fn pass_steps(wake: bool, sweep: bool, media_reconciled: bool) -> Seq<TickStep> {
    if wake {
        seq![
            TickStep::Gather,
            TickStep::DropExpired,
            TickStep::Consume,
            TickStep::AcknowledgePending,
            TickStep::RequestRoutes,
            TickStep::MaintainRendezvous,
            TickStep::DrainEvents,
        ]
    } else {
        upkeep_steps(sweep, media_reconciled) + seq![
            TickStep::Gather,
            TickStep::DropExpired,
            TickStep::Consume,
            TickStep::ApplyDeferredControls,
            TickStep::TickGroups,
            TickStep::RefreshCarriers,
            TickStep::ActivateAttachments,
            TickStep::RequestFragments,
            TickStep::AcknowledgePending,
            TickStep::Flush,
            TickStep::MaintainWake,
            TickStep::FlushTransit,
            TickStep::DrainEvents,
        ]
    }
}

/// The steps of a pass, in order.
pub fn tick(wake: bool, sweep: bool, media_reconciled: bool) -> (res: Vec<TickStep>)
    ensures
        res@ == pass_steps(wake, sweep, media_reconciled),
{
    let mut steps: Vec<TickStep> = Vec::new();
    if !wake {
        steps.push(TickStep::AcknowledgePresentation);
        steps.push(TickStep::ApplyDeviceSync);
        steps.push(TickStep::SweepAdmission);
        if !media_reconciled {
            steps.push(TickStep::ReconcileMedia);
        }
        steps.push(TickStep::ApplyDeferredControls);
        steps.push(TickStep::SweepEphemeral);
        if sweep {
            steps.push(TickStep::SweepFailedDeliveries);
        }
        steps.push(TickStep::SweepCalls);
        steps.push(TickStep::RekeyResetPeers);
        steps.push(TickStep::ProcessRehandshakes);
        steps.push(TickStep::QueuePendingDeliveries);
        steps.push(TickStep::ActivateScheduled);
        steps.push(TickStep::AdvertiseCapabilities);
        steps.push(TickStep::AdvertiseDiscovery);
        steps.push(TickStep::AdvertiseRendezvous);
        steps.push(TickStep::MaintainRendezvous);
        assert(steps@ =~= upkeep_steps(sweep, media_reconciled));
    }
    steps.push(TickStep::Gather);
    steps.push(TickStep::DropExpired);
    steps.push(TickStep::Consume);
    if !wake {
        steps.push(TickStep::ApplyDeferredControls);
        steps.push(TickStep::TickGroups);
        steps.push(TickStep::RefreshCarriers);
        steps.push(TickStep::ActivateAttachments);
        steps.push(TickStep::RequestFragments);
    }
    steps.push(TickStep::AcknowledgePending);
    if wake {
        steps.push(TickStep::RequestRoutes);
        steps.push(TickStep::MaintainRendezvous);
    } else {
        steps.push(TickStep::Flush);
        steps.push(TickStep::MaintainWake);
        steps.push(TickStep::FlushTransit);
    }
    steps.push(TickStep::DrainEvents);
    assert(steps@ =~= pass_steps(wake, sweep, media_reconciled));
    steps
}

/// What has disappeared is removed before anything is queued, received, offered or sent: a
/// restart or a jump of the clock cannot bring it back.
pub proof fn law_expiry_comes_first(sweep: bool, media_reconciled: bool, i: int, j: int)
    requires
        0 <= i < pass_steps(false, sweep, media_reconciled).len(),
        0 <= j < pass_steps(false, sweep, media_reconciled).len(),
        pass_steps(false, sweep, media_reconciled)[i] == TickStep::SweepEphemeral,
        ({
            let later = pass_steps(false, sweep, media_reconciled)[j];
            later == TickStep::QueuePendingDeliveries || later == TickStep::ActivateScheduled
                || later == TickStep::Gather || later == TickStep::Consume || later
                == TickStep::ActivateAttachments || later == TickStep::Flush || later
                == TickStep::FlushTransit
        }),
    ensures
        i < j,
{
}

/// A wake collection sends nothing: it neither flushes messages nor passes anything on, and
/// starts no attachments.
pub proof fn law_wake_collections_only_receive(sweep: bool, media_reconciled: bool, i: int)
    requires
        0 <= i < pass_steps(true, sweep, media_reconciled).len(),
    ensures
        ({
            let step = pass_steps(true, sweep, media_reconciled)[i];
            step != TickStep::Flush && step != TickStep::FlushTransit && step
                != TickStep::ActivateAttachments && step != TickStep::ActivateScheduled && step
                != TickStep::SweepCalls
        }),
{
}

/// Own traffic goes before what is for others.
pub proof fn law_own_traffic_goes_first(sweep: bool, media_reconciled: bool, i: int, j: int)
    requires
        0 <= i < pass_steps(false, sweep, media_reconciled).len(),
        0 <= j < pass_steps(false, sweep, media_reconciled).len(),
        pass_steps(false, sweep, media_reconciled)[i] == TickStep::Flush,
        pass_steps(false, sweep, media_reconciled)[j] == TickStep::FlushTransit,
    ensures
        i < j,
{
}

// ---- Laws of gathering ----

/// A collection that was woken takes half as much work as a full pass, and only half a
/// megabyte of it; a full pass goes by number alone.
pub proof fn law_room_for_work(g: GatherView, encoded_len: usize)
    ensures
        g.wake ==> g.limit() == 32,
        !g.wake ==> g.limit() == 64,
        !g.wake ==> g.fits(encoded_len) && g.bytes_with(encoded_len) == g.bytes,
        g.wake ==> g.fits(encoded_len) == (g.bytes + encoded_len <= 524_288) && g.bytes_with(
            encoded_len,
        ) == g.bytes + encoded_len,
{
}

/// What becomes of an arrival that was gathered before: it is accepted when it is safely kept
/// or was seen, but never as a direct introduction.
pub proof fn law_repeated_arrivals(g: GatherView, arrival: Arrival)
    requires
        g.gathered.contains(arrival.content_id),
    ensures
        ({
            let introduction = arrival.ingress == IngressClass::Direct && arrival.kind
                == EnvelopeKind::Handshake && arrival.is_introduction;
            arrival_step(g, arrival) == (ArrivalStep::Settle {
                accept: !introduction && (g.durable.contains(arrival.content_id) || arrival.seen),
            })
        }),
{
}

/// What becomes of a new arrival: pieces are put together while there is room, a direct
/// introduction with a receipt is taken at once in a full pass, and everything else is staged
/// while there is room. Nothing is accepted before it is kept.
pub proof fn law_new_arrivals(g: GatherView, arrival: Arrival)
    requires
        !g.gathered.contains(arrival.content_id),
    ensures
        ({
            let step = arrival_step(g, arrival);
            let introduction = arrival.ingress == IngressClass::Direct && arrival.kind
                == EnvelopeKind::Handshake && arrival.is_introduction && arrival.has_receipt;
            let refused = ArrivalStep::Settle { accept: false };
            &&& arrival.kind == EnvelopeKind::Fragment && g.fragments < g.limit() && g.fits(
                arrival.encoded_len,
            ) ==> step == ArrivalStep::Assemble
            &&& arrival.kind == EnvelopeKind::Fragment && (g.fragments >= g.limit() || !g.fits(
                arrival.encoded_len,
            )) ==> step == refused
            &&& introduction && !g.wake && !arrival.seen ==> step == ArrivalStep::ConsumeNow
            &&& introduction && (g.wake || arrival.seen) ==> step == refused
            &&& arrival.kind != EnvelopeKind::Fragment && !introduction && g.fits(
                arrival.encoded_len,
            ) ==> step == ArrivalStep::Stage
            &&& arrival.kind != EnvelopeKind::Fragment && !introduction && !g.fits(
                arrival.encoded_len,
            ) ==> step == refused
        }),
{
}

/// An arrival is kept with everything that is known of it.
pub proof fn law_arrivals_are_kept_whole(arrival: Arrival, sequence: Option<i64>, now: u64)
    ensures
        ({
            let item = work_of(arrival, sequence, now);
            &&& item.sequence == sequence
            &&& item.content_id == arrival.content_id
            &&& item.encoded_len == arrival.encoded_len
            &&& item.first_seen == now
            &&& item.transport == arrival.transport
            &&& item.retention_until == arrival.retention_until
            &&& item.source == arrival.source
        }),
{
}

/// Work that waits is taken up in order until the room is used up; a second copy is dropped as
/// soon as the first is taken.
pub proof fn law_waiting_work_is_taken_up(progress: PendingProgress, item: WorkItem)
    ensures
        ({
            let after = pending_step(progress, item);
            let g = progress.gather;
            let open = !progress.full && g.fits(item.encoded_len);
            &&& !open ==> after.full && after.gather == g && after.redundant == progress.redundant
            &&& open ==> !after.full && after.gather.durable.contains(item.content_id)
            &&& open && !g.gathered.contains(item.content_id) ==> {
                &&& after.gather.work == g.work.push(item)
                &&& after.gather.gathered == g.gathered.insert(item.content_id)
                &&& after.gather.bytes == g.bytes_with(item.encoded_len)
                &&& after.redundant == progress.redundant
            }
            &&& open && g.gathered.contains(item.content_id) ==> {
                &&& after.gather.work == g.work
                &&& after.gather.gathered == g.gathered
                &&& item.sequence is Some ==> after.redundant == progress.redundant.push(
                    PendingDelete { sequence: item.sequence->0, content_id: item.content_id },
                )
                &&& item.sequence is None ==> after.redundant == progress.redundant
            }
        }),
{
}

/// A full pass takes up the first sixty-four, and each content of them once.
pub proof fn law_full_passes_take_all_waiting_work(pending: Seq<WorkItem>, n: int, i: int)
    requires
        0 <= i < n <= pending.len(),
    ensures
        ({
            let progress = pending_taken(false, pending, n);
            &&& !progress.full
            &&& !progress.gather.wake
            &&& progress.gather.gathered.contains(pending[i].content_id)
            &&& progress.gather.durable.contains(pending[i].content_id)
            &&& exists|k: int|
                0 <= k < progress.gather.work.len() && (
                #[trigger] progress.gather.work[k]).content_id == pending[i].content_id
        }),
        pending_considered(false, pending) == if pending.len() < 64 {
            pending.len() as int
        } else {
            64
        },
        pending_considered(true, pending) == if pending.len() < 32 {
            pending.len() as int
        } else {
            32
        },
    decreases n,
{
    lemma_full_pass(pending, n);
    let progress = pending_taken(false, pending, n);
    let prior = pending_taken(false, pending, n - 1);
    lemma_full_pass(pending, n - 1);
    if i < n - 1 {
        law_full_passes_take_all_waiting_work(pending, n - 1, i);
        let k = choose|k: int|
            0 <= k < prior.gather.work.len() && (#[trigger] prior.gather.work[k]).content_id
                == pending[i].content_id;
        assert(progress.gather.work[k] == prior.gather.work[k]);
    } else if prior.gather.gathered.contains(pending[i].content_id) {
        let k = choose|k: int|
            0 <= k < prior.gather.work.len() && (#[trigger] prior.gather.work[k]).content_id
                == pending[i].content_id;
        assert(progress.gather.work[k] == prior.gather.work[k]);
    } else {
        assert(progress.gather.work.last() == pending[i]);
        assert(progress.gather.work[progress.gather.work.len() - 1].content_id
            == pending[i].content_id);
    }
}

proof fn lemma_full_pass(pending: Seq<WorkItem>, n: int)
    requires
        0 <= n <= pending.len(),
    ensures
        ({
            let progress = pending_taken(false, pending, n);
            &&& !progress.full
            &&& !progress.gather.wake
            &&& forall|id: ContentId| #[trigger]
                progress.gather.gathered.contains(id) ==> exists|k: int|
                    0 <= k < progress.gather.work.len() && (
                    #[trigger] progress.gather.work[k]).content_id == id
        }),
    decreases n,
{
    if n > 0 {
        lemma_full_pass(pending, n - 1);
        let prior = pending_taken(false, pending, n - 1);
        let progress = pending_taken(false, pending, n);
        assert forall|id: ContentId| #[trigger]
            progress.gather.gathered.contains(id) implies exists|k: int|
            0 <= k < progress.gather.work.len() && (#[trigger] progress.gather.work[k]).content_id
                == id by {
            if prior.gather.gathered.contains(id) {
                let k = choose|k: int|
                    0 <= k < prior.gather.work.len() && (
                    #[trigger] prior.gather.work[k]).content_id == id;
                assert(progress.gather.work[k] == prior.gather.work[k]);
            } else {
                assert(progress.gather.work[progress.gather.work.len() - 1].content_id == id);
            }
        }
    }
}

/// Work is given up after thirty days, or when its time has passed.
pub proof fn law_when_work_expires(item: WorkItem, now: u64)
    ensures
        now > item.first_seen + 2_592_000 ==> has_expired(item, now),
        item.retention_until is Some && item.retention_until->0 <= now ==> has_expired(item, now),
        now <= item.first_seen + 2_592_000 && (item.retention_until is None || now
            < item.retention_until->0) ==> !has_expired(item, now),
{
}

/// Everything that expired is remembered as seen, and taken out of the store where it was
/// kept.
pub proof fn law_expired_work_is_taken_out(work: Seq<WorkItem>, now: u64, n: int, i: int)
    requires
        0 <= i < n <= work.len(),
        has_expired(work[i], now),
    ensures
        expired_ids(work, now, n).contains(work[i].content_id),
        work[i].sequence matches Some(sequence) ==> expired_deletes(work, now, n).contains(
            PendingDelete { sequence, content_id: work[i].content_id },
        ),
    decreases n,
{
    let ids = expired_ids(work, now, n);
    let deletes = expired_deletes(work, now, n);
    let gone = PendingDelete { sequence: work[i].sequence->0, content_id: work[i].content_id };
    if i < n - 1 {
        law_expired_work_is_taken_out(work, now, n - 1, i);
        let before = expired_ids(work, now, n - 1);
        let k = choose|k: int| 0 <= k < before.len() && before[k] == work[i].content_id;
        assert(ids[k] == work[i].content_id);
        if work[i].sequence is Some {
            let before = expired_deletes(work, now, n - 1);
            let k = choose|k: int| 0 <= k < before.len() && before[k] == gone;
            assert(deletes[k] == gone);
        }
    } else {
        assert(ids.last() == work[i].content_id);
        if work[i].sequence is Some {
            assert(deletes.last() == gone);
        }
    }
}

/// Nothing else is taken out: as many rows go as expired.
pub proof fn law_only_expired_work_is_taken_out(work: Seq<WorkItem>, now: u64, n: int)
    requires
        0 <= n <= work.len(),
    ensures
        expired_ids(work, now, n).len() == work.take(n).filter(
            |item: WorkItem| has_expired(item, now),
        ).len(),
        expired_deletes(work, now, n).len() == work.take(n).filter(
            |item: WorkItem| has_expired(item, now) && item.sequence is Some,
        ).len(),
    decreases n,
{
    reveal(Seq::filter);
    if n > 0 {
        law_only_expired_work_is_taken_out(work, now, n - 1);
        assert(work.take(n).drop_last() =~= work.take(n - 1));
        assert(work.take(n).last() == work[n - 1]);
    } else {
        assert(work.take(0) =~= Seq::<WorkItem>::empty());
    }
}

// ---- Laws of consuming ----

/// Only what must wait waits, under the row it has or was given.
pub proof fn law_what_waits(item: WorkItem, restaged: Option<i64>)
    ensures
        waits_at(item, Outcome::Done) is None,
        waits_at(item, Outcome::DoneAtomic) is None,
        waits_at(item, Outcome::RejectedAtomic) is None,
        item.sequence is Some ==> waits_at(item, Outcome::Later { restaged }) == item.sequence,
        item.sequence is None ==> waits_at(item, Outcome::Later { restaged }) == restaged,
{
}

/// Work that is done is taken out of the store where it was kept, work that was settled with
/// its own transaction is not touched again, and what must wait is tried again.
pub proof fn law_consumed_work(work: Seq<WorkItem>, outcomes: Seq<Outcome>, n: int, i: int)
    requires
        0 <= i < n <= outcomes.len(),
        outcomes.len() <= work.len(),
    ensures
        outcomes[i] is Done && work[i].sequence is Some ==> pass_acks(work, outcomes, n).contains(
            PendingDelete { sequence: work[i].sequence->0, content_id: work[i].content_id },
        ),
        outcomes[i] is Later && work[i].sequence is Some ==> pass_stash(
            work,
            outcomes,
            n,
        ).contains(work[i]),
        pass_acks(work, outcomes, n).len() <= n,
        pass_acks(work, outcomes, n).len() + pass_stash(work, outcomes, n).len() <= n,
    decreases n,
{
    let acks = pass_acks(work, outcomes, n);
    let stash = pass_stash(work, outcomes, n);
    let done = PendingDelete { sequence: work[i].sequence->0, content_id: work[i].content_id };
    if n > 1 {
        law_consumed_work(
            work,
            outcomes,
            n - 1,
            if i < n - 1 {
                i
            } else {
                0
            },
        );
    } else {
        assert(pass_acks(work, outcomes, 0).len() == 0);
        assert(pass_stash(work, outcomes, 0).len() == 0);
    }
    if i < n - 1 {
        let before = pass_acks(work, outcomes, n - 1);
        if before.contains(done) {
            let k = choose|k: int| 0 <= k < before.len() && before[k] == done;
            assert(acks[k] == done);
        }
        let before = pass_stash(work, outcomes, n - 1);
        if before.contains(work[i]) {
            let k = choose|k: int| 0 <= k < before.len() && before[k] == work[i];
            assert(stash[k] == work[i]);
        }
    } else {
        if outcomes[i] is Done && work[i].sequence is Some {
            assert(acks.last() == done);
        }
        if outcomes[i] is Later && work[i].sequence is Some {
            assert(stash.last() == work[i]);
        }
    }
}

/// Each request is sent to the peer it is for: a position stands in the group of its peer and
/// in no other.
pub proof fn law_requests_go_to_their_peer(peers: Seq<Option<Id>>, peer: Id, n: int, i: int)
    requires
        0 <= i < peers.len() <= usize::MAX,
        0 <= n <= peers.len(),
    ensures
        positions_of(peers, peer, n).contains(i as usize) <==> i < n && peers[i] == Some(peer),
    decreases n,
{
    if n > 0 {
        law_requests_go_to_their_peer(peers, peer, n - 1, i);
        let prior = positions_of(peers, peer, n - 1);
        let all = positions_of(peers, peer, n);
        if prior.contains(i as usize) {
            let k = choose|k: int| 0 <= k < prior.len() && prior[k] == i as usize;
            assert(all[k] == i as usize);
        }
        if i == n - 1 && peers[i] == Some(peer) {
            assert(all.last() == i as usize);
        }
        if all.contains(i as usize) && !prior.contains(i as usize) {
            let k = choose|k: int| 0 <= k < all.len() && all[k] == i as usize;
            assert(k == prior.len());
        }
    }
}

// ---- Laws of the order of a pass ----

/// Every pass gathers, drops what expired, consumes, acknowledges, and tells what happened
/// last, in this order.
pub proof fn law_every_pass_receives_in_order(wake: bool, sweep: bool, media_reconciled: bool)
    ensures
        ({
            let steps = pass_steps(wake, sweep, media_reconciled);
            &&& steps.last() == TickStep::DrainEvents
            &&& exists|i: int, j: int|
                0 <= i && i + 2 < j < steps.len() && #[trigger] steps[i] == TickStep::Gather
                    && steps[i + 1] == TickStep::DropExpired && steps[i + 2] == TickStep::Consume
                    && #[trigger] steps[j] == TickStep::AcknowledgePending
        }),
{
    let steps = pass_steps(wake, sweep, media_reconciled);
    if wake {
        assert(steps[0] == TickStep::Gather && steps[3] == TickStep::AcknowledgePending);
    } else {
        let n = upkeep_steps(sweep, media_reconciled).len() as int;
        assert(steps[n] == TickStep::Gather);
        assert(steps[n + 1] == TickStep::DropExpired);
        assert(steps[n + 2] == TickStep::Consume);
        assert(steps[n + 8] == TickStep::AcknowledgePending);
        assert(0 <= n && n + 2 < n + 8 < steps.len());
    }
}

/// A full pass starts with what was shown, keeps everything up before it receives, and sends
/// after it has received. Failed deliveries are swept and media reconciled only when due.
pub proof fn law_full_passes_in_order(sweep: bool, media_reconciled: bool)
    ensures
        ({
            let up = upkeep_steps(sweep, media_reconciled);
            let steps = pass_steps(false, sweep, media_reconciled);
            &&& steps.take(up.len() as int) == up
            &&& steps.len() == up.len() + 13
            &&& up[0] == TickStep::AcknowledgePresentation
            &&& up[1] == TickStep::ApplyDeviceSync
            &&& up[2] == TickStep::SweepAdmission
            &&& up.last() == TickStep::MaintainRendezvous
            &&& up.contains(TickStep::ReconcileMedia) == !media_reconciled
            &&& up.contains(TickStep::SweepFailedDeliveries) == sweep
            &&& up.contains(TickStep::ApplyDeferredControls)
            &&& up.contains(TickStep::SweepEphemeral)
            &&& up.contains(TickStep::QueuePendingDeliveries)
            &&& up.contains(TickStep::ActivateScheduled)
            &&& steps[up.len() as int + 9] == TickStep::Flush
            &&& steps[up.len() as int + 11] == TickStep::FlushTransit
        }),
{
    let up = upkeep_steps(sweep, media_reconciled);
    let steps = pass_steps(false, sweep, media_reconciled);
    assert(steps.take(up.len() as int) =~= up);
    let a = if media_reconciled {
        0int
    } else {
        1
    };
    let b = if sweep {
        1int
    } else {
        0
    };
    assert(up.len() == 14 + a + b);
    if !media_reconciled {
        assert(up[3] == TickStep::ReconcileMedia);
    }
    assert(up[3 + a] == TickStep::ApplyDeferredControls);
    assert(up[4 + a] == TickStep::SweepEphemeral);
    if sweep {
        assert(up[5 + a] == TickStep::SweepFailedDeliveries);
    }
    assert(up[8 + a + b] == TickStep::QueuePendingDeliveries);
    assert(up[9 + a + b] == TickStep::ActivateScheduled);
}

/// Only what is done is taken out of the store, and only what must wait is tried again.
pub proof fn law_nothing_else_is_consumed(
    work: Seq<WorkItem>,
    outcomes: Seq<Outcome>,
    n: int,
    k: int,
)
    requires
        0 <= n <= outcomes.len(),
        outcomes.len() <= work.len(),
    ensures
        0 <= k < pass_acks(work, outcomes, n).len() ==> exists|i: int|
            0 <= i < n && outcomes[i] is Done && (#[trigger] work[i]).sequence == Some(
                pass_acks(work, outcomes, n)[k].sequence,
            ) && work[i].content_id == pass_acks(work, outcomes, n)[k].content_id,
        0 <= k < pass_stash(work, outcomes, n).len() ==> exists|i: int|
            0 <= i < n && outcomes[i] is Later && (#[trigger] work[i]).content_id == pass_stash(
                work,
                outcomes,
                n,
            )[k].content_id,
    decreases n,
{
    if n > 0 {
        law_nothing_else_is_consumed(work, outcomes, n - 1, k);
        let acks = pass_acks(work, outcomes, n);
        let before = pass_acks(work, outcomes, n - 1);
        if 0 <= k < acks.len() {
            if k < before.len() {
                assert(acks[k] == before[k]);
            } else {
                assert(work[n - 1].content_id == acks[k].content_id);
            }
        }
        let stash = pass_stash(work, outcomes, n);
        let before = pass_stash(work, outcomes, n - 1);
        if 0 <= k < stash.len() {
            if k < before.len() {
                assert(stash[k] == before[k]);
            } else {
                assert(work[n - 1].content_id == stash[k].content_id);
            }
        }
    }
}

/// A collection that was woken asks for routes and keeps rendezvous up between what it
/// received and what it tells.
pub proof fn law_woken_passes_in_order(sweep: bool, media_reconciled: bool)
    ensures
        ({
            let steps = pass_steps(true, sweep, media_reconciled);
            &&& steps.len() == 7
            &&& steps[0] == TickStep::Gather
            &&& steps[1] == TickStep::DropExpired
            &&& steps[2] == TickStep::Consume
            &&& steps[3] == TickStep::AcknowledgePending
            &&& steps[4] == TickStep::RequestRoutes
            &&& steps[5] == TickStep::MaintainRendezvous
            &&& steps[6] == TickStep::DrainEvents
        }),
{
}

/// Between receiving and sending a full pass applies what was put aside, turns to groups,
/// carriers and attachments, and asks for what is missing; after sending it turns to waking and
/// to what is under way for others.
pub proof fn law_full_passes_receive_and_send(sweep: bool, media_reconciled: bool)
    ensures
        ({
            let n = upkeep_steps(sweep, media_reconciled).len() as int;
            let steps = pass_steps(false, sweep, media_reconciled);
            &&& steps[n + 3] == TickStep::ApplyDeferredControls
            &&& steps[n + 4] == TickStep::TickGroups
            &&& steps[n + 5] == TickStep::RefreshCarriers
            &&& steps[n + 6] == TickStep::ActivateAttachments
            &&& steps[n + 7] == TickStep::RequestFragments
            &&& steps[n + 8] == TickStep::AcknowledgePending
            &&& steps[n + 10] == TickStep::MaintainWake
            &&& steps[n + 12] == TickStep::DrainEvents
        }),
{
}

/// Sessions that must be set up anew are, before anything is queued for them, and what devices
/// are to be told is told before routes are kept up.
pub proof fn law_upkeep_in_order(sweep: bool, media_reconciled: bool)
    ensures
        ({
            let up = upkeep_steps(sweep, media_reconciled);
            let n = up.len() as int;
            &&& up[n - 9] == TickStep::SweepCalls
            &&& up[n - 8] == TickStep::RekeyResetPeers
            &&& up[n - 7] == TickStep::ProcessRehandshakes
            &&& up[n - 6] == TickStep::QueuePendingDeliveries
            &&& up[n - 5] == TickStep::ActivateScheduled
            &&& up[n - 4] == TickStep::AdvertiseCapabilities
            &&& up[n - 3] == TickStep::AdvertiseDiscovery
            &&& up[n - 2] == TickStep::AdvertiseRendezvous
            &&& up[n - 1] == TickStep::MaintainRendezvous
        }),
{
}

} // verus!
