//! Selective retransmission: what the sender remembers of fragmented envelopes, and what
//! the receiver asks for again.

use vstd::prelude::*;

use crate::bytes::{lemma_same_id, same, Id};
use crate::wire::constant_time_same;

verus! {

/// How long a partial message may sit incomplete before its missing pieces are asked for.
pub const NACK_AFTER_SECS: u64 = 60;

/// Minimum spacing between requests for the same partial message.
pub const NACK_INTERVAL_SECS: u64 = 900;

/// Cap on remembered fragment sets.
pub const MAX_FRAG_CACHE: usize = 256;

/// Partial messages asked for in one pass.
pub const MAX_NACK_PARTIALS_PER_TICK: usize = 32;

/// Missing pieces asked for in one pass.
pub const MAX_NACK_INDICES_PER_TICK: usize = 4_096;

/// Name of a fragmented envelope.
pub type FragmentId = [u8; 4];

/// The pieces of one envelope that was sent in fragments.
pub struct SentFragments {
    /// Name of the envelope.
    pub id: FragmentId,
    /// Device it was sent to.
    pub peer: Id,
    /// Delivery token of the pieces.
    pub token: Id,
    /// When the pieces stop being worth delivering.
    pub retention_until: Option<u64>,
    /// The pieces.
    pub bodies: Vec<Vec<u8>>,
    /// When they were sent.
    pub sent_at: u64,
}

/// Sent fragment sets that can still be repaired.
pub struct FragmentCache {
    entries: Vec<SentFragments>,
}

/// Still within the receiver's window for putting pieces together.
pub open spec fn is_fresh(entry: SentFragments, now: u64, window: u64) -> bool {
    now - entry.sent_at <= window
}

/// Position of the first among the oldest entries of the first `n`.
pub open spec fn oldest(entries: Seq<SentFragments>, n: int) -> int
    decreases n,
{
    if n <= 1 {
        0
    } else {
        let best = oldest(entries, n - 1);
        if entries[n - 1].sent_at < entries[best].sent_at {
            n - 1
        } else {
            best
        }
    }
}

/// The oldest entries dropped until fewer than the cap remain.
pub open spec fn trimmed(entries: Seq<SentFragments>) -> Seq<SentFragments>
    decreases entries.len(),
{
    if entries.len() < MAX_FRAG_CACHE {
        entries
    } else {
        let at = oldest(entries, entries.len() as int);
        if 0 <= at < entries.len() {
            trimmed(entries.remove(at))
        } else {
            entries
        }
    }
}

/// The name that the first piece carries.
pub open spec fn name_in(bodies: Seq<Vec<u8>>) -> Option<Seq<u8>> {
    if bodies.len() > 0 && bodies[0]@.len() >= 4 {
        Some(bodies[0]@.take(4))
    } else {
        None
    }
}

proof fn lemma_oldest(entries: Seq<SentFragments>, n: int)
    requires
        1 <= n <= entries.len(),
    ensures
        0 <= oldest(entries, n) < n,
        forall|k: int| 0 <= k < n ==> entries[oldest(entries, n)].sent_at <= (
        #[trigger] entries[k]).sent_at,
    decreases n,
{
    if n > 1 {
        lemma_oldest(entries, n - 1);
    }
}

/// Trimming leaves fewer entries than the cap.
pub proof fn lemma_trimmed(entries: Seq<SentFragments>)
    ensures
        trimmed(entries).len() < MAX_FRAG_CACHE,
    decreases entries.len(),
{
    if entries.len() >= MAX_FRAG_CACHE {
        lemma_oldest(entries, entries.len() as int);
        lemma_trimmed(entries.remove(oldest(entries, entries.len() as int)));
    }
}

/// Drop the elements that do not meet a condition; the step for one element.
proof fn lemma_filter_in_place(
    whole: Seq<SentFragments>,
    keep: spec_fn(SentFragments) -> bool,
    j: int,
)
    requires
        0 <= j < whole.len(),
    ensures
        ({
            let kept = whole.take(j).filter(keep);
            let now = kept + whole.skip(j);
            let next = whole.take(j + 1).filter(keep) + whole.skip(j + 1);
            &&& now[kept.len() as int] == whole[j]
            &&& keep(whole[j]) ==> next == now && whole.take(j + 1).filter(keep).len()
                == kept.len() + 1
            &&& !keep(whole[j]) ==> next == now.remove(kept.len() as int) && whole.take(
                j + 1,
            ).filter(keep).len() == kept.len()
        }),
{
    crate::seqs::lemma_filter_step(whole, keep, j);
    let kept = whole.take(j).filter(keep);
    let now = kept + whole.skip(j);
    let next = whole.take(j + 1).filter(keep) + whole.skip(j + 1);
    if keep(whole[j]) {
        assert(next =~= now);
    } else {
        assert(next =~= now.remove(kept.len() as int));
    }
}

impl FragmentCache {
    /// The remembered sets, in the order in which they were added.
    pub closed spec fn entries(self) -> Seq<SentFragments> {
        self.entries@
    }

    /// The first set with the given name.
    pub open spec fn find_from(entries: Seq<SentFragments>, id: FragmentId, from: int) -> int
        decreases entries.len() - from,
    {
        if from >= entries.len() || entries[from].id == id {
            from
        } else {
            Self::find_from(entries, id, from + 1)
        }
    }

    /// Nothing remembered.
    pub fn new() -> (cache: FragmentCache)
        ensures
            cache.entries() == Seq::<SentFragments>::empty(),
    {
        FragmentCache { entries: Vec::new() }
    }

    /// The remembered set with the given name.
    pub fn get(&self, id: &FragmentId) -> (res: Option<&SentFragments>)
        ensures
            ({
                let at = Self::find_from(self.entries(), *id, 0);
                match res {
                    Some(entry) => 0 <= at < self.entries().len() && *entry == self.entries()[at]
                        && entry.id == *id,
                    None => at >= self.entries().len(),
                }
            }),
    {
        let mut at: usize = 0;
        while at < self.entries.len()
            invariant
                at <= self.entries@.len(),
                Self::find_from(self.entries@, *id, at as int) == Self::find_from(
                    self.entries@,
                    *id,
                    0,
                ),
            decreases self.entries@.len() - at,
        {
            if same(&self.entries[at].id, id) {
                return Some(&self.entries[at]);
            }
            at = at + 1;
        }
        None
    }

    /// Keep the entries that are fresh.
    fn retain_fresh(&mut self, now: u64, window: u64)
        ensures
            final(self).entries() == old(self).entries().filter(
                |e: SentFragments| is_fresh(e, now, window),
            ),
    {
        let ghost whole = self.entries@;
        let ghost keep = |e: SentFragments| is_fresh(e, now, window);
        let ghost mut j: int = 0;
        let mut i: usize = 0;
        proof {
            crate::seqs::lemma_filter_none(whole, keep);
            assert(whole.take(0).filter(keep) + whole.skip(0) =~= whole);
        }
        while i < self.entries.len()
            invariant
                0 <= j <= whole.len(),
                keep == (|e: SentFragments| is_fresh(e, now, window)),
                i == whole.take(j).filter(keep).len(),
                self.entries@ == whole.take(j).filter(keep) + whole.skip(j),
            decreases self.entries@.len() - i,
        {
            proof {
                lemma_filter_in_place(whole, keep, j);
            }
            if now.saturating_sub(self.entries[i].sent_at) <= window {
                assert(keep(whole[j]));
                i = i + 1;
            } else {
                assert(!keep(whole[j]));
                self.entries.remove(i);
            }
            proof {
                j = j + 1;
            }
        }
        proof {
            assert(whole.skip(j) =~= Seq::<SentFragments>::empty());
            assert(whole.take(j) =~= whole);
            assert(self.entries@ =~= whole.filter(keep));
        }
    }

    /// Drop the entry with the given name.
    fn forget(&mut self, id: FragmentId)
        ensures
            final(self).entries() == old(self).entries().filter(|e: SentFragments| e.id != id),
    {
        let ghost whole = self.entries@;
        let ghost keep = |e: SentFragments| e.id != id;
        let ghost mut j: int = 0;
        let mut i: usize = 0;
        proof {
            crate::seqs::lemma_filter_none(whole, keep);
            assert(whole.take(0).filter(keep) + whole.skip(0) =~= whole);
        }
        while i < self.entries.len()
            invariant
                0 <= j <= whole.len(),
                keep == (|e: SentFragments| e.id != id),
                i == whole.take(j).filter(keep).len(),
                self.entries@ == whole.take(j).filter(keep) + whole.skip(j),
            decreases self.entries@.len() - i,
        {
            proof {
                lemma_filter_in_place(whole, keep, j);
            }
            if !same(&self.entries[i].id, &id) {
                assert(keep(whole[j]));
                i = i + 1;
            } else {
                assert(!keep(whole[j]));
                self.entries.remove(i);
            }
            proof {
                j = j + 1;
            }
        }
        proof {
            assert(whole.skip(j) =~= Seq::<SentFragments>::empty());
            assert(whole.take(j) =~= whole);
            assert(self.entries@ =~= whole.filter(keep));
        }
    }

    /// Drop the oldest entries until there is room for one more.
    fn make_room(&mut self)
        ensures
            final(self).entries() == trimmed(old(self).entries()),
            final(self).entries().len() < MAX_FRAG_CACHE,
    {
        let ghost target = trimmed(self.entries@);
        while self.entries.len() >= MAX_FRAG_CACHE
            invariant
                trimmed(self.entries@) == target,
            decreases self.entries@.len(),
        {
            let ghost n = self.entries@.len() as int;
            let mut best: usize = 0;
            let mut i: usize = 1;
            while i < self.entries.len()
                invariant
                    1 <= i <= self.entries@.len(),
                    best < i,
                    best == oldest(self.entries@, i as int),
                decreases self.entries@.len() - i,
            {
                if self.entries[i].sent_at < self.entries[best].sent_at {
                    best = i;
                }
                i = i + 1;
            }
            self.entries.remove(best);
        }
    }

    /// Remember the pieces of a just-sent envelope so that exactly the missing ones can be
    /// sent again. Entries leave with the receiver's window, and beyond the cap the oldest
    /// leaves first. Pieces that carry no name are not remembered.
    pub fn remember_fragments(
        &mut self,
        peer: Id,
        token: Id,
        retention_until: Option<u64>,
        bodies: Vec<Vec<u8>>,
        now: u64,
        window: u64,
    )
        ensures
            match name_in(bodies@) {
                None => final(self).entries() == old(self).entries(),
                Some(name) => {
                        let entry = final(self).entries().last();
                        &&& entry.id@ == name
                        &&& entry.peer == peer
                        &&& entry.token == token
                        &&& entry.retention_until == retention_until
                        &&& entry.bodies == bodies
                        &&& entry.sent_at == now
                        &&& final(self).entries() == trimmed(
                            old(self).entries().filter(
                                |e: SentFragments| is_fresh(e, now, window),
                            ),
                        ).filter(|e: SentFragments| e.id != entry.id).push(entry)
                    },
            },
            old(self).entries().len() <= MAX_FRAG_CACHE ==> final(self).entries().len()
                <= MAX_FRAG_CACHE,
    {
        if bodies.len() == 0 || bodies[0].len() < 4 {
            return;
        }
        let first = &bodies[0];
        let id: FragmentId = [first[0], first[1], first[2], first[3]];
        assert(id@ =~= bodies@[0]@.take(4));
        self.retain_fresh(now, window);
        self.make_room();
        proof {
            crate::seqs::lemma_filter_kept(self.entries@, |e: SentFragments| e.id != id);
        }
        self.forget(id);
        let ghost others = self.entries@;
        let entry = SentFragments { id, peer, token, retention_until, bodies, sent_at: now };
        self.entries.push(entry);
        assert(self.entries@ == others.push(entry));
        assert(self.entries@.last() == entry);
    }

    /// The pieces to send again to `device`: of every requested set that was sent to it,
    /// the requested pieces that exist and are still worth delivering, up to `limit`.
    pub fn retransmissions(
        &self,
        device: Id,
        nacks: &Vec<(FragmentId, Vec<u16>)>,
        now: u64,
        limit: usize,
    ) -> (res: Vec<Retransmission>)
        ensures
            res@ == wanted_all(self.entries(), device, nacks@, now, nacks@.len() as int).take(
                shorter(
                    wanted_all(self.entries(), device, nacks@, now, nacks@.len() as int).len(),
                    limit as nat,
                ),
            ),
    {
        let ghost entries = self.entries@;
        let mut res: Vec<Retransmission> = Vec::new();
        let mut i: usize = 0;
        assert(wanted_all(entries, device, nacks@, now, 0).take(0) =~= Seq::<
            Retransmission,
        >::empty());
        while i < nacks.len()
            invariant
                i <= nacks@.len(),
                entries == self.entries@,
                ({
                    let all = wanted_all(entries, device, nacks@, now, i as int);
                    res@ == all.take(shorter(all.len(), limit as nat))
                }),
            decreases nacks@.len() - i,
        {
            let id = nacks[i].0;
            let indices = &nacks[i].1;
            let ghost all = wanted_all(entries, device, nacks@, now, i as int);
            let ghost more = wanted(entries, device, nacks@[i as int], now, 0);
            let eligible = match self.get(&id) {
                Some(cached) => if constant_time_same(cached.peer.as_slice(), device.as_slice()) {
                    proof {
                        lemma_same_id(cached.peer, device);
                    }
                    let live = match cached.retention_until {
                        Some(deadline) => deadline > now,
                        None => true,
                    };
                    if live {
                        Some((cached.bodies.len(), cached.retention_until))
                    } else {
                        None
                    }
                } else {
                    None
                },
                None => None,
            };
            if let Some((pieces, retention_until)) = eligible {
                let mut j: usize = 0;
                assert(wanted(entries, device, nacks@[i as int], now, 0) =~= Seq::<
                    Retransmission,
                >::empty());
                assert(all + Seq::<Retransmission>::empty() =~= all);
                while j < indices.len()
                    invariant
                        j <= indices@.len(),
                        i < nacks@.len(),
                        *indices == nacks@[i as int].1,
                        id == nacks@[i as int].0,
                        serviceable(entries, device, id, now) == Some((pieces, retention_until)),
                        ({
                            let some = all + wanted(
                                entries,
                                device,
                                nacks@[i as int],
                                now,
                                j as int,
                            );
                            res@ == some.take(shorter(some.len(), limit as nat))
                        }),
                    decreases indices@.len() - j,
                {
                    let index = indices[j];
                    let ghost some = all + wanted(entries, device, nacks@[i as int], now, j as int);
                    let ghost next = all + wanted(entries, device, nacks@[i as int], now, j + 1);
                    if (index as usize) < pieces {
                        let item = Retransmission { id, index, retention_until };
                        assert(next =~= some.push(item));
                        if res.len() < limit {
                            res.push(item);
                        }
                        assert(res@ =~= next.take(shorter(next.len(), limit as nat)));
                    } else {
                        assert(next =~= some);
                    }
                    j = j + 1;
                }
            } else {
                proof {
                    lemma_unserviceable(
                        entries,
                        device,
                        nacks@[i as int],
                        now,
                        indices@.len() as int,
                    );
                }
                assert(all + Seq::<Retransmission>::empty() =~= all);
            }
            i = i + 1;
        }
        res
    }
}

/// The smaller of two lengths.
pub open spec fn shorter(a: nat, b: nat) -> int {
    if a < b {
        a as int
    } else {
        b as int
    }
}

/// A piece to send again.
#[derive(Clone, Copy, Debug, PartialEq, Eq)]
pub struct Retransmission {
    /// Name of the envelope.
    pub id: FragmentId,
    /// The piece.
    pub index: u16,
    /// When it stops being worth delivering.
    pub retention_until: Option<u64>,
}

/// How many pieces of the named set may be sent again to `device`, and until when. A set
/// that was sent to someone else, or whose time has passed, is not sent again.
pub open spec fn serviceable(
    entries: Seq<SentFragments>,
    device: Id,
    id: FragmentId,
    now: u64,
) -> Option<(usize, Option<u64>)> {
    let at = FragmentCache::find_from(entries, id, 0);
    if 0 <= at < entries.len() && entries[at].peer == device && (entries[at].retention_until matches Some(
        deadline,
    ) ==> deadline > now) {
        Some((entries[at].bodies@.len() as usize, entries[at].retention_until))
    } else {
        None
    }
}

/// The pieces to send again for the first `n` requested indices of one set.
pub open spec fn wanted(
    entries: Seq<SentFragments>,
    device: Id,
    nack: (FragmentId, Vec<u16>),
    now: u64,
    n: int,
) -> Seq<Retransmission>
    decreases n,
{
    if n <= 0 {
        Seq::empty()
    } else {
        let prior = wanted(entries, device, nack, now, n - 1);
        match serviceable(entries, device, nack.0, now) {
            Some((pieces, retention_until)) => if nack.1@[n - 1] < pieces {
                prior.push(Retransmission { id: nack.0, index: nack.1@[n - 1], retention_until })
            } else {
                prior
            },
            None => prior,
        }
    }
}

/// The pieces to send again for the first `n` requested sets.
pub open spec fn wanted_all(
    entries: Seq<SentFragments>,
    device: Id,
    nacks: Seq<(FragmentId, Vec<u16>)>,
    now: u64,
    n: int,
) -> Seq<Retransmission>
    decreases n,
{
    if n <= 0 {
        Seq::empty()
    } else {
        wanted_all(entries, device, nacks, now, n - 1) + wanted(
            entries,
            device,
            nacks[n - 1],
            now,
            nacks[n - 1].1@.len() as int,
        )
    }
}

proof fn lemma_unserviceable(
    entries: Seq<SentFragments>,
    device: Id,
    nack: (FragmentId, Vec<u16>),
    now: u64,
    n: int,
)
    requires
        serviceable(entries, device, nack.0, now) is None,
    ensures
        wanted(entries, device, nack, now, n) == Seq::<Retransmission>::empty(),
    decreases n,
{
    if n > 0 {
        lemma_unserviceable(entries, device, nack, now, n - 1);
    }
}

/// Nobody but the device that a fragment set was sent to can have it sent again.
pub proof fn law_only_the_recipient_elicits_retransmission(
    entries: Seq<SentFragments>,
    device: Id,
    nack: (FragmentId, Vec<u16>),
    now: u64,
)
    ensures
        wanted(entries, device, nack, now, nack.1@.len() as int).len() > 0 ==> exists|k: int|
            0 <= k < entries.len() && (#[trigger] entries[k]).id == nack.0 && entries[k].peer
                == device,
{
    let at = FragmentCache::find_from(entries, nack.0, 0);
    if serviceable(entries, device, nack.0, now) is None {
        lemma_unserviceable(entries, device, nack, now, nack.1@.len() as int);
    } else {
        lemma_find_from(entries, nack.0, 0);
        assert(entries[at].id == nack.0);
    }
}

proof fn lemma_find_from(entries: Seq<SentFragments>, id: FragmentId, from: int)
    requires
        0 <= from <= entries.len(),
    ensures
        ({
            let at = FragmentCache::find_from(entries, id, from);
            from <= at <= entries.len() && (at < entries.len() ==> entries[at].id == id)
        }),
    decreases entries.len() - from,
{
    if from < entries.len() && entries[from].id != id {
        lemma_find_from(entries, id, from + 1);
    }
}

// ---- Receiver ----

/// What the receiver knows of a message that arrives in pieces.
#[derive(Clone, Copy, Debug, PartialEq, Eq)]
pub struct PartialMeta {
    /// Name of the message.
    pub id: FragmentId,
    /// Delivery token of the pieces.
    pub token: Id,
    /// When the first piece arrived.
    pub first_seen: u64,
    /// When its missing pieces were last asked for.
    pub last_nack: Option<u64>,
}

/// A partial message with the pieces that it misses.
pub type Missing = (FragmentId, Vec<u16>);

/// The partial message is among those that still miss pieces.
pub open spec fn is_tracked(missing: Seq<Missing>, id: FragmentId) -> bool {
    exists|i: int| 0 <= i < missing.len() && (#[trigger] missing[i]).0 == id
}

/// First entry with the given name, or the number of entries.
pub open spec fn meta_index(metas: Seq<PartialMeta>, id: FragmentId, from: int) -> int
    decreases metas.len() - from,
{
    if from >= metas.len() || metas[from].id == id {
        from
    } else {
        meta_index(metas, id, from + 1)
    }
}

/// Old enough to ask for, and not asked for recently.
pub open spec fn is_due(meta: PartialMeta, now: u64) -> bool {
    &&& now - meta.first_seen >= NACK_AFTER_SECS
    &&& (meta.last_nack matches Some(t) ==> now - t >= NACK_INTERVAL_SECS)
}

/// A request for the pieces of one partial message.
pub struct NackView {
    /// Name of the message.
    pub id: FragmentId,
    /// The pieces.
    pub indices: Seq<u16>,
}

/// The requests, with the number of pieces that may still be asked for.
pub struct NackState {
    /// The requests.
    pub nacks: Seq<NackView>,
    /// Pieces that may still be asked for.
    pub left: int,
}

/// The requests for the first `n` partial messages.
pub open spec fn nacks_for(
    metas: Seq<PartialMeta>,
    missing: Seq<Missing>,
    now: u64,
    n: int,
) -> NackState
    decreases n,
{
    if n <= 0 {
        NackState { nacks: Seq::empty(), left: MAX_NACK_INDICES_PER_TICK as int }
    } else {
        let prior = nacks_for(metas, missing, now, n - 1);
        let id = missing[n - 1].0;
        let lost = missing[n - 1].1@;
        let at = meta_index(metas, id, 0);
        if prior.nacks.len() < MAX_NACK_PARTIALS_PER_TICK && lost.len() > 0 && at < metas.len()
            && is_due(metas[at], now) && prior.left > 0 {
            let count = if lost.len() < prior.left {
                lost.len() as int
            } else {
                prior.left
            };
            NackState {
                nacks: prior.nacks.push(NackView { id, indices: lost.take(count) }),
                left: prior.left - count,
            }
        } else {
            prior
        }
    }
}

/// Requests as names and pieces.
pub open spec fn nack_views(nacks: Seq<Missing>) -> Seq<NackView> {
    nacks.map_values(|m: Missing| NackView { id: m.0, indices: m.1@ })
}

fn tracked_in(missing: &Vec<Missing>, id: &FragmentId) -> (res: bool)
    ensures
        res == is_tracked(missing@, *id),
{
    let mut i: usize = 0;
    while i < missing.len()
        invariant
            i <= missing@.len(),
            forall|k: int| 0 <= k < i ==> (#[trigger] missing@[k]).0 != *id,
        decreases missing@.len() - i,
    {
        if same(&missing[i].0, id) {
            assert(missing@[i as int].0 == *id);
            return true;
        }
        i = i + 1;
    }
    false
}

/// Partial messages in flight.
pub struct PartialTable {
    metas: Vec<PartialMeta>,
}

impl View for PartialTable {
    type V = Seq<PartialMeta>;

    closed spec fn view(&self) -> Seq<PartialMeta> {
        self.metas@
    }
}

impl PartialTable {
    /// Nothing in flight.
    pub fn new() -> (table: PartialTable)
        ensures
            table@ == Seq::<PartialMeta>::empty(),
    {
        PartialTable { metas: Vec::new() }
    }

    fn find(&self, id: &FragmentId) -> (at: usize)
        ensures
            at == meta_index(self@, *id, 0),
            at <= self@.len(),
    {
        let mut at: usize = 0;
        while at < self.metas.len() && !same(&self.metas[at].id, id)
            invariant
                at <= self.metas@.len(),
                meta_index(self.metas@, *id, at as int) == meta_index(self.metas@, *id, 0),
            decreases self.metas@.len() - at,
        {
            at = at + 1;
        }
        at
    }

    /// Note the arrival of a piece: only the first piece of a message is remembered. A
    /// body too short to carry a name is ignored.
    pub fn note_piece(&mut self, body: &Vec<u8>, token: Id, now: u64)
        ensures
            if body@.len() < 4 {
                final(self)@ == old(self)@
            } else {
                let known = exists|k: int|
                    0 <= k < old(self)@.len() && (#[trigger] old(self)@[k]).id@ == body@.take(4);
                if known {
                    final(self)@ == old(self)@
                } else {
                    &&& final(self)@.len() == old(self)@.len() + 1
                    &&& final(self)@.drop_last() == old(self)@
                    &&& final(self)@.last().id@ == body@.take(4)
                    &&& final(self)@.last().token == token
                    &&& final(self)@.last().first_seen == now
                    &&& final(self)@.last().last_nack is None
                }
            },
    {
        if body.len() < 4 {
            return;
        }
        let id: FragmentId = [body[0], body[1], body[2], body[3]];
        assert(id@ =~= body@.take(4));
        let mut i: usize = 0;
        while i < self.metas.len()
            invariant
                i <= self.metas@.len(),
                id@ == body@.take(4),
                self.metas@ == old(self).metas@,
                forall|k: int| 0 <= k < i ==> (#[trigger] self.metas@[k]).id@ != id@,
            decreases self.metas@.len() - i,
        {
            if same(&self.metas[i].id, &id) {
                assert(old(self)@[i as int].id@ == body@.take(4));
                return;
            }
            proof {
                if self.metas@[i as int].id@ == id@ {
                    lemma_same_fragment(self.metas@[i as int].id, id);
                }
            }
            i = i + 1;
        }
        self.metas.push(PartialMeta { id, token, first_seen: now, last_nack: None });
        assert(self@.drop_last() =~= old(self)@);
    }

    /// Note that the missing pieces of a message were asked for.
    pub fn note_nack(&mut self, id: &FragmentId, now: u64)
        ensures
            ({
                let at = meta_index(old(self)@, *id, 0);
                if at < old(self)@.len() {
                    final(self)@ == old(self)@.update(
                        at,
                        PartialMeta { last_nack: Some(now), ..old(self)@[at] },
                    )
                } else {
                    final(self)@ == old(self)@
                }
            }),
    {
        let at = self.find(id);
        if at < self.metas.len() {
            let mut meta = self.metas[at];
            meta.last_nack = Some(now);
            self.metas[at] = meta;
        }
    }

    /// Partial messages that are due for a request, with the pieces to ask for. Also
    /// forgets the partial messages that miss nothing any more.
    pub fn stale_partials(&mut self, missing: &Vec<Missing>, now: u64) -> (res: Vec<Missing>)
        ensures
            final(self)@ == old(self)@.filter(|m: PartialMeta| is_tracked(missing@, m.id)),
            nack_views(res@) == nacks_for(
                final(self)@,
                missing@,
                now,
                missing@.len() as int,
            ).nacks,
    {
        let ghost whole = self.metas@;
        let ghost keep = |m: PartialMeta| is_tracked(missing@, m.id);
        let mut kept: Vec<PartialMeta> = Vec::new();
        let mut i: usize = 0;
        proof {
            crate::seqs::lemma_filter_none(whole, keep);
        }
        while i < self.metas.len()
            invariant
                i <= self.metas@.len(),
                whole == self.metas@,
                keep == (|m: PartialMeta| is_tracked(missing@, m.id)),
                kept@ == whole.take(i as int).filter(keep),
            decreases self.metas@.len() - i,
        {
            proof {
                crate::seqs::lemma_filter_step(whole, keep, i as int);
            }
            let meta = self.metas[i];
            if tracked_in(missing, &meta.id) {
                kept.push(meta);
            }
            i = i + 1;
        }
        proof {
            crate::seqs::lemma_take_all(whole);
        }
        self.metas = kept;
        let ghost metas = self.metas@;
        let mut res: Vec<Missing> = Vec::new();
        let mut left: usize = MAX_NACK_INDICES_PER_TICK;
        let mut i: usize = 0;
        assert(nack_views(res@) =~= Seq::<NackView>::empty());
        while i < missing.len()
            invariant
                i <= missing@.len(),
                metas == self.metas@,
                nack_views(res@) == nacks_for(metas, missing@, now, i as int).nacks,
                left == nacks_for(metas, missing@, now, i as int).left,
            decreases missing@.len() - i,
        {
            let id = missing[i].0;
            let lost = &missing[i].1;
            let at = self.find(&id);
            let ghost done = nack_views(res@);
            assert(done.len() == res@.len());
            if res.len() < MAX_NACK_PARTIALS_PER_TICK && lost.len() > 0 && at < self.metas.len()
                && left > 0 {
                let meta = self.metas[at];
                let recent = match meta.last_nack {
                    Some(t) => now.saturating_sub(t) < NACK_INTERVAL_SECS,
                    None => false,
                };
                if now.saturating_sub(meta.first_seen) >= NACK_AFTER_SECS && !recent {
                    let count: usize = if lost.len() < left { lost.len() } else { left };
                    let mut indices: Vec<u16> = Vec::new();
                    let mut j: usize = 0;
                    while j < count
                        invariant
                            j <= count <= lost@.len(),
                            indices@ == lost@.take(j as int),
                        decreases count - j,
                    {
                        indices.push(lost[j]);
                        j = j + 1;
                        assert(indices@ =~= lost@.take(j as int));
                    }
                    left = left - count;
                    res.push((id, indices));
                    assert(nack_views(res@) =~= done.push(NackView { id, indices: indices@ }));
                }
            }
            i = i + 1;
        }
        res
    }
}

proof fn lemma_same_fragment(a: FragmentId, b: FragmentId)
    requires
        a@ == b@,
    ensures
        a == b,
{
    assert forall|i: int| 0 <= i < 4 implies a[i] == b[i] by {
        assert(a@[i] == b@[i]);
    }
    assert(a =~= b);
}

/// Pieces asked for in the first `n` requests.
pub open spec fn asked(nacks: Seq<NackView>, n: int) -> int
    decreases n,
{
    if n <= 0 {
        0
    } else {
        asked(nacks, n - 1) + nacks[n - 1].indices.len()
    }
}

/// One pass never asks for more partial messages or pieces than the bounds allow.
pub proof fn law_nacks_are_bounded(
    metas: Seq<PartialMeta>,
    missing: Seq<Missing>,
    now: u64,
    n: int,
)
    requires
        n <= missing.len(),
    ensures
        ({
            let state = nacks_for(metas, missing, now, n);
            &&& state.nacks.len() <= MAX_NACK_PARTIALS_PER_TICK
            &&& 0 <= state.left
            &&& asked(state.nacks, state.nacks.len() as int) + state.left
                == MAX_NACK_INDICES_PER_TICK
        }),
    decreases n,
{
    if n > 0 {
        law_nacks_are_bounded(metas, missing, now, n - 1);
        let prior = nacks_for(metas, missing, now, n - 1).nacks;
        let state = nacks_for(metas, missing, now, n);
        if state.nacks.len() > prior.len() {
            lemma_asked_prefix(prior, state.nacks, prior.len() as int);
        }
    }
}

proof fn lemma_asked_prefix(a: Seq<NackView>, b: Seq<NackView>, n: int)
    requires
        0 <= n <= a.len() <= b.len(),
        forall|i: int| 0 <= i < n ==> #[trigger] a[i] == b[i],
    ensures
        asked(a, n) == asked(b, n),
    decreases n,
{
    if n > 0 {
        lemma_asked_prefix(a, b, n - 1);
    }
}

// ---- Laws ----

/// Pieces are remembered for the length of the window.
pub proof fn law_how_long_pieces_are_remembered(entry: SentFragments, now: u64, window: u64)
    ensures
        is_fresh(entry, now, window) <==> now <= entry.sent_at + window,
{
}

/// When the memory is full the set that was sent first is forgotten, and no more than needed.
pub proof fn law_the_oldest_pieces_make_room(entries: Seq<SentFragments>)
    ensures
        trimmed(entries).len() < 256,
        entries.len() < 256 ==> trimmed(entries) == entries,
        entries.len() >= 256 ==> trimmed(entries).len() == 255,
        entries.len() == 256 ==> exists|at: int|
            0 <= at < entries.len() && #[trigger] entries.remove(at) == trimmed(entries) && forall|
                i: int,
            |
                0 <= i < entries.len() ==> entries[at].sent_at <= (#[trigger] entries[i]).sent_at,
    decreases entries.len(),
{
    if entries.len() >= 256 {
        let at = oldest(entries, entries.len() as int);
        lemma_oldest(entries, entries.len() as int);
        law_the_oldest_pieces_make_room(entries.remove(at));
        if entries.len() == 256 {
            assert(entries.remove(at) == trimmed(entries));
        }
    }
}

/// Pieces are named by the first four bytes of the first of them.
pub proof fn law_names_of_pieces(bodies: Seq<Vec<u8>>)
    ensures
        bodies.len() == 0 ==> name_in(bodies) is None,
        bodies.len() > 0 && bodies[0]@.len() < 4 ==> name_in(bodies) is None,
        bodies.len() > 0 && bodies[0]@.len() >= 4 ==> name_in(bodies) == Some(
            bodies[0]@.subrange(0, 4),
        ),
{
    if bodies.len() > 0 && bodies[0]@.len() >= 4 {
        assert(bodies[0]@.take(4) =~= bodies[0]@.subrange(0, 4));
    }
}

/// Entry `at` is the first one of that name.
pub open spec fn is_entry_of(entries: Seq<SentFragments>, id: FragmentId, at: int) -> bool {
    &&& 0 <= at < entries.len()
    &&& entries[at].id == id
    &&& forall|j: int| 0 <= j < at ==> (#[trigger] entries[j]).id != id
}

proof fn lemma_found(entries: Seq<SentFragments>, id: FragmentId, from: int, at: int)
    requires
        0 <= from <= at < entries.len(),
        entries[at].id == id,
        forall|j: int| from <= j < at ==> (#[trigger] entries[j]).id != id,
    ensures
        FragmentCache::find_from(entries, id, from) == at,
    decreases at - from,
{
    if from < at {
        lemma_found(entries, id, from + 1, at);
    }
}

/// Pieces are sent again to the device they were sent to, and as long as they are retained.
pub proof fn law_who_gets_pieces_again(
    entries: Seq<SentFragments>,
    device: Id,
    id: FragmentId,
    now: u64,
    at: int,
)
    requires
        is_entry_of(entries, id, at),
    ensures
        ({
            let entry = entries[at];
            let retained = entry.retention_until is None || now < entry.retention_until->0;
            &&& entry.peer != device ==> serviceable(entries, device, id, now) is None
            &&& !retained ==> serviceable(entries, device, id, now) is None
            &&& entry.peer == device && retained ==> serviceable(entries, device, id, now) == Some(
                (entry.bodies@.len() as usize, entry.retention_until),
            )
        }),
{
    lemma_found(entries, id, 0, at);
}

/// Every lost piece that the memory still holds is sent again, once for each time it is asked
/// for, and nothing else is.
pub proof fn law_lost_pieces_are_sent_again(
    entries: Seq<SentFragments>,
    device: Id,
    nack: (FragmentId, Vec<u16>),
    now: u64,
    n: int,
    at: int,
    k: int,
)
    requires
        is_entry_of(entries, nack.0, at),
        entries[at].peer == device,
        entries[at].retention_until matches Some(deadline) ==> now < deadline,
        0 <= n <= nack.1@.len(),
        0 <= k < n,
        entries[at].bodies@.len() <= usize::MAX,
    ensures
        nack.1@[k] < entries[at].bodies@.len() ==> wanted(entries, device, nack, now, n).contains(
            Retransmission {
                id: nack.0,
                index: nack.1@[k],
                retention_until: entries[at].retention_until,
            },
        ),
        wanted(entries, device, nack, now, n).len() == nack.1@.take(n).filter(
            |i: u16| i < entries[at].bodies@.len(),
        ).len(),
    decreases n,
{
    law_who_gets_pieces_again(entries, device, nack.0, now, at);
    let piece = Retransmission {
        id: nack.0,
        index: nack.1@[k],
        retention_until: entries[at].retention_until,
    };
    let all = wanted(entries, device, nack, now, n);
    let prior = wanted(entries, device, nack, now, n - 1);
    let keep = |i: u16| i < entries[at].bodies@.len();
    reveal(Seq::filter);
    assert(nack.1@.take(n).drop_last() =~= nack.1@.take(n - 1));
    assert(nack.1@.take(n).last() == nack.1@[n - 1]);
    assert(nack.1@.take(n).filter(keep).len() == nack.1@.take(n - 1).filter(keep).len() + if keep(
        nack.1@[n - 1],
    ) {
        1int
    } else {
        0int
    });
    if n > 1 {
        law_lost_pieces_are_sent_again(
            entries,
            device,
            nack,
            now,
            n - 1,
            at,
            if k < n - 1 {
                k
            } else {
                0
            },
        );
    } else {
        assert(nack.1@.take(0) =~= Seq::<u16>::empty());
        assert(nack.1@.take(0).filter(keep).len() == 0);
        assert(prior.len() == 0);
    }
    if nack.1@[k] < entries[at].bodies@.len() {
        if k < n - 1 {
            let m = choose|m: int| 0 <= m < prior.len() && prior[m] == piece;
            assert(all[m] == piece);
        } else {
            assert(all.last() == piece);
        }
    }
}

/// Pieces are asked for again a minute after the first came, and then every quarter of an
/// hour.
pub proof fn law_when_lost_pieces_are_asked_for(meta: PartialMeta, now: u64)
    ensures
        now < meta.first_seen + 60 ==> !is_due(meta, now),
        now >= meta.first_seen + 60 && meta.last_nack is None ==> is_due(meta, now),
        meta.last_nack is Some && now < meta.last_nack->0 + 900 ==> !is_due(meta, now),
        now >= meta.first_seen + 60 && meta.last_nack is Some && now >= meta.last_nack->0 + 900
            ==> is_due(meta, now),
{
}

/// The first set of pieces that is due is asked for whole, as far as the allowance goes.
pub proof fn law_due_pieces_are_asked_for(
    metas: Seq<PartialMeta>,
    missing: Seq<Missing>,
    now: u64,
    n: int,
    at: int,
)
    requires
        0 < n <= missing.len(),
        0 <= at < metas.len(),
        metas[at].id == missing[n - 1].0,
        forall|j: int| 0 <= j < at ==> (#[trigger] metas[j]).id != missing[n - 1].0,
        is_due(metas[at], now),
        missing[n - 1].1@.len() > 0,
    ensures
        ({
            let before = nacks_for(metas, missing, now, n - 1);
            let after = nacks_for(metas, missing, now, n);
            let lost = missing[n - 1].1@;
            before.nacks.len() < 32 && before.left > 0 ==> {
                &&& after.nacks.len() == before.nacks.len() + 1
                &&& after.nacks.last().id == missing[n - 1].0
                &&& lost.len() <= before.left ==> after.nacks.last().indices == lost
                    && after.left == before.left - lost.len()
                &&& lost.len() > before.left ==> after.nacks.last().indices == lost.take(
                    before.left,
                ) && after.left == 0
            }
        }),
        nacks_for(metas, missing, now, 0).left == 4_096,
{
    lemma_meta_at(metas, missing[n - 1].0, 0, at);
    let lost = missing[n - 1].1@;
    assert(lost.take(lost.len() as int) =~= lost);
}

proof fn lemma_meta_at(metas: Seq<PartialMeta>, id: FragmentId, from: int, at: int)
    requires
        0 <= from <= at < metas.len(),
        metas[at].id == id,
        forall|j: int| from <= j < at ==> (#[trigger] metas[j]).id != id,
    ensures
        meta_index(metas, id, from) == at,
    decreases at - from,
{
    if from < at {
        lemma_meta_at(metas, id, from + 1, at);
    }
}

/// Nothing is asked for that is not due, not tracked or not lost.
pub proof fn law_only_due_pieces_are_asked_for(
    metas: Seq<PartialMeta>,
    missing: Seq<Missing>,
    now: u64,
    n: int,
    k: int,
)
    requires
        0 <= n <= missing.len(),
        0 <= k < nacks_for(metas, missing, now, n).nacks.len(),
    ensures
        exists|i: int, at: int|
            0 <= i < n && 0 <= at < metas.len() && (#[trigger] missing[i]).0 == nacks_for(
                metas,
                missing,
                now,
                n,
            ).nacks[k].id && (#[trigger] metas[at]).id == missing[i].0 && is_due(metas[at], now),
    decreases n,
{
    if n > 0 {
        let before = nacks_for(metas, missing, now, n - 1);
        let after = nacks_for(metas, missing, now, n);
        if k < before.nacks.len() {
            law_only_due_pieces_are_asked_for(metas, missing, now, n - 1, k);
            assert(after.nacks[k] == before.nacks[k]);
        } else {
            let at = meta_index(metas, missing[n - 1].0, 0);
            lemma_meta_found(metas, missing[n - 1].0, 0);
            assert(missing[n - 1].0 == after.nacks[k].id && metas[at].id == missing[n - 1].0);
        }
    }
}

proof fn lemma_meta_found(metas: Seq<PartialMeta>, id: FragmentId, from: int)
    requires
        0 <= from <= metas.len(),
    ensures
        from <= meta_index(metas, id, from) <= metas.len(),
        meta_index(metas, id, from) < metas.len() ==> metas[meta_index(metas, id, from)].id == id,
    decreases metas.len() - from,
{
    if from < metas.len() && metas[from].id != id {
        lemma_meta_found(metas, id, from + 1);
    }
}

/// Every request of a report is answered in order, each by itself.
pub proof fn law_every_report_is_answered(
    entries: Seq<SentFragments>,
    device: Id,
    nacks: Seq<(FragmentId, Vec<u16>)>,
    now: u64,
    n: int,
    i: int,
    piece: Retransmission,
)
    requires
        0 <= i < n <= nacks.len(),
        wanted(entries, device, nacks[i], now, nacks[i].1@.len() as int).contains(piece),
    ensures
        wanted_all(entries, device, nacks, now, n).contains(piece),
    decreases n,
{
    let all = wanted_all(entries, device, nacks, now, n);
    let prior = wanted_all(entries, device, nacks, now, n - 1);
    if i < n - 1 {
        law_every_report_is_answered(entries, device, nacks, now, n - 1, i, piece);
        let k = choose|k: int| 0 <= k < prior.len() && prior[k] == piece;
        assert(all[k] == piece);
    } else {
        let own = wanted(entries, device, nacks[i], now, nacks[i].1@.len() as int);
        let k = choose|k: int| 0 <= k < own.len() && own[k] == piece;
        assert(all[prior.len() + k] == piece);
    }
}

} // verus!
