//! The rendezvous providers of one contact's device: which of them are used for what.

use vstd::prelude::*;

use crate::bytes::{
    bytes_before, id_precedes, lemma_before_irreflexive, lemma_before_total,
    lemma_before_transitive, lemma_same_id, same, Id,
};
use crate::endpoints::ascending;
use crate::error::{NodeError, Result};
use crate::rendezvous::{
    begin_registration, conclude_registration, conflict_in, is_lookup_due, jitter_of, later,
    lookup_concluded, lookup_due, records_of, register_due, registration_begun,
    registration_concluded, rendezvous_jitter, routes_of, settle_lookup, verdict_right,
    LookupVerdict, ProviderState, ProviderView, Registration, RouteRecord,
};

verus! {

/// The providers used with one device of a contact, by ascending identity.
pub struct ServiceState {
    remote_generation: u64,
    remote_conflict: Option<u64>,
    providers: Vec<ProviderState>,
}

/// What is known of the providers used with one device of a contact.
#[verifier::ext_equal]
pub struct ServiceView {
    /// Generation of the peer's provider set.
    pub remote_generation: u64,
    /// Generation in which the peer's sets contradicted each other.
    pub remote_conflict: Option<u64>,
    /// Each provider, by its identity.
    pub known: Map<Id, ProviderView>,
}

impl View for ServiceState {
    type V = ServiceView;

    closed spec fn view(&self) -> ServiceView {
        ServiceView {
            remote_generation: self.remote_generation,
            remote_conflict: self.remote_conflict,
            known: by_id(self.providers@),
        }
    }
}

/// Providers stand by ascending identity.
pub open spec fn in_order(providers: Seq<ProviderState>) -> bool {
    forall|i: int, j: int|
        0 <= i < j < providers.len() ==> bytes_before(
            #[trigger] providers[i].provider@,
            #[trigger] providers[j].provider@,
        )
}

/// The provider stands somewhere.
pub open spec fn listed(providers: Seq<ProviderState>, id: Id) -> bool {
    exists|i: int| 0 <= i < providers.len() && #[trigger] providers[i].provider == id
}

/// Providers by their identity.
pub open spec fn by_id(providers: Seq<ProviderState>) -> Map<Id, ProviderView> {
    Map::new(
        |id: Id| listed(providers, id),
        |id: Id|
            providers[choose|i: int|
                0 <= i < providers.len() && #[trigger] providers[i].provider == id]@,
    )
}

proof fn lemma_by_id(providers: Seq<ProviderState>, i: int)
    requires
        in_order(providers),
        0 <= i < providers.len(),
    ensures
        by_id(providers).contains_key(providers[i].provider),
        by_id(providers)[providers[i].provider] == providers[i]@,
{
    let id = providers[i].provider;
    assert(listed(providers, id));
    let k = choose|k: int| 0 <= k < providers.len() && #[trigger] providers[k].provider == id;
    if k < i {
        assert(bytes_before(providers[k].provider@, providers[i].provider@));
        lemma_before_irreflexive(id@, 0);
    } else if i < k {
        assert(bytes_before(providers[i].provider@, providers[k].provider@));
        lemma_before_irreflexive(id@, 0);
    }
}

proof fn lemma_all_by_id(providers: Seq<ProviderState>)
    requires
        in_order(providers),
    ensures
        forall|i: int|
            0 <= i < providers.len() ==> by_id(providers).contains_key(
                #[trigger] providers[i].provider,
            ) && by_id(providers)[providers[i].provider] == providers[i]@,
{
    assert forall|i: int| 0 <= i < providers.len() implies by_id(providers).contains_key(
        #[trigger] providers[i].provider,
    ) && by_id(providers)[providers[i].provider] == providers[i]@ by {
        lemma_by_id(providers, i);
    }
}

/// A provider that nothing was done with yet.
pub open spec fn untouched(id: Id) -> ProviderView {
    ProviderView {
        provider: id,
        publish_enabled: false,
        lookup_enabled: false,
        withdrawal_pending: false,
        publish_generation: 0,
        registration_confirmed_at: 0,
        next_register_at: 0,
        accepted_generation: 0,
        conflict_generation: None,
        clock_floor: 0,
        routes: Seq::empty(),
        routes_expires_at: 0,
        next_lookup_at: 0,
        consecutive_failures: 0,
        circuit_open_until: 0,
    }
}

/// What is known of a provider, or nothing yet.
pub open spec fn known_or_new(known: Map<Id, ProviderView>, id: Id) -> ProviderView {
    if known.contains_key(id) {
        known[id]
    } else {
        untouched(id)
    }
}

fn new_provider(id: Id) -> (res: ProviderState)
    ensures
        res@ == untouched(id),
        res.provider == id,
{
    let res = ProviderState {
        provider: id,
        publish_enabled: false,
        lookup_enabled: false,
        withdrawal_pending: false,
        publish_generation: 0,
        registration_confirmed_at: 0,
        next_register_at: 0,
        accepted_generation: 0,
        conflict_generation: None,
        clock_floor: 0,
        routes: Vec::new(),
        routes_expires_at: 0,
        next_lookup_at: 0,
        consecutive_failures: 0,
        circuit_open_until: 0,
    };
    assert(routes_of(res.routes@) =~= Seq::<Seq<u8>>::empty());
    res
}

/// Find a provider, adding it where it is not there yet.
fn provider_at(providers: &mut Vec<ProviderState>, id: Id) -> (at: usize)
    requires
        in_order(old(providers)@),
    ensures
        in_order(final(providers)@),
        at < final(providers)@.len(),
        final(providers)@[at as int].provider == id,
        by_id(final(providers)@) == by_id(old(providers)@).insert(
            id,
            known_or_new(by_id(old(providers)@), id),
        ),
{
    let ghost before = providers@;
    proof {
        lemma_all_by_id(before);
    }
    let mut at: usize = 0;
    while at < providers.len() && id_precedes(&providers[at].provider, &id)
        invariant
            at <= providers@.len(),
            providers@ == before,
            forall|k: int|
                0 <= k < at ==> bytes_before(#[trigger] providers@[k].provider@, id@),
        decreases providers@.len() - at,
    {
        at = at + 1;
    }
    if at < providers.len() && same(&providers[at].provider, &id) {
        assert(by_id(before).insert(id, known_or_new(by_id(before), id)) =~= by_id(before));
        return at;
    }
    providers.insert(at, new_provider(id));
    proof {
        let after = providers@;
        assert forall|i: int, j: int| 0 <= i < j < after.len() implies bytes_before(
            #[trigger] after[i].provider@,
            #[trigger] after[j].provider@,
        ) by {
            if j < at {
                assert(after[i] == before[i] && after[j] == before[j]);
            } else if i < at && j == at {
                assert(after[i] == before[i]);
            } else if i < at {
                assert(after[i] == before[i] && after[j] == before[j - 1]);
            } else if i == at {
                assert(after[j] == before[j - 1]);
                lemma_before_total(before[at as int].provider@, id@, 0);
                if before[at as int].provider@ =~= id@ {
                    lemma_same_id(before[at as int].provider, id);
                }
                if j - 1 > at {
                    assert(bytes_before(before[at as int].provider@, before[j - 1].provider@));
                    lemma_before_transitive(
                        id@,
                        before[at as int].provider@,
                        before[j - 1].provider@,
                        0,
                    );
                }
            } else {
                assert(after[i] == before[i - 1] && after[j] == before[j - 1]);
            }
        }
        lemma_all_by_id(after);
        assert(!listed(before, id)) by {
            if listed(before, id) {
                let k = choose|k: int|
                    0 <= k < before.len() && #[trigger] before[k].provider == id;
                if k < at {
                    lemma_before_irreflexive(id@, 0);
                } else {
                    let j = if k < at {
                        k
                    } else {
                        k + 1
                    };
                    assert(after[j] == before[k]);
                    assert(bytes_before(after[at as int].provider@, after[j].provider@));
                    lemma_before_irreflexive(id@, 0);
                }
            }
        }
        let want = by_id(before).insert(id, untouched(id));
        assert forall|x: Id| by_id(after).contains_key(x) == #[trigger] want.contains_key(x) by {
            if listed(after, x) {
                let j = choose|j: int| 0 <= j < after.len() && #[trigger] after[j].provider == x;
                if j < at {
                    assert(before[j].provider == x);
                } else if j > at {
                    assert(before[j - 1].provider == x);
                }
            }
            if listed(before, x) {
                let k = choose|k: int| 0 <= k < before.len() && #[trigger] before[k].provider == x;
                if k < at {
                    assert(after[k].provider == x);
                } else {
                    assert(after[k + 1].provider == x);
                }
            }
            if x == id {
                assert(after[at as int].provider == x);
            }
        }
        assert forall|x: Id| want.contains_key(x) implies by_id(after)[x] == #[trigger] want[x] by {
            if x == id {
                assert(after[at as int].provider == x);
            } else {
                let k = choose|k: int| 0 <= k < before.len() && #[trigger] before[k].provider == x;
                if k < at {
                    assert(after[k].provider == x);
                } else {
                    assert(after[k + 1].provider == x);
                }
            }
        }
        assert(by_id(after) =~= want);
    }
    at
}

/// Changing one provider.
proof fn lemma_changed(before: Seq<ProviderState>, after: Seq<ProviderState>, at: int)
    requires
        in_order(before),
        0 <= at < before.len(),
        after.len() == before.len(),
        after[at].provider == before[at].provider,
        forall|k: int| 0 <= k < before.len() && k != at ==> after[k] == #[trigger] before[k],
    ensures
        in_order(after),
        by_id(after) == by_id(before).insert(before[at].provider, after[at]@),
{
    lemma_each_changed(before, after);
    lemma_all_by_id(before);
    lemma_all_by_id(after);
    let want = by_id(before).insert(before[at].provider, after[at]@);
    assert forall|x: Id| want.contains_key(x) implies by_id(after)[x] == #[trigger] want[x] by {
        let k = choose|k: int| 0 <= k < before.len() && #[trigger] before[k].provider == x;
        assert(after[k].provider == x);
        if x == before[at].provider {
            assert(after[at].provider == x);
        } else {
            assert(after[k] == before[k]);
        }
    }
    assert(by_id(before).contains_key(before[at].provider));
    assert(by_id(after) =~= want);
}

/// Changing providers without changing their identities.
proof fn lemma_each_changed(before: Seq<ProviderState>, after: Seq<ProviderState>)
    requires
        in_order(before),
        after.len() == before.len(),
        forall|k: int|
            0 <= k < before.len() ==> after[k].provider == #[trigger] before[k].provider,
    ensures
        in_order(after),
        by_id(after).dom() == by_id(before).dom(),
        forall|k: int|
            0 <= k < before.len() ==> by_id(after)[#[trigger] before[k].provider] == after[k]@,
{
    assert forall|i: int, j: int| 0 <= i < j < after.len() implies bytes_before(
        #[trigger] after[i].provider@,
        #[trigger] after[j].provider@,
    ) by {
        assert(bytes_before(before[i].provider@, before[j].provider@));
    }
    assert forall|x: Id| listed(before, x) == listed(after, x) by {
        if listed(before, x) {
            let k = choose|k: int| 0 <= k < before.len() && #[trigger] before[k].provider == x;
            assert(after[k].provider == x);
        }
        if listed(after, x) {
            let k = choose|k: int| 0 <= k < after.len() && #[trigger] after[k].provider == x;
            assert(before[k].provider == x);
        }
    }
    assert(by_id(after).dom() =~= by_id(before).dom());
    lemma_all_by_id(after);
    assert forall|k: int| 0 <= k < before.len() implies by_id(after)[
        #[trigger] before[k].provider] == after[k]@ by {
        assert(after[k].provider == before[k].provider);
    }
}

/// Dropping one provider.
proof fn lemma_dropped(before: Seq<ProviderState>, at: int)
    requires
        in_order(before),
        0 <= at < before.len(),
    ensures
        in_order(before.remove(at)),
        by_id(before.remove(at)) == by_id(before).remove(before[at].provider),
{
    let after = before.remove(at);
    let id = before[at].provider;
    assert forall|i: int, j: int| 0 <= i < j < after.len() implies bytes_before(
        #[trigger] after[i].provider@,
        #[trigger] after[j].provider@,
    ) by {
        let a = if i < at {
            i
        } else {
            i + 1
        };
        let b = if j < at {
            j
        } else {
            j + 1
        };
        assert(after[i] == before[a] && after[j] == before[b]);
    }
    lemma_all_by_id(before);
    lemma_all_by_id(after);
    let want = by_id(before).remove(id);
    assert forall|x: Id| by_id(after).contains_key(x) == #[trigger] want.contains_key(x) by {
        if listed(after, x) {
            let j = choose|j: int| 0 <= j < after.len() && #[trigger] after[j].provider == x;
            let b = if j < at {
                j
            } else {
                j + 1
            };
            assert(before[b].provider == x);
            if x == id {
                lemma_before_irreflexive(id@, 0);
                assert(before[at].provider == x);
                if b < at {
                    assert(bytes_before(before[b].provider@, before[at].provider@));
                } else {
                    assert(bytes_before(before[at].provider@, before[b].provider@));
                }
            }
        }
        if listed(before, x) && x != id {
            let k = choose|k: int| 0 <= k < before.len() && #[trigger] before[k].provider == x;
            if k < at {
                assert(after[k].provider == x);
            } else {
                assert(after[k - 1].provider == x);
            }
        }
    }
    assert forall|x: Id| want.contains_key(x) implies by_id(after)[x] == #[trigger] want[x] by {
        let k = choose|k: int| 0 <= k < before.len() && #[trigger] before[k].provider == x;
        if k < at {
            assert(after[k].provider == x);
        } else {
            assert(after[k - 1].provider == x);
        }
    }
    assert(by_id(after) =~= want);
}

/// A provider that is used for something.
pub open spec fn in_use(state: ProviderView, keep_withdrawals: bool) -> bool {
    state.publish_enabled || state.lookup_enabled || (keep_withdrawals && state.withdrawal_pending)
}

/// Drop the providers that are used for nothing.
fn drop_unused(providers: &mut Vec<ProviderState>, keep_withdrawals: bool)
    requires
        in_order(old(providers)@),
    ensures
        in_order(final(providers)@),
        by_id(final(providers)@) == by_id(old(providers)@).restrict(
            Set::new(
                |id: Id|
                    by_id(old(providers)@).contains_key(id) && in_use(
                        by_id(old(providers)@)[id],
                        keep_withdrawals,
                    ),
            ),
        ),
{
    let ghost before = by_id(providers@);
    let mut i: usize = 0;
    while i < providers.len()
        invariant
            i <= providers@.len(),
            in_order(providers@),
            before == by_id(old(providers)@),
            by_id(providers@).submap_of(before),
            forall|k: int| 0 <= k < i ==> in_use(#[trigger] providers@[k]@, keep_withdrawals),
            forall|id: Id| #[trigger]
                before.contains_key(id) && in_use(before[id], keep_withdrawals) ==> by_id(
                    providers@,
                ).contains_key(id),
        decreases providers@.len() - i,
    {
        let ghost now = providers@;
        let p = &providers[i];
        if p.publish_enabled || p.lookup_enabled || (keep_withdrawals && p.withdrawal_pending) {
            i = i + 1;
        } else {
            proof {
                lemma_by_id(now, i as int);
                lemma_dropped(now, i as int);
                assert(before[now[i as int].provider] == now[i as int]@);
            }
            providers.remove(i);
            assert(providers@ == now.remove(i as int));
            assert forall|k: int| 0 <= k < i implies in_use(
                #[trigger] providers@[k]@,
                keep_withdrawals,
            ) by {
                assert(providers@[k] == now[k]);
            }
            assert(by_id(providers@).submap_of(before));
        }
    }
    proof {
        let after = by_id(providers@);
        let kept = Set::new(
            |id: Id| before.contains_key(id) && in_use(before[id], keep_withdrawals),
        );
        assert forall|id: Id| after.contains_key(id) == kept.contains(id) by {
            if after.contains_key(id) {
                let k = choose|k: int|
                    0 <= k < providers@.len() && #[trigger] providers@[k].provider == id;
                lemma_by_id(providers@, k);
                assert(in_use(providers@[k]@, keep_withdrawals));
            }
        }
        assert(after =~= before.restrict(kept));
    }
}

// ---- The local provider set ----

/// A provider of this account, with a number drawn to spread first registrations.
#[derive(Clone, Copy, Debug, PartialEq, Eq)]
pub struct Configured {
    /// Identity of the provider.
    pub provider: Id,
    /// The drawn number.
    pub draw: u64,
}

/// The provider is one of the first `n`.
pub open spec fn named(configured: Seq<Configured>, n: int, id: Id) -> bool {
    exists|i: int| 0 <= i < n && #[trigger] configured[i].provider == id
}

/// No provider stands twice.
pub open spec fn distinct(configured: Seq<Configured>) -> bool {
    forall|i: int, j: int|
        0 <= i < j < configured.len() ==> #[trigger] configured[i].provider
            != #[trigger] configured[j].provider
}

/// A provider that is not this account's any more: what was published is withdrawn at once.
pub open spec fn demoted(state: ProviderView, now: u64) -> ProviderView {
    if state.publish_enabled {
        ProviderView {
            publish_enabled: false,
            withdrawal_pending: state.publish_generation > 0,
            next_register_at: now,
            ..state
        }
    } else {
        state
    }
}

/// A provider of this account: own routes are published there, the first time after a drawn
/// while.
pub open spec fn promoted(state: ProviderView, draw: u64, now: u64) -> ProviderView {
    ProviderView {
        publish_enabled: true,
        withdrawal_pending: false,
        next_register_at: if state.next_register_at == 0 {
            later(now, jitter_of(draw))
        } else {
            state.next_register_at
        },
        ..state
    }
}

/// A published set of the peer is exactly the providers in use for looking up.
pub open spec fn agrees(known: Map<Id, ProviderView>, incoming: Seq<Id>) -> bool {
    &&& incoming.no_duplicates()
    &&& forall|id: Id| #[trigger]
        incoming.contains(id) <==> known.contains_key(id) && known[id].lookup_enabled
}

/// What became of a provider set of the peer.
#[derive(Clone, Copy, Debug, PartialEq, Eq, Structural)]
pub enum ProviderSetOutcome {
    /// It is older than what is known, or of a generation that is in conflict.
    Stale,
    /// It contradicts the known set of its generation.
    Conflict,
    /// It is in effect.
    Accepted,
}

/// A provider whose lookups are in conflict.
pub open spec fn withdrawn(state: ProviderView) -> ProviderView {
    if state.lookup_enabled {
        ProviderView {
            lookup_enabled: false,
            routes: Seq::empty(),
            routes_expires_at: 0,
            ..state
        }
    } else {
        state
    }
}

/// What becomes of a provider set of the peer.
pub open spec fn set_outcome(
    generation: u64,
    conflict: Option<u64>,
    known: Map<Id, ProviderView>,
    incoming_generation: u64,
    incoming: Seq<Id>,
) -> ProviderSetOutcome {
    if incoming_generation < generation || (conflict matches Some(g) && incoming_generation <= g) {
        ProviderSetOutcome::Stale
    } else if incoming_generation == generation && !agrees(known, incoming) {
        ProviderSetOutcome::Conflict
    } else {
        ProviderSetOutcome::Accepted
    }
}

/// What is known of a provider once the peer's set is in effect: it is looked up there where
/// the set names it, and dropped where it is used for nothing any more.
pub open spec fn set_in_effect(
    after: Map<Id, ProviderView>,
    before: Map<Id, ProviderView>,
    incoming: Seq<Id>,
    id: Id,
) -> bool {
    if incoming.contains(id) {
        &&& after.contains_key(id)
        &&& after[id] == (ProviderView { lookup_enabled: true, ..known_or_new(before, id) })
    } else {
        &&& after.contains_key(id) == (before.contains_key(id) && before[id].publish_enabled)
        &&& after.contains_key(id) ==> after[id] == (ProviderView {
            lookup_enabled: false,
            ..before[id]
        })
    }
}

fn lists(ids: &Vec<Id>, id: &Id) -> (res: bool)
    ensures
        res == ids@.contains(*id),
{
    let mut i: usize = 0;
    while i < ids.len()
        invariant
            i <= ids@.len(),
            forall|k: int| 0 <= k < i ==> #[trigger] ids@[k] != *id,
        decreases ids@.len() - i,
    {
        if same(&ids[i], id) {
            assert(ids@[i as int] == *id);
            return true;
        }
        i = i + 1;
    }
    false
}

/// One of the first `n` providers, and chosen.
spec fn is_chosen(providers: Seq<ProviderState>, hits: Seq<bool>, n: int, id: Id) -> bool {
    exists|k: int| 0 <= k < n && #[trigger] providers[k].provider == id && hits[k]
}

/// The chosen providers, by ascending identity.
fn chosen(providers: &Vec<ProviderState>, hits: &Vec<bool>) -> (res: Vec<Id>)
    requires
        in_order(providers@),
        hits@.len() == providers@.len(),
    ensures
        ascending(res@),
        forall|id: Id| #[trigger] res@.contains(id) ==> by_id(providers@).contains_key(id),
        forall|k: int|
            0 <= k < providers@.len() ==> by_id(providers@).contains_key(
                #[trigger] providers@[k].provider,
            ) && by_id(providers@)[providers@[k].provider] == providers@[k]@ && res@.contains(
                providers@[k].provider,
            ) == hits@[k],
{
    let mut out: Vec<Id> = Vec::new();
    let mut i: usize = 0;
    while i < providers.len()
        invariant
            i <= providers@.len(),
            hits@.len() == providers@.len(),
            in_order(providers@),
            ascending(out@),
            forall|m: int|
                0 <= m < out@.len() ==> is_chosen(providers@, hits@, i as int, #[trigger] out@[m]),
            forall|id: Id| #[trigger]
                is_chosen(providers@, hits@, i as int, id) ==> out@.contains(id),
        decreases providers@.len() - i,
    {
        let ghost before = out@;
        if hits[i] {
            out.push(providers[i].provider);
        }
        proof {
            let own = providers@[i as int].provider;
            assert forall|id: Id| #[trigger] is_chosen(providers@, hits@, i + 1, id) implies (
            is_chosen(providers@, hits@, i as int, id) || (hits@[i as int] && id == own)) by {
                let k = choose|k: int|
                    0 <= k < i + 1 && #[trigger] providers@[k].provider == id && hits@[k];
                if k < i {
                    assert(providers@[k].provider == id && hits@[k]);
                }
            }
            assert forall|id: Id|
                is_chosen(providers@, hits@, i as int, id) || (hits@[i as int] && id
                    == own) implies #[trigger] is_chosen(providers@, hits@, i + 1, id) by {
                if is_chosen(providers@, hits@, i as int, id) {
                    let k = choose|k: int|
                        0 <= k < i && #[trigger] providers@[k].provider == id && hits@[k];
                    assert(providers@[k].provider == id && hits@[k]);
                } else {
                    assert(providers@[i as int].provider == id && hits@[i as int]);
                }
            }
            assert forall|m: int| 0 <= m < before.len() implies out@[m] == #[trigger] before[m]
                && bytes_before(before[m]@, own@) by {
                let k = choose|k: int|
                    0 <= k < i && #[trigger] providers@[k].provider == before[m] && hits@[k];
                assert(bytes_before(providers@[k].provider@, providers@[i as int].provider@));
            }
            assert forall|id: Id| #[trigger] before.contains(id) implies out@.contains(id) by {
                let m = choose|m: int| 0 <= m < before.len() && before[m] == id;
                assert(out@[m] == id);
            }
            if hits@[i as int] {
                assert(out@[before.len() as int] == own);
                assert(out@.contains(own));
                assert forall|a: int, b: int| 0 <= a < b < out@.len() implies bytes_before(
                    (#[trigger] out@[a])@,
                    (#[trigger] out@[b])@,
                ) by {
                    assert(out@[a] == before[a]);
                    if b < before.len() {
                        assert(out@[b] == before[b]);
                    }
                }
            }
            assert forall|m: int| 0 <= m < out@.len() implies is_chosen(
                providers@,
                hits@,
                i + 1,
                #[trigger] out@[m],
            ) by {
                if m < before.len() {
                    assert(out@[m] == before[m]);
                }
            }
        }
        i = i + 1;
    }
    proof {
        lemma_all_by_id(providers@);
        assert forall|id: Id| #[trigger] out@.contains(id) implies is_chosen(
            providers@,
            hits@,
            i as int,
            id,
        ) by {
            let m = choose|m: int| 0 <= m < out@.len() && out@[m] == id;
            assert(is_chosen(providers@, hits@, i as int, out@[m]));
        }
        assert forall|k: int| 0 <= k < providers@.len() implies out@.contains(
            #[trigger] providers@[k].provider,
        ) == hits@[k] by {
            let id = providers@[k].provider;
            if hits@[k] {
                assert(is_chosen(providers@, hits@, i as int, id));
            }
            if out@.contains(id) {
                let n = choose|n: int|
                    0 <= n < i && #[trigger] providers@[n].provider == id && hits@[n];
                lemma_before_irreflexive(id@, 0);
                if n < k {
                    assert(bytes_before(providers@[n].provider@, providers@[k].provider@));
                } else if k < n {
                    assert(bytes_before(providers@[k].provider@, providers@[n].provider@));
                }
            }
        }
        assert forall|id: Id| #[trigger] out@.contains(id) implies by_id(providers@).contains_key(
            id,
        ) by {
            let k = choose|k: int|
                0 <= k < i && #[trigger] providers@[k].provider == id && hits@[k];
            assert(providers@[k].provider == id);
        }
    }
    out
}

/// What a provider is after the peer published `incoming`.
spec fn replaced(
    now: Map<Id, ProviderView>,
    mid: Map<Id, ProviderView>,
    was: Map<Id, ProviderView>,
    incoming: Seq<Id>,
    id: Id,
) -> bool {
    if incoming.contains(id) {
        &&& now.contains_key(id)
        &&& now[id] == (ProviderView { lookup_enabled: true, ..known_or_new(was, id) })
    } else {
        &&& now.contains_key(id) == mid.contains_key(id)
        &&& mid.contains_key(id) ==> now[id] == mid[id]
    }
}

/// What is known of each provider after a registration with one.
pub open spec fn after_registration(
    known: Map<Id, ProviderView>,
    id: Id,
    confirmed: bool,
    draw: u64,
    now: u64,
) -> Map<Id, ProviderView> {
    let noted = if known.contains_key(id) {
        known.insert(id, registration_concluded(known[id], confirmed, draw, now))
    } else {
        known
    };
    noted.restrict(Set::new(|x: Id| noted.contains_key(x) && in_use(noted[x], true)))
}

impl ServiceState {
    /// Providers stand by ascending identity.
    pub closed spec fn wf(&self) -> bool {
        in_order(self.providers@)
    }

    /// A device without any provider.
    pub fn new(remote_generation: u64) -> (res: ServiceState)
        ensures
            res.wf(),
            res@.known == Map::<Id, ProviderView>::empty(),
            res@.remote_generation == remote_generation,
            res@.remote_conflict is None,
    {
        let res = ServiceState {
            remote_generation,
            remote_conflict: None,
            providers: Vec::new(),
        };
        assert(res@.known =~= Map::<Id, ProviderView>::empty()) by {
            assert forall|id: Id| !listed(res.providers@, id) by {}
        }
        res
    }

    /// The state as it was recorded. Providers that do not stand by ascending identity
    /// contradict how it is recorded.
    pub fn restored(
        remote_generation: u64,
        remote_conflict: Option<u64>,
        providers: Vec<ProviderState>,
    ) -> (res: Result<ServiceState>)
        ensures
            match res {
                Ok(state) => state.wf() && in_order(providers@) && state@ == (ServiceView {
                    remote_generation,
                    remote_conflict,
                    known: by_id(providers@),
                }),
                Err(e) => !in_order(providers@) && e == NodeError::CorruptState,
            },
    {
        let mut i: usize = 1;
        while i < providers.len()
            invariant
                1 <= i,
                in_order(providers@.take(i as int)) || providers@.len() == 0,
                providers@.len() > 0 ==> i <= providers@.len(),
            decreases providers@.len() - i,
        {
            if !id_precedes(&providers[i - 1].provider, &providers[i].provider) {
                return Err(NodeError::CorruptState);
            }
            proof {
                let first = providers@.take(i as int);
                let more = providers@.take(i + 1);
                assert forall|a: int, b: int| 0 <= a < b < more.len() implies bytes_before(
                    #[trigger] more[a].provider@,
                    #[trigger] more[b].provider@,
                ) by {
                    assert(more[a] == first[a]);
                    if b < i {
                        assert(more[b] == first[b]);
                    } else if a < i - 1 {
                        assert(first[i - 1] == more[i - 1]);
                        assert(bytes_before(first[a].provider@, first[i - 1].provider@));
                        lemma_before_transitive(
                            more[a].provider@,
                            more[i - 1].provider@,
                            more[b].provider@,
                            0,
                        );
                    }
                }
            }
            i = i + 1;
        }
        assert(providers@.len() > 0 ==> providers@.take(i as int) =~= providers@);
        Ok(ServiceState { remote_generation, remote_conflict, providers })
    }

    /// Generation of the peer's provider set.
    pub fn remote_generation(&self) -> (res: u64)
        ensures
            res == self@.remote_generation,
    {
        self.remote_generation
    }

    /// Generation in which the peer's sets contradicted each other.
    pub fn remote_conflict(&self) -> (res: Option<u64>)
        ensures
            res == self@.remote_conflict,
    {
        self.remote_conflict
    }

    /// The providers, by ascending identity.
    pub fn providers(&self) -> (res: &Vec<ProviderState>)
        requires
            self.wf(),
        ensures
            in_order(res@),
            by_id(res@) == self@.known,
    {
        &self.providers
    }

    fn position(&self, id: &Id) -> (res: Option<usize>)
        requires
            self.wf(),
        ensures
            match res {
                Some(at) => at < self.providers@.len() && self.providers@[at as int].provider == *id
                    && self@.known.contains_key(*id) && self@.known[*id]
                    == self.providers@[at as int]@,
                None => !self@.known.contains_key(*id),
            },
    {
        let mut at: usize = 0;
        while at < self.providers.len()
            invariant
                self.wf(),
                at <= self.providers@.len(),
                forall|k: int| 0 <= k < at ==> #[trigger] self.providers@[k].provider != *id,
            decreases self.providers@.len() - at,
        {
            if same(&self.providers[at].provider, id) {
                proof {
                    lemma_by_id(self.providers@, at as int);
                }
                return Some(at);
            }
            at = at + 1;
        }
        None
    }

    /// Bring the providers into line with this account's own.
    pub fn synchronize(&mut self, configured: &Vec<Configured>, now: u64)
        requires
            old(self).wf(),
            distinct(configured@),
        ensures
            final(self).wf(),
            final(self)@.remote_generation == old(self)@.remote_generation,
            final(self)@.remote_conflict == old(self)@.remote_conflict,
            forall|i: int|
                0 <= i < configured@.len() ==> {
                    let id = (#[trigger] configured@[i]).provider;
                    &&& final(self)@.known.contains_key(id)
                    &&& final(self)@.known[id] == promoted(
                        known_or_new(old(self)@.known, id),
                        configured@[i].draw,
                        now,
                    )
                },
            forall|id: Id|
                !named(configured@, configured@.len() as int, id) ==> {
                    &&& #[trigger] final(self)@.known.contains_key(id) == (
                    old(self)@.known.contains_key(id) && in_use(
                        demoted(old(self)@.known[id], now),
                        true,
                    ))
                    &&& final(self)@.known.contains_key(id) ==> final(self)@.known[id] == demoted(
                        old(self)@.known[id],
                        now,
                    )
                },
    {
        let ghost start = self.providers@;
        let mut i: usize = 0;
        while i < self.providers.len()
            invariant
                i <= self.providers@.len(),
                self.providers@.len() == start.len(),
                start == old(self).providers@,
                in_order(start),
                self.remote_generation == old(self)@.remote_generation,
                self.remote_conflict == old(self)@.remote_conflict,
                forall|k: int|
                    0 <= k < start.len() ==> (#[trigger] self.providers@[k]).provider
                        == start[k].provider,
                forall|k: int|
                    i <= k < start.len() ==> #[trigger] self.providers@[k] == start[k],
                forall|k: int|
                    0 <= k < i ==> (#[trigger] self.providers@[k])@ == if named(
                        configured@,
                        configured@.len() as int,
                        start[k].provider,
                    ) {
                        start[k]@
                    } else {
                        demoted(start[k]@, now)
                    },
            decreases self.providers@.len() - i,
        {
            let mut listed_here = false;
            let mut c: usize = 0;
            while c < configured.len()
                invariant
                    i < self.providers@.len(),
                    c <= configured@.len(),
                    listed_here == named(configured@, c as int, self.providers@[i as int].provider),
                decreases configured@.len() - c,
            {
                if same(&configured[c].provider, &self.providers[i].provider) {
                    listed_here = true;
                    assert(named(configured@, c + 1, self.providers@[i as int].provider)) by {
                        assert(configured@[c as int].provider == self.providers@[i as int].provider);
                    }
                }
                proof {
                    let id = self.providers@[i as int].provider;
                    if named(configured@, c as int, id) {
                        let k = choose|k: int|
                            0 <= k < c && #[trigger] configured@[k].provider == id;
                        assert(configured@[k].provider == id);
                    }
                }
                c = c + 1;
            }
            if !listed_here && self.providers[i].publish_enabled {
                let pending = self.providers[i].publish_generation > 0;
                self.providers[i].publish_enabled = false;
                self.providers[i].withdrawal_pending = pending;
                self.providers[i].next_register_at = now;
            }
            i = i + 1;
        }
        let ghost first = self.providers@;
        let ghost was = by_id(start);
        let ghost mid = by_id(first);
        proof {
            lemma_each_changed(start, first);
            lemma_all_by_id(start);
            assert forall|id: Id| #[trigger] mid.contains_key(id) implies mid[id] == if named(
                configured@,
                configured@.len() as int,
                id,
            ) {
                was[id]
            } else {
                demoted(was[id], now)
            } by {
                let k = choose|k: int|
                    0 <= k < first.len() && #[trigger] first[k].provider == id;
                assert(start[k].provider == id);
                assert(by_id(first)[start[k].provider] == first[k]@);
            }
        }
        let mut c: usize = 0;
        while c < configured.len()
            invariant
                c <= configured@.len(),
                in_order(self.providers@),
                distinct(configured@),
                self.remote_generation == old(self)@.remote_generation,
                self.remote_conflict == old(self)@.remote_conflict,
                mid.dom() == was.dom(),
                forall|id: Id| #[trigger]
                    mid.contains_key(id) ==> mid[id] == if named(
                        configured@,
                        configured@.len() as int,
                        id,
                    ) {
                        was[id]
                    } else {
                        demoted(was[id], now)
                    },
                forall|k: int|
                    0 <= k < c ==> {
                        let id = (#[trigger] configured@[k]).provider;
                        &&& by_id(self.providers@).contains_key(id)
                        &&& by_id(self.providers@)[id] == promoted(
                            known_or_new(was, id),
                            configured@[k].draw,
                            now,
                        )
                    },
                forall|id: Id|
                    !named(configured@, c as int, id) ==> {
                        &&& #[trigger] by_id(self.providers@).contains_key(id)
                            == mid.contains_key(id)
                        &&& mid.contains_key(id) ==> by_id(self.providers@)[id] == mid[id]
                    },
            decreases configured@.len() - c,
        {
            let ghost before = by_id(self.providers@);
            let id = configured[c].provider;
            let draw: u64 = configured[c].draw;
            proof {
                if named(configured@, c as int, id) {
                    let k = choose|k: int| 0 <= k < c && #[trigger] configured@[k].provider == id;
                    assert(configured@[k].provider != configured@[c as int].provider);
                }
                assert(named(configured@, configured@.len() as int, id)) by {
                    assert(configured@[c as int].provider == id);
                }
                assert(before.contains_key(id) == mid.contains_key(id));
                assert(mid.contains_key(id) == was.contains_key(id)) by {
                    assert(mid.dom().contains(id) == was.dom().contains(id));
                }
                assert(known_or_new(before, id) == known_or_new(was, id));
            }
            let at = provider_at(&mut self.providers, id);
            let ghost found = self.providers@;
            proof {
                lemma_by_id(found, at as int);
            }
            self.providers[at].publish_enabled = true;
            self.providers[at].withdrawal_pending = false;
            if self.providers[at].next_register_at == 0 {
                self.providers[at].next_register_at = now.saturating_add(rendezvous_jitter(draw));
            }
            proof {
                let after = self.providers@;
                lemma_changed(found, after, at as int);
                assert(after[at as int]@ == promoted(known_or_new(was, id), draw, now));
                assert(by_id(after) == by_id(found).insert(id, after[at as int]@));
                assert forall|k: int| 0 <= k < c + 1 implies {
                    let x = (#[trigger] configured@[k]).provider;
                    &&& by_id(after).contains_key(x)
                    &&& by_id(after)[x] == promoted(
                        known_or_new(was, x),
                        configured@[k].draw,
                        now,
                    )
                } by {
                    if k < c {
                        assert(configured@[k].provider != configured@[c as int].provider);
                    }
                }
                assert forall|x: Id| !named(configured@, c + 1, x) implies {
                    &&& #[trigger] by_id(after).contains_key(x) == mid.contains_key(x)
                    &&& mid.contains_key(x) ==> by_id(after)[x] == mid[x]
                } by {
                    assert(x != id) by {
                        assert(configured@[c as int].provider == id);
                    }
                    if named(configured@, c as int, x) {
                        let k = choose|k: int|
                            0 <= k < c && #[trigger] configured@[k].provider == x;
                        assert(configured@[k].provider == x);
                        assert(named(configured@, c + 1, x));
                    }
                    assert(before.contains_key(x) == mid.contains_key(x));
                }
            }
            c = c + 1;
        }
        let ghost last = by_id(self.providers@);
        drop_unused(&mut self.providers, true);
        proof {
            assert forall|k: int| 0 <= k < configured@.len() implies {
                let id = (#[trigger] configured@[k]).provider;
                &&& by_id(self.providers@).contains_key(id)
                &&& by_id(self.providers@)[id] == promoted(
                    known_or_new(was, id),
                    configured@[k].draw,
                    now,
                )
            } by {
                assert(last.contains_key(configured@[k].provider));
            }
            assert forall|id: Id|
                !named(configured@, configured@.len() as int, id) implies {
                &&& #[trigger] by_id(self.providers@).contains_key(id) == (was.contains_key(id)
                    && in_use(demoted(was[id], now), true))
                &&& by_id(self.providers@).contains_key(id) ==> by_id(self.providers@)[id]
                    == demoted(was[id], now)
            } by {
                assert(last.contains_key(id) == mid.contains_key(id));
                assert(mid.contains_key(id) == was.contains_key(id)) by {
                    assert(mid.dom().contains(id) == was.dom().contains(id));
                }
            }
        }
    }

    /// Take a provider set that the peer published.
    pub fn merge_provider_set(&mut self, generation: u64, incoming: &Vec<Id>) -> (res:
        ProviderSetOutcome)
        requires
            old(self).wf(),
        ensures
            final(self).wf(),
            res == set_outcome(
                old(self)@.remote_generation,
                old(self)@.remote_conflict,
                old(self)@.known,
                generation,
                incoming@,
            ),
            match res {
                ProviderSetOutcome::Stale => *final(self) == *old(self),
                ProviderSetOutcome::Conflict => {
                    &&& final(self)@.remote_generation == old(self)@.remote_generation
                    &&& final(self)@.remote_conflict == Some(generation)
                    &&& final(self)@.known == old(self)@.known.map_values(
                        |state: ProviderView| withdrawn(state),
                    )
                },
                ProviderSetOutcome::Accepted => if generation == old(self)@.remote_generation {
                    *final(self) == *old(self)
                } else {
                    &&& final(self)@.remote_generation == generation
                    &&& final(self)@.remote_conflict is None
                    &&& forall|id: Id| #[trigger]
                        set_in_effect(final(self)@.known, old(self)@.known, incoming@, id)
                },
            },
    {
        if generation < self.remote_generation {
            return ProviderSetOutcome::Stale;
        }
        if let Some(g) = self.remote_conflict {
            if generation <= g {
                return ProviderSetOutcome::Stale;
            }
        }
        if generation == self.remote_generation {
            if self.matches_set(incoming) {
                return ProviderSetOutcome::Accepted;
            }
            self.withdraw_lookups();
            self.remote_conflict = Some(generation);
            return ProviderSetOutcome::Conflict;
        }
        self.replace_lookups(incoming);
        let ghost known = self@.known;
        self.remote_generation = generation;
        self.remote_conflict = None;
        assert(self@.known == known);
        ProviderSetOutcome::Accepted
    }

    fn matches_set(&self, incoming: &Vec<Id>) -> (res: bool)
        requires
            self.wf(),
        ensures
            res == agrees(self@.known, incoming@),
    {
        let ghost known = self@.known;
        proof {
            lemma_all_by_id(self.providers@);
        }
        let mut i: usize = 0;
        while i < self.providers.len()
            invariant
                i <= self.providers@.len(),
                known == by_id(self.providers@),
                forall|k: int|
                    0 <= k < self.providers@.len() ==> known.contains_key(
                        #[trigger] self.providers@[k].provider,
                    ) && known[self.providers@[k].provider] == self.providers@[k]@,
                forall|k: int|
                    0 <= k < i ==> ((#[trigger] self.providers@[k]).lookup_enabled
                        ==> incoming@.contains(self.providers@[k].provider)),
            decreases self.providers@.len() - i,
        {
            if self.providers[i].lookup_enabled && !lists(incoming, &self.providers[i].provider) {
                assert(!incoming@.contains(self.providers@[i as int].provider));
                assert(known[self.providers@[i as int].provider].lookup_enabled);
                return false;
            }
            i = i + 1;
        }
        let mut j: usize = 0;
        while j < incoming.len()
            invariant
                j <= incoming@.len(),
                known == by_id(self.providers@),
                forall|k: int|
                    0 <= k < self.providers@.len() ==> known.contains_key(
                        #[trigger] self.providers@[k].provider,
                    ) && known[self.providers@[k].provider] == self.providers@[k]@,
                forall|k: int|
                    0 <= k < j ==> known.contains_key(#[trigger] incoming@[k])
                        && known[incoming@[k]].lookup_enabled,
                forall|a: int, b: int|
                    0 <= a < b < j ==> #[trigger] incoming@[a] != #[trigger] incoming@[b],
            decreases incoming@.len() - j,
        {
            let mut found = false;
            let mut k: usize = 0;
            while k < self.providers.len()
                invariant
                    k <= self.providers@.len(),
                    j < incoming@.len(),
                    known == by_id(self.providers@),
                    forall|m: int|
                        0 <= m < self.providers@.len() ==> known.contains_key(
                            #[trigger] self.providers@[m].provider,
                        ) && known[self.providers@[m].provider] == self.providers@[m]@,
                    found ==> known.contains_key(incoming@[j as int])
                        && known[incoming@[j as int]].lookup_enabled,
                    !found ==> forall|m: int|
                        0 <= m < k ==> !((#[trigger] self.providers@[m]).provider
                            == incoming@[j as int] && self.providers@[m].lookup_enabled),
                decreases self.providers@.len() - k,
            {
                if self.providers[k].lookup_enabled && same(
                    &self.providers[k].provider,
                    &incoming[j],
                ) {
                    found = true;
                }
                k = k + 1;
            }
            if !found {
                proof {
                    assert(incoming@.contains(incoming@[j as int]));
                    if known.contains_key(incoming@[j as int]) {
                        let m = choose|m: int|
                            0 <= m < self.providers@.len() && #[trigger] self.providers@[m].provider
                                == incoming@[j as int];
                        assert(known[self.providers@[m].provider] == self.providers@[m]@);
                    }
                }
                return false;
            }
            let mut m: usize = 0;
            while m < j
                invariant
                    m <= j,
                    j < incoming@.len(),
                    forall|a: int| 0 <= a < m ==> #[trigger] incoming@[a] != incoming@[j as int],
                decreases j - m,
            {
                if same(&incoming[m], &incoming[j]) {
                    assert(incoming@[m as int] == incoming@[j as int]);
                    assert(!incoming@.no_duplicates());
                    return false;
                }
                m = m + 1;
            }
            j = j + 1;
        }
        proof {
            assert(incoming@.no_duplicates());
            assert forall|id: Id| #[trigger] incoming@.contains(id) <==> known.contains_key(id)
                && known[id].lookup_enabled by {
                if incoming@.contains(id) {
                    let a = choose|a: int| 0 <= a < incoming@.len() && incoming@[a] == id;
                    assert(known.contains_key(incoming@[a]));
                }
                if known.contains_key(id) && known[id].lookup_enabled {
                    let m = choose|m: int|
                        0 <= m < self.providers@.len() && #[trigger] self.providers@[m].provider
                            == id;
                    assert(self.providers@[m].lookup_enabled);
                }
            }
        }
        true
    }

    fn withdraw_lookups(&mut self)
        requires
            old(self).wf(),
        ensures
            final(self).wf(),
            final(self)@.remote_generation == old(self)@.remote_generation,
            final(self)@.remote_conflict == old(self)@.remote_conflict,
            final(self)@.known == old(self)@.known.map_values(
                |state: ProviderView| withdrawn(state),
            ),
    {
        let ghost start = self.providers@;
        let mut i: usize = 0;
        while i < self.providers.len()
            invariant
                i <= self.providers@.len(),
                self.providers@.len() == start.len(),
                self.remote_generation == old(self)@.remote_generation,
                self.remote_conflict == old(self)@.remote_conflict,
                forall|k: int|
                    i <= k < start.len() ==> #[trigger] self.providers@[k] == start[k],
                forall|k: int|
                    0 <= k < i ==> (#[trigger] self.providers@[k])@ == withdrawn(start[k]@),
            decreases self.providers@.len() - i,
        {
            if self.providers[i].lookup_enabled {
                self.providers[i].lookup_enabled = false;
                self.providers[i].routes = Vec::new();
                self.providers[i].routes_expires_at = 0;
                assert(routes_of(self.providers@[i as int].routes@) =~= Seq::<Seq<u8>>::empty());
            }
            i = i + 1;
        }
        proof {
            let after = self.providers@;
            assert forall|k: int| 0 <= k < start.len() implies after[k].provider
                == #[trigger] start[k].provider by {
                assert(after[k]@ == withdrawn(start[k]@));
            }
            lemma_each_changed(start, after);
            lemma_all_by_id(start);
            let want = by_id(start).map_values(|state: ProviderView| withdrawn(state));
            assert forall|id: Id| want.contains_key(id) implies by_id(after)[id]
                == #[trigger] want[id] by {
                let k = choose|k: int|
                    0 <= k < start.len() && #[trigger] start[k].provider == id;
                assert(after[k]@ == withdrawn(start[k]@));
            }
            assert(by_id(after) =~= want);
        }
    }

    fn replace_lookups(&mut self, incoming: &Vec<Id>)
        requires
            old(self).wf(),
        ensures
            final(self).wf(),
            forall|id: Id| #[trigger]
                set_in_effect(final(self)@.known, old(self)@.known, incoming@, id),
    {
        let ghost start = self.providers@;
        let ghost was = by_id(start);
        let mut i: usize = 0;
        while i < self.providers.len()
            invariant
                i <= self.providers@.len(),
                self.providers@.len() == start.len(),
                forall|k: int|
                    i <= k < start.len() ==> #[trigger] self.providers@[k] == start[k],
                forall|k: int|
                    0 <= k < i ==> (#[trigger] self.providers@[k])@ == (ProviderView {
                        lookup_enabled: false,
                        ..start[k]@
                    }),
            decreases self.providers@.len() - i,
        {
            self.providers[i].lookup_enabled = false;
            i = i + 1;
        }
        let ghost first = self.providers@;
        let ghost mid = by_id(first);
        proof {
            assert forall|k: int| 0 <= k < start.len() implies first[k].provider
                == #[trigger] start[k].provider by {
                assert(first[k]@.provider == start[k]@.provider);
            }
            lemma_each_changed(start, first);
            lemma_all_by_id(start);
            assert forall|id: Id| #[trigger] mid.contains_key(id) implies was.contains_key(id)
                && mid[id] == (ProviderView { lookup_enabled: false, ..was[id] }) by {
                let k = choose|k: int| 0 <= k < first.len() && #[trigger] first[k].provider == id;
                assert(start[k].provider == id);
                assert(first[k]@ == (ProviderView { lookup_enabled: false, ..start[k]@ }));
            }
            assert forall|id: Id| #[trigger] was.contains_key(id) implies mid.contains_key(id) by {
                assert(was.dom().contains(id));
            }
        }
        let mut j: usize = 0;
        while j < incoming.len()
            invariant
                j <= incoming@.len(),
                in_order(self.providers@),
                forall|id: Id| #[trigger]
                    mid.contains_key(id) ==> was.contains_key(id) && mid[id] == (ProviderView {
                        lookup_enabled: false,
                        ..was[id]
                    }),
                forall|id: Id| #[trigger] was.contains_key(id) ==> mid.contains_key(id),
                forall|id: Id| #[trigger]
                    replaced(by_id(self.providers@), mid, was, incoming@.take(j as int), id),
            decreases incoming@.len() - j,
        {
            let ghost before = by_id(self.providers@);
            let id = incoming[j];
            let at = provider_at(&mut self.providers, id);
            let ghost found = self.providers@;
            proof {
                lemma_by_id(found, at as int);
            }
            self.providers[at].lookup_enabled = true;
            proof {
                let after = self.providers@;
                lemma_changed(found, after, at as int);
                assert(replaced(before, mid, was, incoming@.take(j as int), id));
                assert(found[at as int]@ == known_or_new(before, id));
                assert(mid.contains_key(id) == was.contains_key(id));
                assert(after[at as int]@ == (ProviderView {
                    lookup_enabled: true,
                    ..known_or_new(was, id)
                }));
                let more = incoming@.take(j + 1);
                assert(more =~= incoming@.take(j as int).push(id));
                assert forall|x: Id| #[trigger] replaced(by_id(after), mid, was, more, x) by {
                    assert(replaced(before, mid, was, incoming@.take(j as int), x));
                    if x == id {
                        assert(more[j as int] == id);
                    } else if incoming@.take(j as int).contains(x) {
                        let k = choose|k: int|
                            0 <= k < j && incoming@.take(j as int)[k] == x;
                        assert(more[k] == x);
                    } else if more.contains(x) {
                        let k = choose|k: int| 0 <= k < more.len() && more[k] == x;
                        assert(k < j);
                        assert(incoming@.take(j as int)[k] == x);
                    }
                }
            }
            j = j + 1;
        }
        assert(incoming@.take(j as int) =~= incoming@);
        let ghost last = by_id(self.providers@);
        drop_unused(&mut self.providers, false);
        proof {
            assert forall|id: Id| #[trigger]
                set_in_effect(by_id(self.providers@), was, incoming@, id) by {
                assert(replaced(last, mid, was, incoming@, id));
                assert(mid.contains_key(id) == was.contains_key(id));
            }
        }
    }

    /// Publish again at once wherever something is published or has to be withdrawn.
    pub fn mark_publication_dirty(&mut self)
        requires
            old(self).wf(),
        ensures
            final(self).wf(),
            final(self)@ == all_dirtied(old(self)@),
    {
        let ghost start = self.providers@;
        let mut i: usize = 0;
        while i < self.providers.len()
            invariant
                i <= self.providers@.len(),
                self.providers@.len() == start.len(),
                self.remote_generation == old(self)@.remote_generation,
                self.remote_conflict == old(self)@.remote_conflict,
                forall|k: int|
                    i <= k < start.len() ==> #[trigger] self.providers@[k] == start[k],
                forall|k: int|
                    0 <= k < i ==> (#[trigger] self.providers@[k])@ == dirtied(start[k]@),
            decreases self.providers@.len() - i,
        {
            if self.providers[i].publish_enabled || self.providers[i].withdrawal_pending {
                self.providers[i].next_register_at = 0;
                self.providers[i].circuit_open_until = 0;
                self.providers[i].consecutive_failures = 0;
            }
            i = i + 1;
        }
        proof {
            let after = self.providers@;
            assert forall|k: int| 0 <= k < start.len() implies after[k].provider
                == #[trigger] start[k].provider by {
                assert(after[k]@ == dirtied(start[k]@));
            }
            lemma_each_changed(start, after);
            lemma_all_by_id(start);
            let want = by_id(start).map_values(|state: ProviderView| dirtied(state));
            assert forall|id: Id| want.contains_key(id) implies by_id(after)[id]
                == #[trigger] want[id] by {
                let k = choose|k: int|
                    0 <= k < start.len() && #[trigger] start[k].provider == id;
                assert(after[k]@ == dirtied(start[k]@));
            }
            assert(by_id(after) =~= want);
        }
    }

    /// Begin a registration with a provider, where one is due.
    pub fn begin_registration(&mut self, id: &Id, configured: u64, now: u64) -> (res: Result<
        Option<Registration>,
    >)
        requires
            old(self).wf(),
        ensures
            final(self).wf(),
            res == if old(self)@.known.contains_key(*id) {
                registration_begun(old(self)@.known[*id], configured, now)
            } else {
                Ok(None)
            },
            final(self)@ == match res {
                Ok(Some(registration)) => ServiceView {
                    known: old(self)@.known.insert(
                        *id,
                        ProviderView {
                            publish_generation: registration.generation,
                            ..old(self)@.known[*id]
                        },
                    ),
                    ..old(self)@
                },
                _ => old(self)@,
            },
    {
        let ghost before = self.providers@;
        let at: usize = match self.position(id) {
            None => {
                return Ok(None);
            },
            Some(at) => at,
        };
        let res = begin_registration(&mut self.providers[at], configured, now);
        proof {
            lemma_changed(before, self.providers@, at as int);
            if !(res matches Ok(Some(_))) {
                assert(self@.known =~= old(self)@.known);
            }
        }
        res
    }

    /// Look at the records that a provider handed out and note what came of it. True says that
    /// they contradicted each other or what was accepted before.
    pub fn settle_lookup(
        &mut self,
        id: &Id,
        records: &Vec<RouteRecord>,
        draw: u64,
        now: u64,
    ) -> (res: bool)
        requires
            old(self).wf(),
        ensures
            final(self).wf(),
            !old(self)@.known.contains_key(*id) ==> !res && final(self)@ == old(self)@,
            old(self)@.known.contains_key(*id) ==> {
                let was = old(self)@.known[*id];
                &&& res == exists|g: u64| #[trigger] conflict_in(records_of(records@), was, g)
                &&& exists|verdict: LookupVerdict| #[trigger]
                    verdict_right(verdict, records_of(records@), was) && final(self)@ == (
                    ServiceView {
                        known: old(self)@.known.insert(
                            *id,
                            lookup_concluded(was, verdict, records_of(records@), draw, now),
                        ),
                        ..old(self)@
                    })
            },
    {
        let ghost before = self.providers@;
        let at: usize = match self.position(id) {
            None => {
                return false;
            },
            Some(at) => at,
        };
        let ghost was = self.providers@[at as int]@;
        let res = settle_lookup(&mut self.providers[at], records, draw, now);
        proof {
            let verdict = choose|verdict: LookupVerdict| #[trigger]
                verdict_right(verdict, records_of(records@), was) && self.providers@[at as int]@
                    == lookup_concluded(was, verdict, records_of(records@), draw, now);
            lemma_changed(before, self.providers@, at as int);
            assert(verdict_right(verdict, records_of(records@), was));
        }
        res
    }

    /// Note what came of a registration with a provider. Providers that are used for nothing any
    /// more are dropped then; one whose withdrawal is still due is kept.
    pub fn conclude_registration(&mut self, id: Id, confirmed: bool, draw: u64, now: u64)
        requires
            old(self).wf(),
        ensures
            final(self).wf(),
            final(self)@.remote_generation == old(self)@.remote_generation,
            final(self)@.remote_conflict == old(self)@.remote_conflict,
            final(self)@.known == after_registration(old(self)@.known, id, confirmed, draw, now),
    {
        let ghost before = self.providers@;
        proof {
            lemma_all_by_id(before);
        }
        let mut at: usize = 0;
        while at < self.providers.len() && !same(&self.providers[at].provider, &id)
            invariant
                at <= self.providers@.len(),
                *self == *old(self),
                forall|k: int| 0 <= k < at ==> #[trigger] self.providers@[k].provider != id,
            decreases self.providers@.len() - at,
        {
            at = at + 1;
        }
        if at < self.providers.len() {
            conclude_registration(&mut self.providers[at], confirmed, draw, now);
            proof {
                lemma_changed(before, self.providers@, at as int);
            }
        } else {
            assert(!listed(before, id));
        }
        drop_unused(&mut self.providers, true);
    }

    /// The providers to register with now, by ascending identity. While it is not certain
    /// that all own routes are known, only withdrawals are made.
    pub fn due_registrations(&self, own_routes_known: bool, now: u64) -> (res: Vec<Id>)
        requires
            self.wf(),
        ensures
            ascending(res@),
            forall|id: Id| #[trigger]
                res@.contains(id) <==> self@.known.contains_key(id) && register_due(
                    self@.known[id],
                    now,
                ) && (own_routes_known || !self@.known[id].publish_enabled),
    {
        let mut hits: Vec<bool> = Vec::new();
        let mut i: usize = 0;
        while i < self.providers.len()
            invariant
                i <= self.providers@.len(),
                hits@.len() == i,
                forall|k: int|
                    0 <= k < i ==> #[trigger] hits@[k] == (register_due(self.providers@[k]@, now)
                        && (own_routes_known || !self.providers@[k].publish_enabled)),
            decreases self.providers@.len() - i,
        {
            let p = &self.providers[i];
            hits.push(
                (p.publish_enabled || p.withdrawal_pending) && p.next_register_at <= now
                    && p.circuit_open_until <= now && (own_routes_known || !p.publish_enabled),
            );
            i = i + 1;
        }
        chosen(&self.providers, &hits)
    }

    /// The providers to look up with now, by ascending identity.
    pub fn due_lookups(&self, force: bool, now: u64) -> (res: Vec<Id>)
        requires
            self.wf(),
        ensures
            ascending(res@),
            forall|id: Id| #[trigger]
                res@.contains(id) <==> self@.known.contains_key(id) && lookup_due(
                    self@.known[id],
                    force,
                    now,
                ),
    {
        let mut hits: Vec<bool> = Vec::new();
        let mut i: usize = 0;
        while i < self.providers.len()
            invariant
                i <= self.providers@.len(),
                hits@.len() == i,
                forall|k: int|
                    0 <= k < i ==> #[trigger] hits@[k] == lookup_due(
                        self.providers@[k]@,
                        force,
                        now,
                    ),
            decreases self.providers@.len() - i,
        {
            hits.push(is_lookup_due(&self.providers[i], force, now));
            i = i + 1;
        }
        chosen(&self.providers, &hits)
    }

    /// Whether a provider knows a route that can be used now.
    pub fn has_fresh_route(&self, now: u64) -> (res: bool)
        requires
            self.wf(),
        ensures
            res == exists|id: Id| #[trigger]
                self@.known.contains_key(id) && self@.known[id].lookup_enabled
                    && self@.known[id].routes_expires_at > now && self@.known[id].routes.len()
                    > 0,
    {
        proof {
            lemma_all_by_id(self.providers@);
        }
        let mut i: usize = 0;
        while i < self.providers.len()
            invariant
                i <= self.providers@.len(),
                in_order(self.providers@),
                forall|k: int|
                    0 <= k < i ==> !((#[trigger] self.providers@[k]).lookup_enabled
                        && self.providers@[k].routes_expires_at > now
                        && self.providers@[k].routes@.len() > 0),
            decreases self.providers@.len() - i,
        {
            let p = &self.providers[i];
            if p.lookup_enabled && p.routes_expires_at > now && p.routes.len() > 0 {
                proof {
                    lemma_by_id(self.providers@, i as int);
                    let id = self.providers@[i as int].provider;
                    assert(self@.known.contains_key(id));
                    assert(self@.known[id].routes.len() > 0);
                }
                return true;
            }
            i = i + 1;
        }
        proof {
            lemma_all_by_id(self.providers@);
            assert forall|id: Id| #[trigger] self@.known.contains_key(id) implies !(
            self@.known[id].lookup_enabled && self@.known[id].routes_expires_at > now
                && self@.known[id].routes.len() > 0) by {
                let k = choose|k: int|
                    0 <= k < self.providers@.len() && #[trigger] self.providers@[k].provider == id;
                assert(self@.known[self.providers@[k].provider] == self.providers@[k]@);
            }
        }
        false
    }
}

/// A provider with which everything is published again at once.
pub open spec fn dirtied(state: ProviderView) -> ProviderView {
    if state.publish_enabled || state.withdrawal_pending {
        ProviderView {
            next_register_at: 0,
            circuit_open_until: 0,
            consecutive_failures: 0,
            ..state
        }
    } else {
        state
    }
}

/// The providers of a device when everything is published again at once.
pub open spec fn all_dirtied(state: ServiceView) -> ServiceView {
    ServiceView { known: state.known.map_values(|p: ProviderView| dirtied(p)), ..state }
}

/// Publish again at once with every provider of every device.
pub fn mark_all_dirty(services: &mut Vec<ServiceState>)
    requires
        forall|i: int| 0 <= i < old(services)@.len() ==> (#[trigger] old(services)@[i]).wf(),
    ensures
        final(services)@.len() == old(services)@.len(),
        forall|i: int|
            0 <= i < final(services)@.len() ==> (#[trigger] final(services)@[i]).wf()
                && final(services)@[i]@ == all_dirtied(old(services)@[i]@),
{
    let ghost before = services@;
    let mut i: usize = 0;
    while i < services.len()
        invariant
            i <= services@.len(),
            services@.len() == before.len(),
            forall|k: int| 0 <= k < services@.len() ==> (#[trigger] services@[k]).wf(),
            forall|k: int|
                0 <= k < i ==> (#[trigger] services@[k])@ == all_dirtied(before[k]@),
            forall|k: int| i <= k < services@.len() ==> #[trigger] services@[k] == before[k],
        decreases services@.len() - i,
    {
        services[i].mark_publication_dirty();
        i = i + 1;
    }
}

/// After a conflict no set of that generation is taken any more: only a newer one ends it.
pub proof fn law_set_conflicts_last(
    generation: u64,
    conflict: u64,
    known: Map<Id, ProviderView>,
    incoming_generation: u64,
    incoming: Seq<Id>,
)
    requires
        incoming_generation <= conflict,
    ensures
        set_outcome(generation, Some(conflict), known, incoming_generation, incoming)
            == ProviderSetOutcome::Stale,
{
}

/// Sets of the peer never go back to an older generation.
pub proof fn law_sets_do_not_go_back(
    generation: u64,
    conflict: Option<u64>,
    known: Map<Id, ProviderView>,
    incoming_generation: u64,
    incoming: Seq<Id>,
)
    requires
        set_outcome(generation, conflict, known, incoming_generation, incoming)
            != ProviderSetOutcome::Stale,
    ensures
        incoming_generation >= generation,
{
}

// ---- Laws ----

/// Nothing is known of a new provider, and nothing is done with it yet.
pub proof fn law_new_providers_are_untouched(known: Map<Id, ProviderView>, id: Id)
    ensures
        known.contains_key(id) ==> known_or_new(known, id) == known[id],
        !known.contains_key(id) ==> {
            let new = known_or_new(known, id);
            &&& new.provider == id
            &&& !new.publish_enabled
            &&& !new.lookup_enabled
            &&& !new.withdrawal_pending
            &&& new.publish_generation == 0
            &&& new.accepted_generation == 0
            &&& new.conflict_generation is None
            &&& new.routes.len() == 0
            &&& new.next_register_at == 0
            &&& new.next_lookup_at == 0
            &&& new.consecutive_failures == 0
            &&& new.circuit_open_until == 0
        },
{
}

/// A provider stays while it is published to or looked up; one that is only to be told of a
/// withdrawal stays where withdrawals are kept.
pub proof fn law_which_providers_stay(state: ProviderView)
    ensures
        state.publish_enabled || state.lookup_enabled ==> in_use(state, true) && in_use(
            state,
            false,
        ),
        !state.publish_enabled && !state.lookup_enabled ==> !in_use(state, false) && in_use(
            state,
            true,
        ) == state.withdrawal_pending,
{
}

/// A provider that is no longer configured is withdrawn from at once where something was
/// published to it; everything that was looked up from it stays.
pub proof fn law_dropped_providers_are_withdrawn_from(state: ProviderView, now: u64)
    ensures
        ({
            let after = demoted(state, now);
            &&& !after.publish_enabled
            &&& state.publish_enabled ==> after.withdrawal_pending == (state.publish_generation > 0)
                && after.next_register_at == now
            &&& !state.publish_enabled ==> after == state
            &&& after.lookup_enabled == state.lookup_enabled
            &&& after.publish_generation == state.publish_generation
            &&& after.routes == state.routes
            &&& after.routes_expires_at == state.routes_expires_at
        }),
{
}

/// A configured provider is published to, and no withdrawal is left; a new one is registered
/// with within five minutes, a known one keeps its time.
pub proof fn law_configured_providers_are_published_to(state: ProviderView, draw: u64, now: u64)
    requires
        now <= u64::MAX - 300,
    ensures
        ({
            let after = promoted(state, draw, now);
            &&& after.publish_enabled
            &&& !after.withdrawal_pending
            &&& state.next_register_at == 0 ==> now <= after.next_register_at <= now + 300
            &&& state.next_register_at != 0 ==> after.next_register_at == state.next_register_at
            &&& after.lookup_enabled == state.lookup_enabled
            &&& after.publish_generation == state.publish_generation
            &&& after.routes == state.routes
        }),
{
}

/// What becomes of an announced set of providers: an older one is passed over, another one of
/// the same generation is a conflict, every other one is taken.
pub proof fn law_announced_sets(
    generation: u64,
    known: Map<Id, ProviderView>,
    incoming_generation: u64,
    incoming: Seq<Id>,
)
    ensures
        incoming_generation < generation ==> set_outcome(
            generation,
            None,
            known,
            incoming_generation,
            incoming,
        ) == ProviderSetOutcome::Stale,
        incoming_generation > generation ==> set_outcome(
            generation,
            None,
            known,
            incoming_generation,
            incoming,
        ) == ProviderSetOutcome::Accepted,
        agrees(known, incoming) ==> set_outcome(generation, None, known, generation, incoming)
            == ProviderSetOutcome::Accepted,
        !agrees(known, incoming) ==> set_outcome(generation, None, known, generation, incoming)
            == ProviderSetOutcome::Conflict,
        forall|c: u64|
            c < incoming_generation && incoming_generation > generation ==> #[trigger] set_outcome(
                generation,
                Some(c),
                known,
                incoming_generation,
                incoming,
            ) == ProviderSetOutcome::Accepted,
{
}

/// A set agrees with what is known when it names exactly the providers that are looked up.
pub proof fn law_agreeing_sets(known: Map<Id, ProviderView>, incoming: Seq<Id>, id: Id)
    ensures
        agrees(known, incoming) && incoming.contains(id) ==> known.contains_key(id)
            && known[id].lookup_enabled,
        agrees(known, incoming) && known.contains_key(id) && known[id].lookup_enabled
            ==> incoming.contains(id),
        !incoming.no_duplicates() ==> !agrees(known, incoming),
{
}

/// A conflict ends every lookup and drops what was looked up; publishing goes on.
pub proof fn law_conflicts_end_lookups(state: ProviderView)
    ensures
        ({
            let after = withdrawn(state);
            &&& !after.lookup_enabled
            &&& state.lookup_enabled ==> after.routes.len() == 0 && after.routes_expires_at == 0
            &&& !state.lookup_enabled ==> after == state
            &&& after.publish_enabled == state.publish_enabled
            &&& after.publish_generation == state.publish_generation
            &&& after.accepted_generation == state.accepted_generation
        }),
{
}

/// Once a set is taken, exactly its providers are looked up; one that is no longer named stays
/// only where something is published to it.
pub proof fn law_taken_sets_are_looked_up(
    after: Map<Id, ProviderView>,
    before: Map<Id, ProviderView>,
    incoming: Seq<Id>,
    id: Id,
)
    requires
        set_in_effect(after, before, incoming, id),
    ensures
        incoming.contains(id) ==> after.contains_key(id) && after[id].lookup_enabled,
        !incoming.contains(id) && after.contains_key(id) ==> !after[id].lookup_enabled
            && after[id].publish_enabled,
        !incoming.contains(id) && before.contains_key(id) && before[id].publish_enabled
            ==> after.contains_key(id),
        before.contains_key(id) && after.contains_key(id) ==> after[id].publish_enabled
            == before[id].publish_enabled && after[id].routes == before[id].routes,
{
}

/// A finished registration is noted with its own provider alone, and a provider that nothing
/// is left to do with is forgotten.
pub proof fn law_registrations_are_noted(
    known: Map<Id, ProviderView>,
    id: Id,
    other: Id,
    confirmed: bool,
    draw: u64,
    now: u64,
)
    requires
        other != id,
    ensures
        ({
            let after = after_registration(known, id, confirmed, draw, now);
            &&& known.contains_key(other) && in_use(known[other], true) ==> after.contains_key(
                other,
            ) && after[other] == known[other]
            &&& !known.contains_key(other) ==> !after.contains_key(other)
            &&& !known.contains_key(id) ==> !after.contains_key(id)
            &&& known.contains_key(id) && known[id].publish_enabled ==> after.contains_key(id)
                && after[id] == registration_concluded(known[id], confirmed, draw, now)
            &&& known.contains_key(id) && !known[id].publish_enabled && !known[id].lookup_enabled
                && confirmed ==> !after.contains_key(id)
        }),
{
}

/// Changed routes are registered anew at once, wherever something is published or to be
/// withdrawn, whatever failed before.
pub proof fn law_changed_routes_are_registered_at_once(state: ProviderView, now: u64)
    ensures
        state.publish_enabled || state.withdrawal_pending ==> register_due(dirtied(state), now)
            && dirtied(state).consecutive_failures == 0,
        !state.publish_enabled && !state.withdrawal_pending ==> dirtied(state) == state,
        dirtied(state).routes == state.routes,
        dirtied(state).next_lookup_at == state.next_lookup_at,
        dirtied(state).publish_generation == state.publish_generation,
{
}

/// Every provider of a service is concerned.
pub proof fn law_all_providers_are_registered_anew(service: ServiceView, id: Id)
    ensures
        all_dirtied(service).known.contains_key(id) == service.known.contains_key(id),
        service.known.contains_key(id) ==> all_dirtied(service).known[id] == dirtied(
            service.known[id],
        ),
        all_dirtied(service).remote_generation == service.remote_generation,
        all_dirtied(service).remote_conflict == service.remote_conflict,
{
}

/// A provider is known under its identity as it is listed, and no other is known.
pub proof fn law_providers_are_known_as_listed(providers: Seq<ProviderState>, i: int, id: Id)
    requires
        in_order(providers),
        0 <= i < providers.len(),
    ensures
        by_id(providers).contains_key(providers[i].provider),
        by_id(providers)[providers[i].provider] == providers[i]@,
        (forall|k: int| 0 <= k < providers.len() ==> (#[trigger] providers[k].provider) != id)
            ==> !by_id(providers).contains_key(id),
{
    let at = choose|k: int|
        0 <= k < providers.len() && #[trigger] providers[k].provider == providers[i].provider;
    assert(listed(providers, providers[i].provider));
    if at < i {
        crate::bytes::lemma_before_irreflexive(providers[i].provider@, 0);
        assert(bytes_before(providers[at].provider@, providers[i].provider@));
    } else if i < at {
        crate::bytes::lemma_before_irreflexive(providers[i].provider@, 0);
        assert(bytes_before(providers[i].provider@, providers[at].provider@));
    }
}

} // verus!
