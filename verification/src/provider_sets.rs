//! The rendezvous providers of this account and the generation of that set.

use vstd::prelude::*;
use vstd::relations::{sorted_by, total_ordering};

use crate::bytes::{
    bytes_before, id_precedes, lemma_before_irreflexive, lemma_before_total,
    lemma_before_transitive, precedes, same, same_bytes, Id,
};
use crate::discovery::DiscoveryMode;
use crate::error::{NodeError, Result};
use crate::providers::{all_dirtied, mark_all_dirty, ServiceState};
use crate::sessions::SessionBook;

verus! {

// ---- Providers in order ----

/// A rendezvous provider of this account.
pub struct ConfiguredProvider {
    /// Where it is.
    pub origin: Vec<u8>,
    /// Its key.
    pub static_key: Id,
    /// Its identity, which follows from where it is and its key.
    pub id: Id,
}

/// A provider as a value: where it is, its key, its identity.
pub open spec fn provider_value(p: ConfiguredProvider) -> (Seq<u8>, Seq<u8>, Seq<u8>) {
    (p.origin@, p.static_key@, p.id@)
}

/// Providers as values.
pub open spec fn provider_values(
    ps: Seq<ConfiguredProvider>,
) -> Seq<(Seq<u8>, Seq<u8>, Seq<u8>)> {
    ps.map_values(|p: ConfiguredProvider| provider_value(p))
}

/// A provider does not come after another: by where it is, then by its key, then by its
/// identity.
pub open spec fn not_after(
    a: (Seq<u8>, Seq<u8>, Seq<u8>),
    b: (Seq<u8>, Seq<u8>, Seq<u8>),
) -> bool {
    ||| bytes_before(a.0, b.0)
    ||| a.0 == b.0 && bytes_before(a.1, b.1)
    ||| a.0 == b.0 && a.1 == b.1 && !bytes_before(b.2, a.2)
}

/// The order of providers.
pub open spec fn provider_order() -> spec_fn(
    (Seq<u8>, Seq<u8>, Seq<u8>),
    (Seq<u8>, Seq<u8>, Seq<u8>),
) -> bool {
    |a: (Seq<u8>, Seq<u8>, Seq<u8>), b: (Seq<u8>, Seq<u8>, Seq<u8>)| not_after(a, b)
}

/// Providers in order.
pub open spec fn canonical(
    ps: Seq<(Seq<u8>, Seq<u8>, Seq<u8>)>,
) -> Seq<(Seq<u8>, Seq<u8>, Seq<u8>)> {
    ps.sort_by(provider_order())
}

/// Two neighbours have one identity.
pub open spec fn repeats(ps: Seq<(Seq<u8>, Seq<u8>, Seq<u8>)>) -> bool {
    exists|i: int| 0 < i < ps.len() && same_identity(ps, i)
}

/// The provider at `i` and the one before it have one identity.
pub open spec fn same_identity(ps: Seq<(Seq<u8>, Seq<u8>, Seq<u8>)>, i: int) -> bool {
    ps[i - 1].2 == ps[i].2
}

proof fn lemma_bytes(a: Seq<u8>, b: Seq<u8>, c: Seq<u8>)
    ensures
        !bytes_before(a, a),
        a != b ==> bytes_before(a, b) != bytes_before(b, a),
        bytes_before(a, b) && bytes_before(b, c) ==> bytes_before(a, c),
{
    lemma_before_irreflexive(a, 0);
    lemma_before_total(a, b, 0);
    if bytes_before(a, b) && bytes_before(b, c) {
        lemma_before_transitive(a, b, c, 0);
    }
}

proof fn lemma_provider_order(
    a: (Seq<u8>, Seq<u8>, Seq<u8>),
    b: (Seq<u8>, Seq<u8>, Seq<u8>),
    c: (Seq<u8>, Seq<u8>, Seq<u8>),
)
    ensures
        not_after(a, a),
        not_after(a, b) && not_after(b, a) ==> a == b,
        not_after(a, b) || not_after(b, a),
        not_after(a, b) && not_after(b, c) ==> not_after(a, c),
{
    lemma_bytes(a.0, b.0, c.0);
    lemma_bytes(b.0, c.0, a.0);
    lemma_bytes(b.0, a.0, c.0);
    lemma_bytes(a.1, b.1, c.1);
    lemma_bytes(b.1, c.1, a.1);
    lemma_bytes(b.1, a.1, c.1);
    lemma_bytes(a.2, b.2, c.2);
    lemma_bytes(b.2, c.2, a.2);
    lemma_bytes(b.2, a.2, c.2);
    lemma_bytes(a.2, c.2, b.2);
    lemma_bytes(c.2, a.2, b.2);
}

proof fn lemma_total()
    ensures
        total_ordering(provider_order()),
{
    let r = provider_order();
    assert forall|x: (Seq<u8>, Seq<u8>, Seq<u8>)| #[trigger] r(x, x) by {
        lemma_provider_order(x, x, x);
    }
    assert forall|x: (Seq<u8>, Seq<u8>, Seq<u8>), y: (Seq<u8>, Seq<u8>, Seq<u8>)| #[trigger]
        r(x, y) && #[trigger] r(y, x) implies x == y by {
        lemma_provider_order(x, y, x);
    }
    assert forall|
        x: (Seq<u8>, Seq<u8>, Seq<u8>),
        y: (Seq<u8>, Seq<u8>, Seq<u8>),
        z: (Seq<u8>, Seq<u8>, Seq<u8>),
    | #[trigger] r(x, y) && #[trigger] r(y, z) implies r(x, z) by {
        lemma_provider_order(x, y, z);
    }
    assert forall|x: (Seq<u8>, Seq<u8>, Seq<u8>), y: (Seq<u8>, Seq<u8>, Seq<u8>)| #[trigger]
        r(x, y) || #[trigger] r(y, x) by {
        lemma_provider_order(x, y, x);
    }
}

/// One set has one order, whatever order it is given in.
pub proof fn law_canonical_forgets_order(
    a: Seq<(Seq<u8>, Seq<u8>, Seq<u8>)>,
    b: Seq<(Seq<u8>, Seq<u8>, Seq<u8>)>,
)
    ensures
        a.to_multiset() == b.to_multiset() <==> canonical(a) == canonical(b),
{
    lemma_total();
    a.lemma_sort_by_ensures(provider_order());
    b.lemma_sort_by_ensures(provider_order());
    if a.to_multiset() == b.to_multiset() {
        vstd::seq_lib::lemma_sorted_unique(canonical(a), canonical(b), provider_order());
    }
}

fn does_not_come_after(a: &ConfiguredProvider, b: &ConfiguredProvider) -> (res: bool)
    ensures
        res == not_after(provider_value(*a), provider_value(*b)),
{
    proof {
        crate::bytes::lemma_same_id(a.static_key, b.static_key);
    }
    if precedes(a.origin.as_slice(), b.origin.as_slice()) {
        return true;
    }
    if !same_bytes(&a.origin, &b.origin) {
        return false;
    }
    id_precedes(&a.static_key, &b.static_key) || (same(&a.static_key, &b.static_key)
        && !id_precedes(&b.id, &a.id))
}

proof fn lemma_inserted(
    prior: Seq<(Seq<u8>, Seq<u8>, Seq<u8>)>,
    next: (Seq<u8>, Seq<u8>, Seq<u8>),
    at: int,
)
    requires
        sorted_by(prior, provider_order()),
        0 <= at <= prior.len(),
        forall|k: int| 0 <= k < at ==> not_after(#[trigger] prior[k], next),
        at < prior.len() ==> !not_after(prior[at], next),
    ensures
        sorted_by(prior.insert(at, next), provider_order()),
{
    let r = provider_order();
    let after = prior.insert(at, next);
    assert forall|i: int, j: int| 0 <= i < j < after.len() implies #[trigger] r(
        after[i],
        after[j],
    ) by {
        if j < at {
            assert(r(prior[i], prior[j]));
        } else if j == at {
            assert(not_after(prior[i], next));
        } else if i == at {
            lemma_provider_order(next, prior[at], prior[j - 1]);
            if j - 1 > at {
                assert(r(prior[at], prior[j - 1]));
            }
        } else if i < at {
            assert(r(prior[i], prior[j - 1]));
        } else {
            assert(r(prior[i - 1], prior[j - 1]));
        }
    }
}

/// Put providers into their order.
pub fn sort_providers(providers: Vec<ConfiguredProvider>) -> (res: Vec<ConfiguredProvider>)
    ensures
        provider_values(res@) == canonical(provider_values(providers@)),
{
    broadcast use vstd::seq_lib::group_to_multiset_ensures;

    let ghost whole = provider_values(providers@);
    let mut rest = providers;
    let mut out: Vec<ConfiguredProvider> = Vec::new();
    assert(provider_values(out@).to_multiset().add(provider_values(rest@).to_multiset())
        =~= whole.to_multiset());
    while rest.len() > 0
        invariant
            sorted_by(provider_values(out@), provider_order()),
            provider_values(out@).to_multiset().add(provider_values(rest@).to_multiset())
                == whole.to_multiset(),
        decreases rest@.len(),
    {
        let ghost left = provider_values(rest@);
        let next = match rest.pop() {
            Some(next) => next,
            None => {
                return out;
            },
        };
        let ghost value = provider_value(next);
        assert(left =~= provider_values(rest@).push(value));
        let mut at: usize = 0;
        while at < out.len() && does_not_come_after(&out[at], &next)
            invariant
                at <= out@.len(),
                value == provider_value(next),
                forall|k: int|
                    0 <= k < at ==> not_after(#[trigger] provider_values(out@)[k], value),
            decreases out@.len() - at,
        {
            at = at + 1;
        }
        let ghost prior = provider_values(out@);
        out.insert(at, next);
        proof {
            vstd::seq_lib::to_multiset_insert(prior, at as int, value);
            vstd::seq_lib::to_multiset_build(provider_values(rest@), value);
            assert(provider_values(out@) =~= prior.insert(at as int, value));
            assert(provider_values(out@).to_multiset().add(provider_values(rest@).to_multiset())
                =~= whole.to_multiset());
            lemma_inserted(prior, value, at as int);
        }
    }
    proof {
        assert(provider_values(out@).to_multiset() =~= whole.to_multiset());
        lemma_total();
        whole.lemma_sort_by_ensures(provider_order());
        vstd::seq_lib::lemma_sorted_unique(
            provider_values(out@),
            canonical(whole),
            provider_order(),
        );
    }
    out
}

fn has_repeats(ps: &Vec<ConfiguredProvider>) -> (res: bool)
    ensures
        res == repeats(provider_values(ps@)),
{
    let ghost values = provider_values(ps@);
    let mut i: usize = 1;
    while i < ps.len()
        invariant
            1 <= i,
            i <= ps@.len() || ps@.len() == 0,
            values == provider_values(ps@),
            forall|k: int| 0 < k < i ==> !#[trigger] same_identity(values, k),
        decreases ps@.len() - i,
    {
        proof {
            crate::bytes::lemma_same_id(ps@[i - 1].id, ps@[i as int].id);
        }
        if same(&ps[i - 1].id, &ps[i].id) {
            assert(same_identity(values, i as int));
            return true;
        }
        i = i + 1;
    }
    false
}

fn same_provider(a: &ConfiguredProvider, b: &ConfiguredProvider) -> (res: bool)
    ensures
        res == (provider_value(*a) == provider_value(*b)),
{
    proof {
        crate::bytes::lemma_same_id(a.static_key, b.static_key);
        crate::bytes::lemma_same_id(a.id, b.id);
    }
    same_bytes(&a.origin, &b.origin) && same(&a.static_key, &b.static_key) && same(&a.id, &b.id)
}

fn same_providers(a: &Vec<ConfiguredProvider>, b: &Vec<ConfiguredProvider>) -> (res: bool)
    ensures
        res == (provider_values(a@) == provider_values(b@)),
{
    let ghost xs = provider_values(a@);
    let ghost ys = provider_values(b@);
    if a.len() != b.len() {
        assert(xs.len() != ys.len());
        return false;
    }
    let mut i: usize = 0;
    while i < a.len()
        invariant
            i <= a@.len(),
            a@.len() == b@.len(),
            xs == provider_values(a@),
            ys == provider_values(b@),
            forall|k: int| 0 <= k < i ==> #[trigger] xs[k] == ys[k],
        decreases a@.len() - i,
    {
        if !same_provider(&a[i], &b[i]) {
            assert(xs[i as int] != ys[i as int]);
            return false;
        }
        i = i + 1;
    }
    assert(xs =~= ys);
    true
}

// ---- Configuration ----

/// The providers of this account and the generation of that set.
pub struct LocalConfig {
    /// Generation of the set; zero before the first.
    pub generation: u64,
    /// The providers.
    pub providers: Vec<ConfiguredProvider>,
}

/// A configuration as a value.
#[verifier::ext_equal]
pub struct ConfigView {
    /// Generation of the set.
    pub generation: u64,
    /// The providers.
    pub providers: Seq<(Seq<u8>, Seq<u8>, Seq<u8>)>,
}

impl View for LocalConfig {
    type V = ConfigView;

    open spec fn view(&self) -> ConfigView {
        ConfigView { generation: self.generation, providers: provider_values(self.providers@) }
    }
}

/// What speaks against a configuration; `providers` are in order. Providers need a client;
/// there are neither in sovereign mode; generations do not go back; and one generation stands
/// for one set.
pub open spec fn configuration_error(
    current: ConfigView,
    persisted: Option<ConfigView>,
    mode: DiscoveryMode,
    has_client: bool,
    providers: Seq<(Seq<u8>, Seq<u8>, Seq<u8>)>,
    generation: u64,
    max_providers: usize,
) -> Option<NodeError> {
    if generation == 0 || providers.len() > max_providers || repeats(providers) || (
    providers.len() > 0 && !has_client) || (mode == DiscoveryMode::Sovereign && (providers.len() > 0
        || has_client)) || generation < current.generation {
        Some(NodeError::RendezvousUnavailable)
    } else if generation == current.generation && providers != current.providers {
        Some(NodeError::RendezvousConflict)
    } else {
        match persisted {
            Some(record) => if generation < record.generation {
                Some(NodeError::RendezvousUnavailable)
            } else if generation == record.generation && providers != record.providers {
                Some(NodeError::RendezvousConflict)
            } else {
                None
            },
            None => None,
        }
    }
}

/// A record as a value.
pub open spec fn record_value(record: Option<&LocalConfig>) -> Option<ConfigView> {
    match record {
        Some(r) => Some(r@),
        None => None,
    }
}

/// The generation that a set in order takes: the current one where it is the current set, else
/// the one after.
pub open spec fn reconciled_generation(
    current: ConfigView,
    providers: Seq<(Seq<u8>, Seq<u8>, Seq<u8>)>,
) -> int {
    let next = if providers == current.providers {
        current.generation as int
    } else {
        current.generation + 1
    };
    if next < 1 {
        1
    } else {
        next
    }
}

impl LocalConfig {
    /// Take up a stored configuration. `derived` holds the identity that follows from where
    /// each provider is and its key; a record that says otherwise is corrupt.
    pub fn restored(
        generation: u64,
        providers: Vec<ConfiguredProvider>,
        derived: &Vec<Id>,
    ) -> (res: Result<LocalConfig>)
        ensures
            match res {
                Ok(config) => {
                    &&& config.generation == generation
                    &&& config.providers == providers
                    &&& providers@.map_values(|p: ConfiguredProvider| p.id) == derived@
                },
                Err(e) => {
                    &&& e == NodeError::CorruptState
                    &&& providers@.map_values(|p: ConfiguredProvider| p.id) != derived@
                },
            },
    {
        let ghost ids = providers@.map_values(|p: ConfiguredProvider| p.id);
        if providers.len() != derived.len() {
            assert(ids.len() != derived@.len());
            return Err(NodeError::CorruptState);
        }
        let mut i: usize = 0;
        while i < providers.len()
            invariant
                i <= providers@.len(),
                providers@.len() == derived@.len(),
                ids == providers@.map_values(|p: ConfiguredProvider| p.id),
                forall|k: int| 0 <= k < i ==> #[trigger] ids[k] == derived@[k],
            decreases providers@.len() - i,
        {
            if !same(&providers[i].id, &derived[i]) {
                assert(ids[i as int] != derived@[i as int]);
                return Err(NodeError::CorruptState);
            }
            i = i + 1;
        }
        assert(ids =~= derived@);
        Ok(LocalConfig { generation, providers })
    }

    /// Configure a set of providers, given in any order. True says that it has to be persisted.
    pub fn configure_rendezvous(
        &mut self,
        persisted: Option<&LocalConfig>,
        mode: DiscoveryMode,
        has_client: bool,
        providers: Vec<ConfiguredProvider>,
        generation: u64,
        max_providers: usize,
    ) -> (res: Result<bool>)
        ensures
            ({
                let set = canonical(provider_values(providers@));
                let wrong = configuration_error(
                    old(self)@,
                    record_value(persisted),
                    mode,
                    has_client,
                    set,
                    generation,
                    max_providers,
                );
                match res {
                    Ok(write) => {
                        &&& wrong is None
                        &&& final(self)@ == (ConfigView { generation, providers: set })
                        &&& write == !(persisted matches Some(record) && record.generation
                            == generation)
                    },
                    Err(e) => {
                        &&& wrong == Some(e)
                        &&& *final(self) == *old(self)
                    },
                }
            }),
    {
        let providers = sort_providers(providers);
        let many: usize = providers.len();
        assert(provider_values(providers@).len() == many);
        if generation == 0 || many > max_providers || has_repeats(&providers) || (many > 0
            && !has_client) || (mode == DiscoveryMode::Sovereign && (many > 0 || has_client))
            || generation < self.generation {
            return Err(NodeError::RendezvousUnavailable);
        }
        if generation == self.generation && !same_providers(&providers, &self.providers) {
            return Err(NodeError::RendezvousConflict);
        }
        let mut write = true;
        if let Some(record) = persisted {
            if generation < record.generation {
                return Err(NodeError::RendezvousUnavailable);
            }
            if generation == record.generation {
                if !same_providers(&providers, &record.providers) {
                    return Err(NodeError::RendezvousConflict);
                }
                write = false;
            }
        }
        self.generation = generation;
        self.providers = providers;
        Ok(write)
    }

    /// Make a set of providers, given in any order, the current one. A new set takes the next
    /// generation, the current one keeps its own. True says that it has to be persisted.
    pub fn reconcile_rendezvous(
        &mut self,
        persisted: Option<&LocalConfig>,
        mode: DiscoveryMode,
        has_client: bool,
        providers: Vec<ConfiguredProvider>,
        max_providers: usize,
    ) -> (res: Result<bool>)
        ensures
            ({
                let set = canonical(provider_values(providers@));
                let generation = reconciled_generation(old(self)@, set);
                let wrong = configuration_error(
                    old(self)@,
                    record_value(persisted),
                    mode,
                    has_client,
                    set,
                    generation as u64,
                    max_providers,
                );
                match res {
                    Ok(write) => {
                        &&& generation <= u64::MAX
                        &&& wrong is None
                        &&& final(self)@ == (ConfigView {
                            generation: generation as u64,
                            providers: set,
                        })
                        &&& write == !(persisted matches Some(record) && record.generation
                            == generation)
                    },
                    Err(e) => {
                        &&& *final(self) == *old(self)
                        &&& if generation > u64::MAX {
                            e == NodeError::CorruptState
                        } else {
                            wrong == Some(e)
                        }
                    },
                }
            }),
    {
        let ghost given = provider_values(providers@);
        let providers = sort_providers(providers);
        proof {
            lemma_total();
            given.lemma_sort_by_ensures(provider_order());
            law_canonical_forgets_order(given, canonical(given));
        }
        let mut generation: u64 = self.generation;
        if !same_providers(&providers, &self.providers) {
            if self.generation == u64::MAX {
                return Err(NodeError::CorruptState);
            }
            generation = self.generation + 1;
        }
        if generation < 1 {
            generation = 1;
        }
        self.configure_rendezvous(persisted, mode, has_client, providers, generation, max_providers)
    }
}

// ---- Laws ----

/// A change of the set advances the generation exactly once; the same set, in whatever order
/// it is given, keeps it.
pub proof fn law_only_changes_advance_the_generation(
    current: ConfigView,
    before: Seq<(Seq<u8>, Seq<u8>, Seq<u8>)>,
    given: Seq<(Seq<u8>, Seq<u8>, Seq<u8>)>,
)
    requires
        current.generation >= 1,
        current.providers == canonical(before),
    ensures
        given.to_multiset() == before.to_multiset() ==> reconciled_generation(
            current,
            canonical(given),
        ) == current.generation,
        given.to_multiset() != before.to_multiset() ==> reconciled_generation(
            current,
            canonical(given),
        ) == current.generation + 1,
{
    law_canonical_forgets_order(given, before);
}

/// Making the current set current again changes nothing: it keeps its generation, in whatever
/// order it is given.
pub proof fn law_reconciling_again_keeps_the_generation(
    current: ConfigView,
    providers: Seq<(Seq<u8>, Seq<u8>, Seq<u8>)>,
    again: Seq<(Seq<u8>, Seq<u8>, Seq<u8>)>,
)
    requires
        again.to_multiset() == providers.to_multiset(),
        reconciled_generation(current, canonical(providers)) <= u64::MAX,
    ensures
        ({
            let first = reconciled_generation(current, canonical(providers));
            let then = ConfigView { generation: first as u64, providers: canonical(providers) };
            reconciled_generation(then, canonical(again)) == first
        }),
{
    law_canonical_forgets_order(again, providers);
}

/// Sovereign mode has no providers, whatever is asked for.
pub proof fn law_sovereign_mode_has_no_providers(
    current: ConfigView,
    persisted: Option<ConfigView>,
    has_client: bool,
    providers: Seq<(Seq<u8>, Seq<u8>, Seq<u8>)>,
    generation: u64,
    max_providers: usize,
)
    requires
        configuration_error(
            current,
            persisted,
            DiscoveryMode::Sovereign,
            has_client,
            providers,
            generation,
            max_providers,
        ) is None,
    ensures
        providers.len() == 0,
        !has_client,
{
}

/// Providers that were configured take effect: every device is told them again, the routes of
/// every device with a session are looked up again, and every provider gets the own routes at
/// once. `services` are the providers of each device with a session.
pub fn adopt_configuration(book: &mut SessionBook, services: &mut Vec<ServiceState>)
    requires
        forall|i: int| 0 <= i < old(services)@.len() ==> (#[trigger] old(services)@[i]).wf(),
    ensures
        final(book)@ == old(book)@.rendezvous_renewed(),
        final(services)@.len() == old(services)@.len(),
        forall|i: int|
            0 <= i < final(services)@.len() ==> (#[trigger] final(services)@[i]).wf()
                && final(services)@[i]@ == all_dirtied(old(services)@[i]@),
{
    book.renew_rendezvous();
    mark_all_dirty(services);
}

/// Providers stand in order of origin, then key, then identity.
pub proof fn law_providers_stand_in_order(
    a: (Seq<u8>, Seq<u8>, Seq<u8>),
    b: (Seq<u8>, Seq<u8>, Seq<u8>),
)
    ensures
        bytes_before(a.0, b.0) ==> not_after(a, b),
        a.0 == b.0 && bytes_before(a.1, b.1) ==> not_after(a, b),
        a.0 == b.0 && a.1 == b.1 && bytes_before(a.2, b.2) ==> not_after(a, b),
        not_after(a, a),
{
    crate::bytes::lemma_before_irreflexive(a.2, 0);
    if a.0 == b.0 && a.1 == b.1 && bytes_before(a.2, b.2) && bytes_before(b.2, a.2) {
        crate::bytes::lemma_before_transitive(a.2, b.2, a.2, 0);
    }
}

/// What makes a configuration unusable: no generation, too many providers, one twice, none to
/// ask them, or a generation behind the current one.
pub proof fn law_unusable_configurations(
    current: ConfigView,
    persisted: Option<ConfigView>,
    mode: DiscoveryMode,
    has_client: bool,
    providers: Seq<(Seq<u8>, Seq<u8>, Seq<u8>)>,
    generation: u64,
    max_providers: usize,
    i: int,
)
    ensures
        ({
            let res = configuration_error(
                current,
                persisted,
                mode,
                has_client,
                providers,
                generation,
                max_providers,
            );
            let unusable = Some(NodeError::RendezvousUnavailable);
            &&& generation == 0 ==> res == unusable
            &&& providers.len() > max_providers ==> res == unusable
            &&& 0 < i < providers.len() && providers[i - 1].2 == providers[i].2 ==> res == unusable
            &&& providers.len() > 0 && !has_client ==> res == unusable
            &&& generation < current.generation ==> res == unusable
            &&& mode == DiscoveryMode::Sovereign && (has_client || providers.len() > 0) ==> res
                == unusable
        }),
{
    if 0 < i < providers.len() && providers[i - 1].2 == providers[i].2 {
        assert(same_identity(providers, i));
    }
}

/// A generation names one set of providers: another set under the same generation is a
/// conflict. A later generation may name any set.
pub proof fn law_generations_name_one_set(
    current: ConfigView,
    persisted: ConfigView,
    mode: DiscoveryMode,
    providers: Seq<(Seq<u8>, Seq<u8>, Seq<u8>)>,
    generation: u64,
    max_providers: usize,
)
    requires
        generation > 0,
        providers.len() <= max_providers,
        !repeats(providers),
        mode != DiscoveryMode::Sovereign,
        generation >= current.generation,
    ensures
        ({
            let alone = configuration_error(
                current,
                None,
                mode,
                true,
                providers,
                generation,
                max_providers,
            );
            let beside = configuration_error(
                current,
                Some(persisted),
                mode,
                true,
                providers,
                generation,
                max_providers,
            );
            let conflict = Some(NodeError::RendezvousConflict);
            &&& generation == current.generation && providers != current.providers ==> alone
                == conflict && beside == conflict
            &&& generation == current.generation && providers == current.providers ==> alone is None
            &&& generation > current.generation ==> alone is None
            &&& generation > current.generation && generation == persisted.generation && providers
                != persisted.providers ==> beside == conflict
            &&& generation > current.generation && generation < persisted.generation ==> beside
                == Some(NodeError::RendezvousUnavailable)
            &&& generation > current.generation && generation > persisted.generation ==> beside
                is None
            &&& generation > current.generation && generation == persisted.generation && providers
                == persisted.providers ==> beside is None
        }),
{
}

} // verus!
