//! What discovery planes hand out: which candidates are looked at, and which one is taken.

use vstd::prelude::*;

use crate::bytes::{
    bytes_before, copy_bytes, id_precedes, lemma_before_irreflexive, lemma_before_total,
    lemma_before_transitive, lemma_same_id, same_bytes, Id,
};
use crate::error::{NodeError, Result};
use crate::flights::array_of;
use crate::rendezvous::routes_of;
use crate::wire::{digest, sha256};

verus! {

/// A value with the key that it is ordered by.
pub struct Keyed {
    /// The key.
    pub key: Id,
    /// The value.
    pub value: Vec<u8>,
}

/// Keys and values.
pub open spec fn keyed_of(entries: Seq<Keyed>) -> Seq<(Id, Seq<u8>)> {
    Seq::new(entries.len(), |i: int| (entries[i].key, entries[i].value@))
}

/// Entries by ascending key.
pub open spec fn by_key(entries: Seq<(Id, Seq<u8>)>) -> bool {
    forall|i: int, j: int|
        0 <= i < j < entries.len() ==> !bytes_before(
            (#[trigger] entries[j]).0@,
            (#[trigger] entries[i]).0@,
        )
}

/// The values of the first `n` entries, each only where it is not the one before it.
pub open spec fn without_repeats(entries: Seq<(Id, Seq<u8>)>, n: int) -> Seq<Seq<u8>>
    decreases n,
{
    if n <= 0 {
        Seq::empty()
    } else {
        let prior = without_repeats(entries, n - 1);
        if n > 1 && entries[n - 1].1 == entries[n - 2].1 {
            prior
        } else {
            prior.push(entries[n - 1].1)
        }
    }
}

/// At most `most` of the first values.
pub open spec fn first_of(values: Seq<Seq<u8>>, most: usize) -> Seq<Seq<u8>> {
    if values.len() <= most {
        values
    } else {
        values.take(most as int)
    }
}

/// `out` holds the first of some values by ascending key, each once.
pub open spec fn is_first_by_key(
    out: Seq<Seq<u8>>,
    entries: Seq<(Id, Seq<u8>)>,
    most: usize,
) -> bool {
    exists|sorted: Seq<(Id, Seq<u8>)>| #[trigger]
        by_key(sorted) && sorted.to_multiset() == entries.to_multiset() && out == first_of(
            without_repeats(sorted, sorted.len() as int),
            most,
        )
}

/// Values with their digests.
pub open spec fn digested(values: Seq<Seq<u8>>) -> Seq<(Id, Seq<u8>)> {
    Seq::new(values.len(), |i: int| (array_of(sha256(values[i])), values[i]))
}

fn sort_by_key(entries: &Vec<Keyed>) -> (res: Vec<Keyed>)
    ensures
        by_key(keyed_of(res@)),
        keyed_of(res@).to_multiset() == keyed_of(entries@).to_multiset(),
{
    broadcast use vstd::seq_lib::group_to_multiset_ensures;

    let ghost all = keyed_of(entries@);
    let mut out: Vec<Keyed> = Vec::new();
    let mut i: usize = 0;
    assert(all.take(0) =~= Seq::<(Id, Seq<u8>)>::empty());
    assert(keyed_of(out@) =~= Seq::<(Id, Seq<u8>)>::empty());
    while i < entries.len()
        invariant
            i <= entries@.len(),
            all == keyed_of(entries@),
            out@.len() == i,
            by_key(keyed_of(out@)),
            keyed_of(out@).to_multiset() == all.take(i as int).to_multiset(),
        decreases entries@.len() - i,
    {
        let ghost prior = keyed_of(out@);
        let ghost own = all[i as int];
        let mut at: usize = 0;
        while at < out.len() && !id_precedes(&entries[i].key, &out[at].key)
            invariant
                i < entries@.len(),
                at <= out@.len(),
                prior == keyed_of(out@),
                own == (entries@[i as int].key, entries@[i as int].value@),
                forall|k: int|
                    0 <= k < at ==> !bytes_before(own.0@, (#[trigger] prior[k]).0@),
            decreases out@.len() - at,
        {
            assert(prior[at as int].0 == out@[at as int].key);
            at = at + 1;
        }
        let entry = Keyed { key: entries[i].key, value: copy_bytes(&entries[i].value) };
        out.insert(at, entry);
        proof {
            let after = keyed_of(out@);
            assert(after =~= prior.insert(at as int, own));
            lemma_insert_by_key(prior, own, at as int);
            assert(all.take(i + 1) =~= all.take(i as int).push(own));
            vstd::seq_lib::to_multiset_insert(prior, at as int, own);
            assert(prior.insert(at as int, own).to_multiset() =~= prior.to_multiset().insert(own));
            vstd::seq_lib::to_multiset_build(all.take(i as int), own);
        }
        i = i + 1;
    }
    assert(all.take(i as int) =~= all);
    out
}

proof fn lemma_insert_by_key(prior: Seq<(Id, Seq<u8>)>, own: (Id, Seq<u8>), at: int)
    requires
        by_key(prior),
        0 <= at <= prior.len(),
        forall|k: int| 0 <= k < at ==> !bytes_before(own.0@, (#[trigger] prior[k]).0@),
        at < prior.len() ==> bytes_before(own.0@, prior[at].0@),
    ensures
        by_key(prior.insert(at, own)),
{
    let after = prior.insert(at, own);
    assert forall|i: int, j: int| 0 <= i < j < after.len() implies !bytes_before(
        (#[trigger] after[j]).0@,
        (#[trigger] after[i]).0@,
    ) by {
        if j < at {
            assert(after[i] == prior[i] && after[j] == prior[j]);
        } else if j == at {
            assert(after[i] == prior[i]);
        } else if i < at {
            assert(after[i] == prior[i] && after[j] == prior[j - 1]);
        } else if i == at {
            let next = prior[j - 1];
            if bytes_before(next.0@, own.0@) {
                lemma_before_transitive(next.0@, own.0@, prior[at].0@, 0);
                if j - 1 > at {
                    assert(!bytes_before(prior[j - 1].0@, prior[at].0@));
                } else {
                    lemma_before_irreflexive(next.0@, 0);
                }
            }
        } else {
            assert(after[i] == prior[i - 1] && after[j] == prior[j - 1]);
        }
    }
}

/// Put values into the order of their keys, each once, and keep at most `most` of them.
pub fn first_by_key(entries: &Vec<Keyed>, most: usize) -> (res: Vec<Vec<u8>>)
    ensures
        is_first_by_key(routes_of(res@), keyed_of(entries@), most),
        res@.len() <= most,
{
    let sorted = sort_by_key(entries);
    let ghost all = keyed_of(sorted@);
    let mut out: Vec<Vec<u8>> = Vec::new();
    let mut i: usize = 0;
    assert(routes_of(out@) =~= without_repeats(all, 0));
    while i < sorted.len()
        invariant
            i <= sorted@.len(),
            all == keyed_of(sorted@),
            routes_of(out@) == without_repeats(all, i as int),
        decreases sorted@.len() - i,
    {
        assert(all[i as int].1 == sorted@[i as int].value@);
        let repeated = i > 0 && same_bytes(&sorted[i].value, &sorted[i - 1].value);
        if i > 0 {
            assert(all[i - 1].1 == sorted@[i - 1].value@);
        }
        if !repeated {
            let ghost prior = out@;
            out.push(copy_bytes(&sorted[i].value));
            assert(routes_of(out@) =~= routes_of(prior).push(all[i as int].1));
        }
        i = i + 1;
    }
    let ghost unique = routes_of(out@);
    if out.len() > most {
        out.truncate(most);
    }
    proof {
        assert(routes_of(out@) =~= first_of(unique, most));
        assert(by_key(all));
    }
    out
}

/// Put values into the order of their digests, each once, and keep at most `most` of them:
/// which ones does not depend on who handed them out first.
pub fn first_by_digest(values: &Vec<Vec<u8>>, most: usize) -> (res: Vec<Vec<u8>>)
    ensures
        is_first_by_key(routes_of(res@), digested(routes_of(values@)), most),
        res@.len() <= most,
{
    let ghost all = digested(routes_of(values@));
    let mut entries: Vec<Keyed> = Vec::new();
    let mut i: usize = 0;
    while i < values.len()
        invariant
            i <= values@.len(),
            all == digested(routes_of(values@)),
            entries@.len() == i,
            forall|k: int| 0 <= k < i ==> #[trigger] keyed_of(entries@)[k] == all[k],
        decreases values@.len() - i,
    {
        let ghost prior = entries@;
        let key = digest(values[i].as_slice());
        proof {
            lemma_same_id(key, array_of(sha256(values@[i as int]@)));
        }
        entries.push(Keyed { key, value: copy_bytes(&values[i]) });
        assert forall|k: int| 0 <= k < i + 1 implies #[trigger] keyed_of(entries@)[k] == all[k] by {
            if k < i {
                assert(keyed_of(prior)[k] == all[k]);
                assert(entries@[k] == prior[k]);
            }
        }
        i = i + 1;
    }
    assert(keyed_of(entries@) =~= all);
    first_by_key(&entries, most)
}

/// The encoded bytes of the first `n` values.
pub open spec fn total_bytes(values: Seq<Seq<u8>>, n: int) -> int
    decreases n,
{
    if n <= 0 {
        0
    } else {
        total_bytes(values, n - 1) + values[n - 1].len()
    }
}

/// The most bytes that `most` records hold, as far as they can be counted.
pub open spec fn byte_limit(most: usize, record_size: usize) -> int {
    if most * record_size > usize::MAX {
        usize::MAX as int
    } else {
        most * record_size
    }
}

/// Take what one plane handed out: nothing of it where it is too much, else the values of
/// the right size, in the order of their digests and each once.
pub fn take_values(values: &Vec<Vec<u8>>, record_size: usize, most: usize) -> (res: Vec<Vec<u8>>)
    ensures
        ({
            let all = routes_of(values@);
            if values@.len() > most || total_bytes(all, all.len() as int) > byte_limit(
                most,
                record_size,
            ) {
                res@.len() == 0
            } else {
                is_first_by_key(
                    routes_of(res@),
                    digested(all.filter(|v: Seq<u8>| v.len() == record_size)),
                    most,
                )
            }
        }),
        res@.len() <= most,
{
    let ghost all = routes_of(values@);
    if values.len() > most {
        return Vec::new();
    }
    let limit: usize = match most.checked_mul(record_size) {
        Some(limit) => limit,
        None => usize::MAX,
    };
    let mut total: usize = 0;
    let mut over = false;
    let mut i: usize = 0;
    while i < values.len()
        invariant
            i <= values@.len(),
            all == routes_of(values@),
            limit == byte_limit(most, record_size),
            total <= limit,
            over == (total_bytes(all, i as int) > limit),
            !over ==> total == total_bytes(all, i as int),
        decreases values@.len() - i,
    {
        assert(all[i as int] == values@[i as int]@);
        if !over {
            let size: usize = values[i].len();
            if size > limit - total {
                over = true;
            } else {
                total = total + size;
            }
        }
        i = i + 1;
    }
    if over {
        return Vec::new();
    }
    let ghost fits = |v: Seq<u8>| v.len() == record_size;
    let mut kept: Vec<Vec<u8>> = Vec::new();
    let mut k: usize = 0;
    proof {
        crate::seqs::lemma_filter_none(all, fits);
        assert(routes_of(kept@) =~= Seq::<Seq<u8>>::empty());
    }
    while k < values.len()
        invariant
            k <= values@.len(),
            all == routes_of(values@),
            fits == (|v: Seq<u8>| v.len() == record_size),
            routes_of(kept@) == all.take(k as int).filter(fits),
        decreases values@.len() - k,
    {
        proof {
            crate::seqs::lemma_filter_step(all, fits, k as int);
            assert(all[k as int] == values@[k as int]@);
        }
        if values[k].len() == record_size {
            let ghost prior = kept@;
            kept.push(copy_bytes(&values[k]));
            assert(routes_of(kept@) =~= routes_of(prior).push(all[k as int]));
        }
        k = k + 1;
    }
    proof {
        crate::seqs::lemma_take_all(all);
    }
    first_by_digest(&kept, most)
}

// ---- Which one is taken ----

/// How two authorities relate.
#[derive(Clone, Copy, Debug, PartialEq, Eq, Structural)]
pub enum AuthorityRelation {
    /// They go together.
    Compatible,
    /// They contradict each other.
    Fork,
    /// They recover from each other.
    RecoveryConflict,
}

/// The first contradiction, counted from `from`.
pub open spec fn first_conflict(relations: Seq<AuthorityRelation>, from: int) -> Option<NodeError>
    decreases relations.len() - from,
{
    if from >= relations.len() {
        None
    } else {
        match relations[from] {
            AuthorityRelation::Fork => Some(NodeError::DeviceAuthorityFork),
            AuthorityRelation::RecoveryConflict => Some(NodeError::DeviceRecoveryConflict),
            AuthorityRelation::Compatible => first_conflict(relations, from + 1),
        }
    }
}

/// Check that a record contradicts none of those accepted before. `relations` says how it
/// relates to each.
pub fn check_relations(relations: &Vec<AuthorityRelation>) -> (res: Result<()>)
    ensures
        match res {
            Ok(_) => first_conflict(relations@, 0) is None,
            Err(e) => first_conflict(relations@, 0) == Some(e),
        },
{
    let mut i: usize = 0;
    while i < relations.len()
        invariant
            i <= relations@.len(),
            first_conflict(relations@, 0) == first_conflict(relations@, i as int),
        decreases relations@.len() - i,
    {
        match relations[i] {
            AuthorityRelation::Fork => {
                return Err(NodeError::DeviceAuthorityFork);
            },
            AuthorityRelation::RecoveryConflict => {
                return Err(NodeError::DeviceRecoveryConflict);
            },
            AuthorityRelation::Compatible => {},
        }
        i = i + 1;
    }
    Ok(())
}

/// What a verified record is chosen by.
#[derive(Clone, Copy, Debug, PartialEq, Eq)]
pub struct RecordHead {
    /// Generation of its authority.
    pub generation: u64,
    /// When it was issued.
    pub issued_at: u64,
    /// Its digest.
    pub digest: Id,
}

/// `a` is better than `b`: newer authority, then later issue, then smaller digest.
pub open spec fn better_record(a: RecordHead, b: RecordHead) -> bool {
    a.generation > b.generation || (a.generation == b.generation && (a.issued_at > b.issued_at || (
    a.issued_at == b.issued_at && bytes_before(a.digest@, b.digest@))))
}

/// No record is better than the one at `at`, and those before it are worse.
pub open spec fn is_best(records: Seq<RecordHead>, at: int) -> bool {
    &&& 0 <= at < records.len()
    &&& forall|k: int| 0 <= k < records.len() ==> !better_record(#[trigger] records[k], records[at])
    &&& forall|k: int| 0 <= k < at ==> better_record(records[at], #[trigger] records[k])
}

/// Choose among verified records: the best one, the first of equals.
pub fn choose_record(records: &Vec<RecordHead>) -> (res: Option<usize>)
    ensures
        match res {
            Some(at) => is_best(records@, at as int),
            None => records@.len() == 0,
        },
{
    let mut best: Option<usize> = None;
    let mut i: usize = 0;
    while i < records.len()
        invariant
            i <= records@.len(),
            match best {
                Some(at) => {
                    &&& at < i
                    &&& forall|k: int|
                        0 <= k < i ==> !better_record(
                            #[trigger] records@[k],
                            records@[at as int],
                        )
                    &&& forall|k: int|
                        0 <= k < at ==> better_record(records@[at as int], #[trigger] records@[k])
                },
                None => i == 0,
            },
        decreases records@.len() - i,
    {
        let replaces = match best {
            Some(at) => {
                let a = &records[i];
                let b = &records[at];
                a.generation > b.generation || (a.generation == b.generation && (a.issued_at
                    > b.issued_at || (a.issued_at == b.issued_at && id_precedes(
                    &a.digest,
                    &b.digest,
                ))))
            },
            None => true,
        };
        proof {
            if replaces {
                lemma_before_irreflexive(records@[i as int].digest@, 0);
                if let Some(at) = best {
                    assert forall|k: int| 0 <= k < i implies better_record(
                        records@[i as int],
                        #[trigger] records@[k],
                    ) && !better_record(records@[k], records@[i as int]) by {
                        lemma_better(records@[i as int], records@[at as int], records@[k]);
                    }
                }
            }
        }
        if replaces {
            best = Some(i);
        }
        i = i + 1;
    }
    best
}

proof fn lemma_better(a: RecordHead, b: RecordHead, c: RecordHead)
    requires
        better_record(a, b),
        !better_record(c, b),
    ensures
        better_record(a, c),
        !better_record(c, a),
{
    lemma_before_total(b.digest@, c.digest@, 0);
    if bytes_before(a.digest@, b.digest@) && bytes_before(b.digest@, c.digest@) {
        lemma_before_transitive(a.digest@, b.digest@, c.digest@, 0);
    }
    if bytes_before(a.digest@, c.digest@) && bytes_before(c.digest@, a.digest@) {
        lemma_before_transitive(a.digest@, c.digest@, a.digest@, 0);
        lemma_before_irreflexive(a.digest@, 0);
    }
    if bytes_before(c.digest@, a.digest@) && bytes_before(a.digest@, b.digest@) {
        lemma_before_transitive(c.digest@, a.digest@, b.digest@, 0);
    }
    if c.digest@ == b.digest@ && bytes_before(a.digest@, b.digest@) && bytes_before(
        c.digest@,
        a.digest@,
    ) {
        lemma_before_transitive(a.digest@, c.digest@, a.digest@, 0);
    }
}

/// A device that a record leads to.
#[derive(Clone, Copy, Debug, PartialEq, Eq)]
pub struct IngressHead {
    /// When its prekeys expire.
    pub expires_at: u64,
    /// The device.
    pub device: Id,
}

/// `a` is no worse than `b`: its prekeys expire later or, at the same time, its identity is
/// not larger.
pub open spec fn not_worse(a: IngressHead, b: IngressHead) -> bool {
    a.expires_at > b.expires_at || (a.expires_at == b.expires_at && !bytes_before(
        b.device@,
        a.device@,
    ))
}

/// No device is better than the one at `at`, and those behind it are worse.
pub open spec fn is_chosen(heads: Seq<IngressHead>, at: int) -> bool {
    &&& 0 <= at < heads.len()
    &&& forall|k: int| 0 <= k < heads.len() ==> not_worse(heads[at], #[trigger] heads[k])
    &&& forall|k: int| at < k < heads.len() ==> !not_worse(#[trigger] heads[k], heads[at])
}

/// Choose the device of a record: the one whose prekeys last longest, the smallest identity
/// of those, the last of equals.
pub fn choose_ingress(heads: &Vec<IngressHead>) -> (res: Option<usize>)
    ensures
        match res {
            Some(at) => is_chosen(heads@, at as int),
            None => heads@.len() == 0,
        },
{
    let mut best: Option<usize> = None;
    let mut i: usize = 0;
    while i < heads.len()
        invariant
            i <= heads@.len(),
            match best {
                Some(at) => {
                    &&& at < i
                    &&& forall|k: int|
                        0 <= k < i ==> not_worse(heads@[at as int], #[trigger] heads@[k])
                    &&& forall|k: int|
                        at < k < i ==> !not_worse(#[trigger] heads@[k], heads@[at as int])
                },
                None => i == 0,
            },
        decreases heads@.len() - i,
    {
        let replaces = match best {
            Some(at) => {
                let a = &heads[i];
                let b = &heads[at];
                a.expires_at > b.expires_at || (a.expires_at == b.expires_at && !id_precedes(
                    &b.device,
                    &a.device,
                ))
            },
            None => true,
        };
        proof {
            lemma_before_irreflexive(heads@[i as int].device@, 0);
            if let Some(at) = best {
                if replaces {
                    assert forall|k: int| 0 <= k < i implies not_worse(
                        heads@[i as int],
                        #[trigger] heads@[k],
                    ) by {
                        lemma_not_worse(heads@[i as int], heads@[at as int], heads@[k]);
                    }
                } else {
                    lemma_before_total(heads@[at as int].device@, heads@[i as int].device@, 0);
                    if bytes_before(heads@[i as int].device@, heads@[at as int].device@)
                        && bytes_before(heads@[at as int].device@, heads@[i as int].device@) {
                        lemma_before_transitive(
                            heads@[i as int].device@,
                            heads@[at as int].device@,
                            heads@[i as int].device@,
                            0,
                        );
                    }
                }
            }
        }
        if replaces {
            best = Some(i);
        }
        i = i + 1;
    }
    best
}

proof fn lemma_not_worse(a: IngressHead, b: IngressHead, c: IngressHead)
    requires
        not_worse(a, b),
        not_worse(b, c),
    ensures
        not_worse(a, c),
{
    if a.expires_at == c.expires_at && bytes_before(c.device@, a.device@) {
        lemma_before_total(a.device@, b.device@, 0);
        if bytes_before(a.device@, b.device@) {
            lemma_before_transitive(c.device@, a.device@, b.device@, 0);
        } else {
            assert(a.device@ =~= b.device@);
        }
    }
}

/// Choose among bundles of the former kind: the one that lasts longest, the first of equals.
pub fn choose_former(expiries: &Vec<u64>) -> (res: Option<usize>)
    ensures
        match res {
            Some(at) => {
                &&& at < expiries@.len()
                &&& forall|k: int|
                    0 <= k < expiries@.len() ==> #[trigger] expiries@[k] <= expiries@[at as int]
                &&& forall|k: int|
                    0 <= k < at ==> #[trigger] expiries@[k] < expiries@[at as int]
            },
            None => expiries@.len() == 0,
        },
{
    let mut best: Option<usize> = None;
    let mut i: usize = 0;
    while i < expiries.len()
        invariant
            i <= expiries@.len(),
            match best {
                Some(at) => {
                    &&& at < i
                    &&& forall|k: int|
                        0 <= k < i ==> #[trigger] expiries@[k] <= expiries@[at as int]
                    &&& forall|k: int|
                        0 <= k < at ==> #[trigger] expiries@[k] < expiries@[at as int]
                },
                None => i == 0,
            },
        decreases expiries@.len() - i,
    {
        let replaces = match best {
            Some(at) => expiries[i] > expiries[at],
            None => true,
        };
        if replaces {
            best = Some(i);
        }
        i = i + 1;
    }
    best
}

/// The device and the record that a connect code leads to.
#[derive(Clone, Copy, Debug, PartialEq, Eq)]
pub struct ConnectTarget {
    /// Position of the record.
    pub record: usize,
    /// Position of the device in it.
    pub ingress: usize,
}

/// Find what a connect code leads to. `ingress` are the devices of each record. Without a
/// place to look there is no discovery; without a record, or without a device in the chosen
/// one, there is no bundle.
pub fn add_contact_by_address(
    planes: usize,
    records: &Vec<RecordHead>,
    ingress: &Vec<Vec<IngressHead>>,
) -> (res: Result<ConnectTarget>)
    requires
        ingress@.len() == records@.len(),
    ensures
        match res {
            Ok(target) => {
                &&& planes > 0
                &&& is_best(records@, target.record as int)
                &&& is_chosen(ingress@[target.record as int]@, target.ingress as int)
            },
            Err(NodeError::NoDiscovery) => planes == 0,
            Err(e) => {
                &&& planes > 0
                &&& e == NodeError::BundleNotFound
                &&& records@.len() == 0 || exists|at: int|
                    #[trigger] is_best(records@, at) && ingress@[at]@.len() == 0
            },
        },
{
    if planes == 0 {
        return Err(NodeError::NoDiscovery);
    }
    match choose_record(records) {
        None => Err(NodeError::BundleNotFound),
        Some(record) => {
            assert(is_best(records@, record as int));
            match choose_ingress(&ingress[record]) {
                None => Err(NodeError::BundleNotFound),
                Some(at) => Ok(ConnectTarget { record, ingress: at }),
            }
        },
    }
}

// ---- Laws ----

/// Values that stand under one another once sorted are taken once: what is left repeats no
/// neighbour, holds every value, and adds none.
pub proof fn law_values_are_taken_once(entries: Seq<(Id, Seq<u8>)>, n: int, i: int)
    requires
        0 <= n <= entries.len(),
    ensures
        0 <= i < n ==> without_repeats(entries, n).contains(entries[i].1),
        n > 0 ==> without_repeats(entries, n).len() > 0 && without_repeats(entries, n).last()
            == entries[n - 1].1,
        forall|k: int|
            0 <= k < without_repeats(entries, n).len() ==> exists|j: int|
                0 <= j < n && (#[trigger] entries[j]).1 == #[trigger] without_repeats(
                    entries,
                    n,
                )[k],
        without_repeats(entries, n).len() <= n,
    decreases n,
{
    if n > 0 {
        let prior = without_repeats(entries, n - 1);
        let all = without_repeats(entries, n);
        law_values_are_taken_once(entries, n - 1, i);
        if 0 <= i < n - 1 {
            let k = choose|k: int| 0 <= k < prior.len() && prior[k] == entries[i].1;
            assert(all[k] == entries[i].1);
        }
        assert(all.last() == entries[n - 1].1);
        if i == n - 1 {
            assert(all[all.len() - 1] == entries[i].1);
        }
        assert forall|k: int| 0 <= k < all.len() implies exists|j: int|
            0 <= j < n && (#[trigger] entries[j]).1 == #[trigger] all[k] by {
            if k < prior.len() {
                assert(all[k] == prior[k]);
                let j = choose|j: int|
                    0 <= j < n - 1 && (#[trigger] entries[j]).1 == prior[k];
                assert(entries[j].1 == all[k]);
            } else {
                assert(entries[n - 1].1 == all[k]);
            }
        }
    }
}

/// The first values are taken, as many as allowed.
pub proof fn law_first_values_are_taken(values: Seq<Seq<u8>>, most: usize, k: int)
    ensures
        values.len() <= most ==> first_of(values, most) == values,
        values.len() > most ==> first_of(values, most).len() == most,
        0 <= k < first_of(values, most).len() ==> first_of(values, most)[k] == values[k],
{
}

/// The size of values is the sum of their lengths.
pub proof fn law_value_sizes_add_up(values: Seq<Seq<u8>>, n: int)
    requires
        0 <= n < values.len(),
    ensures
        total_bytes(values, 0) == 0,
        total_bytes(values, n + 1) == total_bytes(values, n) + values[n].len(),
{
}

/// The first contradiction among the relations decides, and its kind says which error; without
/// any all is well.
pub proof fn law_first_contradiction_decides(
    relations: Seq<AuthorityRelation>,
    from: int,
    i: int,
)
    requires
        0 <= from <= relations.len(),
    ensures
        from <= i < relations.len() && (forall|k: int|
            from <= k < i ==> #[trigger] relations[k] == AuthorityRelation::Compatible) ==> {
            &&& relations[i] == AuthorityRelation::Fork ==> first_conflict(relations, from) == Some(
                NodeError::DeviceAuthorityFork,
            )
            &&& relations[i] == AuthorityRelation::RecoveryConflict ==> first_conflict(
                relations,
                from,
            ) == Some(NodeError::DeviceRecoveryConflict)
        },
        (forall|k: int|
            from <= k < relations.len() ==> #[trigger] relations[k]
                == AuthorityRelation::Compatible) ==> first_conflict(relations, from) is None,
    decreases relations.len() - from,
{
    if from < relations.len() {
        law_first_contradiction_decides(relations, from + 1, i);
    }
}

/// The newest record is the best: by generation, then by date of issue, then by digest.
pub proof fn law_better_records(a: RecordHead, b: RecordHead)
    ensures
        a.generation > b.generation ==> better_record(a, b) && !better_record(b, a),
        a.generation == b.generation && a.issued_at > b.issued_at ==> better_record(a, b)
            && !better_record(b, a),
        a.generation == b.generation && a.issued_at == b.issued_at ==> better_record(a, b)
            == bytes_before(a.digest@, b.digest@),
{
}

/// Of two ways in, the one that lasts longer is not the worse one.
pub proof fn law_longest_way_in(a: IngressHead, b: IngressHead)
    ensures
        a.expires_at > b.expires_at ==> not_worse(a, b) && !not_worse(b, a),
        a.expires_at == b.expires_at && bytes_before(a.device@, b.device@) ==> not_worse(a, b)
            && !not_worse(b, a),
{
    if bytes_before(a.device@, b.device@) && bytes_before(b.device@, a.device@) {
        crate::bytes::lemma_before_transitive(a.device@, b.device@, a.device@, 0);
        crate::bytes::lemma_before_irreflexive(a.device@, 0);
    }
}

/// The chosen record is one of those found, and no other is better.
pub proof fn law_best_record_is_chosen(records: Seq<RecordHead>, at: int, k: int)
    requires
        is_best(records, at),
        0 <= k < records.len(),
    ensures
        0 <= at < records.len(),
        records[k].generation <= records[at].generation,
        records[k].generation == records[at].generation ==> records[k].issued_at
            <= records[at].issued_at,
{
    assert(!better_record(records[k], records[at]));
}

/// The chosen way in is one of those found, and none lasts longer.
pub proof fn law_longest_way_in_is_chosen(heads: Seq<IngressHead>, at: int, k: int)
    requires
        is_chosen(heads, at),
        0 <= k < heads.len(),
    ensures
        0 <= at < heads.len(),
        heads[k].expires_at <= heads[at].expires_at,
{
    assert(not_worse(heads[at], heads[k]));
}

/// The values that are chosen were all given, stand in the order of their keys, and are as
/// many as allowed; while there is room none is left out.
pub proof fn law_chosen_values_were_given(
    out: Seq<Seq<u8>>,
    entries: Seq<(Id, Seq<u8>)>,
    most: usize,
    k: int,
    i: int,
)
    requires
        is_first_by_key(out, entries, most),
    ensures
        out.len() <= most,
        0 <= k < out.len() ==> exists|j: int|
            0 <= j < entries.len() && (#[trigger] entries[j]).1 == out[k],
        0 <= i < entries.len() && out.len() < most ==> out.contains(entries[i].1),
{
    let sorted = choose|sorted: Seq<(Id, Seq<u8>)>| #[trigger]
        by_key(sorted) && sorted.to_multiset() == entries.to_multiset() && out == first_of(
            without_repeats(sorted, sorted.len() as int),
            most,
        );
    let n = sorted.len() as int;
    let all = without_repeats(sorted, n);
    broadcast use vstd::seq_lib::group_to_multiset_ensures;
    if 0 <= k < out.len() {
        law_values_are_taken_once(sorted, n, 0);
        assert(out[k] == all[k]);
        let j = choose|j: int| 0 <= j < n && (#[trigger] sorted[j]).1 == all[k];
        assert(sorted.contains(sorted[j]));
        assert(sorted.to_multiset().count(sorted[j]) > 0);
        assert(entries.contains(sorted[j]));
        let m = choose|m: int| 0 <= m < entries.len() && entries[m] == sorted[j];
        assert(entries[m].1 == out[k]);
    }
    if 0 <= i < entries.len() && out.len() < most {
        assert(entries.contains(entries[i]));
        assert(entries.to_multiset().count(entries[i]) > 0);
        assert(sorted.contains(entries[i]));
        let m = choose|m: int| 0 <= m < sorted.len() && sorted[m] == entries[i];
        law_values_are_taken_once(sorted, n, m);
        assert(out == all);
    }
}

/// Values stand in the order of their keys when none stands before one with a smaller key.
pub proof fn law_values_stand_by_key(entries: Seq<(Id, Seq<u8>)>, i: int, j: int)
    requires
        by_key(entries),
        0 <= i < j < entries.len(),
    ensures
        !bytes_before(entries[j].0@, entries[i].0@),
{
}

/// The key of a value is its digest.
pub proof fn law_keys_are_digests(values: Seq<Seq<u8>>, i: int)
    requires
        0 <= i < values.len(),
    ensures
        digested(values).len() == values.len(),
        digested(values)[i].1 == values[i],
        digested(values)[i].0 == array_of(sha256(values[i])),
{
}

/// Values are taken up to the size of as many records as allowed.
pub proof fn law_size_of_values(most: usize, record_size: usize)
    ensures
        most * record_size <= usize::MAX ==> byte_limit(most, record_size) == most * record_size,
        most * record_size > usize::MAX ==> byte_limit(most, record_size) == usize::MAX,
{
}

} // verus!
