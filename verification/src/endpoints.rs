//! The devices of a contact: how an authenticated manifest or a first flight updates the
//! records of them.

use vstd::prelude::*;

use crate::bytes::{bytes_before, id_precedes, same, same_option, Id, IdSet};

verus! {

/// The record of a contact's device, as far as updates depend on it.
#[derive(Clone, Copy, Debug, PartialEq, Eq)]
pub struct EndpointRow {
    /// The device.
    pub device: Id,
    /// Generation of the manifest that named it; zero when none did.
    pub manifest_generation: u64,
    /// When it was last seen.
    pub last_seen: u64,
    /// Introduction capability.
    pub introduction_capability: Option<Id>,
    /// Generation of that capability.
    pub introduction_generation: u64,
    /// When it was revoked.
    pub revoked_at: Option<u64>,
    /// A prekey bundle is on record.
    pub has_bundle: bool,
    /// Routes are on record.
    pub has_hints: bool,
}

/// A device as a manifest names it.
#[derive(Clone, Copy, Debug, PartialEq, Eq)]
pub struct ManifestEntry {
    /// The device.
    pub device: Id,
    /// When its certificate was issued.
    pub issued_at: u64,
    /// When it was last seen.
    pub last_seen: u64,
    /// When it was revoked.
    pub revoked_at: Option<u64>,
    /// Its last valid counter, once revoked.
    pub revoked_after_counter: Option<u64>,
}

/// Where a part of a device's record comes from.
#[derive(Clone, Copy, Debug, PartialEq, Eq, Structural)]
pub enum Source {
    /// There is none.
    Nothing,
    /// From the record that was there before.
    Prior,
    /// From what the flight advertised.
    Advertised,
}

/// The record of a device after an update. Opaque parts are named by where they come from.
#[derive(Clone, Copy, Debug, PartialEq, Eq)]
pub struct EndpointUpdate {
    /// The device.
    pub device: Id,
    /// Position of the record that it continues.
    pub prior: Option<usize>,
    /// Where its prekey bundle comes from.
    pub bundle: Source,
    /// Where its routes come from.
    pub hints: Source,
    /// Introduction capability.
    pub introduction_capability: Option<Id>,
    /// Generation of that capability.
    pub introduction_generation: u64,
    /// Generation of the manifest that names it.
    pub manifest_generation: u64,
    /// When it was last seen.
    pub last_seen: u64,
    /// When it was revoked.
    pub revoked_at: Option<u64>,
    /// Its last valid counter, once revoked.
    pub revoked_after_counter: Option<u64>,
}

/// Position of the first record of `device` from `from` on, or the number of records.
pub open spec fn row_of(rows: Seq<EndpointRow>, device: Id, from: int) -> int
    decreases rows.len() - from,
{
    if from >= rows.len() || rows[from].device == device {
        from
    } else {
        row_of(rows, device, from + 1)
    }
}

/// Position of the first record that stands for the account itself: it carries the
/// account's identity and no manifest named it.
pub open spec fn alias_of(rows: Seq<EndpointRow>, account: Id, from: int) -> int
    decreases rows.len() - from,
{
    if from >= rows.len() || (rows[from].device == account && rows[from].manifest_generation
        == 0) {
        from
    } else {
        alias_of(rows, account, from + 1)
    }
}

/// Entry `i` is active and was certified before every other active entry.
pub open spec fn is_first_issued(entries: Seq<ManifestEntry>, i: int) -> bool {
    &&& 0 <= i < entries.len()
    &&& entries[i].revoked_at is None
    &&& forall|j: int|
        0 <= j < entries.len() && j != i && (#[trigger] entries[j]).revoked_at is None
            ==> entries[i].issued_at < entries[j].issued_at
}

/// The device that the account's own record passes to: the uniquely first-issued active
/// one.
pub open spec fn heir(entries: Seq<ManifestEntry>, device: Id) -> bool {
    exists|i: int| #[trigger] is_first_issued(entries, i) && entries[i].device == device
}

/// The record that a named device continues: its own, or the account's own record if it is
/// the heir of that.
pub open spec fn prior_of(
    rows: Seq<EndpointRow>,
    entries: Seq<ManifestEntry>,
    account: Id,
    device: Id,
) -> Option<usize> {
    let own = row_of(rows, device, 0);
    let alias = alias_of(rows, account, 0);
    if own < rows.len() {
        Some(own as usize)
    } else if alias < rows.len() && heir(entries, device) {
        Some(alias as usize)
    } else {
        None
    }
}

/// The larger of two times.
pub open spec fn later_of(a: u64, b: u64) -> u64 {
    if a < b {
        b
    } else {
        a
    }
}

/// The record of a named device after the manifest. The device that sent the flight
/// advertises its bundle, and its routes unless it advertised none and some are known.
pub open spec fn update_for(
    rows: Seq<EndpointRow>,
    entries: Seq<ManifestEntry>,
    account: Id,
    sender: Id,
    has_routes: bool,
    generation: u64,
    now: u64,
    entry: ManifestEntry,
) -> EndpointUpdate {
    let prior = prior_of(rows, entries, account, entry.device);
    let advertised = entry.device == sender;
    let known_routes = prior matches Some(k) && rows[k as int].has_hints;
    EndpointUpdate {
        device: entry.device,
        prior,
        bundle: if advertised {
            Source::Advertised
        } else if prior is Some {
            Source::Prior
        } else {
            Source::Nothing
        },
        hints: if advertised && (has_routes || !known_routes) {
            Source::Advertised
        } else if prior is Some {
            Source::Prior
        } else {
            Source::Nothing
        },
        introduction_capability: match prior {
            Some(k) => rows[k as int].introduction_capability,
            None => None,
        },
        introduction_generation: match prior {
            Some(k) => rows[k as int].introduction_generation,
            None => 0,
        },
        manifest_generation: generation,
        last_seen: later_of(
            later_of(
                entry.last_seen,
                match prior {
                    Some(k) => rows[k as int].last_seen,
                    None => 0,
                },
            ),
            if advertised {
                now
            } else {
                0
            },
        ),
        revoked_at: entry.revoked_at,
        revoked_after_counter: entry.revoked_after_counter,
    }
}

/// The manifest names the device.
pub open spec fn names(entries: Seq<ManifestEntry>, device: Id) -> bool {
    exists|i: int| 0 <= i < entries.len() && (#[trigger] entries[i]).device == device
}

/// A record from an earlier manifest whose device the new one no longer names.
pub open spec fn is_orphaned(row: EndpointRow, entries: Seq<ManifestEntry>) -> bool {
    row.manifest_generation > 0 && !names(entries, row.device)
}

/// A record from before manifests that the new one does not name, except the sender's own.
pub open spec fn is_superseded(row: EndpointRow, entries: Seq<ManifestEntry>, sender: Id) -> bool {
    row.manifest_generation == 0 && !names(entries, row.device) && row.device != sender
}

/// Positions of the records among the first `n` that meet the condition.
pub open spec fn positions(rows: Seq<EndpointRow>, hit: spec_fn(EndpointRow) -> bool, n: int) -> Seq<
    usize,
>
    decreases n,
{
    if n <= 0 {
        Seq::empty()
    } else if hit(rows[n - 1]) {
        positions(rows, hit, n - 1).push((n - 1) as usize)
    } else {
        positions(rows, hit, n - 1)
    }
}

/// The device is to be cleaned up: revoked by the manifest or no longer on record, and not
/// the sender where the manifest still names it.
pub open spec fn needs_cleanup(
    rows: Seq<EndpointRow>,
    entries: Seq<ManifestEntry>,
    sender: Id,
    device: Id,
) -> bool {
    ||| exists|i: int|
        0 <= i < entries.len() && (#[trigger] entries[i]).device == device
            && entries[i].revoked_at is Some && device != sender
    ||| exists|i: int|
        0 <= i < rows.len() && (#[trigger] rows[i]).device == device && (is_orphaned(
            rows[i],
            entries,
        ) || is_superseded(rows[i], entries, sender))
}

/// What a manifest does to the records of a contact's devices.
pub struct ManifestMerge {
    /// The records after, one for each named device in order.
    pub endpoints: Vec<EndpointUpdate>,
    /// Positions of the records to delete.
    pub delete: Vec<usize>,
    /// Devices whose sessions and capabilities go.
    pub cleanup: Vec<Id>,
}

fn find_row(rows: &Vec<EndpointRow>, device: &Id) -> (at: usize)
    ensures
        at == row_of(rows@, *device, 0),
        at <= rows@.len(),
{
    let mut at: usize = 0;
    while at < rows.len() && !same(&rows[at].device, device)
        invariant
            at <= rows@.len(),
            row_of(rows@, *device, at as int) == row_of(rows@, *device, 0),
        decreases rows@.len() - at,
    {
        at = at + 1;
    }
    at
}

fn find_alias(rows: &Vec<EndpointRow>, account: &Id) -> (at: usize)
    ensures
        at == alias_of(rows@, *account, 0),
        at <= rows@.len(),
{
    let mut at: usize = 0;
    while at < rows.len() && !(same(&rows[at].device, account) && rows[at].manifest_generation
        == 0)
        invariant
            at <= rows@.len(),
            alias_of(rows@, *account, at as int) == alias_of(rows@, *account, 0),
        decreases rows@.len() - at,
    {
        at = at + 1;
    }
    at
}

fn first_issued(entries: &Vec<ManifestEntry>, i: usize) -> (res: bool)
    requires
        i < entries@.len(),
    ensures
        res == is_first_issued(entries@, i as int),
{
    if entries[i].revoked_at.is_some() {
        return false;
    }
    let mut j: usize = 0;
    while j < entries.len()
        invariant
            i < entries@.len(),
            j <= entries@.len(),
            entries@[i as int].revoked_at is None,
            forall|k: int|
                0 <= k < j && k != i && (#[trigger] entries@[k]).revoked_at is None
                    ==> entries@[i as int].issued_at < entries@[k].issued_at,
        decreases entries@.len() - j,
    {
        if j != i && entries[j].revoked_at.is_none() && entries[j].issued_at
            <= entries[i].issued_at {
            assert(entries@[j as int].revoked_at is None);
            return false;
        }
        j = j + 1;
    }
    true
}

fn inherits(entries: &Vec<ManifestEntry>, device: &Id) -> (res: bool)
    ensures
        res == heir(entries@, *device),
{
    let mut i: usize = 0;
    while i < entries.len()
        invariant
            i <= entries@.len(),
            forall|k: int|
                0 <= k < i ==> !(#[trigger] is_first_issued(entries@, k) && entries@[k].device
                    == *device),
        decreases entries@.len() - i,
    {
        if same(&entries[i].device, device) && first_issued(entries, i) {
            return true;
        }
        i = i + 1;
    }
    false
}

fn named(entries: &Vec<ManifestEntry>, device: &Id) -> (res: bool)
    ensures
        res == names(entries@, *device),
{
    let mut i: usize = 0;
    while i < entries.len()
        invariant
            i <= entries@.len(),
            forall|k: int| 0 <= k < i ==> (#[trigger] entries@[k]).device != *device,
        decreases entries@.len() - i,
    {
        if same(&entries[i].device, device) {
            assert(entries@[i as int].device == *device);
            return true;
        }
        i = i + 1;
    }
    false
}

fn later(a: u64, b: u64) -> (res: u64)
    ensures
        res == later_of(a, b),
{
    if a < b {
        b
    } else {
        a
    }
}

fn update_endpoint(
    rows: &Vec<EndpointRow>,
    entries: &Vec<ManifestEntry>,
    account: Id,
    sender: Id,
    has_routes: bool,
    generation: u64,
    now: u64,
    entry: ManifestEntry,
) -> (res: EndpointUpdate)
    ensures
        res == update_for(rows@, entries@, account, sender, has_routes, generation, now, entry),
{
    let own = find_row(rows, &entry.device);
    let alias = find_alias(rows, &account);
    let prior: Option<usize> = if own < rows.len() {
        Some(own)
    } else if alias < rows.len() && inherits(entries, &entry.device) {
        Some(alias)
    } else {
        None
    };
    let advertised = same(&entry.device, &sender);
    let (capability, capability_generation, prior_seen, known_routes, has_prior) = match prior {
        Some(k) => (
            rows[k].introduction_capability,
            rows[k].introduction_generation,
            rows[k].last_seen,
            rows[k].has_hints,
            true,
        ),
        None => (None, 0, 0, false, false),
    };
    EndpointUpdate {
        device: entry.device,
        prior,
        bundle: if advertised {
            Source::Advertised
        } else if has_prior {
            Source::Prior
        } else {
            Source::Nothing
        },
        hints: if advertised && (has_routes || !known_routes) {
            Source::Advertised
        } else if has_prior {
            Source::Prior
        } else {
            Source::Nothing
        },
        introduction_capability: capability,
        introduction_generation: capability_generation,
        manifest_generation: generation,
        last_seen: later(later(entry.last_seen, prior_seen), if advertised { now } else { 0 }),
        revoked_at: entry.revoked_at,
        revoked_after_counter: entry.revoked_after_counter,
    }
}

/// Identities in strictly ascending order.
pub open spec fn ascending(ids: Seq<Id>) -> bool {
    forall|i: int, j: int|
        0 <= i < j < ids.len() ==> bytes_before((#[trigger] ids[i])@, (#[trigger] ids[j])@)
}

/// The members of a set in ascending order.
pub fn sorted_ids(ids: &IdSet) -> (res: Vec<Id>)
    ensures
        ascending(res@),
        res@.to_set() == ids@,
{
    let items = ids.items();
    let mut out: Vec<Id> = Vec::new();
    let mut i: usize = 0;
    assert(out@.to_set() =~= items@.take(0).to_set());
    while i < items.len()
        invariant
            i <= items@.len(),
            ascending(out@),
            out@.to_set() == items@.take(i as int).to_set(),
        decreases items@.len() - i,
    {
        insert_id(&mut out, items[i]);
        proof {
            let first = items@.take(i as int);
            let more = items@.take(i + 1);
            assert(more =~= first.push(items@[i as int]));
            assert forall|x: Id| more.to_set().contains(x) == first.to_set().insert(
                items@[i as int],
            ).contains(x) by {
                if first.contains(x) {
                    let k = choose|k: int| 0 <= k < first.len() && first[k] == x;
                    assert(more[k] == x);
                }
                assert(more[i as int] == items@[i as int]);
            }
            assert(more.to_set() =~= first.to_set().insert(items@[i as int]));
        }
        i = i + 1;
    }
    assert(items@.take(items@.len() as int) =~= items@);
    out
}

/// Put an identity at its place, unless it is there already.
pub fn insert_id(ids: &mut Vec<Id>, id: Id)
    requires
        ascending(old(ids)@),
    ensures
        ascending(final(ids)@),
        final(ids)@.to_set() == old(ids)@.to_set().insert(id),
        final(ids)@.len() <= old(ids)@.len() + 1,
{
    let mut at: usize = 0;
    while at < ids.len() && id_precedes(&ids[at], &id)
        invariant
            at <= ids@.len(),
            ids@ == old(ids)@,
            forall|k: int| 0 <= k < at ==> bytes_before((#[trigger] ids@[k])@, id@),
        decreases ids@.len() - at,
    {
        at = at + 1;
    }
    let ghost prior = ids@;
    if at < ids.len() && same(&ids[at], &id) {
        proof {
            assert(prior[at as int] == id);
            assert(prior.to_set().insert(id) =~= prior.to_set());
        }
    } else {
        ids.insert(at, id);
        proof {
            let res = prior.insert(at as int, id);
            if at < prior.len() {
                crate::bytes::lemma_before_total(prior[at as int]@, id@, 0);
                crate::bytes::lemma_same_id(prior[at as int], id);
            }
            assert forall|i: int, j: int| 0 <= i < j < res.len() implies bytes_before(
                (#[trigger] res[i])@,
                (#[trigger] res[j])@,
            ) by {
                if i < at && j == at {
                    assert(res[i] == prior[i]);
                } else if i == at && j > at {
                    assert(res[j] == prior[j - 1]);
                    if j - 1 > at {
                        assert(bytes_before(prior[at as int]@, prior[j - 1]@));
                        crate::bytes::lemma_before_transitive(
                            id@,
                            prior[at as int]@,
                            prior[j - 1]@,
                            0,
                        );
                    }
                } else if i < at && j > at {
                    assert(bytes_before(prior[i]@, prior[j - 1]@));
                } else if i > at {
                    assert(bytes_before(prior[i - 1]@, prior[j - 1]@));
                } else {
                    assert(bytes_before(prior[i]@, prior[j]@));
                }
            }
            assert forall|x: Id| res.to_set().contains(x) == prior.to_set().insert(id).contains(
                x,
            ) by {
                if res.contains(x) {
                    let k = choose|k: int| 0 <= k < res.len() && res[k] == x;
                    if k < at {
                        assert(prior[k] == x);
                    } else if k > at {
                        assert(prior[k - 1] == x);
                    }
                }
                if prior.contains(x) {
                    let k = choose|k: int| 0 <= k < prior.len() && prior[k] == x;
                    if k < at {
                        assert(res[k] == x);
                    } else {
                        assert(res[k + 1] == x);
                    }
                }
                if x == id {
                    assert(res[at as int] == x);
                }
            }
            assert(res.to_set() =~= prior.to_set().insert(id));
        }
    }
}

/// Merge a manifest that came with a first flight of `sender` into the records of the
/// contact's devices.
pub fn merge_manifest(
    rows: &Vec<EndpointRow>,
    entries: &Vec<ManifestEntry>,
    account: Id,
    sender: Id,
    has_routes: bool,
    generation: u64,
    now: u64,
) -> (res: ManifestMerge)
    ensures
        res.endpoints@ == entries@.map_values(
            |e: ManifestEntry|
                update_for(rows@, entries@, account, sender, has_routes, generation, now, e),
        ),
        res.delete@ == positions(
            rows@,
            |r: EndpointRow| is_orphaned(r, entries@),
            rows@.len() as int,
        ) + positions(
            rows@,
            |r: EndpointRow| is_superseded(r, entries@, sender),
            rows@.len() as int,
        ),
        ascending(res.cleanup@),
        forall|d: Id| #[trigger]
            res.cleanup@.contains(d) <==> needs_cleanup(rows@, entries@, sender, d),
{
    let ghost orphaned = |r: EndpointRow| is_orphaned(r, entries@);
    let ghost superseded = |r: EndpointRow| is_superseded(r, entries@, sender);
    let mut endpoints: Vec<EndpointUpdate> = Vec::new();
    let mut cleanup: Vec<Id> = Vec::new();
    let mut i: usize = 0;
    while i < entries.len()
        invariant
            i <= entries@.len(),
            endpoints@.len() == i,
            forall|k: int|
                0 <= k < i ==> #[trigger] endpoints@[k] == update_for(
                    rows@,
                    entries@,
                    account,
                    sender,
                    has_routes,
                    generation,
                    now,
                    entries@[k],
                ),
            ascending(cleanup@),
            forall|d: Id| #[trigger]
                cleanup@.to_set().contains(d) <==> exists|k: int|
                    0 <= k < i && (#[trigger] entries@[k]).device == d && entries@[k].revoked_at
                        is Some && d != sender,
        decreases entries@.len() - i,
    {
        let entry = entries[i];
        endpoints.push(
            update_endpoint(
                rows,
                entries,
                account,
                sender,
                has_routes,
                generation,
                now,
                entry,
            ),
        );
        let ghost prior = cleanup@;
        if entry.revoked_at.is_some() && !same(&entry.device, &sender) {
            insert_id(&mut cleanup, entry.device);
        }
        proof {
            assert forall|d: Id| #[trigger]
                cleanup@.to_set().contains(d) <==> exists|k: int|
                    0 <= k < i + 1 && (#[trigger] entries@[k]).device == d
                        && entries@[k].revoked_at is Some && d != sender by {
                assert(prior.to_set().contains(d) <==> exists|k: int|
                    0 <= k < i && (#[trigger] entries@[k]).device == d && entries@[k].revoked_at
                        is Some && d != sender);
                if entry.revoked_at is Some && entry.device != sender && d == entry.device {
                    assert(entries@[i as int].device == d);
                }
            }
        }
        i = i + 1;
    }
    assert(endpoints@ =~= entries@.map_values(
        |e: ManifestEntry|
            update_for(rows@, entries@, account, sender, has_routes, generation, now, e),
    ));
    let ghost revoked = cleanup@.to_set();
    let mut first: Vec<usize> = Vec::new();
    let mut second: Vec<usize> = Vec::new();
    let mut i: usize = 0;
    while i < rows.len()
        invariant
            i <= rows@.len(),
            orphaned == (|r: EndpointRow| is_orphaned(r, entries@)),
            superseded == (|r: EndpointRow| is_superseded(r, entries@, sender)),
            first@ == positions(rows@, orphaned, i as int),
            second@ == positions(rows@, superseded, i as int),
            ascending(cleanup@),
            forall|d: Id| #[trigger]
                cleanup@.to_set().contains(d) <==> revoked.contains(d) || exists|k: int|
                    0 <= k < i && (#[trigger] rows@[k]).device == d && (is_orphaned(
                        rows@[k],
                        entries@,
                    ) || is_superseded(rows@[k], entries@, sender)),
        decreases rows@.len() - i,
    {
        let row = rows[i];
        let missing = !named(entries, &row.device);
        let ghost prior = cleanup@;
        if missing && row.manifest_generation > 0 {
            first.push(i);
            insert_id(&mut cleanup, row.device);
        } else if missing && !same(&row.device, &sender) {
            second.push(i);
            insert_id(&mut cleanup, row.device);
        }
        proof {
            assert forall|d: Id| #[trigger]
                cleanup@.to_set().contains(d) <==> revoked.contains(d) || exists|k: int|
                    0 <= k < i + 1 && (#[trigger] rows@[k]).device == d && (is_orphaned(
                        rows@[k],
                        entries@,
                    ) || is_superseded(rows@[k], entries@, sender)) by {
                assert(prior.to_set().contains(d) <==> revoked.contains(d) || exists|k: int|
                    0 <= k < i && (#[trigger] rows@[k]).device == d && (is_orphaned(
                        rows@[k],
                        entries@,
                    ) || is_superseded(rows@[k], entries@, sender)));
                if d == row.device && (orphaned(row) || superseded(row)) {
                    assert(rows@[i as int].device == d);
                }
            }
        }
        i = i + 1;
    }
    proof {
        assert forall|d: Id| #[trigger] cleanup@.contains(d) <==> needs_cleanup(
            rows@,
            entries@,
            sender,
            d,
        ) by {
            assert(cleanup@.contains(d) == cleanup@.to_set().contains(d));
        }
    }
    let ghost orphans = first@;
    let mut delete = first;
    let mut k: usize = 0;
    assert(orphans + second@.take(0) =~= orphans);
    while k < second.len()
        invariant
            k <= second@.len(),
            delete@ == orphans + second@.take(k as int),
        decreases second@.len() - k,
    {
        delete.push(second[k]);
        k = k + 1;
        assert(delete@ =~= orphans + second@.take(k as int));
    }
    assert(second@.take(second@.len() as int) =~= second@);
    ManifestMerge { endpoints, delete, cleanup }
}

/// The record of a device that sent a first flight without a manifest: what the flight
/// advertised, else what was on record.
pub open spec fn single_update(
    rows: Seq<EndpointRow>,
    device: Id,
    has_bundle: bool,
    has_routes: bool,
    now: u64,
) -> EndpointUpdate {
    let at = row_of(rows, device, 0);
    let known = at < rows.len();
    EndpointUpdate {
        device,
        prior: if known {
            Some(at as usize)
        } else {
            None
        },
        bundle: if has_bundle {
            Source::Advertised
        } else if known {
            Source::Prior
        } else {
            Source::Nothing
        },
        hints: if has_routes {
            Source::Advertised
        } else if known {
            Source::Prior
        } else {
            Source::Nothing
        },
        introduction_capability: if known {
            rows[at].introduction_capability
        } else {
            None
        },
        introduction_generation: if known {
            rows[at].introduction_generation
        } else {
            0
        },
        manifest_generation: 0,
        last_seen: if known {
            later_of(now, rows[at].last_seen)
        } else {
            now
        },
        revoked_at: None,
        revoked_after_counter: None,
    }
}

/// Update the record of a device that sent a first flight without a manifest.
pub fn single_endpoint(
    rows: &Vec<EndpointRow>,
    device: Id,
    has_bundle: bool,
    has_routes: bool,
    now: u64,
) -> (res: EndpointUpdate)
    ensures
        res == single_update(rows@, device, has_bundle, has_routes, now),
{
    let at = find_row(rows, &device);
    if at < rows.len() {
        let row = rows[at];
        EndpointUpdate {
            device,
            prior: Some(at),
            bundle: if has_bundle { Source::Advertised } else { Source::Prior },
            hints: if has_routes { Source::Advertised } else { Source::Prior },
            introduction_capability: row.introduction_capability,
            introduction_generation: row.introduction_generation,
            manifest_generation: 0,
            last_seen: later(now, row.last_seen),
            revoked_at: None,
            revoked_after_counter: None,
        }
    } else {
        EndpointUpdate {
            device,
            prior: None,
            bundle: if has_bundle { Source::Advertised } else { Source::Nothing },
            hints: if has_routes { Source::Advertised } else { Source::Nothing },
            introduction_capability: None,
            introduction_generation: 0,
            manifest_generation: 0,
            last_seen: now,
            revoked_at: None,
            revoked_after_counter: None,
        }
    }
}

/// A manifest never loses what was known of a device that it still names: its introduction
/// capability stays, and it was not seen earlier than before.
pub proof fn law_manifest_keeps_known_devices(
    rows: Seq<EndpointRow>,
    entries: Seq<ManifestEntry>,
    account: Id,
    sender: Id,
    has_routes: bool,
    generation: u64,
    now: u64,
    entry: ManifestEntry,
)
    requires
        row_of(rows, entry.device, 0) < rows.len(),
        rows.len() <= usize::MAX,
    ensures
        ({
            let row = rows[row_of(rows, entry.device, 0)];
            let after = update_for(
                rows,
                entries,
                account,
                sender,
                has_routes,
                generation,
                now,
                entry,
            );
            &&& after.introduction_capability == row.introduction_capability
            &&& after.introduction_generation == row.introduction_generation
            &&& after.last_seen >= row.last_seen
            &&& after.bundle != Source::Nothing
            &&& after.hints != Source::Nothing
        }),
{
    lemma_row_of(rows, entry.device, 0);
}

proof fn lemma_row_of(rows: Seq<EndpointRow>, device: Id, from: int)
    requires
        0 <= from <= rows.len(),
    ensures
        from <= row_of(rows, device, from) <= rows.len(),
    decreases rows.len() - from,
{
    if from < rows.len() && rows[from].device != device {
        lemma_row_of(rows, device, from + 1);
    }
}

// ---- Introduction capabilities ----

/// The highest generation among the live devices of the first `n`.
pub open spec fn accepted_generation(rows: Seq<EndpointRow>, n: int) -> u64
    decreases n,
{
    if n <= 0 {
        0
    } else if rows[n - 1].revoked_at is None {
        later_of(accepted_generation(rows, n - 1), rows[n - 1].introduction_generation)
    } else {
        accepted_generation(rows, n - 1)
    }
}

/// Some live device has another capability of the same generation.
pub open spec fn conflicts(rows: Seq<EndpointRow>, capability: Id, generation: u64) -> bool {
    exists|i: int|
        {
            &&& 0 <= i < rows.len()
            &&& (#[trigger] rows[i]).revoked_at is None
            &&& rows[i].introduction_generation == generation
            &&& rows[i].introduction_capability is Some
            &&& rows[i].introduction_capability != Some(capability)
        }
}

/// A capability control is accepted from a live device that the named manifest authorized,
/// when it is not older than what is known and contradicts nothing of its generation.
pub open spec fn upgrade_accepted(
    rows: Seq<EndpointRow>,
    sender: Id,
    authority_generation: u64,
    capability: Id,
    generation: u64,
) -> bool {
    let at = row_of(rows, sender, 0);
    &&& at < rows.len()
    &&& rows[at].revoked_at is None
    &&& rows[at].manifest_generation == authority_generation
    &&& generation >= accepted_generation(rows, rows.len() as int)
    &&& !conflicts(rows, capability, generation)
}

/// Whether a sender's device is live and authorized by the named manifest.
pub fn sender_authorized(rows: &Vec<EndpointRow>, sender: &Id, authority_generation: u64) -> (res:
    bool)
    ensures
        ({
            let at = row_of(rows@, *sender, 0);
            res == (at < rows@.len() && rows@[at].revoked_at is None
                && rows@[at].manifest_generation == authority_generation)
        }),
{
    let at = find_row(rows, sender);
    at < rows.len() && rows[at].revoked_at.is_none() && rows[at].manifest_generation
        == authority_generation
}

/// A device's record after an accepted capability control.
#[derive(Clone, Copy, Debug, PartialEq, Eq)]
pub struct CapabilityUpdate {
    /// Position of the record.
    pub row: usize,
    /// Its routes are replaced by those of the control.
    pub replace_hints: bool,
}

/// The live records among the first `n` that an accepted control changes: those without
/// the capability, and the sender's own when its routes change.
pub open spec fn capability_updates(
    rows: Seq<EndpointRow>,
    sender: Id,
    capability: Id,
    generation: u64,
    new_routes: bool,
    n: int,
) -> Seq<CapabilityUpdate>
    decreases n,
{
    if n <= 0 {
        Seq::empty()
    } else {
        let prior = capability_updates(rows, sender, capability, generation, new_routes, n - 1);
        let row = rows[n - 1];
        let replace_hints = row.device == sender && new_routes;
        if row.revoked_at is None && (row.introduction_capability != Some(capability)
            || row.introduction_generation != generation || replace_hints) {
            prior.push(CapabilityUpdate { row: (n - 1) as usize, replace_hints })
        } else {
            prior
        }
    }
}

/// Apply a discovery capability control from `sender`, or refuse it. `new_routes` says
/// whether the control carries a complete route set that differs from what is on record
/// for the sender.
pub fn apply_discovery_upgrade(
    rows: &Vec<EndpointRow>,
    sender: Id,
    authority_generation: u64,
    capability: Id,
    generation: u64,
    new_routes: bool,
) -> (res: Option<Vec<CapabilityUpdate>>)
    ensures
        match res {
            Some(updates) => {
                &&& upgrade_accepted(rows@, sender, authority_generation, capability, generation)
                &&& updates@ == capability_updates(
                    rows@,
                    sender,
                    capability,
                    generation,
                    new_routes,
                    rows@.len() as int,
                )
            },
            None => !upgrade_accepted(rows@, sender, authority_generation, capability, generation),
        },
{
    if !sender_authorized(rows, &sender, authority_generation) {
        return None;
    }
    let wanted = Some(capability);
    let mut accepted: u64 = 0;
    let mut i: usize = 0;
    while i < rows.len()
        invariant
            i <= rows@.len(),
            wanted == Some(capability),
            accepted == accepted_generation(rows@, i as int),
            forall|k: int|
                0 <= k < i ==> !((#[trigger] rows@[k]).revoked_at is None
                    && rows@[k].introduction_generation == generation
                    && rows@[k].introduction_capability is Some
                    && rows@[k].introduction_capability != Some(capability)),
        decreases rows@.len() - i,
    {
        let row = rows[i];
        if row.revoked_at.is_none() {
            accepted = later(accepted, row.introduction_generation);
            if row.introduction_generation == generation && row.introduction_capability.is_some()
                && !same_option(&row.introduction_capability, &wanted) {
                assert(rows@[i as int].revoked_at is None);
                return None;
            }
        }
        i = i + 1;
    }
    if generation < accepted {
        return None;
    }
    let mut updates: Vec<CapabilityUpdate> = Vec::new();
    let mut i: usize = 0;
    while i < rows.len()
        invariant
            i <= rows@.len(),
            wanted == Some(capability),
            updates@ == capability_updates(
                rows@,
                sender,
                capability,
                generation,
                new_routes,
                i as int,
            ),
        decreases rows@.len() - i,
    {
        let row = rows[i];
        let replace_hints = same(&row.device, &sender) && new_routes;
        if row.revoked_at.is_none() && (!same_option(&row.introduction_capability, &wanted)
            || row.introduction_generation != generation || replace_hints) {
            updates.push(CapabilityUpdate { row: i, replace_hints });
        }
        i = i + 1;
    }
    Some(updates)
}

/// A capability never goes back: a control older than what any live device knows is
/// refused.
pub proof fn law_capability_generation_is_monotone(
    rows: Seq<EndpointRow>,
    sender: Id,
    authority_generation: u64,
    capability: Id,
    generation: u64,
    k: int,
)
    requires
        upgrade_accepted(rows, sender, authority_generation, capability, generation),
        0 <= k < rows.len(),
        rows[k].revoked_at is None,
    ensures
        rows[k].introduction_generation <= generation,
{
    lemma_accepted_generation(rows, rows.len() as int, k);
}

proof fn lemma_accepted_generation(rows: Seq<EndpointRow>, n: int, k: int)
    requires
        0 <= k < n <= rows.len(),
        rows[k].revoked_at is None,
    ensures
        rows[k].introduction_generation <= accepted_generation(rows, n),
    decreases n,
{
    if k < n - 1 {
        lemma_accepted_generation(rows, n - 1, k);
    }
}

// ---- Laws of endpoints ----

/// Row `at` is the first one of its device.
pub open spec fn is_row_of(rows: Seq<EndpointRow>, device: Id, at: int) -> bool {
    &&& 0 <= at < rows.len()
    &&& rows[at].device == device
    &&& forall|j: int| 0 <= j < at ==> (#[trigger] rows[j]).device != device
}

proof fn lemma_row_at(rows: Seq<EndpointRow>, device: Id, from: int, at: int)
    requires
        0 <= from <= at <= rows.len(),
        at < rows.len() ==> rows[at].device == device,
        forall|j: int| from <= j < at ==> (#[trigger] rows[j]).device != device,
    ensures
        row_of(rows, device, from) == at,
    decreases at - from,
{
    if from < at {
        lemma_row_at(rows, device, from + 1, at);
    }
}

proof fn lemma_no_alias(rows: Seq<EndpointRow>, account: Id, from: int)
    requires
        0 <= from <= rows.len(),
        forall|j: int|
            from <= j < rows.len() ==> !((#[trigger] rows[j]).device == account
                && rows[j].manifest_generation == 0),
    ensures
        alias_of(rows, account, from) == rows.len(),
    decreases rows.len() - from,
{
    if from < rows.len() {
        lemma_no_alias(rows, account, from + 1);
    }
}

/// The device that sends a manifest brings its own bundle; a device that is known keeps what
/// is known of it; of a new device nothing is known but what the manifest says.
pub proof fn law_manifest_entries(
    rows: Seq<EndpointRow>,
    entries: Seq<ManifestEntry>,
    account: Id,
    sender: Id,
    has_routes: bool,
    generation: u64,
    now: u64,
    entry: ManifestEntry,
)
    ensures
        ({
            let after = update_for(
                rows,
                entries,
                account,
                sender,
                has_routes,
                generation,
                now,
                entry,
            );
            &&& after.device == entry.device
            &&& after.manifest_generation == generation
            &&& after.revoked_at == entry.revoked_at
            &&& after.revoked_after_counter == entry.revoked_after_counter
            &&& after.last_seen >= entry.last_seen
            &&& entry.device == sender ==> after.bundle == Source::Advertised && after.last_seen
                >= now
            &&& entry.device == sender && has_routes ==> after.hints == Source::Advertised
            &&& entry.device != sender && after.prior is Some ==> after.bundle == Source::Prior
                && after.hints == Source::Prior
            &&& entry.device != sender && after.prior is None ==> {
                &&& after.bundle == Source::Nothing
                &&& after.hints == Source::Nothing
                &&& after.last_seen == entry.last_seen
            }
            &&& after.prior is None ==> after.introduction_capability is None
                && after.introduction_generation == 0
        }),
{
}

/// The routes that are known of the sender outlast a manifest without any.
pub proof fn law_known_routes_outlast_empty_ones(
    rows: Seq<EndpointRow>,
    entries: Seq<ManifestEntry>,
    account: Id,
    generation: u64,
    now: u64,
    entry: ManifestEntry,
    at: int,
)
    requires
        is_row_of(rows, entry.device, at),
        rows.len() <= usize::MAX,
    ensures
        ({
            let after = update_for(
                rows,
                entries,
                account,
                entry.device,
                false,
                generation,
                now,
                entry,
            );
            &&& after.prior == Some(at as usize)
            &&& rows[at].has_hints ==> after.hints == Source::Prior
            &&& !rows[at].has_hints ==> after.hints == Source::Advertised
            &&& after.last_seen >= rows[at].last_seen
        }),
{
    lemma_row_at(rows, entry.device, 0, at);
}

/// A device that no row knows has no prior row, unless the account's own row passes to it as
/// the first device that was issued.
pub proof fn law_new_devices_have_no_past(
    rows: Seq<EndpointRow>,
    entries: Seq<ManifestEntry>,
    account: Id,
    device: Id,
)
    requires
        forall|j: int| 0 <= j < rows.len() ==> (#[trigger] rows[j]).device != device,
        rows.len() <= usize::MAX,
    ensures
        !heir(entries, device) ==> prior_of(rows, entries, account, device) is None,
        (forall|j: int|
            0 <= j < rows.len() ==> !((#[trigger] rows[j]).device == account
                && rows[j].manifest_generation == 0)) ==> prior_of(rows, entries, account, device)
            is None,
        prior_of(rows, entries, account, device) matches Some(k) ==> heir(entries, device),
{
    lemma_row_at(rows, device, 0, rows.len() as int);
    if forall|j: int|
        0 <= j < rows.len() ==> !((#[trigger] rows[j]).device == account
            && rows[j].manifest_generation == 0) {
        lemma_no_alias(rows, account, 0);
    }
}

/// The first issued device is the live one with the smallest date of issue.
pub proof fn law_first_issued_device(entries: Seq<ManifestEntry>, i: int, j: int)
    requires
        is_first_issued(entries, i),
        0 <= j < entries.len(),
        j != i,
        entries[j].revoked_at is None,
    ensures
        entries[i].revoked_at is None,
        entries[i].issued_at < entries[j].issued_at,
        !is_first_issued(entries, j),
{
}

/// A row from a manifest goes when the manifest no longer names it; one from before manifests
/// goes when it is replaced by named devices; the sender's own row stays.
pub proof fn law_rows_that_go(row: EndpointRow, entries: Seq<ManifestEntry>, sender: Id, i: int)
    ensures
        0 <= i < entries.len() && entries[i].device == row.device ==> !is_orphaned(row, entries)
            && !is_superseded(row, entries, sender),
        (forall|k: int| 0 <= k < entries.len() ==> (#[trigger] entries[k]).device != row.device)
            ==> {
            &&& row.manifest_generation > 0 ==> is_orphaned(row, entries) && !is_superseded(
                row,
                entries,
                sender,
            )
            &&& row.manifest_generation == 0 ==> !is_orphaned(row, entries)
            &&& row.manifest_generation == 0 && row.device != sender ==> is_superseded(
                row,
                entries,
                sender,
            )
            &&& row.manifest_generation == 0 && row.device == sender ==> !is_superseded(
                row,
                entries,
                sender,
            )
        },
{
    if 0 <= i < entries.len() && entries[i].device == row.device {
        assert(names(entries, row.device));
    }
}

/// The rows that are deleted are exactly those that go, by their positions.
pub proof fn law_deleted_positions(
    rows: Seq<EndpointRow>,
    hit: spec_fn(EndpointRow) -> bool,
    n: int,
    i: int,
)
    requires
        0 <= n <= rows.len() <= usize::MAX,
        0 <= i < rows.len(),
    ensures
        positions(rows, hit, n).contains(i as usize) <==> i < n && hit(rows[i]),
    decreases n,
{
    if n > 0 {
        law_deleted_positions(rows, hit, n - 1, i);
        let prior = positions(rows, hit, n - 1);
        let all = positions(rows, hit, n);
        if prior.contains(i as usize) {
            let k = choose|k: int| 0 <= k < prior.len() && prior[k] == i as usize;
            assert(all[k] == i as usize);
        }
        if i == n - 1 && hit(rows[i]) {
            assert(all.last() == i as usize);
        }
        if all.contains(i as usize) && !prior.contains(i as usize) {
            let k = choose|k: int| 0 <= k < all.len() && all[k] == i as usize;
            assert(k == prior.len());
        }
    }
}

/// What is kept of a device goes when the device is revoked or its row goes.
pub proof fn law_cleanup(
    rows: Seq<EndpointRow>,
    entries: Seq<ManifestEntry>,
    sender: Id,
    device: Id,
    i: int,
)
    ensures
        0 <= i < entries.len() && entries[i].device == device && entries[i].revoked_at is Some
            && device != sender ==> needs_cleanup(rows, entries, sender, device),
        0 <= i < rows.len() && rows[i].device == device && !names(entries, device)
            && rows[i].manifest_generation > 0 ==> needs_cleanup(rows, entries, sender, device),
        0 <= i < rows.len() && rows[i].device == device && !names(entries, device)
            && rows[i].manifest_generation == 0 && device != sender ==> needs_cleanup(
            rows,
            entries,
            sender,
            device,
        ),
        names(entries, device) && (forall|k: int|
            0 <= k < entries.len() && (#[trigger] entries[k]).device == device
                ==> entries[k].revoked_at is None) ==> !needs_cleanup(
            rows,
            entries,
            sender,
            device,
        ),
{
}

/// A device without a manifest is written as it is known, with what it brings.
pub proof fn law_single_endpoints(
    rows: Seq<EndpointRow>,
    device: Id,
    has_bundle: bool,
    has_routes: bool,
    now: u64,
    at: int,
)
    requires
        rows.len() <= usize::MAX,
    ensures
        ({
            let after = single_update(rows, device, has_bundle, has_routes, now);
            &&& after.device == device
            &&& after.manifest_generation == 0
            &&& after.revoked_at is None
            &&& after.revoked_after_counter is None
            &&& has_bundle ==> after.bundle == Source::Advertised
            &&& has_routes ==> after.hints == Source::Advertised
            &&& after.last_seen >= now
            &&& is_row_of(rows, device, at) ==> {
                &&& after.prior == Some(at as usize)
                &&& !has_bundle ==> after.bundle == Source::Prior
                &&& !has_routes ==> after.hints == Source::Prior
                &&& after.introduction_capability == rows[at].introduction_capability
                &&& after.introduction_generation == rows[at].introduction_generation
                &&& after.last_seen >= rows[at].last_seen
                &&& after.last_seen == now || after.last_seen == rows[at].last_seen
            }
            &&& (forall|j: int| 0 <= j < rows.len() ==> (#[trigger] rows[j]).device != device)
                ==> {
                &&& after.prior is None
                &&& !has_bundle ==> after.bundle == Source::Nothing
                &&& !has_routes ==> after.hints == Source::Nothing
                &&& after.introduction_capability is None
                &&& after.introduction_generation == 0
                &&& after.last_seen == now
            }
        }),
{
    if is_row_of(rows, device, at) {
        lemma_row_at(rows, device, 0, at);
    }
    if forall|j: int| 0 <= j < rows.len() ==> (#[trigger] rows[j]).device != device {
        lemma_row_at(rows, device, 0, rows.len() as int);
    }
}

/// A new introduction capability is taken from a live device of the current manifest, with a
/// generation that is not behind and that names no other capability.
pub proof fn law_accepted_upgrades(
    rows: Seq<EndpointRow>,
    sender: Id,
    authority_generation: u64,
    capability: Id,
    generation: u64,
    at: int,
)
    requires
        is_row_of(rows, sender, at),
        rows[at].revoked_at is None,
        rows[at].manifest_generation == authority_generation,
        forall|k: int|
            0 <= k < rows.len() && (#[trigger] rows[k]).revoked_at is None
                ==> rows[k].introduction_generation <= generation,
    ensures
        upgrade_accepted(rows, sender, authority_generation, capability, generation) <==> forall|
            k: int,
        |
            0 <= k < rows.len() && (#[trigger] rows[k]).revoked_at is None
                && rows[k].introduction_generation == generation
                && rows[k].introduction_capability is Some ==> rows[k].introduction_capability
                == Some(capability),
{
    lemma_row_at(rows, sender, 0, at);
    lemma_accepted_least(rows, generation, rows.len() as int);
}

proof fn lemma_accepted_least(rows: Seq<EndpointRow>, generation: u64, n: int)
    requires
        0 <= n <= rows.len(),
        forall|k: int|
            0 <= k < rows.len() && (#[trigger] rows[k]).revoked_at is None
                ==> rows[k].introduction_generation <= generation,
    ensures
        accepted_generation(rows, n) <= generation,
    decreases n,
{
    if n > 0 {
        lemma_accepted_least(rows, generation, n - 1);
    }
}

/// An upgrade of an unknown, revoked or outdated device is not taken.
pub proof fn law_refused_upgrades(
    rows: Seq<EndpointRow>,
    sender: Id,
    authority_generation: u64,
    capability: Id,
    generation: u64,
    at: int,
)
    ensures
        (forall|j: int| 0 <= j < rows.len() ==> (#[trigger] rows[j]).device != sender)
            ==> !upgrade_accepted(rows, sender, authority_generation, capability, generation),
        is_row_of(rows, sender, at) && (rows[at].revoked_at is Some || rows[at].manifest_generation
            != authority_generation) ==> !upgrade_accepted(
            rows,
            sender,
            authority_generation,
            capability,
            generation,
        ),
{
    if forall|j: int| 0 <= j < rows.len() ==> (#[trigger] rows[j]).device != sender {
        lemma_row_at(rows, sender, 0, rows.len() as int);
    }
    if is_row_of(rows, sender, at) {
        lemma_row_at(rows, sender, 0, at);
    }
}

/// Exactly the live rows that differ from the new capability are written; the routes are
/// replaced in the sender's own row alone.
pub proof fn law_written_capabilities(
    rows: Seq<EndpointRow>,
    sender: Id,
    capability: Id,
    generation: u64,
    new_routes: bool,
    n: int,
    i: int,
)
    requires
        0 <= i < n <= rows.len() <= usize::MAX,
    ensures
        ({
            let all = capability_updates(rows, sender, capability, generation, new_routes, n);
            let row = rows[i];
            let own = row.device == sender && new_routes;
            let stale = row.introduction_capability != Some(capability)
                || row.introduction_generation != generation;
            &&& row.revoked_at is None && (stale || own) ==> all.contains(
                CapabilityUpdate { row: i as usize, replace_hints: own },
            )
            &&& forall|k: int|
                0 <= k < all.len() && (#[trigger] all[k]).row == i ==> row.revoked_at is None && (
                stale || own) && all[k].replace_hints == own
            &&& forall|k: int| 0 <= k < all.len() ==> (#[trigger] all[k]).row < n
        }),
    decreases n,
{
    let all = capability_updates(rows, sender, capability, generation, new_routes, n);
    let prior = capability_updates(rows, sender, capability, generation, new_routes, n - 1);
    let row = rows[i];
    let own = row.device == sender && new_routes;
    let stale = row.introduction_capability != Some(capability) || row.introduction_generation
        != generation;
    let update = CapabilityUpdate { row: i as usize, replace_hints: own };
    if n > 1 {
        law_written_capabilities(
            rows,
            sender,
            capability,
            generation,
            new_routes,
            n - 1,
            if i < n - 1 {
                i
            } else {
                0
            },
        );
    }
    if row.revoked_at is None && (stale || own) {
        if i < n - 1 {
            let k = choose|k: int| 0 <= k < prior.len() && prior[k] == update;
            assert(all[k] == update);
        } else {
            assert(all.last() == update);
        }
    }
    assert forall|k: int| 0 <= k < all.len() && (#[trigger] all[k]).row == i implies row.revoked_at
        is None && (stale || own) && all[k].replace_hints == own by {
        if k < prior.len() {
            assert(all[k] == prior[k]);
        }
    }
    assert forall|k: int| 0 <= k < all.len() implies (#[trigger] all[k]).row < n by {
        if k < prior.len() {
            assert(all[k] == prior[k]);
        }
    }
}

/// The account's own row from before manifests passes to the first device that was issued.
pub proof fn law_first_device_inherits_the_account(
    rows: Seq<EndpointRow>,
    entries: Seq<ManifestEntry>,
    account: Id,
    device: Id,
    at: int,
)
    requires
        rows.len() <= usize::MAX,
        forall|j: int| 0 <= j < rows.len() ==> (#[trigger] rows[j]).device != device,
        heir(entries, device),
        0 <= at < rows.len(),
        rows[at].device == account,
        rows[at].manifest_generation == 0,
        forall|j: int|
            0 <= j < at ==> !((#[trigger] rows[j]).device == account && rows[j].manifest_generation
                == 0),
    ensures
        prior_of(rows, entries, account, device) == Some(at as usize),
{
    lemma_row_at(rows, device, 0, rows.len() as int);
    lemma_alias_at(rows, account, 0, at);
}

proof fn lemma_alias_at(rows: Seq<EndpointRow>, account: Id, from: int, at: int)
    requires
        0 <= from <= at < rows.len(),
        rows[at].device == account,
        rows[at].manifest_generation == 0,
        forall|j: int|
            from <= j < at ==> !((#[trigger] rows[j]).device == account
                && rows[j].manifest_generation == 0),
    ensures
        alias_of(rows, account, from) == at,
    decreases at - from,
{
    if from < at {
        lemma_alias_at(rows, account, from + 1, at);
    }
}

/// A device inherits when it alone is live, or was issued before every other live one.
pub proof fn law_who_inherits(entries: Seq<ManifestEntry>, i: int)
    requires
        0 <= i < entries.len(),
        entries[i].revoked_at is None,
        forall|j: int|
            0 <= j < entries.len() && j != i && (#[trigger] entries[j]).revoked_at is None
                ==> entries[i].issued_at < entries[j].issued_at,
    ensures
        heir(entries, entries[i].device),
{
    assert(is_first_issued(entries, i));
}

} // verus!
