//! Lists of encoded routes.

use vstd::prelude::*;

use crate::bytes::{
    bytes_before, copy_bytes, lemma_before_total, lemma_before_transitive, precedes, same_bytes,
};
use crate::rendezvous::{copy_routes, routes_of};

verus! {

/// Byte strings in strictly ascending order.
pub open spec fn in_byte_order(values: Seq<Seq<u8>>) -> bool {
    forall|i: int, j: int|
        0 <= i < j < values.len() ==> bytes_before(#[trigger] values[i], #[trigger] values[j])
}

fn insert_route(routes: &mut Vec<Vec<u8>>, value: Vec<u8>)
    requires
        in_byte_order(routes_of(old(routes)@)),
    ensures
        in_byte_order(routes_of(final(routes)@)),
        routes_of(final(routes)@).to_set() == routes_of(old(routes)@).to_set().insert(value@),
        final(routes)@.len() <= old(routes)@.len() + 1,
{
    let ghost prior = routes_of(routes@);
    let mut at: usize = 0;
    while at < routes.len() && precedes(routes[at].as_slice(), value.as_slice())
        invariant
            at <= routes@.len(),
            routes@ == old(routes)@,
            prior == routes_of(routes@),
            forall|k: int| 0 <= k < at ==> bytes_before(#[trigger] prior[k], value@),
        decreases routes@.len() - at,
    {
        assert(prior[at as int] == routes@[at as int]@);
        at = at + 1;
    }
    if at < routes.len() && same_bytes(&routes[at], &value) {
        proof {
            assert(prior[at as int] == value@);
            assert(prior.to_set().insert(value@) =~= prior.to_set());
        }
        return;
    }
    let ghost own = value@;
    routes.insert(at, value);
    proof {
        let res = routes_of(routes@);
        assert(res =~= prior.insert(at as int, own));
        if at < prior.len() {
            lemma_before_total(prior[at as int], own, 0);
        }
        assert forall|i: int, j: int| 0 <= i < j < res.len() implies bytes_before(
            #[trigger] res[i],
            #[trigger] res[j],
        ) by {
            if i < at && j == at {
                assert(res[i] == prior[i]);
            } else if i == at && j > at {
                assert(res[j] == prior[j - 1]);
                if j - 1 > at {
                    assert(bytes_before(prior[at as int], prior[j - 1]));
                    lemma_before_transitive(own, prior[at as int], prior[j - 1], 0);
                }
            } else if i < at && j > at {
                assert(bytes_before(prior[i], prior[j - 1]));
            } else if i > at {
                assert(bytes_before(prior[i - 1], prior[j - 1]));
            } else {
                assert(bytes_before(prior[i], prior[j]));
            }
        }
        assert forall|x: Seq<u8>| res.to_set().contains(x) == prior.to_set().insert(own).contains(
            x,
        ) by {
            if res.contains(x) {
                let k = choose|k: int| 0 <= k < res.len() && res[k] == x;
                if k < at {
                    assert(prior[k] == x);
                } else if k > at {
                    assert(prior[k - 1] == x);
                }
            }
            if prior.contains(x) {
                let k = choose|k: int| 0 <= k < prior.len() && prior[k] == x;
                if k < at {
                    assert(res[k] == x);
                } else {
                    assert(res[k + 1] == x);
                }
            }
            if x == own {
                assert(res[at as int] == x);
            }
        }
        assert(res.to_set() =~= prior.to_set().insert(own));
    }
}

/// Routes in their one order, each once.
pub fn canonical_routes(values: &Vec<Vec<u8>>) -> (res: Vec<Vec<u8>>)
    ensures
        in_byte_order(routes_of(res@)),
        routes_of(res@).to_set() == routes_of(values@).to_set(),
        res@.len() <= values@.len(),
{
    let ghost all = routes_of(values@);
    let mut out: Vec<Vec<u8>> = Vec::new();
    let mut i: usize = 0;
    assert(routes_of(out@).to_set() =~= all.take(0).to_set());
    while i < values.len()
        invariant
            i <= values@.len(),
            all == routes_of(values@),
            in_byte_order(routes_of(out@)),
            out@.len() <= i,
            routes_of(out@).to_set() == all.take(i as int).to_set(),
        decreases values@.len() - i,
    {
        let value = copy_bytes(&values[i]);
        let ghost own = value@;
        insert_route(&mut out, value);
        proof {
            let front = all.take(i as int);
            let more = all.take(i + 1);
            assert(more =~= front.push(own));
            assert forall|x: Seq<u8>| more.to_set().contains(x) == front.to_set().insert(
                own,
            ).contains(x) by {
                if front.contains(x) {
                    let k = choose|k: int| 0 <= k < front.len() && front[k] == x;
                    assert(more[k] == x);
                }
                if x == own {
                    assert(more[i as int] == x);
                }
                if more.contains(x) {
                    let k = choose|k: int| 0 <= k < more.len() && more[k] == x;
                    if k < i {
                        assert(front[k] == x);
                    }
                }
            }
            assert(more.to_set() =~= front.to_set().insert(own));
        }
        i = i + 1;
    }
    assert(all.take(i as int) =~= all);
    out
}

/// Routes in their one order, each once, and at most `most` of them.
pub fn bounded_routes(values: &Vec<Vec<u8>>, most: usize) -> (res: Vec<Vec<u8>>)
    ensures
        in_byte_order(routes_of(res@)),
        res@.len() <= most,
        forall|k: int|
            0 <= k < res@.len() ==> routes_of(values@).contains(#[trigger] routes_of(res@)[k]),
        forall|x: Seq<u8>| #[trigger]
            routes_of(values@).contains(x) ==> routes_of(res@).contains(x) || (res@.len() == most
                && forall|k: int|
                0 <= k < res@.len() ==> bytes_before(#[trigger] routes_of(res@)[k], x)),
{
    let mut out = canonical_routes(values);
    let ghost all = routes_of(out@);
    if out.len() > most {
        out.truncate(most);
    }
    proof {
        let res = routes_of(out@);
        assert forall|k: int| 0 <= k < res.len() implies all[k] == #[trigger] res[k] by {}
        assert forall|k: int| 0 <= k < res.len() implies routes_of(values@).contains(
            #[trigger] res[k],
        ) by {
            assert(all.contains(all[k]));
            assert(all.to_set().contains(all[k]));
        }
        assert forall|x: Seq<u8>| #[trigger] routes_of(values@).contains(x) implies res.contains(x)
            || (out@.len() == most && forall|k: int|
            0 <= k < res.len() ==> bytes_before(#[trigger] res[k], x)) by {
            assert(routes_of(values@).to_set().contains(x));
            assert(all.to_set().contains(x));
            let j = choose|j: int| 0 <= j < all.len() && all[j] == x;
            if j < res.len() {
                assert(res[j] == x);
            } else {
                assert forall|k: int| 0 <= k < res.len() implies bytes_before(
                    #[trigger] res[k],
                    x,
                ) by {
                    assert(bytes_before(all[k], all[j]));
                }
            }
        }
    }
    out
}

/// Known routes with the first `n` further ones, each only where it is new.
pub open spec fn with_new(known: Seq<Seq<u8>>, more: Seq<Seq<u8>>, n: int) -> Seq<Seq<u8>>
    decreases n,
{
    if n <= 0 {
        known
    } else {
        let prior = with_new(known, more, n - 1);
        if prior.contains(more[n - 1]) {
            prior
        } else {
            prior.push(more[n - 1])
        }
    }
}

fn lists_route(routes: &Vec<Vec<u8>>, value: &Vec<u8>) -> (res: bool)
    ensures
        res == routes_of(routes@).contains(value@),
{
    let ghost all = routes_of(routes@);
    let mut i: usize = 0;
    while i < routes.len()
        invariant
            i <= routes@.len(),
            all == routes_of(routes@),
            forall|k: int| 0 <= k < i ==> #[trigger] all[k] != value@,
        decreases routes@.len() - i,
    {
        assert(all[i as int] == routes@[i as int]@);
        if same_bytes(&routes[i], value) {
            return true;
        }
        i = i + 1;
    }
    false
}

/// Add further routes behind the known ones, each only where it is new. What is known keeps
/// its place: routes that the user gave go first.
pub fn merge_routes(known: &Vec<Vec<u8>>, more: &Vec<Vec<u8>>) -> (res: Vec<Vec<u8>>)
    ensures
        routes_of(res@) == with_new(
            routes_of(known@),
            routes_of(more@),
            more@.len() as int,
        ),
{
    let ghost start = routes_of(known@);
    let ghost further = routes_of(more@);
    let mut out = copy_routes(known);
    let mut i: usize = 0;
    while i < more.len()
        invariant
            i <= more@.len(),
            further == routes_of(more@),
            routes_of(out@) == with_new(start, further, i as int),
        decreases more@.len() - i,
    {
        assert(further[i as int] == more@[i as int]@);
        if !lists_route(&out, &more[i]) {
            let ghost prior = out@;
            out.push(copy_bytes(&more[i]));
            assert(routes_of(out@) =~= routes_of(prior).push(further[i as int]));
        }
        i = i + 1;
    }
    out
}

/// Merging routes loses none, and keeps those known first and in place.
pub proof fn law_merging_keeps_routes(known: Seq<Seq<u8>>, more: Seq<Seq<u8>>, n: int)
    requires
        0 <= n <= more.len(),
    ensures
        known.len() <= with_new(known, more, n).len(),
        forall|k: int| 0 <= k < known.len() ==> with_new(known, more, n)[k] == #[trigger] known[k],
        forall|k: int| 0 <= k < n ==> with_new(known, more, n).contains(#[trigger] more[k]),
    decreases n,
{
    if n > 0 {
        law_merging_keeps_routes(known, more, n - 1);
        let prior = with_new(known, more, n - 1);
        let after = with_new(known, more, n);
        assert forall|k: int| 0 <= k < n implies after.contains(#[trigger] more[k]) by {
            if k < n - 1 {
                let j = choose|j: int| 0 <= j < prior.len() && prior[j] == more[k];
                assert(after[j] == more[k]);
            } else if !prior.contains(more[k]) {
                assert(after[prior.len() as int] == more[k]);
            }
        }
    }
}

/// Merging adds nothing that neither list holds, and repeats no route.
pub proof fn law_merging_adds_each_route_once(
    known: Seq<Seq<u8>>,
    more: Seq<Seq<u8>>,
    n: int,
    x: Seq<u8>,
)
    requires
        0 <= n <= more.len(),
    ensures
        with_new(known, more, n).contains(x) <==> known.contains(x) || more.take(n).contains(x),
        known.no_duplicates() ==> with_new(known, more, n).no_duplicates(),
    decreases n,
{
    if n > 0 {
        law_merging_adds_each_route_once(known, more, n - 1, x);
        let prior = with_new(known, more, n - 1);
        let all = with_new(known, more, n);
        assert(more.take(n) =~= more.take(n - 1).push(more[n - 1]));
        assert(more.take(n)[n - 1] == more[n - 1]);
        if prior.contains(x) {
            let k = choose|k: int| 0 <= k < prior.len() && prior[k] == x;
            assert(all[k] == x);
        }
        if more.take(n - 1).contains(x) {
            let k = choose|k: int| 0 <= k < n - 1 && #[trigger] more.take(n - 1)[k] == x;
            assert(more.take(n)[k] == x);
        }
        if x == more[n - 1] && !prior.contains(x) {
            assert(all.last() == x);
        }
        if all.contains(x) && !prior.contains(x) {
            let k = choose|k: int| 0 <= k < all.len() && all[k] == x;
            assert(k == prior.len());
        }
        if more.take(n).contains(x) && !more.take(n - 1).contains(x) {
            let k = choose|k: int| 0 <= k < n && #[trigger] more.take(n)[k] == x;
            if k < n - 1 {
                assert(more.take(n - 1)[k] == x);
            }
        }
    } else {
        assert(more.take(0) =~= Seq::<Seq<u8>>::empty());
    }
}

} // verus!
