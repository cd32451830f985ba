//! Facts about sequences.

use vstd::prelude::*;

verus! {

/// Filtering one element more.
pub proof fn lemma_filter_step<A>(s: Seq<A>, keep: spec_fn(A) -> bool, i: int)
    requires
        0 <= i < s.len(),
    ensures
        s.take(i + 1).filter(keep) == if keep(s[i]) {
            s.take(i).filter(keep).push(s[i])
        } else {
            s.take(i).filter(keep)
        },
        s.take(s.len() as int) == s,
{
    assert(s.take(i + 1) =~= s.take(i).push(s[i]));
    s.take(i).lemma_filter_push(s[i], keep);
    assert(s.take(s.len() as int) =~= s);
}

/// Filtering nothing.
pub proof fn lemma_filter_none<A>(s: Seq<A>, keep: spec_fn(A) -> bool)
    ensures
        s.take(0).filter(keep) == Seq::<A>::empty(),
{
    assert(s.take(0) =~= Seq::<A>::empty());
    reveal(Seq::filter);
}

/// The whole is all of its prefix.
pub proof fn lemma_take_all<A>(s: Seq<A>)
    ensures
        s.take(s.len() as int) == s,
{
    assert(s.take(s.len() as int) =~= s);
}

/// What is kept meets the condition and was there before.
pub proof fn lemma_filter_kept<A>(s: Seq<A>, keep: spec_fn(A) -> bool)
    ensures
        s.filter(keep).len() <= s.len(),
        forall|k: int| 0 <= k < s.filter(keep).len() ==> keep(#[trigger] s.filter(keep)[k]),
        forall|k: int|
            0 <= k < s.filter(keep).len() ==> s.contains(#[trigger] s.filter(keep)[k]),
        forall|x: A| #[trigger] s.contains(x) && keep(x) ==> s.filter(keep).contains(x),
    decreases s.len(),
{
    reveal(Seq::filter);
    if s.len() > 0 {
        let front = s.drop_last();
        lemma_filter_kept(front, keep);
        let kept = s.filter(keep);
        let prior = front.filter(keep);
        assert forall|k: int| 0 <= k < kept.len() implies s.contains(#[trigger] kept[k]) by {
            if k < prior.len() {
                assert(kept[k] == prior[k]);
                let j = choose|j: int| 0 <= j < front.len() && front[j] == prior[k];
                assert(s[j] == kept[k]);
            } else {
                assert(s[s.len() - 1] == kept[k]);
            }
        }
        assert forall|k: int| 0 <= k < kept.len() implies keep(#[trigger] kept[k]) by {
            if k < prior.len() {
                assert(kept[k] == prior[k]);
            }
        }
        assert forall|x: A| #[trigger] s.contains(x) && keep(x) implies kept.contains(x) by {
            let j = choose|j: int| 0 <= j < s.len() && s[j] == x;
            if j < front.len() {
                assert(front[j] == x);
                assert(front.contains(x));
                let k = choose|k: int| 0 <= k < prior.len() && prior[k] == x;
                assert(kept[k] == x);
            } else {
                assert(kept[kept.len() - 1] == x);
            }
        }
    }
}

/// The first `limit` elements, or all.
pub open spec fn at_most<A>(s: Seq<A>, limit: nat) -> Seq<A> {
    if s.len() <= limit {
        s
    } else {
        s.take(limit as int)
    }
}

/// The first `limit` identities, or all.
pub fn first_of<const N: usize>(ids: &Vec<[u8; N]>, limit: usize) -> (res: Vec<[u8; N]>)
    ensures
        res@ == at_most(ids@, limit as nat),
{
    let mut out: Vec<[u8; N]> = Vec::new();
    let mut i: usize = 0;
    while i < ids.len() && i < limit
        invariant
            i <= ids@.len(),
            i <= limit,
            out@ == ids@.take(i as int),
        decreases ids@.len() - i,
    {
        out.push(ids[i]);
        assert(out@ =~= ids@.take(i + 1));
        i = i + 1;
    }
    assert(out@ =~= at_most(ids@, limit as nat));
    out
}

} // verus!
