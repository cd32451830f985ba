//! Identifiers and byte strings: equality, order and small sets.

use vstd::prelude::*;

verus! {

/// Identity of an account or a device, a token, a digest.
pub type Id = [u8; 32];

/// Identity of a message or another piece of content.
pub type ContentId = [u8; 16];

/// `a` comes before `b`, looking at positions `i` and later: at the first position where
/// they differ `a` has the smaller byte, or `a` ends first.
pub open spec fn before_from(a: Seq<u8>, b: Seq<u8>, i: int) -> bool
    decreases b.len() - i,
{
    if i >= b.len() {
        false
    } else if i >= a.len() {
        true
    } else {
        a[i] < b[i] || (a[i] == b[i] && before_from(a, b, i + 1))
    }
}

/// Lexicographic order of byte strings.
pub open spec fn bytes_before(a: Seq<u8>, b: Seq<u8>) -> bool {
    before_from(a, b, 0)
}

/// No byte string comes before itself.
pub proof fn lemma_before_irreflexive(a: Seq<u8>, i: int)
    requires
        0 <= i,
    ensures
        !before_from(a, a, i),
    decreases a.len() - i,
{
    if i < a.len() {
        lemma_before_irreflexive(a, i + 1);
    }
}

/// Of two different byte strings exactly one comes first.
pub proof fn lemma_before_total(a: Seq<u8>, b: Seq<u8>, i: int)
    requires
        0 <= i <= a.len(),
        i <= b.len(),
        forall|k: int| 0 <= k < i ==> #[trigger] a[k] == b[k],
    ensures
        a != b ==> before_from(a, b, i) != before_from(b, a, i),
        a == b ==> !before_from(a, b, i),
    decreases a.len() + b.len() - 2 * i,
{
    if i < a.len() && i < b.len() {
        if a[i] == b[i] {
            lemma_before_total(a, b, i + 1);
        }
    } else if i == a.len() && i == b.len() {
        assert(a =~= b);
    }
}

/// The order is transitive.
pub proof fn lemma_before_transitive(a: Seq<u8>, b: Seq<u8>, c: Seq<u8>, i: int)
    requires
        0 <= i,
        before_from(a, b, i),
        before_from(b, c, i),
    ensures
        before_from(a, c, i),
    decreases b.len() - i,
{
    if i < a.len() && i < b.len() && i < c.len() && a[i] == b[i] && b[i] == c[i] {
        lemma_before_transitive(a, b, c, i + 1);
    }
}

/// Whether two byte arrays are equal.
pub fn same<const N: usize>(a: &[u8; N], b: &[u8; N]) -> (res: bool)
    ensures
        res == (*a == *b),
{
    let mut i: usize = 0;
    while i < N
        invariant
            i <= N,
            forall|k: int| 0 <= k < i ==> #[trigger] a@[k] == b@[k],
        decreases N - i,
    {
        if a[i] != b[i] {
            assert(a@[i as int] != b@[i as int]);
            return false;
        }
        i = i + 1;
    }
    assert(*a =~= *b);
    true
}

/// Whether two optional byte arrays are equal.
pub fn same_option<const N: usize>(a: &Option<[u8; N]>, b: &Option<[u8; N]>) -> (res: bool)
    ensures
        res == (*a == *b),
{
    match (a, b) {
        (Some(a), Some(b)) => same(a, b),
        (None, None) => true,
        _ => false,
    }
}

/// Whether two byte strings are equal.
pub fn same_bytes(a: &Vec<u8>, b: &Vec<u8>) -> (res: bool)
    ensures
        res == (a@ == b@),
{
    if a.len() != b.len() {
        return false;
    }
    let mut i: usize = 0;
    while i < a.len()
        invariant
            i <= a@.len() == b@.len(),
            forall|k: int| 0 <= k < i ==> #[trigger] a@[k] == b@[k],
        decreases a@.len() - i,
    {
        if a[i] != b[i] {
            assert(a@[i as int] != b@[i as int]);
            return false;
        }
        i = i + 1;
    }
    assert(a@ =~= b@);
    true
}

/// Whether byte string `a` comes before `b`.
pub fn precedes(a: &[u8], b: &[u8]) -> (res: bool)
    ensures
        res == bytes_before(a@, b@),
{
    let mut i: usize = 0;
    while i < a.len() && i < b.len()
        invariant
            i <= a@.len(),
            i <= b@.len(),
            before_from(a@, b@, i as int) == bytes_before(a@, b@),
        decreases a@.len() - i,
    {
        if a[i] != b[i] {
            return a[i] < b[i];
        }
        i = i + 1;
    }
    i < b.len()
}

/// Whether byte array `a` comes before `b`.
pub fn id_precedes<const N: usize>(a: &[u8; N], b: &[u8; N]) -> (res: bool)
    ensures
        res == bytes_before(a@, b@),
{
    precedes(a.as_slice(), b.as_slice())
}

/// A copy of a byte string.
pub fn copy_bytes(a: &Vec<u8>) -> (res: Vec<u8>)
    ensures
        res@ == a@,
{
    let mut res: Vec<u8> = Vec::new();
    let mut i: usize = 0;
    while i < a.len()
        invariant
            i <= a@.len(),
            res@ == a@.take(i as int),
        decreases a@.len() - i,
    {
        res.push(a[i]);
        assert(res@ =~= a@.take(i + 1));
        i = i + 1;
    }
    assert(res@ =~= a@);
    res
}

/// Identities with the same bytes are the same.
pub proof fn lemma_same_id<const N: usize>(a: [u8; N], b: [u8; N])
    ensures
        a@ == b@ <==> a == b,
{
    if a@ == b@ {
        assert forall|i: int| 0 <= i < N implies a[i] == b[i] by {
            assert(a@[i] == b@[i]);
        }
        assert(a =~= b);
    }
}

/// The identity of nothing: all zeros.
pub open spec fn zero_id() -> Id {
    vstd::array::spec_array_fill_for_copy_type::<u8, 32>(0)
}

/// A set of identities of one length.
pub struct KeySet<const N: usize> {
    items: Vec<[u8; N]>,
}

/// A set of accounts or devices.
pub type IdSet = KeySet<32>;

/// A set of content identities.
pub type ContentSet = KeySet<16>;

impl<const N: usize> View for KeySet<N> {
    type V = Set<[u8; N]>;

    closed spec fn view(&self) -> Set<[u8; N]> {
        self.items@.to_set()
    }
}

impl<const N: usize> KeySet<N> {
    /// The empty set.
    pub fn new() -> (res: KeySet<N>)
        ensures
            res@ == Set::<[u8; N]>::empty(),
    {
        let res = KeySet { items: Vec::new() };
        assert(res@ =~= Set::<[u8; N]>::empty());
        res
    }

    /// Whether `id` is in the set.
    pub fn contains(&self, id: &[u8; N]) -> (res: bool)
        ensures
            res == self@.contains(*id),
    {
        let mut i: usize = 0;
        while i < self.items.len()
            invariant
                i <= self.items@.len(),
                forall|k: int| 0 <= k < i ==> #[trigger] self.items@[k] != *id,
            decreases self.items@.len() - i,
        {
            if same(&self.items[i], id) {
                assert(self.items@[i as int] == *id);
                return true;
            }
            i = i + 1;
        }
        false
    }

    /// Add `id`; whether it was not there before.
    pub fn insert(&mut self, id: [u8; N]) -> (res: bool)
        ensures
            final(self)@ == old(self)@.insert(id),
            res == !old(self)@.contains(id),
    {
        if self.contains(&id) {
            assert(self@.insert(id) =~= self@);
            false
        } else {
            let ghost prior = self.items@;
            self.items.push(id);
            proof {
                assert forall|x: [u8; N]| self.items@.to_set().contains(x) == prior.to_set().insert(
                    id,
                ).contains(x) by {
                    if prior.contains(x) {
                        let k = choose|k: int| 0 <= k < prior.len() && prior[k] == x;
                        assert(self.items@[k] == x);
                    }
                    if x == id {
                        assert(self.items@[prior.len() as int] == x);
                    }
                }
                assert(self@ =~= old(self)@.insert(id));
            }
            true
        }
    }

    /// The members, in no particular order.
    pub fn items(&self) -> (res: &Vec<[u8; N]>)
        ensures
            res@.to_set() == self@,
    {
        &self.items
    }

    /// Add everything of another set.
    pub fn join(&mut self, other: &KeySet<N>)
        ensures
            final(self)@ == old(self)@.union(other@),
    {
        let mut i: usize = 0;
        assert(other.items@.take(0).to_set() =~= Set::empty());
        assert(self@.union(other.items@.take(0).to_set()) =~= self@);
        while i < other.items.len()
            invariant
                i <= other.items@.len(),
                self@ == old(self)@.union(other.items@.take(i as int).to_set()),
            decreases other.items@.len() - i,
        {
            let item = other.items[i];
            self.insert(item);
            proof {
                let first = other.items@.take(i as int);
                let more = other.items@.take(i + 1);
                assert(more =~= first.push(item));
                assert forall|x: [u8; N]| more.to_set().contains(x) == first.to_set().insert(
                    item,
                ).contains(x) by {
                    if first.contains(x) {
                        let k = choose|k: int| 0 <= k < first.len() && first[k] == x;
                        assert(more[k] == x);
                    }
                    assert(more[i as int] == item);
                }
                assert(self@ =~= old(self)@.union(more.to_set()));
            }
            i = i + 1;
        }
        assert(other.items@.take(other.items@.len() as int) =~= other.items@);
    }

    /// Take `id` out; whether it was there.
    pub fn remove(&mut self, id: &[u8; N]) -> (res: bool)
        ensures
            final(self)@ == old(self)@.remove(*id),
            res == old(self)@.contains(*id),
    {
        let present = self.contains(id);
        let mut kept: Vec<[u8; N]> = Vec::new();
        let mut i: usize = 0;
        while i < self.items.len()
            invariant
                i <= self.items@.len(),
                forall|x: [u8; N]| #[trigger]
                    kept@.contains(x) <==> x != *id && exists|k: int|
                        0 <= k < i && self.items@[k] == x,
            decreases self.items@.len() - i,
        {
            let item = self.items[i];
            let ghost prior = kept@;
            if !same(&item, id) {
                kept.push(item);
            }
            proof {
                assert forall|x: [u8; N]| #[trigger]
                    kept@.contains(x) <==> x != *id && exists|k: int|
                        0 <= k < i + 1 && self.items@[k] == x by {
                    if prior.contains(x) {
                        let k = choose|k: int| 0 <= k < prior.len() && prior[k] == x;
                        assert(kept@[k] == x);
                    }
                    if x == item && item != *id {
                        assert(kept@[prior.len() as int] == x);
                    }
                }
            }
            i = i + 1;
        }
        self.items = kept;
        assert(self@ =~= old(self)@.remove(*id));
        present
    }
}

} // verus!
