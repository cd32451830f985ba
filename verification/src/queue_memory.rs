//! What the node remembers of queued envelopes while it runs.

use vstd::prelude::*;

use crate::records::QueueDelete;

verus! {

/// What is remembered of queued envelopes, by their position in the queue.
pub struct QueueMemory {
    held: Vec<i64>,
    calls: Vec<(i64, u64)>,
}

/// The contents of the memory.
#[verifier::ext_equal]
pub struct QueueMemoryView {
    /// Envelopes of which it was told that they wait for a faster link.
    pub held: Set<i64>,
    /// Until when the envelopes of calls are worth sending.
    pub calls: Map<i64, u64>,
}

/// The deadline of an envelope among the first `n`.
pub open spec fn deadline_in(calls: Seq<(i64, u64)>, n: int, sequence: i64) -> Option<u64>
    decreases n,
{
    if n <= 0 {
        None
    } else if calls[n - 1].0 == sequence {
        Some(calls[n - 1].1)
    } else {
        deadline_in(calls, n - 1, sequence)
    }
}

/// Deadlines by position. Of several for one position the last counts.
pub open spec fn deadlines(calls: Seq<(i64, u64)>) -> Map<i64, u64> {
    Map::new(
        |sequence: i64| deadline_in(calls, calls.len() as int, sequence) is Some,
        |sequence: i64| deadline_in(calls, calls.len() as int, sequence)->0,
    )
}

impl View for QueueMemory {
    type V = QueueMemoryView;

    closed spec fn view(&self) -> QueueMemoryView {
        QueueMemoryView { held: self.held@.to_set(), calls: deadlines(self.calls@) }
    }
}

/// An envelope at that position is taken out.
pub open spec fn is_taken_out(deletes: Seq<QueueDelete>, sequence: i64) -> bool {
    exists|k: int| 0 <= k < deletes.len() && (#[trigger] deletes[k]).sequence == sequence
}

impl QueueMemoryView {
    /// The memory once some envelopes were taken out of the queue.
    pub open spec fn without(self, deletes: Seq<QueueDelete>) -> QueueMemoryView {
        QueueMemoryView {
            held: self.held.filter(|sequence: i64| !is_taken_out(deletes, sequence)),
            calls: self.calls.remove_keys(
                Set::new(|sequence: i64| is_taken_out(deletes, sequence)),
            ),
        }
    }
}

proof fn lemma_same_prefix(a: Seq<(i64, u64)>, b: Seq<(i64, u64)>, n: int, sequence: i64)
    requires
        0 <= n <= a.len(),
        n <= b.len(),
        forall|k: int| 0 <= k < n ==> #[trigger] a[k] == b[k],
    ensures
        deadline_in(a, n, sequence) == deadline_in(b, n, sequence),
    decreases n,
{
    if n > 0 {
        assert(a[n - 1] == b[n - 1]);
        lemma_same_prefix(a, b, n - 1, sequence);
    }
}

fn takes_out(deletes: &Vec<QueueDelete>, sequence: i64) -> (res: bool)
    ensures
        res == is_taken_out(deletes@, sequence),
{
    let mut i: usize = 0;
    while i < deletes.len()
        invariant
            i <= deletes@.len(),
            forall|k: int| 0 <= k < i ==> (#[trigger] deletes@[k]).sequence != sequence,
        decreases deletes@.len() - i,
    {
        if deletes[i].sequence == sequence {
            assert(deletes@[i as int].sequence == sequence);
            return true;
        }
        i = i + 1;
    }
    false
}

impl QueueMemory {
    /// Nothing is remembered.
    pub fn new() -> (res: QueueMemory)
        ensures
            res@ == (QueueMemoryView { held: Set::empty(), calls: Map::empty() }),
    {
        let res = QueueMemory { held: Vec::new(), calls: Vec::new() };
        assert(res@.held =~= Set::empty());
        assert(res@.calls =~= Map::empty());
        res
    }

    /// Whether it was told of an envelope that it waits for a faster link.
    pub fn is_held(&self, sequence: i64) -> (res: bool)
        ensures
            res == self@.held.contains(sequence),
    {
        let mut i: usize = 0;
        while i < self.held.len()
            invariant
                i <= self.held@.len(),
                forall|k: int| 0 <= k < i ==> #[trigger] self.held@[k] != sequence,
            decreases self.held@.len() - i,
        {
            if self.held[i] == sequence {
                assert(self.held@[i as int] == sequence);
                return true;
            }
            i = i + 1;
        }
        false
    }

    /// It was told of an envelope that it waits for a faster link.
    pub fn note_held(&mut self, sequence: i64)
        ensures
            final(self)@ == (QueueMemoryView {
                held: old(self)@.held.insert(sequence),
                ..old(self)@
            }),
    {
        let ghost before = self.held@;
        self.held.push(sequence);
        proof {
            assert forall|x: i64| self.held@.to_set().contains(x) == before.to_set().insert(
                sequence,
            ).contains(x) by {
                if before.contains(x) {
                    let k = choose|k: int| 0 <= k < before.len() && before[k] == x;
                    assert(self.held@[k] == x);
                }
                assert(self.held@[before.len() as int] == sequence);
            }
            assert(self@.held =~= old(self)@.held.insert(sequence));
        }
    }

    /// Until when the envelope of a call is worth sending.
    pub fn call_deadline(&self, sequence: i64) -> (res: Option<u64>)
        ensures
            res == if self@.calls.contains_key(sequence) {
                Some(self@.calls[sequence])
            } else {
                None
            },
    {
        let mut i: usize = self.calls.len();
        while i > 0
            invariant
                i <= self.calls@.len(),
                deadline_in(self.calls@, self.calls@.len() as int, sequence) == deadline_in(
                    self.calls@,
                    i as int,
                    sequence,
                ),
            decreases i,
        {
            if self.calls[i - 1].0 == sequence {
                return Some(self.calls[i - 1].1);
            }
            i = i - 1;
        }
        None
    }

    /// The envelope of a call was queued, with a deadline.
    pub fn expect_by(&mut self, sequence: i64, deadline: u64)
        ensures
            final(self)@ == (QueueMemoryView {
                calls: old(self)@.calls.insert(sequence, deadline),
                ..old(self)@
            }),
    {
        let ghost before = self.calls@;
        self.calls.push((sequence, deadline));
        proof {
            let n = before.len() as int;
            assert forall|x: i64| deadline_in(self.calls@, n + 1, x) == if x == sequence {
                Some(deadline)
            } else {
                deadline_in(before, n, x)
            } by {
                lemma_same_prefix(self.calls@, before, n, x);
            }
            assert(self@.calls =~= old(self)@.calls.insert(sequence, deadline));
        }
    }

    /// Envelopes were taken out of the queue: nothing is remembered of them any more. A position
    /// that is given out again starts afresh.
    pub fn forget(&mut self, deletes: &Vec<QueueDelete>)
        ensures
            final(self)@ == old(self)@.without(deletes@),
    {
        let ghost start = self@;
        let mut held: Vec<i64> = Vec::new();
        let mut i: usize = 0;
        while i < self.held.len()
            invariant
                i <= self.held@.len(),
                self@ == start,
                forall|x: i64| #[trigger]
                    held@.contains(x) <==> !is_taken_out(deletes@, x) && self.held@.take(
                        i as int,
                    ).contains(x),
            decreases self.held@.len() - i,
        {
            let ghost prior = held@;
            let sequence: i64 = self.held[i];
            let gone = takes_out(deletes, sequence);
            if !gone {
                held.push(sequence);
            }
            proof {
                let some = self.held@.take(i as int);
                let more = self.held@.take(i + 1);
                assert(more =~= some.push(sequence));
                assert forall|x: i64| #[trigger] held@.contains(x) <==> !is_taken_out(deletes@, x)
                    && more.contains(x) by {
                    if some.contains(x) {
                        let k = choose|k: int| 0 <= k < some.len() && some[k] == x;
                        assert(more[k] == x);
                    }
                    if more.contains(x) && !some.contains(x) {
                        let k = choose|k: int| 0 <= k < more.len() && more[k] == x;
                        if k < some.len() {
                            assert(some[k] == x);
                        }
                        assert(x == sequence);
                    }
                    assert(more[i as int] == sequence);
                    if prior.contains(x) {
                        let k = choose|k: int| 0 <= k < prior.len() && prior[k] == x;
                        assert(held@[k] == x);
                    }
                    if held@.contains(x) && !prior.contains(x) {
                        let k = choose|k: int| 0 <= k < held@.len() && held@[k] == x;
                        if k < prior.len() {
                            assert(prior[k] == x);
                        }
                    }
                    if !gone && x == sequence {
                        assert(held@[held@.len() - 1] == x);
                    }
                }
            }
            i = i + 1;
        }
        let mut calls: Vec<(i64, u64)> = Vec::new();
        let mut j: usize = 0;
        while j < self.calls.len()
            invariant
                j <= self.calls@.len(),
                self@ == start,
                forall|x: i64| #[trigger]
                    deadline_in(calls@, calls@.len() as int, x) == if is_taken_out(deletes@, x) {
                        None
                    } else {
                        deadline_in(self.calls@, j as int, x)
                    },
            decreases self.calls@.len() - j,
        {
            let ghost prior = calls@;
            let call = self.calls[j];
            let gone = takes_out(deletes, call.0);
            if !gone {
                calls.push(call);
            }
            proof {
                let n = prior.len() as int;
                assert forall|x: i64| #[trigger]
                    deadline_in(calls@, calls@.len() as int, x) == if is_taken_out(deletes@, x) {
                        None
                    } else {
                        deadline_in(self.calls@, j + 1, x)
                    } by {
                    assert(deadline_in(prior, n, x) == if is_taken_out(deletes@, x) {
                        None
                    } else {
                        deadline_in(self.calls@, j as int, x)
                    });
                    if !gone {
                        lemma_same_prefix(calls@, prior, n, x);
                    }
                }
            }
            j = j + 1;
        }
        self.held = held;
        self.calls = calls;
        proof {
            let want = start.without(deletes@);
            assert(old(self).held@.take(i as int) =~= old(self).held@);
            assert forall|x: i64| #[trigger] self@.held.contains(x) == want.held.contains(x) by {
                assert(held@.contains(x) <==> !is_taken_out(deletes@, x) && old(
                    self,
                ).held@.contains(x));
            }
            assert(self@.held =~= want.held);
            assert forall|x: i64| #[trigger] self@.calls.contains_key(x)
                == want.calls.contains_key(x) by {
                assert(deadline_in(calls@, calls@.len() as int, x) == if is_taken_out(deletes@, x) {
                    None
                } else {
                    deadline_in(old(self).calls@, j as int, x)
                });
            }
            assert forall|x: i64| #[trigger] want.calls.contains_key(x) implies self@.calls[x]
                == want.calls[x] by {
                assert(deadline_in(calls@, calls@.len() as int, x) == if is_taken_out(deletes@, x) {
                    None
                } else {
                    deadline_in(old(self).calls@, j as int, x)
                });
            }
            assert(self@.calls =~= want.calls);
        }
    }
}

// ---- Laws ----

/// Envelopes that are taken out are forgotten; of every other one everything is kept.
pub proof fn law_taken_out_envelopes_are_forgotten(
    memory: QueueMemoryView,
    deletes: Seq<QueueDelete>,
    sequence: i64,
    k: int,
)
    ensures
        0 <= k < deletes.len() ==> !memory.without(deletes).held.contains(deletes[k].sequence)
            && !memory.without(deletes).calls.contains_key(deletes[k].sequence),
        (forall|j: int| 0 <= j < deletes.len() ==> (#[trigger] deletes[j]).sequence != sequence)
            ==> {
            &&& memory.without(deletes).held.contains(sequence) == memory.held.contains(sequence)
            &&& memory.without(deletes).calls.contains_key(sequence)
                == memory.calls.contains_key(sequence)
            &&& memory.calls.contains_key(sequence) ==> memory.without(deletes).calls[sequence]
                == memory.calls[sequence]
        },
{
    if 0 <= k < deletes.len() {
        assert(is_taken_out(deletes, deletes[k].sequence));
    }
}

/// The deadline that was noted last counts.
pub proof fn law_last_deadline_counts(calls: Seq<(i64, u64)>, sequence: i64, deadline: u64)
    ensures
        deadlines(calls.push((sequence, deadline)))[sequence] == deadline,
        deadlines(calls.push((sequence, deadline))).contains_key(sequence),
        deadlines(Seq::empty()).dom() == Set::<i64>::empty(),
{
    let all = calls.push((sequence, deadline));
    assert(deadline_in(all, all.len() as int, sequence) == Some(deadline));
    assert(deadlines(Seq::empty()).dom() =~= Set::<i64>::empty());
}

} // verus!
