//! How often a recovery file may be tried.

use vstd::prelude::*;

use crate::bytes::{same, Id};
use crate::error::{NodeError, Result};
use crate::wire::{digest, sha256};

verus! {

/// Attempts are counted over this long, in milliseconds.
pub const RECOVERY_ATTEMPT_WINDOW_MILLIS: u64 = 60_000;

/// Most attempts with one file over that time.
pub const MAX_RECOVERY_ATTEMPTS_PER_WINDOW: usize = 5;

/// Most files that attempts are counted for.
pub const MAX_RECOVERY_ATTEMPT_KEYS: usize = 64;

/// Attempts with one file.
pub struct AttemptState {
    key: Id,
    failures: Vec<u64>,
    last_seen: u64,
}

/// The contents of an `AttemptState`.
#[verifier::ext_equal]
pub struct AttemptView {
    /// Digest of the file.
    pub key: Id,
    /// When it was tried.
    pub failures: Seq<u64>,
    /// When it was last tried.
    pub last_seen: u64,
}

impl View for AttemptState {
    type V = AttemptView;

    closed spec fn view(&self) -> AttemptView {
        AttemptView { key: self.key, failures: self.failures@, last_seen: self.last_seen }
    }
}

/// States as their contents.
pub open spec fn attempts_of(states: Seq<AttemptState>) -> Seq<AttemptView> {
    Seq::new(states.len(), |i: int| states[i]@)
}

/// The time is recent enough to count.
pub open spec fn is_recent(at: u64, now: u64) -> bool {
    now - at < RECOVERY_ATTEMPT_WINDOW_MILLIS
}

/// The attempts that still count: those from the first recent one on.
pub open spec fn recent(failures: Seq<u64>, now: u64) -> Seq<u64>
    decreases failures.len(),
{
    if failures.len() == 0 || is_recent(failures[0], now) {
        failures
    } else {
        recent(failures.drop_first(), now)
    }
}

/// Position of a file, counted from `from`.
pub open spec fn key_at(attempts: Seq<AttemptView>, key: Id, from: int) -> int
    decreases attempts.len() - from,
{
    if from >= attempts.len() || attempts[from].key == key {
        from
    } else {
        key_at(attempts, key, from + 1)
    }
}

/// Position of the file that was not tried for longest, among the first `n` (of equals, the
/// first).
pub open spec fn oldest(attempts: Seq<AttemptView>, n: int) -> int
    decreases n,
{
    if n <= 1 {
        0
    } else {
        let prior = oldest(attempts, n - 1);
        if attempts[n - 1].last_seen < attempts[prior].last_seen {
            n - 1
        } else {
            prior
        }
    }
}

/// What is left when another file is tried: files that were not tried for long are
/// forgotten, and if there are too many, so is the one that was not tried for longest.
pub open spec fn with_room(attempts: Seq<AttemptView>, key: Id, now: u64) -> Seq<AttemptView> {
    let kept = attempts.filter(|a: AttemptView| is_recent(a.last_seen, now));
    if key_at(kept, key, 0) >= kept.len() && kept.len() >= MAX_RECOVERY_ATTEMPT_KEYS {
        kept.remove(oldest(kept, kept.len() as int))
    } else {
        kept
    }
}

/// The attempts with a file that still count.
pub open spec fn counted(attempts: Seq<AttemptView>, key: Id, now: u64) -> Seq<u64> {
    let at = key_at(attempts, key, 0);
    if at < attempts.len() {
        recent(attempts[at].failures, now)
    } else {
        Seq::empty()
    }
}

/// The attempts after another one with a file. A refused attempt does not count.
pub open spec fn attempted(attempts: Seq<AttemptView>, key: Id, now: u64) -> Seq<AttemptView> {
    let left = with_room(attempts, key, now);
    let at = key_at(left, key, 0);
    let failures = counted(left, key, now);
    let refused = failures.len() >= MAX_RECOVERY_ATTEMPTS_PER_WINDOW;
    let state = AttemptView {
        key,
        failures: if refused {
            failures
        } else {
            failures.push(now)
        },
        last_seen: if refused {
            left[at].last_seen
        } else {
            now
        },
    };
    if at < left.len() {
        left.update(at, state)
    } else {
        left.push(state)
    }
}

/// The attempts without those with a file.
pub open spec fn forgotten(attempts: Seq<AttemptView>, key: Id) -> Seq<AttemptView> {
    if key_at(attempts, key, 0) < attempts.len() {
        attempts.remove(key_at(attempts, key, 0))
    } else {
        attempts
    }
}

/// Attempts with recovery files.
pub struct RecoveryThrottle {
    attempts: Vec<AttemptState>,
}

impl View for RecoveryThrottle {
    type V = Seq<AttemptView>;

    closed spec fn view(&self) -> Seq<AttemptView> {
        attempts_of(self.attempts@)
    }
}

fn trim(failures: &Vec<u64>, now: u64) -> (res: Vec<u64>)
    ensures
        res@ == recent(failures@, now),
{
    let mut from: usize = 0;
    assert(failures@.skip(0) =~= failures@);
    while from < failures.len() && now >= failures[from] && now - failures[from]
        >= RECOVERY_ATTEMPT_WINDOW_MILLIS
        invariant
            from <= failures@.len(),
            recent(failures@, now) == recent(failures@.skip(from as int), now),
        decreases failures@.len() - from,
    {
        assert(failures@.skip(from as int).drop_first() =~= failures@.skip(from + 1));
        from = from + 1;
    }
    let mut out: Vec<u64> = Vec::new();
    let mut i: usize = from;
    while i < failures.len()
        invariant
            from <= i <= failures@.len(),
            out@ == failures@.subrange(from as int, i as int),
        decreases failures@.len() - i,
    {
        out.push(failures[i]);
        assert(out@ =~= failures@.subrange(from as int, i + 1));
        i = i + 1;
    }
    assert(out@ =~= failures@.skip(from as int));
    out
}

fn copy_times(times: &Vec<u64>) -> (res: Vec<u64>)
    ensures
        res@ == times@,
{
    let mut out: Vec<u64> = Vec::new();
    let mut i: usize = 0;
    while i < times.len()
        invariant
            i <= times@.len(),
            out@ == times@.take(i as int),
        decreases times@.len() - i,
    {
        out.push(times[i]);
        assert(out@ =~= times@.take(i + 1));
        i = i + 1;
    }
    assert(out@ =~= times@);
    out
}

fn find_key(attempts: &Vec<AttemptState>, key: &Id) -> (at: usize)
    ensures
        at == key_at(attempts_of(attempts@), *key, 0),
        at <= attempts@.len(),
{
    let ghost views = attempts_of(attempts@);
    let mut at: usize = 0;
    while at < attempts.len()
        invariant
            at <= attempts@.len(),
            views == attempts_of(attempts@),
            key_at(views, *key, 0) == key_at(views, *key, at as int),
        decreases attempts@.len() - at,
    {
        assert(views[at as int] == attempts@[at as int]@);
        if same(&attempts[at].key, key) {
            return at;
        }
        at = at + 1;
    }
    at
}

impl RecoveryThrottle {
    /// Nothing was tried yet.
    pub fn new() -> (res: RecoveryThrottle)
        ensures
            res@ == Seq::<AttemptView>::empty(),
    {
        let res = RecoveryThrottle { attempts: Vec::new() };
        assert(res@ =~= Seq::<AttemptView>::empty());
        res
    }

    /// Make room for a file.
    fn make_room(&mut self, key: &Id, now: u64)
        ensures
            final(self)@ == with_room(old(self)@, *key, now),
    {
        let ghost before = self@;
        let ghost keep = |a: AttemptView| is_recent(a.last_seen, now);
        let mut kept: Vec<AttemptState> = Vec::new();
        let mut i: usize = 0;
        proof {
            crate::seqs::lemma_filter_none(before, keep);
            assert(attempts_of(kept@) =~= Seq::<AttemptView>::empty());
        }
        while i < self.attempts.len()
            invariant
                i <= self.attempts@.len(),
                before == attempts_of(self.attempts@),
                keep == (|a: AttemptView| is_recent(a.last_seen, now)),
                attempts_of(kept@) == before.take(i as int).filter(keep),
            decreases self.attempts@.len() - i,
        {
            proof {
                crate::seqs::lemma_filter_step(before, keep, i as int);
                assert(before[i as int] == self.attempts@[i as int]@);
            }
            let state = &self.attempts[i];
            if now < state.last_seen || now - state.last_seen < RECOVERY_ATTEMPT_WINDOW_MILLIS {
                let ghost prior = kept@;
                let copied = AttemptState {
                    key: state.key,
                    failures: copy_times(&state.failures),
                    last_seen: state.last_seen,
                };
                assert(copied@ == before[i as int]);
                kept.push(copied);
                assert(attempts_of(kept@) =~= attempts_of(prior).push(before[i as int]));
            }
            i = i + 1;
        }
        proof {
            crate::seqs::lemma_take_all(before);
        }
        let ghost views = attempts_of(kept@);
        if find_key(&kept, key) >= kept.len() && kept.len() >= MAX_RECOVERY_ATTEMPT_KEYS {
            let mut at: usize = 0;
            let mut n: usize = 1;
            while n < kept.len()
                invariant
                    1 <= n <= kept@.len(),
                    at < n,
                    views == attempts_of(kept@),
                    at == oldest(views, n as int),
                decreases kept@.len() - n,
            {
                assert(views[n as int] == kept@[n as int]@);
                assert(views[at as int] == kept@[at as int]@);
                if kept[n].last_seen < kept[at].last_seen {
                    at = n;
                }
                n = n + 1;
            }
            kept.remove(at);
            assert(attempts_of(kept@) =~= views.remove(at as int));
        }
        self.attempts = kept;
    }

    /// Count an attempt with the recovery file of that digest, unless there were too many.
    /// `now` is the time in milliseconds on a clock that does not go back.
    pub fn attempt_key(&mut self, key: Id, now: u64) -> (res: Result<()>)
        ensures
            final(self)@ == attempted(old(self)@, key, now),
            match res {
                Ok(_) => counted(with_room(old(self)@, key, now), key, now).len()
                    < MAX_RECOVERY_ATTEMPTS_PER_WINDOW,
                Err(e) => e == NodeError::RecoveryAttemptLimited && counted(
                    with_room(old(self)@, key, now),
                    key,
                    now,
                ).len() >= MAX_RECOVERY_ATTEMPTS_PER_WINDOW,
            },
    {
        let ghost before = self@;
        self.make_room(&key, now);
        let ghost left = self@;
        let at = find_key(&self.attempts, &key);
        if at < self.attempts.len() {
            assert(left[at as int] == self.attempts@[at as int]@);
            let failures = trim(&self.attempts[at].failures, now);
            let last_seen: u64 = self.attempts[at].last_seen;
            if failures.len() >= MAX_RECOVERY_ATTEMPTS_PER_WINDOW {
                let state = AttemptState { key, failures, last_seen };
                self.attempts.set(at, state);
                assert(self@ =~= left.update(at as int, state@));
                return Err(NodeError::RecoveryAttemptLimited);
            }
            let mut failures = failures;
            failures.push(now);
            let state = AttemptState { key, failures, last_seen: now };
            self.attempts.set(at, state);
            assert(self@ =~= left.update(at as int, state@));
            return Ok(());
        }
        let mut failures: Vec<u64> = Vec::new();
        failures.push(now);
        let state = AttemptState { key, failures, last_seen: now };
        assert(state@.failures =~= Seq::<u64>::empty().push(now));
        self.attempts.push(state);
        assert(self@ =~= left.push(state@));
        Ok(())
    }

    /// The file of that digest was opened: its attempts are forgotten.
    pub fn forget_key(&mut self, key: Id)
        ensures
            final(self)@ == forgotten(old(self)@, key),
    {
        let ghost before = self@;
        let at = find_key(&self.attempts, &key);
        if at < self.attempts.len() {
            self.attempts.remove(at);
            assert(self@ =~= before.remove(at as int));
        }
    }

    /// Count an attempt with a recovery file, unless there were too many. Files are told
    /// apart by their digest, which comes back for `forget_key`.
    pub fn attempt(&mut self, package: &[u8], now: u64) -> (res: (Id, Result<()>))
        ensures
            res.0@ == sha256(package@),
            final(self)@ == attempted(old(self)@, res.0, now),
            match res.1 {
                Ok(_) => counted(with_room(old(self)@, res.0, now), res.0, now).len()
                    < MAX_RECOVERY_ATTEMPTS_PER_WINDOW,
                Err(e) => e == NodeError::RecoveryAttemptLimited && counted(
                    with_room(old(self)@, res.0, now),
                    res.0,
                    now,
                ).len() >= MAX_RECOVERY_ATTEMPTS_PER_WINDOW,
            },
    {
        let key = digest(package);
        let counted_now = self.attempt_key(key, now);
        (key, counted_now)
    }
}

/// With one file there are never more attempts over the counted time than allowed: one more
/// is refused, and refusing does not start the count again.
pub proof fn law_attempts_are_limited(attempts: Seq<AttemptView>, key: Id, now: u64)
    requires
        counted(with_room(attempts, key, now), key, now).len()
            >= MAX_RECOVERY_ATTEMPTS_PER_WINDOW,
    ensures
        ({
            let left = with_room(attempts, key, now);
            let at = key_at(left, key, 0);
            &&& at < left.len()
            &&& attempted(attempts, key, now).len() == left.len()
            &&& attempted(attempts, key, now)[at].failures == counted(left, key, now)
            &&& attempted(attempts, key, now)[at].last_seen == left[at].last_seen
        }),
{
    lemma_key_at(with_room(attempts, key, now), key, 0);
}

proof fn lemma_key_at(attempts: Seq<AttemptView>, key: Id, from: int)
    requires
        0 <= from <= attempts.len(),
    ensures
        ({
            let at = key_at(attempts, key, from);
            &&& from <= at <= attempts.len()
            &&& at < attempts.len() ==> attempts[at].key == key
            &&& forall|k: int| from <= k < at ==> (#[trigger] attempts[k]).key != key
        }),
    decreases attempts.len() - from,
{
    if from < attempts.len() && attempts[from].key != key {
        lemma_key_at(attempts, key, from + 1);
    }
}

/// Attempts are counted for a bounded number of files.
pub proof fn law_files_are_bounded(attempts: Seq<AttemptView>, key: Id, now: u64)
    requires
        attempts.len() <= MAX_RECOVERY_ATTEMPT_KEYS,
    ensures
        attempted(attempts, key, now).len() <= MAX_RECOVERY_ATTEMPT_KEYS,
{
    let keep = |a: AttemptView| is_recent(a.last_seen, now);
    crate::seqs::lemma_filter_kept(attempts, keep);
    let kept = attempts.filter(keep);
    if key_at(kept, key, 0) >= kept.len() && kept.len() >= MAX_RECOVERY_ATTEMPT_KEYS {
        lemma_oldest(kept, kept.len() as int);
    }
    let left = with_room(attempts, key, now);
    lemma_key_at(left, key, 0);
    lemma_key_at(kept, key, 0);
}

proof fn lemma_oldest(attempts: Seq<AttemptView>, n: int)
    requires
        1 <= n <= attempts.len(),
    ensures
        0 <= oldest(attempts, n) < n,
        forall|k: int|
            0 <= k < n ==> attempts[oldest(attempts, n)].last_seen <= (
            #[trigger] attempts[k]).last_seen,
    decreases n,
{
    if n > 1 {
        lemma_oldest(attempts, n - 1);
    }
}

/// Attempts with a file are kept in one place.
pub open spec fn keys_distinct(attempts: Seq<AttemptView>) -> bool {
    forall|i: int, j: int|
        0 <= i < j < attempts.len() ==> (#[trigger] attempts[i]).key != (#[trigger] attempts[j]).key
}

/// Attempts with the file are kept.
pub open spec fn has_key(attempts: Seq<AttemptView>, key: Id) -> bool {
    exists|i: int| 0 <= i < attempts.len() && (#[trigger] attempts[i]).key == key
}

proof fn lemma_filter_distinct(attempts: Seq<AttemptView>, keep: spec_fn(AttemptView) -> bool)
    requires
        keys_distinct(attempts),
    ensures
        keys_distinct(attempts.filter(keep)),
        forall|key: Id| #[trigger] has_key(attempts.filter(keep), key) ==> has_key(attempts, key),
    decreases attempts.len(),
{
    reveal(Seq::filter);
    if attempts.len() > 0 {
        let front = attempts.drop_last();
        lemma_filter_distinct(front, keep);
        let kept = front.filter(keep);
        let all = attempts.filter(keep);
        assert forall|i: int| 0 <= i < kept.len() implies (#[trigger] kept[i]).key
            != attempts.last().key by {
            assert(has_key(kept, kept[i].key));
            let j = choose|j: int| 0 <= j < front.len() && (#[trigger] front[j]).key == kept[i].key;
            assert(attempts[j].key == kept[i].key);
        }
        assert forall|key: Id| #[trigger] has_key(all, key) implies has_key(attempts, key) by {
            let i = choose|i: int| 0 <= i < all.len() && (#[trigger] all[i]).key == key;
            if i < kept.len() {
                assert(kept[i].key == key);
                assert(has_key(kept, key));
                let j = choose|j: int| 0 <= j < front.len() && (#[trigger] front[j]).key == key;
                assert(attempts[j].key == key);
            } else {
                assert(attempts[attempts.len() - 1].key == key);
            }
        }
    }
}

proof fn lemma_room_distinct(attempts: Seq<AttemptView>, key: Id, now: u64)
    requires
        keys_distinct(attempts),
    ensures
        keys_distinct(with_room(attempts, key, now)),
        !has_key(attempts, key) ==> !has_key(with_room(attempts, key, now), key),
{
    let keep = |a: AttemptView| is_recent(a.last_seen, now);
    lemma_filter_distinct(attempts, keep);
    let kept = attempts.filter(keep);
    let left = with_room(attempts, key, now);
    if left != kept {
        let at = oldest(kept, kept.len() as int);
        lemma_oldest(kept, kept.len() as int);
        assert forall|i: int, j: int| 0 <= i < j < left.len() implies (#[trigger] left[i]).key != (
        #[trigger] left[j]).key by {
            let a = if i < at {
                i
            } else {
                i + 1
            };
            let b = if j < at {
                j
            } else {
                j + 1
            };
            assert(left[i] == kept[a] && left[j] == kept[b]);
        }
        if has_key(left, key) {
            let i = choose|i: int| 0 <= i < left.len() && (#[trigger] left[i]).key == key;
            let a = if i < at {
                i
            } else {
                i + 1
            };
            assert(left[i] == kept[a]);
            assert(has_key(kept, key));
        }
    }
}

/// Attempts with one file stay in one place, whatever is tried and forgotten.
pub proof fn law_files_are_counted_in_one_place(attempts: Seq<AttemptView>, key: Id, now: u64)
    requires
        keys_distinct(attempts),
    ensures
        keys_distinct(attempted(attempts, key, now)),
        keys_distinct(forgotten(attempts, key)),
{
    lemma_room_distinct(attempts, key, now);
    let left = with_room(attempts, key, now);
    lemma_key_at(left, key, 0);
    lemma_key_at(attempts, key, 0);
    let at = key_at(attempts, key, 0);
    let rest = forgotten(attempts, key);
    if at < attempts.len() {
        assert forall|i: int, j: int| 0 <= i < j < rest.len() implies (#[trigger] rest[i]).key != (
        #[trigger] rest[j]).key by {
            let a = if i < at {
                i
            } else {
                i + 1
            };
            let b = if j < at {
                j
            } else {
                j + 1
            };
            assert(rest[i] == attempts[a] && rest[j] == attempts[b]);
        }
    }
}

/// Forgetting a file starts its count anew: nothing counts for it any more, so that as many
/// attempts as at first are allowed.
pub proof fn law_forgetting_starts_anew(attempts: Seq<AttemptView>, key: Id, now: u64)
    requires
        keys_distinct(attempts),
    ensures
        !has_key(forgotten(attempts, key), key),
        counted(with_room(forgotten(attempts, key), key, now), key, now).len() == 0,
{
    let rest = forgotten(attempts, key);
    lemma_key_at(attempts, key, 0);
    let at = key_at(attempts, key, 0);
    if has_key(rest, key) {
        let i = choose|i: int| 0 <= i < rest.len() && (#[trigger] rest[i]).key == key;
        if at < attempts.len() {
            let a = if i < at {
                i
            } else {
                i + 1
            };
            assert(rest[i] == attempts[a]);
        }
    }
    law_files_are_counted_in_one_place(attempts, key, now);
    lemma_room_distinct(rest, key, now);
    lemma_key_at(with_room(rest, key, now), key, 0);
}

/// The attempts after the first `n` of several with one file.
pub open spec fn after_attempts(
    attempts: Seq<AttemptView>,
    key: Id,
    times: Seq<u64>,
    n: int,
) -> Seq<AttemptView>
    decreases n,
{
    if n <= 0 {
        attempts
    } else {
        attempted(after_attempts(attempts, key, times, n - 1), key, times[n - 1])
    }
}

/// How many attempts count against the one at `n`.
pub open spec fn against(attempts: Seq<AttemptView>, key: Id, times: Seq<u64>, n: int) -> nat {
    counted(
        with_room(after_attempts(attempts, key, times, n), key, times[n]),
        key,
        times[n],
    ).len()
}

/// Times that come in order and lie in one counted time.
pub open spec fn in_one_window(times: Seq<u64>) -> bool {
    &&& forall|i: int, j: int| 0 <= i <= j < times.len() ==> #[trigger] times[i] <= #[trigger] times[j]
    &&& times.len() > 0 ==> times.last() - times[0] < RECOVERY_ATTEMPT_WINDOW_MILLIS
}

proof fn lemma_kept(attempts: Seq<AttemptView>, keep: spec_fn(AttemptView) -> bool, i: int)
    requires
        keys_distinct(attempts),
        0 <= i < attempts.len(),
        keep(attempts[i]),
    ensures
        ({
            let kept = attempts.filter(keep);
            let at = key_at(kept, attempts[i].key, 0);
            0 <= at < kept.len() && kept[at] == attempts[i]
        }),
{
    let kept = attempts.filter(keep);
    let key = attempts[i].key;
    lemma_filter_distinct(attempts, keep);
    attempts.lemma_filter_contains(keep, i);
    let j = choose|j: int| 0 <= j < kept.len() && kept[j] == attempts[i];
    lemma_key_at(kept, key, 0);
    let at = key_at(kept, key, 0);
    assert(kept[j].key == key);
    assert(at <= j);
    if at < j {
        assert(kept[at].key != kept[j].key);
    }
}

proof fn lemma_after_attempts(attempts: Seq<AttemptView>, key: Id, times: Seq<u64>, n: int)
    requires
        keys_distinct(attempts),
        !has_key(attempts, key),
        in_one_window(times),
        0 <= n < times.len(),
        n <= MAX_RECOVERY_ATTEMPTS_PER_WINDOW,
    ensures
        ({
            let now = after_attempts(attempts, key, times, n);
            let at = key_at(now, key, 0);
            let left = with_room(now, key, times[n]);
            let place = key_at(left, key, 0);
            &&& keys_distinct(now)
            &&& n == 0 ==> !has_key(now, key)
            &&& n > 0 ==> {
                &&& 0 <= at < now.len()
                &&& now[at].failures == times.take(n)
                &&& now[at].last_seen == times[n - 1]
                &&& 0 <= place < left.len()
                &&& left[place] == now[at]
            }
            &&& counted(left, key, times[n]) == times.take(n)
        }),
    decreases n,
{
    let now = after_attempts(attempts, key, times, n);
    let left = with_room(now, key, times[n]);
    if n == 0 {
        lemma_room_distinct(now, key, times[0]);
        lemma_key_at(left, key, 0);
        assert(times.take(0) =~= Seq::<u64>::empty());
    } else {
        lemma_after_attempts(attempts, key, times, n - 1);
        let prior = after_attempts(attempts, key, times, n - 1);
        let room = with_room(prior, key, times[n - 1]);
        law_files_are_counted_in_one_place(prior, key, times[n - 1]);
        lemma_key_at(room, key, 0);
        let place = key_at(room, key, 0);
        assert(now[place].key == key);
        assert(times.take(n) =~= times.take(n - 1).push(times[n - 1]));
        lemma_key_at(now, key, 0);
        let at = key_at(now, key, 0);
        assert(at <= place);
        if at < place {
            assert(now[at].key != now[place].key);
        }
        let keep = |a: AttemptView| is_recent(a.last_seen, times[n]);
        assert(times[n] - times[n - 1] <= times.last() - times[0]) by {
            assert(times[0] <= times[n - 1]);
            assert(times[n] <= times[times.len() - 1]);
        }
        assert(keep(now[at]));
        lemma_kept(now, keep, at);
        assert(times[n] <= times[times.len() - 1]);
        assert(is_recent(times.take(n)[0], times[n]));
    }
}

/// With one file, as many attempts as are allowed over the counted time go through, and the
/// next one is refused.
pub proof fn law_one_more_attempt_is_refused(
    attempts: Seq<AttemptView>,
    key: Id,
    times: Seq<u64>,
)
    requires
        keys_distinct(attempts),
        !has_key(attempts, key),
        in_one_window(times),
        times.len() == MAX_RECOVERY_ATTEMPTS_PER_WINDOW + 1,
    ensures
        forall|n: int|
            0 <= n < MAX_RECOVERY_ATTEMPTS_PER_WINDOW ==> #[trigger] against(
                attempts,
                key,
                times,
                n,
            ) < MAX_RECOVERY_ATTEMPTS_PER_WINDOW,
        against(attempts, key, times, MAX_RECOVERY_ATTEMPTS_PER_WINDOW as int)
            >= MAX_RECOVERY_ATTEMPTS_PER_WINDOW,
{
    assert forall|n: int| 0 <= n < MAX_RECOVERY_ATTEMPTS_PER_WINDOW implies #[trigger] against(
        attempts,
        key,
        times,
        n,
    ) < MAX_RECOVERY_ATTEMPTS_PER_WINDOW by {
        lemma_after_attempts(attempts, key, times, n);
    }
    lemma_after_attempts(attempts, key, times, MAX_RECOVERY_ATTEMPTS_PER_WINDOW as int);
}

// ---- Laws of the window ----

/// An attempt counts for one minute.
pub proof fn law_attempts_count_for_a_minute(at: u64, now: u64)
    ensures
        is_recent(at, now) <==> now < at + 60_000,
{
}

/// Of attempts in the order they were made, those of the last minute count and no others.
pub proof fn law_recent_attempts_count(failures: Seq<u64>, now: u64)
    requires
        forall|i: int, j: int|
            0 <= i <= j < failures.len() ==> #[trigger] failures[i] <= #[trigger] failures[j],
    ensures
        recent(failures, now) == failures.filter(|at: u64| now < at + 60_000),
    decreases failures.len(),
{
    let keep = |at: u64| now < at + 60_000;
    if failures.len() == 0 {
        reveal(Seq::filter);
    } else if is_recent(failures[0], now) {
        assert forall|i: int| 0 <= i < failures.len() implies keep(#[trigger] failures[i]) by {
            assert(failures[0] <= failures[i]);
        }
        lemma_all_kept(failures, keep);
    } else {
        law_recent_attempts_count(failures.drop_first(), now);
        lemma_first_dropped(failures, keep);
    }
}

proof fn lemma_all_kept(s: Seq<u64>, keep: spec_fn(u64) -> bool)
    requires
        forall|i: int| 0 <= i < s.len() ==> keep(#[trigger] s[i]),
    ensures
        s.filter(keep) == s,
    decreases s.len(),
{
    reveal(Seq::filter);
    if s.len() > 0 {
        lemma_all_kept(s.drop_last(), keep);
        assert(s.drop_last().push(s.last()) =~= s);
    }
}

proof fn lemma_first_dropped(s: Seq<u64>, keep: spec_fn(u64) -> bool)
    requires
        s.len() > 0,
        !keep(s[0]),
    ensures
        s.filter(keep) == s.drop_first().filter(keep),
    decreases s.len(),
{
    reveal(Seq::filter);
    if s.len() > 1 {
        lemma_first_dropped(s.drop_last(), keep);
        assert(s.drop_first().drop_last() =~= s.drop_last().drop_first());
    } else {
        assert(s.drop_first() =~= Seq::<u64>::empty());
        assert(s.drop_last() =~= Seq::<u64>::empty());
    }
}

/// The first attempt on a file is made, and is remembered with its time.
pub proof fn law_first_attempts_are_remembered(attempts: Seq<AttemptView>, key: Id, now: u64)
    requires
        keys_distinct(attempts),
        !has_key(attempts, key),
    ensures
        counted(with_room(attempts, key, now), key, now).len() == 0,
        ({
            let after = attempted(attempts, key, now);
            &&& after.len() > 0
            &&& after.last().key == key
            &&& after.last().failures == seq![now]
            &&& after.last().last_seen == now
        }),
{
    let kept = attempts.filter(|a: AttemptView| is_recent(a.last_seen, now));
    crate::seqs::lemma_filter_kept(attempts, |a: AttemptView| is_recent(a.last_seen, now));
    assert forall|i: int| 0 <= i < kept.len() implies (#[trigger] kept[i]).key != key by {
        assert(attempts.contains(kept[i]));
    }
    lemma_key_missing(kept, key, 0);
    let left = with_room(attempts, key, now);
    lemma_oldest_within(kept, kept.len() as int);
    assert forall|i: int| 0 <= i < left.len() implies (#[trigger] left[i]).key != key by {
        if left.len() < kept.len() {
            let gone = oldest(kept, kept.len() as int);
            if i < gone {
                assert(left[i] == kept[i]);
            } else {
                assert(left[i] == kept[i + 1]);
            }
        }
    }
    lemma_key_missing(left, key, 0);
    assert(Seq::<u64>::empty().push(now) =~= seq![now]);
}

proof fn lemma_key_missing(attempts: Seq<AttemptView>, key: Id, from: int)
    requires
        0 <= from <= attempts.len(),
        forall|i: int| from <= i < attempts.len() ==> (#[trigger] attempts[i]).key != key,
    ensures
        key_at(attempts, key, from) == attempts.len(),
    decreases attempts.len() - from,
{
    if from < attempts.len() {
        lemma_key_missing(attempts, key, from + 1);
    }
}

proof fn lemma_oldest_within(attempts: Seq<AttemptView>, n: int)
    requires
        0 < n <= attempts.len() || n == 0,
    ensures
        0 <= oldest(attempts, n),
        n > 0 ==> oldest(attempts, n) < n,
        forall|i: int|
            0 <= i < n ==> attempts[oldest(attempts, n)].last_seen <= (
            #[trigger] attempts[i]).last_seen,
    decreases n,
{
    if n > 1 {
        lemma_oldest_within(attempts, n - 1);
    }
}

/// Only when sixty-four files are remembered is one forgotten for a new one, and then the one
/// that was tried longest ago.
pub proof fn law_the_oldest_file_makes_room(attempts: Seq<AttemptView>, n: int, i: int)
    requires
        0 <= i < n <= attempts.len(),
    ensures
        0 <= oldest(attempts, n) < n,
        attempts[oldest(attempts, n)].last_seen <= attempts[i].last_seen,
{
    lemma_oldest_within(attempts, n);
}

/// Files that were tried within the last minute stay remembered while there is room.
pub proof fn law_recent_files_stay(attempts: Seq<AttemptView>, key: Id, now: u64, i: int)
    requires
        0 <= i < attempts.len(),
        attempts.len() < 64,
        now < attempts[i].last_seen + 60_000,
    ensures
        with_room(attempts, key, now).contains(attempts[i]),
{
    let keep = |a: AttemptView| is_recent(a.last_seen, now);
    crate::seqs::lemma_filter_kept(attempts, keep);
    assert(attempts.contains(attempts[i]));
}

/// An attempt that is made is added to those that count, and touches no other file.
pub proof fn law_attempts_are_added(attempts: Seq<AttemptView>, key: Id, now: u64, i: int)
    requires
        counted(with_room(attempts, key, now), key, now).len() < 5,
    ensures
        ({
            let left = with_room(attempts, key, now);
            let at = key_at(left, key, 0);
            let after = attempted(attempts, key, now);
            &&& at < after.len()
            &&& after[at].key == key
            &&& after[at].failures == counted(left, key, now).push(now)
            &&& after[at].last_seen == now
            &&& 0 <= i < left.len() && i != at ==> after[i] == left[i]
            &&& after.len() == if at < left.len() {
                left.len()
            } else {
                left.len() + 1
            }
        }),
{
    lemma_key_range(with_room(attempts, key, now), key, 0);
}

proof fn lemma_key_range(attempts: Seq<AttemptView>, key: Id, from: int)
    requires
        0 <= from <= attempts.len(),
    ensures
        from <= key_at(attempts, key, from) <= attempts.len(),
    decreases attempts.len() - from,
{
    if from < attempts.len() && attempts[from].key != key {
        lemma_key_range(attempts, key, from + 1);
    }
}

} // verus!
