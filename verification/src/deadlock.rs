//! Per-process deadlock detection for mutexes and semaphores.
//!
//! Mutex requests are checked against the wait-for chain: a thread that asks
//! for a held mutex would deadlock when the chain of "waits for a mutex held
//! by" links starting at the holder leads back to the asking thread.
//! Semaphore requests are checked with the banker's algorithm: a request that
//! would have to wait is refused when, with the request counted as a need, no
//! order exists in which every thread can finish. The two kinds of resources
//! are checked separately; mixing them is outside the model.
//!
//! Thread ids are the plain numbers of the task manager's thread ids.

use vstd::prelude::*;
use std::collections::BTreeMap;
use vstd::std_specs::iter::IteratorSpec;

verus! {

broadcast use vstd::std_specs::btree::group_btree_axioms;

/// The bookkeeping of a [`DeadlockState`], as its contracts see it.
pub struct DeadlockView {
    pub enabled: bool,
    /// `mutex_owners[m]` is the thread holding mutex `m`, if any.
    pub mutex_owners: Seq<Option<usize>>,
    /// The mutex each blocked thread waits for.
    pub mutex_waiting: Map<usize, usize>,
    /// Units of each semaphore that nobody holds.
    pub sem_available: Seq<usize>,
    /// Units of each semaphore that each thread holds.
    pub sem_allocation: Map<usize, Seq<usize>>,
    /// Units of each semaphore that each thread waits for.
    pub sem_need: Map<usize, Seq<usize>>,
}

/// `s` resized to length `n` the way `Vec::resize` does: cut, or padded with `fill`.
pub open spec fn resized<T>(s: Seq<T>, n: nat, fill: T) -> Seq<T> {
    if n <= s.len() {
        s.subrange(0, n as int)
    } else {
        s + Seq::new((n - s.len()) as nat, |i: int| fill)
    }
}

/// `s` padded with `fill` up to length `n` when it is shorter.
pub open spec fn grown<T>(s: Seq<T>, n: nat, fill: T) -> Seq<T> {
    if s.len() < n {
        resized(s, n, fill)
    } else {
        s
    }
}

/// `table` with the counter of thread `t` for semaphore `r` set to `value`.
pub open spec fn set_counter(table: Map<usize, Seq<usize>>, t: usize, r: int, value: int) -> Map<
    usize,
    Seq<usize>,
> {
    table.insert(t, table[t].update(r, value as usize))
}

/// `value - 1`, or zero.
pub open spec fn dec_sat(value: usize) -> usize {
    if value > 0 {
        (value - 1) as usize
    } else {
        0
    }
}

/// Units of semaphore `r` held by the threads of `s` together.
pub open spec fn held_by(alloc: Map<usize, Seq<usize>>, s: Seq<usize>, r: int) -> int
    decreases s.len(),
{
    if s.len() == 0 {
        0
    } else {
        held_by(alloc, s.drop_last(), r) + alloc[s.last()][r]
    }
}

/// The counters of a table of vectors.
pub open spec fn counters_view(m: Map<usize, Vec<usize>>) -> Map<usize, Seq<usize>> {
    m.map_values(|v: Vec<usize>| v@)
}

/// The holder of mutex `m`; none for a mutex that was never registered.
pub open spec fn owner_of(owners: Seq<Option<usize>>, m: int) -> Option<usize> {
    if 0 <= m < owners.len() {
        owners[m]
    } else {
        None
    }
}

impl DeadlockView {
    /// The semaphore tables agree: the same threads in both tables, and one
    /// counter per registered semaphore for every thread.
    pub open spec fn sem_wf(self) -> bool {
        &&& self.sem_allocation.dom() == self.sem_need.dom()
        &&& self.sem_need.dom().finite()
        &&& forall|t: usize| #[trigger]
            self.sem_allocation.contains_key(t) ==> self.sem_allocation[t].len()
                == self.sem_available.len()
        &&& forall|t: usize| #[trigger]
            self.sem_need.contains_key(t) ==> self.sem_need[t].len() == self.sem_available.len()
    }

    /// The thread that `t` waits for: the holder of the mutex `t` is blocked on.
    pub open spec fn waits_for(self, t: usize) -> Option<usize> {
        if self.mutex_waiting.contains_key(t) {
            owner_of(self.mutex_owners, self.mutex_waiting[t] as int)
        } else {
            None
        }
    }

    /// The thread reached from `start` after following `k` wait-for links.
    pub open spec fn chain(self, start: usize, k: nat) -> Option<usize>
        decreases k,
    {
        if k == 0 {
            Some(start)
        } else {
            match self.chain(start, (k - 1) as nat) {
                Some(t) => self.waits_for(t),
                None => None,
            }
        }
    }

    /// Following wait-for links from `start` leads to `target`.
    pub open spec fn reaches(self, start: usize, target: usize) -> bool {
        exists|k: nat| self.chain(start, k) == Some(target)
    }

    /// With detection on, thread `tid` asking for mutex `m` would deadlock:
    /// `m` is held and the wait-for chain from its holder leads back to `tid`.
    pub open spec fn mutex_request_deadlocks(self, tid: usize, m: usize) -> bool {
        &&& self.enabled
        &&& match owner_of(self.mutex_owners, m as int) {
            Some(o) => self.reaches(o, tid),
            None => false,
        }
    }

    /// Thread `order[i]` can obtain everything it still needs once the threads
    /// before it in `order` have finished and returned what they hold.
    pub open spec fn can_finish_after(self, order: Seq<usize>, i: int) -> bool {
        forall|r: int|
            0 <= r < self.sem_available.len() ==> #[trigger] self.sem_need[order[i]][r]
                <= self.sem_available[r] + held_by(self.sem_allocation, order.take(i), r)
    }

    /// `order` lists every thread once, and each can finish after the ones before it.
    pub open spec fn is_safe_order(self, order: Seq<usize>) -> bool {
        &&& order.no_duplicates()
        &&& order.to_set() == self.sem_need.dom()
        &&& forall|i: int| 0 <= i < order.len() ==> #[trigger] self.can_finish_after(order, i)
    }

    /// The banker's safety condition: some order lets every thread finish.
    pub open spec fn sem_safe(self) -> bool {
        exists|order: Seq<usize>| #[trigger] self.is_safe_order(order)
    }

    /// The counters of thread `tid` in `table`, padded to one per semaphore
    /// (empty counters for a thread not yet known).
    pub open spec fn counters_of(self, table: Map<usize, Seq<usize>>, tid: usize) -> Seq<usize> {
        grown(
            if table.contains_key(tid) {
                table[tid]
            } else {
                Seq::empty()
            },
            self.sem_available.len(),
            0,
        )
    }

    /// Thread `tid` is known to the semaphore tables, with a counter per semaphore.
    pub open spec fn with_thread(self, tid: usize) -> DeadlockView {
        DeadlockView {
            sem_allocation: self.sem_allocation.insert(tid, self.counters_of(self.sem_allocation, tid)),
            sem_need: self.sem_need.insert(tid, self.counters_of(self.sem_need, tid)),
            ..self
        }
    }

    /// Semaphore `id` is known with `count` free units; registering a new
    /// semaphore gives every table a counter for it.
    pub open spec fn with_semaphore(self, id: usize, count: usize) -> DeadlockView {
        let n = (id + 1) as nat;
        let v = if self.sem_available.len() <= id {
            DeadlockView {
                sem_available: resized(self.sem_available, n, 0),
                sem_allocation: self.sem_allocation.map_values(|c: Seq<usize>| resized(c, n, 0)),
                sem_need: self.sem_need.map_values(|c: Seq<usize>| resized(c, n, 0)),
                ..self
            }
        } else {
            self
        };
        DeadlockView { sem_available: v.sem_available.update(id as int, count), ..v }
    }

    /// Thread `tid` is known and one more unit of semaphore `id` counts as its need.
    pub open spec fn with_extra_need(self, tid: usize, id: usize) -> DeadlockView {
        let v = self.with_thread(tid);
        DeadlockView {
            sem_need: set_counter(v.sem_need, tid, id as int, v.sem_need[tid][id as int] + 1),
            ..v
        }
    }

    /// Semaphore `id` granted at once to thread `tid`: a free unit (if any is
    /// left) becomes one that `tid` holds, and one unit less counts as its need.
    pub open spec fn after_down_granted(self, tid: usize, id: usize) -> DeadlockView {
        let w = self.with_thread(tid);
        let r = id as int;
        DeadlockView {
            sem_available: if w.sem_available[r] > 0 {
                w.sem_available.update(r, (w.sem_available[r] - 1) as usize)
            } else {
                w.sem_available
            },
            sem_allocation: set_counter(w.sem_allocation, tid, r, w.sem_allocation[tid][r] + 1),
            sem_need: set_counter(w.sem_need, tid, r, dec_sat(w.sem_need[tid][r]) as int),
            ..w
        }
    }

    /// Thread `tid` waits for a unit of semaphore `id`.
    pub open spec fn after_sem_blocked(self, tid: usize, id: usize) -> DeadlockView {
        self.with_extra_need(tid, id)
    }

    /// Thread `holder` gave back a unit of semaphore `id`: the unit goes to the
    /// woken thread, whose need drops by one, or back to the free units.
    pub open spec fn after_sem_up(self, holder: usize, id: usize, waking: Option<usize>) -> DeadlockView {
        let r = id as int;
        let w = self.with_thread(holder);
        let w1 = DeadlockView {
            sem_allocation: set_counter(
                w.sem_allocation,
                holder,
                r,
                dec_sat(w.sem_allocation[holder][r]) as int,
            ),
            ..w
        };
        match waking {
            Some(t) => {
                let w2 = w1.with_thread(t);
                DeadlockView {
                    sem_need: set_counter(w2.sem_need, t, r, dec_sat(w2.sem_need[t][r]) as int),
                    sem_allocation: set_counter(w2.sem_allocation, t, r, w2.sem_allocation[t][r] + 1),
                    ..w2
                }
            },
            None => DeadlockView {
                sem_available: w1.sem_available.update(r, (w1.sem_available[r] + 1) as usize),
                ..w1
            },
        }
    }

    /// Thread `tid` blocked on mutex `m`.
    pub open spec fn after_block(self, tid: usize, m: usize) -> DeadlockView {
        DeadlockView { mutex_waiting: self.mutex_waiting.insert(tid, m), ..self.with_mutex(m) }
    }

    /// Mutex `m` is known, the owner table growing to hold it.
    pub open spec fn with_mutex(self, m: usize) -> DeadlockView {
        DeadlockView { mutex_owners: grown(self.mutex_owners, (m + 1) as nat, None), ..self }
    }
}

/// Deadlock detection state of one process.
pub struct DeadlockState {
    /// Whether detection is on for the process.
    pub enabled: bool,
    mutex_owners: Vec<Option<usize>>,
    mutex_waiting: BTreeMap<usize, usize>,
    sem_available: Vec<usize>,
    sem_allocation: BTreeMap<usize, Vec<usize>>,
    sem_need: BTreeMap<usize, Vec<usize>>,
}

impl View for DeadlockState {
    type V = DeadlockView;

    closed spec fn view(&self) -> DeadlockView {
        DeadlockView {
            enabled: self.enabled,
            mutex_owners: self.mutex_owners@,
            mutex_waiting: self.mutex_waiting@,
            sem_available: self.sem_available@,
            sem_allocation: counters_view(self.sem_allocation@),
            sem_need: counters_view(self.sem_need@),
        }
    }
}

// ---- facts about the wait-for chain ----

/// Once the chain stops, it stays stopped.
proof fn lemma_chain_stops(v: DeadlockView, start: usize, k: nat, j: nat)
    requires
        v.chain(start, k) is None,
        k <= j,
    ensures
        v.chain(start, j) is None,
    decreases j - k,
{
    if k < j {
        lemma_chain_stops(v, start, k, (j - 1) as nat);
    }
}

/// A thread that waits for itself keeps the chain there forever.
proof fn lemma_chain_fixed(v: DeadlockView, start: usize, k: nat, c: usize, j: nat)
    requires
        v.chain(start, k) == Some(c),
        v.waits_for(c) == Some(c),
        k <= j,
    ensures
        v.chain(start, j) == Some(c),
    decreases j - k,
{
    if k < j {
        lemma_chain_fixed(v, start, k, c, (j - 1) as nat);
    }
}

/// Before a live position, every position is live and is a waiting thread.
proof fn lemma_chain_prefix_waiting(v: DeadlockView, start: usize, k: nat, i: nat)
    requires
        v.chain(start, k) is Some,
        i < k,
    ensures
        v.chain(start, i) is Some,
        v.mutex_waiting.contains_key(v.chain(start, i)->Some_0),
    decreases k - i,
{
    if i + 1 < k {
        lemma_chain_prefix_waiting(v, start, k, i + 1);
    }
}

/// Two positions holding the same thread continue alike.
proof fn lemma_chain_shift(v: DeadlockView, start: usize, i: nat, j: nat, d: nat)
    requires
        v.chain(start, i) == v.chain(start, j),
    ensures
        v.chain(start, i + d) == v.chain(start, j + d),
    decreases d,
{
    if d > 0 {
        lemma_chain_shift(v, start, i, j, (d - 1) as nat);
        assert(v.chain(start, i + d) == v.chain(start, (i + d) as nat));
    }
}

/// A thread reachable from `start` is reachable within as many links as
/// there are waiting threads: a longer chain repeats a thread.
proof fn lemma_reach_within_waiting(v: DeadlockView, start: usize, target: usize, k: nat)
    requires
        v.chain(start, k) == Some(target),
        v.mutex_waiting.dom().finite(),
    ensures
        exists|j: nat| j <= v.mutex_waiting.len() && #[trigger] v.chain(start, j) == Some(target),
    decreases k,
{
    if k <= v.mutex_waiting.len() {
        return;
    }
    let s = Seq::new(k, |i: int| v.chain(start, i as nat)->Some_0);
    assert forall|i: int| 0 <= i < k implies v.mutex_waiting.contains_key(#[trigger] s[i]) by {
        lemma_chain_prefix_waiting(v, start, k, i as nat);
    }
    if s.no_duplicates() {
        s.unique_seq_to_set();
        assert(s.to_set().subset_of(v.mutex_waiting.dom()));
        vstd::set_lib::lemma_len_subset(s.to_set(), v.mutex_waiting.dom());
        assert(false);
    } else {
        let (i, j) = choose|i: int, j: int| 0 <= i < s.len() && 0 <= j < s.len() && i != j && s[i] == s[j];
        let (lo, hi) = if i < j { (i, j) } else { (j, i) };
        lemma_chain_prefix_waiting(v, start, k, lo as nat);
        lemma_chain_prefix_waiting(v, start, k, hi as nat);
        assert(v.chain(start, lo as nat) == v.chain(start, hi as nat));
        let d = (k - hi) as nat;
        lemma_chain_shift(v, start, lo as nat, hi as nat, d);
        lemma_reach_within_waiting(v, start, target, (lo + d) as nat);
    }
}

/// Registering a mutex keeps every holder where it was.
proof fn lemma_with_mutex_owner(v: DeadlockView, m: usize, i: int)
    requires
        m < usize::MAX,
    ensures
        owner_of(v.with_mutex(m).mutex_owners, i) == owner_of(v.mutex_owners, i),
{
    let s = v.mutex_owners;
    let n = (m + 1) as nat;
    if s.len() < n {
        assert(resized(s, n, None).len() == n);
        if 0 <= i < s.len() {
            assert(resized(s, n, None)[i] == s[i]);
        } else if s.len() <= i < n {
            assert(resized(s, n, None)[i] == None::<usize>);
        }
    }
}

/// Up to the first visit of `tid`, the chains before and after `tid` blocks agree.
proof fn lemma_block_chain_agrees(v: DeadlockView, tid: usize, m: usize, o: usize, j: nat)
    requires
        m < usize::MAX,
        forall|i: nat| i < j ==> #[trigger] v.after_block(tid, m).chain(o, i) != Some(tid),
    ensures
        v.after_block(tid, m).chain(o, j) == v.chain(o, j),
    decreases j,
{
    let w = v.after_block(tid, m);
    if j > 0 {
        let p = (j - 1) as nat;
        lemma_block_chain_agrees(v, tid, m, o, p);
        match v.chain(o, p) {
            Some(t) => {
                assert(w.chain(o, p) != Some(tid));
                if v.mutex_waiting.contains_key(t) {
                    lemma_with_mutex_owner(v, m, v.mutex_waiting[t] as int);
                }
            },
            None => {},
        }
    }
}

/// A visit of `tid` after blocking was already a visit before it.
proof fn lemma_block_visit_was_reachable(v: DeadlockView, tid: usize, m: usize, o: usize, j: nat)
    requires
        m < usize::MAX,
        v.after_block(tid, m).chain(o, j) == Some(tid),
    ensures
        v.reaches(o, tid),
    decreases j,
{
    let w = v.after_block(tid, m);
    if exists|i: nat| i < j && #[trigger] w.chain(o, i) == Some(tid) {
        let i = choose|i: nat| i < j && #[trigger] w.chain(o, i) == Some(tid);
        lemma_block_visit_was_reachable(v, tid, m, o, i);
    } else {
        lemma_block_chain_agrees(v, tid, m, o, j);
        assert(v.chain(o, j) == Some(tid));
    }
}

/// After blocking, the chain from `tid` continues as the chain from the holder of `m`.
proof fn lemma_block_chain_starts_at_holder(v: DeadlockView, tid: usize, m: usize, o: usize, k: nat)
    requires
        m < usize::MAX,
        owner_of(v.mutex_owners, m as int) == Some(o),
    ensures
        v.after_block(tid, m).chain(tid, k + 1) == v.after_block(tid, m).chain(o, k),
    decreases k,
{
    let w = v.after_block(tid, m);
    lemma_with_mutex_owner(v, m, m as int);
    assert(w.chain(tid, 0) == Some(tid));
    assert(w.mutex_waiting.contains_key(tid) && w.mutex_waiting[tid] == m);
    assert(w.waits_for(tid) == Some(o));
    assert(w.chain(o, 0) == Some(o));
    if k > 0 {
        lemma_block_chain_starts_at_holder(v, tid, m, o, (k - 1) as nat);
    }
}

/// Blocking only after a negative check cannot close a wait-for cycle: with
/// detection on, when `mutex_should_deadlock(tid, m)` is false, then after
/// `tid` blocks on `m` no chain of waits leads from `tid` back to `tid`.
pub proof fn lemma_checked_block_keeps_waits_acyclic(v: DeadlockView, tid: usize, m: usize)
    requires
        v.enabled,
        !v.mutex_request_deadlocks(tid, m),
        m < usize::MAX,
    ensures
        forall|k: nat| k >= 1 ==> #[trigger] v.after_block(tid, m).chain(tid, k) != Some(tid),
{
    let w = v.after_block(tid, m);
    assert forall|k: nat| k >= 1 implies #[trigger] w.chain(tid, k) != Some(tid) by {
        match owner_of(v.mutex_owners, m as int) {
            Some(o) => {
                lemma_block_chain_starts_at_holder(v, tid, m, o, (k - 1) as nat);
                if w.chain(o, (k - 1) as nat) == Some(tid) {
                    lemma_block_visit_was_reachable(v, tid, m, o, (k - 1) as nat);
                }
            },
            None => {
                lemma_with_mutex_owner(v, m, m as int);
                assert(w.chain(tid, 0) == Some(tid));
                assert(w.mutex_waiting.contains_key(tid) && w.mutex_waiting[tid] == m);
                assert(w.chain(tid, 1) is None);
                lemma_chain_stops(w, tid, 1, k);
            },
        }
    }
}

// ---- counter tables ----

/// The threads of a counter table, each once.
fn table_threads(table: &BTreeMap<usize, Vec<usize>>) -> (ks: Vec<usize>)
    ensures
        ks@.no_duplicates(),
        ks@.to_set() == table@.dom(),
        ks@.len() == table@.dom().len(),
{
    let mut ks: Vec<usize> = Vec::new();
    let keys = table.keys();
    for k in it: keys
        invariant
            it.seq() == table.keys().remaining(),
            ks@ == it.seq().take(it.index() as int).unref(),
    {
        assert(*k == *it.seq()[it.index()]);
        ks.push(*k);
    }
    assert(ks@ == table.keys().remaining().unref());
    ks
}

/// Counter `r` of thread `t`.
fn read_counter(table: &BTreeMap<usize, Vec<usize>>, t: usize, r: usize) -> (c: usize)
    requires
        table@.contains_key(t),
        r < table@[t]@.len(),
    ensures
        c == counters_view(table@)[t][r as int],
{
    let v = table.get(&t).unwrap();
    v[r]
}

/// Sets counter `r` of thread `t` to `value`.
fn write_counter(table: &mut BTreeMap<usize, Vec<usize>>, t: usize, r: usize, value: usize)
    requires
        old(table)@.contains_key(t),
        r < old(table)@[t]@.len(),
    ensures
        counters_view(final(table)@) == set_counter(counters_view(old(table)@), t, r as int, value as int),
        final(table)@.dom() == old(table)@.dom(),
{
    let mut v = table.remove(&t).unwrap();
    v.set(r, value);
    table.insert(t, v);
    assert(counters_view(table@) =~= set_counter(counters_view(old(table)@), t, r as int, value as int));
    assert(table@.dom() =~= old(table)@.dom());
}

/// Makes sure thread `t` has at least `n` counters (a new thread gets `n` zeros).
fn ensure_counters(table: &mut BTreeMap<usize, Vec<usize>>, t: usize, n: usize)
    ensures
        counters_view(final(table)@) == counters_view(old(table)@).insert(
            t,
            grown(
                if old(table)@.contains_key(t) {
                    old(table)@[t]@
                } else {
                    Seq::empty()
                },
                n as nat,
                0,
            ),
        ),
        final(table)@.dom() == old(table)@.dom().insert(t),
{
    let mut v = match table.remove(&t) {
        Some(v) => v,
        None => Vec::new(),
    };
    let ghost before = v@;
    if v.len() < n {
        v.resize(n, 0);
        assert(v@ =~= resized(before, n as nat, 0usize));
    }
    table.insert(t, v);
    assert(counters_view(table@) =~= counters_view(old(table)@).insert(
        t,
        grown(
            if old(table)@.contains_key(t) {
                old(table)@[t]@
            } else {
                Seq::empty()
            },
            n as nat,
            0,
        ),
    ));
    assert(table@.dom() =~= old(table)@.dom().insert(t));
}

/// Resizes the counters of every thread to `n`.
fn resize_counters(table: &mut BTreeMap<usize, Vec<usize>>, n: usize)
    ensures
        counters_view(final(table)@) == counters_view(old(table)@).map_values(
            |c: Seq<usize>| resized(c, n as nat, 0),
        ),
        final(table)@.dom() == old(table)@.dom(),
{
    let ks = table_threads(table);
    let ghost old_view = counters_view(table@);
    let mut i: usize = 0;
    while i < ks.len()
        invariant
            0 <= i <= ks@.len(),
            ks@.no_duplicates(),
            ks@.to_set() == old(table)@.dom(),
            old_view == counters_view(old(table)@),
            table@.dom() == old(table)@.dom(),
            forall|t: usize| #[trigger]
                table@.contains_key(t) ==> counters_view(table@)[t] == if ks@.take(i as int).contains(t) {
                    resized(old_view[t], n as nat, 0)
                } else {
                    old_view[t]
                },
        decreases ks@.len() - i,
    {
        let t = ks[i];
        assert(ks@.to_set().contains(t));
        let mut v = table.remove(&t).unwrap();
        let ghost before = v@;
        v.resize(n, 0);
        assert(v@ =~= resized(before, n as nat, 0usize));
        table.insert(t, v);
        proof {
            assert(table@.dom() =~= old(table)@.dom());
            assert forall|u: usize| #[trigger] table@.contains_key(u) implies counters_view(table@)[u]
                == if ks@.take(i + 1).contains(u) {
                resized(old_view[u], n as nat, 0)
            } else {
                old_view[u]
            } by {
                assert(ks@.take(i + 1) =~= ks@.take(i as int).push(t));
                if u != t {
                    assert(ks@.take(i + 1).contains(u) == ks@.take(i as int).contains(u));
                } else {
                    assert(!ks@.take(i as int).contains(t)) by {
                        if ks@.take(i as int).contains(t) {
                            let j = choose|j: int| 0 <= j < i && ks@.take(i as int)[j] == t;
                            assert(ks@[j] == ks@[i as int]);
                        }
                    }
                    assert(ks@.take(i + 1)[i as int] == t);
                }
            }
        }
        i = i + 1;
    }
    proof {
        assert(ks@.take(ks@.len() as int) =~= ks@);
        assert(counters_view(table@) =~= counters_view(old(table)@).map_values(
            |c: Seq<usize>| resized(c, n as nat, 0),
        )) by {
            assert forall|t: usize| #[trigger] table@.contains_key(t) implies ks@.contains(t) by {
                assert(ks@.to_set().contains(t));
            }
        }
    }
}

/// Making a thread known keeps the semaphore tables in agreement.
proof fn lemma_with_thread_wf(v: DeadlockView, tid: usize)
    requires
        v.sem_wf(),
    ensures
        v.with_thread(tid).sem_wf(),
        v.with_thread(tid).sem_available == v.sem_available,
        v.with_thread(tid).sem_need.contains_key(tid),
        v.with_thread(tid).sem_allocation.contains_key(tid),
{
    let w = v.with_thread(tid);
    assert(w.sem_allocation.dom() =~= w.sem_need.dom());
    assert(w.sem_allocation[tid].len() == v.sem_available.len());
    assert(w.sem_need[tid].len() == v.sem_available.len());
}

/// Setting one counter keeps the semaphore tables in agreement.
proof fn lemma_set_counter_len(table: Map<usize, Seq<usize>>, t: usize, r: int, value: int)
    requires
        table.contains_key(t),
        0 <= r < table[t].len(),
    ensures
        set_counter(table, t, r, value).dom() == table.dom(),
        forall|u: usize| #[trigger]
            set_counter(table, t, r, value).contains_key(u) ==> set_counter(table, t, r, value)[u].len()
                == table[u].len(),
{
    assert(set_counter(table, t, r, value).dom() =~= table.dom());
}

/// Setting a counter to the value it has changes nothing.
proof fn lemma_set_counter_same(table: Map<usize, Seq<usize>>, t: usize, r: int)
    requires
        table.contains_key(t),
        0 <= r < table[t].len(),
    ensures
        set_counter(table, t, r, table[t][r] as int) == table,
{
    assert(table[t].update(r, table[t][r]) =~= table[t]);
    assert(set_counter(table, t, r, table[t][r] as int) =~= table);
}

// ---- facts about held units, for the banker's algorithm ----

/// Held units are never negative.
proof fn lemma_held_by_nonneg(alloc: Map<usize, Seq<usize>>, s: Seq<usize>, r: int)
    ensures
        0 <= held_by(alloc, s, r),
    decreases s.len(),
{
    if s.len() > 0 {
        lemma_held_by_nonneg(alloc, s.drop_last(), r);
    }
}

/// Held units of `s` fit in `s.len()` counters.
proof fn lemma_held_by_bound(alloc: Map<usize, Seq<usize>>, s: Seq<usize>, r: int)
    ensures
        held_by(alloc, s, r) <= s.len() * usize::MAX,
    decreases s.len(),
{
    if s.len() > 0 {
        lemma_held_by_bound(alloc, s.drop_last(), r);
        let n = s.len() as int;
        assert((n - 1) * usize::MAX + usize::MAX == n * usize::MAX) by (nonlinear_arith);
    }
}

/// Adding a thread adds what it holds.
proof fn lemma_held_by_push(alloc: Map<usize, Seq<usize>>, s: Seq<usize>, t: usize, r: int)
    ensures
        held_by(alloc, s.push(t), r) == held_by(alloc, s, r) + alloc[t][r],
{
    assert(s.push(t).drop_last() =~= s);
}

/// Taking a thread out of a sequence takes out what it holds.
proof fn lemma_held_by_remove(alloc: Map<usize, Seq<usize>>, s: Seq<usize>, k: int, r: int)
    requires
        0 <= k < s.len(),
    ensures
        held_by(alloc, s, r) == held_by(alloc, s.remove(k), r) + alloc[s[k]][r],
    decreases s.len(),
{
    if k == s.len() - 1 {
        assert(s.remove(k) =~= s.drop_last());
    } else {
        let d = s.drop_last();
        lemma_held_by_remove(alloc, d, k, r);
        assert(s.remove(k).drop_last() =~= d.remove(k));
        assert(s.remove(k).last() == s.last());
    }
}

/// Threads that all appear in `s2` hold together at most what `s2` holds.
proof fn lemma_held_by_subset(alloc: Map<usize, Seq<usize>>, s1: Seq<usize>, s2: Seq<usize>, r: int)
    requires
        s1.no_duplicates(),
        s2.no_duplicates(),
        forall|x: usize| s1.contains(x) ==> s2.contains(x),
    ensures
        held_by(alloc, s1, r) <= held_by(alloc, s2, r),
    decreases s1.len(),
{
    if s1.len() == 0 {
        lemma_held_by_nonneg(alloc, s2, r);
    } else {
        let x = s1.last();
        let s1p = s1.drop_last();
        assert(s1.contains(x));
        let k = choose|k: int| 0 <= k < s2.len() && s2[k] == x;
        let s2p = s2.remove(k);
        s2.remove_ensures(k);
        lemma_held_by_remove(alloc, s2, k, r);
        assert forall|i: int, j: int| 0 <= i < s2p.len() && 0 <= j < s2p.len() && i != j implies s2p[i]
            != s2p[j] by {
            let i2 = if i < k { i } else { i + 1 };
            let j2 = if j < k { j } else { j + 1 };
            assert(s2p[i] == s2[i2] && s2p[j] == s2[j2]);
        }
        assert forall|y: usize| s1p.contains(y) implies s2p.contains(y) by {
            let i = choose|i: int| 0 <= i < s1p.len() && s1p[i] == y;
            assert(s1[i] == y);
            assert(y != x);
            assert(s1.contains(y));
            let j = choose|j: int| 0 <= j < s2.len() && s2[j] == y;
            if j < k {
                assert(s2p[j] == y);
            } else {
                assert(j != k);
                assert(s2p[j - 1] == y);
            }
        }
        lemma_held_by_subset(alloc, s1p, s2p, r);
    }
}

/// The first position of `s` whose thread is not in `inside`.
proof fn lemma_first_outside(s: Seq<usize>, inside: Seq<usize>, k: int) -> (i: int)
    requires
        0 <= k < s.len(),
        !inside.contains(s[k]),
    ensures
        0 <= i <= k,
        !inside.contains(s[i]),
        forall|j: int| 0 <= j < i ==> inside.contains(#[trigger] s[j]),
    decreases k,
{
    if exists|j: int| 0 <= j < k && !inside.contains(#[trigger] s[j]) {
        let j = choose|j: int| 0 <= j < k && !inside.contains(#[trigger] s[j]);
        lemma_first_outside(s, inside, j)
    } else {
        k
    }
}

/// When the greedy search is stuck, no safe order exists: the first thread
/// of any order that the search did not finish could have finished with
/// what the search had collected.
proof fn lemma_stuck_is_unsafe(v: DeadlockView, order: Seq<usize>, work: Seq<u128>, t: usize)
    requires
        v.sem_wf(),
        work.len() == v.sem_available.len(),
        forall|r: int| 0 <= r < work.len() ==> #[trigger] work[r] == v.sem_available[r] + held_by(
            v.sem_allocation,
            order,
            r,
        ),
        order.no_duplicates(),
        v.sem_need.contains_key(t),
        !order.contains(t),
        forall|u: usize|
            v.sem_need.contains_key(u) && !order.contains(u) ==> exists|r: int|
                0 <= r < work.len() && #[trigger] v.sem_need[u][r] > work[r],
    ensures
        !v.sem_safe(),
{
    if v.sem_safe() {
        let s = choose|s: Seq<usize>| #[trigger] v.is_safe_order(s);
        assert(s.to_set().contains(t));
        let k = choose|k: int| 0 <= k < s.len() && s[k] == t;
        let i = lemma_first_outside(s, order, k);
        let u = s[i];
        assert(s.to_set().contains(u));
        let pre = s.take(i);
        assert forall|x: usize| pre.contains(x) implies order.contains(x) by {
            let j = choose|j: int| 0 <= j < pre.len() && pre[j] == x;
            assert(s[j] == x);
        }
        assert forall|a: int, b: int| 0 <= a < pre.len() && 0 <= b < pre.len() && a != b implies pre[a]
            != pre[b] by {
            assert(pre[a] == s[a] && pre[b] == s[b]);
        }
        assert(v.can_finish_after(s, i));
        let r = choose|r: int| 0 <= r < work.len() && #[trigger] v.sem_need[u][r] > work[r];
        lemma_held_by_subset(v.sem_allocation, pre, order, r);
        assert(v.sem_need[s[i]][r] <= v.sem_available[r] + held_by(v.sem_allocation, s.take(i), r));
        assert(false);
    }
}

/// Making a known thread known again changes nothing.
proof fn lemma_with_thread_idempotent(v: DeadlockView, tid: usize)
    requires
        v.sem_wf(),
    ensures
        v.with_thread(tid).with_thread(tid) == v.with_thread(tid),
{
    lemma_with_thread_wf(v, tid);
    let w = v.with_thread(tid);
    assert(w.sem_allocation.insert(tid, w.counters_of(w.sem_allocation, tid)) =~= w.sem_allocation);
    assert(w.sem_need.insert(tid, w.counters_of(w.sem_need, tid)) =~= w.sem_need);
}

/// A semaphore wait that the check lets through keeps the system safe: with
/// detection on and no unit free, when `semaphore_should_deadlock(tid, id)`
/// answers false, the state after `tid` then blocks on `id` still has an
/// order in which every thread can finish.
pub proof fn lemma_checked_sem_block_stays_safe(v: DeadlockView, tid: usize, id: usize)
    requires
        v.sem_wf(),
        v.enabled,
        v.sem_available[id as int] == 0,
        !(v.sem_available[id as int] == 0 && !v.with_extra_need(tid, id).sem_safe()),
    ensures
        v.with_thread(tid).after_sem_blocked(tid, id).sem_safe(),
{
    lemma_with_thread_idempotent(v, tid);
}

/// What the mutex check is for, case by case: with detection off, or for a
/// mutex that nobody holds, no request is a deadlock; a thread asking for a
/// mutex it already holds deadlocks; a holder that waits for nothing lets
/// any other thread wait safely; and when the holder waits for a mutex that
/// the asking thread holds, the two would wait for each other.
pub proof fn lemma_mutex_detection(v: DeadlockView, tid: usize, m: usize)
    ensures
        !v.enabled ==> !v.mutex_request_deadlocks(tid, m),
        m >= v.mutex_owners.len() || v.mutex_owners[m as int] is None ==> !v.mutex_request_deadlocks(
            tid,
            m,
        ),
        v.enabled && m < v.mutex_owners.len() && v.mutex_owners[m as int] == Some(tid)
            ==> v.mutex_request_deadlocks(tid, m),
        forall|o: usize|
            #![trigger v.mutex_waiting.contains_key(o)]
            v.enabled && m < v.mutex_owners.len() && v.mutex_owners[m as int] == Some(o) && o != tid
                && !v.mutex_waiting.contains_key(o) ==> !v.mutex_request_deadlocks(tid, m),
        forall|o: usize|
            #![trigger v.mutex_waiting[o]]
            v.enabled && m < v.mutex_owners.len() && v.mutex_owners[m as int] == Some(o)
                && v.mutex_waiting.contains_key(o) && v.mutex_waiting[o] < v.mutex_owners.len()
                && v.mutex_owners[v.mutex_waiting[o] as int] == Some(tid) ==> v.mutex_request_deadlocks(
                tid,
                m,
            ),
{
    if v.enabled && m < v.mutex_owners.len() && v.mutex_owners[m as int] == Some(tid) {
        assert(v.chain(tid, 0) == Some(tid));
    }
    assert forall|o: usize|
        #![trigger v.mutex_waiting.contains_key(o)]
        v.enabled && m < v.mutex_owners.len() && v.mutex_owners[m as int] == Some(o) && o != tid
            && !v.mutex_waiting.contains_key(o) implies !v.mutex_request_deadlocks(tid, m) by {
        assert forall|k: nat| v.chain(o, k) != Some(tid) by {
            assert(v.chain(o, 0) == Some(o));
            if k >= 1 {
                assert(v.chain(o, 1) is None);
                lemma_chain_stops(v, o, 1, k);
            }
        }
    }
    assert forall|o: usize|
        #![trigger v.mutex_waiting[o]]
        v.enabled && m < v.mutex_owners.len() && v.mutex_owners[m as int] == Some(o)
            && v.mutex_waiting.contains_key(o) && v.mutex_waiting[o] < v.mutex_owners.len()
            && v.mutex_owners[v.mutex_waiting[o] as int] == Some(tid) implies v.mutex_request_deadlocks(
        tid,
        m,
    ) by {
        assert(v.chain(o, 0) == Some(o));
        assert(v.chain(o, 1) == Some(tid));
    }
}

/// More free units or smaller needs never make a safe state unsafe: when
/// `d2` has the holdings and threads of `d1`, at least as many free units of
/// every semaphore, and no need above the need in `d1`, every order in which
/// all threads of `d1` can finish works for `d2` as well.
pub proof fn lemma_safe_monotone(d1: DeadlockView, d2: DeadlockView)
    requires
        d2.sem_allocation == d1.sem_allocation,
        d2.sem_need.dom() == d1.sem_need.dom(),
        d2.sem_available.len() == d1.sem_available.len(),
        forall|r: int| 0 <= r < d1.sem_available.len() ==> d1.sem_available[r] <= #[trigger] d2.sem_available[r],
        forall|t: usize, r: int|
            #![trigger d2.sem_need[t][r]]
            d1.sem_need.contains_key(t) && 0 <= r < d1.sem_available.len() ==> d2.sem_need[t][r]
                <= d1.sem_need[t][r],
        d1.sem_safe(),
    ensures
        d2.sem_safe(),
{
    let order = choose|order: Seq<usize>| #[trigger] d1.is_safe_order(order);
    assert forall|i: int| 0 <= i < order.len() implies #[trigger] d2.can_finish_after(order, i) by {
        assert(d1.can_finish_after(order, i));
        assert(order.to_set().contains(order[i]));
        assert forall|r: int| 0 <= r < d2.sem_available.len() implies #[trigger] d2.sem_need[order[i]][r]
            <= d2.sem_available[r] + held_by(d2.sem_allocation, order.take(i), r) by {
            assert(d1.sem_need[order[i]][r] <= d1.sem_available[r] + held_by(d1.sem_allocation, order.take(i), r));
        }
    }
    assert(d2.is_safe_order(order));
}

impl Default for DeadlockState {
    /// Detection off, no resources, no threads.
    fn default() -> (r: Self)
        ensures
            r@ == (DeadlockView {
                enabled: false,
                mutex_owners: Seq::empty(),
                mutex_waiting: Map::empty(),
                sem_available: Seq::empty(),
                sem_allocation: Map::empty(),
                sem_need: Map::empty(),
            }),
            r@.sem_wf(),
    {
        let r = DeadlockState {
            enabled: false,
            mutex_owners: Vec::new(),
            mutex_waiting: BTreeMap::new(),
            sem_available: Vec::new(),
            sem_allocation: BTreeMap::new(),
            sem_need: BTreeMap::new(),
        };
        assert(counters_view(r.sem_allocation@) =~= Map::empty());
        assert(counters_view(r.sem_need@) =~= Map::empty());
        r
    }
}

impl DeadlockState {
    /// Makes thread `tid` known to the semaphore tables, with a counter for
    /// every registered semaphore.
    fn ensure_sem_thread(&mut self, tid: usize)
        requires
            old(self)@.sem_wf(),
        ensures
            final(self)@ == old(self)@.with_thread(tid),
            final(self)@.sem_wf(),
    {
        let n = self.sem_available.len();
        ensure_counters(&mut self.sem_allocation, tid, n);
        ensure_counters(&mut self.sem_need, tid, n);
        proof {
            lemma_with_thread_wf(old(self)@, tid);
        }
    }

    /// Registers semaphore `sem_id` with `count` free units.
    pub fn register_semaphore(&mut self, sem_id: usize, count: usize)
        requires
            old(self)@.sem_wf(),
            old(self)@.sem_available.len() <= sem_id ==> sem_id < usize::MAX,
        ensures
            final(self)@ == old(self)@.with_semaphore(sem_id, count),
            final(self)@.sem_wf(),
    {
        if self.sem_available.len() <= sem_id {
            let ghost before = self.sem_available@;
            self.sem_available.resize(sem_id + 1, 0);
            assert(self.sem_available@ =~= resized(before, (sem_id + 1) as nat, 0usize));
            resize_counters(&mut self.sem_allocation, sem_id + 1);
            resize_counters(&mut self.sem_need, sem_id + 1);
        }
        self.sem_available.set(sem_id, count);
        proof {
            let v = old(self)@;
            let w = self@;
            assert(w.sem_allocation.dom() =~= w.sem_need.dom());
        }
    }

    /// Thread `tid` got a unit of semaphore `sem_id` at once.
    pub fn on_semaphore_down_granted(&mut self, tid: usize, sem_id: usize)
        requires
            old(self)@.sem_wf(),
            sem_id < old(self)@.sem_available.len(),
            old(self)@.with_thread(tid).sem_allocation[tid][sem_id as int] < usize::MAX,
        ensures
            final(self)@ == old(self)@.after_down_granted(tid, sem_id),
            final(self)@.sem_wf(),
    {
        self.ensure_sem_thread(tid);
        proof {
            lemma_with_thread_wf(old(self)@, tid);
        }
        if self.sem_available[sem_id] > 0 {
            let a = self.sem_available[sem_id];
            self.sem_available.set(sem_id, a - 1);
        }
        let held = read_counter(&self.sem_allocation, tid, sem_id);
        write_counter(&mut self.sem_allocation, tid, sem_id, held + 1);
        let need = read_counter(&self.sem_need, tid, sem_id);
        if need > 0 {
            write_counter(&mut self.sem_need, tid, sem_id, need - 1);
        } else {
            proof {
                lemma_set_counter_same(counters_view(self.sem_need@), tid, sem_id as int);
            }
        }
        proof {
            let w = old(self)@.with_thread(tid);
            lemma_set_counter_len(w.sem_allocation, tid, sem_id as int, w.sem_allocation[tid][sem_id as int] + 1);
            lemma_set_counter_len(w.sem_need, tid, sem_id as int, dec_sat(w.sem_need[tid][sem_id as int]) as int);
        }
    }

    /// Thread `tid` waits for a unit of semaphore `sem_id`.
    pub fn on_semaphore_blocked(&mut self, tid: usize, sem_id: usize)
        requires
            old(self)@.sem_wf(),
            sem_id < old(self)@.sem_available.len(),
            old(self)@.with_thread(tid).sem_need[tid][sem_id as int] < usize::MAX,
        ensures
            final(self)@ == old(self)@.after_sem_blocked(tid, sem_id),
            final(self)@.sem_wf(),
    {
        self.ensure_sem_thread(tid);
        proof {
            lemma_with_thread_wf(old(self)@, tid);
        }
        let need = read_counter(&self.sem_need, tid, sem_id);
        write_counter(&mut self.sem_need, tid, sem_id, need + 1);
        proof {
            let w = old(self)@.with_thread(tid);
            lemma_set_counter_len(w.sem_need, tid, sem_id as int, w.sem_need[tid][sem_id as int] + 1);
        }
    }

    /// Thread `holder` released a unit of semaphore `sem_id`; `waking_tid` is
    /// the thread woken to take it, if any.
    pub fn on_semaphore_up(&mut self, holder_tid: usize, sem_id: usize, waking_tid: Option<usize>)
        requires
            old(self)@.sem_wf(),
            sem_id < old(self)@.sem_available.len(),
            ({
                let w = old(self)@.with_thread(holder_tid);
                let w1 = DeadlockView {
                    sem_allocation: set_counter(
                        w.sem_allocation,
                        holder_tid,
                        sem_id as int,
                        dec_sat(w.sem_allocation[holder_tid][sem_id as int]) as int,
                    ),
                    ..w
                };
                match waking_tid {
                    Some(t) => w1.with_thread(t).sem_allocation[t][sem_id as int] < usize::MAX,
                    None => w1.sem_available[sem_id as int] < usize::MAX,
                }
            }),
        ensures
            final(self)@ == old(self)@.after_sem_up(holder_tid, sem_id, waking_tid),
            final(self)@.sem_wf(),
    {
        self.ensure_sem_thread(holder_tid);
        let ghost w = self@;
        proof {
            lemma_with_thread_wf(old(self)@, holder_tid);
        }
        let held = read_counter(&self.sem_allocation, holder_tid, sem_id);
        if held > 0 {
            write_counter(&mut self.sem_allocation, holder_tid, sem_id, held - 1);
        } else {
            proof {
                lemma_set_counter_same(counters_view(self.sem_allocation@), holder_tid, sem_id as int);
            }
        }
        proof {
            lemma_set_counter_len(w.sem_allocation, holder_tid, sem_id as int, dec_sat(held) as int);
            assert(self@.sem_allocation.dom() =~= self@.sem_need.dom());
        }
        let ghost w1 = self@;
        match waking_tid {
            Some(tid) => {
                self.ensure_sem_thread(tid);
                proof {
                    lemma_with_thread_wf(w1, tid);
                }
                let ghost w2 = self@;
                let need = read_counter(&self.sem_need, tid, sem_id);
                if need > 0 {
                    write_counter(&mut self.sem_need, tid, sem_id, need - 1);
                } else {
                    proof {
                        lemma_set_counter_same(counters_view(self.sem_need@), tid, sem_id as int);
                    }
                }
                let held_t = read_counter(&self.sem_allocation, tid, sem_id);
                write_counter(&mut self.sem_allocation, tid, sem_id, held_t + 1);
                proof {
                    lemma_set_counter_len(w2.sem_need, tid, sem_id as int, dec_sat(need) as int);
                    lemma_set_counter_len(w2.sem_allocation, tid, sem_id as int, held_t + 1);
                }
            },
            None => {
                let a = self.sem_available[sem_id];
                self.sem_available.set(sem_id, a + 1);
            },
        }
    }

    /// Whether every need of thread `t` fits in `work`.
    fn need_fits(&self, t: usize, work: &Vec<u128>) -> (ok: bool)
        requires
            self@.sem_wf(),
            self@.sem_need.contains_key(t),
            work@.len() == self@.sem_available.len(),
        ensures
            ok == forall|r: int| 0 <= r < work@.len() ==> #[trigger] self@.sem_need[t][r] <= work@[r],
    {
        let need = self.sem_need.get(&t).unwrap();
        let mut idx: usize = 0;
        while idx < work.len()
            invariant
                need@ == self@.sem_need[t],
                need@.len() == work@.len(),
                idx <= work@.len(),
                forall|r: int| 0 <= r < idx ==> #[trigger] self@.sem_need[t][r] <= work@[r],
            decreases work@.len() - idx,
        {
            if need[idx] as u128 > work[idx] {
                return false;
            }
            idx = idx + 1;
        }
        true
    }

    /// The banker's safety check: repeatedly lets any thread whose needs fit
    /// in the free units finish and return what it holds; the state is safe
    /// when every thread gets to finish.
    pub fn semaphore_safe(&self) -> (r: bool)
        requires
            self@.sem_wf(),
        ensures
            r == self@.sem_safe(),
    {
        let ghost v = self@;
        let n = self.sem_available.len();
        let mut work: Vec<u128> = Vec::new();
        let mut idx: usize = 0;
        while idx < n
            invariant
                v == self@,
                n == v.sem_available.len(),
                idx <= n,
                work@.len() == idx,
                forall|r: int| 0 <= r < idx ==> #[trigger] work@[r] == v.sem_available[r],
            decreases n - idx,
        {
            work.push(self.sem_available[idx] as u128);
            idx = idx + 1;
        }
        let tids = table_threads(&self.sem_need);
        let mut finish: Vec<bool> = Vec::new();
        let mut j: usize = 0;
        while j < tids.len()
            invariant
                j <= tids@.len(),
                finish@.len() == j,
                forall|k: int| 0 <= k < j ==> !#[trigger] finish@[k],
            decreases tids@.len() - j,
        {
            finish.push(false);
            j = j + 1;
        }
        let ghost mut order: Seq<usize> = Seq::empty();
        proof {
            assert forall|r: int| 0 <= r < work@.len() implies #[trigger] work@[r] == v.sem_available[r]
                + held_by(v.sem_allocation, order, r) by {}
            tids@.lemma_cardinality_of_set();
        }
        loop
            invariant
                v == self@,
                v.sem_wf(),
                n == v.sem_available.len(),
                work@.len() == n,
                forall|r: int| 0 <= r < work@.len() ==> #[trigger] work@[r] == v.sem_available[r]
                    + held_by(v.sem_allocation, order, r),
                tids@.no_duplicates(),
                tids@.to_set() == v.sem_need.dom(),
                tids@.len() == v.sem_need.dom().len(),
                finish@.len() == tids@.len(),
                forall|k: int| 0 <= k < tids@.len() ==> (#[trigger] finish@[k] <==> order.contains(tids@[k])),
                order.no_duplicates(),
                forall|x: usize| order.contains(x) ==> #[trigger] v.sem_need.contains_key(x),
                order.len() <= tids@.len(),
                forall|k: int| 0 <= k < order.len() ==> #[trigger] v.can_finish_after(order, k),
            ensures
                forall|k: int| 0 <= k < tids@.len() ==> #[trigger] finish@[k] || exists|r: int|
                    0 <= r < work@.len() && #[trigger] v.sem_need[tids@[k]][r] > work@[r],
            decreases tids@.len() - order.len(),
        {
            let mut progressed = false;
            let ghost order0 = order;
            let ghost work0 = work@;
            let mut i: usize = 0;
            while i < tids.len()
                invariant
                    v == self@,
                    v.sem_wf(),
                    n == v.sem_available.len(),
                    work@.len() == n,
                    forall|r: int| 0 <= r < work@.len() ==> #[trigger] work@[r] == v.sem_available[r]
                        + held_by(v.sem_allocation, order, r),
                    tids@.no_duplicates(),
                    tids@.to_set() == v.sem_need.dom(),
                    tids@.len() == v.sem_need.dom().len(),
                    finish@.len() == tids@.len(),
                    forall|k: int|
                        0 <= k < tids@.len() ==> (#[trigger] finish@[k] <==> order.contains(tids@[k])),
                    order.no_duplicates(),
                    forall|x: usize| order.contains(x) ==> #[trigger] v.sem_need.contains_key(x),
                    order.len() <= tids@.len(),
                    forall|k: int| 0 <= k < order.len() ==> #[trigger] v.can_finish_after(order, k),
                    i <= tids@.len(),
                    !progressed ==> order == order0 && work@ == work0,
                    progressed ==> order.len() > order0.len(),
                    order.len() >= order0.len(),
                    !progressed ==> forall|k: int|
                        0 <= k < i ==> #[trigger] finish@[k] || exists|r: int|
                            0 <= r < work@.len() && #[trigger] v.sem_need[tids@[k]][r] > work@[r],
                decreases tids@.len() - i,
            {
                if !finish[i] {
                    let t = tids[i];
                    assert(tids@.to_set().contains(t));
                    let ok = self.need_fits(t, &work);
                    if ok {
                        proof {
                            assert(!order.contains(t));
                            // the finished threads and `t` are distinct threads of the table
                            let grown_order = order.push(t);
                            assert forall|a: int, b: int|
                                0 <= a < grown_order.len() && 0 <= b < grown_order.len() && a != b
                                implies grown_order[a] != grown_order[b] by {}
                            assert forall|x: usize| grown_order.contains(x) implies tids@.to_set().contains(x) by {
                                if x != t {
                                    assert(order.contains(x));
                                }
                            }
                            assert(grown_order.to_set().subset_of(tids@.to_set()));
                            grown_order.unique_seq_to_set();
                            tids@.lemma_cardinality_of_set();
                            vstd::set_lib::lemma_len_subset(grown_order.to_set(), tids@.to_set());
                        }
                        let alloc = self.sem_allocation.get(&t).unwrap();
                        let ghost work_before = work@;
                        let mut r: usize = 0;
                        while r < n
                            invariant
                                v == self@,
                                v.sem_wf(),
                                v.sem_allocation.contains_key(t),
                                alloc@ == v.sem_allocation[t],
                                n == v.sem_available.len(),
                                work@.len() == n,
                                work_before.len() == n,
                                r <= n,
                                order.len() + 1 <= tids@.len(),
                                tids@.len() <= usize::MAX,
                                forall|q: int| 0 <= q < n ==> #[trigger] work_before[q] == v.sem_available[q]
                                    + held_by(v.sem_allocation, order, q),
                                forall|q: int| 0 <= q < r ==> #[trigger] work@[q] == work_before[q] + alloc@[q],
                                forall|q: int| r <= q < n ==> #[trigger] work@[q] == work_before[q],
                            decreases n - r,
                        {
                            proof {
                                lemma_held_by_bound(v.sem_allocation, order, r as int);
                                let m = usize::MAX as int;
                                let a = v.sem_available[r as int] as int;
                                let h = held_by(v.sem_allocation, order, r as int);
                                let c = alloc@[r as int] as int;
                                let len = order.len() as int;
                                assert(a + h + c <= u128::MAX) by (nonlinear_arith)
                                    requires
                                        0 <= a <= m,
                                        0 <= c <= m,
                                        h <= len * m,
                                        0 <= len,
                                        len + 1 <= m,
                                        m <= 0xffff_ffff_ffff_ffff,
                                ;
                            }
                            let w = work[r] + alloc[r] as u128;
                            work.set(r, w);
                            r = r + 1;
                        }
                        finish.set(i, true);
                        proof {
                            let old_order = order;
                            order = order.push(t);
                            assert forall|q: int| 0 <= q < work@.len() implies #[trigger] work@[q]
                                == v.sem_available[q] + held_by(v.sem_allocation, order, q) by {
                                lemma_held_by_push(v.sem_allocation, old_order, t, q);
                            }
                            assert(order.take(old_order.len() as int) =~= old_order);
                            assert forall|k: int| 0 <= k < order.len() implies #[trigger] v.can_finish_after(
                                order,
                                k,
                            ) by {
                                if k < old_order.len() {
                                    assert(order.take(k) =~= old_order.take(k));
                                    assert(v.can_finish_after(old_order, k));
                                    assert(order[k] == old_order[k]);
                                } else {
                                    assert(order[k] == t);
                                    assert forall|q: int| 0 <= q < v.sem_available.len() implies #[trigger] v.sem_need[order[k]][q]
                                        <= v.sem_available[q] + held_by(v.sem_allocation, order.take(k), q) by {
                                        assert(v.sem_need[t][q] <= work_before[q]);
                                    }
                                }
                            }
                            assert forall|k: int| 0 <= k < tids@.len() implies (#[trigger] finish@[k]
                                <==> order.contains(tids@[k])) by {
                                if k != i {
                                    assert(tids@[k] != t);
                                    if order.contains(tids@[k]) {
                                        let p = choose|p: int| 0 <= p < order.len() && order[p] == tids@[k];
                                        assert(p < old_order.len());
                                        assert(old_order[p] == tids@[k]);
                                    }
                                    if old_order.contains(tids@[k]) {
                                        let p = choose|p: int| 0 <= p < old_order.len() && old_order[p] == tids@[k];
                                        assert(order[p] == tids@[k]);
                                    }
                                } else {
                                    assert(order[old_order.len() as int] == t);
                                }
                            }
                            assert forall|x: usize| order.contains(x) implies #[trigger] v.sem_need.contains_key(x) by {
                                if x != t {
                                    let p = choose|p: int| 0 <= p < order.len() && order[p] == x;
                                    assert(old_order[p] == x);
                                }
                            }
                        }
                        progressed = true;
                    }
                }
                i = i + 1;
            }
            if !progressed {
                break;
            }
        }
        let mut all = true;
        let mut k: usize = 0;
        while k < finish.len()
            invariant
                k <= finish@.len(),
                all == forall|q: int| 0 <= q < k ==> #[trigger] finish@[q],
            decreases finish@.len() - k,
        {
            if !finish[k] {
                all = false;
            }
            k = k + 1;
        }
        proof {
            if all {
                assert forall|x: usize| #[trigger] v.sem_need.dom().contains(x) implies order.to_set().contains(x) by {
                    assert(tids@.to_set().contains(x));
                    let q = choose|q: int| 0 <= q < tids@.len() && tids@[q] == x;
                    assert(finish@[q]);
                }
                assert(order.to_set() =~= v.sem_need.dom());
                assert(v.is_safe_order(order));
            } else {
                let q = choose|q: int| 0 <= q < finish@.len() && !#[trigger] finish@[q];
                let t = tids@[q];
                assert(tids@.to_set().contains(t));
                assert forall|u: usize|
                    v.sem_need.contains_key(u) && !order.contains(u) implies exists|r: int|
                        0 <= r < work@.len() && #[trigger] v.sem_need[u][r] > work@[r] by {
                    assert(tids@.to_set().contains(u));
                    let p = choose|p: int| 0 <= p < tids@.len() && tids@[p] == u;
                    assert(!finish@[p]);
                }
                lemma_stuck_is_unsafe(v, order, work@, t);
            }
        }
        all
    }

    /// Whether thread `tid` asking for semaphore `sem_id` should be refused:
    /// with detection on, when no unit is free and counting one more unit as
    /// the thread's need leaves no order in which every thread can finish.
    /// With detection on, the thread becomes known to the semaphore tables.
    pub fn semaphore_should_deadlock(&mut self, tid: usize, sem_id: usize) -> (r: bool)
        requires
            old(self)@.sem_wf(),
            old(self)@.enabled ==> sem_id < old(self)@.sem_available.len(),
            old(self)@.enabled && old(self)@.sem_available[sem_id as int] == 0 ==> old(
                self,
            )@.with_thread(tid).sem_need[tid][sem_id as int] < usize::MAX,
        ensures
            !old(self)@.enabled ==> !r && final(self)@ == old(self)@,
            old(self)@.enabled ==> final(self)@ == old(self)@.with_thread(tid) && r == (old(
                self,
            )@.sem_available[sem_id as int] == 0 && !old(self)@.with_extra_need(tid, sem_id).sem_safe()),
            final(self)@.sem_wf(),
    {
        if !self.enabled {
            return false;
        }
        self.ensure_sem_thread(tid);
        proof {
            lemma_with_thread_wf(old(self)@, tid);
        }
        if self.sem_available[sem_id] > 0 {
            return false;
        }
        let need = read_counter(&self.sem_need, tid, sem_id);
        write_counter(&mut self.sem_need, tid, sem_id, need + 1);
        proof {
            let w = old(self)@.with_thread(tid);
            lemma_set_counter_len(w.sem_need, tid, sem_id as int, need + 1);
            assert(self@.sem_allocation.dom() =~= self@.sem_need.dom());
            assert(self@ == old(self)@.with_extra_need(tid, sem_id));
        }
        let safe = self.semaphore_safe();
        write_counter(&mut self.sem_need, tid, sem_id, need);
        proof {
            let w = old(self)@.with_thread(tid);
            let bumped = set_counter(w.sem_need, tid, sem_id as int, need + 1);
            assert(bumped[tid].update(sem_id as int, need) =~= w.sem_need[tid]);
            assert(set_counter(bumped, tid, sem_id as int, need as int) =~= w.sem_need);
        }
        !safe
    }

    /// How many semaphores are registered.
    pub fn semaphore_count(&self) -> (r: usize)
        ensures
            r == self@.sem_available.len(),
    {
        self.sem_available.len()
    }

    /// The free units of semaphore `sem_id`.
    pub fn free_units(&self, sem_id: usize) -> (r: usize)
        requires
            sem_id < self@.sem_available.len(),
        ensures
            r == self@.sem_available[sem_id as int],
    {
        self.sem_available[sem_id]
    }

    /// The units of semaphore `sem_id` that thread `tid` holds and waits
    /// for (zero for a thread not yet known).
    pub fn sem_counters(&self, tid: usize, sem_id: usize) -> (r: (usize, usize))
        requires
            self@.sem_wf(),
            sem_id < self@.sem_available.len(),
        ensures
            r.0 == self@.with_thread(tid).sem_allocation[tid][sem_id as int],
            r.1 == self@.with_thread(tid).sem_need[tid][sem_id as int],
    {
        proof {
            lemma_with_thread_wf(self@, tid);
        }
        let held = if self.sem_allocation.contains_key(&tid) {
            read_counter(&self.sem_allocation, tid, sem_id)
        } else {
            0
        };
        let needed = if self.sem_need.contains_key(&tid) {
            read_counter(&self.sem_need, tid, sem_id)
        } else {
            0
        };
        (held, needed)
    }

    /// Turns detection on or off.
    pub fn set_enabled(&mut self, enabled: bool)
        ensures
            final(self)@ == (DeadlockView { enabled: enabled, ..old(self)@ }),
    {
        self.enabled = enabled;
    }

    /// Registers mutex `mutex_id`: the owner table grows to hold it, free.
    pub fn register_mutex(&mut self, mutex_id: usize)
        requires
            old(self)@.mutex_owners.len() <= mutex_id ==> mutex_id < usize::MAX,
        ensures
            final(self)@ == old(self)@.with_mutex(mutex_id),
    {
        if self.mutex_owners.len() <= mutex_id {
            self.mutex_owners.resize(mutex_id + 1, None);
            assert(self.mutex_owners@ =~= grown(old(self)@.mutex_owners, (mutex_id + 1) as nat, None));
        }
    }

    /// Whether thread `tid` asking for mutex `mutex_id` would close a wait-for
    /// cycle: the mutex is held and following who-waits-for-whom from its
    /// holder leads back to `tid`. Always false while detection is off.
    pub fn mutex_should_deadlock(&self, tid: usize, mutex_id: usize) -> (r: bool)
        ensures
            r == self@.mutex_request_deadlocks(tid, mutex_id),
    {
        if !self.enabled {
            return false;
        }
        if mutex_id >= self.mutex_owners.len() {
            return false;
        }
        let owner = match self.mutex_owners[mutex_id] {
            Some(o) => o,
            None => return false,
        };
        let ghost v = self@;
        assert(v.chain(owner, 0) == Some(owner));
        if owner == tid {
            return true;
        }
        let mut cursor = owner;
        let limit = self.mutex_waiting.len();
        let mut steps: usize = 0;
        while steps < limit
            invariant
                v == self@,
                v.enabled,
                owner_of(v.mutex_owners, mutex_id as int) == Some(owner),
                v.mutex_waiting.dom().finite(),
                limit == v.mutex_waiting.len(),
                steps <= limit,
                v.chain(owner, steps as nat) == Some(cursor),
                forall|j: nat| j <= steps ==> #[trigger] v.chain(owner, j) != Some(tid),
            decreases limit - steps,
        {
            let waited = match self.mutex_waiting.get(&cursor) {
                Some(m) => *m,
                None => {
                    proof {
                        assert(v.chain(owner, (steps + 1) as nat) is None);
                        assert forall|k: nat| #[trigger] v.chain(owner, k) != Some(tid) by {
                            if k > steps {
                                lemma_chain_stops(v, owner, (steps + 1) as nat, k);
                            }
                        }
                        assert(!v.reaches(owner, tid));
                    }
                    return false;
                }
            };
            let next = if waited < self.mutex_owners.len() {
                match self.mutex_owners[waited] {
                    Some(o) => o,
                    None => {
                        proof {
                            assert(v.chain(owner, (steps + 1) as nat) is None);
                            assert forall|k: nat| #[trigger] v.chain(owner, k) != Some(tid) by {
                                if k > steps {
                                    lemma_chain_stops(v, owner, (steps + 1) as nat, k);
                                }
                            }
                        }
                        return false;
                    }
                }
            } else {
                proof {
                    assert(v.chain(owner, (steps + 1) as nat) is None);
                    assert forall|k: nat| #[trigger] v.chain(owner, k) != Some(tid) by {
                        if k > steps {
                            lemma_chain_stops(v, owner, (steps + 1) as nat, k);
                        }
                    }
                }
                return false;
            };
            assert(v.chain(owner, (steps + 1) as nat) == Some(next));
            if next == tid {
                assert(v.reaches(owner, tid));
                return true;
            }
            if next == cursor {
                proof {
                    assert forall|k: nat| #[trigger] v.chain(owner, k) != Some(tid) by {
                        if k > steps {
                            lemma_chain_fixed(v, owner, steps as nat, cursor, k);
                        }
                    }
                }
                return false;
            }
            cursor = next;
            steps = steps + 1;
        }
        proof {
            assert forall|k: nat| #[trigger] v.chain(owner, k) != Some(tid) by {
                if v.chain(owner, k) == Some(tid) {
                    lemma_reach_within_waiting(v, owner, tid, k);
                }
            }
        }
        false
    }

    /// Thread `tid` now holds mutex `mutex_id` and waits for nothing.
    pub fn on_mutex_acquired(&mut self, tid: usize, mutex_id: usize)
        requires
            mutex_id < usize::MAX,
        ensures
            final(self)@ == (DeadlockView {
                mutex_owners: old(self)@.with_mutex(mutex_id).mutex_owners.update(
                    mutex_id as int,
                    Some(tid),
                ),
                mutex_waiting: old(self)@.mutex_waiting.remove(tid),
                ..old(self)@
            }),
    {
        self.register_mutex(mutex_id);
        self.mutex_waiting.remove(&tid);
        self.mutex_owners.set(mutex_id, Some(tid));
    }

    /// Thread `tid` blocks waiting for mutex `mutex_id`.
    pub fn on_mutex_blocked(&mut self, tid: usize, mutex_id: usize)
        requires
            mutex_id < usize::MAX,
        ensures
            final(self)@ == old(self)@.after_block(tid, mutex_id),
    {
        self.register_mutex(mutex_id);
        self.mutex_waiting.insert(tid, mutex_id);
    }

    /// Mutex `mutex_id` was unlocked: it passes to the woken thread, which
    /// stops waiting, or becomes free when nobody is woken.
    pub fn on_mutex_unlocked(&mut self, mutex_id: usize, waking_tid: Option<usize>)
        requires
            mutex_id < usize::MAX,
        ensures
            final(self)@ == (DeadlockView {
                mutex_owners: old(self)@.with_mutex(mutex_id).mutex_owners.update(
                    mutex_id as int,
                    waking_tid,
                ),
                mutex_waiting: match waking_tid {
                    Some(t) => old(self)@.mutex_waiting.remove(t),
                    None => old(self)@.mutex_waiting,
                },
                ..old(self)@
            }),
    {
        self.register_mutex(mutex_id);
        match waking_tid {
            Some(tid) => {
                self.mutex_waiting.remove(&tid);
                self.mutex_owners.set(mutex_id, Some(tid));
            },
            None => {
                self.mutex_owners.set(mutex_id, None);
            },
        }
    }
}

} // verus!
