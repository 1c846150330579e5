//! The query client: a registry mapping query keys to their lifecycle
//! states, plus the active subscriptions and the set of in-flight fetches.
//!
//! The client is a deterministic state machine. It never performs a fetch
//! itself: `subscribe` and `invalidate_queries` report which key-sets the
//! host must fetch, and the host hands each outcome back through `settle`
//! (or withdraws it through `cancel_fetch`).

use vstd::prelude::*;

use crate::state::dup_result;
use crate::state::dup_state;
use crate::state::dup_value;
use crate::state::QueryResult;
use crate::state::loading_of;
use crate::state::needs_fetch;
use crate::state::QueryKeys;
use crate::state::QueryState;

verus! {

/// One cache entry: a key together with its current lifecycle state.
pub struct Entry {
    pub key: QueryKeys,
    pub state: QueryState,
}

/// One active subscription: a consumer listening to a key-set.
pub struct Subscription {
    pub consumer: u64,
    pub keys: Vec<QueryKeys>,
}

/// The process-wide query cache.
pub struct QueryClient {
    /// Registered keys with their states; keys are pairwise distinct.
    pub entries: Vec<Entry>,
    /// Active subscriptions; (consumer, key-set) pairs are pairwise distinct.
    pub subs: Vec<Subscription>,
    /// Key-sets with a fetch currently in flight; pairwise distinct.
    pub flights: Vec<Vec<QueryKeys>>,
}

impl QueryClient {
    /// Whether `k` has a registered entry.
    pub open spec fn has_key(&self, k: QueryKeys) -> bool {
        exists|i: int| 0 <= i < self.entries@.len() && self.entries@[i].key == k
    }

    /// The state of `k`: its entry's state, or `Idle` if unregistered.
    pub open spec fn key_state(&self, k: QueryKeys) -> QueryState {
        if self.has_key(k) {
            self.entries@[choose|i: int|
                0 <= i < self.entries@.len() && self.entries@[i].key == k].state
        } else {
            QueryState::Idle
        }
    }

    /// Whether `consumer` holds a subscription for exactly the key-set `ks`.
    pub open spec fn is_subscribed(&self, consumer: u64, ks: Seq<QueryKeys>) -> bool {
        exists|i: int|
            0 <= i < self.subs@.len() && self.subs@[i].consumer == consumer
                && self.subs@[i].keys@ == ks
    }

    /// Whether a fetch for exactly the key-set `ks` is in flight.
    pub open spec fn in_flight(&self, ks: Seq<QueryKeys>) -> bool {
        exists|i: int| 0 <= i < self.flights@.len() && self.flights@[i]@ == ks
    }

    /// Well-formedness: entry keys, subscriptions and in-flight key-sets are
    /// pairwise distinct, and every subscribed key has a registered entry.
    pub open spec fn wf(&self) -> bool {
        &&& forall|i: int, j: int|
            0 <= i < j < self.entries@.len() ==> self.entries@[i].key != self.entries@[j].key
        &&& forall|i: int, j: int|
            0 <= i < j < self.subs@.len()
                ==> !(self.subs@[i].consumer == self.subs@[j].consumer && self.subs@[i].keys@
                == self.subs@[j].keys@)
        &&& forall|i: int, j: int|
            0 <= i < j < self.flights@.len() ==> self.flights@[i]@ != self.flights@[j]@
        &&& forall|i: int, k: QueryKeys|
            0 <= i < self.subs@.len() && #[trigger] self.subs@[i].keys@.contains(k)
                ==> self.has_key(k)
    }
}

/// In a well-formed client, the entry at index `i` determines the state of
/// its key.
pub proof fn lemma_state_at(c: QueryClient, i: int)
    requires
        c.wf(),
        0 <= i < c.entries@.len(),
    ensures
        c.has_key(c.entries@[i].key),
        c.key_state(c.entries@[i].key) == c.entries@[i].state,
{
    let k = c.entries@[i].key;
    assert(c.has_key(k));
    let j = choose|j: int| 0 <= j < c.entries@.len() && c.entries@[j].key == k;
    if i < j {
        assert(c.entries@[i].key != c.entries@[j].key);
    } else if j < i {
        assert(c.entries@[j].key != c.entries@[i].key);
    }
}

impl QueryClient {
    /// A fresh client: no entries, no subscriptions, nothing in flight.
    pub fn new() -> (c: QueryClient)
        ensures
            c.wf(),
            forall|k: QueryKeys| !c.has_key(k),
            forall|k: QueryKeys| c.key_state(k) == QueryState::Idle,
            forall|consumer: u64, ks: Seq<QueryKeys>| !c.is_subscribed(consumer, ks),
            forall|ks: Seq<QueryKeys>| !c.in_flight(ks),
    {
        QueryClient { entries: Vec::new(), subs: Vec::new(), flights: Vec::new() }
    }

    /// Index of the entry for `k`, if one is registered.
    fn find_entry(&self, k: QueryKeys) -> (r: Option<usize>)
        ensures
            match r {
                Some(i) => i < self.entries@.len() && self.entries@[i as int].key == k,
                None => !self.has_key(k),
            },
    {
        let mut i: usize = 0;
        while i < self.entries.len()
            invariant
                i <= self.entries@.len(),
                forall|j: int| 0 <= j < i ==> self.entries@[j].key != k,
            decreases self.entries@.len() - i,
        {
            if self.entries[i].key == k {
                return Some(i);
            }
            i += 1;
        }
        None
    }

    /// Current state of `k`, `Idle` if it was never registered. Purely
    /// observational: never triggers a fetch, never blocks.
    pub fn query_state(&self, k: QueryKeys) -> (st: QueryState)
        requires
            self.wf(),
        ensures
            st == self.key_state(k),
    {
        match self.find_entry(k) {
            Some(i) => {
                proof {
                    lemma_state_at(*self, i as int);
                }
                dup_state(&self.entries[i].state)
            },
            None => QueryState::Idle,
        }
    }

    /// Current state of `k`, registering an `Idle` entry first if `k` was
    /// absent. Registration only: no fetch is triggered.
    pub fn get_or_create(&mut self, k: QueryKeys) -> (st: QueryState)
        requires
            old(self).wf(),
        ensures
            final(self).wf(),
            st == old(self).key_state(k),
            final(self).has_key(k),
            forall|k2: QueryKeys|
                final(self).has_key(k2) <==> (old(self).has_key(k2) || k2 == k),
            forall|k2: QueryKeys| final(self).key_state(k2) == old(self).key_state(k2),
            final(self).subs@ == old(self).subs@,
            final(self).flights@ == old(self).flights@,
    {
        match self.find_entry(k) {
            Some(i) => {
                proof {
                    lemma_state_at(*self, i as int);
                }
                dup_state(&self.entries[i].state)
            },
            None => {
                self.entries.push(Entry { key: k, state: QueryState::Idle });
                proof {
                    lemma_push_entry(
                        *old(self),
                        *self,
                        (Entry { key: k, state: QueryState::Idle }),
                    );
                    assert(old(self).key_state(k) == QueryState::Idle);
                }
                QueryState::Idle
            },
        }
    }
}

/// Pushing an entry for an unregistered key registers that key with the
/// pushed state and changes nothing else.
pub proof fn lemma_push_entry(pre: QueryClient, post: QueryClient, e: Entry)
    requires
        pre.wf(),
        !pre.has_key(e.key),
        post.entries@ == pre.entries@.push(e),
        post.subs@ == pre.subs@,
        post.flights@ == pre.flights@,
    ensures
        post.wf(),
        post.has_key(e.key),
        forall|k2: QueryKeys| post.has_key(k2) <==> (pre.has_key(k2) || k2 == e.key),
        post.key_state(e.key) == e.state,
        forall|k2: QueryKeys| k2 != e.key ==> post.key_state(k2) == pre.key_state(k2),
{
    let k = e.key;
    let n = pre.entries@.len() as int;
    assert(post.entries@[n].key == k);
    assert(post.has_key(k));
    assert forall|k2: QueryKeys| post.has_key(k2) <==> (pre.has_key(k2) || k2 == k) by {
        if pre.has_key(k2) {
            let i = choose|i: int| 0 <= i < pre.entries@.len() && pre.entries@[i].key == k2;
            assert(post.entries@[i].key == k2);
        }
        if post.has_key(k2) && k2 != k {
            let i = choose|i: int| 0 <= i < post.entries@.len() && post.entries@[i].key == k2;
            assert(i < n);
            assert(pre.entries@[i].key == k2);
        }
    }
    assert(post.wf()) by {
        assert forall|i: int, j: int|
            0 <= i < j < post.entries@.len() implies post.entries@[i].key
            != post.entries@[j].key by {
            if j < n {
                assert(pre.entries@[i].key != pre.entries@[j].key);
            } else {
                assert(post.entries@[j].key == k);
                assert(pre.entries@[i].key == post.entries@[i].key);
                if post.entries@[i].key == k {
                    assert(pre.has_key(k));
                }
            }
        }
        assert forall|i: int, k2: QueryKeys|
            0 <= i < post.subs@.len() && #[trigger] post.subs@[i].keys@.contains(k2)
                implies post.has_key(k2) by {
            assert(pre.subs@[i as int].keys@.contains(k2));
            assert(pre.has_key(k2));
        }
    }
    lemma_state_at(post, n);
    assert(post.key_state(k) == e.state);
    assert forall|k2: QueryKeys| k2 != k implies post.key_state(k2) == pre.key_state(k2) by {
        if pre.has_key(k2) {
            let i = choose|i: int| 0 <= i < pre.entries@.len() && pre.entries@[i].key == k2;
            assert(post.entries@[i].key == k2);
            lemma_state_at(pre, i);
            lemma_state_at(post, i);
        }
    }
}

/// Whether two key-sets share at least one key.
pub open spec fn seqs_intersect(a: Seq<QueryKeys>, b: Seq<QueryKeys>) -> bool {
    exists|k: QueryKeys| a.contains(k) && b.contains(k)
}

/// Whether two key-sets are equal element for element.
pub fn keys_eq(a: &Vec<QueryKeys>, b: &Vec<QueryKeys>) -> (r: bool)
    ensures
        r == (a@ == b@),
{
    if a.len() != b.len() {
        return false;
    }
    let mut i: usize = 0;
    while i < a.len()
        invariant
            a@.len() == b@.len(),
            i <= a@.len(),
            forall|j: int| 0 <= j < i ==> a@[j] == b@[j],
        decreases a@.len() - i,
    {
        if a[i] != b[i] {
            return false;
        }
        i += 1;
    }
    proof {
        assert(a@ =~= b@);
    }
    true
}

/// Whether the key-set `v` holds the key `k`.
pub fn keys_contain(v: &Vec<QueryKeys>, k: QueryKeys) -> (r: bool)
    ensures
        r == v@.contains(k),
{
    let mut i: usize = 0;
    while i < v.len()
        invariant
            i <= v@.len(),
            forall|j: int| 0 <= j < i ==> v@[j] != k,
        decreases v@.len() - i,
    {
        if v[i] == k {
            return true;
        }
        i += 1;
    }
    false
}

/// Whether two key-sets share at least one key.
pub fn keys_intersect(a: &Vec<QueryKeys>, b: &Vec<QueryKeys>) -> (r: bool)
    ensures
        r == seqs_intersect(a@, b@),
{
    let mut i: usize = 0;
    while i < a.len()
        invariant
            i <= a@.len(),
            forall|j: int| 0 <= j < i ==> !b@.contains(a@[j]),
        decreases a@.len() - i,
    {
        if keys_contain(b, a[i]) {
            return true;
        }
        i += 1;
    }
    proof {
        if seqs_intersect(a@, b@) {
            let k = choose|k: QueryKeys| a@.contains(k) && b@.contains(k);
            let j = choose|j: int| 0 <= j < a@.len() && a@[j] == k;
            assert(!b@.contains(a@[j]));
        }
    }
    false
}

/// Copy of a key-set, equal to the original.
pub fn dup_keys(ks: &Vec<QueryKeys>) -> (r: Vec<QueryKeys>)
    ensures
        r@ == ks@,
{
    let mut out: Vec<QueryKeys> = Vec::new();
    let mut i: usize = 0;
    while i < ks.len()
        invariant
            i <= ks@.len(),
            out@ == ks@.subrange(0, i as int),
        decreases ks@.len() - i,
    {
        out.push(ks[i]);
        proof {
            assert(out@ =~= ks@.subrange(0, i + 1 as int));
        }
        i += 1;
    }
    proof {
        assert(out@ =~= ks@);
    }
    out
}

/// Replacing the state at entry `i`, key kept, re-states that one key and
/// nothing else.
pub proof fn lemma_update_state(pre: QueryClient, post: QueryClient, i: int, ns: QueryState)
    requires
        pre.wf(),
        0 <= i < pre.entries@.len(),
        post.entries@ == pre.entries@.update(
            i,
            (Entry { key: pre.entries@[i].key, state: ns }),
        ),
        post.subs@ == pre.subs@,
        post.flights@ == pre.flights@,
    ensures
        post.wf(),
        forall|k2: QueryKeys| post.has_key(k2) <==> pre.has_key(k2),
        post.key_state(pre.entries@[i].key) == ns,
        forall|k2: QueryKeys|
            k2 != pre.entries@[i].key ==> post.key_state(k2) == pre.key_state(k2),
{
    assert(forall|j: int|
        0 <= j < post.entries@.len() ==> post.entries@[j].key == pre.entries@[j].key);
    assert forall|k2: QueryKeys| post.has_key(k2) <==> pre.has_key(k2) by {
        if pre.has_key(k2) {
            let w = choose|w: int| 0 <= w < pre.entries@.len() && pre.entries@[w].key == k2;
            assert(post.entries@[w].key == k2);
        }
        if post.has_key(k2) {
            let w = choose|w: int| 0 <= w < post.entries@.len() && post.entries@[w].key == k2;
            assert(pre.entries@[w].key == k2);
        }
    }
    assert(post.wf()) by {
        assert forall|a: int, b: int|
            0 <= a < b < post.entries@.len() implies post.entries@[a].key
            != post.entries@[b].key by {
            assert(pre.entries@[a].key != pre.entries@[b].key);
        }
        assert forall|a: int, k2: QueryKeys|
            0 <= a < post.subs@.len() && #[trigger] post.subs@[a].keys@.contains(k2)
                implies post.has_key(k2) by {
            assert(pre.subs@[a].keys@.contains(k2));
        }
    }
    lemma_state_at(post, i);
    assert forall|k2: QueryKeys|
        k2 != pre.entries@[i].key implies post.key_state(k2) == pre.key_state(k2) by {
        if pre.has_key(k2) {
            let w = choose|w: int| 0 <= w < pre.entries@.len() && pre.entries@[w].key == k2;
            assert(w != i);
            assert(post.entries@[w] == pre.entries@[w]);
            lemma_state_at(pre, w);
            lemma_state_at(post, w);
        }
    }
}

impl QueryClient {
    /// Index of the subscription of `consumer` for exactly `keys`, if any.
    fn find_sub(&self, consumer: u64, keys: &Vec<QueryKeys>) -> (r: Option<usize>)
        ensures
            match r {
                Some(i) => i < self.subs@.len() && self.subs@[i as int].consumer == consumer
                    && self.subs@[i as int].keys@ == keys@,
                None => !self.is_subscribed(consumer, keys@),
            },
    {
        let mut i: usize = 0;
        while i < self.subs.len()
            invariant
                i <= self.subs@.len(),
                forall|j: int|
                    0 <= j < i
                        ==> !(self.subs@[j].consumer == consumer && self.subs@[j].keys@
                        == keys@),
            decreases self.subs@.len() - i,
        {
            if self.subs[i].consumer == consumer && keys_eq(&self.subs[i].keys, keys) {
                return Some(i);
            }
            i += 1;
        }
        None
    }

    /// Index of the in-flight fetch for exactly `keys`, if any.
    fn find_flight(&self, keys: &Vec<QueryKeys>) -> (r: Option<usize>)
        ensures
            match r {
                Some(i) => i < self.flights@.len() && self.flights@[i as int]@ == keys@,
                None => !self.in_flight(keys@),
            },
    {
        let mut i: usize = 0;
        while i < self.flights.len()
            invariant
                i <= self.flights@.len(),
                forall|j: int| 0 <= j < i ==> self.flights@[j]@ != keys@,
            decreases self.flights@.len() - i,
        {
            if keys_eq(&self.flights[i], keys) {
                return Some(i);
            }
            i += 1;
        }
        None
    }

    /// Drop the subscription of `consumer` for exactly `keys`. Dropping one
    /// that was never registered is a no-op. Cache entries and in-flight
    /// fetches are untouched.
    pub fn unsubscribe(&mut self, consumer: u64, keys: &Vec<QueryKeys>)
        requires
            old(self).wf(),
        ensures
            final(self).wf(),
            forall|c2: u64, ks2: Seq<QueryKeys>|
                final(self).is_subscribed(c2, ks2) <==> (old(self).is_subscribed(c2, ks2)
                    && !(c2 == consumer && ks2 == keys@)),
            final(self).entries@ == old(self).entries@,
            final(self).flights@ == old(self).flights@,
    {
        match self.find_sub(consumer, keys) {
            Some(i) => {
                self.subs.remove(i);
                proof {
                    let pre = *old(self);
                    let post = *self;
                    assert forall|c2: u64, ks2: Seq<QueryKeys>|
                        post.is_subscribed(c2, ks2) <==> (pre.is_subscribed(c2, ks2) && !(c2
                            == consumer && ks2 == keys@)) by {
                        if post.is_subscribed(c2, ks2) {
                            let w = choose|w: int|
                                0 <= w < post.subs@.len() && post.subs@[w].consumer == c2
                                    && post.subs@[w].keys@ == ks2;
                            let w0: int = if w < i { w } else { w + 1 };
                            assert(pre.subs@[w0] == post.subs@[w]);
                            assert(pre.is_subscribed(c2, ks2));
                            if c2 == consumer && ks2 == keys@ {
                                assert(w0 != i);
                                if w0 < i {
                                    assert(!(pre.subs@[w0].consumer == pre.subs@[i as int].consumer
                                        && pre.subs@[w0].keys@ == pre.subs@[i as int].keys@));
                                } else {
                                    assert(!(pre.subs@[i as int].consumer == pre.subs@[w0].consumer
                                        && pre.subs@[i as int].keys@ == pre.subs@[w0].keys@));
                                }
                            }
                        }
                        if pre.is_subscribed(c2, ks2) && !(c2 == consumer && ks2 == keys@) {
                            let w = choose|w: int|
                                0 <= w < pre.subs@.len() && pre.subs@[w].consumer == c2
                                    && pre.subs@[w].keys@ == ks2;
                            assert(w != i);
                            let w1: int = if w < i { w } else { w - 1 };
                            assert(post.subs@[w1] == pre.subs@[w]);
                            assert(post.is_subscribed(c2, ks2));
                        }
                    }
                    assert(post.wf()) by {
                        assert forall|a: int, b: int|
                            0 <= a < b < post.subs@.len() implies !(post.subs@[a].consumer
                            == post.subs@[b].consumer && post.subs@[a].keys@
                            == post.subs@[b].keys@) by {
                            let a0: int = if a < i { a } else { a + 1 };
                            let b0: int = if b < i { b } else { b + 1 };
                            assert(pre.subs@[a0] == post.subs@[a]);
                            assert(pre.subs@[b0] == post.subs@[b]);
                        }
                        assert forall|a: int, k2: QueryKeys|
                            0 <= a < post.subs@.len() && #[trigger] post.subs@[a].keys@.contains(
                                k2,
                            ) implies post.has_key(k2) by {
                            let a0: int = if a < i { a } else { a + 1 };
                            assert(pre.subs@[a0] == post.subs@[a]);
                            assert(pre.subs@[a0].keys@.contains(k2));
                        }
                    }
                }
            },
            None => {},
        }
    }

    /// Withdraw the in-flight fetch for exactly `keys`: its outcome, if it
    /// ever arrives through `settle`, will be discarded. No key state
    /// changes. Withdrawing a fetch that is not in flight is a no-op.
    pub fn cancel_fetch(&mut self, keys: &Vec<QueryKeys>)
        requires
            old(self).wf(),
        ensures
            final(self).wf(),
            forall|ks2: Seq<QueryKeys>|
                final(self).in_flight(ks2) <==> (old(self).in_flight(ks2) && ks2 != keys@),
            final(self).entries@ == old(self).entries@,
            final(self).subs@ == old(self).subs@,
    {
        match self.find_flight(keys) {
            Some(i) => {
                self.flights.remove(i);
                proof {
                    lemma_remove_flight(*old(self), *self, i as int);
                }
            },
            None => {},
        }
    }
}

/// Removing the in-flight record at index `i` withdraws exactly that
/// key-set and changes nothing else.
pub proof fn lemma_remove_flight(pre: QueryClient, post: QueryClient, i: int)
    requires
        pre.wf(),
        0 <= i < pre.flights@.len(),
        post.flights@ == pre.flights@.remove(i),
        post.entries@ == pre.entries@,
        post.subs@ == pre.subs@,
    ensures
        post.wf(),
        forall|ks2: Seq<QueryKeys>|
            post.in_flight(ks2) <==> (pre.in_flight(ks2) && ks2 != pre.flights@[i]@),
        forall|k: QueryKeys| post.has_key(k) <==> pre.has_key(k),
        forall|k: QueryKeys| post.key_state(k) == pre.key_state(k),
        forall|c2: u64, ks2: Seq<QueryKeys>|
            post.is_subscribed(c2, ks2) <==> pre.is_subscribed(c2, ks2),
{
    let removed = pre.flights@[i]@;
    assert forall|ks2: Seq<QueryKeys>|
        post.in_flight(ks2) <==> (pre.in_flight(ks2) && ks2 != removed) by {
        if post.in_flight(ks2) {
            let w = choose|w: int| 0 <= w < post.flights@.len() && post.flights@[w]@ == ks2;
            let w0: int = if w < i {
                w
            } else {
                w + 1
            };
            assert(pre.flights@[w0] == post.flights@[w]);
            assert(pre.in_flight(ks2));
            if ks2 == removed {
                assert(w0 != i);
                if w0 < i {
                    assert(pre.flights@[w0]@ != pre.flights@[i]@);
                } else {
                    assert(pre.flights@[i]@ != pre.flights@[w0]@);
                }
            }
        }
        if pre.in_flight(ks2) && ks2 != removed {
            let w = choose|w: int| 0 <= w < pre.flights@.len() && pre.flights@[w]@ == ks2;
            assert(w != i);
            let w1: int = if w < i {
                w
            } else {
                w - 1
            };
            assert(post.flights@[w1] == pre.flights@[w]);
            assert(post.in_flight(ks2));
        }
    }
    assert(post.wf()) by {
        assert forall|a: int, b: int|
            0 <= a < b < post.flights@.len() implies post.flights@[a]@ != post.flights@[b]@ by {
            let a0: int = if a < i {
                a
            } else {
                a + 1
            };
            let b0: int = if b < i {
                b
            } else {
                b + 1
            };
            assert(pre.flights@[a0] == post.flights@[a]);
            assert(pre.flights@[b0] == post.flights@[b]);
        }
    }
}

/// How one `settle` call relates the client before it to the client after
/// it.
///
/// Delivering an outcome for a key-set not in flight (cancelled, or never
/// started) discards it without touching anything. Otherwise the fetch
/// leaves the in-flight set and every key of the set settles to the same
/// outcome in this one atomic step; `notified` then holds exactly the
/// consumers with a subscription touching the set.
pub open spec fn settle_rel(
    pre: QueryClient,
    post: QueryClient,
    ks: Seq<QueryKeys>,
    outcome: QueryResult,
    notified: Seq<u64>,
) -> bool {
    if !pre.in_flight(ks) {
        &&& post == pre
        &&& notified.len() == 0
    } else {
        &&& forall|ks2: Seq<QueryKeys>|
            post.in_flight(ks2) <==> (pre.in_flight(ks2) && ks2 != ks)
        &&& forall|c2: u64, ks2: Seq<QueryKeys>|
            post.is_subscribed(c2, ks2) <==> pre.is_subscribed(c2, ks2)
        &&& forall|k: QueryKeys| post.has_key(k) <==> (pre.has_key(k) || ks.contains(k))
        &&& forall|k: QueryKeys|
            ks.contains(k) ==> post.key_state(k) == QueryState::Settled(outcome)
        &&& forall|k: QueryKeys| !ks.contains(k) ==> post.key_state(k) == pre.key_state(k)
        &&& forall|c2: u64|
            notified.contains(c2) <==> exists|ks2: Seq<QueryKeys>|
                pre.is_subscribed(c2, ks2) && seqs_intersect(ks2, ks)
    }
}

impl QueryClient {
    /// Deliver the outcome of the fetch for the key-set `keys`.
    ///
    /// If that fetch is still in flight, every key of the set settles to
    /// `outcome` atomically — no observer can see one key of the set
    /// settled while a sibling is still loading — and the returned batch
    /// names the consumers whose subscriptions touch the set, for the host
    /// to notify. An outcome whose fetch was cancelled (or never recorded)
    /// is discarded without changing any state.
    pub fn settle(&mut self, keys: &Vec<QueryKeys>, outcome: QueryResult) -> (notified: Vec<
        u64,
    >)
        requires
            old(self).wf(),
        ensures
            final(self).wf(),
            settle_rel(*old(self), *final(self), keys@, outcome, notified@),
    {
        match self.find_flight(keys) {
            None => Vec::new(),
            Some(fi) => {
                self.flights.remove(fi);
                proof {
                    lemma_remove_flight(*old(self), *self, fi as int);
                }
                // Settle every key of the set to the one outcome.
                let mut i: usize = 0;
                while i < keys.len()
                    invariant
                        self.wf(),
                        i <= keys@.len(),
                        self.subs@ == old(self).subs@,
                        forall|ks2: Seq<QueryKeys>|
                            self.in_flight(ks2) <==> (old(self).in_flight(ks2) && ks2
                                != keys@),
                        forall|k2: QueryKeys|
                            self.has_key(k2) <==> (old(self).has_key(k2) || exists|j: int|
                                0 <= j < i && keys@[j] == k2),
                        forall|k2: QueryKeys|
                            self.key_state(k2) == (if exists|j: int|
                                0 <= j < i && keys@[j] == k2 {
                                QueryState::Settled(outcome)
                            } else {
                                old(self).key_state(k2)
                            }),
                    decreases keys@.len() - i,
                {
                    let kk = keys[i];
                    let ns = QueryState::Settled(dup_result(&outcome));
                    let ghost mid = *self;
                    proof {
                        assert(keys@[i as int] == kk);
                    }
                    match self.find_entry(kk) {
                        Some(ei) => {
                            proof {
                                lemma_state_at(*self, ei as int);
                            }
                            self.entries[ei] = Entry { key: kk, state: ns };
                            proof {
                                assert(self.entries@ == mid.entries@.update(
                                    ei as int,
                                    (Entry {
                                        key: mid.entries@[ei as int].key,
                                        state: QueryState::Settled(outcome),
                                    }),
                                ));
                                lemma_update_state(
                                    mid,
                                    *self,
                                    ei as int,
                                    QueryState::Settled(outcome),
                                );
                            }
                        },
                        None => {
                            self.entries.push(Entry { key: kk, state: ns });
                            proof {
                                lemma_push_entry(
                                    mid,
                                    *self,
                                    (Entry { key: kk, state: QueryState::Settled(outcome) }),
                                );
                            }
                        },
                    }
                    proof {
                        assert(self.flights@ == mid.flights@);
                        assert forall|ks2: Seq<QueryKeys>|
                            self.in_flight(ks2) <==> mid.in_flight(ks2) by {}
                        assert forall|k2: QueryKeys|
                            self.key_state(k2) == (if exists|j: int|
                                0 <= j < i + 1 && keys@[j] == k2 {
                                QueryState::Settled(outcome)
                            } else {
                                old(self).key_state(k2)
                            }) by {
                            if k2 == kk {
                                assert(exists|j: int| 0 <= j < i + 1 && keys@[j] == k2);
                            } else {
                                assert(self.key_state(k2) == mid.key_state(k2));
                                if exists|j: int| 0 <= j < i + 1 && keys@[j] == k2 {
                                    let j = choose|j: int| 0 <= j < i + 1 && keys@[j] == k2;
                                    assert(j < i);
                                    assert(exists|j2: int| 0 <= j2 < i && keys@[j2] == k2);
                                }
                            }
                        }
                        assert forall|k2: QueryKeys|
                            self.has_key(k2) <==> (old(self).has_key(k2) || exists|j: int|
                                0 <= j < i + 1 && keys@[j] == k2) by {
                            if self.has_key(k2) && !old(self).has_key(k2) {
                                if mid.has_key(k2) {
                                    let j = choose|j: int| 0 <= j < i && keys@[j] == k2;
                                    assert(0 <= j < i + 1 && keys@[j] == k2);
                                } else {
                                    assert(k2 == kk);
                                    assert(keys@[i as int] == k2);
                                }
                            }
                            if exists|j: int| 0 <= j < i + 1 && keys@[j] == k2 {
                                let j = choose|j: int| 0 <= j < i + 1 && keys@[j] == k2;
                                if j < i {
                                    assert(mid.has_key(k2) || old(self).has_key(k2));
                                } else {
                                    assert(k2 == kk);
                                    assert(self.has_key(k2));
                                }
                            }
                        }
                    }
                    i += 1;
                }
                // Collect the consumers whose subscriptions touch the set.
                let ghost settled = *self;
                let mut notified: Vec<u64> = Vec::new();
                let mut si: usize = 0;
                while si < self.subs.len()
                    invariant
                        *self == settled,
                        si <= self.subs@.len(),
                        forall|c2: u64|
                            notified@.contains(c2) <==> exists|j: int|
                                0 <= j < si && self.subs@[j].consumer == c2 && seqs_intersect(
                                    self.subs@[j].keys@,
                                    keys@,
                                ),
                    decreases self.subs@.len() - si,
                {
                    let hit = keys_intersect(&self.subs[si].keys, keys);
                    let ghost before = notified@;
                    if hit {
                        notified.push(self.subs[si].consumer);
                    }
                    proof {
                        assert forall|c2: u64|
                            notified@.contains(c2) <==> exists|j: int|
                                0 <= j < si + 1 && self.subs@[j].consumer == c2
                                    && seqs_intersect(self.subs@[j].keys@, keys@) by {
                            let siw = si as int;
                            if notified@.contains(c2) {
                                let w = choose|w: int|
                                    0 <= w < notified@.len() && notified@[w] == c2;
                                if w < before.len() {
                                    assert(before[w] == c2);
                                    assert(before.contains(c2));
                                    let j = choose|j: int|
                                        0 <= j < si && self.subs@[j].consumer == c2
                                            && seqs_intersect(self.subs@[j].keys@, keys@);
                                    assert(0 <= j < si + 1 && self.subs@[j].consumer == c2
                                        && seqs_intersect(self.subs@[j].keys@, keys@));
                                } else {
                                    assert(hit && c2 == self.subs@[siw].consumer);
                                    assert(0 <= siw < si + 1 && self.subs@[siw].consumer == c2
                                        && seqs_intersect(self.subs@[siw].keys@, keys@));
                                }
                            }
                            if exists|j: int|
                                0 <= j < si + 1 && self.subs@[j].consumer == c2
                                    && seqs_intersect(self.subs@[j].keys@, keys@) {
                                let j = choose|j: int|
                                    0 <= j < si + 1 && self.subs@[j].consumer == c2
                                        && seqs_intersect(self.subs@[j].keys@, keys@);
                                if j < si {
                                    assert(before.contains(c2));
                                    let w = choose|w: int|
                                        0 <= w < before.len() && before[w] == c2;
                                    assert(notified@[w] == c2);
                                    assert(notified@.contains(c2));
                                } else {
                                    assert(hit);
                                    assert(notified@[notified@.len() - 1] == c2);
                                    assert(notified@.contains(c2));
                                }
                            }
                        }
                    }
                    si += 1;
                }
                proof {
                    assert forall|c2: u64|
                        notified@.contains(c2) <==> exists|ks2: Seq<QueryKeys>|
                            old(self).is_subscribed(c2, ks2) && seqs_intersect(ks2, keys@) by {
                        if notified@.contains(c2) {
                            let j = choose|j: int|
                                0 <= j < self.subs@.len() && self.subs@[j].consumer == c2
                                    && seqs_intersect(self.subs@[j].keys@, keys@);
                            assert(old(self).subs@[j].consumer == c2);
                            assert(old(self).is_subscribed(c2, self.subs@[j].keys@));
                        }
                        if exists|ks2: Seq<QueryKeys>|
                            old(self).is_subscribed(c2, ks2) && seqs_intersect(ks2, keys@) {
                            let ks2 = choose|ks2: Seq<QueryKeys>|
                                old(self).is_subscribed(c2, ks2) && seqs_intersect(ks2, keys@);
                            let j = choose|j: int|
                                0 <= j < old(self).subs@.len() && old(self).subs@[j].consumer
                                    == c2 && old(self).subs@[j].keys@ == ks2;
                            assert(self.subs@[j].consumer == c2 && seqs_intersect(
                                self.subs@[j].keys@,
                                keys@,
                            ));
                        }
                    }
                }
                notified
            },
        }
    }
}

/// A settled outcome turns stale when its key is invalidated; any other
/// state is left as it is (a key already loading is already revalidating).
pub open spec fn stale_of(s: QueryState) -> QueryState {
    match s {
        QueryState::Settled(r) => QueryState::Stale(r),
        s2 => s2,
    }
}

/// The state of `k` after the marking phase of an invalidation of the
/// keys `inv`.
pub open spec fn marked_state(pre: QueryClient, inv: Seq<QueryKeys>, k: QueryKeys) -> QueryState {
    if inv.contains(k) {
        stale_of(pre.key_state(k))
    } else {
        pre.key_state(k)
    }
}

/// Whether invalidating the keys `inv` triggers a refetch of the key-set
/// `ks`: some consumer subscribes to exactly `ks`, `ks` holds an
/// invalidated key, and no fetch for `ks` is already in flight.
pub open spec fn refetched(pre: QueryClient, inv: Seq<QueryKeys>, ks: Seq<QueryKeys>) -> bool {
    &&& exists|c: u64| pre.is_subscribed(c, ks)
    &&& seqs_intersect(ks, inv)
    &&& !pre.in_flight(ks)
}

/// How one `invalidate_queries` call relates the client before it to the
/// client after it.
///
/// Every named key with a settled outcome turns stale. Each subscribed
/// key-set touching a named key is refetched — once, and only if no fetch
/// for it is already in flight — which moves its keys to `Loading` with
/// the stale value carried forward. A named key without an entry is
/// ignored; no entry is ever created. `reqs` lists each refetched key-set
/// exactly once.
pub open spec fn invalidate_rel(
    pre: QueryClient,
    post: QueryClient,
    inv: Seq<QueryKeys>,
    reqs: Seq<Vec<QueryKeys>>,
) -> bool {
    &&& forall|c2: u64, ks2: Seq<QueryKeys>|
        post.is_subscribed(c2, ks2) <==> pre.is_subscribed(c2, ks2)
    &&& forall|k: QueryKeys| post.has_key(k) <==> pre.has_key(k)
    &&& forall|k: QueryKeys|
        post.key_state(k) == (if exists|ks2: Seq<QueryKeys>|
            refetched(pre, inv, ks2) && ks2.contains(k) {
            loading_of(marked_state(pre, inv, k))
        } else {
            marked_state(pre, inv, k)
        })
    &&& forall|ks2: Seq<QueryKeys>|
        post.in_flight(ks2) <==> (pre.in_flight(ks2) || refetched(pre, inv, ks2))
    &&& forall|a: int, b: int| 0 <= a < b < reqs.len() ==> reqs[a]@ != reqs[b]@
    &&& forall|ks2: Seq<QueryKeys>|
        (exists|a: int| 0 <= a < reqs.len() && reqs[a]@ == ks2) <==> refetched(pre, inv, ks2)
}

/// What a settled state reads as after its key is invalidated.
fn make_stale(s: &QueryState) -> (r: QueryState)
    ensures
        r == stale_of(*s),
{
    match s {
        QueryState::Settled(res) => QueryState::Stale(dup_result(res)),
        other => dup_state(other),
    }
}

/// Whether `v` holds a key-set equal to `ks`.
fn contains_keyset(v: &Vec<Vec<QueryKeys>>, ks: &Vec<QueryKeys>) -> (r: bool)
    ensures
        r == exists|a: int| 0 <= a < v@.len() && v@[a]@ == ks@,
{
    let mut i: usize = 0;
    while i < v.len()
        invariant
            i <= v@.len(),
            forall|a: int| 0 <= a < i ==> v@[a]@ != ks@,
        decreases v@.len() - i,
    {
        if keys_eq(&v[i], ks) {
            return true;
        }
        i += 1;
    }
    false
}

/// What one key in this state reads as once a fetch covering it starts.
fn make_loading(s: &QueryState) -> (r: QueryState)
    ensures
        r == loading_of(*s),
{
    match s {
        QueryState::Idle => QueryState::Loading(None),
        QueryState::Loading(p) => QueryState::Loading(
            match p {
                Some(v) => Some(dup_value(v)),
                None => None,
            },
        ),
        QueryState::Settled(res) => QueryState::Loading(
            match res {
                Result::Ok(v) => Some(dup_value(v)),
                Result::Err(_) => None,
            },
        ),
        QueryState::Stale(res) => QueryState::Loading(
            match res {
                Result::Ok(v) => Some(dup_value(v)),
                Result::Err(_) => None,
            },
        ),
    }
}

/// Whether a key in this state wants a fetch when observed.
fn state_needs_fetch(s: &QueryState) -> (r: bool)
    ensures
        r == needs_fetch(*s),
{
    match s {
        QueryState::Idle => true,
        QueryState::Stale(_) => true,
        _ => false,
    }
}

/// Adding a fetch for a key-set not yet in flight.
pub proof fn lemma_push_flight(pre: QueryClient, post: QueryClient, fl: Vec<QueryKeys>)
    requires
        pre.wf(),
        !pre.in_flight(fl@),
        post.flights@ == pre.flights@.push(fl),
        post.entries@ == pre.entries@,
        post.subs@ == pre.subs@,
    ensures
        post.wf(),
        forall|ks2: Seq<QueryKeys>|
            post.in_flight(ks2) <==> (pre.in_flight(ks2) || ks2 == fl@),
        forall|k: QueryKeys| post.has_key(k) <==> pre.has_key(k),
        forall|k: QueryKeys| post.key_state(k) == pre.key_state(k),
        forall|c2: u64, ks2: Seq<QueryKeys>|
            post.is_subscribed(c2, ks2) <==> pre.is_subscribed(c2, ks2),
{
    let n = pre.flights@.len() as int;
    assert forall|ks2: Seq<QueryKeys>|
        post.in_flight(ks2) <==> (pre.in_flight(ks2) || ks2 == fl@) by {
        if post.in_flight(ks2) {
            let w = choose|w: int| 0 <= w < post.flights@.len() && post.flights@[w]@ == ks2;
            if w < n {
                assert(pre.flights@[w]@ == ks2);
            }
        }
        if pre.in_flight(ks2) {
            let w = choose|w: int| 0 <= w < pre.flights@.len() && pre.flights@[w]@ == ks2;
            assert(post.flights@[w]@ == ks2);
        }
        if ks2 == fl@ {
            assert(post.flights@[n]@ == ks2);
        }
    }
    assert(post.wf()) by {
        assert forall|a: int, b: int|
            0 <= a < b < post.flights@.len() implies post.flights@[a]@ != post.flights@[b]@ by {
            if b < n {
                assert(pre.flights@[a]@ != pre.flights@[b]@);
            } else {
                assert(post.flights@[b]@ == fl@);
                assert(pre.flights@[a]@ == post.flights@[a]@);
                if post.flights@[a]@ == fl@ {
                    assert(pre.in_flight(fl@));
                }
            }
        }
    }
}

/// Adding a subscription that was not yet registered, every key of which
/// has an entry.
pub proof fn lemma_push_sub(pre: QueryClient, post: QueryClient, sub: Subscription)
    requires
        pre.wf(),
        !pre.is_subscribed(sub.consumer, sub.keys@),
        forall|k: QueryKeys| sub.keys@.contains(k) ==> pre.has_key(k),
        post.subs@ == pre.subs@.push(sub),
        post.entries@ == pre.entries@,
        post.flights@ == pre.flights@,
    ensures
        post.wf(),
        forall|c2: u64, ks2: Seq<QueryKeys>|
            post.is_subscribed(c2, ks2) <==> (pre.is_subscribed(c2, ks2) || (c2 == sub.consumer
                && ks2 == sub.keys@)),
        forall|k: QueryKeys| post.has_key(k) <==> pre.has_key(k),
        forall|k: QueryKeys| post.key_state(k) == pre.key_state(k),
        forall|ks2: Seq<QueryKeys>| post.in_flight(ks2) <==> pre.in_flight(ks2),
{
    let n = pre.subs@.len() as int;
    assert forall|c2: u64, ks2: Seq<QueryKeys>|
        post.is_subscribed(c2, ks2) <==> (pre.is_subscribed(c2, ks2) || (c2 == sub.consumer
            && ks2 == sub.keys@)) by {
        if post.is_subscribed(c2, ks2) {
            let w = choose|w: int|
                0 <= w < post.subs@.len() && post.subs@[w].consumer == c2 && post.subs@[w].keys@
                    == ks2;
            if w < n {
                assert(pre.subs@[w].consumer == c2 && pre.subs@[w].keys@ == ks2);
            }
        }
        if pre.is_subscribed(c2, ks2) {
            let w = choose|w: int|
                0 <= w < pre.subs@.len() && pre.subs@[w].consumer == c2 && pre.subs@[w].keys@
                    == ks2;
            assert(post.subs@[w].consumer == c2 && post.subs@[w].keys@ == ks2);
        }
        if c2 == sub.consumer && ks2 == sub.keys@ {
            assert(post.subs@[n].consumer == c2 && post.subs@[n].keys@ == ks2);
        }
    }
    assert(post.wf()) by {
        assert forall|a: int, b: int|
            0 <= a < b < post.subs@.len() implies !(post.subs@[a].consumer
            == post.subs@[b].consumer && post.subs@[a].keys@ == post.subs@[b].keys@) by {
            if b < n {
                assert(!(pre.subs@[a].consumer == pre.subs@[b].consumer && pre.subs@[a].keys@
                    == pre.subs@[b].keys@));
            } else {
                assert(post.subs@[b] == sub);
                assert(pre.subs@[a] == post.subs@[a]);
                if post.subs@[a].consumer == sub.consumer && post.subs@[a].keys@ == sub.keys@ {
                    assert(pre.is_subscribed(sub.consumer, sub.keys@));
                }
            }
        }
        assert forall|a: int, k2: QueryKeys|
            0 <= a < post.subs@.len() && #[trigger] post.subs@[a].keys@.contains(k2)
                implies post.has_key(k2) by {
            if a < n {
                assert(pre.subs@[a].keys@.contains(k2));
                assert(pre.has_key(k2));
            } else {
                assert(post.subs@[a] == sub);
                assert(pre.has_key(k2));
            }
        }
    }
}

/// How one `subscribe` call relates the client before it to the client
/// after it.
///
/// A repeated (consumer, key-set) registration is a complete no-op. A new
/// one is recorded; a fetch is started exactly when some key of the set is
/// `Idle` or stale and no fetch for this exact key-set is already in
/// flight. A started fetch moves every key of the set to `Loading`,
/// carrying the last known value forward.
pub open spec fn subscribe_rel(
    pre: QueryClient,
    post: QueryClient,
    consumer: u64,
    ks: Seq<QueryKeys>,
    started: bool,
) -> bool {
    if pre.is_subscribed(consumer, ks) {
        &&& post == pre
        &&& !started
    } else {
        &&& started == (!pre.in_flight(ks) && exists|k: QueryKeys|
            ks.contains(k) && needs_fetch(pre.key_state(k)))
        &&& forall|c2: u64, ks2: Seq<QueryKeys>|
            post.is_subscribed(c2, ks2) <==> (pre.is_subscribed(c2, ks2) || (c2 == consumer
                && ks2 == ks))
        &&& forall|k: QueryKeys| post.has_key(k) <==> (pre.has_key(k) || ks.contains(k))
        &&& forall|k: QueryKeys|
            ks.contains(k) ==> post.key_state(k) == (if started {
                loading_of(pre.key_state(k))
            } else {
                pre.key_state(k)
            })
        &&& forall|k: QueryKeys| !ks.contains(k) ==> post.key_state(k) == pre.key_state(k)
        &&& forall|ks2: Seq<QueryKeys>|
            post.in_flight(ks2) <==> (pre.in_flight(ks2) || (started && ks2 == ks))
    }
}

impl QueryClient {
    /// Register `consumer` as a listener on the key-set `keys` and report
    /// whether the host must now run a fetch for exactly this key-set.
    ///
    /// Every key of the set gets an entry. If some key is `Idle` or stale
    /// and no fetch for this key-set is in flight, the whole set moves to
    /// `Loading` (previous values carried forward) and the call returns
    /// `true`: the host owes one fetch for `keys`, to be delivered through
    /// `settle`. Otherwise the call attaches to whatever is already there
    /// and returns `false`. Re-subscribing an already-registered
    /// (consumer, key-set) pair is a complete no-op.
    pub fn subscribe(&mut self, consumer: u64, keys: Vec<QueryKeys>) -> (started: bool)
        requires
            old(self).wf(),
        ensures
            final(self).wf(),
            subscribe_rel(*old(self), *final(self), consumer, keys@, started),
    {
        if let Some(_) = self.find_sub(consumer, &keys) {
            return false;
        }
        // Register an entry for every key of the set.
        let mut i: usize = 0;
        while i < keys.len()
            invariant
                self.wf(),
                i <= keys@.len(),
                self.subs@ == old(self).subs@,
                self.flights@ == old(self).flights@,
                forall|k2: QueryKeys|
                    self.has_key(k2) <==> (old(self).has_key(k2) || exists|j: int|
                        0 <= j < i && keys@[j] == k2),
                forall|k2: QueryKeys| self.key_state(k2) == old(self).key_state(k2),
            decreases keys@.len() - i,
        {
            let ghost mid = *self;
            let _ = self.get_or_create(keys[i]);
            proof {
                assert forall|k2: QueryKeys|
                    self.has_key(k2) <==> (old(self).has_key(k2) || exists|j: int|
                        0 <= j < i + 1 && keys@[j] == k2) by {
                    if self.has_key(k2) && !old(self).has_key(k2) {
                        if mid.has_key(k2) {
                            let j = choose|j: int| 0 <= j < i && keys@[j] == k2;
                            assert(0 <= j < i + 1 && keys@[j] == k2);
                        } else {
                            assert(keys@[i as int] == k2);
                        }
                    }
                    if exists|j: int| 0 <= j < i + 1 && keys@[j] == k2 {
                        let j = choose|j: int| 0 <= j < i + 1 && keys@[j] == k2;
                        if j < i {
                            assert(mid.has_key(k2) || old(self).has_key(k2));
                        } else {
                            assert(keys@[i as int] == k2);
                        }
                    }
                }
            }
            i += 1;
        }
        // Does any key of the set want a fetch?
        let mut wants: bool = false;
        let mut i: usize = 0;
        while i < keys.len()
            invariant
                self.wf(),
                i <= keys@.len(),
                forall|k2: QueryKeys| self.key_state(k2) == old(self).key_state(k2),
                wants == exists|j: int|
                    0 <= j < i && needs_fetch(old(self).key_state(keys@[j])),
            decreases keys@.len() - i,
        {
            let st = self.query_state(keys[i]);
            if state_needs_fetch(&st) {
                wants = true;
                proof {
                    assert(needs_fetch(old(self).key_state(keys@[i as int])));
                }
            }
            i += 1;
        }
        proof {
            assert(wants == (exists|k2: QueryKeys|
                keys@.contains(k2) && needs_fetch(old(self).key_state(k2)))) by {
                if wants {
                    let j = choose|j: int|
                        0 <= j < keys@.len() && needs_fetch(old(self).key_state(keys@[j]));
                    assert(keys@.contains(keys@[j]));
                }
                if exists|k2: QueryKeys|
                    keys@.contains(k2) && needs_fetch(old(self).key_state(k2)) {
                    let k2 = choose|k2: QueryKeys|
                        keys@.contains(k2) && needs_fetch(old(self).key_state(k2));
                    let j = choose|j: int| 0 <= j < keys@.len() && keys@[j] == k2;
                    assert(needs_fetch(old(self).key_state(keys@[j])));
                }
            }
        }
        let mut started: bool = false;
        if wants {
            match self.find_flight(&keys) {
                Some(fi) => {
                    proof {
                        assert(old(self).in_flight(keys@));
                    }
                },
                None => {
                    started = true;
                },
            }
        }
        if started {
            let fl = dup_keys(&keys);
            let ghost before_flight = *self;
            self.flights.push(fl);
            proof {
                lemma_push_flight(before_flight, *self, fl);
            }
            // Move every key of the set to Loading, previous value kept.
            let mut i: usize = 0;
            while i < keys.len()
                invariant
                    self.wf(),
                    i <= keys@.len(),
                    self.subs@ == old(self).subs@,
                    forall|ks2: Seq<QueryKeys>|
                        self.in_flight(ks2) <==> (old(self).in_flight(ks2) || ks2 == keys@),
                    forall|k2: QueryKeys|
                        self.has_key(k2) <==> (old(self).has_key(k2) || keys@.contains(k2)),
                    forall|k2: QueryKeys|
                        self.key_state(k2) == (if exists|j: int| 0 <= j < i && keys@[j] == k2 {
                            loading_of(old(self).key_state(k2))
                        } else {
                            old(self).key_state(k2)
                        }),
                decreases keys@.len() - i,
            {
                let kk = keys[i];
                proof {
                    assert(keys@.contains(keys@[i as int]));
                    assert(self.has_key(kk));
                }
                match self.find_entry(kk) {
                    Some(ei) => {
                        proof {
                            lemma_state_at(*self, ei as int);
                        }
                        let ns = make_loading(&self.entries[ei].state);
                        let ghost mid = *self;
                        self.entries[ei] = Entry { key: kk, state: ns };
                        proof {
                            assert(self.entries@ == mid.entries@.update(
                                ei as int,
                                (Entry { key: mid.entries@[ei as int].key, state: ns }),
                            ));
                            lemma_update_state(mid, *self, ei as int, ns);
                            assert forall|k2: QueryKeys|
                                self.key_state(k2) == (if exists|j: int|
                                    0 <= j < i + 1 && keys@[j] == k2 {
                                    loading_of(old(self).key_state(k2))
                                } else {
                                    old(self).key_state(k2)
                                }) by {
                                if k2 == kk {
                                    assert(keys@[i as int] == k2);
                                    if exists|j: int| 0 <= j < i && keys@[j] == k2 {
                                        assert(mid.key_state(k2) == loading_of(
                                            old(self).key_state(k2),
                                        ));
                                        assert(ns == loading_of(mid.key_state(k2)));
                                    } else {
                                        assert(ns == loading_of(mid.key_state(k2)));
                                        assert(mid.key_state(k2) == old(self).key_state(k2));
                                    }
                                } else {
                                    assert(self.key_state(k2) == mid.key_state(k2));
                                    if exists|j: int| 0 <= j < i + 1 && keys@[j] == k2 {
                                        let j = choose|j: int|
                                            0 <= j < i + 1 && keys@[j] == k2;
                                        assert(j < i);
                                        assert(exists|j2: int|
                                            0 <= j2 < i && keys@[j2] == k2);
                                    }
                                }
                            }
                        }
                    },
                    None => {
                        proof {
                            assert(false);
                        }
                    },
                }
                i += 1;
            }
        }
        let ghost before_sub = *self;
        self.subs.push(Subscription { consumer, keys });
        proof {
            let sub = self.subs@[before_sub.subs@.len() as int];
            assert(self.subs@ == before_sub.subs@.push(sub));
            lemma_push_sub(before_sub, *self, sub);
        }
        started
    }
}

impl QueryClient {
    /// Invalidate the named keys, forcing revalidation.
    ///
    /// Each named key with a settled outcome turns stale; its value stays
    /// readable until a new one arrives. Every subscribed key-set holding
    /// a named key is then refetched — deduplicated by key-set identity,
    /// and skipped when a fetch for it is already in flight — moving its
    /// keys to `Loading` with the previous value carried forward. A key
    /// without subscribers merely stays stale, to be refetched on its next
    /// subscription. An unknown key is a no-op. The returned list holds
    /// each key-set the host must now fetch, exactly once.
    #[verifier::rlimit(60)]
    pub fn invalidate_queries(&mut self, keys: &Vec<QueryKeys>) -> (reqs: Vec<Vec<QueryKeys>>)
        requires
            old(self).wf(),
        ensures
            final(self).wf(),
            invalidate_rel(*old(self), *final(self), keys@, reqs@),
    {
        let ghost pre = *old(self);
        // Mark the settled entries of named keys stale.
        let mut i: usize = 0;
        while i < self.entries.len()
            invariant
                self.wf(),
                i <= self.entries@.len(),
                self.subs@ == pre.subs@,
                self.flights@ == pre.flights@,
                self.entries@.len() == pre.entries@.len(),
                forall|j: int|
                    0 <= j < self.entries@.len() ==> self.entries@[j].key
                        == pre.entries@[j].key,
                forall|j: int|
                    0 <= j < self.entries@.len() ==> self.entries@[j].state == (if j < i
                        && keys@.contains(pre.entries@[j].key) {
                        stale_of(pre.entries@[j].state)
                    } else {
                        pre.entries@[j].state
                    }),
            decreases self.entries@.len() - i,
        {
            let kk = self.entries[i].key;
            if keys_contain(keys, kk) {
                let ns = make_stale(&self.entries[i].state);
                let ghost mid = *self;
                self.entries[i] = Entry { key: kk, state: ns };
                proof {
                    assert(self.entries@ == mid.entries@.update(
                        i as int,
                        (Entry { key: mid.entries@[i as int].key, state: ns }),
                    ));
                    lemma_update_state(mid, *self, i as int, ns);
                }
            }
            i += 1;
        }
        proof {
            assert forall|k: QueryKeys| self.has_key(k) <==> pre.has_key(k) by {
                if pre.has_key(k) {
                    let w = choose|w: int|
                        0 <= w < pre.entries@.len() && pre.entries@[w].key == k;
                    assert(self.entries@[w].key == k);
                }
                if self.has_key(k) {
                    let w = choose|w: int|
                        0 <= w < self.entries@.len() && self.entries@[w].key == k;
                    assert(pre.entries@[w].key == k);
                }
            }
            assert forall|k: QueryKeys|
                self.key_state(k) == marked_state(pre, keys@, k) by {
                if pre.has_key(k) {
                    let w = choose|w: int|
                        0 <= w < pre.entries@.len() && pre.entries@[w].key == k;
                    lemma_state_at(pre, w);
                    assert(self.entries@[w].key == k);
                    lemma_state_at(*self, w);
                }
            }
            assert forall|ks2: Seq<QueryKeys>|
                self.in_flight(ks2) <==> pre.in_flight(ks2) by {}
            assert forall|c2: u64, ks2: Seq<QueryKeys>|
                self.is_subscribed(c2, ks2) <==> pre.is_subscribed(c2, ks2) by {}
        }
        // Collect the key-sets to refetch: each subscribed set touching a
        // named key, unless already in flight, each exactly once.
        let mut reqs: Vec<Vec<QueryKeys>> = Vec::new();
        let mut si: usize = 0;
        while si < self.subs.len()
            invariant
                self.wf(),
                si <= self.subs@.len(),
                self.subs@ == pre.subs@,
                self.flights@ == pre.flights@,
                forall|a: int, b: int| 0 <= a < b < reqs@.len() ==> reqs@[a]@ != reqs@[b]@,
                forall|a: int| #![trigger reqs@[a]]
                    0 <= a < reqs@.len() ==> exists|j: int|
                        0 <= j < si && self.subs@[j].keys@ == reqs@[a]@ && seqs_intersect(
                            reqs@[a]@,
                            keys@,
                        ) && !self.in_flight(reqs@[a]@),
                forall|j: int| #![trigger self.subs@[j]]
                    0 <= j < si && seqs_intersect(self.subs@[j].keys@, keys@)
                        && !self.in_flight(self.subs@[j].keys@) ==> exists|a: int|
                        0 <= a < reqs@.len() && reqs@[a]@ == self.subs@[j].keys@,
            decreases self.subs@.len() - si,
        {
            let ghost before = reqs@;
            let mut take: bool = false;
            if keys_intersect(&self.subs[si].keys, keys) {
                match self.find_flight(&self.subs[si].keys) {
                    Some(_) => {},
                    None => {
                        if !contains_keyset(&reqs, &self.subs[si].keys) {
                            take = true;
                        }
                    },
                }
            }
            if take {
                let fl = dup_keys(&self.subs[si].keys);
                reqs.push(fl);
            }
            proof {
                let siw = si as int;
                assert forall|a: int| #![trigger reqs@[a]]
                    0 <= a < reqs@.len() implies exists|j: int|
                        0 <= j < si + 1 && self.subs@[j].keys@ == reqs@[a]@ && seqs_intersect(
                            reqs@[a]@,
                            keys@,
                        ) && !self.in_flight(reqs@[a]@) by {
                    if a < before.len() {
                        assert(reqs@[a] == before[a]);
                        let j = choose|j: int|
                            0 <= j < si && self.subs@[j].keys@ == before[a]@ && seqs_intersect(
                                before[a]@,
                                keys@,
                            ) && !self.in_flight(before[a]@);
                        assert(0 <= j < si + 1 && self.subs@[j].keys@ == reqs@[a]@
                            && seqs_intersect(reqs@[a]@, keys@) && !self.in_flight(reqs@[a]@));
                    } else {
                        assert(take);
                        assert(reqs@[a]@ == self.subs@[siw].keys@);
                        assert(0 <= siw < si + 1 && self.subs@[siw].keys@ == reqs@[a]@
                            && seqs_intersect(reqs@[a]@, keys@) && !self.in_flight(reqs@[a]@));
                    }
                }
                assert forall|j: int| #![trigger self.subs@[j]]
                    0 <= j < si + 1 && seqs_intersect(self.subs@[j].keys@, keys@)
                        && !self.in_flight(self.subs@[j].keys@) implies exists|a: int|
                        0 <= a < reqs@.len() && reqs@[a]@ == self.subs@[j].keys@ by {
                    if j < si {
                        let a = choose|a: int|
                            0 <= a < before.len() && before[a]@ == self.subs@[j].keys@;
                        assert(reqs@[a]@ == self.subs@[j].keys@);
                    } else {
                        if take {
                            assert(reqs@[reqs@.len() - 1]@ == self.subs@[siw].keys@);
                        } else {
                            assert(exists|a: int|
                                0 <= a < before.len() && before[a]@ == self.subs@[siw].keys@);
                            let a = choose|a: int|
                                0 <= a < before.len() && before[a]@ == self.subs@[siw].keys@;
                            assert(reqs@[a]@ == self.subs@[j].keys@);
                        }
                    }
                }
                assert forall|a: int, b: int|
                    0 <= a < b < reqs@.len() implies reqs@[a]@ != reqs@[b]@ by {
                    if b < before.len() {
                        assert(before[a]@ != before[b]@);
                    } else if take {
                        assert(reqs@[a] == before[a]);
                        if reqs@[a]@ == reqs@[b]@ {
                            assert(exists|a2: int|
                                0 <= a2 < before.len() && before[a2]@
                                    == self.subs@[siw].keys@);
                        }
                    }
                }
            }
            si += 1;
        }
        proof {
            assert forall|ks2: Seq<QueryKeys>| #![trigger refetched(pre, keys@, ks2)]
                (exists|a: int| 0 <= a < reqs@.len() && reqs@[a]@ == ks2) <==> refetched(
                    pre,
                    keys@,
                    ks2,
                ) by {
                if exists|a: int| 0 <= a < reqs@.len() && reqs@[a]@ == ks2 {
                    let a = choose|a: int| 0 <= a < reqs@.len() && reqs@[a]@ == ks2;
                    let j = choose|j: int|
                        0 <= j < self.subs@.len() && self.subs@[j].keys@ == reqs@[a]@
                            && seqs_intersect(reqs@[a]@, keys@) && !self.in_flight(reqs@[a]@);
                    assert(pre.subs@[j].consumer == self.subs@[j].consumer);
                    assert(pre.is_subscribed(pre.subs@[j].consumer, ks2));
                    assert(refetched(pre, keys@, ks2));
                }
                if refetched(pre, keys@, ks2) {
                    let c = choose|c: u64| pre.is_subscribed(c, ks2);
                    let j = choose|j: int|
                        0 <= j < pre.subs@.len() && pre.subs@[j].consumer == c
                            && pre.subs@[j].keys@ == ks2;
                    assert(0 <= j < si && seqs_intersect(self.subs@[j].keys@, keys@)
                        && !self.in_flight(self.subs@[j].keys@));
                    let a = choose|a: int|
                        0 <= a < reqs@.len() && reqs@[a]@ == self.subs@[j].keys@;
                    assert(0 <= a < reqs@.len() && reqs@[a]@ == ks2);
                }
            }
        }
        // Start the refetches: every key of each collected set goes to
        // Loading, stale value carried forward.
        let mut ri: usize = 0;
        while ri < reqs.len()
            invariant
                self.wf(),
                ri <= reqs@.len(),
                self.subs@ == pre.subs@,
                forall|a: int, b: int| 0 <= a < b < reqs@.len() ==> reqs@[a]@ != reqs@[b]@,
                forall|ks2: Seq<QueryKeys>| #![trigger refetched(pre, keys@, ks2)]
                    (exists|a: int| 0 <= a < reqs@.len() && reqs@[a]@ == ks2) <==> refetched(
                        pre,
                        keys@,
                        ks2,
                    ),
                forall|ks2: Seq<QueryKeys>| #![trigger self.in_flight(ks2)]
                    self.in_flight(ks2) <==> (pre.in_flight(ks2) || exists|a: int|
                        0 <= a < ri && reqs@[a]@ == ks2),
                forall|k: QueryKeys| self.has_key(k) <==> pre.has_key(k),
                forall|k: QueryKeys|
                    self.key_state(k) == (if exists|a: int|
                        0 <= a < ri && reqs@[a]@.contains(k) {
                        loading_of(marked_state(pre, keys@, k))
                    } else {
                        marked_state(pre, keys@, k)
                    }),
            decreases reqs@.len() - ri,
        {
            let riw: usize = ri;
            proof {
                assert(reqs@[riw as int]@ == reqs@[riw as int]@);
                assert(refetched(pre, keys@, reqs@[riw as int]@));
                assert(!self.in_flight(reqs@[riw as int]@)) by {
                    if exists|a: int| 0 <= a < ri && reqs@[a]@ == reqs@[riw as int]@ {
                        let a = choose|a: int|
                            0 <= a < ri && reqs@[a]@ == reqs@[riw as int]@;
                        assert(reqs@[a]@ != reqs@[riw as int]@);
                    }
                }
            }
            let fl = dup_keys(&reqs[riw]);
            let ghost mid3 = *self;
            self.flights.push(fl);
            proof {
                lemma_push_flight(mid3, *self, fl);
                assert forall|ks2: Seq<QueryKeys>| #![trigger self.in_flight(ks2)]
                    self.in_flight(ks2) <==> (pre.in_flight(ks2) || exists|a: int|
                        0 <= a < riw + 1 && reqs@[a]@ == ks2) by {
                    if self.in_flight(ks2) {
                        if mid3.in_flight(ks2) {
                            if !pre.in_flight(ks2) {
                                let a = choose|a: int|
                                    0 <= a < riw && reqs@[a]@ == ks2;
                                assert(0 <= a < riw + 1 && reqs@[a]@ == ks2);
                            }
                        } else {
                            assert(ks2 == fl@);
                            assert(reqs@[riw as int]@ == ks2);
                        }
                    }
                    if pre.in_flight(ks2) {
                        assert(mid3.in_flight(ks2));
                    }
                    if exists|a: int| 0 <= a < riw + 1 && reqs@[a]@ == ks2 {
                        let a = choose|a: int| 0 <= a < riw + 1 && reqs@[a]@ == ks2;
                        if a < riw {
                            assert(mid3.in_flight(ks2));
                        } else {
                            assert(ks2 == fl@);
                        }
                    }
                }
            }
            let mut ki: usize = 0;
            while ki < reqs[riw].len()
                invariant
                    self.wf(),
                    riw < reqs@.len(),
                    ki <= reqs@[riw as int]@.len(),
                    refetched(pre, keys@, reqs@[riw as int]@),
                    self.subs@ == pre.subs@,
                    forall|ks2: Seq<QueryKeys>| #![trigger self.in_flight(ks2)]
                        self.in_flight(ks2) <==> (pre.in_flight(ks2) || exists|a: int|
                            0 <= a < riw + 1 && reqs@[a]@ == ks2),
                    forall|k: QueryKeys| self.has_key(k) <==> pre.has_key(k),
                    forall|k: QueryKeys|
                        self.key_state(k) == (if (exists|a: int|
                            0 <= a < riw && reqs@[a]@.contains(k)) || (exists|j: int|
                            0 <= j < ki && reqs@[riw as int]@[j] == k) {
                            loading_of(marked_state(pre, keys@, k))
                        } else {
                            marked_state(pre, keys@, k)
                        }),
                decreases reqs@[riw as int]@.len() - ki,
            {
                let kk = reqs[riw][ki];
                proof {
                    assert(reqs@[riw as int]@.contains(kk));
                    let c = choose|c: u64| pre.is_subscribed(c, reqs@[riw as int]@);
                    let j = choose|j: int|
                        0 <= j < pre.subs@.len() && pre.subs@[j].consumer == c
                            && pre.subs@[j].keys@ == reqs@[riw as int]@;
                    assert(pre.subs@[j].keys@.contains(kk));
                    assert(pre.has_key(kk));
                    assert(self.has_key(kk));
                }
                match self.find_entry(kk) {
                    Some(ei) => {
                        proof {
                            lemma_state_at(*self, ei as int);
                        }
                        let ns = make_loading(&self.entries[ei].state);
                        let ghost mid4 = *self;
                        self.entries[ei] = Entry { key: kk, state: ns };
                        proof {
                            assert(self.entries@ == mid4.entries@.update(
                                ei as int,
                                (Entry { key: mid4.entries@[ei as int].key, state: ns }),
                            ));
                            lemma_update_state(mid4, *self, ei as int, ns);
                            assert(self.flights@ == mid4.flights@);
                            assert forall|ks2: Seq<QueryKeys>| #![trigger self.in_flight(ks2)]
                                self.in_flight(ks2) <==> (pre.in_flight(ks2) || exists|a: int|
                                    0 <= a < riw + 1 && reqs@[a]@ == ks2) by {
                                assert(self.in_flight(ks2) <==> mid4.in_flight(ks2));
                            }
                            assert forall|k: QueryKeys|
                                self.key_state(k) == (if (exists|a: int|
                                    0 <= a < riw && reqs@[a]@.contains(k)) || (exists|j: int|
                                    0 <= j < ki + 1 && reqs@[riw as int]@[j] == k) {
                                    loading_of(marked_state(pre, keys@, k))
                                } else {
                                    marked_state(pre, keys@, k)
                                }) by {
                                let covered_before = (exists|a: int|
                                    0 <= a < riw && reqs@[a]@.contains(k)) || (exists|j: int|
                                    0 <= j < ki && reqs@[riw as int]@[j] == k);
                                if k == kk {
                                    assert(reqs@[riw as int]@[ki as int] == k);
                                    assert(exists|j: int|
                                        0 <= j < ki + 1 && reqs@[riw as int]@[j] == k);
                                    if covered_before {
                                        assert(mid4.key_state(k) == loading_of(
                                            marked_state(pre, keys@, k),
                                        ));
                                        assert(ns == loading_of(mid4.key_state(k)));
                                        assert(loading_of(
                                            loading_of(marked_state(pre, keys@, k)),
                                        ) == loading_of(marked_state(pre, keys@, k)));
                                    } else {
                                        assert(ns == loading_of(mid4.key_state(k)));
                                        assert(mid4.key_state(k) == marked_state(
                                            pre,
                                            keys@,
                                            k,
                                        ));
                                    }
                                } else {
                                    assert(self.key_state(k) == mid4.key_state(k));
                                    if exists|j: int|
                                        0 <= j < ki + 1 && reqs@[riw as int]@[j] == k {
                                        let j = choose|j: int|
                                            0 <= j < ki + 1 && reqs@[riw as int]@[j] == k;
                                        assert(j < ki);
                                        assert(exists|j2: int|
                                            0 <= j2 < ki && reqs@[riw as int]@[j2] == k);
                                    }
                                }
                            }
                        }
                    },
                    None => {
                        proof {
                            assert(false);
                        }
                    },
                }
                ki += 1;
            }
            proof {
                assert forall|k: QueryKeys|
                    self.key_state(k) == (if exists|a: int|
                        0 <= a < ri + 1 && reqs@[a]@.contains(k) {
                        loading_of(marked_state(pre, keys@, k))
                    } else {
                        marked_state(pre, keys@, k)
                    }) by {
                    let kil = reqs@[riw as int]@.len() as int;
                    if exists|a: int| 0 <= a < ri + 1 && reqs@[a]@.contains(k) {
                        let a = choose|a: int| 0 <= a < ri + 1 && reqs@[a]@.contains(k);
                        if a < ri {
                            assert((exists|a2: int|
                                0 <= a2 < riw && reqs@[a2]@.contains(k)) || (exists|j: int|
                                0 <= j < kil && reqs@[riw as int]@[j] == k));
                        } else {
                            assert(reqs@[riw as int]@.contains(k));
                            let j = choose|j: int|
                                0 <= j < reqs@[riw as int]@.len() && reqs@[riw as int]@[j]
                                    == k;
                            assert(exists|j2: int|
                                0 <= j2 < kil && reqs@[riw as int]@[j2] == k);
                        }
                    } else {
                        if exists|a2: int| 0 <= a2 < riw && reqs@[a2]@.contains(k) {
                            let a2 = choose|a2: int|
                                0 <= a2 < riw && reqs@[a2]@.contains(k);
                            assert(0 <= a2 < ri + 1 && reqs@[a2]@.contains(k));
                        }
                        if exists|j: int| 0 <= j < kil && reqs@[riw as int]@[j] == k {
                            assert(reqs@[riw as int]@.contains(k));
                            assert(0 <= riw < ri + 1);
                        }
                    }
                }
            }
            ri += 1;
        }
        proof {
            assert forall|k: QueryKeys|
                self.key_state(k) == (if exists|ks2: Seq<QueryKeys>|
                    refetched(pre, keys@, ks2) && ks2.contains(k) {
                    loading_of(marked_state(pre, keys@, k))
                } else {
                    marked_state(pre, keys@, k)
                }) by {
                if exists|a: int| 0 <= a < reqs@.len() && reqs@[a]@.contains(k) {
                    let a = choose|a: int| 0 <= a < reqs@.len() && reqs@[a]@.contains(k);
                    assert(refetched(pre, keys@, reqs@[a]@) && reqs@[a]@.contains(k));
                }
                if exists|ks2: Seq<QueryKeys>| refetched(pre, keys@, ks2) && ks2.contains(k) {
                    let ks2 = choose|ks2: Seq<QueryKeys>|
                        refetched(pre, keys@, ks2) && ks2.contains(k);
                    let a = choose|a: int| 0 <= a < reqs@.len() && reqs@[a]@ == ks2;
                    assert(0 <= a < reqs@.len() && reqs@[a]@.contains(k));
                }
            }
            assert forall|ks2: Seq<QueryKeys>|
                self.in_flight(ks2) <==> (pre.in_flight(ks2) || refetched(pre, keys@, ks2)) by {}
            assert forall|c2: u64, ks2: Seq<QueryKeys>|
                self.is_subscribed(c2, ks2) <==> pre.is_subscribed(c2, ks2) by {}
        }
        reqs
    }
}

} // verus!
