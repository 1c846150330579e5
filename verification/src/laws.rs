//! The guarantees the cache gives across calls, each proved from the
//! per-call relations alone.

use vstd::prelude::*;

use crate::client::invalidate_rel;
use crate::client::marked_state;
use crate::client::refetched;
use crate::client::seqs_intersect;
use crate::client::settle_rel;
use crate::client::stale_of;
use crate::client::subscribe_rel;
use crate::client::QueryClient;
use crate::state::loading_of;
use crate::state::FetchError;
use crate::state::QueryKeys;
use crate::state::QueryResult;
use crate::state::QueryState;
use crate::state::QueryValue;

verus! {

/// Dedup: once one subscribe call has started the fetch for a key-set,
/// any further subscribe for that same key-set — by any consumer —
/// attaches to the in-flight fetch instead of starting another. However
/// many subscriptions arrive for a key-set, exactly one fetch runs until
/// it settles.
pub proof fn lemma_subscribe_dedup(
    s0: QueryClient,
    s1: QueryClient,
    s2: QueryClient,
    c1: u64,
    c2: u64,
    ks: Seq<QueryKeys>,
    started2: bool,
)
    requires
        subscribe_rel(s0, s1, c1, ks, true),
        subscribe_rel(s1, s2, c2, ks, started2),
    ensures
        !started2,
{
    assert(s1.in_flight(ks));
}

/// No subscribe starts a fetch for a key-set whose fetch is already in
/// flight: it attaches to the existing one.
pub proof fn lemma_no_fetch_while_in_flight(
    s0: QueryClient,
    s1: QueryClient,
    consumer: u64,
    ks: Seq<QueryKeys>,
    started: bool,
)
    requires
        subscribe_rel(s0, s1, consumer, ks, started),
        s0.in_flight(ks),
    ensures
        !started,
{
}

/// Idempotent subscribe: re-subscribing the same consumer to the same
/// key-set leaves the client exactly as it was — one listener entry, zero
/// extra fetches.
pub proof fn lemma_subscribe_idempotent(
    s0: QueryClient,
    s1: QueryClient,
    s2: QueryClient,
    consumer: u64,
    ks: Seq<QueryKeys>,
    started1: bool,
    started2: bool,
)
    requires
        subscribe_rel(s0, s1, consumer, ks, started1),
        subscribe_rel(s1, s2, consumer, ks, started2),
    ensures
        s2 == s1,
        !started2,
{
    assert(s1.is_subscribed(consumer, ks));
}

/// Atomic fan-out settle: one settle call moves every key of the fetched
/// set — two arbitrary keys of it here — to the same settled outcome in
/// one step. No observer can find one key of the set settled while a
/// sibling still loads.
pub proof fn lemma_atomic_settle(
    s0: QueryClient,
    s1: QueryClient,
    ks: Seq<QueryKeys>,
    outcome: QueryResult,
    notified: Seq<u64>,
    a: QueryKeys,
    b: QueryKeys,
)
    requires
        settle_rel(s0, s1, ks, outcome, notified),
        s0.in_flight(ks),
        ks.contains(a),
        ks.contains(b),
    ensures
        s1.key_state(a) == QueryState::Settled(outcome),
        s1.key_state(b) == QueryState::Settled(outcome),
{
}

/// Stale-while-revalidating: invalidating a key settled with value `v`,
/// while some consumer subscribes to a key-set holding it with no fetch in
/// flight, moves the key to `Loading(Some(v))`: the stale value stays
/// readable until the new outcome arrives.
pub proof fn lemma_stale_while_revalidating(
    s0: QueryClient,
    s1: QueryClient,
    inv: Seq<QueryKeys>,
    reqs: Seq<Vec<QueryKeys>>,
    k: QueryKeys,
    v: QueryValue,
    consumer: u64,
    ks: Seq<QueryKeys>,
)
    requires
        invalidate_rel(s0, s1, inv, reqs),
        s0.key_state(k) == QueryState::Settled(Result::<QueryValue, FetchError>::Ok(v)),
        inv.contains(k),
        s0.is_subscribed(consumer, ks),
        ks.contains(k),
        !s0.in_flight(ks),
    ensures
        s1.key_state(k) == QueryState::Loading(Some(v)),
{
    assert(seqs_intersect(ks, inv));
    assert(refetched(s0, inv, ks));
    assert(exists|ks2: Seq<QueryKeys>| refetched(s0, inv, ks2) && ks2.contains(k));
    assert(marked_state(s0, inv, k) == QueryState::Stale(
        Result::<QueryValue, FetchError>::Ok(v),
    ));
    assert(loading_of(marked_state(s0, inv, k)) == QueryState::Loading(Some(v)));
}

/// Invalidating a key that was never registered is a no-op: no entry
/// appears, no state changes, no fetch is requested.
pub proof fn lemma_invalidate_unknown(
    s0: QueryClient,
    s1: QueryClient,
    k: QueryKeys,
    reqs: Seq<Vec<QueryKeys>>,
)
    requires
        s0.wf(),
        invalidate_rel(s0, s1, seq![k], reqs),
        !s0.has_key(k),
    ensures
        forall|k2: QueryKeys| s1.key_state(k2) == s0.key_state(k2),
        forall|k2: QueryKeys| s1.has_key(k2) <==> s0.has_key(k2),
        forall|ks2: Seq<QueryKeys>| s1.in_flight(ks2) <==> s0.in_flight(ks2),
        forall|c2: u64, ks2: Seq<QueryKeys>|
            s1.is_subscribed(c2, ks2) <==> s0.is_subscribed(c2, ks2),
        reqs.len() == 0,
{
    let inv = seq![k];
    assert(inv.len() == 1 && inv[0] == k);
    assert forall|ks2: Seq<QueryKeys>| !refetched(s0, inv, ks2) by {
        if refetched(s0, inv, ks2) {
            let kk = choose|kk: QueryKeys| ks2.contains(kk) && inv.contains(kk);
            assert(kk == k);
            let c = choose|c: u64| s0.is_subscribed(c, ks2);
            let j = choose|j: int|
                0 <= j < s0.subs@.len() && s0.subs@[j].consumer == c && s0.subs@[j].keys@
                    == ks2;
            assert(s0.subs@[j].keys@.contains(k));
            assert(s0.has_key(k));
        }
    }
    assert(reqs.len() == 0) by {
        if reqs.len() > 0 {
            let w = reqs[0]@;
            assert(!refetched(s0, inv, w));
            assert(!(exists|a: int| 0 <= a < reqs.len() && reqs[a]@ == w));
            assert(reqs[0]@ == w);
            assert(false);
        }
    }
    assert forall|k2: QueryKeys| s1.key_state(k2) == s0.key_state(k2) by {
        assert(!(exists|ks2: Seq<QueryKeys>| refetched(s0, inv, ks2) && ks2.contains(k2)));
        if inv.contains(k2) {
            assert(k2 == k);
            assert(s0.key_state(k2) == QueryState::Idle);
            assert(marked_state(s0, inv, k2) == stale_of(QueryState::Idle));
        }
    }
}

} // verus!
