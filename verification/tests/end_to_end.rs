//! The full flow of the demonstration UI, driven against the cache: groups
//! of three visualizers sharing one key-set each, per-group refresh, and a
//! global refresh through the shared key.

use query_cache::client::QueryClient;
use query_cache::fetch::fetch_response;
use query_cache::state::QueryKeys;
use query_cache::state::QueryState;
use query_cache::state::QueryValue;

fn group_keys(id: i32) -> Vec<QueryKeys> {
    vec![QueryKeys::IdData { id }, QueryKeys::Data]
}

#[test]
fn three_groups_end_to_end() {
    let mut client = QueryClient::new();
    // Three groups of three visualizers each; within a group all three
    // share the identical key-set, so each group issues exactly one fetch.
    let mut fetches: Vec<Vec<QueryKeys>> = Vec::new();
    for id in 0..3i32 {
        for visualizer in 0..3u64 {
            let consumer = (id as u64) * 3 + visualizer;
            let started = client.subscribe(consumer, group_keys(id));
            assert_eq!(started, visualizer == 0);
            if started {
                fetches.push(group_keys(id));
            }
        }
    }
    assert_eq!(fetches.len(), 3);
    // Each fetch resolves after its simulated latency. Every key-set
    // holds the shared Data key, so each settle notifies all nine
    // consumers, not just the settling group's three.
    for keys in &fetches {
        let outcome = fetch_response(keys, "1.001s");
        let notified = client.settle(keys, outcome);
        assert_eq!(notified.len(), 9);
    }
    for id in 0..3i32 {
        let expected = format!("1.001s (data from {id})");
        assert_eq!(
            client.query_state(QueryKeys::IdData { id }),
            QueryState::Settled(Ok(QueryValue::Data(expected)))
        );
    }
    // "Refresh 1": invalidating that group's id key refetches exactly its
    // key-set, passing through Loading with the stale value visible.
    let reqs = client.invalidate_queries(&vec![QueryKeys::IdData { id: 1 }]);
    assert_eq!(reqs, vec![group_keys(1)]);
    assert_eq!(
        client.query_state(QueryKeys::IdData { id: 1 }),
        QueryState::Loading(Some(QueryValue::Data(
            "1.001s (data from 1)".to_string()
        )))
    );
    let outcome = fetch_response(&group_keys(1), "2.500s");
    client.settle(&group_keys(1), outcome);
    assert_eq!(
        client.query_state(QueryKeys::IdData { id: 1 }),
        QueryState::Settled(Ok(QueryValue::Data(
            "2.500s (data from 1)".to_string()
        )))
    );
    // "Refresh all": the shared Data key sits in every group's key-set, so
    // invalidating it refetches every visible group.
    let reqs = client.invalidate_queries(&vec![QueryKeys::Data]);
    assert_eq!(reqs.len(), 3);
    assert!(reqs.contains(&group_keys(0)));
    assert!(reqs.contains(&group_keys(1)));
    assert!(reqs.contains(&group_keys(2)));
    for id in 0..3i32 {
        assert!(matches!(
            client.query_state(QueryKeys::IdData { id }),
            QueryState::Loading(Some(_))
        ));
    }
}
