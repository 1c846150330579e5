use query_cache::client::QueryClient;
use query_cache::state::FetchError;
use query_cache::state::QueryKeys;
use query_cache::state::QueryState;
use query_cache::state::QueryValue;

fn group_keys(id: i32) -> Vec<QueryKeys> {
    vec![QueryKeys::IdData { id }, QueryKeys::Data]
}

fn ok_data(s: &str) -> Result<QueryValue, FetchError> {
    Ok(QueryValue::Data(s.to_string()))
}

#[test]
fn dedup_concurrent_subscribes() {
    let mut client = QueryClient::new();
    let started1 = client.subscribe(1, group_keys(0));
    let started2 = client.subscribe(2, group_keys(0));
    let started3 = client.subscribe(3, group_keys(0));
    assert!(started1);
    assert!(!started2);
    assert!(!started3);
}

#[test]
fn atomic_fanout_settle() {
    let mut client = QueryClient::new();
    assert!(client.subscribe(1, group_keys(4)));
    assert!(!client.subscribe(2, group_keys(4)));
    let notified = client.settle(&group_keys(4), ok_data("payload"));
    assert_eq!(
        client.query_state(QueryKeys::IdData { id: 4 }),
        QueryState::Settled(ok_data("payload"))
    );
    assert_eq!(
        client.query_state(QueryKeys::Data),
        QueryState::Settled(ok_data("payload"))
    );
    assert!(notified.contains(&1));
    assert!(notified.contains(&2));
    assert_eq!(notified.len(), 2);
}

#[test]
fn stale_while_revalidating() {
    let mut client = QueryClient::new();
    let keys = group_keys(7);
    assert!(client.subscribe(1, keys.clone()));
    client.settle(&keys, ok_data("first"));
    let reqs = client.invalidate_queries(&vec![QueryKeys::IdData { id: 7 }]);
    assert_eq!(reqs, vec![keys.clone()]);
    assert_eq!(
        client.query_state(QueryKeys::IdData { id: 7 }),
        QueryState::Loading(Some(QueryValue::Data("first".to_string())))
    );
    client.settle(&keys, ok_data("second"));
    assert_eq!(
        client.query_state(QueryKeys::IdData { id: 7 }),
        QueryState::Settled(ok_data("second"))
    );
}

#[test]
fn invalidate_unknown_key_is_noop() {
    let mut client = QueryClient::new();
    let reqs = client.invalidate_queries(&vec![QueryKeys::IdData { id: 99 }]);
    assert!(reqs.is_empty());
    assert_eq!(
        client.query_state(QueryKeys::IdData { id: 99 }),
        QueryState::Idle
    );
}

#[test]
fn invalidate_without_subscriber_leaves_stale() {
    let mut client = QueryClient::new();
    let keys = group_keys(2);
    assert!(client.subscribe(1, keys.clone()));
    client.settle(&keys, ok_data("old"));
    client.unsubscribe(1, &keys);
    let reqs = client.invalidate_queries(&vec![QueryKeys::Data]);
    assert!(reqs.is_empty());
    assert_eq!(
        client.query_state(QueryKeys::Data),
        QueryState::Stale(ok_data("old"))
    );
    // The next subscription revalidates lazily, stale value carried along.
    assert!(client.subscribe(5, keys.clone()));
    assert_eq!(
        client.query_state(QueryKeys::Data),
        QueryState::Loading(Some(QueryValue::Data("old".to_string())))
    );
}

#[test]
fn idempotent_subscribe() {
    let mut client = QueryClient::new();
    let keys = group_keys(3);
    assert!(client.subscribe(1, keys.clone()));
    assert!(!client.subscribe(1, keys.clone()));
    let notified = client.settle(&keys, ok_data("x"));
    // one listener entry: the consumer is notified exactly once
    assert_eq!(notified, vec![1]);
}

#[test]
fn settle_after_cancel_is_discarded() {
    let mut client = QueryClient::new();
    let keys = group_keys(6);
    assert!(client.subscribe(1, keys.clone()));
    client.cancel_fetch(&keys);
    let notified = client.settle(&keys, ok_data("late"));
    assert!(notified.is_empty());
    // cancellation discards the outcome without touching key state
    assert_eq!(
        client.query_state(QueryKeys::IdData { id: 6 }),
        QueryState::Loading(None)
    );
}

#[test]
fn settle_notifies_nobody_after_unsubscribe() {
    let mut client = QueryClient::new();
    let keys = group_keys(8);
    assert!(client.subscribe(1, keys.clone()));
    client.unsubscribe(1, &keys);
    let notified = client.settle(&keys, ok_data("x"));
    assert!(notified.is_empty());
    // the outcome is still cached for future subscribers
    assert_eq!(
        client.query_state(QueryKeys::Data),
        QueryState::Settled(ok_data("x"))
    );
}

#[test]
fn get_or_create_registers_idle() {
    let mut client = QueryClient::new();
    assert_eq!(
        client.get_or_create(QueryKeys::IdData { id: 1 }),
        QueryState::Idle
    );
    assert_eq!(
        client.get_or_create(QueryKeys::IdData { id: 1 }),
        QueryState::Idle
    );
    assert_eq!(
        client.query_state(QueryKeys::IdData { id: 1 }),
        QueryState::Idle
    );
}

#[test]
fn failed_fetch_settles_with_error() {
    let mut client = QueryClient::new();
    let keys = group_keys(9);
    assert!(client.subscribe(1, keys.clone()));
    client.settle(&keys, Err(FetchError::Remote("boom".to_string())));
    assert_eq!(
        client.query_state(QueryKeys::IdData { id: 9 }),
        QueryState::Settled(Err(FetchError::Remote("boom".to_string())))
    );
    // an error outcome is not carried as a stale value
    let _ = client.invalidate_queries(&vec![QueryKeys::IdData { id: 9 }]);
    assert_eq!(
        client.query_state(QueryKeys::IdData { id: 9 }),
        QueryState::Loading(None)
    );
}

#[test]
fn fresh_subscription_loads_without_placeholder() {
    let mut client = QueryClient::new();
    assert!(client.subscribe(1, group_keys(0)));
    assert_eq!(
        client.query_state(QueryKeys::IdData { id: 0 }),
        QueryState::Loading(None)
    );
}

#[test]
fn error_messages() {
    assert_eq!(FetchError::MissingKeys.message(), "Missing query keys");
    assert_eq!(
        FetchError::Remote("went wrong".to_string()).message(),
        "went wrong"
    );
}
