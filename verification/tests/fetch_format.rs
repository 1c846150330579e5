use query_cache::fetch::fetch_response;
use query_cache::state::FetchError;
use query_cache::state::QueryKeys;
use query_cache::state::QueryValue;

fn group_keys(id: i32) -> Vec<QueryKeys> {
    vec![QueryKeys::IdData { id }, QueryKeys::Data]
}

#[test]
fn response_formats_stamp_and_id() {
    assert_eq!(
        fetch_response(&group_keys(5), "1.002003s"),
        Ok(QueryValue::Data("1.002003s (data from 5)".to_string()))
    );
}

#[test]
fn response_formats_zero_and_large_ids() {
    assert_eq!(
        fetch_response(&group_keys(0), "t"),
        Ok(QueryValue::Data("t (data from 0)".to_string()))
    );
    assert_eq!(
        fetch_response(&group_keys(2147483647), "t"),
        Ok(QueryValue::Data("t (data from 2147483647)".to_string()))
    );
}

#[test]
fn response_formats_negative_ids() {
    assert_eq!(
        fetch_response(&group_keys(-12), "t"),
        Ok(QueryValue::Data("t (data from -12)".to_string()))
    );
    assert_eq!(
        fetch_response(&group_keys(-2147483648), "t"),
        Ok(QueryValue::Data("t (data from -2147483648)".to_string()))
    );
}

#[test]
fn response_rejects_empty_key_set() {
    assert_eq!(
        fetch_response(&Vec::new(), "t"),
        Err(FetchError::MissingKeys)
    );
}

#[test]
fn response_rejects_key_set_without_id() {
    assert_eq!(
        fetch_response(&vec![QueryKeys::Data, QueryKeys::IdData { id: 1 }], "t"),
        Err(FetchError::MissingKeys)
    );
}
