//! The data carried by the cache: query keys, fetched values, fetch errors,
//! and the per-key lifecycle state.

use vstd::prelude::*;
use vstd::string::StringExecFns;

verus! {

/// Identifier for a cacheable, fetchable unit of data. Two keys name the
/// same cache entry exactly when they are structurally equal.
#[derive(Debug, Clone, Copy, PartialEq, Eq, Hash, Structural)]
pub enum QueryKeys {
    Data,
    IdData { id: i32 },
}

/// A successfully fetched value.
#[derive(Debug, PartialEq, Eq)]
pub enum QueryValue {
    Data(String),
}

impl View for QueryValue {
    type V = Seq<char>;

    open spec fn view(&self) -> Seq<char> {
        match self {
            QueryValue::Data(s) => s@,
        }
    }
}

/// Error outcome of a fetch attempt. A failed fetch is a normal terminal
/// state for a query, not a cache fault.
#[derive(Debug, PartialEq, Eq)]
pub enum FetchError {
    /// The fetch was invoked with an empty or malformed key-set.
    MissingKeys,
    /// The fetch operation itself reported an error.
    Remote(String),
}

/// Outcome of exactly one fetch attempt.
pub type QueryResult = Result<QueryValue, FetchError>;

/// Per-key lifecycle state.
///
/// `Loading` retains the last known value, if any, so that consumers can
/// keep rendering stale data while a revalidation is in flight. `Stale` is
/// a settled outcome that has been invalidated: it must be revalidated on
/// the next subscription, but its value stays readable until then.
#[derive(Debug, PartialEq, Eq)]
pub enum QueryState {
    Idle,
    Loading(Option<QueryValue>),
    Settled(QueryResult),
    Stale(QueryResult),
}

/// Whether a key in this state wants a fetch when it is next observed.
pub open spec fn needs_fetch(s: QueryState) -> bool {
    match s {
        QueryState::Idle => true,
        QueryState::Stale(_) => true,
        _ => false,
    }
}

/// The last known value of a key in this state, if any.
pub open spec fn prev_of(s: QueryState) -> Option<QueryValue> {
    match s {
        QueryState::Idle => None,
        QueryState::Loading(p) => p,
        QueryState::Settled(r) => match r {
            Result::Ok(v) => Some(v),
            Result::Err(_) => None,
        },
        QueryState::Stale(r) => match r {
            Result::Ok(v) => Some(v),
            Result::Err(_) => None,
        },
    }
}

/// The state a key moves to when a fetch covering it starts: loading, with
/// the previous value carried forward for stale-while-revalidate display.
pub open spec fn loading_of(s: QueryState) -> QueryState {
    QueryState::Loading(prev_of(s))
}

/// Copy of a value, equal to the original.
pub fn dup_value(v: &QueryValue) -> (r: QueryValue)
    ensures
        r == *v,
{
    match v {
        QueryValue::Data(s) => QueryValue::Data(s.clone()),
    }
}

/// Copy of an error, equal to the original.
pub fn dup_error(e: &FetchError) -> (r: FetchError)
    ensures
        r == *e,
{
    match e {
        FetchError::MissingKeys => FetchError::MissingKeys,
        FetchError::Remote(s) => FetchError::Remote(s.clone()),
    }
}

/// Copy of a fetch outcome, equal to the original.
pub fn dup_result(r: &QueryResult) -> (d: QueryResult)
    ensures
        d == *r,
{
    match r {
        Result::Ok(v) => Result::Ok(dup_value(v)),
        Result::Err(e) => Result::Err(dup_error(e)),
    }
}

/// Copy of a lifecycle state, equal to the original.
pub fn dup_state(s: &QueryState) -> (d: QueryState)
    ensures
        d == *s,
{
    match s {
        QueryState::Idle => QueryState::Idle,
        QueryState::Loading(p) => QueryState::Loading(
            match p {
                Some(v) => Some(dup_value(v)),
                None => None,
            },
        ),
        QueryState::Settled(r) => QueryState::Settled(dup_result(r)),
        QueryState::Stale(r) => QueryState::Stale(dup_result(r)),
    }
}

impl FetchError {
    /// Human-readable description of the error.
    pub fn message(&self) -> (r: String)
        ensures
            self is MissingKeys ==> r@ == "Missing query keys"@,
            self matches FetchError::Remote(m) ==> r@ == m@,
    {
        match self {
            FetchError::MissingKeys => String::from_str("Missing query keys"),
            FetchError::Remote(m) => m.clone(),
        }
    }
}

} // verus!
