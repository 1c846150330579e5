//! The response computation of the fetch endpoint: everything the remote
//! side decides, given the key-set and a clock reading supplied by the
//! host. The host only sleeps, reads the clock, and moves bytes.

use vstd::prelude::*;
use vstd::string::StringExecFns;

use crate::state::FetchError;
use crate::state::QueryKeys;
use crate::state::QueryResult;
use crate::state::QueryValue;

verus! {

/// The decimal digit character for `d`.
pub open spec fn digit_char(d: int) -> char {
    if d == 0 {
        '0'
    } else if d == 1 {
        '1'
    } else if d == 2 {
        '2'
    } else if d == 3 {
        '3'
    } else if d == 4 {
        '4'
    } else if d == 5 {
        '5'
    } else if d == 6 {
        '6'
    } else if d == 7 {
        '7'
    } else if d == 8 {
        '8'
    } else {
        '9'
    }
}

/// The decimal digits of `n`, most significant first.
pub open spec fn dec_digits(n: nat) -> Seq<char>
    decreases n,
{
    if n < 10 {
        seq![digit_char(n as int)]
    } else {
        dec_digits(n / 10).push(digit_char((n % 10) as int))
    }
}

/// The decimal rendering of `n`: its digits, with a leading minus sign
/// when `n` is negative.
pub open spec fn int_digits(n: int) -> Seq<char> {
    if n < 0 {
        seq!['-'] + dec_digits((-n) as nat)
    } else {
        dec_digits(n as nat)
    }
}

/// The one-character string for the digit `d`.
fn digit_str(d: u64) -> (r: &'static str)
    requires
        d < 10,
    ensures
        r@ == seq![digit_char(d as int)],
{
    let r: &'static str = match d {
        0 => "0",
        1 => "1",
        2 => "2",
        3 => "3",
        4 => "4",
        5 => "5",
        6 => "6",
        7 => "7",
        8 => "8",
        _ => "9",
    };
    proof {
        reveal_strlit("0");
        reveal_strlit("1");
        reveal_strlit("2");
        reveal_strlit("3");
        reveal_strlit("4");
        reveal_strlit("5");
        reveal_strlit("6");
        reveal_strlit("7");
        reveal_strlit("8");
        reveal_strlit("9");
        assert(r@ =~= seq![digit_char(d as int)]);
    }
    r
}

/// Append the decimal digits of `n` to `s`.
fn push_digits(s: &mut String, n: u64)
    ensures
        final(s)@ == old(s)@ + dec_digits(n as nat),
    decreases n,
{
    if n < 10 {
        s.append(digit_str(n));
    } else {
        push_digits(s, n / 10);
        s.append(digit_str(n % 10));
        proof {
            assert(dec_digits(n as nat) == dec_digits((n as nat) / 10).push(
                digit_char(((n as nat) % 10) as int),
            ));
            assert(s@ =~= old(s)@ + dec_digits(n as nat));
        }
    }
}

/// Append the decimal rendering of `id` to `s`.
fn push_i32(s: &mut String, id: i32)
    ensures
        final(s)@ == old(s)@ + int_digits(id as int),
{
    let wide: i64 = id as i64;
    if wide < 0 {
        s.append("-");
        push_digits(s, (-wide) as u64);
        proof {
            reveal_strlit("-");
            assert("-"@ =~= seq!['-']);
            assert(s@ =~= old(s)@ + int_digits(id as int));
        }
    } else {
        push_digits(s, wide as u64);
    }
}

/// The outcome the fetch endpoint computes for the key-set `keys`, given
/// the clock reading `stamp`: when the first key carries an id, the value
/// "<stamp> (data from <id>)"; otherwise the missing-keys error.
pub fn fetch_response(keys: &Vec<QueryKeys>, stamp: &str) -> (r: QueryResult)
    ensures
        match r {
            Result::Ok(v) => keys@.len() > 0 && (keys@[0] matches QueryKeys::IdData { id } && v@
                == stamp@ + " (data from "@ + int_digits(id as int) + ")"@),
            Result::Err(e) => !(keys@.len() > 0 && keys@[0] is IdData) && e
                == FetchError::MissingKeys,
        },
{
    if keys.len() > 0 {
        match keys[0] {
            QueryKeys::IdData { id } => {
                let mut s = String::from_str(stamp);
                s.append(" (data from ");
                push_i32(&mut s, id);
                s.append(")");
                Result::Ok(QueryValue::Data(s))
            },
            QueryKeys::Data => Result::Err(FetchError::MissingKeys),
        }
    } else {
        Result::Err(FetchError::MissingKeys)
    }
}

} // verus!
