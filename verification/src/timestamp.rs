//! Timestamps that may be given in seconds or in milliseconds.

use vstd::prelude::*;

verus! {

/// The magnitude of `v`.
pub open spec fn magnitude(v: int) -> int {
    if v < 0 {
        -v
    } else {
        v
    }
}

/// How many decimal digits the magnitude of `v` has; zero has one digit.
pub open spec fn decimal_digits(v: int) -> nat
    decreases magnitude(v),
{
    if magnitude(v) < 10 {
        1
    } else {
        1 + decimal_digits(magnitude(v) / 10)
    }
}

/// A timestamp brought to milliseconds: one is added, and a value that then
/// has fewer than ten decimal digits is taken to count seconds and is
/// multiplied by a thousand.
pub open spec fn normalized(ts: int) -> int {
    let bumped = ts + 1;
    if decimal_digits(bumped) < 10 {
        bumped * 1000
    } else {
        bumped
    }
}

/// A value has fewer than ten decimal digits exactly when its magnitude is
/// below one thousand million.
pub proof fn lemma_fewer_than_ten_digits(v: int)
    ensures
        decimal_digits(v) < 10 <==> -1_000_000_000 < v < 1_000_000_000,
{
    let m0: int = magnitude(v);
    let m1: int = m0 / 10;
    let m2: int = m1 / 10;
    let m3: int = m2 / 10;
    let m4: int = m3 / 10;
    let m5: int = m4 / 10;
    let m6: int = m5 / 10;
    let m7: int = m6 / 10;
    let m8: int = m7 / 10;
    let m9: int = m8 / 10;
    assert(decimal_digits(v) == if m0 < 10 { 1 } else { 1 + decimal_digits(m1) });
    assert(decimal_digits(m1) == if m1 < 10 { 1 } else { 1 + decimal_digits(m2) });
    assert(decimal_digits(m2) == if m2 < 10 { 1 } else { 1 + decimal_digits(m3) });
    assert(decimal_digits(m3) == if m3 < 10 { 1 } else { 1 + decimal_digits(m4) });
    assert(decimal_digits(m4) == if m4 < 10 { 1 } else { 1 + decimal_digits(m5) });
    assert(decimal_digits(m5) == if m5 < 10 { 1 } else { 1 + decimal_digits(m6) });
    assert(decimal_digits(m6) == if m6 < 10 { 1 } else { 1 + decimal_digits(m7) });
    assert(decimal_digits(m7) == if m7 < 10 { 1 } else { 1 + decimal_digits(m8) });
    assert(decimal_digits(m8) == if m8 < 10 { 1 } else { 1 + decimal_digits(m9) });
    assert(decimal_digits(m9) >= 1);
}

/// `normalized` of any `i64`, in a type wide enough to hold it.
pub fn normalized_wide(ts: i64) -> (r: i128)
    ensures
        r == normalized(ts as int),
{
    let bumped: i128 = ts as i128 + 1;
    proof {
        lemma_fewer_than_ten_digits(bumped as int);
    }
    if -1_000_000_000 < bumped && bumped < 1_000_000_000 {
        bumped * 1000
    } else {
        bumped
    }
}

/// Brings a timestamp to milliseconds. The largest `i64` is left out: one
/// more than it has no `i64`.
pub fn check_timestamp(last_sync: i64) -> (r: i64)
    requires
        last_sync < i64::MAX,
    ensures
        r == normalized(last_sync as int),
{
    let bumped: i64 = last_sync + 1;
    proof {
        lemma_fewer_than_ten_digits(bumped as int);
    }
    if -1_000_000_000 < bumped && bumped < 1_000_000_000 {
        bumped * 1000
    } else {
        bumped
    }
}

} // verus!
