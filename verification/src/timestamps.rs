//! Instants and Unix timestamps.
use vstd::prelude::*;
use crate::text::{decimal, decimal_string};

verus! {

/// Earliest accepted reset time: 2000-01-01T00:00:00Z, in milliseconds.
pub const MIN_VALID_EPOCH_MS: i64 = 946684800000;

/// Latest accepted reset time: 2100-01-01T00:00:00Z, in milliseconds.
pub const MAX_VALID_EPOCH_MS: i64 = 4102444800000;

/// Timestamps at or above this are taken as milliseconds, below it as seconds.
pub const MILLISECONDS_THRESHOLD: i64 = 1000000000000;

/// A point in time (a clock reading or a file's modification time), as its
/// distance in nanoseconds from the Unix epoch.
#[derive(Debug, Clone, Copy, PartialEq, Eq)]
pub enum SystemInstant {
    /// This many nanoseconds after 1970-01-01T00:00:00Z.
    AfterEpoch(u128),
    /// This many nanoseconds before 1970-01-01T00:00:00Z.
    BeforeEpoch(u128),
}

impl SystemInstant {
    /// Nanoseconds since the Unix epoch, negative before it.
    pub open spec fn nanos(self) -> int {
        match self {
            SystemInstant::AfterEpoch(n) => n as int,
            SystemInstant::BeforeEpoch(n) => -(n as int),
        }
    }
}

/// `a` is strictly earlier than `b`.
pub fn instant_before(a: &SystemInstant, b: &SystemInstant) -> (r: bool)
    ensures
        r == (a.nanos() < b.nanos()),
{
    match (a, b) {
        (SystemInstant::AfterEpoch(x), SystemInstant::AfterEpoch(y)) => *x < *y,
        (SystemInstant::BeforeEpoch(x), SystemInstant::BeforeEpoch(y)) => *x > *y,
        (SystemInstant::BeforeEpoch(x), SystemInstant::AfterEpoch(y)) => *x > 0 || *y > 0,
        (SystemInstant::AfterEpoch(_), SystemInstant::BeforeEpoch(_)) => false,
    }
}

/// Whole milliseconds since the epoch of an instant not before it.
pub open spec fn epoch_millis(t: SystemInstant) -> Option<nat> {
    match t {
        SystemInstant::AfterEpoch(n) => Some((n / 1000000) as nat),
        SystemInstant::BeforeEpoch(n) => if n == 0 {
            Some(0)
        } else {
            None
        },
    }
}

/// Whole seconds since the epoch of an instant not before it.
pub open spec fn epoch_seconds(t: SystemInstant) -> Option<nat> {
    match t {
        SystemInstant::AfterEpoch(n) => Some((n / 1000000000) as nat),
        SystemInstant::BeforeEpoch(n) => if n == 0 {
            Some(0)
        } else {
            None
        },
    }
}

/// The milliseconds since the epoch, as a decimal string; `"0"` for an
/// instant before the epoch.
pub open spec fn epoch_ms_text(now: SystemInstant) -> Seq<char> {
    match epoch_millis(now) {
        Some(ms) => decimal(ms),
        None => seq!['0'],
    }
}

/// Whole milliseconds since the epoch, when that is representable.
fn millis_of(t: &SystemInstant) -> (r: Option<u128>)
    ensures
        r matches Some(v) ==> epoch_millis(*t) == Some(v as nat),
        r is None ==> epoch_millis(*t) is None,
{
    match t {
        SystemInstant::AfterEpoch(n) => Some(*n / 1000000),
        SystemInstant::BeforeEpoch(n) => if *n == 0 {
            Some(0)
        } else {
            None
        },
    }
}

/// The current time in milliseconds since the epoch, as a decimal string
/// (`"0"` when the clock reads before the epoch). `now` is the clock reading.
pub fn now_epoch_ms_string(now: &SystemInstant) -> (res: String)
    ensures
        res@ == epoch_ms_text(*now),
{
    match millis_of(now) {
        Some(ms) => decimal_string(ms),
        None => {
            let s = String::from_str("0");
            proof {
                reveal_strlit("0");
            }
            s
        },
    }
}

/// Milliseconds since the epoch as an `i64`; nothing before the epoch or when
/// the value does not fit.
pub fn epoch_ms_from_system_time(time: &SystemInstant) -> (res: Option<i64>)
    ensures
        res matches Some(v) ==> v >= 0 && epoch_millis(*time) == Some(v as nat),
        res is None ==> (epoch_millis(*time) is None || epoch_millis(*time).unwrap() > i64::MAX),
{
    match millis_of(time) {
        Some(ms) => if ms <= 9223372036854775807 {
            Some(ms as i64)
        } else {
            None
        },
        None => None,
    }
}

/// Whole seconds since the epoch, as a decimal string (`"0"` before the epoch).
pub fn epoch_seconds_string(time: &SystemInstant) -> (res: String)
    ensures
        res@ == (match epoch_seconds(*time) {
            Some(s) => decimal(s),
            None => seq!['0'],
        }),
{
    match time {
        SystemInstant::AfterEpoch(n) => decimal_string(*n / 1000000000),
        SystemInstant::BeforeEpoch(n) => {
            if *n == 0 {
                decimal_string(0)
            } else {
                let s = String::from_str("0");
                proof {
                    reveal_strlit("0");
                }
                s
            }
        },
    }
}

/// The outcome of normalizing a reset timestamp: a timestamp that is not
/// positive is invalid; one below 10^12 is in seconds and is scaled to
/// milliseconds; the result must fall within [MIN_VALID_EPOCH_MS, MAX_VALID_EPOCH_MS].
pub open spec fn normalized_timestamp(timestamp: int) -> Result<int, Seq<char>> {
    if timestamp <= 0 {
        Err("Invalid reset timestamp"@)
    } else {
        let ms = if timestamp >= MILLISECONDS_THRESHOLD {
            timestamp
        } else {
            timestamp * 1000
        };
        if ms < MIN_VALID_EPOCH_MS || ms > MAX_VALID_EPOCH_MS {
            Err("Reset timestamp out of valid range"@)
        } else {
            Ok(ms)
        }
    }
}

/// Brings a reset timestamp given in seconds or milliseconds to milliseconds,
/// checking that it lies between 2000 and 2100.
pub fn normalize_unix_timestamp_ms(timestamp: i64) -> (res: Result<i64, String>)
    ensures
        res matches Ok(ms) ==> normalized_timestamp(timestamp as int) == Ok::<int, Seq<char>>(
            ms as int,
        ),
        res matches Err(e) ==> normalized_timestamp(timestamp as int) == Err::<int, Seq<char>>(e@),
        res matches Ok(ms) ==> MIN_VALID_EPOCH_MS <= ms <= MAX_VALID_EPOCH_MS,
{
    if timestamp <= 0 {
        return Err(String::from_str("Invalid reset timestamp"));
    }
    let ms = if timestamp >= MILLISECONDS_THRESHOLD {
        timestamp
    } else {
        timestamp * 1000
    };
    if ms < MIN_VALID_EPOCH_MS || ms > MAX_VALID_EPOCH_MS {
        return Err(String::from_str("Reset timestamp out of valid range"));
    }
    Ok(ms)
}

/// A normalized timestamp of at least 10^12 milliseconds normalizes to itself.
/// (Results below 10^12, from 2000-01-01 to 2001-09-09, would be read as
/// seconds a second time, so they are left out.)
pub proof fn law_normalize_idempotent(timestamp: int, ms: int)
    requires
        normalized_timestamp(timestamp) == Ok::<int, Seq<char>>(ms),
        ms >= MILLISECONDS_THRESHOLD,
    ensures
        normalized_timestamp(ms) == Ok::<int, Seq<char>>(ms),
{
}

/// A time given in seconds and the same time given in milliseconds normalize
/// alike, for times from 2001-09-09 on (earlier ones in milliseconds fall
/// below 10^12 and would be read as seconds).
pub proof fn law_seconds_and_millis_agree(seconds: int)
    requires
        seconds * 1000 >= MILLISECONDS_THRESHOLD,
        seconds < MILLISECONDS_THRESHOLD,
    ensures
        normalized_timestamp(seconds) == normalized_timestamp(seconds * 1000),
{
}

/// Every accepted timestamp lies between 2000 and 2100.
pub proof fn law_normalized_in_range(timestamp: int, ms: int)
    requires
        normalized_timestamp(timestamp) == Ok::<int, Seq<char>>(ms),
    ensures
        MIN_VALID_EPOCH_MS <= ms <= MAX_VALID_EPOCH_MS,
{
}

} // verus!
