//! Rate limits as the usage service reports them: each window's reset time
//! and length, which window is the five-hour one and which the weekly one,
//! and the optional code-review window. How much of a window is left is a
//! floating-point figure that the caller works out; it reaches these
//! functions as an opaque `P` (or the error it gave).
use vstd::prelude::*;
use crate::json::{JsonValue, json_get, json_get_int, json_get_str, get, get_int, get_str};
use crate::text::{chars_of, contains_seq, contains_chars};
use crate::timestamps::{
    MAX_VALID_EPOCH_MS,
    MIN_VALID_EPOCH_MS,
    SystemInstant,
    normalized_timestamp,
    normalize_unix_timestamp_ms,
    epoch_millis,
    epoch_ms_from_system_time,
};

verus! {

/// `str::to_lowercase` (Unicode lowercase mapping) of `s`.
pub uninterp spec fn lowercase(s: Seq<char>) -> Seq<char>;

/// `str::to_lowercase` (std): the string's Unicode lowercase mapping.
#[verifier::external_body]
fn to_lowercase(s: &str) -> (res: String)
    ensures
        res@ == lowercase(s@),
{
    s.to_lowercase()
}

/// One window of a rate limit: how much is left (`P`), when it resets (in
/// milliseconds since the epoch), and its length in minutes when given.
#[derive(Debug, Clone, PartialEq)]
pub struct ParsedLimit<P> {
    pub percent_left: P,
    pub reset_time_ms: i64,
    pub window_minutes: Option<u32>,
}

/// The two kinds of windows.
#[derive(Debug, Clone, Copy, PartialEq, Eq)]
pub enum LimitKind {
    FiveHour,
    Weekly,
}

/// `x` clamped into the range of `i64` (saturating arithmetic).
pub open spec fn saturate(x: int) -> int {
    if x < i64::MIN {
        i64::MIN as int
    } else if x > i64::MAX {
        i64::MAX as int
    } else {
        x
    }
}

/// Rust's `/` on integers: rounds toward zero.
pub open spec fn div_toward_zero(x: int, d: int) -> int {
    if x >= 0 {
        x / d
    } else {
        -((-x) / d)
    }
}

/// The milliseconds since the epoch of the clock reading, or 0.
pub open spec fn now_millis(now: SystemInstant) -> int {
    match epoch_millis(now) {
        Some(ms) => if ms <= i64::MAX {
            ms as int
        } else {
            0
        },
        None => 0,
    }
}

/// `now + seconds * 1000` in saturating `i64` arithmetic.
pub open spec fn after_seconds(now_ms: int, seconds: int) -> int {
    saturate(now_ms + saturate(seconds * 1000))
}

/// When a window resets, as given: the first of `reset_at_ms`, `resets_at_ms`,
/// `reset_time_ms`, `reset_at`, `resets_at`, `reset` that reads as an
/// integer; else the first of `reset_in_seconds`, `reset_after_seconds`,
/// `reset_in` that does, counted from now.
pub open spec fn raw_reset_time<F>(v: JsonValue<F>, now_ms: int) -> Option<int> {
    if json_get_int(v, "reset_at_ms"@) is Some {
        json_get_int(v, "reset_at_ms"@)
    } else if json_get_int(v, "resets_at_ms"@) is Some {
        json_get_int(v, "resets_at_ms"@)
    } else if json_get_int(v, "reset_time_ms"@) is Some {
        json_get_int(v, "reset_time_ms"@)
    } else if json_get_int(v, "reset_at"@) is Some {
        json_get_int(v, "reset_at"@)
    } else if json_get_int(v, "resets_at"@) is Some {
        json_get_int(v, "resets_at"@)
    } else if json_get_int(v, "reset"@) is Some {
        json_get_int(v, "reset"@)
    } else if json_get_int(v, "reset_in_seconds"@) is Some {
        Some(after_seconds(now_ms, json_get_int(v, "reset_in_seconds"@)->0))
    } else if json_get_int(v, "reset_after_seconds"@) is Some {
        Some(after_seconds(now_ms, json_get_int(v, "reset_after_seconds"@)->0))
    } else if json_get_int(v, "reset_in"@) is Some {
        Some(after_seconds(now_ms, json_get_int(v, "reset_in"@)->0))
    } else {
        None
    }
}

/// `Some(x)` when `x` fits in `u32`.
pub open spec fn as_u32(x: Option<int>) -> Option<int> {
    match x {
        Some(v) => if 0 <= v <= u32::MAX {
            Some(v)
        } else {
            None
        },
        None => None,
    }
}

/// `x / 60`, rounded toward zero, when `x` is given.
pub open spec fn minutes_of(x: Option<int>) -> Option<int> {
    match x {
        Some(v) => Some(div_toward_zero(v, 60)),
        None => None,
    }
}

/// A window's length in minutes: `window_minutes`, else `window_seconds`,
/// else `limit_window_seconds` converted to minutes; each only when it fits
/// in `u32`.
pub open spec fn window_minutes_of<F>(v: JsonValue<F>) -> Option<int> {
    if as_u32(json_get_int(v, "window_minutes"@)) is Some {
        as_u32(json_get_int(v, "window_minutes"@))
    } else if as_u32(minutes_of(json_get_int(v, "window_seconds"@))) is Some {
        as_u32(minutes_of(json_get_int(v, "window_seconds"@)))
    } else {
        as_u32(minutes_of(json_get_int(v, "limit_window_seconds"@)))
    }
}

/// The view of an `Option<u32>`.
pub open spec fn ou32(o: Option<u32>) -> Option<int> {
    match o {
        Some(x) => Some(x as int),
        None => None,
    }
}

/// The outcome of parsing one window: first the error from working out how
/// much is left, then a missing reset time, then an invalid one.
pub open spec fn entry_outcome<F, P>(v: JsonValue<F>, percent: Result<P, Seq<char>>, now_ms: int) -> Result<
    ParsedLimit<P>,
    Seq<char>,
> {
    match percent {
        Err(e) => Err(e),
        Ok(p) => match raw_reset_time(v, now_ms) {
            None => Err("Missing reset timestamp"@),
            Some(raw) => match normalized_timestamp(raw) {
                Err(e) => Err(e),
                Ok(ms) => Ok(
                    ParsedLimit {
                        percent_left: p,
                        reset_time_ms: ms as i64,
                        window_minutes: match window_minutes_of(v) {
                            Some(m) => Some(m as u32),
                            None => None,
                        },
                    },
                ),
            },
        },
    }
}

/// The view of a `Result<P, String>`.
pub open spec fn pview<P>(r: Result<P, String>) -> Result<P, Seq<char>> {
    match r {
        Ok(p) => Ok(p),
        Err(e) => Err(e@),
    }
}

/// The name that tells a window's kind: its `type`, else its `name`.
pub open spec fn kind_label<F>(v: JsonValue<F>) -> Option<Seq<char>> {
    match json_get_str(v, "type"@) {
        Some(t) => Some(t),
        None => json_get_str(v, "name"@),
    }
}

/// A window's kind: by its (lowercased) name when that mentions `week`, or
/// `five`, `5h` or `hour`; else by its length: at most six hours is the
/// five-hour window, at least a week the weekly one.
pub open spec fn limit_kind<F>(v: JsonValue<F>, window_minutes: Option<int>) -> Option<LimitKind> {
    kind_by(
        match kind_label(v) {
            Some(l) => Some(lowercase(l)),
            None => None,
        },
        window_minutes,
    )
}

/// A window's kind from its lowercased name, if it has one, and its length:
/// the name decides when it mentions `week`, or `five`, `5h` or `hour`;
/// otherwise at most six hours is the five-hour window, at least a week the
/// weekly one.
pub open spec fn kind_by(lower: Option<Seq<char>>, window_minutes: Option<int>) -> Option<LimitKind> {
    let by_name = match lower {
        Some(l) => if contains_seq(l, "week"@) {
            Some(LimitKind::Weekly)
        } else if contains_seq(l, "five"@) || contains_seq(l, "5h"@) || contains_seq(l, "hour"@) {
            Some(LimitKind::FiveHour)
        } else {
            None
        },
        None => None,
    };
    match by_name {
        Some(k) => Some(k),
        None => match window_minutes {
            Some(m) => if m <= 360 {
                Some(LimitKind::FiveHour)
            } else if m >= 10080 {
                Some(LimitKind::Weekly)
            } else {
                None
            },
            None => None,
        },
    }
}

/// Where the windows of a rate limit are: a `primary`/`secondary` pair, a
/// `primary_window`/`secondary_window` pair, or a list (`limits`, or the
/// value itself when it is a list).
pub open spec fn candidates<F>(v: JsonValue<F>) -> Result<(bool, Seq<JsonValue<F>>), Seq<char>> {
    if json_get(v, "primary"@) is Some && json_get(v, "secondary"@) is Some {
        Ok((true, seq![json_get(v, "primary"@)->0, json_get(v, "secondary"@)->0]))
    } else if json_get(v, "primary_window"@) is Some && json_get(v, "secondary_window"@) is Some {
        Ok((true, seq![json_get(v, "primary_window"@)->0, json_get(v, "secondary_window"@)->0]))
    } else {
        match json_get(v, "limits"@) {
            Some(JsonValue::Array(items)) => Ok((false, items@)),
            _ => match v {
                JsonValue::Array(items) => Ok((false, items@)),
                _ => Err("Missing rate_limit entries"@),
            },
        }
    }
}

/// One step through a list of windows: a window of known kind takes that
/// slot; one of unknown kind takes the five-hour slot, else the weekly slot,
/// while they are empty.
pub open spec fn assign<P>(
    five: Option<ParsedLimit<P>>,
    weekly: Option<ParsedLimit<P>>,
    parsed: ParsedLimit<P>,
    kind: Option<LimitKind>,
) -> (Option<ParsedLimit<P>>, Option<ParsedLimit<P>>) {
    match kind {
        Some(LimitKind::FiveHour) => (Some(parsed), weekly),
        Some(LimitKind::Weekly) => (five, Some(parsed)),
        None => if five is None {
            (Some(parsed), weekly)
        } else if weekly is None {
            (five, Some(parsed))
        } else {
            (five, weekly)
        },
    }
}

/// The five-hour and weekly slots after the first `n` windows of a list, or
/// the error of the first window that fails.
pub open spec fn list_outcome<F, P>(
    es: Seq<JsonValue<F>>,
    ps: Seq<Result<P, Seq<char>>>,
    now_ms: int,
    n: nat,
) -> Result<(Option<ParsedLimit<P>>, Option<ParsedLimit<P>>), Seq<char>>
    decreases n,
{
    if n == 0 {
        Ok((None, None))
    } else {
        match list_outcome(es, ps, now_ms, (n - 1) as nat) {
            Err(e) => Err(e),
            Ok((five, weekly)) => match entry_outcome(es[n - 1], ps[n - 1], now_ms) {
                Err(e) => Err(e),
                Ok(pl) => Ok(assign(five, weekly, pl, limit_kind(es[n - 1], ou32(pl.window_minutes)))),
            },
        }
    }
}

/// The five-hour and weekly windows of a rate limit. `es` are its candidate
/// windows (see [`candidates`]), `paired` tells whether they are a fixed pair,
/// and `ps[i]` is how much is left of window `i`.
pub open spec fn rate_limits_outcome<F, P>(
    paired: bool,
    es: Seq<JsonValue<F>>,
    ps: Seq<Result<P, Seq<char>>>,
    now_ms: int,
) -> Result<(ParsedLimit<P>, ParsedLimit<P>), Seq<char>> {
    if paired {
        match entry_outcome(es[0], ps[0], now_ms) {
            Err(e) => Err(e),
            Ok(five) => match entry_outcome(es[1], ps[1], now_ms) {
                Err(e) => Err(e),
                Ok(weekly) => Ok((five, weekly)),
            },
        }
    } else {
        match list_outcome(es, ps, now_ms, es.len()) {
            Err(e) => Err(e),
            Ok((Some(five), Some(weekly))) => Ok((five, weekly)),
            Ok(_) => Err("Missing primary/weekly rate_limit data"@),
        }
    }
}

proof fn lemma_list_err_sticks<F, P>(
    es: Seq<JsonValue<F>>,
    ps: Seq<Result<P, Seq<char>>>,
    now_ms: int,
    k: nat,
    m: nat,
    e: Seq<char>,
)
    requires
        k <= m,
        list_outcome(es, ps, now_ms, k) == Err::<
            (Option<ParsedLimit<P>>, Option<ParsedLimit<P>>),
            Seq<char>,
        >(e),
    ensures
        list_outcome(es, ps, now_ms, m) == Err::<
            (Option<ParsedLimit<P>>, Option<ParsedLimit<P>>),
            Seq<char>,
        >(e),
    decreases m - k,
{
    if k < m {
        lemma_list_err_sticks(es, ps, now_ms, k, (m - 1) as nat, e);
    }
}

fn sat_i64(x: i128) -> (r: i64)
    ensures
        r as int == saturate(x as int),
{
    if x < -9223372036854775808 {
        -9223372036854775808
    } else if x > 9223372036854775807 {
        9223372036854775807
    } else {
        x as i64
    }
}

fn clock_millis(now: &SystemInstant) -> (r: i64)
    ensures
        r as int == now_millis(*now),
{
    match epoch_ms_from_system_time(now) {
        Some(ms) => ms,
        None => 0,
    }
}

/// When a window resets (see [`raw_reset_time`]), counting relative times
/// from the clock reading `now`.
pub fn extract_reset_time_ms<F>(value: &JsonValue<F>, now: &SystemInstant) -> (res: Option<i64>)
    ensures
        match (res, raw_reset_time(*value, now_millis(*now))) {
            (Some(x), Some(y)) => x as int == y,
            (None, None) => true,
            _ => false,
        },
{
    if let Some(x) = get_int(value, "reset_at_ms") {
        return Some(x);
    }
    if let Some(x) = get_int(value, "resets_at_ms") {
        return Some(x);
    }
    if let Some(x) = get_int(value, "reset_time_ms") {
        return Some(x);
    }
    if let Some(x) = get_int(value, "reset_at") {
        return Some(x);
    }
    if let Some(x) = get_int(value, "resets_at") {
        return Some(x);
    }
    if let Some(x) = get_int(value, "reset") {
        return Some(x);
    }
    let now_ms = clock_millis(now);
    if let Some(s) = get_int(value, "reset_in_seconds") {
        return Some(sat_i64(now_ms as i128 + sat_i64(s as i128 * 1000) as i128));
    }
    if let Some(s) = get_int(value, "reset_after_seconds") {
        return Some(sat_i64(now_ms as i128 + sat_i64(s as i128 * 1000) as i128));
    }
    if let Some(s) = get_int(value, "reset_in") {
        return Some(sat_i64(now_ms as i128 + sat_i64(s as i128 * 1000) as i128));
    }
    None
}

fn u32_of(x: Option<i64>) -> (r: Option<u32>)
    ensures
        ou32(r) == as_u32(match x {
            Some(v) => Some(v as int),
            None => None,
        }),
{
    match x {
        Some(v) => if 0 <= v && v <= 4294967295 {
            Some(v as u32)
        } else {
            None
        },
        None => None,
    }
}

fn minutes_from_seconds(x: Option<i64>) -> (r: Option<u32>)
    ensures
        ou32(r) == as_u32(
            minutes_of(
                match x {
                    Some(v) => Some(v as int),
                    None => None,
                },
            ),
        ),
{
    match x {
        Some(v) => {
            let m: i64 = if v >= 0 {
                v / 60
            } else {
                0 - ((0 - (v as i128)) / 60) as i64
            };
            u32_of(Some(m))
        },
        None => None,
    }
}

/// A window's length in minutes (see [`window_minutes_of`]).
pub fn window_minutes<F>(value: &JsonValue<F>) -> (res: Option<u32>)
    ensures
        ou32(res) == window_minutes_of(*value),
{
    let a = u32_of(get_int(value, "window_minutes"));
    if a.is_some() {
        return a;
    }
    let b = minutes_from_seconds(get_int(value, "window_seconds"));
    if b.is_some() {
        return b;
    }
    minutes_from_seconds(get_int(value, "limit_window_seconds"))
}

/// Parses one window, given how much of it is left as the caller worked it out.
pub fn parse_rate_limit_entry<F, P>(
    value: &JsonValue<F>,
    percent_left: Result<P, String>,
    now: &SystemInstant,
) -> (res: Result<ParsedLimit<P>, String>)
    ensures
        pview(res) == entry_outcome(*value, pview(percent_left), now_millis(*now)),
{
    let p = match percent_left {
        Ok(p) => p,
        Err(e) => return Err(e),
    };
    let raw = match extract_reset_time_ms(value, now) {
        Some(r) => r,
        None => return Err(String::from_str("Missing reset timestamp")),
    };
    let ms = match normalize_unix_timestamp_ms(raw) {
        Ok(m) => m,
        Err(e) => return Err(e),
    };
    let w = window_minutes(value);
    Ok(ParsedLimit { percent_left: p, reset_time_ms: ms, window_minutes: w })
}

/// Whether the lowercased label mentions `word`.
fn mentions(lower: &Vec<char>, word: &str) -> (r: bool)
    ensures
        r == contains_seq(lower@, word@),
{
    contains_chars(lower, &chars_of(word))
}

/// A window's kind from its lowercased name and its length (see [`kind_by`]).
pub fn kind_from_lowered(lower: Option<&str>, window_minutes: Option<u32>) -> (res: Option<LimitKind>)
    ensures
        res == kind_by(
            match lower {
                Some(l) => Some(l@),
                None => None,
            },
            ou32(window_minutes),
        ),
{
    if let Some(l) = lower {
        let chars = chars_of(l);
        if mentions(&chars, "week") {
            return Some(LimitKind::Weekly);
        }
        if mentions(&chars, "five") || mentions(&chars, "5h") || mentions(&chars, "hour") {
            return Some(LimitKind::FiveHour);
        }
    }
    if let Some(minutes) = window_minutes {
        if minutes <= 360 {
            return Some(LimitKind::FiveHour);
        }
        if minutes >= 10080 {
            return Some(LimitKind::Weekly);
        }
    }
    None
}

/// A window's kind (see [`limit_kind`]): its name, lowercased, then
/// [`kind_from_lowered`].
pub fn detect_limit_kind<F>(value: &JsonValue<F>, window_minutes: Option<u32>) -> (res: Option<
    LimitKind,
>)
    ensures
        res == limit_kind(*value, ou32(window_minutes)),
{
    let label = match get_str(value, "type") {
        Some(t) => Some(t),
        None => get_str(value, "name"),
    };
    match label {
        Some(l) => {
            let lower = to_lowercase(l.as_str());
            kind_from_lowered(Some(lower.as_str()), window_minutes)
        },
        None => kind_from_lowered(None, window_minutes),
    }
}

/// The candidate windows of a rate limit (see [`candidates`]).
pub struct RateLimitCandidates<'a, F> {
    pub paired: bool,
    pub entries: Vec<&'a JsonValue<F>>,
}

/// Finds the windows of a rate limit.
pub fn rate_limit_candidates<'a, F>(value: &'a JsonValue<F>) -> (res: Result<
    RateLimitCandidates<'a, F>,
    String,
>)
    ensures
        match (res, candidates(*value)) {
            (Ok(c), Ok((paired, es))) => c.paired == paired && c.entries@.len() == es.len() && forall|
                i: int,
            | 0 <= i < es.len() ==> *(#[trigger] c.entries@[i]) == es[i],
            (Err(e), Err(se)) => e@ == se,
            _ => false,
        },
        res matches Ok(c) ==> (c.paired ==> c.entries@.len() == 2),
{
    if let (Some(p), Some(s)) = (get(value, "primary"), get(value, "secondary")) {
        let mut es: Vec<&'a JsonValue<F>> = Vec::new();
        es.push(p);
        es.push(s);
        return Ok(RateLimitCandidates { paired: true, entries: es });
    }
    if let (Some(p), Some(s)) = (get(value, "primary_window"), get(value, "secondary_window")) {
        let mut es: Vec<&'a JsonValue<F>> = Vec::new();
        es.push(p);
        es.push(s);
        return Ok(RateLimitCandidates { paired: true, entries: es });
    }
    let items: &'a Vec<JsonValue<F>> = match get(value, "limits") {
        Some(JsonValue::Array(items)) => items,
        _ => match value {
            JsonValue::Array(items) => items,
            _ => return Err(String::from_str("Missing rate_limit entries")),
        },
    };
    let mut es: Vec<&'a JsonValue<F>> = Vec::new();
    let mut i: usize = 0;
    while i < items.len()
        invariant
            i <= items@.len(),
            es@.len() == i,
            forall|j: int| 0 <= j < i ==> *(#[trigger] es@[j]) == items@[j],
        decreases items@.len() - i,
    {
        es.push(&items[i]);
        i = i + 1;
    }
    Ok(RateLimitCandidates { paired: false, entries: es })
}

/// The five-hour and weekly windows of a rate limit, given its candidate
/// windows and, for each, how much is left of it as the caller worked it out.
#[verifier::loop_isolation(false)]
pub fn parse_rate_limits<'a, F, P>(
    cands: &RateLimitCandidates<'a, F>,
    percents: Vec<Result<P, String>>,
    now: &SystemInstant,
) -> (res: Result<(ParsedLimit<P>, ParsedLimit<P>), String>)
    requires
        percents@.len() == cands.entries@.len(),
        cands.paired ==> cands.entries@.len() == 2,
    ensures
        match (
            res,
            rate_limits_outcome(
                cands.paired,
                cands.entries@.map_values(|r: &JsonValue<F>| *r),
                percents@.map_values(|r: Result<P, String>| pview(r)),
                now_millis(*now),
            ),
        ) {
            (Ok(x), Ok(y)) => x == y,
            (Err(e), Err(se)) => e@ == se,
            _ => false,
        },
{
    let ghost es = cands.entries@.map_values(|r: &JsonValue<F>| *r);
    let ghost ps = percents@.map_values(|r: Result<P, String>| pview(r));
    let ghost now_ms = now_millis(*now);
    let n = cands.entries.len();
    let mut rest = percents;
    if cands.paired {
        let p0 = rest.remove(0);
        let p1 = rest.remove(0);
        let five = match parse_rate_limit_entry(cands.entries[0], p0, now) {
            Ok(x) => x,
            Err(e) => return Err(e),
        };
        let weekly = match parse_rate_limit_entry(cands.entries[1], p1, now) {
            Ok(x) => x,
            Err(e) => return Err(e),
        };
        return Ok((five, weekly));
    }
    let mut five: Option<ParsedLimit<P>> = None;
    let mut weekly: Option<ParsedLimit<P>> = None;
    let mut i: usize = 0;
    while i < n
        invariant
            i <= n,
            n == cands.entries@.len(),
            rest@.len() == n - i,
            forall|j: int| 0 <= j < rest@.len() ==> pview(#[trigger] rest@[j]) == ps[i + j],
            list_outcome(es, ps, now_ms, i as nat) == Ok::<
                (Option<ParsedLimit<P>>, Option<ParsedLimit<P>>),
                Seq<char>,
            >((five, weekly)),
        decreases n - i,
    {
        let ghost old_rest = rest@;
        let pct = rest.remove(0);
        assert(pview(pct) == ps[i as int]) by {
            assert(pview(old_rest[0]) == ps[i + 0]);
        }
        assert forall|j: int| 0 <= j < rest@.len() implies pview(#[trigger] rest@[j]) == ps[i + 1 + j] by {
            assert(rest@[j] == old_rest[j + 1]);
            assert(pview(old_rest[j + 1]) == ps[i + (j + 1)]);
        }
        let entry = cands.entries[i];
        assert(*entry == es[i as int]);
        let parsed = match parse_rate_limit_entry(entry, pct, now) {
            Ok(x) => x,
            Err(e) => {
                proof {
                    assert(list_outcome(es, ps, now_ms, (i + 1) as nat) == Err::<
                        (Option<ParsedLimit<P>>, Option<ParsedLimit<P>>),
                        Seq<char>,
                    >(e@));
                    lemma_list_err_sticks(es, ps, now_ms, (i + 1) as nat, n as nat, e@);
                }
                return Err(e);
            },
        };
        let kind = detect_limit_kind(entry, parsed.window_minutes);
        match kind {
            Some(LimitKind::FiveHour) => {
                five = Some(parsed);
            },
            Some(LimitKind::Weekly) => {
                weekly = Some(parsed);
            },
            None => {
                if five.is_none() {
                    five = Some(parsed);
                } else if weekly.is_none() {
                    weekly = Some(parsed);
                }
            },
        }
        i = i + 1;
    }
    match (five, weekly) {
        (Some(f), Some(w)) => Ok((f, w)),
        _ => Err(String::from_str("Missing primary/weekly rate_limit data")),
    }
}

/// The single window of an optional rate limit: `primary`, else
/// `primary_window`, else the first of `limits` (none when that list is
/// empty), else the first element when the value is a list, else the value.
pub open spec fn optional_candidate<F>(v: JsonValue<F>) -> Option<JsonValue<F>> {
    if json_get(v, "primary"@) is Some {
        json_get(v, "primary"@)
    } else if json_get(v, "primary_window"@) is Some {
        json_get(v, "primary_window"@)
    } else {
        match json_get(v, "limits"@) {
            Some(JsonValue::Array(items)) => if items@.len() > 0 {
                Some(items@[0])
            } else {
                None
            },
            _ => match v {
                JsonValue::Array(items) => if items@.len() > 0 {
                    Some(items@[0])
                } else {
                    None
                },
                _ => Some(v),
            },
        }
    }
}

/// Finds the single window of an optional rate limit (see [`optional_candidate`]).
pub fn optional_rate_limit_candidate<'a, F>(value: &'a JsonValue<F>) -> (res: Option<&'a JsonValue<F>>)
    ensures
        match (res, optional_candidate(*value)) {
            (Some(x), Some(y)) => *x == y,
            (None, None) => true,
            _ => false,
        },
{
    if let Some(p) = get(value, "primary") {
        return Some(p);
    }
    if let Some(p) = get(value, "primary_window") {
        return Some(p);
    }
    match get(value, "limits") {
        Some(JsonValue::Array(items)) => {
            if items.len() > 0 {
                Some(&items[0])
            } else {
                None
            }
        },
        _ => match value {
            JsonValue::Array(items) => {
                if items.len() > 0 {
                    Some(&items[0])
                } else {
                    None
                }
            },
            _ => Some(value),
        },
    }
}

/// The window of an optional rate limit, when it parses; `percent_left` is
/// how much is left of the window that [`optional_rate_limit_candidate`] found.
pub fn parse_optional_rate_limit<F, P>(
    entry: Option<&JsonValue<F>>,
    percent_left: Result<P, String>,
    now: &SystemInstant,
) -> (res: Option<ParsedLimit<P>>)
    ensures
        match entry {
            None => res is None,
            Some(e) => match entry_outcome(*e, pview(percent_left), now_millis(*now)) {
                Ok(pl) => res == Some(pl),
                Err(_) => res is None,
            },
        },
{
    match entry {
        None => None,
        Some(e) => match parse_rate_limit_entry(e, percent_left, now) {
            Ok(pl) => Some(pl),
            Err(_) => None,
        },
    }
}


/// The window, when there is one, resets between 2000 and 2100.
spec fn reset_in_range<P>(o: Option<ParsedLimit<P>>) -> bool {
    o matches Some(pl) ==> MIN_VALID_EPOCH_MS <= pl.reset_time_ms <= MAX_VALID_EPOCH_MS
}

proof fn lemma_entry_in_range<F, P>(v: JsonValue<F>, p: Result<P, Seq<char>>, now_ms: int)
    requires
        entry_outcome(v, p, now_ms) is Ok,
    ensures
        reset_in_range(Some(entry_outcome(v, p, now_ms)->Ok_0)),
{
}

proof fn lemma_list_in_range<F, P>(es: Seq<JsonValue<F>>, ps: Seq<Result<P, Seq<char>>>, now_ms: int, n: nat)
    ensures
        list_outcome(es, ps, now_ms, n) matches Ok((f, w)) ==> reset_in_range(f) && reset_in_range(w),
    decreases n,
{
    if n > 0 {
        lemma_list_in_range(es, ps, now_ms, (n - 1) as nat);
        if entry_outcome(es[n - 1], ps[n - 1], now_ms) is Ok {
            lemma_entry_in_range(es[n - 1], ps[n - 1], now_ms);
        }
    }
}

/// Both windows of a parsed rate limit reset between 2000 and 2100.
pub proof fn law_parsed_resets_in_range<F, P>(
    paired: bool,
    es: Seq<JsonValue<F>>,
    ps: Seq<Result<P, Seq<char>>>,
    now_ms: int,
    five: ParsedLimit<P>,
    weekly: ParsedLimit<P>,
)
    requires
        rate_limits_outcome(paired, es, ps, now_ms) == Ok::<(ParsedLimit<P>, ParsedLimit<P>), Seq<char>>(
            (five, weekly),
        ),
    ensures
        MIN_VALID_EPOCH_MS <= five.reset_time_ms <= MAX_VALID_EPOCH_MS,
        MIN_VALID_EPOCH_MS <= weekly.reset_time_ms <= MAX_VALID_EPOCH_MS,
{
    if paired {
        lemma_entry_in_range(es[0], ps[0], now_ms);
        lemma_entry_in_range(es[1], ps[1], now_ms);
    } else {
        lemma_list_in_range(es, ps, now_ms, es.len());
    }
}

/// A parsed window resets between 2000 and 2100, and keeps exactly the
/// figure of how much is left that the caller worked out for it.
pub proof fn law_entry_resets_in_range<F, P>(v: JsonValue<F>, p: Result<P, Seq<char>>, now_ms: int, pl: ParsedLimit<P>)
    requires
        entry_outcome(v, p, now_ms) == Ok::<ParsedLimit<P>, Seq<char>>(pl),
    ensures
        MIN_VALID_EPOCH_MS <= pl.reset_time_ms <= MAX_VALID_EPOCH_MS,
        p == Ok::<P, Seq<char>>(pl.percent_left),
{
    lemma_entry_in_range(v, p, now_ms);
}

/// A window's kind by its own name (lowercased) and its own length.
pub open spec fn window_kind<F>(v: JsonValue<F>) -> Option<LimitKind> {
    kind_by(
        match kind_label(v) {
            Some(l) => Some(lowercase(l)),
            None => None,
        },
        window_minutes_of(v),
    )
}

proof fn lemma_parsed_kind<F, P>(v: JsonValue<F>, p: Result<P, Seq<char>>, now_ms: int)
    requires
        entry_outcome(v, p, now_ms) is Ok,
    ensures
        limit_kind(v, ou32(entry_outcome(v, p, now_ms)->Ok_0.window_minutes)) == window_kind(v),
{
    let pl = entry_outcome(v, p, now_ms)->Ok_0;
    match window_minutes_of(v) {
        Some(m) => {
            assert(0 <= m <= u32::MAX);
            assert(ou32(pl.window_minutes) == Some(m));
        },
        None => {},
    }
}

proof fn lemma_list_ok_prefix<F, P>(es: Seq<JsonValue<F>>, ps: Seq<Result<P, Seq<char>>>, now_ms: int, k: nat, n: nat)
    requires
        k <= n,
        list_outcome(es, ps, now_ms, n) is Ok,
    ensures
        list_outcome(es, ps, now_ms, k) is Ok,
    decreases n - k,
{
    if k < n {
        lemma_list_ok_prefix(es, ps, now_ms, k, (n - 1) as nat);
    }
}

proof fn lemma_slot_of_last_kind<F, P>(
    es: Seq<JsonValue<F>>,
    ps: Seq<Result<P, Seq<char>>>,
    now_ms: int,
    n: nat,
    i: int,
    kind: LimitKind,
)
    requires
        list_outcome(es, ps, now_ms, n) is Ok,
        0 <= i < n,
        window_kind(es[i]) == Some(kind),
        forall|j: int| i < j < n ==> window_kind(#[trigger] es[j]) != Some(kind),
    ensures
        entry_outcome(es[i], ps[i], now_ms) is Ok,
        kind == LimitKind::FiveHour ==> list_outcome(es, ps, now_ms, n)->Ok_0.0 == Some(
            entry_outcome(es[i], ps[i], now_ms)->Ok_0,
        ),
        kind == LimitKind::Weekly ==> list_outcome(es, ps, now_ms, n)->Ok_0.1 == Some(
            entry_outcome(es[i], ps[i], now_ms)->Ok_0,
        ),
    decreases n,
{
    let m = (n - 1) as nat;
    lemma_list_ok_prefix(es, ps, now_ms, m, n);
    assert(entry_outcome(es[m as int], ps[m as int], now_ms) is Ok);
    lemma_parsed_kind(es[m as int], ps[m as int], now_ms);
    if i < m {
        lemma_slot_of_last_kind(es, ps, now_ms, m, i, kind);
        assert(window_kind(es[m as int]) != Some(kind));
    }
}

/// In a list of windows, the five-hour slot holds the last window whose own
/// name or length says it is the five-hour window, and the weekly slot the
/// last one whose name or length says it is weekly: whatever filled the slot
/// before, and wherever the window stands in the list.
pub proof fn law_listed_windows_take_their_slot<F, P>(
    es: Seq<JsonValue<F>>,
    ps: Seq<Result<P, Seq<char>>>,
    now_ms: int,
    five: ParsedLimit<P>,
    weekly: ParsedLimit<P>,
    i: int,
    kind: LimitKind,
)
    requires
        rate_limits_outcome(false, es, ps, now_ms) == Ok::<(ParsedLimit<P>, ParsedLimit<P>), Seq<char>>(
            (five, weekly),
        ),
        0 <= i < es.len(),
        window_kind(es[i]) == Some(kind),
        forall|j: int| i < j < es.len() ==> window_kind(#[trigger] es[j]) != Some(kind),
    ensures
        kind == LimitKind::FiveHour ==> entry_outcome(es[i], ps[i], now_ms) == Ok::<
            ParsedLimit<P>,
            Seq<char>,
        >(five),
        kind == LimitKind::Weekly ==> entry_outcome(es[i], ps[i], now_ms) == Ok::<
            ParsedLimit<P>,
            Seq<char>,
        >(weekly),
{
    lemma_slot_of_last_kind(es, ps, now_ms, es.len(), i, kind);
}

/// In a list of windows, one that has no name saying otherwise and lasts at
/// most six hours is the five-hour window, and one that lasts at least a week
/// is the weekly window, when no later window is of the same kind.
pub proof fn law_listed_windows_by_length<F, P>(
    es: Seq<JsonValue<F>>,
    ps: Seq<Result<P, Seq<char>>>,
    now_ms: int,
    five: ParsedLimit<P>,
    weekly: ParsedLimit<P>,
    i: int,
)
    requires
        rate_limits_outcome(false, es, ps, now_ms) == Ok::<(ParsedLimit<P>, ParsedLimit<P>), Seq<char>>(
            (five, weekly),
        ),
        0 <= i < es.len(),
        kind_label(es[i]) is None,
        window_minutes_of(es[i]) is Some,
        forall|j: int| i < j < es.len() ==> window_kind(#[trigger] es[j]) != window_kind(es[i]),
    ensures
        window_minutes_of(es[i])->0 <= 360 ==> entry_outcome(es[i], ps[i], now_ms) == Ok::<
            ParsedLimit<P>,
            Seq<char>,
        >(five),
        window_minutes_of(es[i])->0 >= 10080 ==> entry_outcome(es[i], ps[i], now_ms) == Ok::<
            ParsedLimit<P>,
            Seq<char>,
        >(weekly),
{
    let m = window_minutes_of(es[i])->0;
    if m <= 360 {
        assert(window_kind(es[i]) == Some(LimitKind::FiveHour));
        law_listed_windows_take_their_slot(es, ps, now_ms, five, weekly, i, LimitKind::FiveHour);
    } else if m >= 10080 {
        assert(window_kind(es[i]) == Some(LimitKind::Weekly));
        law_listed_windows_take_their_slot(es, ps, now_ms, five, weekly, i, LimitKind::Weekly);
    }
}

/// A rate limit given as a pair of windows: the five-hour window is the
/// `primary` (or `primary_window`) one, the weekly window the `secondary`
/// (or `secondary_window`) one, each parsed on its own with its own figure.
pub proof fn law_paired_windows<F, P>(
    v: JsonValue<F>,
    ps: Seq<Result<P, Seq<char>>>,
    now_ms: int,
    es: Seq<JsonValue<F>>,
    five: ParsedLimit<P>,
    weekly: ParsedLimit<P>,
)
    requires
        candidates(v) == Ok::<(bool, Seq<JsonValue<F>>), Seq<char>>((true, es)),
        rate_limits_outcome(true, es, ps, now_ms) == Ok::<(ParsedLimit<P>, ParsedLimit<P>), Seq<char>>(
            (five, weekly),
        ),
    ensures
        json_get(v, "primary"@) is Some && json_get(v, "secondary"@) is Some ==> entry_outcome(
            json_get(v, "primary"@)->0,
            ps[0],
            now_ms,
        ) == Ok::<ParsedLimit<P>, Seq<char>>(five) && entry_outcome(
            json_get(v, "secondary"@)->0,
            ps[1],
            now_ms,
        ) == Ok::<ParsedLimit<P>, Seq<char>>(weekly),
        !(json_get(v, "primary"@) is Some && json_get(v, "secondary"@) is Some) ==> entry_outcome(
            json_get(v, "primary_window"@)->0,
            ps[0],
            now_ms,
        ) == Ok::<ParsedLimit<P>, Seq<char>>(five) && entry_outcome(
            json_get(v, "secondary_window"@)->0,
            ps[1],
            now_ms,
        ) == Ok::<ParsedLimit<P>, Seq<char>>(weekly),
{
}

} // verus!
