//! Usage figures read from Codex session logs: the latest rate limits of a
//! session file, the checks they must pass, the order in which session files
//! are examined, and the search for the session of a given account.
use vstd::prelude::*;
use crate::json::{JsonValue, contains_string, json_get, json_get_str, get, get_str, json_contains_string};
use crate::text::decimal;
use crate::timestamps::{
    MILLISECONDS_THRESHOLD,
    MAX_VALID_EPOCH_MS,
    MIN_VALID_EPOCH_MS,
    SystemInstant,
    normalized_timestamp,
    normalize_unix_timestamp_ms,
    epoch_millis,
    epoch_ms_text,
    epoch_ms_from_system_time,
    now_epoch_ms_string,
};

verus! {

/// How many of the most recent session files are searched for an account.
pub const MAX_SESSION_FILES_SEARCHED: usize = 20;

/// One rate-limit window recorded in a session log. `used_percent` is kept
/// as given; `used_percent_in_range` tells whether it is a number within 0..=100.
#[derive(Debug, Clone, PartialEq)]
pub struct RateLimitEntry<P> {
    pub used_percent: P,
    pub used_percent_in_range: bool,
    pub window_minutes: u32,
    pub resets_at: i64,
}

/// The `rate_limits` of a session log event.
#[derive(Debug, Clone, PartialEq)]
pub struct RateLimits<P> {
    pub primary: Option<RateLimitEntry<P>>,
    pub secondary: Option<RateLimitEntry<P>>,
}

/// One event of a session log: its `type`, and the rate limits its payload
/// carries, when it carries well-formed ones.
#[derive(Debug, Clone, PartialEq)]
pub struct SessionEvent<P> {
    pub msg_type: String,
    pub rate_limits: Option<RateLimits<P>>,
}

/// Usage figures of one session file: the used percentages as given, the
/// reset times in milliseconds, when they were recorded, and the file.
#[derive(Debug, Clone, PartialEq)]
pub struct SessionUsage<P> {
    pub five_hour_used_percent: P,
    pub five_hour_reset_time_ms: i64,
    pub weekly_used_percent: P,
    pub weekly_reset_time_ms: i64,
    pub last_updated: String,
    pub source_file: String,
}

/// Events of these types carry token counts and rate limits.
pub open spec fn is_rate_limit_event(msg_type: Seq<char>) -> bool {
    msg_type == "event_msg"@ || msg_type == "token_count"@
}

/// The event's rate limits, when it is a rate-limit event that has them.
pub open spec fn event_rate_limits<P>(e: Option<SessionEvent<P>>) -> Option<RateLimits<P>> {
    match e {
        Some(ev) => if is_rate_limit_event(ev.msg_type@) {
            ev.rate_limits
        } else {
            None
        },
        None => None,
    }
}

/// The rate limits of the last event that has any (`None` entries are lines
/// that are not events).
pub open spec fn latest_rate_limits<P>(events: Seq<Option<SessionEvent<P>>>) -> Option<RateLimits<P>>
    decreases events.len(),
{
    if events.len() == 0 {
        None
    } else {
        match event_rate_limits(events.last()) {
            Some(rl) => Some(rl),
            None => latest_rate_limits(events.drop_last()),
        }
    }
}

/// The checks a session's rate limits must pass, in order: both windows
/// present, both percentages in range, both reset times valid. On success:
/// the two percentages and the two reset times in milliseconds.
pub open spec fn checked_rate_limits<P>(rl: RateLimits<P>) -> Result<(P, int, P, int), Seq<char>> {
    match rl.primary {
        None => Err("No primary rate limit found"@),
        Some(p) => match rl.secondary {
            None => Err("No secondary rate limit found"@),
            Some(s) => if !p.used_percent_in_range || !s.used_percent_in_range {
                Err("Invalid used_percent in rate_limits"@)
            } else {
                match normalized_timestamp(p.resets_at as int) {
                    Err(e) => Err(e),
                    Ok(pm) => match normalized_timestamp(s.resets_at as int) {
                        Err(e) => Err(e),
                        Ok(sm) => Ok((p.used_percent, pm, s.used_percent, sm)),
                    },
                }
            },
        },
    }
}

/// When the figures were recorded: the file's modification time in
/// milliseconds, else the current time.
pub open spec fn last_updated_text(mtime: Option<SystemInstant>, now: SystemInstant) -> Seq<char> {
    match mtime {
        Some(t) => match epoch_millis(t) {
            Some(ms) => if ms <= i64::MAX {
                decimal(ms)
            } else {
                epoch_ms_text(now)
            },
            None => epoch_ms_text(now),
        },
        None => epoch_ms_text(now),
    }
}

/// `usage` holds the figures `checked` for the file `source`.
pub open spec fn usage_matches<P>(
    usage: SessionUsage<P>,
    checked: (P, int, P, int),
    mtime: Option<SystemInstant>,
    now: SystemInstant,
    source: Seq<char>,
) -> bool {
    &&& usage.five_hour_used_percent == checked.0
    &&& usage.five_hour_reset_time_ms as int == checked.1
    &&& usage.weekly_used_percent == checked.2
    &&& usage.weekly_reset_time_ms as int == checked.3
    &&& usage.last_updated@ == last_updated_text(mtime, now)
    &&& usage.source_file@ == source
}

/// The rate limits of the last event that has any.
pub fn find_latest_rate_limits<P>(events: &Vec<Option<SessionEvent<P>>>) -> (res: Option<
    &RateLimits<P>,
>)
    ensures
        match (res, latest_rate_limits(events@)) {
            (Some(r), Some(s)) => *r == s,
            (None, None) => true,
            _ => false,
        },
{
    let mut k = events.len();
    assert(events@.take(k as int) =~= events@);
    while k > 0
        invariant
            k <= events@.len(),
            latest_rate_limits(events@) == latest_rate_limits(events@.take(k as int)),
        decreases k,
    {
        let ghost t = events@.take(k as int);
        assert(t.drop_last() =~= events@.take(k - 1));
        assert(t.last() == events@[k - 1]);
        match &events[k - 1] {
            Some(ev) => {
                let a = String::from_str("event_msg");
                let b = String::from_str("token_count");
                if ev.msg_type == a || ev.msg_type == b {
                    if let Some(rl) = &ev.rate_limits {
                        return Some(rl);
                    }
                }
            },
            None => {},
        }
        k = k - 1;
    }
    assert(events@.take(0) =~= Seq::<Option<SessionEvent<P>>>::empty());
    None
}

/// Applies [`checked_rate_limits`].
pub fn check_rate_limits<P: Copy>(rl: &RateLimits<P>) -> (res: Result<(P, i64, P, i64), String>)
    ensures
        match (res, checked_rate_limits(*rl)) {
            (Ok((a, b, c, d)), Ok((sa, sb, sc, sd))) => a == sa && b as int == sb && c == sc && d as int
                == sd,
            (Err(e), Err(se)) => e@ == se,
            _ => false,
        },
        res matches Ok((a, b, c, d)) ==> rl.primary matches Some(p) && rl.secondary matches Some(s)
            && a == p.used_percent && c == s.used_percent && normalized_timestamp(p.resets_at as int)
            == Ok::<int, Seq<char>>(b as int) && normalized_timestamp(s.resets_at as int) == Ok::<
            int,
            Seq<char>,
        >(d as int),
{
    let p = match &rl.primary {
        Some(p) => p,
        None => return Err(String::from_str("No primary rate limit found")),
    };
    let s = match &rl.secondary {
        Some(s) => s,
        None => return Err(String::from_str("No secondary rate limit found")),
    };
    if !p.used_percent_in_range || !s.used_percent_in_range {
        return Err(String::from_str("Invalid used_percent in rate_limits"));
    }
    let pm = match normalize_unix_timestamp_ms(p.resets_at) {
        Ok(m) => m,
        Err(e) => return Err(e),
    };
    let sm = match normalize_unix_timestamp_ms(s.resets_at) {
        Ok(m) => m,
        Err(e) => return Err(e),
    };
    Ok((p.used_percent, pm, s.used_percent, sm))
}

/// The modification time in milliseconds as text, else the current time.
pub fn last_updated_string(mtime: &Option<SystemInstant>, now: &SystemInstant) -> (res: String)
    ensures
        res@ == last_updated_text(*mtime, *now),
{
    match mtime {
        Some(t) => match epoch_ms_from_system_time(t) {
            Some(ms) => {
                assert(epoch_millis(*t) == Some(ms as nat));
                let r = crate::text::decimal_string(ms as u128);
                assert((ms as u128) as nat == ms as nat);
                r
            },
            None => {
                assert(epoch_millis(*t) is None || epoch_millis(*t)->0 > i64::MAX);
                now_epoch_ms_string(now)
            },
        },
        None => now_epoch_ms_string(now),
    }
}

fn usage_of<P: Copy>(
    checked: (P, i64, P, i64),
    mtime: &Option<SystemInstant>,
    now: &SystemInstant,
    source_file: &str,
) -> (res: SessionUsage<P>)
    ensures
        usage_matches(
            res,
            (checked.0, checked.1 as int, checked.2, checked.3 as int),
            *mtime,
            *now,
            source_file@,
        ),
{
    SessionUsage {
        five_hour_used_percent: checked.0,
        five_hour_reset_time_ms: checked.1,
        weekly_used_percent: checked.2,
        weekly_reset_time_ms: checked.3,
        last_updated: last_updated_string(mtime, now),
        source_file: String::from_str(source_file),
    }
}

/// The usage figures of a session file, from its events (`None` for lines
/// that are not events), its modification time when known, and the clock.
pub fn parse_rate_limits_from_file<P: Copy>(
    events: &Vec<Option<SessionEvent<P>>>,
    file_mtime: &Option<SystemInstant>,
    now: &SystemInstant,
    source_file: &str,
) -> (res: Result<SessionUsage<P>, String>)
    ensures
        match latest_rate_limits(events@) {
            None => res matches Err(e) && e@ == "No rate limits found in session file"@,
            Some(rl) => match (res, checked_rate_limits(rl)) {
                (Ok(u), Ok(c)) => usage_matches(u, c, *file_mtime, *now, source_file@),
                (Err(e), Err(se)) => e@ == se,
                _ => false,
            },
        },
{
    let rl = match find_latest_rate_limits(events) {
        Some(rl) => rl,
        None => return Err(String::from_str("No rate limits found in session file")),
    };
    let checked = match check_rate_limits(rl) {
        Ok(c) => c,
        Err(e) => return Err(e),
    };
    Ok(usage_of(checked, file_mtime, now, source_file))
}

/// What has been learned of one session file while searching for an
/// account: whether the account's email was seen, and the latest rate limits.
#[derive(Debug, Clone, PartialEq)]
pub struct AccountScan<P> {
    pub found_account: bool,
    pub latest: Option<RateLimits<P>>,
}

/// Lines of these types name the account a session runs under.
pub open spec fn names_account(line_type: Option<Seq<char>>) -> bool {
    line_type == Some("session_meta"@) || line_type == Some("turn_context"@)
}

/// The scan of a file before its first line.
pub fn account_scan_start<P>() -> (res: AccountScan<P>)
    ensures
        !res.found_account,
        res.latest is None,
{
    AccountScan { found_account: false, latest: None }
}

/// Takes one line of a session file into the scan: the line as JSON, and the
/// event it is, if any. The account is found on a `session_meta` or
/// `turn_context` line that contains the (non-empty) email as a string
/// anywhere; the latest rate limits are those of the last rate-limit event.
pub fn account_scan_line<F, P>(
    scan: &mut AccountScan<P>,
    value: &JsonValue<F>,
    event: Option<SessionEvent<P>>,
    account_email: &String,
)
    ensures
        final(scan).found_account == (old(scan).found_account || (account_email@.len() > 0
            && names_account(json_get_str(*value, "type"@)) && contains_string(
            *value,
            account_email@,
        ))),
        final(scan).latest == match event_rate_limits(event) {
            Some(rl) => Some(rl),
            None => old(scan).latest,
        },
{
    if !scan.found_account && account_email.as_str().unicode_len() > 0 {
        if let Some(t) = get_str(value, "type") {
            let a = String::from_str("session_meta");
            let b = String::from_str("turn_context");
            if *t == a || *t == b {
                if json_contains_string(value, account_email) {
                    scan.found_account = true;
                }
            }
        }
    }
    match event {
        Some(ev) => {
            let a = String::from_str("event_msg");
            let b = String::from_str("token_count");
            if ev.msg_type == a || ev.msg_type == b {
                if let Some(rl) = ev.rate_limits {
                    scan.latest = Some(rl);
                }
            }
        },
        None => {},
    }
}

/// The verdict on a scanned file: nothing (search on) unless the account
/// was found and the latest rate limits have both windows; then the usage
/// figures, or the error of the check they fail.
pub fn account_scan_finish<P: Copy>(
    scan: &AccountScan<P>,
    file_mtime: &Option<SystemInstant>,
    now: &SystemInstant,
    source_file: &str,
) -> (res: Option<Result<SessionUsage<P>, String>>)
    ensures
        match scan.latest {
            Some(rl) => if scan.found_account && rl.primary is Some && rl.secondary is Some {
                match (res, checked_rate_limits(rl)) {
                    (Some(Ok(u)), Ok(c)) => usage_matches(u, c, *file_mtime, *now, source_file@),
                    (Some(Err(e)), Err(se)) => e@ == se,
                    _ => false,
                }
            } else {
                res is None
            },
            None => res is None,
        },
{
    if !scan.found_account {
        return None;
    }
    match &scan.latest {
        Some(rl) => {
            if rl.primary.is_none() || rl.secondary.is_none() {
                return None;
            }
            match check_rate_limits(rl) {
                Ok(c) => Some(Ok(usage_of(c, file_mtime, now, source_file))),
                Err(e) => Some(Err(e)),
            }
        },
        None => None,
    }
}

/// The error when no searched file shows the account's usage.
pub fn no_usage_for_account(account_email: &str) -> (res: String)
    ensures
        res@ == "No usage data found for account: "@ + account_email@,
{
    crate::text::concat_str("No usage data found for account: ", account_email)
}

/// The verdict of the first file that gave one (see [`account_scan_finish`]).
pub open spec fn first_verdict<P>(vs: Seq<Option<Result<SessionUsage<P>, String>>>) -> Option<
    Result<SessionUsage<P>, String>,
>
    decreases vs.len(),
{
    if vs.len() == 0 {
        None
    } else {
        match vs[0] {
            Some(v) => Some(v),
            None => first_verdict(vs.drop_first()),
        }
    }
}

/// The answer to a search for an account's usage, from the verdicts of the
/// files searched, in order: the first verdict given, else the error that no
/// file shows the account's usage.
pub fn account_usage_answer<P>(verdicts: Vec<Option<Result<SessionUsage<P>, String>>>, account_email: &str) -> (res:
    Result<SessionUsage<P>, String>)
    ensures
        match first_verdict(verdicts@) {
            Some(v) => res == v,
            None => res matches Err(e) && e@ == "No usage data found for account: "@ + account_email@,
        },
{
    let mut rest = verdicts;
    while rest.len() > 0
        invariant
            first_verdict(verdicts@) == first_verdict(rest@),
        decreases rest@.len(),
    {
        let ghost old_rest = rest@;
        let v = rest.remove(0);
        assert(old_rest.drop_first() =~= rest@);
        if let Some(answer) = v {
            return answer;
        }
    }
    Err(no_usage_for_account(account_email))
}

/// File `i` was modified more recently than file `j` (files whose time is
/// unknown come last), or as recently and comes first.
pub open spec fn more_recent(ts: Seq<Option<SystemInstant>>, i: int, j: int) -> bool {
    match (ts[i], ts[j]) {
        (Some(a), Some(b)) => a.nanos() > b.nanos() || (a.nanos() == b.nanos() && i < j),
        (Some(_), None) => true,
        (None, Some(_)) => false,
        (None, None) => i < j,
    }
}

proof fn lemma_more_recent_trans(ts: Seq<Option<SystemInstant>>, i: int, j: int, k: int)
    requires
        more_recent(ts, i, j),
        more_recent(ts, j, k),
    ensures
        more_recent(ts, i, k),
{
}

/// `i` strictly precedes `j`, or equals it is not the case and `j` precedes `i`.
proof fn lemma_more_recent_total(ts: Seq<Option<SystemInstant>>, i: int, j: int)
    requires
        i != j,
    ensures
        more_recent(ts, i, j) != more_recent(ts, j, i),
{
}

fn more_recent_exec(ts: &Vec<Option<SystemInstant>>, i: usize, j: usize) -> (r: bool)
    requires
        i < ts@.len(),
        j < ts@.len(),
    ensures
        r == more_recent(ts@, i as int, j as int),
{
    match (&ts[i], &ts[j]) {
        (Some(a), Some(b)) => crate::timestamps::instant_before(b, a) || (!crate::timestamps::instant_before(
            a,
            b,
        ) && i < j),
        (Some(_), None) => true,
        (None, Some(_)) => false,
        (None, None) => i < j,
    }
}

/// The session files to search for an account, most recently modified first
/// (ties in their listed order; files of unknown time last), at most
/// [`MAX_SESSION_FILES_SEARCHED`] of them. `mtimes[i]` is the modification
/// time of file `i`, absent when unknown.
pub fn session_files_to_search(mtimes: &Vec<Option<SystemInstant>>) -> (res: Vec<usize>)
    ensures
        res@.len() == if mtimes@.len() < MAX_SESSION_FILES_SEARCHED {
            mtimes@.len()
        } else {
            MAX_SESSION_FILES_SEARCHED as nat
        },
        forall|a: int| 0 <= a < res@.len() ==> #[trigger] res@[a] < mtimes@.len(),
        forall|a: int, b: int|
            0 <= a < b < res@.len() ==> more_recent(mtimes@, #[trigger] res@[a] as int, #[trigger] res@[b] as int),
        forall|a: int, j: int|
            #![trigger res@[a], mtimes@[j]]
            0 <= a < res@.len() && 0 <= j < mtimes@.len() && !res@.contains(j as usize) ==> more_recent(
                mtimes@,
                res@[a] as int,
                j,
            ),
{
    let n = mtimes.len();
    let mut order: Vec<usize> = Vec::new();
    let mut i: usize = 0;
    while i < n
        invariant
            i <= n,
            n == mtimes@.len(),
            order@.len() == i,
            forall|a: int| 0 <= a < order@.len() ==> #[trigger] order@[a] < i,
            forall|j: usize| j < i ==> #[trigger] order@.contains(j),
            forall|a: int, b: int|
                0 <= a < b < order@.len() ==> more_recent(mtimes@, #[trigger] order@[a] as int, #[trigger] order@[b] as int),
        decreases n - i,
    {
        let ghost old_order = order@;
        let mut p = order.len();
        while p > 0 && more_recent_exec(mtimes, i, order[p - 1])
            invariant
                p <= order@.len(),
                old_order == order@,
                i < n,
                n == mtimes@.len(),
                forall|a: int| 0 <= a < order@.len() ==> #[trigger] order@[a] < i,
                forall|c: int| p <= c < old_order.len() ==> more_recent(mtimes@, i as int, #[trigger] old_order[c] as int),
            decreases p,
        {
            p = p - 1;
        }
        order.insert(p, i);
        proof {
            let o = order@;
            assert(o =~= old_order.take(p as int) + seq![i] + old_order.skip(p as int));
            if p > 0 {
                assert(!more_recent(mtimes@, i as int, old_order[p - 1] as int));
                lemma_more_recent_total(mtimes@, i as int, old_order[p - 1] as int);
            }
            assert forall|a: int, b: int| 0 <= a < b < o.len() implies more_recent(
                mtimes@,
                #[trigger] o[a] as int,
                #[trigger] o[b] as int,
            ) by {
                if b < p {
                    assert(o[a] == old_order[a] && o[b] == old_order[b]);
                } else if b == p {
                    assert(o[a] == old_order[a]);
                    if a < p - 1 {
                        lemma_more_recent_trans(mtimes@, old_order[a] as int, old_order[p - 1] as int, i as int);
                    }
                } else if a == p {
                    assert(o[b] == old_order[b - 1]);
                } else if a < p {
                    assert(o[a] == old_order[a] && o[b] == old_order[b - 1]);
                } else {
                    assert(o[a] == old_order[a - 1] && o[b] == old_order[b - 1]);
                }
            }
            assert forall|j: usize| j < i + 1 implies #[trigger] o.contains(j) by {
                if j == i {
                    assert(o[p as int] == i);
                } else {
                    assert(old_order.contains(j));
                    let c = choose|c: int| 0 <= c < old_order.len() && old_order[c] == j;
                    if c < p {
                        assert(o[c] == j);
                    } else {
                        assert(o[c + 1] == j);
                    }
                }
            }
        }
        i = i + 1;
    }
    let ghost full = order@;
    if order.len() > MAX_SESSION_FILES_SEARCHED {
        order.truncate(MAX_SESSION_FILES_SEARCHED);
    }
    proof {
        let r = order@;
        assert(r =~= full.take(r.len() as int));
        assert forall|a: int, j: int|
            #![trigger r[a], mtimes@[j]]
            0 <= a < r.len() && 0 <= j < mtimes@.len() && !r.contains(j as usize) implies more_recent(
            mtimes@,
            r[a] as int,
            j,
        ) by {
            assert(full.contains(j as usize));
            let c = choose|c: int| 0 <= c < full.len() && full[c] == j as usize;
            if c < r.len() {
                assert(r[c] == j as usize);
            }
            assert(full[a] == r[a]);
        }
    }
    order
}

/// The most recently modified session file (of those of unknown time, the
/// first listed; ties go to the first listed).
pub fn latest_session_file(mtimes: &Vec<Option<SystemInstant>>) -> (res: Result<usize, String>)
    ensures
        res matches Ok(i) ==> i < mtimes@.len() && forall|j: int|
            0 <= j < mtimes@.len() && j != i ==> more_recent(mtimes@, i as int, j),
        res matches Err(e) ==> mtimes@.len() == 0 && e@ == "No session files found"@,
        mtimes@.len() > 0 ==> res is Ok,
{
    let n = mtimes.len();
    if n == 0 {
        return Err(String::from_str("No session files found"));
    }
    let mut best: usize = 0;
    let mut i: usize = 1;
    while i < n
        invariant
            n == mtimes@.len(),
            best < i <= n,
            forall|j: int| 0 <= j < i && j != best ==> more_recent(mtimes@, best as int, j),
        decreases n - i,
    {
        if more_recent_exec(mtimes, i, best) {
            proof {
                assert forall|j: int| 0 <= j < i + 1 && j != i implies more_recent(mtimes@, i as int, j) by {
                    if j != best {
                        lemma_more_recent_trans(mtimes@, i as int, best as int, j);
                    }
                }
            }
            best = i;
        } else {
            proof {
                lemma_more_recent_total(mtimes@, i as int, best as int);
            }
        }
        i = i + 1;
    }
    Ok(best)
}


/// The line is the `session_meta` record of a session file.
pub open spec fn is_session_meta<F>(v: JsonValue<F>) -> bool {
    json_get_str(v, "type"@) == Some("session_meta"@)
}

/// The session id and creation time a `session_meta` record gives.
pub open spec fn meta_of<F>(v: JsonValue<F>) -> Result<(Seq<char>, Seq<char>), Seq<char>> {
    match json_get(v, "payload"@) {
        None => Err("Missing session payload"@),
        Some(p) => match json_get_str(p, "id"@) {
            None => Err("Missing session id"@),
            Some(id) => Ok(
                (
                    id,
                    match json_get_str(p, "timestamp"@) {
                        Some(t) => t,
                        None => Seq::empty(),
                    },
                ),
            ),
        },
    }
}

/// What the first `session_meta` record of a session file gives.
pub open spec fn session_meta<F>(lines: Seq<JsonValue<F>>) -> Result<(Seq<char>, Seq<char>), Seq<char>>
    decreases lines.len(),
{
    if lines.len() == 0 {
        Err("No session_meta found"@)
    } else if is_session_meta(lines[0]) {
        meta_of(lines[0])
    } else {
        session_meta(lines.drop_first())
    }
}

/// The session id and creation time (empty when not given) of a session
/// file, from its first `session_meta` record. `lines` are the file's lines
/// that are JSON values, in order.
pub fn parse_session_meta<F>(lines: &Vec<JsonValue<F>>) -> (res: Result<(String, String), String>)
    ensures
        match (res, session_meta(lines@)) {
            (Ok((a, b)), Ok((sa, sb))) => a@ == sa && b@ == sb,
            (Err(e), Err(se)) => e@ == se,
            _ => false,
        },
{
    let meta_type = String::from_str("session_meta");
    let mut i: usize = 0;
    assert(lines@.skip(0) =~= lines@);
    while i < lines.len()
        invariant
            i <= lines@.len(),
            meta_type@ == "session_meta"@,
            session_meta(lines@) == session_meta(lines@.skip(i as int)),
        decreases lines@.len() - i,
    {
        assert(lines@.skip(i as int)[0] == lines@[i as int]);
        assert(lines@.skip(i as int).drop_first() =~= lines@.skip(i + 1));
        let v = &lines[i];
        let is_meta = match get_str(v, "type") {
            Some(t) => *t == meta_type,
            None => false,
        };
        if is_meta {
            let payload = match get(v, "payload") {
                Some(p) => p,
                None => return Err(String::from_str("Missing session payload")),
            };
            let id = match get_str(payload, "id") {
                Some(x) => x.clone(),
                None => return Err(String::from_str("Missing session id")),
            };
            let created = match get_str(payload, "timestamp") {
                Some(t) => t.clone(),
                None => String::new(),
            };
            return Ok((id, created));
        }
        i = i + 1;
    }
    Err(String::from_str("No session_meta found"))
}


/// Usage figures are given only for windows whose percentages are in range
/// and whose reset times lie between 2000 and 2100. The five-hour figures are
/// the primary window's, the weekly ones the secondary window's: each reset
/// time is that window's own `resets_at`, brought to milliseconds.
pub proof fn law_checked_limits_valid<P>(rl: RateLimits<P>, c: (P, int, P, int))
    requires
        checked_rate_limits(rl) == Ok::<(P, int, P, int), Seq<char>>(c),
    ensures
        rl.primary matches Some(p) && p.used_percent_in_range && p.used_percent == c.0,
        rl.secondary matches Some(s) && s.used_percent_in_range && s.used_percent == c.2,
        MIN_VALID_EPOCH_MS <= c.1 <= MAX_VALID_EPOCH_MS,
        MIN_VALID_EPOCH_MS <= c.3 <= MAX_VALID_EPOCH_MS,
        rl.primary matches Some(p) && normalized_timestamp(p.resets_at as int) == Ok::<int, Seq<char>>(c.1),
        rl.secondary matches Some(s) && normalized_timestamp(s.resets_at as int) == Ok::<int, Seq<char>>(c.3),
        c.1 == (if rl.primary->0.resets_at >= MILLISECONDS_THRESHOLD {
            rl.primary->0.resets_at as int
        } else {
            rl.primary->0.resets_at * 1000
        }),
        c.3 == (if rl.secondary->0.resets_at >= MILLISECONDS_THRESHOLD {
            rl.secondary->0.resets_at as int
        } else {
            rl.secondary->0.resets_at * 1000
        }),
{
}

} // verus!
