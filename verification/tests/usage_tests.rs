use codex_manager::json::{JsonMember, JsonNumber, JsonValue};
use codex_manager::timestamps::SystemInstant;
use codex_manager::usage::{
    account_scan_finish, account_scan_line, account_scan_start, account_usage_answer, check_rate_limits, find_latest_rate_limits,
    last_updated_string, latest_session_file, no_usage_for_account, parse_rate_limits_from_file,
    parse_session_meta, session_files_to_search, AccountScan, RateLimitEntry, RateLimits, SessionEvent,
    SessionUsage, MAX_SESSION_FILES_SEARCHED,
};

type J = JsonValue<f64>;

fn s(x: &str) -> J {
    JsonValue::Str(x.to_string())
}

fn obj(members: Vec<(&str, J)>) -> J {
    JsonValue::Object(
        members.into_iter().map(|(k, v)| JsonMember { key: k.to_string(), value: v }).collect(),
    )
}

fn entry(percent: f64, resets_at: i64) -> RateLimitEntry<f64> {
    RateLimitEntry {
        used_percent: percent,
        used_percent_in_range: (0.0..=100.0).contains(&percent),
        window_minutes: 300,
        resets_at,
    }
}

fn limits(p: Option<RateLimitEntry<f64>>, s: Option<RateLimitEntry<f64>>) -> RateLimits<f64> {
    RateLimits { primary: p, secondary: s }
}

fn event(t: &str, rl: Option<RateLimits<f64>>) -> Option<SessionEvent<f64>> {
    Some(SessionEvent { msg_type: t.to_string(), rate_limits: rl })
}

fn at_ms(ms: u128) -> SystemInstant {
    SystemInstant::AfterEpoch(ms * 1_000_000)
}

fn good() -> RateLimits<f64> {
    limits(Some(entry(12.5, 1_800_000_000)), Some(entry(40.0, 1_800_000_000_000)))
}

#[test]
fn latest_rate_limits_come_from_last_rate_limit_event() {
    let older = limits(Some(entry(1.0, 1_800_000_000)), None);
    let newer = good();
    let events = vec![
        event("event_msg", Some(older)),
        None,
        event("token_count", Some(newer.clone())),
        event("response_item", Some(limits(None, None))),
        event("event_msg", None),
    ];
    assert_eq!(find_latest_rate_limits(&events), Some(&newer));
    assert_eq!(find_latest_rate_limits::<f64>(&vec![None, event("other", Some(good()))]), None);
}

#[test]
fn checks_run_in_order() {
    assert_eq!(check_rate_limits(&limits(None, None)), Err("No primary rate limit found".to_string()));
    assert_eq!(
        check_rate_limits(&limits(Some(entry(1.0, 0)), None)),
        Err("No secondary rate limit found".to_string())
    );
    assert_eq!(
        check_rate_limits(&limits(Some(entry(1.0, 0)), Some(entry(101.0, 0)))),
        Err("Invalid used_percent in rate_limits".to_string())
    );
    assert_eq!(
        check_rate_limits(&limits(Some(entry(1.0, 0)), Some(entry(2.0, 1_800_000_000)))),
        Err("Invalid reset timestamp".to_string())
    );
    assert_eq!(
        check_rate_limits(&limits(Some(entry(1.0, 1_800_000_000)), Some(entry(2.0, 5_000_000_000_000)))),
        Err("Reset timestamp out of valid range".to_string())
    );
    assert_eq!(check_rate_limits(&good()), Ok((12.5, 1_800_000_000_000, 40.0, 1_800_000_000_000)));
}

#[test]
fn last_updated_uses_file_time_else_now() {
    let now = at_ms(1_700_000_000_123);
    assert_eq!(last_updated_string(&Some(at_ms(1_690_000_000_000)), &now), "1690000000000");
    assert_eq!(last_updated_string(&None, &now), "1700000000123");
    assert_eq!(last_updated_string(&Some(SystemInstant::BeforeEpoch(5)), &now), "1700000000123");
}

#[test]
fn usage_of_a_session_file() {
    let events = vec![event("event_msg", Some(good()))];
    let r = parse_rate_limits_from_file(&events, &Some(at_ms(1_690_000_000_000)), &at_ms(1), "/s/a.jsonl");
    assert_eq!(
        r,
        Ok(SessionUsage {
            five_hour_used_percent: 12.5,
            five_hour_reset_time_ms: 1_800_000_000_000,
            weekly_used_percent: 40.0,
            weekly_reset_time_ms: 1_800_000_000_000,
            last_updated: "1690000000000".to_string(),
            source_file: "/s/a.jsonl".to_string(),
        })
    );
    assert_eq!(
        parse_rate_limits_from_file::<f64>(&vec![None], &None, &at_ms(1), "/s/a.jsonl"),
        Err("No rate limits found in session file".to_string())
    );
    let bad = vec![event("event_msg", Some(limits(Some(entry(1.0, 1)), None)))];
    assert_eq!(
        parse_rate_limits_from_file(&bad, &None, &at_ms(1), "/s/a.jsonl"),
        Err("No secondary rate limit found".to_string())
    );
}

fn meta_line(email: &str) -> J {
    obj(vec![("type", s("session_meta")), ("payload", obj(vec![("user", s(email))]))])
}

#[test]
fn account_scan_finds_account_and_latest_limits() {
    let email = "me@example.com".to_string();
    let mut scan: AccountScan<f64> = account_scan_start();
    assert!(!scan.found_account && scan.latest.is_none());
    account_scan_line(&mut scan, &obj(vec![("type", s("event_msg"))]), event("event_msg", Some(good())), &email);
    assert!(!scan.found_account);
    assert_eq!(scan.latest, Some(good()));
    account_scan_line(&mut scan, &meta_line("me@example.com"), None, &email);
    assert!(scan.found_account);
    account_scan_line(&mut scan, &obj(vec![]), event("token_count", None), &email);
    assert_eq!(scan.latest, Some(good()));
    let r = account_scan_finish(&scan, &None, &at_ms(1_700_000_000_000), "/s/b.jsonl");
    assert_eq!(r.unwrap().unwrap().last_updated, "1700000000000");
}

#[test]
fn account_is_named_only_by_meta_lines() {
    let email = "me@example.com".to_string();
    let mut scan: AccountScan<f64> = account_scan_start();
    let other = obj(vec![("type", s("response_item")), ("text", s("me@example.com"))]);
    account_scan_line(&mut scan, &other, None, &email);
    assert!(!scan.found_account);
    let ctx = obj(vec![("type", s("turn_context")), ("who", s("me@example.com"))]);
    account_scan_line(&mut scan, &ctx, None, &email);
    assert!(scan.found_account);
    let mut scan: AccountScan<f64> = account_scan_start();
    account_scan_line(&mut scan, &meta_line(""), None, &String::new());
    assert!(!scan.found_account);
}

#[test]
fn scan_verdicts() {
    let now = at_ms(1_700_000_000_000);
    let not_found = AccountScan { found_account: false, latest: Some(good()) };
    assert_eq!(account_scan_finish(&not_found, &None, &now, "f"), None);
    let no_limits: AccountScan<f64> = AccountScan { found_account: true, latest: None };
    assert_eq!(account_scan_finish(&no_limits, &None, &now, "f"), None);
    let half = AccountScan { found_account: true, latest: Some(limits(Some(entry(1.0, 1)), None)) };
    assert_eq!(account_scan_finish(&half, &None, &now, "f"), None);
    let bad = AccountScan {
        found_account: true,
        latest: Some(limits(Some(entry(-1.0, 1)), Some(entry(1.0, 1)))),
    };
    assert_eq!(
        account_scan_finish(&bad, &None, &now, "f"),
        Some(Err("Invalid used_percent in rate_limits".to_string()))
    );
    let ok = AccountScan { found_account: true, latest: Some(good()) };
    assert!(matches!(account_scan_finish(&ok, &None, &now, "f"), Some(Ok(_))));
}

#[test]
fn no_usage_message() {
    assert_eq!(no_usage_for_account("a@b.c"), "No usage data found for account: a@b.c");
}

#[test]
fn files_searched_newest_first() {
    let mtimes = vec![Some(at_ms(10)), None, Some(at_ms(30)), Some(at_ms(20)), Some(at_ms(30))];
    assert_eq!(session_files_to_search(&mtimes), vec![2, 4, 3, 0, 1]);
    assert_eq!(session_files_to_search(&vec![]), Vec::<usize>::new());
}

#[test]
fn at_most_twenty_files_are_searched() {
    let mtimes: Vec<Option<SystemInstant>> = (0..25u128).map(|i| Some(at_ms(i))).collect();
    let order = session_files_to_search(&mtimes);
    assert_eq!(order.len(), MAX_SESSION_FILES_SEARCHED);
    assert_eq!(order, (5..25usize).rev().collect::<Vec<_>>());
}

#[test]
fn latest_file() {
    let mtimes = vec![Some(at_ms(10)), None, Some(at_ms(30)), Some(at_ms(30))];
    assert_eq!(latest_session_file(&mtimes), Ok(2));
    assert_eq!(latest_session_file(&vec![None, None]), Ok(0));
    assert_eq!(latest_session_file(&vec![]), Err("No session files found".to_string()));
}

#[test]
fn session_meta_of_first_meta_line() {
    let lines = vec![
        obj(vec![("type", s("event_msg"))]),
        obj(vec![
            ("type", s("session_meta")),
            ("payload", obj(vec![("id", s("abc")), ("timestamp", s("2025-01-01T00:00:00Z"))])),
        ]),
        obj(vec![("type", s("session_meta")), ("payload", obj(vec![("id", s("later"))]))]),
    ];
    assert_eq!(
        parse_session_meta(&lines),
        Ok(("abc".to_string(), "2025-01-01T00:00:00Z".to_string()))
    );
    let lines = vec![obj(vec![("type", s("session_meta")), ("payload", obj(vec![("id", s("x"))]))])];
    assert_eq!(parse_session_meta(&lines), Ok(("x".to_string(), String::new())));
}

#[test]
fn session_meta_errors() {
    assert_eq!(parse_session_meta::<f64>(&vec![]), Err("No session_meta found".to_string()));
    let lines = vec![obj(vec![("type", s("session_meta"))])];
    assert_eq!(parse_session_meta(&lines), Err("Missing session payload".to_string()));
    let lines = vec![obj(vec![("type", s("session_meta")), ("payload", obj(vec![]))])];
    assert_eq!(parse_session_meta(&lines), Err("Missing session id".to_string()));
    let lines = vec![obj(vec![("type", s("session_meta")), ("payload", obj(vec![("id", JsonValue::Number(JsonNumber::PosInt(1)))]))])];
    assert_eq!(parse_session_meta(&lines), Err("Missing session id".to_string()));
}

fn usage(source: &str) -> SessionUsage<f64> {
    SessionUsage {
        five_hour_used_percent: 1.0,
        five_hour_reset_time_ms: 1_800_000_000_000,
        weekly_used_percent: 2.0,
        weekly_reset_time_ms: 1_800_000_000_000,
        last_updated: "1".to_string(),
        source_file: source.to_string(),
    }
}

#[test]
fn first_file_with_a_verdict_answers() {
    assert_eq!(
        account_usage_answer(vec![None, Some(Ok(usage("/b"))), Some(Ok(usage("/c")))], "a@b.c"),
        Ok(usage("/b"))
    );
    assert_eq!(
        account_usage_answer(vec![None, Some(Err("Invalid reset timestamp".to_string())), Some(Ok(usage("/c")))], "a@b.c"),
        Err("Invalid reset timestamp".to_string())
    );
    assert_eq!(
        account_usage_answer::<f64>(vec![None, None], "a@b.c"),
        Err("No usage data found for account: a@b.c".to_string())
    );
}
