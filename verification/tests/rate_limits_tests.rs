use codex_manager::json::{JsonMember, JsonNumber, JsonValue};
use codex_manager::rate_limits::{
    detect_limit_kind, extract_reset_time_ms, kind_from_lowered, optional_rate_limit_candidate, parse_optional_rate_limit,
    parse_rate_limit_entry, parse_rate_limits, rate_limit_candidates, window_minutes, LimitKind, ParsedLimit,
};
use codex_manager::timestamps::SystemInstant;

type J = JsonValue<f64>;

const NOW_MS: i64 = 1_700_000_000_000;

fn now() -> SystemInstant {
    SystemInstant::AfterEpoch(NOW_MS as u128 * 1_000_000)
}

fn s(x: &str) -> J {
    JsonValue::Str(x.to_string())
}

fn num(x: i64) -> J {
    if x >= 0 {
        JsonValue::Number(JsonNumber::PosInt(x as u64))
    } else {
        JsonValue::Number(JsonNumber::NegInt(x))
    }
}

fn obj(members: Vec<(&str, J)>) -> J {
    JsonValue::Object(
        members.into_iter().map(|(k, v)| JsonMember { key: k.to_string(), value: v }).collect(),
    )
}

fn limit(percent: f64, reset: i64, minutes: Option<u32>) -> ParsedLimit<f64> {
    ParsedLimit { percent_left: percent, reset_time_ms: reset, window_minutes: minutes }
}

#[test]
fn absolute_reset_fields_in_order() {
    let v = obj(vec![("resets_at", num(1_800_000_000)), ("reset_at_ms", num(1_750_000_000_000))]);
    assert_eq!(extract_reset_time_ms(&v, &now()), Some(1_750_000_000_000));
    let v = obj(vec![("reset", s("1800000000")), ("reset_time_ms", s("oops"))]);
    assert_eq!(extract_reset_time_ms(&v, &now()), Some(1_800_000_000));
}

#[test]
fn relative_reset_counts_from_now() {
    let v = obj(vec![("reset_in_seconds", num(3600))]);
    assert_eq!(extract_reset_time_ms(&v, &now()), Some(NOW_MS + 3_600_000));
    let v = obj(vec![("reset_in", num(-10)), ("reset_after_seconds", s("x"))]);
    assert_eq!(extract_reset_time_ms(&v, &now()), Some(NOW_MS - 10_000));
    // an absolute field wins over a relative one
    let v = obj(vec![("reset_in_seconds", num(1)), ("reset_at", num(1_800_000_000))]);
    assert_eq!(extract_reset_time_ms(&v, &now()), Some(1_800_000_000));
}

#[test]
fn relative_reset_saturates() {
    let v = obj(vec![("reset_after_seconds", num(i64::MAX))]);
    assert_eq!(extract_reset_time_ms(&v, &now()), Some(i64::MAX));
    let v = obj(vec![("reset_in", num(i64::MIN))]);
    assert_eq!(extract_reset_time_ms(&v, &now()), Some(i64::MIN + NOW_MS));
}

#[test]
fn relative_reset_before_the_epoch_counts_from_zero() {
    let v = obj(vec![("reset_in_seconds", num(5))]);
    assert_eq!(extract_reset_time_ms(&v, &SystemInstant::BeforeEpoch(3)), Some(5_000));
}

#[test]
fn no_reset_field() {
    assert_eq!(extract_reset_time_ms(&obj(vec![("used_percent", num(3))]), &now()), None);
    assert_eq!(extract_reset_time_ms(&s("reset"), &now()), None);
}

#[test]
fn window_length_in_minutes() {
    assert_eq!(window_minutes(&obj(vec![("window_minutes", num(300))])), Some(300));
    assert_eq!(window_minutes(&obj(vec![("window_seconds", num(18_000))])), Some(300));
    assert_eq!(window_minutes(&obj(vec![("limit_window_seconds", num(604_800))])), Some(10_080));
    assert_eq!(window_minutes(&obj(vec![("limit_window_seconds", num(119))])), Some(1));
    assert_eq!(window_minutes(&obj(vec![("window_seconds", num(-30))])), Some(0));
    assert_eq!(window_minutes(&obj(vec![("window_seconds", num(-60))])), None);
    assert_eq!(
        window_minutes(&obj(vec![("window_minutes", num(-1)), ("window_seconds", num(600))])),
        Some(10)
    );
    assert_eq!(window_minutes(&obj(vec![("window_minutes", num(5_000_000_000))])), None);
    assert_eq!(window_minutes(&obj(vec![])), None);
}

#[test]
fn entry_errors_in_order() {
    let v = obj(vec![("reset_at", num(0))]);
    assert_eq!(
        parse_rate_limit_entry(&v, Err::<f64, String>("Missing used_percent".to_string()), &now()),
        Err("Missing used_percent".to_string())
    );
    assert_eq!(
        parse_rate_limit_entry(&obj(vec![]), Ok(10.0), &now()),
        Err("Missing reset timestamp".to_string())
    );
    assert_eq!(parse_rate_limit_entry(&v, Ok(10.0), &now()), Err("Invalid reset timestamp".to_string()));
    let v = obj(vec![("reset_at", num(5_000_000_000))]);
    assert_eq!(
        parse_rate_limit_entry(&v, Ok(10.0), &now()),
        Err("Reset timestamp out of valid range".to_string())
    );
}

#[test]
fn entry_parses() {
    let v = obj(vec![("reset_at", num(1_800_000_000)), ("window_minutes", num(300))]);
    assert_eq!(parse_rate_limit_entry(&v, Ok(75.5), &now()), Ok(limit(75.5, 1_800_000_000_000, Some(300))));
}

#[test]
fn kind_by_label() {
    let v = obj(vec![("type", s("WEEKLY_LIMIT"))]);
    assert_eq!(detect_limit_kind(&v, Some(300)), Some(LimitKind::Weekly));
    let v = obj(vec![("name", s("Five-Hour"))]);
    assert_eq!(detect_limit_kind(&v, None), Some(LimitKind::FiveHour));
    let v = obj(vec![("type", s("codex_5h"))]);
    assert_eq!(detect_limit_kind(&v, None), Some(LimitKind::FiveHour));
    let v = obj(vec![("type", s("per HOUR"))]);
    assert_eq!(detect_limit_kind(&v, Some(20_000)), Some(LimitKind::FiveHour));
    // `type` is the label even when `name` would say more
    let v = obj(vec![("type", s("main")), ("name", s("weekly"))]);
    assert_eq!(detect_limit_kind(&v, None), None);
}

#[test]
fn kind_by_window_length() {
    let v = obj(vec![("type", s("main"))]);
    assert_eq!(detect_limit_kind(&v, Some(360)), Some(LimitKind::FiveHour));
    assert_eq!(detect_limit_kind(&v, Some(361)), None);
    assert_eq!(detect_limit_kind(&v, Some(10_079)), None);
    assert_eq!(detect_limit_kind(&v, Some(10_080)), Some(LimitKind::Weekly));
    assert_eq!(detect_limit_kind(&obj(vec![]), None), None);
}

#[test]
fn candidates_from_pairs() {
    let p = obj(vec![("n", num(1))]);
    let q = obj(vec![("n", num(2))]);
    let v = obj(vec![("secondary", q.clone_value()), ("primary", p.clone_value())]);
    let c = rate_limit_candidates(&v).unwrap();
    assert!(c.paired);
    assert_eq!(c.entries, vec![&p, &q]);
    let v = obj(vec![("primary", num(0)), ("primary_window", p.clone_value()), ("secondary_window", q.clone_value())]);
    let c = rate_limit_candidates(&v).unwrap();
    assert!(c.paired);
    assert_eq!(c.entries, vec![&p, &q]);
}

#[test]
fn candidates_from_lists() {
    let items = vec![num(1), num(2), num(3)];
    let v = obj(vec![("limits", JsonValue::Array(vec![num(1), num(2), num(3)]))]);
    let c = rate_limit_candidates(&v).unwrap();
    assert!(!c.paired);
    assert_eq!(c.entries, items.iter().collect::<Vec<_>>());
    let v = JsonValue::Array(vec![num(1), num(2), num(3)]);
    let c = rate_limit_candidates(&v).unwrap();
    assert!(!c.paired);
    assert_eq!(c.entries.len(), 3);
    assert_eq!(
        rate_limit_candidates(&obj(vec![("limits", num(1))])).err(),
        Some("Missing rate_limit entries".to_string())
    );
    assert_eq!(rate_limit_candidates(&s("x")).err(), Some("Missing rate_limit entries".to_string()));
}

trait CloneValue {
    fn clone_value(&self) -> Self;
}

impl CloneValue for J {
    fn clone_value(&self) -> J {
        match self {
            JsonValue::Null => JsonValue::Null,
            JsonValue::Bool(b) => JsonValue::Bool(*b),
            JsonValue::Number(JsonNumber::PosInt(u)) => JsonValue::Number(JsonNumber::PosInt(*u)),
            JsonValue::Number(JsonNumber::NegInt(i)) => JsonValue::Number(JsonNumber::NegInt(*i)),
            JsonValue::Number(JsonNumber::Float { value, rounded }) => {
                JsonValue::Number(JsonNumber::Float { value: *value, rounded: *rounded })
            }
            JsonValue::Str(x) => JsonValue::Str(x.clone()),
            JsonValue::Array(items) => JsonValue::Array(items.iter().map(|i| i.clone_value()).collect()),
            JsonValue::Object(ms) => JsonValue::Object(
                ms.iter().map(|m| JsonMember { key: m.key.clone(), value: m.value.clone_value() }).collect(),
            ),
        }
    }
}

fn window(kind: &str, reset: i64, minutes: i64) -> J {
    obj(vec![("type", s(kind)), ("reset_at", num(reset)), ("window_minutes", num(minutes))])
}

#[test]
fn paired_windows_are_five_hour_then_weekly() {
    let v = obj(vec![
        ("primary", window("weekly", 1_800_000_000, 10_080)),
        ("secondary", window("hour", 1_800_000_001, 300)),
    ]);
    let c = rate_limit_candidates(&v).unwrap();
    let r = parse_rate_limits(&c, vec![Ok(10.0), Ok(20.0)], &now());
    assert_eq!(
        r,
        Ok((limit(10.0, 1_800_000_000_000, Some(10_080)), limit(20.0, 1_800_000_001_000, Some(300))))
    );
}

#[test]
fn listed_windows_go_by_kind() {
    let v = JsonValue::Array(vec![
        window("weekly", 1_800_000_000, 10_080),
        window("5h", 1_800_000_001, 300),
    ]);
    let c = rate_limit_candidates(&v).unwrap();
    let r = parse_rate_limits(&c, vec![Ok(1.0), Ok(2.0)], &now());
    assert_eq!(
        r,
        Ok((limit(2.0, 1_800_000_001_000, Some(300)), limit(1.0, 1_800_000_000_000, Some(10_080))))
    );
}

#[test]
fn listed_windows_of_unknown_kind_fill_slots_in_order() {
    let v = obj(vec![(
        "limits",
        JsonValue::Array(vec![
            window("a", 1_800_000_000, 1_000),
            window("b", 1_800_000_001, 2_000),
            window("c", 1_800_000_002, 3_000),
        ]),
    )]);
    let c = rate_limit_candidates(&v).unwrap();
    let r = parse_rate_limits(&c, vec![Ok(1.0), Ok(2.0), Ok(3.0)], &now());
    assert_eq!(
        r,
        Ok((limit(1.0, 1_800_000_000_000, Some(1_000)), limit(2.0, 1_800_000_001_000, Some(2_000))))
    );
}

#[test]
fn listed_windows_missing_a_slot() {
    let v = JsonValue::Array(vec![window("hour", 1_800_000_000, 300), window("5h", 1_800_000_001, 300)]);
    let c = rate_limit_candidates(&v).unwrap();
    let r = parse_rate_limits(&c, vec![Ok(1.0), Ok(2.0)], &now());
    assert_eq!(r, Err("Missing primary/weekly rate_limit data".to_string()));
}

#[test]
fn first_failing_window_gives_the_error() {
    let v = JsonValue::Array(vec![
        window("hour", 1_800_000_000, 300),
        obj(vec![("type", s("weekly"))]),
        window("week", 0, 10_080),
    ]);
    let c = rate_limit_candidates(&v).unwrap();
    let r = parse_rate_limits(&c, vec![Ok(1.0), Ok(2.0), Err("Missing used_percent".to_string())], &now());
    assert_eq!(r, Err("Missing reset timestamp".to_string()));
}

#[test]
fn optional_window_candidate() {
    let p = window("x", 1_800_000_000, 60);
    let v = obj(vec![("primary", p.clone_value()), ("limits", JsonValue::Array(vec![num(1)]))]);
    assert_eq!(optional_rate_limit_candidate(&v), Some(&p));
    let v = obj(vec![("limits", JsonValue::Array(vec![num(1), num(2)]))]);
    assert_eq!(optional_rate_limit_candidate(&v), Some(&num(1)));
    let v = obj(vec![("limits", JsonValue::Array(vec![]))]);
    assert_eq!(optional_rate_limit_candidate(&v), None);
    let v: J = JsonValue::Array(vec![]);
    assert_eq!(optional_rate_limit_candidate(&v), None);
    let v = obj(vec![("reset_at", num(1))]);
    assert_eq!(optional_rate_limit_candidate(&v), Some(&v));
}

#[test]
fn optional_window_parses_or_is_dropped() {
    let p = window("review", 1_800_000_000, 60);
    assert_eq!(
        parse_optional_rate_limit(Some(&p), Ok(40.0), &now()),
        Some(limit(40.0, 1_800_000_000_000, Some(60)))
    );
    assert_eq!(parse_optional_rate_limit(Some(&p), Err::<f64, String>("bad".to_string()), &now()), None);
    assert_eq!(parse_optional_rate_limit(Some(&obj(vec![])), Ok(40.0), &now()), None);
    assert_eq!(parse_optional_rate_limit::<f64, f64>(None, Ok(40.0), &now()), None);
}

#[test]
fn kind_from_a_lowered_label() {
    assert_eq!(kind_from_lowered(Some("weekly"), Some(300)), Some(LimitKind::Weekly));
    assert_eq!(kind_from_lowered(Some("WEEKLY"), Some(300)), Some(LimitKind::FiveHour));
    assert_eq!(kind_from_lowered(Some("5h window"), None), Some(LimitKind::FiveHour));
    assert_eq!(kind_from_lowered(None, Some(10_080)), Some(LimitKind::Weekly));
    assert_eq!(kind_from_lowered(Some("main"), Some(1_000)), None);
}
