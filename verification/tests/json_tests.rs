use codex_manager::json::{
    as_str, get, get_int, get_str, json_contains_string, member_lookup, to_int, JsonMember, JsonNumber,
    JsonValue,
};

type J = JsonValue<f64>;

fn s(x: &str) -> J {
    JsonValue::Str(x.to_string())
}

fn num(x: i64) -> J {
    if x >= 0 {
        JsonValue::Number(JsonNumber::PosInt(x as u64))
    } else {
        JsonValue::Number(JsonNumber::NegInt(x))
    }
}

fn float(x: f64) -> J {
    JsonValue::Number(JsonNumber::Float { value: x, rounded: x.round() as i64 })
}

fn obj(members: Vec<(&str, J)>) -> J {
    JsonValue::Object(
        members.into_iter().map(|(k, v)| JsonMember { key: k.to_string(), value: v }).collect(),
    )
}

#[test]
fn get_finds_first_member_with_key() {
    let v = obj(vec![("a", num(1)), ("b", num(2)), ("a", num(3))]);
    assert_eq!(get(&v, "a"), Some(&num(1)));
    assert_eq!(get(&v, "b"), Some(&num(2)));
    assert_eq!(get(&v, "c"), None);
    assert_eq!(get(&s("a"), "a"), None);
}

#[test]
fn member_lookup_on_members() {
    let members = vec![
        JsonMember { key: "x".to_string(), value: s("one") },
        JsonMember { key: "y".to_string(), value: JsonValue::Null },
    ];
    assert_eq!(member_lookup(&members, "y"), Some(&JsonValue::Null));
    assert_eq!(member_lookup(&members, "z"), None);
}

#[test]
fn strings_are_read_only_from_strings() {
    let v = obj(vec![("name", s("codex")), ("n", num(4))]);
    assert_eq!(get_str(&v, "name"), Some(&"codex".to_string()));
    assert_eq!(get_str(&v, "n"), None);
    assert_eq!(as_str(&s("x")), Some(&"x".to_string()));
    assert_eq!(as_str(&JsonValue::<f64>::Bool(true)), None);
}

#[test]
fn integers_from_numbers_and_strings() {
    assert_eq!(to_int(&num(42)), Some(42));
    assert_eq!(to_int(&num(-7)), Some(-7));
    assert_eq!(to_int(&JsonValue::<f64>::Number(JsonNumber::PosInt(u64::MAX))), Some(i64::MAX));
    assert_eq!(to_int(&float(1.6)), Some(2));
    assert_eq!(to_int(&float(-2.5)), Some(-3));
    assert_eq!(to_int(&s("123")), Some(123));
    assert_eq!(to_int(&s("-123")), Some(-123));
    assert_eq!(to_int(&s("+5")), Some(5));
    assert_eq!(to_int(&s("12a")), None);
    assert_eq!(to_int(&s("")), None);
    assert_eq!(to_int(&s(" 1")), None);
    assert_eq!(to_int(&s("9223372036854775808")), None);
    assert_eq!(to_int(&s("-9223372036854775808")), Some(i64::MIN));
    assert_eq!(to_int(&JsonValue::<f64>::Null), None);
    assert_eq!(to_int(&JsonValue::<f64>::Bool(true)), None);
}

#[test]
fn get_int_reads_member() {
    let v = obj(vec![("reset", s("1700000000")), ("w", float(299.6))]);
    assert_eq!(get_int(&v, "reset"), Some(1_700_000_000));
    assert_eq!(get_int(&v, "w"), Some(300));
    assert_eq!(get_int(&v, "missing"), None);
}

#[test]
fn contains_string_searches_nested_values() {
    let v = obj(vec![
        ("type", s("session_meta")),
        ("payload", obj(vec![("user", obj(vec![("emails", JsonValue::Array(vec![num(1), s("me@example.com")]))]))])),
    ]);
    assert!(json_contains_string(&v, &"me@example.com".to_string()));
    assert!(json_contains_string(&v, &"session_meta".to_string()));
    // keys are not values
    assert!(!json_contains_string(&v, &"payload".to_string()));
    assert!(!json_contains_string(&v, &"me@example".to_string()));
    assert!(!json_contains_string(&num(1), &"1".to_string()));
}
