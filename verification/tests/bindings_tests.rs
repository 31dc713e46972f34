use codex_manager::auth::{AuthConfig, AuthTokens};
use codex_manager::bindings::{
    bind_session_file_to_account, bind_session_file_to_current_auth, bindings_for_account, bound_usage_account_error,
    empty_usage_bindings_store, latest_bound_session_path, sort_bindings, update_usage_bindings,
    AccountBindings, SessionBinding, UsageBindingsStore, MAX_BINDINGS_PER_ACCOUNT,
};
use codex_manager::timestamps::SystemInstant;

fn b(session: &str, created: &str, file: &str, bound: &str) -> SessionBinding {
    SessionBinding {
        session_id: session.to_string(),
        created_at: created.to_string(),
        file_path: file.to_string(),
        bound_at: bound.to_string(),
    }
}

fn entries<'a>(store: &'a UsageBindingsStore, account: &str) -> &'a Vec<SessionBinding> {
    bindings_for_account(store, account).unwrap()
}

#[test]
fn empty_store_has_version_and_no_accounts() {
    let store = empty_usage_bindings_store();
    assert_eq!(store.version, "1.0.0");
    assert!(store.bindings.is_empty());
}

#[test]
fn first_binding_creates_account() {
    let mut store = empty_usage_bindings_store();
    assert_eq!(update_usage_bindings(&mut store, "acct", b("s1", "2025-01-01", "/f1", "10")), Ok(()));
    assert_eq!(entries(&store, "acct"), &vec![b("s1", "2025-01-01", "/f1", "10")]);
}

#[test]
fn same_session_is_replaced() {
    let mut store = empty_usage_bindings_store();
    update_usage_bindings(&mut store, "acct", b("s1", "2025-01-01", "/f1", "10")).unwrap();
    update_usage_bindings(&mut store, "acct", b("s1", "2025-01-01", "/f1-moved", "20")).unwrap();
    assert_eq!(entries(&store, "acct"), &vec![b("s1", "2025-01-01", "/f1-moved", "20")]);
}

#[test]
fn bindings_sorted_by_created_then_bound() {
    let mut store = empty_usage_bindings_store();
    update_usage_bindings(&mut store, "acct", b("s3", "2025-03", "/f3", "1")).unwrap();
    update_usage_bindings(&mut store, "acct", b("s1", "2025-01", "/f1", "9")).unwrap();
    update_usage_bindings(&mut store, "acct", b("s2", "2025-01", "/f2", "5")).unwrap();
    let got: Vec<&str> = entries(&store, "acct").iter().map(|e| e.session_id.as_str()).collect();
    assert_eq!(got, vec!["s2", "s1", "s3"]);
}

#[test]
fn binding_held_by_another_account_is_refused() {
    let mut store = empty_usage_bindings_store();
    update_usage_bindings(&mut store, "a", b("s1", "1", "/f1", "1")).unwrap();
    let before = store.clone();
    assert_eq!(
        update_usage_bindings(&mut store, "b", b("s1", "2", "/other", "2")),
        Err("Session file already bound to another account".to_string())
    );
    assert_eq!(
        update_usage_bindings(&mut store, "b", b("s9", "2", "/f1", "2")),
        Err("Session file already bound to another account".to_string())
    );
    assert_eq!(store, before);
}

#[test]
fn other_accounts_untouched() {
    let mut store = empty_usage_bindings_store();
    update_usage_bindings(&mut store, "a", b("s1", "1", "/f1", "1")).unwrap();
    update_usage_bindings(&mut store, "b", b("s2", "1", "/f2", "1")).unwrap();
    assert_eq!(entries(&store, "a"), &vec![b("s1", "1", "/f1", "1")]);
    assert_eq!(entries(&store, "b"), &vec![b("s2", "1", "/f2", "1")]);
}

#[test]
fn only_newest_bindings_are_kept() {
    let mut store = empty_usage_bindings_store();
    for i in 0..(MAX_BINDINGS_PER_ACCOUNT + 5) {
        let created = format!("{:05}", i);
        update_usage_bindings(&mut store, "a", b(&format!("s{}", i), &created, &format!("/f{}", i), "0"))
            .unwrap();
    }
    let es = entries(&store, "a");
    assert_eq!(es.len(), MAX_BINDINGS_PER_ACCOUNT);
    assert_eq!(es[0].session_id, "s5");
    assert_eq!(es[MAX_BINDINGS_PER_ACCOUNT - 1].session_id, format!("s{}", MAX_BINDINGS_PER_ACCOUNT + 4));
}

#[test]
fn stable_sort_keeps_equal_keys_in_order() {
    let input = vec![b("x", "2", "/a", "1"), b("y", "1", "/b", "1"), b("z", "2", "/c", "1")];
    let sorted = sort_bindings(input);
    let ids: Vec<&str> = sorted.iter().map(|e| e.session_id.as_str()).collect();
    assert_eq!(ids, vec!["y", "x", "z"]);
}

#[test]
fn missing_account_has_no_bindings() {
    let store = empty_usage_bindings_store();
    assert_eq!(
        bindings_for_account(&store, "nobody").err(),
        Some("No usage bindings found for account".to_string())
    );
}

#[test]
fn latest_bound_path_by_mtime() {
    let es = vec![b("s1", "1", "/f1", "1"), b("s2", "2", "/f2", "2"), b("s3", "3", "/f3", "3")];
    let t = |n: u128| Some(SystemInstant::AfterEpoch(n));
    assert_eq!(latest_bound_session_path(&es, &vec![t(5), t(9), None]), Ok("/f2".to_string()));
    // ties go to the binding listed last
    assert_eq!(latest_bound_session_path(&es, &vec![t(9), t(9), t(1)]), Ok("/f2".to_string()));
    assert_eq!(
        latest_bound_session_path(&es, &vec![Some(SystemInstant::BeforeEpoch(3)), None, None]),
        Ok("/f1".to_string())
    );
    assert_eq!(
        latest_bound_session_path(&es, &vec![None, None, None]),
        Err("No valid bound session files found".to_string())
    );
}

#[test]
fn bind_file_with_session_meta() {
    let mut store = empty_usage_bindings_store();
    let now = SystemInstant::AfterEpoch(1_700_000_000_123_456_789);
    let r = bind_session_file_to_account(
        &mut store,
        "acct",
        "/s/a.jsonl",
        Ok(("sess-1".to_string(), "2025-01-02T00:00:00Z".to_string())),
        Some(SystemInstant::AfterEpoch(5_000_000_000)),
        &now,
    );
    assert_eq!(r, Ok(()));
    assert_eq!(
        entries(&store, "acct"),
        &vec![b("sess-1", "2025-01-02T00:00:00Z", "/s/a.jsonl", "1700000000123")]
    );
}

#[test]
fn bind_file_without_session_meta_uses_path_and_mtime() {
    let mut store = empty_usage_bindings_store();
    let now = SystemInstant::AfterEpoch(42_000_000);
    bind_session_file_to_account(
        &mut store,
        "acct",
        "/s/b.jsonl",
        Err("No session_meta found".to_string()),
        Some(SystemInstant::AfterEpoch(1_234_999_999_999)),
        &now,
    )
    .unwrap();
    assert_eq!(entries(&store, "acct"), &vec![b("/s/b.jsonl", "1234", "/s/b.jsonl", "42")]);
    bind_session_file_to_account(
        &mut store,
        "acct",
        "/s/c.jsonl",
        Err("x".to_string()),
        None,
        &SystemInstant::BeforeEpoch(7),
    )
    .unwrap();
    assert_eq!(entries(&store, "acct")[0], b("/s/c.jsonl", "0", "/s/c.jsonl", "0"));
}

#[test]
fn bind_to_current_auth_needs_account_id() {
    let mut store = empty_usage_bindings_store();
    let now = SystemInstant::AfterEpoch(0);
    let no_id = AuthConfig { tokens: Some(AuthTokens { access_token: Some("t".to_string()), account_id: None }) };
    assert_eq!(
        bind_session_file_to_current_auth(&mut store, &no_id, "/s/a.jsonl", Err("e".to_string()), None, &now),
        Err("Missing account_id in auth.json".to_string())
    );
    let with_id =
        AuthConfig { tokens: Some(AuthTokens { access_token: None, account_id: Some("acct-9".to_string()) }) };
    bind_session_file_to_current_auth(&mut store, &with_id, "/s/a.jsonl", Err("e".to_string()), None, &now)
        .unwrap();
    assert_eq!(entries(&store, "acct-9").len(), 1);
}

#[test]
fn store_can_be_built_by_hand() {
    let mut store = UsageBindingsStore {
        version: "1.0.0".to_string(),
        bindings: vec![AccountBindings { account_id: "a".to_string(), entries: vec![] }],
    };
    update_usage_bindings(&mut store, "a", b("s", "1", "/f", "1")).unwrap();
    assert_eq!(store.bindings.len(), 1);
    assert_eq!(store.bindings[0].entries.len(), 1);
}

#[test]
fn bound_usage_needs_an_account_id() {
    assert_eq!(bound_usage_account_error(""), Some("Missing account id".to_string()));
    assert_eq!(bound_usage_account_error("acct"), None);
}

#[test]
fn repeating_a_binding_changes_nothing() {
    let mut store = empty_usage_bindings_store();
    update_usage_bindings(&mut store, "acct", b("s1", "2025-01-01", "/f1", "10")).unwrap();
    update_usage_bindings(&mut store, "acct", b("s2", "2025-01-02", "/f2", "11")).unwrap();
    let once = store.clone();
    assert_eq!(update_usage_bindings(&mut store, "acct", b("s2", "2025-01-02", "/f2", "11")), Ok(()));
    assert_eq!(store, once);
    assert_eq!(entries(&store, "acct").iter().filter(|x| x.session_id == "s2").count(), 1);
}

#[test]
fn repeating_a_binding_dropped_from_a_full_account_changes_nothing() {
    let mut store = empty_usage_bindings_store();
    for i in 0..MAX_BINDINGS_PER_ACCOUNT {
        let created = format!("2025-01-01T{:04}", i);
        update_usage_bindings(&mut store, "acct", b(&format!("s{}", i), &created, &format!("/f{}", i), "1")).unwrap();
    }
    let oldest = b("old", "2024-01-01", "/old", "1");
    update_usage_bindings(&mut store, "acct", oldest.clone()).unwrap();
    assert!(!entries(&store, "acct").contains(&oldest));
    let once = store.clone();
    assert_eq!(update_usage_bindings(&mut store, "acct", oldest), Ok(()));
    assert_eq!(store, once);
}
