use codex_manager::paths::{
    get_account_auth_path, get_accounts_store_path, get_app_data_dir, get_auth_store_dir,
    get_candidate_codex_auth_paths, get_candidate_codex_sessions_dirs, get_codex_auth_path,
    get_codex_auth_source_platform, get_codex_manager_dir, get_codex_sessions_dir,
    get_default_wsl_home_dir, get_effective_codex_home_dir, get_effective_home_dir,
    get_primary_codex_home_dir, get_primary_home_dir, get_secondary_codex_auth_path,
    get_usage_bindings_path, has_jsonl_extension, join_path, session_logs_to_bind, sessions_dir_to_watch, FsChange,
    HomeEnv,
};

fn unix_env() -> HomeEnv {
    HomeEnv {
        absolute_home_var: Some("/home/alice".to_string()),
        home_dir: Some("/home/other".to_string()),
        data_local_dir: Some("/home/alice/.local/share".to_string()),
        wsl_home: None,
        windows: false,
    }
}

fn wsl_env() -> HomeEnv {
    HomeEnv {
        absolute_home_var: None,
        home_dir: Some("C:\\Users\\alice".to_string()),
        data_local_dir: Some("C:\\Users\\alice\\AppData\\Local".to_string()),
        wsl_home: Some("\\\\wsl$\\Ubuntu\\home\\alice".to_string()),
        windows: true,
    }
}

fn empty_env() -> HomeEnv {
    HomeEnv { absolute_home_var: None, home_dir: None, data_local_dir: None, wsl_home: None, windows: false }
}

#[test]
fn join_adds_one_separator() {
    assert_eq!(join_path("/home/a", ".codex", false), "/home/a/.codex");
    assert_eq!(join_path("/home/a/", ".codex", false), "/home/a/.codex");
    assert_eq!(join_path("", "x", false), "x");
    assert_eq!(join_path("/home/a", "", false), "/home/a/");
}

#[test]
fn join_on_windows() {
    assert_eq!(join_path("C:\\Users\\a", ".codex", true), "C:\\Users\\a\\.codex");
    assert_eq!(join_path("C:\\Users\\a\\", ".codex", true), "C:\\Users\\a\\.codex");
    assert_eq!(join_path("C:/Users/a/", ".codex", true), "C:/Users/a/.codex");
    // a backslash separates nothing elsewhere
    assert_eq!(join_path("/home/a\\", "x", false), "/home/a\\/x");
}

#[test]
fn join_with_absolute_component_replaces() {
    assert_eq!(join_path("/home/a", "/etc/passwd", false), "/etc/passwd");
    assert_eq!(join_path("/a", "\\b", false), "/a/\\b");
}

#[test]
fn primary_home_prefers_absolute_home_var() {
    assert_eq!(get_primary_home_dir(&unix_env()), Ok("/home/alice".to_string()));
    let mut env = unix_env();
    env.absolute_home_var = None;
    assert_eq!(get_primary_home_dir(&env), Ok("/home/other".to_string()));
    assert_eq!(get_primary_home_dir(&empty_env()), Err("Cannot find home directory".to_string()));
}

#[test]
fn effective_home_prefers_wsl() {
    assert_eq!(get_effective_home_dir(&wsl_env()), Ok("\\\\wsl$\\Ubuntu\\home\\alice".to_string()));
    assert_eq!(get_effective_home_dir(&unix_env()), Ok("/home/alice".to_string()));
}

#[test]
fn app_data_dir_and_store_files() {
    assert_eq!(get_app_data_dir(&unix_env()), Ok("/home/alice/.local/share/codex-manager".to_string()));
    assert_eq!(
        get_accounts_store_path(&unix_env()),
        Ok("/home/alice/.local/share/codex-manager/accounts.json".to_string())
    );
    assert_eq!(
        get_usage_bindings_path(&unix_env()),
        Ok("/home/alice/.local/share/codex-manager/usage-bindings.json".to_string())
    );
    assert_eq!(get_app_data_dir(&empty_env()), Err("Cannot find app data directory".to_string()));
}

#[test]
fn codex_directories() {
    let env = unix_env();
    assert_eq!(get_codex_manager_dir(&env), Ok("/home/alice/.codex_manager".to_string()));
    assert_eq!(get_primary_codex_home_dir(&env), Ok("/home/alice/.codex".to_string()));
    assert_eq!(get_effective_codex_home_dir(&env), Ok("/home/alice/.codex".to_string()));
    assert_eq!(get_codex_auth_path(&env), Ok("/home/alice/.codex/auth.json".to_string()));
    assert_eq!(get_auth_store_dir(&env), Ok("/home/alice/.codex_manager/auths".to_string()));
    assert_eq!(
        get_account_auth_path(&env, "acct-1"),
        Ok("/home/alice/.codex_manager/auths/acct-1.json".to_string())
    );
}

#[test]
fn codex_directories_fail_without_home() {
    let env = empty_env();
    assert_eq!(get_codex_auth_path(&env), Err("Cannot find home directory".to_string()));
    assert_eq!(get_candidate_codex_auth_paths(&env), Err("Cannot find home directory".to_string()));
    assert_eq!(get_secondary_codex_auth_path(&env), None);
}

#[test]
fn single_candidate_without_wsl() {
    let env = unix_env();
    assert_eq!(get_secondary_codex_auth_path(&env), None);
    assert_eq!(
        get_candidate_codex_auth_paths(&env),
        Ok(vec!["/home/alice/.codex/auth.json".to_string()])
    );
    assert_eq!(
        get_candidate_codex_sessions_dirs(&env),
        Ok(vec!["/home/alice/.codex/sessions".to_string()])
    );
}

#[test]
fn two_candidates_with_wsl() {
    let env = wsl_env();
    let wsl_auth = "\\\\wsl$\\Ubuntu\\home\\alice\\.codex\\auth.json".to_string();
    let win_auth = "C:\\Users\\alice\\.codex\\auth.json".to_string();
    assert_eq!(get_secondary_codex_auth_path(&env), Some(win_auth.clone()));
    assert_eq!(get_candidate_codex_auth_paths(&env), Ok(vec![wsl_auth, win_auth]));
    assert_eq!(
        get_candidate_codex_sessions_dirs(&env),
        Ok(vec![
            "\\\\wsl$\\Ubuntu\\home\\alice\\.codex\\sessions".to_string(),
            "C:\\Users\\alice\\.codex\\sessions".to_string(),
        ])
    );
}

#[test]
fn source_platform_by_prefix() {
    assert_eq!(get_codex_auth_source_platform("\\\\wsl$\\Ubuntu\\home\\a\\auth.json"), "wsl");
    assert_eq!(get_codex_auth_source_platform("C:\\Users\\a\\.codex\\auth.json"), "windows");
    assert_eq!(get_codex_auth_source_platform("\\\\wsl\\x"), "windows");
    assert_eq!(get_codex_auth_source_platform(""), "windows");
}

#[test]
fn wsl_home_from_probe_output() {
    assert_eq!(
        get_default_wsl_home_dir(Some("Ubuntu\n/home/alice\n")),
        Some("\\\\wsl$\\Ubuntu\\home\\alice".to_string())
    );
    assert_eq!(
        get_default_wsl_home_dir(Some("  Ubuntu-22.04 \r\n\r\n  /home/bob/dev  \r\n")),
        Some("\\\\wsl$\\Ubuntu-22.04\\home\\bob\\dev".to_string())
    );
    assert_eq!(
        get_default_wsl_home_dir(Some("Debian\n//root")),
        Some("\\\\wsl$\\Debian\\root".to_string())
    );
}

#[test]
fn wsl_home_rejected_probe_output() {
    assert_eq!(get_default_wsl_home_dir(None), None);
    assert_eq!(get_default_wsl_home_dir(Some("")), None);
    assert_eq!(get_default_wsl_home_dir(Some("Ubuntu\n")), None);
    assert_eq!(get_default_wsl_home_dir(Some("Ubuntu\nhome/alice")), None);
    assert_eq!(get_default_wsl_home_dir(Some("\n\n/home/alice\n")), None);
}

#[test]
fn sessions_dir_choice() {
    let dirs = vec!["/a".to_string(), "/b".to_string()];
    assert_eq!(get_codex_sessions_dir(dirs.clone(), &vec![false, true]), Ok("/b".to_string()));
    assert_eq!(get_codex_sessions_dir(dirs.clone(), &vec![true, true]), Ok("/a".to_string()));
    assert_eq!(get_codex_sessions_dir(dirs, &vec![false, false]), Ok("/a".to_string()));
    assert_eq!(
        get_codex_sessions_dir(vec![], &vec![]),
        Err("Cannot find home directory".to_string())
    );
}

#[test]
fn jsonl_extension() {
    assert!(has_jsonl_extension("/s/2025/01/rollout-1.jsonl", false));
    assert!(has_jsonl_extension("a.b.jsonl", false));
    assert!(has_jsonl_extension("dir/x.jsonl/", false));
    assert!(!has_jsonl_extension("/s/.jsonl", false));
    assert!(!has_jsonl_extension("/s/x.json", false));
    assert!(!has_jsonl_extension("/s/x.jsonl.bak", false));
    assert!(!has_jsonl_extension("/s/x.jsonl/..", false));
    assert!(!has_jsonl_extension("/", false));
    assert!(!has_jsonl_extension("", false));
    assert!(!has_jsonl_extension("jsonl", false));
}

#[test]
fn jsonl_extension_on_windows() {
    assert!(has_jsonl_extension("C:\\s\\2025\\rollout-1.jsonl", true));
    assert!(!has_jsonl_extension("C:\\s\\.jsonl", true));
    assert!(!has_jsonl_extension("C:\\s\\x.jsonl\\..", true));
    // elsewhere a backslash is part of the file name
    assert!(has_jsonl_extension("/s/a\\.jsonl", false));
    assert!(!has_jsonl_extension("/s/a\\.jsonl", true));
}

#[test]
fn logs_to_bind_on_changes() {
    let paths = vec!["/s/a.jsonl".to_string(), "/s/b.txt".to_string(), "/s/c.jsonl".to_string()];
    assert_eq!(
        session_logs_to_bind(FsChange::Created, paths.clone(), false),
        vec!["/s/a.jsonl".to_string(), "/s/c.jsonl".to_string()]
    );
    assert_eq!(
        session_logs_to_bind(FsChange::Modified, paths.clone(), false),
        vec!["/s/a.jsonl".to_string(), "/s/c.jsonl".to_string()]
    );
    assert!(session_logs_to_bind(FsChange::Other, paths, false).is_empty());
}

#[test]
fn codex_auth_in_wsl_home_is_reported_as_wsl() {
    let path = get_codex_auth_path(&wsl_env()).unwrap();
    assert_eq!(get_codex_auth_source_platform(&path), "wsl");
    let path = get_codex_auth_path(&unix_env()).unwrap();
    assert_eq!(get_codex_auth_source_platform(&path), "windows");
}

#[test]
fn join_keeps_the_drive_on_windows() {
    assert_eq!(join_path("C:\\Users\\a\\auths", "\\x.json", true), "C:\\x.json");
    assert_eq!(join_path("\\Users\\a", "\\x.json", true), "\\x.json");
    assert_eq!(join_path("C:\\a", "D:x", true), "D:x");
    assert_eq!(join_path("C:", "x", true), "C:x");
    assert_eq!(join_path("C:\\a", "\\\\srv\\share", true), "\\\\srv\\share");
    assert_eq!(join_path("/a", "C:x", false), "/a/C:x");
}

#[test]
fn watcher_watches_only_an_existing_sessions_dir() {
    assert_eq!(sessions_dir_to_watch(Ok("/s".to_string()), true), Ok("/s".to_string()));
    assert_eq!(
        sessions_dir_to_watch(Ok("/s".to_string()), false),
        Err("Sessions directory not found for watcher".to_string())
    );
    assert_eq!(
        sessions_dir_to_watch(Err("Cannot find home directory".to_string()), true),
        Err("Failed to resolve sessions dir: Cannot find home directory".to_string())
    );
}
