use codex_manager::auth::{
    collect_codex_auth_sources, extract_auth_credentials, get_current_auth_account_id, wants_account_metadata,
    wham_account_metadata,
    AuthConfig, AuthTokens, CodexAuthSource, WhamAccountEntry, WhamAccountMetadata,
};

fn auth(token: Option<&str>, id: Option<&str>) -> AuthConfig {
    AuthConfig {
        tokens: Some(AuthTokens {
            access_token: token.map(|t| t.to_string()),
            account_id: id.map(|i| i.to_string()),
        }),
    }
}

#[test]
fn credentials_and_their_errors() {
    assert_eq!(
        extract_auth_credentials(&auth(Some("tok"), Some("acc"))),
        Ok(("tok".to_string(), "acc".to_string()))
    );
    assert_eq!(extract_auth_credentials(&AuthConfig { tokens: None }), Err("Missing tokens in auth.json".to_string()));
    assert_eq!(extract_auth_credentials(&auth(None, Some("acc"))), Err("Missing access token".to_string()));
    assert_eq!(extract_auth_credentials(&auth(Some("tok"), None)), Err("Missing ChatGPT account ID".to_string()));
}

#[test]
fn current_account_id() {
    assert_eq!(get_current_auth_account_id(&auth(None, Some("acc"))), Ok("acc".to_string()));
    assert_eq!(get_current_auth_account_id(&auth(Some("t"), None)), Err("Missing account_id in auth.json".to_string()));
    assert_eq!(
        get_current_auth_account_id(&AuthConfig { tokens: None }),
        Err("Missing account_id in auth.json".to_string())
    );
}

fn read(path: &str, json: &str) -> (String, String) {
    (path.to_string(), json.to_string())
}

fn source(path: &str, platform: &str, json: &str) -> CodexAuthSource {
    CodexAuthSource { path: path.to_string(), platform: platform.to_string(), auth_json: json.to_string() }
}

#[test]
fn auth_sources_drop_repeated_contents() {
    let reads = vec![
        read("C:\\Users\\me\\.codex\\auth.json", "{\"a\":1}"),
        read("\\\\wsl.localhost\\Ubuntu\\home\\me\\.codex\\auth.json", "{\"a\":1}"),
        read("\\\\wsl$\\Ubuntu\\home\\me\\.codex\\auth.json", "{\"b\":2}"),
    ];
    assert_eq!(
        collect_codex_auth_sources(reads),
        Ok(vec![
            source("C:\\Users\\me\\.codex\\auth.json", "windows", "{\"a\":1}"),
            source("\\\\wsl$\\Ubuntu\\home\\me\\.codex\\auth.json", "wsl", "{\"b\":2}"),
        ])
    );
}

#[test]
fn no_auth_file_found() {
    assert_eq!(collect_codex_auth_sources(vec![]), Err("Codex auth.json not found".to_string()));
}

fn account(id: &str, structure: Option<&str>, name: Option<&str>) -> WhamAccountEntry {
    WhamAccountEntry {
        id: id.to_string(),
        account_user_id: Some(format!("user-{}", id)),
        structure: structure.map(|x| x.to_string()),
        plan_type: Some("team".to_string()),
        name: name.map(|x| x.to_string()),
    }
}

#[test]
fn workspace_metadata_of_matching_account() {
    let accounts = vec![
        account("a", Some("personal"), Some("Mine")),
        account("b", Some("workspace"), Some("Acme")),
        account("b", Some("workspace"), Some("Second")),
    ];
    assert_eq!(
        wham_account_metadata(accounts, "b"),
        Some(WhamAccountMetadata {
            workspace_name: Some("Acme".to_string()),
            account_user_id: Some("user-b".to_string()),
            account_structure: Some("workspace".to_string()),
            plan_type: Some("team".to_string()),
        })
    );
}

#[test]
fn workspace_name_only_for_named_workspaces() {
    let m = wham_account_metadata(vec![account("a", Some("personal"), Some("Mine"))], "a").unwrap();
    assert_eq!(m.workspace_name, None);
    assert_eq!(m.account_structure, Some("personal".to_string()));
    let m = wham_account_metadata(vec![account("a", Some("workspace"), Some("   "))], "a").unwrap();
    assert_eq!(m.workspace_name, None);
    let m = wham_account_metadata(vec![account("a", Some("workspace"), None)], "a").unwrap();
    assert_eq!(m.workspace_name, None);
    let m = wham_account_metadata(vec![account("a", Some("workspace"), Some(" Team "))], "a").unwrap();
    assert_eq!(m.workspace_name, Some(" Team ".to_string()));
}

#[test]
fn no_matching_account() {
    assert_eq!(wham_account_metadata(vec![account("a", None, None)], "z"), None);
    assert_eq!(wham_account_metadata(vec![], "z"), None);
}

#[test]
fn metadata_only_for_a_given_account() {
    assert!(!wants_account_metadata(""));
    assert!(wants_account_metadata("acct"));
}
