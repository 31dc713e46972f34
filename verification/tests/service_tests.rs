use codex_manager::auth::{AuthConfig, AuthTokens};
use codex_manager::json::{JsonMember, JsonNumber, JsonValue};
use codex_manager::service::{
    accounts_check_error, accounts_check_request, code_review_rate_limit, http_proxy, missing_account_status, proxy_for_client,
    request_failed_status, unreadable_rate_limit_status, usage_ok_status, usage_reply, usage_request,
    usage_retry, usage_status_for_http, usage_without_account, RequestDecision, RetryDecision, UsageStatus, USAGE_URL, USAGE_REQUEST_ATTEMPTS,
};

type J = JsonValue<f64>;

fn s(x: &str) -> J {
    JsonValue::Str(x.to_string())
}

fn obj(members: Vec<(&str, J)>) -> J {
    JsonValue::Object(
        members.into_iter().map(|(k, v)| JsonMember { key: k.to_string(), value: v }).collect(),
    )
}

fn status(st: &str, msg: Option<&str>, plan: Option<&str>) -> UsageStatus {
    UsageStatus {
        status: st.to_string(),
        message: msg.map(|m| m.to_string()),
        plan_type: plan.map(|p| p.to_string()),
    }
}

fn auth(token: Option<&str>, id: Option<&str>) -> AuthConfig {
    AuthConfig {
        tokens: Some(AuthTokens {
            access_token: token.map(|t| t.to_string()),
            account_id: id.map(|i| i.to_string()),
        }),
    }
}

#[test]
fn proxy_only_when_enabled() {
    assert_eq!(proxy_for_client(None, Some("http://p:1".to_string())), Ok(None));
    assert_eq!(proxy_for_client(Some(false), Some("http://p:1".to_string())), Ok(None));
    assert_eq!(
        proxy_for_client(Some(true), Some("http://p:1".to_string())),
        Ok(Some("http://p:1".to_string()))
    );
    assert_eq!(proxy_for_client(Some(true), Some("  ".to_string())), Err("代理已开启但代理地址为空".to_string()));
    assert_eq!(proxy_for_client(Some(true), None), Err("代理已开启但代理地址为空".to_string()));
}

fn answer_of(d: RequestDecision) -> Option<UsageStatus> {
    match d {
        RequestDecision::Answer(s) => Some(s),
        _ => None,
    }
}

#[test]
fn request_needs_token_and_account() {
    assert_eq!(
        answer_of(usage_request(&AuthConfig { tokens: None }, None, None)),
        Some(status("missing_token", Some("缺少 access token"), None))
    );
    assert_eq!(
        answer_of(usage_request(&auth(None, Some("id")), None, None)),
        Some(status("missing_token", Some("缺少 access token"), None))
    );
    assert_eq!(
        answer_of(usage_request(&auth(Some("tok"), None), None, None)),
        Some(status("missing_account_id", Some("缺少 ChatGPT account ID"), None))
    );
    assert_eq!(missing_account_status(), status("missing_account_id", Some("缺少 ChatGPT account ID"), None));
}

fn headers(pairs: &[(&str, &str)]) -> Vec<(String, String)> {
    pairs.iter().map(|(n, v)| (n.to_string(), v.to_string())).collect()
}

fn usage_headers() -> Vec<(String, String)> {
    headers(&[("Authorization", "Bearer tok"), ("Accept", "application/json"), ("ChatGPT-Account-Id", "id")])
}

#[test]
fn request_without_proxy() {
    match usage_request(&auth(Some("tok"), Some("id")), Some(false), Some("http://p:1".to_string())) {
        RequestDecision::Send(r) => {
            assert_eq!(r.url, "https://chatgpt.com/backend-api/wham/usage");
            assert_eq!(r.headers, usage_headers());
            assert!(r.proxy.is_none());
        }
        _ => panic!("the request should be sent"),
    }
}

#[test]
fn request_with_proxy() {
    match usage_request(&auth(Some("tok"), Some("id")), Some(true), Some("socks5://h:9".to_string())) {
        RequestDecision::Send(r) => {
            assert_eq!(r.url, USAGE_URL);
            assert_eq!(r.headers, usage_headers());
            assert!(r.proxy.is_some());
        }
        _ => panic!("the request should be sent"),
    }
    assert_eq!(
        answer_of(usage_request(&auth(Some("tok"), Some("id")), Some(true), Some("".to_string()))),
        Some(status("error", Some("代理已开启但代理地址为空"), None))
    );
}

#[test]
fn request_with_unreadable_proxy_fails() {
    let d = usage_request(&auth(Some("tok"), Some("id")), Some(true), Some("http://exa mple.com".to_string()));
    assert!(matches!(d, RequestDecision::Fail(ref e) if e == "builder error"));
}

#[test]
fn accounts_check_request_for_credentials() {
    let (r, id) = accounts_check_request(&auth(Some("tok"), Some("id")), None, None).ok().unwrap();
    assert_eq!(id, "id");
    assert_eq!(r.url, "https://chatgpt.com/backend-api/wham/accounts/check");
    assert_eq!(r.headers, usage_headers());
    assert!(r.proxy.is_none());
    assert_eq!(
        accounts_check_request(&auth(None, Some("id")), None, None).err(),
        Some("Missing access token".to_string())
    );
    assert_eq!(
        accounts_check_request(&auth(Some("tok"), Some("id")), Some(true), None).err(),
        Some("代理已开启但代理地址为空".to_string())
    );
    assert_eq!(
        accounts_check_request(&auth(Some("tok"), Some("id")), Some(true), Some("http://exa mple.com".to_string())).err(),
        Some("builder error".to_string())
    );
}

#[test]
fn client_proxy() {
    assert!(matches!(http_proxy(None, Some("http://p:1".to_string())), Ok(None)));
    assert!(matches!(http_proxy(Some(true), Some("http://p:1".to_string())), Ok(Some(_))));
    // an address without a scheme is read as http
    assert!(matches!(http_proxy(Some(true), Some("proxy.local:3128".to_string())), Ok(Some(_))));
    assert_eq!(
        http_proxy(Some(true), Some(" ".to_string())).err(),
        Some("代理已开启但代理地址为空".to_string())
    );
    assert_eq!(http_proxy(Some(true), Some("http://exa mple.com".to_string())).err(), Some("builder error".to_string()));
}

#[test]
fn http_status_answers() {
    assert_eq!(usage_status_for_http(401), Some(status("expired", Some("Token 已过期或无效"), None)));
    assert_eq!(usage_status_for_http(403), Some(status("forbidden", Some("账号已被封禁或无权访问"), None)));
    assert_eq!(
        usage_status_for_http(500),
        Some(status("error", Some("wham/usage 请求失败: 500 Internal Server Error"), None))
    );
    assert_eq!(usage_status_for_http(302), Some(status("error", Some("wham/usage 请求失败: 302 Found"), None)));
    assert_eq!(
        usage_status_for_http(599),
        Some(status("error", Some("wham/usage 请求失败: 599 <unknown status code>"), None))
    );
    assert_eq!(usage_status_for_http(200), None);
    assert_eq!(usage_status_for_http(204), None);
}

#[test]
fn failed_request_message() {
    assert_eq!(request_failed_status("timeout"), status("error", Some("请求失败（已重试）: timeout"), None));
    assert_eq!(accounts_check_error(502), Some("wham/accounts/check 请求失败: 502 Bad Gateway".to_string()));
    assert_eq!(accounts_check_error(200), None);
}

#[test]
fn free_plan_has_no_codex_access() {
    let body = obj(vec![("plan_type", s("free")), ("rate_limit", obj(vec![]))]);
    assert_eq!(
        usage_reply(&body).err(),
        Some(status("no_codex_access", Some("no Codex access (plan: free)"), Some("free")))
    );
}

#[test]
fn reply_without_rate_limit() {
    let body = obj(vec![("plan_type", s("plus"))]);
    assert_eq!(
        usage_reply(&body).err(),
        Some(status("no_usage", Some("Missing rate_limit in response"), Some("plus")))
    );
    let body = obj(vec![("plan_type", JsonValue::Number(JsonNumber::PosInt(1)))]);
    assert_eq!(usage_reply(&body).err(), Some(status("no_usage", Some("Missing rate_limit in response"), None)));
}

#[test]
fn reply_rate_limit_member() {
    let rl = obj(vec![("x", s("1"))]);
    let body = obj(vec![("rate_limits", s("second")), ("plan_type", s("pro")), ("rate_limit", obj(vec![("x", s("1"))]))]);
    let (plan, v) = usage_reply(&body).unwrap();
    assert_eq!(plan, Some("pro".to_string()));
    assert_eq!(v, &rl);
    let body = obj(vec![("rate_limits", s("second"))]);
    let (plan, v) = usage_reply(&body).unwrap();
    assert_eq!(plan, None);
    assert_eq!(v, &s("second"));
}

#[test]
fn final_statuses() {
    assert_eq!(
        unreadable_rate_limit_status(Some("plus".to_string()), "Missing reset timestamp".to_string()),
        status("no_usage", Some("Missing reset timestamp"), Some("plus"))
    );
    assert_eq!(usage_ok_status(Some("team".to_string())), status("ok", None, Some("team")));
}

#[test]
fn code_review_window() {
    let body = obj(vec![("code_review_rate_limit", s("cr"))]);
    assert_eq!(code_review_rate_limit(&body), Some(&s("cr")));
    assert_eq!(code_review_rate_limit(&obj(vec![])), None);
}

#[test]
fn failed_request_is_retried_once_after_a_pause() {
    assert_eq!(usage_retry(1, "timeout"), RetryDecision::WaitAndRetry { wait_ms: 1000 });
    assert_eq!(USAGE_REQUEST_ATTEMPTS, 2);
    assert_eq!(
        usage_retry(2, "connection reset"),
        RetryDecision::GiveUp(status("error", Some("请求失败（已重试）: connection reset"), None))
    );
}

#[test]
fn no_account_id_is_answered_at_once() {
    assert_eq!(usage_without_account(""), Some(status("missing_account_id", Some("缺少 ChatGPT account ID"), None)));
    assert_eq!(usage_without_account("acct"), None);
}
