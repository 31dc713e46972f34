//! The decisions around the requests to the usage service: which request
//! to make (credentials, proxy), and how each reply is answered. The
//! requests themselves, the retry pause and the reading of replies are done
//! by the caller, which hands the outcomes back.
use vstd::prelude::*;
use crate::auth::{AuthConfig, auth_credentials, extract_auth_credentials};
use crate::json::{JsonValue, json_get, json_get_str, get, get_str};
use crate::paths::opt_view;
use crate::text::{concat_str, decimal, has_prefix, trim, trim_str};

verus! {

/// How a request for usage figures ended, short of the figures themselves:
/// a status word, a message for the user, and the plan type when known.
#[derive(Debug, Clone, PartialEq)]
pub struct UsageStatus {
    pub status: String,
    pub message: Option<String>,
    pub plan_type: Option<String>,
}

/// The usage service.
pub const USAGE_URL: &'static str = "https://chatgpt.com/backend-api/wham/usage";

/// The account check of the ChatGPT backend.
pub const ACCOUNTS_CHECK_URL: &'static str = "https://chatgpt.com/backend-api/wham/accounts/check";

/// A GET request to the ChatGPT backend: its URL, its headers in order, and
/// the proxy to send it through, if any.
pub struct HttpGet {
    pub url: String,
    pub headers: Vec<(String, String)>,
    pub proxy: Option<RoutedProxy>,
}

/// The view of a list of headers.
pub open spec fn headers_view(h: Seq<(String, String)>) -> Seq<(Seq<char>, Seq<char>)> {
    h.map_values(|p: (String, String)| (p.0@, p.1@))
}

/// The headers of a request to the ChatGPT backend for the account `account`
/// with access token `token`.
pub open spec fn backend_headers(token: Seq<char>, account: Seq<char>) -> Seq<(Seq<char>, Seq<char>)> {
    seq![
        ("Authorization"@, "Bearer "@ + token),
        ("Accept"@, "application/json"@),
        ("ChatGPT-Account-Id"@, account),
    ]
}

/// `request` is a GET of `url` with the headers for `token` and `account`,
/// through the proxy built from `proxy` (none when `proxy` is none).
pub open spec fn is_backend_get(
    request: HttpGet,
    url: Seq<char>,
    token: Seq<char>,
    account: Seq<char>,
    proxy: Option<Seq<char>>,
) -> bool {
    &&& request.url@ == url
    &&& headers_view(request.headers@) == backend_headers(token, account)
    &&& match proxy {
        None => request.proxy is None,
        Some(u) => request.proxy matches Some(p) && p.address() == u,
    }
}

/// What a request to the usage service needs.
pub type UsageRequest = HttpGet;

/// What becomes of a request for usage figures before it is sent.
pub enum RequestDecision {
    /// Send this request.
    Send(UsageRequest),
    /// Do not send anything; answer with this status.
    Answer(UsageStatus),
    /// Do not send anything; fail with this error.
    Fail(String),
}

/// `status` with message `message` and plan type `plan`.
pub open spec fn status_is(s: UsageStatus, status: Seq<char>, message: Option<Seq<char>>, plan: Option<Seq<char>>) -> bool {
    &&& s.status@ == status
    &&& opt_view(s.message) == message
    &&& opt_view(s.plan_type) == plan
}

fn status_with(status: &str, message: Option<String>, plan_type: Option<String>) -> (res: UsageStatus)
    ensures
        res.status@ == status@,
        res.message == message,
        res.plan_type == plan_type,
{
    UsageStatus { status: String::from_str(status), message, plan_type }
}

#[verifier::external_type_specification]
#[verifier::external_body]
pub struct ExProxy(reqwest::Proxy);

/// A `reqwest` proxy for all traffic, with the address it was built from.
pub struct RoutedProxy {
    proxy: reqwest::Proxy,
    address: Ghost<Seq<char>>,
}

impl RoutedProxy {
    /// The address the proxy was built from.
    pub closed spec fn address(&self) -> Seq<char> {
        self.address@
    }

    /// The proxy, for the HTTP client.
    pub fn into_proxy(self) -> reqwest::Proxy {
        self.proxy
    }
}

/// Whether `reqwest::Proxy::all` accepts `url` as the address of a proxy.
pub uninterp spec fn proxy_url_accepted(url: Seq<char>) -> bool;

/// The text (`Display`) of every error `reqwest::Proxy::all` gives: a
/// builder error that names no URL.
pub open spec fn proxy_error_text() -> Seq<char> {
    "builder error"@
}

/// `reqwest::Proxy::all`: a proxy for all traffic through `url`, kept with
/// `url`. It fails when `url` does not parse as a URL, even with `http://`
/// put before it; which addresses parse is named by [`proxy_url_accepted`],
/// not stated. Its error is always a builder error without a URL, whose text
/// is [`proxy_error_text`].
#[verifier::external_body]
fn proxy_all(url: &str) -> (res: Result<RoutedProxy, String>)
    ensures
        res is Ok <==> proxy_url_accepted(url@),
        res matches Ok(p) ==> p.address() == url@,
        res matches Err(e) ==> e@ == proxy_error_text(),
{
    match reqwest::Proxy::all(url) {
        Ok(proxy) => Ok(RoutedProxy { proxy, address: Ghost(url@) }),
        Err(e) => Err(e.to_string()),
    }
}

/// The message for a proxy that is switched on without an address.
pub open spec fn empty_proxy_message() -> Seq<char> {
    "代理已开启但代理地址为空"@
}

/// The proxy to use: none unless proxying is on; when it is on, its address,
/// which must not be blank.
pub open spec fn proxy_choice(enabled: Option<bool>, url: Option<String>) -> Result<
    Option<Seq<char>>,
    Seq<char>,
> {
    if enabled == Some(true) {
        let u = match url {
            Some(s) => s@,
            None => Seq::empty(),
        };
        if trim(u).len() == 0 {
            Err(empty_proxy_message())
        } else {
            Ok(Some(u))
        }
    } else {
        Ok(None)
    }
}

/// Chooses the proxy for the HTTP client (see [`proxy_choice`]).
pub fn proxy_for_client(proxy_enabled: Option<bool>, proxy_url: Option<String>) -> (res: Result<
    Option<String>,
    String,
>)
    ensures
        match (res, proxy_choice(proxy_enabled, proxy_url)) {
            (Ok(p), Ok(sp)) => opt_view(p) == sp,
            (Err(e), Err(se)) => e@ == se,
            _ => false,
        },
{
    let enabled = match proxy_enabled {
        Some(b) => b,
        None => false,
    };
    if !enabled {
        return Ok(None);
    }
    let value = match proxy_url {
        Some(s) => s,
        None => String::new(),
    };
    if trim_str(value.as_str()).len() == 0 {
        return Err(String::from_str("代理已开启但代理地址为空"));
    }
    Ok(Some(value))
}

/// The answer when no account id is given: there is nothing to ask for.
pub fn missing_account_status() -> (res: UsageStatus)
    ensures
        status_is(res, "missing_account_id"@, Some("缺少 ChatGPT account ID"@), None),
{
    status_with("missing_account_id", Some(String::from_str("缺少 ChatGPT account ID")), None)
}

/// The proxy for the HTTP client: none unless proxying is on; when it is on,
/// the one `reqwest` builds from its address, which must not be blank.
pub open spec fn proxy_outcome(enabled: Option<bool>, url: Option<String>) -> Result<
    Option<Seq<char>>,
    Seq<char>,
> {
    match proxy_choice(enabled, url) {
        Err(m) => Err(m),
        Ok(None) => Ok(None),
        Ok(Some(u)) => if proxy_url_accepted(u) {
            Ok(Some(u))
        } else {
            Err(proxy_error_text())
        },
    }
}

/// `p` is the proxy [`proxy_outcome`] calls for: `Some(u)` means the proxy
/// built from address `u`.
pub open spec fn proxy_is(p: Option<RoutedProxy>, address: Option<Seq<char>>) -> bool {
    match address {
        None => p is None,
        Some(u) => p matches Some(q) && q.address() == u,
    }
}

/// Builds the proxy for the HTTP client (see [`proxy_outcome`]).
pub fn http_proxy(proxy_enabled: Option<bool>, proxy_url: Option<String>) -> (res: Result<
    Option<RoutedProxy>,
    String,
>)
    ensures
        match (res, proxy_outcome(proxy_enabled, proxy_url)) {
            (Ok(p), Ok(a)) => proxy_is(p, a),
            (Err(e), Err(se)) => e@ == se,
            _ => false,
        },
{
    match proxy_for_client(proxy_enabled, proxy_url) {
        Err(m) => Err(m),
        Ok(None) => Ok(None),
        Ok(Some(u)) => match proxy_all(u.as_str()) {
            Ok(p) => Ok(Some(p)),
            Err(e) => Err(e),
        },
    }
}

/// A GET of `url` with the headers for `token` and `account`, through `proxy`.
fn backend_get(url: &str, token: &str, account: &str, proxy: Option<RoutedProxy>) -> (res: HttpGet)
    ensures
        res.url@ == url@,
        headers_view(res.headers@) == backend_headers(token@, account@),
        res.proxy == proxy,
{
    let mut headers: Vec<(String, String)> = Vec::new();
    headers.push((String::from_str("Authorization"), concat_str("Bearer ", token)));
    headers.push((String::from_str("Accept"), String::from_str("application/json")));
    headers.push((String::from_str("ChatGPT-Account-Id"), String::from_str(account)));
    assert(headers_view(headers@) =~= backend_headers(token@, account@));
    HttpGet { url: String::from_str(url), headers, proxy }
}

/// The request to `wham/accounts/check` for the credentials in `auth`, with
/// the ChatGPT account id it is about; or the error for missing credentials
/// or an unusable proxy, in that order.
pub fn accounts_check_request(auth: &AuthConfig, proxy_enabled: Option<bool>, proxy_url: Option<String>) -> (res:
    Result<(HttpGet, String), String>)
    ensures
        match auth_credentials(*auth) {
            Err(e) => res matches Err(m) && m@ == e,
            Ok((token, id)) => match proxy_outcome(proxy_enabled, proxy_url) {
                Err(e) => res matches Err(m) && m@ == e,
                Ok(a) => res matches Ok((r, rid)) && rid@ == id && is_backend_get(
                    r,
                    ACCOUNTS_CHECK_URL@,
                    token,
                    id,
                    a,
                ),
            },
        },
{
    let (token, id) = match extract_auth_credentials(auth) {
        Ok(c) => c,
        Err(e) => return Err(e),
    };
    let proxy = match http_proxy(proxy_enabled, proxy_url) {
        Ok(p) => p,
        Err(e) => return Err(e),
    };
    let r = backend_get(ACCOUNTS_CHECK_URL, token.as_str(), id.as_str(), proxy);
    Ok((r, id))
}

/// The answer given at once, without asking the service, when no account id
/// is given.
pub fn usage_without_account(account_id: &str) -> (res: Option<UsageStatus>)
    ensures
        res is Some <==> account_id@.len() == 0,
        res matches Some(s) ==> status_is(s, "missing_account_id"@, Some("缺少 ChatGPT account ID"@), None),
{
    if account_id.unicode_len() == 0 {
        Some(missing_account_status())
    } else {
        None
    }
}

/// The request to make with the account's credentials, or why none is made:
/// a missing token or account id, or a proxy switched on without an address,
/// are answered with a status; a proxy address that `reqwest` does not accept
/// is an error.
pub fn usage_request(auth: &AuthConfig, proxy_enabled: Option<bool>, proxy_url: Option<String>) -> (res:
    RequestDecision)
    ensures
        match auth.tokens {
            None => res matches RequestDecision::Answer(s) && status_is(
                s,
                "missing_token"@,
                Some("缺少 access token"@),
                None,
            ),
            Some(t) => match (t.access_token, t.account_id) {
                (None, _) => res matches RequestDecision::Answer(s) && status_is(
                    s,
                    "missing_token"@,
                    Some("缺少 access token"@),
                    None,
                ),
                (Some(_), None) => res matches RequestDecision::Answer(s) && status_is(
                    s,
                    "missing_account_id"@,
                    Some("缺少 ChatGPT account ID"@),
                    None,
                ),
                (Some(a), Some(id)) => match proxy_choice(proxy_enabled, proxy_url) {
                    Err(m) => res matches RequestDecision::Answer(s) && status_is(s, "error"@, Some(m), None),
                    Ok(_) => match proxy_outcome(proxy_enabled, proxy_url) {
                        Ok(p) => res matches RequestDecision::Send(r) && is_backend_get(
                            r,
                            USAGE_URL@,
                            a@,
                            id@,
                            p,
                        ),
                        Err(e) => res matches RequestDecision::Fail(m) && m@ == e,
                    },
                },
            },
        },
{
    let tokens = match &auth.tokens {
        Some(t) => t,
        None => {
            return RequestDecision::Answer(
                status_with("missing_token", Some(String::from_str("缺少 access token")), None),
            );
        },
    };
    let access = match &tokens.access_token {
        Some(a) => a,
        None => {
            return RequestDecision::Answer(
                status_with("missing_token", Some(String::from_str("缺少 access token")), None),
            );
        },
    };
    let id = match &tokens.account_id {
        Some(i) => i,
        None => {
            return RequestDecision::Answer(missing_account_status());
        },
    };
    let address = match proxy_for_client(proxy_enabled, proxy_url) {
        Ok(p) => p,
        Err(m) => {
            return RequestDecision::Answer(status_with("error", Some(m), None));
        },
    };
    let proxy = match address {
        None => None,
        Some(u) => match proxy_all(u.as_str()) {
            Ok(p) => Some(p),
            Err(e) => {
                return RequestDecision::Fail(e);
            },
        },
    };
    RequestDecision::Send(backend_get(USAGE_URL, access.as_str(), id.as_str(), proxy))
}

/// The answer when the request failed twice (once more after a pause).
pub fn request_failed_status(error: &str) -> (res: UsageStatus)
    ensures
        status_is(res, "error"@, Some("请求失败（已重试）: "@ + error@), None),
{
    status_with("error", Some(concat_str("请求失败（已重试）: ", error)), None)
}

/// How many times a request for usage figures is sent before giving up.
pub const USAGE_REQUEST_ATTEMPTS: u32 = 2;

/// The pause before a failed request for usage figures is sent again, in
/// milliseconds.
pub const USAGE_RETRY_PAUSE_MS: u64 = 1000;

/// What to do after a request for usage figures got no reply.
#[derive(Debug, Clone, PartialEq)]
pub enum RetryDecision {
    /// Pause this long, then send the request again.
    WaitAndRetry { wait_ms: u64 },
    /// Stop, answering with this status.
    GiveUp(UsageStatus),
}

/// What to do after the request for usage figures failed `failures` times in
/// a row without a reply, the last time with `error`: pause and send it
/// again until it has been sent [`USAGE_REQUEST_ATTEMPTS`] times, then answer
/// with the last error.
pub fn usage_retry(failures: u32, error: &str) -> (res: RetryDecision)
    ensures
        failures < USAGE_REQUEST_ATTEMPTS ==> res == (RetryDecision::WaitAndRetry {
            wait_ms: USAGE_RETRY_PAUSE_MS,
        }),
        failures >= USAGE_REQUEST_ATTEMPTS ==> (res matches RetryDecision::GiveUp(s) && status_is(
            s,
            "error"@,
            Some("请求失败（已重试）: "@ + error@),
            None,
        )),
{
    if failures < USAGE_REQUEST_ATTEMPTS {
        RetryDecision::WaitAndRetry { wait_ms: USAGE_RETRY_PAUSE_MS }
    } else {
        RetryDecision::GiveUp(request_failed_status(error))
    }
}

/// What `reqwest::StatusCode` displays for status `code`: the number, a
/// space, and the code's reason phrase (`<unknown status code>` for a code
/// without one).
pub uninterp spec fn status_code_text(code: u16) -> Seq<char>;

/// `reqwest::StatusCode::from_u16`, which succeeds for codes in 100..=999,
/// followed by the status's `Display`: the code in decimal, a space, and the
/// reason phrase, which is named by [`status_code_text`], not stated.
#[verifier::external_body]
fn status_text(code: u16) -> (res: String)
    requires
        100 <= code <= 999,
    ensures
        res@ == status_code_text(code),
        has_prefix(res@, decimal(code as nat) + seq![' ']),
{
    match reqwest::StatusCode::from_u16(code) {
        Ok(s) => s.to_string(),
        Err(e) => e.to_string(),
    }
}

/// The answer to an HTTP status that is not a success, if any: 401 means
/// the token expired, 403 that access is forbidden, any other code outside
/// 200..=299 an error naming the status (e.g. `500 Internal Server Error`).
pub fn usage_status_for_http(code: u16) -> (res: Option<UsageStatus>)
    requires
        100 <= code <= 999,
    ensures
        code == 401 ==> (res matches Some(s) && status_is(s, "expired"@, Some("Token 已过期或无效"@), None)),
        code == 403 ==> (res matches Some(s) && status_is(s, "forbidden"@, Some("账号已被封禁或无权访问"@), None)),
        code != 401 && code != 403 && !(200 <= code <= 299) ==> (res matches Some(s) && status_is(
            s,
            "error"@,
            Some("wham/usage 请求失败: "@ + status_code_text(code)),
            None,
        )),
        200 <= code <= 299 ==> res is None,
{
    if code == 401 {
        return Some(status_with("expired", Some(String::from_str("Token 已过期或无效")), None));
    }
    if code == 403 {
        return Some(status_with("forbidden", Some(String::from_str("账号已被封禁或无权访问")), None));
    }
    if !(200 <= code && code <= 299) {
        let text = status_text(code);
        return Some(status_with("error", Some(concat_str("wham/usage 请求失败: ", text.as_str())), None));
    }
    None
}

/// The plan type a usage reply names.
pub open spec fn reply_plan<F>(body: JsonValue<F>) -> Option<Seq<char>> {
    json_get_str(body, "plan_type"@)
}

/// The rate limit a usage reply carries: `rate_limit`, else `rate_limits`.
pub open spec fn reply_rate_limit<F>(body: JsonValue<F>) -> Option<JsonValue<F>> {
    match json_get(body, "rate_limit"@) {
        Some(v) => Some(v),
        None => json_get(body, "rate_limits"@),
    }
}

/// Reads a successful usage reply: its plan type and its rate limit, or the
/// answer when the plan has no Codex access (`free`) or no rate limit is given.
pub fn usage_reply<'a, F>(body: &'a JsonValue<F>) -> (res: Result<(Option<String>, &'a JsonValue<F>), UsageStatus>)
    ensures
        reply_plan(*body) == Some("free"@) ==> (res matches Err(s) && status_is(
            s,
            "no_codex_access"@,
            Some("no Codex access (plan: free)"@),
            Some("free"@),
        )),
        reply_plan(*body) != Some("free"@) ==> match reply_rate_limit(*body) {
            None => res matches Err(s) && status_is(
                s,
                "no_usage"@,
                Some("Missing rate_limit in response"@),
                reply_plan(*body),
            ),
            Some(rl) => res matches Ok((plan, v)) && opt_view(plan) == reply_plan(*body) && *v == rl,
        },
{
    let plan: Option<String> = match get_str(body, "plan_type") {
        Some(p) => Some(p.clone()),
        None => None,
    };
    let free = String::from_str("free");
    let is_free = match &plan {
        Some(p) => *p == free,
        None => false,
    };
    if is_free {
        let msg = concat_str("no Codex access (plan: ", "free)");
        proof {
            reveal_strlit("no Codex access (plan: ");
            reveal_strlit("free)");
            reveal_strlit("no Codex access (plan: free)");
            assert(msg@ =~= "no Codex access (plan: free)"@);
        }
        return Err(status_with("no_codex_access", Some(msg), plan));
    }
    let rl = match get(body, "rate_limit") {
        Some(v) => v,
        None => match get(body, "rate_limits") {
            Some(v) => v,
            None => {
                return Err(
                    status_with("no_usage", Some(String::from_str("Missing rate_limit in response")), plan),
                );
            },
        },
    };
    Ok((plan, rl))
}

/// The answer when the rate limit could not be read.
pub fn unreadable_rate_limit_status(plan_type: Option<String>, error: String) -> (res: UsageStatus)
    ensures
        res.status@ == "no_usage"@,
        res.message == Some(error),
        res.plan_type == plan_type,
{
    status_with("no_usage", Some(error), plan_type)
}

/// The answer when the figures were read.
pub fn usage_ok_status(plan_type: Option<String>) -> (res: UsageStatus)
    ensures
        res.status@ == "ok"@,
        res.message is None,
        res.plan_type == plan_type,
{
    status_with("ok", None, plan_type)
}

/// The code-review rate limit of a usage reply, if it has one.
pub fn code_review_rate_limit<'a, F>(body: &'a JsonValue<F>) -> (res: Option<&'a JsonValue<F>>)
    ensures
        match (res, json_get(*body, "code_review_rate_limit"@)) {
            (Some(x), Some(y)) => *x == y,
            (None, None) => true,
            _ => false,
        },
{
    get(body, "code_review_rate_limit")
}

/// The error for a `wham/accounts/check` reply whose status is not a
/// success (outside 200..=299), naming the status.
pub fn accounts_check_error(code: u16) -> (res: Option<String>)
    requires
        100 <= code <= 999,
    ensures
        200 <= code <= 299 ==> res is None,
        !(200 <= code <= 299) ==> (res matches Some(e) && e@ == "wham/accounts/check 请求失败: "@
            + status_code_text(code)),
{
    if 200 <= code && code <= 299 {
        return None;
    }
    let text = status_text(code);
    Some(concat_str("wham/accounts/check 请求失败: ", text.as_str()))
}

} // verus!
