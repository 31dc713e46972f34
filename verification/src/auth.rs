//! Codex credentials (`auth.json`) and what is derived from them: the
//! credentials a request needs, the current account, the list of distinct
//! auth files found, and the metadata of the matching workspace account.
use vstd::prelude::*;
use crate::text::{trim, trim_str};
use crate::paths::{get_codex_auth_source_platform, has_wsl_prefix};

verus! {

/// The `tokens` object of `auth.json`.
#[derive(Debug, Clone, PartialEq)]
pub struct AuthTokens {
    pub access_token: Option<String>,
    pub account_id: Option<String>,
}

/// The parts of `auth.json` the application reads.
#[derive(Debug, Clone, PartialEq)]
pub struct AuthConfig {
    pub tokens: Option<AuthTokens>,
}

/// One `auth.json` found on disk.
#[derive(Debug, Clone, PartialEq)]
pub struct CodexAuthSource {
    pub path: String,
    pub platform: String,
    pub auth_json: String,
}

/// The access token and the ChatGPT account id, with the error for the
/// first one missing.
pub open spec fn auth_credentials(auth: AuthConfig) -> Result<(Seq<char>, Seq<char>), Seq<char>> {
    match auth.tokens {
        None => Err("Missing tokens in auth.json"@),
        Some(t) => match t.access_token {
            None => Err("Missing access token"@),
            Some(a) => match t.account_id {
                None => Err("Missing ChatGPT account ID"@),
                Some(id) => Ok((a@, id@)),
            },
        },
    }
}

/// The access token and ChatGPT account id that a request to the usage
/// service needs.
pub fn extract_auth_credentials(auth: &AuthConfig) -> (res: Result<(String, String), String>)
    ensures
        match (res, auth_credentials(*auth)) {
            (Ok((a, id)), Ok((sa, sid))) => a@ == sa && id@ == sid,
            (Err(e), Err(se)) => e@ == se,
            _ => false,
        },
{
    let tokens = match &auth.tokens {
        Some(t) => t,
        None => return Err(String::from_str("Missing tokens in auth.json")),
    };
    let access = match &tokens.access_token {
        Some(a) => a.clone(),
        None => return Err(String::from_str("Missing access token")),
    };
    let id = match &tokens.account_id {
        Some(i) => i.clone(),
        None => return Err(String::from_str("Missing ChatGPT account ID")),
    };
    Ok((access, id))
}

/// The account id of the credentials Codex currently uses.
pub fn get_current_auth_account_id(auth: &AuthConfig) -> (res: Result<String, String>)
    ensures
        match auth.tokens {
            Some(t) => match t.account_id {
                Some(id) => res matches Ok(r) && r@ == id@,
                None => res matches Err(e) && e@ == "Missing account_id in auth.json"@,
            },
            None => res matches Err(e) && e@ == "Missing account_id in auth.json"@,
        },
{
    match &auth.tokens {
        Some(t) => match &t.account_id {
            Some(id) => Ok(id.clone()),
            None => Err(String::from_str("Missing account_id in auth.json")),
        },
        None => Err(String::from_str("Missing account_id in auth.json")),
    }
}

/// The platform an auth file belongs to, by its path.
pub open spec fn source_platform(path: Seq<char>) -> Seq<char> {
    if has_wsl_prefix(path) {
        "wsl"@
    } else {
        "windows"@
    }
}

/// The auth files read, in order, without those whose content repeats an
/// earlier one: `(path, content)` pairs.
pub open spec fn distinct_auths(reads: Seq<(Seq<char>, Seq<char>)>) -> Seq<(Seq<char>, Seq<char>)>
    decreases reads.len(),
{
    if reads.len() == 0 {
        Seq::empty()
    } else {
        let kept = distinct_auths(reads.drop_last());
        if exists|i: int| 0 <= i < kept.len() && (#[trigger] kept[i]).1 == reads.last().1 {
            kept
        } else {
            kept.push(reads.last())
        }
    }
}

/// The auth sources for the files that were read, in the order given as
/// `(path, content)` pairs: files whose content repeats an earlier file's are
/// left out; each source's platform follows from its path. Fails when nothing
/// was read.
pub fn collect_codex_auth_sources(reads: Vec<(String, String)>) -> (res: Result<
    Vec<CodexAuthSource>,
    String,
>)
    ensures
        reads@.len() == 0 ==> (res matches Err(e) && e@ == "Codex auth.json not found"@),
        reads@.len() > 0 ==> (res matches Ok(v) && v@.map_values(|s: CodexAuthSource| (s.path@, s.auth_json@))
            == distinct_auths(reads@.map_values(|r: (String, String)| (r.0@, r.1@)))),
        res matches Ok(v) ==> forall|i: int|
            0 <= i < v@.len() ==> (#[trigger] v@[i]).platform@ == source_platform(v@[i].path@),
{
    let ghost rv = reads@.map_values(|r: (String, String)| (r.0@, r.1@));
    let n = reads.len();
    let mut sources: Vec<CodexAuthSource> = Vec::new();
    let mut rest = reads;
    let mut i: usize = 0;
    while rest.len() > 0
        invariant
            i + rest@.len() == n,
            rv.len() == n,
            rest@.map_values(|r: (String, String)| (r.0@, r.1@)) == rv.skip(i as int),
            sources@.map_values(|s: CodexAuthSource| (s.path@, s.auth_json@)) == distinct_auths(
                rv.take(i as int),
            ),
            forall|j: int|
                0 <= j < sources@.len() ==> (#[trigger] sources@[j]).platform@ == source_platform(
                    sources@[j].path@,
                ),
            sources@.len() > 0 || i == 0,
        decreases rest@.len(),
    {
        let ghost old_rest = rest@;
        let ghost kept = distinct_auths(rv.take(i as int));
        let (path, json) = rest.remove(0);
        assert(rv[i as int] == (path@, json@)) by {
            assert(old_rest.map_values(|r: (String, String)| (r.0@, r.1@))[0] == (path@, json@));
            assert(rv.skip(i as int)[0] == rv[i as int]);
        }
        assert(rest@.map_values(|r: (String, String)| (r.0@, r.1@)) =~= rv.skip(i + 1)) by {
            assert(rest@.map_values(|r: (String, String)| (r.0@, r.1@)) =~= rv.skip(
                i as int,
            ).drop_first());
        }
        assert(rv.take(i + 1).drop_last() =~= rv.take(i as int));
        let mut dup = false;
        let mut k: usize = 0;
        while k < sources.len()
            invariant
                k <= sources@.len(),
                sources@.map_values(|s: CodexAuthSource| (s.path@, s.auth_json@)) == kept,
                dup == exists|j: int| 0 <= j < k && (#[trigger] kept[j]).1 == json@,
            decreases sources@.len() - k,
        {
            assert(kept[k as int].1 == sources@[k as int].auth_json@);
            if sources[k].auth_json == json {
                dup = true;
            }
            k = k + 1;
        }
        if !dup {
            let platform = get_codex_auth_source_platform(path.as_str());
            sources.push(CodexAuthSource { path, platform, auth_json: json });
            assert(sources@.map_values(|s: CodexAuthSource| (s.path@, s.auth_json@)) =~= kept.push(
                rv[i as int],
            ));
        }
        i = i + 1;
    }
    assert(rv.take(n as int) =~= rv);
    if sources.len() == 0 {
        return Err(String::from_str("Codex auth.json not found"));
    }
    Ok(sources)
}

/// Workspace metadata is looked up only for a given account id; for an
/// empty one there is none.
pub fn wants_account_metadata(account_id: &str) -> (res: bool)
    ensures
        res == (account_id@.len() > 0),
{
    account_id.unicode_len() > 0
}

/// One account in the reply of `wham/accounts/check`.
#[derive(Debug, Clone, PartialEq)]
pub struct WhamAccountEntry {
    pub id: String,
    pub account_user_id: Option<String>,
    pub structure: Option<String>,
    pub plan_type: Option<String>,
    pub name: Option<String>,
}

/// What the application shows of a workspace account.
#[derive(Debug, Clone, PartialEq)]
pub struct WhamAccountMetadata {
    pub workspace_name: Option<String>,
    pub account_user_id: Option<String>,
    pub account_structure: Option<String>,
    pub plan_type: Option<String>,
}

/// The view of an `Option<String>`.
pub open spec fn ostr(o: Option<String>) -> Option<Seq<char>> {
    match o {
        Some(s) => Some(s@),
        None => None,
    }
}

/// The workspace name shown for an account: its name, for a workspace
/// account whose name is not blank.
pub open spec fn workspace_name(e: WhamAccountEntry) -> Option<Seq<char>> {
    match (e.structure, e.name) {
        (Some(s), Some(n)) => if s@ == "workspace"@ && trim(n@).len() > 0 {
            Some(n@)
        } else {
            None
        },
        _ => None,
    }
}

/// `i` is the first account in `accounts` with id `id`.
pub open spec fn first_account_with_id(accounts: Seq<WhamAccountEntry>, id: Seq<char>, i: int) -> bool {
    &&& 0 <= i < accounts.len()
    &&& accounts[i].id@ == id
    &&& forall|j: int| 0 <= j < i ==> (#[trigger] accounts[j]).id@ != id
}

/// The metadata of the first account whose id is the ChatGPT account id of
/// the credentials; nothing when no account matches.
pub fn wham_account_metadata(accounts: Vec<WhamAccountEntry>, chatgpt_account_id: &str) -> (res:
    Option<WhamAccountMetadata>)
    ensures
        res is None <==> forall|j: int| 0 <= j < accounts@.len() ==> (#[trigger] accounts@[j]).id@
            != chatgpt_account_id@,
        res matches Some(m) ==> exists|i: int|
            first_account_with_id(accounts@, chatgpt_account_id@, i) && ostr(m.workspace_name)
                == workspace_name(#[trigger] accounts@[i]) && ostr(m.account_user_id) == ostr(
                accounts@[i].account_user_id,
            ) && ostr(m.account_structure) == ostr(accounts@[i].structure) && ostr(m.plan_type)
                == ostr(accounts@[i].plan_type),
{
    let wanted = String::from_str(chatgpt_account_id);
    let ghost all = accounts@;
    let n = accounts.len();
    let mut rest = accounts;
    let mut i: usize = 0;
    while rest.len() > 0
        invariant
            i + rest@.len() == n,
            all.len() == n,
            all == accounts@,
            rest@ == all.skip(i as int),
            wanted@ == chatgpt_account_id@,
            forall|j: int| 0 <= j < i ==> (#[trigger] all[j]).id@ != chatgpt_account_id@,
        decreases rest@.len(),
    {
        let ghost old_rest = rest@;
        let e = rest.remove(0);
        assert(e == all[i as int]) by {
            assert(old_rest[0] == e);
        }
        assert(rest@ =~= all.skip(i + 1));
        if e.id == wanted {
            let workspace = match (&e.structure, &e.name) {
                (Some(s), Some(nm)) => {
                    let ws = String::from_str("workspace");
                    if *s == ws && trim_str(nm.as_str()).len() > 0 {
                        Some(nm.clone())
                    } else {
                        None
                    }
                },
                _ => None,
            };
            assert(first_account_with_id(all, chatgpt_account_id@, i as int));
            let m = WhamAccountMetadata {
                workspace_name: workspace,
                account_user_id: e.account_user_id,
                account_structure: e.structure,
                plan_type: e.plan_type,
            };
            assert(ostr(m.workspace_name) == workspace_name(accounts@[i as int]));
            return Some(m);
        }
        i = i + 1;
    }
    None
}


/// The auth files listed never repeat a content, and every content read is
/// listed.
pub proof fn law_distinct_auths(reads: Seq<(Seq<char>, Seq<char>)>)
    ensures
        forall|i: int, j: int|
            0 <= i < j < distinct_auths(reads).len() ==> (#[trigger] distinct_auths(reads)[i]).1
                != (#[trigger] distinct_auths(reads)[j]).1,
        forall|i: int|
            0 <= i < reads.len() ==> exists|j: int|
                0 <= j < distinct_auths(reads).len() && (#[trigger] distinct_auths(reads)[j]).1 == (
                #[trigger] reads[i]).1,
    decreases reads.len(),
{
    if reads.len() > 0 {
        let init = reads.drop_last();
        law_distinct_auths(init);
        let kept = distinct_auths(init);
        let d = distinct_auths(reads);
        assert forall|i: int| 0 <= i < reads.len() implies exists|j: int|
            0 <= j < d.len() && (#[trigger] d[j]).1 == (#[trigger] reads[i]).1 by {
            if i < reads.len() - 1 {
                assert(reads[i] == init[i]);
                let j = choose|j: int| 0 <= j < kept.len() && (#[trigger] kept[j]).1 == init[i].1;
                assert(d[j] == kept[j]);
            } else if exists|j: int| 0 <= j < kept.len() && (#[trigger] kept[j]).1 == reads.last().1 {
                let j = choose|j: int| 0 <= j < kept.len() && (#[trigger] kept[j]).1 == reads.last().1;
                assert(d[j] == kept[j]);
            } else {
                assert(d[kept.len() as int] == reads.last());
            }
        }
    }
}

} // verus!
