//! Where the application keeps its files: home directories, the Codex
//! directories, the candidate locations of `auth.json`, the session
//! directories, and the WSL home directory seen from Windows.
//!
//! Paths are strings. Joining follows the POSIX rules of `PathBuf::join`: a
//! component that starts with `/` replaces the base, otherwise the two are
//! joined with a single `/`.
use vstd::prelude::*;
use crate::text::{
    chars_of,
    string_from_chars,
    has_prefix,
    has_prefix_chars,
    nonblank_lines,
    nonblank_lines_of,
    replace_char,
    strip_leading,
    strip_then_replace,
    split_on,
    split_chars,
    replace_chars,
};

verus! {

/// What the environment says about the user's directories.
#[derive(Debug, Clone, PartialEq)]
pub struct HomeEnv {
    /// `$HOME`, when it is set and is an absolute path.
    pub absolute_home_var: Option<String>,
    /// The platform's home directory (`dirs::home_dir`).
    pub home_dir: Option<String>,
    /// The platform's local data directory (`dirs::data_local_dir`).
    pub data_local_dir: Option<String>,
    /// The home directory of the default WSL distribution, seen from Windows
    /// (see [`get_default_wsl_home_dir`]); always absent elsewhere.
    pub wsl_home: Option<String>,
    /// The platform is Windows, where `\` separates path components (as
    /// well as `/`).
    pub windows: bool,
}

/// The separator a platform puts between path components.
pub open spec fn main_separator(windows: bool) -> char {
    if windows {
        '\\'
    } else {
        '/'
    }
}

/// `c` separates path components on the platform.
pub open spec fn is_separator(c: char, windows: bool) -> bool {
    c == '/' || (windows && c == '\\')
}

/// `c` is an ASCII letter.
pub open spec fn is_ascii_letter(c: char) -> bool {
    ('a' <= c && c <= 'z') || ('A' <= c && c <= 'Z')
}

/// `s` begins with a drive, such as `C:` (a prefix on Windows).
pub open spec fn has_drive(s: Seq<char>) -> bool {
    s.len() >= 2 && is_ascii_letter(s[0]) && s[1] == ':'
}

/// `base` joined with `comp` as `PathBuf::join` does. On Windows a component
/// with a drive replaces `base`. A component that starts with a separator
/// replaces `base`, except that on Windows one with a single leading
/// separator keeps the drive `base` starts with. Otherwise the component
/// follows `base`, after the platform's separator unless `base` is empty,
/// already ends with a separator, or (on Windows) is a bare drive.
pub open spec fn join(base: Seq<char>, comp: Seq<char>, windows: bool) -> Seq<char> {
    if windows && has_drive(comp) {
        comp
    } else if comp.len() > 0 && is_separator(comp[0], windows) {
        if windows && has_drive(base) && !(comp.len() > 1 && is_separator(comp[1], windows)) {
            base.take(2) + comp
        } else {
            comp
        }
    } else if base.len() == 0 || is_separator(base.last(), windows) || (windows && base.len() == 2
        && has_drive(base)) {
        base + comp
    } else {
        base + seq![main_separator(windows)] + comp
    }
}

/// `Ok(join(p, comp, windows))` for `Ok(p)`; errors pass through.
pub open spec fn join_ok(r: Result<Seq<char>, Seq<char>>, comp: Seq<char>, windows: bool) -> Result<
    Seq<char>,
    Seq<char>,
> {
    match r {
        Ok(p) => Ok(join(p, comp, windows)),
        Err(e) => Err(e),
    }
}

/// The view of a `Result<String, String>`.
pub open spec fn res_view(r: Result<String, String>) -> Result<Seq<char>, Seq<char>> {
    match r {
        Ok(p) => Ok(p@),
        Err(e) => Err(e@),
    }
}

/// The view of an `Option<String>`.
pub open spec fn opt_view(o: Option<String>) -> Option<Seq<char>> {
    match o {
        Some(p) => Some(p@),
        None => None,
    }
}

/// The views of a list of strings.
pub open spec fn strings_view(v: Seq<String>) -> Seq<Seq<char>> {
    v.map_values(|s: String| s@)
}

/// The user's own home directory: `$HOME` if absolute, else the platform's.
pub open spec fn primary_home(env: HomeEnv) -> Result<Seq<char>, Seq<char>> {
    match env.absolute_home_var {
        Some(h) => Ok(h@),
        None => match env.home_dir {
            Some(h) => Ok(h@),
            None => Err("Cannot find home directory"@),
        },
    }
}

/// The home directory whose Codex files are used: WSL's when there is one.
pub open spec fn effective_home(env: HomeEnv) -> Result<Seq<char>, Seq<char>> {
    match env.wsl_home {
        Some(h) => Ok(h@),
        None => primary_home(env),
    }
}

/// The application's data directory.
pub open spec fn app_data_dir(env: HomeEnv) -> Result<Seq<char>, Seq<char>> {
    match env.data_local_dir {
        Some(d) => Ok(join(d@, "codex-manager"@, env.windows)),
        None => Err("Cannot find app data directory"@),
    }
}

/// `~/.codex` of the user's own home.
pub open spec fn primary_codex_home(env: HomeEnv) -> Result<Seq<char>, Seq<char>> {
    join_ok(primary_home(env), ".codex"@, env.windows)
}

/// `.codex` of the effective home.
pub open spec fn effective_codex_home(env: HomeEnv) -> Result<Seq<char>, Seq<char>> {
    join_ok(effective_home(env), ".codex"@, env.windows)
}

/// The `auth.json` that Codex uses.
pub open spec fn codex_auth_path(env: HomeEnv) -> Result<Seq<char>, Seq<char>> {
    join_ok(effective_codex_home(env), "auth.json"@, env.windows)
}

/// The user's own `~/.codex/auth.json`, when it differs from [`codex_auth_path`].
pub open spec fn secondary_codex_auth_path(env: HomeEnv) -> Option<Seq<char>> {
    match (join_ok(primary_codex_home(env), "auth.json"@, env.windows), codex_auth_path(env)) {
        (Ok(primary), Ok(effective)) => if primary == effective {
            None
        } else {
            Some(primary)
        },
        _ => None,
    }
}

/// Where to look for `auth.json`, preferred first.
pub open spec fn candidate_auth_paths(env: HomeEnv) -> Result<Seq<Seq<char>>, Seq<char>> {
    match codex_auth_path(env) {
        Ok(p) => match secondary_codex_auth_path(env) {
            Some(s) => Ok(seq![p, s]),
            None => Ok(seq![p]),
        },
        Err(e) => Err(e),
    }
}

/// Where to look for session logs, preferred first.
pub open spec fn candidate_sessions_dirs(env: HomeEnv) -> Result<Seq<Seq<char>>, Seq<char>> {
    match (join_ok(effective_codex_home(env), "sessions"@, env.windows), join_ok(
        primary_codex_home(env),
        "sessions"@,
        env.windows,
    )) {
        (Err(e), _) => Err(e),
        (Ok(_), Err(e)) => Err(e),
        (Ok(preferred), Ok(primary)) => if preferred == primary {
            Ok(seq![preferred])
        } else {
            Ok(seq![preferred, primary])
        },
    }
}

/// `\\wsl$\`, the prefix of paths into WSL seen from Windows.
pub open spec fn wsl_prefix() -> Seq<char> {
    seq!['\\', '\\', 'w', 's', 'l', '$', '\\']
}

/// The WSL home directory announced by the probe's output: its first two
/// non-blank lines are the distribution's name and the Linux home directory,
/// which must be absolute; the result is `\\wsl$\<distro>\<home>` with the
/// home's slashes turned into backslashes.
pub open spec fn wsl_home_from_probe(out: Seq<char>) -> Option<Seq<char>> {
    let ls = nonblank_lines(out);
    if ls.len() >= 2 && ls[1][0] == '/' {
        Some(
            wsl_prefix() + ls[0] + seq!['\\'] + replace_char(
                strip_leading(ls[1], '/'),
                '/',
                '\\',
            ),
        )
    } else {
        None
    }
}

/// `path` lies inside WSL: it starts with `\\wsl$\`.
pub open spec fn has_wsl_prefix(path: Seq<char>) -> bool {
    has_prefix(path, wsl_prefix())
}

/// Joins `comp` onto `base` (see [`join`]).
pub fn join_path(base: &str, comp: &str, windows: bool) -> (res: String)
    ensures
        res@ == join(base@, comp@, windows),
{
    let b = chars_of(base);
    let c = chars_of(comp);
    let comp_drive = c.len() >= 2 && is_letter(c[0]) && c[1] == ':';
    let base_drive = b.len() >= 2 && is_letter(b[0]) && b[1] == ':';
    if windows && comp_drive {
        return string_from_chars(&c);
    }
    let mut out: Vec<char>;
    if c.len() > 0 && (c[0] == '/' || (windows && c[0] == '\\')) {
        if windows && base_drive && !(c.len() > 1 && (c[1] == '/' || c[1] == '\\')) {
            out = Vec::new();
            out.push(b[0]);
            out.push(b[1]);
            assert(out@ =~= b@.take(2));
        } else {
            return string_from_chars(&c);
        }
    } else {
        out = b;
        if out.len() > 0 && !(out[out.len() - 1] == '/' || (windows && out[out.len() - 1] == '\\'))
            && !(windows && out.len() == 2 && base_drive) {
            if windows {
                out.push('\\');
            } else {
                out.push('/');
            }
        }
    }
    let ghost head = out@;
    let mut i: usize = 0;
    while i < c.len()
        invariant
            i <= c@.len(),
            out@ == head + c@.take(i as int),
        decreases c@.len() - i,
    {
        out.push(c[i]);
        assert(c@.take(i + 1) =~= c@.take(i as int).push(c@[i as int]));
        i = i + 1;
    }
    assert(c@.take(c@.len() as int) =~= c@);
    proof {
        if !(c@.len() > 0 && is_separator(c@[0], windows)) {
            if base@.len() == 0 || is_separator(base@.last(), windows) || (windows && base@.len() == 2
                && has_drive(base@)) {
                assert(head == base@);
            } else {
                assert(head =~= base@ + seq![main_separator(windows)]);
            }
        }
    }
    string_from_chars(&out)
}

/// Decides `is_ascii_letter`.
fn is_letter(c: char) -> (r: bool)
    ensures
        r == is_ascii_letter(c),
{
    ('a' <= c && c <= 'z') || ('A' <= c && c <= 'Z')
}

fn join_result(r: Result<String, String>, comp: &str, windows: bool) -> (res: Result<String, String>)
    ensures
        res_view(res) == join_ok(res_view(r), comp@, windows),
{
    match r {
        Ok(p) => Ok(join_path(p.as_str(), comp, windows)),
        Err(e) => Err(e),
    }
}

/// The application's data directory: `<local data dir>/codex-manager`.
pub fn get_app_data_dir(env: &HomeEnv) -> (res: Result<String, String>)
    ensures
        res_view(res) == app_data_dir(*env),
{
    match &env.data_local_dir {
        Some(d) => Ok(join_path(d.as_str(), "codex-manager", env.windows)),
        None => Err(String::from_str("Cannot find app data directory")),
    }
}

/// `$HOME` when it is absolute, else the platform's home directory.
pub fn get_primary_home_dir(env: &HomeEnv) -> (res: Result<String, String>)
    ensures
        res_view(res) == primary_home(*env),
{
    match &env.absolute_home_var {
        Some(h) => Ok(h.clone()),
        None => match &env.home_dir {
            Some(h) => Ok(h.clone()),
            None => Err(String::from_str("Cannot find home directory")),
        },
    }
}

/// The WSL home directory when there is one, else the primary home directory.
pub fn get_effective_home_dir(env: &HomeEnv) -> (res: Result<String, String>)
    ensures
        res_view(res) == effective_home(*env),
{
    match &env.wsl_home {
        Some(h) => Ok(h.clone()),
        None => get_primary_home_dir(env),
    }
}

/// The home directory of the default WSL distribution, read from the output
/// of the probe that prints the distribution's name and `$HOME` on two lines.
/// `probe_output` is absent when the probe could not run, failed, or printed
/// something that is not UTF-8 (and always off Windows).
pub fn get_default_wsl_home_dir(probe_output: Option<&str>) -> (res: Option<String>)
    ensures
        opt_view(res) == match probe_output {
            Some(out) => wsl_home_from_probe(out@),
            None => None,
        },
{
    let out = match probe_output {
        Some(o) => o,
        None => return None,
    };
    let chars = chars_of(out);
    let lines = nonblank_lines_of(&chars);
    let ghost ls = nonblank_lines(out@);
    assert(lines@.map_values(|l: Vec<char>| l@) == ls);
    if lines.len() < 2 {
        return None;
    }
    assert(lines@[0]@ == ls[0] && lines@[1]@ == ls[1]);
    let distro = &lines[0];
    let home = &lines[1];
    if home.len() == 0 || home[0] != '/' {
        return None;
    }
    let suffix = strip_then_replace(home, '/', '/', '\\');
    let mut v: Vec<char> = Vec::new();
    v.push('\\');
    v.push('\\');
    v.push('w');
    v.push('s');
    v.push('l');
    v.push('$');
    v.push('\\');
    let mut i: usize = 0;
    while i < distro.len()
        invariant
            i <= distro@.len(),
            v@ == wsl_prefix() + distro@.take(i as int),
        decreases distro@.len() - i,
    {
        v.push(distro[i]);
        assert(distro@.take(i + 1) =~= distro@.take(i as int).push(distro@[i as int]));
        i = i + 1;
    }
    assert(distro@.take(distro@.len() as int) =~= distro@);
    v.push('\\');
    let ghost head = v@;
    let mut k: usize = 0;
    while k < suffix.len()
        invariant
            k <= suffix@.len(),
            v@ == head + suffix@.take(k as int),
        decreases suffix@.len() - k,
    {
        v.push(suffix[k]);
        assert(suffix@.take(k + 1) =~= suffix@.take(k as int).push(suffix@[k as int]));
        k = k + 1;
    }
    assert(suffix@.take(suffix@.len() as int) =~= suffix@);
    assert(v@ =~= wsl_prefix() + ls[0] + seq!['\\'] + replace_char(
        strip_leading(ls[1], '/'),
        '/',
        '\\',
    ));
    Some(string_from_chars(&v))
}

/// `~/.codex_manager` of the user's own home.
pub fn get_codex_manager_dir(env: &HomeEnv) -> (res: Result<String, String>)
    ensures
        res_view(res) == join_ok(primary_home(*env), ".codex_manager"@, env.windows),
{
    join_result(get_primary_home_dir(env), ".codex_manager", env.windows)
}

/// `~/.codex` of the user's own home.
pub fn get_primary_codex_home_dir(env: &HomeEnv) -> (res: Result<String, String>)
    ensures
        res_view(res) == primary_codex_home(*env),
{
    join_result(get_primary_home_dir(env), ".codex", env.windows)
}

/// `.codex` of the effective home.
pub fn get_effective_codex_home_dir(env: &HomeEnv) -> (res: Result<String, String>)
    ensures
        res_view(res) == effective_codex_home(*env),
{
    join_result(get_effective_home_dir(env), ".codex", env.windows)
}

/// The `auth.json` that Codex uses: in `.codex` of the effective home.
pub fn get_codex_auth_path(env: &HomeEnv) -> (res: Result<String, String>)
    ensures
        res_view(res) == codex_auth_path(*env),
{
    join_result(get_effective_codex_home_dir(env), "auth.json", env.windows)
}

/// The user's own `~/.codex/auth.json`, when it is not the one Codex uses.
pub fn get_secondary_codex_auth_path(env: &HomeEnv) -> (res: Option<String>)
    ensures
        opt_view(res) == secondary_codex_auth_path(*env),
{
    let primary = match get_primary_codex_home_dir(env) {
        Ok(p) => join_path(p.as_str(), "auth.json", env.windows),
        Err(_) => return None,
    };
    let effective = match get_codex_auth_path(env) {
        Ok(p) => p,
        Err(_) => return None,
    };
    if primary == effective {
        return None;
    }
    Some(primary)
}

/// Where to look for `auth.json`: the one Codex uses, then the user's own
/// when it is another file.
pub fn get_candidate_codex_auth_paths(env: &HomeEnv) -> (res: Result<Vec<String>, String>)
    ensures
        match (res, candidate_auth_paths(*env)) {
            (Ok(v), Ok(s)) => strings_view(v@) == s,
            (Err(e), Err(s)) => e@ == s,
            _ => false,
        },
{
    let preferred = match get_codex_auth_path(env) {
        Ok(p) => p,
        Err(e) => return Err(e),
    };
    let mut paths: Vec<String> = Vec::new();
    paths.push(preferred);
    if let Some(secondary) = get_secondary_codex_auth_path(env) {
        paths.push(secondary);
    }
    assert(strings_view(paths@) =~= candidate_auth_paths(*env)->Ok_0);
    Ok(paths)
}

/// `"wsl"` for a path into WSL (starting with `\\wsl$\`), else `"windows"`.
pub fn get_codex_auth_source_platform(path: &str) -> (res: String)
    ensures
        has_wsl_prefix(path@) ==> res@ == "wsl"@,
        !has_wsl_prefix(path@) ==> res@ == "windows"@,
{
    let mut prefix: Vec<char> = Vec::new();
    prefix.push('\\');
    prefix.push('\\');
    prefix.push('w');
    prefix.push('s');
    prefix.push('l');
    prefix.push('$');
    prefix.push('\\');
    assert(prefix@ =~= wsl_prefix());
    if has_prefix_chars(&chars_of(path), &prefix) {
        String::from_str("wsl")
    } else {
        String::from_str("windows")
    }
}

/// Where to look for session logs: `sessions` in `.codex` of the effective
/// home, then in the user's own `~/.codex` when that is another directory.
pub fn get_candidate_codex_sessions_dirs(env: &HomeEnv) -> (res: Result<Vec<String>, String>)
    ensures
        match (res, candidate_sessions_dirs(*env)) {
            (Ok(v), Ok(s)) => strings_view(v@) == s,
            (Err(e), Err(s)) => e@ == s,
            _ => false,
        },
{
    let preferred = match join_result(get_effective_codex_home_dir(env), "sessions", env.windows) {
        Ok(p) => p,
        Err(e) => return Err(e),
    };
    let primary = match join_result(get_primary_codex_home_dir(env), "sessions", env.windows) {
        Ok(p) => p,
        Err(e) => return Err(e),
    };
    let same = preferred == primary;
    let mut dirs: Vec<String> = Vec::new();
    dirs.push(preferred);
    if !same {
        dirs.push(primary);
    }
    assert(strings_view(dirs@) =~= candidate_sessions_dirs(*env)->Ok_0);
    Ok(dirs)
}

/// The first candidate sessions directory that exists, else the preferred one.
/// `exists[i]` tells whether `dirs[i]` exists.
pub fn get_codex_sessions_dir(dirs: Vec<String>, exists: &Vec<bool>) -> (res: Result<String, String>)
    requires
        exists@.len() == dirs@.len(),
    ensures
        dirs@.len() == 0 ==> (res matches Err(e) && e@ == "Cannot find home directory"@),
        res matches Ok(p) ==> exists|i: int|
            #![trigger dirs@[i]]
            0 <= i < dirs@.len() && p@ == dirs@[i]@ && (exists@[i] || i == 0) && forall|j: int|
                0 <= j < i ==> !exists@[j],
        res matches Ok(p) ==> (forall|j: int| 0 <= j < dirs@.len() ==> !exists@[j]) ==> p@
            == dirs@[0]@,
        dirs@.len() > 0 ==> res is Ok,
{
    let mut i: usize = 0;
    while i < dirs.len()
        invariant
            i <= dirs@.len(),
            exists@.len() == dirs@.len(),
            forall|j: int| 0 <= j < i ==> !exists@[j],
        decreases dirs@.len() - i,
    {
        if exists[i] {
            let p = dirs[i].clone();
            assert(p@ == dirs@[i as int]@);
            return Ok(p);
        }
        i = i + 1;
    }
    if dirs.len() > 0 {
        let p = dirs[0].clone();
        assert(p@ == dirs@[0]@);
        Ok(p)
    } else {
        Err(String::from_str("Cannot find home directory"))
    }
}

/// The accounts store file: `accounts.json` in the application's data directory.
pub fn get_accounts_store_path(env: &HomeEnv) -> (res: Result<String, String>)
    ensures
        res_view(res) == join_ok(app_data_dir(*env), "accounts.json"@, env.windows),
{
    join_result(get_app_data_dir(env), "accounts.json", env.windows)
}

/// The bindings file: `usage-bindings.json` in the application's data directory.
pub fn get_usage_bindings_path(env: &HomeEnv) -> (res: Result<String, String>)
    ensures
        res_view(res) == join_ok(app_data_dir(*env), "usage-bindings.json"@, env.windows),
{
    join_result(get_app_data_dir(env), "usage-bindings.json", env.windows)
}

/// Where account auth files are kept: `~/.codex_manager/auths`.
pub fn get_auth_store_dir(env: &HomeEnv) -> (res: Result<String, String>)
    ensures
        res_view(res) == join_ok(
            join_ok(primary_home(*env), ".codex_manager"@, env.windows),
            "auths"@,
            env.windows,
        ),
{
    join_result(get_codex_manager_dir(env), "auths", env.windows)
}

/// The auth file of one account: `<account id>.json` in the auth store.
pub fn get_account_auth_path(env: &HomeEnv, account_id: &str) -> (res: Result<String, String>)
    ensures
        res_view(res) == join_ok(
            join_ok(join_ok(primary_home(*env), ".codex_manager"@, env.windows), "auths"@, env.windows),
            account_id@ + ".json"@,
            env.windows,
        ),
{
    let name = crate::text::concat_str(account_id, ".json");
    join_result(get_auth_store_dir(env), name.as_str(), env.windows)
}


/// A path component that names something: not empty and not `.`.
pub open spec fn is_named_segment(s: Seq<char>) -> bool {
    s.len() > 0 && s != seq!['.']
}

/// The components of a path between separators that name something.
pub open spec fn path_segments(p: Seq<char>, windows: bool) -> Seq<Seq<char>> {
    split_on(replace_char(p, main_separator(windows), '/'), '/').filter(|s: Seq<char>| is_named_segment(s))
}

/// `Path::file_name`: the last component, unless there is none or it is `..`.
pub open spec fn file_name(p: Seq<char>, windows: bool) -> Option<Seq<char>> {
    let segs = path_segments(p, windows);
    if segs.len() > 0 && segs.last() != seq!['.', '.'] {
        Some(segs.last())
    } else {
        None
    }
}

/// The position of the last `c` in `s`, or -1.
pub open spec fn last_index_of(s: Seq<char>, c: char) -> int
    decreases s.len(),
{
    if s.len() == 0 {
        -1
    } else if s.last() == c {
        s.len() - 1
    } else {
        last_index_of(s.drop_last(), c)
    }
}

/// `Path::extension`: what follows the last `.` of the file name, unless the
/// name has no `.` other than a leading one.
pub open spec fn extension(p: Seq<char>, windows: bool) -> Option<Seq<char>> {
    match file_name(p, windows) {
        Some(n) => if last_index_of(n, '.') > 0 {
            Some(n.skip(last_index_of(n, '.') + 1))
        } else {
            None
        },
        None => None,
    }
}

proof fn lemma_filter_last<A>(s: Seq<A>, p: spec_fn(A) -> bool, j: int)
    requires
        0 <= j < s.len(),
        p(s[j]),
        forall|k: int| j < k < s.len() ==> !p(#[trigger] s[k]),
    ensures
        s.filter(p).len() > 0,
        s.filter(p).last() == s[j],
    decreases s.len(),
{
    reveal(Seq::filter);
    if j < s.len() - 1 {
        lemma_filter_last(s.drop_last(), p, j);
    }
}

proof fn lemma_filter_empty<A>(s: Seq<A>, p: spec_fn(A) -> bool)
    requires
        forall|k: int| 0 <= k < s.len() ==> !p(#[trigger] s[k]),
    ensures
        s.filter(p).len() == 0,
    decreases s.len(),
{
    reveal(Seq::filter);
    if s.len() > 0 {
        lemma_filter_empty(s.drop_last(), p);
    }
}

/// Whether a path's extension is `jsonl` (the extension of session logs).
#[verifier::loop_isolation(false)]
pub fn has_jsonl_extension(path: &str, windows: bool) -> (res: bool)
    ensures
        res == (extension(path@, windows) == Some("jsonl"@)),
{
    let sep = if windows {
        '\\'
    } else {
        '/'
    };
    let chars = replace_chars(&chars_of(path), sep, '/');
    let segs = split_chars(&chars, '/');
    let ghost ss = split_on(replace_char(path@, main_separator(windows), '/'), '/');
    assert(segs@.map_values(|l: Vec<char>| l@) == ss);
    let ghost pred = |t: Seq<char>| is_named_segment(t);
    // The last segment that names something.
    let mut k = segs.len();
    let mut found = false;
    while k > 0 && !found
        invariant
            k <= segs@.len(),
            segs@.len() == ss.len(),
            forall|i: int| 0 <= i < ss.len() ==> #[trigger] ss[i] == segs@[i]@,
            !found ==> forall|i: int| k <= i < ss.len() ==> !is_named_segment(#[trigger] ss[i]),
            found ==> k < segs@.len() && is_named_segment(ss[k as int]) && forall|i: int|
                k < i < ss.len() ==> !is_named_segment(#[trigger] ss[i]),
        decreases k + (if found { 0int } else { 1int }),
    {
        let seg = &segs[k - 1];
        let named = seg.len() > 0 && !(seg.len() == 1 && seg[0] == '.');
        proof {
            assert(ss[k - 1] == seg@);
            if seg@.len() == 1 && seg@[0] == '.' {
                assert(seg@ =~= seq!['.']);
            }
            if seg@ == seq!['.'] {
                assert(seg@.len() == 1 && seg@[0] == '.');
            }
        }
        if named {
            found = true;
        }
        k = k - 1;
    }
    proof {
        if found {
            lemma_filter_last(ss, pred, k as int);
        } else {
            lemma_filter_empty(ss, pred);
        }
    }
    if !found {
        return false;
    }
    let name = &segs[k];
    assert(name@ == path_segments(path@, windows).last());
    if name.len() == 2 && name[0] == '.' && name[1] == '.' {
        assert(name@ =~= seq!['.', '.']);
        return false;
    }
    assert(name@ != seq!['.', '.']) by {
        if name@ == seq!['.', '.'] {
            assert(name@.len() == 2 && name@[0] == '.' && name@[1] == '.');
        }
    }
    // The last dot of the name.
    let mut d = name.len();
    assert(name@.take(d as int) =~= name@);
    while d > 0 && name[d - 1] != '.'
        invariant
            d <= name@.len(),
            last_index_of(name@, '.') == last_index_of(name@.take(d as int), '.'),
        decreases d,
    {
        assert(name@.take(d as int).drop_last() =~= name@.take(d - 1));
        d = d - 1;
    }
    if d > 0 {
        assert(name@.take(d as int).last() == '.');
    } else {
        assert(name@.take(0) =~= Seq::<char>::empty());
    }
    if d <= 1 {
        return false;
    }
    let dot = d - 1;
    let ext_len = name.len() - dot - 1;
    let target = chars_of("jsonl");
    if ext_len != target.len() {
        assert(name@.skip(dot + 1).len() != "jsonl"@.len());
        return false;
    }
    let mut i: usize = 0;
    while i < ext_len
        invariant
            i <= ext_len,
            ext_len == target@.len(),
            dot + 1 + ext_len == name@.len(),
            target@ == "jsonl"@,
            forall|j: int| 0 <= j < i ==> name@[dot + 1 + j] == #[trigger] target@[j],
        decreases ext_len - i,
    {
        if name[dot + 1 + i] != target[i] {
            assert(name@.skip(dot + 1)[i as int] != target@[i as int]);
            return false;
        }
        i = i + 1;
    }
    assert(name@.skip(dot + 1) =~= target@);
    true
}

/// The directory the session watcher watches: the sessions directory when it
/// was found and exists. Otherwise nothing is watched, and the result is the
/// warning to log.
pub fn sessions_dir_to_watch(dir: Result<String, String>, exists: bool) -> (res: Result<String, String>)
    ensures
        match dir {
            Err(e) => res matches Err(m) && m@ == "Failed to resolve sessions dir: "@ + e@,
            Ok(d) => if exists {
                res matches Ok(r) && r@ == d@
            } else {
                res matches Err(m) && m@ == "Sessions directory not found for watcher"@
            },
        },
{
    match dir {
        Err(e) => Err(crate::text::concat_str("Failed to resolve sessions dir: ", e.as_str())),
        Ok(d) => if exists {
            Ok(d)
        } else {
            Err(String::from_str("Sessions directory not found for watcher"))
        },
    }
}

/// What a change in the file system was, as far as binding sessions goes.
#[derive(Debug, Clone, Copy, PartialEq, Eq)]
pub enum FsChange {
    Created,
    Modified,
    Other,
}

/// Of the paths a file-system change touched, the session logs to bind: all
/// `.jsonl` files, when files were created or modified.
pub fn session_logs_to_bind(change: FsChange, paths: Vec<String>, windows: bool) -> (res: Vec<String>)
    ensures
        change is Other ==> res@.len() == 0,
        !(change is Other) ==> res@.map_values(|p: String| p@) == paths@.map_values(|p: String| p@).filter(
            |p: Seq<char>| extension(p, windows) == Some("jsonl"@),
        ),
{
    let mut out: Vec<String> = Vec::new();
    if let FsChange::Other = change {
        return out;
    }
    let ghost pv = paths@.map_values(|p: String| p@);
    let ghost pred = |p: Seq<char>| extension(p, windows) == Some("jsonl"@);
    let n = paths.len();
    let mut rest = paths;
    let mut i: usize = 0;
    while rest.len() > 0
        invariant
            i + rest@.len() == n,
            pv.len() == n,
            rest@.map_values(|p: String| p@) == pv.skip(i as int),
            pred == (|p: Seq<char>| extension(p, windows) == Some("jsonl"@)),
            out@.map_values(|p: String| p@) == pv.take(i as int).filter(pred),
        decreases rest@.len(),
    {
        let ghost old_rest = rest@;
        let p = rest.remove(0);
        assert(p@ == pv[i as int]) by {
            assert(old_rest.map_values(|q: String| q@)[0] == p@);
            assert(pv.skip(i as int)[0] == pv[i as int]);
        }
        assert(rest@.map_values(|q: String| q@) =~= pv.skip(i + 1)) by {
            assert(rest@.map_values(|q: String| q@) =~= pv.skip(i as int).drop_first());
        }
        assert(pv.take(i + 1) =~= pv.take(i as int).push(p@));
        proof {
            pv.take(i as int).lemma_filter_push(p@, pred);
        }
        let keep = has_jsonl_extension(p.as_str(), windows);
        assert(keep == pred(p@));
        if keep {
            let ghost before = out@;
            out.push(p);
            assert(out@.map_values(|q: String| q@) =~= before.map_values(|q: String| q@).push(
                pv[i as int],
            ));
        }
        i = i + 1;
    }
    assert(pv.take(n as int) =~= pv);
    out
}


/// The auth files to look at are the one Codex uses, first, and at most one
/// other, never the same file twice.
pub proof fn law_candidate_auth_paths_distinct(env: HomeEnv, ps: Seq<Seq<char>>)
    requires
        candidate_auth_paths(env) == Ok::<Seq<Seq<char>>, Seq<char>>(ps),
    ensures
        1 <= ps.len() <= 2,
        codex_auth_path(env) == Ok::<Seq<char>, Seq<char>>(ps[0]),
        ps.len() == 2 ==> ps[0] != ps[1],
{
}

/// The session directories to look at are the preferred one, first, and at
/// most one other, never the same directory twice.
pub proof fn law_candidate_sessions_dirs_distinct(env: HomeEnv, ds: Seq<Seq<char>>)
    requires
        candidate_sessions_dirs(env) == Ok::<Seq<Seq<char>>, Seq<char>>(ds),
    ensures
        1 <= ds.len() <= 2,
        join_ok(effective_codex_home(env), "sessions"@, env.windows) == Ok::<Seq<char>, Seq<char>>(ds[0]),
        ds.len() == 2 ==> ds[0] != ds[1],
{
}

proof fn lemma_join_keeps_prefix(base: Seq<char>, comp: Seq<char>, windows: bool, prefix: Seq<char>)
    requires
        has_prefix(base, prefix),
        comp.len() > 0,
        !is_separator(comp[0], windows),
        !(windows && has_drive(comp)),
    ensures
        has_prefix(join(base, comp, windows), prefix),
{
    let j = join(base, comp, windows);
    assert(j.take(prefix.len() as int) =~= base.take(prefix.len() as int));
}

/// When Codex's home is the WSL home found by the probe, the `auth.json`
/// Codex uses lies inside WSL and is reported as such.
pub proof fn law_wsl_auth_reported_as_wsl(env: HomeEnv, probe: Seq<char>)
    requires
        env.wsl_home is Some,
        wsl_home_from_probe(probe) == Some(env.wsl_home->0@),
    ensures
        codex_auth_path(env) is Ok,
        has_wsl_prefix(codex_auth_path(env)->Ok_0),
{
    let h = env.wsl_home->0@;
    let ls = nonblank_lines(probe);
    assert(h.take(wsl_prefix().len() as int) =~= wsl_prefix());
    reveal_strlit(".codex");
    reveal_strlit("auth.json");
    lemma_join_keeps_prefix(h, ".codex"@, env.windows, wsl_prefix());
    lemma_join_keeps_prefix(join(h, ".codex"@, env.windows), "auth.json"@, env.windows, wsl_prefix());
}

} // verus!
