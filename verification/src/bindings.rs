//! Session bindings: which session log files belong to which account.
//!
//! The store maps each account id to its list of bindings. A session file (by
//! its session id or by its path) may belong to one account only; an account
//! keeps at most [`MAX_BINDINGS_PER_ACCOUNT`] bindings, ordered by creation
//! time and then by binding time.
use vstd::prelude::*;
use crate::timestamps::{SystemInstant, instant_before, now_epoch_ms_string, epoch_ms_text, epoch_seconds, epoch_seconds_string};
use crate::text::{decimal, chars_of, lex_order, lex_order_chars, lemma_lex_order_eq, lemma_lex_order_trans, lemma_lex_order_trans_strict, lemma_lex_order_antisym};

verus! {

/// How many bindings an account keeps; older ones are dropped first.
pub const MAX_BINDINGS_PER_ACCOUNT: usize = 200;

/// One session log file bound to an account.
#[derive(Debug, Clone, PartialEq)]
pub struct SessionBinding {
    pub session_id: String,
    pub created_at: String,
    pub file_path: String,
    pub bound_at: String,
}

/// The mathematical value of a [`SessionBinding`].
pub struct BindingView {
    pub session_id: Seq<char>,
    pub created_at: Seq<char>,
    pub file_path: Seq<char>,
    pub bound_at: Seq<char>,
}

impl View for SessionBinding {
    type V = BindingView;

    open spec fn view(&self) -> BindingView {
        BindingView {
            session_id: self.session_id@,
            created_at: self.created_at@,
            file_path: self.file_path@,
            bound_at: self.bound_at@,
        }
    }
}

/// The views of a sequence of bindings.
pub open spec fn views(v: Seq<SessionBinding>) -> Seq<BindingView> {
    v.map_values(|b: SessionBinding| b@)
}

/// The key by which bindings are ordered: creation time, then binding time.
pub open spec fn sort_key(b: BindingView) -> (Seq<char>, Seq<char>) {
    (b.created_at, b.bound_at)
}

/// `x` comes no later than `y` in the order of [`sort_key`] (both compared as strings).
pub open spec fn key_le(x: BindingView, y: BindingView) -> bool {
    lex_order(x.created_at, y.created_at) < 0 || (lex_order(x.created_at, y.created_at) == 0
        && lex_order(x.bound_at, y.bound_at) <= 0)
}

/// `s` is ordered by [`key_le`].
pub open spec fn sorted_by_time(s: Seq<BindingView>) -> bool {
    forall|i: int, j: int| 0 <= i < j < s.len() ==> key_le(#[trigger] s[i], #[trigger] s[j])
}

/// The bindings of `s` whose key is `k`, in their order in `s`.
pub open spec fn with_key(s: Seq<BindingView>, k: (Seq<char>, Seq<char>)) -> Seq<BindingView> {
    s.filter(|x: BindingView| sort_key(x) == k)
}

/// `t` is `s` sorted by key, with bindings of equal key kept in their order in
/// `s` (a stable sort; together the two conditions determine `t`).
pub open spec fn is_stable_sort_of(t: Seq<BindingView>, s: Seq<BindingView>) -> bool {
    &&& sorted_by_time(t)
    &&& forall|k: (Seq<char>, Seq<char>)| #[trigger] with_key(t, k) == with_key(s, k)
}

proof fn lemma_key_le_trans(x: BindingView, y: BindingView, z: BindingView)
    requires
        key_le(x, y),
        key_le(y, z),
    ensures
        key_le(x, z),
{
    lemma_lex_order_eq(x.created_at, y.created_at);
    lemma_lex_order_eq(y.created_at, z.created_at);
    lemma_lex_order_eq(x.created_at, z.created_at);
    lemma_lex_order_trans(x.created_at, y.created_at, z.created_at);
    if lex_order(x.created_at, y.created_at) < 0 || lex_order(y.created_at, z.created_at) < 0 {
        lemma_lex_order_trans_strict(x.created_at, y.created_at, z.created_at);
    } else {
        lemma_lex_order_trans(x.bound_at, y.bound_at, z.bound_at);
    }
}

proof fn lemma_key_not_le(x: BindingView, y: BindingView)
    requires
        !key_le(x, y),
    ensures
        key_le(y, x),
        sort_key(x) != sort_key(y),
{
    lemma_lex_order_eq(x.created_at, y.created_at);
    lemma_lex_order_eq(x.bound_at, y.bound_at);
    lemma_lex_order_antisym(x.created_at, y.created_at);
    lemma_lex_order_antisym(x.bound_at, y.bound_at);
}

proof fn lemma_filter_none<A>(s: Seq<A>, p: spec_fn(A) -> bool)
    requires
        forall|i: int| 0 <= i < s.len() ==> !p(#[trigger] s[i]),
    ensures
        s.filter(p) == Seq::<A>::empty(),
    decreases s.len(),
{
    reveal(Seq::filter);
    if s.len() > 0 {
        lemma_filter_none(s.drop_last(), p);
    }
}

/// `!key_le(a, b)`, computed.
fn key_after(a: &SessionBinding, b: &SessionBinding) -> (r: bool)
    ensures
        r == !key_le(a@, b@),
{
    let ca = chars_of(a.created_at.as_str());
    let cb = chars_of(b.created_at.as_str());
    let c = lex_order_chars(&ca, &cb);
    proof {
        lemma_lex_order_eq(a@.created_at, b@.created_at);
    }
    if c != 0 {
        c > 0
    } else {
        let ba = chars_of(a.bound_at.as_str());
        let bb = chars_of(b.bound_at.as_str());
        lex_order_chars(&ba, &bb) > 0
    }
}

/// Sorts bindings by creation time, then binding time, keeping bindings with
/// equal keys in the order they were given (`slice::sort_by`, which is stable).
pub fn sort_bindings(input: Vec<SessionBinding>) -> (res: Vec<SessionBinding>)
    ensures
        is_stable_sort_of(views(res@), views(input@)),
        res@.len() == input@.len(),
{
    let ghost inp = views(input@);
    let total = input.len();
    let ghost n = input@.len();
    let mut rest = input;
    let mut res: Vec<SessionBinding> = Vec::new();
    let mut i: usize = 0;
    while rest.len() > 0
        invariant
            inp.len() == n,
            n == total,
            i + rest@.len() == n,
            views(rest@) == inp.skip(i as int),
            sorted_by_time(views(res@)),
            res@.len() == i,
            forall|k: (Seq<char>, Seq<char>)| #[trigger]
                with_key(views(res@), k) == with_key(inp.take(i as int), k),
        decreases rest@.len(),
    {
        let ghost old_res = views(res@);
        let ghost old_rest = rest@;
        let x = rest.remove(0);
        let ghost xv = x@;
        assert(xv == inp[i as int]) by {
            assert(views(old_rest)[0] == xv);
            assert(inp.skip(i as int)[0] == inp[i as int]);
        }
        assert(views(rest@) =~= inp.skip(i + 1)) by {
            assert(views(rest@) =~= inp.skip(i as int).drop_first());
        }
        let mut p = res.len();
        while p > 0 && key_after(&res[p - 1], &x)
            invariant
                p <= res@.len(),
                old_res == views(res@),
                x@ == xv,
                forall|j: int| p <= j < old_res.len() ==> !key_le(#[trigger] old_res[j], xv),
            decreases p,
        {
            p = p - 1;
        }
        res.insert(p, x);
        let ghost new_res = views(res@);
        assert(new_res =~= old_res.take(p as int) + seq![xv] + old_res.skip(p as int));
        // still sorted
        assert forall|a: int, b: int| 0 <= a < b < new_res.len() implies key_le(
            #[trigger] new_res[a],
            #[trigger] new_res[b],
        ) by {
            if b < p {
                assert(new_res[a] == old_res[a] && new_res[b] == old_res[b]);
            } else if b == p {
                assert(new_res[a] == old_res[a]);
                assert(key_le(old_res[p - 1], xv));
                if a < p - 1 {
                    lemma_key_le_trans(old_res[a], old_res[p - 1], xv);
                }
            } else if a == p {
                assert(new_res[b] == old_res[b - 1]);
                lemma_key_not_le(old_res[b - 1], xv);
            } else if a < p {
                assert(new_res[a] == old_res[a] && new_res[b] == old_res[b - 1]);
            } else {
                assert(new_res[a] == old_res[a - 1] && new_res[b] == old_res[b - 1]);
            }
        }
        // every key keeps its bindings, in order
        assert forall|k: (Seq<char>, Seq<char>)| #[trigger]
            with_key(new_res, k) == with_key(inp.take(i + 1), k) by {
            let pred = |y: BindingView| sort_key(y) == k;
            assert(inp.take(i + 1) =~= inp.take(i as int).push(xv));
            inp.take(i as int).lemma_filter_push(xv, pred);
            Seq::filter_distributes_over_add(old_res.take(p as int), seq![xv], pred);
            Seq::filter_distributes_over_add(
                old_res.take(p as int) + seq![xv],
                old_res.skip(p as int),
                pred,
            );
            Seq::filter_distributes_over_add(old_res.take(p as int), old_res.skip(p as int), pred);
            assert(old_res =~= old_res.take(p as int) + old_res.skip(p as int));
            reveal(Seq::filter);
            assert(seq![xv].drop_last() =~= Seq::<BindingView>::empty());
            if sort_key(xv) == k {
                assert forall|j: int| 0 <= j < old_res.skip(p as int).len() implies !pred(
                    #[trigger] old_res.skip(p as int)[j],
                ) by {
                    lemma_key_not_le(old_res[p + j], xv);
                }
                lemma_filter_none(old_res.skip(p as int), pred);
                assert(with_key(new_res, k) =~= with_key(old_res, k).push(xv));
            } else {
                assert(!pred(seq![xv][0]));
                lemma_filter_none(seq![xv], pred);
                assert(with_key(new_res, k) =~= with_key(old_res, k));
            }
        }
        i = i + 1;
    }
    assert(inp.take(n as int) =~= inp);
    res
}


/// The bindings of one account.
#[derive(Debug, Clone, PartialEq)]
pub struct AccountBindings {
    pub account_id: String,
    pub entries: Vec<SessionBinding>,
}

/// All bindings, with the format version of the stored file.
#[derive(Debug, Clone, PartialEq)]
pub struct UsageBindingsStore {
    pub version: String,
    pub bindings: Vec<AccountBindings>,
}

/// No account id occurs twice (the store is a map from account ids).
pub open spec fn accounts_wf(s: Seq<AccountBindings>) -> bool {
    forall|i: int, j: int|
        0 <= i < j < s.len() ==> #[trigger] s[i].account_id@ != #[trigger] s[j].account_id@
}

/// Some entry of `s` is for account `a`.
pub open spec fn accounts_has(s: Seq<AccountBindings>, a: Seq<char>) -> bool {
    exists|i: int| 0 <= i < s.len() && #[trigger] s[i].account_id@ == a
}

/// The position of account `a` in `s` (meaningful when `accounts_has(s, a)`).
pub open spec fn account_index(s: Seq<AccountBindings>, a: Seq<char>) -> int {
    choose|i: int| 0 <= i < s.len() && #[trigger] s[i].account_id@ == a
}

/// The store as a map from account id to that account's bindings.
pub open spec fn accounts_map(s: Seq<AccountBindings>) -> Map<Seq<char>, Seq<BindingView>> {
    Map::new(
        |a: Seq<char>| accounts_has(s, a),
        |a: Seq<char>| views(s[account_index(s, a)].entries@),
    )
}

impl UsageBindingsStore {
    /// Account ids are distinct.
    pub open spec fn wf(&self) -> bool {
        accounts_wf(self.bindings@)
    }

    /// The bindings of every account.
    pub open spec fn as_map(&self) -> Map<Seq<char>, Seq<BindingView>> {
        accounts_map(self.bindings@)
    }

    /// The bindings of account `a`, empty when it has none.
    pub open spec fn entries_of(&self, a: Seq<char>) -> Seq<BindingView> {
        if self.as_map().dom().contains(a) {
            self.as_map()[a]
        } else {
            Seq::empty()
        }
    }
}

/// Two bindings name the same session or the same file.
pub open spec fn clashes(x: BindingView, y: BindingView) -> bool {
    x.session_id == y.session_id || x.file_path == y.file_path
}

/// Some account other than `a` already holds a binding that clashes with `b`.
pub open spec fn bound_elsewhere(
    m: Map<Seq<char>, Seq<BindingView>>,
    a: Seq<char>,
    b: BindingView,
) -> bool {
    exists|k: Seq<char>, i: int|
        #![trigger m[k][i]]
        m.dom().contains(k) && k != a && 0 <= i < m[k].len() && clashes(m[k][i], b)
}

/// `i` is the first position in `es` with session id `sid`.
pub open spec fn first_with_session(es: Seq<BindingView>, sid: Seq<char>, i: int) -> bool {
    &&& 0 <= i < es.len()
    &&& es[i].session_id == sid
    &&& forall|j: int| 0 <= j < i ==> (#[trigger] es[j]).session_id != sid
}

/// `es` with `b` in place of the first binding of the same session, or with
/// `b` appended when there is none.
pub open spec fn upsert(es: Seq<BindingView>, b: BindingView) -> Seq<BindingView> {
    if exists|i: int| first_with_session(es, b.session_id, i) {
        es.update(choose|i: int| first_with_session(es, b.session_id, i), b)
    } else {
        es.push(b)
    }
}

/// The last `n` elements of `s` (all of `s` when it is shorter).
pub open spec fn keep_last<A>(s: Seq<A>, n: nat) -> Seq<A> {
    if s.len() > n {
        s.skip(s.len() - n)
    } else {
        s
    }
}

/// What account `a`'s bindings become when `b` is added to them: upserted,
/// stably sorted by time, cut to the newest [`MAX_BINDINGS_PER_ACCOUNT`].
pub open spec fn bound_entries(
    es: Seq<BindingView>,
    b: BindingView,
    result: Seq<BindingView>,
) -> bool {
    exists|t: Seq<BindingView>|
        is_stable_sort_of(t, upsert(es, b)) && result == keep_last(t, MAX_BINDINGS_PER_ACCOUNT as nat)
}

proof fn lemma_accounts_update(s: Seq<AccountBindings>, j: int, x: AccountBindings)
    requires
        accounts_wf(s),
        0 <= j < s.len(),
        x.account_id@ == s[j].account_id@,
    ensures
        accounts_wf(s.update(j, x)),
        accounts_map(s.update(j, x)) == accounts_map(s).insert(x.account_id@, views(x.entries@)),
{
    let w = s.update(j, x);
    assert forall|a: int, b: int| 0 <= a < b < w.len() implies #[trigger] w[a].account_id@
        != #[trigger] w[b].account_id@ by {
        assert(s[a].account_id@ != s[b].account_id@);
    }
    assert forall|k: Seq<char>| accounts_has(w, k) == accounts_has(s, k) by {
        if accounts_has(s, k) {
            let i = choose|i: int| 0 <= i < s.len() && #[trigger] s[i].account_id@ == k;
            assert(w[i].account_id@ == k);
        }
        if accounts_has(w, k) {
            let i = choose|i: int| 0 <= i < w.len() && #[trigger] w[i].account_id@ == k;
            assert(s[i].account_id@ == k);
        }
    }
    let m1 = accounts_map(w);
    let m2 = accounts_map(s).insert(x.account_id@, views(x.entries@));
    assert forall|k: Seq<char>| #[trigger] m1.dom().contains(k) implies m1[k] == m2[k] by {
        let i = account_index(w, k);
        assert(0 <= i < w.len() && w[i].account_id@ == k);
        if k == x.account_id@ {
            assert(i == j);
        } else {
            let i2 = account_index(s, k);
            assert(0 <= i2 < s.len() && s[i2].account_id@ == k);
            assert(i != j);
            assert(w[i] == s[i]);
            assert(i == i2);
        }
    }
    assert(m1 =~= m2);
}

proof fn lemma_accounts_push(s: Seq<AccountBindings>, x: AccountBindings)
    requires
        accounts_wf(s),
        !accounts_has(s, x.account_id@),
    ensures
        accounts_wf(s.push(x)),
        accounts_map(s.push(x)) == accounts_map(s).insert(x.account_id@, views(x.entries@)),
{
    let w = s.push(x);
    assert forall|a: int, b: int| 0 <= a < b < w.len() implies #[trigger] w[a].account_id@
        != #[trigger] w[b].account_id@ by {
        if b == s.len() {
            assert(w[a] == s[a]);
        } else {
            assert(s[a].account_id@ != s[b].account_id@);
        }
    }
    assert forall|k: Seq<char>| accounts_has(w, k) == (accounts_has(s, k) || k == x.account_id@) by {
        if accounts_has(s, k) {
            let i = choose|i: int| 0 <= i < s.len() && #[trigger] s[i].account_id@ == k;
            assert(w[i].account_id@ == k);
        }
        if k == x.account_id@ {
            assert(w[s.len() as int].account_id@ == k);
        }
        if accounts_has(w, k) && k != x.account_id@ {
            let i = choose|i: int| 0 <= i < w.len() && #[trigger] w[i].account_id@ == k;
            assert(i < s.len());
            assert(s[i].account_id@ == k);
        }
    }
    let m1 = accounts_map(w);
    let m2 = accounts_map(s).insert(x.account_id@, views(x.entries@));
    assert forall|k: Seq<char>| #[trigger] m1.dom().contains(k) implies m1[k] == m2[k] by {
        let i = account_index(w, k);
        assert(0 <= i < w.len() && w[i].account_id@ == k);
        if k == x.account_id@ {
            if i < s.len() {
                assert(s[i].account_id@ == k);
            }
            assert(i == s.len());
        } else {
            let i2 = account_index(s, k);
            assert(0 <= i2 < s.len() && s[i2].account_id@ == k);
            assert(i < s.len());
            assert(w[i] == s[i]);
            assert(i == i2);
        }
    }
    assert(m1 =~= m2);
}

/// The store used when no bindings file exists yet.
pub fn empty_usage_bindings_store() -> (store: UsageBindingsStore)
    ensures
        store.wf(),
        store.version@ == "1.0.0"@,
        store.as_map() == Map::<Seq<char>, Seq<BindingView>>::empty(),
{
    let store = UsageBindingsStore {
        version: String::from_str("1.0.0"),
        bindings: Vec::new(),
    };
    assert(store.as_map() =~= Map::<Seq<char>, Seq<BindingView>>::empty());
    store
}

/// Binds a session file to `account_id`.
///
/// Fails, leaving the store as it was, when another account already holds a
/// binding with the same session id or the same file path. Otherwise the
/// account's binding of the same session is replaced (or the binding is
/// added), the account's bindings are stably sorted by creation time and then
/// binding time, and only the newest [`MAX_BINDINGS_PER_ACCOUNT`] are kept.
#[verifier::loop_isolation(false)]
pub fn update_usage_bindings(
    store: &mut UsageBindingsStore,
    account_id: &str,
    binding: SessionBinding,
) -> (r: Result<(), String>)
    requires
        old(store).wf(),
    ensures
        final(store).wf(),
        r is Err <==> bound_elsewhere(old(store).as_map(), account_id@, binding@),
        r matches Err(e) ==> e@ == "Session file already bound to another account"@,
        r is Err ==> *final(store) == *old(store),
        r is Ok ==> {
            &&& final(store).version == old(store).version
            &&& final(store).as_map().dom() == old(store).as_map().dom().insert(account_id@)
            &&& final(store).as_map() == old(store).as_map().insert(
                account_id@,
                final(store).as_map()[account_id@],
            )
            &&& bound_entries(
                old(store).entries_of(account_id@),
                binding@,
                final(store).as_map()[account_id@],
            )
        },
{
    let ghost m = old(store).as_map();
    let ghost bv = binding@;
    let ghost a = account_id@;
    let wanted = String::from_str(account_id);
    let n = store.bindings.len();
    // Another account must not hold the same session or file.
    let mut j: usize = 0;
    while j < n
        invariant
            n == store.bindings@.len(),
            j <= n,
            store.wf(),
            m == store.as_map(),
            bv == binding@,
            wanted@ == a,
            forall|jj: int, ii: int|
                #![trigger store.bindings@[jj].entries@[ii]]
                0 <= jj < j && store.bindings@[jj].account_id@ != a && 0 <= ii
                    < store.bindings@[jj].entries@.len() ==> !clashes(
                    store.bindings@[jj].entries@[ii]@,
                    bv,
                ),
        decreases n - j,
    {
        let acct = &store.bindings[j];
        if acct.account_id != wanted {
            let es = &acct.entries;
            let mut i: usize = 0;
            while i < es.len()
                invariant
                    i <= es@.len(),
                    bv == binding@,
                    forall|ii: int| 0 <= ii < i ==> !clashes(#[trigger] es@[ii]@, bv),
                decreases es@.len() - i,
            {
                if es[i].session_id == binding.session_id || es[i].file_path == binding.file_path {
                    proof {
                        let k = store.bindings@[j as int].account_id@;
                        assert(accounts_has(store.bindings@, k));
                        let jj = account_index(store.bindings@, k);
                        assert(jj == j);
                        assert(m.dom().contains(k));
                        assert(m[k] == views(es@));
                        assert(m[k][i as int] == es@[i as int]@);
                    }
                    return Err(String::from_str("Session file already bound to another account"));
                }
                i = i + 1;
            }
        }
        j = j + 1;
    }
    proof {
        assert forall|k: Seq<char>, i: int|
            #![trigger m[k][i]]
            m.dom().contains(k) && k != a && 0 <= i < m[k].len() implies !clashes(m[k][i], bv) by {
            let jj = account_index(store.bindings@, k);
            assert(store.bindings@[jj].entries@[i]@ == m[k][i]);
        }
    }
    // Where the account stands, if it has bindings already.
    j = 0;
    while j < n && !(store.bindings[j].account_id == wanted)
        invariant
            n == store.bindings@.len(),
            j <= n,
            wanted@ == a,
            forall|jj: int| 0 <= jj < j ==> (#[trigger] store.bindings@[jj]).account_id@ != a,
        decreases n - j,
    {
        j = j + 1;
    }
    let found = j < n;
    let ghost old_accounts = store.bindings@;
    let mut entries: Vec<SessionBinding>;
    let id: String;
    if found {
        let acct = store.bindings.remove(j);
        proof {
            assert(accounts_has(old_accounts, a));
            assert(account_index(old_accounts, a) == j);
        }
        entries = acct.entries;
        id = acct.account_id;
    } else {
        proof {
            if accounts_has(old_accounts, a) {
                let jj = choose|jj: int| 0 <= jj < old_accounts.len() && #[trigger] old_accounts[jj].account_id@ == a;
                assert(old_accounts[jj].account_id@ != a);
            }
        }
        entries = Vec::new();
        id = wanted;
    }
    let ghost es0 = views(entries@);
    assert(es0 == old(store).entries_of(a));
    // Replace the binding of the same session, or add it.
    let mut i: usize = 0;
    while i < entries.len() && !(entries[i].session_id == binding.session_id)
        invariant
            i <= entries@.len(),
            views(entries@) == es0,
            bv == binding@,
            forall|ii: int| 0 <= ii < i ==> (#[trigger] es0[ii]).session_id != bv.session_id,
        decreases entries@.len() - i,
    {
        i = i + 1;
    }
    let ghost upserted = upsert(es0, bv);
    if i < entries.len() {
        proof {
            assert(first_with_session(es0, bv.session_id, i as int));
            let c = choose|c: int| first_with_session(es0, bv.session_id, c);
            assert(first_with_session(es0, bv.session_id, c));
            if c < i {
                assert(es0[c].session_id != bv.session_id);
            }
            if c > i {
                assert(es0[i as int].session_id != bv.session_id);
            }
        }
        entries[i] = binding;
        assert(views(entries@) =~= upserted);
    } else {
        proof {
            if exists|c: int| first_with_session(es0, bv.session_id, c) {
                let c = choose|c: int| first_with_session(es0, bv.session_id, c);
                assert(es0[c].session_id != bv.session_id);
            }
        }
        entries.push(binding);
        assert(views(entries@) =~= upserted);
    }
    let mut sorted = sort_bindings(entries);
    let ghost t = views(sorted@);
    if sorted.len() > MAX_BINDINGS_PER_ACCOUNT {
        let start = sorted.len() - MAX_BINDINGS_PER_ACCOUNT;
        let tail = sorted.split_off(start);
        sorted = tail;
    }
    let ghost kept = views(sorted@);
    assert(kept =~= keep_last(t, MAX_BINDINGS_PER_ACCOUNT as nat));
    assert(bound_entries(es0, bv, kept));
    let x = AccountBindings { account_id: id, entries: sorted };
    assert(x.account_id@ == a);
    if found {
        store.bindings.insert(j, x);
        proof {
            assert(store.bindings@ =~= old_accounts.update(j as int, x));
            lemma_accounts_update(old_accounts, j as int, x);
        }
    } else {
        store.bindings.push(x);
        proof {
            lemma_accounts_push(old_accounts, x);
        }
    }
    assert(store.as_map() == m.insert(a, kept));
    assert(store.as_map().dom() =~= m.dom().insert(a));
    Ok(())
}


/// `i` holds the latest existing file among `ts` (`None` for files that do
/// not exist); among files equally recent the one bound last wins.
pub open spec fn is_latest_file(ts: Seq<Option<SystemInstant>>, i: int) -> bool {
    &&& 0 <= i < ts.len()
    &&& ts[i] is Some
    &&& forall|j: int|
        0 <= j < ts.len() && (#[trigger] ts[j]) is Some ==> ts[j].unwrap().nanos() < ts[i].unwrap().nanos()
            || (ts[j].unwrap().nanos() == ts[i].unwrap().nanos() && j <= i)
}

/// The bindings of `account_id`.
pub fn bindings_for_account<'a>(store: &'a UsageBindingsStore, account_id: &str) -> (res: Result<
    &'a Vec<SessionBinding>,
    String,
>)
    requires
        store.wf(),
    ensures
        res matches Ok(es) ==> store.as_map().dom().contains(account_id@) && views(es@)
            == store.as_map()[account_id@],
        res matches Err(e) ==> !store.as_map().dom().contains(account_id@) && e@
            == "No usage bindings found for account"@,
        res is Ok <==> store.as_map().dom().contains(account_id@),
{
    let wanted = String::from_str(account_id);
    let n = store.bindings.len();
    let mut j: usize = 0;
    while j < n
        invariant
            n == store.bindings@.len(),
            j <= n,
            wanted@ == account_id@,
            store.wf(),
            forall|jj: int| 0 <= jj < j ==> (#[trigger] store.bindings@[jj]).account_id@ != account_id@,
        decreases n - j,
    {
        if store.bindings[j].account_id == wanted {
            proof {
                assert(accounts_has(store.bindings@, account_id@));
                let jj = account_index(store.bindings@, account_id@);
                assert(jj == j);
            }
            return Ok(&store.bindings[j].entries);
        }
        j = j + 1;
    }
    proof {
        if accounts_has(store.bindings@, account_id@) {
            let jj = choose|jj: int| 0 <= jj < store.bindings@.len() && #[trigger] store.bindings@[jj].account_id@ == account_id@;
            assert(store.bindings@[jj].account_id@ != account_id@);
        }
    }
    Err(String::from_str("No usage bindings found for account"))
}

/// The error for asking for the usage of bound sessions without an account id.
pub fn bound_usage_account_error(account_id: &str) -> (res: Option<String>)
    ensures
        res is Some <==> account_id@.len() == 0,
        res matches Some(e) ==> e@ == "Missing account id"@,
{
    if account_id.unicode_len() == 0 {
        Some(String::from_str("Missing account id"))
    } else {
        None
    }
}

/// The file of the most recently modified bound session that still exists.
/// `mtimes[i]` is the modification time of `entries[i]`'s file, absent when
/// the file does not exist.
pub fn latest_bound_session_path(
    entries: &Vec<SessionBinding>,
    mtimes: &Vec<Option<SystemInstant>>,
) -> (res: Result<String, String>)
    requires
        mtimes@.len() == entries@.len(),
    ensures
        res matches Ok(p) ==> exists|i: int|
            is_latest_file(mtimes@, i) && p@ == (#[trigger] entries@[i]).file_path@,
        res matches Err(e) ==> e@ == "No valid bound session files found"@,
        res is Err <==> forall|j: int| 0 <= j < mtimes@.len() ==> (#[trigger] mtimes@[j]) is None,
{
    let n = entries.len();
    let mut k: usize = n;
    let mut best: Option<usize> = None;
    while k > 0
        invariant
            k <= n,
            n == entries@.len(),
            mtimes@.len() == n,
            best matches Some(b) ==> k <= b < n && mtimes@[b as int] is Some && forall|j: int|
                k <= j < n && (#[trigger] mtimes@[j]) is Some ==> mtimes@[j].unwrap().nanos()
                    < mtimes@[b as int].unwrap().nanos() || (mtimes@[j].unwrap().nanos()
                    == mtimes@[b as int].unwrap().nanos() && j <= b),
            best is None ==> forall|j: int| k <= j < n ==> (#[trigger] mtimes@[j]) is None,
        decreases k,
    {
        k = k - 1;
        match &mtimes[k] {
            Some(t) => {
                let better = match best {
                    None => true,
                    Some(b) => match &mtimes[b] {
                        Some(bt) => instant_before(bt, t),
                        None => false,
                    },
                };
                if better {
                    best = Some(k);
                }
            },
            None => {},
        }
    }
    match best {
        Some(b) => {
            assert(is_latest_file(mtimes@, b as int));
            Ok(entries[b].file_path.clone())
        },
        None => Err(String::from_str("No valid bound session files found")),
    }
}

/// The session id and creation time recorded in a session file, when it
/// could be read; otherwise the file's path and its modification time in
/// seconds (`"0"` when unknown).
pub open spec fn session_identity(
    file_path: Seq<char>,
    meta: Result<(Seq<char>, Seq<char>), Seq<char>>,
    mtime: Option<SystemInstant>,
) -> (Seq<char>, Seq<char>) {
    match meta {
        Ok(m) => m,
        Err(_) => (
            file_path,
            match mtime {
                Some(t) => match epoch_seconds(t) {
                    Some(s) => decimal(s),
                    None => seq!['0'],
                },
                None => seq!['0'],
            },
        ),
    }
}

/// The binding made for a session file at time `now`.
pub open spec fn binding_for_file(
    file_path: Seq<char>,
    meta: Result<(Seq<char>, Seq<char>), Seq<char>>,
    mtime: Option<SystemInstant>,
    now: SystemInstant,
) -> BindingView {
    BindingView {
        session_id: session_identity(file_path, meta, mtime).0,
        created_at: session_identity(file_path, meta, mtime).1,
        file_path: file_path,
        bound_at: epoch_ms_text(now),
    }
}

/// The view of a parsed session meta result.
pub open spec fn meta_view(meta: Result<(String, String), String>) -> Result<
    (Seq<char>, Seq<char>),
    Seq<char>,
> {
    match meta {
        Ok((a, b)) => Ok((a@, b@)),
        Err(e) => Err(e@),
    }
}

/// What adding `b` for `a` does to a store (see [`update_usage_bindings`]).
pub open spec fn binding_added(
    old_store: UsageBindingsStore,
    new_store: UsageBindingsStore,
    a: Seq<char>,
    b: BindingView,
    r: Result<(), String>,
) -> bool {
    &&& new_store.wf()
    &&& (r is Err <==> bound_elsewhere(old_store.as_map(), a, b))
    &&& (r matches Err(e) ==> e@ == "Session file already bound to another account"@)
    &&& (r is Err ==> new_store == old_store)
    &&& (r is Ok ==> {
        &&& new_store.version == old_store.version
        &&& new_store.as_map().dom() == old_store.as_map().dom().insert(a)
        &&& new_store.as_map() == old_store.as_map().insert(a, new_store.as_map()[a])
        &&& bound_entries(old_store.entries_of(a), b, new_store.as_map()[a])
    })
}

/// Binds a session file to `account_id`. `meta` is what the file's
/// `session_meta` line gave (session id and creation time), `file_mtime` the
/// file's modification time when known, `now` the clock reading.
pub fn bind_session_file_to_account(
    store: &mut UsageBindingsStore,
    account_id: &str,
    file_path: &str,
    meta: Result<(String, String), String>,
    file_mtime: Option<SystemInstant>,
    now: &SystemInstant,
) -> (r: Result<(), String>)
    requires
        old(store).wf(),
    ensures
        binding_added(
            *old(store),
            *final(store),
            account_id@,
            binding_for_file(file_path@, meta_view(meta), file_mtime, *now),
            r,
        ),
{
    let ghost mv = meta_view(meta);
    let ghost ident = session_identity(file_path@, mv, file_mtime);
    let (session_id, created_at) = match meta {
        Ok(m) => {
            assert(ident == (m.0@, m.1@));
            m
        },
        Err(_) => {
            let fallback = match &file_mtime {
                Some(t) => epoch_seconds_string(t),
                None => {
                    let z = String::from_str("0");
                    proof {
                        reveal_strlit("0");
                    }
                    z
                },
            };
            assert(fallback@ == ident.1);
            (String::from_str(file_path), fallback)
        },
    };
    assert(session_id@ == ident.0);
    assert(created_at@ == ident.1);
    let binding = SessionBinding {
        session_id,
        created_at,
        file_path: String::from_str(file_path),
        bound_at: now_epoch_ms_string(now),
    };
    assert(binding@ == binding_for_file(file_path@, meta_view(meta), file_mtime, *now));
    update_usage_bindings(store, account_id, binding)
}

/// Binds a session file to the account whose credentials Codex currently uses.
pub fn bind_session_file_to_current_auth(
    store: &mut UsageBindingsStore,
    auth: &crate::auth::AuthConfig,
    file_path: &str,
    meta: Result<(String, String), String>,
    file_mtime: Option<SystemInstant>,
    now: &SystemInstant,
) -> (r: Result<(), String>)
    requires
        old(store).wf(),
    ensures
        match auth.tokens {
            Some(t) => match t.account_id {
                Some(id) => binding_added(
                    *old(store),
                    *final(store),
                    id@,
                    binding_for_file(file_path@, meta_view(meta), file_mtime, *now),
                    r,
                ),
                None => r matches Err(e) && e@ == "Missing account_id in auth.json"@ && *final(store)
                    == *old(store),
            },
            None => r matches Err(e) && e@ == "Missing account_id in auth.json"@ && *final(store)
                == *old(store),
        },
{
    let account_id = match crate::auth::get_current_auth_account_id(auth) {
        Ok(id) => id,
        Err(e) => return Err(e),
    };
    bind_session_file_to_account(store, account_id.as_str(), file_path, meta, file_mtime, now)
}


/// No binding of one account clashes with a binding of another account.
pub open spec fn exclusive(m: Map<Seq<char>, Seq<BindingView>>) -> bool {
    forall|k1: Seq<char>, k2: Seq<char>, i: int, j: int|
        #![trigger m[k1][i], m[k2][j]]
        m.dom().contains(k1) && m.dom().contains(k2) && k1 != k2 && 0 <= i < m[k1].len() && 0 <= j
            < m[k2].len() ==> !clashes(m[k1][i], m[k2][j])
}

proof fn lemma_stable_sort_members(t: Seq<BindingView>, s: Seq<BindingView>, i: int)
    requires
        is_stable_sort_of(t, s),
        0 <= i < t.len(),
    ensures
        s.contains(t[i]),
{
    let x = t[i];
    let k = sort_key(x);
    let pred = |y: BindingView| sort_key(y) == k;
    t.lemma_filter_contains(pred, i);
    assert(with_key(t, k) == with_key(s, k));
    s.lemma_filter_contains_rev(pred, x);
}

proof fn lemma_upsert_members(es: Seq<BindingView>, b: BindingView, x: BindingView)
    requires
        upsert(es, b).contains(x),
    ensures
        x == b || es.contains(x),
{
    let u = upsert(es, b);
    let i = choose|i: int| 0 <= i < u.len() && u[i] == x;
    if exists|c: int| first_with_session(es, b.session_id, c) {
        let c = choose|c: int| first_with_session(es, b.session_id, c);
        if i != c {
            assert(es[i] == x);
        }
    } else {
        if i < es.len() {
            assert(es[i] == x);
        }
    }
}

proof fn lemma_upsert_has(es: Seq<BindingView>, b: BindingView)
    ensures
        upsert(es, b).contains(b),
{
    let u = upsert(es, b);
    if exists|c: int| first_with_session(es, b.session_id, c) {
        let c = choose|c: int| first_with_session(es, b.session_id, c);
        assert(u[c] == b);
    } else {
        assert(u[es.len() as int] == b);
    }
}

/// Every binding an account ends up with is the new binding or one it had.
pub proof fn law_bound_entries_come_from_old_or_new(
    es: Seq<BindingView>,
    b: BindingView,
    result: Seq<BindingView>,
    i: int,
)
    requires
        bound_entries(es, b, result),
        0 <= i < result.len(),
    ensures
        result[i] == b || es.contains(result[i]),
{
    let t = choose|t: Seq<BindingView>|
        is_stable_sort_of(t, upsert(es, b)) && result == keep_last(
            t,
            MAX_BINDINGS_PER_ACCOUNT as nat,
        );
    let off = if t.len() > MAX_BINDINGS_PER_ACCOUNT {
        t.len() - MAX_BINDINGS_PER_ACCOUNT
    } else {
        0
    };
    assert(result[i] == t[i + off]);
    lemma_stable_sort_members(t, upsert(es, b), i + off);
    lemma_upsert_members(es, b, result[i]);
}

/// After a binding is added, the account's bindings are in time order and
/// there are at most [`MAX_BINDINGS_PER_ACCOUNT`] of them.
pub proof fn law_bound_entries_sorted_and_capped(
    es: Seq<BindingView>,
    b: BindingView,
    result: Seq<BindingView>,
)
    requires
        bound_entries(es, b, result),
    ensures
        sorted_by_time(result),
        result.len() <= MAX_BINDINGS_PER_ACCOUNT,
{
    let t = choose|t: Seq<BindingView>|
        is_stable_sort_of(t, upsert(es, b)) && result == keep_last(
            t,
            MAX_BINDINGS_PER_ACCOUNT as nat,
        );
    if t.len() > MAX_BINDINGS_PER_ACCOUNT {
        let off = t.len() - MAX_BINDINGS_PER_ACCOUNT;
        assert forall|i: int, j: int| 0 <= i < j < result.len() implies key_le(
            #[trigger] result[i],
            #[trigger] result[j],
        ) by {
            assert(result[i] == t[i + off] && result[j] == t[j + off]);
        }
    }
}

/// A newly added binding is kept when the account has room for it.
pub proof fn law_binding_kept_when_room(es: Seq<BindingView>, b: BindingView, result: Seq<BindingView>)
    requires
        bound_entries(es, b, result),
        upsert(es, b).len() <= MAX_BINDINGS_PER_ACCOUNT,
    ensures
        result.contains(b),
{
    let u = upsert(es, b);
    let t = choose|t: Seq<BindingView>|
        is_stable_sort_of(t, u) && result == keep_last(t, MAX_BINDINGS_PER_ACCOUNT as nat);
    lemma_upsert_has(es, b);
    let k = sort_key(b);
    let pred = |y: BindingView| sort_key(y) == k;
    let i = choose|i: int| 0 <= i < u.len() && u[i] == b;
    u.lemma_filter_contains(pred, i);
    assert(with_key(t, k) == with_key(u, k));
    t.lemma_filter_contains_rev(pred, b);
    // a stable sort keeps the length, so nothing was cut
    assert(t.len() <= MAX_BINDINGS_PER_ACCOUNT) by {
        lemma_stable_sort_len(t, u);
    }
}

proof fn lemma_stable_sort_len(t: Seq<BindingView>, s: Seq<BindingView>)
    requires
        is_stable_sort_of(t, s),
    ensures
        t.len() == s.len(),
    decreases s.len(),
{
    // Count by keys: both sequences are the disjoint union of their key groups.
    lemma_len_by_keys(t, s, t.len() + s.len());
}

proof fn lemma_len_by_keys(t: Seq<BindingView>, s: Seq<BindingView>, fuel: nat)
    requires
        forall|k: (Seq<char>, Seq<char>)| #[trigger] with_key(t, k) == with_key(s, k),
        t.len() + s.len() <= fuel,
    ensures
        t.len() == s.len(),
    decreases fuel,
{
    if t.len() == 0 && s.len() == 0 {
    } else {
        // Remove one key group from both and recurse.
        let x = if t.len() > 0 {
            t[0]
        } else {
            s[0]
        };
        let k = sort_key(x);
        let pin = |y: BindingView| sort_key(y) == k;
        let pout = |y: BindingView| sort_key(y) != k;
        let t2 = t.filter(pout);
        let s2 = s.filter(pout);
        lemma_filter_split_len(t, k);
        lemma_filter_split_len(s, k);
        assert forall|k2: (Seq<char>, Seq<char>)| #[trigger] with_key(t2, k2) == with_key(s2, k2) by {
            lemma_filter_twice(t, k, k2);
            lemma_filter_twice(s, k, k2);
            assert(with_key(t, k2) == with_key(s, k2));
        }
        if t.len() > 0 {
            t.lemma_filter_contains(pin, 0);
        } else {
            s.lemma_filter_contains(pin, 0);
        }
        assert(with_key(t, k) == with_key(s, k));
        assert(with_key(t, k).len() > 0);
        lemma_len_by_keys(t2, s2, (fuel - 1) as nat);
    }
}

proof fn lemma_filter_split_len(s: Seq<BindingView>, k: (Seq<char>, Seq<char>))
    ensures
        s.len() == with_key(s, k).len() + s.filter(|y: BindingView| sort_key(y) != k).len(),
    decreases s.len(),
{
    reveal(Seq::filter);
    if s.len() > 0 {
        lemma_filter_split_len(s.drop_last(), k);
    }
}

proof fn lemma_filter_twice(s: Seq<BindingView>, k: (Seq<char>, Seq<char>), k2: (Seq<char>, Seq<char>))
    ensures
        with_key(s.filter(|y: BindingView| sort_key(y) != k), k2) == if k2 == k {
            Seq::<BindingView>::empty()
        } else {
            with_key(s, k2)
        },
    decreases s.len(),
{
    reveal(Seq::filter);
    if s.len() > 0 {
        lemma_filter_twice(s.drop_last(), k, k2);
        let pout = |y: BindingView| sort_key(y) != k;
        s.drop_last().lemma_filter_push(s.last(), pout);
        assert(s.drop_last().push(s.last()) =~= s);
        let inner = s.drop_last().filter(pout);
        inner.lemma_filter_push(s.last(), |y: BindingView| sort_key(y) == k2);
    }
}

/// Adding a binding keeps every session file bound to one account at most:
/// when no other account held the new binding's session or file, no two
/// accounts share a session or a file afterwards either.
pub proof fn law_exclusive_preserved(
    m: Map<Seq<char>, Seq<BindingView>>,
    a: Seq<char>,
    b: BindingView,
    result: Seq<BindingView>,
)
    requires
        exclusive(m),
        !bound_elsewhere(m, a, b),
        bound_entries(
            if m.dom().contains(a) {
                m[a]
            } else {
                Seq::empty()
            },
            b,
            result,
        ),
    ensures
        exclusive(m.insert(a, result)),
{
    let es = if m.dom().contains(a) {
        m[a]
    } else {
        Seq::empty()
    };
    let m2 = m.insert(a, result);
    assert forall|k1: Seq<char>, k2: Seq<char>, i: int, j: int|
        m2.dom().contains(k1) && m2.dom().contains(k2) && k1 != k2 && 0 <= i < m2[k1].len() && 0
            <= j < m2[k2].len() implies !clashes(#[trigger] m2[k1][i], #[trigger] m2[k2][j]) by {
        if k1 == a {
            law_bound_entries_come_from_old_or_new(es, b, result, i);
            if result[i] == b {
                assert(!clashes(m[k2][j], b));
            } else {
                let i2 = choose|i2: int| 0 <= i2 < es.len() && es[i2] == result[i];
                assert(m[a][i2] == result[i]);
                assert(!clashes(m[a][i2], m[k2][j]));
            }
        } else if k2 == a {
            law_bound_entries_come_from_old_or_new(es, b, result, j);
            if result[j] == b {
                assert(!clashes(m[k1][i], b));
            } else {
                let j2 = choose|j2: int| 0 <= j2 < es.len() && es[j2] == result[j];
                assert(m[a][j2] == result[j]);
                assert(!clashes(m[k1][i], m[a][j2]));
            }
        } else {
            assert(m2[k1] == m[k1] && m2[k2] == m[k2]);
        }
    }
}


/// No two bindings in `es` are of the same session.
pub open spec fn sessions_distinct(es: Seq<BindingView>) -> bool {
    forall|i: int, j: int|
        0 <= i < j < es.len() ==> (#[trigger] es[i]).session_id != (#[trigger] es[j]).session_id
}

/// The bindings of session `sid`.
spec fn of_session(s: Seq<BindingView>, sid: Seq<char>) -> Seq<BindingView> {
    s.filter(|y: BindingView| y.session_id == sid)
}

proof fn lemma_filter_commute<A>(s: Seq<A>, p: spec_fn(A) -> bool, q: spec_fn(A) -> bool)
    ensures
        s.filter(p).filter(q) == s.filter(q).filter(p),
    decreases s.len(),
{
    if s.len() > 0 {
        let d = s.drop_last();
        let x = s.last();
        lemma_filter_commute(d, p, q);
        assert(d.push(x) =~= s);
        d.lemma_filter_push(x, p);
        d.lemma_filter_push(x, q);
        d.filter(p).lemma_filter_push(x, q);
        d.filter(q).lemma_filter_push(x, p);
    } else {
        reveal(Seq::filter);
    }
}

/// A stable sort keeps how many bindings each session has.
proof fn lemma_stable_sort_counts(t: Seq<BindingView>, s: Seq<BindingView>, sid: Seq<char>)
    requires
        is_stable_sort_of(t, s),
    ensures
        of_session(t, sid).len() == of_session(s, sid).len(),
{
    let p = |y: BindingView| y.session_id == sid;
    assert forall|k: (Seq<char>, Seq<char>)| #[trigger] with_key(t.filter(p), k) == with_key(s.filter(p), k) by {
        let q = |x: BindingView| sort_key(x) == k;
        lemma_filter_commute(t, p, q);
        lemma_filter_commute(s, p, q);
        assert(with_key(t, k) == with_key(s, k));
    }
    lemma_len_by_keys(t.filter(p), s.filter(p), t.filter(p).len() + s.filter(p).len());
}

/// In a sequence without repeated sessions, each session has at most one binding.
proof fn lemma_distinct_counts(s: Seq<BindingView>, sid: Seq<char>)
    requires
        sessions_distinct(s),
    ensures
        of_session(s, sid).len() <= 1,
    decreases s.len(),
{
    if s.len() > 0 {
        let d = s.drop_last();
        let x = s.last();
        let p = |y: BindingView| y.session_id == sid;
        assert(d.push(x) =~= s);
        d.lemma_filter_push(x, p);
        assert(sessions_distinct(d)) by {
            assert forall|i: int, j: int| 0 <= i < j < d.len() implies (#[trigger] d[i]).session_id
                != (#[trigger] d[j]).session_id by {
                assert(d[i] == s[i] && d[j] == s[j]);
            }
        }
        if x.session_id == sid {
            assert forall|i: int| 0 <= i < d.len() implies !p(#[trigger] d[i]) by {
                assert(d[i] == s[i]);
                assert(s[i].session_id != s[s.len() - 1].session_id);
            }
            lemma_filter_none(d, p);
        } else {
            lemma_distinct_counts(d, sid);
        }
    } else {
        reveal(Seq::filter);
    }
}

/// A sequence where each session has at most one binding repeats no session.
proof fn lemma_counts_distinct(s: Seq<BindingView>)
    requires
        forall|sid: Seq<char>| #[trigger] of_session(s, sid).len() <= 1,
    ensures
        sessions_distinct(s),
{
    assert forall|i: int, j: int| 0 <= i < j < s.len() implies (#[trigger] s[i]).session_id
        != (#[trigger] s[j]).session_id by {
        if s[i].session_id == s[j].session_id {
            let sid = s[i].session_id;
            let p = |y: BindingView| y.session_id == sid;
            let pre = s.take(j);
            assert(pre[i] == s[i]);
            pre.lemma_filter_contains(p, i);
            assert(pre.filter(p).len() >= 1);
            assert(s.take(j + 1) =~= pre.push(s[j]));
            pre.lemma_filter_push(s[j], p);
            s.lemma_filter_take_len(p, j + 1);
            assert(of_session(s, sid).len() <= 1);
        }
    }
}

proof fn lemma_upsert_distinct(es: Seq<BindingView>, b: BindingView)
    requires
        sessions_distinct(es),
    ensures
        sessions_distinct(upsert(es, b)),
{
    let u = upsert(es, b);
    if exists|c: int| first_with_session(es, b.session_id, c) {
        let c = choose|c: int| first_with_session(es, b.session_id, c);
        assert forall|i: int, j: int| 0 <= i < j < u.len() implies (#[trigger] u[i]).session_id
            != (#[trigger] u[j]).session_id by {
            assert(es[c].session_id == b.session_id);
            if i != c && j != c {
                assert(u[i] == es[i] && u[j] == es[j]);
            } else if i == c {
                assert(u[j] == es[j]);
            } else {
                assert(u[i] == es[i]);
            }
        }
    } else {
        assert forall|i: int| 0 <= i < es.len() implies (#[trigger] es[i]).session_id != b.session_id by {
            if es[i].session_id == b.session_id {
                assert(first_with_session(es, b.session_id, i));
            }
        }
        assert forall|i: int, j: int| 0 <= i < j < u.len() implies (#[trigger] u[i]).session_id
            != (#[trigger] u[j]).session_id by {
            assert(u[i] == es[i]);
            if j < es.len() {
                assert(u[j] == es[j]);
            }
        }
    }
}

/// An account never holds two bindings of the same session: a binding of a
/// session the account already has replaces the old one.
pub proof fn law_sessions_stay_distinct(es: Seq<BindingView>, b: BindingView, result: Seq<BindingView>)
    requires
        sessions_distinct(es),
        bound_entries(es, b, result),
    ensures
        sessions_distinct(result),
{
    let u = upsert(es, b);
    let t = choose|t: Seq<BindingView>|
        is_stable_sort_of(t, u) && result == keep_last(t, MAX_BINDINGS_PER_ACCOUNT as nat);
    lemma_upsert_distinct(es, b);
    assert forall|sid: Seq<char>| #[trigger] of_session(t, sid).len() <= 1 by {
        lemma_stable_sort_counts(t, u, sid);
        lemma_distinct_counts(u, sid);
    }
    lemma_counts_distinct(t);
    let off = if t.len() > MAX_BINDINGS_PER_ACCOUNT {
        t.len() - MAX_BINDINGS_PER_ACCOUNT
    } else {
        0
    };
    assert forall|i: int, j: int| 0 <= i < j < result.len() implies (#[trigger] result[i]).session_id
        != (#[trigger] result[j]).session_id by {
        assert(result[i] == t[i + off] && result[j] == t[j + off]);
    }
}

/// Read after write: once a binding is added, the account is in the store
/// and holds the new binding, unless the account already had as many
/// bindings as it may keep; the other accounts keep what they had.
pub proof fn law_binding_visible(
    old_store: UsageBindingsStore,
    new_store: UsageBindingsStore,
    a: Seq<char>,
    b: BindingView,
)
    requires
        binding_added(old_store, new_store, a, b, Ok(())),
        upsert(old_store.entries_of(a), b).len() <= MAX_BINDINGS_PER_ACCOUNT,
    ensures
        new_store.as_map().dom().contains(a),
        new_store.as_map()[a].contains(b),
        forall|k: Seq<char>|
            k != a && old_store.as_map().dom().contains(k) ==> #[trigger] new_store.as_map()[k]
                == old_store.as_map()[k],
{
    law_binding_kept_when_room(old_store.entries_of(a), b, new_store.as_map()[a]);
}

proof fn lemma_key_le_antisym(x: BindingView, y: BindingView)
    requires
        key_le(x, y),
        key_le(y, x),
    ensures
        sort_key(x) == sort_key(y),
{
    lemma_lex_order_eq(x.created_at, y.created_at);
    lemma_lex_order_eq(x.bound_at, y.bound_at);
    lemma_lex_order_antisym(x.created_at, y.created_at);
    lemma_lex_order_antisym(x.bound_at, y.bound_at);
}

/// In a sequence ordered by time, no binding has a later key than the last.
proof fn lemma_last_is_latest(t: Seq<BindingView>, x: BindingView)
    requires
        sorted_by_time(t),
        t.len() > 0,
        t.contains(x),
    ensures
        key_le(x, t.last()),
{
    let i = choose|i: int| 0 <= i < t.len() && t[i] == x;
    if i < t.len() - 1 {
        assert(key_le(t[i], t[t.len() - 1]));
    } else {
        lemma_lex_order_eq(x.created_at, x.created_at);
        lemma_lex_order_eq(x.bound_at, x.bound_at);
    }
}

proof fn lemma_same_keys_sorted_equal(t1: Seq<BindingView>, t2: Seq<BindingView>)
    requires
        sorted_by_time(t1),
        sorted_by_time(t2),
        forall|k: (Seq<char>, Seq<char>)| #[trigger] with_key(t1, k) == with_key(t2, k),
    ensures
        t1 == t2,
    decreases t1.len(),
{
    lemma_len_by_keys(t1, t2, t1.len() + t2.len());
    if t1.len() == 0 {
        assert(t1 =~= t2);
    } else {
        let n = t1.len() as int;
        let (x1, x2) = (t1.last(), t2.last());
        let (d1, d2) = (t1.drop_last(), t2.drop_last());
        assert(d1.push(x1) =~= t1);
        assert(d2.push(x2) =~= t2);
        // Each last element occurs in the other sequence, so their keys agree.
        let p2 = |y: BindingView| sort_key(y) == sort_key(x2);
        t2.lemma_filter_contains(p2, n - 1);
        assert(with_key(t1, sort_key(x2)) == with_key(t2, sort_key(x2)));
        t1.lemma_filter_contains_rev(p2, x2);
        lemma_last_is_latest(t1, x2);
        let p1 = |y: BindingView| sort_key(y) == sort_key(x1);
        t1.lemma_filter_contains(p1, n - 1);
        assert(with_key(t1, sort_key(x1)) == with_key(t2, sort_key(x1)));
        t2.lemma_filter_contains_rev(p1, x1);
        lemma_last_is_latest(t2, x1);
        lemma_key_le_antisym(x1, x2);
        let k = sort_key(x1);
        // The last elements are the last of their key group, which agree.
        d1.lemma_filter_push(x1, |y: BindingView| sort_key(y) == k);
        d2.lemma_filter_push(x2, |y: BindingView| sort_key(y) == k);
        assert(with_key(t1, k) == with_key(t2, k));
        assert(with_key(t1, k).last() == x1);
        assert(with_key(t2, k).last() == x2);
        assert(with_key(d1, k) =~= with_key(t1, k).drop_last());
        assert(with_key(d2, k) =~= with_key(t2, k).drop_last());
        assert forall|k2: (Seq<char>, Seq<char>)| #[trigger] with_key(d1, k2) == with_key(d2, k2) by {
            if k2 != k {
                d1.lemma_filter_push(x1, |y: BindingView| sort_key(y) == k2);
                d2.lemma_filter_push(x2, |y: BindingView| sort_key(y) == k2);
                assert(with_key(t1, k2) == with_key(t2, k2));
            }
        }
        assert(sorted_by_time(d1)) by {
            assert forall|i: int, j: int| 0 <= i < j < d1.len() implies key_le(#[trigger] d1[i], #[trigger] d1[j]) by {
                assert(d1[i] == t1[i] && d1[j] == t1[j]);
            }
        }
        assert(sorted_by_time(d2)) by {
            assert forall|i: int, j: int| 0 <= i < j < d2.len() implies key_le(#[trigger] d2[i], #[trigger] d2[j]) by {
                assert(d2[i] == t2[i] && d2[j] == t2[j]);
            }
        }
        lemma_same_keys_sorted_equal(d1, d2);
    }
}

/// The order an account's bindings end up in is fully determined: two stable
/// sorts of the same bindings are the same sequence.
pub proof fn law_stable_sort_unique(t1: Seq<BindingView>, t2: Seq<BindingView>, s: Seq<BindingView>)
    requires
        is_stable_sort_of(t1, s),
        is_stable_sort_of(t2, s),
    ensures
        t1 == t2,
{
    assert forall|k: (Seq<char>, Seq<char>)| #[trigger] with_key(t1, k) == with_key(t2, k) by {
        assert(with_key(t1, k) == with_key(s, k));
        assert(with_key(t2, k) == with_key(s, k));
    }
    lemma_same_keys_sorted_equal(t1, t2);
}

/// What an account's bindings become when a binding is added is determined
/// by the bindings it had and the new one.
pub proof fn law_bound_entries_unique(es: Seq<BindingView>, b: BindingView, r1: Seq<BindingView>, r2: Seq<BindingView>)
    requires
        bound_entries(es, b, r1),
        bound_entries(es, b, r2),
    ensures
        r1 == r2,
{
    let u = upsert(es, b);
    let t1 = choose|t: Seq<BindingView>|
        is_stable_sort_of(t, u) && r1 == keep_last(t, MAX_BINDINGS_PER_ACCOUNT as nat);
    let t2 = choose|t: Seq<BindingView>|
        is_stable_sort_of(t, u) && r2 == keep_last(t, MAX_BINDINGS_PER_ACCOUNT as nat);
    law_stable_sort_unique(t1, t2, u);
}

/// At most one binding in `es` is of session `sid`.
pub open spec fn at_most_one_of(es: Seq<BindingView>, sid: Seq<char>) -> bool {
    forall|i: int, j: int|
        0 <= i < j < es.len() ==> !((#[trigger] es[i]).session_id == sid && (#[trigger] es[j]).session_id
            == sid)
}

proof fn lemma_at_most_one_count(s: Seq<BindingView>, sid: Seq<char>)
    requires
        at_most_one_of(s, sid),
    ensures
        of_session(s, sid).len() <= 1,
    decreases s.len(),
{
    if s.len() > 0 {
        let d = s.drop_last();
        let x = s.last();
        let p = |y: BindingView| y.session_id == sid;
        assert(d.push(x) =~= s);
        d.lemma_filter_push(x, p);
        assert(at_most_one_of(d, sid)) by {
            assert forall|i: int, j: int| 0 <= i < j < d.len() implies !((#[trigger] d[i]).session_id == sid
                && (#[trigger] d[j]).session_id == sid) by {
                assert(d[i] == s[i] && d[j] == s[j]);
            }
        }
        if x.session_id == sid {
            assert forall|i: int| 0 <= i < d.len() implies !p(#[trigger] d[i]) by {
                assert(d[i] == s[i]);
                assert(!(s[i].session_id == sid && s[s.len() - 1].session_id == sid));
            }
            lemma_filter_none(d, p);
        } else {
            lemma_at_most_one_count(d, sid);
        }
    } else {
        reveal(Seq::filter);
    }
}

proof fn lemma_count_at_most_one(s: Seq<BindingView>, sid: Seq<char>)
    requires
        of_session(s, sid).len() <= 1,
    ensures
        at_most_one_of(s, sid),
{
    assert forall|i: int, j: int| 0 <= i < j < s.len() implies !((#[trigger] s[i]).session_id == sid
        && (#[trigger] s[j]).session_id == sid) by {
        if s[i].session_id == sid && s[j].session_id == sid {
            let p = |y: BindingView| y.session_id == sid;
            let pre = s.take(j);
            assert(pre[i] == s[i]);
            pre.lemma_filter_contains(p, i);
            assert(pre.filter(p).len() >= 1);
            assert(s.take(j + 1) =~= pre.push(s[j]));
            pre.lemma_filter_push(s[j], p);
            s.lemma_filter_take_len(p, j + 1);
        }
    }
}

proof fn lemma_upsert_at_most_one(es: Seq<BindingView>, b: BindingView)
    requires
        at_most_one_of(es, b.session_id),
    ensures
        at_most_one_of(upsert(es, b), b.session_id),
{
    let sid = b.session_id;
    let u = upsert(es, b);
    if exists|c: int| first_with_session(es, sid, c) {
        let c = choose|c: int| first_with_session(es, sid, c);
        assert forall|i: int, j: int| 0 <= i < j < u.len() implies !((#[trigger] u[i]).session_id == sid
            && (#[trigger] u[j]).session_id == sid) by {
            if i != c && j != c {
                assert(u[i] == es[i] && u[j] == es[j]);
            } else if i == c {
                assert(u[j] == es[j]);
                assert(!(es[c].session_id == sid && es[j].session_id == sid));
            } else {
                assert(u[i] == es[i]);
            }
        }
    } else {
        assert forall|i: int| 0 <= i < es.len() implies (#[trigger] es[i]).session_id != sid by {
            if es[i].session_id == sid {
                assert forall|j: int| 0 <= j < i implies (#[trigger] es[j]).session_id != sid by {
                    assert(!(es[j].session_id == sid && es[i].session_id == sid));
                }
                assert(first_with_session(es, sid, i));
            }
        }
        assert forall|i: int, j: int| 0 <= i < j < u.len() implies !((#[trigger] u[i]).session_id == sid
            && (#[trigger] u[j]).session_id == sid) by {
            assert(u[i] == es[i]);
        }
    }
}

/// Adding a binding never leaves an account with two bindings of the new
/// binding's session, as long as it had at most one before.
pub proof fn law_session_at_most_once(es: Seq<BindingView>, b: BindingView, result: Seq<BindingView>)
    requires
        at_most_one_of(es, b.session_id),
        bound_entries(es, b, result),
    ensures
        at_most_one_of(result, b.session_id),
{
    let sid = b.session_id;
    let u = upsert(es, b);
    let t = choose|t: Seq<BindingView>|
        is_stable_sort_of(t, u) && result == keep_last(t, MAX_BINDINGS_PER_ACCOUNT as nat);
    lemma_upsert_at_most_one(es, b);
    lemma_at_most_one_count(u, sid);
    lemma_stable_sort_counts(t, u, sid);
    lemma_count_at_most_one(t, sid);
    let off = if t.len() > MAX_BINDINGS_PER_ACCOUNT {
        t.len() - MAX_BINDINGS_PER_ACCOUNT
    } else {
        0
    };
    assert forall|i: int, j: int| 0 <= i < j < result.len() implies !((#[trigger] result[i]).session_id
        == sid && (#[trigger] result[j]).session_id == sid) by {
        assert(result[i] == t[i + off] && result[j] == t[j + off]);
    }
}

proof fn lemma_filter_single(x: BindingView, p: spec_fn(BindingView) -> bool)
    ensures
        seq![x].filter(p) == (if p(x) {
            seq![x]
        } else {
            Seq::<BindingView>::empty()
        }),
{
    reveal(Seq::filter);
    Seq::<BindingView>::empty().lemma_filter_push(x, p);
    assert(Seq::<BindingView>::empty().push(x) =~= seq![x]);
}

/// Adding again a binding that an account holds, in order and within the
/// cap, with no session twice, gives the same bindings.
proof fn lemma_repeat_kept(e1: Seq<BindingView>, b: BindingView)
    requires
        sessions_distinct(e1),
        sorted_by_time(e1),
        e1.len() <= MAX_BINDINGS_PER_ACCOUNT,
        e1.contains(b),
    ensures
        bound_entries(e1, b, e1),
{
    let j = choose|j: int| 0 <= j < e1.len() && e1[j] == b;
    assert(first_with_session(e1, b.session_id, j));
    let c = choose|c: int| first_with_session(e1, b.session_id, c);
    if c != j {
        if c < j {
            assert(e1[c].session_id != e1[j].session_id);
        }
    }
    assert(upsert(e1, b) =~= e1);
    assert(is_stable_sort_of(e1, e1));
    assert(keep_last(e1, MAX_BINDINGS_PER_ACCOUNT as nat) == e1);
}

/// When adding a binding dropped it again (it was the oldest of a full
/// account), adding it once more drops it once more.
proof fn lemma_repeat_dropped(e0: Seq<BindingView>, b: BindingView, e1: Seq<BindingView>)
    requires
        sessions_distinct(e0),
        e0.len() <= MAX_BINDINGS_PER_ACCOUNT,
        bound_entries(e0, b, e1),
        !e1.contains(b),
    ensures
        bound_entries(e1, b, e1),
{
    let sid = b.session_id;
    let u = upsert(e0, b);
    let t1 = choose|t: Seq<BindingView>|
        is_stable_sort_of(t, u) && e1 == keep_last(t, MAX_BINDINGS_PER_ACCOUNT as nat);
    lemma_stable_sort_len(t1, u);
    law_bound_entries_sorted_and_capped(e0, b, e1);
    // The new binding is in the sorted list.
    lemma_upsert_has(e0, b);
    let k = sort_key(b);
    let p = |y: BindingView| sort_key(y) == k;
    let iu = choose|i: int| 0 <= i < u.len() && u[i] == b;
    u.lemma_filter_contains(p, iu);
    assert(with_key(t1, k) == with_key(u, k));
    t1.lemma_filter_contains_rev(p, b);
    // It was appended, as a session the account did not have.
    if exists|c: int| first_with_session(e0, sid, c) {
        let c = choose|c: int| first_with_session(e0, sid, c);
        assert(u.len() == e0.len());
        assert(e1 == t1);
        assert(false);
    }
    assert forall|i: int| 0 <= i < e0.len() implies (#[trigger] e0[i]).session_id != sid by {
        if e0[i].session_id == sid {
            assert forall|j: int| 0 <= j < i implies (#[trigger] e0[j]).session_id != sid by {
                assert(e0[j].session_id != e0[i].session_id);
            }
            assert(first_with_session(e0, sid, i));
        }
    }
    assert(u == e0.push(b));
    assert(!e0.contains(b)) by {
        if e0.contains(b) {
            let i = choose|i: int| 0 <= i < e0.len() && e0[i] == b;
            assert(e0[i].session_id != sid);
        }
    }
    // It was cut, so it came first and the list was full.
    if t1.len() <= MAX_BINDINGS_PER_ACCOUNT {
        assert(e1 == t1);
        assert(false);
    }
    assert(t1.len() == MAX_BINDINGS_PER_ACCOUNT + 1);
    assert(e1 == t1.skip(1));
    let jb = choose|j: int| 0 <= j < t1.len() && t1[j] == b;
    if jb > 0 {
        assert(e1[jb - 1] == b);
        assert(false);
    }
    assert(t1[0] == b);
    assert(t1 =~= seq![b] + e1);
    // No other binding shares its key.
    Seq::filter_distributes_over_add(seq![b], e1, p);
    lemma_filter_single(b, p);
    e0.lemma_filter_push(b, p);
    assert(with_key(e0, k).push(b) == seq![b] + with_key(e1, k));
    if with_key(e0, k).len() > 0 {
        assert(with_key(e0, k)[0] == (seq![b] + with_key(e1, k))[0]);
        assert(with_key(e0, k).contains(b));
        e0.lemma_filter_contains_rev(p, b);
        assert(false);
    }
    assert(with_key(e1, k).len() == 0);
    // Adding it again appends it again.
    assert forall|i: int| 0 <= i < e1.len() implies (#[trigger] e1[i]).session_id != sid by {
        law_bound_entries_come_from_old_or_new(e0, b, e1, i);
        if e1[i] != b {
            let i0 = choose|i0: int| 0 <= i0 < e0.len() && e0[i0] == e1[i];
            assert(e0[i0].session_id != sid);
        } else {
            assert(e1.contains(b));
        }
    }
    assert(!exists|c: int| first_with_session(e1, sid, c)) by {
        if exists|c: int| first_with_session(e1, sid, c) {
            let c = choose|c: int| first_with_session(e1, sid, c);
            assert(e1[c].session_id != sid);
        }
    }
    assert(upsert(e1, b) == e1.push(b));
    // Sorted with the binding first, it is cut again.
    let t2 = seq![b] + e1;
    assert(sorted_by_time(t2)) by {
        assert forall|i: int, j: int| 0 <= i < j < t2.len() implies key_le(#[trigger] t2[i], #[trigger] t2[j]) by {
            assert(t2[i] == t1[i] && t2[j] == t1[j]);
        }
    }
    assert forall|k2: (Seq<char>, Seq<char>)| #[trigger] with_key(t2, k2) == with_key(e1.push(b), k2) by {
        let p2 = |y: BindingView| sort_key(y) == k2;
        Seq::filter_distributes_over_add(seq![b], e1, p2);
        lemma_filter_single(b, p2);
        e1.lemma_filter_push(b, p2);
        if k2 == k {
            assert(with_key(e1, k2) =~= Seq::<BindingView>::empty());
            assert(seq![b] + with_key(e1, k2) =~= with_key(e1, k2).push(b));
        } else {
            assert(Seq::<BindingView>::empty() + with_key(e1, k2) =~= with_key(e1, k2));
        }
    }
    assert(is_stable_sort_of(t2, upsert(e1, b)));
    assert(keep_last(t2, MAX_BINDINGS_PER_ACCOUNT as nat) =~= e1);
}

/// Repeating a binding that was just added succeeds again and leaves the
/// store as it was, when the account held no session twice and no more
/// bindings than it may keep.
pub proof fn law_rebinding_is_idempotent(
    s0: UsageBindingsStore,
    s1: UsageBindingsStore,
    s2: UsageBindingsStore,
    a: Seq<char>,
    b: BindingView,
    r2: Result<(), String>,
)
    requires
        binding_added(s0, s1, a, b, Ok(())),
        sessions_distinct(s0.entries_of(a)),
        s0.entries_of(a).len() <= MAX_BINDINGS_PER_ACCOUNT,
        binding_added(s1, s2, a, b, r2),
    ensures
        r2 is Ok,
        s2.version == s1.version,
        s2.as_map() == s1.as_map(),
{
    let m0 = s0.as_map();
    let m1 = s1.as_map();
    let e0 = s0.entries_of(a);
    let e1 = m1[a];
    // No other account holds the session or the file, as before.
    if bound_elsewhere(m1, a, b) {
        let (k, i) = choose|k: Seq<char>, i: int|
            #![trigger m1[k][i]]
            m1.dom().contains(k) && k != a && 0 <= i < m1[k].len() && clashes(m1[k][i], b);
        assert(m1[k] == m0[k]);
        assert(m0.dom().contains(k));
        assert(bound_elsewhere(m0, a, b));
    }
    assert(s1.entries_of(a) == e1);
    law_sessions_stay_distinct(e0, b, e1);
    law_bound_entries_sorted_and_capped(e0, b, e1);
    if e1.contains(b) {
        lemma_repeat_kept(e1, b);
    } else {
        lemma_repeat_dropped(e0, b, e1);
    }
    law_bound_entries_unique(e1, b, s2.as_map()[a], e1);
    assert(s2.as_map() =~= m1);
}

} // verus!
