//! Character-level text handling shared by the rest of the library: the
//! white-space rule, trimming, line splitting, prefix and substring tests,
//! character replacement, decimal formatting and decimal parsing.
use vstd::prelude::*;

verus! {

// ---------------------------------------------------------------------------
// Specifications
// ---------------------------------------------------------------------------

/// Unicode `White_Space`: the characters that `str::trim` removes.
pub open spec fn is_white_space(c: char) -> bool {
    let u = c as u32;
    (0x9 <= u && u <= 0xd) || u == 0x20 || u == 0x85 || u == 0xa0 || u == 0x1680 || (0x2000 <= u
        && u <= 0x200a) || u == 0x2028 || u == 0x2029 || u == 0x202f || u == 0x205f || u == 0x3000
}

/// `s` without its leading white space.
pub open spec fn trim_start(s: Seq<char>) -> Seq<char>
    decreases s.len(),
{
    if s.len() > 0 && is_white_space(s[0]) {
        trim_start(s.drop_first())
    } else {
        s
    }
}

/// `s` without its trailing white space.
pub open spec fn trim_end(s: Seq<char>) -> Seq<char>
    decreases s.len(),
{
    if s.len() > 0 && is_white_space(s.last()) {
        trim_end(s.drop_last())
    } else {
        s
    }
}

/// `s` without leading and trailing white space.
pub open spec fn trim(s: Seq<char>) -> Seq<char> {
    trim_end(trim_start(s))
}

/// The pieces of `s` between occurrences of `sep` (always at least one piece).
pub open spec fn split_on(s: Seq<char>, sep: char) -> Seq<Seq<char>>
    decreases s.len(),
{
    if s.len() == 0 {
        seq![Seq::<char>::empty()]
    } else {
        let init = split_on(s.drop_last(), sep);
        if s.last() == sep {
            init.push(Seq::<char>::empty())
        } else {
            init.update(init.len() - 1, init.last().push(s.last()))
        }
    }
}

/// The lines of `s` with surrounding white space removed, blank lines dropped.
pub open spec fn nonblank_lines(s: Seq<char>) -> Seq<Seq<char>> {
    split_on(s, '\n').map_values(|l: Seq<char>| trim(l)).filter(|l: Seq<char>| l.len() > 0)
}

/// `s` begins with `prefix`.
pub open spec fn has_prefix(s: Seq<char>, prefix: Seq<char>) -> bool {
    prefix.len() <= s.len() && s.take(prefix.len() as int) == prefix
}

/// `needle` occurs in `s` at position `i`.
pub open spec fn occurs_at(s: Seq<char>, needle: Seq<char>, i: int) -> bool {
    0 <= i && i + needle.len() <= s.len() && s.subrange(i, i + needle.len()) == needle
}

/// `needle` occurs somewhere in `s` (the empty needle occurs everywhere).
pub open spec fn contains_seq(s: Seq<char>, needle: Seq<char>) -> bool {
    exists|i: int| occurs_at(s, needle, i)
}

/// `s` without any leading occurrences of `c`.
pub open spec fn strip_leading(s: Seq<char>, c: char) -> Seq<char>
    decreases s.len(),
{
    if s.len() > 0 && s[0] == c {
        strip_leading(s.drop_first(), c)
    } else {
        s
    }
}

/// `s` with every `from` replaced by `to`.
pub open spec fn replace_char(s: Seq<char>, from: char, to: char) -> Seq<char> {
    s.map_values(|x: char| if x == from { to } else { x })
}

/// The character of a decimal digit.
pub open spec fn digit_char(d: nat) -> char
    recommends
        d < 10,
{
    if d == 0 {
        '0'
    } else if d == 1 {
        '1'
    } else if d == 2 {
        '2'
    } else if d == 3 {
        '3'
    } else if d == 4 {
        '4'
    } else if d == 5 {
        '5'
    } else if d == 6 {
        '6'
    } else if d == 7 {
        '7'
    } else if d == 8 {
        '8'
    } else {
        '9'
    }
}

/// The shortest decimal representation of `n` (no sign, no leading zeros).
pub open spec fn decimal(n: nat) -> Seq<char>
    decreases n,
{
    if n < 10 {
        seq![digit_char(n)]
    } else {
        decimal(n / 10).push(digit_char(n % 10))
    }
}

/// `c` is one of `0`..`9`.
pub open spec fn is_digit(c: char) -> bool {
    '0' <= c && c <= '9'
}

/// The value of the decimal digit `c`.
pub open spec fn digit_value(c: char) -> nat {
    ((c as u32) - ('0' as u32)) as nat
}

/// The value of a run of decimal digits.
pub open spec fn digits_value(s: Seq<char>) -> nat
    decreases s.len(),
{
    if s.len() == 0 {
        0
    } else {
        digits_value(s.drop_last()) * 10 + digit_value(s.last())
    }
}

/// All characters of `s` are decimal digits.
pub open spec fn all_digits(s: Seq<char>) -> bool {
    forall|i: int| 0 <= i < s.len() ==> is_digit(#[trigger] s[i])
}

/// `s` starts with a `+` or `-` sign.
pub open spec fn has_sign(s: Seq<char>) -> bool {
    s.len() > 0 && (s[0] == '-' || s[0] == '+')
}

/// The part of `s` after an optional leading sign.
pub open spec fn unsigned_part(s: Seq<char>) -> Seq<char> {
    if has_sign(s) {
        s.drop_first()
    } else {
        s
    }
}

/// The value that the digits of `s` denote, negated under a leading `-`.
pub open spec fn signed_value(s: Seq<char>) -> int {
    if s.len() > 0 && s[0] == '-' {
        -(digits_value(unsigned_part(s)) as int)
    } else {
        digits_value(unsigned_part(s)) as int
    }
}

/// What `str::parse::<i64>` accepts: an optional `+` or `-`, then one or more
/// decimal digits, whose value fits in `i64`.
pub open spec fn parse_i64(s: Seq<char>) -> Option<int> {
    if unsigned_part(s).len() > 0 && all_digits(unsigned_part(s)) && i64::MIN <= signed_value(s)
        && signed_value(s) <= i64::MAX {
        Some(signed_value(s))
    } else {
        None
    }
}

/// Lexicographic order on character sequences (the order of `str::cmp`, since
/// UTF-8 byte order agrees with code point order): -1, 0 or 1.
pub open spec fn lex_order(a: Seq<char>, b: Seq<char>) -> int
    decreases a.len(),
{
    if a.len() == 0 {
        if b.len() == 0 {
            0
        } else {
            -1
        }
    } else if b.len() == 0 {
        1
    } else if a[0] < b[0] {
        -1
    } else if a[0] > b[0] {
        1
    } else {
        lex_order(a.drop_first(), b.drop_first())
    }
}

// ---------------------------------------------------------------------------
// Lemmas
// ---------------------------------------------------------------------------

/// `split_on` never yields an empty list of pieces.
pub proof fn lemma_split_on_nonempty(s: Seq<char>, sep: char)
    ensures
        split_on(s, sep).len() >= 1,
    decreases s.len(),
{
    if s.len() > 0 {
        lemma_split_on_nonempty(s.drop_last(), sep);
    }
}

/// `lex_order` is zero exactly on equal sequences.
pub proof fn lemma_lex_order_eq(a: Seq<char>, b: Seq<char>)
    ensures
        (lex_order(a, b) == 0) == (a == b),
        -1 <= lex_order(a, b) <= 1,
    decreases a.len(),
{
    if a.len() > 0 && b.len() > 0 {
        lemma_lex_order_eq(a.drop_first(), b.drop_first());
        if a[0] == b[0] {
            if a.drop_first() == b.drop_first() {
                assert(a =~= seq![a[0]] + a.drop_first());
                assert(b =~= seq![b[0]] + b.drop_first());
            } else if a == b {
                assert(a.drop_first() =~= b.drop_first());
            }
        }
    } else if a.len() == 0 && b.len() > 0 {
        assert(a != b);
    } else if a.len() > 0 && b.len() == 0 {
        assert(a != b);
    } else {
        assert(a =~= b);
    }
}

/// `lex_order` is antisymmetric.
pub proof fn lemma_lex_order_antisym(a: Seq<char>, b: Seq<char>)
    ensures
        lex_order(a, b) == -lex_order(b, a),
    decreases a.len(),
{
    if a.len() > 0 && b.len() > 0 {
        lemma_lex_order_antisym(a.drop_first(), b.drop_first());
    }
}

/// `lex_order` is transitive for "at most".
pub proof fn lemma_lex_order_trans(a: Seq<char>, b: Seq<char>, c: Seq<char>)
    requires
        lex_order(a, b) <= 0,
        lex_order(b, c) <= 0,
    ensures
        lex_order(a, c) <= 0,
    decreases a.len(),
{
    if a.len() > 0 && b.len() > 0 && c.len() > 0 {
        if a[0] == b[0] && b[0] == c[0] {
            lemma_lex_order_trans(a.drop_first(), b.drop_first(), c.drop_first());
        }
    }
}

/// `lex_order` is transitive for "less than".
pub proof fn lemma_lex_order_trans_strict(a: Seq<char>, b: Seq<char>, c: Seq<char>)
    requires
        lex_order(a, b) <= 0,
        lex_order(b, c) <= 0,
        lex_order(a, b) < 0 || lex_order(b, c) < 0,
    ensures
        lex_order(a, c) < 0,
    decreases a.len(),
{
    lemma_lex_order_eq(a, b);
    lemma_lex_order_eq(b, c);
    lemma_lex_order_trans(a, b, c);
    lemma_lex_order_eq(a, c);
    if a == c {
        lemma_lex_order_antisym(a, b);
        lemma_lex_order_eq(b, a);
    }
}

proof fn lemma_digit_char(d: nat)
    requires
        d < 10,
    ensures
        is_digit(digit_char(d)),
        digit_value(digit_char(d)) == d,
{
    assert('0' as u32 == 48);
    assert('9' as u32 == 57);
}

/// `decimal(n)` is a non-empty run of digits whose value is `n`.
pub proof fn lemma_decimal_digits(n: nat)
    ensures
        decimal(n).len() >= 1,
        all_digits(decimal(n)),
        digits_value(decimal(n)) == n,
    decreases n,
{
    lemma_digit_char(n % 10);
    if n >= 10 {
        lemma_decimal_digits(n / 10);
        let d = decimal(n / 10);
        assert(decimal(n).drop_last() =~= d);
        assert(decimal(n).last() == digit_char(n % 10));
        assert(digits_value(decimal(n)) == digits_value(d) * 10 + digit_value(digit_char(n % 10)));
        assert(n == (n / 10) * 10 + n % 10);
    } else {
        assert(decimal(n).drop_last() =~= Seq::<char>::empty());
        assert(decimal(n).last() == digit_char(n));
        assert(digits_value(decimal(n)) == digits_value(Seq::<char>::empty()) * 10 + digit_value(digit_char(n)));
    }
}

/// Digit values only grow as digits are appended.
pub proof fn lemma_digits_value_prefix(s: Seq<char>, i: int)
    requires
        0 <= i <= s.len(),
    ensures
        digits_value(s.take(i)) <= digits_value(s),
    decreases s.len() - i,
{
    if i < s.len() {
        lemma_digits_value_prefix(s, i + 1);
        assert(s.take(i + 1).drop_last() =~= s.take(i));
    } else {
        assert(s.take(i) =~= s);
    }
}

// ---------------------------------------------------------------------------
// Executable functions
// ---------------------------------------------------------------------------

/// Builds a `String` holding exactly the characters of `chars`, by
/// `FromIterator<&char> for String` (std), which appends each character in order.
#[verifier::external_body]
pub(crate) fn string_from_chars(chars: &Vec<char>) -> (res: String)
    ensures
        res@ == chars@,
{
    chars.iter().collect()
}

/// The characters of `s`, in order.
pub fn chars_of(s: &str) -> (res: Vec<char>)
    ensures
        res@ == s@,
{
    let n = s.unicode_len();
    let mut v: Vec<char> = Vec::new();
    let mut i: usize = 0;
    while i < n
        invariant
            n == s@.len(),
            i <= n,
            v@ == s@.take(i as int),
        decreases n - i,
    {
        let c = s.get_char(i);
        v.push(c);
        assert(s@.take(i + 1) =~= s@.take(i as int).push(c));
        i = i + 1;
    }
    assert(s@.take(n as int) =~= s@);
    v
}

/// Concatenates two strings.
pub fn concat_str(a: &str, b: &str) -> (res: String)
    ensures
        res@ == a@ + b@,
{
    String::from_str(a).concat(b)
}

/// Decides `is_white_space`.
pub fn is_white_space_char(c: char) -> (r: bool)
    ensures
        r == is_white_space(c),
{
    let u = c as u32;
    (0x9 <= u && u <= 0xd) || u == 0x20 || u == 0x85 || u == 0xa0 || u == 0x1680 || (0x2000 <= u
        && u <= 0x200a) || u == 0x2028 || u == 0x2029 || u == 0x202f || u == 0x205f || u == 0x3000
}

proof fn lemma_trim_start_skip(s: Seq<char>, i: int)
    requires
        0 <= i <= s.len(),
        forall|j: int| 0 <= j < i ==> is_white_space(#[trigger] s[j]),
    ensures
        trim_start(s) == trim_start(s.skip(i)),
    decreases i,
{
    if i > 0 {
        lemma_trim_start_skip(s, i - 1);
        assert(s.skip(i - 1).drop_first() =~= s.skip(i));
        assert(s.skip(i - 1)[0] == s[i - 1]);
    } else {
        assert(s.skip(0) =~= s);
    }
}

proof fn lemma_trim_end_take(s: Seq<char>, i: int)
    requires
        0 <= i <= s.len(),
        forall|j: int| i <= j < s.len() ==> is_white_space(#[trigger] s[j]),
    ensures
        trim_end(s) == trim_end(s.take(i)),
    decreases s.len() - i,
{
    if i < s.len() {
        lemma_trim_end_take(s, i + 1);
        assert(s.take(i + 1).drop_last() =~= s.take(i));
        assert(s.take(i + 1).last() == s[i]);
    } else {
        assert(s.take(i) =~= s);
    }
}

/// The characters `v[lo..hi]` with surrounding white space removed.
pub fn trim_range(v: &Vec<char>, lo: usize, hi: usize) -> (res: Vec<char>)
    requires
        lo <= hi <= v.len(),
    ensures
        res@ == trim(v@.subrange(lo as int, hi as int)),
{
    let ghost s = v@.subrange(lo as int, hi as int);
    let mut a = lo;
    while a < hi && is_white_space_char(v[a])
        invariant
            lo <= a <= hi <= v.len(),
            s == v@.subrange(lo as int, hi as int),
            forall|j: int| 0 <= j < a - lo ==> is_white_space(#[trigger] s[j]),
        decreases hi - a,
    {
        a = a + 1;
    }
    proof {
        lemma_trim_start_skip(s, a - lo);
        assert(s.skip(a - lo) =~= v@.subrange(a as int, hi as int));
        if a < hi {
            assert(!is_white_space(v@.subrange(a as int, hi as int)[0]));
        }
    }
    let ghost t = v@.subrange(a as int, hi as int);
    assert(trim_start(s) == t);
    let mut b = hi;
    while b > a && is_white_space_char(v[b - 1])
        invariant
            lo <= a <= b <= hi <= v.len(),
            t == v@.subrange(a as int, hi as int),
            forall|j: int| b - a <= j < t.len() ==> is_white_space(#[trigger] t[j]),
        decreases b - a,
    {
        b = b - 1;
    }
    proof {
        lemma_trim_end_take(t, b - a);
        assert(t.take(b - a) =~= v@.subrange(a as int, b as int));
    }
    let ghost u = v@.subrange(a as int, b as int);
    assert(trim_end(u) == u);
    let mut out: Vec<char> = Vec::new();
    let mut k = a;
    while k < b
        invariant
            a <= k <= b <= v.len(),
            out@ == v@.subrange(a as int, k as int),
        decreases b - k,
    {
        out.push(v[k]);
        assert(v@.subrange(a as int, k + 1) =~= v@.subrange(a as int, k as int).push(v@[k as int]));
        k = k + 1;
    }
    out
}

/// `str::trim`.
pub fn trim_str(s: &str) -> (res: Vec<char>)
    ensures
        res@ == trim(s@),
{
    let v = chars_of(s);
    assert(v@.subrange(0, v@.len() as int) =~= v@);
    trim_range(&v, 0, v.len())
}

/// The lines of `v` (split at `'\n'`), trimmed, with blank ones dropped.
pub fn nonblank_lines_of(v: &Vec<char>) -> (res: Vec<Vec<char>>)
    ensures
        res@.map_values(|l: Vec<char>| l@) == nonblank_lines(v@),
        forall|i: int| 0 <= i < res@.len() ==> (#[trigger] res@[i])@.len() > 0,
{
    let ghost pieces = split_on(v@, '\n');
    // First split into raw pieces, recorded by their bounds.
    let mut starts: Vec<usize> = Vec::new();
    let mut ends: Vec<usize> = Vec::new();
    let mut cur: usize = 0;
    let mut i: usize = 0;
    assert(v@.take(0) =~= Seq::<char>::empty());
    assert(split_on(v@.take(0), '\n') =~= Seq::new(
        starts@.len() + 1,
        |j: int|
            if j < starts@.len() {
                v@.subrange(starts@[j] as int, ends@[j] as int)
            } else {
                v@.subrange(cur as int, i as int)
            },
    ));
    while i < v.len()
        invariant
            i <= v.len(),
            cur <= i,
            starts@.len() == ends@.len(),
            forall|j: int| 0 <= j < starts@.len() ==> #[trigger] starts@[j] <= ends@[j] <= v.len(),
            split_on(v@.take(i as int), '\n') =~= Seq::new(
                starts@.len() + 1,
                |j: int|
                    if j < starts@.len() {
                        v@.subrange(starts@[j] as int, ends@[j] as int)
                    } else {
                        v@.subrange(cur as int, i as int)
                    },
            ),
        decreases v.len() - i,
    {
        let ghost prev = v@.take(i as int);
        assert(v@.take(i + 1).drop_last() =~= prev);
        assert(v@.take(i + 1).last() == v@[i as int]);
        if v[i] == '\n' {
            starts.push(cur);
            ends.push(i);
            cur = i + 1;
            assert(v@.subrange(cur as int, i + 1) =~= Seq::<char>::empty());
        } else {
            assert(v@.subrange(cur as int, i + 1) =~= v@.subrange(cur as int, i as int).push(
                v@[i as int],
            ));
        }
        i = i + 1;
    }
    starts.push(cur);
    ends.push(v.len());
    assert(v@.take(v.len() as int) =~= v@);
    assert(pieces.len() == starts@.len());
    assert(forall|j: int|
        0 <= j < pieces.len() ==> #[trigger] pieces[j] == v@.subrange(
            starts@[j] as int,
            ends@[j] as int,
        ));
    let ghost pred = |l: Seq<char>| l.len() > 0;
    let ghost trimmed = pieces.map_values(|l: Seq<char>| trim(l));
    let mut res: Vec<Vec<char>> = Vec::new();
    let mut k: usize = 0;
    while k < starts.len()
        invariant
            k <= starts@.len(),
            starts@.len() == ends@.len(),
            starts@.len() == pieces.len(),
            trimmed == pieces.map_values(|l: Seq<char>| trim(l)),
            pred == (|l: Seq<char>| l.len() > 0),
            forall|j: int| 0 <= j < starts@.len() ==> #[trigger] starts@[j] <= ends@[j] <= v.len(),
            forall|j: int|
                0 <= j < pieces.len() ==> #[trigger] pieces[j] == v@.subrange(
                    starts@[j] as int,
                    ends@[j] as int,
                ),
            res@.map_values(|l: Vec<char>| l@) == trimmed.take(k as int).filter(pred),
            forall|i: int| 0 <= i < res@.len() ==> (#[trigger] res@[i])@.len() > 0,
        decreases starts@.len() - k,
    {
        let line = trim_range(v, starts[k], ends[k]);
        proof {
            assert(trimmed.take(k + 1) =~= trimmed.take(k as int).push(trimmed[k as int]));
            trimmed.take(k as int).lemma_filter_push(trimmed[k as int], pred);
        }
        if line.len() > 0 {
            let ghost before = res@;
            res.push(line);
            assert(res@.map_values(|l: Vec<char>| l@) =~= before.map_values(|l: Vec<char>| l@).push(
                trimmed[k as int],
            ));
        }
        k = k + 1;
    }
    assert(trimmed.take(starts@.len() as int) =~= trimmed);
    res
}

/// Decides `has_prefix`.
pub fn has_prefix_chars(s: &Vec<char>, prefix: &Vec<char>) -> (r: bool)
    ensures
        r == has_prefix(s@, prefix@),
{
    if prefix.len() > s.len() {
        return false;
    }
    let mut i: usize = 0;
    while i < prefix.len()
        invariant
            prefix.len() <= s.len(),
            i <= prefix.len(),
            s@.take(i as int) == prefix@.take(i as int),
        decreases prefix.len() - i,
    {
        if s[i] != prefix[i] {
            assert(s@.take(prefix.len() as int)[i as int] != prefix@[i as int]);
            return false;
        }
        assert(s@.take(i + 1) =~= s@.take(i as int).push(s@[i as int]));
        assert(prefix@.take(i + 1) =~= prefix@.take(i as int).push(prefix@[i as int]));
        i = i + 1;
    }
    assert(prefix@.take(prefix.len() as int) =~= prefix@);
    true
}

/// Decides `occurs_at`.
fn occurs_at_exec(s: &Vec<char>, needle: &Vec<char>, at: usize) -> (r: bool)
    requires
        at + needle.len() <= s.len(),
    ensures
        r == occurs_at(s@, needle@, at as int),
{
    let mut i: usize = 0;
    while i < needle.len()
        invariant
            at + needle.len() <= s.len(),
            i <= needle.len(),
            forall|j: int| 0 <= j < i ==> s@[at + j] == #[trigger] needle@[j],
        decreases needle.len() - i,
    {
        if s[at + i] != needle[i] {
            assert(s@.subrange(at as int, at + needle.len())[i as int] != needle@[i as int]);
            return false;
        }
        i = i + 1;
    }
    assert(s@.subrange(at as int, at + needle.len()) =~= needle@);
    true
}

/// Decides `contains_seq` (`str::contains` with a string pattern).
pub fn contains_chars(s: &Vec<char>, needle: &Vec<char>) -> (r: bool)
    ensures
        r == contains_seq(s@, needle@),
{
    if needle.len() > s.len() {
        assert forall|i: int| !occurs_at(s@, needle@, i) by {}
        return false;
    }
    let last = s.len() - needle.len();
    let mut at: usize = 0;
    while at < last
        invariant
            needle.len() <= s.len(),
            last == s.len() - needle.len(),
            at <= last,
            forall|i: int| 0 <= i < at ==> !occurs_at(s@, needle@, i),
        decreases last - at,
    {
        if occurs_at_exec(s, needle, at) {
            return true;
        }
        at = at + 1;
    }
    if occurs_at_exec(s, needle, last) {
        return true;
    }
    assert forall|i: int| !occurs_at(s@, needle@, i) by {
        if 0 <= i && i < at {
        }
    }
    false
}

proof fn lemma_strip_leading_skip(s: Seq<char>, c: char, i: int)
    requires
        0 <= i <= s.len(),
        forall|j: int| 0 <= j < i ==> #[trigger] s[j] == c,
    ensures
        strip_leading(s, c) == strip_leading(s.skip(i), c),
    decreases i,
{
    if i > 0 {
        lemma_strip_leading_skip(s, c, i - 1);
        assert(s.skip(i - 1).drop_first() =~= s.skip(i));
        assert(s.skip(i - 1)[0] == s[i - 1]);
    } else {
        assert(s.skip(0) =~= s);
    }
}

/// `s` with every `from` replaced by `to`.
pub fn replace_chars(s: &Vec<char>, from: char, to: char) -> (res: Vec<char>)
    ensures
        res@ == replace_char(s@, from, to),
{
    let mut out: Vec<char> = Vec::new();
    let mut k: usize = 0;
    while k < s.len()
        invariant
            k <= s.len(),
            out@ == replace_char(s@.take(k as int), from, to),
        decreases s.len() - k,
    {
        let c = s[k];
        let d = if c == from {
            to
        } else {
            c
        };
        out.push(d);
        assert(s@.take(k + 1) =~= s@.take(k as int).push(c));
        assert(replace_char(s@.take(k + 1), from, to) =~= replace_char(s@.take(k as int), from, to).push(d));
        k = k + 1;
    }
    assert(s@.take(s.len() as int) =~= s@);
    out
}

/// `str::trim_start_matches(c)` followed by `str::replace(from, to)` on the rest,
/// for single characters.
pub fn strip_then_replace(s: &Vec<char>, strip: char, from: char, to: char) -> (res: Vec<char>)
    ensures
        res@ == replace_char(strip_leading(s@, strip), from, to),
{
    let mut a: usize = 0;
    while a < s.len() && s[a] == strip
        invariant
            a <= s.len(),
            forall|j: int| 0 <= j < a ==> #[trigger] s@[j] == strip,
        decreases s.len() - a,
    {
        a = a + 1;
    }
    proof {
        lemma_strip_leading_skip(s@, strip, a as int);
        if a < s.len() {
            assert(s@.skip(a as int)[0] != strip);
        }
    }
    let ghost rest = s@.skip(a as int);
    assert(strip_leading(s@, strip) == rest);
    let mut out: Vec<char> = Vec::new();
    let mut k = a;
    while k < s.len()
        invariant
            a <= k <= s.len(),
            rest == s@.skip(a as int),
            out@ == replace_char(rest.take(k - a), from, to),
        decreases s.len() - k,
    {
        let c = s[k];
        let d = if c == from {
            to
        } else {
            c
        };
        out.push(d);
        assert(rest.take(k + 1 - a) =~= rest.take(k - a).push(c));
        assert(replace_char(rest.take(k + 1 - a), from, to) =~= replace_char(
            rest.take(k - a),
            from,
            to,
        ).push(d));
        k = k + 1;
    }
    assert(rest.take(s.len() - a) =~= rest);
    out
}

/// Appends the decimal representation of `n` to `out`.
pub fn push_decimal(n: u128, out: &mut Vec<char>)
    ensures
        final(out)@ == old(out)@ + decimal(n as nat),
    decreases n,
{
    if n >= 10 {
        push_decimal(n / 10, out);
    }
    let d = n % 10;
    let c = if d == 0 {
        '0'
    } else if d == 1 {
        '1'
    } else if d == 2 {
        '2'
    } else if d == 3 {
        '3'
    } else if d == 4 {
        '4'
    } else if d == 5 {
        '5'
    } else if d == 6 {
        '6'
    } else if d == 7 {
        '7'
    } else if d == 8 {
        '8'
    } else {
        '9'
    };
    out.push(c);
    proof {
        if n >= 10 {
            assert(old(out)@ + decimal((n / 10) as nat) + seq![c] =~= old(out)@ + decimal(
                (n / 10) as nat,
            ).push(c));
        }
    }
}

/// The decimal representation of `n` as a string (`u128::to_string`).
pub fn decimal_string(n: u128) -> (res: String)
    ensures
        res@ == decimal(n as nat),
{
    let mut v: Vec<char> = Vec::new();
    push_decimal(n, &mut v);
    assert(Seq::<char>::empty() + decimal(n as nat) =~= decimal(n as nat));
    string_from_chars(&v)
}

/// `str::parse::<i64>`.
pub fn parse_i64_chars(s: &Vec<char>) -> (res: Option<i64>)
    ensures
        res matches Some(v) ==> parse_i64(s@) == Some(v as int),
        res is None ==> parse_i64(s@) is None,
{
    if s.len() == 0 {
        return None;
    }
    let neg = s[0] == '-';
    let signed = s[0] == '-' || s[0] == '+';
    let start: usize = if signed {
        1
    } else {
        0
    };
    let ghost digits = s@.skip(start as int);
    assert(digits =~= unsigned_part(s@));
    if start == s.len() {
        return None;
    }
    // 2^63: the largest magnitude any i64 can have.
    let limit: u128 = 9223372036854775808;
    let mut acc: u128 = 0;
    let mut i = start;
    while i < s.len()
        invariant
            start <= i <= s.len(),
            digits == s@.skip(start as int),
            digits == unsigned_part(s@),
            acc as nat == digits_value(digits.take(i - start)),
            acc <= limit,
            all_digits(digits.take(i - start)),
            limit == 9223372036854775808u128,
        decreases s.len() - i,
    {
        let c = s[i];
        assert(digits.take(i + 1 - start) =~= digits.take(i - start).push(c));
        assert(digits.take(i + 1 - start).drop_last() =~= digits.take(i - start));
        assert(digits[i - start] == c);
        if !('0' <= c && c <= '9') {
            assert(!is_digit(digits[i - start]));
            assert(!all_digits(digits));
            return None;
        }
        let d = (c as u32 - '0' as u32) as u128;
        assert(d == digit_value(c));
        assert(digits.take(i + 1 - start).last() == c);
        assert(digits_value(digits.take(i + 1 - start)) == digits_value(digits.take(i - start)) * 10
            + digit_value(c));
        acc = acc * 10 + d;
        assert(all_digits(digits.take(i + 1 - start)));
        if acc > limit {
            proof {
                lemma_digits_value_prefix(digits, i + 1 - start);
                assert(digits_value(digits) > 9223372036854775808);
            }
            return None;
        }
        i = i + 1;
    }
    assert(digits.take(s.len() - start) =~= digits);
    if neg {
        let v: i128 = 0 - (acc as i128);
        Some(v as i64)
    } else {
        if acc > 9223372036854775807 {
            return None;
        }
        Some(acc as i64)
    }
}

/// Compares two character sequences lexicographically (`str::cmp`).
pub fn lex_order_chars(a: &Vec<char>, b: &Vec<char>) -> (r: i8)
    ensures
        r as int == lex_order(a@, b@),
{
    let mut i: usize = 0;
    assert(a@.skip(0) =~= a@);
    assert(b@.skip(0) =~= b@);
    while i < a.len() && i < b.len() && a[i] == b[i]
        invariant
            i <= a.len(),
            i <= b.len(),
            lex_order(a@, b@) == lex_order(a@.skip(i as int), b@.skip(i as int)),
        decreases a.len() - i,
    {
        assert(a@.skip(i as int).drop_first() =~= a@.skip(i + 1));
        assert(b@.skip(i as int).drop_first() =~= b@.skip(i + 1));
        i = i + 1;
    }
    let ghost sa = a@.skip(i as int);
    let ghost sb = b@.skip(i as int);
    if i == a.len() {
        if i == b.len() {
            0
        } else {
            -1
        }
    } else if i == b.len() {
        1
    } else {
        assert(sa[0] == a@[i as int] && sb[0] == b@[i as int]);
        if a[i] < b[i] {
            -1
        } else {
            1
        }
    }
}


/// The pieces of `v` between occurrences of `sep` (`str::split`).
pub fn split_chars(v: &Vec<char>, sep: char) -> (res: Vec<Vec<char>>)
    ensures
        res@.map_values(|l: Vec<char>| l@) == split_on(v@, sep),
{
    let mut done: Vec<Vec<char>> = Vec::new();
    let mut cur: Vec<char> = Vec::new();
    let mut i: usize = 0;
    assert(v@.take(0) =~= Seq::<char>::empty());
    assert(split_on(v@.take(0), sep) =~= done@.map_values(|l: Vec<char>| l@).push(cur@));
    while i < v.len()
        invariant
            i <= v@.len(),
            split_on(v@.take(i as int), sep) == done@.map_values(|l: Vec<char>| l@).push(cur@),
        decreases v@.len() - i,
    {
        let ghost prev = v@.take(i as int);
        let ghost before = done@.map_values(|l: Vec<char>| l@);
        assert(v@.take(i + 1).drop_last() =~= prev);
        assert(v@.take(i + 1).last() == v@[i as int]);
        let c = v[i];
        if c == sep {
            let piece = cur;
            done.push(piece);
            cur = Vec::new();
            assert(done@.map_values(|l: Vec<char>| l@) =~= before.push(piece@));
            assert(split_on(v@.take(i + 1), sep) =~= done@.map_values(|l: Vec<char>| l@).push(cur@));
        } else {
            let ghost old_cur = cur@;
            cur.push(c);
            assert(split_on(v@.take(i + 1), sep) =~= before.push(old_cur).update(
                before.len() as int,
                old_cur.push(c),
            ));
            assert(split_on(v@.take(i + 1), sep) =~= done@.map_values(|l: Vec<char>| l@).push(cur@));
        }
        i = i + 1;
    }
    assert(v@.take(v@.len() as int) =~= v@);
    done.push(cur);
    done
}

} // verus!
