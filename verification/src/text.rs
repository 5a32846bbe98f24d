//! Verified character-level utilities over `&str` values viewed as
//! `Seq<char>`: trimming, searching, splitting into whitespace-separated
//! tokens, prefix tests and equality.

use vstd::prelude::*;
use vstd::string::*;

verus! {

/// ASCII whitespace: the characters stripped when a line is trimmed and
/// the separators between tokens.
pub open spec fn is_space_char(c: char) -> bool {
    c == ' ' || c == '\t' || c == '\n' || c == '\r' || c == '\u{b}' || c == '\u{c}'
}

/// The whitespace predicate as a first-class spec function.
pub open spec fn space_pred() -> spec_fn(char) -> bool {
    |c: char| is_space_char(c)
}

/// Equality with one fixed character as a first-class spec function.
pub open spec fn char_pred(c: char) -> spec_fn(char) -> bool {
    |x: char| x == c
}

/// `s` without its longest prefix of characters satisfying `p`.
pub open spec fn drop_leading(s: Seq<char>, p: spec_fn(char) -> bool) -> Seq<char>
    decreases s.len(),
{
    if s.len() > 0 && p(s[0]) {
        drop_leading(s.drop_first(), p)
    } else {
        s
    }
}

/// `s` without its longest suffix of characters satisfying `p`.
pub open spec fn drop_trailing(s: Seq<char>, p: spec_fn(char) -> bool) -> Seq<char>
    decreases s.len(),
{
    if s.len() > 0 && p(s.last()) {
        drop_trailing(s.drop_last(), p)
    } else {
        s
    }
}

/// `s` with whitespace removed from both ends.
pub open spec fn trim_spec(s: Seq<char>) -> Seq<char> {
    drop_trailing(drop_leading(s, space_pred()), space_pred())
}

/// `s` with every leading and trailing occurrence of `c` removed.
pub open spec fn trim_char_spec(s: Seq<char>, c: char) -> Seq<char> {
    drop_trailing(drop_leading(s, char_pred(c)), char_pred(c))
}

/// The cleaned form of a raw right-hand side: every trailing `;`
/// removed, then the surrounding whitespace.
pub open spec fn cleaned_of(raw: Seq<char>) -> Seq<char> {
    trim_spec(drop_trailing(raw, char_pred(';')))
}

/// Some character of `s` satisfies `p`.
pub open spec fn contains_if(s: Seq<char>, p: spec_fn(char) -> bool) -> bool {
    exists|i: int| 0 <= i < s.len() && p(s[i])
}

/// `s` contains the character `c`.
pub open spec fn contains_char(s: Seq<char>, c: char) -> bool {
    contains_if(s, char_pred(c))
}

/// Index of the first character of `s` satisfying `p`, or -1 when none does.
pub open spec fn find_if(s: Seq<char>, p: spec_fn(char) -> bool) -> int
    decreases s.len(),
{
    if s.len() == 0 {
        -1
    } else if p(s[0]) {
        0
    } else if find_if(s.drop_first(), p) == -1 {
        -1
    } else {
        find_if(s.drop_first(), p) + 1
    }
}

proof fn lemma_drop_leading_at(s: Seq<char>, p: spec_fn(char) -> bool, a: int)
    requires
        0 <= a <= s.len(),
        forall|i: int| 0 <= i < a ==> p(s[i]),
        a < s.len() ==> !p(s[a]),
    ensures
        drop_leading(s, p) == s.subrange(a, s.len() as int),
    decreases a,
{
    if a == 0 {
        assert(s.subrange(0, s.len() as int) =~= s);
    } else {
        assert(p(s[0]));
        let t = s.drop_first();
        assert(forall|i: int| 0 <= i < a - 1 ==> t[i] == s[i + 1]);
        lemma_drop_leading_at(t, p, a - 1);
        assert(t.subrange(a - 1, t.len() as int) =~= s.subrange(a, s.len() as int));
    }
}

proof fn lemma_drop_trailing_at(s: Seq<char>, p: spec_fn(char) -> bool, b: int)
    requires
        0 <= b <= s.len(),
        forall|i: int| b <= i < s.len() ==> p(s[i]),
        b > 0 ==> !p(s[b - 1]),
    ensures
        drop_trailing(s, p) == s.subrange(0, b),
    decreases s.len() - b,
{
    if b == s.len() {
        assert(s.subrange(0, b) =~= s);
    } else {
        assert(p(s.last()));
        let t = s.drop_last();
        assert(forall|i: int| 0 <= i < t.len() ==> t[i] == s[i]);
        lemma_drop_trailing_at(t, p, b);
        assert(t.subrange(0, b) =~= s.subrange(0, b));
    }
}

/// If `s[k]` satisfies `p` and no earlier character does, the first match
/// is at `k`.
proof fn lemma_find_if_at(s: Seq<char>, p: spec_fn(char) -> bool, k: int)
    requires
        0 <= k < s.len(),
        p(s[k]),
        forall|i: int| 0 <= i < k ==> !p(s[i]),
    ensures
        find_if(s, p) == k,
    decreases k,
{
    if k > 0 {
        let t = s.drop_first();
        assert(forall|i: int| 0 <= i < k - 1 ==> t[i] == s[i + 1]);
        assert(t[k - 1] == s[k]);
        lemma_find_if_at(t, p, k - 1);
    }
}

/// If no character of `s` satisfies `p`, there is no first match.
proof fn lemma_find_if_none(s: Seq<char>, p: spec_fn(char) -> bool)
    requires
        forall|i: int| 0 <= i < s.len() ==> !p(s[i]),
    ensures
        find_if(s, p) == -1,
    decreases s.len(),
{
    if s.len() > 0 {
        let t = s.drop_first();
        assert(forall|i: int| 0 <= i < t.len() ==> t[i] == s[i + 1]);
        lemma_find_if_none(t, p);
    }
}

/// What `find_if` returns: -1 means no match, otherwise the least index
/// whose character satisfies `p`.
pub proof fn lemma_find_if(s: Seq<char>, p: spec_fn(char) -> bool)
    ensures
        find_if(s, p) == -1 ==> !contains_if(s, p),
        find_if(s, p) != -1 ==> 0 <= find_if(s, p) < s.len() && p(s[find_if(s, p)]) && (forall|
            i: int,
        |
            0 <= i < find_if(s, p) ==> !p(s[i])),
    decreases s.len(),
{
    if s.len() > 0 && !p(s[0]) {
        let t = s.drop_first();
        lemma_find_if(t, p);
        assert(forall|i: int| 0 <= i < t.len() ==> t[i] == s[i + 1]);
        if find_if(t, p) == -1 {
            assert forall|i: int| 0 <= i < s.len() implies !p(s[i]) by {
                if i > 0 {
                    assert(t[i - 1] == s[i]);
                    assert(!contains_if(t, p));
                    if p(s[i]) {
                        assert(0 <= i - 1 < t.len() && p(t[i - 1]));
                    }
                }
            }
        } else {
            let k = find_if(t, p);
            assert(t[k] == s[k + 1]);
            assert forall|i: int| 0 <= i < k + 1 implies !p(s[i]) by {
                if i > 0 {
                    assert(t[i - 1] == s[i]);
                }
            }
        }
    }
}

/// True when `c` is ASCII whitespace.
pub fn is_space(c: char) -> (r: bool)
    ensures
        r == is_space_char(c),
{
    c == ' ' || c == '\t' || c == '\n' || c == '\r' || c == '\u{b}' || c == '\u{c}'
}

/// `s` with whitespace removed from both ends.
pub fn trim(s: &str) -> (r: &str)
    ensures
        r@ == trim_spec(s@),
{
    let n = s.unicode_len();
    let mut a: usize = 0;
    while a < n && is_space(s.get_char(a))
        invariant
            n == s@.len(),
            0 <= a <= n,
            forall|i: int| 0 <= i < a ==> is_space_char(s@[i]),
        decreases n - a,
    {
        a = a + 1;
    }
    let mut b: usize = n;
    while b > a && is_space(s.get_char(b - 1))
        invariant
            n == s@.len(),
            0 <= a <= b <= n,
            a < n ==> !is_space_char(s@[a as int]),
            forall|i: int| b <= i < n ==> is_space_char(s@[i]),
        decreases b,
    {
        b = b - 1;
    }
    let r = s.substring_char(a, b);
    proof {
        let p = space_pred();
        assert(forall|i: int| 0 <= i < s@.len() ==> p(s@[i]) == is_space_char(s@[i]));
        lemma_drop_leading_at(s@, p, a as int);
        let t = s@.subrange(a as int, s@.len() as int);
        lemma_drop_trailing_at(t, p, b - a);
        assert(t.subrange(0, b - a) =~= s@.subrange(a as int, b as int));
    }
    r
}

/// `s` with every leading and trailing occurrence of `c` removed.
pub fn trim_char(s: &str, c: char) -> (r: &str)
    ensures
        r@ == trim_char_spec(s@, c),
{
    let n = s.unicode_len();
    let mut a: usize = 0;
    while a < n && s.get_char(a) == c
        invariant
            n == s@.len(),
            0 <= a <= n,
            forall|i: int| 0 <= i < a ==> s@[i] == c,
        decreases n - a,
    {
        a = a + 1;
    }
    let mut b: usize = n;
    while b > a && s.get_char(b - 1) == c
        invariant
            n == s@.len(),
            0 <= a <= b <= n,
            a < n ==> s@[a as int] != c,
            forall|i: int| b <= i < n ==> s@[i] == c,
        decreases b,
    {
        b = b - 1;
    }
    let r = s.substring_char(a, b);
    proof {
        let p = char_pred(c);
        assert(forall|i: int| 0 <= i < s@.len() ==> p(s@[i]) == (s@[i] == c));
        lemma_drop_leading_at(s@, p, a as int);
        let t = s@.subrange(a as int, s@.len() as int);
        lemma_drop_trailing_at(t, p, b - a);
        assert(t.subrange(0, b - a) =~= s@.subrange(a as int, b as int));
    }
    r
}

/// `s` with every trailing occurrence of `c` removed.
pub fn trim_end_char(s: &str, c: char) -> (r: &str)
    ensures
        r@ == drop_trailing(s@, char_pred(c)),
{
    let n = s.unicode_len();
    let mut b: usize = n;
    while b > 0 && s.get_char(b - 1) == c
        invariant
            n == s@.len(),
            0 <= b <= n,
            forall|i: int| b <= i < n ==> s@[i] == c,
        decreases b,
    {
        b = b - 1;
    }
    let r = s.substring_char(0, b);
    proof {
        let p = char_pred(c);
        assert(forall|i: int| 0 <= i < s@.len() ==> p(s@[i]) == (s@[i] == c));
        lemma_drop_trailing_at(s@, p, b as int);
    }
    r
}

/// Index of the first occurrence of `c` in `s`, if any.
pub fn find_char(s: &str, c: char) -> (r: Option<usize>)
    ensures
        match r {
            Some(i) => i == find_if(s@, char_pred(c)) && i < s@.len() && s@[i as int] == c,
            None => find_if(s@, char_pred(c)) == -1 && !contains_char(s@, c),
        },
{
    let n = s.unicode_len();
    let mut i: usize = 0;
    while i < n
        invariant
            n == s@.len(),
            0 <= i <= n,
            forall|j: int| 0 <= j < i ==> s@[j] != c,
        decreases n - i,
    {
        if s.get_char(i) == c {
            proof {
                let p = char_pred(c);
                assert(forall|j: int| 0 <= j < i ==> !p(s@[j]));
                assert(p(s@[i as int]));
                lemma_find_if_at(s@, p, i as int);
            }
            return Some(i);
        }
        i = i + 1;
    }
    proof {
        let p = char_pred(c);
        assert(forall|j: int| 0 <= j < s@.len() ==> !p(s@[j]));
        lemma_find_if_none(s@, p);
        lemma_find_if(s@, p);
    }
    None
}

/// `s` contains the character `c`.
pub fn str_contains(s: &str, c: char) -> (r: bool)
    ensures
        r == contains_char(s@, c),
{
    match find_char(s, c) {
        Some(i) => {
            proof {
                let p = char_pred(c);
                assert(0 <= i < s@.len() && p(s@[i as int]));
            }
            true
        },
        None => false,
    }
}

/// Split `s` at the first occurrence of `c`: the parts before and after
/// it, neither containing that occurrence.
pub fn split_at_char<'a>(s: &'a str, c: char) -> (r: Option<(&'a str, &'a str)>)
    ensures
        match r {
            Some(parts) => {
                let k = find_if(s@, char_pred(c));
                &&& contains_char(s@, c)
                &&& 0 <= k < s@.len()
                &&& parts.0@ == s@.subrange(0, k)
                &&& parts.1@ == s@.subrange(k + 1, s@.len() as int)
            },
            None => !contains_char(s@, c),
        },
{
    let n = s.unicode_len();
    match find_char(s, c) {
        Some(i) => {
            let left = s.substring_char(0, i);
            let right = s.substring_char(i + 1, n);
            proof {
                let p = char_pred(c);
                assert(p(s@[i as int]));
            }
            Some((left, right))
        },
        None => None,
    }
}

/// The characters of `a` and `b` are the same.
pub fn str_eq(a: &str, b: &str) -> (r: bool)
    ensures
        r == (a@ == b@),
{
    let na = a.unicode_len();
    let nb = b.unicode_len();
    if na != nb {
        return false;
    }
    let mut i: usize = 0;
    while i < na
        invariant
            na == a@.len(),
            na == b@.len(),
            0 <= i <= na,
            forall|j: int| 0 <= j < i ==> a@[j] == b@[j],
        decreases na - i,
    {
        if a.get_char(i) != b.get_char(i) {
            return false;
        }
        i = i + 1;
    }
    proof {
        assert(a@ =~= b@);
    }
    true
}

/// `s` starts with the characters of `p`.
pub fn str_starts_with(s: &str, p: &str) -> (r: bool)
    ensures
        r == p@.is_prefix_of(s@),
{
    let np = p.unicode_len();
    let ns = s.unicode_len();
    if np > ns {
        return false;
    }
    let mut i: usize = 0;
    while i < np
        invariant
            np == p@.len(),
            ns == s@.len(),
            np <= ns,
            0 <= i <= np,
            forall|j: int| 0 <= j < i ==> s@[j] == p@[j],
        decreases np - i,
    {
        if s.get_char(i) != p.get_char(i) {
            proof {
                assert(s@.subrange(0, np as int)[i as int] == s@[i as int]);
            }
            return false;
        }
        i = i + 1;
    }
    proof {
        assert(p@ =~= s@.subrange(0, np as int));
    }
    true
}

/// Length of the run of non-whitespace characters of `s` starting at `i`.
pub open spec fn run_len(s: Seq<char>, i: int) -> nat
    decreases s.len() - i,
{
    if i < 0 || i >= s.len() || is_space_char(s[i]) {
        0
    } else {
        (1 + run_len(s, i + 1)) as nat
    }
}

/// A run starting inside `s` ends no later than `s` does.
proof fn lemma_run_len_bound(s: Seq<char>, i: int)
    requires
        0 <= i <= s.len(),
    ensures
        run_len(s, i) <= s.len() - i,
    decreases s.len() - i,
{
    if i < s.len() && !is_space_char(s[i]) {
        lemma_run_len_bound(s, i + 1);
    }
}

/// The whitespace-separated tokens of `s` from position `i` on, in order.
pub open spec fn tokens_from(s: Seq<char>, i: int) -> Seq<Seq<char>>
    decreases s.len() - i,
    via tokens_from_decreases
{
    if i < 0 || i >= s.len() {
        Seq::empty()
    } else if is_space_char(s[i]) {
        tokens_from(s, i + 1)
    } else {
        let k = i + 1 + run_len(s, i + 1);
        seq![s.subrange(i, k)] + tokens_from(s, k)
    }
}

#[via_fn]
proof fn tokens_from_decreases(s: Seq<char>, i: int) {
    if 0 <= i && i < s.len() && !is_space_char(s[i]) {
        lemma_run_len_bound(s, i + 1);
    }
}

/// The whitespace-separated tokens of `s`, in order, none empty.
pub open spec fn tokens_of(s: Seq<char>) -> Seq<Seq<char>> {
    tokens_from(s, 0)
}

/// The non-whitespace run starting at `i` ends exactly at `j`.
proof fn lemma_run_len_at(s: Seq<char>, i: int, j: int)
    requires
        0 <= i <= j <= s.len(),
        forall|k: int| i <= k < j ==> !is_space_char(s[k]),
        j < s.len() ==> is_space_char(s[j]),
    ensures
        run_len(s, i) == j - i,
    decreases j - i,
{
    if i < j {
        lemma_run_len_at(s, i + 1, j);
    }
}

/// The whitespace-separated tokens of `s`, as owned strings.
pub fn whitespace_tokens(s: &str) -> (r: Vec<String>)
    ensures
        r.deep_view() == tokens_of(s@),
{
    let n = s.unicode_len();
    let mut out: Vec<String> = Vec::new();
    let mut i: usize = 0;
    while i < n
        invariant
            n == s@.len(),
            0 <= i <= n,
            out.deep_view() + tokens_from(s@, i as int) == tokens_of(s@),
        decreases n - i,
    {
        if is_space(s.get_char(i)) {
            i = i + 1;
        } else {
            let ghost prev = out.deep_view();
            let mut j: usize = i + 1;
            while j < n && !is_space(s.get_char(j))
                invariant
                    n == s@.len(),
                    0 <= i < j <= n,
                    forall|k: int| i <= k < j ==> !is_space_char(s@[k]),
                decreases n - j,
            {
                j = j + 1;
            }
            let tok = s.substring_char(i, j);
            out.push(tok.to_owned());
            proof {
                lemma_run_len_at(s@, i as int, j as int);
                lemma_run_len_at(s@, i + 1, j as int);
                assert(out.deep_view() =~= prev.push(tok@));
                assert(tokens_from(s@, i as int) == seq![s@.subrange(i as int, j as int)]
                    + tokens_from(s@, j as int));
                assert(out.deep_view() + tokens_from(s@, j as int) =~= prev + tokens_from(
                    s@,
                    i as int,
                ));
            }
            i = j;
        }
    }
    out
}

/// The elements of `frags` concatenated in order with a newline between
/// each neighbouring pair.
pub open spec fn join_nl(frags: Seq<Seq<char>>) -> Seq<char>
    decreases frags.len(),
{
    if frags.len() == 0 {
        Seq::empty()
    } else if frags.len() == 1 {
        frags[0]
    } else {
        join_nl(frags.drop_last()) + seq!['\n'] + frags.last()
    }
}

/// A string none of whose characters is `c` does not contain `c`.
pub proof fn lemma_no_char_of(s: Seq<char>, c: char)
    requires
        forall|i: int| 0 <= i < s.len() ==> s[i] != c,
    ensures
        !contains_char(s, c),
{
    assert forall|i: int| 0 <= i < s.len() implies !(char_pred(c)(s[i])) by {
        assert(s[i] != c);
    }
}

/// A subrange of a string without `c` is without `c`.
pub proof fn lemma_no_char_subrange(s: Seq<char>, c: char, a: int, b: int)
    requires
        !contains_char(s, c),
        0 <= a <= b <= s.len(),
    ensures
        !contains_char(s.subrange(a, b), c),
{
    let sub = s.subrange(a, b);
    assert forall|i: int| 0 <= i < sub.len() implies sub[i] != c by {
        assert(sub[i] == s[a + i]);
        if s[a + i] == c {
            assert(char_pred(c)(s[a + i]));
            assert(contains_char(s, c));
        }
    }
    lemma_no_char_of(sub, c);
}

/// A concatenation of two strings without `c` is without `c`.
pub proof fn lemma_no_char_concat(a: Seq<char>, b: Seq<char>, c: char)
    requires
        !contains_char(a, c),
        !contains_char(b, c),
    ensures
        !contains_char(a + b, c),
{
    let ab = a + b;
    assert forall|i: int| 0 <= i < ab.len() implies ab[i] != c by {
        if i < a.len() {
            assert(ab[i] == a[i]);
            if a[i] == c {
                assert(char_pred(c)(a[i]));
                assert(contains_char(a, c));
            }
        } else {
            assert(ab[i] == b[i - a.len()]);
            if b[i - a.len()] == c {
                assert(char_pred(c)(b[i - a.len()]));
                assert(contains_char(b, c));
            }
        }
    }
    lemma_no_char_of(ab, c);
}

/// Dropping a leading run keeps a string without `c` without `c`.
pub proof fn lemma_no_char_drop_leading(s: Seq<char>, p: spec_fn(char) -> bool, c: char)
    requires
        !contains_char(s, c),
    ensures
        !contains_char(drop_leading(s, p), c),
    decreases s.len(),
{
    if s.len() > 0 && p(s[0]) {
        lemma_no_char_subrange(s, c, 1, s.len() as int);
        assert(s.drop_first() =~= s.subrange(1, s.len() as int));
        lemma_no_char_drop_leading(s.drop_first(), p, c);
    }
}

/// Dropping a trailing run keeps a string without `c` without `c`.
pub proof fn lemma_no_char_drop_trailing(s: Seq<char>, p: spec_fn(char) -> bool, c: char)
    requires
        !contains_char(s, c),
    ensures
        !contains_char(drop_trailing(s, p), c),
    decreases s.len(),
{
    if s.len() > 0 && p(s.last()) {
        lemma_no_char_subrange(s, c, 0, s.len() - 1);
        assert(s.drop_last() =~= s.subrange(0, s.len() - 1));
        lemma_no_char_drop_trailing(s.drop_last(), p, c);
    }
}

/// Trimming keeps a string without `c` without `c`.
pub proof fn lemma_no_char_trim(s: Seq<char>, c: char)
    requires
        !contains_char(s, c),
    ensures
        !contains_char(trim_spec(s), c),
{
    lemma_no_char_drop_leading(s, space_pred(), c);
    lemma_no_char_drop_trailing(drop_leading(s, space_pred()), space_pred(), c);
}

/// Stripping edge characters keeps a string without `c` without `c`.
pub proof fn lemma_no_char_trim_char(s: Seq<char>, q: char, c: char)
    requires
        !contains_char(s, c),
    ensures
        !contains_char(trim_char_spec(s, q), c),
{
    lemma_no_char_drop_leading(s, char_pred(q), c);
    lemma_no_char_drop_trailing(drop_leading(s, char_pred(q)), char_pred(q), c);
}

/// Cleaning a right-hand side keeps it without `c`.
pub proof fn lemma_no_char_cleaned(raw: Seq<char>, c: char)
    requires
        !contains_char(raw, c),
    ensures
        !contains_char(cleaned_of(raw), c),
{
    lemma_no_char_drop_trailing(raw, char_pred(';'), c);
    lemma_no_char_trim(drop_trailing(raw, char_pred(';')), c);
}

/// Every token of a string without `c` is without `c`.
pub proof fn lemma_no_char_tokens(s: Seq<char>, c: char, i: int)
    requires
        !contains_char(s, c),
    ensures
        forall|k: int|
            0 <= k < tokens_from(s, i).len() ==> !contains_char(#[trigger] tokens_from(s, i)[k], c),
    decreases s.len() - i,
{
    if i < 0 || i >= s.len() {
    } else if is_space_char(s[i]) {
        lemma_no_char_tokens(s, c, i + 1);
        assert forall|m: int| 0 <= m < tokens_from(s, i).len() implies !contains_char(
            #[trigger] tokens_from(s, i)[m],
            c,
        ) by {
            assert(tokens_from(s, i)[m] == tokens_from(s, i + 1)[m]);
        }
    } else {
        let k = i + 1 + run_len(s, i + 1);
        lemma_run_len_bound(s, i + 1);
        lemma_no_char_subrange(s, c, i, k);
        lemma_no_char_tokens(s, c, k);
        assert forall|m: int| 0 <= m < tokens_from(s, i).len() implies !contains_char(
            #[trigger] tokens_from(s, i)[m],
            c,
        ) by {
            if m == 0 {
                assert(tokens_from(s, i)[0] == s.subrange(i, k));
            } else {
                assert(tokens_from(s, i)[m] == tokens_from(s, k)[m - 1]);
            }
        }
    }
}

/// The first of the joined strings starts the joined text.
pub proof fn lemma_join_nl_prefix(frags: Seq<Seq<char>>)
    requires
        frags.len() >= 1,
    ensures
        frags[0].is_prefix_of(join_nl(frags)),
    decreases frags.len(),
{
    let p = frags[0];
    let j = join_nl(frags);
    if frags.len() == 1 {
        assert(p =~= j.subrange(0, p.len() as int));
    } else {
        let d = frags.drop_last();
        lemma_join_nl_prefix(d);
        let a = join_nl(d);
        assert(p.len() <= a.len() <= j.len());
        assert(forall|i: int| 0 <= i < a.len() ==> j[i] == a[i]);
        assert(j.subrange(0, p.len() as int) =~= a.subrange(0, p.len() as int));
        assert(p =~= j.subrange(0, p.len() as int));
    }
}

/// The last of the joined strings ends the joined text.
pub proof fn lemma_join_nl_suffix(frags: Seq<Seq<char>>)
    requires
        frags.len() >= 1,
    ensures
        frags.last().is_suffix_of(join_nl(frags)),
{
    let f = frags.last();
    let j = join_nl(frags);
    if frags.len() == 1 {
        assert(f =~= j.subrange(j.len() - f.len(), j.len() as int));
    } else {
        assert(f =~= j.subrange(j.len() - f.len(), j.len() as int));
    }
}

/// Join the given strings with a newline between each neighbouring pair.
pub fn join_lines(v: &Vec<String>) -> (r: String)
    ensures
        r@ == join_nl(v.deep_view()),
{
    let mut out = String::new();
    let mut i: usize = 0;
    while i < v.len()
        invariant
            0 <= i <= v.deep_view().len(),
            v.deep_view().len() == v.len(),
            out@ == join_nl(v.deep_view().take(i as int)),
        decreases v.len() - i,
    {
        if i > 0 {
            out.append("\n");
            proof {
                reveal_strlit("\n");
            }
        }
        out.append(v[i].as_str());
        proof {
            let dv = v.deep_view();
            assert(dv.take(i + 1).drop_last() =~= dv.take(i as int));
            assert(dv.take(i + 1).last() == dv[i as int]);
            if i == 0 {
                assert(out@ =~= dv.take(1)[0]);
            }
        }
        i = i + 1;
    }
    proof {
        assert(v.deep_view().take(v.deep_view().len() as int) =~= v.deep_view());
    }
    out
}

/// The digit character for `d` (meaningful for `d < 10`).
pub open spec fn dec_digit(d: nat) -> char {
    if d == 0 {
        '0'
    } else if d == 1 {
        '1'
    } else if d == 2 {
        '2'
    } else if d == 3 {
        '3'
    } else if d == 4 {
        '4'
    } else if d == 5 {
        '5'
    } else if d == 6 {
        '6'
    } else if d == 7 {
        '7'
    } else if d == 8 {
        '8'
    } else {
        '9'
    }
}

/// The decimal digits of `n`, most significant first.
pub open spec fn dec_str(n: nat) -> Seq<char>
    decreases n,
{
    if n < 10 {
        seq![dec_digit(n)]
    } else {
        dec_str(n / 10).push(dec_digit(n % 10))
    }
}

/// One decimal digit as text.
fn digit_str(d: usize) -> (r: &'static str)
    requires
        d < 10,
    ensures
        r@ == seq![dec_digit(d as nat)],
{
    proof {
        reveal_strlit("0");
        reveal_strlit("1");
        reveal_strlit("2");
        reveal_strlit("3");
        reveal_strlit("4");
        reveal_strlit("5");
        reveal_strlit("6");
        reveal_strlit("7");
        reveal_strlit("8");
        reveal_strlit("9");
    }
    if d == 0 {
        proof {
            assert("0"@ =~= seq![dec_digit(0)]);
        }
        "0"
    } else if d == 1 {
        proof {
            assert("1"@ =~= seq![dec_digit(1)]);
        }
        "1"
    } else if d == 2 {
        proof {
            assert("2"@ =~= seq![dec_digit(2)]);
        }
        "2"
    } else if d == 3 {
        proof {
            assert("3"@ =~= seq![dec_digit(3)]);
        }
        "3"
    } else if d == 4 {
        proof {
            assert("4"@ =~= seq![dec_digit(4)]);
        }
        "4"
    } else if d == 5 {
        proof {
            assert("5"@ =~= seq![dec_digit(5)]);
        }
        "5"
    } else if d == 6 {
        proof {
            assert("6"@ =~= seq![dec_digit(6)]);
        }
        "6"
    } else if d == 7 {
        proof {
            assert("7"@ =~= seq![dec_digit(7)]);
        }
        "7"
    } else if d == 8 {
        proof {
            assert("8"@ =~= seq![dec_digit(8)]);
        }
        "8"
    } else {
        proof {
            assert("9"@ =~= seq![dec_digit(9)]);
        }
        "9"
    }
}

/// Render `n` in decimal, most significant digit first.
pub fn usize_to_string(n: usize) -> (r: String)
    ensures
        r@ == dec_str(n as nat),
    decreases n,
{
    let d = n % 10;
    let digit = digit_str(d);
    if n < 10 {
        digit.to_owned()
    } else {
        proof {
            assert(n / 10 < n);
        }
        let mut s = usize_to_string(n / 10);
        s.append(digit);
        proof {
            assert(s@ =~= dec_str((n / 10) as nat).push(dec_digit((n % 10) as nat)));
        }
        s
    }
}

/// The last character of `s` is `c` (false when `s` is empty).
pub fn last_char_is(s: &str, c: char) -> (r: bool)
    ensures
        r == (s@.len() > 0 && s@.last() == c),
{
    let n = s.unicode_len();
    if n == 0 {
        false
    } else {
        s.get_char(n - 1) == c
    }
}

} // verus!
