//! Character-level scanning shared by the cell classifier, the formula lexer
//! and the grid builder: character classes, digit runs and their numeric
//! values, whitespace trimming, and splitting on a separator character.

use vstd::prelude::*;
use vstd::string::StrSliceExecFns;

verus! {

/// An ASCII decimal digit.
pub open spec fn is_digit(c: char) -> bool {
    '0' <= c && c <= '9'
}

/// An ASCII letter.
pub open spec fn is_alpha(c: char) -> bool {
    ('a' <= c && c <= 'z') || ('A' <= c && c <= 'Z')
}

/// Whitespace: what the lexer skips and what field trimming removes.
pub open spec fn is_space(c: char) -> bool {
    c == ' ' || c == '\t' || c == '\r' || c == '\n'
}

/// The numeric value of a decimal digit.
pub open spec fn digit_val(c: char) -> int {
    c as int - '0' as int
}

#[verifier::when_used_as_spec(is_digit)]
pub fn check_digit(c: char) -> (b: bool)
    ensures
        b == is_digit(c),
{
    '0' <= c && c <= '9'
}

#[verifier::when_used_as_spec(is_alpha)]
pub fn check_alpha(c: char) -> (b: bool)
    ensures
        b == is_alpha(c),
{
    ('a' <= c && c <= 'z') || ('A' <= c && c <= 'Z')
}

#[verifier::when_used_as_spec(is_space)]
pub fn check_space(c: char) -> (b: bool)
    ensures
        b == is_space(c),
{
    c == ' ' || c == '\t' || c == '\r' || c == '\n'
}

/// The end of the run of decimal digits that starts at `i`: the first index at
/// or after `i` that is past the end of `s` or holds a non-digit.
pub open spec fn digit_run_end(s: Seq<char>, i: int) -> int
    decreases s.len() - i,
{
    if 0 <= i < s.len() && is_digit(s[i]) {
        digit_run_end(s, i + 1)
    } else {
        i
    }
}

pub proof fn lemma_digit_run_end(s: Seq<char>, i: int)
    requires
        0 <= i <= s.len(),
    ensures
        i <= digit_run_end(s, i) <= s.len(),
        forall|j: int| i <= j < digit_run_end(s, i) ==> is_digit(s[j]),
        digit_run_end(s, i) == s.len() || !is_digit(s[digit_run_end(s, i)]),
    decreases s.len() - i,
{
    if i < s.len() && is_digit(s[i]) {
        lemma_digit_run_end(s, i + 1);
    }
}

/// The end of the run of ASCII letters that starts at `i`.
pub open spec fn alpha_run_end(s: Seq<char>, i: int) -> int
    decreases s.len() - i,
{
    if 0 <= i < s.len() && is_alpha(s[i]) {
        alpha_run_end(s, i + 1)
    } else {
        i
    }
}

pub proof fn lemma_alpha_run_end(s: Seq<char>, i: int)
    requires
        0 <= i <= s.len(),
    ensures
        i <= alpha_run_end(s, i) <= s.len(),
        forall|j: int| i <= j < alpha_run_end(s, i) ==> is_alpha(s[j]),
        alpha_run_end(s, i) == s.len() || !is_alpha(s[alpha_run_end(s, i)]),
    decreases s.len() - i,
{
    if i < s.len() && is_alpha(s[i]) {
        lemma_alpha_run_end(s, i + 1);
    }
}

/// The value of the decimal digits `s[i..j]`, most significant first.
pub open spec fn digits_val(s: Seq<char>, i: int, j: int) -> int
    decreases j - i,
{
    if i < j {
        digits_val(s, i, j - 1) * 10 + digit_val(s[j - 1])
    } else {
        0
    }
}

pub proof fn lemma_digits_val_nonneg(s: Seq<char>, i: int, j: int)
    requires
        forall|k: int| i <= k < j ==> is_digit(s[k]),
    ensures
        digits_val(s, i, j) >= 0,
    decreases j - i,
{
    if i < j {
        lemma_digits_val_nonneg(s, i, j - 1);
    }
}

/// Appending further digits never makes the value smaller.
pub proof fn lemma_digits_val_monotone(s: Seq<char>, i: int, j: int, k: int)
    requires
        i <= j <= k,
        forall|m: int| i <= m < k ==> is_digit(s[m]),
    ensures
        digits_val(s, i, j) <= digits_val(s, i, k),
    decreases k - j,
{
    if j < k {
        lemma_digits_val_monotone(s, i, j, k - 1);
        lemma_digits_val_nonneg(s, i, k - 1);
    }
}

/// The end of the run of whitespace that starts at `i`.
pub open spec fn space_run_end(s: Seq<char>, i: int) -> int
    decreases s.len() - i,
{
    if 0 <= i < s.len() && is_space(s[i]) {
        space_run_end(s, i + 1)
    } else {
        i
    }
}

pub proof fn lemma_space_run_end(s: Seq<char>, i: int)
    requires
        0 <= i <= s.len(),
    ensures
        i <= space_run_end(s, i) <= s.len(),
        forall|j: int| i <= j < space_run_end(s, i) ==> is_space(s[j]),
        space_run_end(s, i) == s.len() || !is_space(s[space_run_end(s, i)]),
    decreases s.len() - i,
{
    if i < s.len() && is_space(s[i]) {
        lemma_space_run_end(s, i + 1);
    }
}

/// The start of the run of whitespace that ends just before `j`: the smallest
/// index `k` such that everything in `s[k..j]` is whitespace.
pub open spec fn space_run_start(s: Seq<char>, j: int) -> int
    decreases j,
{
    if 0 < j <= s.len() && is_space(s[j - 1]) {
        space_run_start(s, j - 1)
    } else {
        j
    }
}

/// `s` with leading and trailing whitespace removed.
pub open spec fn spec_trim(s: Seq<char>) -> Seq<char> {
    let a = space_run_end(s, 0);
    if a == s.len() {
        Seq::empty()
    } else {
        s.subrange(a, space_run_start(s, s.len() as int))
    }
}

/// The first index at or after `i` where `sep` occurs, or the length of `s`
/// when it does not occur there.
pub open spec fn find_from(s: Seq<char>, i: int, sep: char) -> int
    decreases s.len() - i,
{
    if 0 <= i < s.len() && s[i] != sep {
        find_from(s, i + 1, sep)
    } else {
        i
    }
}

pub proof fn lemma_find_from(s: Seq<char>, i: int, sep: char)
    requires
        0 <= i <= s.len(),
    ensures
        i <= find_from(s, i, sep) <= s.len(),
        forall|j: int| i <= j < find_from(s, i, sep) ==> s[j] != sep,
        find_from(s, i, sep) == s.len() || s[find_from(s, i, sep)] == sep,
    decreases s.len() - i,
{
    if i < s.len() && s[i] != sep {
        lemma_find_from(s, i + 1, sep);
    }
}

/// The segments of `s` between occurrences of `sep`. There is always at least
/// one segment; `n` separators make `n + 1` segments.
pub open spec fn split_at_seps(s: Seq<char>, sep: char) -> Seq<Seq<char>>
    decreases s.len(),
{
    let i = find_from(s, 0, sep);
    if i == s.len() {
        seq![s]
    } else {
        proof {
            lemma_find_from(s, 0, sep);
        }
        seq![s.subrange(0, i)] + split_at_seps(s.subrange(i + 1, s.len() as int), sep)
    }
}

pub proof fn lemma_split_at_seps_len(s: Seq<char>, sep: char)
    ensures
        split_at_seps(s, sep).len() >= 1,
    decreases s.len(),
{
    let i = find_from(s, 0, sep);
    if i != s.len() {
        lemma_find_from(s, 0, sep);
        lemma_split_at_seps_len(s.subrange(i + 1, s.len() as int), sep);
    }
}

/// Searching from `i` in `s` is searching from the start of the suffix
/// `s[i..]`, shifted by `i`.
pub proof fn lemma_find_from_shift(s: Seq<char>, i: int, j: int, sep: char)
    requires
        0 <= i <= j <= s.len(),
    ensures
        find_from(s.subrange(i, s.len() as int), j - i, sep) == find_from(s, j, sep) - i,
    decreases s.len() - j,
{
    let t = s.subrange(i, s.len() as int);
    if j < s.len() && s[j] != sep {
        lemma_find_from_shift(s, i, j + 1, sep);
    }
}

/// Scans past the decimal digits that start at `i`.
pub fn scan_digit_run(s: &str, i: usize, n: usize) -> (e: usize)
    requires
        i <= n,
        n == s@.len(),
    ensures
        e == digit_run_end(s@, i as int),
        i <= e <= n,
{
    let mut e: usize = i;
    loop
        invariant
            i <= e <= n,
            n == s@.len(),
            digit_run_end(s@, i as int) == digit_run_end(s@, e as int),
        ensures
            e == digit_run_end(s@, i as int),
        decreases n - e,
    {
        if e >= n {
            return e;
        }
        let c = s.get_char(e);
        if !check_digit(c) {
            return e;
        }
        e = e + 1;
    }
}

/// Scans past the ASCII letters that start at `i`.
pub fn scan_alpha_run(s: &str, i: usize, n: usize) -> (e: usize)
    requires
        i <= n,
        n == s@.len(),
    ensures
        e == alpha_run_end(s@, i as int),
        i <= e <= n,
{
    let mut e: usize = i;
    loop
        invariant
            i <= e <= n,
            n == s@.len(),
            alpha_run_end(s@, i as int) == alpha_run_end(s@, e as int),
        ensures
            e == alpha_run_end(s@, i as int),
        decreases n - e,
    {
        if e >= n {
            return e;
        }
        let c = s.get_char(e);
        if !check_alpha(c) {
            return e;
        }
        e = e + 1;
    }
}

/// Scans past the whitespace that starts at `i`.
pub fn scan_space_run(s: &str, i: usize, n: usize) -> (e: usize)
    requires
        i <= n,
        n == s@.len(),
    ensures
        e == space_run_end(s@, i as int),
        i <= e <= n,
{
    let mut e: usize = i;
    loop
        invariant
            i <= e <= n,
            n == s@.len(),
            space_run_end(s@, i as int) == space_run_end(s@, e as int),
        ensures
            e == space_run_end(s@, i as int),
        decreases n - e,
    {
        if e >= n {
            return e;
        }
        let c = s.get_char(e);
        if !check_space(c) {
            return e;
        }
        e = e + 1;
    }
}

/// Finds the first occurrence of `sep` at or after `i`, or `n` if there is
/// none.
pub fn scan_to_sep(s: &str, i: usize, n: usize, sep: char) -> (e: usize)
    requires
        i <= n,
        n == s@.len(),
    ensures
        e == find_from(s@, i as int, sep),
        i <= e <= n,
{
    let mut e: usize = i;
    loop
        invariant
            i <= e <= n,
            n == s@.len(),
            find_from(s@, i as int, sep) == find_from(s@, e as int, sep),
        ensures
            e == find_from(s@, i as int, sep),
        decreases n - e,
    {
        if e >= n {
            return e;
        }
        let c = s.get_char(e);
        if c == sep {
            return e;
        }
        e = e + 1;
    }
}

/// Removes leading and trailing whitespace.
pub fn trim_text(s: &str) -> (r: String)
    ensures
        r@ == spec_trim(s@),
{
    let n = s.unicode_len();
    let mut a: usize = 0;
    loop
        invariant
            0 <= a <= n,
            n == s@.len(),
            space_run_end(s@, 0) == space_run_end(s@, a as int),
        ensures
            a == space_run_end(s@, 0),
        decreases n - a,
    {
        if a >= n {
            break;
        }
        let c = s.get_char(a);
        if !check_space(c) {
            break;
        }
        a = a + 1;
    }
    if a == n {
        return String::new();
    }
    let mut b: usize = n;
    proof {
        lemma_space_run_end(s@, 0);
    }
    loop
        invariant
            a < b <= n,
            n == s@.len(),
            !is_space(s@[a as int]),
            space_run_start(s@, n as int) == space_run_start(s@, b as int),
        ensures
            b == space_run_start(s@, n as int),
        decreases b,
    {
        let c = s.get_char(b - 1);
        if !check_space(c) {
            break;
        }
        proof {
            assert(b - 1 != a);
        }
        b = b - 1;
    }
    s.substring_char(a, b).to_owned()
}

/// Splits `s` into the segments between occurrences of `sep`.
pub fn split_on(s: &str, sep: char) -> (parts: Vec<String>)
    ensures
        parts.deep_view() == split_at_seps(s@, sep),
        parts.len() >= 1,
{
    let n = s.unicode_len();
    let mut parts: Vec<String> = Vec::new();
    let mut start: usize = 0;
    proof {
        assert(parts.deep_view() =~= Seq::<Seq<char>>::empty());
        assert(s@.subrange(0, n as int) =~= s@);
        assert(parts.deep_view() + split_at_seps(s@, sep) =~= split_at_seps(s@, sep));
    }
    loop
        invariant
            0 <= start <= n,
            n == s@.len(),
            split_at_seps(s@, sep) == parts.deep_view() + split_at_seps(
                s@.subrange(start as int, n as int),
                sep,
            ),
        ensures
            parts.deep_view() == split_at_seps(s@, sep),
            parts.len() >= 1,
        decreases n - start,
    {
        let e = scan_to_sep(s, start, n, sep);
        let piece = s.substring_char(start, e).to_owned();
        let ghost t = s@.subrange(start as int, n as int);
        let ghost old_parts = parts.deep_view();
        proof {
            lemma_find_from_shift(s@, start as int, start as int, sep);
            assert(find_from(t, 0, sep) == e - start);
            lemma_find_from(s@, start as int, sep);
        }
        parts.push(piece);
        proof {
            assert(parts.deep_view() =~= old_parts.push(piece@));
        }
        if e == n {
            proof {
                assert(t =~= piece@);
                assert(split_at_seps(t, sep) == seq![t]);
                assert(old_parts + seq![t] =~= parts.deep_view());
            }
            return parts;
        }
        proof {
            let rest = s@.subrange(e + 1, n as int);
            assert(t.subrange(0, e - start) =~= piece@);
            assert(t.subrange(e - start + 1, t.len() as int) =~= rest);
            assert(split_at_seps(t, sep) == seq![piece@] + split_at_seps(rest, sep));
            assert(old_parts + (seq![piece@] + split_at_seps(rest, sep)) =~= parts.deep_view()
                + split_at_seps(rest, sep));
        }
        start = e + 1;
    }
}

} // verus!
