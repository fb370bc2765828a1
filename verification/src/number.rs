//! The grammar of floating-point literals, used by the cell classifier to
//! decide whether a field is numeric: an optional sign, then either a special
//! spelling (`inf`, `infinity`, `nan`, in any case) or a decimal number with
//! an optional point and an optional exponent. This is the literal grammar
//! that Rust's standard float parsing documents, so a field is classified as
//! numeric exactly when the host parser would accept it.

use crate::scan;
use vstd::prelude::*;
use vstd::string::StrSliceExecFns;

verus! {

/// A sign character.
pub open spec fn is_sign(c: char) -> bool {
    c == '+' || c == '-'
}

/// The code of `c` with an ASCII upper-case letter folded to lower case.
pub open spec fn lower_code(c: char) -> int {
    if 'A' <= c && c <= 'Z' {
        c as int + 32
    } else {
        c as int
    }
}

/// `s[i..]` spells `word`, ignoring ASCII case.
pub open spec fn tail_eq_ci(s: Seq<char>, i: int, word: Seq<char>) -> bool {
    s.len() - i == word.len() && (forall|k: int|
        0 <= k < word.len() ==> lower_code(s[i + k]) == word[k] as int)
}

/// `s[i..]` is one of the special float spellings.
pub open spec fn special_from(s: Seq<char>, i: int) -> bool {
    ||| tail_eq_ci(s, i, seq!['i', 'n', 'f'])
    ||| tail_eq_ci(s, i, seq!['i', 'n', 'f', 'i', 'n', 'i', 't', 'y'])
    ||| tail_eq_ci(s, i, seq!['n', 'a', 'n'])
}

/// `s[j..]` is empty or an exponent part: `e` or `E`, an optional sign, and
/// at least one digit reaching the end of `s`.
pub open spec fn exponent_from(s: Seq<char>, j: int) -> bool {
    j == s.len() || {
        &&& (s[j] == 'e' || s[j] == 'E')
        &&& {
            let k = if j + 1 < s.len() && is_sign(s[j + 1]) {
                j + 2
            } else {
                j + 1
            };
            k < s.len() && scan::digit_run_end(s, k) == s.len()
        }
    }
}

/// `s[i..]` is a decimal number: digits, an optional point with optional
/// further digits, and an optional exponent; or a point, at least one digit,
/// and an optional exponent.
pub open spec fn number_from(s: Seq<char>, i: int) -> bool {
    let d1 = scan::digit_run_end(s, i);
    if d1 > i {
        let j = if d1 < s.len() && s[d1] == '.' {
            scan::digit_run_end(s, d1 + 1)
        } else {
            d1
        };
        exponent_from(s, j)
    } else {
        i < s.len() && s[i] == '.' && {
            let j = scan::digit_run_end(s, i + 1);
            j > i + 1 && exponent_from(s, j)
        }
    }
}

/// The whole of `s` is a floating-point literal.
pub open spec fn is_float_literal(s: Seq<char>) -> bool {
    let i: int = if s.len() > 0 && is_sign(s[0]) {
        1
    } else {
        0
    };
    special_from(s, i) || number_from(s, i)
}

/// Whether `c` is the letter `l`, ignoring ASCII case.
fn char_eq_ci(c: char, l: char) -> (b: bool)
    requires
        'a' <= l && l <= 'z',
    ensures
        b == (lower_code(c) == l as int),
{
    c == l || ('A' <= c && c <= 'Z' && (c as u32) + 32 == (l as u32))
}

/// Whether `s[i..]` spells `word`, ignoring ASCII case.
fn tail_matches_ci(s: &str, i: usize, n: usize, word: &[char]) -> (b: bool)
    requires
        i <= n,
        n == s@.len(),
        forall|k: int| 0 <= k < word@.len() ==> 'a' <= word@[k] && word@[k] <= 'z',
    ensures
        b == tail_eq_ci(s@, i as int, word@),
{
    let w = word.len();
    if n - i != w {
        return false;
    }
    let mut k: usize = 0;
    while k < w
        invariant
            0 <= k <= w,
            w == word@.len(),
            i + w == n,
            n == s@.len(),
            i <= n,
            forall|m: int| 0 <= m < word@.len() ==> 'a' <= word@[m] && word@[m] <= 'z',
            forall|m: int| 0 <= m < k ==> lower_code(s@[i + m]) == word@[m] as int,
        decreases w - k,
    {
        let c = s.get_char(i + k);
        if !char_eq_ci(c, word[k]) {
            return false;
        }
        k = k + 1;
    }
    true
}

/// Whether the whole of `s` is a floating-point literal.
pub fn is_float_text(s: &str) -> (b: bool)
    ensures
        b == is_float_literal(s@),
{
    let n = s.unicode_len();
    let start: usize = if n > 0 {
        let c0 = s.get_char(0);
        if c0 == '+' || c0 == '-' {
            1
        } else {
            0
        }
    } else {
        0
    };
    let inf: [char; 3] = ['i', 'n', 'f'];
    let infinity: [char; 8] = ['i', 'n', 'f', 'i', 'n', 'i', 't', 'y'];
    let nan: [char; 3] = ['n', 'a', 'n'];
    proof {
        assert(inf@ =~= seq!['i', 'n', 'f']);
        assert(infinity@ =~= seq!['i', 'n', 'f', 'i', 'n', 'i', 't', 'y']);
        assert(nan@ =~= seq!['n', 'a', 'n']);
    }
    if tail_matches_ci(s, start, n, inf.as_slice()) {
        return true;
    }
    if tail_matches_ci(s, start, n, infinity.as_slice()) {
        return true;
    }
    if tail_matches_ci(s, start, n, nan.as_slice()) {
        return true;
    }
    check_number(s, start, n)
}

/// Whether `s[i..]` is a decimal number per `number_from`.
fn check_number(s: &str, i: usize, n: usize) -> (b: bool)
    requires
        i <= n,
        n == s@.len(),
    ensures
        b == number_from(s@, i as int),
{
    let d1 = scan::scan_digit_run(s, i, n);
    if d1 > i {
        let j: usize = if d1 < n && s.get_char(d1) == '.' {
            scan::scan_digit_run(s, d1 + 1, n)
        } else {
            d1
        };
        check_exponent(s, j, n)
    } else {
        if i < n && s.get_char(i) == '.' {
            let j = scan::scan_digit_run(s, i + 1, n);
            j > i + 1 && check_exponent(s, j, n)
        } else {
            false
        }
    }
}

/// Whether `s[j..]` is empty or an exponent part per `exponent_from`.
fn check_exponent(s: &str, j: usize, n: usize) -> (b: bool)
    requires
        j <= n,
        n == s@.len(),
    ensures
        b == exponent_from(s@, j as int),
{
    if j == n {
        return true;
    }
    let c = s.get_char(j);
    if c != 'e' && c != 'E' {
        return false;
    }
    let k: usize = if j + 1 < n {
        let c1 = s.get_char(j + 1);
        if c1 == '+' || c1 == '-' {
            j + 2
        } else {
            j + 1
        }
    } else {
        j + 1
    };
    if k >= n {
        return false;
    }
    let e = scan::scan_digit_run(s, k, n);
    e == n
}

} // verus!
