//! Character classes and whitespace trimming for header text.
//!
//! Header values are scanned character by character; the spec functions here
//! define the character classes of the header grammar (ASCII whitespace,
//! digits, token characters) and ASCII-whitespace trimming, together with the
//! executable helpers proved against them.

use vstd::prelude::*;

verus! {

/// ASCII whitespace tolerated around directives and the `=` of a weight.
pub open spec fn is_ws_char(c: char) -> bool {
    c == ' ' || c == '\t' || c == '\n' || c == '\r'
}

/// ASCII decimal digit.
pub open spec fn is_digit_char(c: char) -> bool {
    48 <= c as int && c as int <= 57
}

/// The numeric value of an ASCII digit.
pub open spec fn digit_val(c: char) -> int {
    c as int - 48
}

/// A token character of the header grammar: letters, digits, and the
/// punctuation allowed in an encoding identifier.
pub open spec fn is_tchar(c: char) -> bool {
    let n = c as int;
    (48 <= n && n <= 57) || (65 <= n && n <= 90) || (97 <= n && n <= 122) || n == 33 || n == 35
        || n == 36 || n == 37 || n == 38 || n == 39 || n == 42 || n == 43 || n == 45 || n == 46
        || n == 94 || n == 95 || n == 96 || n == 124 || n == 126
}

/// Printable ASCII (space included): what a header value may carry.
pub open spec fn is_header_char(c: char) -> bool {
    32 <= c as int && c as int <= 126
}

/// Every character of `s` is printable ASCII.
pub open spec fn all_header_chars(s: Seq<char>) -> bool {
    forall|i: int| 0 <= i < s.len() ==> is_header_char(s[i])
}

/// The code point of `c` with ASCII uppercase letters folded to lowercase.
pub open spec fn lower_code(c: char) -> int {
    if 65 <= c as int && c as int <= 90 {
        c as int + 32
    } else {
        c as int
    }
}

/// ASCII-case-insensitive equality of two character sequences.
pub open spec fn seq_eq_lower(a: Seq<char>, b: Seq<char>) -> bool {
    a.len() == b.len() && (forall|i: int| 0 <= i < a.len() ==> lower_code(a[i]) == lower_code(b[i]))
}

/// Drop leading ASCII whitespace.
pub open spec fn trim_left(s: Seq<char>) -> Seq<char>
    decreases s.len(),
{
    if s.len() > 0 && is_ws_char(s[0]) {
        trim_left(s.drop_first())
    } else {
        s
    }
}

/// Drop trailing ASCII whitespace.
pub open spec fn trim_right(s: Seq<char>) -> Seq<char>
    decreases s.len(),
{
    if s.len() > 0 && is_ws_char(s.last()) {
        trim_right(s.drop_last())
    } else {
        s
    }
}

/// Drop leading and trailing ASCII whitespace.
pub open spec fn trim_text(s: Seq<char>) -> Seq<char> {
    trim_right(trim_left(s))
}

/// `trim_left` removes exactly the leading run of whitespace.
pub proof fn lemma_trim_left_skip(s: Seq<char>, k: int)
    requires
        0 <= k <= s.len(),
        forall|j: int| 0 <= j < k ==> is_ws_char(s[j]),
        k == s.len() || !is_ws_char(s[k]),
    ensures
        trim_left(s) == s.skip(k),
    decreases k,
{
    if k == 0 {
        assert(s.skip(0) =~= s);
    } else {
        lemma_trim_left_skip(s.drop_first(), k - 1);
        assert(s.drop_first().skip(k - 1) =~= s.skip(k));
    }
}

/// `trim_right` removes exactly the trailing run of whitespace.
pub proof fn lemma_trim_right_take(s: Seq<char>, k: int)
    requires
        0 <= k <= s.len(),
        forall|j: int| k <= j < s.len() ==> is_ws_char(s[j]),
        k == 0 || !is_ws_char(s[k - 1]),
    ensures
        trim_right(s) == s.take(k),
    decreases s.len(),
{
    if k == s.len() {
        assert(s.take(k) =~= s);
    } else {
        lemma_trim_right_take(s.drop_last(), k);
        assert(s.drop_last().take(k) =~= s.take(k));
    }
}

/// Trimming a sequence with no whitespace at either end leaves it unchanged.
pub proof fn lemma_trim_ws_free(s: Seq<char>)
    requires
        s.len() == 0 || (!is_ws_char(s[0]) && !is_ws_char(s[s.len() - 1])),
    ensures
        trim_text(s) == s,
{
    lemma_trim_left_skip(s, 0);
    assert(s.skip(0) =~= s);
    lemma_trim_right_take(s, s.len() as int);
    assert(s.take(s.len() as int) =~= s);
}

/// A whitespace prefix does not affect `trim_left`.
pub proof fn lemma_trim_left_ws_prefix(p: Seq<char>, s: Seq<char>)
    requires
        forall|j: int| 0 <= j < p.len() ==> is_ws_char(p[j]),
    ensures
        trim_left(p + s) == trim_left(s),
    decreases p.len(),
{
    if p.len() == 0 {
        assert(p + s =~= s);
    } else {
        assert((p + s)[0] == p[0]);
        assert((p + s).drop_first() =~= p.drop_first() + s);
        lemma_trim_left_ws_prefix(p.drop_first(), s);
    }
}

/// A whitespace prefix does not affect trimming.
pub proof fn lemma_trim_ws_prefix(p: Seq<char>, s: Seq<char>)
    requires
        forall|j: int| 0 <= j < p.len() ==> is_ws_char(p[j]),
    ensures
        trim_text(p + s) == trim_text(s),
{
    lemma_trim_left_ws_prefix(p, s);
}

/// Whether `c` is ASCII whitespace.
pub fn is_ws(c: char) -> (r: bool)
    ensures
        r == is_ws_char(c),
{
    c == ' ' || c == '\t' || c == '\n' || c == '\r'
}

/// The code point of `c` with ASCII uppercase folded to lowercase.
pub fn lower_u32(c: char) -> (r: u32)
    ensures
        r as int == lower_code(c),
{
    let n = c as u32;
    if 65 <= n && n <= 90 {
        n + 32
    } else {
        n
    }
}

/// Whether `c` is a token character.
pub fn is_tchar_exec(c: char) -> (r: bool)
    ensures
        r == is_tchar(c),
{
    let n = c as u32;
    (48 <= n && n <= 57) || (65 <= n && n <= 90) || (97 <= n && n <= 122) || n == 33 || n == 35
        || n == 36 || n == 37 || n == 38 || n == 39 || n == 42 || n == 43 || n == 45 || n == 46
        || n == 94 || n == 95 || n == 96 || n == 124 || n == 126
}

/// Trim ASCII whitespace from both ends of `s`.
pub fn trim_str<'a>(s: &'a str) -> (r: &'a str)
    ensures
        r@ == trim_text(s@),
{
    let n: usize = s.unicode_len();
    let mut lo: usize = 0;
    while lo < n && is_ws(s.get_char(lo))
        invariant
            n == s@.len(),
            lo <= n,
            forall|j: int| 0 <= j < lo ==> is_ws_char(s@[j]),
        decreases n - lo,
    {
        lo = lo + 1;
    }
    let mut hi: usize = n;
    while hi > lo && is_ws(s.get_char(hi - 1))
        invariant
            n == s@.len(),
            lo <= hi <= n,
            forall|j: int| 0 <= j < lo ==> is_ws_char(s@[j]),
            forall|j: int| hi <= j < n ==> is_ws_char(s@[j]),
        decreases hi,
    {
        hi = hi - 1;
    }
    let r = s.substring_char(lo, hi);
    proof {
        lemma_trim_left_skip(s@, lo as int);
        let t = s@.skip(lo as int);
        lemma_trim_right_take(t, hi - lo);
        assert(t.take(hi - lo) =~= s@.subrange(lo as int, hi as int));
    }
    r
}

/// ASCII-case-insensitive comparison of two strings.
pub fn eq_ignore_case(a: &str, b: &str) -> (r: bool)
    ensures
        r == seq_eq_lower(a@, b@),
{
    let na: usize = a.unicode_len();
    let nb: usize = b.unicode_len();
    if na != nb {
        return false;
    }
    let mut i: usize = 0;
    while i < na
        invariant
            na == a@.len(),
            nb == b@.len(),
            na == nb,
            i <= na,
            forall|j: int| 0 <= j < i ==> lower_code(a@[j]) == lower_code(b@[j]),
        decreases na - i,
    {
        let ca = lower_u32(a.get_char(i));
        let cb = lower_u32(b.get_char(i));
        if ca != cb {
            return false;
        }
        i = i + 1;
    }
    true
}

} // verus!
