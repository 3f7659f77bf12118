//! Quality weights: fixed-point values in `[0.000, 1.000]` with at most three
//! fractional digits, stored as integer thousandths.
//!
//! A weight parses from the `q=<digit>[.<digit>{1,3}]` parameter of a
//! directive (whitespace tolerated around the `=`) and renders back in
//! canonical minimal form: `1`, `0`, or `0.` followed by the fractional
//! digits with trailing zeros dropped, so `q=0.5` round-trips as `0.5`.

use vstd::prelude::*;

use crate::error::ParseError;
use crate::text::digit_val;
use crate::text::is_digit_char;
use crate::text::is_header_char;
use crate::text::is_ws;
use crate::text::is_ws_char;
use crate::text::lemma_trim_left_skip;
use crate::text::lemma_trim_ws_free;
use crate::text::trim_left;
use crate::text::trim_str;
use crate::text::trim_text;

verus! {

/// A priority weight in thousandths: `500` stands for `0.5`.
#[derive(Clone, Copy, Debug, PartialEq, Eq, PartialOrd, Ord)]
pub struct Quality {
    thousandths: u16,
}

impl View for Quality {
    type V = u16;

    closed spec fn view(&self) -> u16 {
        self.thousandths
    }
}

impl Quality {
    /// A weight is valid when it does not exceed `1.000`.
    pub open spec fn wf(self) -> bool {
        self@ <= 1000
    }

    /// Construct a weight from thousandths; values above `1000` are rejected.
    pub fn new(thousandths: u16) -> (r: Result<Quality, ParseError>)
        ensures
            thousandths <= 1000 ==> (r matches Ok(q) && q@ == thousandths && q.wf()),
            thousandths > 1000 ==> r == Err::<Quality, ParseError>(ParseError::OutOfRangeQuality),
    {
        if thousandths <= 1000 {
            Ok(Quality { thousandths })
        } else {
            Err(ParseError::OutOfRangeQuality)
        }
    }

    /// Construct a weight already known to be in range.
    pub fn from_checked(thousandths: u16) -> (r: Quality)
        requires
            thousandths <= 1000,
        ensures
            r@ == thousandths,
            r.wf(),
    {
        Quality { thousandths }
    }

    /// The weight in thousandths.
    pub fn thousandths(&self) -> (r: u16)
        ensures
            r == self@,
    {
        self.thousandths
    }

    /// Render the weight in canonical minimal decimal form.
    pub fn to_text(&self) -> (r: String)
        requires
            self.wf(),
        ensures
            r@ == q_text(self@ as int),
    {
        let t = self.thousandths;
        if t == 1000 {
            let r = digit_str(1);
            r.to_owned()
        } else if t == 0 {
            let r = digit_str(0);
            r.to_owned()
        } else {
            let d1 = t / 100;
            let d2 = (t / 10) % 10;
            let d3 = t % 10;
            let mut out = String::new();
            out.append(digit_str(0));
            out.append(".");
            proof {
                reveal_strlit(".");
                assert(out@ =~= seq!['0', '.']);
            }
            out.append(digit_str(d1));
            if d3 != 0 {
                out.append(digit_str(d2));
                out.append(digit_str(d3));
                proof {
                    assert(out@ =~= seq!['0', '.'] + frac_text(t as int));
                }
            } else if d2 != 0 {
                out.append(digit_str(d2));
                proof {
                    assert(out@ =~= seq!['0', '.'] + frac_text(t as int));
                }
            } else {
                proof {
                    assert(out@ =~= seq!['0', '.'] + frac_text(t as int));
                }
            }
            out
        }
    }
}

/// The decimal character of a single digit.
pub open spec fn digit_char(d: int) -> char {
    if d == 0 {
        '0'
    } else if d == 1 {
        '1'
    } else if d == 2 {
        '2'
    } else if d == 3 {
        '3'
    } else if d == 4 {
        '4'
    } else if d == 5 {
        '5'
    } else if d == 6 {
        '6'
    } else if d == 7 {
        '7'
    } else if d == 8 {
        '8'
    } else {
        '9'
    }
}

/// The fractional digits of a weight `t` in `1..=999`, trailing zeros dropped.
pub open spec fn frac_text(t: int) -> Seq<char> {
    let d1 = t / 100;
    let d2 = (t / 10) % 10;
    let d3 = t % 10;
    if d3 != 0 {
        seq![digit_char(d1), digit_char(d2), digit_char(d3)]
    } else if d2 != 0 {
        seq![digit_char(d1), digit_char(d2)]
    } else {
        seq![digit_char(d1)]
    }
}

/// Canonical text of a weight of `t` thousandths.
pub open spec fn q_text(t: int) -> Seq<char> {
    if t == 1000 {
        seq!['1']
    } else if t == 0 {
        seq!['0']
    } else {
        seq!['0', '.'] + frac_text(t)
    }
}

/// Every character of `s` is a decimal digit.
pub open spec fn all_digits(s: Seq<char>) -> bool {
    forall|i: int| 0 <= i < s.len() ==> is_digit_char(s[i])
}

/// The value, in thousandths, of one to three fractional digits.
pub open spec fn frac_val(f: Seq<char>) -> int {
    if f.len() == 1 {
        digit_val(f[0]) * 100
    } else if f.len() == 2 {
        digit_val(f[0]) * 100 + digit_val(f[1]) * 10
    } else {
        digit_val(f[0]) * 100 + digit_val(f[1]) * 10 + digit_val(f[2])
    }
}

/// A candidate weight is accepted only inside `[0, 1000]` thousandths.
pub open spec fn check_range(v: int) -> Option<u16> {
    if 0 <= v <= 1000 {
        Some(v as u16)
    } else {
        None
    }
}

/// Parse the digits of a weight: `<digit>` optionally followed by `.` and one
/// to three fractional digits, rejected when out of range.
pub open spec fn parse_num(n: Seq<char>) -> Option<u16> {
    if n.len() == 0 || !is_digit_char(n[0]) {
        None
    } else if n.len() == 1 {
        check_range(digit_val(n[0]) * 1000)
    } else if n[1] == '.' && 3 <= n.len() <= 5 && all_digits(n.skip(2)) {
        check_range(digit_val(n[0]) * 1000 + frac_val(n.skip(2)))
    } else {
        None
    }
}

/// Parse a weight parameter: `q`, `=`, and digits, with whitespace tolerated
/// around the parameter and the `=`. Anything else yields `None`.
pub open spec fn parse_q(s: Seq<char>) -> Option<u16> {
    let t = trim_text(s);
    if t.len() > 0 && t[0] == 'q' {
        let r1 = trim_left(t.drop_first());
        if r1.len() > 0 && r1[0] == '=' {
            parse_num(trim_left(r1.drop_first()))
        } else {
            None
        }
    } else {
        None
    }
}

/// The one-character string for a digit.
fn digit_str(d: u16) -> (r: &'static str)
    requires
        d <= 9,
    ensures
        r@ == seq![digit_char(d as int)],
{
    if d == 0 {
        proof {
            reveal_strlit("0");
        }
        "0"
    } else if d == 1 {
        proof {
            reveal_strlit("1");
        }
        "1"
    } else if d == 2 {
        proof {
            reveal_strlit("2");
        }
        "2"
    } else if d == 3 {
        proof {
            reveal_strlit("3");
        }
        "3"
    } else if d == 4 {
        proof {
            reveal_strlit("4");
        }
        "4"
    } else if d == 5 {
        proof {
            reveal_strlit("5");
        }
        "5"
    } else if d == 6 {
        proof {
            reveal_strlit("6");
        }
        "6"
    } else if d == 7 {
        proof {
            reveal_strlit("7");
        }
        "7"
    } else if d == 8 {
        proof {
            reveal_strlit("8");
        }
        "8"
    } else {
        proof {
            reveal_strlit("9");
        }
        "9"
    }
}

/// Whether `c` is a decimal digit.
fn is_digit(c: char) -> (r: bool)
    ensures
        r == is_digit_char(c),
{
    let n = c as u32;
    48 <= n && n <= 57
}

/// The numeric value of a digit character.
fn digit_of(c: char) -> (r: u32)
    requires
        is_digit_char(c),
    ensures
        r as int == digit_val(c),
{
    c as u32 - 48
}

/// Parse the weight parameter of a directive (the part after the `;`).
pub fn parse_q_str(s: &str) -> (r: Option<u16>)
    ensures
        r == parse_q(s@),
        r matches Some(v) ==> v <= 1000,
{
    let t = trim_str(s);
    let n: usize = t.unicode_len();
    if n == 0 || t.get_char(0) != 'q' {
        return None;
    }
    let mut i: usize = 1;
    while i < n && is_ws(t.get_char(i))
        invariant
            n == t@.len(),
            1 <= i <= n,
            forall|k: int| 1 <= k < i ==> is_ws_char(t@[k]),
        decreases n - i,
    {
        i = i + 1;
    }
    proof {
        lemma_trim_left_skip(t@.drop_first(), i - 1);
        assert(t@.drop_first().skip(i - 1) =~= t@.skip(i as int));
    }
    if i == n || t.get_char(i) != '=' {
        return None;
    }
    let mut j: usize = i + 1;
    while j < n && is_ws(t.get_char(j))
        invariant
            n == t@.len(),
            i + 1 <= j <= n,
            forall|k: int| i + 1 <= k < j ==> is_ws_char(t@[k]),
        decreases n - j,
    {
        j = j + 1;
    }
    proof {
        lemma_trim_left_skip(t@.skip(i as int).drop_first(), j - i - 1);
        assert(t@.skip(i as int).drop_first().skip(j - i - 1) =~= t@.skip(j as int));
    }
    let ghost num = t@.skip(j as int);
    proof {
        assert(trim_left(trim_text(s@).drop_first()) == t@.skip(i as int));
        assert(trim_left(t@.skip(i as int).drop_first()) == num);
        assert(parse_q(s@) == parse_num(num));
    }
    if j == n {
        return None;
    }
    let c0 = t.get_char(j);
    if !is_digit(c0) {
        return None;
    }
    let d0 = digit_of(c0);
    if n - j == 1 {
        let v = d0 * 1000;
        if v <= 1000 {
            return Some(v as u16);
        } else {
            return None;
        }
    }
    if t.get_char(j + 1) != '.' || n - j < 3 || n - j > 5 {
        return None;
    }
    let mut k: usize = j + 2;
    while k < n
        invariant
            n == t@.len(),
            j + 2 <= k <= n,
            3 <= n - j <= 5,
            num == t@.skip(j as int),
            parse_q(s@) == parse_num(num),
            forall|m: int| j + 2 <= m < k ==> is_digit_char(t@[m]),
        decreases n - k,
    {
        if !is_digit(t.get_char(k)) {
            proof {
                assert(num.skip(2)[k - j - 2] == t@[k as int]);
                assert(!all_digits(num.skip(2)));
            }
            return None;
        }
        k = k + 1;
    }
    proof {
        assert(num.skip(2) =~= t@.skip(j + 2));
        assert(all_digits(num.skip(2)));
    }
    let f1 = digit_of(t.get_char(j + 2));
    let mut frac: u32 = f1 * 100;
    if n - j >= 4 {
        let f2 = digit_of(t.get_char(j + 3));
        frac = frac + f2 * 10;
    }
    if n - j == 5 {
        let f3 = digit_of(t.get_char(j + 4));
        frac = frac + f3;
    }
    proof {
        assert(frac as int == frac_val(num.skip(2)));
    }
    let v = d0 * 1000 + frac;
    if v <= 1000 {
        Some(v as u16)
    } else {
        None
    }
}

/// The characters of a rendered weight: nonempty, digits and a dot only, so
/// printable ASCII with no whitespace, comma, or semicolon.
pub proof fn lemma_q_text_chars(t: int)
    requires
        0 <= t <= 1000,
    ensures
        q_text(t).len() > 0,
        forall|i: int|
            0 <= i < q_text(t).len() ==> is_header_char(#[trigger] q_text(t)[i]) && !is_ws_char(
                q_text(t)[i],
            ) && q_text(t)[i] != ',' && q_text(t)[i] != ';',
{
    assert forall|i: int| 0 <= i < q_text(t).len() implies is_header_char(#[trigger] q_text(t)[i])
        && !is_ws_char(q_text(t)[i]) && q_text(t)[i] != ',' && q_text(t)[i] != ';' by {
        let c = q_text(t)[i];
        assert(c == '1' || c == '0' || c == '.' || (exists|d: int|
            0 <= d <= 9 && c == digit_char(d)));
    }
}

/// Rendering a weight and parsing the result as a `q=` parameter gives the
/// weight back.
pub proof fn lemma_quality_round_trip(t: int)
    requires
        0 <= t <= 1000,
    ensures
        parse_q(seq!['q', '='] + q_text(t)) == Some(t as u16),
{
    let s = seq!['q', '='] + q_text(t);
    lemma_q_text_chars(t);
    assert(!is_ws_char(s[0]));
    assert(s[s.len() - 1] == q_text(t)[q_text(t).len() - 1]);
    lemma_trim_ws_free(s);
    assert(trim_text(s) == s);
    assert(s[0] == 'q');
    let r1 = s.drop_first();
    assert(r1[0] == '=');
    assert(trim_left(r1) == r1);
    let r2 = r1.drop_first();
    assert(r2 =~= q_text(t));
    assert(trim_left(r2) == r2);
    lemma_parse_num_q_text(t);
}

/// `parse_num` inverts `q_text`.
proof fn lemma_parse_num_q_text(t: int)
    requires
        0 <= t <= 1000,
    ensures
        parse_num(q_text(t)) == Some(t as u16),
{
    if t == 1000 {
        assert(parse_num(seq!['1']) == check_range((1 * 1000) as int));
    } else if t == 0 {
        assert(parse_num(seq!['0']) == check_range((0 * 1000) as int));
    } else {
        let n = q_text(t);
        let f = frac_text(t);
        assert(n =~= seq!['0', '.'] + f);
        let d1 = t / 100;
        let d2 = (t / 10) % 10;
        let d3 = t % 10;
        assert(0 <= d1 <= 9 && 0 <= d2 <= 9 && 0 <= d3 <= 9);
        assert(n[0] == '0' && is_digit_char(n[0]) && digit_val(n[0]) == 0);
        assert(n[1] == '.');
        assert(n.skip(2) =~= f);
        assert(all_digits(f));
        assert(t == d1 * 100 + d2 * 10 + d3) by {
            assert(t == (t / 10) * 10 + t % 10);
            assert(t / 10 == ((t / 10) / 10) * 10 + (t / 10) % 10);
            assert((t / 10) / 10 == t / 100);
        }
        assert(frac_val(f) == t);
        assert(parse_num(n) == check_range(0 * 1000 + t));
    }
}

} // verus!
