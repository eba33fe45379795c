//! Character-level primitives shared by the body and URL parsers: character
//! classes, maximal runs, line boundaries, and decimal-digit runs, each with
//! an executable form proved against its specification.

use vstd::prelude::*;
use vstd::string::*;

verus! {

/// Whitespace: the characters with the Unicode `White_Space` property —
/// tab, line feed, vertical tab, form feed, carriage return, space, next
/// line, no-break space, ogham space mark, the typographic spaces, line and
/// paragraph separator, narrow no-break space, medium mathematical space,
/// and ideographic space.
pub open spec fn is_ws(c: char) -> bool {
    let u = c as u32;
    u == 32 || u == 9 || u == 10 || u == 11 || u == 12 || u == 13 || u == 0x85 || u == 0xA0
        || u == 0x1680 || (0x2000 <= u && u <= 0x200A) || u == 0x2028 || u == 0x2029 || u == 0x202F
        || u == 0x205F || u == 0x3000
}

/// An ASCII decimal digit. Request numbers are recognised in these digits
/// only: a number written with other decimal digit characters is not a
/// number to the parsers.
pub open spec fn is_digit(c: char) -> bool {
    48 <= c as u32 && c as u32 <= 57
}

/// The numeric value of an ASCII digit.
pub open spec fn digit_val(c: char) -> nat {
    (c as u32 - 48) as nat
}

/// Case-insensitive match of a text character `c` against a pattern
/// character `l`: when `l` is a lowercase ASCII letter, its uppercase form
/// matches too, as do the two other characters that case-fold to an ASCII
/// letter (the Kelvin sign to "k", the long s to "s"); any other pattern
/// character matches only itself.
pub open spec fn eqi(c: char, l: char) -> bool {
    let cu = c as u32;
    let lu = l as u32;
    cu == lu || (97 <= lu && lu <= 122 && cu + 32 == lu) || (lu == 107 && cu == 0x212A) || (lu
        == 115 && cu == 0x17F)
}

/// End of the maximal whitespace run starting at `p`.
pub open spec fn ws_run_end(s: Seq<char>, p: int) -> int
    decreases s.len() - p,
{
    if p < s.len() && 0 <= p && is_ws(s[p]) {
        ws_run_end(s, p + 1)
    } else {
        p
    }
}

/// End of the maximal whitespace run starting at `p`, stopping at `e`.
pub open spec fn ws_run_end_before(s: Seq<char>, p: int, e: int) -> int
    decreases e - p,
{
    if p < e && p < s.len() && 0 <= p && is_ws(s[p]) {
        ws_run_end_before(s, p + 1, e)
    } else {
        p
    }
}

/// End of the maximal digit run starting at `p`.
pub open spec fn digit_run_end(s: Seq<char>, p: int) -> int
    decreases s.len() - p,
{
    if p < s.len() && 0 <= p && is_digit(s[p]) {
        digit_run_end(s, p + 1)
    } else {
        p
    }
}

/// Index of the first line feed at or after `p`, or the length of `s`.
pub open spec fn line_end(s: Seq<char>, p: int) -> int
    decreases s.len() - p,
{
    if p < s.len() && 0 <= p && s[p] as u32 != 10 {
        line_end(s, p + 1)
    } else {
        p
    }
}

/// Position after discarding trailing whitespace from the range `[p, e)`.
pub open spec fn trim_end_ws(s: Seq<char>, p: int, e: int) -> int
    decreases e - p,
{
    if p < e && e <= s.len() && is_ws(s[e - 1]) {
        trim_end_ws(s, p, e - 1)
    } else {
        e
    }
}

/// The number denoted by the digit characters in `[p, e)`, most significant
/// first.
pub open spec fn digits_val(s: Seq<char>, p: int, e: int) -> nat
    decreases e - p,
{
    if e <= p {
        0
    } else {
        digits_val(s, p, e - 1) * 10 + digit_val(s[e - 1])
    }
}

/// Executable whitespace test.
pub fn ws_char(c: char) -> (b: bool)
    ensures
        b == is_ws(c),
{
    let u = c as u32;
    u == 32 || u == 9 || u == 10 || u == 11 || u == 12 || u == 13 || u == 0x85 || u == 0xA0
        || u == 0x1680 || (0x2000 <= u && u <= 0x200A) || u == 0x2028 || u == 0x2029 || u == 0x202F
        || u == 0x205F || u == 0x3000
}

/// Executable digit test.
pub fn digit_char(c: char) -> (b: bool)
    ensures
        b == is_digit(c),
{
    let u = c as u32;
    48 <= u && u <= 57
}

/// Executable case-insensitive character match.
pub fn eqi_char(c: char, l: char) -> (b: bool)
    ensures
        b == eqi(c, l),
{
    let cu = c as u32;
    let lu = l as u32;
    cu == lu || (97 <= lu && lu <= 122 && cu + 32 == lu) || (lu == 107 && cu == 0x212A) || (lu
        == 115 && cu == 0x17F)
}

/// The characters of `s`, in order, as a vector.
pub fn to_chars(s: &str) -> (v: Vec<char>)
    ensures
        v@ == s@,
{
    let n = s.unicode_len();
    let mut v: Vec<char> = Vec::new();
    let mut i: usize = 0;
    while i < n
        invariant
            n == s@.len(),
            i <= n,
            v@ == s@.take(i as int),
        decreases n - i,
    {
        v.push(s.get_char(i));
        i = i + 1;
        proof {
            assert(v@ =~= s@.take(i as int));
        }
    }
    proof {
        assert(v@ =~= s@);
    }
    v
}

/// Executable maximal whitespace run.
pub fn skip_ws(v: &Vec<char>, p: usize) -> (q: usize)
    requires
        p <= v@.len(),
    ensures
        q == ws_run_end(v@, p as int),
        p <= q <= v@.len(),
{
    let mut q = p;
    while q < v.len() && ws_char(v[q])
        invariant
            p <= q <= v@.len(),
            ws_run_end(v@, p as int) == ws_run_end(v@, q as int),
        decreases v@.len() - q,
    {
        q = q + 1;
    }
    q
}

/// Executable maximal whitespace run, stopping at `e`.
pub fn skip_ws_before(v: &Vec<char>, p: usize, e: usize) -> (q: usize)
    requires
        p <= e <= v@.len(),
    ensures
        q == ws_run_end_before(v@, p as int, e as int),
        p <= q <= e,
{
    let mut q = p;
    while q < e && ws_char(v[q])
        invariant
            p <= q <= e <= v@.len(),
            ws_run_end_before(v@, p as int, e as int) == ws_run_end_before(v@, q as int, e as int),
        decreases e - q,
    {
        q = q + 1;
    }
    q
}

/// Executable maximal digit run.
pub fn skip_digits(v: &Vec<char>, p: usize) -> (q: usize)
    requires
        p <= v@.len(),
    ensures
        q == digit_run_end(v@, p as int),
        p <= q <= v@.len(),
{
    let mut q = p;
    while q < v.len() && digit_char(v[q])
        invariant
            p <= q <= v@.len(),
            digit_run_end(v@, p as int) == digit_run_end(v@, q as int),
        decreases v@.len() - q,
    {
        q = q + 1;
    }
    q
}

/// Executable search for the end of the line starting at `p`.
pub fn find_line_end(v: &Vec<char>, p: usize) -> (q: usize)
    requires
        p <= v@.len(),
    ensures
        q == line_end(v@, p as int),
        p <= q <= v@.len(),
{
    let mut q = p;
    while q < v.len() && (v[q] as u32) != 10
        invariant
            p <= q <= v@.len(),
            line_end(v@, p as int) == line_end(v@, q as int),
        decreases v@.len() - q,
    {
        q = q + 1;
    }
    q
}

/// Executable trim of trailing whitespace from `[p, e)`.
pub fn trim_end(v: &Vec<char>, p: usize, e: usize) -> (q: usize)
    requires
        p <= e <= v@.len(),
    ensures
        q == trim_end_ws(v@, p as int, e as int),
        p <= q <= e,
{
    let mut q = e;
    while q > p && ws_char(v[q - 1])
        invariant
            p <= q <= e <= v@.len(),
            trim_end_ws(v@, p as int, e as int) == trim_end_ws(v@, p as int, q as int),
        decreases q,
    {
        q = q - 1;
    }
    q
}

/// A line's end lies between its start and the end of the text.
pub proof fn lemma_line_end_bounds(s: Seq<char>, p: int)
    requires
        0 <= p <= s.len(),
    ensures
        p <= line_end(s, p) <= s.len(),
    decreases s.len() - p,
{
    if p < s.len() && s[p] as u32 != 10 {
        lemma_line_end_bounds(s, p + 1);
    }
}

/// A maximal digit run ends within the text.
pub proof fn lemma_digit_run_le(s: Seq<char>, p: int)
    requires
        p <= s.len(),
    ensures
        digit_run_end(s, p) <= s.len(),
    decreases s.len() - p,
{
    if p < s.len() && 0 <= p && is_digit(s[p]) {
        lemma_digit_run_le(s, p + 1);
    }
}

/// Every character of a maximal digit run is a digit.
pub proof fn lemma_digit_run_chars(s: Seq<char>, p: int)
    ensures
        forall|i: int| p <= i < digit_run_end(s, p) ==> #[trigger] is_digit(s[i]),
    decreases s.len() - p,
{
    if p < s.len() && 0 <= p && is_digit(s[p]) {
        lemma_digit_run_chars(s, p + 1);
    }
}

/// Appending one more digit can only grow the denoted number.
pub proof fn lemma_digits_val_grows(s: Seq<char>, p: int, e: int)
    requires
        p <= e,
    ensures
        digits_val(s, p, e) <= digits_val(s, p, e + 1),
{
    assert(digits_val(s, p, e + 1) == digits_val(s, p, e) * 10 + digit_val(s[e]));
    assert(digits_val(s, p, e) * 10 >= digits_val(s, p, e));
}

/// The digit run `[p, e)` of `v`, parsed as a 32-bit number; `None` exactly
/// when the denoted number does not fit.
pub fn parse_digits(v: &Vec<char>, p: usize, e: usize) -> (r: Option<u32>)
    requires
        p <= e <= v@.len(),
        forall|i: int| p <= i < e ==> #[trigger] is_digit(v@[i]),
    ensures
        r matches Some(n) ==> n as nat == digits_val(v@, p as int, e as int),
        r is Some <==> digits_val(v@, p as int, e as int) <= u32::MAX,
{
    let mut acc: u64 = 0;
    let mut over: bool = false;
    let mut i = p;
    while i < e
        invariant
            p <= i <= e <= v@.len(),
            forall|k: int| p <= k < e ==> #[trigger] is_digit(v@[k]),
            !over ==> acc as nat == digits_val(v@, p as int, i as int) && acc <= u32::MAX as u64,
            over ==> digits_val(v@, p as int, i as int) > u32::MAX,
        decreases e - i,
    {
        proof {
            lemma_digits_val_grows(v@, p as int, i as int);
        }
        if !over {
            proof {
                assert(is_digit(v@[i as int]));
            }
            let d = (v[i] as u32) - 48;
            let next: u64 = acc * 10 + (d as u64);
            if next > u32::MAX as u64 {
                over = true;
            } else {
                acc = next;
            }
            proof {
                assert(digits_val(v@, p as int, i + 1) == digits_val(v@, p as int, i as int) * 10
                    + digit_val(v@[i as int]));
            }
        }
        i = i + 1;
    }
    if over {
        None
    } else {
        Some(acc as u32)
    }
}

} // verus!
