//! Extraction of structured hints from a request body: free-text dependency
//! phrases ("depends on #12" and five related forms) and the explicit
//! "stack:" declaration section.
//!
//! Request numbers are runs of ASCII digits; a line of the stack section
//! whose number is written with other decimal digit characters does not have
//! the list-line shape and ends the section.

use vstd::prelude::*;
use vstd::string::*;
use crate::text::{
    digit_run_end, digits_val, eqi, eqi_char, is_digit, lemma_digit_run_chars, lemma_line_end_bounds,
    line_end, parse_digits, skip_digits, skip_ws, skip_ws_before, to_chars, trim_end, trim_end_ws,
    ws_run_end, ws_run_end_before,
};

verus! {

/// The characters starting at `p` match `kw` case-insensitively
/// (`kw` is given in lowercase).
pub open spec fn kw_at(s: Seq<char>, p: int, kw: Seq<char>) -> bool {
    &&& 0 <= p
    &&& p + kw.len() <= s.len()
    &&& forall|k: int| 0 <= k < kw.len() ==> #[trigger] eqi(s[p + k], kw[k])
}

/// The characters starting at `p` are exactly `kw`.
pub open spec fn kw_at_exact(s: Seq<char>, p: int, kw: Seq<char>) -> bool {
    &&& 0 <= p
    &&& p + kw.len() <= s.len()
    &&& forall|k: int| 0 <= k < kw.len() ==> #[trigger] s[p + k] == kw[k]
}

/// One or more whitespace characters, then `#`, then one or more digits,
/// starting at `q`. Yields the denoted number and the position just past the
/// digit run.
pub open spec fn match_hash_num(s: Seq<char>, q: int) -> Option<(nat, int)> {
    let w = ws_run_end(s, q);
    if w > q && w < s.len() && s[w] as u32 == 35 {
        let de = digit_run_end(s, w + 1);
        if de > w + 1 {
            Some((digits_val(s, w + 1, de), de))
        } else {
            None
        }
    } else {
        None
    }
}

/// The part of a dependency phrase after its keyword: for "... on #N" forms,
/// whitespace, "on", then the number; otherwise the number directly.
pub open spec fn match_tail(s: Seq<char>, q: int, on: bool) -> Option<(nat, int)> {
    if on {
        let w = ws_run_end(s, q);
        if w > q && kw_at(s, w, "on"@) {
            match_hash_num(s, w + 2)
        } else {
            None
        }
    } else {
        match_hash_num(s, q)
    }
}

/// A whole dependency phrase at position `p`: the keyword `kw`
/// (case-insensitively), an optional trailing "s" when `has_s` holds
/// (preferred when both readings match), then the tail.
pub open spec fn match_phrase_at(s: Seq<char>, kw: Seq<char>, has_s: bool, on: bool, p: int) -> Option<(nat, int)> {
    if kw_at(s, p, kw) {
        let q0 = p + kw.len();
        let with_s = if has_s && q0 < s.len() && eqi(s[q0], 's') {
            match_tail(s, q0 + 1, on)
        } else {
            None
        };
        if with_s is Some {
            with_s
        } else {
            match_tail(s, q0, on)
        }
    } else {
        None
    }
}

/// All numbers named by phrases with keyword `kw` at or after `p`, scanning
/// left to right, resuming after each match; a number too large for 32 bits
/// is skipped.
pub open spec fn scan_phrase(s: Seq<char>, kw: Seq<char>, has_s: bool, on: bool, p: int) -> Seq<u32>
    decreases s.len() - p,
{
    if p < 0 || p >= s.len() {
        seq![]
    } else {
        match match_phrase_at(s, kw, has_s, on, p) {
            Some((v, end)) => {
                let np = if p < end <= s.len() {
                    end
                } else {
                    p + 1
                };
                let rest = scan_phrase(s, kw, has_s, on, np);
                if v <= u32::MAX {
                    seq![v as u32] + rest
                } else {
                    rest
                }
            },
            None => scan_phrase(s, kw, has_s, on, p + 1),
        }
    }
}

/// The dependency numbers of a body: the matches of each of the six phrase
/// forms in turn, each form's matches in text order.
pub open spec fn spec_extract_deps(s: Seq<char>) -> Seq<u32> {
    scan_phrase(s, "depends"@, false, true, 0) + scan_phrase(s, "based"@, false, true, 0)
        + scan_phrase(s, "stacked"@, false, true, 0) + scan_phrase(s, "build"@, true, true, 0)
        + scan_phrase(s, "require"@, true, false, 0) + scan_phrase(s, "follow"@, true, false, 0)
}

/// Executable case-insensitive keyword match.
pub fn kw_match(v: &Vec<char>, p: usize, kw: &str) -> (b: bool)
    requires
        p <= v@.len(),
    ensures
        b == kw_at(v@, p as int, kw@),
{
    let n = kw.unicode_len();
    let vl = v.len();
    if n > vl - p {
        return false;
    }
    let mut k: usize = 0;
    while k < n
        invariant
            p + n <= vl == v@.len(),
            n == kw@.len(),
            k <= n,
            forall|j: int| 0 <= j < k ==> #[trigger] eqi(v@[p + j], kw@[j]),
        decreases n - k,
    {
        if !eqi_char(v[p + k], kw.get_char(k)) {
            return false;
        }
        k = k + 1;
    }
    true
}

/// Executable exact keyword match.
pub fn kw_match_exact(v: &Vec<char>, p: usize, kw: &str) -> (b: bool)
    requires
        p <= v@.len(),
    ensures
        b == kw_at_exact(v@, p as int, kw@),
{
    let n = kw.unicode_len();
    let vl = v.len();
    if n > vl - p {
        return false;
    }
    let mut k: usize = 0;
    while k < n
        invariant
            p + n <= vl == v@.len(),
            n == kw@.len(),
            k <= n,
            forall|j: int| 0 <= j < k ==> #[trigger] v@[p + j] == kw@[j],
        decreases n - k,
    {
        if v[p + k] != kw.get_char(k) {
            return false;
        }
        k = k + 1;
    }
    true
}

/// Executable form of `match_hash_num`; the inner option is the parsed
/// number, absent exactly when it does not fit in 32 bits.
fn hash_num(v: &Vec<char>, q: usize) -> (r: Option<(Option<u32>, usize)>)
    requires
        q <= v@.len(),
    ensures
        r is Some <==> match_hash_num(v@, q as int) is Some,
        r matches Some(pr) ==> {
            let (sv, se) = match_hash_num(v@, q as int).unwrap();
            &&& pr.1 as int == se
            &&& q < pr.1 <= v@.len()
            &&& (pr.0 is Some <==> sv <= u32::MAX)
            &&& (pr.0 matches Some(n) ==> n as nat == sv)
        },
{
    let w = skip_ws(v, q);
    if w > q && w < v.len() && (v[w] as u32) == 35 {
        let de = skip_digits(v, w + 1);
        if de > w + 1 {
            proof {
                lemma_digit_run_chars(v@, w + 1);
            }
            let val = parse_digits(v, w + 1, de);
            return Some((val, de));
        }
    }
    None
}

/// Executable form of `match_tail`.
fn tail(v: &Vec<char>, q: usize, on: bool) -> (r: Option<(Option<u32>, usize)>)
    requires
        q <= v@.len(),
    ensures
        r is Some <==> match_tail(v@, q as int, on) is Some,
        r matches Some(pr) ==> {
            let (sv, se) = match_tail(v@, q as int, on).unwrap();
            &&& pr.1 as int == se
            &&& q < pr.1 <= v@.len()
            &&& (pr.0 is Some <==> sv <= u32::MAX)
            &&& (pr.0 matches Some(n) ==> n as nat == sv)
        },
{
    if on {
        let w = skip_ws(v, q);
        proof {
            reveal_strlit("on");
        }
        if w > q && kw_match(v, w, "on") {
            let vl = v.len();
            proof {
                assert("on"@.len() == 2);
                assert(w + 2 <= vl);
            }
            hash_num(v, w + 2)
        } else {
            None
        }
    } else {
        hash_num(v, q)
    }
}

/// Executable form of `match_phrase_at`; `kw` must be given in lowercase.
fn phrase_at(v: &Vec<char>, kw: &str, has_s: bool, on: bool, p: usize) -> (r: Option<
    (Option<u32>, usize),
>)
    requires
        p <= v@.len(),
    ensures
        r is Some <==> match_phrase_at(v@, kw@, has_s, on, p as int) is Some,
        r matches Some(pr) ==> {
            let (sv, se) = match_phrase_at(v@, kw@, has_s, on, p as int).unwrap();
            &&& pr.1 as int == se
            &&& p < pr.1 <= v@.len()
            &&& (pr.0 is Some <==> sv <= u32::MAX)
            &&& (pr.0 matches Some(n) ==> n as nat == sv)
        },
{
    if !kw_match(v, p, kw) {
        return None;
    }
    let vl = v.len();
    let n = kw.unicode_len();
    proof {
        assert(p + n <= vl);
    }
    let q0 = p + n;
    if has_s && q0 < v.len() && eqi_char(v[q0], 's') {
        let with_s = tail(v, q0 + 1, on);
        if with_s.is_some() {
            return with_s;
        }
    }
    tail(v, q0, on)
}

/// Executable scan for one phrase form over the whole text.
fn scan(v: &Vec<char>, kw: &str, has_s: bool, on: bool) -> (r: Vec<u32>)
    ensures
        r@ == scan_phrase(v@, kw@, has_s, on, 0),
{
    let mut out: Vec<u32> = Vec::new();
    let mut p: usize = 0;
    while p < v.len()
        invariant
            p <= v@.len(),
            scan_phrase(v@, kw@, has_s, on, 0) == out@ + scan_phrase(v@, kw@, has_s, on, p as int),
        decreases v@.len() - p,
    {
        let ghost prev = p as int;
        let ghost out0 = out@;
        match phrase_at(v, kw, has_s, on, p) {
            Some((vo, end)) => {
                let np = if end > p {
                    end
                } else {
                    p + 1
                };
                if let Some(n) = vo {
                    out.push(n);
                }
                proof {
                    if vo is Some {
                        assert(scan_phrase(v@, kw@, has_s, on, prev) == seq![vo.unwrap()]
                            + scan_phrase(v@, kw@, has_s, on, np as int));
                    } else {
                        assert(scan_phrase(v@, kw@, has_s, on, prev) == scan_phrase(
                            v@,
                            kw@,
                            has_s,
                            on,
                            np as int,
                        ));
                    }
                    assert(out0 + scan_phrase(v@, kw@, has_s, on, prev) =~= out@ + scan_phrase(
                        v@,
                        kw@,
                        has_s,
                        on,
                        np as int,
                    ));
                }
                p = np;
            },
            None => {
                p = p + 1;
            },
        }
    }
    out
}

/// The dependency numbers referenced by the free-text phrases of `body`:
/// "depends on #N", "based on #N", "stacked on #N", "build(s) on #N",
/// "require(s) #N" and "follow(s) #N", case-insensitively.
pub fn extract_dependencies(body: &str) -> (r: Vec<u32>)
    ensures
        r@ == spec_extract_deps(body@),
{
    let v = to_chars(body);
    let mut r = scan(&v, "depends", false, true);
    let mut r2 = scan(&v, "based", false, true);
    r.append(&mut r2);
    let mut r3 = scan(&v, "stacked", false, true);
    r.append(&mut r3);
    let mut r4 = scan(&v, "build", true, true);
    r.append(&mut r4);
    let mut r5 = scan(&v, "require", true, false);
    r.append(&mut r5);
    let mut r6 = scan(&v, "follow", true, false);
    r.append(&mut r6);
    r
}

/// Two characters are the same up to ASCII letter case.
pub open spec fn case_eq(a: char, b: char) -> bool {
    let au = a as u32;
    let bu = b as u32;
    au == bu || (65 <= au <= 90 && au + 32 == bu) || (65 <= bu <= 90 && bu + 32 == au)
}

/// Two texts are the same up to ASCII letter case.
pub open spec fn case_equiv(s: Seq<char>, t: Seq<char>) -> bool {
    s.len() == t.len() && forall|i: int| 0 <= i < s.len() ==> case_eq(s[i], t[i])
}

/// A pattern without uppercase ASCII letters (and without characters beyond
/// ASCII), as every phrase keyword is.
pub open spec fn caseless(kw: Seq<char>) -> bool {
    forall|k: int|
        0 <= k < kw.len() ==> ((#[trigger] kw[k]) as u32) < 123 && !(65 <= kw[k] as u32 <= 90)
}

/// Maximal whitespace and digit runs agree on case-equivalent texts.
proof fn lemma_runs_ceq(s: Seq<char>, t: Seq<char>, p: int)
    requires
        case_equiv(s, t),
    ensures
        ws_run_end(s, p) == ws_run_end(t, p),
        digit_run_end(s, p) == digit_run_end(t, p),
    decreases s.len() - p,
{
    if 0 <= p && p < s.len() {
        lemma_runs_ceq(s, t, p + 1);
        assert(case_eq(s[p], t[p]));
    }
}

/// A digit run denotes the same number on case-equivalent texts.
proof fn lemma_digits_val_ceq(s: Seq<char>, t: Seq<char>, p: int, e: int)
    requires
        case_equiv(s, t),
        0 <= p,
        e <= s.len(),
        forall|k: int| p <= k < e ==> #[trigger] is_digit(s[k]),
    ensures
        digits_val(s, p, e) == digits_val(t, p, e),
    decreases e - p,
{
    if e > p {
        lemma_digits_val_ceq(s, t, p, e - 1);
        assert(case_eq(s[e - 1], t[e - 1]));
        assert(is_digit(s[e - 1]));
        assert(s[e - 1] as u32 == t[e - 1] as u32);
    }
}

/// A caseless keyword matches at the same positions of case-equivalent
/// texts.
proof fn lemma_kw_at_ceq(s: Seq<char>, t: Seq<char>, kw: Seq<char>, p: int)
    requires
        case_equiv(s, t),
        caseless(kw),
    ensures
        kw_at(s, p, kw) == kw_at(t, p, kw),
{
    if 0 <= p && p + kw.len() <= s.len() {
        if kw_at(s, p, kw) {
            assert forall|k: int| 0 <= k < kw.len() implies #[trigger] eqi(t[p + k], kw[k]) by {
                assert(eqi(s[p + k], kw[k]));
                assert(case_eq(s[p + k], t[p + k]));
                assert((kw[k] as u32) < 123 && !(65 <= kw[k] as u32 <= 90));
            }
        }
        if kw_at(t, p, kw) {
            assert forall|k: int| 0 <= k < kw.len() implies #[trigger] eqi(s[p + k], kw[k]) by {
                assert(eqi(t[p + k], kw[k]));
                assert(case_eq(s[p + k], t[p + k]));
                assert((kw[k] as u32) < 123 && !(65 <= kw[k] as u32 <= 90));
            }
        }
    }
}

/// The number-tail of a phrase agrees on case-equivalent texts.
proof fn lemma_hash_num_ceq(s: Seq<char>, t: Seq<char>, q: int)
    requires
        case_equiv(s, t),
    ensures
        match_hash_num(s, q) == match_hash_num(t, q),
{
    lemma_runs_ceq(s, t, q);
    let w = ws_run_end(s, q);
    if w > q && w < s.len() {
        assert(case_eq(s[w], t[w]));
        assert((s[w] as u32 == 35) == (t[w] as u32 == 35));
        if s[w] as u32 == 35 {
            lemma_runs_ceq(s, t, w + 1);
            let de = digit_run_end(s, w + 1);
            if de > w + 1 {
                lemma_digit_run_chars(s, w + 1);
                crate::text::lemma_digit_run_le(s, w + 1);
                lemma_digits_val_ceq(s, t, w + 1, de);
            }
        }
    }
}

/// The whole tail after a keyword agrees on case-equivalent texts.
proof fn lemma_tail_ceq(s: Seq<char>, t: Seq<char>, q: int, on: bool)
    requires
        case_equiv(s, t),
    ensures
        match_tail(s, q, on) == match_tail(t, q, on),
{
    reveal_strlit("on");
    if on {
        lemma_runs_ceq(s, t, q);
        let w = ws_run_end(s, q);
        lemma_kw_at_ceq(s, t, "on"@, w);
        if w > q && kw_at(s, w, "on"@) {
            lemma_hash_num_ceq(s, t, w + 2);
        }
    } else {
        lemma_hash_num_ceq(s, t, q);
    }
}

/// A whole phrase match agrees on case-equivalent texts.
proof fn lemma_phrase_ceq(
    s: Seq<char>,
    t: Seq<char>,
    kw: Seq<char>,
    has_s: bool,
    on: bool,
    p: int,
)
    requires
        case_equiv(s, t),
        caseless(kw),
    ensures
        match_phrase_at(s, kw, has_s, on, p) == match_phrase_at(t, kw, has_s, on, p),
{
    lemma_kw_at_ceq(s, t, kw, p);
    if kw_at(s, p, kw) {
        let q0 = p + kw.len();
        if has_s && q0 < s.len() {
            assert(case_eq(s[q0], t[q0]));
            assert(eqi(s[q0], 's') == eqi(t[q0], 's'));
        }
        if has_s && q0 < s.len() && eqi(s[q0], 's') {
            lemma_tail_ceq(s, t, q0 + 1, on);
        }
        lemma_tail_ceq(s, t, q0, on);
    }
}

/// A whole scan agrees on case-equivalent texts.
proof fn lemma_scan_ceq(s: Seq<char>, t: Seq<char>, kw: Seq<char>, has_s: bool, on: bool, p: int)
    requires
        case_equiv(s, t),
        caseless(kw),
    ensures
        scan_phrase(s, kw, has_s, on, p) == scan_phrase(t, kw, has_s, on, p),
    decreases s.len() - p,
{
    if 0 <= p < s.len() {
        lemma_phrase_ceq(s, t, kw, has_s, on, p);
        match match_phrase_at(s, kw, has_s, on, p) {
            Some((v, end)) => {
                let np = if p < end <= s.len() {
                    end
                } else {
                    p + 1
                };
                lemma_scan_ceq(s, t, kw, has_s, on, np);
            },
            None => {
                lemma_scan_ceq(s, t, kw, has_s, on, p + 1);
            },
        }
    }
}

/// Dependency-phrase extraction is case-insensitive: two bodies that differ
/// only in ASCII letter case yield the same numbers, in the same order.
pub proof fn lemma_extract_deps_case_insensitive(s: Seq<char>, t: Seq<char>)
    requires
        case_equiv(s, t),
    ensures
        spec_extract_deps(s) == spec_extract_deps(t),
{
    reveal_strlit("depends");
    reveal_strlit("based");
    reveal_strlit("stacked");
    reveal_strlit("build");
    reveal_strlit("require");
    reveal_strlit("follow");
    assert(caseless("depends"@));
    assert(caseless("based"@));
    assert(caseless("stacked"@));
    assert(caseless("build"@));
    assert(caseless("require"@));
    assert(caseless("follow"@));
    lemma_scan_ceq(s, t, "depends"@, false, true, 0);
    lemma_scan_ceq(s, t, "based"@, false, true, 0);
    lemma_scan_ceq(s, t, "stacked"@, false, true, 0);
    lemma_scan_ceq(s, t, "build"@, true, true, 0);
    lemma_scan_ceq(s, t, "require"@, true, false, 0);
    lemma_scan_ceq(s, t, "follow"@, true, false, 0);
}

/// The line `[p, e)` declares the stack section: once trailing whitespace is
/// discarded it ends, case-insensitively, with "stack:".
pub open spec fn is_header_line(s: Seq<char>, p: int, e: int) -> bool {
    let t = trim_end_ws(s, p, e);
    t - p >= 6 && kw_at(s, t - 6, "stack:"@)
}

/// Position of the first line after the first terminated header line of the
/// text at or after `p`, if any.
pub open spec fn find_header(s: Seq<char>, p: int) -> Option<int>
    decreases s.len() - p,
    via find_header_dec
{
    if p < 0 || p >= s.len() {
        None
    } else {
        let e = line_end(s, p);
        if e < s.len() && is_header_line(s, p, e) {
            Some(e + 1)
        } else if e < s.len() {
            find_header(s, e + 1)
        } else {
            None
        }
    }
}

#[via_fn]
proof fn find_header_dec(s: Seq<char>, p: int) {
    if 0 <= p && p < s.len() {
        lemma_line_end_bounds(s, p);
    }
}

/// Position of the `#` of a list line `- #N ...` within `[p, e)`, if the
/// line has that shape.
pub open spec fn item_hash_pos(s: Seq<char>, p: int, e: int) -> Option<int> {
    let q = ws_run_end_before(s, p, e);
    if q < e && s[q] as u32 == 45 {
        let q2 = ws_run_end_before(s, q + 1, e);
        if q2 < e && s[q2] as u32 == 35 && digit_run_end(s, q2 + 1) > q2 + 1 {
            Some(q2)
        } else {
            None
        }
    } else {
        None
    }
}

/// Numbers of the list lines from line start `p` on: whitespace-only lines
/// are skipped, the section ends at the first line of any other shape, and a
/// number too large for 32 bits is skipped.
pub open spec fn collect_items(s: Seq<char>, p: int) -> Seq<u32>
    decreases s.len() - p,
    via collect_items_dec
{
    if p < 0 || p >= s.len() {
        seq![]
    } else {
        let e = line_end(s, p);
        if ws_run_end_before(s, p, e) == e {
            if e < s.len() {
                collect_items(s, e + 1)
            } else {
                seq![]
            }
        } else {
            match item_hash_pos(s, p, e) {
                Some(q2) => {
                    let de = digit_run_end(s, q2 + 1);
                    let rest = if e < s.len() {
                        collect_items(s, e + 1)
                    } else {
                        seq![]
                    };
                    let val = digits_val(s, q2 + 1, de);
                    if val <= u32::MAX {
                        seq![val as u32] + rest
                    } else {
                        rest
                    }
                },
                None => seq![],
            }
        }
    }
}

#[via_fn]
proof fn collect_items_dec(s: Seq<char>, p: int) {
    if 0 <= p && p < s.len() {
        lemma_line_end_bounds(s, p);
    }
}

/// The declared stack of a body: the numbers listed under its first "stack:"
/// header line, provided more than one list entry was found.
pub open spec fn spec_stack_info(s: Seq<char>) -> Option<Seq<u32>> {
    match find_header(s, 0) {
        None => None,
        Some(p) => {
            let items = collect_items(s, p);
            if items.len() > 1 {
                Some(items)
            } else {
                None
            }
        },
    }
}

/// Executable search for the line after the first header line.
fn header_start(v: &Vec<char>) -> (r: Option<usize>)
    ensures
        r is Some <==> find_header(v@, 0) is Some,
        r matches Some(h) ==> h as int == find_header(v@, 0).unwrap() && h <= v@.len(),
{
    let vl = v.len();
    let mut p: usize = 0;
    while p < vl
        invariant
            p <= vl == v@.len(),
            find_header(v@, 0) == find_header(v@, p as int),
        decreases vl - p,
    {
        let e = crate::text::find_line_end(v, p);
        let t = trim_end(v, p, e);
        proof {
            reveal_strlit("stack:");
        }
        if e < vl && t - p >= 6 && kw_match(v, t - 6, "stack:") {
            return Some(e + 1);
        }
        if e >= vl {
            return None;
        }
        p = e + 1;
    }
    None
}

/// Executable collection of the list-line numbers from `start` on.
fn collect_items_exec(v: &Vec<char>, start: usize) -> (r: Vec<u32>)
    requires
        start <= v@.len(),
    ensures
        r@ == collect_items(v@, start as int),
{
    let vl = v.len();
    let mut out: Vec<u32> = Vec::new();
    let mut p = start;
    while p < vl
        invariant
            p <= vl == v@.len(),
            collect_items(v@, start as int) == out@ + collect_items(v@, p as int),
        decreases vl - p,
    {
        let ghost prev = p as int;
        let ghost out0 = out@;
        let e = crate::text::find_line_end(v, p);
        let q = skip_ws_before(v, p, e);
        if q == e {
            if e < vl {
                p = e + 1;
            } else {
                proof {
                    assert(out0 + collect_items(v@, prev) =~= out@);
                }
                return out;
            }
        } else if (v[q] as u32) == 45 {
            let q2 = skip_ws_before(v, q + 1, e);
            if q2 < e && (v[q2] as u32) == 35 {
                let de = skip_digits(v, q2 + 1);
                if de > q2 + 1 {
                    proof {
                        lemma_digit_run_chars(v@, q2 + 1);
                    }
                    if let Some(n) = parse_digits(v, q2 + 1, de) {
                        out.push(n);
                    }
                    if e < vl {
                        proof {
                            assert(out0 + collect_items(v@, prev) =~= out@ + collect_items(
                                v@,
                                e + 1,
                            ));
                        }
                        p = e + 1;
                    } else {
                        proof {
                            assert(out0 + collect_items(v@, prev) =~= out@);
                        }
                        return out;
                    }
                } else {
                    proof {
                        assert(out0 + collect_items(v@, prev) =~= out@);
                    }
                    return out;
                }
            } else {
                proof {
                    assert(out0 + collect_items(v@, prev) =~= out@);
                }
                return out;
            }
        } else {
            proof {
                assert(out0 + collect_items(v@, prev) =~= out@);
            }
            return out;
        }
    }
    proof {
        assert(out@ + collect_items(v@, p as int) =~= out@);
    }
    out
}

/// The declared stack of `body`: the ordered numbers listed under its first
/// "stack:" header line, or `None` when no header is found or at most one
/// list entry follows it.
pub fn extract_stack_info(body: &str) -> (r: Option<Vec<u32>>)
    ensures
        r is Some <==> spec_stack_info(body@) is Some,
        r matches Some(items) ==> items@ == spec_stack_info(body@).unwrap(),
{
    let v = to_chars(body);
    match header_start(&v) {
        None => None,
        Some(h) => {
            let items = collect_items_exec(&v, h);
            if items.len() > 1 {
                Some(items)
            } else {
                None
            }
        },
    }
}

} // verus!
