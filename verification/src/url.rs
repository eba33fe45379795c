//! Parsing of a review-request URL of the shape
//! `.../<owner>/<repo>/pull/<number>`.

use vstd::prelude::*;
use vstd::string::*;
use crate::extract::kw_at_exact;
use crate::text::{
    digit_run_end, digits_val, lemma_digit_run_chars, parse_digits, skip_digits, to_chars,
};

verus! {

/// End of the maximal run of characters other than `/` starting at `p`.
pub open spec fn nonslash_run_end(s: Seq<char>, p: int) -> int
    decreases s.len() - p,
{
    if p < s.len() && 0 <= p && s[p] as u32 != 47 {
        nonslash_run_end(s, p + 1)
    } else {
        p
    }
}

/// A URL fragment `github.com/<owner>/<repo>/pull/<digits>` starting at `p`:
/// yields the end of the owner segment, the end of the repository segment,
/// and the number the digits denote.
pub open spec fn match_url_at(s: Seq<char>, p: int) -> Option<(int, int, nat)> {
    if kw_at_exact(s, p, "github.com/"@) {
        let oe = nonslash_run_end(s, p + 11);
        if oe > p + 11 && oe < s.len() {
            let re = nonslash_run_end(s, oe + 1);
            if re > oe + 1 && kw_at_exact(s, re, "/pull/"@) {
                let de = digit_run_end(s, re + 6);
                if de > re + 6 {
                    Some((oe, re, digits_val(s, re + 6, de)))
                } else {
                    None
                }
            } else {
                None
            }
        } else {
            None
        }
    } else {
        None
    }
}

/// The first position at or after `p` where a URL fragment matches, with the
/// match's parts.
pub open spec fn find_url(s: Seq<char>, p: int) -> Option<(int, int, int, nat)>
    decreases s.len() - p,
{
    if p < 0 || p >= s.len() {
        None
    } else {
        match match_url_at(s, p) {
            Some((oe, re, n)) => Some((p, oe, re, n)),
            None => find_url(s, p + 1),
        }
    }
}

/// The owner, repository and request number denoted by the first URL
/// fragment of `s`, if any.
pub open spec fn spec_parse_url(s: Seq<char>) -> Option<(Seq<char>, Seq<char>, nat)> {
    match find_url(s, 0) {
        None => None,
        Some((p, oe, re, n)) => Some((s.subrange(p + 11, oe), s.subrange(oe + 1, re), n)),
    }
}

/// Executable search for the end of the maximal run without `/`.
fn skip_nonslash(v: &Vec<char>, p: usize) -> (q: usize)
    requires
        p <= v@.len(),
    ensures
        q == nonslash_run_end(v@, p as int),
        p <= q <= v@.len(),
{
    let mut q = p;
    while q < v.len() && (v[q] as u32) != 47
        invariant
            p <= q <= v@.len(),
            nonslash_run_end(v@, p as int) == nonslash_run_end(v@, q as int),
        decreases v@.len() - q,
    {
        q = q + 1;
    }
    q
}

/// Executable match of a URL fragment at `p`; the inner option is the
/// request number, absent exactly when it does not fit in 32 bits.
fn url_at(v: &Vec<char>, p: usize) -> (r: Option<(usize, usize, Option<u32>)>)
    requires
        p <= v@.len(),
    ensures
        r is Some <==> match_url_at(v@, p as int) is Some,
        r matches Some(t) ==> {
            let (oe, re, n) = match_url_at(v@, p as int).unwrap();
            &&& t.0 as int == oe
            &&& t.1 as int == re
            &&& p + 11 < t.0 < t.1 <= v@.len()
            &&& (t.2 is Some <==> n <= u32::MAX)
            &&& (t.2 matches Some(m) ==> m as nat == n)
        },
{
    proof {
        reveal_strlit("github.com/");
        reveal_strlit("/pull/");
    }
    if !crate::extract::kw_match_exact(v, p, "github.com/") {
        return None;
    }
    let vl = v.len();
    proof {
        assert(p + 11 <= vl);
    }
    let oe = skip_nonslash(v, p + 11);
    if oe > p + 11 && oe < v.len() {
        let re = skip_nonslash(v, oe + 1);
        if re > oe + 1 && crate::extract::kw_match_exact(v, re, "/pull/") {
            let de = skip_digits(v, re + 6);
            if de > re + 6 {
                proof {
                    lemma_digit_run_chars(v@, re + 6);
                }
                let val = parse_digits(v, re + 6, de);
                return Some((oe, re, val));
            }
        }
    }
    None
}

/// The owner, repository and request number of the first fragment
/// `github.com/<owner>/<repo>/pull/<digits>` of `url`; `None` when no
/// fragment matches or the number does not fit in 32 bits.
pub fn parse_github_url(url: &str) -> (r: Option<(String, String, u32)>)
    ensures
        r is Some <==> (spec_parse_url(url@) matches Some(t) && t.2 <= u32::MAX),
        r matches Some(t) ==> {
            let (so, sr, sn) = spec_parse_url(url@).unwrap();
            &&& t.0@ == so
            &&& t.1@ == sr
            &&& t.2 as nat == sn
        },
{
    let v = to_chars(url);
    let vl = v.len();
    let mut p: usize = 0;
    while p < vl
        invariant
            p <= vl == v@.len(),
            v@ == url@,
            find_url(v@, 0) == find_url(v@, p as int),
        decreases vl - p,
    {
        match url_at(&v, p) {
            Some((oe, re, vo)) => {
                match vo {
                    Some(n) => {
                        let owner = url.substring_char(p + 11, oe).to_owned();
                        let repo = url.substring_char(oe + 1, re).to_owned();
                        return Some((owner, repo, n));
                    },
                    None => {
                        return None;
                    },
                }
            },
            None => {
                p = p + 1;
            },
        }
    }
    None
}

} // verus!
