//! Request parameters: the query text, whether link data is wanted, and how
//! many results to return.

use crate::text::chars_of;
use vstd::prelude::*;

verus! {

/// Results returned when the request does not say how many.
pub const DEFAULT_RESULTS: usize = 100;

pub open spec fn is_digit(c: char) -> bool {
    '0' <= c && c <= '9'
}

/// Value of a sequence of decimal digits.
pub open spec fn digits_value(s: Seq<char>) -> nat
    decreases s.len(),
{
    if s.len() == 0 {
        0
    } else {
        digits_value(s.drop_last()) * 10 + (s.last() as u32 - '0' as u32) as nat
    }
}

/// The unsigned integer written in `s`, as `usize::from_str` reads it: an
/// optional `+`, then one or more decimal digits, with a value that fits.
pub open spec fn parse_usize_spec(s: Seq<char>) -> Option<usize> {
    let d = unsigned_part(s);
    if d.len() > 0 && all_digits(d) && digits_value(d) <= usize::MAX {
        Some(digits_value(d) as usize)
    } else {
        None
    }
}

/// `s` without one leading `+`.
pub open spec fn unsigned_part(s: Seq<char>) -> Seq<char> {
    if s.len() > 0 && s[0] == '+' {
        s.drop_first()
    } else {
        s
    }
}

pub open spec fn all_digits(d: Seq<char>) -> bool {
    forall|i: int| 0 <= i < d.len() ==> is_digit(#[trigger] d[i])
}

proof fn lemma_digits_value_grows(s: Seq<char>, i: int)
    requires
        0 <= i <= s.len(),
        forall|j: int| 0 <= j < s.len() ==> is_digit(#[trigger] s[j]),
    ensures
        digits_value(s.take(i)) <= digits_value(s),
    decreases s.len() - i,
{
    if i < s.len() {
        lemma_digits_value_grows(s, i + 1);
        assert(s.take(i + 1).drop_last() == s.take(i));
    } else {
        assert(s.take(i) == s);
    }
}

/// Reads an unsigned decimal integer the way `usize::from_str` does.
pub fn parse_usize(s: &str) -> (r: Option<usize>)
    ensures
        r == parse_usize_spec(s@),
{
    let cs = chars_of(s);
    let start: usize = if cs.len() > 0 && cs[0] == '+' { 1 } else { 0 };
    let ghost d = if cs@.len() > 0 && cs@[0] == '+' { cs@.drop_first() } else { cs@ };
    assert(d == cs@.subrange(start as int, cs@.len() as int));
    if start >= cs.len() {
        return None;
    }
    let mut v: usize = 0;
    let mut i: usize = start;
    while i < cs.len()
        invariant
            start <= i <= cs@.len(),
            cs@ == s@,
            d == unsigned_part(s@),
            d == cs@.subrange(start as int, cs@.len() as int),
            forall|j: int| 0 <= j < i - start ==> is_digit(#[trigger] d[j]),
            v == digits_value(d.take(i - start)),
        decreases cs@.len() - i,
    {
        let c = cs[i];
        if !('0' <= c && c <= '9') {
            proof {
                assert(d[i - start] == c);
                assert(!is_digit(d[i - start]));
                assert(!all_digits(d));
            }
            return None;
        }
        let digit = (c as u32 - '0' as u32) as usize;
        proof {
            assert(d.take(i - start + 1).drop_last() == d.take(i - start));
            assert(d[i - start] == c);
        }
        if v > (usize::MAX - digit) / 10 {
            proof {
                assert(digits_value(d.take(i - start + 1)) > usize::MAX) by (nonlinear_arith)
                    requires
                        digits_value(d.take(i - start + 1)) == v * 10 + digit,
                        v > (usize::MAX - digit) / 10,
                        digit <= 9,
                ;
                if all_digits(d) {
                    lemma_digits_value_grows(d, i - start + 1);
                }
            }
            return None;
        }
        v = v * 10 + digit;
        i = i + 1;
    }
    assert(d.take(d.len() as int) == d);
    Some(v)
}

/// The flag text that turns link data on.
pub open spec fn true_text() -> Seq<char> {
    seq!['t', 'r', 'u', 'e']
}

fn is_true_text(v: &String) -> (r: bool)
    ensures
        r == (v@ == true_text()),
{
    let cs = chars_of(v.as_str());
    let r = cs.len() == 4 && cs[0] == 't' && cs[1] == 'r' && cs[2] == 'u' && cs[3] == 'e';
    if cs.len() == 4 {
        assert(r ==> cs@ =~= true_text());
    }
    r
}

/// Results asked for by the `results` parameter: its value when it reads as
/// an unsigned integer, `DEFAULT_RESULTS` otherwise.
pub open spec fn requested_results(results: Option<String>) -> usize {
    match results {
        Some(v) => match parse_usize_spec(v@) {
            Some(k) => k,
            None => DEFAULT_RESULTS,
        },
        None => DEFAULT_RESULTS,
    }
}

/// The query text, whether link data is wanted (`links` is exactly
/// `true`), and the number of results: the requested number capped at
/// `max_results`. `None` when the query text is missing.
pub fn extract_query_params(
    query: Option<String>,
    links: Option<String>,
    results: Option<String>,
    max_results: usize,
) -> (r: Option<(String, bool, usize)>)
    ensures
        query is None <==> r is None,
        r matches Some((q, l, n)) ==> {
            &&& q == query->0
            &&& l == (links matches Some(v) && v@ == true_text())
            &&& n == if requested_results(results) <= max_results {
                requested_results(results)
            } else {
                max_results
            }
        },
{
    let q = match query {
        Some(q) => q,
        None => {
            return None;
        },
    };
    let include_links = match &links {
        Some(v) => is_true_text(v),
        None => false,
    };
    let requested = match &results {
        Some(v) => match parse_usize(v.as_str()) {
            Some(k) => k,
            None => DEFAULT_RESULTS,
        },
        None => DEFAULT_RESULTS,
    };
    let n = if requested <= max_results { requested } else { max_results };
    Some((q, include_links, n))
}

} // verus!
