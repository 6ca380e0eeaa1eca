//! Quote-aware scanning of a gron line: where the assignment is split, where the value
//! ends, and trimming of whitespace.
use vstd::prelude::*;
use vstd::string::*;

use crate::chars::{is_white_space, is_whitespace};
use crate::error::GronError;
use crate::text::str_chars;

verus! {

/// Where a left-to-right scan stands with respect to quoted strings: inside a string
/// opened by `delim`, and whether the previous character was an unconsumed backslash.
pub struct QuoteState {
    pub delim: Option<char>,
    pub escaped: bool,
}

pub open spec fn start_state() -> QuoteState {
    QuoteState { delim: None, escaped: false }
}

/// One step of the scan: outside a string a `"` or `'` opens one; inside, a backslash
/// escapes the next character and the opening quote, unescaped, closes it.
pub open spec fn quote_step(st: QuoteState, c: char) -> QuoteState {
    match st.delim {
        Some(d) => if st.escaped {
            QuoteState { delim: Some(d), escaped: false }
        } else if c == '\\' {
            QuoteState { delim: Some(d), escaped: true }
        } else if c == d {
            QuoteState { delim: None, escaped: false }
        } else {
            st
        },
        None => if c == '"' || c == '\'' {
            QuoteState { delim: Some(c), escaped: false }
        } else {
            st
        },
    }
}

/// The state of the scan before `s[i]`, that is after `s[0..i]`.
pub open spec fn quote_state(s: Seq<char>, i: int) -> QuoteState
    decreases i,
{
    if i <= 0 {
        start_state()
    } else {
        quote_step(quote_state(s, i - 1), s[i - 1])
    }
}

/// `s[i]` stands outside every quoted string.
pub open spec fn outside_quotes(s: Seq<char>, i: int) -> bool {
    quote_state(s, i).delim is None
}

/// `s[i]` is an `=` outside quotes.
pub open spec fn is_assignment_at(s: Seq<char>, i: int) -> bool {
    0 <= i < s.len() && s[i] == '=' && outside_quotes(s, i)
}

/// The index of the first `=` outside quotes, if there is one.
pub open spec fn assignment_index(s: Seq<char>) -> Option<int> {
    if exists|i: int| is_assignment_at(s, i) {
        Some(
            choose|i: int|
                is_assignment_at(s, i) && forall|j: int| 0 <= j < i ==> !is_assignment_at(s, j),
        )
    } else {
        None
    }
}

/// `s[i]` is a `;` outside quotes.
pub open spec fn is_semicolon_at(s: Seq<char>, i: int) -> bool {
    0 <= i < s.len() && s[i] == ';' && outside_quotes(s, i)
}

/// The index of the last `;` outside quotes among `s[0..n]`.
pub open spec fn last_semicolon(s: Seq<char>, n: int) -> Option<int>
    decreases n,
{
    if n <= 0 {
        None
    } else if is_semicolon_at(s, n - 1) {
        Some(n - 1)
    } else {
        last_semicolon(s, n - 1)
    }
}

/// `s[k]` is a character outside quotes, other than a quote, a `;` or whitespace, that
/// follows a `;` outside quotes: the value does not end at that `;`.
pub open spec fn is_after_semicolon(s: Seq<char>, k: int) -> bool {
    &&& 0 <= k < s.len()
    &&& outside_quotes(s, k)
    &&& s[k] != '"' && s[k] != '\'' && s[k] != ';'
    &&& !is_white_space(s[k])
    &&& last_semicolon(s, k) is Some
}

/// Where the value of `s` ends: at its last `;` outside quotes, provided that no other
/// character but whitespace and quoted text follows a `;` outside quotes.
pub open spec fn semicolon_end(s: Seq<char>) -> Option<int> {
    if exists|k: int| is_after_semicolon(s, k) {
        None
    } else {
        last_semicolon(s, s.len() as int)
    }
}

/// `s` without its leading whitespace.
pub open spec fn trim_start(s: Seq<char>) -> Seq<char>
    decreases s.len(),
{
    if s.len() > 0 && is_white_space(s[0]) {
        trim_start(s.drop_first())
    } else {
        s
    }
}

/// `s` without its trailing whitespace.
pub open spec fn trim_end(s: Seq<char>) -> Seq<char>
    decreases s.len(),
{
    if s.len() > 0 && is_white_space(s.last()) {
        trim_end(s.drop_last())
    } else {
        s
    }
}

/// `s` without leading and trailing whitespace, as `str::trim` gives it.
pub open spec fn trim(s: Seq<char>) -> Seq<char> {
    trim_end(trim_start(s))
}

fn next_quote_state(st: &QuoteState, c: char) -> (r: QuoteState)
    ensures
        r == quote_step(*st, c),
{
    match st.delim {
        Some(d) => if st.escaped {
            QuoteState { delim: Some(d), escaped: false }
        } else if c == '\\' {
            QuoteState { delim: Some(d), escaped: true }
        } else if c == d {
            QuoteState { delim: None, escaped: false }
        } else {
            QuoteState { delim: Some(d), escaped: st.escaped }
        },
        None => if c == '"' || c == '\'' {
            QuoteState { delim: Some(c), escaped: false }
        } else {
            QuoteState { delim: None, escaped: st.escaped }
        },
    }
}

/// The index of the first `=` outside quotes in `s`.
pub fn find_assignment(s: &Vec<char>) -> (r: Option<usize>)
    ensures
        r matches Some(i) ==> assignment_index(s@) == Some(i as int) && i < s@.len(),
        r is None ==> assignment_index(s@) is None,
{
    let mut st = QuoteState { delim: None, escaped: false };
    let mut i: usize = 0;
    while i < s.len()
        invariant
            i <= s@.len(),
            st == quote_state(s@, i as int),
            forall|j: int| 0 <= j < i ==> !is_assignment_at(s@, j),
        decreases s@.len() - i,
    {
        let c = s[i];
        if st.delim.is_none() && c == '=' {
            assert(is_assignment_at(s@, i as int));
            let ghost k = choose|k: int|
                is_assignment_at(s@, k) && forall|j: int| 0 <= j < k ==> !is_assignment_at(s@, j);
            assert(k == i) by {
                if k < i {
                } else if k > i {
                    assert(!is_assignment_at(s@, i as int));
                }
            }
            return Some(i);
        }
        st = next_quote_state(&st, c);
        i = i + 1;
    }
    assert(forall|j: int| !is_assignment_at(s@, j));
    None
}

/// Splits a line at its first `=` outside quotes into the text before and the text
/// after it; fails where there is no such `=`.
pub fn split_assignment(line: &str) -> (r: Result<(&str, &str), GronError>)
    ensures
        match r {
            Ok((left, right)) => assignment_index(line@) matches Some(i) && left@ == line@.take(i)
                && right@ == line@.skip(i + 1),
            Err(e) => assignment_index(line@) is None && e == GronError::MissingAssignment,
        },
{
    let chars = str_chars(line);
    match find_assignment(&chars) {
        Some(i) => {
            let n = chars.len();
            let left = line.substring_char(0, i);
            let right = line.substring_char(i + 1, n);
            Ok((left, right))
        },
        None => Err(GronError::MissingAssignment),
    }
}

/// Where the value of `s` ends, by `semicolon_end`.
pub fn find_semicolon_end(s: &Vec<char>) -> (r: Option<usize>)
    ensures
        r matches Some(i) ==> semicolon_end(s@) == Some(i as int) && i < s@.len(),
        r is None ==> semicolon_end(s@) is None,
{
    let mut st = QuoteState { delim: None, escaped: false };
    let mut semicolon: Option<usize> = None;
    let mut i: usize = 0;
    while i < s.len()
        invariant
            i <= s@.len(),
            st == quote_state(s@, i as int),
            semicolon matches Some(j) ==> last_semicolon(s@, i as int) == Some(j as int) && j < i,
            semicolon is None ==> last_semicolon(s@, i as int) is None,
            forall|k: int| 0 <= k < i ==> !is_after_semicolon(s@, k),
        decreases s@.len() - i,
    {
        let c = s[i];
        if st.delim.is_none() {
            if c == '"' || c == '\'' {
            } else if c == ';' {
                semicolon = Some(i);
            } else if !is_whitespace(c) && semicolon.is_some() {
                assert(is_after_semicolon(s@, i as int));
                return None;
            }
        }
        st = next_quote_state(&st, c);
        i = i + 1;
    }
    assert(!exists|k: int| is_after_semicolon(s@, k));
    semicolon
}

/// The value part of an assignment's right side: the text before its terminating `;`,
/// or `None` where the line does not end with a `;` outside quotes.
pub fn strip_trailing_semicolon(right: &str) -> (r: Option<&str>)
    ensures
        match r {
            Some(v) => semicolon_end(right@) matches Some(i) && v@ == right@.take(i),
            None => semicolon_end(right@) is None,
        },
{
    let chars = str_chars(right);
    match find_semicolon_end(&chars) {
        Some(i) => Some(right.substring_char(0, i)),
        None => None,
    }
}

/// The range of `v[lo..hi]` that remains after trimming whitespace from both ends.
pub fn trim_range(v: &Vec<char>, lo: usize, hi: usize) -> (r: (usize, usize))
    requires
        lo <= hi <= v@.len(),
    ensures
        lo <= r.0 <= r.1 <= hi,
        v@.subrange(r.0 as int, r.1 as int) == trim(v@.subrange(lo as int, hi as int)),
{
    let mut a = lo;
    while a < hi && is_whitespace(v[a])
        invariant
            lo <= a <= hi <= v@.len(),
            trim_start(v@.subrange(lo as int, hi as int)) == trim_start(
                v@.subrange(a as int, hi as int),
            ),
        decreases hi - a,
    {
        assert(v@.subrange(a as int, hi as int).drop_first() =~= v@.subrange(a + 1, hi as int));
        a = a + 1;
    }
    assert(trim_start(v@.subrange(a as int, hi as int)) == v@.subrange(a as int, hi as int));
    let mut b = hi;
    while b > a && is_whitespace(v[b - 1])
        invariant
            lo <= a <= b <= hi <= v@.len(),
            trim_end(v@.subrange(a as int, hi as int)) == trim_end(
                v@.subrange(a as int, b as int),
            ),
        decreases b - a,
    {
        assert(v@.subrange(a as int, b as int).drop_last() =~= v@.subrange(a as int, b - 1));
        b = b - 1;
    }
    assert(trim_end(v@.subrange(a as int, b as int)) == v@.subrange(a as int, b as int));
    (a, b)
}

} // verus!
