//! What the reader and the writer do, stated in terms of the characters involved.
use vstd::prelude::*;

use crate::chars::hex_value;
use crate::gron::{json_leaf_text, key_text};
use crate::json::{set_path, Json};
use crate::lookup::{get_path, keeps_container, lemma_read_after_write};
use crate::chars::decimal;
use crate::error::Failure;
use crate::path::{
    escape_spec, ident_end, identifier_end, index_spec, quoted_body, quoted_spec, unicode_spec,
    Segment,
};
use crate::roundtrip::{
    lemma_decimal, lemma_digits_run, lemma_run_concat, lemma_run_one,
    lemma_semicolon_end, neutral, run,
};
use crate::scan::{semicolon_end, start_state, QuoteState};

verus! {

/// A character that may start a bare member name: `_`, `$` or an ASCII letter.
pub open spec fn bare_name_start(c: char) -> bool {
    c == '_' || c == '$' || ('a' <= c <= 'z') || ('A' <= c <= 'Z')
}

/// A character that may continue a bare member name: `_`, `$`, an ASCII letter or an
/// ASCII digit.
pub open spec fn bare_name_char(c: char) -> bool {
    bare_name_start(c) || ('0' <= c <= '9')
}

/// A member name is written bare, after a `.`, exactly when it is not empty, starts with
/// `_`, `$` or an ASCII letter and goes on with `_`, `$`, ASCII letters and digits; any
/// other name is written bracketed, as its JSON string literal.
pub proof fn lemma_member_name_text(k: Seq<char>)
    ensures
        (k.len() > 0 && bare_name_start(k[0]) && forall|j: int|
            1 <= j < k.len() ==> #[trigger] bare_name_char(k[j])) ==> key_text(k) == seq!['.']
            + k,
        !(k.len() > 0 && bare_name_start(k[0]) && forall|j: int|
            1 <= j < k.len() ==> #[trigger] bare_name_char(k[j])) ==> key_text(k) == seq!['[']
            + json_leaf_text(Json::Str(k)) + seq![']'],
{
    if !(k.len() > 0 && bare_name_start(k[0]) && forall|j: int|
        1 <= j < k.len() ==> #[trigger] bare_name_char(k[j])) {
        if k.len() > 0 && bare_name_start(k[0]) {
            let j = choose|j: int| 1 <= j < k.len() && !#[trigger] bare_name_char(k[j]);
            assert(!crate::chars::is_ident_continue(k[j]));
        }
    } else {
        assert forall|j: int| 1 <= j < k.len() implies crate::chars::is_ident_continue(
            #[trigger] k[j],
        ) by {
            assert(bare_name_char(k[j]));
        }
        assert(crate::gron::is_identifier(k));
    }
}

/// The run of name characters from `j` ends at `ident_end(s, j)`.
proof fn lemma_ident_end_extent(s: Seq<char>, j: int)
    requires
        0 <= j <= s.len(),
    ensures
        j <= ident_end(s, j) <= s.len(),
        forall|m: int| j <= m < ident_end(s, j) ==> #[trigger] bare_name_char(s[m]),
        ident_end(s, j) == s.len() || !bare_name_char(s[ident_end(s, j)]),
    decreases s.len() - j,
{
    if j < s.len() && crate::chars::is_ident_continue(s[j]) {
        lemma_ident_end_extent(s, j + 1);
    }
}

/// The identifier read at `i` is the longest run that starts with `_`, `$` or an ASCII
/// letter and goes on with `_`, `$`, ASCII letters and digits; there is none where the
/// character at `i` is missing or cannot start one.
pub proof fn lemma_identifier_extent(s: Seq<char>, i: int)
    requires
        0 <= i <= s.len(),
    ensures
        match identifier_end(s, i) {
            Some(e) => {
                &&& i < e <= s.len()
                &&& bare_name_start(s[i])
                &&& forall|m: int| i < m < e ==> #[trigger] bare_name_char(s[m])
                &&& e == s.len() || !bare_name_char(s[e])
            },
            None => i == s.len() || !bare_name_start(s[i]),
        },
{
    if i < s.len() && crate::chars::is_ident_start(s[i]) {
        lemma_ident_end_extent(s, i + 1);
    }
}

/// Assigning a value other than the empty object and the empty array at a path reads
/// back as that value, whatever stood there before.
pub proof fn lemma_assigned_value_reads_back(r: Json, p: Seq<Segment>, v: Json)
    requires
        v != Json::Object(Seq::empty()),
        v != Json::Array(Seq::empty()),
    ensures
        get_path(set_path(r, p, v), p) == Some(v),
{
    assert(!keeps_container(get_path(r, p), v)) by {
        match v {
            Json::Object(m) => {
                if m.len() == 0 {
                    assert(m =~= Seq::<(Seq<char>, Json)>::empty());
                }
            },
            Json::Array(a) => {
                if a.len() == 0 {
                    assert(a =~= Seq::<Json>::empty());
                }
            },
            _ => {},
        }
    }
    lemma_read_after_write(r, p, v);
}

/// Each hex digit has its standard value, whatever its case: `0`-`9` are 0 to 9, `a`-`f`
/// and `A`-`F` are 10 to 15.
pub proof fn lemma_hex_digit_value(k: int)
    requires
        0 <= k < 16,
    ensures
        k < 10 ==> hex_value((('0' as int) + k) as char) == k,
        k >= 10 ==> hex_value((('a' as int) + k - 10) as char) == k,
        k >= 10 ==> hex_value((('A' as int) + k - 10) as char) == k,
{
}

/// A `\u` escape read at `i` is the character whose code has the four hex digits there
/// as its digits, most significant first.
pub proof fn lemma_unicode_escape_value(s: Seq<char>, i: int)
    requires
        0 <= i,
    ensures
        unicode_spec(s, i).0 matches Ok(c) ==> {
            &&& i + 4 <= s.len()
            &&& c as u32 == 4096 * hex_value(s[i]) + 256 * hex_value(s[i + 1]) + 16 * hex_value(
                s[i + 2],
            ) + hex_value(s[i + 3])
        },
{
    if unicode_spec(s, i).0 is Ok {
        crate::path::lemma_hex_failure_bounds(s, i, 0);
        assert(crate::path::hex_failure(s, i, 0) is None);
        assert(crate::path::hex_failure(s, i, 1) is None);
        assert(crate::path::hex_failure(s, i, 2) is None);
        assert(crate::path::hex_failure(s, i, 3) is None);
        assert(i + 3 < s.len());
    }
}

/// The state of the scan inside a string opened by `d`, not after a backslash.
pub open spec fn inside(d: char) -> QuoteState {
    QuoteState { delim: Some(d), escaped: false }
}

/// Inside a string opened by `d`, characters other than `d` and a backslash leave the
/// scan inside that string.
proof fn lemma_run_inside(d: char, b: Seq<char>)
    requires
        forall|j: int| 0 <= j < b.len() ==> #[trigger] b[j] != d && b[j] != '\\',
    ensures
        run(inside(d), b) == inside(d),
    decreases b.len(),
{
    if b.len() > 0 {
        let u = b.drop_last();
        assert forall|j: int| 0 <= j < u.len() implies #[trigger] u[j] != d && u[j] != '\\' by {
            assert(u[j] == b[j]);
        }
        lemma_run_inside(d, u);
        assert(b.last() == b[b.len() - 1]);
    }
}

/// A value quoted by `'` or `"` whose body holds neither that quote nor a backslash,
/// followed by `;`, ends at that `;`: no other character closes the string, and a `;`
/// inside it is no end.
pub proof fn lemma_quoted_value_end(d: char, b: Seq<char>)
    requires
        d == '\'' || d == '"',
        forall|j: int| 0 <= j < b.len() ==> #[trigger] b[j] != d && b[j] != '\\',
    ensures
        semicolon_end(seq![d] + b + seq![d, ';']) == Some(b.len() + 2int),
{
    let t = seq![d] + b + seq![d];
    lemma_run_one(start_state(), d);
    assert forall|j: int| 0 <= j <= b.len() implies run(inside(d), #[trigger] b.take(j))
        == inside(d) by {
        assert forall|m: int| 0 <= m < b.take(j).len() implies #[trigger] b.take(j)[m] != d
            && b.take(j)[m] != '\\' by {
            assert(b.take(j)[m] == b[m]);
        }
        lemma_run_inside(d, b.take(j));
    }
    assert(b.take(b.len() as int) =~= b);
    lemma_run_concat(start_state(), seq![d], b);
    lemma_run_concat(start_state(), seq![d] + b, seq![d]);
    lemma_run_one(inside(d), d);
    assert(run(start_state(), t) == start_state());
    assert forall|j: int| 0 <= j < t.len() && (t[j] == '=' || t[j] == ';') implies (
    #[trigger] run(start_state(), t.take(j))).delim is Some by {
        assert(0 < j < t.len() - 1);
        assert(t.take(j) =~= seq![d] + b.take(j - 1));
        lemma_run_concat(start_state(), seq![d], b.take(j - 1));
    }
    assert(neutral(t));
    lemma_semicolon_end(t);
    assert(t + seq![';'] =~= seq![d] + b + seq![d, ';']);
}

/// Reading a string quoted by `d` whose body holds neither `d` nor a backslash gives the
/// body exactly, whatever its characters, and goes on after the closing quote.
pub proof fn lemma_quoted_plain(d: char, b: Seq<char>, rest: Seq<char>)
    requires
        forall|j: int| 0 <= j < b.len() ==> #[trigger] b[j] != d && b[j] != '\\',
    ensures
        quoted_spec(seq![d] + b + seq![d] + rest, 0, d) == (
            Ok::<Seq<char>, crate::error::Failure>(b),
            b.len() + 2int,
        ),
{
    let s = seq![d] + b + seq![d] + rest;
    assert forall|m: int| 0 <= m < b.len() implies s[m + 1] == #[trigger] b[m] by {}
    assert(s[b.len() + 1int] == d);
    lemma_quoted_body_plain(s, d, b, b.len() as int);
    assert(b.take(0) =~= Seq::<char>::empty());
}

proof fn lemma_quoted_body_plain(s: Seq<char>, d: char, b: Seq<char>, j: int)
    requires
        0 <= j <= b.len(),
        forall|m: int| 0 <= m < b.len() ==> #[trigger] b[m] != d && b[m] != '\\',
        s.len() >= b.len() + 2,
        s[0] == d,
        s[b.len() + 1int] == d,
        forall|m: int| 0 <= m < b.len() ==> s[m + 1] == #[trigger] b[m],
    ensures
        quoted_body(s, 1 + b.len() - j, d, b.take(b.len() - j)) == (
            Ok::<Seq<char>, crate::error::Failure>(b),
            b.len() + 2int,
        ),
    decreases j,
{
    let k = b.len() - j;
    if j == 0 {
        assert(b.take(k) =~= b);
    } else {
        lemma_quoted_body_plain(s, d, b, j - 1);
        assert(s[1 + k] == b[k]);
        assert(b.take(k).push(b[k]) =~= b.take(k + 1));
    }
}

/// A backslash followed by `c`, other than `u`, stands for backspace, form feed, line
/// feed, carriage return or tab where `c` is `b`, `f`, `n`, `r` or `t`, and for `c`
/// itself otherwise; the escape ends after `c`.
pub proof fn lemma_short_escape(s: Seq<char>, i: int)
    requires
        0 <= i < s.len(),
        s[i] != 'u',
    ensures
        escape_spec(s, i).1 == i + 1,
        s[i] == 'b' ==> escape_spec(s, i).0 == Ok::<char, Failure>('\u{8}'),
        s[i] == 'f' ==> escape_spec(s, i).0 == Ok::<char, Failure>('\u{c}'),
        s[i] == 'n' ==> escape_spec(s, i).0 == Ok::<char, Failure>('\n'),
        s[i] == 'r' ==> escape_spec(s, i).0 == Ok::<char, Failure>('\r'),
        s[i] == 't' ==> escape_spec(s, i).0 == Ok::<char, Failure>('\t'),
        !(s[i] == 'b' || s[i] == 'f' || s[i] == 'n' || s[i] == 'r' || s[i] == 't')
            ==> escape_spec(s, i).0 == Ok::<char, Failure>(s[i]),
{
}

/// The decimal digits of a number that fits in `usize`, followed by anything but a
/// digit, read as an index give that number and end after the digits.
pub proof fn lemma_index_reads_decimal(n: nat, rest: Seq<char>)
    requires
        n <= usize::MAX,
        rest.len() == 0 || !('0' <= rest[0] <= '9'),
    ensures
        index_spec(decimal(n) + rest, 0) == (
            Ok::<nat, Failure>(n),
            decimal(n).len() as int,
        ),
{
    let d = decimal(n);
    let s = d + rest;
    lemma_decimal(n);
    assert forall|k: int| 0 <= k < d.len() implies crate::chars::is_digit(#[trigger] s[k]) by {
        assert(s[k] == d[k]);
    }
    if rest.len() > 0 {
        assert(s[d.len() as int] == rest[0]);
    }
    lemma_digits_run(s, 0, d.len() as int);
    assert(s.subrange(0, d.len() as int) =~= d);
}

} // verus!
