//! The gron text of a well-formed value reads back as that value.
use vstd::prelude::*;

use crate::chars::{
    decimal, digit_value, is_digit, is_ident_continue, is_ident_start, is_white_space,
};
use crate::error::{Failure, LineFailure};
use crate::assign::{
    apply_all, assignments, element_assignments, elements_well_formed, lemma_assignments_rebuild,
    member_assignments, members_well_formed, well_formed,
};
use crate::gron::{
    elements_facts, elements_text, empty_like, gron_text, gron_text_at, index_text,
    is_bare_token, is_identifier, is_string_body, is_string_token, json_leaf_text, key_facts,
    key_text, leaf_facts, lemma_leaf_shape, line_text, members_facts, members_text, root_text,
    text_facts,
};
use crate::json::{json_string_value, Json};
use crate::path::{
    bracket_spec, decimal_value, digits_end, ident_end, identifier_end, json_close, path_spec,
    root_spec, segments_spec, Segment,
};
use crate::json::set_path;
use crate::scan::{
    assignment_index, is_after_semicolon, is_assignment_at, is_semicolon_at, last_semicolon,
    quote_state, quote_step, semicolon_end, start_state, trim, QuoteState,
};
use crate::ungron::{gron_from, gron_spec, line_spec, line_step, next_newline, value_spec};

verus! {

/// The state of the quote scan after `t`, from `st`.
pub open spec fn run(st: QuoteState, t: Seq<char>) -> QuoteState
    decreases t.len(),
{
    if t.len() == 0 {
        st
    } else {
        quote_step(run(st, t.drop_last()), t.last())
    }
}

pub open spec fn inside_string() -> QuoteState {
    QuoteState { delim: Some('"'), escaped: false }
}

/// Scanning `t` from outside quotes ends outside quotes, and every `=` and `;` of `t`
/// stands inside quotes.
pub open spec fn neutral(t: Seq<char>) -> bool {
    &&& run(start_state(), t) == start_state()
    &&& forall|j: int|
        0 <= j < t.len() && (t[j] == '=' || t[j] == ';') ==> (#[trigger] run(
            start_state(),
            t.take(j),
        )).delim is Some
}

/// No character of `t` is a line break.
pub open spec fn no_newline(t: Seq<char>) -> bool {
    forall|j: int| 0 <= j < t.len() ==> #[trigger] t[j] != '\n'
}

/// No character of `t` is a quote, `=`, `;` or a line break.
pub open spec fn is_plain(t: Seq<char>) -> bool {
    forall|j: int|
        0 <= j < t.len() ==> {
            let c = #[trigger] t[j];
            c != '"' && c != '\'' && c != '=' && c != ';' && c != '\n'
        }
}

proof fn lemma_quote_state_run(s: Seq<char>, i: int)
    requires
        0 <= i <= s.len(),
    ensures
        quote_state(s, i) == run(start_state(), s.take(i)),
    decreases i,
{
    if i > 0 {
        lemma_quote_state_run(s, i - 1);
        assert(s.take(i).drop_last() =~= s.take(i - 1));
    } else {
        assert(s.take(0) =~= Seq::<char>::empty());
    }
}

pub(crate) proof fn lemma_run_concat(st: QuoteState, a: Seq<char>, b: Seq<char>)
    ensures
        run(st, a + b) == run(run(st, a), b),
    decreases b.len(),
{
    if b.len() == 0 {
        assert(a + b =~= a);
    } else {
        assert((a + b).drop_last() =~= a + b.drop_last());
        assert((a + b).last() == b.last());
        lemma_run_concat(st, a, b.drop_last());
    }
}

pub(crate) proof fn lemma_run_one(st: QuoteState, c: char)
    ensures
        run(st, seq![c]) == quote_step(st, c),
{
    let t = seq![c];
    assert(t.drop_last() =~= Seq::<char>::empty());
    assert(run(st, t.drop_last()) == st);
    assert(t.last() == c);
}

proof fn lemma_run_two(st: QuoteState, c: char, d: char)
    ensures
        run(st, seq![c, d]) == quote_step(quote_step(st, c), d),
{
    let t = seq![c, d];
    assert(t.drop_last() =~= seq![c]);
    lemma_run_one(st, c);
    assert(t.last() == d);
}

proof fn lemma_plain_run(t: Seq<char>)
    requires
        is_plain(t),
    ensures
        forall|j: int|
            0 <= j <= t.len() ==> run(start_state(), #[trigger] t.take(j)) == start_state(),
    decreases t.len(),
{
    if t.len() > 0 {
        let u = t.drop_last();
        assert forall|j: int| 0 <= j < u.len() implies #[trigger] u[j] != '"' && u[j] != '\''
            && u[j] != '=' && u[j] != ';' && u[j] != '\n' by {
            assert(u[j] == t[j]);
        }
        lemma_plain_run(u);
        assert forall|j: int| 0 <= j <= t.len() implies run(start_state(), #[trigger] t.take(j))
            == start_state() by {
            if j < t.len() {
                assert(t.take(j) =~= u.take(j));
            } else {
                assert(t.take(j) =~= t);
                assert(u.take(u.len() as int) =~= u);
                assert(t.drop_last() =~= u);
            }
        }
    }
}

/// A plain text is neutral.
proof fn lemma_plain_neutral(t: Seq<char>)
    requires
        is_plain(t),
    ensures
        neutral(t),
{
    lemma_plain_run(t);
    assert(t.take(t.len() as int) =~= t);
}

/// The concatenation of neutral texts is neutral.
proof fn lemma_neutral_concat(a: Seq<char>, b: Seq<char>)
    requires
        neutral(a),
        neutral(b),
    ensures
        neutral(a + b),
{
    let s = a + b;
    lemma_run_concat(start_state(), a, b);
    assert forall|j: int| 0 <= j < s.len() && (s[j] == '=' || s[j] == ';') implies (#[trigger] run(
        start_state(),
        s.take(j),
    )).delim is Some by {
        if j < a.len() {
            assert(s.take(j) =~= a.take(j));
            assert(s[j] == a[j]);
        } else {
            let k = j - a.len();
            assert(s.take(j) =~= a + b.take(k));
            lemma_run_concat(start_state(), a, b.take(k));
            assert(s[j] == b[k]);
        }
    }
}

/// Scanning the body of a string from inside the string stays inside it, and ends not
/// escaped.
proof fn lemma_string_body_run(b: Seq<char>)
    requires
        is_string_body(b),
    ensures
        run(inside_string(), b) == inside_string(),
        forall|j: int|
            0 <= j <= b.len() ==> (#[trigger] run(inside_string(), b.take(j))).delim == Some('"'),
    decreases b.len(),
{
    if b.len() == 0 {
        assert forall|j: int| 0 <= j <= b.len() implies (#[trigger] run(
            inside_string(),
            b.take(j),
        )).delim == Some('"') by {
            assert(b.take(j) =~= Seq::<char>::empty());
        }
    } else {
        let n: int = if b[0] == '\\' {
            2
        } else {
            1
        };
        let unit = b.take(n);
        let rest = b.skip(n);
        assert(b =~= unit + rest);
        lemma_string_body_run(rest);
        lemma_run_concat(inside_string(), unit, rest);
        if n == 2 {
            assert(unit =~= seq!['\\', b[1]]);
            lemma_run_two(inside_string(), '\\', b[1]);
        } else {
            assert(unit =~= seq![b[0]]);
            lemma_run_one(inside_string(), b[0]);
        }
        assert(run(inside_string(), unit) == inside_string());
        assert forall|j: int| 0 <= j <= b.len() implies (#[trigger] run(
            inside_string(),
            b.take(j),
        )).delim == Some('"') by {
            if j == 0 {
                assert(b.take(j) =~= Seq::<char>::empty());
            } else if j < n {
                assert(b.take(j) =~= seq!['\\']);
                lemma_run_one(inside_string(), '\\');
            } else {
                assert(b.take(j) =~= unit + rest.take(j - n));
                lemma_run_concat(inside_string(), unit, rest.take(j - n));
            }
        }
    }
}

/// A JSON string literal as it is written is neutral.
proof fn lemma_string_token_neutral(t: Seq<char>)
    requires
        is_string_token(t),
    ensures
        neutral(t),
{
    let b = t.subrange(1, t.len() - 1);
    lemma_string_body_run(b);
    let open = seq!['"'];
    lemma_run_one(start_state(), '"');
    lemma_run_one(inside_string(), '"');
    assert(t =~= open + b + seq!['"']);
    lemma_run_concat(start_state(), open, b);
    lemma_run_concat(start_state(), open + b, seq!['"']);
    assert forall|j: int| 0 <= j < t.len() && (t[j] == '=' || t[j] == ';') implies (#[trigger] run(
        start_state(),
        t.take(j),
    )).delim is Some by {
        assert(j != 0 && j != t.len() - 1);
        assert(t.take(j) =~= open + b.take(j - 1));
        lemma_run_concat(start_state(), open, b.take(j - 1));
    }
}

/// The body of a string as it is written holds no line break.
proof fn lemma_string_body_no_newline(b: Seq<char>)
    requires
        is_string_body(b),
    ensures
        no_newline(b),
    decreases b.len(),
{
    if b.len() > 0 {
        let n: int = if b[0] == '\\' {
            2
        } else {
            1
        };
        lemma_string_body_no_newline(b.skip(n));
        assert forall|j: int| 0 <= j < b.len() implies #[trigger] b[j] != '\n' by {
            if j >= n {
                assert(b[j] == b.skip(n)[j - n]);
            }
        }
    }
}

proof fn lemma_string_token_no_newline(t: Seq<char>)
    requires
        is_string_token(t),
    ensures
        no_newline(t),
{
    let b = t.subrange(1, t.len() - 1);
    lemma_string_body_no_newline(b);
    assert forall|j: int| 0 <= j < t.len() implies #[trigger] t[j] != '\n' by {
        if 0 < j < t.len() - 1 {
            assert(t[j] == b[j - 1]);
        }
    }
}

/// The text of a path segment.
pub open spec fn seg_text(seg: Segment) -> Seq<char> {
    match seg {
        Segment::Property(k) => key_text(k),
        Segment::Index(i) => index_text(i),
    }
}

/// The texts of the segments `q`, in order.
pub open spec fn segs_text(q: Seq<Segment>) -> Seq<char>
    decreases q.len(),
{
    if q.len() == 0 {
        Seq::empty()
    } else {
        segs_text(q.drop_last()) + seg_text(q.last())
    }
}

/// The text of the path `q`: the root, then its segments.
pub open spec fn path_text(q: Seq<Segment>) -> Seq<char> {
    root_text() + segs_text(q)
}

/// A segment whose text reads back as it: an index that fits in `usize`, or a member
/// name written bare or by a writer that keeps its promises.
pub open spec fn segment_ok(seg: Segment) -> bool {
    match seg {
        Segment::Property(k) => key_facts(k),
        Segment::Index(i) => i <= usize::MAX,
    }
}

pub open spec fn path_ok(q: Seq<Segment>) -> bool {
    forall|i: int| 0 <= i < q.len() ==> segment_ok(#[trigger] q[i])
}

proof fn lemma_segs_text_concat(a: Seq<Segment>, b: Seq<Segment>)
    ensures
        segs_text(a + b) == segs_text(a) + segs_text(b),
    decreases b.len(),
{
    if b.len() == 0 {
        assert(a + b =~= a);
        assert(segs_text(a) + segs_text(b) =~= segs_text(a));
    } else {
        assert((a + b).drop_last() =~= a + b.drop_last());
        assert((a + b).last() == b.last());
        lemma_segs_text_concat(a, b.drop_last());
        assert(segs_text(a + b) =~= segs_text(a) + segs_text(b));
    }
}

proof fn lemma_segs_text_one(seg: Segment)
    ensures
        segs_text(seq![seg]) == seg_text(seg),
{
    let q = seq![seg];
    assert(q.drop_last() =~= Seq::<Segment>::empty());
    assert(segs_text(q.drop_last()) == Seq::<char>::empty());
    assert(q.last() == seg);
    assert(segs_text(q) =~= seg_text(seg));
}

proof fn lemma_digit_char(x: nat)
    requires
        x < 10,
    ensures
        is_digit(crate::chars::digit_char_of(x)),
        digit_value(crate::chars::digit_char_of(x)) == x,
{
}

/// The digits of a number are decimal digits, and read back as the number.
pub(crate) proof fn lemma_decimal(n: nat)
    ensures
        decimal(n).len() >= 1,
        forall|j: int| 0 <= j < decimal(n).len() ==> is_digit(#[trigger] decimal(n)[j]),
        decimal_value(decimal(n)) == n,
    decreases n,
{
    if n >= 10 {
        lemma_decimal(n / 10);
        let d = decimal(n);
        assert(d.drop_last() =~= decimal(n / 10));
        assert(d.last() == crate::chars::digit_char_of(n % 10));
        lemma_digit_char(n % 10);
        assert forall|j: int| 0 <= j < d.len() implies is_digit(#[trigger] d[j]) by {
            if j < d.len() - 1 {
                assert(d[j] == decimal(n / 10)[j]);
            }
        }
        assert(decimal_value(d) == decimal_value(d.drop_last()) * 10 + digit_value(d.last()));
        assert(n == (n / 10) * 10 + n % 10);
    } else {
        let d = decimal(n);
        assert(d.drop_last() =~= Seq::<char>::empty());
        lemma_digit_char(n);
        assert(decimal_value(d) == decimal_value(d.drop_last()) * 10 + digit_value(d.last()));
    }
}

/// The run of identifier characters from `j` ends at `e`.
proof fn lemma_ident_run(s: Seq<char>, j: int, e: int)
    requires
        0 <= j <= e <= s.len(),
        forall|k: int| j <= k < e ==> is_ident_continue(#[trigger] s[k]),
        e == s.len() || !is_ident_continue(s[e]),
    ensures
        ident_end(s, j) == e,
    decreases e - j,
{
    if j < e {
        lemma_ident_run(s, j + 1, e);
    }
}

/// The run of digits from `j` ends at `e`.
pub(crate) proof fn lemma_digits_run(s: Seq<char>, j: int, e: int)
    requires
        0 <= j <= e <= s.len(),
        forall|k: int| j <= k < e ==> is_digit(#[trigger] s[k]),
        e == s.len() || !is_digit(s[e]),
    ensures
        digits_end(s, j) == e,
    decreases e - j,
{
    if j < e {
        lemma_digits_run(s, j + 1, e);
    }
}

/// The end of a JSON string whose body `b` starts at `p` is found just after its quote.
proof fn lemma_json_close_body(s: Seq<char>, p: int, b: Seq<char>)
    requires
        is_string_body(b),
        0 <= p,
        p + b.len() < s.len(),
        s.subrange(p, p + b.len()) == b,
        s[p + b.len()] == '"',
    ensures
        json_close(s, p, false) == Some(p + b.len() + 1),
    decreases b.len(),
{
    if b.len() > 0 {
        assert(s[p] == b[0]);
        let n: int = if b[0] == '\\' {
            2
        } else {
            1
        };
        let rest = b.skip(n);
        assert(s.subrange(p + n, p + n + rest.len()) =~= rest);
        lemma_json_close_body(s, p + n, rest);
        if n == 2 {
            assert(json_close(s, p + 1, true) == json_close(s, p + 2, false));
        }
    }
}

/// Reading one segment whose text stands at `j`, and after which comes another segment
/// or the end, gives that segment and goes on after its text.
proof fn lemma_segment_step(s: Seq<char>, j: int, seg: Segment, acc: Seq<Segment>)
    requires
        0 <= j,
        j + seg_text(seg).len() <= s.len(),
        s.subrange(j, j + seg_text(seg).len()) == seg_text(seg),
        segment_ok(seg),
        j + seg_text(seg).len() == s.len() || s[j + seg_text(seg).len()] == '.' || s[j
            + seg_text(seg).len()] == '[',
    ensures
        segments_spec(s, j, acc) == segments_spec(s, j + seg_text(seg).len(), acc.push(seg)),
{
    let st = seg_text(seg);
    let e = j + st.len();
    assert forall|k: int| 0 <= k < st.len() implies s[j + k] == #[trigger] st[k] by {
        assert(s.subrange(j, e)[k] == s[j + k]);
    }
    match seg {
        Segment::Property(k) => {
            if is_identifier(k) {
                assert(st =~= seq!['.'] + k);
                assert(s[j] == s.subrange(j, e)[0]);
                assert(s[j + 1] == s.subrange(j, e)[1]);
                assert(s[j] == '.');
                assert(s[j + 1] == k[0]);
                assert forall|m: int| j + 2 <= m < e implies is_ident_continue(#[trigger] s[m]) by {
                    assert(s[m] == st[m - j]);
                    assert(st[m - j] == k[m - j - 1]);
                }
                lemma_ident_run(s, j + 2, e);
                assert forall|m: int| 0 <= m < k.len() implies s.subrange(j + 1, e)[m] == k[m] by {
                    assert(s.subrange(j, e)[1 + m] == s[j + 1 + m]);
                }
                assert(s.subrange(j + 1, e) =~= k);
            } else {
                let t = json_leaf_text(Json::Str(k));
                assert(st =~= seq!['['] + t + seq![']']);
                assert(s[j] == s.subrange(j, e)[0]);
                assert(s[j + 1] == s.subrange(j, e)[1]);
                assert(s[j] == '[');
                assert(s[j + 1] == t[0]);
                let b = t.subrange(1, t.len() - 1);
                assert(s.subrange(j + 2, j + 2 + b.len()) =~= b) by {
                    assert forall|m: int| 0 <= m < b.len() implies s.subrange(
                        j + 2,
                        j + 2 + b.len(),
                    )[m] == b[m] by {
                        assert(s[j + 2 + m] == st[2 + m]);
                    }
                }
                assert(s[j + 2 + b.len()] == st[2 + b.len() as int]);
                lemma_leaf_shape(Json::Str(k));
                lemma_json_close_body(s, j + 2, b);
                assert forall|m: int| 0 <= m < t.len() implies s.subrange(j + 1, j + 1 + t.len())[m]
                    == t[m] by {
                    assert(s[j + 1 + m] == st[1 + m]);
                    assert(st[1 + m] == t[m]);
                }
                assert(s.subrange(j + 1, j + 1 + t.len()) =~= t);
                assert(s[j + 1 + t.len()] == st[1 + t.len() as int]);
                assert(s[j + 1 + t.len()] == ']');
            }
        },
        Segment::Index(i) => {
            let d = decimal(i);
            lemma_decimal(i);
            assert(st =~= seq!['['] + d + seq![']']);
            assert(s[j] == s.subrange(j, e)[0]);
            assert(s[j + 1] == s.subrange(j, e)[1]);
            assert(s[j] == '[');
            assert(s[j + 1] == d[0]);
            assert forall|m: int| j + 1 <= m < j + 1 + d.len() implies is_digit(
                #[trigger] s[m],
            ) by {
                assert(s[m] == st[m - j]);
            }
            assert(s[j + 1 + d.len()] == s.subrange(j, e)[1 + d.len() as int]);
            assert(s[j + 1 + d.len()] == ']');
            lemma_digits_run(s, j + 1, j + 1 + d.len());
            assert forall|m: int| 0 <= m < d.len() implies s.subrange(
                j + 1,
                j + 1 + d.len(),
            )[m] == d[m] by {
                assert(s.subrange(j, e)[1 + m] == s[j + 1 + m]);
            }
            assert(s.subrange(j + 1, j + 1 + d.len()) =~= d);
        },
    }
}


/// The first character of a segment's text is `.` or `[`.
proof fn lemma_seg_text_start(seg: Segment)
    ensures
        seg_text(seg).len() >= 1,
        seg_text(seg)[0] == '.' || seg_text(seg)[0] == '[',
{
    match seg {
        Segment::Property(k) => {
            if is_identifier(k) {
                assert((seq!['.'] + k)[0] == '.');
            } else {
                let t = json_leaf_text(Json::Str(k));
                assert((seq!['['] + t + seq![']'])[0] == '[');
            }
        },
        Segment::Index(i) => {
            assert((seq!['['] + decimal(i) + seq![']'])[0] == '[');
        },
    }
}

/// Reading the segments written from `j` to the end of `s`, after `acc` was read, gives
/// `acc` followed by those segments.
proof fn lemma_segments_read(s: Seq<char>, j: int, q: Seq<Segment>, acc: Seq<Segment>)
    requires
        0 <= j <= s.len(),
        path_ok(q),
        s.skip(j) == segs_text(q),
    ensures
        segments_spec(s, j, acc) == (Ok::<Seq<Segment>, Failure>(acc + q), s.len() as int),
    decreases q.len(),
{
    if q.len() == 0 {
        assert(s.skip(j).len() == 0);
        assert(acc + q =~= acc);
    } else {
        let seg = q[0];
        let rest = q.drop_first();
        assert(q =~= seq![seg] + rest);
        lemma_segs_text_concat(seq![seg], rest);
        lemma_segs_text_one(seg);
        let st = seg_text(seg);
        let e = j + st.len();
        assert(segs_text(q) == st + segs_text(rest));
        assert(s.subrange(j, e) =~= st) by {
            assert forall|m: int| 0 <= m < st.len() implies s.subrange(j, e)[m] == st[m] by {
                assert(s.skip(j)[m] == s[j + m]);
            }
        }
        assert(segment_ok(seg)) by {
            assert(q[0] == seg);
        }
        assert(path_ok(rest)) by {
            assert forall|i: int| 0 <= i < rest.len() implies segment_ok(#[trigger] rest[i]) by {
                assert(rest[i] == q[i + 1]);
            }
        }
        assert(s.skip(e) =~= segs_text(rest)) by {
            assert forall|m: int| 0 <= m < s.skip(e).len() implies s.skip(e)[m] == segs_text(
                rest,
            )[m] by {
                assert(s.skip(j)[st.len() + m] == s[e + m]);
            }
        }
        if rest.len() > 0 {
            let seg1 = rest[0];
            let rest1 = rest.drop_first();
            assert(rest =~= seq![seg1] + rest1);
            lemma_segs_text_concat(seq![seg1], rest1);
            lemma_segs_text_one(seg1);
            lemma_seg_text_start(seg1);
            assert(s[e] == s.skip(e)[0]);
            assert(s.skip(e)[0] == seg_text(seg1)[0]);
        }
        lemma_segment_step(s, j, seg, acc);
        lemma_segments_read(s, e, rest, acc.push(seg));
        assert(acc.push(seg) + rest =~= acc + q);
    }
}

/// The text of a path reads back as the path.
proof fn lemma_path_read(q: Seq<Segment>)
    requires
        path_ok(q),
    ensures
        path_spec(path_text(q), 0) == (Ok::<Seq<Segment>, Failure>(q), path_text(q).len() as int),
{
    let p = path_text(q);
    let r = root_text();
    assert(p[0] == 'j' && p[1] == 's' && p[2] == 'o' && p[3] == 'n');
    if q.len() > 0 {
        let seg0 = q[0];
        let rest = q.drop_first();
        assert(q =~= seq![seg0] + rest);
        lemma_segs_text_concat(seq![seg0], rest);
        lemma_segs_text_one(seg0);
        lemma_seg_text_start(seg0);
        assert(p[4] == seg_text(seg0)[0]);
    }
    lemma_ident_run(p, 1, 4);
    assert(identifier_end(p, 0) == Some(4int));
    reveal_strlit("json");
    assert(p.subrange(0, 4) =~= "json"@);
    assert(root_spec(p, 0) == (Ok::<(), Failure>(()), 4int));
    assert(p.skip(4) =~= segs_text(q));
    lemma_segments_read(p, 4, q, Seq::empty());
    assert(Seq::<Segment>::empty() + q =~= q);
}


/// Text that a quote-aware scan crosses without stopping: it ends outside quotes, each
/// `=` and `;` in it stands inside quotes, and no line break is in it.
pub open spec fn clean(t: Seq<char>) -> bool {
    neutral(t) && no_newline(t)
}

proof fn lemma_plain_clean(t: Seq<char>)
    requires
        is_plain(t),
    ensures
        clean(t),
{
    lemma_plain_neutral(t);
}

proof fn lemma_clean_concat(a: Seq<char>, b: Seq<char>)
    requires
        clean(a),
        clean(b),
    ensures
        clean(a + b),
{
    lemma_neutral_concat(a, b);
    assert forall|j: int| 0 <= j < (a + b).len() implies #[trigger] (a + b)[j] != '\n' by {
        if j < a.len() {
            assert((a + b)[j] == a[j]);
        } else {
            assert((a + b)[j] == b[j - a.len()]);
        }
    }
}

proof fn lemma_string_token_clean(t: Seq<char>)
    requires
        is_string_token(t),
    ensures
        clean(t),
{
    lemma_string_token_neutral(t);
    lemma_string_token_no_newline(t);
}

/// An identifier character is no whitespace.
proof fn lemma_ident_not_white(c: char)
    requires
        is_ident_continue(c),
    ensures
        !is_white_space(c),
        c != '"' && c != '\'' && c != '=' && c != ';' && c != '\n' && c != '.' && c != '[',
{
}

/// The text of a segment that reads back is clean.
proof fn lemma_seg_clean(seg: Segment)
    requires
        segment_ok(seg),
    ensures
        clean(seg_text(seg)),
        !is_white_space(seg_text(seg).last()),
{
    match seg {
        Segment::Property(k) => {
            if is_identifier(k) {
                let t = seq!['.'] + k;
                assert forall|j: int| 0 <= j < t.len() implies {
                    let c = #[trigger] t[j];
                    c != '"' && c != '\'' && c != '=' && c != ';' && c != '\n'
                } by {
                    if j > 0 {
                        assert(t[j] == k[j - 1]);
                        lemma_ident_not_white(k[j - 1]);
                    }
                }
                lemma_plain_clean(t);
                assert(t.last() == k[k.len() - 1]);
                lemma_ident_not_white(k[k.len() - 1]);
            } else {
                let t = json_leaf_text(Json::Str(k));
                lemma_leaf_shape(Json::Str(k));
                lemma_string_token_clean(t);
                lemma_plain_clean(seq!['[']);
                lemma_plain_clean(seq![']']);
                lemma_clean_concat(seq!['['], t);
                lemma_clean_concat(seq!['['] + t, seq![']']);
            }
        },
        Segment::Index(i) => {
            let d = decimal(i);
            lemma_decimal(i);
            let t = seq!['['] + d + seq![']'];
            assert forall|j: int| 0 <= j < t.len() implies {
                let c = #[trigger] t[j];
                c != '"' && c != '\'' && c != '=' && c != ';' && c != '\n'
            } by {
                if 0 < j < t.len() - 1 {
                    assert(t[j] == d[j - 1]);
                }
            }
            lemma_plain_clean(t);
        },
    }
}

/// The text of a path that reads back is clean, starts with `j` and ends with no
/// whitespace.
proof fn lemma_path_clean(q: Seq<Segment>)
    requires
        path_ok(q),
    ensures
        clean(path_text(q)),
        path_text(q).len() >= 4,
        path_text(q)[0] == 'j',
        !is_white_space(path_text(q).last()),
    decreases q.len(),
{
    if q.len() == 0 {
        let r = root_text();
        assert forall|j: int| 0 <= j < r.len() implies {
            let c = #[trigger] r[j];
            c != '"' && c != '\'' && c != '=' && c != ';' && c != '\n'
        } by {}
        lemma_plain_clean(r);
        assert(path_text(q) =~= r);
    } else {
        let init = q.drop_last();
        assert(path_ok(init)) by {
            assert forall|i: int| 0 <= i < init.len() implies segment_ok(#[trigger] init[i]) by {
                assert(init[i] == q[i]);
            }
        }
        assert(segment_ok(q.last())) by {
            assert(q[q.len() - 1] == q.last());
        }
        lemma_path_clean(init);
        lemma_seg_clean(q.last());
        assert(path_text(q) =~= path_text(init) + seg_text(q.last()));
        lemma_clean_concat(path_text(init), seg_text(q.last()));
        lemma_seg_text_start(q.last());
        assert(path_text(q).last() == seg_text(q.last()).last());
    }
}

/// What a line needs of the text of a value without members or elements: it is clean,
/// not empty, starts and ends with no whitespace and does not start with `'`.
proof fn lemma_leaf_clean(v: Json)
    requires
        leaf_facts(v),
    ensures
        clean(json_leaf_text(v)),
        json_leaf_text(v).len() > 0,
        !is_white_space(json_leaf_text(v)[0]),
        !is_white_space(json_leaf_text(v).last()),
        json_leaf_text(v)[0] != '\'',
{
    let t = json_leaf_text(v);
    lemma_leaf_shape(v);
    match v {
        Json::Str(k) => {
            lemma_string_token_clean(t);
        },
        _ => {
            assert(is_bare_token(t));
            assert forall|j: int| 0 <= j < t.len() implies {
                let c = #[trigger] t[j];
                c != '"' && c != '\'' && c != '=' && c != ';' && c != '\n'
            } by {
                assert(!is_white_space(t[j]));
            }
            lemma_plain_clean(t);
            assert(t.last() == t[t.len() - 1]);
        },
    }
}


/// The text of the assignment of the value written `value` at the path written `path`,
/// without its line break.
pub open spec fn assignment_text(path: Seq<char>, value: Seq<char>) -> Seq<char> {
    path + seq![' ', '=', ' '] + value + seq![';']
}

/// In an assignment whose path is neutral, the first `=` outside quotes is the one
/// written after the path.
proof fn lemma_assignment_index(p: Seq<char>, v: Seq<char>)
    requires
        neutral(p),
    ensures
        assignment_index(assignment_text(p, v)) == Some(p.len() + 1int),
{
    let l = assignment_text(p, v);
    let i0: int = p.len() + 1int;
    lemma_quote_state_run(l, i0);
    assert(l.take(i0) =~= p + seq![' ']);
    lemma_run_concat(start_state(), p, seq![' ']);
    lemma_run_one(start_state(), ' ');
    assert(l[i0] == '=');
    assert(is_assignment_at(l, i0));
    assert forall|j: int| 0 <= j < i0 implies !is_assignment_at(l, j) by {
        if j < p.len() {
            assert(l[j] == p[j]);
            lemma_quote_state_run(l, j);
            assert(l.take(j) =~= p.take(j));
        } else {
            assert(l[j] == ' ');
        }
    }
    let c = choose|i: int|
        is_assignment_at(l, i) && forall|j: int| 0 <= j < i ==> !is_assignment_at(l, j);
    assert(is_assignment_at(l, c) && forall|j: int| 0 <= j < c ==> !is_assignment_at(l, j));
    if c < i0 {
        assert(!is_assignment_at(l, c));
    }
    if c > i0 {
        assert(!is_assignment_at(l, i0));
    }
}

/// Before any index up to the end of a neutral text, no `;` outside quotes was met.
proof fn lemma_no_semicolon_before(v: Seq<char>, s: Seq<char>, k: int)
    requires
        neutral(v),
        0 <= k <= v.len(),
        v.len() <= s.len(),
        s.take(v.len() as int) == v,
    ensures
        last_semicolon(s, k) is None,
    decreases k,
{
    if k > 0 {
        lemma_no_semicolon_before(v, s, k - 1);
        lemma_quote_state_run(s, k - 1);
        assert(s.take(k - 1) =~= v.take(k - 1));
        assert(s[k - 1] == v[k - 1]) by {
            assert(s.take(v.len() as int)[k - 1] == s[k - 1]);
        }
    }
}

/// A neutral value followed by `;` ends at that `;`.
pub(crate) proof fn lemma_semicolon_end(v: Seq<char>)
    requires
        neutral(v),
    ensures
        semicolon_end(v + seq![';']) == Some(v.len() as int),
{
    let s = v + seq![';'];
    assert(s.take(v.len() as int) =~= v);
    assert forall|k: int| !is_after_semicolon(s, k) by {
        if 0 <= k < v.len() {
            lemma_no_semicolon_before(v, s, k);
        }
    }
    lemma_quote_state_run(s, v.len() as int);
    assert(is_semicolon_at(s, v.len() as int));
}

proof fn lemma_trim_start_keeps(s: Seq<char>)
    requires
        s.len() > 0,
        !is_white_space(s[0]),
    ensures
        crate::scan::trim_start(s) == s,
{
}

proof fn lemma_trim_end_keeps(s: Seq<char>)
    requires
        s.len() > 0,
        !is_white_space(s.last()),
    ensures
        crate::scan::trim_end(s) == s,
{
}

/// Text that starts and ends with no whitespace is its own trim.
proof fn lemma_trim_keeps(s: Seq<char>)
    requires
        s.len() > 0,
        !is_white_space(s[0]),
        !is_white_space(s.last()),
    ensures
        trim(s) == s,
{
    lemma_trim_start_keeps(s);
    lemma_trim_end_keeps(s);
}

/// A path followed by a space, trimmed, is the path.
proof fn lemma_trim_left_side(p: Seq<char>)
    requires
        p.len() > 0,
        !is_white_space(p[0]),
        !is_white_space(p.last()),
    ensures
        trim(p + seq![' ']) == p,
{
    let left = p + seq![' '];
    lemma_trim_start_keeps(left);
    assert(left.drop_last() =~= p);
    lemma_trim_end_keeps(p);
}

/// A space, then a value and `;`, trimmed, is the value and `;`.
proof fn lemma_trim_right_side(t: Seq<char>)
    requires
        t.len() > 0,
        !is_white_space(t[0]),
    ensures
        trim(seq![' '] + (t + seq![';'])) == t + seq![';'],
{
    let right = seq![' '] + (t + seq![';']);
    assert(right.drop_first() =~= t + seq![';']);
    lemma_trim_start_keeps(t + seq![';']);
    assert(crate::scan::trim_start(right) == t + seq![';']);
    lemma_trim_end_keeps(t + seq![';']);
}

/// The text of a value without members or elements, followed by `;`, reads back as the
/// value.
proof fn lemma_value_read(v: Json)
    requires
        leaf_facts(v),
    ensures
        value_spec(json_leaf_text(v) + seq![';']) == Ok::<Json, Failure>(v),
{
    let t = json_leaf_text(v);
    lemma_leaf_clean(v);
    lemma_semicolon_end(t);
    assert((t + seq![';']).take(t.len() as int) =~= t);
    lemma_trim_keeps(t);
}

/// The path side of an assignment, trimmed, is the path.
proof fn lemma_left_side(q: Seq<Segment>, t: Seq<char>)
    requires
        path_ok(q),
    ensures
        trim(assignment_text(path_text(q), t).take(path_text(q).len() + 1int)) == path_text(q),
{
    let p = path_text(q);
    lemma_path_clean(q);
    assert(assignment_text(p, t).take(p.len() + 1int) =~= p + seq![' ']);
    lemma_trim_left_side(p);
}

/// The value side of an assignment, trimmed, is the value and `;`.
proof fn lemma_right_side(p: Seq<char>, v: Json)
    requires
        leaf_facts(v),
    ensures
        trim(assignment_text(p, json_leaf_text(v)).skip(p.len() + 2int)) == json_leaf_text(v)
            + seq![';'],
{
    let t = json_leaf_text(v);
    lemma_leaf_clean(v);
    assert(assignment_text(p, t).skip(p.len() + 2int) =~= seq![' '] + (t + seq![';']));
    lemma_trim_right_side(t);
}

/// The assignment of a value without members or elements at a path, both written so
/// that they read back, sets the value at the path.
proof fn lemma_assignment_read(q: Seq<Segment>, v: Json, root: Json)
    requires
        path_ok(q),
        leaf_facts(v),
    ensures
        line_spec(assignment_text(path_text(q), json_leaf_text(v)), root) == Ok::<Json, Failure>(
            set_path(root, q, v),
        ),
{
    let p = path_text(q);
    let t = json_leaf_text(v);
    let l = assignment_text(p, t);
    let i0: int = p.len() + 1int;
    lemma_path_clean(q);
    lemma_assignment_index(p, t);
    lemma_left_side(q, t);
    lemma_right_side(p, v);
    assert(i0 + 1 == p.len() + 2int);
    lemma_path_read(q);
    lemma_value_read(v);
    lemma_line_spec_ok(l, root, i0, q, v);
}

/// A line whose path and value read back applies the value at the path.
proof fn lemma_line_spec_ok(l: Seq<char>, root: Json, i: int, q: Seq<Segment>, v: Json)
    requires
        assignment_index(l) == Some(i),
        path_spec(trim(l.take(i)), 0).0 == Ok::<Seq<Segment>, Failure>(q),
        value_spec(trim(l.skip(i + 1))) == Ok::<Json, Failure>(v),
    ensures
        line_spec(l, root) == Ok::<Json, Failure>(set_path(root, q, v)),
{
    reveal(line_spec);
}

/// The text of such an assignment is its own trim and holds no line break.
proof fn lemma_assignment_shape(q: Seq<Segment>, v: Json)
    requires
        path_ok(q),
        leaf_facts(v),
    ensures
        trim(assignment_text(path_text(q), json_leaf_text(v))) == assignment_text(
            path_text(q),
            json_leaf_text(v),
        ),
        no_newline(assignment_text(path_text(q), json_leaf_text(v))),
{
    let p = path_text(q);
    let t = json_leaf_text(v);
    let l = assignment_text(p, t);
    lemma_path_clean(q);
    lemma_leaf_clean(v);
    assert(l[0] == p[0]);
    assert(l.last() == ';');
    lemma_trim_keeps(l);
    assert forall|j: int| 0 <= j < l.len() implies #[trigger] l[j] != '\n' by {
        if j < p.len() {
            assert(l[j] == p[j]);
        } else if p.len() + 3 <= j < p.len() + 3 + t.len() {
            assert(l[j] == t[j - p.len() - 3]);
        }
    }
}

/// The lines that the assignments `asg` are written as, in order.
pub open spec fn lines_text(asg: Seq<(Seq<Segment>, Json)>) -> Seq<char>
    decreases asg.len(),
{
    if asg.len() == 0 {
        Seq::empty()
    } else {
        line_text(path_text(asg[0].0), json_leaf_text(asg[0].1)) + lines_text(asg.drop_first())
    }
}

proof fn lemma_lines_text_concat(a: Seq<(Seq<Segment>, Json)>, b: Seq<(Seq<Segment>, Json)>)
    ensures
        lines_text(a + b) == lines_text(a) + lines_text(b),
    decreases a.len(),
{
    if a.len() == 0 {
        assert(a + b =~= b);
        assert(lines_text(a) + lines_text(b) =~= lines_text(b));
    } else {
        assert((a + b).drop_first() =~= a.drop_first() + b);
        assert((a + b)[0] == a[0]);
        lemma_lines_text_concat(a.drop_first(), b);
        assert(lines_text(a + b) =~= lines_text(a) + lines_text(b));
    }
}

proof fn lemma_lines_text_one(x: (Seq<Segment>, Json))
    ensures
        lines_text(seq![x]) == line_text(path_text(x.0), json_leaf_text(x.1)),
{
    let a = seq![x];
    assert(a.drop_first() =~= Seq::<(Seq<Segment>, Json)>::empty());
    assert(lines_text(a.drop_first()) == Seq::<char>::empty());
    assert(a[0] == x);
    assert(lines_text(a) == line_text(path_text(x.0), json_leaf_text(x.1)) + Seq::<char>::empty());
    assert(lines_text(a) =~= line_text(path_text(x.0), json_leaf_text(x.1)));
}

proof fn lemma_path_text_push(q: Seq<Segment>, seg: Segment)
    ensures
        path_text(q.push(seg)) == path_text(q) + seg_text(seg),
{
    assert(q.push(seg).drop_last() =~= q);
    assert(path_text(q.push(seg)) =~= path_text(q) + seg_text(seg));
}

/// The gron text of `v` at the path `q` is the text of the lines of its assignments.
proof fn lemma_text_lines(v: Json, q: Seq<Segment>)
    ensures
        gron_text_at(v, path_text(q)) == lines_text(assignments(v, q)),
    decreases v, 0int,
{
    let first = seq![(q, empty_like(v))];
    lemma_lines_text_one((q, empty_like(v)));
    match v {
        Json::Object(m) => {
            lemma_members_lines(m, q, 0);
            lemma_lines_text_concat(first, member_assignments(m, q, 0));
        },
        Json::Array(a) => {
            lemma_elements_lines(a, q, 0);
            lemma_lines_text_concat(first, element_assignments(a, q, 0));
        },
        _ => {
            assert(assignments(v, q) =~= first);
            assert(gron_text_at(v, path_text(q)) =~= line_text(
                path_text(q),
                json_leaf_text(empty_like(v)),
            ));
        },
    }
}

proof fn lemma_members_lines(m: Seq<(Seq<char>, Json)>, q: Seq<Segment>, i: int)
    requires
        0 <= i,
    ensures
        members_text(m, path_text(q), i) == lines_text(member_assignments(m, q, i)),
    decreases m, m.len() - i,
{
    if i < m.len() {
        let kq = q.push(Segment::Property(m[i].0));
        lemma_path_text_push(q, Segment::Property(m[i].0));
        lemma_text_lines(m[i].1, kq);
        lemma_members_lines(m, q, i + 1);
        lemma_lines_text_concat(assignments(m[i].1, kq), member_assignments(m, q, i + 1));
    } else {
        assert(lines_text(member_assignments(m, q, i)) =~= Seq::<char>::empty());
    }
}

proof fn lemma_elements_lines(a: Seq<Json>, q: Seq<Segment>, i: int)
    requires
        0 <= i,
    ensures
        elements_text(a, path_text(q), i) == lines_text(element_assignments(a, q, i)),
    decreases a, a.len() - i,
{
    if i < a.len() {
        let kq = q.push(Segment::Index(i as nat));
        lemma_path_text_push(q, Segment::Index(i as nat));
        lemma_text_lines(a[i], kq);
        lemma_elements_lines(a, q, i + 1);
        lemma_lines_text_concat(assignments(a[i], kq), element_assignments(a, q, i + 1));
    } else {
        assert(lines_text(element_assignments(a, q, i)) =~= Seq::<char>::empty());
    }
}

/// Each assignment of `asg` is written so that it reads back.
pub open spec fn assignments_ok(asg: Seq<(Seq<Segment>, Json)>) -> bool {
    forall|i: int| 0 <= i < asg.len() ==> path_ok(#[trigger] asg[i].0) && leaf_facts(asg[i].1)
}

/// The first line break at or after `start` ends a run without line breaks.
proof fn lemma_next_newline_at(s: Seq<char>, start: int, e: int)
    requires
        0 <= start <= e < s.len(),
        s[e] == '\n',
        forall|k: int| start <= k < e ==> #[trigger] s[k] != '\n',
    ensures
        next_newline(s, start) == e,
    decreases e - start,
{
    if start < e {
        lemma_next_newline_at(s, start + 1, e);
    }
}

/// Reading the lines of the assignments `asg`, written from `start` to the end of `s`,
/// applies them in order.
proof fn lemma_lines_read(
    s: Seq<char>,
    start: int,
    n: nat,
    root: Json,
    asg: Seq<(Seq<Segment>, Json)>,
)
    requires
        0 <= start <= s.len(),
        s.skip(start) == lines_text(asg),
        assignments_ok(asg),
    ensures
        gron_from(s, start, n, root) == Ok::<Json, LineFailure>(apply_all(root, asg)),
    decreases asg.len(),
{
    if asg.len() == 0 {
        assert(s.skip(start).len() == 0);
        assert(s.subrange(start, start) =~= Seq::<char>::empty());
        assert(trim(Seq::<char>::empty()) =~= Seq::<char>::empty());
    } else {
        let q = asg[0].0;
        let v = asg[0].1;
        let rest = asg.drop_first();
        assert(path_ok(q) && leaf_facts(v));
        assert(assignments_ok(rest)) by {
            assert forall|i: int| 0 <= i < rest.len() implies path_ok(#[trigger] rest[i].0)
                && leaf_facts(rest[i].1) by {
                assert(rest[i] == asg[i + 1]);
            }
        }
        let l = assignment_text(path_text(q), json_leaf_text(v));
        let e = start + l.len();
        assert(line_text(path_text(q), json_leaf_text(v)) =~= l + seq!['\n']);
        assert(s.skip(start) =~= l + seq!['\n'] + lines_text(rest));
        lemma_assignment_shape(q, v);
        lemma_assignment_read(q, v, root);
        assert(s.subrange(start, e) =~= l) by {
            assert forall|k: int| 0 <= k < l.len() implies s.subrange(start, e)[k] == l[k] by {
                assert(s.skip(start)[k] == s[start + k]);
            }
        }
        assert(s[e] == '\n') by {
            assert(s.skip(start)[l.len() as int] == s[e]);
        }
        assert forall|k: int| start <= k < e implies #[trigger] s[k] != '\n' by {
            assert(s.skip(start)[k - start] == s[k]);
            assert(l[k - start] != '\n');
        }
        lemma_next_newline_at(s, start, e);
        assert(line_step(s.subrange(start, e), n, root) == Ok::<Json, LineFailure>(
            set_path(root, q, v),
        ));
        assert(s.skip(e + 1) =~= lines_text(rest)) by {
            assert forall|k: int| 0 <= k < s.skip(e + 1).len() implies s.skip(e + 1)[k]
                == lines_text(rest)[k] by {
                assert(s.skip(start)[l.len() + 1 + k] == s[e + 1 + k]);
            }
        }
        lemma_lines_read(s, e + 1, n + 1, set_path(root, q, v), rest);
    }
}

proof fn lemma_assignments_ok_concat(
    a: Seq<(Seq<Segment>, Json)>,
    b: Seq<(Seq<Segment>, Json)>,
)
    requires
        assignments_ok(a),
        assignments_ok(b),
    ensures
        assignments_ok(a + b),
{
    assert forall|i: int| 0 <= i < (a + b).len() implies path_ok(#[trigger] (a + b)[i].0)
        && leaf_facts((a + b)[i].1) by {
        if i < a.len() {
            assert((a + b)[i] == a[i]);
            assert(path_ok(a[i].0) && leaf_facts(a[i].1));
        } else {
            let k = i - a.len();
            assert((a + b)[i] == b[k]);
            assert(path_ok(b[k].0) && leaf_facts(b[k].1));
        }
    }
}

proof fn lemma_path_ok_push(q: Seq<Segment>, seg: Segment)
    requires
        path_ok(q),
        segment_ok(seg),
    ensures
        path_ok(q.push(seg)),
{
    assert forall|i: int| 0 <= i < q.push(seg).len() implies segment_ok(
        #[trigger] q.push(seg)[i],
    ) by {
        if i < q.len() {
            assert(q.push(seg)[i] == q[i]);
        }
    }
}

/// The assignments of a well-formed value whose texts the writer writes as it promises,
/// at a path that reads back, are all written so that they read back.
proof fn lemma_assignments_ok(v: Json, q: Seq<Segment>)
    requires
        path_ok(q),
        text_facts(v),
        well_formed(v),
    ensures
        assignments_ok(assignments(v, q)),
    decreases v, 0int,
{
    let first = seq![(q, empty_like(v))];
    assert(assignments_ok(first)) by {
        assert forall|i: int| 0 <= i < first.len() implies path_ok(#[trigger] first[i].0)
            && leaf_facts(first[i].1) by {
            assert(first[i] == (q, empty_like(v)));
        }
    }
    match v {
        Json::Object(m) => {
            lemma_members_ok(m, q, 0);
            lemma_assignments_ok_concat(first, member_assignments(m, q, 0));
        },
        Json::Array(a) => {
            lemma_elements_ok(a, q, 0);
            lemma_assignments_ok_concat(first, element_assignments(a, q, 0));
        },
        _ => {
            assert(assignments(v, q) =~= first);
        },
    }
}

proof fn lemma_members_ok(m: Seq<(Seq<char>, Json)>, q: Seq<Segment>, i: int)
    requires
        path_ok(q),
        0 <= i,
        members_facts(m, i),
        members_well_formed(m, i),
    ensures
        assignments_ok(member_assignments(m, q, i)),
    decreases m, m.len() - i,
{
    if i < m.len() {
        let kq = q.push(Segment::Property(m[i].0));
        lemma_path_ok_push(q, Segment::Property(m[i].0));
        lemma_assignments_ok(m[i].1, kq);
        lemma_members_ok(m, q, i + 1);
        lemma_assignments_ok_concat(assignments(m[i].1, kq), member_assignments(m, q, i + 1));
    } else {
        assert(member_assignments(m, q, i).len() == 0);
    }
}

proof fn lemma_elements_ok(a: Seq<Json>, q: Seq<Segment>, i: int)
    requires
        path_ok(q),
        0 <= i,
        a.len() <= usize::MAX + 1,
        elements_facts(a, i),
        elements_well_formed(a, i),
    ensures
        assignments_ok(element_assignments(a, q, i)),
    decreases a, a.len() - i,
{
    if i < a.len() {
        let kq = q.push(Segment::Index(i as nat));
        lemma_path_ok_push(q, Segment::Index(i as nat));
        lemma_assignments_ok(a[i], kq);
        lemma_elements_ok(a, q, i + 1);
        lemma_assignments_ok_concat(assignments(a[i], kq), element_assignments(a, q, i + 1));
    } else {
        assert(element_assignments(a, q, i).len() == 0);
    }
}

/// Reading back the gron text of a well-formed value gives that value, wherever the
/// writer of values without members or elements keeps its promises.
pub proof fn lemma_gron_round_trip(v: Json)
    requires
        well_formed(v),
        text_facts(v),
    ensures
        gron_spec(gron_text(v)) == Ok::<Json, LineFailure>(v),
{
    let q = Seq::<Segment>::empty();
    let s = gron_text(v);
    assert(segs_text(q) =~= Seq::<char>::empty());
    assert(path_text(q) =~= root_text());
    lemma_text_lines(v, q);
    lemma_assignments_ok(v, q);
    assert(s.skip(0) =~= s);
    lemma_lines_read(s, 0, 1, Json::Null, assignments(v, q));
    lemma_assignments_rebuild(v);
}

} // verus!

