//! Paths of gron assignments: `json`, followed by `.name`, `["key"]`, `['key']` and
//! `[index]` segments.
use vstd::prelude::*;
use vstd::utf8::*;

use crate::chars::{
    char_from_u32, char_len_utf8, digit_value, hex_digit_value, hex_value, is_ascii_digit,
    is_ascii_hexdigit, is_digit, is_hex_digit, is_ident_continue,
    is_ident_start, is_identifier_continue, is_identifier_start, lemma_utf8_len_take_le,
    lemma_utf8_len_take_next, utf8_len, utf8_width,
};
use crate::error::{Failure, GronError};

use crate::json::{json_string_value, parse_json_string_literal};
use crate::text::{str_chars, string_of, sub_chars};
use crate::chars::push_char;

verus! {

/// The model of a path segment.
pub enum Segment {
    Property(Seq<char>),
    Index(nat),
}

/// One step of a path: an object member by name, or an array element by index.
#[derive(Debug)]
pub enum PathSegment {
    Property(String),
    Index(usize),
}

impl View for PathSegment {
    type V = Segment;

    open spec fn view(&self) -> Segment {
        match self {
            PathSegment::Property(p) => Segment::Property(p@),
            PathSegment::Index(i) => Segment::Index(*i as nat),
        }
    }
}

pub open spec fn peek(s: Seq<char>, i: int) -> Option<char> {
    if 0 <= i < s.len() {
        Some(s[i])
    } else {
        None
    }
}

/// The index after `i` once the character there, if any, is consumed.
pub open spec fn bump(s: Seq<char>, i: int) -> int {
    if 0 <= i < s.len() {
        i + 1
    } else {
        i
    }
}

/// The end of the run of identifier characters that starts at `j`.
pub open spec fn ident_end(s: Seq<char>, j: int) -> int
    decreases s.len() - j,
{
    if 0 <= j < s.len() && is_ident_continue(s[j]) {
        ident_end(s, j + 1)
    } else {
        j
    }
}

/// The end of the identifier that starts at `i`: a letter, `_` or `$`, then letters,
/// digits, `_` and `$`.
pub open spec fn identifier_end(s: Seq<char>, i: int) -> Option<int> {
    if 0 <= i < s.len() && is_ident_start(s[i]) {
        Some(ident_end(s, i + 1))
    } else {
        None
    }
}

/// The end of the run of decimal digits that starts at `j`.
pub open spec fn digits_end(s: Seq<char>, j: int) -> int
    decreases s.len() - j,
{
    if 0 <= j < s.len() && is_digit(s[j]) {
        digits_end(s, j + 1)
    } else {
        j
    }
}

/// The number that the decimal digits `d` denote.
pub open spec fn decimal_value(d: Seq<char>) -> nat
    decreases d.len(),
{
    if d.len() == 0 {
        0
    } else {
        decimal_value(d.drop_last()) * 10 + digit_value(d.last())
    }
}

/// Reading the root `json` at `i`.
pub open spec fn root_spec(s: Seq<char>, i: int) -> (Result<(), Failure>, int) {
    match identifier_end(s, i) {
        None => (Err(Failure::MissingRoot), i),
        Some(e) => if s.subrange(i, e) == "json"@ {
            (Ok(()), e)
        } else {
            (Err(Failure::WrongRoot(s.subrange(i, e))), e)
        },
    }
}

/// Reading the property name after a `.`, at `i`.
pub open spec fn dot_property_spec(s: Seq<char>, i: int) -> (Result<Seq<char>, Failure>, int) {
    match identifier_end(s, i) {
        None => (Err(Failure::MissingPropertyName), i),
        Some(e) => (Ok(s.subrange(i, e)), e),
    }
}

/// Reading an array index at `i`: the decimal digits there, as a `usize`.
pub open spec fn index_spec(s: Seq<char>, i: int) -> (Result<nat, Failure>, int) {
    let e = digits_end(s, i);
    if e == i {
        (Err(Failure::EmptyIndex), e)
    } else if decimal_value(s.subrange(i, e)) > usize::MAX {
        (Err(Failure::IndexOverflow), e)
    } else {
        (Ok(decimal_value(s.subrange(i, e))), e)
    }
}

/// Consuming the character `c` at `i`.
pub open spec fn expect_spec(s: Seq<char>, i: int, c: char) -> (Result<(), Failure>, int) {
    match peek(s, i) {
        Some(ch) => if ch == c {
            (Ok(()), i + 1)
        } else {
            (Err(Failure::ExpectedChar(c, ch)), i)
        },
        None => (Err(Failure::ExpectedCharAtEnd(c)), i),
    }
}

/// The character that a backslash followed by `c` stands for, where `c` is no `u`:
/// `b`, `f`, `n`, `r` and `t` stand for control characters, any other character for
/// itself.
pub open spec fn escaped_char(c: char) -> char {
    if c == 'b' {
        '\u{8}'
    } else if c == 'f' {
        '\u{c}'
    } else if c == 'n' {
        '\n'
    } else if c == 'r' {
        '\r'
    } else if c == 't' {
        '\t'
    } else {
        c
    }
}

/// The first of the four characters at `i + k`, `i + k + 1`, ... `i + 3` that is missing
/// or no hex digit, with its index.
pub open spec fn hex_failure(s: Seq<char>, i: int, k: int) -> Option<(Failure, int)>
    decreases 4 - k,
{
    if k >= 4 {
        None
    } else if !(0 <= i + k < s.len()) {
        Some((Failure::UnclosedUnicode, i + k))
    } else if !is_hex_digit(s[i + k]) {
        Some((Failure::InvalidUnicodeChar(s[i + k]), i + k))
    } else {
        hex_failure(s, i, k + 1)
    }
}

/// The number that the four hex digits at `i` denote.
pub open spec fn hex4_value(s: Seq<char>, i: int) -> nat {
    4096 * hex_value(s[i]) + 256 * hex_value(s[i + 1]) + 16 * hex_value(s[i + 2]) + hex_value(
        s[i + 3],
    )
}

/// Reading the four hex digits of a `\u` escape at `i`.
pub open spec fn unicode_spec(s: Seq<char>, i: int) -> (Result<char, Failure>, int) {
    match hex_failure(s, i, 0) {
        Some((f, j)) => (Err(f), j),
        None => if is_scalar(hex4_value(s, i) as u32) {
            (Ok(hex4_value(s, i) as u32 as char), i + 4)
        } else {
            (Err(Failure::InvalidCodePoint), i + 4)
        },
    }
}

/// Reading the escape sequence after a backslash, at `i`.
pub open spec fn escape_spec(s: Seq<char>, i: int) -> (Result<char, Failure>, int) {
    match peek(s, i) {
        None => (Err(Failure::UnclosedEscape), i),
        Some(c) => if c == 'u' {
            unicode_spec(s, i + 1)
        } else {
            (Ok(escaped_char(c)), i + 1)
        },
    }
}

/// Reading the rest of a string quoted by `d` from `j`, after `acc` was read.
pub open spec fn quoted_body(s: Seq<char>, j: int, d: char, acc: Seq<char>) -> (
    Result<Seq<char>, Failure>,
    int,
)
    decreases s.len() - j,
{
    if !(0 <= j < s.len()) {
        (Err(Failure::UnclosedString), j)
    } else if s[j] == d {
        (Ok(acc), j + 1)
    } else if s[j] == '\\' {
        let (r, k) = escape_spec(s, j + 1);
        match r {
            Err(f) => (Err(f), k),
            Ok(c) => {
                proof {
                    lemma_escape_spec_bounds(s, j + 1);
                }
                quoted_body(s, k, d, acc.push(c))
            },
        }
    } else {
        quoted_body(s, j + 1, d, acc.push(s[j]))
    }
}

/// Reading a string quoted by `d` whose opening quote is at `i`.
pub open spec fn quoted_spec(s: Seq<char>, i: int, d: char) -> (Result<Seq<char>, Failure>, int) {
    quoted_body(s, bump(s, i), d, Seq::empty())
}

/// The index after the `"` that closes a JSON string, scanning from `j`.
pub open spec fn json_close(s: Seq<char>, j: int, escaped: bool) -> Option<int>
    decreases s.len() - j,
{
    if !(0 <= j < s.len()) {
        None
    } else if escaped {
        json_close(s, j + 1, false)
    } else if s[j] == '\\' {
        json_close(s, j + 1, true)
    } else if s[j] == '"' {
        Some(j + 1)
    } else {
        json_close(s, j + 1, false)
    }
}

/// Reading a JSON string whose opening `"` is at `i`.
pub open spec fn json_string_spec(s: Seq<char>, i: int) -> (Result<Seq<char>, Failure>, int) {
    match json_close(s, bump(s, i), false) {
        None => (Err(Failure::UnclosedString), s.len() as int),
        Some(e) => match json_string_value(s.subrange(i, e)) {
            Ok(v) => (Ok(v), e),
            Err(m) => (Err(Failure::InvalidQuotedSegment(m)), e),
        },
    }
}

pub open spec fn as_property(r: Result<Seq<char>, Failure>) -> Result<Segment, Failure> {
    match r {
        Ok(v) => Ok(Segment::Property(v)),
        Err(f) => Err(f),
    }
}

pub open spec fn as_index(r: Result<nat, Failure>) -> Result<Segment, Failure> {
    match r {
        Ok(n) => Ok(Segment::Index(n)),
        Err(f) => Err(f),
    }
}

/// Reading what stands between `[` and `]`, at `j`.
pub open spec fn bracket_inner_spec(s: Seq<char>, j: int) -> (Result<Segment, Failure>, int) {
    match peek(s, j) {
        None => (Err(Failure::UnclosedBracket), j),
        Some(c) => if c == '"' {
            (as_property(json_string_spec(s, j).0), json_string_spec(s, j).1)
        } else if c == '\'' {
            (as_property(quoted_spec(s, j, '\'').0), quoted_spec(s, j, '\'').1)
        } else if is_digit(c) {
            (as_index(index_spec(s, j).0), index_spec(s, j).1)
        } else {
            (Err(Failure::UnsupportedBracket(c)), j)
        },
    }
}

/// Reading a bracketed segment at `i`.
pub open spec fn bracket_spec(s: Seq<char>, i: int) -> (Result<Segment, Failure>, int) {
    let (r0, j) = expect_spec(s, i, '[');
    match r0 {
        Err(f) => (Err(f), j),
        Ok(_) => {
            let (r1, k) = bracket_inner_spec(s, j);
            match r1 {
                Err(f) => (Err(f), k),
                Ok(seg) => {
                    let (r2, m) = expect_spec(s, k, ']');
                    match r2 {
                        Err(f) => (Err(f), m),
                        Ok(_) => (Ok(seg), m),
                    }
                },
            }
        },
    }
}

/// Reading the segments of a path from `j` to its end, after `acc` was read.
pub open spec fn segments_spec(s: Seq<char>, j: int, acc: Seq<Segment>) -> (
    Result<Seq<Segment>, Failure>,
    int,
)
    decreases s.len() - j,
{
    if !(0 <= j < s.len()) {
        (Ok(acc), j)
    } else if s[j] == '.' {
        let (r, k) = dot_property_spec(s, j + 1);
        match r {
            Err(f) => (Err(f), k),
            Ok(name) => {
                proof {
                    lemma_ident_end_bounds(s, j + 2);
                }
                segments_spec(s, k, acc.push(Segment::Property(name)))
            },
        }
    } else if s[j] == '[' {
        let (r, k) = bracket_spec(s, j);
        match r {
            Err(f) => (Err(f), k),
            Ok(seg) => {
                proof {
                    lemma_bracket_spec_bounds(s, j);
                }
                segments_spec(s, k, acc.push(seg))
            },
        }
    } else {
        (Err(Failure::UnexpectedPathChar(s[j])), j)
    }
}

/// Reading a whole path from `i`: the root `json`, then its segments.
pub open spec fn path_spec(s: Seq<char>, i: int) -> (Result<Seq<Segment>, Failure>, int) {
    let (r, j) = root_spec(s, i);
    match r {
        Err(f) => (Err(f), j),
        Ok(_) => segments_spec(s, j, Seq::empty()),
    }
}

pub proof fn lemma_ident_end_bounds(s: Seq<char>, j: int)
    requires
        0 <= j <= s.len(),
    ensures
        j <= ident_end(s, j) <= s.len(),
    decreases s.len() - j,
{
    if j < s.len() && is_ident_continue(s[j]) {
        lemma_ident_end_bounds(s, j + 1);
    }
}

pub proof fn lemma_digits_end_bounds(s: Seq<char>, j: int)
    requires
        0 <= j <= s.len(),
    ensures
        j <= digits_end(s, j) <= s.len(),
    decreases s.len() - j,
{
    if j < s.len() && is_digit(s[j]) {
        lemma_digits_end_bounds(s, j + 1);
    }
}

pub proof fn lemma_hex_failure_bounds(s: Seq<char>, i: int, k: int)
    requires
        0 <= i,
        0 <= k <= 4,
        i + k <= s.len(),
    ensures
        hex_failure(s, i, k) matches Some((_, j)) ==> i + k <= j <= s.len(),
        hex_failure(s, i, k) is None ==> i + 4 <= s.len(),
    decreases 4 - k,
{
    if k < 4 && 0 <= i + k < s.len() && is_hex_digit(s[i + k]) {
        lemma_hex_failure_bounds(s, i, k + 1);
    }
}

pub proof fn lemma_escape_spec_bounds(s: Seq<char>, i: int)
    requires
        0 <= i,
    ensures
        escape_spec(s, i).0 is Ok ==> i < escape_spec(s, i).1 <= s.len(),
        i <= s.len() ==> i <= escape_spec(s, i).1 <= s.len(),
{
    if 0 <= i < s.len() && s[i] == 'u' {
        lemma_hex_failure_bounds(s, i + 1, 0);
    }
}

pub proof fn lemma_quoted_body_bounds(s: Seq<char>, j: int, d: char, acc: Seq<char>)
    requires
        0 <= j <= s.len(),
    ensures
        j <= quoted_body(s, j, d, acc).1 <= s.len(),
        quoted_body(s, j, d, acc).0 is Ok ==> j < quoted_body(s, j, d, acc).1,
    decreases s.len() - j,
{
    if j < s.len() && s[j] != d {
        if s[j] == '\\' {
            lemma_escape_spec_bounds(s, j + 1);
            let (r, k) = escape_spec(s, j + 1);
            if r is Ok {
                lemma_quoted_body_bounds(s, k, d, acc.push(r->Ok_0));
            }
        } else {
            lemma_quoted_body_bounds(s, j + 1, d, acc.push(s[j]));
        }
    }
}

pub proof fn lemma_json_close_bounds(s: Seq<char>, j: int, escaped: bool)
    requires
        0 <= j,
    ensures
        json_close(s, j, escaped) matches Some(e) ==> j < e <= s.len(),
    decreases s.len() - j,
{
    if 0 <= j < s.len() {
        if escaped || s[j] != '"' {
            lemma_json_close_bounds(s, j + 1, !escaped && s[j] == '\\');
        }
    }
}

pub proof fn lemma_bracket_spec_bounds(s: Seq<char>, i: int)
    requires
        0 <= i <= s.len(),
    ensures
        i <= bracket_spec(s, i).1 <= s.len(),
        bracket_spec(s, i).0 is Ok ==> i < bracket_spec(s, i).1,
{
    if i < s.len() && s[i] == '[' {
        let j = i + 1;
        if j < s.len() {
            let c = s[j];
            if c == '"' {
                lemma_json_close_bounds(s, j + 1, false);
            } else if c == '\'' {
                lemma_quoted_body_bounds(s, j + 1, '\'', Seq::empty());
            } else if is_digit(c) {
                lemma_digits_end_bounds(s, j);
            }
        }
    }
}

/// The models of a sequence of path segments.
pub open spec fn segments_view(v: Seq<PathSegment>) -> Seq<Segment> {
    v.map_values(|p: PathSegment| p@)
}

/// Reads the path `left`.
pub fn parse_path(left: &str) -> (r: Result<Vec<PathSegment>, GronError>)
    ensures
        match r {
            Ok(v) => path_spec(left@, 0).0 == Ok::<Seq<Segment>, Failure>(segments_view(v@)),
            Err(e) => path_spec(left@, 0).0 == Err::<Seq<Segment>, Failure>(e@),
        },
{
    let mut parser = PathParser::new(left);
    parser.parse()
}

/// A parser over the characters of a path or a quoted value. `pos` is the byte offset
/// of the next character in the UTF-8 encoding of the text.
pub struct PathParser {
    chars: Vec<char>,
    idx: usize,
    pub pos: usize,
}

impl PathParser {
    /// The text that is parsed.
    pub closed spec fn text(&self) -> Seq<char> {
        self.chars@
    }

    /// The index of the next character in `text()`.
    pub closed spec fn index(&self) -> int {
        self.idx as int
    }

    /// The value of the public field `pos`.
    pub closed spec fn byte_pos(&self) -> int {
        self.pos as int
    }

    /// The index is within the text, `pos` is its byte offset, and the encoding of the
    /// whole text fits in `usize`.
    pub closed spec fn wf(&self) -> bool {
        &&& self.idx <= self.chars@.len()
        &&& self.pos == utf8_len(self.chars@.take(self.idx as int))
        &&& utf8_len(self.chars@) <= usize::MAX
    }

    /// Where a valid parser stands: at an index within the text, and `pos` is the byte
    /// offset at which the character at that index starts in the UTF-8 encoding of the
    /// text, which fits in `usize`.
    pub proof fn lemma_position(&self)
        requires
            self.wf(),
        ensures
            0 <= self.index() <= self.text().len(),
            self.byte_pos() == utf8_len(self.text().take(self.index())),
            utf8_len(self.text()) <= usize::MAX,
    {
    }

    /// A parser at the start of `input`.
    pub fn new(input: &str) -> (p: PathParser)
        ensures
            p.wf(),
            p.text() == input@,
            p.index() == 0,
            p.byte_pos() == 0,
    {
        broadcast use vstd::slice::group_slice_axioms;

        let chars = str_chars(input);
        let bytes = input.as_bytes();
        let _n = bytes.len();
        assert(chars@.take(0) =~= Seq::<char>::empty());
        assert(encode_utf8(Seq::<char>::empty()) =~= Seq::<u8>::empty());
        PathParser { chars, idx: 0, pos: 0 }
    }

    /// The next character, if any.
    pub fn peek_char(&self) -> (c: Option<char>)
        requires
            self.wf(),
        ensures
            c == peek(self.text(), self.index()),
    {
        if self.idx < self.chars.len() {
            Some(self.chars[self.idx])
        } else {
            None
        }
    }

    /// Consumes the next character, if any, advancing `pos` by its UTF-8 width.
    pub fn bump_char(&mut self)
        requires
            old(self).wf(),
        ensures
            final(self).wf(),
            final(self).text() == old(self).text(),
            final(self).index() == bump(old(self).text(), old(self).index()),
            final(self).byte_pos() == old(self).byte_pos() + match peek(
                old(self).text(),
                old(self).index(),
            ) {
                Some(c) => utf8_width(c),
                None => 0,
            },
    {
        if self.idx < self.chars.len() {
            let c = self.chars[self.idx];
            proof {
                lemma_utf8_len_take_next(self.chars@, self.idx as int);
                lemma_utf8_len_take_le(self.chars@, self.idx + 1);
            }
            let w = char_len_utf8(c);
            self.pos = self.pos + w;
            self.idx = self.idx + 1;
        }
    }

    /// The characters after the current position.
    pub fn remaining_chars(&self) -> (r: Vec<char>)
        requires
            self.wf(),
        ensures
            r@ == self.text().skip(self.index()),
    {
        let r = sub_chars(&self.chars, self.idx, self.chars.len());
        assert(r@ =~= self.chars@.skip(self.idx as int));
        r
    }

    /// Whether the whole text has been consumed.
    pub fn is_done(&self) -> (b: bool)
        requires
            self.wf(),
        ensures
            b == (self.index() == self.text().len()),
    {
        self.idx == self.chars.len()
    }

    /// Reads an identifier: a letter, `_` or `$`, then letters, digits, `_` and `$`.
    /// Where none starts at the current position, nothing is consumed.
    pub fn read_identifier(&mut self) -> (r: Option<String>)
        requires
            old(self).wf(),
        ensures
            final(self).wf(),
            final(self).text() == old(self).text(),
            match identifier_end(old(self).text(), old(self).index()) {
                None => r is None && final(self).index() == old(self).index(),
                Some(e) => r matches Some(id) && id@ == old(self).text().subrange(
                    old(self).index(),
                    e,
                ) && final(self).index() == e,
            },
    {
        let start = self.idx;
        match self.peek_char() {
            None => return None,
            Some(first) => {
                if !is_identifier_start(first) {
                    return None;
                }
            },
        }
        self.bump_char();
        while self.idx < self.chars.len() && is_identifier_continue(self.chars[self.idx])
            invariant
                self.wf(),
                self.text() == old(self).text(),
                start < self.idx <= self.chars@.len(),
                ident_end(self.chars@, self.idx as int) == ident_end(
                    self.chars@,
                    start + 1,
                ),
            decreases self.chars@.len() - self.idx,
        {
            self.bump_char();
        }
        Some(string_of(&self.chars, start, self.idx))
    }

    /// Consumes `expected`, or fails naming what stands there instead.
    pub fn expect_char(&mut self, expected: char) -> (r: Result<(), GronError>)
        requires
            old(self).wf(),
        ensures
            final(self).wf(),
            final(self).text() == old(self).text(),
            final(self).index() == expect_spec(old(self).text(), old(self).index(), expected).1,
            match r {
                Ok(_) => expect_spec(old(self).text(), old(self).index(), expected).0 == Ok::<
                    (),
                    Failure,
                >(()),
                Err(e) => expect_spec(old(self).text(), old(self).index(), expected).0 == Err::<
                    (),
                    Failure,
                >(e@),
            },
    {
        match self.peek_char() {
            Some(ch) => {
                if ch == expected {
                    self.bump_char();
                    Ok(())
                } else {
                    Err(GronError::ExpectedChar(expected, ch))
                }
            },
            None => Err(GronError::ExpectedCharAtEnd(expected)),
        }
    }

    /// Reads the root of a path, which must be the identifier `json`.
    pub fn consume_root(&mut self) -> (r: Result<(), GronError>)
        requires
            old(self).wf(),
        ensures
            final(self).wf(),
            final(self).text() == old(self).text(),
            final(self).index() == root_spec(old(self).text(), old(self).index()).1,
            match r {
                Ok(_) => root_spec(old(self).text(), old(self).index()).0 is Ok,
                Err(e) => root_spec(old(self).text(), old(self).index()).0 == Err::<(), Failure>(
                    e@,
                ),
            },
    {
        match self.read_identifier() {
            None => Err(GronError::MissingRoot),
            Some(root) => {
                if is_json_word(&root) {
                    Ok(())
                } else {
                    Err(GronError::WrongRoot(root))
                }
            },
        }
    }

    /// Reads the property name that follows a `.`.
    pub fn parse_dot_property(&mut self) -> (r: Result<String, GronError>)
        requires
            old(self).wf(),
        ensures
            final(self).wf(),
            final(self).text() == old(self).text(),
            final(self).index() == dot_property_spec(old(self).text(), old(self).index()).1,
            match r {
                Ok(name) => dot_property_spec(old(self).text(), old(self).index()).0 == Ok::<
                    Seq<char>,
                    Failure,
                >(name@),
                Err(e) => dot_property_spec(old(self).text(), old(self).index()).0 == Err::<
                    Seq<char>,
                    Failure,
                >(e@),
            },
    {
        match self.read_identifier() {
            Some(name) => Ok(name),
            None => Err(GronError::MissingPropertyName),
        }
    }

    /// Reads an array index: the decimal digits at the current position, which must
    /// denote a number that fits in `usize`.
    pub fn parse_index(&mut self) -> (r: Result<usize, GronError>)
        requires
            old(self).wf(),
        ensures
            final(self).wf(),
            final(self).text() == old(self).text(),
            final(self).index() == index_spec(old(self).text(), old(self).index()).1,
            match r {
                Ok(n) => index_spec(old(self).text(), old(self).index()).0 == Ok::<nat, Failure>(
                    n as nat,
                ),
                Err(e) => index_spec(old(self).text(), old(self).index()).0 == Err::<
                    nat,
                    Failure,
                >(e@),
            },
    {
        let start = self.idx;
        while self.idx < self.chars.len() && is_ascii_digit(self.chars[self.idx])
            invariant
                self.wf(),
                self.text() == old(self).text(),
                start == old(self).index(),
                start <= self.idx <= self.chars@.len(),
                digits_end(self.chars@, self.idx as int) == digits_end(self.chars@, start as int),
                forall|k: int| start <= k < self.idx ==> is_digit(#[trigger] self.chars@[k]),
            decreases self.chars@.len() - self.idx,
        {
            self.bump_char();
        }
        let end = self.idx;
        if end == start {
            return Err(GronError::EmptyIndex);
        }
        let ghost d = self.chars@.subrange(start as int, end as int);
        let mut value: usize = 0;
        let mut k = start;
        while k < end
            invariant
                self.wf(),
                self.text() == old(self).text(),
                self.idx == end,
                start == old(self).index(),
                digits_end(self.chars@, start as int) == end,
                start <= k <= end <= self.chars@.len(),
                d == self.chars@.subrange(start as int, end as int),
                forall|m: int| start <= m < end ==> is_digit(#[trigger] self.chars@[m]),
                value == decimal_value(self.chars@.subrange(start as int, k as int)),
            decreases end - k,
        {
            let c = self.chars[k];
            let digit = hex_digit_value(c);
            assert(self.chars@.subrange(start as int, k + 1).drop_last() =~= self.chars@.subrange(
                start as int,
                k as int,
            ));
            if value > (usize::MAX - digit as usize) / 10 {
                proof {
                    let dd = digit as usize;
                    assert(value * 10 + dd > usize::MAX) by (nonlinear_arith)
                        requires
                            value > (usize::MAX - dd) / 10,
                            dd < 16,
                    ;
                    lemma_decimal_value_prefix_le(d, k + 1 - start);
                    assert(d.take(k + 1 - start) =~= self.chars@.subrange(start as int, k + 1));
                }
                return Err(GronError::IndexOverflow);
            }
            value = value * 10 + digit as usize;
            k = k + 1;
        }
        assert(d =~= self.chars@.subrange(start as int, k as int));
        Ok(value)
    }
    /// Reads the escape sequence that follows a backslash.
    pub fn parse_escape_sequence(&mut self) -> (r: Result<char, GronError>)
        requires
            old(self).wf(),
        ensures
            final(self).wf(),
            final(self).text() == old(self).text(),
            final(self).index() == escape_spec(old(self).text(), old(self).index()).1,
            match r {
                Ok(c) => escape_spec(old(self).text(), old(self).index()).0 == Ok::<char, Failure>(
                    c,
                ),
                Err(e) => escape_spec(old(self).text(), old(self).index()).0 == Err::<
                    char,
                    Failure,
                >(e@),
            },
    {
        let ch = match self.peek_char() {
            None => return Err(GronError::UnclosedEscape),
            Some(c) => c,
        };
        self.bump_char();
        if ch == 'b' {
            Ok('\u{8}')
        } else if ch == 'f' {
            Ok('\u{c}')
        } else if ch == 'n' {
            Ok('\n')
        } else if ch == 'r' {
            Ok('\r')
        } else if ch == 't' {
            Ok('\t')
        } else if ch == 'u' {
            self.parse_unicode_escape()
        } else {
            Ok(ch)
        }
    }

    /// Reads the four hex digits of a `\u` escape and gives the character they name.
    pub fn parse_unicode_escape(&mut self) -> (r: Result<char, GronError>)
        requires
            old(self).wf(),
        ensures
            final(self).wf(),
            final(self).text() == old(self).text(),
            final(self).index() == unicode_spec(old(self).text(), old(self).index()).1,
            match r {
                Ok(c) => unicode_spec(old(self).text(), old(self).index()).0 == Ok::<char, Failure>(
                    c,
                ),
                Err(e) => unicode_spec(old(self).text(), old(self).index()).0 == Err::<
                    char,
                    Failure,
                >(e@),
            },
    {
        let start = self.idx;
        let mut k: usize = 0;
        while k < 4
            invariant
                self.wf(),
                self.text() == old(self).text(),
                start == old(self).index(),
                k <= 4,
                self.idx == start + k,
                hex_failure(self.chars@, start as int, 0) == hex_failure(
                    self.chars@,
                    start as int,
                    k as int,
                ),
                forall|m: int| start <= m < start + k ==> is_hex_digit(#[trigger] self.chars@[m]),
            decreases 4 - k,
        {
            match self.peek_char() {
                Some(ch) => {
                    if is_ascii_hexdigit(ch) {
                        self.bump_char();
                    } else {
                        return Err(GronError::InvalidUnicodeChar(ch));
                    }
                },
                None => return Err(GronError::UnclosedUnicode),
            }
            k = k + 1;
        }
        let d0 = hex_digit_value(self.chars[start]);
        let d1 = hex_digit_value(self.chars[start + 1]);
        let d2 = hex_digit_value(self.chars[start + 2]);
        let d3 = hex_digit_value(self.chars[start + 3]);
        let code = d0 * 4096 + d1 * 256 + d2 * 16 + d3;
        assert(code == hex4_value(self.chars@, start as int));
        assert(hex_failure(self.chars@, start as int, 4) is None);
        let ghost v = hex4_value(self.chars@, start as int);
        assert(v as u32 == code);
        match char_from_u32(code) {
            Some(c) => {
                assert(c as u32 == code);
                proof {
                    lemma_char_from_code(c, code);
                }
                assert(unicode_spec(self.chars@, start as int) == (
                    Ok::<char, Failure>(v as u32 as char),
                    start + 4,
                ));
                Ok(c)
            },
            None => Err(GronError::InvalidCodePoint),
        }
    }

    /// Reads a string quoted by `delimiter`, whose opening quote is the next character,
    /// resolving backslash escapes.
    pub fn parse_quoted_string(&mut self, delimiter: char) -> (r: Result<String, GronError>)
        requires
            old(self).wf(),
        ensures
            final(self).wf(),
            final(self).text() == old(self).text(),
            final(self).index() == quoted_spec(old(self).text(), old(self).index(), delimiter).1,
            match r {
                Ok(v) => quoted_spec(old(self).text(), old(self).index(), delimiter).0 == Ok::<
                    Seq<char>,
                    Failure,
                >(v@),
                Err(e) => quoted_spec(old(self).text(), old(self).index(), delimiter).0 == Err::<
                    Seq<char>,
                    Failure,
                >(e@),
            },
    {
        self.bump_char();
        let mut result = String::new();
        loop
            invariant
                self.wf(),
                self.text() == old(self).text(),
                quoted_spec(old(self).text(), old(self).index(), delimiter) == quoted_body(
                    self.chars@,
                    self.idx as int,
                    delimiter,
                    result@,
                ),
            decreases self.chars@.len() - self.idx,
        {
            match self.peek_char() {
                None => return Err(GronError::UnclosedString),
                Some(ch) => {
                    self.bump_char();
                    if ch == delimiter {
                        return Ok(result);
                    }
                    if ch == '\\' {
                        proof {
                            lemma_escape_spec_bounds(self.chars@, self.idx as int);
                        }
                        match self.parse_escape_sequence() {
                            Ok(c) => push_char(&mut result, c),
                            Err(e) => return Err(e),
                        }
                    } else {
                        push_char(&mut result, ch);
                    }
                },
            }
        }
    }

    /// Reads a double-quoted segment as a JSON string, whose opening `"` is the next
    /// character.
    pub fn parse_json_string(&mut self) -> (r: Result<String, GronError>)
        requires
            old(self).wf(),
        ensures
            final(self).wf(),
            final(self).text() == old(self).text(),
            final(self).index() == json_string_spec(old(self).text(), old(self).index()).1,
            match r {
                Ok(v) => json_string_spec(old(self).text(), old(self).index()).0 == Ok::<
                    Seq<char>,
                    Failure,
                >(v@),
                Err(e) => json_string_spec(old(self).text(), old(self).index()).0 == Err::<
                    Seq<char>,
                    Failure,
                >(e@),
            },
    {
        let start = self.idx;
        self.bump_char();
        let mut escaped = false;
        while self.idx < self.chars.len()
            invariant
                self.wf(),
                self.text() == old(self).text(),
                start == old(self).index(),
                start <= self.idx,
                json_close(self.chars@, bump(self.chars@, start as int), false) == json_close(
                    self.chars@,
                    self.idx as int,
                    escaped,
                ),
            decreases self.chars@.len() - self.idx,
        {
            let ch = self.chars[self.idx];
            self.bump_char();
            if escaped {
                escaped = false;
            } else if ch == '\\' {
                escaped = true;
            } else if ch == '"' {
                let text = string_of(&self.chars, start, self.idx);
                return match parse_json_string_literal(text.as_str()) {
                    Ok(v) => Ok(v),
                    Err(m) => Err(GronError::InvalidQuotedSegment(m)),
                };
            }
        }
        Err(GronError::UnclosedString)
    }

    /// Reads a bracketed segment: `["key"]`, `['key']` or `[index]`.
    pub fn parse_bracket_segment(&mut self) -> (r: Result<PathSegment, GronError>)
        requires
            old(self).wf(),
        ensures
            final(self).wf(),
            final(self).text() == old(self).text(),
            final(self).index() == bracket_spec(old(self).text(), old(self).index()).1,
            match r {
                Ok(seg) => bracket_spec(old(self).text(), old(self).index()).0 == Ok::<
                    Segment,
                    Failure,
                >(seg@),
                Err(e) => bracket_spec(old(self).text(), old(self).index()).0 == Err::<
                    Segment,
                    Failure,
                >(e@),
            },
    {
        match self.expect_char('[') {
            Err(e) => return Err(e),
            Ok(()) => {},
        }
        let segment = match self.peek_char() {
            Some(ch) => {
                if ch == '"' {
                    match self.parse_json_string() {
                        Ok(v) => PathSegment::Property(v),
                        Err(e) => return Err(e),
                    }
                } else if ch == '\'' {
                    match self.parse_quoted_string('\'') {
                        Ok(v) => PathSegment::Property(v),
                        Err(e) => return Err(e),
                    }
                } else if is_ascii_digit(ch) {
                    match self.parse_index() {
                        Ok(n) => PathSegment::Index(n),
                        Err(e) => return Err(e),
                    }
                } else {
                    return Err(GronError::UnsupportedBracket(ch));
                }
            },
            None => return Err(GronError::UnclosedBracket),
        };
        match self.expect_char(']') {
            Err(e) => return Err(e),
            Ok(()) => {},
        }
        Ok(segment)
    }

    /// Reads a whole path: the root `json`, then `.name` and bracketed segments up to the
    /// end of the text.
    pub fn parse(&mut self) -> (r: Result<Vec<PathSegment>, GronError>)
        requires
            old(self).wf(),
        ensures
            final(self).wf(),
            final(self).text() == old(self).text(),
            final(self).index() == path_spec(old(self).text(), old(self).index()).1,
            match r {
                Ok(v) => path_spec(old(self).text(), old(self).index()).0 == Ok::<
                    Seq<Segment>,
                    Failure,
                >(segments_view(v@)),
                Err(e) => path_spec(old(self).text(), old(self).index()).0 == Err::<
                    Seq<Segment>,
                    Failure,
                >(e@),
            },
    {
        match self.consume_root() {
            Err(e) => return Err(e),
            Ok(()) => {},
        }
        let mut segments: Vec<PathSegment> = Vec::new();
        assert(segments_view(segments@) =~= Seq::<Segment>::empty());
        while !self.is_done()
            invariant
                self.wf(),
                self.text() == old(self).text(),
                path_spec(old(self).text(), old(self).index()) == segments_spec(
                    self.chars@,
                    self.idx as int,
                    segments_view(segments@),
                ),
            decreases self.chars@.len() - self.idx,
        {
            let ghost j = self.idx as int;
            let ghost before = segments@;
            let ch = self.chars[self.idx];
            if ch == '.' {
                self.bump_char();
                match self.parse_dot_property() {
                    Ok(name) => {
                        proof {
                            lemma_ident_end_bounds(self.chars@, j + 2);
                        }
                        let seg = PathSegment::Property(name);
                        segments.push(seg);
                        assert(segments_view(segments@) =~= segments_view(before).push(seg@));
                    },
                    Err(e) => return Err(e),
                }
            } else if ch == '[' {
                proof {
                    lemma_bracket_spec_bounds(self.chars@, j);
                }
                match self.parse_bracket_segment() {
                    Ok(seg) => {
                        segments.push(seg);
                        assert(segments_view(segments@) =~= segments_view(before).push(seg@));
                    },
                    Err(e) => return Err(e),
                }
            } else {
                return Err(GronError::UnexpectedPathChar(ch));
            }
        }
        Ok(segments)
    }
}

proof fn lemma_char_from_code(c: char, v: u32)
    requires
        c as u32 == v,
    ensures
        v as char == c,
{
}

/// The value of a prefix of a run of digits is at most the value of the whole run.
proof fn lemma_decimal_value_prefix_le(d: Seq<char>, n: int)
    requires
        0 <= n <= d.len(),
    ensures
        decimal_value(d.take(n)) <= decimal_value(d),
    decreases d.len() - n,
{
    if n < d.len() {
        lemma_decimal_value_prefix_le(d, n + 1);
        assert(d.take(n + 1).drop_last() =~= d.take(n));
    } else {
        assert(d.take(n) =~= d);
    }
}

fn is_json_word(s: &String) -> (b: bool)
    ensures
        b == (s@ == "json"@),
{
    proof {
        reveal_strlit("json");
    }
    let v = str_chars(s.as_str());
    if v.len() == 4 && v[0] == 'j' && v[1] == 's' && v[2] == 'o' && v[3] == 'n' {
        assert(v@ =~= "json"@);
        true
    } else {
        false
    }
}

} // verus!
