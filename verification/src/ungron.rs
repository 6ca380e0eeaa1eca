//! Reading a gron text back into the JSON value it describes: each line assigns a value
//! at a path, and the lines are applied in order to a value that starts as null.
use vstd::prelude::*;
use vstd::string::*;

use crate::assign::{lemma_set_path_well_formed, well_formed};
use crate::error::{Failure, GronError, LineError, LineFailure};
use crate::json::{json_text_value, parse_json_text, set_path, set_value_at_path, Json, JsonValue};
use crate::path::{parse_path, path_spec, quoted_spec, segments_view, PathParser, Segment};
use crate::scan::{
    assignment_index, semicolon_end, split_assignment, strip_trailing_semicolon, trim,
    trim_range,
};
use crate::text::{str_chars, string_of};

verus! {

/// Reading a single-quoted value from `src`, which starts with its opening quote: the
/// quoted string, followed by nothing but whitespace.
pub open spec fn single_quoted_spec(src: Seq<char>) -> Result<Json, Failure> {
    let (r, j) = quoted_spec(src, 0, '\'');
    match r {
        Err(f) => Err(f),
        Ok(v) => if trim(src.skip(j)).len() == 0 {
            Ok(Json::Str(v))
        } else {
            Err(Failure::TrailingAfterString)
        },
    }
}

/// Reading the value of an assignment from the text after its `=`: the text up to the
/// terminating `;`, trimmed, is a single-quoted string or a JSON text.
pub open spec fn value_spec(right: Seq<char>) -> Result<Json, Failure> {
    match semicolon_end(right) {
        None => Err(Failure::MissingSemicolon),
        Some(i) => {
            let src = trim(right.take(i));
            if src.len() > 0 && src[0] == '\'' {
                single_quoted_spec(src)
            } else {
                match json_text_value(src) {
                    Ok(v) => Ok(v),
                    Err(m) => Err(Failure::InvalidValue(m)),
                }
            }
        },
    }
}

/// Applying the assignment `line` to `root`: the path before the first `=` outside
/// quotes, the value after it, each trimmed; the path is read before the value.
#[verifier::opaque]
pub open spec fn line_spec(line: Seq<char>, root: Json) -> Result<Json, Failure> {
    match assignment_index(line) {
        None => Err(Failure::MissingAssignment),
        Some(i) => match path_spec(trim(line.take(i)), 0).0 {
            Err(f) => Err(f),
            Ok(path) => match value_spec(trim(line.skip(i + 1))) {
                Err(f) => Err(f),
                Ok(v) => Ok(set_path(root, path, v)),
            },
        },
    }
}

/// The index of the first line break at or after `i`, or the length of `s`.
pub open spec fn next_newline(s: Seq<char>, i: int) -> int
    decreases s.len() - i,
{
    if !(0 <= i < s.len()) {
        s.len() as int
    } else if s[i] == '\n' {
        i
    } else {
        next_newline(s, i + 1)
    }
}

pub proof fn lemma_next_newline_bounds(s: Seq<char>, i: int)
    requires
        0 <= i <= s.len(),
    ensures
        i <= next_newline(s, i) <= s.len(),
        next_newline(s, i) < s.len() ==> s[next_newline(s, i)] == '\n',
    decreases s.len() - i,
{
    if i < s.len() && s[i] != '\n' {
        lemma_next_newline_bounds(s, i + 1);
    }
}

/// Applying one line, numbered `line`, to `root`: nothing where it is blank.
pub open spec fn line_step(text: Seq<char>, line: nat, root: Json) -> Result<Json, LineFailure> {
    let t = trim(text);
    if t.len() == 0 {
        Ok(root)
    } else {
        match line_spec(t, root) {
            Ok(r) => Ok(r),
            Err(f) => Err(LineFailure { line, text: t, cause: f }),
        }
    }
}

/// Applying the lines of `s` from the one that starts at `start`, numbered `line`, to
/// `root`. Lines are separated by `\n`; each is trimmed, blank ones are skipped, and the
/// first line that fails stops the reading with its number and trimmed text.
pub open spec fn gron_from(s: Seq<char>, start: int, line: nat, root: Json) -> Result<
    Json,
    LineFailure,
>
    decreases s.len() - start,
{
    if !(0 <= start <= s.len()) {
        Ok(root)
    } else {
        let e = next_newline(s, start);
        proof {
            lemma_next_newline_bounds(s, start);
        }
        match line_step(s.subrange(start, e), line, root) {
            Err(f) => Err(f),
            Ok(next) => if e < s.len() {
                gron_from(s, e + 1, line + 1, next)
            } else {
                Ok(next)
            },
        }
    }
}

/// The JSON value that the gron text `s` describes, or the first line that fails.
pub open spec fn gron_spec(s: Seq<char>) -> Result<Json, LineFailure> {
    gron_from(s, 0, 1, Json::Null)
}

/// `s` without leading and trailing whitespace.
pub fn trim_str(s: &str) -> (r: &str)
    ensures
        r@ == trim(s@),
{
    let chars = str_chars(s);
    let (a, b) = trim_range(&chars, 0, chars.len());
    assert(chars@.subrange(0, chars@.len() as int) =~= chars@);
    s.substring_char(a, b)
}

impl PathParser {
    /// Whether nothing but whitespace follows the current position.
    pub fn rest_is_blank(&self) -> (b: bool)
        requires
            self.wf(),
        ensures
            b == (trim(self.text().skip(self.index())).len() == 0),
    {
        let rest = self.remaining_chars();
        let (a, c) = trim_range(&rest, 0, rest.len());
        assert(rest@.subrange(0, rest@.len() as int) =~= rest@);
        a == c
    }
}

/// Reads a single-quoted value: the quoted string, which nothing but whitespace may
/// follow.
pub fn parse_single_quoted_value(value_src: &str) -> (r: Result<JsonValue, GronError>)
    ensures
        match r {
            Ok(v) => single_quoted_spec(value_src@) == Ok::<Json, Failure>(v@),
            Err(e) => single_quoted_spec(value_src@) == Err::<Json, Failure>(e@),
        },
{
    let mut parser = PathParser::new(value_src);
    let value = match parser.parse_quoted_string('\'') {
        Ok(v) => v,
        Err(e) => return Err(e),
    };
    if !parser.rest_is_blank() {
        return Err(GronError::TrailingAfterString);
    }
    Ok(JsonValue::String(value))
}

fn starts_with_quote(s: &str) -> (b: bool)
    ensures
        b == (s@.len() > 0 && s@[0] == '\''),
{
    let chars = str_chars(s);
    chars.len() > 0 && chars[0] == '\''
}

/// Reads the value of an assignment from the text after its `=`.
pub fn parse_value(right: &str) -> (r: Result<JsonValue, GronError>)
    ensures
        match r {
            Ok(v) => value_spec(right@) == Ok::<Json, Failure>(v@) && well_formed(v@),
            Err(e) => value_spec(right@) == Err::<Json, Failure>(e@),
        },
{
    let value_src = match strip_trailing_semicolon(right) {
        None => return Err(GronError::MissingSemicolon),
        Some(v) => v,
    };
    let value_src = trim_str(value_src);
    if starts_with_quote(value_src) {
        return parse_single_quoted_value(value_src);
    }
    match parse_json_text(value_src) {
        Ok(v) => Ok(v),
        Err(m) => Err(GronError::InvalidValue(m)),
    }
}

/// Applies the assignment `line` to `root`. Where the line is refused, `root` is left as
/// it was.
pub fn parse_and_apply_line(line: &str, root: &mut JsonValue) -> (r: Result<(), GronError>)
    ensures
        match line_spec(line@, old(root)@) {
            Ok(v) => r is Ok && final(root)@ == v,
            Err(f) => r matches Err(e) && e@ == f && final(root)@ == old(root)@,
        },
        well_formed(old(root)@) ==> well_formed(final(root)@),
{
    reveal(line_spec);
    let (left, right) = match split_assignment(line) {
        Ok(parts) => parts,
        Err(e) => return Err(e),
    };
    let path = match parse_path(trim_str(left)) {
        Ok(p) => p,
        Err(e) => return Err(e),
    };
    let value = match parse_value(trim_str(right)) {
        Ok(v) => v,
        Err(e) => return Err(e),
    };
    proof {
        if well_formed(root@) {
            assert forall|j: int| 0 <= j < segments_view(path@).len() implies (
            #[trigger] segments_view(path@)[j] matches Segment::Index(i) ==> i <= usize::MAX) by {
                assert(segments_view(path@)[j] == path@[j]@);
            }
            lemma_set_path_well_formed(root@, segments_view(path@), value@);
        }
    }
    set_value_at_path(root, &path, value);
    Ok(())
}

/// Reads a gron text: applies its lines in order to a value that starts as null, and
/// gives that value, or the error of the first line that is refused. The value read is
/// well-formed, so that its gron text reads back as it.
pub fn gron_to_json(input: &str) -> (r: Result<JsonValue, LineError>)
    ensures
        match r {
            Ok(v) => gron_spec(input@) == Ok::<Json, LineFailure>(v@) && well_formed(v@),
            Err(e) => gron_spec(input@) == Err::<Json, LineFailure>(e@),
        },
{
    let chars = str_chars(input);
    let mut root = JsonValue::Null;
    let mut start: usize = 0;
    let mut newlines: usize = 0;
    loop
        invariant
            chars@ == input@,
            start <= chars@.len(),
            newlines <= start,
            gron_spec(input@) == gron_from(chars@, start as int, newlines as nat + 1, root@),
            well_formed(root@),
        decreases chars@.len() - start,
    {
        let mut e = start;
        while e < chars.len() && chars[e] != '\n'
            invariant
                start <= e <= chars@.len(),
                next_newline(chars@, start as int) == next_newline(chars@, e as int),
            decreases chars@.len() - e,
        {
            e = e + 1;
        }
        proof {
            lemma_next_newline_bounds(chars@, start as int);
        }
        let (a, b) = trim_range(&chars, start, e);
        if a < b {
            let line = string_of(&chars, a, b);
            match parse_and_apply_line(line.as_str(), &mut root) {
                Ok(()) => {},
                Err(cause) => {
                    return Err(LineError { line: newlines + 1, text: line, cause });
                },
            }
        }
        if e < chars.len() {
            start = e + 1;
            newlines = newlines + 1;
        } else {
            return Ok(root);
        }
    }
}

} // verus!
