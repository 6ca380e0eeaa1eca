//! Errors of the gron reader and the text they are shown with.
use vstd::prelude::*;
use vstd::string::*;

use crate::chars::{decimal, push_char, push_decimal};

verus! {

/// Why a gron text, a line of it, a path or a value was refused.
#[derive(Debug, PartialEq, Eq)]
pub enum GronError {
    /// A line holds no `=` outside quotes.
    MissingAssignment,
    /// The path does not begin with an identifier.
    MissingRoot,
    /// The path begins with an identifier other than `json`.
    WrongRoot(String),
    /// A path segment begins with a character other than `.` or `[`.
    UnexpectedPathChar(char),
    /// A `.` is not followed by an identifier.
    MissingPropertyName,
    /// A `[` is followed by a character that starts no segment.
    UnsupportedBracket(char),
    /// A `[` ends the path.
    UnclosedBracket,
    /// A quoted segment or value has no closing quote.
    UnclosedString,
    /// A double-quoted segment is no JSON string; the text is the JSON reader's message.
    InvalidQuotedSegment(String),
    /// A backslash ends the text.
    UnclosedEscape,
    /// A `\u` escape holds a character that is no hex digit.
    InvalidUnicodeChar(char),
    /// A `\u` escape ends before its four hex digits.
    UnclosedUnicode,
    /// A `\u` escape names a surrogate.
    InvalidCodePoint,
    /// An index holds no digit.
    EmptyIndex,
    /// An index does not fit in `usize`.
    IndexOverflow,
    /// The first character was expected, the second was found.
    ExpectedChar(char, char),
    /// The character was expected, the path ended.
    ExpectedCharAtEnd(char),
    /// The value is not followed by a `;` that ends the line.
    MissingSemicolon,
    /// The value is no JSON text; the text is the JSON reader's message.
    InvalidValue(String),
    /// A single-quoted value is followed by more than whitespace.
    TrailingAfterString,
}

/// The error of a line of a gron text: its number, counted from 1, its text without
/// surrounding whitespace, and why it was refused.
#[derive(Debug)]
pub struct LineError {
    pub line: usize,
    pub text: String,
    pub cause: GronError,
}

/// The model of a `LineError`.
pub struct LineFailure {
    pub line: nat,
    pub text: Seq<char>,
    pub cause: Failure,
}

impl View for LineError {
    type V = LineFailure;

    open spec fn view(&self) -> LineFailure {
        LineFailure { line: self.line as nat, text: self.text@, cause: self.cause@ }
    }
}

/// The mathematical model of a `GronError`: what the reader decided, with the message
/// of the JSON reader where it refused a value or a quoted segment.
pub enum Failure {
    MissingAssignment,
    MissingRoot,
    WrongRoot(Seq<char>),
    UnexpectedPathChar(char),
    MissingPropertyName,
    UnsupportedBracket(char),
    UnclosedBracket,
    UnclosedString,
    InvalidQuotedSegment(Seq<char>),
    UnclosedEscape,
    InvalidUnicodeChar(char),
    UnclosedUnicode,
    InvalidCodePoint,
    EmptyIndex,
    IndexOverflow,
    ExpectedChar(char, char),
    ExpectedCharAtEnd(char),
    MissingSemicolon,
    InvalidValue(Seq<char>),
    TrailingAfterString,
}

impl View for GronError {
    type V = Failure;

    open spec fn view(&self) -> Failure {
        match self {
            GronError::MissingAssignment => Failure::MissingAssignment,
            GronError::MissingRoot => Failure::MissingRoot,
            GronError::WrongRoot(s) => Failure::WrongRoot(s@),
            GronError::UnexpectedPathChar(c) => Failure::UnexpectedPathChar(*c),
            GronError::MissingPropertyName => Failure::MissingPropertyName,
            GronError::UnsupportedBracket(c) => Failure::UnsupportedBracket(*c),
            GronError::UnclosedBracket => Failure::UnclosedBracket,
            GronError::UnclosedString => Failure::UnclosedString,
            GronError::InvalidQuotedSegment(m) => Failure::InvalidQuotedSegment(m@),
            GronError::UnclosedEscape => Failure::UnclosedEscape,
            GronError::InvalidUnicodeChar(c) => Failure::InvalidUnicodeChar(*c),
            GronError::UnclosedUnicode => Failure::UnclosedUnicode,
            GronError::InvalidCodePoint => Failure::InvalidCodePoint,
            GronError::EmptyIndex => Failure::EmptyIndex,
            GronError::IndexOverflow => Failure::IndexOverflow,
            GronError::ExpectedChar(e, f) => Failure::ExpectedChar(*e, *f),
            GronError::ExpectedCharAtEnd(e) => Failure::ExpectedCharAtEnd(*e),
            GronError::MissingSemicolon => Failure::MissingSemicolon,
            GronError::InvalidValue(m) => Failure::InvalidValue(m@),
            GronError::TrailingAfterString => Failure::TrailingAfterString,
        }
    }
}

pub open spec fn quoted(c: char) -> Seq<char> {
    seq!['\'', c, '\'']
}

/// The message of the error itself, without the error it was caused by.
pub open spec fn message(e: &GronError) -> Seq<char> {
    match e {
        GronError::MissingAssignment => "Expected assignment (e.g., json.a = 1)"@,
        GronError::MissingRoot => "Path root must be 'json'"@,
        GronError::WrongRoot(s) => "Path root must be 'json', found '"@ + s@ + "'"@,
        GronError::UnexpectedPathChar(c) => "Unexpected character in path: "@ + quoted(*c),
        GronError::MissingPropertyName => "Expected property name after '.'"@,
        GronError::UnsupportedBracket(c) => "Unsupported bracket path segment starting with "@
            + quoted(*c),
        GronError::UnclosedBracket => "Unclosed bracket path segment"@,
        GronError::UnclosedString => "Unclosed string path segment"@,
        GronError::InvalidQuotedSegment(_) => "Failed to parse quoted path segment"@,
        GronError::UnclosedEscape => "Unclosed escape sequence"@,
        GronError::InvalidUnicodeChar(c) => "Invalid unicode escape character "@ + quoted(*c),
        GronError::UnclosedUnicode => "Unclosed unicode escape sequence"@,
        GronError::InvalidCodePoint => "Invalid unicode escape code point"@,
        GronError::EmptyIndex => "Failed to parse array index"@,
        GronError::IndexOverflow => "Failed to parse array index"@,
        GronError::ExpectedChar(e, f) => "Expected "@ + quoted(*e) + ", found "@ + quoted(*f),
        GronError::ExpectedCharAtEnd(e) => "Expected "@ + quoted(*e) + ", found end of path"@,
        GronError::MissingSemicolon => "Expected assignment to end with ';'"@,
        GronError::InvalidValue(_) => "Failed to parse gron value as JSON"@,
        GronError::TrailingAfterString => "Unexpected characters after string value"@,
    }
}

/// The message of the error followed by those of the errors that caused it, each
/// after `": "`.
pub open spec fn full_message(e: &GronError) -> Seq<char> {
    match e {
        GronError::InvalidQuotedSegment(m) => message(e) + ": "@ + m@,
        GronError::EmptyIndex => message(e) + ": cannot parse integer from empty string"@,
        GronError::IndexOverflow => message(e) + ": number too large to fit in target type"@,
        GronError::InvalidValue(m) => message(e) + ": "@ + m@,
        _ => message(e),
    }
}

fn append_quoted(out: &mut String, c: char)
    ensures
        final(out)@ == old(out)@ + quoted(c),
{
    push_char(out, '\'');
    push_char(out, c);
    push_char(out, '\'');
    assert(final(out)@ =~= old(out)@ + quoted(c));
}

impl GronError {
    /// The message of the error itself, without the error it was caused by.
    pub fn to_string(&self) -> (s: String)
        ensures
            s@ == message(self),
    {
        match self {
            GronError::MissingAssignment => String::from_str(
                "Expected assignment (e.g., json.a = 1)",
            ),
            GronError::MissingRoot => String::from_str("Path root must be 'json'"),
            GronError::WrongRoot(found) => {
                let mut s = String::from_str("Path root must be 'json', found '");
                s.append(found.as_str());
                s.append("'");
                s
            },
            GronError::UnexpectedPathChar(c) => {
                let mut s = String::from_str("Unexpected character in path: ");
                append_quoted(&mut s, *c);
                s
            },
            GronError::MissingPropertyName => String::from_str("Expected property name after '.'"),
            GronError::UnsupportedBracket(c) => {
                let mut s = String::from_str("Unsupported bracket path segment starting with ");
                append_quoted(&mut s, *c);
                s
            },
            GronError::UnclosedBracket => String::from_str("Unclosed bracket path segment"),
            GronError::UnclosedString => String::from_str("Unclosed string path segment"),
            GronError::InvalidQuotedSegment(_) => String::from_str(
                "Failed to parse quoted path segment",
            ),
            GronError::UnclosedEscape => String::from_str("Unclosed escape sequence"),
            GronError::InvalidUnicodeChar(c) => {
                let mut s = String::from_str("Invalid unicode escape character ");
                append_quoted(&mut s, *c);
                s
            },
            GronError::UnclosedUnicode => String::from_str("Unclosed unicode escape sequence"),
            GronError::InvalidCodePoint => String::from_str("Invalid unicode escape code point"),
            GronError::EmptyIndex => String::from_str("Failed to parse array index"),
            GronError::IndexOverflow => String::from_str("Failed to parse array index"),
            GronError::ExpectedChar(e, f) => {
                let mut s = String::from_str("Expected ");
                append_quoted(&mut s, *e);
                s.append(", found ");
                append_quoted(&mut s, *f);
                s
            },
            GronError::ExpectedCharAtEnd(e) => {
                let mut s = String::from_str("Expected ");
                append_quoted(&mut s, *e);
                s.append(", found end of path");
                s
            },
            GronError::MissingSemicolon => String::from_str("Expected assignment to end with ';'"),
            GronError::InvalidValue(_) => String::from_str("Failed to parse gron value as JSON"),
            GronError::TrailingAfterString => String::from_str(
                "Unexpected characters after string value",
            ),
        }
    }

    /// The message of the error followed by those of the errors that caused it, each
    /// after `": "`.
    pub fn full_message(&self) -> (s: String)
        ensures
            s@ == full_message(self),
    {
        let mut s = self.to_string();
        match self {
            GronError::InvalidQuotedSegment(m) => {
                s.append(": ");
                s.append(m.as_str());
            },
            GronError::EmptyIndex => {
                s.append(": cannot parse integer from empty string");
            },
            GronError::IndexOverflow => {
                s.append(": number too large to fit in target type");
            },
            GronError::InvalidValue(m) => {
                s.append(": ");
                s.append(m.as_str());
            },
            _ => {},
        }
        s
    }
}

/// The message of a line's error: its number and text.
pub open spec fn line_message(e: &LineError) -> Seq<char> {
    "Error on line "@ + decimal(e.line as nat) + ": "@ + e.text@
}

impl LineError {
    /// The message of the line's error: its number and text.
    pub fn to_string(&self) -> (s: String)
        ensures
            s@ == line_message(self),
    {
        let mut s = String::from_str("Error on line ");
        push_decimal(&mut s, self.line);
        s.append(": ");
        s.append(self.text.as_str());
        s
    }

    /// The message of the line's error followed by those of its causes, each after
    /// `": "`.
    pub fn full_message(&self) -> (s: String)
        ensures
            s@ == line_message(self) + ": "@ + full_message(&self.cause),
    {
        let mut s = self.to_string();
        s.append(": ");
        let rest = self.cause.full_message();
        s.append(rest.as_str());
        s
    }
}

} // verus!
