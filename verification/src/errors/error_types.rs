//! Why a document was refused.

use vstd::prelude::*;
use crate::lexer::lexer_types::{Token, TokenType, TokenView};
use crate::text::{decimal, push_decimal, push_str};

verus! {

/// `std::io::Error`, which an error carries as it is; nothing is read from it
/// but its text, and it is handed back by `ParseError::source`.
#[verifier::external_type_specification]
#[verifier::external_body]
pub struct ExIoError(std::io::Error);

/// Why parsing failed.
#[derive(Debug)]
pub enum ParseError {
    /// Reading the input failed.
    IoError(std::io::Error),
    /// A line is nested deeper than one level below the line before it, or
    /// the first line is not at depth 0.
    DepthJump { current_depth: u32, target_depth: u32 },
    /// A token that the grammar does not allow where it stands.
    UnexpectedToken { expected: String, found: Token },
    /// An unquoted attribute value that is no number, boolean or `null`.
    InvalidValue { raw: String },
    /// The input holds no line.
    EmptyInput,
}

pub enum ParseErrorView {
    IoError(std::io::Error),
    DepthJump { current_depth: u32, target_depth: u32 },
    UnexpectedToken { expected: Seq<char>, found: TokenView },
    InvalidValue { raw: Seq<char> },
    EmptyInput,
}

impl View for ParseError {
    type V = ParseErrorView;

    open spec fn view(&self) -> ParseErrorView {
        match self {
            ParseError::IoError(e) => ParseErrorView::IoError(*e),
            ParseError::DepthJump { current_depth, target_depth } => ParseErrorView::DepthJump {
                current_depth: *current_depth,
                target_depth: *target_depth,
            },
            ParseError::UnexpectedToken { expected, found } => ParseErrorView::UnexpectedToken {
                expected: expected@,
                found: found@,
            },
            ParseError::InvalidValue { raw } => ParseErrorView::InvalidValue { raw: raw@ },
            ParseError::EmptyInput => ParseErrorView::EmptyInput,
        }
    }
}

impl From<std::io::Error> for ParseError {
    fn from(e: std::io::Error) -> (r: ParseError)
        ensures
            r == ParseError::IoError(e),
    {
        ParseError::IoError(e)
    }
}

impl vstd::std_specs::convert::FromSpecImpl<std::io::Error> for ParseError {
    open spec fn obeys_from_spec() -> bool {
        true
    }

    open spec fn from_spec(e: std::io::Error) -> ParseError {
        ParseError::IoError(e)
    }
}

/// What `{:?}` writes for a string: the string in quotes, with `"`, `\` and
/// characters that do not print escaped.
pub uninterp spec fn str_debug(s: Seq<char>) -> Seq<char>;

/// `<str as Debug>::fmt`, through `format!("{:?}")`: the result is named
/// `str_debug` of the string's characters.
#[verifier::external_body]
fn str_debug_text(s: &str) -> (r: String)
    ensures
        r@ == str_debug(s@),
{
    format!("{:?}", s)
}

/// `<std::io::Error as Display>::fmt`, through `format!("{}")`. The text
/// depends on the system that reported the error, so nothing is stated of
/// it.
#[verifier::external_body]
fn io_error_text(e: &std::io::Error) -> String {
    format!("{}", e)
}

/// The name of a token kind.
pub open spec fn token_type_name(k: TokenType) -> Seq<char> {
    match k {
        TokenType::Depth => "Depth"@,
        TokenType::Identifier => "Identifier"@,
        TokenType::Text => "Text"@,
        TokenType::TextDelimit => "TextDelimit"@,
        TokenType::Assign => "Assign"@,
        TokenType::NewLine => "NewLine"@,
        TokenType::Eof => "Eof"@,
    }
}

/// A token as `{:?}` writes it: `Token { value: .., token_t: .. }`.
pub open spec fn token_debug(t: TokenView) -> Seq<char> {
    "Token { value: "@ + match t.value {
        Some(v) => "Some("@ + str_debug(v) + ")"@,
        None => "None"@,
    } + ", token_t: "@ + token_type_name(t.token_t) + " }"@
}

/// The message of an error (for an I/O error, what follows its prefix
/// depends on the system).
pub open spec fn message_text(e: ParseErrorView) -> Seq<char> {
    match e {
        ParseErrorView::IoError(_) => "I/O error: "@,
        ParseErrorView::DepthJump { current_depth, target_depth } => "invalid depth jump: from "@
            + decimal(current_depth as nat) + " to "@ + decimal(target_depth as nat),
        ParseErrorView::UnexpectedToken { expected, found } => "unexpected token: expected "@
            + expected + ", found "@ + token_debug(found),
        ParseErrorView::InvalidValue { raw } => "invalid attribute value: `"@ + raw + "`"@,
        ParseErrorView::EmptyInput => "empty input"@,
    }
}

fn push_token_type(out: &mut String, k: TokenType)
    ensures
        final(out)@ == old(out)@ + token_type_name(k),
{
    match k {
        TokenType::Depth => push_str(out, "Depth"),
        TokenType::Identifier => push_str(out, "Identifier"),
        TokenType::Text => push_str(out, "Text"),
        TokenType::TextDelimit => push_str(out, "TextDelimit"),
        TokenType::Assign => push_str(out, "Assign"),
        TokenType::NewLine => push_str(out, "NewLine"),
        TokenType::Eof => push_str(out, "Eof"),
    }
}

fn push_token_debug(out: &mut String, t: &Token)
    ensures
        final(out)@ == old(out)@ + token_debug(t@),
{
    push_str(out, "Token { value: ");
    match &t.value {
        Some(v) => {
            push_str(out, "Some(");
            let d = str_debug_text(v.as_str());
            push_str(out, d.as_str());
            push_str(out, ")");
        },
        None => push_str(out, "None"),
    }
    push_str(out, ", token_t: ");
    push_token_type(out, t.token_t);
    push_str(out, " }");
    assert(out@ =~= old(out)@ + token_debug(t@));
}

impl ParseError {
    /// The I/O error that caused this one, if it is one.
    pub fn source(&self) -> (r: Option<&std::io::Error>)
        ensures
            r is Some <==> self is IoError,
            self matches ParseError::IoError(e) ==> r matches Some(x) && *x == e,
    {
        match self {
            ParseError::IoError(e) => Some(e),
            _ => None,
        }
    }

    /// The message of the error: for an I/O error, `I/O error: ` and the
    /// system's description of it.
    pub fn to_string(&self) -> (s: String)
        ensures
            self is IoError ==> s@.len() >= message_text(self@).len() && s@.subrange(
                0,
                message_text(self@).len() as int,
            ) == message_text(self@),
            !(self is IoError) ==> s@ == message_text(self@),
    {
        let mut s = String::new();
        match self {
            ParseError::IoError(e) => {
                push_str(&mut s, "I/O error: ");
                let ghost head = s@;
                let text = io_error_text(e);
                push_str(&mut s, text.as_str());
                assert(s@.subrange(0, head.len() as int) =~= head);
            },
            ParseError::DepthJump { current_depth, target_depth } => {
                push_str(&mut s, "invalid depth jump: from ");
                push_decimal(&mut s, *current_depth as u64);
                push_str(&mut s, " to ");
                push_decimal(&mut s, *target_depth as u64);
            },
            ParseError::UnexpectedToken { expected, found } => {
                push_str(&mut s, "unexpected token: expected ");
                push_str(&mut s, expected.as_str());
                push_str(&mut s, ", found ");
                push_token_debug(&mut s, found);
            },
            ParseError::InvalidValue { raw } => {
                push_str(&mut s, "invalid attribute value: `");
                push_str(&mut s, raw.as_str());
                push_str(&mut s, "`");
            },
            ParseError::EmptyInput => push_str(&mut s, "empty input"),
        }
        assert(!(self is IoError) ==> s@ =~= message_text(self@));
        s
    }
}

} // verus!
