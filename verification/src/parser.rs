//! Parsers of task scripts, network files, attribute files and tables.
pub mod tokenizer;
pub mod attrs;
pub mod tasks;
pub mod network;
pub mod table;

use vstd::prelude::*;

verus! {

/// What went wrong while parsing tokens.
#[derive(Clone, Copy, PartialEq, Eq, Debug)]
pub enum ParseErrorType {
    /// a state the parser should never reach
    LogicalError(&'static str),
    SyntaxError,
    ValueError(&'static str),
    InvalidPropagation,
    /// the input ended inside a construct
    Unclosed,
    InvalidToken,
}

/// The mathematical form of an error kind.
pub enum PErr {
    Logical(Seq<char>),
    Syntax,
    Value(Seq<char>),
    InvalidPropagation,
    Unclosed,
    InvalidToken,
}

impl View for ParseErrorType {
    type V = PErr;

    open spec fn view(&self) -> PErr {
        match self {
            ParseErrorType::LogicalError(s) => PErr::Logical(s@),
            ParseErrorType::SyntaxError => PErr::Syntax,
            ParseErrorType::ValueError(s) => PErr::Value(s@),
            ParseErrorType::InvalidPropagation => PErr::InvalidPropagation,
            ParseErrorType::Unclosed => PErr::Unclosed,
            ParseErrorType::InvalidToken => PErr::InvalidToken,
        }
    }
}

/// A parse error: its kind, where it happened (0-based line, byte column)
/// and the text of that line.
#[derive(Clone, Debug)]
pub struct ParseError {
    pub ty: ParseErrorType,
    pub line: usize,
    pub col: usize,
    pub linestr: String,
}

/// The one-line message of a parse error.
pub open spec fn parse_error_text(e: ParseError) -> Seq<char> {
    "ParseError at line "@ + crate::text::decimal(e.line as nat) + " col "@ + crate::text::decimal(e.col as nat)
}

impl ParseError {
    /// The error in one line: `ParseError at line L col C`.
    pub fn to_string(&self) -> (s: String)
        ensures
            s@ == parse_error_text(*self),
    {
        let mut s = crate::text::owned("ParseError at line ");
        crate::text::push_decimal(&mut s, self.line as u64);
        crate::text::push_str(&mut s, " col ");
        crate::text::push_decimal(&mut s, self.col as u64);
        s
    }
}

} // verus!
