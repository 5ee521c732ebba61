use vstd::prelude::*;
use crate::position::Position;
use crate::token::{SpecToken, Token};

verus! {

/// Why JSON text could not be split into tokens.
#[derive(Debug, PartialEq, Eq)]
pub enum LexError {
    /// A character that starts no token and is not white space.
    UnexpectedCharacter { found: char, at: Position },
    /// A string, number or keyword right after a token that cannot precede a value.
    UnexpectedValue { after: Token },
    /// A `}`, `]`, `,` or `:` right after a comma.
    TrailingComma,
    /// The input ends inside a string.
    UnterminatedString { at: Position },
    /// The input ends right after a backslash in a string.
    UnterminatedEscape { at: Position },
    /// A backslash followed by a character that starts no escape.
    InvalidEscape { found: char, at: Position },
    /// A `\u` escape with a character that is not a hexadecimal digit.
    InvalidUnicodeEscape { at: Position },
    /// The input ends inside a `\u` escape.
    IncompleteUnicodeEscape { at: Position },
    /// A `\u` escape naming a surrogate, which is no character.
    InvalidCodePoint { at: Position },
    /// A raw line feed, carriage return or tab inside a string.
    UnescapedControl { at: Position },
    /// Another raw control character inside a string; `code` is its code point.
    UnescapedControlCode { code: u32, at: Position },
    /// A run of letters that is not `true`, `false` or `null`.
    UnknownKeyword { word: String, at: Position },
    /// A digit other than `0` after a leading `0` or `-0`.
    LeadingZeros { at: Position },
    /// Number text that is not a valid number.
    InvalidNumber { text: String },
}

/// The model of a [`LexError`].
pub enum SpecLexError {
    UnexpectedCharacter { found: char, at: Position },
    UnexpectedValue { after: SpecToken },
    TrailingComma,
    UnterminatedString { at: Position },
    UnterminatedEscape { at: Position },
    InvalidEscape { found: char, at: Position },
    InvalidUnicodeEscape { at: Position },
    IncompleteUnicodeEscape { at: Position },
    InvalidCodePoint { at: Position },
    UnescapedControl { at: Position },
    UnescapedControlCode { code: u32, at: Position },
    UnknownKeyword { word: Seq<char>, at: Position },
    LeadingZeros { at: Position },
    InvalidNumber { text: Seq<char> },
}

impl View for LexError {
    type V = SpecLexError;

    open spec fn view(&self) -> SpecLexError {
        match self {
            LexError::UnexpectedCharacter { found, at } => SpecLexError::UnexpectedCharacter {
                found: *found,
                at: *at,
            },
            LexError::UnexpectedValue { after } => SpecLexError::UnexpectedValue { after: after@ },
            LexError::TrailingComma => SpecLexError::TrailingComma,
            LexError::UnterminatedString { at } => SpecLexError::UnterminatedString { at: *at },
            LexError::UnterminatedEscape { at } => SpecLexError::UnterminatedEscape { at: *at },
            LexError::InvalidEscape { found, at } => SpecLexError::InvalidEscape {
                found: *found,
                at: *at,
            },
            LexError::InvalidUnicodeEscape { at } => SpecLexError::InvalidUnicodeEscape { at: *at },
            LexError::IncompleteUnicodeEscape { at } => SpecLexError::IncompleteUnicodeEscape {
                at: *at,
            },
            LexError::InvalidCodePoint { at } => SpecLexError::InvalidCodePoint { at: *at },
            LexError::UnescapedControl { at } => SpecLexError::UnescapedControl { at: *at },
            LexError::UnescapedControlCode { code, at } => SpecLexError::UnescapedControlCode {
                code: *code,
                at: *at,
            },
            LexError::UnknownKeyword { word, at } => SpecLexError::UnknownKeyword {
                word: word@,
                at: *at,
            },
            LexError::LeadingZeros { at } => SpecLexError::LeadingZeros { at: *at },
            LexError::InvalidNumber { text } => SpecLexError::InvalidNumber { text: text@ },
        }
    }
}

/// Why a sequence of tokens is not a JSON document.
#[derive(Debug, PartialEq, Eq)]
pub enum ParseError {
    /// A container opened at nesting level `depth`, beyond [`crate::parser::MAX_DEPTH`].
    TooDeep { depth: usize },
    /// Inside an object, neither a string key nor `}` where one is due.
    ExpectedKeyOrClose,
    /// An object key not followed by `:`.
    ExpectedColon,
    /// An object member followed by neither `,` nor `}`.
    ExpectedCommaOrBrace,
    /// An array item followed by neither `,` nor `]`.
    ExpectedCommaOrBracket,
    /// The tokens end inside an array.
    UnexpectedEndInArray,
    /// The tokens end where a value is due.
    UnexpectedEnd,
    /// A `}`, `]`, `,` or `:` where a value is due.
    UnknownToken,
    /// The document does not start with `{` or `[`.
    NotContainer,
    /// There are no tokens at all.
    EmptyInput,
    /// A token after the complete document.
    ExtraToken { token: Token },
}

/// The model of a [`ParseError`].
pub enum SpecParseError {
    TooDeep { depth: int },
    ExpectedKeyOrClose,
    ExpectedColon,
    ExpectedCommaOrBrace,
    ExpectedCommaOrBracket,
    UnexpectedEndInArray,
    UnexpectedEnd,
    UnknownToken,
    NotContainer,
    EmptyInput,
    ExtraToken { token: SpecToken },
}

impl View for ParseError {
    type V = SpecParseError;

    open spec fn view(&self) -> SpecParseError {
        match self {
            ParseError::TooDeep { depth } => SpecParseError::TooDeep { depth: *depth as int },
            ParseError::ExpectedKeyOrClose => SpecParseError::ExpectedKeyOrClose,
            ParseError::ExpectedColon => SpecParseError::ExpectedColon,
            ParseError::ExpectedCommaOrBrace => SpecParseError::ExpectedCommaOrBrace,
            ParseError::ExpectedCommaOrBracket => SpecParseError::ExpectedCommaOrBracket,
            ParseError::UnexpectedEndInArray => SpecParseError::UnexpectedEndInArray,
            ParseError::UnexpectedEnd => SpecParseError::UnexpectedEnd,
            ParseError::UnknownToken => SpecParseError::UnknownToken,
            ParseError::NotContainer => SpecParseError::NotContainer,
            ParseError::EmptyInput => SpecParseError::EmptyInput,
            ParseError::ExtraToken { token } => SpecParseError::ExtraToken { token: token@ },
        }
    }
}

/// Why JSON text could not be loaded: the stage that failed and its reason.
#[derive(Debug, PartialEq, Eq)]
pub enum JsonError {
    Tokenize(LexError),
    Parse(ParseError),
}

/// The model of a [`JsonError`].
pub enum SpecJsonError {
    Tokenize(SpecLexError),
    Parse(SpecParseError),
}

impl View for JsonError {
    type V = SpecJsonError;

    open spec fn view(&self) -> SpecJsonError {
        match self {
            JsonError::Tokenize(e) => SpecJsonError::Tokenize(e@),
            JsonError::Parse(e) => SpecJsonError::Parse(e@),
        }
    }
}

} // verus!
