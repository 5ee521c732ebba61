use vstd::prelude::*;

verus! {

/// A lexical unit of JSON text.
///
/// A number is kept as the exact text that the tokenizer accepted for it; that text is
/// always one that Rust's `f64` parser accepts, so a caller can read the value from it.
#[derive(Debug, Clone, PartialEq, Eq)]
pub enum Token {
    BraceCurlyOpen,
    BraceCurlyClose,
    BracketSquareOpen,
    BracketSquareClose,
    Comma,
    Colon,
    String(String),
    Number(String),
    True,
    False,
    Null,
}

/// The mathematical model of a [`Token`]: text becomes a sequence of characters.
pub enum SpecToken {
    BraceCurlyOpen,
    BraceCurlyClose,
    BracketSquareOpen,
    BracketSquareClose,
    Comma,
    Colon,
    Str(Seq<char>),
    Num(Seq<char>),
    True,
    False,
    Null,
}

impl View for Token {
    type V = SpecToken;

    open spec fn view(&self) -> SpecToken {
        match self {
            Token::BraceCurlyOpen => SpecToken::BraceCurlyOpen,
            Token::BraceCurlyClose => SpecToken::BraceCurlyClose,
            Token::BracketSquareOpen => SpecToken::BracketSquareOpen,
            Token::BracketSquareClose => SpecToken::BracketSquareClose,
            Token::Comma => SpecToken::Comma,
            Token::Colon => SpecToken::Colon,
            Token::String(s) => SpecToken::Str(s@),
            Token::Number(s) => SpecToken::Num(s@),
            Token::True => SpecToken::True,
            Token::False => SpecToken::False,
            Token::Null => SpecToken::Null,
        }
    }
}

/// The models of a sequence of tokens, one for one.
pub open spec fn tokens_view(tokens: Seq<Token>) -> Seq<SpecToken> {
    tokens.map_values(|t: Token| t@)
}

impl Token {
    /// A copy of this token, with the same model.
    pub fn duplicate(&self) -> (r: Token)
        ensures
            r@ == self@,
    {
        match self {
            Token::BraceCurlyOpen => Token::BraceCurlyOpen,
            Token::BraceCurlyClose => Token::BraceCurlyClose,
            Token::BracketSquareOpen => Token::BracketSquareOpen,
            Token::BracketSquareClose => Token::BracketSquareClose,
            Token::Comma => Token::Comma,
            Token::Colon => Token::Colon,
            Token::String(s) => Token::String(s.clone()),
            Token::Number(s) => Token::Number(s.clone()),
            Token::True => Token::True,
            Token::False => Token::False,
            Token::Null => Token::Null,
        }
    }
}

} // verus!
