//! Token and span data types, with their specification-level views.
//!
//! A token's textual payloads are owned, so tokens outlive the scanner
//! that produced them. A `Number` token carries the exact matched lexeme;
//! turning it into a machine float is left to callers, outside this
//! library's verified core.

use vstd::prelude::*;

verus! {

/// A classified minimal lexical unit of source text.
#[derive(Debug, PartialEq)]
pub enum Token {
    // Single-character tokens.
    LeftParen,
    RightParen,
    LeftBrace,
    RightBrace,
    Comma,
    Dot,
    Minus,
    Plus,
    Semicolon,
    Slash,
    Star,
    // One or two character tokens.
    Bang,
    BangEqual,
    Equal,
    EqualEqual,
    Greater,
    GreaterEqual,
    Less,
    LessEqual,
    // Literals. `String` carries the text with the surrounding quotes
    // stripped; `Number` carries the exact matched lexeme, which always
    // has the shape digits('.'digits)?.
    Identifier(String),
    String(String),
    Number(String),
    // Keywords.
    And,
    Class,
    Else,
    False,
    Fun,
    For,
    If,
    Nil,
    Or,
    Print,
    Return,
    Super,
    This,
    True,
    Var,
    While,
    Eof,
}

/// The specification-level shape of a token: payloads are character
/// sequences.
pub enum TokenV {
    LeftParen,
    RightParen,
    LeftBrace,
    RightBrace,
    Comma,
    Dot,
    Minus,
    Plus,
    Semicolon,
    Slash,
    Star,
    Bang,
    BangEqual,
    Equal,
    EqualEqual,
    Greater,
    GreaterEqual,
    Less,
    LessEqual,
    Identifier(Seq<char>),
    String(Seq<char>),
    Number(Seq<char>),
    And,
    Class,
    Else,
    False,
    Fun,
    For,
    If,
    Nil,
    Or,
    Print,
    Return,
    Super,
    This,
    True,
    Var,
    While,
    Eof,
}

impl View for Token {
    type V = TokenV;

    open spec fn view(&self) -> TokenV {
        match self {
            Token::LeftParen => TokenV::LeftParen,
            Token::RightParen => TokenV::RightParen,
            Token::LeftBrace => TokenV::LeftBrace,
            Token::RightBrace => TokenV::RightBrace,
            Token::Comma => TokenV::Comma,
            Token::Dot => TokenV::Dot,
            Token::Minus => TokenV::Minus,
            Token::Plus => TokenV::Plus,
            Token::Semicolon => TokenV::Semicolon,
            Token::Slash => TokenV::Slash,
            Token::Star => TokenV::Star,
            Token::Bang => TokenV::Bang,
            Token::BangEqual => TokenV::BangEqual,
            Token::Equal => TokenV::Equal,
            Token::EqualEqual => TokenV::EqualEqual,
            Token::Greater => TokenV::Greater,
            Token::GreaterEqual => TokenV::GreaterEqual,
            Token::Less => TokenV::Less,
            Token::LessEqual => TokenV::LessEqual,
            Token::Identifier(s) => TokenV::Identifier(s@),
            Token::String(s) => TokenV::String(s@),
            Token::Number(s) => TokenV::Number(s@),
            Token::And => TokenV::And,
            Token::Class => TokenV::Class,
            Token::Else => TokenV::Else,
            Token::False => TokenV::False,
            Token::Fun => TokenV::Fun,
            Token::For => TokenV::For,
            Token::If => TokenV::If,
            Token::Nil => TokenV::Nil,
            Token::Or => TokenV::Or,
            Token::Print => TokenV::Print,
            Token::Return => TokenV::Return,
            Token::Super => TokenV::Super,
            Token::This => TokenV::This,
            Token::True => TokenV::True,
            Token::Var => TokenV::Var,
            Token::While => TokenV::While,
            Token::Eof => TokenV::Eof,
        }
    }
}

/// A lexical error, carrying only what a diagnostic needs.
#[derive(Debug, PartialEq)]
pub enum TokError {
    /// A character that starts no token.
    UnexpectedCharacter(char),
    /// A string literal still open at end of input.
    UnterminatedString,
    /// A numeric lexeme the caller could not turn into a number. The
    /// scanner itself never produces this: its `Number` lexemes always
    /// match the numeric grammar.
    NumberParse(String),
}

/// The specification-level shape of a lexical error.
pub enum TokErrV {
    UnexpectedCharacter(char),
    UnterminatedString,
    NumberParse(Seq<char>),
}

impl View for TokError {
    type V = TokErrV;

    open spec fn view(&self) -> TokErrV {
        match self {
            TokError::UnexpectedCharacter(c) => TokErrV::UnexpectedCharacter(*c),
            TokError::UnterminatedString => TokErrV::UnterminatedString,
            TokError::NumberParse(s) => TokErrV::NumberParse(s@),
        }
    }
}

/// The view of a scan outcome.
pub open spec fn outcome_view(r: Result<Token, TokError>) -> Result<TokenV, TokErrV> {
    match r {
        Ok(t) => Ok(t@),
        Err(e) => Err(e@),
    }
}

/// A byte-offset span into the source a token or error came from.
/// `offset` and `len` count bytes of the UTF-8 encoding, not characters.
#[derive(Debug, Clone, Copy, PartialEq, Eq, Structural)]
pub struct SourceLocation {
    pub offset: usize,
    pub len: usize,
}

} // verus!
