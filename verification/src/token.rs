//! The token data model: lexical categories, literal payloads, positioned
//! tokens, and the diagnostics a scan can report.

use vstd::prelude::*;
use vstd::string::StringExecFns;

verus! {

/// The closed set of lexical categories a scanned token can belong to.
#[derive(Debug, Clone, Copy, PartialEq, Eq, Structural)]
pub enum TokenType {
    // Single-character punctuation
    LeftParen,
    RightParen,
    LeftBrace,
    RightBrace,
    Comma,
    Dot,
    Minus,
    Plus,
    Semicolon,
    Slash,
    Star,
    // One-or-two-character operators
    Bang,
    BangEqual,
    Equal,
    EqualEqual,
    Greater,
    GreaterEqual,
    Less,
    LessEqual,
    // Literal categories
    Identifier,
    String,
    Integer,
    Float,
    // Reserved keywords
    And,
    Class,
    Else,
    False,
    Fun,
    For,
    If,
    Nil,
    Or,
    Print,
    Return,
    Super,
    This,
    True,
    Var,
    While,
    // End-of-input sentinel
    Eof,
}

/// The parsed value carried by a token, if any. A float literal keeps its
/// exact decimal text, so no floating-point representation enters the
/// scanner; the consumer converts the text when it needs a machine float.
#[derive(Debug, PartialEq, Eq)]
pub enum Literal {
    NoValue,
    String(std::string::String),
    Integer(u32),
    Float(std::string::String),
}

/// The mathematical value of a `Literal`: text payloads become character
/// sequences.
pub enum LiteralView {
    NoValue,
    String(Seq<char>),
    Integer(u32),
    Float(Seq<char>),
}

impl View for Literal {
    type V = LiteralView;

    open spec fn view(&self) -> LiteralView {
        match self {
            Literal::NoValue => LiteralView::NoValue,
            Literal::String(s) => LiteralView::String(s@),
            Literal::Integer(n) => LiteralView::Integer(*n),
            Literal::Float(s) => LiteralView::Float(s@),
        }
    }
}

/// An immutable, classified, positioned unit of lexical structure.
///
/// `start` and `end` record the half-open character range of the lexeme in
/// the scanned source, so a consumer can re-slice the source at those
/// offsets and recover the lexeme exactly.
#[derive(Debug, PartialEq, Eq)]
pub struct Token {
    pub token_type: TokenType,
    pub lexeme: std::string::String,
    pub literal: Literal,
    pub line: u32,
    pub start: usize,
    pub end: usize,
}

/// The mathematical value of a `Token`.
pub struct TokenView {
    pub token_type: TokenType,
    pub lexeme: Seq<char>,
    pub literal: LiteralView,
    pub line: u32,
    pub start: int,
    pub end: int,
}

impl View for Token {
    type V = TokenView;

    open spec fn view(&self) -> TokenView {
        TokenView {
            token_type: self.token_type,
            lexeme: self.lexeme@,
            literal: self.literal@,
            line: self.line,
            start: self.start as int,
            end: self.end as int,
        }
    }
}

impl Token {
    /// Build a standalone token. Tokens made this way carry an empty span;
    /// tokens produced by a scan carry the real source range instead.
    pub fn new(token_type: TokenType, lexeme: std::string::String, literal: Literal, line: u32) -> (t: Token)
        ensures
            t@.token_type == token_type,
            t@.lexeme == lexeme@,
            t@.literal == literal@,
            t@.line == line,
            t@.start == 0,
            t@.end == 0,
    {
        Token { token_type, lexeme, literal, line, start: 0, end: 0 }
    }
}

/// A recoverable lexical error, recorded while the scan continues.
#[derive(Debug, Clone, Copy, PartialEq, Eq)]
pub enum Diagnostic {
    /// An opening quote with no matching closing quote before end of input;
    /// carries the line the string literal started on.
    UnterminatedString { line: u32 },
    /// A character no scanning rule matches; carries the character and its line.
    UnknownCharacter { ch: char, line: u32 },
    /// A digit run whose value exceeds the representable integer range;
    /// carries the line the literal started on.
    NumericParseOverflow { line: u32 },
}

impl Diagnostic {
    /// The source line the error was recorded on.
    pub fn line(&self) -> (l: u32)
        ensures
            l == match self {
                Diagnostic::UnterminatedString { line } => line,
                Diagnostic::UnknownCharacter { ch: _, line } => line,
                Diagnostic::NumericParseOverflow { line } => line,
            },
    {
        match self {
            Diagnostic::UnterminatedString { line } => *line,
            Diagnostic::UnknownCharacter { ch: _, line } => *line,
            Diagnostic::NumericParseOverflow { line } => *line,
        }
    }

    /// A short description of the error, for reporting beside its line.
    pub fn message(&self) -> (m: std::string::String)
        ensures
            m@ == match self {
                Diagnostic::UnterminatedString { .. } => "unterminated string literal"@,
                Diagnostic::UnknownCharacter { .. } => "unknown character"@,
                Diagnostic::NumericParseOverflow { .. } => "numeric literal out of range"@,
            },
    {
        match self {
            Diagnostic::UnterminatedString { .. } => String::from_str(
                "unterminated string literal",
            ),
            Diagnostic::UnknownCharacter { .. } => String::from_str("unknown character"),
            Diagnostic::NumericParseOverflow { .. } => String::from_str(
                "numeric literal out of range",
            ),
        }
    }
}

} // verus!
