use vstd::prelude::*;

verus! {

/// The closed set of token categories.
#[allow(non_camel_case_types)]
#[derive(Debug, Clone, Copy, PartialEq, Eq, Structural)]
pub enum TokenType {
    // Single-character tokens.
    LEFT_PAREN,
    RIGHT_PAREN,
    LEFT_BRACE,
    RIGHT_BRACE,
    COMMA,
    DOT,
    MINUS,
    PLUS,
    SEMICOLON,
    SLASH,
    STAR,
    // One or two character tokens.
    BANG,
    BANG_EQUAL,
    EQUAL,
    EQUAL_EQUAL,
    GREATER,
    GREATER_EQUAL,
    LESS,
    LESS_EQUAL,
    // Literals.
    IDENTIFIER,
    STRING,
    NUMBER,
    // Keywords.
    AND,
    CLASS,
    ELSE,
    FALSE,
    FUN,
    FOR,
    IF,
    NIL,
    OR,
    PRINT,
    RETURN,
    SUPER,
    THIS,
    TRUE,
    VAR,
    WHILE,
    EOF,
}

/// The decoded value carried by a token.
///
/// A floating-point literal is kept as its exact decimal text: the library
/// does no floating-point arithmetic, and the text determines the value.
pub enum LiteralValue {
    NoVal,
    Num(i64),
    NumFloat(String),
    Str(String),
}

/// Mathematical form of a literal value.
pub enum SpecLiteral {
    NoVal,
    Num(int),
    NumFloat(Seq<char>),
    Str(Seq<char>),
}

impl View for LiteralValue {
    type V = SpecLiteral;

    open spec fn view(&self) -> SpecLiteral {
        match self {
            LiteralValue::NoVal => SpecLiteral::NoVal,
            LiteralValue::Num(n) => SpecLiteral::Num(*n as int),
            LiteralValue::NumFloat(s) => SpecLiteral::NumFloat(s@),
            LiteralValue::Str(s) => SpecLiteral::Str(s@),
        }
    }
}

/// The atomic lexical unit.
pub struct Token {
    pub tt: TokenType,
    pub lexeme: String,
    pub line: u32,
    pub literal: LiteralValue,
}

/// Mathematical form of a token.
pub struct SpecToken {
    pub tt: TokenType,
    pub lexeme: Seq<char>,
    pub line: int,
    pub literal: SpecLiteral,
}

impl View for Token {
    type V = SpecToken;

    open spec fn view(&self) -> SpecToken {
        SpecToken {
            tt: self.tt,
            lexeme: self.lexeme@,
            line: self.line as int,
            literal: self.literal@,
        }
    }
}

impl Token {
    pub fn new(tt: TokenType, lexeme: String, line: u32, literal: LiteralValue) -> (r: Self)
        ensures
            r.tt == tt,
            r.lexeme == lexeme,
            r.line == line,
            r.literal == literal,
    {
        Token { tt, lexeme, line, literal }
    }
}

/// The view of each token of a sequence.
pub open spec fn tokens_view(ts: Seq<Token>) -> Seq<SpecToken> {
    ts.map_values(|t: Token| t@)
}

/// A lexical error. Neither kind stops a scan.
#[derive(Debug, Clone, Copy, PartialEq, Eq, Structural)]
pub enum ScanError {
    /// The input ended inside a string literal that starts on `line`.
    UnterminatedString { line: u32 },
    /// `ch` on `line` starts no token.
    UnexpectedCharacter { line: u32, ch: char },
}

} // verus!
