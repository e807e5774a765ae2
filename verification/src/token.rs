use vstd::prelude::*;

verus! {

/// A token: its kind and the byte range of the source it was read from.
#[derive(Debug)]
pub struct Token {
    pub start: usize,
    pub end: usize,
    pub kind: TokenType,
}

impl Token {
    /// A token of the given kind over `start..end`.
    pub fn new(start: usize, end: usize, kind: TokenType) -> (token: Token)
        ensures
            token.start == start,
            token.end == end,
            token.kind == kind,
    {
        Token { start, end, kind }
    }
}

/// The kinds of token. A float literal keeps its text; its value is read
/// when the literal becomes a constant.
#[derive(Debug)]
pub enum TokenType {
    Arrow,
    Boolean(bool),
    Div,
    Float(String),
    Function,
    Nil,
    Identifier(String),
    Macro(String),
    Integer(i64),
    LeftParen,
    Minus,
    Mul,
    Plus,
    RelativeReference(u16, u16),
    RightParen,
    Semicolon,
    String(String),
    Variable(String),
    DefineFunction,
    LeftBrace,
    RightBrace,
    If,
    Else,
    Return,
    LeftBracket,
    RightBracket,
    Colon,
    Kind(String),
}

/// What a token kind says, with text as characters.
pub enum TokenModel {
    Arrow,
    Boolean(bool),
    Div,
    Float(Seq<char>),
    Function,
    Nil,
    Identifier(Seq<char>),
    Macro(Seq<char>),
    Integer(int),
    LeftParen,
    Minus,
    Mul,
    Plus,
    RelativeReference(int, int),
    RightParen,
    Semicolon,
    String(Seq<char>),
    Variable(Seq<char>),
    DefineFunction,
    LeftBrace,
    RightBrace,
    If,
    Else,
    Return,
    LeftBracket,
    RightBracket,
    Colon,
    Kind(Seq<char>),
}

/// The model of a token kind.
pub open spec fn token_model(kind: TokenType) -> TokenModel {
    match kind {
        TokenType::Arrow => TokenModel::Arrow,
        TokenType::Boolean(b) => TokenModel::Boolean(b),
        TokenType::Div => TokenModel::Div,
        TokenType::Float(text) => TokenModel::Float(text@),
        TokenType::Function => TokenModel::Function,
        TokenType::Nil => TokenModel::Nil,
        TokenType::Identifier(text) => TokenModel::Identifier(text@),
        TokenType::Macro(text) => TokenModel::Macro(text@),
        TokenType::Integer(value) => TokenModel::Integer(value as int),
        TokenType::LeftParen => TokenModel::LeftParen,
        TokenType::Minus => TokenModel::Minus,
        TokenType::Mul => TokenModel::Mul,
        TokenType::Plus => TokenModel::Plus,
        TokenType::RelativeReference(x, y) => TokenModel::RelativeReference(x as int, y as int),
        TokenType::RightParen => TokenModel::RightParen,
        TokenType::Semicolon => TokenModel::Semicolon,
        TokenType::String(text) => TokenModel::String(text@),
        TokenType::Variable(text) => TokenModel::Variable(text@),
        TokenType::DefineFunction => TokenModel::DefineFunction,
        TokenType::LeftBrace => TokenModel::LeftBrace,
        TokenType::RightBrace => TokenModel::RightBrace,
        TokenType::If => TokenModel::If,
        TokenType::Else => TokenModel::Else,
        TokenType::Return => TokenModel::Return,
        TokenType::LeftBracket => TokenModel::LeftBracket,
        TokenType::RightBracket => TokenModel::RightBracket,
        TokenType::Colon => TokenModel::Colon,
        TokenType::Kind(text) => TokenModel::Kind(text@),
    }
}

} // verus!
