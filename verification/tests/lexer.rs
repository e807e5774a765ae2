use flowscript::error_handler::{Error, LexicalErrorType};
use flowscript::lexer::{Lexed, Lexer};
use flowscript::token::TokenType;

fn kinds(source: &str) -> Vec<TokenType> {
    let mut lexer = Lexer::new(source.as_bytes());
    let mut out = Vec::new();
    loop {
        match lexer.scan() {
            Lexed::Done => break,
            Lexed::Read(Ok(token)) => out.push(token.kind),
            Lexed::Read(Err(error)) => panic!("unexpected error {:?}", error),
            Lexed::OutOfRange => panic!("literal out of range"),
        }
    }
    out
}

#[test]
fn lexes_a_pipeline_with_a_call() {
    let tokens = kinds("1 -> +(2, 3)");
    assert!(matches!(tokens[0], TokenType::Integer(1)));
    assert!(matches!(tokens[1], TokenType::Arrow));
    match &tokens[2] {
        TokenType::Identifier(name) => assert_eq!(name, "+"),
        other => panic!("{:?}", other),
    }
    assert!(matches!(tokens[3], TokenType::LeftParen));
    assert!(matches!(tokens[4], TokenType::Integer(2)));
    assert!(matches!(tokens[5], TokenType::Integer(3)));
    assert!(matches!(tokens[6], TokenType::RightParen));
    assert_eq!(tokens.len(), 7);
}

#[test]
fn rejects_a_bar_as_an_invalid_character() {
    let mut lexer = Lexer::new("1 |".as_bytes());
    let _ = lexer.scan();
    match lexer.scan() {
        Lexed::Read(Err(Error::LexicalError(e))) => {
            assert_eq!((e.line, e.column), (1, 3));
            assert!(matches!(e.kind, LexicalErrorType::InvalidCharacter(ref c) if c == "|"));
        }
        _ => panic!("expected an error"),
    }
}

#[test]
fn lexes_keywords_and_names() {
    let tokens = kinds("fun if else return true false nil x");
    assert!(matches!(tokens[0], TokenType::DefineFunction));
    assert!(matches!(tokens[1], TokenType::If));
    assert!(matches!(tokens[2], TokenType::Else));
    assert!(matches!(tokens[3], TokenType::Return));
    assert!(matches!(tokens[4], TokenType::Boolean(true)));
    assert!(matches!(tokens[5], TokenType::Boolean(false)));
    assert!(matches!(tokens[6], TokenType::Nil));
    match &tokens[7] {
        TokenType::Variable(name) => assert_eq!(name, "x"),
        other => panic!("{:?}", other),
    }
}

#[test]
fn reports_missing_closing_quote_with_line_and_column() {
    let mut lexer = Lexer::new("a\n  \"abc".as_bytes());
    let _ = lexer.scan();
    match lexer.scan() {
        Lexed::Read(Err(Error::LexicalError(e))) => {
            assert_eq!((e.line, e.column), (2, 4));
            match e.kind {
                LexicalErrorType::MissingClosingQuote(text) => assert_eq!(text, "abc"),
                other => panic!("{:?}", other),
            }
        }
        _ => panic!("expected an error"),
    }
}
