use flowscript::error_handler::{Error, LexicalError, LexicalErrorType, SemanticError, SemanticErrorType, SyntaxError, SyntaxErrorType, TypeError, TypeErrorType};
use flowscript::value::Kind;

#[test]
fn codes_give_the_stage_and_the_position_in_it() {
    let lexical = Error::LexicalError(LexicalError { line: 1, column: 1, kind: LexicalErrorType::DecimalPoints("1.2.3".to_string()) });
    assert_eq!(lexical.code(), 1002);
    let syntax = Error::SyntaxError(SyntaxError { line: 1, column: 1, kind: SyntaxErrorType::MissingRightParen });
    assert_eq!(syntax.code(), 3010);
    let brace = Error::SyntaxError(SyntaxError { line: 1, column: 1, kind: SyntaxErrorType::MissingRightBrace });
    assert_eq!(brace.code(), 3020);
    let semantic = Error::SemanticError(SemanticError { kind: SemanticErrorType::DuplicateParameter("n".to_string()) });
    assert_eq!(semantic.code(), 5002);
    let type_error = Error::TypeError(TypeError { kind: TypeErrorType::NoFunctionFound(vec![Kind::Integer]) });
    assert_eq!(type_error.code(), 8009);
}
