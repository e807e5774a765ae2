use flowscript::error_handler::{Error, SyntaxErrorType};
use flowscript::lexer::Lexer;
use flowscript::node::Node;
use flowscript::parser::{Parsed, Parser};
use flowscript::value::{HeavyValue, Kind, LightValue};

fn pipelines(source: &str, floats: Vec<(usize, u64)>) -> Vec<Result<Node, Vec<Error>>> {
    let lexer = Lexer::new(source.as_bytes());
    let mut parser = Parser::new(lexer, floats);
    let mut out = Vec::new();
    loop {
        match parser.next() {
            Parsed::Done => break,
            Parsed::Pipeline(result) => out.push(result),
            Parsed::Unfinished => panic!("parsing got stuck"),
        }
    }
    out
}

fn stations(result: &Result<Node, Vec<Error>>) -> &Vec<Node> {
    match result {
        Ok(Node::Pipeline(stations)) => stations,
        other => panic!("not a pipeline: {:?}", other),
    }
}

#[test]
fn parses_two_literal_stations() {
    let parsed = pipelines("1 -> 2", Vec::new());
    assert_eq!(parsed.len(), 1);
    let stations = stations(&parsed[0]);
    assert_eq!(stations.len(), 2);
    assert!(matches!(stations[0], Node::Literal(LightValue::Integer(1))));
    assert!(matches!(stations[1], Node::Literal(LightValue::Integer(2))));
}

#[test]
fn the_token_after_a_station_is_passed_over() {
    // After each station the next token is passed over, so a third station
    // starts a pipeline of its own.
    let parsed = pipelines("1 -> 2 -> 3", Vec::new());
    assert_eq!(parsed.len(), 2);
    assert_eq!(stations(&parsed[0]).len(), 2);
    let second = stations(&parsed[1]);
    assert_eq!(second.len(), 1);
    assert!(matches!(second[0], Node::Literal(LightValue::Integer(3))));
}

#[test]
fn parses_a_call_with_its_arguments() {
    let parsed = pipelines("+(1, 2)", Vec::new());
    let stations = stations(&parsed[0]);
    match &stations[0] {
        Node::Apply { operator, arguments } => {
            assert_eq!(operator, "+");
            assert_eq!(arguments.len(), 2);
            assert!(matches!(arguments[0], Node::Literal(LightValue::Integer(1))));
            assert!(matches!(arguments[1], Node::Literal(LightValue::Integer(2))));
        },
        other => panic!("{:?}", other),
    }
}

#[test]
fn parses_a_function_definition() {
    let parsed = pipelines("fun add(a: integer) { a }", Vec::new());
    let stations = stations(&parsed[0]);
    match &stations[0] {
        Node::DefineFunction { operator, parameters, body, result } => {
            assert_eq!(operator, "add");
            assert_eq!(parameters.len(), 1);
            match &parameters[0] {
                Node::Assignment(name, Kind::Integer) => assert_eq!(name, "a"),
                other => panic!("{:?}", other),
            }
            assert_eq!(body.len(), 1);
            match &body[0] {
                Node::Pipeline(inner) => match &inner[0] {
                    Node::Variable(name) => assert_eq!(name, "a"),
                    other => panic!("{:?}", other),
                },
                other => panic!("{:?}", other),
            }
            assert!(matches!(result, Kind::Undefined));
        },
        other => panic!("{:?}", other),
    }
}

#[test]
fn parses_a_condition_with_a_final_branch() {
    let parsed = pipelines("if (true) { 1 } else { 2 }", Vec::new());
    let stations = stations(&parsed[0]);
    match &stations[0] {
        Node::Condition { branches, final_branch } => {
            assert_eq!(branches.len(), 1);
            assert!(matches!(branches[0].condition[0], Node::Literal(LightValue::Boolean(true))));
            assert_eq!(branches[0].body.len(), 1);
            assert_eq!(final_branch.len(), 1);
            match &final_branch[0] {
                Node::Pipeline(inner) => assert!(matches!(inner[0], Node::Literal(LightValue::Integer(2)))),
                other => panic!("{:?}", other),
            }
        },
        other => panic!("{:?}", other),
    }
}

#[test]
fn parses_a_string_and_an_array() {
    let parsed = pipelines("[\"ab\", nil]", Vec::new());
    let stations = stations(&parsed[0]);
    match &stations[0] {
        Node::Array(elements) => {
            assert_eq!(elements.len(), 2);
            match &elements[0] {
                Node::HeavyLiteral(HeavyValue::String(text)) => assert_eq!(text, "ab"),
                other => panic!("{:?}", other),
            }
            assert!(matches!(elements[1], Node::Literal(LightValue::Nil)));
        },
        other => panic!("{:?}", other),
    }
}

#[test]
fn a_float_takes_the_value_given_for_its_position() {
    let bits = 1.5f64.to_bits();
    let parsed = pipelines("1.5", vec![(0, bits)]);
    let stations = stations(&parsed[0]);
    match stations[0] {
        Node::Literal(LightValue::Float(value)) => assert_eq!(value, bits),
        ref other => panic!("{:?}", other),
    }
}

#[test]
fn a_float_without_a_value_is_unfinished() {
    let lexer = Lexer::new("1.5".as_bytes());
    let mut parser = Parser::new(lexer, Vec::new());
    assert!(matches!(parser.next(), Parsed::Unfinished));
}

#[test]
fn reports_a_missing_right_bracket() {
    let parsed = pipelines("[1", Vec::new());
    match &parsed[0] {
        Err(errors) => {
            assert_eq!(errors.len(), 1);
            match &errors[0] {
                Error::SyntaxError(error) => {
                    assert!(matches!(error.kind, SyntaxErrorType::MissingRightBracket));
                    assert_eq!((error.line, error.column), (1, 1));
                },
                other => panic!("{:?}", other),
            }
            assert_eq!(errors[0].code(), 3012);
        },
        other => panic!("{:?}", other),
    }
}

#[test]
fn reports_a_missing_station_after_an_arrow() {
    let parsed = pipelines("1 ->", Vec::new());
    match &parsed[0] {
        Err(errors) => match &errors[0] {
            Error::SyntaxError(error) => assert!(matches!(error.kind, SyntaxErrorType::NoStationAfterPipeline)),
            other => panic!("{:?}", other),
        },
        other => panic!("{:?}", other),
    }
}

#[test]
fn reports_a_token_that_starts_no_station() {
    let parsed = pipelines(")", Vec::new());
    match &parsed[0] {
        Err(errors) => {
            assert_eq!(errors[0].code(), 3001);
        },
        other => panic!("{:?}", other),
    }
}

#[test]
fn a_lexical_error_is_its_own_result() {
    let parsed = pipelines("|", Vec::new());
    match &parsed[0] {
        Err(errors) => assert_eq!(errors[0].code(), 1001),
        other => panic!("{:?}", other),
    }
}
