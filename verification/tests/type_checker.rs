use flowscript::builtins::get_types;
use flowscript::type_checker::select_signature;
use flowscript::value::Kind;
use flowscript::error_handler::{Error, ErrorHandler, RuntimeError, RuntimeErrorType, TypeErrorType};
use flowscript::node::{Node, ResolvedNode, AST};
use flowscript::resolver::Resolver;
use flowscript::symbol_table::SymbolTable;
use flowscript::type_checker::TypeChecker;
use flowscript::value::LightValue;

#[test]
fn integers_select_the_integer_addition() {
    let types = get_types(0);
    match select_signature(&vec![Kind::Integer, Kind::Integer], &types) {
        Ok(kind) => assert!(matches!(kind, Kind::Integer)),
        Err(errors) => panic!("{:?}", errors),
    }
}

#[test]
fn floats_select_the_float_addition() {
    let types = get_types(0);
    match select_signature(&vec![Kind::Float, Kind::Float, Kind::Float], &types) {
        Ok(kind) => assert!(matches!(kind, Kind::Float)),
        Err(errors) => panic!("{:?}", errors),
    }
}

#[test]
fn mixed_kinds_match_no_signature() {
    let types = get_types(0);
    match select_signature(&vec![Kind::Integer, Kind::String], &types) {
        Ok(kind) => panic!("{:?}", kind),
        Err(errors) => assert!(!errors.is_empty()),
    }
}

#[test]
fn a_single_string_is_too_few_for_concatenation() {
    let types = get_types(0);
    assert!(select_signature(&vec![Kind::String], &types).is_err());
    assert!(select_signature(&vec![Kind::String, Kind::String], &types).is_ok());
}

#[test]
fn checking_keeps_the_errors_it_was_handed_in_front() {
    let resolver = Resolver::new(ErrorHandler::new(), SymbolTable::with_builtins());
    let output = resolver
        .resolve(vec![Node::Pipeline(vec![
            Node::Literal(LightValue::Integer(1)),
            Node::Assignment("x".to_string(), Kind::String),
        ])])
        .expect("resolution does not get stuck");
    assert!(output.error_handler.errors.is_empty());
    let mut handler = ErrorHandler::new();
    handler.push_error(Error::RuntimeError(RuntimeError { kind: RuntimeErrorType::OutOfBounds(3, 4) }));
    let checker = TypeChecker::new(handler, output.symbol_table);
    let (handler, _typed) = checker.checker(output.ast);
    assert_eq!(handler.errors.len(), 2);
    assert!(matches!(
        &handler.errors[0],
        Error::RuntimeError(error) if matches!(error.kind, RuntimeErrorType::OutOfBounds(3, 4))
    ));
    assert!(matches!(
        &handler.errors[1],
        Error::TypeError(error) if matches!(error.kind, TypeErrorType::AssignTypeMismatch(Kind::Integer, Kind::String))
    ));
}

#[test]
fn a_soft_assignment_gives_its_variable_the_kind_before_it() {
    let resolver = Resolver::new(ErrorHandler::new(), SymbolTable::with_builtins());
    let output = resolver
        .resolve(vec![
            Node::Pipeline(vec![Node::Literal(LightValue::Integer(1)), Node::SoftAssignment("x".to_string())]),
            Node::Pipeline(vec![Node::Variable("x".to_string())]),
        ])
        .expect("resolution does not get stuck");
    let checker = TypeChecker::new(ErrorHandler::new(), output.symbol_table);
    let (handler, typed) = checker.checker(output.ast);
    assert!(handler.errors.is_empty());
    match &typed.nodes[0] {
        flowscript::node::TypedNode::Pipeline(stations) => {
            assert!(matches!(stations[1], flowscript::node::TypedNode::Assignment(0, Kind::Integer)))
        }
        other => panic!("{:?}", other),
    }
    match &typed.nodes[1] {
        flowscript::node::TypedNode::Pipeline(stations) => {
            assert!(matches!(stations[0], flowscript::node::TypedNode::Variable(0, Kind::Integer)))
        }
        other => panic!("{:?}", other),
    }
}

#[test]
fn a_station_capture_with_nothing_before_it_leaves_the_checker_stuck() {
    let checker = TypeChecker::new(ErrorHandler::new(), SymbolTable::with_builtins());
    let ast = AST {
        nodes: vec![ResolvedNode::Pipeline(vec![ResolvedNode::SoftAssignment(0, 0)])],
        variables_count: 0,
        arity: 0,
        max_relative_reference: 0,
    };
    assert!(checker.try_checker(ast).is_none());
}
