use flowscript::error_handler::{Error, ErrorHandler, SemanticErrorType, TypeErrorType};
use flowscript::node::{Node, ResolvedNode};
use flowscript::resolver::{Resolver, ResolverOutput};
use flowscript::symbol_table::SymbolTable;
use flowscript::value::{Kind, LightValue};

fn resolve(nodes: Vec<Node>) -> ResolverOutput {
    let resolver = Resolver::new(ErrorHandler::new(), SymbolTable::with_builtins());
    match resolver.resolve(nodes) {
        Some(output) => output,
        None => panic!("resolution got stuck"),
    }
}

fn integer(value: i64) -> Node {
    Node::Literal(LightValue::Integer(value))
}

#[test]
fn an_assigned_variable_resolves_to_its_slot() {
    let output = resolve(vec![
        Node::Pipeline(vec![integer(1), Node::Assignment("x".to_string(), Kind::Integer)]),
        Node::Pipeline(vec![Node::Variable("x".to_string())]),
    ]);
    assert!(output.error_handler.errors.is_empty());
    assert_eq!(output.ast.variables_count, 1);
    assert_eq!(output.main_variables_count, 1);
    match &output.ast.nodes[0] {
        ResolvedNode::Pipeline(stations) => {
            assert!(matches!(stations[0], ResolvedNode::Literal(LightValue::Integer(1))));
            assert!(matches!(stations[1], ResolvedNode::Assignment(0, 0, Kind::Integer)));
        },
        other => panic!("{:?}", other),
    }
    match &output.ast.nodes[1] {
        ResolvedNode::Pipeline(stations) => assert!(matches!(stations[0], ResolvedNode::Variable(0, 0))),
        other => panic!("{:?}", other),
    }
}

#[test]
fn an_undefined_name_is_reported() {
    let output = resolve(vec![Node::Pipeline(vec![Node::Variable("missing".to_string())])]);
    assert_eq!(output.error_handler.errors.len(), 1);
    match &output.error_handler.errors[0] {
        Error::SemanticError(error) => match &error.kind {
            SemanticErrorType::UndefinedIdentifier(name) => assert_eq!(name, "missing"),
            other => panic!("{:?}", other),
        },
        other => panic!("{:?}", other),
    }
    assert_eq!(output.error_handler.errors[0].code(), 5001);
}

#[test]
fn a_relative_reference_captures_the_station_it_names() {
    let output = resolve(vec![Node::Pipeline(vec![integer(7), Node::RelativeReference(1, 0)])]);
    assert!(output.error_handler.errors.is_empty());
    assert_eq!(output.ast.max_relative_reference, 1);
    match &output.ast.nodes[0] {
        ResolvedNode::Pipeline(stations) => {
            assert_eq!(stations.len(), 3);
            assert!(matches!(stations[0], ResolvedNode::Literal(LightValue::Integer(7))));
            assert!(matches!(stations[1], ResolvedNode::StationCapture(0, 0)));
            assert!(matches!(stations[2], ResolvedNode::RelativeReference(0, 0, 0)));
        },
        other => panic!("{:?}", other),
    }
    assert_eq!(output.symbol_table.all_variable.len(), 1);
}

#[test]
fn a_relative_reference_outside_a_pipeline_is_reported() {
    let output = resolve(vec![Node::RelativeReference(1, 0)]);
    assert_eq!(output.error_handler.errors.len(), 1);
    assert_eq!(output.error_handler.errors[0].code(), 5005);
}

#[test]
fn a_reference_to_a_station_before_the_first_is_reported() {
    let output = resolve(vec![Node::Pipeline(vec![integer(1), Node::RelativeReference(2, 0)])]);
    match &output.error_handler.errors[0] {
        Error::SemanticError(error) => assert!(matches!(error.kind, SemanticErrorType::MissingStation(1))),
        other => panic!("{:?}", other),
    }
}

#[test]
fn a_builtin_call_resolves_to_its_table_position() {
    let output = resolve(vec![Node::Pipeline(vec![Node::Apply {
        operator: "+".to_string(),
        arguments: vec![integer(2), integer(3)],
    }])]);
    match &output.ast.nodes[0] {
        ResolvedNode::Pipeline(stations) => match &stations[0] {
            ResolvedNode::BuiltinCall { index, arguments } => {
                assert_eq!(*index, 0);
                assert_eq!(arguments.len(), 2);
            },
            other => panic!("{:?}", other),
        },
        other => panic!("{:?}", other),
    }
}

#[test]
fn calling_a_variable_is_reported() {
    let output = resolve(vec![Node::Pipeline(vec![
        integer(1),
        Node::Assignment("x".to_string(), Kind::Integer),
        Node::Apply { operator: "x".to_string(), arguments: vec![] },
    ])]);
    assert_eq!(output.error_handler.errors.len(), 1);
    match &output.error_handler.errors[0] {
        Error::TypeError(error) => assert!(matches!(error.kind, TypeErrorType::NotAFunction(_))),
        other => panic!("{:?}", other),
    }
}

#[test]
fn a_definition_and_its_call_resolve_to_one_overload() {
    let output = resolve(vec![
        Node::Pipeline(vec![Node::DefineFunction {
            operator: "double".to_string(),
            parameters: vec![Node::Assignment("n".to_string(), Kind::Integer)],
            body: vec![Node::Pipeline(vec![Node::Variable("n".to_string())])],
            result: Kind::Undefined,
        }]),
        Node::Pipeline(vec![Node::Apply { operator: "double".to_string(), arguments: vec![integer(4)] }]),
    ]);
    assert!(output.error_handler.errors.is_empty());
    assert_eq!(output.total_define_function_count, 1);
    assert_eq!(output.main_define_function_count, 0);
    match &output.ast.nodes[0] {
        ResolvedNode::Pipeline(stations) => match &stations[0] {
            ResolvedNode::DefineFunction { function_index, body } => {
                assert_eq!(*function_index, 0);
                assert_eq!(body.arity, 1);
                assert_eq!(body.variables_count, 0);
                match &body.nodes[0] {
                    ResolvedNode::Pipeline(inner) => assert!(matches!(inner[0], ResolvedNode::Variable(0, 0))),
                    other => panic!("{:?}", other),
                }
            },
            other => panic!("{:?}", other),
        },
        other => panic!("{:?}", other),
    }
    match &output.ast.nodes[1] {
        ResolvedNode::Pipeline(stations) => assert!(matches!(stations[0], ResolvedNode::Call { function_index: 0, .. })),
        other => panic!("{:?}", other),
    }
}

#[test]
fn a_repeated_parameter_leaves_resolution_unfinished() {
    // The repeated parameter is reported, and the overload then looked up
    // by the remaining parameter kinds was never registered.
    let resolver = Resolver::new(ErrorHandler::new(), SymbolTable::with_builtins());
    let output = resolver.resolve(vec![Node::DefineFunction {
        operator: "f".to_string(),
        parameters: vec![
            Node::Assignment("n".to_string(), Kind::Integer),
            Node::Assignment("n".to_string(), Kind::Integer),
        ],
        body: vec![],
        result: Kind::Undefined,
    }]);
    assert!(output.is_none());
}

#[test]
fn resolving_keeps_the_errors_it_was_handed_in_front() {
    let mut handler = ErrorHandler::new();
    handler.push_error(Error::RuntimeError(flowscript::error_handler::RuntimeError {
        kind: flowscript::error_handler::RuntimeErrorType::OutOfBounds(1, 2),
    }));
    let resolver = Resolver::new(handler, SymbolTable::with_builtins());
    let output = match resolver.resolve(vec![Node::Pipeline(vec![Node::Variable("missing".to_string())])]) {
        Some(output) => output,
        None => panic!("resolution got stuck"),
    };
    assert_eq!(output.error_handler.errors.len(), 2);
    assert!(matches!(
        &output.error_handler.errors[0],
        Error::RuntimeError(error) if matches!(error.kind, flowscript::error_handler::RuntimeErrorType::OutOfBounds(1, 2))
    ));
    assert_eq!(output.error_handler.errors[1].code(), 5001);
}
