use flowscript::error_handler::SemanticErrorType;
use flowscript::symbol_table::{SymbolTable, SymbolType};
use flowscript::value::Kind;

#[test]
fn a_bound_name_resolves_to_its_binding() {
    let mut table = SymbolTable::with_builtins();
    let bound = table.add_variable("x".to_string(), Kind::Integer);
    assert!(matches!(bound, Ok(SymbolType::VariableScope(0, 0))));
    assert!(matches!(table.resolve("x"), Ok(SymbolType::VariableScope(0, 0))));
}

#[test]
fn binding_a_name_twice_in_a_scope_gives_the_first_binding() {
    let mut table = SymbolTable::with_builtins();
    let _ = table.add_variable("x".to_string(), Kind::Integer);
    let again = table.add_variable("x".to_string(), Kind::String);
    assert!(matches!(again, Err(SymbolType::VariableScope(0, 0))));
    assert_eq!(table.all_variable.len(), 1);
}

#[test]
fn a_scope_round_trip_forgets_its_names() {
    let mut table = SymbolTable::with_builtins();
    table.new_scope();
    let _ = table.add_variable("inner".to_string(), Kind::Integer);
    assert!(table.resolve("inner").is_ok());
    table.pop_scope();
    assert!(table.resolve("inner").is_err());
}

#[test]
fn an_inner_binding_hides_an_outer_one() {
    let mut table = SymbolTable::with_builtins();
    let _ = table.add_variable("x".to_string(), Kind::Integer);
    table.new_scope();
    let _ = table.add_variable("x".to_string(), Kind::String);
    assert!(matches!(table.resolve("x"), Ok(SymbolType::VariableScope(0, 1))));
}

#[test]
fn a_relative_reference_to_the_same_station_is_reused() {
    let mut table = SymbolTable::with_builtins();
    let first = table.add_relative_reference(2, Kind::Undefined);
    let second = table.add_relative_reference(2, Kind::Undefined);
    let other = table.add_relative_reference(0, Kind::Undefined);
    assert!(matches!(first, SymbolType::VariableScope(0, 0)));
    assert!(matches!(second, SymbolType::VariableScope(0, 0)));
    assert!(matches!(other, SymbolType::VariableScope(1, 1)));
    assert_eq!(table.pipeline.len(), 2);
}

#[test]
fn a_registered_overload_is_found() {
    let mut table = SymbolTable::with_builtins();
    table.add_function("f".to_string(), vec![Kind::Integer], Kind::Integer);
    table.add_function("f".to_string(), vec![Kind::String], Kind::String);
    let id = match table.resolve("f") {
        Ok(SymbolType::FunctionScope(id)) => id,
        other => panic!("{:?}", other),
    };
    let found = table.find_function(id, vec![Kind::String]).unwrap();
    assert_eq!(found.index, 1);
    assert!(matches!(found.result, Kind::String));
    assert!(table.find_function(id, vec![Kind::Float]).is_err());
}

#[test]
fn a_second_identical_overload_clashes() {
    let mut table = SymbolTable::with_builtins();
    table.add_function("f".to_string(), vec![Kind::Integer], Kind::Integer);
    assert!(table.function_clashes(&"f".to_string(), &vec![Kind::Integer]));
    assert!(!table.function_clashes(&"f".to_string(), &vec![Kind::Float]));
}

#[test]
fn builtins_resolve_to_their_table_positions() {
    let table = SymbolTable::with_builtins();
    assert!(matches!(table.resolve("+"), Ok(SymbolType::Builtin(0))));
    assert!(matches!(table.resolve("pop"), Ok(SymbolType::Builtin(16))));
    match table.resolve("nothing") {
        Err(error) => assert!(matches!(error.kind, SemanticErrorType::UndefinedIdentifier(_))),
        Ok(symbol) => panic!("{:?}", symbol),
    }
}

#[test]
fn closing_a_scope_undoes_every_binding_made_in_it() {
    let mut table = SymbolTable::with_builtins();
    let _ = table.add_variable("x".to_string(), Kind::Integer);
    table.new_scope();
    let _ = table.add_variable("x".to_string(), Kind::String);
    let _ = table.add_variable("y".to_string(), Kind::Boolean);
    table.add_function("f".to_string(), vec![Kind::Integer], Kind::Integer);
    table.pop_scope();
    assert!(matches!(table.resolve("x"), Ok(SymbolType::VariableScope(0, 0))));
    assert!(table.resolve("y").is_err());
    assert!(table.resolve("f").is_err());
    assert!(matches!(table.resolve("+"), Ok(SymbolType::Builtin(0))));
    assert_eq!(table.all_variable.len(), 3);
}

#[test]
fn an_overload_is_found_as_its_latest_registration_left_it() {
    let mut table = SymbolTable::with_builtins();
    table.add_function("f".to_string(), vec![Kind::Integer], Kind::Integer);
    table.add_function("f".to_string(), vec![Kind::String], Kind::String);
    let id = match table.resolve("f") {
        Ok(SymbolType::FunctionScope(id)) => id,
        other => panic!("{:?}", other),
    };
    let integer = table.find_function(id, vec![Kind::Integer]).expect("registered");
    let string = table.find_function(id, vec![Kind::String]).expect("registered");
    assert_eq!(integer.index, 0);
    assert!(matches!(integer.result, Kind::Integer));
    assert_eq!(string.index, 1);
    assert!(matches!(string.result, Kind::String));
    assert!(table.find_function(id, vec![Kind::Boolean]).is_err());
}
