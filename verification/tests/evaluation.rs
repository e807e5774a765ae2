use flowscript::builtins::BuiltinOperation;
use flowscript::error_handler::{Error, RuntimeError, RuntimeErrorType, TypeError, TypeErrorType};
use flowscript::evaluation::compute_exact;
use flowscript::value::{Kind, Value};

fn text(s: &str) -> Value {
    Value::String(s.to_string())
}

fn run(operation: BuiltinOperation, arguments: Vec<Value>) -> Option<Result<Value, Error>> {
    compute_exact(operation, &arguments)
}

#[test]
fn integers_add_subtract_and_multiply_from_the_left() {
    assert!(matches!(run(BuiltinOperation::Add, vec![Value::Integer(1), Value::Integer(2), Value::Integer(3)]), Some(Ok(Value::Integer(6)))));
    assert!(matches!(run(BuiltinOperation::Minus, vec![Value::Integer(10), Value::Integer(2), Value::Integer(3)]), Some(Ok(Value::Integer(5)))));
    assert!(matches!(run(BuiltinOperation::Multiply, vec![Value::Integer(4), Value::Integer(-5)]), Some(Ok(Value::Integer(-20)))));
    assert!(matches!(run(BuiltinOperation::Minus, vec![Value::Integer(7)]), Some(Ok(Value::Integer(-7)))));
}

#[test]
fn strings_concatenate_and_repeat() {
    assert!(matches!(run(BuiltinOperation::Add, vec![text("ab"), text("é"), text("c")]), Some(Ok(Value::String(s))) if s == "abéc"));
    assert!(matches!(run(BuiltinOperation::Multiply, vec![text("xy"), Value::Integer(3)]), Some(Ok(Value::String(s))) if s == "xyxyxy"));
    assert!(matches!(run(BuiltinOperation::Multiply, vec![text(""), Value::Integer(-1)]), Some(Ok(Value::String(s))) if s.is_empty()));
}

#[test]
fn a_float_or_an_overflow_is_left_to_the_caller() {
    assert!(run(BuiltinOperation::Add, vec![Value::Integer(1), Value::Float(0)]).is_none());
    assert!(run(BuiltinOperation::Add, vec![Value::Integer(i64::MAX), Value::Integer(1)]).is_none());
    assert!(run(BuiltinOperation::Minus, vec![Value::Integer(i64::MIN)]).is_none());
    assert!(run(BuiltinOperation::Multiply, vec![text("a"), Value::Integer(-1)]).is_none());
    assert!(run(BuiltinOperation::Print, vec![Value::Integer(1)]).is_none());
}

#[test]
fn arithmetic_errors_are_exact() {
    assert!(matches!(
        run(BuiltinOperation::Add, vec![]),
        Some(Err(Error::RuntimeError(RuntimeError { kind: RuntimeErrorType::InsufficientOperands(name) }))) if name == "Addition"
    ));
    assert!(matches!(
        run(BuiltinOperation::Add, vec![Value::Integer(1), text("a")]),
        Some(Err(Error::TypeError(TypeError { kind: TypeErrorType::TypeMismatch(Kind::Integer, Kind::String) })))
    ));
    assert!(matches!(
        run(BuiltinOperation::Add, vec![Value::Boolean(true)]),
        Some(Err(Error::TypeError(TypeError { kind: TypeErrorType::InvalidUnaryOperand(_) })))
    ));
    assert!(matches!(
        run(BuiltinOperation::Multiply, vec![Value::Integer(2)]),
        Some(Err(Error::TypeError(TypeError { kind: TypeErrorType::InvalidOperand(_) })))
    ));
}

#[test]
fn comparisons_chain_over_neighbours() {
    assert!(matches!(run(BuiltinOperation::LowerThan, vec![Value::Integer(1), Value::Integer(2), Value::Integer(3)]), Some(Ok(Value::Boolean(true)))));
    assert!(matches!(run(BuiltinOperation::LowerThan, vec![Value::Integer(1), Value::Integer(3), Value::Integer(2)]), Some(Ok(Value::Boolean(false)))));
    assert!(matches!(run(BuiltinOperation::LowerThan, vec![text("abc"), text("abd")]), Some(Ok(Value::Boolean(true)))));
    assert!(matches!(run(BuiltinOperation::GreaterThanOrEqual, vec![text("b"), text("ab")]), Some(Ok(Value::Boolean(true)))));
    assert!(matches!(run(BuiltinOperation::Equal, vec![Value::Boolean(true), Value::Boolean(true)]), Some(Ok(Value::Boolean(true)))));
    assert!(matches!(run(BuiltinOperation::NotEqual, vec![Value::Integer(1), Value::Integer(1)]), Some(Ok(Value::Boolean(false)))));
    assert!(matches!(
        run(BuiltinOperation::LowerThan, vec![Value::Boolean(true), Value::Boolean(false)]),
        Some(Err(Error::TypeError(TypeError { kind: TypeErrorType::TypeMismatch(Kind::Boolean, Kind::Boolean) })))
    ));
    assert!(matches!(
        run(BuiltinOperation::Equal, vec![Value::Integer(1)]),
        Some(Err(Error::RuntimeError(RuntimeError { kind: RuntimeErrorType::InsufficientOperands(name) }))) if name == "=="
    ));
}

#[test]
fn casts_without_floats() {
    assert!(matches!(run(BuiltinOperation::ToInteger, vec![Value::Boolean(true)]), Some(Ok(Value::Integer(1)))));
    assert!(matches!(run(BuiltinOperation::ToInteger, vec![Value::Nil]), Some(Ok(Value::Integer(0)))));
    assert!(matches!(run(BuiltinOperation::ToBoolean, vec![Value::Integer(0)]), Some(Ok(Value::Boolean(false)))));
    assert!(matches!(run(BuiltinOperation::ToBoolean, vec![text("")]), Some(Ok(Value::Boolean(true)))));
    assert!(matches!(run(BuiltinOperation::ToString, vec![Value::Nil]), Some(Ok(Value::String(s))) if s.is_empty()));
    assert!(matches!(run(BuiltinOperation::ToString, vec![text("q")]), Some(Ok(Value::String(s))) if s == "q"));
    assert!(matches!(
        run(BuiltinOperation::ToFloat, vec![Value::Nil]),
        Some(Err(Error::RuntimeError(RuntimeError { kind: RuntimeErrorType::ParseError(a, b) }))) if a == "Nil" && b == "Float"
    ));
    assert!(matches!(run(BuiltinOperation::ToInteger, vec![text("12")]), Some(Ok(Value::Integer(12)))));
    assert!(matches!(run(BuiltinOperation::ToString, vec![Value::Integer(12)]), Some(Ok(Value::String(s))) if s == "12"));
}

#[test]
fn integers_and_booleans_are_written_as_rust_writes_them() {
    assert!(matches!(run(BuiltinOperation::ToString, vec![Value::Integer(-120)]), Some(Ok(Value::String(s))) if s == "-120"));
    assert!(matches!(run(BuiltinOperation::ToString, vec![Value::Integer(0)]), Some(Ok(Value::String(s))) if s == "0"));
    assert!(matches!(run(BuiltinOperation::ToString, vec![Value::Integer(i64::MIN)]), Some(Ok(Value::String(s))) if s == i64::MIN.to_string()));
    assert!(matches!(run(BuiltinOperation::ToString, vec![Value::Integer(i64::MAX)]), Some(Ok(Value::String(s))) if s == "9223372036854775807"));
    assert!(matches!(run(BuiltinOperation::ToString, vec![Value::Boolean(true)]), Some(Ok(Value::String(s))) if s == "true"));
    assert!(matches!(run(BuiltinOperation::ToString, vec![Value::Boolean(false)]), Some(Ok(Value::String(s))) if s == "false"));
}

#[test]
fn text_reads_as_an_integer_as_rust_reads_one() {
    assert!(matches!(run(BuiltinOperation::ToInteger, vec![text("-42")]), Some(Ok(Value::Integer(-42)))));
    assert!(matches!(run(BuiltinOperation::ToInteger, vec![text("+7")]), Some(Ok(Value::Integer(7)))));
    assert!(matches!(run(BuiltinOperation::ToInteger, vec![text("007")]), Some(Ok(Value::Integer(7)))));
    assert!(matches!(run(BuiltinOperation::ToInteger, vec![text("-9223372036854775808")]), Some(Ok(Value::Integer(i64::MIN)))));
    assert!(matches!(run(BuiltinOperation::ToInteger, vec![text("9223372036854775807")]), Some(Ok(Value::Integer(i64::MAX)))));
    for bad in ["", "-", "+", "1.5", " 1", "1 ", "9223372036854775808", "-9223372036854775809", "99999999999999999999999", "١", "1_000"] {
        assert!(
            matches!(
                run(BuiltinOperation::ToInteger, vec![text(bad)]),
                Some(Err(Error::RuntimeError(RuntimeError { kind: RuntimeErrorType::ParseError(a, b) }))) if a == bad && b == "Integer"
            ),
            "{}",
            bad
        );
        assert_eq!(bad.parse::<i64>().is_err(), true);
    }
}

#[test]
fn a_string_minus_a_string_drops_its_first_occurrence() {
    assert!(matches!(run(BuiltinOperation::Minus, vec![text("abcabc"), text("bc")]), Some(Ok(Value::String(s))) if s == "aabc"));
    assert!(matches!(run(BuiltinOperation::Minus, vec![text("abc"), text("x")]), Some(Ok(Value::String(s))) if s == "abc"));
    assert!(matches!(run(BuiltinOperation::Minus, vec![text("abc"), text("")]), Some(Ok(Value::String(s))) if s == "abc"));
    assert!(matches!(run(BuiltinOperation::Minus, vec![text("héllo wörld"), text("ö"), text("l")]), Some(Ok(Value::String(s))) if s == "hélo wrld"));
    assert!(matches!(run(BuiltinOperation::Minus, vec![text("ab"), text("abc")]), Some(Ok(Value::String(s))) if s == "ab"));
    assert!(matches!(
        run(BuiltinOperation::Minus, vec![text("ab"), Value::Integer(1)]),
        Some(Err(Error::TypeError(TypeError { kind: TypeErrorType::TypeMismatch(Kind::String, Kind::Integer) })))
    ));
}
