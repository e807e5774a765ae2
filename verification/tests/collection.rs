use flowscript::collection::{length, pop, push};
use flowscript::error_handler::{Error, TypeError, TypeErrorType};
use flowscript::value::Value;

fn integers(values: &[i64]) -> Vec<Value> {
    values.iter().map(|v| Value::Integer(*v)).collect()
}

fn as_integers(value: &Value) -> Vec<i64> {
    match value {
        Value::Array(elements) => elements
            .iter()
            .map(|element| match element {
                Value::Integer(v) => *v,
                _ => panic!("not an integer"),
            })
            .collect(),
        _ => panic!("not an array"),
    }
}

#[test]
fn length_of_an_array_counts_its_elements() {
    let result = length(vec![Value::Array(integers(&[4, 5, 6]))]);
    assert!(matches!(result, Ok(Value::Integer(3))));
}

#[test]
fn length_of_a_string_counts_its_utf8_bytes() {
    let result = length(vec![Value::String("héllo".to_string())]);
    assert!(matches!(result, Ok(Value::Integer(6))));
}

#[test]
fn length_of_a_number_is_not_a_sequence() {
    let result = length(vec![Value::Integer(7)]);
    assert!(matches!(
        result,
        Err(Error::TypeError(TypeError { kind: TypeErrorType::NotSequence(Value::Integer(7)) }))
    ));
}

#[test]
fn push_appends_the_values_before_the_array_in_order() {
    let result = push(vec![Value::Integer(1), Value::Integer(2), Value::Array(integers(&[0]))]).unwrap();
    assert_eq!(as_integers(&result), vec![0, 1, 2]);
}

#[test]
fn pop_drops_the_last_element() {
    let result = pop(vec![Value::Array(integers(&[1, 2, 3]))]).unwrap();
    assert_eq!(as_integers(&result), vec![1, 2]);
}

#[test]
fn pop_of_an_empty_array_stays_empty() {
    let result = pop(vec![Value::Array(Vec::new())]).unwrap();
    assert_eq!(as_integers(&result), Vec::<i64>::new());
}
