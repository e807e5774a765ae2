use vstd::prelude::*;
use vstd::utf8::encode_utf8;
use crate::error_handler::{Error, TypeError, TypeErrorType};
use crate::value::Value;

verus! {

/// The number of elements of an array, or of UTF-8 bytes of a string, as an
/// integer value. Anything else is not a sequence and is handed back in the
/// error. It takes exactly one argument.
pub fn length(arguments: Vec<Value>) -> (result: Result<Value, Error>)
    requires
        arguments@.len() == 1,
    ensures
        match arguments@[0] {
            Value::Array(array) => result == Ok::<Value, Error>(Value::Integer(array@.len() as i64)),
            Value::String(string) => result == Ok::<Value, Error>(Value::Integer((encode_utf8(string@).len() as usize) as i64)),
            other => result == Err::<Value, Error>(Error::TypeError(TypeError { kind: TypeErrorType::NotSequence(other) })),
        },
{
    let mut arguments = arguments;
    let value = arguments.remove(0);
    match value {
        Value::Array(array) => {
            let count = array.len();
            Ok(Value::Integer(count as i64))
        },
        Value::String(string) => Ok(Value::Integer(string.as_str().len() as i64)),
        other => Err(Error::TypeError(TypeError { kind: TypeErrorType::NotSequence(other) })),
    }
}

/// The array given last, with the values before it appended in order. It
/// takes at least one value and the array.
pub fn push(arguments: Vec<Value>) -> (result: Result<Value, Error>)
    requires
        arguments@.len() >= 2,
        arguments@.last() is Array,
    ensures
        result matches Ok(Value::Array(array))
            && array@ == arguments@.last()->Array_0@ + arguments@.drop_last(),
{
    let mut arguments = arguments;
    let last = arguments.pop();
    let mut array = match last {
        Some(Value::Array(array)) => array,
        _ => {
            proof {
                assert(false);
            }
            Vec::new()
        },
    };
    array.append(&mut arguments);
    Ok(Value::Array(array))
}

/// The one array given, without its last element; an empty array stays
/// empty.
pub fn pop(arguments: Vec<Value>) -> (result: Result<Value, Error>)
    requires
        arguments@.len() == 1,
        arguments@[0] is Array,
    ensures
        result matches Ok(Value::Array(array)) && array@ == (if arguments@[0]->Array_0@.len() == 0 {
            arguments@[0]->Array_0@
        } else {
            arguments@[0]->Array_0@.drop_last()
        }),
{
    let mut arguments = arguments;
    let value = arguments.pop();
    let mut array = match value {
        Some(Value::Array(array)) => array,
        _ => {
            proof {
                assert(false);
            }
            Vec::new()
        },
    };
    array.pop();
    Ok(Value::Array(array))
}

} // verus!
