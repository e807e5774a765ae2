use vstd::prelude::*;
use vstd::utf8::{
    decode_utf8, decode_utf8_encode_utf8, encode_utf8, encode_utf8_decode_utf8, encode_utf8_valid_utf8, is_ascii_chars,
    is_ascii_chars_encode_utf8, is_char_boundary, is_char_boundary_iff_not_is_continuation_byte, pop_first_scalar,
    valid_utf8, valid_utf8_concat, valid_utf8_split,
};
use crate::builtins::BuiltinOperation;
use crate::bytes::append_bytes;
use crate::error_handler::{Error, RuntimeError, RuntimeErrorType, TypeError, TypeErrorType};
use crate::lexer::text_of;
use crate::value::{Kind, Value};
use crate::instructions::Bytecode;
use crate::value::{kind_code, LightValue};
use crate::virmac::{operand, value_model, CallFrame, ValueModel, VirMac};

verus! {

broadcast use vstd::string::to_string_from_display_ensures_for_str;

/// What a builtin gives back, with its texts as characters.
pub enum Outcome {
    Value(ValueModel),
    Insufficient(Seq<char>),
    Mismatch(Kind, Kind),
    InvalidUnary(Seq<char>),
    InvalidOperand(Seq<char>),
    Unparsable(Seq<char>, Seq<char>),
    Other,
}

/// The outcome of a builtin's result.
pub open spec fn outcome(result: Result<Value, Error>) -> Outcome {
    match result {
        Ok(value) => Outcome::Value(value_model(value)),
        Err(Error::RuntimeError(RuntimeError { kind: RuntimeErrorType::InsufficientOperands(name) })) => Outcome::Insufficient(name@),
        Err(Error::RuntimeError(RuntimeError { kind: RuntimeErrorType::ParseError(text, target) })) => Outcome::Unparsable(text@, target@),
        Err(Error::TypeError(TypeError { kind: TypeErrorType::TypeMismatch(a, b) })) => Outcome::Mismatch(a, b),
        Err(Error::TypeError(TypeError { kind: TypeErrorType::InvalidUnaryOperand(message) })) => Outcome::InvalidUnary(message@),
        Err(Error::TypeError(TypeError { kind: TypeErrorType::InvalidOperand(message) })) => Outcome::InvalidOperand(message@),
        _ => Outcome::Other,
    }
}

/// The kind of a value.
pub open spec fn model_kind(value: ValueModel) -> Kind {
    match value {
        ValueModel::Boolean(_) => Kind::Boolean,
        ValueModel::Nil => Kind::Nil,
        ValueModel::Float(_) => Kind::Float,
        ValueModel::Integer(_) => Kind::Integer,
        ValueModel::String(_) => Kind::String,
        ValueModel::Array(_) => Kind::Array,
    }
}

/// `text` written `count` times in a row.
pub open spec fn repeated(text: Seq<char>, count: nat) -> Seq<char>
    decreases count,
{
    if count == 0 {
        Seq::empty()
    } else {
        repeated(text, (count - 1) as nat) + text
    }
}

/// The integer an arithmetic builtin makes of two integers.
pub open spec fn integer_result(operation: BuiltinOperation, a: int, b: int) -> int {
    match operation {
        BuiltinOperation::Add => a + b,
        BuiltinOperation::Minus => a - b,
        _ => a * b,
    }
}

/// A string repeated by an integer count, taken as a `usize` as the
/// builtin does: an empty string stays empty; `None` where the repetition's
/// bytes would exceed `isize::MAX`, the most a string can hold.
pub open spec fn repetition(text: Seq<char>, count: i64) -> Option<Result<ValueModel, Outcome>> {
    let times = count as usize;
    if text.len() == 0 {
        Some(Ok(ValueModel::String(Seq::empty())))
    } else if encode_utf8(text).len() * times <= isize::MAX {
        Some(Ok(ValueModel::String(repeated(text, times as nat))))
    } else {
        None
    }
}

/// Whether `pattern` occurs in `text` starting at byte `at`.
pub open spec fn occurs_at(text: Seq<u8>, pattern: Seq<u8>, at: int) -> bool {
    0 <= at && at + pattern.len() <= text.len() && text.subrange(at, at + pattern.len()) == pattern
}

/// The first byte at or after `from` where `pattern` occurs in `text`.
pub open spec fn first_occurrence(text: Seq<u8>, pattern: Seq<u8>, from: int) -> Option<int>
    decreases text.len() + 1 - from,
{
    if from < 0 || from + pattern.len() > text.len() {
        None
    } else if occurs_at(text, pattern, from) {
        Some(from)
    } else {
        first_occurrence(text, pattern, from + 1)
    }
}

/// `text` with its first occurrence of `pattern` taken out, compared byte by
/// byte; `text` itself where `pattern` does not occur.
pub open spec fn without_first(text: Seq<u8>, pattern: Seq<u8>) -> Seq<u8> {
    match first_occurrence(text, pattern, 0) {
        Some(at) => text.take(at) + text.skip(at + pattern.len()),
        None => text,
    }
}

/// One step of an arithmetic fold: the accumulated value and the next
/// argument give the new accumulated value or an error; `None` where an
/// integer step leaves the 64-bit range or a repetition does not fit.
pub open spec fn step(operation: BuiltinOperation, accumulated: ValueModel, next: ValueModel) -> Option<Result<ValueModel, Outcome>> {
    match (accumulated, next) {
        (ValueModel::Integer(a), ValueModel::Integer(b)) => {
            let result = integer_result(operation, a as int, b as int);
            if i64::MIN <= result <= i64::MAX {
                Some(Ok(ValueModel::Integer(result as i64)))
            } else {
                None
            }
        },
        (ValueModel::String(a), ValueModel::String(b)) => match operation {
            BuiltinOperation::Add => Some(Ok(ValueModel::String(a + b))),
            BuiltinOperation::Minus => Some(Ok(ValueModel::String(decode_utf8(without_first(encode_utf8(a), encode_utf8(b)))))),
            _ => Some(Err(Outcome::Mismatch(Kind::String, Kind::String))),
        },
        (ValueModel::String(a), ValueModel::Integer(b)) => if operation == BuiltinOperation::Multiply {
            repetition(a, b)
        } else {
            Some(Err(Outcome::Mismatch(Kind::String, Kind::Integer)))
        },
        _ => Some(Err(Outcome::Mismatch(model_kind(accumulated), model_kind(next)))),
    }
}

/// Folding the arguments after the first into it, from the left; the first
/// error stops.
pub open spec fn folded(operation: BuiltinOperation, accumulated: ValueModel, rest: Seq<ValueModel>) -> Option<Outcome>
    decreases rest.len(),
{
    if rest.len() == 0 {
        Some(Outcome::Value(accumulated))
    } else {
        match step(operation, accumulated, rest[0]) {
            None => None,
            Some(Ok(next)) => folded(operation, next, rest.drop_first()),
            Some(Err(error)) => Some(error),
        }
    }
}

/// The name an arithmetic builtin reports itself by.
pub open spec fn arithmetic_name(operation: BuiltinOperation) -> Seq<char> {
    match operation {
        BuiltinOperation::Add => "Addition"@,
        BuiltinOperation::Minus => "Minus"@,
        _ => "Multiply"@,
    }
}

/// `+`, `-` or `*` on arguments none of which is a float.
pub open spec fn arithmetic(operation: BuiltinOperation, arguments: Seq<ValueModel>) -> Option<Outcome> {
    if arguments.len() == 0 {
        Some(Outcome::Insufficient(arithmetic_name(operation)))
    } else if arguments.len() == 1 {
        match operation {
            BuiltinOperation::Add => match arguments[0] {
                ValueModel::Integer(_) => Some(Outcome::Value(arguments[0])),
                _ => Some(Outcome::InvalidUnary("Unary add only supports numeric types"@)),
            },
            BuiltinOperation::Minus => match arguments[0] {
                ValueModel::Integer(a) => if a == i64::MIN {
                    None
                } else {
                    Some(Outcome::Value(ValueModel::Integer((-a) as i64)))
                },
                _ => Some(Outcome::InvalidUnary("Unary minus only supports numeric types"@)),
            },
            _ => Some(Outcome::InvalidOperand("Multiplication is a binary operator"@)),
        }
    } else {
        folded(operation, arguments[0], arguments.drop_first())
    }
}

/// `encode_utf8` of a concatenation is the concatenation of the encodings.
pub proof fn lemma_encode_concat(a: Seq<char>, b: Seq<char>)
    ensures
        encode_utf8(a + b) == encode_utf8(a) + encode_utf8(b),
    decreases a.len(),
{
    if a.len() == 0 {
        assert(a + b =~= b);
        assert(encode_utf8(a) + encode_utf8(b) =~= encode_utf8(b));
    } else {
        lemma_encode_concat(a.drop_first(), b);
        assert((a + b).drop_first() =~= a.drop_first() + b);
        assert((a + b)[0] == a[0]);
        assert(encode_utf8(a + b) =~= encode_utf8(a) + encode_utf8(b));
    }
}

/// A search from `from` finds `pattern` where it stands, no earlier than `from`.
proof fn lemma_first_occurrence(text: Seq<u8>, pattern: Seq<u8>, from: int)
    ensures
        first_occurrence(text, pattern, from) matches Some(at) ==> occurs_at(text, pattern, at) && from <= at,
    decreases text.len() + 1 - from,
{
    if !(from < 0 || from + pattern.len() > text.len()) && !occurs_at(text, pattern, from) {
        lemma_first_occurrence(text, pattern, from + 1);
    }
}

/// In valid UTF-8 made of valid UTF-8 `p` followed by `c`, a character
/// starts right after `p`.
proof fn lemma_boundary_after(p: Seq<u8>, c: Seq<u8>)
    requires
        valid_utf8(p),
        valid_utf8(p + c),
    ensures
        is_char_boundary(p + c, p.len() as int),
    decreases p.len(),
{
    if p.len() > 0 {
        let q = pop_first_scalar(p);
        assert(pop_first_scalar(p + c) =~= q + c);
        lemma_boundary_after(q, c);
    }
}

/// Taking a valid UTF-8 pattern out of valid UTF-8 text where it occurs
/// leaves valid UTF-8.
proof fn lemma_removal_valid(text: Seq<u8>, pattern: Seq<u8>, at: int)
    requires
        valid_utf8(text),
        valid_utf8(pattern),
        occurs_at(text, pattern, at),
    ensures
        valid_utf8(text.take(at) + text.skip(at + pattern.len())),
{
    let end = at + pattern.len();
    if pattern.len() == 0 {
        assert(text.take(at) + text.skip(at) =~= text);
    } else {
        assert(text[at] == pattern[0]);
        is_char_boundary_iff_not_is_continuation_byte(pattern, 0);
        is_char_boundary_iff_not_is_continuation_byte(text, at);
        valid_utf8_split(text, at);
        let rest = text.subrange(at, text.len() as int);
        let c = text.subrange(end, text.len() as int);
        assert(rest =~= pattern + c);
        lemma_boundary_after(pattern, c);
        valid_utf8_split(pattern + c, pattern.len() as int);
        assert((pattern + c).subrange(pattern.len() as int, (pattern + c).len() as int) =~= c);
        assert(text.take(at) =~= text.subrange(0, at));
        assert(text.skip(end) =~= c);
        valid_utf8_concat(text.take(at), c);
    }
}

/// Appends the bytes of `text` from `from` up to `to`.
fn append_range(out: &mut Vec<u8>, text: &[u8], from: usize, to: usize)
    requires
        from <= to <= text@.len(),
    ensures
        final(out)@ == old(out)@ + text@.subrange(from as int, to as int),
{
    let mut k: usize = from;
    while k < to
        invariant
            from <= k <= to <= text@.len(),
            out@ == old(out)@ + text@.subrange(from as int, k as int),
        decreases to - k,
    {
        out.push(text[k]);
        k += 1;
        assert(out@ =~= old(out)@ + text@.subrange(from as int, k as int));
    }
}

/// Whether `pattern` stands in `text` at `at`.
fn occurs_at_exec(text: &[u8], pattern: &[u8], at: usize) -> (found: bool)
    requires
        at + pattern@.len() <= text@.len(),
    ensures
        found == occurs_at(text@, pattern@, at as int),
{
    let length = text.len();
    let mut k: usize = 0;
    while k < pattern.len()
        invariant
            k <= pattern@.len(),
            length == text@.len(),
            at + pattern@.len() <= text@.len(),
            forall|j: int| 0 <= j < k ==> text@[at + j] == pattern@[j],
        decreases pattern@.len() - k,
    {
        if text[at + k] != pattern[k] {
            assert(text@.subrange(at as int, at + pattern@.len())[k as int] != pattern@[k as int]);
            return false;
        }
        k += 1;
    }
    assert(text@.subrange(at as int, at + pattern@.len()) =~= pattern@);
    true
}

/// `text` with its first occurrence of `pattern` taken out, as
/// `str::replacen` with an empty replacement and a count of one does.
fn remove_first(text: &[u8], pattern: &[u8]) -> (result: Vec<u8>)
    ensures
        result@ == without_first(text@, pattern@),
{
    let mut result: Vec<u8> = Vec::new();
    let length = text.len();
    if pattern.len() <= length {
        let last = length - pattern.len();
        let mut at: usize = 0;
        loop
            invariant
                at <= last,
                length == text@.len(),
                last == text@.len() - pattern@.len(),
                result@.len() == 0,
                first_occurrence(text@, pattern@, 0) == first_occurrence(text@, pattern@, at as int),
            ensures
                result@.len() == 0,
                first_occurrence(text@, pattern@, 0) is None,
            decreases last - at,
        {
            if occurs_at_exec(text, pattern, at) {
                append_range(&mut result, text, 0, at);
                append_range(&mut result, text, at + pattern.len(), length);
                assert(result@ =~= text@.take(at as int) + text@.skip(at + pattern@.len()));
                return result;
            }
            if at == last {
                assert(first_occurrence(text@, pattern@, at + 1) is None);
                break;
            }
            at += 1;
        }
    }
    append_range(&mut result, text, 0, length);
    assert(result@ =~= text@);
    result
}

/// An integer or the bytes of a string, being folded.
enum Accumulator {
    Number(i64),
    Text(Vec<u8>),
}

spec fn accumulated(accumulator: Accumulator) -> ValueModel {
    match accumulator {
        Accumulator::Number(i) => ValueModel::Integer(i),
        Accumulator::Text(bytes) => ValueModel::String(decode_utf8(bytes@)),
    }
}

spec fn encoded(accumulator: Accumulator) -> bool {
    accumulator matches Accumulator::Text(bytes) ==> bytes@ == encode_utf8(decode_utf8(bytes@))
}

/// The kind of a value.
fn kind_of(value: &Value) -> (kind: Kind)
    ensures
        kind == model_kind(value_model(*value)),
{
    match value {
        Value::Boolean(_) => Kind::Boolean,
        Value::Nil => Kind::Nil,
        Value::Float(_) => Kind::Float,
        Value::Integer(_) => Kind::Integer,
        Value::String(_) => Kind::String,
        Value::Array(_) => Kind::Array,
    }
}

fn mismatch(a: Kind, b: Kind) -> (error: Error)
    ensures
        outcome(Err(error)) == Outcome::Mismatch(a, b),
{
    Error::TypeError(TypeError { kind: TypeErrorType::TypeMismatch(a, b) })
}

/// The bytes of `text` written `times` times in a row.
fn repeat_bytes(bytes: &Vec<u8>, times: usize, Ghost(text): Ghost<Seq<char>>) -> (result: Vec<u8>)
    requires
        bytes@ == encode_utf8(text),
    ensures
        result@ == encode_utf8(repeated(text, times as nat)),
{
    let mut result: Vec<u8> = Vec::new();
    let mut k: usize = 0;
    while k < times
        invariant
            k <= times,
            bytes@ == encode_utf8(text),
            result@ == encode_utf8(repeated(text, k as nat)),
        decreases times - k,
    {
        proof {
            lemma_encode_concat(repeated(text, k as nat), text);
        }
        append_bytes(&mut result, bytes.as_slice());
        k += 1;
    }
    result
}

fn step_exec(operation: BuiltinOperation, accumulator: Accumulator, next: &Value) -> (result: Option<Result<Accumulator, Error>>)
    requires
        encoded(accumulator),
    ensures
        match step(operation, accumulated(accumulator), value_model(*next)) {
            None => result is None,
            Some(Ok(model)) => result matches Some(Ok(after)) && accumulated(after) == model && encoded(after),
            Some(Err(error)) => result matches Some(Err(e)) && outcome(Err(e)) == error,
        },
{
    match accumulator {
        Accumulator::Number(a) => match next {
            Value::Integer(b) => {
                let result = match operation {
                    BuiltinOperation::Add => a.checked_add(*b),
                    BuiltinOperation::Minus => a.checked_sub(*b),
                    _ => a.checked_mul(*b),
                };
                match result {
                    Some(r) => Some(Ok(Accumulator::Number(r))),
                    None => None,
                }
            },
            _ => Some(Err(mismatch(Kind::Integer, kind_of(next)))),
        },
        Accumulator::Text(bytes) => {
            let ghost text = decode_utf8(bytes@);
            match next {
                Value::String(other) => match operation {
                    BuiltinOperation::Add => {
                        let mut joined = bytes;
                        append_bytes(&mut joined, other.as_str().as_bytes());
                        proof {
                            lemma_encode_concat(text, other@);
                            encode_utf8_decode_utf8(text + other@);
                        }
                        Some(Ok(Accumulator::Text(joined)))
                    },
                    BuiltinOperation::Minus => {
                        let remaining = remove_first(bytes.as_slice(), other.as_str().as_bytes());
                        proof {
                            let pattern = encode_utf8(other@);
                            encode_utf8_valid_utf8(text);
                            encode_utf8_valid_utf8(other@);
                            lemma_first_occurrence(bytes@, pattern, 0);
                            if let Some(at) = first_occurrence(bytes@, pattern, 0) {
                                lemma_removal_valid(bytes@, pattern, at);
                            }
                            decode_utf8_encode_utf8(remaining@);
                        }
                        Some(Ok(Accumulator::Text(remaining)))
                    },
                    _ => Some(Err(mismatch(Kind::String, Kind::String))),
                },
                Value::Integer(count) => if operation == BuiltinOperation::Multiply {
                    let times = *count as usize;
                    if bytes.len() == 0 {
                        proof {
                            assert(text.len() == 0) by {
                                encode_utf8_decode_utf8(text);
                                assert(bytes@ =~= Seq::<u8>::empty());
                            }
                            assert(encode_utf8(Seq::<char>::empty()) =~= Seq::<u8>::empty());
                            assert(decode_utf8(Seq::<u8>::empty()) =~= Seq::<char>::empty()) by {
                                encode_utf8_decode_utf8(Seq::<char>::empty());
                            }
                        }
                        Some(Ok(Accumulator::Text(Vec::new())))
                    } else {
                        match bytes.len().checked_mul(times) {
                            None => None,
                            Some(total) => if total > isize::MAX as usize {
                                None
                            } else {
                                let out = repeat_bytes(&bytes, times, Ghost(text));
                                proof {
                                    encode_utf8_decode_utf8(repeated(text, times as nat));
                                    if text.len() == 0 {
                                        assert(encode_utf8(text) =~= Seq::<u8>::empty());
                                    }
                                }
                                Some(Ok(Accumulator::Text(out)))
                            },
                        }
                    }
                } else {
                    Some(Err(mismatch(Kind::String, Kind::Integer)))
                },
                _ => Some(Err(mismatch(Kind::String, kind_of(next)))),
            }
        },
    }
}


/// The order of two integers: -1, 0 or 1.
pub open spec fn order(a: int, b: int) -> int {
    if a < b { -1 } else if a > b { 1 } else { 0 }
}

/// The lexicographic order of two byte strings, as Rust orders strings.
pub open spec fn byte_order(x: Seq<u8>, y: Seq<u8>) -> int
    decreases x.len(),
{
    if x.len() == 0 {
        if y.len() == 0 { 0 } else { -1 }
    } else if y.len() == 0 {
        1
    } else if x[0] != y[0] {
        order(x[0] as int, y[0] as int)
    } else {
        byte_order(x.drop_first(), y.drop_first())
    }
}

/// Whether an order satisfies a comparison builtin.
pub open spec fn holds(operation: BuiltinOperation, ordering: int) -> bool {
    match operation {
        BuiltinOperation::Equal => ordering == 0,
        BuiltinOperation::LowerThan => ordering < 0,
        BuiltinOperation::GreaterThan => ordering > 0,
        BuiltinOperation::LowerThanOrEqual => ordering <= 0,
        BuiltinOperation::GreaterThanOrEqual => ordering >= 0,
        _ => ordering != 0,
    }
}

/// The name a comparison builtin reports itself by.
pub open spec fn comparison_name(operation: BuiltinOperation) -> Seq<char> {
    match operation {
        BuiltinOperation::Equal => "=="@,
        BuiltinOperation::LowerThan => "<"@,
        BuiltinOperation::GreaterThan => ">"@,
        BuiltinOperation::LowerThanOrEqual => "<="@,
        BuiltinOperation::GreaterThanOrEqual => ">="@,
        _ => "!="@,
    }
}

/// The order of two neighbouring arguments: integers by value, strings by
/// their UTF-8 bytes, booleans (false before true) only for `==` and `!=`;
/// any other pair is a mismatch.
pub open spec fn pair_order(operation: BuiltinOperation, a: ValueModel, b: ValueModel) -> Result<int, Outcome> {
    match (a, b) {
        (ValueModel::Integer(x), ValueModel::Integer(y)) => Ok(order(x as int, y as int)),
        (ValueModel::String(x), ValueModel::String(y)) => Ok(byte_order(encode_utf8(x), encode_utf8(y))),
        (ValueModel::Boolean(x), ValueModel::Boolean(y)) => if operation == BuiltinOperation::Equal
            || operation == BuiltinOperation::NotEqual {
            Ok(order(if x { 1int } else { 0 }, if y { 1int } else { 0 }))
        } else {
            Err(Outcome::Mismatch(Kind::Boolean, Kind::Boolean))
        },
        _ => Err(Outcome::Mismatch(model_kind(a), model_kind(b))),
    }
}

/// Comparing each argument with the next, from the left: false at the first
/// pair that fails, an error at the first pair that cannot be compared.
pub open spec fn chained(operation: BuiltinOperation, arguments: Seq<ValueModel>) -> Outcome
    decreases arguments.len(),
{
    if arguments.len() < 2 {
        Outcome::Value(ValueModel::Boolean(true))
    } else {
        match pair_order(operation, arguments[0], arguments[1]) {
            Err(error) => error,
            Ok(ordering) => if holds(operation, ordering) {
                chained(operation, arguments.drop_first())
            } else {
                Outcome::Value(ValueModel::Boolean(false))
            },
        }
    }
}

/// A comparison builtin on arguments none of which is a float.
pub open spec fn comparison(operation: BuiltinOperation, arguments: Seq<ValueModel>) -> Outcome {
    if arguments.len() < 2 {
        Outcome::Insufficient(comparison_name(operation))
    } else {
        chained(operation, arguments)
    }
}

/// The name a casting builtin reports itself by.
pub open spec fn casting_name(operation: BuiltinOperation) -> Seq<char> {
    match operation {
        BuiltinOperation::ToString => "String"@,
        BuiltinOperation::ToInteger => "Integer"@,
        BuiltinOperation::ToFloat => "Float"@,
        _ => "Boolean"@,
    }
}

/// Whether a byte is an ASCII decimal digit.
pub open spec fn is_digit_byte(b: u8) -> bool {
    48 <= b <= 57
}

/// The number that a sequence of ASCII decimal digits denotes.
pub open spec fn digits_value(digits: Seq<u8>) -> int
    decreases digits.len(),
{
    if digits.len() == 0 {
        0
    } else {
        digits_value(digits.drop_last()) * 10 + (digits.last() - 48)
    }
}

/// The length of a leading `+` or `-`.
pub open spec fn sign_length(bytes: Seq<u8>) -> int {
    if bytes.len() > 0 && (bytes[0] == 45 || bytes[0] == 43) {
        1
    } else {
        0
    }
}

/// The integer that text reads as, as Rust reads an `i64` from its bytes:
/// an optional `+` or `-`, then one or more ASCII digits and nothing else,
/// denoting a number in the 64-bit range.
pub open spec fn parsed_integer(bytes: Seq<u8>) -> Option<i64> {
    let body = bytes.skip(sign_length(bytes));
    if body.len() == 0 || exists|i: int| 0 <= i < body.len() && !is_digit_byte(#[trigger] body[i]) {
        None
    } else {
        let value = if sign_length(bytes) == 1 && bytes[0] == 45 {
            -digits_value(body)
        } else {
            digits_value(body)
        };
        if i64::MIN <= value <= i64::MAX {
            Some(value as i64)
        } else {
            None
        }
    }
}

/// A casting builtin on an argument that is not a float; `None` where more
/// than one is given, for an array, and for text to read as a float.
pub open spec fn cast(operation: BuiltinOperation, arguments: Seq<ValueModel>) -> Option<Outcome> {
    if arguments.len() == 0 {
        Some(Outcome::Insufficient(casting_name(operation)))
    } else if arguments.len() > 1 {
        None
    } else {
        match operation {
            BuiltinOperation::ToString => match arguments[0] {
                ValueModel::String(_) => Some(Outcome::Value(arguments[0])),
                ValueModel::Nil => Some(Outcome::Value(ValueModel::String(Seq::empty()))),
                ValueModel::Integer(i) => Some(Outcome::Value(ValueModel::String(decimal(i as int)))),
                ValueModel::Boolean(b) => Some(Outcome::Value(ValueModel::String(if b { "true"@ } else { "false"@ }))),
                _ => None,
            },
            BuiltinOperation::ToInteger => match arguments[0] {
                ValueModel::Integer(_) => Some(Outcome::Value(arguments[0])),
                ValueModel::String(text) => match parsed_integer(encode_utf8(text)) {
                    Some(i) => Some(Outcome::Value(ValueModel::Integer(i))),
                    None => Some(Outcome::Unparsable(text, "Integer"@)),
                },
                ValueModel::Boolean(b) => Some(Outcome::Value(ValueModel::Integer(if b { 1 } else { 0 }))),
                ValueModel::Nil => Some(Outcome::Value(ValueModel::Integer(0))),
                _ => None,
            },
            BuiltinOperation::ToFloat => match arguments[0] {
                ValueModel::Boolean(_) => Some(Outcome::Unparsable("Boolean"@, "Float"@)),
                ValueModel::Nil => Some(Outcome::Unparsable("Nil"@, "Float"@)),
                _ => None,
            },
            _ => match arguments[0] {
                ValueModel::Integer(i) => Some(Outcome::Value(ValueModel::Boolean(i != 0))),
                ValueModel::Boolean(b) => Some(Outcome::Value(ValueModel::Boolean(b))),
                ValueModel::Nil => Some(Outcome::Value(ValueModel::Boolean(false))),
                ValueModel::String(_) => Some(Outcome::Value(ValueModel::Boolean(true))),
                _ => None,
            },
        }
    }
}

/// The character of a decimal digit.
pub open spec fn digit_char(d: int) -> char {
    if d == 0 { '0' } else if d == 1 { '1' } else if d == 2 { '2' } else if d == 3 { '3' } else if d == 4 { '4' }
    else if d == 5 { '5' } else if d == 6 { '6' } else if d == 7 { '7' } else if d == 8 { '8' } else { '9' }
}

/// The decimal digits of a natural number, most significant first.
pub open spec fn digits(n: nat) -> Seq<char>
    decreases n,
{
    if n < 10 {
        seq![digit_char(n as int)]
    } else {
        digits(n / 10).push(digit_char((n % 10) as int))
    }
}

/// An integer written in decimal, with a minus sign when negative, as Rust
/// writes it.
pub open spec fn decimal(i: int) -> Seq<char> {
    if i < 0 {
        seq!['-'] + digits((-i) as nat)
    } else {
        digits(i as nat)
    }
}

/// The byte of a decimal digit.
pub open spec fn digit_byte(d: int) -> u8 {
    (48 + d) as u8
}

/// The ASCII bytes of the decimal digits of a natural number.
pub open spec fn digit_bytes(n: nat) -> Seq<u8>
    decreases n,
{
    if n < 10 {
        seq![digit_byte(n as int)]
    } else {
        digit_bytes(n / 10).push(digit_byte((n % 10) as int))
    }
}

proof fn lemma_digit_char(d: int)
    requires
        0 <= d < 10,
    ensures
        digit_char(d) as u8 == digit_byte(d),
        '\0' <= digit_char(d) <= '\u{7f}',
{
}

/// The digits of a number are ASCII, byte for byte its digit bytes.
proof fn lemma_digits(n: nat)
    ensures
        digits(n).len() == digit_bytes(n).len(),
        is_ascii_chars(digits(n)),
        forall|i: int| 0 <= i < digits(n).len() ==> #[trigger] digits(n)[i] as u8 == digit_bytes(n)[i],
    decreases n,
{
    if n < 10 {
        lemma_digit_char(n as int);
    } else {
        lemma_digits(n / 10);
        lemma_digit_char((n % 10) as int);
        let d = digits(n);
        let b = digit_bytes(n);
        assert forall|i: int| 0 <= i < d.len() implies '\0' <= #[trigger] d[i] <= '\u{7f}' by {
            if i < d.len() - 1 {
                assert(d[i] == digits(n / 10)[i]);
            }
        }
        assert forall|i: int| 0 <= i < d.len() implies #[trigger] d[i] as u8 == b[i] by {
            if i < d.len() - 1 {
                assert(d[i] == digits(n / 10)[i]);
                assert(b[i] == digit_bytes(n / 10)[i]);
            }
        }
    }
}

/// ASCII characters encode to their own bytes and decode back.
proof fn lemma_ascii_round_trip(chars: Seq<char>, bytes: Seq<u8>)
    requires
        is_ascii_chars(chars),
        chars.len() == bytes.len(),
        forall|i: int| 0 <= i < chars.len() ==> #[trigger] chars[i] as u8 == bytes[i],
    ensures
        encode_utf8(chars) == bytes,
        vstd::utf8::valid_utf8(bytes),
        decode_utf8(bytes) == chars,
{
    is_ascii_chars_encode_utf8(chars);
    assert(encode_utf8(chars) =~= bytes);
    encode_utf8_valid_utf8(chars);
    encode_utf8_decode_utf8(chars);
}

/// Appends the decimal digits of `n` to `out`.
fn push_digits(n: u64, out: &mut Vec<u8>)
    ensures
        final(out)@ == old(out)@ + digit_bytes(n as nat),
    decreases n,
{
    if n < 10 {
        out.push(48 + n as u8);
        assert(final(out)@ =~= old(out)@ + digit_bytes(n as nat)) by {
            assert(digit_bytes(n as nat) == seq![digit_byte(n as int)]);
        }
    } else {
        push_digits(n / 10, out);
        out.push(48 + (n % 10) as u8);
        assert(out@ =~= old(out)@ + digit_bytes(n as nat));
    }
}

/// An integer written in decimal.
fn decimal_text(i: i64) -> (text: String)
    ensures
        text@ == decimal(i as int),
{
    let mut bytes: Vec<u8> = Vec::new();
    let magnitude: u64 = if i < 0 {
        bytes.push(45u8);
        (0i128 - i as i128) as u64
    } else {
        i as u64
    };
    let ghost sign = bytes@;
    push_digits(magnitude, &mut bytes);
    proof {
        lemma_digits(magnitude as nat);
        let d = digits(magnitude as nat);
        let chars = decimal(i as int);
        if i < 0 {
            assert(chars == seq!['-'] + d);
            assert(bytes@ =~= seq![45u8] + digit_bytes(magnitude as nat));
            assert forall|k: int| 0 <= k < chars.len() implies '\0' <= #[trigger] chars[k] <= '\u{7f}' by {
                if k > 0 {
                    assert(chars[k] == d[k - 1]);
                }
            }
            assert forall|k: int| 0 <= k < chars.len() implies #[trigger] chars[k] as u8 == bytes@[k] by {
                if k > 0 {
                    assert(chars[k] == d[k - 1]);
                    assert(d[k - 1] as u8 == digit_bytes(magnitude as nat)[k - 1]);
                }
            }
        } else {
            assert(bytes@ =~= digit_bytes(magnitude as nat));
        }
        lemma_ascii_round_trip(chars, bytes@);
    }
    text_of(bytes.as_slice())
}

/// What an arithmetic, comparison or casting builtin gives when no float
/// takes part: `None` where a float takes part, where the builtin does not
/// belong to these families, where an integer leaves the 64-bit range or a
/// repetition would not fit in memory, and where a cast panics (more than
/// one argument, an array).
pub open spec fn exact(operation: BuiltinOperation, arguments: Seq<ValueModel>) -> Option<Outcome> {
    if exists|i: int| 0 <= i < arguments.len() && (#[trigger] arguments[i]) is Float {
        None
    } else {
        match operation {
            BuiltinOperation::Add | BuiltinOperation::Minus | BuiltinOperation::Multiply => arithmetic(operation, arguments),
            BuiltinOperation::Equal | BuiltinOperation::LowerThan | BuiltinOperation::GreaterThan
            | BuiltinOperation::LowerThanOrEqual | BuiltinOperation::GreaterThanOrEqual
            | BuiltinOperation::NotEqual => Some(comparison(operation, arguments)),
            BuiltinOperation::ToString | BuiltinOperation::ToInteger | BuiltinOperation::ToFloat
            | BuiltinOperation::ToBoolean => cast(operation, arguments),
            _ => None,
        }
    }
}

fn insufficient(name: &str) -> (error: Error)
    ensures
        outcome(Err(error)) == Outcome::Insufficient(name@),
{
    Error::RuntimeError(RuntimeError { kind: RuntimeErrorType::InsufficientOperands(name.to_string()) })
}

fn arithmetic_exec(operation: BuiltinOperation, arguments: &Vec<Value>) -> (result: Option<Result<Value, Error>>)
    requires
        operation == BuiltinOperation::Add || operation == BuiltinOperation::Minus || operation == BuiltinOperation::Multiply,
    ensures
        match arithmetic(operation, arguments@.map_values(|v: Value| value_model(v))) {
            None => result is None,
            Some(o) => result matches Some(r) && outcome(r) == o,
        },
{
    let ghost models = arguments@.map_values(|v: Value| value_model(v));
    if arguments.len() == 0 {
        let name = match operation {
            BuiltinOperation::Add => "Addition",
            BuiltinOperation::Minus => "Minus",
            _ => "Multiply",
        };
        return Some(Err(insufficient(name)));
    }
    if arguments.len() == 1 {
        assert(models[0] == value_model(arguments@[0]));
        return match operation {
            BuiltinOperation::Add => match &arguments[0] {
                Value::Integer(a) => Some(Ok(Value::Integer(*a))),
                _ => Some(Err(Error::TypeError(TypeError {
                    kind: TypeErrorType::InvalidUnaryOperand("Unary add only supports numeric types".to_string()),
                }))),
            },
            BuiltinOperation::Minus => match &arguments[0] {
                Value::Integer(a) => if *a == i64::MIN {
                    None
                } else {
                    Some(Ok(Value::Integer(-*a)))
                },
                _ => Some(Err(Error::TypeError(TypeError {
                    kind: TypeErrorType::InvalidUnaryOperand("Unary minus only supports numeric types".to_string()),
                }))),
            },
            _ => Some(Err(Error::TypeError(TypeError {
                kind: TypeErrorType::InvalidOperand("Multiplication is a binary operator".to_string()),
            }))),
        };
    }
    assert(models[0] == value_model(arguments@[0]));
    assert(models[1] == value_model(arguments@[1]));
    assert(models.drop_first()[0] == models[1]);
    let mut accumulator = match &arguments[0] {
        Value::Integer(a) => Accumulator::Number(*a),
        Value::String(text) => {
            let mut bytes: Vec<u8> = Vec::new();
            append_bytes(&mut bytes, text.as_str().as_bytes());
            proof {
                assert(bytes@ =~= encode_utf8(text@));
                encode_utf8_decode_utf8(text@);
            }
            Accumulator::Text(bytes)
        },
        _ => {
            return Some(Err(mismatch(kind_of(&arguments[0]), kind_of(&arguments[1]))));
        },
    };
    let mut i: usize = 1;
    proof {
        assert(models.subrange(1, models.len() as int) =~= models.drop_first());
    }
    while i < arguments.len()
        invariant
            1 <= i <= arguments@.len(),
            models == arguments@.map_values(|v: Value| value_model(v)),
            encoded(accumulator),
            folded(operation, models[0], models.drop_first()) == folded(
                operation,
                accumulated(accumulator),
                models.subrange(i as int, models.len() as int),
            ),
        decreases arguments@.len() - i,
    {
        let ghost rest = models.subrange(i as int, models.len() as int);
        proof {
            assert(rest[0] == value_model(arguments@[i as int]));
            assert(rest.drop_first() =~= models.subrange(i + 1, models.len() as int));
        }
        match step_exec(operation, accumulator, &arguments[i]) {
            None => {
                return None;
            },
            Some(Err(error)) => {
                return Some(Err(error));
            },
            Some(Ok(next)) => {
                accumulator = next;
            },
        }
        i += 1;
    }
    proof {
        assert(models.subrange(i as int, models.len() as int).len() == 0);
    }
    match accumulator {
        Accumulator::Number(n) => Some(Ok(Value::Integer(n))),
        Accumulator::Text(bytes) => {
            proof {
                encode_utf8_valid_utf8(decode_utf8(bytes@));
            }
            Some(Ok(Value::String(text_of(bytes.as_slice()))))
        },
    }
}


/// The lexicographic order of two byte strings.
fn compare_bytes(x: &[u8], y: &[u8]) -> (ordering: i8)
    ensures
        ordering as int == byte_order(x@, y@),
{
    let mut k: usize = 0;
    proof {
        assert(x@.subrange(0, x@.len() as int) =~= x@);
        assert(y@.subrange(0, y@.len() as int) =~= y@);
    }
    while k < x.len() && k < y.len()
        invariant
            k <= x@.len(),
            k <= y@.len(),
            byte_order(x@, y@) == byte_order(x@.subrange(k as int, x@.len() as int), y@.subrange(k as int, y@.len() as int)),
        decreases x@.len() - k,
    {
        let ghost xs = x@.subrange(k as int, x@.len() as int);
        let ghost ys = y@.subrange(k as int, y@.len() as int);
        proof {
            assert(xs[0] == x@[k as int]);
            assert(ys[0] == y@[k as int]);
            assert(xs.drop_first() =~= x@.subrange(k + 1, x@.len() as int));
            assert(ys.drop_first() =~= y@.subrange(k + 1, y@.len() as int));
        }
        if x[k] < y[k] {
            return -1;
        }
        if x[k] > y[k] {
            return 1;
        }
        k += 1;
    }
    if k == x.len() {
        if k == y.len() { 0 } else { -1 }
    } else {
        1
    }
}

/// The order of two neighbouring arguments, or the error they give.
fn pair_order_exec(operation: BuiltinOperation, a: &Value, b: &Value) -> (result: Result<i8, Error>)
    ensures
        match pair_order(operation, value_model(*a), value_model(*b)) {
            Ok(ordering) => result matches Ok(o) && o as int == ordering,
            Err(error) => result matches Err(e) && outcome(Err(e)) == error,
        },
{
    match (a, b) {
        (Value::Integer(x), Value::Integer(y)) => Ok(if *x < *y { -1 } else if *x > *y { 1 } else { 0 }),
        (Value::String(x), Value::String(y)) => Ok(compare_bytes(x.as_str().as_bytes(), y.as_str().as_bytes())),
        (Value::Boolean(x), Value::Boolean(y)) => if operation == BuiltinOperation::Equal || operation
            == BuiltinOperation::NotEqual {
            let p: i8 = if *x { 1 } else { 0 };
            let q: i8 = if *y { 1 } else { 0 };
            Ok(if p < q { -1 } else if p > q { 1 } else { 0 })
        } else {
            Err(mismatch(Kind::Boolean, Kind::Boolean))
        },
        _ => Err(mismatch(kind_of(a), kind_of(b))),
    }
}

fn holds_exec(operation: BuiltinOperation, ordering: i8) -> (result: bool)
    ensures
        result == holds(operation, ordering as int),
{
    match operation {
        BuiltinOperation::Equal => ordering == 0,
        BuiltinOperation::LowerThan => ordering < 0,
        BuiltinOperation::GreaterThan => ordering > 0,
        BuiltinOperation::LowerThanOrEqual => ordering <= 0,
        BuiltinOperation::GreaterThanOrEqual => ordering >= 0,
        _ => ordering != 0,
    }
}

fn comparison_exec(operation: BuiltinOperation, arguments: &Vec<Value>) -> (result: Result<Value, Error>)
    ensures
        outcome(result) == comparison(operation, arguments@.map_values(|v: Value| value_model(v))),
{
    let ghost models = arguments@.map_values(|v: Value| value_model(v));
    if arguments.len() < 2 {
        let name = match operation {
            BuiltinOperation::Equal => "==",
            BuiltinOperation::LowerThan => "<",
            BuiltinOperation::GreaterThan => ">",
            BuiltinOperation::LowerThanOrEqual => "<=",
            BuiltinOperation::GreaterThanOrEqual => ">=",
            _ => "!=",
        };
        return Err(insufficient(name));
    }
    let mut i: usize = 0;
    proof {
        assert(models.subrange(0, models.len() as int) =~= models);
    }
    while i < arguments.len() - 1
        invariant
            i + 1 <= arguments@.len(),
            models == arguments@.map_values(|v: Value| value_model(v)),
            chained(operation, models) == chained(operation, models.subrange(i as int, models.len() as int)),
        decreases arguments@.len() - i,
    {
        let ghost rest = models.subrange(i as int, models.len() as int);
        proof {
            assert(rest[0] == value_model(arguments@[i as int]));
            assert(rest[1] == value_model(arguments@[i + 1]));
            assert(rest.drop_first() =~= models.subrange(i + 1, models.len() as int));
        }
        match pair_order_exec(operation, &arguments[i], &arguments[i + 1]) {
            Err(error) => {
                return Err(error);
            },
            Ok(ordering) => {
                if !holds_exec(operation, ordering) {
                    return Ok(Value::Boolean(false));
                }
            },
        }
        i += 1;
    }
    proof {
        assert(models.subrange(i as int, models.len() as int).len() < 2);
    }
    Ok(Value::Boolean(true))
}

/// A sequence of digits is worth at least any of its prefixes.
proof fn lemma_digits_grow(digits: Seq<u8>, k: int)
    requires
        0 <= k <= digits.len(),
        forall|i: int| 0 <= i < digits.len() ==> is_digit_byte(#[trigger] digits[i]),
    ensures
        digits_value(digits.take(k)) <= digits_value(digits),
        0 <= digits_value(digits.take(k)),
    decreases digits.len(),
{
    if k == digits.len() {
        assert(digits.take(k) =~= digits);
        if digits.len() > 0 {
            lemma_digits_grow(digits.drop_last(), k - 1);
            assert(digits.drop_last().take(k - 1) =~= digits.drop_last());
        }
    } else {
        lemma_digits_grow(digits.drop_last(), k);
        assert(digits.drop_last().take(k) =~= digits.take(k));
        lemma_digits_grow(digits.drop_last(), digits.len() - 1);
        assert(digits.drop_last().take(digits.len() - 1) =~= digits.drop_last());
    }
}

/// Reads an `i64` from text's bytes as Rust does.
fn parse_integer(bytes: &[u8]) -> (result: Option<i64>)
    ensures
        result == parsed_integer(bytes@),
{
    let n = bytes.len();
    let start: usize = if n > 0 && (bytes[0] == 45 || bytes[0] == 43) { 1 } else { 0 };
    let ghost body = bytes@.skip(start as int);
    if start == n {
        assert(body.len() == 0);
        return None;
    }
    let negative = start == 1 && bytes[0] == 45;
    let mut magnitude: u64 = 0;
    let mut k: usize = start;
    while k < n
        invariant
            start <= k <= n,
            n == bytes@.len(),
            start == sign_length(bytes@),
            body == bytes@.skip(start as int),
            forall|j: int| 0 <= j < k - start ==> is_digit_byte(#[trigger] body[j]),
            magnitude == digits_value(body.take(k - start)),
        decreases n - k,
    {
        let b = bytes[k];
        assert(b == body[k - start]);
        if b < 48 || b > 57 {
            assert(!is_digit_byte(body[k - start]));
            return None;
        }
        proof {
            assert(body.take(k + 1 - start).drop_last() =~= body.take(k - start));
        }
        let next = match magnitude.checked_mul(10) {
            Some(m) => m.checked_add((b - 48) as u64),
            None => None,
        };
        match next {
            Some(m) => {
                magnitude = m;
            },
            None => {
                proof {
                    if forall|i: int| 0 <= i < body.len() ==> is_digit_byte(#[trigger] body[i]) {
                        lemma_digits_grow(body, k + 1 - start);
                    }
                }
                return None;
            },
        }
        k += 1;
    }
    assert(body.take(n - start) =~= body);
    let value: i128 = if negative { 0 - magnitude as i128 } else { magnitude as i128 };
    if value < i64::MIN as i128 || value > i64::MAX as i128 {
        None
    } else {
        Some(value as i64)
    }
}

fn cast_exec(operation: BuiltinOperation, arguments: &Vec<Value>) -> (result: Option<Result<Value, Error>>)
    requires
        operation == BuiltinOperation::ToString || operation == BuiltinOperation::ToInteger
            || operation == BuiltinOperation::ToFloat || operation == BuiltinOperation::ToBoolean,
    ensures
        match cast(operation, arguments@.map_values(|v: Value| value_model(v))) {
            None => result is None,
            Some(o) => result matches Some(r) && outcome(r) == o,
        },
{
    let ghost models = arguments@.map_values(|v: Value| value_model(v));
    if arguments.len() == 0 {
        let name = match operation {
            BuiltinOperation::ToString => "String",
            BuiltinOperation::ToInteger => "Integer",
            BuiltinOperation::ToFloat => "Float",
            _ => "Boolean",
        };
        return Some(Err(insufficient(name)));
    }
    if arguments.len() > 1 {
        return None;
    }
    assert(models[0] == value_model(arguments@[0]));
    match operation {
        BuiltinOperation::ToString => match &arguments[0] {
            Value::String(text) => Some(Ok(Value::String(text.clone()))),
            Value::Nil => Some(Ok(Value::String(String::new()))),
            Value::Integer(i) => Some(Ok(Value::String(decimal_text(*i)))),
            Value::Boolean(b) => Some(Ok(Value::String(if *b { "true".to_string() } else { "false".to_string() }))),
            _ => None,
        },
        BuiltinOperation::ToInteger => match &arguments[0] {
            Value::Integer(i) => Some(Ok(Value::Integer(*i))),
            Value::String(text) => match parse_integer(text.as_str().as_bytes()) {
                Some(i) => Some(Ok(Value::Integer(i))),
                None => Some(Err(Error::RuntimeError(RuntimeError {
                    kind: RuntimeErrorType::ParseError(text.clone(), "Integer".to_string()),
                }))),
            },
            Value::Boolean(b) => Some(Ok(Value::Integer(if *b { 1 } else { 0 }))),
            Value::Nil => Some(Ok(Value::Integer(0))),
            _ => None,
        },
        BuiltinOperation::ToFloat => match &arguments[0] {
            Value::Boolean(_) => Some(Err(Error::RuntimeError(RuntimeError {
                kind: RuntimeErrorType::ParseError("Boolean".to_string(), "Float".to_string()),
            }))),
            Value::Nil => Some(Err(Error::RuntimeError(RuntimeError {
                kind: RuntimeErrorType::ParseError("Nil".to_string(), "Float".to_string()),
            }))),
            _ => None,
        },
        _ => match &arguments[0] {
            Value::Integer(i) => Some(Ok(Value::Boolean(*i != 0))),
            Value::Boolean(b) => Some(Ok(Value::Boolean(*b))),
            Value::Nil => Some(Ok(Value::Boolean(false))),
            Value::String(_) => Some(Ok(Value::Boolean(true))),
            _ => None,
        },
    }
}

/// Runs an arithmetic, comparison or casting builtin on arguments none of
/// which is a float, exactly as the builtin does; `None` where a float
/// takes part or in the cases `exact` leaves open, which the caller
/// computes itself.
pub fn compute_exact(operation: BuiltinOperation, arguments: &Vec<Value>) -> (result: Option<Result<Value, Error>>)
    ensures
        match exact(operation, arguments@.map_values(|v: Value| value_model(v))) {
            None => result is None,
            Some(o) => result matches Some(r) && outcome(r) == o,
        },
{
    let ghost models = arguments@.map_values(|v: Value| value_model(v));
    let mut i: usize = 0;
    while i < arguments.len()
        invariant
            i <= arguments@.len(),
            models == arguments@.map_values(|v: Value| value_model(v)),
            forall|k: int| 0 <= k < i ==> !(#[trigger] models[k] is Float),
        decreases arguments@.len() - i,
    {
        if let Value::Float(_) = &arguments[i] {
            assert(models[i as int] is Float);
            return None;
        }
        assert(models[i as int] == value_model(arguments@[i as int]));
        i += 1;
    }
    match operation {
        BuiltinOperation::Add | BuiltinOperation::Minus | BuiltinOperation::Multiply => arithmetic_exec(operation, arguments),
        BuiltinOperation::Equal | BuiltinOperation::LowerThan | BuiltinOperation::GreaterThan
        | BuiltinOperation::LowerThanOrEqual | BuiltinOperation::GreaterThanOrEqual
        | BuiltinOperation::NotEqual => Some(comparison_exec(operation, arguments)),
        BuiltinOperation::ToString | BuiltinOperation::ToInteger | BuiltinOperation::ToFloat
        | BuiltinOperation::ToBoolean => cast_exec(operation, arguments),
        _ => None,
    }
}

/// On two integers, the machine's `LESS_THAN` instruction leaves on the
/// stack the boolean that the `<` builtin gives for them.
pub proof fn law_less_than_agrees_with_builtin(machine: VirMac, frame: CallFrame, s: Seq<LightValue>, a: i64, b: i64)
    requires
        ({
            let code = machine.memory.functions@;
            let ip = frame.instruction_position as int;
            let sp = frame.stack_position as int;
            &&& ip + 4 <= code.len()
            &&& ip + 4 <= usize::MAX
            &&& code[ip] == Bytecode::LESS_THAN
            &&& operand(code, ip, 1, 2) == 2
            &&& code[ip + 3] == kind_code(Kind::Integer)
            &&& 2 <= sp <= s.len()
            &&& s[sp - 2] == LightValue::Integer(a)
            &&& s[sp - 1] == LightValue::Integer(b)
        }),
    ensures
        ({
            let sp = frame.stack_position as int;
            let (after, stack, request) = machine.step(frame, s);
            &&& request is None
            &&& after.stack_position == sp - 1
            &&& after.instruction_position == frame.instruction_position + 4
            &&& stack[sp - 2] == LightValue::Boolean(a < b)
            &&& exact(BuiltinOperation::LowerThan, seq![ValueModel::Integer(a), ValueModel::Integer(b)])
                == Some(Outcome::Value(ValueModel::Boolean(a < b)))
        }),
{
    let sp = frame.stack_position as int;
    let rest = s.subrange(sp - 1, sp);
    assert(rest.len() == 1 && rest[0] == s[sp - 1]);
    let arguments = seq![ValueModel::Integer(a), ValueModel::Integer(b)];
    assert(!(exists|i: int| 0 <= i < arguments.len() && (#[trigger] arguments[i]) is Float));
    assert(arguments.len() == 2 && arguments[0] == ValueModel::Integer(a) && arguments[1] == ValueModel::Integer(b));
    assert(arguments.drop_first() =~= seq![ValueModel::Integer(b)]);
    assert(pair_order(BuiltinOperation::LowerThan, arguments[0], arguments[1]) == Ok::<int, Outcome>(order(a as int, b as int)));
    assert(chained(BuiltinOperation::LowerThan, arguments.drop_first()) == Outcome::Value(ValueModel::Boolean(true)));
    assert(chained(BuiltinOperation::LowerThan, arguments) == Outcome::Value(ValueModel::Boolean(a < b)));
    assert(comparison(BuiltinOperation::LowerThan, arguments) == Outcome::Value(ValueModel::Boolean(a < b)));
}

/// On two integers each comparison builtin gives the boolean its symbol
/// names: `==` equality, `<` and `>` strict order, `<=` and `>=` order or
/// equality, `!=` difference.
pub proof fn law_integer_comparisons(a: i64, b: i64)
    ensures
        exact(BuiltinOperation::Equal, seq![ValueModel::Integer(a), ValueModel::Integer(b)])
            == Some(Outcome::Value(ValueModel::Boolean(a == b))),
        exact(BuiltinOperation::LowerThan, seq![ValueModel::Integer(a), ValueModel::Integer(b)])
            == Some(Outcome::Value(ValueModel::Boolean(a < b))),
        exact(BuiltinOperation::GreaterThan, seq![ValueModel::Integer(a), ValueModel::Integer(b)])
            == Some(Outcome::Value(ValueModel::Boolean(a > b))),
        exact(BuiltinOperation::LowerThanOrEqual, seq![ValueModel::Integer(a), ValueModel::Integer(b)])
            == Some(Outcome::Value(ValueModel::Boolean(a <= b))),
        exact(BuiltinOperation::GreaterThanOrEqual, seq![ValueModel::Integer(a), ValueModel::Integer(b)])
            == Some(Outcome::Value(ValueModel::Boolean(a >= b))),
        exact(BuiltinOperation::NotEqual, seq![ValueModel::Integer(a), ValueModel::Integer(b)])
            == Some(Outcome::Value(ValueModel::Boolean(a != b))),
{
    let arguments = seq![ValueModel::Integer(a), ValueModel::Integer(b)];
    assert(!(exists|i: int| 0 <= i < arguments.len() && (#[trigger] arguments[i]) is Float));
    assert(arguments.drop_first() =~= seq![ValueModel::Integer(b)]);
    assert forall|operation: BuiltinOperation|
        operation == BuiltinOperation::Equal || operation == BuiltinOperation::LowerThan
            || operation == BuiltinOperation::GreaterThan || operation == BuiltinOperation::LowerThanOrEqual
            || operation == BuiltinOperation::GreaterThanOrEqual || operation == BuiltinOperation::NotEqual
        implies #[trigger] chained(operation, arguments)
            == Outcome::Value(ValueModel::Boolean(holds(operation, order(a as int, b as int)))) by {
        assert(pair_order(operation, arguments[0], arguments[1]) == Ok::<int, Outcome>(order(a as int, b as int)));
        assert(chained(operation, arguments.drop_first()) == Outcome::Value(ValueModel::Boolean(true)));
    }
    assert(chained(BuiltinOperation::Equal, arguments) == Outcome::Value(ValueModel::Boolean(a == b)));
    assert(chained(BuiltinOperation::LowerThan, arguments) == Outcome::Value(ValueModel::Boolean(a < b)));
    assert(chained(BuiltinOperation::GreaterThan, arguments) == Outcome::Value(ValueModel::Boolean(a > b)));
    assert(chained(BuiltinOperation::LowerThanOrEqual, arguments) == Outcome::Value(ValueModel::Boolean(a <= b)));
    assert(chained(BuiltinOperation::GreaterThanOrEqual, arguments) == Outcome::Value(ValueModel::Boolean(a >= b)));
    assert(chained(BuiltinOperation::NotEqual, arguments) == Outcome::Value(ValueModel::Boolean(a != b)));
}

/// Two integers add, subtract and multiply to their sum, difference and
/// product, when it is an `i64`; two strings add to their concatenation; a
/// string minus a string it starts with is what follows that start; a
/// string minus one that does not occur in it is unchanged.
pub proof fn law_pair_arithmetic(a: i64, b: i64, x: Seq<char>, y: Seq<char>)
    ensures
        i64::MIN <= a + b <= i64::MAX ==> exact(BuiltinOperation::Add, seq![ValueModel::Integer(a), ValueModel::Integer(b)])
            == Some(Outcome::Value(ValueModel::Integer((a + b) as i64))),
        i64::MIN <= a - b <= i64::MAX ==> exact(BuiltinOperation::Minus, seq![ValueModel::Integer(a), ValueModel::Integer(b)])
            == Some(Outcome::Value(ValueModel::Integer((a - b) as i64))),
        i64::MIN <= a * b <= i64::MAX ==> exact(BuiltinOperation::Multiply, seq![ValueModel::Integer(a), ValueModel::Integer(b)])
            == Some(Outcome::Value(ValueModel::Integer((a * b) as i64))),
        exact(BuiltinOperation::Add, seq![ValueModel::String(x), ValueModel::String(y)])
            == Some(Outcome::Value(ValueModel::String(x + y))),
        exact(BuiltinOperation::Minus, seq![ValueModel::String(y + x), ValueModel::String(y)])
            == Some(Outcome::Value(ValueModel::String(x))),
        (forall|at: int| !occurs_at(encode_utf8(x), encode_utf8(y), at))
            ==> exact(BuiltinOperation::Minus, seq![ValueModel::String(x), ValueModel::String(y)])
                == Some(Outcome::Value(ValueModel::String(x))),
{
    let ints = seq![ValueModel::Integer(a), ValueModel::Integer(b)];
    assert(!(exists|i: int| 0 <= i < ints.len() && (#[trigger] ints[i]) is Float));
    assert(ints.drop_first() =~= seq![ValueModel::Integer(b)]);
    assert(ints.drop_first().drop_first().len() == 0);
    assert forall|operation: BuiltinOperation|
        (operation == BuiltinOperation::Add || operation == BuiltinOperation::Minus || operation == BuiltinOperation::Multiply)
            && i64::MIN <= integer_result(operation, a as int, b as int) <= i64::MAX
        implies #[trigger] folded(operation, ints[0], ints.drop_first())
            == Some(Outcome::Value(ValueModel::Integer(integer_result(operation, a as int, b as int) as i64))) by {
        let r = integer_result(operation, a as int, b as int) as i64;
        assert(step(operation, ints[0], ints.drop_first()[0]) == Some(Ok::<ValueModel, Outcome>(ValueModel::Integer(r))));
        assert(folded(operation, ValueModel::Integer(r), ints.drop_first().drop_first()) == Some(Outcome::Value(ValueModel::Integer(r))));
    }
    let texts = seq![ValueModel::String(x), ValueModel::String(y)];
    assert(!(exists|i: int| 0 <= i < texts.len() && (#[trigger] texts[i]) is Float));
    assert(texts.drop_first() =~= seq![ValueModel::String(y)]);
    assert(texts.drop_first().drop_first().len() == 0);
    assert(step(BuiltinOperation::Add, texts[0], texts.drop_first()[0]) == Some(Ok::<ValueModel, Outcome>(ValueModel::String(x + y))));
    assert(folded(BuiltinOperation::Add, ValueModel::String(x + y), texts.drop_first().drop_first())
        == Some(Outcome::Value(ValueModel::String(x + y))));
    let prefixed = seq![ValueModel::String(y + x), ValueModel::String(y)];
    assert(!(exists|i: int| 0 <= i < prefixed.len() && (#[trigger] prefixed[i]) is Float));
    assert(prefixed.drop_first() =~= seq![ValueModel::String(y)]);
    assert(prefixed.drop_first().drop_first().len() == 0);
    // The pattern stands at the very start, so it is the first occurrence.
    let whole = encode_utf8(y + x);
    let pattern = encode_utf8(y);
    lemma_encode_concat(y, x);
    assert(whole.subrange(0, pattern.len() as int) =~= pattern);
    assert(occurs_at(whole, pattern, 0));
    assert(first_occurrence(whole, pattern, 0) == Some(0int));
    assert(whole.take(0) + whole.skip(pattern.len() as int) =~= encode_utf8(x));
    encode_utf8_decode_utf8(x);
    assert(without_first(whole, pattern) == encode_utf8(x));
    assert(step(BuiltinOperation::Minus, prefixed[0], prefixed.drop_first()[0])
        == Some(Ok::<ValueModel, Outcome>(ValueModel::String(x))));
    assert(folded(BuiltinOperation::Minus, ValueModel::String(x), prefixed.drop_first().drop_first())
        == Some(Outcome::Value(ValueModel::String(x))));
    // Where the pattern never occurs, the text is unchanged.
    if forall|at: int| !occurs_at(encode_utf8(x), encode_utf8(y), at) {
        lemma_no_occurrence(encode_utf8(x), encode_utf8(y), 0);
        assert(step(BuiltinOperation::Minus, texts[0], texts.drop_first()[0])
            == Some(Ok::<ValueModel, Outcome>(ValueModel::String(x))));
        assert(folded(BuiltinOperation::Minus, ValueModel::String(x), texts.drop_first().drop_first())
            == Some(Outcome::Value(ValueModel::String(x))));
    }
}

/// Where `pattern` occurs nowhere, a search finds nothing.
proof fn lemma_no_occurrence(text: Seq<u8>, pattern: Seq<u8>, from: int)
    requires
        forall|at: int| !occurs_at(text, pattern, at),
    ensures
        first_occurrence(text, pattern, from) is None,
    decreases text.len() + 1 - from,
{
    if !(from < 0 || from + pattern.len() > text.len()) {
        assert(!occurs_at(text, pattern, from));
        lemma_no_occurrence(text, pattern, from + 1);
    }
}

/// Whether the UTF-8 bytes of `x` come before those of `y`, as Rust orders
/// strings: at the first byte where they differ the smaller byte comes
/// first, and a proper prefix comes before the longer string.
pub open spec fn bytes_before(x: Seq<u8>, y: Seq<u8>) -> bool {
    (x.len() < y.len() && y.take(x.len() as int) == x)
        || exists|k: int| 0 <= k < x.len() && k < y.len() && #[trigger] x.take(k) == y.take(k) && x[k] < y[k]
}

proof fn lemma_byte_order(x: Seq<u8>, y: Seq<u8>)
    ensures
        byte_order(x, y) == -byte_order(y, x),
        byte_order(x, y) == 0 <==> x == y,
        byte_order(x, y) < 0 <==> bytes_before(x, y),
    decreases x.len(),
{
    if x.len() == 0 || y.len() == 0 {
        if x.len() == 0 && y.len() > 0 {
            assert(y.take(0) =~= x);
        }
        if y.len() == 0 && x.len() > 0 {
            assert(x != y);
        }
        if x.len() == 0 && y.len() == 0 {
            assert(x =~= y);
        }
    } else if x[0] != y[0] {
        assert(x != y);
        if x[0] < y[0] {
            assert(x.take(0) =~= y.take(0));
        } else {
            if bytes_before(x, y) {
                if x.len() < y.len() && y.take(x.len() as int) == x {
                    assert(y.take(x.len() as int)[0] == y[0]);
                } else {
                    let k = choose|k: int| 0 <= k < x.len() && k < y.len() && x.take(k) == y.take(k) && x[k] < y[k];
                    if k > 0 {
                        assert(x.take(k)[0] == y.take(k)[0]);
                    }
                }
            }
        }
    } else {
        lemma_byte_order(x.drop_first(), y.drop_first());
        let x1 = x.drop_first();
        let y1 = y.drop_first();
        if x1 == y1 {
            assert(x =~= seq![x[0]] + x1);
            assert(y =~= seq![y[0]] + y1);
        }
        if x == y {
            assert(x1 =~= y1);
        }
        if bytes_before(x1, y1) {
            if x1.len() < y1.len() && y1.take(x1.len() as int) == x1 {
                assert(y.take(x.len() as int) =~= x) by {
                    assert forall|i: int| 0 <= i < x.len() implies #[trigger] y.take(x.len() as int)[i] == x[i] by {
                        if i > 0 {
                            assert(y1.take(x1.len() as int)[i - 1] == x1[i - 1]);
                        }
                    }
                }
            } else {
                let k = choose|k: int| 0 <= k < x1.len() && k < y1.len() && x1.take(k) == y1.take(k) && x1[k] < y1[k];
                assert(x.take(k + 1) =~= y.take(k + 1)) by {
                    assert forall|i: int| 0 <= i < k + 1 implies #[trigger] x.take(k + 1)[i] == y.take(k + 1)[i] by {
                        if i > 0 {
                            assert(x1.take(k)[i - 1] == y1.take(k)[i - 1]);
                        }
                    }
                }
                assert(x[k + 1] < y[k + 1]);
            }
        }
        if bytes_before(x, y) {
            if x.len() < y.len() && y.take(x.len() as int) == x {
                assert(y1.take(x1.len() as int) =~= x1) by {
                    assert forall|i: int| 0 <= i < x1.len() implies #[trigger] y1.take(x1.len() as int)[i] == x1[i] by {
                        assert(y.take(x.len() as int)[i + 1] == x[i + 1]);
                    }
                }
            } else {
                let k = choose|k: int| 0 <= k < x.len() && k < y.len() && x.take(k) == y.take(k) && x[k] < y[k];
                assert(k > 0);
                assert(x1.take(k - 1) =~= y1.take(k - 1)) by {
                    assert forall|i: int| 0 <= i < k - 1 implies #[trigger] x1.take(k - 1)[i] == y1.take(k - 1)[i] by {
                        assert(x.take(k)[i + 1] == y.take(k)[i + 1]);
                    }
                }
                assert(x1[k - 1] < y1[k - 1]);
            }
        }
    }
}

/// Strings compare by their UTF-8 bytes as Rust orders strings: `==` holds
/// of equal strings and only of them, `!=` of different ones, `<` when the
/// first comes before the second, and `>` on a pair exactly when `<` holds
/// on the pair reversed (likewise `<=` and `>=`).
pub proof fn law_string_comparisons(x: Seq<char>, y: Seq<char>)
    ensures
        exact(BuiltinOperation::Equal, seq![ValueModel::String(x), ValueModel::String(y)])
            == Some(Outcome::Value(ValueModel::Boolean(x == y))),
        exact(BuiltinOperation::NotEqual, seq![ValueModel::String(x), ValueModel::String(y)])
            == Some(Outcome::Value(ValueModel::Boolean(x != y))),
        exact(BuiltinOperation::LowerThan, seq![ValueModel::String(x), ValueModel::String(y)])
            == Some(Outcome::Value(ValueModel::Boolean(bytes_before(encode_utf8(x), encode_utf8(y))))),
        exact(BuiltinOperation::GreaterThan, seq![ValueModel::String(x), ValueModel::String(y)])
            == exact(BuiltinOperation::LowerThan, seq![ValueModel::String(y), ValueModel::String(x)]),
        exact(BuiltinOperation::LowerThanOrEqual, seq![ValueModel::String(x), ValueModel::String(y)])
            == Some(Outcome::Value(ValueModel::Boolean(x == y || bytes_before(encode_utf8(x), encode_utf8(y))))),
        exact(BuiltinOperation::GreaterThanOrEqual, seq![ValueModel::String(x), ValueModel::String(y)])
            == exact(BuiltinOperation::LowerThanOrEqual, seq![ValueModel::String(y), ValueModel::String(x)]),
{
    let ex = encode_utf8(x);
    let ey = encode_utf8(y);
    lemma_byte_order(ex, ey);
    lemma_byte_order(ey, ex);
    encode_utf8_decode_utf8(x);
    encode_utf8_decode_utf8(y);
    assert(ex == ey ==> x == y);
    let xy = seq![ValueModel::String(x), ValueModel::String(y)];
    let yx = seq![ValueModel::String(y), ValueModel::String(x)];
    assert(!(exists|i: int| 0 <= i < xy.len() && (#[trigger] xy[i]) is Float));
    assert(!(exists|i: int| 0 <= i < yx.len() && (#[trigger] yx[i]) is Float));
    assert(xy.drop_first() =~= seq![ValueModel::String(y)]);
    assert(yx.drop_first() =~= seq![ValueModel::String(x)]);
    assert forall|operation: BuiltinOperation|
        operation == BuiltinOperation::Equal || operation == BuiltinOperation::LowerThan
            || operation == BuiltinOperation::GreaterThan || operation == BuiltinOperation::LowerThanOrEqual
            || operation == BuiltinOperation::GreaterThanOrEqual || operation == BuiltinOperation::NotEqual
        implies #[trigger] chained(operation, xy)
            == Outcome::Value(ValueModel::Boolean(holds(operation, byte_order(ex, ey))))
            && chained(operation, yx) == Outcome::Value(ValueModel::Boolean(holds(operation, byte_order(ey, ex)))) by {
        assert(chained(operation, xy.drop_first()) == Outcome::Value(ValueModel::Boolean(true)));
        assert(chained(operation, yx.drop_first()) == Outcome::Value(ValueModel::Boolean(true)));
    }
    assert(chained(BuiltinOperation::Equal, xy) == Outcome::Value(ValueModel::Boolean(x == y)));
    assert(chained(BuiltinOperation::NotEqual, xy) == Outcome::Value(ValueModel::Boolean(x != y)));
    assert(chained(BuiltinOperation::LowerThan, xy) == Outcome::Value(ValueModel::Boolean(bytes_before(ex, ey))));
    assert(chained(BuiltinOperation::GreaterThan, xy) == chained(BuiltinOperation::LowerThan, yx));
    assert(chained(BuiltinOperation::LowerThanOrEqual, xy) == Outcome::Value(ValueModel::Boolean(x == y || bytes_before(ex, ey))));
    assert(chained(BuiltinOperation::GreaterThanOrEqual, xy) == chained(BuiltinOperation::LowerThanOrEqual, yx));
}

/// Booleans are told apart by `==` and `!=`, and cannot be ordered: `<`
/// on two booleans is a mismatch of two booleans.
pub proof fn law_boolean_comparisons(p: bool, q: bool)
    ensures
        exact(BuiltinOperation::Equal, seq![ValueModel::Boolean(p), ValueModel::Boolean(q)])
            == Some(Outcome::Value(ValueModel::Boolean(p == q))),
        exact(BuiltinOperation::NotEqual, seq![ValueModel::Boolean(p), ValueModel::Boolean(q)])
            == Some(Outcome::Value(ValueModel::Boolean(p != q))),
        exact(BuiltinOperation::LowerThan, seq![ValueModel::Boolean(p), ValueModel::Boolean(q)])
            == Some(Outcome::Mismatch(Kind::Boolean, Kind::Boolean)),
{
    let pq = seq![ValueModel::Boolean(p), ValueModel::Boolean(q)];
    assert(!(exists|i: int| 0 <= i < pq.len() && (#[trigger] pq[i]) is Float));
    assert(pq.drop_first() =~= seq![ValueModel::Boolean(q)]);
    assert(chained(BuiltinOperation::Equal, pq.drop_first()) == Outcome::Value(ValueModel::Boolean(true)));
    assert(chained(BuiltinOperation::NotEqual, pq.drop_first()) == Outcome::Value(ValueModel::Boolean(true)));
}

/// Casts between integers, booleans and nothing: an integer is true exactly
/// when it is not zero, `true` and `false` are the integers 1 and 0, nil is
/// 0, false and the empty string, and every string is true.
pub proof fn law_simple_casts(i: i64, p: bool, x: Seq<char>)
    ensures
        exact(BuiltinOperation::ToBoolean, seq![ValueModel::Integer(i)]) == Some(Outcome::Value(ValueModel::Boolean(i != 0))),
        exact(BuiltinOperation::ToBoolean, seq![ValueModel::String(x)]) == Some(Outcome::Value(ValueModel::Boolean(true))),
        exact(BuiltinOperation::ToBoolean, seq![ValueModel::Nil]) == Some(Outcome::Value(ValueModel::Boolean(false))),
        exact(BuiltinOperation::ToInteger, seq![ValueModel::Boolean(p)])
            == Some(Outcome::Value(ValueModel::Integer(if p { 1 } else { 0 }))),
        exact(BuiltinOperation::ToInteger, seq![ValueModel::Nil]) == Some(Outcome::Value(ValueModel::Integer(0))),
        exact(BuiltinOperation::ToString, seq![ValueModel::Nil]) == Some(Outcome::Value(ValueModel::String(Seq::empty()))),
        exact(BuiltinOperation::ToString, seq![ValueModel::String(x)]) == Some(Outcome::Value(ValueModel::String(x))),
{
    assert(!(exists|k: int| 0 <= k < 1 && (#[trigger] seq![ValueModel::Integer(i)][k]) is Float));
    assert(!(exists|k: int| 0 <= k < 1 && (#[trigger] seq![ValueModel::String(x)][k]) is Float));
    assert(!(exists|k: int| 0 <= k < 1 && (#[trigger] seq![ValueModel::Nil][k]) is Float));
    assert(!(exists|k: int| 0 <= k < 1 && (#[trigger] seq![ValueModel::Boolean(p)][k]) is Float));
}

/// The digit bytes of a number are digits and read back as the number.
proof fn lemma_digit_bytes_value(n: nat)
    ensures
        digit_bytes(n).len() > 0,
        forall|k: int| 0 <= k < digit_bytes(n).len() ==> is_digit_byte(#[trigger] digit_bytes(n)[k]),
        digits_value(digit_bytes(n)) == n,
    decreases n,
{
    if n < 10 {
        let b = digit_bytes(n);
        assert(b.drop_last().len() == 0);
        assert(digits_value(b.drop_last()) == 0);
        assert(b.last() == 48 + n);
        assert(digits_value(b) == digits_value(b.drop_last()) * 10 + (b.last() - 48));
    } else {
        lemma_digit_bytes_value(n / 10);
        let b = digit_bytes(n);
        assert(b.drop_last() =~= digit_bytes(n / 10));
        assert(b.last() == 48 + n % 10);
        assert((n / 10) * 10 + n % 10 == n);
        assert(digits_value(b) == digits_value(b.drop_last()) * 10 + (b.last() - 48));
        assert(digits_value(b.drop_last()) == n / 10);
        assert forall|k: int| 0 <= k < b.len() implies is_digit_byte(#[trigger] b[k]) by {
            if k < b.len() - 1 {
                assert(b[k] == digit_bytes(n / 10)[k]);
            }
        }
    }
}

/// The text an integer is written as reads back as that integer: `to_integer`
/// undoes `to_string` on every integer.
pub proof fn law_integer_text_round_trip(i: i64, text: Seq<char>)
    requires
        exact(BuiltinOperation::ToString, seq![ValueModel::Integer(i)]) == Some(Outcome::Value(ValueModel::String(text))),
    ensures
        exact(BuiltinOperation::ToInteger, seq![ValueModel::String(text)]) == Some(Outcome::Value(ValueModel::Integer(i))),
{
    assert(!(exists|k: int| 0 <= k < 1 && (#[trigger] seq![ValueModel::Integer(i)][k]) is Float));
    assert(!(exists|k: int| 0 <= k < 1 && (#[trigger] seq![ValueModel::String(text)][k]) is Float));
    assert(text == decimal(i as int));
    let n: nat = if i < 0 { (-i) as nat } else { i as nat };
    lemma_digits(n);
    lemma_digit_bytes_value(n);
    let d = digits(n);
    let body = digit_bytes(n);
    let bytes = if i < 0 { seq![45u8] + body } else { body };
    assert forall|k: int| 0 <= k < text.len() implies '\0' <= #[trigger] text[k] <= '\u{7f}' && text[k] as u8 == bytes[k] by {
        if i < 0 {
            if k > 0 {
                assert(text[k] == d[k - 1]);
                assert(bytes[k] == body[k - 1]);
            }
        }
    }
    lemma_ascii_round_trip(text, bytes);
    assert(encode_utf8(text) == bytes);
    assert(is_digit_byte(body[0]));
    if i < 0 {
        assert(sign_length(bytes) == 1);
        assert(bytes.skip(1) =~= body);
    } else {
        assert(sign_length(bytes) == 0);
        assert(bytes.skip(0) =~= body);
    }
    let rest = bytes.skip(sign_length(bytes));
    assert(rest == body);
    assert(!(exists|k: int| 0 <= k < rest.len() && !is_digit_byte(#[trigger] rest[k])));
    assert(digits_value(rest) == n);
    assert(parsed_integer(bytes) == Some(i));
    let arguments = seq![ValueModel::String(text)];
    assert(arguments[0] == ValueModel::String(text));
    assert(parsed_integer(encode_utf8(text)) == Some(i));
    assert(cast(BuiltinOperation::ToInteger, arguments) == Some(Outcome::Value(ValueModel::Integer(i))));
    assert(!(exists|k: int| 0 <= k < arguments.len() && (#[trigger] arguments[k]) is Float));
    assert(exact(BuiltinOperation::ToInteger, arguments) == cast(BuiltinOperation::ToInteger, arguments));
}

} // verus!
