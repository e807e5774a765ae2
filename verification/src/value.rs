use vstd::prelude::*;

verus! {

/// The static kind of a FlowScript value.
#[derive(Debug, Clone, Copy, PartialEq, Eq, Structural)]
pub enum Kind {
    Boolean,
    Float,
    Integer,
    String,
    Array,
    Nil,
    Undefined,
}

/// The name a kind is written with, in type annotations and when shown.
pub open spec fn kind_display(kind: Kind) -> Seq<char> {
    match kind {
        Kind::Boolean => "boolean"@,
        Kind::Float => "float"@,
        Kind::Integer => "integer"@,
        Kind::String => "string"@,
        Kind::Array => "array"@,
        Kind::Nil => "nil"@,
        Kind::Undefined => "undefined"@,
    }
}

/// Byte tag of `Kind::Boolean` in bytecode and heap encodings.
pub const KIND_BOOLEAN: u8 = 0;
/// Byte tag of `Kind::Float`.
pub const KIND_FLOAT: u8 = 1;
/// Byte tag of `Kind::Integer`.
pub const KIND_INTEGER: u8 = 2;
/// Byte tag of `Kind::String`.
pub const KIND_STRING: u8 = 3;
/// Byte tag of `Kind::Array`.
pub const KIND_ARRAY: u8 = 4;
/// Byte tag of `Kind::Nil`.
pub const KIND_NIL: u8 = 5;
/// Byte tag of `Kind::Undefined`.
pub const KIND_UNDEFINED: u8 = 6;

/// The byte tag of each kind: its position in the declaration of `Kind`.
pub open spec fn kind_code(kind: Kind) -> u8 {
    match kind {
        Kind::Boolean => 0,
        Kind::Float => 1,
        Kind::Integer => 2,
        Kind::String => 3,
        Kind::Array => 4,
        Kind::Nil => 5,
        Kind::Undefined => 6,
    }
}

impl Kind {
    /// The byte tag of this kind.
    pub fn code(self) -> (code: u8)
        ensures
            code == kind_code(self),
    {
        match self {
            Kind::Boolean => KIND_BOOLEAN,
            Kind::Float => KIND_FLOAT,
            Kind::Integer => KIND_INTEGER,
            Kind::String => KIND_STRING,
            Kind::Array => KIND_ARRAY,
            Kind::Nil => KIND_NIL,
            Kind::Undefined => KIND_UNDEFINED,
        }
    }
}

/// Decodes the kind tag carried by an arithmetic or comparison instruction.
/// Only the tags of boolean, float, integer, string and array are accepted.
pub fn get_kind(kind: u8) -> (result: Kind)
    requires
        kind <= KIND_ARRAY,
    ensures
        kind_code(result) == kind,
{
    if kind == KIND_BOOLEAN {
        Kind::Boolean
    } else if kind == KIND_FLOAT {
        Kind::Float
    } else if kind == KIND_INTEGER {
        Kind::Integer
    } else if kind == KIND_STRING {
        Kind::String
    } else {
        Kind::Array
    }
}

/// Tags decode back to the kind that produced them.
pub proof fn lemma_kind_code_injective(a: Kind, b: Kind)
    ensures
        kind_code(a) == kind_code(b) <==> a == b,
{
}

/// A value as it lives on the virtual machine's stack.
/// A float is held by its IEEE-754 bit pattern; strings and arrays are
/// held by their position in the constant space or on the heap.
#[derive(Debug, Clone, Copy, PartialEq, Eq, Structural)]
pub enum LightValue {
    Boolean(bool),
    Nil,
    Float(u64),
    Integer(i64),
    StringPointer(u32),
    StringHeapPointer(u32),
    ArrayPointer(u32),
}

/// Encoded size of a boolean element in a heap array: tag and one byte.
pub const BOOLEAN_SIZE: usize = 2;
/// Encoded size of nil in a heap array: the tag alone.
pub const NIL_SIZE: usize = 1;
/// Encoded size of a float in a heap array: tag and eight bytes.
pub const FLOAT_SIZE: usize = 9;
/// Encoded size of an integer in a heap array: tag and eight bytes.
pub const INTEGER_SIZE: usize = 9;

/// The kind of a light value whose kind is known without the heap.
pub open spec fn light_value_kind(value: LightValue) -> Kind {
    match value {
        LightValue::Boolean(_) => Kind::Boolean,
        LightValue::Integer(_) => Kind::Integer,
        LightValue::Float(_) => Kind::Float,
        LightValue::Nil => Kind::Nil,
        LightValue::StringPointer(_) | LightValue::StringHeapPointer(_) => Kind::String,
        LightValue::ArrayPointer(_) => Kind::Array,
    }
}

impl LightValue {
    /// The kind of a boolean, integer or float light value.
    pub fn get_kind(&self) -> (kind: Kind)
        requires
            self is Boolean || self is Integer || self is Float,
        ensures
            kind == light_value_kind(*self),
    {
        match self {
            LightValue::Boolean(_) => Kind::Boolean,
            LightValue::Integer(_) => Kind::Integer,
            _ => Kind::Float,
        }
    }
}

/// A fully materialised FlowScript value, as builtins see it.
/// A float is held by its IEEE-754 bit pattern.
#[derive(Debug)]
pub enum Value {
    Boolean(bool),
    Nil,
    Float(u64),
    Integer(i64),
    String(String),
    Array(Vec<Value>),
}

/// The kind of a value.
pub open spec fn value_kind(value: Value) -> Kind {
    match value {
        Value::Boolean(_) => Kind::Boolean,
        Value::Nil => Kind::Nil,
        Value::Float(_) => Kind::Float,
        Value::Integer(_) => Kind::Integer,
        Value::String(_) => Kind::String,
        Value::Array(_) => Kind::Array,
    }
}

impl Value {
    /// The kind of a boolean, float, integer or string value.
    pub fn get_kind(&self) -> (kind: Kind)
        requires
            !(self is Nil || self is Array),
        ensures
            kind == value_kind(*self),
    {
        match self {
            Value::Boolean(_) => Kind::Boolean,
            Value::Float(_) => Kind::Float,
            Value::Integer(_) => Kind::Integer,
            _ => Kind::String,
        }
    }

}

/// A literal that does not fit on the stack and lives in the constant space.
#[derive(Debug)]
pub enum HeavyValue {
    String(String),
}

} // verus!
