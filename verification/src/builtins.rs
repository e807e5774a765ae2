use vstd::prelude::*;
use crate::value::Kind;

verus! {

/// The builtin operations of FlowScript.
#[derive(Debug, Clone, Copy, PartialEq, Eq, Structural)]
pub enum BuiltinOperation {
    Add,
    Minus,
    Multiply,
    Print,
    ToString,
    ToInteger,
    ToFloat,
    ToBoolean,
    Equal,
    LowerThan,
    GreaterThan,
    LowerThanOrEqual,
    GreaterThanOrEqual,
    NotEqual,
    Length,
    Push,
    Pop,
}

/// A builtin operation with the family it belongs to.
#[derive(Debug, Clone, Copy, PartialEq, Eq, Structural)]
pub enum BuiltinFunction {
    Math(BuiltinOperation),
    IO(BuiltinOperation),
    Casting(BuiltinOperation),
    Compare(BuiltinOperation),
    Collection(BuiltinOperation),
}

/// One accepted typing of a builtin: the argument kinds (for a builtin of
/// unbounded arity, the kind every argument must have), the result kind,
/// the fewest arguments it takes, and whether it takes more.
#[derive(Debug)]
pub struct Signature {
    pub arguments: Vec<Kind>,
    pub result: Kind,
    pub min_arity: u8,
    pub infinite_arity: bool,
}

/// A builtin: its name, what it does, whether it compiles to a dedicated
/// instruction, and its typings.
#[derive(Debug)]
pub struct Builtin {
    pub name: &'static str,
    pub function: BuiltinFunction,
    pub have_instruction: bool,
    pub types: Vec<Signature>,
}

/// The number of builtins.
pub const BUILTIN_COUNT: u16 = 17;

/// A signature as plain values: argument kinds, result, least arity, unbounded arity.
pub type SignatureModel = (Seq<Kind>, Kind, u8, bool);

/// The plain-value model of a signature.
pub open spec fn signature_model(signature: Signature) -> SignatureModel {
    (signature.arguments@, signature.result, signature.min_arity, signature.infinite_arity)
}

/// The plain-value models of a list of signatures.
pub open spec fn signature_models(signatures: Seq<Signature>) -> Seq<SignatureModel> {
    signatures.map_values(|signature: Signature| signature_model(signature))
}

/// One signature per argument kind, all with the same result and arity rules.
pub open spec fn uniform(kinds: Seq<Kind>, result: Kind, min_arity: u8, infinite_arity: bool) -> Seq<
    SignatureModel,
> {
    kinds.map_values(|kind: Kind| (seq![kind], result, min_arity, infinite_arity))
}

/// The operation of each builtin, by table position.
pub open spec fn builtin_function(index: int) -> BuiltinFunction {
    if index == 0 {
        BuiltinFunction::Math(BuiltinOperation::Add)
    } else if index == 1 {
        BuiltinFunction::Math(BuiltinOperation::Minus)
    } else if index == 2 {
        BuiltinFunction::Math(BuiltinOperation::Multiply)
    } else if index == 3 {
        BuiltinFunction::IO(BuiltinOperation::Print)
    } else if index == 4 {
        BuiltinFunction::Casting(BuiltinOperation::ToString)
    } else if index == 5 {
        BuiltinFunction::Casting(BuiltinOperation::ToInteger)
    } else if index == 6 {
        BuiltinFunction::Casting(BuiltinOperation::ToFloat)
    } else if index == 7 {
        BuiltinFunction::Casting(BuiltinOperation::ToBoolean)
    } else if index == 8 {
        BuiltinFunction::Compare(BuiltinOperation::Equal)
    } else if index == 9 {
        BuiltinFunction::Compare(BuiltinOperation::LowerThan)
    } else if index == 10 {
        BuiltinFunction::Compare(BuiltinOperation::GreaterThan)
    } else if index == 11 {
        BuiltinFunction::Compare(BuiltinOperation::LowerThanOrEqual)
    } else if index == 12 {
        BuiltinFunction::Compare(BuiltinOperation::GreaterThanOrEqual)
    } else if index == 13 {
        BuiltinFunction::Compare(BuiltinOperation::NotEqual)
    } else if index == 14 {
        BuiltinFunction::Collection(BuiltinOperation::Length)
    } else if index == 15 {
        BuiltinFunction::Collection(BuiltinOperation::Push)
    } else {
        BuiltinFunction::Collection(BuiltinOperation::Pop)
    }
}

/// Whether each builtin, by table position, compiles to a dedicated instruction:
/// the arithmetic and comparison builtins do.
pub open spec fn builtin_has_instruction(index: int) -> bool {
    index <= 2 || 8 <= index <= 13
}

/// The typings of each builtin, by table position.
pub open spec fn builtin_types(index: int) -> Seq<SignatureModel> {
    let numeric = seq![Kind::Integer, Kind::Float];
    if index == 0 {
        seq![
            (seq![Kind::Integer], Kind::Integer, 1u8, true),
            (seq![Kind::Float], Kind::Float, 1u8, true),
            (seq![Kind::String], Kind::String, 2u8, true),
        ]
    } else if index == 1 || index == 2 {
        seq![
            (seq![Kind::Integer], Kind::Integer, 1u8, true),
            (seq![Kind::Float], Kind::Float, 1u8, true),
        ]
    } else if index == 3 {
        uniform(
            seq![Kind::Integer, Kind::Float, Kind::String, Kind::Boolean, Kind::Nil, Kind::Array],
            Kind::Nil,
            0,
            true,
        )
    } else if index == 4 {
        uniform(
            seq![Kind::Integer, Kind::Float, Kind::String, Kind::Boolean, Kind::Nil],
            Kind::String,
            1,
            false,
        )
    } else if index == 5 {
        uniform(
            seq![Kind::Integer, Kind::Float, Kind::String, Kind::Boolean],
            Kind::Integer,
            1,
            false,
        )
    } else if index == 6 {
        uniform(
            seq![Kind::Integer, Kind::Float, Kind::String, Kind::Boolean],
            Kind::Float,
            1,
            false,
        )
    } else if index == 7 {
        uniform(
            seq![Kind::Integer, Kind::Float, Kind::String, Kind::Boolean, Kind::Nil],
            Kind::Boolean,
            1,
            false,
        )
    } else if index == 8 || index == 13 {
        uniform(
            seq![Kind::Integer, Kind::Float, Kind::String, Kind::Boolean],
            Kind::Boolean,
            2,
            true,
        )
    } else if 9 <= index <= 12 {
        uniform(seq![Kind::Integer, Kind::Float, Kind::String], Kind::Boolean, 2, true)
    } else if index == 14 {
        seq![(seq![Kind::String], Kind::Integer, 1u8, false)]
    } else if index == 15 {
        seq![Kind::Integer, Kind::Float, Kind::String, Kind::Boolean, Kind::Nil, Kind::Array].map_values(
            |kind: Kind| (seq![kind, Kind::Array], Kind::Array, 2u8, false),
        )
    } else {
        seq![(seq![Kind::Array], Kind::Array, 1u8, false)]
    }
}

/// The name of each builtin, by table position.
pub open spec fn builtin_name(index: int) -> Seq<char> {
    builtin_names()[index]
}

/// The names of the builtins, in table order.
pub open spec fn builtin_names() -> Seq<Seq<char>> {
    seq![
        "+"@,
        "-"@,
        "*"@,
        "print"@,
        "to_string"@,
        "to_integer"@,
        "to_float"@,
        "to_boolean"@,
        "=="@,
        "<"@,
        ">"@,
        "<="@,
        ">="@,
        "!="@,
        "length"@,
        "push"@,
        "pop"@,
    ]
}

fn signature(arguments: Vec<Kind>, result: Kind, min_arity: u8, infinite_arity: bool) -> (s: Signature)
    ensures
        signature_model(s) == (arguments@, result, min_arity, infinite_arity),
{
    Signature { arguments, result, min_arity, infinite_arity }
}

fn one(kind: Kind) -> (kinds: Vec<Kind>)
    ensures
        kinds@ == seq![kind],
{
    let mut kinds = Vec::new();
    kinds.push(kind);
    kinds
}

/// One signature per argument kind, all with the same result and arity rules.
fn uniform_signatures(kinds: Vec<Kind>, result: Kind, min_arity: u8, infinite_arity: bool) -> (signatures: Vec<Signature>)
    ensures
        signature_models(signatures@) == uniform(kinds@, result, min_arity, infinite_arity),
{
    let mut signatures: Vec<Signature> = Vec::new();
    let mut i: usize = 0;
    while i < kinds.len()
        invariant
            i <= kinds@.len(),
            signature_models(signatures@) == uniform(kinds@.take(i as int), result, min_arity, infinite_arity),
        decreases kinds@.len() - i,
    {
        let ghost before = signatures@;
        let next = signature(one(kinds[i]), result, min_arity, infinite_arity);
        signatures.push(next);
        assert(signatures@ == before.push(next));
        assert(kinds@.take(i + 1) =~= kinds@.take(i as int).push(kinds@[i as int]));
        assert(signature_models(signatures@) =~= signature_models(before).push(signature_model(next)));
        i += 1;
        assert(signature_models(signatures@) =~= uniform(kinds@.take(i as int), result, min_arity, infinite_arity));
    }
    assert(kinds@.take(kinds@.len() as int) =~= kinds@);
    signatures
}

fn kinds_of(a: Kind, b: Kind, c: Kind, d: Kind, e: Kind, f: Kind, count: usize) -> (kinds: Vec<Kind>)
    requires
        1 <= count <= 6,
    ensures
        kinds@ == seq![a, b, c, d, e, f].take(count as int),
{
    let mut kinds = Vec::new();
    kinds.push(a);
    if count > 1 { kinds.push(b); }
    if count > 2 { kinds.push(c); }
    if count > 3 { kinds.push(d); }
    if count > 4 { kinds.push(e); }
    if count > 5 { kinds.push(f); }
    assert(kinds@ =~= seq![a, b, c, d, e, f].take(count as int));
    kinds
}

/// The typings of builtin `index`.
pub fn get_types(index: u16) -> (types: Vec<Signature>)
    requires
        index < BUILTIN_COUNT,
    ensures
        signature_models(types@) == builtin_types(index as int),
{
    let i = Kind::Integer;
    let f = Kind::Float;
    let s = Kind::String;
    let b = Kind::Boolean;
    let n = Kind::Nil;
    let a = Kind::Array;
    if index == 0 {
        let mut types = Vec::new();
        types.push(signature(one(i), i, 1, true));
        types.push(signature(one(f), f, 1, true));
        types.push(signature(one(s), s, 2, true));
        assert(signature_models(types@) =~= builtin_types(0));
        types
    } else if index == 1 || index == 2 {
        let mut types = Vec::new();
        types.push(signature(one(i), i, 1, true));
        types.push(signature(one(f), f, 1, true));
        assert(signature_models(types@) =~= builtin_types(index as int));
        types
    } else if index == 3 {
        let types = uniform_signatures(kinds_of(i, f, s, b, n, a, 6), n, 0, true);
        assert(seq![i, f, s, b, n, a].take(6) =~= seq![i, f, s, b, n, a]);
        types
    } else if index == 4 || index == 7 {
        let result = if index == 4 { s } else { b };
        let types = uniform_signatures(kinds_of(i, f, s, b, n, a, 5), result, 1, false);
        assert(seq![i, f, s, b, n, a].take(5) =~= seq![i, f, s, b, n]);
        types
    } else if index == 5 || index == 6 {
        let result = if index == 5 { i } else { f };
        let types = uniform_signatures(kinds_of(i, f, s, b, n, a, 4), result, 1, false);
        assert(seq![i, f, s, b, n, a].take(4) =~= seq![i, f, s, b]);
        types
    } else if index == 8 || index == 13 {
        let types = uniform_signatures(kinds_of(i, f, s, b, n, a, 4), b, 2, true);
        assert(seq![i, f, s, b, n, a].take(4) =~= seq![i, f, s, b]);
        types
    } else if index <= 12 {
        let types = uniform_signatures(kinds_of(i, f, s, b, n, a, 3), b, 2, true);
        assert(seq![i, f, s, b, n, a].take(3) =~= seq![i, f, s]);
        types
    } else if index == 14 {
        let mut types = Vec::new();
        types.push(signature(one(s), i, 1, false));
        assert(signature_models(types@) =~= builtin_types(14));
        types
    } else if index == 15 {
        let kinds = kinds_of(i, f, s, b, n, a, 6);
        let mut types: Vec<Signature> = Vec::new();
        let mut k: usize = 0;
        let ghost all = seq![i, f, s, b, n, a];
        assert(all.take(6) =~= all);
        while k < kinds.len()
            invariant
                k <= kinds@.len(),
                kinds@ == all,
                a == Kind::Array,
                signature_models(types@) == all.take(k as int).map_values(
                    |kind: Kind| (seq![kind, Kind::Array], Kind::Array, 2u8, false),
                ),
            decreases kinds@.len() - k,
        {
            let kind = kinds[k];
            assert(kind == all[k as int]);
            let mut arguments = one(kind);
            assert(arguments@ == seq![kind]);
            arguments.push(a);
            assert(arguments@ =~= seq![kind, Kind::Array]);
            let ghost before = types@;
            let next = signature(arguments, a, 2, false);
            types.push(next);
            assert(types@ == before.push(next));
            assert(all.take(k + 1) =~= all.take(k as int).push(all[k as int]));
            assert(signature_models(types@) =~= signature_models(before).push(signature_model(next)));
            k += 1;
            assert(signature_models(types@) =~= all.take(k as int).map_values(
                |kind: Kind| (seq![kind, Kind::Array], Kind::Array, 2u8, false),
            ));
        }
        types
    } else {
        let mut types = Vec::new();
        types.push(signature(one(a), a, 1, false));
        assert(signature_models(types@) =~= builtin_types(16));
        types
    }
}

/// The name of builtin `index`.
pub fn get_builtin_name(index: u16) -> (name: &'static str)
    requires
        index < BUILTIN_COUNT,
    ensures
        name@ == builtin_name(index as int),
{
    if index == 0 { "+" }
    else if index == 1 { "-" }
    else if index == 2 { "*" }
    else if index == 3 { "print" }
    else if index == 4 { "to_string" }
    else if index == 5 { "to_integer" }
    else if index == 6 { "to_float" }
    else if index == 7 { "to_boolean" }
    else if index == 8 { "==" }
    else if index == 9 { "<" }
    else if index == 10 { ">" }
    else if index == 11 { "<=" }
    else if index == 12 { ">=" }
    else if index == 13 { "!=" }
    else if index == 14 { "length" }
    else if index == 15 { "push" }
    else { "pop" }
}

/// Builtin `index` of the table.
pub fn get_builtin(index: u16) -> (builtin: Builtin)
    requires
        index < BUILTIN_COUNT,
    ensures
        builtin.name@ == builtin_name(index as int),
        builtin.function == builtin_function(index as int),
        builtin.have_instruction == builtin_has_instruction(index as int),
        signature_models(builtin.types@) == builtin_types(index as int),
{
    let function = if index == 0 {
        BuiltinFunction::Math(BuiltinOperation::Add)
    } else if index == 1 {
        BuiltinFunction::Math(BuiltinOperation::Minus)
    } else if index == 2 {
        BuiltinFunction::Math(BuiltinOperation::Multiply)
    } else if index == 3 {
        BuiltinFunction::IO(BuiltinOperation::Print)
    } else if index == 4 {
        BuiltinFunction::Casting(BuiltinOperation::ToString)
    } else if index == 5 {
        BuiltinFunction::Casting(BuiltinOperation::ToInteger)
    } else if index == 6 {
        BuiltinFunction::Casting(BuiltinOperation::ToFloat)
    } else if index == 7 {
        BuiltinFunction::Casting(BuiltinOperation::ToBoolean)
    } else if index == 8 {
        BuiltinFunction::Compare(BuiltinOperation::Equal)
    } else if index == 9 {
        BuiltinFunction::Compare(BuiltinOperation::LowerThan)
    } else if index == 10 {
        BuiltinFunction::Compare(BuiltinOperation::GreaterThan)
    } else if index == 11 {
        BuiltinFunction::Compare(BuiltinOperation::LowerThanOrEqual)
    } else if index == 12 {
        BuiltinFunction::Compare(BuiltinOperation::GreaterThanOrEqual)
    } else if index == 13 {
        BuiltinFunction::Compare(BuiltinOperation::NotEqual)
    } else if index == 14 {
        BuiltinFunction::Collection(BuiltinOperation::Length)
    } else if index == 15 {
        BuiltinFunction::Collection(BuiltinOperation::Push)
    } else {
        BuiltinFunction::Collection(BuiltinOperation::Pop)
    };
    Builtin {
        name: get_builtin_name(index),
        function,
        have_instruction: index <= 2 || (8 <= index && index <= 13),
        types: get_types(index),
    }
}

/// The name a builtin operation is called by in scripts.
pub open spec fn operation_symbol(operation: BuiltinOperation) -> Seq<char> {
    match operation {
        BuiltinOperation::Add => "+"@,
        BuiltinOperation::Minus => "-"@,
        BuiltinOperation::Multiply => "*"@,
        BuiltinOperation::Print => "print"@,
        BuiltinOperation::ToString => "to_string"@,
        BuiltinOperation::ToInteger => "to_integer"@,
        BuiltinOperation::ToFloat => "to_float"@,
        BuiltinOperation::ToBoolean => "to_boolean"@,
        BuiltinOperation::Equal => "=="@,
        BuiltinOperation::LowerThan => "<"@,
        BuiltinOperation::GreaterThan => ">"@,
        BuiltinOperation::LowerThanOrEqual => "<="@,
        BuiltinOperation::GreaterThanOrEqual => ">="@,
        BuiltinOperation::NotEqual => "!="@,
        BuiltinOperation::Length => "length"@,
        BuiltinOperation::Push => "push"@,
        BuiltinOperation::Pop => "pop"@,
    }
}

/// The operation inside a builtin, whatever its family.
pub open spec fn operation_of(function: BuiltinFunction) -> BuiltinOperation {
    match function {
        BuiltinFunction::Math(op) | BuiltinFunction::IO(op) | BuiltinFunction::Casting(op)
        | BuiltinFunction::Compare(op) | BuiltinFunction::Collection(op) => op,
    }
}

/// Every builtin of the table is named after the operation it runs, sits in
/// the family of that operation (arithmetic, printing, casts, comparisons,
/// collections), and has an instruction of its own exactly when it is
/// arithmetic or a comparison.
pub proof fn law_builtin_table_agrees(index: int)
    requires
        0 <= index < BUILTIN_COUNT,
    ensures
        builtin_name(index) == operation_symbol(operation_of(builtin_function(index))),
        builtin_has_instruction(index) <==> (builtin_function(index) is Math || builtin_function(index) is Compare),
        builtin_function(index) is Math <==> (operation_of(builtin_function(index)) == BuiltinOperation::Add
            || operation_of(builtin_function(index)) == BuiltinOperation::Minus
            || operation_of(builtin_function(index)) == BuiltinOperation::Multiply),
        builtin_function(index) is Compare <==> (operation_of(builtin_function(index)) == BuiltinOperation::Equal
            || operation_of(builtin_function(index)) == BuiltinOperation::LowerThan
            || operation_of(builtin_function(index)) == BuiltinOperation::GreaterThan
            || operation_of(builtin_function(index)) == BuiltinOperation::LowerThanOrEqual
            || operation_of(builtin_function(index)) == BuiltinOperation::GreaterThanOrEqual
            || operation_of(builtin_function(index)) == BuiltinOperation::NotEqual),
        builtin_function(index) is Casting <==> (operation_of(builtin_function(index)) == BuiltinOperation::ToString
            || operation_of(builtin_function(index)) == BuiltinOperation::ToInteger
            || operation_of(builtin_function(index)) == BuiltinOperation::ToFloat
            || operation_of(builtin_function(index)) == BuiltinOperation::ToBoolean),
        builtin_function(index) is IO <==> operation_of(builtin_function(index)) == BuiltinOperation::Print,
{
}

/// Every typing of a builtin gives the kind its operation makes: a
/// comparison a boolean, a cast the kind it casts to, printing nil, an
/// arithmetic builtin the kind of its arguments, and `length` an integer.
pub proof fn law_builtin_results_follow_operations(index: int, k: int)
    requires
        0 <= index < BUILTIN_COUNT,
        0 <= k < builtin_types(index).len(),
    ensures
        ({
            let signature = builtin_types(index)[k];
            let operation = operation_of(builtin_function(index));
            &&& builtin_function(index) is Compare ==> signature.1 == Kind::Boolean
            &&& operation == BuiltinOperation::ToString ==> signature.1 == Kind::String
            &&& operation == BuiltinOperation::ToInteger ==> signature.1 == Kind::Integer
            &&& operation == BuiltinOperation::ToFloat ==> signature.1 == Kind::Float
            &&& operation == BuiltinOperation::ToBoolean ==> signature.1 == Kind::Boolean
            &&& operation == BuiltinOperation::Print ==> signature.1 == Kind::Nil
            &&& builtin_function(index) is Math ==> signature.0.len() == 1 && signature.1 == signature.0[0]
            &&& operation == BuiltinOperation::Length ==> signature.1 == Kind::Integer
        }),
{
}

} // verus!
