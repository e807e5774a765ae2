use vstd::prelude::*;
use crate::builtins::{builtin_function, builtin_has_instruction, BuiltinFunction, BuiltinOperation, builtin_types, get_builtin, get_types, signature_model, signature_models, Signature, SignatureModel, BUILTIN_COUNT};
use crate::constants_pool::heavy_text;
use crate::error_handler::{error_model, error_models, lemma_prefix_append, lemma_prefix_push, lemma_prefix_refl, lemma_prefix_trans, Error, ErrorHandler, ErrorModel, TypeError, TypeErrorType};
use crate::node::{ConditionBranch, ResolvedNode, TypedAST, TypedNode, AST};
use crate::symbol_table::{find_overload, FunctionModel, RelativeReference, SymbolTable};
use crate::value::{light_value_kind, HeavyValue, Kind, LightValue};

verus! {

/// The error for a call with `given` arguments where `expected` were needed.
pub open spec fn arity_error(given: int, expected: int) -> Error {
    Error::TypeError(TypeError { kind: TypeErrorType::ArityMismatch(given as usize, expected as usize) })
}

/// The error for an argument of kind `given` where `expected` was needed.
pub open spec fn kind_error(expected: Kind, given: Kind) -> Error {
    Error::TypeError(TypeError { kind: TypeErrorType::TypeMismatch(expected, given) })
}

/// The errors of the first `n` arguments against the required kinds, in
/// order: one for each argument whose kind differs.
pub open spec fn kind_errors(kinds: Seq<Kind>, required: Seq<Kind>, n: int) -> Seq<Error>
    decreases n,
{
    if n <= 0 {
        Seq::empty()
    } else {
        let before = kind_errors(kinds, required, n - 1);
        if kinds[n - 1] != required[n - 1] {
            before.push(kind_error(required[n - 1], kinds[n - 1]))
        } else {
            before
        }
    }
}

/// What a signature finds wrong with arguments of these kinds. A signature
/// of unbounded arity needs at least its least arity, every argument of its
/// first kind; another needs exactly its arity and its kinds in order.
pub open spec fn signature_errors(kinds: Seq<Kind>, signature: SignatureModel) -> Seq<Error> {
    let (arguments, _, min_arity, infinite_arity) = signature;
    if infinite_arity {
        if kinds.len() < min_arity {
            seq![arity_error(kinds.len() as int, min_arity as int)]
        } else {
            kind_errors(kinds, Seq::new(kinds.len(), |i: int| arguments[0]), kinds.len() as int)
        }
    } else if kinds.len() != min_arity {
        seq![arity_error(kinds.len() as int, min_arity as int)]
    } else {
        kind_errors(kinds, arguments, if kinds.len() <= arguments.len() { kinds.len() as int } else { arguments.len() as int })
    }
}

/// Going through the signatures in order: the result of the first that
/// finds nothing wrong, or else the fewest errors found, the later
/// signature winning a tie, with that count.
pub open spec fn selection(kinds: Seq<Kind>, signatures: Seq<SignatureModel>) -> (Option<Kind>, int, Seq<Error>)
    decreases signatures.len(),
{
    if signatures.len() == 0 {
        (None, i32::MAX as int, Seq::empty())
    } else {
        let (found, count, errors) = selection(kinds, signatures.drop_last());
        if found is Some {
            (found, count, errors)
        } else {
            let mine = signature_errors(kinds, signatures.last());
            if mine.len() == 0 {
                (Some(signatures.last().1), count, errors)
            } else if mine.len() <= count {
                (None, mine.len() as int, mine)
            } else {
                (None, count, errors)
            }
        }
    }
}

/// Unbounded-arity signatures name at least one kind.
pub open spec fn signatures_usable(signatures: Seq<SignatureModel>) -> bool {
    forall|i: int| 0 <= i < signatures.len() ==> (#[trigger] signatures[i]).3 ==> signatures[i].0.len() > 0
}

proof fn lemma_kind_errors_step(kinds: Seq<Kind>, required: Seq<Kind>, n: int)
    requires
        0 <= n,
    ensures
        kind_errors(kinds, required, n + 1) == if kinds[n] != required[n] {
            kind_errors(kinds, required, n).push(kind_error(required[n], kinds[n]))
        } else {
            kind_errors(kinds, required, n)
        },
        kind_errors(kinds, required, n).len() <= n,
    decreases n,
{
    if n > 0 {
        lemma_kind_errors_step(kinds, required, n - 1);
    }
}

/// The errors one signature finds with arguments of these kinds.
fn signature_errors_of(arguments_kind: &Vec<Kind>, signature: &Signature) -> (errors: Vec<Error>)
    requires
        signature.infinite_arity ==> signature.arguments@.len() > 0,
        arguments_kind@.len() < i32::MAX,
    ensures
        errors@ == signature_errors(arguments_kind@, signature_model(*signature)),
{
    let mut errors: Vec<Error> = Vec::new();
    let n = arguments_kind.len();
    if signature.infinite_arity {
        if n < signature.min_arity as usize {
            errors.push(Error::TypeError(TypeError { kind: TypeErrorType::ArityMismatch(n, signature.min_arity as usize) }));
            assert(errors@ =~= signature_errors(arguments_kind@, signature_model(*signature)));
        } else {
            let required = signature.arguments[0];
            let ghost all = Seq::new(arguments_kind@.len(), |i: int| signature.arguments@[0]);
            let mut i: usize = 0;
            while i < n
                invariant
                    i <= n,
                    n == arguments_kind@.len(),
                    required == signature.arguments@[0],
                    all == Seq::new(arguments_kind@.len(), |i: int| signature.arguments@[0]),
                    errors@ == kind_errors(arguments_kind@, all, i as int),
                decreases n - i,
            {
                proof {
                    lemma_kind_errors_step(arguments_kind@, all, i as int);
                }
                if arguments_kind[i] != required {
                    errors.push(Error::TypeError(TypeError { kind: TypeErrorType::TypeMismatch(required, arguments_kind[i]) }));
                }
                i += 1;
            }
        }
    } else if n != signature.min_arity as usize {
        errors.push(Error::TypeError(TypeError { kind: TypeErrorType::ArityMismatch(n, signature.min_arity as usize) }));
        assert(errors@ =~= signature_errors(arguments_kind@, signature_model(*signature)));
    } else {
        let bound = if n <= signature.arguments.len() { n } else { signature.arguments.len() };
        let mut i: usize = 0;
        while i < bound
            invariant
                i <= bound,
                bound <= n,
                bound <= signature.arguments@.len(),
                n == arguments_kind@.len(),
                errors@ == kind_errors(arguments_kind@, signature.arguments@, i as int),
            decreases bound - i,
        {
            proof {
                lemma_kind_errors_step(arguments_kind@, signature.arguments@, i as int);
            }
            if arguments_kind[i] != signature.arguments[i] {
                errors.push(Error::TypeError(TypeError { kind: TypeErrorType::TypeMismatch(signature.arguments[i], arguments_kind[i]) }));
            }
            i += 1;
        }
    }
    errors
}

/// The result kind of the first signature that accepts arguments of these
/// kinds; when none does, the errors of the signature that found fewest,
/// the later one winning a tie.
pub fn select_signature(arguments_kind: &Vec<Kind>, types: &Vec<Signature>) -> (result: Result<Kind, Vec<Error>>)
    requires
        signatures_usable(signature_models(types@)),
        arguments_kind@.len() < i32::MAX,
    ensures
        match selection(arguments_kind@, signature_models(types@)).0 {
            Some(kind) => result == Ok::<Kind, Vec<Error>>(kind),
            None => result matches Err(errors) && errors@ == selection(arguments_kind@, signature_models(types@)).2,
        },
{
    let ghost models = signature_models(types@);
    let mut mismatch_count: i32 = i32::MAX;
    let mut errors: Vec<Error> = Vec::new();
    let mut j: usize = 0;
    assert(models.take(0) =~= Seq::<SignatureModel>::empty());
    while j < types.len()
        invariant
            j <= types@.len(),
            models == signature_models(types@),
            signatures_usable(models),
            arguments_kind@.len() < i32::MAX,
            selection(arguments_kind@, models.take(j as int)).0 is None,
            mismatch_count as int == selection(arguments_kind@, models.take(j as int)).1,
            errors@ == selection(arguments_kind@, models.take(j as int)).2,
        decreases types@.len() - j,
    {
        let signature = &types[j];
        proof {
            assert(models[j as int] == signature_model(*signature));
            assert(models.take(j + 1).drop_last() =~= models.take(j as int));
            assert(models.take(j + 1).last() == models[j as int]);
        }
        let mine = signature_errors_of(arguments_kind, signature);
        proof {
            let (args, _, min, inf) = models[j as int];
            if !inf || arguments_kind@.len() < min {
                lemma_kind_errors_step(arguments_kind@, args, 0);
            }
            assert(mine@.len() <= arguments_kind@.len() + 1) by {
                lemma_kind_errors_len(arguments_kind@, args, arguments_kind@.len() as int);
                lemma_kind_errors_len(arguments_kind@, Seq::new(arguments_kind@.len(), |i: int| args[0]), arguments_kind@.len() as int);
                if args.len() < arguments_kind@.len() {
                    lemma_kind_errors_len(arguments_kind@, args, args.len() as int);
                }
            }
        }
        if mine.len() == 0 {
            proof {
                lemma_selection_settled(arguments_kind@, models, j + 1);
            }
            return Ok(signature.result);
        }
        if mine.len() as i32 <= mismatch_count {
            mismatch_count = mine.len() as i32;
            errors = mine;
        }
        j += 1;
    }
    assert(models.take(j as int) =~= models);
    Err(errors)
}

proof fn lemma_selection_settled(kinds: Seq<Kind>, signatures: Seq<SignatureModel>, j: int)
    requires
        0 <= j <= signatures.len(),
        selection(kinds, signatures.take(j)).0 is Some,
    ensures
        selection(kinds, signatures).0 == selection(kinds, signatures.take(j)).0,
    decreases signatures.len() - j,
{
    if j < signatures.len() {
        assert(signatures.drop_last().take(j) =~= signatures.take(j));
        lemma_selection_settled(kinds, signatures.drop_last(), j);
    } else {
        assert(signatures.take(j) =~= signatures);
    }
}

proof fn lemma_kind_errors_len(kinds: Seq<Kind>, required: Seq<Kind>, n: int)
    ensures
        kind_errors(kinds, required, n).len() <= if n < 0 { 0 } else { n },
    decreases n,
{
    if n > 0 {
        lemma_kind_errors_len(kinds, required, n - 1);
    }
}

/// A typed node with text as characters and lists as sequences. The
/// operators are numbered: add, minus, multiply, equal, less than, greater
/// than, less than or equal, greater than or equal, not equal.
pub enum TypedModel {
    Literal(LightValue),
    HeavyLiteral(Seq<char>),
    BuiltinCall(u16, Seq<TypedModel>, Kind),
    Call(u32, Seq<TypedModel>, Kind),
    Pipeline(Seq<TypedModel>),
    RelativeReference(u16, u16, Kind),
    StationCapture(u16, Kind),
    Variable(u16, Kind),
    Assignment(u16, Kind),
    DefineFunction(u32, Seq<TypedModel>, u16, u8, u8),
    Condition(Seq<(Seq<TypedModel>, Seq<TypedModel>)>, Seq<TypedModel>),
    Return(Box<TypedModel>),
    Array(Seq<TypedModel>),
    Operator(u8, Seq<TypedModel>, Kind, Kind),
}

/// The model of a typed node.
pub open spec fn typed_model(node: TypedNode) -> TypedModel
    decreases node, 0nat,
{
    match node {
        TypedNode::Literal(value) => TypedModel::Literal(value),
        TypedNode::HeavyLiteral(value) => TypedModel::HeavyLiteral(heavy_text(value)),
        TypedNode::BuiltinCall { index, arguments, result } => TypedModel::BuiltinCall(index, typed_models(arguments@), result),
        TypedNode::Call { function_index, arguments, result } => TypedModel::Call(function_index, typed_models(arguments@), result),
        TypedNode::Pipeline(stations) => TypedModel::Pipeline(typed_models(stations@)),
        TypedNode::RelativeReference(x, y, kind) => TypedModel::RelativeReference(x, y, kind),
        TypedNode::StationCapture(index, kind) => TypedModel::StationCapture(index, kind),
        TypedNode::Variable(index, kind) => TypedModel::Variable(index, kind),
        TypedNode::Assignment(index, kind) => TypedModel::Assignment(index, kind),
        TypedNode::DefineFunction { function_index, body } => TypedModel::DefineFunction(
            function_index, typed_models(body.nodes@), body.variables_count, body.arity, body.max_relative_reference),
        TypedNode::Condition { branches, final_branch } => TypedModel::Condition(branch_models(branches@), typed_models(final_branch@)),
        TypedNode::Return(value) => TypedModel::Return(Box::new(typed_model(*value))),
        TypedNode::Array(elements) => TypedModel::Array(typed_models(elements@)),
        TypedNode::Add(arguments, kind, result) => TypedModel::Operator(0, typed_models(arguments@), kind, result),
        TypedNode::Minus(arguments, kind, result) => TypedModel::Operator(1, typed_models(arguments@), kind, result),
        TypedNode::Multiply(arguments, kind, result) => TypedModel::Operator(2, typed_models(arguments@), kind, result),
        TypedNode::Equal(arguments, kind, result) => TypedModel::Operator(3, typed_models(arguments@), kind, result),
        TypedNode::LessThan(arguments, kind, result) => TypedModel::Operator(4, typed_models(arguments@), kind, result),
        TypedNode::GreaterThan(arguments, kind, result) => TypedModel::Operator(5, typed_models(arguments@), kind, result),
        TypedNode::LessThanOrEqual(arguments, kind, result) => TypedModel::Operator(6, typed_models(arguments@), kind, result),
        TypedNode::GreaterThanOrEqual(arguments, kind, result) => TypedModel::Operator(7, typed_models(arguments@), kind, result),
        TypedNode::NotEqual(arguments, kind, result) => TypedModel::Operator(8, typed_models(arguments@), kind, result),
    }
}

/// The models of consecutive typed nodes.
pub open spec fn typed_models(nodes: Seq<TypedNode>) -> Seq<TypedModel>
    decreases nodes, 0nat,
{
    if nodes.len() == 0 {
        Seq::empty()
    } else {
        typed_models(nodes.drop_last()).push(typed_model(nodes.last()))
    }
}

/// The models of typed condition branches.
pub open spec fn branch_models(branches: Seq<ConditionBranch<TypedNode>>) -> Seq<(Seq<TypedModel>, Seq<TypedModel>)>
    decreases branches, 0nat,
{
    if branches.len() == 0 {
        Seq::empty()
    } else {
        branch_models(branches.drop_last()).push((typed_models(branches.last().condition@), typed_models(branches.last().body@)))
    }
}

/// What checking reads and changes: the kind of every variable, the errors
/// reported so far, and the captures of the current pipeline.
pub struct CheckState {
    pub variables: Seq<Kind>,
    pub errors: Seq<ErrorModel>,
    pub pipeline: Seq<RelativeReference>,
}

/// The outcome of checking: stuck where the checker has no answer (a kind it
/// cannot tell, a station with nothing before it, a variable out of range),
/// or a result with the state after it.
pub enum Checked<T> {
    Stuck,
    Done(Result<T, Seq<ErrorModel>>, CheckState),
}

/// The kind of a typed node's value, where the checker can tell it.
pub open spec fn kind_of(node: TypedModel) -> Option<Kind> {
    match node {
        TypedModel::Literal(value) => if value is Boolean || value is Integer || value is Float {
            Some(light_value_kind(value))
        } else {
            None
        },
        TypedModel::HeavyLiteral(_) => Some(Kind::String),
        TypedModel::Variable(_, kind) => Some(kind),
        TypedModel::Assignment(_, kind) => Some(kind),
        TypedModel::BuiltinCall(_, _, result) => Some(result),
        TypedModel::Call(_, _, result) => Some(result),
        TypedModel::RelativeReference(_, _, kind) => Some(kind),
        TypedModel::Operator(_, _, _, result) => Some(result),
        TypedModel::Array(_) => Some(Kind::Array),
        _ => None,
    }
}

/// The kinds of typed nodes, where the checker can tell each.
pub open spec fn kinds_of(nodes: Seq<TypedModel>) -> Option<Seq<Kind>>
    decreases nodes.len(),
{
    if nodes.len() == 0 {
        Some(Seq::empty())
    } else {
        match (kinds_of(nodes.drop_last()), kind_of(nodes.last())) {
            (Some(kinds), Some(kind)) => Some(kinds.push(kind)),
            _ => None,
        }
    }
}

/// The operator a builtin with its own instruction becomes.
pub open spec fn operator_number(index: u16) -> u8 {
    if index == 0 { 0 }
    else if index == 1 { 1 }
    else if index == 2 { 2 }
    else if index == 8 { 3 }
    else if index == 9 { 4 }
    else if index == 10 { 5 }
    else if index == 11 { 6 }
    else if index == 12 { 7 }
    else { 8 }
}

/// A checked builtin call: an operator when the builtin has its own
/// instruction and its first argument is not a string or an array.
pub open spec fn rewritten(index: u16, arguments: Seq<TypedModel>, result: Kind) -> Option<TypedModel> {
    if arguments.len() == 0 {
        None
    } else {
        match kind_of(arguments[0]) {
            None => None,
            Some(kind) => if !builtin_has_instruction(index as int) || kind == Kind::String || kind == Kind::Array {
                Some(TypedModel::BuiltinCall(index, arguments, result))
            } else {
                Some(TypedModel::Operator(operator_number(index), arguments, kind, result))
            },
        }
    }
}

/// The checker's view of the previous station.
pub open spec fn last_of(stations: Seq<TypedModel>) -> Option<TypedModel> {
    if stations.len() == 0 { None } else { Some(stations.last()) }
}

/// The state with variable `index` set to `kind`.
pub open spec fn set_variable(state: CheckState, index: int, kind: Kind) -> CheckState {
    CheckState { variables: state.variables.update(index, kind), errors: state.errors, pipeline: state.pipeline }
}

/// Checking one node, given the previous station and the user functions.
pub open spec fn check_node(node: ResolvedNode, last: Option<TypedModel>, state: CheckState, functions: Seq<FunctionModel>) -> Checked<TypedModel>
    decreases node, 2nat,
{
    match node {
        ResolvedNode::Literal(value) => Checked::Done(Ok(TypedModel::Literal(value)), state),
        ResolvedNode::HeavyLiteral(value) => Checked::Done(Ok(TypedModel::HeavyLiteral(heavy_text(value))), state),
        ResolvedNode::BuiltinCall { index, arguments } => if index >= BUILTIN_COUNT || arguments@.len() >= i32::MAX {
            Checked::Stuck
        } else {
            match check_all(arguments@, last, state, functions) {
                Checked::Stuck => Checked::Stuck,
                Checked::Done(Err(errors), after) => Checked::Done(Err(errors), after),
                Checked::Done(Ok(first_pass), after) => match kinds_of(first_pass) {
                    None => Checked::Stuck,
                    Some(kinds) => {
                        let (found, _, errors) = selection(kinds, builtin_types(index as int));
                        match found {
                            None => Checked::Done(Err(errors.map_values(|e: Error| error_model(e))), after),
                            Some(result) => match check_all(arguments@, last, after, functions) {
                                Checked::Stuck => Checked::Stuck,
                                Checked::Done(Err(errors), again) => Checked::Done(Err(errors), again),
                                Checked::Done(Ok(typed), again) => match rewritten(index, typed, result) {
                                    None => Checked::Stuck,
                                    Some(checked) => Checked::Done(Ok(checked), again),
                                },
                            },
                        }
                    },
                },
            }
        },
        ResolvedNode::Call { arguments, function_index } => match check_all(arguments@, last, state, functions) {
            Checked::Stuck => Checked::Stuck,
            Checked::Done(Err(errors), after) => Checked::Done(Err(errors), after),
            Checked::Done(Ok(typed), after) => match kinds_of(typed) {
                None => Checked::Stuck,
                Some(kinds) => match find_overload(functions, function_index, kinds) {
                    Some(function) => Checked::Done(Ok(TypedModel::Call(function.index, typed, function.result)), after),
                    None => Checked::Done(Err(seq![ErrorModel::NoFunctionFound(kinds)]), after),
                },
            },
        },
        ResolvedNode::Pipeline(stations) => {
            let cleared = CheckState { variables: state.variables, errors: state.errors, pipeline: Seq::empty() };
            match check_stations(stations@, cleared, functions) {
                Checked::Stuck => Checked::Stuck,
                Checked::Done(Err(errors), after) => Checked::Done(Err(errors), after),
                Checked::Done(Ok(typed), after) => Checked::Done(Ok(TypedModel::Pipeline(typed)), after),
            }
        },
        ResolvedNode::RelativeReference(x, y, variable) => if variable < state.variables.len() {
            Checked::Done(Ok(TypedModel::RelativeReference(x, y, state.variables[variable as int])), state)
        } else {
            Checked::Stuck
        },
        ResolvedNode::StationCapture(index, variable) => match last {
            Some(previous) => match kind_of(previous) {
                Some(kind) => if variable < state.variables.len() {
                    Checked::Done(Ok(TypedModel::StationCapture(index, kind)), set_variable(state, variable as int, kind))
                } else {
                    Checked::Stuck
                },
                None => Checked::Stuck,
            },
            None => Checked::Stuck,
        },
        ResolvedNode::Variable(index, variable) => if variable < state.variables.len() {
            Checked::Done(Ok(TypedModel::Variable(index, state.variables[variable as int])), state)
        } else {
            Checked::Stuck
        },
        ResolvedNode::SoftAssignment(index, variable) => match last {
            Some(previous) => match kind_of(previous) {
                Some(kind) => if variable < state.variables.len() {
                    Checked::Done(Ok(TypedModel::Assignment(index, kind)), set_variable(state, variable as int, kind))
                } else {
                    Checked::Stuck
                },
                None => Checked::Stuck,
            },
            None => Checked::Stuck,
        },
        ResolvedNode::Assignment(index, variable, kind) => match last {
            Some(previous) => match kind_of(previous) {
                Some(received) => if variable < state.variables.len() {
                    let reported = if received != kind {
                        CheckState {
                            variables: state.variables,
                            errors: state.errors.push(ErrorModel::Plain(Error::TypeError(TypeError {
                                kind: TypeErrorType::AssignTypeMismatch(received, kind),
                            }))),
                            pipeline: state.pipeline,
                        }
                    } else {
                        state
                    };
                    Checked::Done(Ok(TypedModel::Assignment(index, kind)), set_variable(reported, variable as int, kind))
                } else {
                    Checked::Stuck
                },
                None => Checked::Stuck,
            },
            None => Checked::Stuck,
        },
        ResolvedNode::DefineFunction { function_index, body } => match check_all(body.nodes@, None, state, functions) {
            Checked::Stuck => Checked::Stuck,
            Checked::Done(Err(errors), after) => Checked::Done(Err(errors), after),
            Checked::Done(Ok(typed), after) => Checked::Done(Ok(TypedModel::DefineFunction(
                function_index, typed, body.variables_count, body.arity, body.max_relative_reference)), after),
        },
        ResolvedNode::Condition { branches, final_branch } => match check_branches(branches@, last, state, functions) {
            Checked::Stuck => Checked::Stuck,
            Checked::Done(Err(errors), after) => Checked::Done(Err(errors), after),
            Checked::Done(Ok(typed_branches), after) => match check_all(final_branch@, last, after, functions) {
                Checked::Stuck => Checked::Stuck,
                Checked::Done(Err(errors), again) => Checked::Done(Err(errors), again),
                Checked::Done(Ok(typed_final), again) => Checked::Done(Ok(TypedModel::Condition(typed_branches, typed_final)), again),
            },
        },
        ResolvedNode::Return(value) => match check_node(*value, last, state, functions) {
            Checked::Stuck => Checked::Stuck,
            Checked::Done(Err(errors), after) => Checked::Done(Err(errors), after),
            Checked::Done(Ok(typed), after) => Checked::Done(Ok(TypedModel::Return(Box::new(typed))), after),
        },
        ResolvedNode::Array(elements) => match check_all(elements@, last, state, functions) {
            Checked::Stuck => Checked::Stuck,
            Checked::Done(Err(errors), after) => Checked::Done(Err(errors), after),
            Checked::Done(Ok(typed), after) => Checked::Done(Ok(TypedModel::Array(typed)), after),
        },
    }
}

/// Checking consecutive nodes, each with the same previous station; the
/// first error stops.
pub open spec fn check_all(nodes: Seq<ResolvedNode>, last: Option<TypedModel>, state: CheckState, functions: Seq<FunctionModel>) -> Checked<Seq<TypedModel>>
    decreases nodes, 1nat,
{
    if nodes.len() == 0 {
        Checked::Done(Ok(Seq::empty()), state)
    } else {
        match check_all(nodes.drop_last(), last, state, functions) {
            Checked::Stuck => Checked::Stuck,
            Checked::Done(Err(errors), after) => Checked::Done(Err(errors), after),
            Checked::Done(Ok(typed), after) => match check_node(nodes.last(), last, after, functions) {
                Checked::Stuck => Checked::Stuck,
                Checked::Done(Err(errors), again) => Checked::Done(Err(errors), again),
                Checked::Done(Ok(one), again) => Checked::Done(Ok(typed.push(one)), again),
            },
        }
    }
}

/// Checking the stations of a pipeline, each with the one before it as the
/// previous station; the first error stops.
pub open spec fn check_stations(stations: Seq<ResolvedNode>, state: CheckState, functions: Seq<FunctionModel>) -> Checked<Seq<TypedModel>>
    decreases stations, 1nat,
{
    if stations.len() == 0 {
        Checked::Done(Ok(Seq::empty()), state)
    } else {
        match check_stations(stations.drop_last(), state, functions) {
            Checked::Stuck => Checked::Stuck,
            Checked::Done(Err(errors), after) => Checked::Done(Err(errors), after),
            Checked::Done(Ok(typed), after) => match check_node(stations.last(), last_of(typed), after, functions) {
                Checked::Stuck => Checked::Stuck,
                Checked::Done(Err(errors), again) => Checked::Done(Err(errors), again),
                Checked::Done(Ok(one), again) => Checked::Done(Ok(typed.push(one)), again),
            },
        }
    }
}

/// Checking condition branches, each its condition and then its body, with
/// the same previous station; the first error stops.
pub open spec fn check_branches(branches: Seq<ConditionBranch<ResolvedNode>>, last: Option<TypedModel>, state: CheckState, functions: Seq<FunctionModel>) -> Checked<Seq<(Seq<TypedModel>, Seq<TypedModel>)>>
    decreases branches, 1nat,
{
    if branches.len() == 0 {
        Checked::Done(Ok(Seq::empty()), state)
    } else {
        match check_branches(branches.drop_last(), last, state, functions) {
            Checked::Stuck => Checked::Stuck,
            Checked::Done(Err(errors), after) => Checked::Done(Err(errors), after),
            Checked::Done(Ok(typed), after) => match check_all(branches.last().condition@, last, after, functions) {
                Checked::Stuck => Checked::Stuck,
                Checked::Done(Err(errors), again) => Checked::Done(Err(errors), again),
                Checked::Done(Ok(condition), again) => match check_all(branches.last().body@, last, again, functions) {
                    Checked::Stuck => Checked::Stuck,
                    Checked::Done(Err(errors), third) => Checked::Done(Err(errors), third),
                    Checked::Done(Ok(body), third) => Checked::Done(Ok(typed.push((condition, body))), third),
                },
            },
        }
    }
}

/// Checking the top-level stations of a program, each with the checked ones
/// before it; a station with errors is left out and its errors are
/// reported. `None` where the checker is stuck.
pub open spec fn check_program(nodes: Seq<ResolvedNode>, state: CheckState, functions: Seq<FunctionModel>) -> Option<(Seq<TypedModel>, CheckState)>
    decreases nodes.len(),
{
    if nodes.len() == 0 {
        Some((Seq::empty(), state))
    } else {
        match check_program(nodes.drop_last(), state, functions) {
            None => None,
            Some((typed, after)) => match check_node(nodes.last(), last_of(typed), after, functions) {
                Checked::Stuck => None,
                Checked::Done(Ok(one), again) => Some((typed.push(one), again)),
                Checked::Done(Err(errors), again) => Some((typed, CheckState {
                    variables: again.variables,
                    errors: again.errors + errors,
                    pipeline: again.pipeline,
                })),
            },
        }
    }
}

/// The errors after a check begin with the errors before it.
pub open spec fn keeps_errors<T>(state: CheckState, checked: Checked<T>) -> bool {
    match checked {
        Checked::Stuck => true,
        Checked::Done(_, after) => state.errors.is_prefix_of(after.errors),
    }
}

proof fn lemma_node_keeps_errors(node: ResolvedNode, last: Option<TypedModel>, state: CheckState, functions: Seq<FunctionModel>)
    ensures
        keeps_errors(state, check_node(node, last, state, functions)),
    decreases node, 2nat,
{
    lemma_prefix_refl(state.errors);
    match node {
        ResolvedNode::BuiltinCall { index, arguments } => {
            lemma_all_keep_errors(arguments@, last, state, functions);
            if let Checked::Done(Ok(_), after) = check_all(arguments@, last, state, functions) {
                lemma_all_keep_errors(arguments@, last, after, functions);
                if let Checked::Done(_, again) = check_all(arguments@, last, after, functions) {
                    lemma_prefix_trans(state.errors, after.errors, again.errors);
                }
            }
        },
        ResolvedNode::Call { arguments, function_index } => {
            lemma_all_keep_errors(arguments@, last, state, functions);
        },
        ResolvedNode::Pipeline(stations) => {
            let cleared = CheckState { variables: state.variables, errors: state.errors, pipeline: Seq::empty() };
            lemma_stations_keep_errors(stations@, cleared, functions);
        },
        ResolvedNode::Assignment(index, variable, kind) => {
            if let Some(previous) = last {
                if let Some(received) = kind_of(previous) {
                    lemma_prefix_push(state.errors, ErrorModel::Plain(Error::TypeError(TypeError {
                        kind: TypeErrorType::AssignTypeMismatch(received, kind),
                    })));
                }
            }
        },
        ResolvedNode::DefineFunction { function_index, body } => {
            lemma_all_keep_errors(body.nodes@, None, state, functions);
        },
        ResolvedNode::Condition { branches, final_branch } => {
            lemma_branches_keep_errors(branches@, last, state, functions);
            if let Checked::Done(Ok(_), after) = check_branches(branches@, last, state, functions) {
                lemma_all_keep_errors(final_branch@, last, after, functions);
                if let Checked::Done(_, again) = check_all(final_branch@, last, after, functions) {
                    lemma_prefix_trans(state.errors, after.errors, again.errors);
                }
            }
        },
        ResolvedNode::Return(value) => {
            lemma_node_keeps_errors(*value, last, state, functions);
        },
        ResolvedNode::Array(elements) => {
            lemma_all_keep_errors(elements@, last, state, functions);
        },
        _ => {},
    }
}

proof fn lemma_all_keep_errors(nodes: Seq<ResolvedNode>, last: Option<TypedModel>, state: CheckState, functions: Seq<FunctionModel>)
    ensures
        keeps_errors(state, check_all(nodes, last, state, functions)),
    decreases nodes, 1nat,
{
    if nodes.len() == 0 {
        lemma_prefix_refl(state.errors);
    } else {
        lemma_all_keep_errors(nodes.drop_last(), last, state, functions);
        if let Checked::Done(Ok(_), after) = check_all(nodes.drop_last(), last, state, functions) {
            lemma_node_keeps_errors(nodes.last(), last, after, functions);
            if let Checked::Done(_, again) = check_node(nodes.last(), last, after, functions) {
                lemma_prefix_trans(state.errors, after.errors, again.errors);
            }
        }
    }
}

proof fn lemma_stations_keep_errors(stations: Seq<ResolvedNode>, state: CheckState, functions: Seq<FunctionModel>)
    ensures
        keeps_errors(state, check_stations(stations, state, functions)),
    decreases stations, 1nat,
{
    if stations.len() == 0 {
        lemma_prefix_refl(state.errors);
    } else {
        lemma_stations_keep_errors(stations.drop_last(), state, functions);
        if let Checked::Done(Ok(typed), after) = check_stations(stations.drop_last(), state, functions) {
            lemma_node_keeps_errors(stations.last(), last_of(typed), after, functions);
            if let Checked::Done(_, again) = check_node(stations.last(), last_of(typed), after, functions) {
                lemma_prefix_trans(state.errors, after.errors, again.errors);
            }
        }
    }
}

proof fn lemma_branches_keep_errors(branches: Seq<ConditionBranch<ResolvedNode>>, last: Option<TypedModel>, state: CheckState, functions: Seq<FunctionModel>)
    ensures
        keeps_errors(state, check_branches(branches, last, state, functions)),
    decreases branches, 1nat,
{
    if branches.len() == 0 {
        lemma_prefix_refl(state.errors);
    } else {
        lemma_branches_keep_errors(branches.drop_last(), last, state, functions);
        if let Checked::Done(Ok(_), after) = check_branches(branches.drop_last(), last, state, functions) {
            lemma_all_keep_errors(branches.last().condition@, last, after, functions);
            if let Checked::Done(Ok(_), again) = check_all(branches.last().condition@, last, after, functions) {
                lemma_prefix_trans(state.errors, after.errors, again.errors);
                lemma_all_keep_errors(branches.last().body@, last, again, functions);
                if let Checked::Done(_, third) = check_all(branches.last().body@, last, again, functions) {
                    lemma_prefix_trans(state.errors, again.errors, third.errors);
                }
            } else if let Checked::Done(_, again) = check_all(branches.last().condition@, last, after, functions) {
                lemma_prefix_trans(state.errors, after.errors, again.errors);
            }
        }
    }
}

/// A soft assignment gives its variable the kind of the station before it,
/// reporting nothing, and reading the variable afterwards gives that kind.
pub proof fn law_soft_assignment_then_read(
    slot: u16,
    reading_slot: u16,
    variable: u32,
    previous: TypedModel,
    reading_last: Option<TypedModel>,
    state: CheckState,
    functions: Seq<FunctionModel>,
)
    requires
        kind_of(previous) is Some,
        variable < state.variables.len(),
    ensures
        check_node(ResolvedNode::SoftAssignment(slot, variable), Some(previous), state, functions) matches Checked::Done(
            Ok(TypedModel::Assignment(assigned_slot, kind)),
            after,
        ) && assigned_slot == slot && Some(kind) == kind_of(previous) && after.errors == state.errors
            && check_node(ResolvedNode::Variable(reading_slot, variable), reading_last, after, functions)
            == Checked::Done(Ok(TypedModel::Variable(reading_slot, kind)), after),
{
}

/// Checking a program never drops an error: the errors it was handed stay
/// at the front, in their order, and what it reports only follows them.
pub proof fn law_checking_keeps_errors(nodes: Seq<ResolvedNode>, state: CheckState, functions: Seq<FunctionModel>)
    ensures
        check_program(nodes, state, functions) matches Some((_, after)) ==> state.errors.is_prefix_of(after.errors),
    decreases nodes.len(),
{
    if nodes.len() == 0 {
        lemma_prefix_refl(state.errors);
    } else {
        law_checking_keeps_errors(nodes.drop_last(), state, functions);
        if let Some((typed, after)) = check_program(nodes.drop_last(), state, functions) {
            lemma_node_keeps_errors(nodes.last(), last_of(typed), after, functions);
            if let Checked::Done(result, again) = check_node(nodes.last(), last_of(typed), after, functions) {
                lemma_prefix_trans(state.errors, after.errors, again.errors);
                if let Err(errors) = result {
                    lemma_prefix_append(again.errors, errors);
                    lemma_prefix_trans(state.errors, again.errors, again.errors + errors);
                }
            }
        }
    }
}

/// The model of a checked result.
pub open spec fn result_model<T>(result: Result<T, Vec<Error>>, model: spec_fn(T) -> TypedModel) -> Result<TypedModel, Seq<ErrorModel>> {
    match result {
        Ok(t) => Ok(model(t)),
        Err(errors) => Err(error_models(errors@)),
    }
}

/// The model of a checked list.
pub open spec fn list_result_model(result: Result<Vec<TypedNode>, Vec<Error>>) -> Result<Seq<TypedModel>, Seq<ErrorModel>> {
    match result {
        Ok(nodes) => Ok(typed_models(nodes@)),
        Err(errors) => Err(error_models(errors@)),
    }
}

/// The model of checked branches.
pub open spec fn branches_result_model(result: Result<Vec<ConditionBranch<TypedNode>>, Vec<Error>>) -> Result<Seq<(Seq<TypedModel>, Seq<TypedModel>)>, Seq<ErrorModel>> {
    match result {
        Ok(branches) => Ok(branch_models(branches@)),
        Err(errors) => Err(error_models(errors@)),
    }
}

/// The model of a checked node.
pub open spec fn node_result_model(result: Result<TypedNode, Vec<Error>>) -> Result<TypedModel, Seq<ErrorModel>> {
    match result {
        Ok(node) => Ok(typed_model(node)),
        Err(errors) => Err(error_models(errors@)),
    }
}

pub proof fn lemma_all_prefix(nodes: Seq<ResolvedNode>, last: Option<TypedModel>, state: CheckState, functions: Seq<FunctionModel>, i: int)
    requires
        0 <= i <= nodes.len(),
    ensures
        check_all(nodes.take(i), last, state, functions) is Stuck ==> check_all(nodes, last, state, functions) is Stuck,
        check_all(nodes.take(i), last, state, functions) matches Checked::Done(Err(_), _) ==>
            check_all(nodes, last, state, functions) == check_all(nodes.take(i), last, state, functions),
    decreases nodes.len() - i,
{
    if i < nodes.len() {
        assert(nodes.drop_last().take(i) =~= nodes.take(i));
        lemma_all_prefix(nodes.drop_last(), last, state, functions, i);
    } else {
        assert(nodes.take(i) =~= nodes);
    }
}

pub proof fn lemma_stations_prefix(nodes: Seq<ResolvedNode>, state: CheckState, functions: Seq<FunctionModel>, i: int)
    requires
        0 <= i <= nodes.len(),
    ensures
        check_stations(nodes.take(i), state, functions) is Stuck ==> check_stations(nodes, state, functions) is Stuck,
        check_stations(nodes.take(i), state, functions) matches Checked::Done(Err(_), _) ==>
            check_stations(nodes, state, functions) == check_stations(nodes.take(i), state, functions),
    decreases nodes.len() - i,
{
    if i < nodes.len() {
        assert(nodes.drop_last().take(i) =~= nodes.take(i));
        lemma_stations_prefix(nodes.drop_last(), state, functions, i);
    } else {
        assert(nodes.take(i) =~= nodes);
    }
}

pub proof fn lemma_branches_prefix(branches: Seq<ConditionBranch<ResolvedNode>>, last: Option<TypedModel>, state: CheckState, functions: Seq<FunctionModel>, i: int)
    requires
        0 <= i <= branches.len(),
    ensures
        check_branches(branches.take(i), last, state, functions) is Stuck ==> check_branches(branches, last, state, functions) is Stuck,
        check_branches(branches.take(i), last, state, functions) matches Checked::Done(Err(_), _) ==>
            check_branches(branches, last, state, functions) == check_branches(branches.take(i), last, state, functions),
    decreases branches.len() - i,
{
    if i < branches.len() {
        assert(branches.drop_last().take(i) =~= branches.take(i));
        lemma_branches_prefix(branches.drop_last(), last, state, functions, i);
    } else {
        assert(branches.take(i) =~= branches);
    }
}

pub proof fn lemma_typed_models_push(nodes: Seq<TypedNode>, node: TypedNode)
    ensures
        typed_models(nodes.push(node)) == typed_models(nodes).push(typed_model(node)),
        nodes.push(node).len() > 0,
{
    assert(nodes.push(node).drop_last() =~= nodes);
}

pub proof fn lemma_error_models_push(errors: Seq<Error>, error: Error)
    ensures
        error_models(errors.push(error)) == error_models(errors).push(error_model(error)),
{
    assert(error_models(errors.push(error)) =~= error_models(errors).push(error_model(error)));
}

/// Gives every value its kind, rewriting arithmetic and comparison builtins
/// into the operators they compile to.
pub struct TypeChecker {
    pub error_handler: ErrorHandler,
    pub symbol_table: SymbolTable,
}

impl TypeChecker {
    /// A checker that reports to `error_handler` and reads `symbol_table`.
    pub fn new(error_handler: ErrorHandler, symbol_table: SymbolTable) -> (checker: Self)
        ensures
            checker.error_handler == error_handler,
            checker.symbol_table == symbol_table,
    {
        TypeChecker { error_handler, symbol_table }
    }

    /// What checking reads and changes.
    pub open spec fn state(&self) -> CheckState {
        CheckState {
            variables: self.symbol_table.all_variable@,
            errors: error_models(self.error_handler.errors@),
            pipeline: self.symbol_table.pipeline@,
        }
    }

    /// Checks a program's top-level stations. A station with errors is left
    /// out and its errors join the handler's; the caller stops when the
    /// handler holds errors.
    pub fn checker(self, ast: AST) -> (result: (ErrorHandler, TypedAST))
        requires
            check_program(ast.nodes@, self.state(), self.symbol_table.functions_view()) is Some,
        ensures
            ({
                let (typed, after) = check_program(ast.nodes@, self.state(), self.symbol_table.functions_view())->0;
                &&& typed_models(result.1.nodes@) == typed
                &&& error_models(result.0.errors@) == after.errors
            }),
            result.1.arity == ast.arity,
            result.1.variables_count == ast.variables_count,
            result.1.max_relative_reference == ast.max_relative_reference,
    {
        match self.try_checker(ast) {
            Some(result) => result,
            None => {
                proof {
                    assert(false);
                }
                (ErrorHandler::new(), TypedAST { nodes: Vec::new(), arity: 0, variables_count: 0, max_relative_reference: 0 })
            },
        }
    }

    /// Checks a program as `checker` does, on any program: `None` exactly
    /// where the checker gets stuck, which its caller reports.
    pub fn try_checker(self, ast: AST) -> (result: Option<(ErrorHandler, TypedAST)>)
        ensures
            match check_program(ast.nodes@, self.state(), self.symbol_table.functions_view()) {
                None => result is None,
                Some((typed, after)) => result matches Some((handler, typed_ast)) && {
                    &&& typed_models(typed_ast.nodes@) == typed
                    &&& error_models(handler.errors@) == after.errors
                    &&& typed_ast.arity == ast.arity
                    &&& typed_ast.variables_count == ast.variables_count
                    &&& typed_ast.max_relative_reference == ast.max_relative_reference
                },
            },
    {
        let mut checker = self;
        let ghost start = checker.state();
        let ghost functions = checker.symbol_table.functions_view();
        let mut typed_nodes: Vec<TypedNode> = Vec::new();
        let mut i: usize = 0;
        proof {
            assert(ast.nodes@.take(0) =~= Seq::<ResolvedNode>::empty());
            assert(typed_models(typed_nodes@) =~= Seq::<TypedModel>::empty());
        }
        while i < ast.nodes.len()
            invariant
                i <= ast.nodes@.len(),
                functions == checker.symbol_table.functions_view(),
                start == self.state(),
                functions == self.symbol_table.functions_view(),
                check_program(ast.nodes@.take(i as int), start, functions) == Some((typed_models(typed_nodes@), checker.state())),
            decreases ast.nodes@.len() - i,
        {
            proof {
                assert(ast.nodes@.take(i + 1).drop_last() =~= ast.nodes@.take(i as int));
                assert(ast.nodes@.take(i + 1).last() == ast.nodes@[i as int]);
            }
            match checker.try_check(&ast.nodes[i], typed_nodes.as_slice()) {
                None => {
                    proof {
                        assert(check_program(ast.nodes@.take(i + 1), start, functions) is None);
                        if check_program(ast.nodes@, start, functions) is Some {
                            lemma_program_prefix(ast.nodes@, start, functions, i + 1);
                        }
                    }
                    return None;
                },
                Some(Ok(station)) => {
                    proof {
                        lemma_typed_models_push(typed_nodes@, station);
                    }
                    typed_nodes.push(station);
                },
                Some(Err(errors)) => {
                    let ghost before = checker.error_handler.errors@;
                    let ghost added = errors@;
                    let mut errors = errors;
                    checker.error_handler.errors.append(&mut errors);
                    proof {
                        assert(error_models(checker.error_handler.errors@) =~= error_models(before) + error_models(added));
                    }
                },
            }
            i += 1;
        }
        assert(ast.nodes@.take(i as int) =~= ast.nodes@);
        let TypeChecker { error_handler, symbol_table: _ } = checker;
        Some((error_handler, TypedAST {
            nodes: typed_nodes,
            arity: ast.arity,
            variables_count: ast.variables_count,
            max_relative_reference: ast.max_relative_reference,
        }))
    }

    /// Checks one node given the stations before it: gives it its kinds, or
    /// the errors found; assignments and captures record the kind of the
    /// previous station for their variable.
    pub fn check(&mut self, station: &ResolvedNode, typed_stations: &[TypedNode]) -> (result: Result<TypedNode, Vec<Error>>)
        requires
            !(check_node(*station, last_of(typed_models(typed_stations@)), old(self).state(), old(self).symbol_table.functions_view()) is Stuck),
        ensures
            final(self).symbol_table.functions_view() == old(self).symbol_table.functions_view(),
            final(self).symbol_table.scopes == old(self).symbol_table.scopes,
            final(self).symbol_table.builtins == old(self).symbol_table.builtins,
            check_node(*station, last_of(typed_models(typed_stations@)), old(self).state(), old(self).symbol_table.functions_view())
                == Checked::Done(node_result_model(result), final(self).state()),
    {
        match self.try_check(station, typed_stations) {
            Some(result) => result,
            None => {
                proof {
                    assert(false);
                }
                Err(Vec::new())
            },
        }
    }

    /// Checks one node as `check` does; `None` where the checker is stuck.
    fn try_check(&mut self, station: &ResolvedNode, typed_stations: &[TypedNode]) -> (result: Option<Result<TypedNode, Vec<Error>>>)
        ensures
            final(self).symbol_table.functions_view() == old(self).symbol_table.functions_view(),
            final(self).symbol_table.scopes == old(self).symbol_table.scopes,
            final(self).symbol_table.builtins == old(self).symbol_table.builtins,
            match check_node(*station, last_of(typed_models(typed_stations@)), old(self).state(), old(self).symbol_table.functions_view()) {
                Checked::Stuck => result is None,
                Checked::Done(r, after) => result matches Some(x) && node_result_model(x) == r && final(self).state() == after,
            },
        decreases *station, 2nat,
    {
        let ghost last = last_of(typed_models(typed_stations@));
        proof {
            lemma_typed_models_len(typed_stations@);
            if typed_stations@.len() > 0 {
                lemma_typed_models_index(typed_stations@, typed_stations@.len() - 1);
            }
        }
        match station {
            ResolvedNode::Literal(value) => Some(Ok(TypedNode::Literal(*value))),
            ResolvedNode::HeavyLiteral(HeavyValue::String(text)) => Some(Ok(TypedNode::HeavyLiteral(HeavyValue::String(text.clone())))),
            ResolvedNode::BuiltinCall { index, arguments } => {
                if *index >= BUILTIN_COUNT || arguments.len() >= 0x7fff_ffff {
                    return None;
                }
                let types = get_types(*index);
                proof {
                    lemma_builtin_types_usable(*index as int);
                    lemma_check_all_len(arguments@, last, self.state(), self.symbol_table.functions_view());
                }
                match self.find_result_kind(arguments, &types, typed_stations) {
                    None => None,
                    Some(Ok(result_kind)) => {
                        let ghost middle = self.state();
                        proof {
                            lemma_check_all_len(arguments@, last, middle, self.symbol_table.functions_view());
                        }
                        let typed = match self.try_check_all(arguments, typed_stations) {
                            None => {
                                return None;
                            },
                            Some(Ok(typed)) => typed,
                            Some(Err(errors)) => {
                                return Some(Err(errors));
                            },
                        };
                        proof {
                            lemma_typed_models_len(typed@);
                            if typed@.len() > 0 {
                                lemma_typed_models_index(typed@, 0);
                            }
                        }
                        if typed.len() == 0 {
                            return None;
                        }
                        if self.typed_node_kind(&typed[0]).is_none() {
                            return None;
                        }
                        Some(Ok(self.rewrite_builtin_function(*index, typed, result_kind)))
                    },
                    Some(Err(errors)) => {
                        proof {
                            assert(error_models(errors@) =~= errors@.map_values(|e: Error| error_model(e)));
                        }
                        Some(Err(errors))
                    },
                }
            },
            ResolvedNode::Call { arguments, function_index } => {
                let typed = match self.try_check_all(arguments, typed_stations) {
                    None => {
                        return None;
                    },
                    Some(Ok(typed)) => typed,
                    Some(Err(errors)) => {
                        return Some(Err(errors));
                    },
                };
                if !self.kinds_known(&typed) {
                    return None;
                }
                let arguments_kind = self.kinds_of_nodes(&typed);
                match self.symbol_table.find_function(*function_index, arguments_kind) {
                    Ok(function) => Some(Ok(TypedNode::Call { function_index: function.index, arguments: typed, result: function.result })),
                    Err(error) => {
                        let mut errors: Vec<Error> = Vec::new();
                        errors.push(Error::TypeError(error));
                        proof {
                            assert(error_models(errors@) =~= seq![error_model(errors@[0])]);
                        }
                        Some(Err(errors))
                    },
                }
            },
            ResolvedNode::Pipeline(stations) => {
                self.symbol_table.pipeline.clear();
                match self.try_check_stations(stations) {
                    None => None,
                    Some(Ok(typed)) => Some(Ok(TypedNode::Pipeline(typed))),
                    Some(Err(errors)) => Some(Err(errors)),
                }
            },
            ResolvedNode::RelativeReference(x, y, variable_index) => {
                if (*variable_index as usize) >= self.symbol_table.all_variable.len() {
                    return None;
                }
                let kind = self.symbol_table.all_variable[*variable_index as usize];
                Some(Ok(TypedNode::RelativeReference(*x, *y, kind)))
            },
            ResolvedNode::StationCapture(index, variable_index) => {
                if typed_stations.len() == 0 {
                    return None;
                }
                let received = match self.typed_node_kind(&typed_stations[typed_stations.len() - 1]) {
                    Some(kind) => kind,
                    None => {
                        return None;
                    },
                };
                if (*variable_index as usize) >= self.symbol_table.all_variable.len() {
                    return None;
                }
                self.symbol_table.all_variable.set(*variable_index as usize, received);
                Some(Ok(TypedNode::StationCapture(*index, received)))
            },
            ResolvedNode::Variable(index, variable_index) => {
                if (*variable_index as usize) >= self.symbol_table.all_variable.len() {
                    return None;
                }
                let kind = self.symbol_table.all_variable[*variable_index as usize];
                Some(Ok(TypedNode::Variable(*index, kind)))
            },
            ResolvedNode::SoftAssignment(index, variable_index) => {
                if typed_stations.len() == 0 {
                    return None;
                }
                let received = match self.typed_node_kind(&typed_stations[typed_stations.len() - 1]) {
                    Some(kind) => kind,
                    None => {
                        return None;
                    },
                };
                if (*variable_index as usize) >= self.symbol_table.all_variable.len() {
                    return None;
                }
                self.symbol_table.all_variable.set(*variable_index as usize, received);
                Some(Ok(TypedNode::Assignment(*index, received)))
            },
            ResolvedNode::Assignment(index, variable_index, kind) => {
                if typed_stations.len() == 0 {
                    return None;
                }
                let received = match self.typed_node_kind(&typed_stations[typed_stations.len() - 1]) {
                    Some(kind) => kind,
                    None => {
                        return None;
                    },
                };
                if (*variable_index as usize) >= self.symbol_table.all_variable.len() {
                    return None;
                }
                if received != *kind {
                    let ghost before = self.error_handler.errors@;
                    self.error_handler.push_error(Error::TypeError(TypeError { kind: TypeErrorType::AssignTypeMismatch(received, *kind) }));
                    proof {
                        lemma_error_models_push(before, Error::TypeError(TypeError { kind: TypeErrorType::AssignTypeMismatch(received, *kind) }));
                    }
                }
                self.symbol_table.all_variable.set(*variable_index as usize, *kind);
                Some(Ok(TypedNode::Assignment(*index, *kind)))
            },
            ResolvedNode::DefineFunction { function_index, body } => {
                let child_typed_stations: Vec<TypedNode> = Vec::new();
                proof {
                    assert(typed_models(child_typed_stations@) =~= Seq::<TypedModel>::empty());
                    assert(decreases_to!(*station => (*station)->body));
                    assert(decreases_to!(*body => body.nodes));
                    assert(decreases_to!(body.nodes => body.nodes@));
                }
                match self.try_check_all(&body.nodes, child_typed_stations.as_slice()) {
                    None => None,
                    Some(Ok(nodes)) => Some(Ok(TypedNode::DefineFunction {
                        function_index: *function_index,
                        body: TypedAST {
                            nodes,
                            arity: body.arity,
                            variables_count: body.variables_count,
                            max_relative_reference: body.max_relative_reference,
                        },
                    })),
                    Some(Err(errors)) => Some(Err(errors)),
                }
            },
            ResolvedNode::Condition { branches, final_branch } => {
                let typed_branches = match self.try_check_branches(branches, typed_stations) {
                    None => {
                        return None;
                    },
                    Some(Ok(typed)) => typed,
                    Some(Err(errors)) => {
                        return Some(Err(errors));
                    },
                };
                match self.try_check_all(final_branch, typed_stations) {
                    None => None,
                    Some(Ok(typed_final)) => Some(Ok(TypedNode::Condition { branches: typed_branches, final_branch: typed_final })),
                    Some(Err(errors)) => Some(Err(errors)),
                }
            },
            ResolvedNode::Return(value) => {
                match self.try_check(value, typed_stations) {
                    None => None,
                    Some(Ok(typed)) => Some(Ok(TypedNode::Return(Box::new(typed)))),
                    Some(Err(errors)) => Some(Err(errors)),
                }
            },
            ResolvedNode::Array(elements) => {
                match self.try_check_all(elements, typed_stations) {
                    None => None,
                    Some(Ok(typed)) => Some(Ok(TypedNode::Array(typed))),
                    Some(Err(errors)) => Some(Err(errors)),
                }
            },
        }
    }

    /// The kind of a typed node's value, where the checker can tell it.
    fn typed_node_kind(&self, node: &TypedNode) -> (kind: Option<Kind>)
        ensures
            kind == kind_of(typed_model(*node)),
    {
        match node {
            TypedNode::Literal(value) => match value {
                LightValue::Boolean(_) | LightValue::Integer(_) | LightValue::Float(_) => Some(value.get_kind()),
                _ => None,
            },
            TypedNode::HeavyLiteral(_) => Some(Kind::String),
            TypedNode::Variable(_, kind) => Some(*kind),
            TypedNode::Assignment(_, kind) => Some(*kind),
            TypedNode::BuiltinCall { result, .. } => Some(*result),
            TypedNode::Call { result, .. } => Some(*result),
            TypedNode::RelativeReference(_, _, kind) => Some(*kind),
            TypedNode::Add(_, _, result) => Some(*result),
            TypedNode::Minus(_, _, result) => Some(*result),
            TypedNode::Multiply(_, _, result) => Some(*result),
            TypedNode::Equal(_, _, result) => Some(*result),
            TypedNode::LessThan(_, _, result) => Some(*result),
            TypedNode::GreaterThan(_, _, result) => Some(*result),
            TypedNode::LessThanOrEqual(_, _, result) => Some(*result),
            TypedNode::GreaterThanOrEqual(_, _, result) => Some(*result),
            TypedNode::NotEqual(_, _, result) => Some(*result),
            TypedNode::Array(_) => Some(Kind::Array),
            _ => None,
        }
    }

    /// Whether the checker can tell the kind of each typed node.
    fn kinds_known(&self, nodes: &Vec<TypedNode>) -> (known: bool)
        ensures
            known == (kinds_of(typed_models(nodes@)) is Some),
    {
        let mut i: usize = 0;
        assert(nodes@.take(0) =~= Seq::<TypedNode>::empty());
        assert(typed_models(nodes@.take(0)) =~= Seq::<TypedModel>::empty());
        while i < nodes.len()
            invariant
                i <= nodes@.len(),
                kinds_of(typed_models(nodes@.take(i as int))) is Some,
            decreases nodes@.len() - i,
        {
            proof {
                lemma_typed_models_take(nodes@, i as int);
                lemma_typed_models_prefix(nodes@, i + 1);
                let m = typed_models(nodes@.take(i + 1));
                assert(m.drop_last() =~= typed_models(nodes@.take(i as int)));
                assert(m.last() == typed_model(nodes@[i as int]));
            }
            if self.typed_node_kind(&nodes[i]).is_none() {
                proof {
                    lemma_typed_models_len(nodes@);
                    if kinds_of(typed_models(nodes@)) is Some {
                        lemma_kinds_prefix(typed_models(nodes@), i + 1);
                    }
                }
                return false;
            }
            i += 1;
        }
        assert(nodes@.take(i as int) =~= nodes@);
        true
    }

    /// The kind of a typed node's value.
    fn find_typed_node_kind(&self, node: &TypedNode) -> (kind: Kind)
        requires
            kind_of(typed_model(*node)) is Some,
        ensures
            kind_of(typed_model(*node)) == Some(kind),
    {
        match node {
            TypedNode::Literal(value) => value.get_kind(),
            TypedNode::HeavyLiteral(_) => Kind::String,
            TypedNode::Variable(_, kind) => *kind,
            TypedNode::Assignment(_, kind) => *kind,
            TypedNode::BuiltinCall { result, .. } => *result,
            TypedNode::Call { result, .. } => *result,
            TypedNode::RelativeReference(_, _, kind) => *kind,
            TypedNode::Add(_, _, result) => *result,
            TypedNode::Minus(_, _, result) => *result,
            TypedNode::Multiply(_, _, result) => *result,
            TypedNode::Equal(_, _, result) => *result,
            TypedNode::LessThan(_, _, result) => *result,
            TypedNode::GreaterThan(_, _, result) => *result,
            TypedNode::LessThanOrEqual(_, _, result) => *result,
            TypedNode::GreaterThanOrEqual(_, _, result) => *result,
            TypedNode::NotEqual(_, _, result) => *result,
            TypedNode::Array(_) => Kind::Array,
            _ => {
                proof {
                    assert(false);
                }
                Kind::Undefined
            },
        }
    }

    /// The kinds of typed nodes.
    fn kinds_of_nodes(&self, nodes: &Vec<TypedNode>) -> (kinds: Vec<Kind>)
        requires
            kinds_of(typed_models(nodes@)) is Some,
        ensures
            kinds_of(typed_models(nodes@)) == Some(kinds@),
    {
        let mut kinds: Vec<Kind> = Vec::new();
        let mut i: usize = 0;
        proof {
            lemma_kinds_prefix(typed_models(nodes@), 0);
            assert(nodes@.take(0) =~= Seq::<TypedNode>::empty());
        }
        while i < nodes.len()
            invariant
                i <= nodes@.len(),
                kinds_of(typed_models(nodes@)) is Some,
                kinds_of(typed_models(nodes@.take(i as int))) == Some(kinds@),
            decreases nodes@.len() - i,
        {
            proof {
                lemma_typed_models_len(nodes@);
                lemma_typed_models_take(nodes@, i as int);
                lemma_kinds_prefix(typed_models(nodes@), i + 1);
                lemma_typed_models_prefix(nodes@, i + 1);
                let m = typed_models(nodes@.take(i + 1));
                assert(m.drop_last() =~= typed_models(nodes@.take(i as int)));
                assert(m.last() == typed_model(nodes@[i as int]));
            }
            let kind = self.find_typed_node_kind(&nodes[i]);
            kinds.push(kind);
            i += 1;
        }
        assert(nodes@.take(i as int) =~= nodes@);
        kinds
    }

    /// The kind a builtin call returns: its arguments are checked, and the
    /// builtin's signatures are matched against their kinds; `None` where
    /// the checker is stuck.
    fn find_result_kind(&mut self, arguments: &Vec<ResolvedNode>, types: &Vec<Signature>, typed_station: &[TypedNode]) -> (result: Option<Result<Kind, Vec<Error>>>)
        requires
            signatures_usable(signature_models(types@)),
            arguments@.len() < i32::MAX,
        ensures
            final(self).symbol_table.functions_view() == old(self).symbol_table.functions_view(),
            final(self).symbol_table.scopes == old(self).symbol_table.scopes,
            final(self).symbol_table.builtins == old(self).symbol_table.builtins,
            match check_all(arguments@, last_of(typed_models(typed_station@)), old(self).state(), old(self).symbol_table.functions_view()) {
                Checked::Stuck => result is None,
                Checked::Done(Err(errors), after) => result matches Some(Err(e)) && error_models(e@) == errors && final(self).state() == after,
                Checked::Done(Ok(typed), after) => {
                    &&& final(self).state() == after
                    &&& match kinds_of(typed) {
                        None => result is None,
                        Some(kinds) => match selection(kinds, signature_models(types@)).0 {
                            Some(kind) => result == Some(Ok::<Kind, Vec<Error>>(kind)),
                            None => result matches Some(Err(e)) && e@ == selection(kinds, signature_models(types@)).2,
                        },
                    }
                },
            },
        decreases arguments@, 2nat,
    {
        proof {
            lemma_check_all_len(arguments@, last_of(typed_models(typed_station@)), self.state(), self.symbol_table.functions_view());
        }
        let typed_arguments = match self.try_check_all(arguments, typed_station) {
            None => {
                return None;
            },
            Some(Ok(typed)) => typed,
            Some(Err(errors)) => {
                return Some(Err(errors));
            },
        };
        if !self.kinds_known(&typed_arguments) {
            return None;
        }
        let arguments_kind = self.kinds_of_nodes(&typed_arguments);
        proof {
            lemma_kinds_len(typed_models(typed_arguments@));
            lemma_typed_models_len(typed_arguments@);
        }
        Some(select_signature(&arguments_kind, types))
    }

    /// Checks consecutive nodes, each with the same previous stations.
    fn try_check_all(&mut self, nodes: &Vec<ResolvedNode>, typed_stations: &[TypedNode]) -> (result: Option<Result<Vec<TypedNode>, Vec<Error>>>)
        ensures
            final(self).symbol_table.functions_view() == old(self).symbol_table.functions_view(),
            final(self).symbol_table.scopes == old(self).symbol_table.scopes,
            final(self).symbol_table.builtins == old(self).symbol_table.builtins,
            match check_all(nodes@, last_of(typed_models(typed_stations@)), old(self).state(), old(self).symbol_table.functions_view()) {
                Checked::Stuck => result is None,
                Checked::Done(r, after) => result matches Some(x) && list_result_model(x) == r && final(self).state() == after,
            },
        decreases nodes@, 1nat,
    {
        let ghost last = last_of(typed_models(typed_stations@));
        let ghost functions = self.symbol_table.functions_view();
        let ghost start = self.state();
        let mut typed: Vec<TypedNode> = Vec::new();
        let mut i: usize = 0;
        proof {
            assert(nodes@.take(0) =~= Seq::<ResolvedNode>::empty());
            assert(typed_models(typed@) =~= Seq::<TypedModel>::empty());
        }
        while i < nodes.len()
            invariant
                i <= nodes@.len(),
                last == last_of(typed_models(typed_stations@)),
                functions == self.symbol_table.functions_view(),
                self.symbol_table.scopes == old(self).symbol_table.scopes,
                self.symbol_table.builtins == old(self).symbol_table.builtins,
                functions == old(self).symbol_table.functions_view(),
                start == old(self).state(),
                check_all(nodes@.take(i as int), last, start, functions) == Checked::Done(Ok(typed_models(typed@)), self.state()),
            decreases nodes@.len() - i,
        {
            proof {
                assert(nodes@.take(i + 1).drop_last() =~= nodes@.take(i as int));
                assert(nodes@.take(i + 1).last() == nodes@[i as int]);
                lemma_all_prefix(nodes@, last, start, functions, i + 1);
                assert(decreases_to!(nodes@ => nodes@[i as int]));
            }
            match self.try_check(&nodes[i], typed_stations) {
                None => {
                    return None;
                },
                Some(Err(errors)) => {
                    return Some(Err(errors));
                },
                Some(Ok(one)) => {
                    proof {
                        lemma_typed_models_push(typed@, one);
                    }
                    typed.push(one);
                },
            }
            i += 1;
        }
        assert(nodes@.take(i as int) =~= nodes@);
        Some(Ok(typed))
    }

    /// Checks the stations of a pipeline, each with the stations before it.
    fn try_check_stations(&mut self, stations: &Vec<ResolvedNode>) -> (result: Option<Result<Vec<TypedNode>, Vec<Error>>>)
        ensures
            final(self).symbol_table.functions_view() == old(self).symbol_table.functions_view(),
            final(self).symbol_table.scopes == old(self).symbol_table.scopes,
            final(self).symbol_table.builtins == old(self).symbol_table.builtins,
            match check_stations(stations@, old(self).state(), old(self).symbol_table.functions_view()) {
                Checked::Stuck => result is None,
                Checked::Done(r, after) => result matches Some(x) && list_result_model(x) == r && final(self).state() == after,
            },
        decreases stations@, 1nat,
    {
        let ghost functions = self.symbol_table.functions_view();
        let ghost start = self.state();
        let mut typed: Vec<TypedNode> = Vec::new();
        let mut i: usize = 0;
        proof {
            assert(stations@.take(0) =~= Seq::<ResolvedNode>::empty());
            assert(typed_models(typed@) =~= Seq::<TypedModel>::empty());
        }
        while i < stations.len()
            invariant
                i <= stations@.len(),
                functions == self.symbol_table.functions_view(),
                self.symbol_table.scopes == old(self).symbol_table.scopes,
                self.symbol_table.builtins == old(self).symbol_table.builtins,
                functions == old(self).symbol_table.functions_view(),
                start == old(self).state(),
                check_stations(stations@.take(i as int), start, functions) == Checked::Done(Ok(typed_models(typed@)), self.state()),
            decreases stations@.len() - i,
        {
            proof {
                assert(stations@.take(i + 1).drop_last() =~= stations@.take(i as int));
                assert(stations@.take(i + 1).last() == stations@[i as int]);
                lemma_stations_prefix(stations@, start, functions, i + 1);
                assert(decreases_to!(stations@ => stations@[i as int]));
            }
            match self.try_check(&stations[i], typed.as_slice()) {
                None => {
                    return None;
                },
                Some(Err(errors)) => {
                    return Some(Err(errors));
                },
                Some(Ok(one)) => {
                    proof {
                        lemma_typed_models_push(typed@, one);
                    }
                    typed.push(one);
                },
            }
            i += 1;
        }
        assert(stations@.take(i as int) =~= stations@);
        Some(Ok(typed))
    }

    /// Checks condition branches, each its condition and then its body.
    fn try_check_branches(&mut self, branches: &Vec<ConditionBranch<ResolvedNode>>, typed_stations: &[TypedNode]) -> (result: Option<Result<Vec<ConditionBranch<TypedNode>>, Vec<Error>>>)
        ensures
            final(self).symbol_table.functions_view() == old(self).symbol_table.functions_view(),
            final(self).symbol_table.scopes == old(self).symbol_table.scopes,
            final(self).symbol_table.builtins == old(self).symbol_table.builtins,
            match check_branches(branches@, last_of(typed_models(typed_stations@)), old(self).state(), old(self).symbol_table.functions_view()) {
                Checked::Stuck => result is None,
                Checked::Done(r, after) => result matches Some(x) && branches_result_model(x) == r && final(self).state() == after,
            },
        decreases branches@, 1nat,
    {
        let ghost last = last_of(typed_models(typed_stations@));
        let ghost functions = self.symbol_table.functions_view();
        let ghost start = self.state();
        let mut typed: Vec<ConditionBranch<TypedNode>> = Vec::new();
        let mut i: usize = 0;
        proof {
            assert(branches@.take(0) =~= Seq::<ConditionBranch<ResolvedNode>>::empty());
            assert(branch_models(typed@) =~= Seq::<(Seq<TypedModel>, Seq<TypedModel>)>::empty());
        }
        while i < branches.len()
            invariant
                i <= branches@.len(),
                last == last_of(typed_models(typed_stations@)),
                functions == self.symbol_table.functions_view(),
                self.symbol_table.scopes == old(self).symbol_table.scopes,
                self.symbol_table.builtins == old(self).symbol_table.builtins,
                functions == old(self).symbol_table.functions_view(),
                start == old(self).state(),
                check_branches(branches@.take(i as int), last, start, functions) == Checked::Done(Ok(branch_models(typed@)), self.state()),
            decreases branches@.len() - i,
        {
            proof {
                assert(branches@.take(i + 1).drop_last() =~= branches@.take(i as int));
                assert(branches@.take(i + 1).last() == branches@[i as int]);
                lemma_branches_prefix(branches@, last, start, functions, i + 1);
                assert(decreases_to!(branches@ => branches@[i as int]));
                assert(decreases_to!(branches@[i as int] => branches@[i as int].condition));
                assert(decreases_to!(branches@[i as int].condition => branches@[i as int].condition@));
                assert(decreases_to!(branches@[i as int] => branches@[i as int].body));
                assert(decreases_to!(branches@[i as int].body => branches@[i as int].body@));
            }
            let branch = &branches[i];
            let condition = match self.try_check_all(&branch.condition, typed_stations) {
                None => {
                    return None;
                },
                Some(Ok(condition)) => condition,
                Some(Err(errors)) => {
                    return Some(Err(errors));
                },
            };
            let body = match self.try_check_all(&branch.body, typed_stations) {
                None => {
                    return None;
                },
                Some(Ok(body)) => body,
                Some(Err(errors)) => {
                    return Some(Err(errors));
                },
            };
            let ghost before = typed@;
            typed.push(ConditionBranch { condition, body });
            proof {
                assert(typed@.drop_last() =~= before);
            }
            i += 1;
        }
        assert(branches@.take(i as int) =~= branches@);
        Some(Ok(typed))
    }

    /// A checked builtin call, rewritten into an operator when the builtin
    /// has its own instruction and its first argument is not a string or an
    /// array.
    fn rewrite_builtin_function(&self, index: u16, arguments: Vec<TypedNode>, result: Kind) -> (node: TypedNode)
        requires
            index < BUILTIN_COUNT,
            rewritten(index, typed_models(arguments@), result) is Some,
        ensures
            rewritten(index, typed_models(arguments@), result) == Some(typed_model(node)),
    {
        proof {
            lemma_typed_models_len(arguments@);
            lemma_typed_models_index(arguments@, 0);
        }
        let kind = self.find_typed_node_kind(&arguments[0]);
        let function = get_builtin(index);
        if !function.have_instruction || kind == Kind::String || kind == Kind::Array {
            return TypedNode::BuiltinCall { index, arguments, result };
        }
        if index == 0 {
            TypedNode::Add(arguments, kind, result)
        } else if index == 1 {
            TypedNode::Minus(arguments, kind, result)
        } else if index == 2 {
            TypedNode::Multiply(arguments, kind, result)
        } else if index == 8 {
            TypedNode::Equal(arguments, kind, result)
        } else if index == 9 {
            TypedNode::LessThan(arguments, kind, result)
        } else if index == 10 {
            TypedNode::GreaterThan(arguments, kind, result)
        } else if index == 11 {
            TypedNode::LessThanOrEqual(arguments, kind, result)
        } else if index == 12 {
            TypedNode::GreaterThanOrEqual(arguments, kind, result)
        } else {
            TypedNode::NotEqual(arguments, kind, result)
        }
    }
}

pub proof fn lemma_typed_models_len(nodes: Seq<TypedNode>)
    ensures
        typed_models(nodes).len() == nodes.len(),
    decreases nodes.len(),
{
    if nodes.len() > 0 {
        lemma_typed_models_len(nodes.drop_last());
    }
}

pub proof fn lemma_typed_models_index(nodes: Seq<TypedNode>, i: int)
    requires
        0 <= i < nodes.len(),
    ensures
        typed_models(nodes)[i] == typed_model(nodes[i]),
    decreases nodes.len(),
{
    lemma_typed_models_len(nodes.drop_last());
    if i < nodes.len() - 1 {
        lemma_typed_models_index(nodes.drop_last(), i);
    }
}

pub proof fn lemma_typed_models_take(nodes: Seq<TypedNode>, i: int)
    requires
        0 <= i < nodes.len(),
    ensures
        typed_models(nodes.take(i + 1)) == typed_models(nodes.take(i)).push(typed_model(nodes[i])),
{
    assert(nodes.take(i + 1).drop_last() =~= nodes.take(i));
    assert(nodes.take(i + 1).last() == nodes[i]);
}

pub proof fn lemma_typed_models_prefix(nodes: Seq<TypedNode>, i: int)
    requires
        0 <= i <= nodes.len(),
    ensures
        typed_models(nodes.take(i)) == typed_models(nodes).take(i),
    decreases nodes.len() - i,
{
    lemma_typed_models_len(nodes);
    if i < nodes.len() {
        assert(nodes.drop_last().take(i) =~= nodes.take(i));
        lemma_typed_models_prefix(nodes.drop_last(), i);
        lemma_typed_models_len(nodes.drop_last());
        assert(typed_models(nodes).take(i) =~= typed_models(nodes.drop_last()).take(i));
    } else {
        assert(nodes.take(i) =~= nodes);
        assert(typed_models(nodes).take(i) =~= typed_models(nodes));
    }
}

pub proof fn lemma_kinds_prefix(models: Seq<TypedModel>, i: int)
    requires
        0 <= i <= models.len(),
        kinds_of(models) is Some,
    ensures
        kinds_of(models.take(i)) is Some,
        kinds_of(models.take(i))->0 == kinds_of(models)->0.take(i),
    decreases models.len() - i,
{
    lemma_kinds_len(models);
    if i < models.len() {
        assert(models.drop_last().take(i) =~= models.take(i));
        lemma_kinds_prefix(models.drop_last(), i);
        lemma_kinds_len(models.drop_last());
        assert(kinds_of(models)->0.take(i) =~= kinds_of(models.drop_last())->0.take(i));
    } else {
        assert(models.take(i) =~= models);
        assert(kinds_of(models)->0.take(i) =~= kinds_of(models)->0);
    }
}

pub proof fn lemma_kinds_len(models: Seq<TypedModel>)
    ensures
        kinds_of(models) matches Some(kinds) ==> kinds.len() == models.len(),
    decreases models.len(),
{
    if models.len() > 0 {
        lemma_kinds_len(models.drop_last());
    }
}

pub proof fn lemma_builtin_types_usable(index: int)
    requires
        0 <= index < 17,
    ensures
        signatures_usable(builtin_types(index)),
{
    let t = builtin_types(index);
    assert forall|i: int| 0 <= i < t.len() && (#[trigger] t[i]).3 implies t[i].0.len() > 0 by {
    }
}

pub proof fn lemma_check_all_len(nodes: Seq<ResolvedNode>, last: Option<TypedModel>, state: CheckState, functions: Seq<FunctionModel>)
    ensures
        check_all(nodes, last, state, functions) matches Checked::Done(Ok(typed), _) ==> typed.len() == nodes.len(),
    decreases nodes.len(),
{
    if nodes.len() > 0 {
        lemma_check_all_len(nodes.drop_last(), last, state, functions);
    }
}

pub proof fn lemma_program_prefix(nodes: Seq<ResolvedNode>, state: CheckState, functions: Seq<FunctionModel>, i: int)
    requires
        0 <= i <= nodes.len(),
        check_program(nodes, state, functions) is Some,
    ensures
        check_program(nodes.take(i), state, functions) is Some,
    decreases nodes.len() - i,
{
    if i < nodes.len() {
        assert(nodes.drop_last().take(i) =~= nodes.take(i));
        lemma_program_prefix(nodes.drop_last(), state, functions, i);
    } else {
        assert(nodes.take(i) =~= nodes);
    }
}

/// A builtin call that has its own instruction, on a first argument that is
/// neither a string nor an array, becomes the operator that the builtin
/// names: `+` Add, `-` Minus, `*` Multiply, `==` Equal, `<` LessThan, `>`
/// GreaterThan, `<=` LessThanOrEqual, `>=` GreaterThanOrEqual and `!=`
/// NotEqual, over the same arguments, with the first argument's kind and the
/// call's result.
pub proof fn law_rewrite_names_the_builtin_operator(index: u16, arguments: Seq<TypedModel>, result: Kind, node: TypedNode)
    requires
        rewritten(index, arguments, result) == Some(typed_model(node)),
        builtin_has_instruction(index as int),
        arguments.len() > 0,
        kind_of(arguments[0]) matches Some(kind) && kind != Kind::String && kind != Kind::Array,
    ensures
        (node is Add) <==> builtin_function(index as int) == BuiltinFunction::Math(BuiltinOperation::Add),
        (node is Minus) <==> builtin_function(index as int) == BuiltinFunction::Math(BuiltinOperation::Minus),
        (node is Multiply) <==> builtin_function(index as int) == BuiltinFunction::Math(BuiltinOperation::Multiply),
        (node is Equal) <==> builtin_function(index as int) == BuiltinFunction::Compare(BuiltinOperation::Equal),
        (node is LessThan) <==> builtin_function(index as int) == BuiltinFunction::Compare(BuiltinOperation::LowerThan),
        (node is GreaterThan) <==> builtin_function(index as int) == BuiltinFunction::Compare(BuiltinOperation::GreaterThan),
        (node is LessThanOrEqual) <==> builtin_function(index as int)
            == BuiltinFunction::Compare(BuiltinOperation::LowerThanOrEqual),
        (node is GreaterThanOrEqual) <==> builtin_function(index as int)
            == BuiltinFunction::Compare(BuiltinOperation::GreaterThanOrEqual),
        (node is NotEqual) <==> builtin_function(index as int) == BuiltinFunction::Compare(BuiltinOperation::NotEqual),
        typed_model(node) == TypedModel::Operator(typed_model(node)->Operator_0, arguments, kind_of(arguments[0])->0, result),
{
    let kind = kind_of(arguments[0])->0;
    assert(typed_model(node) == TypedModel::Operator(operator_number(index), arguments, kind, result));
    match node {
        TypedNode::Add(..) => {},
        TypedNode::Minus(..) => {},
        TypedNode::Multiply(..) => {},
        TypedNode::Equal(..) => {},
        TypedNode::LessThan(..) => {},
        TypedNode::GreaterThan(..) => {},
        TypedNode::LessThanOrEqual(..) => {},
        TypedNode::GreaterThanOrEqual(..) => {},
        TypedNode::NotEqual(..) => {},
        _ => {},
    }
}

/// A builtin call stays a call of the same builtin, on the same arguments
/// and with the same result, when the builtin has no instruction of its own
/// or its first argument is a string or an array.
pub proof fn law_rewrite_keeps_other_calls(index: u16, arguments: Seq<TypedModel>, result: Kind)
    requires
        arguments.len() > 0,
        kind_of(arguments[0]) matches Some(kind) && (!builtin_has_instruction(index as int) || kind == Kind::String
            || kind == Kind::Array),
    ensures
        rewritten(index, arguments, result) == Some(TypedModel::BuiltinCall(index, arguments, result)),
{
}

} // verus!
