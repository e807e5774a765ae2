use vstd::prelude::*;
use crate::builtins::builtin_names;
use crate::error_handler::{error_model, error_models, lemma_prefix_push, lemma_prefix_refl, lemma_prefix_trans, Error, ErrorHandler, ErrorModel, SemanticError, SemanticErrorType, TypeError, TypeErrorType};
use crate::node::{ConditionBranch, Node, ResolvedNode, AST};
use crate::symbol_table::{
    bind, builtin_position, find_overload, find_reference, function_clash, lookup, lookup_in_scope, register, Function,
    FunctionModel, RelativeReference, ScopeModel, SymbolTable, SymbolType,
};
use crate::value::{HeavyValue, Kind, LightValue};

verus! {

/// What resolving a program hands on to the later stages.
pub struct ResolverOutput {
    pub error_handler: ErrorHandler,
    pub symbol_table: SymbolTable,
    pub ast: AST,
    pub total_define_function_count: u32,
    pub main_define_function_count: u32,
    pub main_variables_count: u16,
}

/// Where a node stands with respect to the pipeline around it.
#[derive(Debug, Clone, Copy)]
pub enum PipelineContext {
    NotInPipeline,
    /// A station of a pipeline, with its position among the stations.
    InPipeline { station_index: usize },
    /// Inside the arguments of a station.
    InStation { station_index: usize },
}

/// A resolved node with lists as sequences.
pub enum ResolvedModel {
    Literal(LightValue),
    HeavyLiteral(HeavyValue),
    BuiltinCall(u16, Seq<ResolvedModel>),
    Call(Seq<ResolvedModel>, u32),
    Pipeline(Seq<ResolvedModel>),
    RelativeReference(u16, u16, u32),
    StationCapture(u16, u32),
    Variable(u16, u32),
    SoftAssignment(u16, u32),
    Assignment(u16, u32, Kind),
    /// Function index, body, variables count, arity, widest pipeline capture.
    DefineFunction(u32, Seq<ResolvedModel>, u16, u8, u8),
    Condition(Seq<(Seq<ResolvedModel>, Seq<ResolvedModel>)>, Seq<ResolvedModel>),
    Return(Box<ResolvedModel>),
    Array(Seq<ResolvedModel>),
}

/// The model of a resolved node.
pub open spec fn resolved_model(node: ResolvedNode) -> ResolvedModel
    decreases node, 0nat,
{
    match node {
        ResolvedNode::Literal(value) => ResolvedModel::Literal(value),
        ResolvedNode::HeavyLiteral(value) => ResolvedModel::HeavyLiteral(value),
        ResolvedNode::BuiltinCall { index, arguments } => ResolvedModel::BuiltinCall(index, resolved_models(arguments@)),
        ResolvedNode::Call { arguments, function_index } => ResolvedModel::Call(resolved_models(arguments@), function_index),
        ResolvedNode::Pipeline(stations) => ResolvedModel::Pipeline(resolved_models(stations@)),
        ResolvedNode::RelativeReference(x, y, variable) => ResolvedModel::RelativeReference(x, y, variable),
        ResolvedNode::StationCapture(index, variable) => ResolvedModel::StationCapture(index, variable),
        ResolvedNode::Variable(index, variable) => ResolvedModel::Variable(index, variable),
        ResolvedNode::SoftAssignment(index, variable) => ResolvedModel::SoftAssignment(index, variable),
        ResolvedNode::Assignment(index, variable, kind) => ResolvedModel::Assignment(index, variable, kind),
        ResolvedNode::DefineFunction { function_index, body } => ResolvedModel::DefineFunction(
            function_index,
            resolved_models(body.nodes@),
            body.variables_count,
            body.arity,
            body.max_relative_reference,
        ),
        ResolvedNode::Condition { branches, final_branch } => ResolvedModel::Condition(
            resolved_branch_models(branches@),
            resolved_models(final_branch@),
        ),
        ResolvedNode::Return(value) => ResolvedModel::Return(Box::new(resolved_model(*value))),
        ResolvedNode::Array(elements) => ResolvedModel::Array(resolved_models(elements@)),
    }
}

/// The models of consecutive resolved nodes.
pub open spec fn resolved_models(nodes: Seq<ResolvedNode>) -> Seq<ResolvedModel>
    decreases nodes, 0nat,
{
    if nodes.len() == 0 {
        Seq::empty()
    } else {
        resolved_models(nodes.drop_last()).push(resolved_model(nodes.last()))
    }
}

/// The models of resolved condition branches.
pub open spec fn resolved_branch_models(branches: Seq<ConditionBranch<ResolvedNode>>) -> Seq<(Seq<ResolvedModel>, Seq<ResolvedModel>)>
    decreases branches, 0nat,
{
    if branches.len() == 0 {
        Seq::empty()
    } else {
        resolved_branch_models(branches.drop_last()).push(
            (resolved_models(branches.last().condition@), resolved_models(branches.last().body@)),
        )
    }
}

/// What resolving reads and changes: the symbol table's scopes, overloads,
/// variables and pipeline captures, the errors reported so far, the number
/// of function definitions met, and the counters of the body being resolved.
pub struct ResolveState {
    pub scopes: Seq<ScopeModel>,
    pub functions: Seq<FunctionModel>,
    pub variables: Seq<Kind>,
    pub pipeline: Seq<RelativeReference>,
    pub errors: Seq<ErrorModel>,
    pub defined: u32,
    pub variables_count: u16,
    pub max_relative_reference: u8,
}

/// `st` with one more error.
pub open spec fn reported(st: ResolveState, error: ErrorModel) -> ResolveState {
    ResolveState { errors: st.errors.push(error), ..st }
}

/// A semantic error as an error model.
pub open spec fn semantic(kind: SemanticErrorType) -> ErrorModel {
    ErrorModel::Plain(Error::SemanticError(SemanticError { kind }))
}

/// What a name stands for: the innermost binding, else a builtin.
pub open spec fn name_symbol(st: ResolveState, name: Seq<char>) -> Option<SymbolType> {
    match lookup(st.scopes, name) {
        Some(symbol) => Some(symbol),
        None => match builtin_position(builtin_names(), name) {
            Some(i) => Some(SymbolType::Builtin(i as u16)),
            None => None,
        },
    }
}

/// Binding a variable in the innermost scope: the earlier binding if the
/// name is taken there, else a new slot and a new variable.
pub open spec fn variable_added(st: ResolveState, name: Seq<char>, kind: Kind) -> (Result<SymbolType, SymbolType>, ResolveState) {
    let innermost = st.scopes.last();
    match lookup_in_scope(innermost, name) {
        Some(existing) => (Err(existing), st),
        None => {
            let symbol = SymbolType::VariableScope(innermost.len() as u16, st.variables.len() as u32);
            (
                Ok(symbol),
                ResolveState {
                    scopes: st.scopes.drop_last().push(bind(innermost, name, symbol)),
                    variables: st.variables.push(kind),
                    ..st
                },
            )
        },
    }
}

/// Capturing a station of the current pipeline: the earlier capture of it,
/// else a new capture holding a new variable.
pub open spec fn reference_added(st: ResolveState, station: u16) -> (SymbolType, ResolveState) {
    match find_reference(st.pipeline, station) {
        Some(i) => (SymbolType::VariableScope(i as u16, st.pipeline[i].variable_index), st),
        None => {
            let variable_index = st.variables.len() as u32;
            (
                SymbolType::VariableScope(st.pipeline.len() as u16, variable_index),
                ResolveState {
                    pipeline: st.pipeline.push(RelativeReference { index_in_stations: station, variable_index }),
                    variables: st.variables.push(Kind::Undefined),
                    ..st
                },
            )
        },
    }
}

/// Registering an overload of `name` from the innermost scope.
pub open spec fn function_added(st: ResolveState, name: Seq<char>, kinds: Seq<Kind>, result: Kind) -> ResolveState {
    let function_index = st.functions.len() as u32;
    let function = Function { index: function_index, result };
    match lookup_in_scope(st.scopes.last(), name) {
        Some(SymbolType::FunctionScope(id)) => ResolveState { functions: register(st.functions, id, kinds, function), ..st },
        _ => ResolveState {
            functions: register(st.functions, function_index, kinds, function),
            scopes: st.scopes.drop_last().push(bind(st.scopes.last(), name, SymbolType::FunctionScope(function_index))),
            ..st
        },
    }
}

/// The context of the station at `index` of a list resolved in `context`:
/// the stations of a pipeline are numbered, other contexts pass through.
pub open spec fn context_at(context: PipelineContext, index: int) -> PipelineContext {
    match context {
        PipelineContext::InPipeline { .. } => PipelineContext::InPipeline { station_index: index as usize },
        other => other,
    }
}

/// The context of the arguments of a call made in `context`.
pub open spec fn station_context(context: PipelineContext) -> PipelineContext {
    match context {
        PipelineContext::InPipeline { station_index } => PipelineContext::InStation { station_index },
        other => other,
    }
}

/// The station a context lies in, if any.
pub open spec fn station_of(context: PipelineContext) -> Option<usize> {
    match context {
        PipelineContext::NotInPipeline => None,
        PipelineContext::InPipeline { station_index } => Some(station_index),
        PipelineContext::InStation { station_index } => Some(station_index),
    }
}

/// The nodes a node resolves to: itself, or nothing where it was reported.
pub open spec fn emitted(out: Option<ResolvedModel>) -> Seq<ResolvedModel> {
    match out {
        Some(model) => seq![model],
        None => Seq::empty(),
    }
}

/// `rest` with `done` before its nodes.
pub open spec fn prepend(done: Seq<ResolvedModel>, rest: Option<(Seq<ResolvedModel>, ResolveState)>) -> Option<(Seq<ResolvedModel>, ResolveState)> {
    match rest {
        Some((nodes, st)) => Some((done + nodes, st)),
        None => None,
    }
}

/// Resolving one node: `None` where resolution gets stuck (an unfinished
/// case, a counter that would overflow, a definition whose overload is not
/// registered), else the node it resolves to, if any, and the state after.
pub open spec fn solution_of_node(node: Node, st: ResolveState, context: PipelineContext) -> Option<(Option<ResolvedModel>, ResolveState)>
    decreases node, 0nat,
{
    match node {
        Node::Literal(value) => Some((Some(ResolvedModel::Literal(value)), st)),
        Node::HeavyLiteral(value) => Some((Some(ResolvedModel::HeavyLiteral(value)), st)),
        Node::RelativeReference(x, y) => match station_of(context) {
            None => Some((None, reported(st, semantic(SemanticErrorType::RelativeReferenceNotInPipeline)))),
            Some(station_index) => if station_index < x {
                Some((None, reported(st, semantic(SemanticErrorType::MissingStation((station_index % 0x10000) as u16)))))
            } else if station_index % 0x10000 < x {
                None
            } else {
                let (symbol, after) = reference_added(st, (station_index % 0x10000 - x) as u16);
                match symbol {
                    SymbolType::VariableScope(index, variable) => Some((Some(ResolvedModel::RelativeReference(index, y, variable)), after)),
                    _ => None,
                }
            },
        },
        Node::Apply { operator, arguments } => match name_symbol(st, operator@) {
            Some(SymbolType::Builtin(index)) => match solution_of(arguments@, st, station_context(context), 0) {
                Some((resolved, after)) => Some((Some(ResolvedModel::BuiltinCall(index, resolved)), after)),
                None => None,
            },
            Some(SymbolType::FunctionScope(id)) => match solution_of(arguments@, st, station_context(context), 0) {
                Some((resolved, after)) => Some((Some(ResolvedModel::Call(resolved, id)), after)),
                None => None,
            },
            Some(SymbolType::VariableScope(_, _)) => Some((None, reported(st, ErrorModel::Plain(
                Error::TypeError(TypeError { kind: TypeErrorType::NotAFunction(operator) }),
            )))),
            None => Some((None, reported(st, ErrorModel::UndefinedIdentifier(operator@)))),
        },
        Node::SoftAssignment(name) => if st.scopes.len() == 0 {
            None
        } else {
            match variable_added(st, name@, Kind::Undefined) {
                (Ok(SymbolType::VariableScope(index, variable)), after) => if after.variables_count == u16::MAX {
                    None
                } else {
                    Some((
                        Some(ResolvedModel::SoftAssignment(index, variable)),
                        ResolveState { variables_count: (after.variables_count + 1) as u16, ..after },
                    ))
                },
                (Err(SymbolType::VariableScope(index, variable)), after) => Some((Some(ResolvedModel::SoftAssignment(index, variable)), after)),
                _ => None,
            }
        },
        Node::Assignment(name, kind) => if st.scopes.len() == 0 {
            None
        } else {
            match variable_added(st, name@, kind) {
                (Ok(SymbolType::VariableScope(index, variable)), after) => if after.variables_count == u16::MAX {
                    None
                } else {
                    Some((
                        Some(ResolvedModel::Assignment(index, variable, kind)),
                        ResolveState { variables_count: (after.variables_count + 1) as u16, ..after },
                    ))
                },
                (Err(SymbolType::VariableScope(index, variable)), after) => Some((Some(ResolvedModel::Assignment(index, variable, kind)), after)),
                _ => None,
            }
        },
        Node::Variable(name) => match name_symbol(st, name@) {
            Some(SymbolType::VariableScope(index, variable)) => Some((Some(ResolvedModel::Variable(index, variable)), st)),
            None => Some((None, reported(st, ErrorModel::UndefinedIdentifier(name@)))),
            _ => None,
        },
        Node::DefineFunction { operator, parameters, body, result: _ } => if st.defined == u32::MAX {
            None
        } else {
            let entered = ResolveState {
                defined: (st.defined + 1) as u32,
                scopes: st.scopes.push(Seq::empty()),
                variables_count: 0,
                max_relative_reference: 0,
                ..st
            };
            match parameters_added(parameters@, entered) {
                None => None,
                Some((with_parameters, arity, kinds)) => if arity > u8::MAX {
                    None
                } else {
                    match signatures_of(body@, with_parameters) {
                        None => None,
                        Some((count, signed)) => if count > u32::MAX {
                            None
                        } else {
                            match solution_of(body@, signed, PipelineContext::NotInPipeline, 0) {
                                None => None,
                                Some((nodes, solved)) => {
                                    let left = ResolveState {
                                        scopes: if solved.scopes.len() == 0 { solved.scopes } else { solved.scopes.drop_last() },
                                        variables_count: st.variables_count,
                                        max_relative_reference: st.max_relative_reference,
                                        ..solved
                                    };
                                    match name_symbol(left, operator@) {
                                        Some(SymbolType::FunctionScope(id)) => match find_overload(left.functions, id, kinds) {
                                            Some(function) => Some((
                                                Some(ResolvedModel::DefineFunction(
                                                    function.index,
                                                    nodes,
                                                    solved.variables_count,
                                                    arity as u8,
                                                    solved.max_relative_reference,
                                                )),
                                                left,
                                            )),
                                            None => None,
                                        },
                                        _ => None,
                                    }
                                },
                            }
                        },
                    }
                },
            }
        },
        Node::Pipeline(stations) => {
            let cleared = ResolveState { pipeline: Seq::empty(), ..st };
            match solution_of(stations@, cleared, PipelineContext::InPipeline { station_index: 0 }, 0) {
                None => None,
                Some((solved, after)) => match captures_inserted(solved, after.pipeline) {
                    None => None,
                    Some(stations) => {
                        let widest = (after.pipeline.len() % 0x100) as u8;
                        Some((
                            Some(ResolvedModel::Pipeline(stations)),
                            ResolveState {
                                max_relative_reference: if widest > after.max_relative_reference { widest } else { after.max_relative_reference },
                                ..after
                            },
                        ))
                    },
                },
            }
        },
        Node::Condition { branches, final_branch } => match solution_of_branches(branches@, st, context) {
            None => None,
            Some((resolved_branches, mid)) => match solution_of(final_branch@, mid, context, 0) {
                None => None,
                Some((resolved_final, after)) => Some((Some(ResolvedModel::Condition(resolved_branches, resolved_final)), after)),
            },
        },
        Node::Return(value) => match solution_of_node(*value, st, context_at(context, 0)) {
            Some((Some(resolved), after)) => Some((Some(ResolvedModel::Return(Box::new(resolved))), after)),
            _ => None,
        },
        Node::Array(elements) => match solution_of(elements@, st, context, 0) {
            None => None,
            Some((resolved, after)) => Some((Some(ResolvedModel::Array(resolved)), after)),
        },
    }
}

/// Resolving consecutive nodes in `context`, the first at position `offset`.
pub open spec fn solution_of(nodes: Seq<Node>, st: ResolveState, context: PipelineContext, offset: int) -> Option<(Seq<ResolvedModel>, ResolveState)>
    decreases nodes, 1nat,
{
    if nodes.len() == 0 {
        Some((Seq::empty(), st))
    } else {
        match solution_of_node(nodes[0], st, context_at(context, offset)) {
            None => None,
            Some((out, mid)) => prepend(emitted(out), solution_of(nodes.drop_first(), mid, context, offset + 1)),
        }
    }
}

/// Resolving condition branches in order, each its condition then its body.
pub open spec fn solution_of_branches(branches: Seq<ConditionBranch<Node>>, st: ResolveState, context: PipelineContext) -> Option<(Seq<(Seq<ResolvedModel>, Seq<ResolvedModel>)>, ResolveState)>
    decreases branches, 1nat,
{
    if branches.len() == 0 {
        Some((Seq::empty(), st))
    } else {
        match solution_of(branches[0].condition@, st, context, 0) {
            None => None,
            Some((condition, mid)) => match solution_of(branches[0].body@, mid, context, 0) {
                None => None,
                Some((body, after)) => match solution_of_branches(branches.drop_first(), after, context) {
                    None => None,
                    Some((rest, last)) => Some((seq![(condition, body)] + rest, last)),
                },
            },
        }
    }
}

/// Binding the parameters of a definition in order: the state after, how
/// many were bound, and their kinds; a repeated name is reported.
pub open spec fn parameters_added(parameters: Seq<Node>, st: ResolveState) -> Option<(ResolveState, nat, Seq<Kind>)>
    decreases parameters.len(),
{
    if parameters.len() == 0 {
        Some((st, 0, Seq::empty()))
    } else {
        match parameters[0] {
            Node::Assignment(name, kind) => if st.scopes.len() == 0 {
                None
            } else {
                let (added, after) = variable_added(st, name@, kind);
                match added {
                    Ok(SymbolType::VariableScope(_, _)) => match parameters_added(parameters.drop_first(), after) {
                        Some((last, count, kinds)) => Some((last, count + 1, seq![kind] + kinds)),
                        None => None,
                    },
                    Err(SymbolType::VariableScope(_, _)) => parameters_added(
                        parameters.drop_first(),
                        reported(after, semantic(SemanticErrorType::DuplicateParameter(name))),
                    ),
                    _ => None,
                }
            },
            _ => None,
        }
    }
}

/// The kinds of parameters, all of which must be typed names.
pub open spec fn parameter_kinds(parameters: Seq<Node>) -> Option<Seq<Kind>>
    decreases parameters.len(),
{
    if parameters.len() == 0 {
        Some(Seq::empty())
    } else {
        match parameters[0] {
            Node::Assignment(_, kind) => match parameter_kinds(parameters.drop_first()) {
                Some(kinds) => Some(seq![kind] + kinds),
                None => None,
            },
            _ => None,
        }
    }
}

/// Registering the signatures of the definitions among `nodes`, looking
/// into pipelines and condition bodies: how many stand directly in `nodes`
/// and the state after.
pub open spec fn signatures_of(nodes: Seq<Node>, st: ResolveState) -> Option<(nat, ResolveState)>
    decreases nodes, 1nat,
{
    if nodes.len() == 0 {
        Some((0, st))
    } else {
        match signature_of_node(nodes[0], st) {
            None => None,
            Some((defined, mid)) => match signatures_of(nodes.drop_first(), mid) {
                None => None,
                Some((count, after)) => Some((if defined { count + 1 } else { count }, after)),
            },
        }
    }
}

/// Registering the signatures within one node; whether it is a definition.
pub open spec fn signature_of_node(node: Node, st: ResolveState) -> Option<(bool, ResolveState)>
    decreases node, 0nat,
{
    match node {
        Node::Pipeline(stations) => match signatures_of(stations@, st) {
            Some((count, after)) => if count > u32::MAX { None } else { Some((false, after)) },
            None => None,
        },
        Node::DefineFunction { operator, parameters, body: _, result } => match parameter_kinds(parameters@) {
            None => None,
            Some(kinds) => if st.scopes.len() == 0 || function_clash(st.scopes.last(), st.functions, operator@, kinds) {
                None
            } else {
                Some((true, function_added(st, operator@, kinds, result)))
            },
        },
        Node::Condition { branches, final_branch } => match signatures_of_branches(branches@, st) {
            None => None,
            Some(mid) => match signatures_of(final_branch@, mid) {
                Some((count, after)) => if count > u32::MAX { None } else { Some((false, after)) },
                None => None,
            },
        },
        _ => Some((false, st)),
    }
}

/// Registering the signatures within the bodies of condition branches.
pub open spec fn signatures_of_branches(branches: Seq<ConditionBranch<Node>>, st: ResolveState) -> Option<ResolveState>
    decreases branches, 1nat,
{
    if branches.len() == 0 {
        Some(st)
    } else {
        match signatures_of(branches[0].body@, st) {
            None => None,
            Some((count, mid)) => if count > u32::MAX { None } else { signatures_of_branches(branches.drop_first(), mid) },
        }
    }
}

/// The stations of a pipeline with a capture inserted after each captured
/// station, the latest capture first; `None` where a captured station does
/// not exist.
pub open spec fn captures_inserted(stations: Seq<ResolvedModel>, pipeline: Seq<RelativeReference>) -> Option<Seq<ResolvedModel>>
    decreases pipeline.len(),
{
    if pipeline.len() == 0 {
        Some(stations)
    } else {
        let k = pipeline.len() - 1;
        let at = pipeline[k].index_in_stations + 1;
        if at > stations.len() {
            None
        } else {
            captures_inserted(
                stations.insert(at, ResolvedModel::StationCapture((k % 0x10000) as u16, pipeline[k].variable_index)),
                pipeline.drop_last(),
            )
        }
    }
}

/// Resolving a program: its signatures first, then its nodes; the number of
/// definitions at its top level, its resolved nodes and the state after.
pub open spec fn resolution(nodes: Seq<Node>, st: ResolveState) -> Option<(u32, Seq<ResolvedModel>, ResolveState)> {
    match signatures_of(nodes, st) {
        None => None,
        Some((count, signed)) => if count > u32::MAX {
            None
        } else {
            match solution_of(nodes, signed, PipelineContext::NotInPipeline, 0) {
                None => None,
                Some((resolved, after)) => Some((count as u32, resolved, after)),
            }
        },
    }
}

/// `rest` with `count` more definitions.
pub open spec fn counted(count: nat, rest: Option<(nat, ResolveState)>) -> Option<(nat, ResolveState)> {
    match rest {
        Some((n, st)) => Some((count + n, st)),
        None => None,
    }
}

/// `rest` with `kinds` before its kinds.
pub open spec fn kinds_before(kinds: Seq<Kind>, rest: Option<Seq<Kind>>) -> Option<Seq<Kind>> {
    match rest {
        Some(more) => Some(kinds + more),
        None => None,
    }
}

proof fn lemma_resolved_models(nodes: Seq<ResolvedNode>)
    ensures
        resolved_models(nodes).len() == nodes.len(),
        forall|i: int| 0 <= i < nodes.len() ==> #[trigger] resolved_models(nodes)[i] == resolved_model(nodes[i]),
    decreases nodes.len(),
{
    if nodes.len() > 0 {
        lemma_resolved_models(nodes.drop_last());
        assert forall|i: int| 0 <= i < nodes.len() implies #[trigger] resolved_models(nodes)[i] == resolved_model(nodes[i]) by {
            if i < nodes.len() - 1 {
                assert(nodes.drop_last()[i] == nodes[i]);
            }
        }
    }
}

proof fn lemma_error_models_push(errors: Seq<Error>, error: Error)
    ensures
        error_models(errors.push(error)) == error_models(errors).push(error_model(error)),
{
    assert(error_models(errors.push(error)) =~= error_models(errors).push(error_model(error)));
}

/// `rest` with `done` before its branches.
pub open spec fn branches_before(
    done: Seq<(Seq<ResolvedModel>, Seq<ResolvedModel>)>,
    rest: Option<(Seq<(Seq<ResolvedModel>, Seq<ResolvedModel>)>, ResolveState)>,
) -> Option<(Seq<(Seq<ResolvedModel>, Seq<ResolvedModel>)>, ResolveState)> {
    match rest {
        Some((more, st)) => Some((done + more, st)),
        None => None,
    }
}

/// `rest` with `count` more parameters bound, of kinds `kinds`.
pub open spec fn bound(count: nat, kinds: Seq<Kind>, rest: Option<(ResolveState, nat, Seq<Kind>)>) -> Option<(ResolveState, nat, Seq<Kind>)> {
    match rest {
        Some((st, n, more)) => Some((st, count + n, kinds + more)),
        None => None,
    }
}

/// The state a resolution output is left in.
pub open spec fn output_state(output: ResolverOutput) -> ResolveState {
    ResolveState {
        scopes: output.symbol_table.scopes_view(),
        functions: output.symbol_table.functions_view(),
        variables: output.symbol_table.all_variable@,
        pipeline: output.symbol_table.pipeline@,
        errors: error_models(output.error_handler.errors@),
        defined: output.total_define_function_count,
        variables_count: output.ast.variables_count,
        max_relative_reference: output.ast.max_relative_reference,
    }
}

proof fn lemma_models_push(nodes: Seq<ResolvedNode>, node: ResolvedNode)
    ensures
        resolved_models(nodes.push(node)) == resolved_models(nodes) + seq![resolved_model(node)],
{
    assert(nodes.push(node).drop_last() =~= nodes);
    assert(resolved_models(nodes).push(resolved_model(node)) =~= resolved_models(nodes) + seq![resolved_model(node)]);
}

proof fn lemma_models_insert(nodes: Seq<ResolvedNode>, at: int, node: ResolvedNode)
    requires
        0 <= at <= nodes.len(),
    ensures
        resolved_models(nodes.insert(at, node)) == resolved_models(nodes).insert(at, resolved_model(node)),
{
    lemma_resolved_models(nodes);
    lemma_resolved_models(nodes.insert(at, node));
    assert(resolved_models(nodes.insert(at, node)) =~= resolved_models(nodes).insert(at, resolved_model(node)));
}

proof fn lemma_prepend_empty(rest: Option<(Seq<ResolvedModel>, ResolveState)>)
    ensures
        prepend(Seq::empty(), rest) == rest,
{
    if let Some((nodes, st)) = rest {
        assert(Seq::<ResolvedModel>::empty() + nodes =~= nodes);
    }
}

proof fn lemma_prepend_twice(a: Seq<ResolvedModel>, b: Seq<ResolvedModel>, rest: Option<(Seq<ResolvedModel>, ResolveState)>)
    ensures
        prepend(a, prepend(b, rest)) == prepend(a + b, rest),
{
    if let Some((nodes, st)) = rest {
        assert(a + (b + nodes) =~= (a + b) + nodes);
    }
}

proof fn lemma_signatures_keep_errors(nodes: Seq<Node>, st: ResolveState)
    ensures
        signatures_of(nodes, st) matches Some((_, after)) ==> after.errors == st.errors,
    decreases nodes, 1nat,
{
    if nodes.len() > 0 {
        lemma_signature_keeps_errors(nodes[0], st);
        if let Some((_, mid)) = signature_of_node(nodes[0], st) {
            lemma_signatures_keep_errors(nodes.drop_first(), mid);
        }
    }
}

proof fn lemma_signature_keeps_errors(node: Node, st: ResolveState)
    ensures
        signature_of_node(node, st) matches Some((_, after)) ==> after.errors == st.errors,
    decreases node, 0nat,
{
    match node {
        Node::Pipeline(stations) => lemma_signatures_keep_errors(stations@, st),
        Node::Condition { branches, final_branch } => {
            lemma_signature_branches_keep_errors(branches@, st);
            if let Some(mid) = signatures_of_branches(branches@, st) {
                lemma_signatures_keep_errors(final_branch@, mid);
            }
        },
        _ => {},
    }
}

proof fn lemma_signature_branches_keep_errors(branches: Seq<ConditionBranch<Node>>, st: ResolveState)
    ensures
        signatures_of_branches(branches, st) matches Some(after) ==> after.errors == st.errors,
    decreases branches, 1nat,
{
    if branches.len() > 0 {
        lemma_signatures_keep_errors(branches[0].body@, st);
        if let Some((_, mid)) = signatures_of(branches[0].body@, st) {
            lemma_signature_branches_keep_errors(branches.drop_first(), mid);
        }
    }
}

proof fn lemma_parameters_keep_errors(parameters: Seq<Node>, st: ResolveState)
    ensures
        parameters_added(parameters, st) matches Some((after, _, _)) ==> st.errors.is_prefix_of(after.errors),
    decreases parameters.len(),
{
    if parameters.len() == 0 {
        lemma_prefix_refl(st.errors);
    } else if let Node::Assignment(name, kind) = parameters[0] {
        if st.scopes.len() > 0 {
            let (added, after) = variable_added(st, name@, kind);
            let next = match added {
                Ok(_) => after,
                Err(_) => reported(after, semantic(SemanticErrorType::DuplicateParameter(name))),
            };
            lemma_prefix_refl(st.errors);
            lemma_prefix_push(st.errors, semantic(SemanticErrorType::DuplicateParameter(name)));
            lemma_parameters_keep_errors(parameters.drop_first(), next);
            if let Some((last, _, _)) = parameters_added(parameters.drop_first(), next) {
                lemma_prefix_trans(st.errors, next.errors, last.errors);
            }
        }
    }
}

proof fn lemma_node_keeps_errors(node: Node, st: ResolveState, context: PipelineContext)
    ensures
        solution_of_node(node, st, context) matches Some((_, after)) ==> st.errors.is_prefix_of(after.errors),
    decreases node, 0nat,
{
    lemma_prefix_refl(st.errors);
    match node {
        Node::RelativeReference(x, y) => {
            lemma_prefix_push(st.errors, semantic(SemanticErrorType::RelativeReferenceNotInPipeline));
            if let Some(station_index) = station_of(context) {
                lemma_prefix_push(st.errors, semantic(SemanticErrorType::MissingStation((station_index % 0x10000) as u16)));
            }
        },
        Node::Apply { operator, arguments } => {
            lemma_prefix_push(st.errors, ErrorModel::Plain(
                Error::TypeError(TypeError { kind: TypeErrorType::NotAFunction(operator) }),
            ));
            lemma_prefix_push(st.errors, ErrorModel::UndefinedIdentifier(operator@));
            lemma_nodes_keep_errors(arguments@, st, station_context(context), 0);
        },
        Node::Variable(name) => {
            lemma_prefix_push(st.errors, ErrorModel::UndefinedIdentifier(name@));
        },
        Node::DefineFunction { operator, parameters, body, result: _ } => {
            let entered = ResolveState {
                defined: (st.defined + 1) as u32,
                scopes: st.scopes.push(Seq::empty()),
                variables_count: 0,
                max_relative_reference: 0,
                ..st
            };
            lemma_parameters_keep_errors(parameters@, entered);
            if let Some((with_parameters, _, _)) = parameters_added(parameters@, entered) {
                lemma_signatures_keep_errors(body@, with_parameters);
                if let Some((_, signed)) = signatures_of(body@, with_parameters) {
                    lemma_nodes_keep_errors(body@, signed, PipelineContext::NotInPipeline, 0);
                    if let Some((_, solved)) = solution_of(body@, signed, PipelineContext::NotInPipeline, 0) {
                        lemma_prefix_trans(st.errors, with_parameters.errors, solved.errors);
                    }
                }
            }
        },
        Node::Pipeline(stations) => {
            let cleared = ResolveState { pipeline: Seq::empty(), ..st };
            lemma_nodes_keep_errors(stations@, cleared, PipelineContext::InPipeline { station_index: 0 }, 0);
        },
        Node::Condition { branches, final_branch } => {
            lemma_branches_keep_errors(branches@, st, context);
            if let Some((_, mid)) = solution_of_branches(branches@, st, context) {
                lemma_nodes_keep_errors(final_branch@, mid, context, 0);
                if let Some((_, after)) = solution_of(final_branch@, mid, context, 0) {
                    lemma_prefix_trans(st.errors, mid.errors, after.errors);
                }
            }
        },
        Node::Return(value) => {
            lemma_node_keeps_errors(*value, st, context_at(context, 0));
        },
        Node::Array(elements) => {
            lemma_nodes_keep_errors(elements@, st, context, 0);
        },
        _ => {},
    }
}

proof fn lemma_nodes_keep_errors(nodes: Seq<Node>, st: ResolveState, context: PipelineContext, offset: int)
    ensures
        solution_of(nodes, st, context, offset) matches Some((_, after)) ==> st.errors.is_prefix_of(after.errors),
    decreases nodes, 1nat,
{
    if nodes.len() == 0 {
        lemma_prefix_refl(st.errors);
    } else {
        lemma_node_keeps_errors(nodes[0], st, context_at(context, offset));
        if let Some((_, mid)) = solution_of_node(nodes[0], st, context_at(context, offset)) {
            lemma_nodes_keep_errors(nodes.drop_first(), mid, context, offset + 1);
            if let Some((_, after)) = solution_of(nodes.drop_first(), mid, context, offset + 1) {
                lemma_prefix_trans(st.errors, mid.errors, after.errors);
            }
        }
    }
}

proof fn lemma_branches_keep_errors(branches: Seq<ConditionBranch<Node>>, st: ResolveState, context: PipelineContext)
    ensures
        solution_of_branches(branches, st, context) matches Some((_, after)) ==> st.errors.is_prefix_of(after.errors),
    decreases branches, 1nat,
{
    if branches.len() == 0 {
        lemma_prefix_refl(st.errors);
    } else {
        lemma_nodes_keep_errors(branches[0].condition@, st, context, 0);
        if let Some((_, mid)) = solution_of(branches[0].condition@, st, context, 0) {
            lemma_nodes_keep_errors(branches[0].body@, mid, context, 0);
            if let Some((_, after)) = solution_of(branches[0].body@, mid, context, 0) {
                lemma_prefix_trans(st.errors, mid.errors, after.errors);
                lemma_branches_keep_errors(branches.drop_first(), after, context);
                if let Some((_, last)) = solution_of_branches(branches.drop_first(), after, context) {
                    lemma_prefix_trans(st.errors, after.errors, last.errors);
                }
            }
        }
    }
}

/// Resolving a program never drops an error: the errors it was handed stay
/// at the front, in their order, and what it reports only follows them.
pub proof fn law_resolution_keeps_errors(nodes: Seq<Node>, st: ResolveState)
    ensures
        resolution(nodes, st) matches Some((_, _, after)) ==> st.errors.is_prefix_of(after.errors),
{
    lemma_signatures_keep_errors(nodes, st);
    if let Some((_, signed)) = signatures_of(nodes, st) {
        lemma_nodes_keep_errors(nodes, signed, PipelineContext::NotInPipeline, 0);
    }
}

/// A name-resolving pass over a parsed program.
pub struct Resolver {
    pub error_handler: ErrorHandler,
    pub symbol_table: SymbolTable,
    pub total_define_function_count: u32,
}

impl Resolver {
    /// The resolver's state, with the counters of the body being resolved
    /// at zero.
    pub open spec fn table_state(&self) -> ResolveState {
        ResolveState {
            scopes: self.symbol_table.scopes_view(),
            functions: self.symbol_table.functions_view(),
            variables: self.symbol_table.all_variable@,
            pipeline: self.symbol_table.pipeline@,
            errors: error_models(self.error_handler.errors@),
            defined: self.total_define_function_count,
            variables_count: 0,
            max_relative_reference: 0,
        }
    }

    /// The resolver's state while it fills `frame`.
    pub open spec fn state(&self, frame: AST) -> ResolveState {
        ResolveState {
            variables_count: frame.variables_count,
            max_relative_reference: frame.max_relative_reference,
            ..self.table_state()
        }
    }

    /// A resolver that reports into `error_handler` and binds names in
    /// `symbol_table`.
    pub fn new(error_handler: ErrorHandler, symbol_table: SymbolTable) -> (resolver: Self)
        ensures
            resolver.error_handler == error_handler,
            resolver.symbol_table == symbol_table,
            resolver.total_define_function_count == 0,
    {
        Resolver { error_handler, symbol_table, total_define_function_count: 0 }
    }

    /// Resolves a program: registers the signatures of its definitions, then
    /// resolves its nodes in a frame of their own; `None` where resolution
    /// gets stuck. The errors gathered are handed on in the output.
    pub fn resolve(self, nodes: Vec<Node>) -> (output: Option<ResolverOutput>)
        requires
            self.symbol_table.wf(),
        ensures
            match resolution(nodes@, self.table_state()) {
                None => output is None,
                Some((count, resolved, after)) => output matches Some(o) && {
                    &&& o.main_define_function_count == count
                    &&& resolved_models(o.ast.nodes@) == resolved
                    &&& output_state(o) == after
                    &&& o.ast.arity == 0
                    &&& o.main_variables_count == o.ast.variables_count
                    &&& o.symbol_table.wf()
                },
            },
    {
        let mut resolver = self;
        let mut ast = AST { nodes: Vec::new(), variables_count: 0, arity: 0, max_relative_reference: 0 };
        assert(resolver.state(ast) == resolver.table_state());
        let main_define_function_count = match resolver.push_signature_to_symbol_table(&nodes) {
            Some(count) => count,
            None => {
                return None;
            },
        };
        let resolved = match resolver.solve(nodes, &mut ast, PipelineContext::NotInPipeline) {
            Some(resolved) => resolved,
            None => {
                return None;
            },
        };
        ast.nodes = resolved;
        Some(ResolverOutput {
            error_handler: resolver.error_handler,
            symbol_table: resolver.symbol_table,
            main_variables_count: ast.variables_count,
            ast,
            total_define_function_count: resolver.total_define_function_count,
            main_define_function_count,
        })
    }

    /// Registers the signatures of the definitions among `stations`, looking
    /// into pipelines and condition bodies; returns how many stand directly
    /// in `stations`, or `None` where resolution gets stuck.
    #[verifier::loop_isolation(false)]
    fn push_signature_to_symbol_table(&mut self, stations: &Vec<Node>) -> (count: Option<u32>)
        requires
            old(self).symbol_table.wf(),
        ensures
            final(self).symbol_table.wf(),
            final(self).error_handler == old(self).error_handler,
            final(self).total_define_function_count == old(self).total_define_function_count,
            match signatures_of(stations@, old(self).table_state()) {
                None => count is None,
                Some((n, after)) => if n > u32::MAX {
                    count is None
                } else {
                    count == Some(n as u32) && after == final(self).table_state()
                },
            },
        decreases stations@,
    {
        let ghost all = stations@;
        let ghost start = self.table_state();
        let mut define_function_count: u32 = 0;
        let mut i: usize = 0;
        assert(all.subrange(0, all.len() as int) =~= all);
        while i < stations.len()
            invariant
                i <= all.len(),
                all == stations@,
                self.symbol_table.wf(),
                self.error_handler == old(self).error_handler,
                self.total_define_function_count == old(self).total_define_function_count,
                start == old(self).table_state(),
                signatures_of(all, start) == counted(
                    define_function_count as nat,
                    signatures_of(all.subrange(i as int, all.len() as int), self.table_state()),
                ),
            decreases all.len() - i,
        {
            let ghost rest = all.subrange(i as int, all.len() as int);
            let ghost mid = self.table_state();
            proof {
                assert(rest[0] == all[i as int]);
                assert(rest.drop_first() =~= all.subrange(i + 1, all.len() as int));
                assert(decreases_to!(all => all[i as int]));
            }
            match &stations[i] {
                Node::Pipeline(inner) => {
                    proof {
                        assert(decreases_to!(all[i as int] => *inner));
                        assert(decreases_to!(*inner => inner@));
                    }
                    match self.push_signature_to_symbol_table(inner) {
                        Some(_) => {},
                        None => {
                            assert(all[i as int] == Node::Pipeline(*inner));
                            assert(signature_of_node(all[i as int], mid) is None);
                            assert(signatures_of(rest, mid) is None);
                            return None;
                        },
                    }
                },
                Node::DefineFunction { operator, parameters, body: _, result } => {
                    let mut parameters_kind: Vec<Kind> = Vec::new();
                    let mut j: usize = 0;
                    assert(parameters@.subrange(0, parameters@.len() as int) =~= parameters@);
                    assert(parameters_kind@ + Seq::<Kind>::empty() =~= Seq::<Kind>::empty());
                    while j < parameters.len()
                        invariant
                            j <= parameters@.len(),
                            parameter_kinds(parameters@) == kinds_before(
                                parameters_kind@,
                                parameter_kinds(parameters@.subrange(j as int, parameters@.len() as int)),
                            ),
                        decreases parameters@.len() - j,
                    {
                        let ghost left = parameters@.subrange(j as int, parameters@.len() as int);
                        assert(left[0] == parameters@[j as int]);
                        assert(left.drop_first() =~= parameters@.subrange(j + 1, parameters@.len() as int));
                        match &parameters[j] {
                            Node::Assignment(_, kind) => {
                                let ghost before = parameters_kind@;
                                parameters_kind.push(*kind);
                                proof {
                                    let more = parameter_kinds(left.drop_first());
                                    if more is Some {
                                        assert(before + (seq![*kind] + more.unwrap()) =~= parameters_kind@ + more.unwrap());
                                    }
                                }
                            },
                            _ => {
                                return None;
                            },
                        }
                        j += 1;
                    }
                    assert(parameters@.subrange(j as int, parameters@.len() as int) =~= Seq::<Node>::empty());
                    assert(parameters_kind@ + Seq::<Kind>::empty() =~= parameters_kind@);
                    assert(self.symbol_table.scopes_view().len() == self.symbol_table.scopes@.len());
                    if self.symbol_table.scopes.len() == 0 {
                        return None;
                    }
                    if self.symbol_table.function_clashes(operator, &parameters_kind) {
                        return None;
                    }
                    self.symbol_table.add_function(operator.clone(), parameters_kind, *result);
                    if define_function_count == u32::MAX {
                        return None;
                    }
                    define_function_count += 1;
                },
                Node::Condition { branches, final_branch } => {
                    let mut j: usize = 0;
                    assert(branches@.subrange(0, branches@.len() as int) =~= branches@);
                    while j < branches.len()
                        invariant
                            j <= branches@.len(),
                            self.symbol_table.wf(),
                            self.error_handler == old(self).error_handler,
                            self.total_define_function_count == old(self).total_define_function_count,
                            signatures_of_branches(branches@, mid) == signatures_of_branches(
                                branches@.subrange(j as int, branches@.len() as int),
                                self.table_state(),
                            ),
                        decreases branches@.len() - j,
                    {
                        let ghost left = branches@.subrange(j as int, branches@.len() as int);
                        proof {
                            assert(left[0] == branches@[j as int]);
                            assert(left.drop_first() =~= branches@.subrange(j + 1, branches@.len() as int));
                            assert(decreases_to!(all[i as int] => *branches));
                            assert(decreases_to!(*branches => branches@));
                            assert(decreases_to!(branches@ => branches@[j as int]));
                            assert(decreases_to!(branches@[j as int] => branches@[j as int].body));
                            assert(decreases_to!(branches@[j as int].body => branches@[j as int].body@));
                        }
                        match self.push_signature_to_symbol_table(&branches[j].body) {
                            Some(_) => {},
                            None => {
                                return None;
                            },
                        }
                        j += 1;
                    }
                    proof {
                        assert(branches@.subrange(j as int, branches@.len() as int) =~= Seq::<ConditionBranch<Node>>::empty());
                        assert(decreases_to!(all[i as int] => *final_branch));
                        assert(decreases_to!(*final_branch => final_branch@));
                    }
                    match self.push_signature_to_symbol_table(final_branch) {
                        Some(_) => {},
                        None => {
                            return None;
                        },
                    }
                },
                _ => {},
            }
            i += 1;
        }
        assert(all.subrange(i as int, all.len() as int) =~= Seq::<Node>::empty());
        Some(define_function_count)
    }

    /// Resolves a function definition: binds its parameters in a new scope,
    /// registers the signatures in its body, resolves the body into a frame
    /// of its own and appends the definition with the overload it defines.
    #[verifier::rlimit(40)]
    #[verifier::loop_isolation(false)]
    fn solve_define_function(&mut self, station: Node, ast: &mut AST, resolved_stations: &mut Vec<ResolvedNode>, pipeline_context: PipelineContext) -> (solved: bool)
        requires
            old(self).symbol_table.wf(),
            station is DefineFunction,
        ensures
            final(self).symbol_table.wf(),
            final(ast).arity == old(ast).arity,
            final(ast).nodes@ == old(ast).nodes@,
            match solution_of_node(station, old(self).state(*old(ast)), pipeline_context) {
                None => !solved,
                Some((out, after)) => solved && after == final(self).state(*final(ast))
                    && resolved_models(final(resolved_stations)@) == resolved_models(old(resolved_stations)@) + emitted(out),
            },
        decreases station, 1nat,
    {
        let ghost before = resolved_stations@;
        let ghost st = self.state(*ast);
        match station {
            Node::DefineFunction { operator, parameters, body, result: _ } => {
                proof {
                    assert(decreases_to!(station => body));
                    assert(decreases_to!(body => body@));
                }
                if self.total_define_function_count == u32::MAX {
                    return false;
                }
                let mut child_ast = AST { nodes: Vec::new(), variables_count: 0, arity: 0, max_relative_reference: 0 };
                self.total_define_function_count = self.total_define_function_count + 1;
                self.symbol_table.new_scope();
                let ghost entered = self.state(child_ast);
                let ghost all = parameters@;
                let mut parameters_kind: Vec<Kind> = Vec::new();
                let mut rest = parameters;
                proof {
                    if let Some((s1, n, kinds)) = parameters_added(all, entered) {
                        assert(Seq::<Kind>::empty() + kinds =~= kinds);
                    }
                }
                while rest.len() > 0
                    invariant
                        self.symbol_table.wf(),
                        self.symbol_table.scopes_view().len() > 0,
                        child_ast.variables_count == 0,
                        child_ast.max_relative_reference == 0,
                        child_ast.nodes@.len() == 0,
                        parameters_added(all, entered) == bound(
                            child_ast.arity as nat,
                            parameters_kind@,
                            parameters_added(rest@, self.state(child_ast)),
                        ),
                    decreases rest.len(),
                {
                    let ghost left = rest@;
                    let ghost errors = self.error_handler.errors@;
                    let ghost kinds_before = parameters_kind@;
                    let parameter = rest.remove(0);
                    assert(rest@ =~= left.drop_first());
                    match parameter {
                        Node::Assignment(name, kind) => {
                            match self.symbol_table.add_variable(name.clone(), kind) {
                                Ok(SymbolType::VariableScope(_, _)) => {
                                    if child_ast.arity == u8::MAX {
                                        return false;
                                    }
                                    child_ast.arity = child_ast.arity + 1;
                                    parameters_kind.push(kind);
                                    proof {
                                        if let Some((s1, n, more)) = parameters_added(rest@, self.state(child_ast)) {
                                            assert(kinds_before + (seq![kind] + more) =~= parameters_kind@ + more);
                                        }
                                    }
                                },
                                Err(SymbolType::VariableScope(_, _)) => {
                                    let error = Error::SemanticError(SemanticError { kind: SemanticErrorType::DuplicateParameter(name) });
                                    proof { lemma_error_models_push(errors, error); }
                                    self.error_handler.push_error(error);
                                },
                                _ => {
                                    return false;
                                },
                            }
                        },
                        _ => {
                            return false;
                        },
                    }
                }
                proof {
                    assert(parameters_kind@ + Seq::<Kind>::empty() =~= parameters_kind@);
                }
                let ghost with_parameters = self.state(child_ast);
                assert(with_parameters == self.table_state());
                match self.push_signature_to_symbol_table(&body) {
                    Some(_) => {},
                    None => {
                        return false;
                    },
                }
                let nodes = match self.solve(body, &mut child_ast, PipelineContext::NotInPipeline) {
                    Some(nodes) => nodes,
                    None => {
                        return false;
                    },
                };
                let ghost solved_models = resolved_models(nodes@);
                child_ast.nodes = nodes;
                self.symbol_table.pop_scope();
                match self.symbol_table.resolve(operator.as_str()) {
                    Ok(SymbolType::FunctionScope(function_id)) => match self.symbol_table.find_function(function_id, parameters_kind) {
                        Ok(function) => {
                            let node = ResolvedNode::DefineFunction { function_index: function.index, body: child_ast };
                            proof { lemma_models_push(before, node); }
                            resolved_stations.push(node);
                            true
                        },
                        Err(_) => false,
                    },
                    _ => false,
                }
            },
            _ => false,
        }
    }

    /// Resolves a pipeline: its stations with their positions, then a
    /// capture after each station that a relative reference names.
    fn solve_pipeline(&mut self, station: Node, ast: &mut AST, resolved_stations: &mut Vec<ResolvedNode>, pipeline_context: PipelineContext) -> (solved: bool)
        requires
            old(self).symbol_table.wf(),
            station is Pipeline,
        ensures
            final(self).symbol_table.wf(),
            final(ast).arity == old(ast).arity,
            final(ast).nodes@ == old(ast).nodes@,
            match solution_of_node(station, old(self).state(*old(ast)), pipeline_context) {
                None => !solved,
                Some((out, after)) => solved && after == final(self).state(*final(ast))
                    && resolved_models(final(resolved_stations)@) == resolved_models(old(resolved_stations)@) + emitted(out),
            },
        decreases station, 1nat,
    {
        let ghost before = resolved_stations@;
        match station {
            Node::Pipeline(stations) => {
                proof {
                    assert(decreases_to!(station => stations));
                    assert(decreases_to!(stations => stations@));
                }
                self.symbol_table.pipeline.clear();
                let mut stations = match self.solve(stations, ast, PipelineContext::InPipeline { station_index: 0 }) {
                    Some(stations) => stations,
                    None => {
                        return false;
                    },
                };
                if !self.solve_relative_reference(&mut stations) {
                    return false;
                }
                let widest = (self.symbol_table.pipeline.len() % 0x100) as u8;
                if widest > ast.max_relative_reference {
                    ast.max_relative_reference = widest;
                }
                let node = ResolvedNode::Pipeline(stations);
                proof { lemma_models_push(before, node); }
                resolved_stations.push(node);
                true
            },
            _ => false,
        }
    }

    /// Resolves a condition: its branches in order, then its final branch.
    fn solve_condition(&mut self, station: Node, ast: &mut AST, resolved_stations: &mut Vec<ResolvedNode>, pipeline_context: PipelineContext) -> (solved: bool)
        requires
            old(self).symbol_table.wf(),
            station is Condition,
        ensures
            final(self).symbol_table.wf(),
            final(ast).arity == old(ast).arity,
            final(ast).nodes@ == old(ast).nodes@,
            match solution_of_node(station, old(self).state(*old(ast)), pipeline_context) {
                None => !solved,
                Some((out, after)) => solved && after == final(self).state(*final(ast))
                    && resolved_models(final(resolved_stations)@) == resolved_models(old(resolved_stations)@) + emitted(out),
            },
        decreases station, 1nat,
    {
        let ghost before = resolved_stations@;
        match station {
            Node::Condition { branches, final_branch } => {
                proof {
                    assert(decreases_to!(station => branches));
                    assert(decreases_to!(branches => branches@));
                    assert(decreases_to!(station => final_branch));
                    assert(decreases_to!(final_branch => final_branch@));
                }
                let branches = match self.solve_branches(branches, ast, pipeline_context) {
                    Some(branches) => branches,
                    None => {
                        return false;
                    },
                };
                let final_branch = match self.solve(final_branch, ast, pipeline_context) {
                    Some(final_branch) => final_branch,
                    None => {
                        return false;
                    },
                };
                let node = ResolvedNode::Condition { branches, final_branch };
                proof { lemma_models_push(before, node); }
                resolved_stations.push(node);
                true
            },
            _ => false,
        }
    }

    /// Resolves condition branches in order, each its condition then its body.
    #[verifier::loop_isolation(false)]
    fn solve_branches(&mut self, branches: Vec<ConditionBranch<Node>>, ast: &mut AST, pipeline_context: PipelineContext) -> (result: Option<Vec<ConditionBranch<ResolvedNode>>>)
        requires
            old(self).symbol_table.wf(),
        ensures
            final(self).symbol_table.wf(),
            final(ast).arity == old(ast).arity,
            final(ast).nodes@ == old(ast).nodes@,
            match solution_of_branches(branches@, old(self).state(*old(ast)), pipeline_context) {
                None => result is None,
                Some((resolved, after)) => result matches Some(done) && resolved_branch_models(done@) == resolved
                    && after == final(self).state(*final(ast)),
            },
        decreases branches@, 0nat,
    {
        let ghost all = branches@;
        let ghost start = self.state(*ast);
        let mut rest = branches;
        let mut resolved: Vec<ConditionBranch<ResolvedNode>> = Vec::new();
        let ghost mut k: int = 0;
        proof {
            assert(all.subrange(0, all.len() as int) =~= all);
            if let Some((more, last)) = solution_of_branches(all, start, pipeline_context) {
                assert(Seq::<(Seq<ResolvedModel>, Seq<ResolvedModel>)>::empty() + more =~= more);
            }
        }
        while rest.len() > 0
            invariant
                0 <= k <= all.len(),
                rest@ == all.subrange(k, all.len() as int),
                self.symbol_table.wf(),
                ast.arity == old(ast).arity,
                ast.nodes@ == old(ast).nodes@,
                solution_of_branches(all, start, pipeline_context) == branches_before(
                    resolved_branch_models(resolved@),
                    solution_of_branches(rest@, self.state(*ast), pipeline_context),
                ),
            decreases rest.len(),
        {
            let ghost left = rest@;
            let ghost done = resolved@;
            let branch = rest.remove(0);
            proof {
                assert(branch == all[k]);
                assert(rest@ =~= left.drop_first());
                assert(rest@ =~= all.subrange(k + 1, all.len() as int));
                assert(decreases_to!(all => all[k]));
                assert(decreases_to!(all[k] => all[k].condition));
                assert(decreases_to!(all[k].condition => all[k].condition@));
                assert(decreases_to!(all[k] => all[k].body));
                assert(decreases_to!(all[k].body => all[k].body@));
            }
            let ConditionBranch { condition, body } = branch;
            let condition = match self.solve(condition, ast, pipeline_context) {
                Some(condition) => condition,
                None => {
                    return None;
                },
            };
            let body = match self.solve(body, ast, pipeline_context) {
                Some(body) => body,
                None => {
                    return None;
                },
            };
            let item = ConditionBranch { condition, body };
            resolved.push(item);
            proof {
                assert(resolved@.drop_last() =~= done);
                if let Some((more, last)) = solution_of_branches(rest@, self.state(*ast), pipeline_context) {
                    assert(resolved_branch_models(done) + (seq![(resolved_models(condition@), resolved_models(body@))] + more)
                        =~= resolved_branch_models(resolved@) + more);
                }
                k = k + 1;
            }
        }
        proof {
            assert(resolved_branch_models(resolved@) + Seq::<(Seq<ResolvedModel>, Seq<ResolvedModel>)>::empty() =~= resolved_branch_models(resolved@));
        }
        Some(resolved)
    }

    /// Inserts a capture after each station that a relative reference of the
    /// current pipeline names, the latest reference first; `false` where a
    /// named station does not exist.
    #[verifier::loop_isolation(false)]
    fn solve_relative_reference(&self, stations: &mut Vec<ResolvedNode>) -> (inserted: bool)
        ensures
            match captures_inserted(resolved_models(old(stations)@), self.symbol_table.pipeline@) {
                None => !inserted,
                Some(captured) => inserted && resolved_models(final(stations)@) == captured,
            },
    {
        let ghost pipeline = self.symbol_table.pipeline@;
        let ghost target = captures_inserted(resolved_models(stations@), pipeline);
        let mut i: usize = self.symbol_table.pipeline.len();
        assert(pipeline.take(i as int) =~= pipeline);
        while i > 0
            invariant
                i <= pipeline.len(),
                pipeline == self.symbol_table.pipeline@,
                target == captures_inserted(resolved_models(stations@), pipeline.take(i as int)),
                target == captures_inserted(resolved_models(old(stations)@), self.symbol_table.pipeline@),
            decreases i,
        {
            i = i - 1;
            let relative_reference = self.symbol_table.pipeline[i];
            let ghost taken = pipeline.take(i + 1);
            proof {
                assert(taken.drop_last() =~= pipeline.take(i as int));
                assert(taken[i as int] == relative_reference);
                lemma_resolved_models(stations@);
            }
            let at = relative_reference.index_in_stations as usize + 1;
            if at > stations.len() {
                return false;
            }
            let capture = ResolvedNode::StationCapture((i % 0x10000) as u16, relative_reference.variable_index);
            proof { lemma_models_insert(stations@, at as int, capture); }
            stations.insert(at, capture);
        }
        assert(pipeline.take(0) =~= Seq::<RelativeReference>::empty());
        true
    }

    /// Resolves consecutive nodes in `pipeline_context`; `None` where
    /// resolution gets stuck.
    #[verifier::loop_isolation(false)]
    fn solve(&mut self, stations: Vec<Node>, ast: &mut AST, pipeline_context: PipelineContext) -> (result: Option<Vec<ResolvedNode>>)
        requires
            old(self).symbol_table.wf(),
        ensures
            final(self).symbol_table.wf(),
            final(ast).arity == old(ast).arity,
            final(ast).nodes@ == old(ast).nodes@,
            match solution_of(stations@, old(self).state(*old(ast)), pipeline_context, 0) {
                None => result is None,
                Some((resolved, after)) => result matches Some(nodes) && resolved_models(nodes@) == resolved
                    && after == final(self).state(*final(ast)),
            },
        decreases stations@, 0nat,
    {
        let ghost all = stations@;
        let ghost start = self.state(*ast);
        let mut rest = stations;
        let mut resolved_stations: Vec<ResolvedNode> = Vec::new();
        let mut index: usize = 0;
        proof {
            assert(all.len() == rest.len());
            assert(all.subrange(0, all.len() as int) =~= all);
            lemma_prepend_empty(solution_of(all, start, pipeline_context, 0));
        }
        while rest.len() > 0
            invariant
                index <= all.len(),
                rest@ == all.subrange(index as int, all.len() as int),
                self.symbol_table.wf(),
                ast.arity == old(ast).arity,
                ast.nodes@ == old(ast).nodes@,
                solution_of(all, start, pipeline_context, 0) == prepend(
                    resolved_models(resolved_stations@),
                    solution_of(rest@, self.state(*ast), pipeline_context, index as int),
                ),
            decreases rest.len(),
        {
            let ghost left = rest@;
            let ghost mid = self.state(*ast);
            let ghost before = resolved_stations@;
            let station = rest.remove(0);
            proof {
                assert(station == all[index as int]);
                assert(decreases_to!(all => all[index as int]));
                assert(rest@ =~= left.drop_first());
                assert(rest@ =~= all.subrange(index + 1, all.len() as int));
            }
            let context = match pipeline_context {
                PipelineContext::InPipeline { .. } => PipelineContext::InPipeline { station_index: index },
                other => other,
            };
            assert(context == context_at(pipeline_context, index as int));
            if !self.solve_node(station, ast, &mut resolved_stations, context) {
                return None;
            }
            proof {
                let (out, _) = solution_of_node(station, mid, context).unwrap();
                lemma_prepend_twice(
                    resolved_models(before),
                    emitted(out),
                    solution_of(rest@, self.state(*ast), pipeline_context, index + 1),
                );
            }
            index += 1;
        }
        proof {
            assert(resolved_models(resolved_stations@) + Seq::<ResolvedModel>::empty() =~= resolved_models(resolved_stations@));
        }
        Some(resolved_stations)
    }

    /// Resolves one node and appends what it resolves to; `false` where
    /// resolution gets stuck.
    fn solve_node(&mut self, station: Node, ast: &mut AST, resolved_stations: &mut Vec<ResolvedNode>, pipeline_context: PipelineContext) -> (solved: bool)
        requires
            old(self).symbol_table.wf(),
        ensures
            final(self).symbol_table.wf(),
            final(ast).arity == old(ast).arity,
            final(ast).nodes@ == old(ast).nodes@,
            match solution_of_node(station, old(self).state(*old(ast)), pipeline_context) {
                None => !solved,
                Some((out, after)) => solved && after == final(self).state(*final(ast))
                    && resolved_models(final(resolved_stations)@) == resolved_models(old(resolved_stations)@) + emitted(out),
            },
        decreases station, 2nat,
    {
        let ghost before = resolved_stations@;
        let ghost errors = self.error_handler.errors@;
        match station {
            Node::Literal(value) => {
                proof { lemma_models_push(before, ResolvedNode::Literal(value)); }
                resolved_stations.push(ResolvedNode::Literal(value));
                true
            },
            Node::HeavyLiteral(value) => {
                proof { lemma_models_push(before, ResolvedNode::HeavyLiteral(value)); }
                resolved_stations.push(ResolvedNode::HeavyLiteral(value));
                true
            },
            Node::RelativeReference(_, _) => self.solve_reference(station, ast, resolved_stations, pipeline_context),
            Node::Apply { .. } => self.solve_apply(station, ast, resolved_stations, pipeline_context),
            Node::SoftAssignment(_) | Node::Assignment(_, _) => self.solve_assignment(station, ast, resolved_stations, pipeline_context),
            Node::Variable(name) => match self.symbol_table.resolve(name.as_str()) {
                Ok(SymbolType::VariableScope(index, variable_index)) => {
                    proof { lemma_models_push(before, ResolvedNode::Variable(index, variable_index)); }
                    resolved_stations.push(ResolvedNode::Variable(index, variable_index));
                    true
                },
                Err(error) => {
                    proof { lemma_error_models_push(errors, Error::SemanticError(error)); }
                    self.error_handler.push_error(Error::SemanticError(error));
                    assert(resolved_models(before) + Seq::<ResolvedModel>::empty() =~= resolved_models(before));
                    true
                },
                _ => false,
            },
            Node::DefineFunction { .. } => self.solve_define_function(station, ast, resolved_stations, pipeline_context),
            Node::Pipeline(_) => self.solve_pipeline(station, ast, resolved_stations, pipeline_context),
            Node::Condition { .. } => self.solve_condition(station, ast, resolved_stations, pipeline_context),
            Node::Return(_) => self.solve_return(station, ast, resolved_stations, pipeline_context),
            Node::Array(elements) => {
                proof {
                    assert(decreases_to!(station => elements));
                    assert(decreases_to!(elements => elements@));
                }
                match self.solve(elements, ast, pipeline_context) {
                    Some(elements) => {
                        proof { lemma_models_push(before, ResolvedNode::Array(elements)); }
                        resolved_stations.push(ResolvedNode::Array(elements));
                        true
                    },
                    None => false,
                }
            },
        }
    }

    /// Resolves a relative reference to the capture of the station it names.
    fn solve_reference(&mut self, station: Node, ast: &mut AST, resolved_stations: &mut Vec<ResolvedNode>, pipeline_context: PipelineContext) -> (solved: bool)
        requires
            old(self).symbol_table.wf(),
            station is RelativeReference,
        ensures
            final(self).symbol_table.wf(),
            final(ast).arity == old(ast).arity,
            final(ast).nodes@ == old(ast).nodes@,
            match solution_of_node(station, old(self).state(*old(ast)), pipeline_context) {
                None => !solved,
                Some((out, after)) => solved && after == final(self).state(*final(ast))
                    && resolved_models(final(resolved_stations)@) == resolved_models(old(resolved_stations)@) + emitted(out),
            },
        decreases station, 1nat,
    {
        let ghost before = resolved_stations@;
        let ghost errors = self.error_handler.errors@;
        match station {
            Node::RelativeReference(x, y) => {
                let station_index = match pipeline_context {
                    PipelineContext::NotInPipeline => {
                        let error = Error::SemanticError(SemanticError { kind: SemanticErrorType::RelativeReferenceNotInPipeline });
                        proof { lemma_error_models_push(errors, error); }
                        self.error_handler.push_error(error);
                        assert(resolved_models(before) + Seq::<ResolvedModel>::empty() =~= resolved_models(before));
                        return true;
                    },
                    PipelineContext::InPipeline { station_index } => station_index,
                    PipelineContext::InStation { station_index } => station_index,
                };
                if station_index < x as usize {
                    let error = Error::SemanticError(SemanticError { kind: SemanticErrorType::MissingStation((station_index % 0x10000) as u16) });
                    proof { lemma_error_models_push(errors, error); }
                    self.error_handler.push_error(error);
                    assert(resolved_models(before) + Seq::<ResolvedModel>::empty() =~= resolved_models(before));
                    return true;
                }
                let wrapped = (station_index % 0x10000) as u16;
                if wrapped < x {
                    return false;
                }
                match self.symbol_table.add_relative_reference(wrapped - x, Kind::Undefined) {
                    SymbolType::VariableScope(index, variable_index) => {
                        proof { lemma_models_push(before, ResolvedNode::RelativeReference(index, y, variable_index)); }
                        resolved_stations.push(ResolvedNode::RelativeReference(index, y, variable_index));
                        true
                    },
                    _ => false,
                }
            },
            _ => false,
        }
    }

    /// Resolves a call to the builtin or user function its name stands for.
    fn solve_apply(&mut self, station: Node, ast: &mut AST, resolved_stations: &mut Vec<ResolvedNode>, pipeline_context: PipelineContext) -> (solved: bool)
        requires
            old(self).symbol_table.wf(),
            station is Apply,
        ensures
            final(self).symbol_table.wf(),
            final(ast).arity == old(ast).arity,
            final(ast).nodes@ == old(ast).nodes@,
            match solution_of_node(station, old(self).state(*old(ast)), pipeline_context) {
                None => !solved,
                Some((out, after)) => solved && after == final(self).state(*final(ast))
                    && resolved_models(final(resolved_stations)@) == resolved_models(old(resolved_stations)@) + emitted(out),
            },
        decreases station, 1nat,
    {
        let ghost before = resolved_stations@;
        let ghost errors = self.error_handler.errors@;
        match station {
            Node::Apply { operator, arguments } => {
                proof {
                    assert(decreases_to!(station => arguments));
                    assert(decreases_to!(arguments => arguments@));
                }
                let station_context = match pipeline_context {
                    PipelineContext::InPipeline { station_index } => PipelineContext::InStation { station_index },
                    anything_else => anything_else,
                };
                match self.symbol_table.resolve(operator.as_str()) {
                    Ok(SymbolType::Builtin(index)) => match self.solve(arguments, ast, station_context) {
                        Some(arguments) => {
                            proof { lemma_models_push(before, ResolvedNode::BuiltinCall { index, arguments }); }
                            resolved_stations.push(ResolvedNode::BuiltinCall { index, arguments });
                            true
                        },
                        None => false,
                    },
                    Ok(SymbolType::FunctionScope(function_index)) => match self.solve(arguments, ast, station_context) {
                        Some(arguments) => {
                            proof { lemma_models_push(before, ResolvedNode::Call { arguments, function_index }); }
                            resolved_stations.push(ResolvedNode::Call { arguments, function_index });
                            true
                        },
                        None => false,
                    },
                    Ok(SymbolType::VariableScope(_, _)) => {
                        let error = Error::TypeError(TypeError { kind: TypeErrorType::NotAFunction(operator) });
                        proof { lemma_error_models_push(errors, error); }
                        self.error_handler.push_error(error);
                        assert(resolved_models(before) + Seq::<ResolvedModel>::empty() =~= resolved_models(before));
                        true
                    },
                    Err(error) => {
                        proof { lemma_error_models_push(errors, Error::SemanticError(error)); }
                        self.error_handler.push_error(Error::SemanticError(error));
                        assert(resolved_models(before) + Seq::<ResolvedModel>::empty() =~= resolved_models(before));
                        true
                    },
                }
            },
            _ => false,
        }
    }

    /// Resolves an assignment, binding its name in the innermost scope.
    fn solve_assignment(&mut self, station: Node, ast: &mut AST, resolved_stations: &mut Vec<ResolvedNode>, pipeline_context: PipelineContext) -> (solved: bool)
        requires
            old(self).symbol_table.wf(),
            station is SoftAssignment || station is Assignment,
        ensures
            final(self).symbol_table.wf(),
            final(ast).arity == old(ast).arity,
            final(ast).nodes@ == old(ast).nodes@,
            match solution_of_node(station, old(self).state(*old(ast)), pipeline_context) {
                None => !solved,
                Some((out, after)) => solved && after == final(self).state(*final(ast))
                    && resolved_models(final(resolved_stations)@) == resolved_models(old(resolved_stations)@) + emitted(out),
            },
        decreases station, 1nat,
    {
        let ghost before = resolved_stations@;
        let ghost errors = self.error_handler.errors@;
        match station {
            Node::SoftAssignment(name) => {
                assert(self.symbol_table.scopes_view().len() == self.symbol_table.scopes@.len());
                if self.symbol_table.scopes.len() == 0 {
                    return false;
                }
                match self.symbol_table.add_variable(name, Kind::Undefined) {
                    Ok(SymbolType::VariableScope(index, variable_index)) => {
                        proof { lemma_models_push(before, ResolvedNode::SoftAssignment(index, variable_index)); }
                        resolved_stations.push(ResolvedNode::SoftAssignment(index, variable_index));
                        if ast.variables_count == u16::MAX {
                            return false;
                        }
                        ast.variables_count = ast.variables_count + 1;
                        true
                    },
                    Err(SymbolType::VariableScope(index, variable_index)) => {
                        proof { lemma_models_push(before, ResolvedNode::SoftAssignment(index, variable_index)); }
                        resolved_stations.push(ResolvedNode::SoftAssignment(index, variable_index));
                        true
                    },
                    _ => false,
                }
            },
            Node::Assignment(name, kind) => {
                assert(self.symbol_table.scopes_view().len() == self.symbol_table.scopes@.len());
                if self.symbol_table.scopes.len() == 0 {
                    return false;
                }
                match self.symbol_table.add_variable(name, kind) {
                    Ok(SymbolType::VariableScope(index, variable_index)) => {
                        proof { lemma_models_push(before, ResolvedNode::Assignment(index, variable_index, kind)); }
                        resolved_stations.push(ResolvedNode::Assignment(index, variable_index, kind));
                        if ast.variables_count == u16::MAX {
                            return false;
                        }
                        ast.variables_count = ast.variables_count + 1;
                        true
                    },
                    Err(SymbolType::VariableScope(index, variable_index)) => {
                        proof { lemma_models_push(before, ResolvedNode::Assignment(index, variable_index, kind)); }
                        resolved_stations.push(ResolvedNode::Assignment(index, variable_index, kind));
                        true
                    },
                    _ => false,
                }
            },
            _ => false,
        }
    }

    /// Resolves a returned value, resolved as the first station of its context.
    fn solve_return(&mut self, station: Node, ast: &mut AST, resolved_stations: &mut Vec<ResolvedNode>, pipeline_context: PipelineContext) -> (solved: bool)
        requires
            old(self).symbol_table.wf(),
            station is Return,
        ensures
            final(self).symbol_table.wf(),
            final(ast).arity == old(ast).arity,
            final(ast).nodes@ == old(ast).nodes@,
            match solution_of_node(station, old(self).state(*old(ast)), pipeline_context) {
                None => !solved,
                Some((out, after)) => solved && after == final(self).state(*final(ast))
                    && resolved_models(final(resolved_stations)@) == resolved_models(old(resolved_stations)@) + emitted(out),
            },
        decreases station, 1nat,
    {
        let ghost before = resolved_stations@;
        let ghost errors = self.error_handler.errors@;
        match station {
            Node::Return(value) => {
                let context = match pipeline_context {
                    PipelineContext::InPipeline { .. } => PipelineContext::InPipeline { station_index: 0 },
                    other => other,
                };
                let ghost inner = solution_of_node(*value, old(self).state(*old(ast)), context);
                let mut out: Vec<ResolvedNode> = Vec::new();
                if !self.solve_node(*value, ast, &mut out, context) {
                    return false;
                }
                let ghost produced = out@;
                proof {
                    lemma_resolved_models(produced);
                    assert(Seq::<ResolvedModel>::empty() + emitted(inner.unwrap().0) =~= resolved_models(produced));
                }
                match out.pop() {
                    Some(returned) => {
                        proof {
                            assert(returned == produced[0]);
                            assert(resolved_models(produced)[0] == resolved_model(returned));
                            match inner.unwrap().0 {
                                Some(m) => assert(emitted(Some(m))[0] == m),
                                None => assert(emitted(inner.unwrap().0).len() == 0),
                            }
                            assert(inner.unwrap().0 == Some(resolved_model(returned)));
                            lemma_models_push(before, ResolvedNode::Return(Box::new(returned)));
                        }
                        resolved_stations.push(ResolvedNode::Return(Box::new(returned)));
                        true
                    },
                    None => false,
                }
            },
            _ => false,
        }
    }
}

} // verus!
