use vstd::prelude::*;
use crate::constants_pool::{distinct, heavy_text, heavy_texts, with_constant, with_text, ConstantsPool};
use crate::instructions::{Chunk, Instruction};
use crate::node::{ConditionBranch, TypedAST, TypedNode};
use crate::value::{kind_code, HeavyValue, Kind, LightValue};

verus! {

/// The first position of `x` in `s`, or the length of `s`.
pub open spec fn position_of<T>(s: Seq<T>, x: T) -> int
    decreases s.len(),
{
    if s.len() == 0 {
        0
    } else if s[0] == x {
        0
    } else {
        1 + position_of(s.drop_first(), x)
    }
}

/// The instruction that loads a light literal, given the final constants.
pub open spec fn load_literal(value: LightValue, constants: Seq<LightValue>) -> Instruction {
    Instruction::Load(position_of(constants, value) as u32)
}

/// The instruction that loads a string literal, given the final constants
/// and heavy texts.
pub open spec fn load_heavy(value: HeavyValue, constants: Seq<LightValue>, heavy: Seq<Seq<char>>) -> Instruction {
    Instruction::Load(position_of(
        constants,
        LightValue::StringPointer((position_of(heavy, heavy_text(value)) % 0x1_0000_0000) as u32),
    ) as u32)
}

/// The instructions that follow the code of the arguments of an operator.
pub open spec fn operator_tail(node: TypedNode) -> Seq<Instruction> {
    match node {
        TypedNode::BuiltinCall { index, arguments, .. } => seq![Instruction::BuiltinCall(index, arguments@.len() as u16)],
        TypedNode::Call { function_index, .. } => seq![Instruction::Call(function_index as u16)],
        TypedNode::Array(elements) => seq![Instruction::Array(elements@.len() as u32)],
        TypedNode::Add(arguments, kind, _) => seq![Instruction::Add(arguments@.len() as u16, kind)],
        TypedNode::Minus(arguments, kind, _) => seq![Instruction::Minus(arguments@.len() as u16, kind)],
        TypedNode::Multiply(arguments, kind, _) => seq![Instruction::Multiply(arguments@.len() as u16, kind)],
        TypedNode::Equal(arguments, kind, _) => seq![Instruction::Equal(arguments@.len() as u16, kind)],
        TypedNode::LessThan(arguments, kind, _) => seq![Instruction::LessThan(arguments@.len() as u16, kind)],
        TypedNode::GreaterThan(arguments, kind, _) => seq![
            Instruction::Reverse(arguments@.len() as u16),
            Instruction::LessThan(arguments@.len() as u16, kind),
        ],
        TypedNode::LessThanOrEqual(arguments, kind, _) => seq![
            Instruction::Reverse(arguments@.len() as u16),
            Instruction::LessThan(arguments@.len() as u16, kind),
            Instruction::Not,
        ],
        TypedNode::GreaterThanOrEqual(arguments, kind, _) => seq![
            Instruction::LessThan(arguments@.len() as u16, kind),
            Instruction::Not,
        ],
        TypedNode::NotEqual(arguments, kind, _) => seq![
            Instruction::Equal(arguments@.len() as u16, kind),
            Instruction::Not,
        ],
        _ => Seq::empty(),
    }
}

/// The operands of a node whose code is its operands' code and a tail.
pub open spec fn operands(node: TypedNode) -> Option<Seq<TypedNode>> {
    match node {
        TypedNode::BuiltinCall { arguments, .. } => Some(arguments@),
        TypedNode::Call { arguments, .. } => Some(arguments@),
        TypedNode::Array(elements) => Some(elements@),
        TypedNode::Add(arguments, _, _) => Some(arguments@),
        TypedNode::Minus(arguments, _, _) => Some(arguments@),
        TypedNode::Multiply(arguments, _, _) => Some(arguments@),
        TypedNode::Equal(arguments, _, _) => Some(arguments@),
        TypedNode::LessThan(arguments, _, _) => Some(arguments@),
        TypedNode::GreaterThan(arguments, _, _) => Some(arguments@),
        TypedNode::LessThanOrEqual(arguments, _, _) => Some(arguments@),
        TypedNode::GreaterThanOrEqual(arguments, _, _) => Some(arguments@),
        TypedNode::NotEqual(arguments, _, _) => Some(arguments@),
        _ => None,
    }
}

/// The code of a node placed at instruction position `at`. Loads name the
/// position of their constant in `constants`; a function definition emits
/// nothing in place.
pub open spec fn node_code(node: TypedNode, constants: Seq<LightValue>, heavy: Seq<Seq<char>>, at: int) -> Seq<Instruction>
    decreases node, 0nat,
{
    match node {
        TypedNode::Literal(value) => seq![load_literal(value, constants)],
        TypedNode::HeavyLiteral(value) => seq![load_heavy(value, constants, heavy)],
        TypedNode::RelativeReference(x, y, _) => seq![Instruction::RelativeReference(x, y)],
        TypedNode::StationCapture(index, _) => seq![Instruction::StationCapture(index)],
        TypedNode::Assignment(index, kind) => seq![Instruction::Store(index, kind_code(kind))],
        TypedNode::Variable(index, _) => seq![Instruction::LoadVariable(index)],
        TypedNode::DefineFunction { .. } => Seq::empty(),
        TypedNode::Pipeline(stations) => nodes_code(stations@, constants, heavy, at),
        TypedNode::Condition { branches, final_branch } => {
            let branches_len = branches_code(branches@, constants, heavy, at, 0).len();
            let final_code = nodes_code(final_branch@, constants, heavy, at + branches_len);
            branches_code(branches@, constants, heavy, at, at + branches_len + final_code.len()) + final_code
        },
        TypedNode::Return(value) => node_code(*value, constants, heavy, at).push(Instruction::Return),
        TypedNode::BuiltinCall { arguments, .. } => nodes_code(arguments@, constants, heavy, at) + operator_tail(node),
        TypedNode::Call { arguments, .. } => nodes_code(arguments@, constants, heavy, at) + operator_tail(node),
        TypedNode::Array(elements) => nodes_code(elements@, constants, heavy, at) + operator_tail(node),
        TypedNode::Add(arguments, _, _) => nodes_code(arguments@, constants, heavy, at) + operator_tail(node),
        TypedNode::Minus(arguments, _, _) => nodes_code(arguments@, constants, heavy, at) + operator_tail(node),
        TypedNode::Multiply(arguments, _, _) => nodes_code(arguments@, constants, heavy, at) + operator_tail(node),
        TypedNode::Equal(arguments, _, _) => nodes_code(arguments@, constants, heavy, at) + operator_tail(node),
        TypedNode::LessThan(arguments, _, _) => nodes_code(arguments@, constants, heavy, at) + operator_tail(node),
        TypedNode::GreaterThan(arguments, _, _) => nodes_code(arguments@, constants, heavy, at) + operator_tail(node),
        TypedNode::LessThanOrEqual(arguments, _, _) => nodes_code(arguments@, constants, heavy, at) + operator_tail(node),
        TypedNode::GreaterThanOrEqual(arguments, _, _) => nodes_code(arguments@, constants, heavy, at) + operator_tail(node),
        TypedNode::NotEqual(arguments, _, _) => nodes_code(arguments@, constants, heavy, at) + operator_tail(node),
    }
}

/// The code of consecutive nodes placed at position `at`.
pub open spec fn nodes_code(nodes: Seq<TypedNode>, constants: Seq<LightValue>, heavy: Seq<Seq<char>>, at: int) -> Seq<Instruction>
    decreases nodes, 0nat,
{
    if nodes.len() == 0 {
        Seq::empty()
    } else {
        let before = nodes_code(nodes.drop_last(), constants, heavy, at);
        before + node_code(nodes.last(), constants, heavy, at + before.len())
    }
}

/// The code of condition branches placed at `at`, where `end` is the
/// position just past the whole condition. Each branch is its condition,
/// a jump past the branch when the condition is false, its body, and a jump
/// to `end`.
pub open spec fn branches_code(branches: Seq<ConditionBranch<TypedNode>>, constants: Seq<LightValue>, heavy: Seq<Seq<char>>, at: int, end: int) -> Seq<Instruction>
    decreases branches, 0nat,
{
    if branches.len() == 0 {
        Seq::empty()
    } else {
        let before = branches_code(branches.drop_last(), constants, heavy, at, end);
        let start = at + before.len();
        let condition = nodes_code(branches.last().condition@, constants, heavy, start);
        let body = nodes_code(branches.last().body@, constants, heavy, start + condition.len() + 1);
        let next = start + condition.len() + body.len() + 2;
        before + condition.push(Instruction::JumpIfFalse(next as u16)) + body.push(Instruction::Jump(end as u16))
    }
}

/// The code of a condition placed at `at`: its branches, then its final
/// branch; every completed branch jumps past the final branch.
pub open spec fn condition_code(branches: Seq<ConditionBranch<TypedNode>>, final_branch: Seq<TypedNode>, constants: Seq<LightValue>, heavy: Seq<Seq<char>>, at: int) -> Seq<Instruction> {
    let branches_len = branches_code(branches, constants, heavy, at, 0).len();
    let final_code = nodes_code(final_branch, constants, heavy, at + branches_len);
    branches_code(branches, constants, heavy, at, at + branches_len + final_code.len()) + final_code
}

/// The positions of the jumps to the end in the code of condition branches.
pub open spec fn end_jumps(branches: Seq<ConditionBranch<TypedNode>>, constants: Seq<LightValue>, heavy: Seq<Seq<char>>, at: int) -> Seq<int>
    decreases branches.len(),
{
    if branches.len() == 0 {
        Seq::empty()
    } else {
        end_jumps(branches.drop_last(), constants, heavy, at).push(at + branches_code(branches, constants, heavy, at, 0).len() - 1)
    }
}

/// A chunk as its instructions and frame layout.
pub type ChunkModel = (Seq<Instruction>, u8, u16);

/// The model of a chunk.
pub open spec fn chunk_model(chunk: Chunk) -> ChunkModel {
    (chunk.instructions@, chunk.arity, chunk.variables_count)
}

/// The models of the chunks of each function.
pub open spec fn functions_model(functions: Seq<Vec<Chunk>>) -> Seq<Seq<ChunkModel>> {
    functions.map_values(|chunks: Vec<Chunk>| chunks@.map_values(|chunk: Chunk| chunk_model(chunk)))
}

/// The code of a pipeline that forms a chunk of its own.
pub open spec fn pipeline_code(pipeline: TypedNode, constants: Seq<LightValue>, heavy: Seq<Seq<char>>) -> Seq<Instruction> {
    match pipeline {
        TypedNode::Pipeline(stations) => nodes_code(stations@, constants, heavy, 0),
        _ => Seq::empty(),
    }
}

/// The chunks of a function body: one per pipeline.
pub open spec fn body_chunks(body: TypedAST, constants: Seq<LightValue>, heavy: Seq<Seq<char>>) -> Seq<ChunkModel> {
    body.nodes@.map_values(|pipeline: TypedNode| (pipeline_code(pipeline, constants, heavy), body.arity, body.variables_count))
}

/// The function bodies after emitting a node: each function definition,
/// once its own body is emitted, stores that body.
pub open spec fn node_writes(functions: Seq<Seq<ChunkModel>>, node: TypedNode, constants: Seq<LightValue>, heavy: Seq<Seq<char>>) -> Seq<Seq<ChunkModel>>
    decreases node, 0nat,
{
    match node {
        TypedNode::DefineFunction { function_index, body } => nodes_writes(functions, body.nodes@, constants, heavy)
            .update(function_index as int, body_chunks(body, constants, heavy)),
        TypedNode::Pipeline(stations) => nodes_writes(functions, stations@, constants, heavy),
        TypedNode::Condition { branches, final_branch } => nodes_writes(
            branches_writes(functions, branches@, constants, heavy), final_branch@, constants, heavy),
        TypedNode::Return(value) => node_writes(functions, *value, constants, heavy),
        TypedNode::BuiltinCall { arguments, .. } => nodes_writes(functions, arguments@, constants, heavy),
        TypedNode::Call { arguments, .. } => nodes_writes(functions, arguments@, constants, heavy),
        TypedNode::Array(elements) => nodes_writes(functions, elements@, constants, heavy),
        TypedNode::Add(arguments, _, _) => nodes_writes(functions, arguments@, constants, heavy),
        TypedNode::Minus(arguments, _, _) => nodes_writes(functions, arguments@, constants, heavy),
        TypedNode::Multiply(arguments, _, _) => nodes_writes(functions, arguments@, constants, heavy),
        TypedNode::Equal(arguments, _, _) => nodes_writes(functions, arguments@, constants, heavy),
        TypedNode::LessThan(arguments, _, _) => nodes_writes(functions, arguments@, constants, heavy),
        TypedNode::GreaterThan(arguments, _, _) => nodes_writes(functions, arguments@, constants, heavy),
        TypedNode::LessThanOrEqual(arguments, _, _) => nodes_writes(functions, arguments@, constants, heavy),
        TypedNode::GreaterThanOrEqual(arguments, _, _) => nodes_writes(functions, arguments@, constants, heavy),
        TypedNode::NotEqual(arguments, _, _) => nodes_writes(functions, arguments@, constants, heavy),
        _ => functions,
    }
}

/// The function bodies after emitting consecutive nodes.
pub open spec fn nodes_writes(functions: Seq<Seq<ChunkModel>>, nodes: Seq<TypedNode>, constants: Seq<LightValue>, heavy: Seq<Seq<char>>) -> Seq<Seq<ChunkModel>>
    decreases nodes, 0nat,
{
    if nodes.len() == 0 {
        functions
    } else {
        node_writes(nodes_writes(functions, nodes.drop_last(), constants, heavy), nodes.last(), constants, heavy)
    }
}

/// The function bodies after emitting condition branches, each its
/// condition and then its body.
pub open spec fn branches_writes(functions: Seq<Seq<ChunkModel>>, branches: Seq<ConditionBranch<TypedNode>>, constants: Seq<LightValue>, heavy: Seq<Seq<char>>) -> Seq<Seq<ChunkModel>>
    decreases branches, 0nat,
{
    if branches.len() == 0 {
        functions
    } else {
        let before = branches_writes(functions, branches.drop_last(), constants, heavy);
        nodes_writes(nodes_writes(before, branches.last().condition@, constants, heavy), branches.last().body@, constants, heavy)
    }
}

/// What emitting a literal asks of the pool: a light constant, or the text
/// of a string.
pub enum PoolItem {
    Light(LightValue),
    Heavy(Seq<char>),
}

/// The literals of a node, in the order they are emitted: its own, those of
/// its operands, those of a condition's branches (condition, then body) and
/// final branch, and those of a defined function's body.
pub open spec fn node_items(node: TypedNode) -> Seq<PoolItem>
    decreases node, 0nat,
{
    match node {
        TypedNode::Literal(value) => seq![PoolItem::Light(value)],
        TypedNode::HeavyLiteral(value) => seq![PoolItem::Heavy(heavy_text(value))],
        TypedNode::DefineFunction { body, .. } => nodes_items(body.nodes@),
        TypedNode::Pipeline(stations) => nodes_items(stations@),
        TypedNode::Condition { branches, final_branch } => branches_items(branches@) + nodes_items(final_branch@),
        TypedNode::Return(value) => node_items(*value),
        TypedNode::BuiltinCall { arguments, .. } => nodes_items(arguments@),
        TypedNode::Call { arguments, .. } => nodes_items(arguments@),
        TypedNode::Array(elements) => nodes_items(elements@),
        TypedNode::Add(arguments, _, _) => nodes_items(arguments@),
        TypedNode::Minus(arguments, _, _) => nodes_items(arguments@),
        TypedNode::Multiply(arguments, _, _) => nodes_items(arguments@),
        TypedNode::Equal(arguments, _, _) => nodes_items(arguments@),
        TypedNode::LessThan(arguments, _, _) => nodes_items(arguments@),
        TypedNode::GreaterThan(arguments, _, _) => nodes_items(arguments@),
        TypedNode::LessThanOrEqual(arguments, _, _) => nodes_items(arguments@),
        TypedNode::GreaterThanOrEqual(arguments, _, _) => nodes_items(arguments@),
        TypedNode::NotEqual(arguments, _, _) => nodes_items(arguments@),
        _ => Seq::empty(),
    }
}

/// The literals of consecutive nodes, in emission order.
pub open spec fn nodes_items(nodes: Seq<TypedNode>) -> Seq<PoolItem>
    decreases nodes, 0nat,
{
    if nodes.len() == 0 {
        Seq::empty()
    } else {
        nodes_items(nodes.drop_last()) + node_items(nodes.last())
    }
}

/// The literals of condition branches, each its condition then its body.
pub open spec fn branches_items(branches: Seq<ConditionBranch<TypedNode>>) -> Seq<PoolItem>
    decreases branches, 0nat,
{
    if branches.len() == 0 {
        Seq::empty()
    } else {
        branches_items(branches.drop_last()) + nodes_items(branches.last().condition@) + nodes_items(branches.last().body@)
    }
}

/// A pool as its constants and its heavy texts.
pub open spec fn pool_model(pool: ConstantsPool) -> (Seq<LightValue>, Seq<Seq<char>>) {
    (pool.constants@, heavy_texts(pool.heavy_constants@))
}

/// The pool after one literal is added: a light constant once; a text once,
/// then a pointer to its position as a constant, once.
pub open spec fn item_added(pool: (Seq<LightValue>, Seq<Seq<char>>), item: PoolItem) -> (Seq<LightValue>, Seq<Seq<char>>) {
    match item {
        PoolItem::Light(value) => (with_constant(pool.0, value), pool.1),
        PoolItem::Heavy(text) => {
            let texts = with_text(pool.1, text);
            (with_constant(pool.0, LightValue::StringPointer((position_of(texts, text) % 0x1_0000_0000) as u32)), texts)
        },
    }
}

/// The pool after literals are added in order.
pub open spec fn items_added(pool: (Seq<LightValue>, Seq<Seq<char>>), items: Seq<PoolItem>) -> (Seq<LightValue>, Seq<Seq<char>>)
    decreases items.len(),
{
    if items.len() == 0 {
        pool
    } else {
        item_added(items_added(pool, items.drop_last()), items.last())
    }
}

/// Adding two runs of literals is adding the first, then the second.
pub proof fn lemma_items_concat(pool: (Seq<LightValue>, Seq<Seq<char>>), a: Seq<PoolItem>, b: Seq<PoolItem>)
    ensures
        items_added(pool, a + b) == items_added(items_added(pool, a), b),
    decreases b.len(),
{
    if b.len() == 0 {
        assert(a + b =~= a);
    } else {
        lemma_items_concat(pool, a, b.drop_last());
        assert((a + b).drop_last() =~= a + b.drop_last());
        assert((a + b).last() == b.last());
    }
}

/// The literals of an operator are those of its operands.
pub proof fn lemma_operator_items(node: TypedNode)
    requires
        operands(node) is Some,
    ensures
        node_items(node) == nodes_items(operands(node)->0),
{
}

/// Adding no literal leaves the pool.
pub proof fn lemma_items_none(pool: (Seq<LightValue>, Seq<Seq<char>>))
    ensures
        items_added(pool, Seq::<PoolItem>::empty()) == pool,
        nodes_items(Seq::<TypedNode>::empty()) == Seq::<PoolItem>::empty(),
        branches_items(Seq::<ConditionBranch<TypedNode>>::empty()) == Seq::<PoolItem>::empty(),
{
}

/// Adding one literal.
pub proof fn lemma_items_single(pool: (Seq<LightValue>, Seq<Seq<char>>), item: PoolItem)
    ensures
        items_added(pool, seq![item]) == item_added(pool, item),
{
    assert(seq![item].drop_last() =~= Seq::<PoolItem>::empty());
    assert(items_added(pool, Seq::<PoolItem>::empty()) == pool);
    assert(seq![item].last() == item);
}

/// The literals of one more node follow those of the nodes before it.
pub proof fn lemma_nodes_items_take(nodes: Seq<TypedNode>, i: int)
    requires
        0 <= i < nodes.len(),
    ensures
        nodes_items(nodes.take(i + 1)) == nodes_items(nodes.take(i)) + node_items(nodes[i]),
{
    assert(nodes.take(i + 1).drop_last() =~= nodes.take(i));
    assert(nodes.take(i + 1).last() == nodes[i]);
}

/// The literals of one more branch follow those of the branches before it.
pub proof fn lemma_branches_items_take(branches: Seq<ConditionBranch<TypedNode>>, i: int)
    requires
        0 <= i < branches.len(),
    ensures
        branches_items(branches.take(i + 1)) == branches_items(branches.take(i)) + nodes_items(branches[i].condition@)
            + nodes_items(branches[i].body@),
{
    assert(branches.take(i + 1).drop_last() =~= branches.take(i));
    assert(branches.take(i + 1).last() == branches[i]);
}

/// Whether a node can be emitted into a program with `count` functions:
/// every function definition names one of them and its body is made of
/// pipelines.
pub open spec fn node_emittable(node: TypedNode, count: int) -> bool
    decreases node, 0nat,
{
    match node {
        TypedNode::DefineFunction { function_index, body } => function_index < count
            && (forall|i: int| 0 <= i < body.nodes@.len() ==> #[trigger] body.nodes@[i] is Pipeline)
            && nodes_emittable(body.nodes@, count),
        TypedNode::Pipeline(stations) => nodes_emittable(stations@, count),
        TypedNode::Condition { branches, final_branch } => branches_emittable(branches@, count)
            && nodes_emittable(final_branch@, count),
        TypedNode::Return(value) => node_emittable(*value, count),
        TypedNode::BuiltinCall { arguments, .. } => nodes_emittable(arguments@, count),
        TypedNode::Call { arguments, .. } => nodes_emittable(arguments@, count),
        TypedNode::Array(elements) => nodes_emittable(elements@, count),
        TypedNode::Add(arguments, _, _) => nodes_emittable(arguments@, count),
        TypedNode::Minus(arguments, _, _) => nodes_emittable(arguments@, count),
        TypedNode::Multiply(arguments, _, _) => nodes_emittable(arguments@, count),
        TypedNode::Equal(arguments, _, _) => nodes_emittable(arguments@, count),
        TypedNode::LessThan(arguments, _, _) => nodes_emittable(arguments@, count),
        TypedNode::GreaterThan(arguments, _, _) => nodes_emittable(arguments@, count),
        TypedNode::LessThanOrEqual(arguments, _, _) => nodes_emittable(arguments@, count),
        TypedNode::GreaterThanOrEqual(arguments, _, _) => nodes_emittable(arguments@, count),
        TypedNode::NotEqual(arguments, _, _) => nodes_emittable(arguments@, count),
        _ => true,
    }
}

/// Whether consecutive nodes can be emitted.
pub open spec fn nodes_emittable(nodes: Seq<TypedNode>, count: int) -> bool
    decreases nodes, 0nat,
{
    if nodes.len() == 0 {
        true
    } else {
        nodes_emittable(nodes.drop_last(), count) && node_emittable(nodes.last(), count)
    }
}

/// Whether condition branches can be emitted.
pub open spec fn branches_emittable(branches: Seq<ConditionBranch<TypedNode>>, count: int) -> bool
    decreases branches, 0nat,
{
    if branches.len() == 0 {
        true
    } else {
        branches_emittable(branches.drop_last(), count) && nodes_emittable(branches.last().condition@, count)
            && nodes_emittable(branches.last().body@, count)
    }
}

/// `longer` starts with `shorter`.
pub open spec fn extends<T>(longer: Seq<T>, shorter: Seq<T>) -> bool {
    shorter.len() <= longer.len() && longer.take(shorter.len() as int) == shorter
}

/// Constants and heavy texts that extend a pool and hold each item once.
pub open spec fn pool_extension(constants: Seq<LightValue>, heavy: Seq<Seq<char>>, pool: ConstantsPool) -> bool {
    &&& extends(constants, pool.constants@)
    &&& extends(heavy, heavy_texts(pool.heavy_constants@))
    &&& distinct(constants)
    &&& distinct(heavy)
}

/// A pool grew from another: its items extend the other's and its functions
/// are as many.
pub open spec fn pool_grew(after: ConstantsPool, before: ConstantsPool) -> bool {
    &&& extends(after.constants@, before.constants@)
    &&& extends(heavy_texts(after.heavy_constants@), heavy_texts(before.heavy_constants@))
    &&& after.functions@.len() == before.functions@.len()
}

pub proof fn lemma_position_of(s: Seq<LightValue>, i: int)
    requires
        distinct(s),
        0 <= i < s.len(),
    ensures
        position_of(s, s[i]) == i,
    decreases i,
{
    if i > 0 {
        assert(s.drop_first()[i - 1] == s[i]);
        assert(s[0] != s[i]);
        lemma_position_of(s.drop_first(), i - 1);
    }
}

pub proof fn lemma_position_of_text(s: Seq<Seq<char>>, i: int)
    requires
        distinct(s),
        0 <= i < s.len(),
    ensures
        position_of(s, s[i]) == i,
    decreases i,
{
    if i > 0 {
        assert(s.drop_first()[i - 1] == s[i]);
        assert(s[0] != s[i]);
        lemma_position_of_text(s.drop_first(), i - 1);
    }
}

pub proof fn lemma_extends_trans<T>(a: Seq<T>, b: Seq<T>, c: Seq<T>)
    requires
        extends(a, b),
        extends(b, c),
    ensures
        extends(a, c),
{
    assert(a.take(c.len() as int) =~= b.take(c.len() as int));
}

pub proof fn lemma_extends_index<T>(a: Seq<T>, b: Seq<T>, i: int)
    requires
        extends(a, b),
        0 <= i < b.len(),
    ensures
        a[i] == b[i],
{
    assert(a.take(b.len() as int)[i] == a[i]);
}

pub proof fn lemma_node_code_len(node: TypedNode, c1: Seq<LightValue>, h1: Seq<Seq<char>>, a1: int, c2: Seq<LightValue>, h2: Seq<Seq<char>>, a2: int)
    ensures
        node_code(node, c1, h1, a1).len() == node_code(node, c2, h2, a2).len(),
    decreases node, 0nat,
{
    match node {
        TypedNode::Pipeline(stations) => lemma_nodes_code_len(stations@, c1, h1, a1, c2, h2, a2),
        TypedNode::Condition { branches, final_branch } => {
            lemma_branches_code_len(branches@, c1, h1, a1, 0, c2, h2, a2, 0);
            let l1 = branches_code(branches@, c1, h1, a1, 0).len();
            let l2 = branches_code(branches@, c2, h2, a2, 0).len();
            lemma_nodes_code_len(final_branch@, c1, h1, a1 + l1, c2, h2, a2 + l2);
            let f1 = nodes_code(final_branch@, c1, h1, a1 + l1).len();
            let f2 = nodes_code(final_branch@, c2, h2, a2 + l2).len();
            lemma_branches_code_len(branches@, c1, h1, a1, a1 + l1 + f1, c2, h2, a2, a2 + l2 + f2);
        },
        TypedNode::Return(value) => lemma_node_code_len(*value, c1, h1, a1, c2, h2, a2),
        TypedNode::BuiltinCall { arguments, .. } => lemma_nodes_code_len(arguments@, c1, h1, a1, c2, h2, a2),
        TypedNode::Call { arguments, .. } => lemma_nodes_code_len(arguments@, c1, h1, a1, c2, h2, a2),
        TypedNode::Array(elements) => lemma_nodes_code_len(elements@, c1, h1, a1, c2, h2, a2),
        TypedNode::Add(arguments, _, _) => lemma_nodes_code_len(arguments@, c1, h1, a1, c2, h2, a2),
        TypedNode::Minus(arguments, _, _) => lemma_nodes_code_len(arguments@, c1, h1, a1, c2, h2, a2),
        TypedNode::Multiply(arguments, _, _) => lemma_nodes_code_len(arguments@, c1, h1, a1, c2, h2, a2),
        TypedNode::Equal(arguments, _, _) => lemma_nodes_code_len(arguments@, c1, h1, a1, c2, h2, a2),
        TypedNode::LessThan(arguments, _, _) => lemma_nodes_code_len(arguments@, c1, h1, a1, c2, h2, a2),
        TypedNode::GreaterThan(arguments, _, _) => lemma_nodes_code_len(arguments@, c1, h1, a1, c2, h2, a2),
        TypedNode::LessThanOrEqual(arguments, _, _) => lemma_nodes_code_len(arguments@, c1, h1, a1, c2, h2, a2),
        TypedNode::GreaterThanOrEqual(arguments, _, _) => lemma_nodes_code_len(arguments@, c1, h1, a1, c2, h2, a2),
        TypedNode::NotEqual(arguments, _, _) => lemma_nodes_code_len(arguments@, c1, h1, a1, c2, h2, a2),
        _ => {},
    }
}

pub proof fn lemma_nodes_code_len(nodes: Seq<TypedNode>, c1: Seq<LightValue>, h1: Seq<Seq<char>>, a1: int, c2: Seq<LightValue>, h2: Seq<Seq<char>>, a2: int)
    ensures
        nodes_code(nodes, c1, h1, a1).len() == nodes_code(nodes, c2, h2, a2).len(),
    decreases nodes, 0nat,
{
    if nodes.len() > 0 {
        lemma_nodes_code_len(nodes.drop_last(), c1, h1, a1, c2, h2, a2);
        let b1 = nodes_code(nodes.drop_last(), c1, h1, a1).len();
        let b2 = nodes_code(nodes.drop_last(), c2, h2, a2).len();
        lemma_node_code_len(nodes.last(), c1, h1, a1 + b1, c2, h2, a2 + b2);
    }
}

pub proof fn lemma_branches_code_len(branches: Seq<ConditionBranch<TypedNode>>, c1: Seq<LightValue>, h1: Seq<Seq<char>>, a1: int, e1: int, c2: Seq<LightValue>, h2: Seq<Seq<char>>, a2: int, e2: int)
    ensures
        branches_code(branches, c1, h1, a1, e1).len() == branches_code(branches, c2, h2, a2, e2).len(),
    decreases branches, 0nat,
{
    if branches.len() > 0 {
        lemma_branches_code_len(branches.drop_last(), c1, h1, a1, e1, c2, h2, a2, e2);
        let b1 = branches_code(branches.drop_last(), c1, h1, a1, e1).len();
        let b2 = branches_code(branches.drop_last(), c2, h2, a2, e2).len();
        let last = branches.last();
        lemma_nodes_code_len(last.condition@, c1, h1, a1 + b1, c2, h2, a2 + b2);
        let k1 = nodes_code(last.condition@, c1, h1, a1 + b1).len();
        let k2 = nodes_code(last.condition@, c2, h2, a2 + b2).len();
        lemma_nodes_code_len(last.body@, c1, h1, a1 + b1 + k1 + 1, c2, h2, a2 + b2 + k2 + 1);
    }
}

/// Placing branches with another end changes only their jumps to the end.
pub proof fn lemma_branches_end(branches: Seq<ConditionBranch<TypedNode>>, c: Seq<LightValue>, h: Seq<Seq<char>>, at: int, end: int)
    ensures
        branches_code(branches, c, h, at, end).len() == branches_code(branches, c, h, at, 0).len(),
        end_jumps(branches, c, h, at).len() == branches.len(),
        forall|j: int| 0 <= j < branches.len() ==> at <= #[trigger] end_jumps(branches, c, h, at)[j]
            < at + branches_code(branches, c, h, at, 0).len(),
        forall|k: int| 0 <= k < branches_code(branches, c, h, at, 0).len() ==> (if end_jumps(branches, c, h, at).contains(at + k) {
            #[trigger] branches_code(branches, c, h, at, end)[k] == Instruction::Jump(end as u16)
                && branches_code(branches, c, h, at, 0)[k] == Instruction::Jump(0u16)
        } else {
            branches_code(branches, c, h, at, end)[k] == branches_code(branches, c, h, at, 0)[k]
        }),
    decreases branches.len(),
{
    if branches.len() > 0 {
        let d = branches.drop_last();
        lemma_branches_end(d, c, h, at, end);
        lemma_branches_code_len(d, c, h, at, end, c, h, at, 0);
        let code = branches_code(branches, c, h, at, end);
        let placeholder = branches_code(branches, c, h, at, 0);
        let before = branches_code(d, c, h, at, 0);
        let jumps = end_jumps(branches, c, h, at);
        assert(jumps == end_jumps(d, c, h, at).push(at + placeholder.len() - 1));
        assert forall|k: int| 0 <= k < placeholder.len() implies (if jumps.contains(at + k) {
            #[trigger] branches_code(branches, c, h, at, end)[k] == Instruction::Jump(end as u16)
                && placeholder[k] == Instruction::Jump(0u16)
        } else {
            branches_code(branches, c, h, at, end)[k] == placeholder[k]
        }) by {
            if k < before.len() {
                assert(code[k] == branches_code(d, c, h, at, end)[k]);
                assert(placeholder[k] == before[k]);
                if end_jumps(d, c, h, at).contains(at + k) {
                    let j = choose|j: int| 0 <= j < end_jumps(d, c, h, at).len() && end_jumps(d, c, h, at)[j] == at + k;
                    assert(jumps[j] == at + k);
                    assert(jumps.contains(at + k));
                } else if jumps.contains(at + k) {
                    let j = choose|j: int| 0 <= j < jumps.len() && jumps[j] == at + k;
                    if j < d.len() {
                        assert(end_jumps(d, c, h, at)[j] == at + k);
                    }
                }
            } else if k < placeholder.len() - 1 {
                if jumps.contains(at + k) {
                    let j = choose|j: int| 0 <= j < jumps.len() && jumps[j] == at + k;
                    if j < d.len() {
                        assert(end_jumps(d, c, h, at)[j] < at + before.len());
                    }
                }
            } else {
                assert(jumps[d.len() as int] == at + k);
            }
        }
    }
}

pub proof fn lemma_nodes_take(nodes: Seq<TypedNode>, i: int, c: Seq<LightValue>, h: Seq<Seq<char>>, at: int, functions: Seq<Seq<ChunkModel>>, count: int)
    requires
        0 <= i < nodes.len(),
    ensures
        nodes_code(nodes.take(i + 1), c, h, at) == nodes_code(nodes.take(i), c, h, at)
            + node_code(nodes[i], c, h, at + nodes_code(nodes.take(i), c, h, at).len()),
        nodes_writes(functions, nodes.take(i + 1), c, h) == node_writes(nodes_writes(functions, nodes.take(i), c, h), nodes[i], c, h),
        nodes_emittable(nodes.take(i + 1), count) == (nodes_emittable(nodes.take(i), count) && node_emittable(nodes[i], count)),
{
    assert(nodes.take(i + 1).drop_last() =~= nodes.take(i));
    assert(nodes.take(i + 1).last() == nodes[i]);
}

pub proof fn lemma_nodes_emittable_prefix(nodes: Seq<TypedNode>, i: int, count: int)
    requires
        nodes_emittable(nodes, count),
        0 <= i <= nodes.len(),
    ensures
        nodes_emittable(nodes.take(i), count),
        i < nodes.len() ==> node_emittable(nodes[i], count),
    decreases nodes.len() - i,
{
    if i == nodes.len() {
        assert(nodes.take(i) =~= nodes);
    } else {
        lemma_nodes_emittable_prefix(nodes, i + 1, count);
        lemma_nodes_take(nodes, i, Seq::empty(), Seq::empty(), 0, Seq::empty(), count);
    }
}

pub proof fn lemma_branches_take(branches: Seq<ConditionBranch<TypedNode>>, i: int, c: Seq<LightValue>, h: Seq<Seq<char>>, at: int, end: int, functions: Seq<Seq<ChunkModel>>, count: int)
    requires
        0 <= i < branches.len(),
    ensures
        ({
            let before = branches_code(branches.take(i), c, h, at, end);
            let start = at + before.len();
            let condition = nodes_code(branches[i].condition@, c, h, start);
            let body = nodes_code(branches[i].body@, c, h, start + condition.len() + 1);
            let next = start + condition.len() + body.len() + 2;
            branches_code(branches.take(i + 1), c, h, at, end)
                == before + condition.push(Instruction::JumpIfFalse(next as u16)) + body.push(Instruction::Jump(end as u16))
        }),
        end_jumps(branches.take(i + 1), c, h, at) == end_jumps(branches.take(i), c, h, at).push(
            at + branches_code(branches.take(i + 1), c, h, at, 0).len() - 1),
        branches_writes(functions, branches.take(i + 1), c, h) == nodes_writes(
            nodes_writes(branches_writes(functions, branches.take(i), c, h), branches[i].condition@, c, h),
            branches[i].body@, c, h),
        branches_emittable(branches.take(i + 1), count) == (branches_emittable(branches.take(i), count)
            && nodes_emittable(branches[i].condition@, count) && nodes_emittable(branches[i].body@, count)),
{
    assert(branches.take(i + 1).drop_last() =~= branches.take(i));
    assert(branches.take(i + 1).last() == branches[i]);
}

pub proof fn lemma_branches_emittable_prefix(branches: Seq<ConditionBranch<TypedNode>>, i: int, count: int)
    requires
        branches_emittable(branches, count),
        0 <= i <= branches.len(),
    ensures
        branches_emittable(branches.take(i), count),
        i < branches.len() ==> nodes_emittable(branches[i].condition@, count) && nodes_emittable(branches[i].body@, count),
    decreases branches.len() - i,
{
    if i == branches.len() {
        assert(branches.take(i) =~= branches);
    } else {
        lemma_branches_emittable_prefix(branches, i + 1, count);
        lemma_branches_take(branches, i, Seq::empty(), Seq::empty(), 0, 0, Seq::empty(), count);
    }
}

/// The instructions an operator's code ends with.
pub open spec fn tail_of(first: Instruction, second: Option<Instruction>, third: Option<Instruction>) -> Seq<Instruction> {
    seq![first] + match second {
        Some(i) => seq![i],
        None => Seq::empty(),
    } + match third {
        Some(i) => seq![i],
        None => Seq::empty(),
    }
}

pub proof fn lemma_single(node: TypedNode)
    ensures
        forall|c: Seq<LightValue>, h: Seq<Seq<char>>, at: int| #[trigger] nodes_code(seq![node], c, h, at) == node_code(node, c, h, at),
        forall|f: Seq<Seq<ChunkModel>>, c: Seq<LightValue>, h: Seq<Seq<char>>| #[trigger] nodes_writes(f, seq![node], c, h) == node_writes(f, node, c, h),
        forall|count: int| #[trigger] nodes_emittable(seq![node], count) == node_emittable(node, count),
{
    assert(seq![node].drop_last() =~= Seq::<TypedNode>::empty());
    assert(seq![node].last() == node);
    assert forall|c: Seq<LightValue>, h: Seq<Seq<char>>, at: int| #[trigger] nodes_code(seq![node], c, h, at) == node_code(node, c, h, at) by {
        assert(nodes_code(Seq::<TypedNode>::empty(), c, h, at) == Seq::<Instruction>::empty());
        assert(Seq::<Instruction>::empty() + node_code(node, c, h, at) =~= node_code(node, c, h, at));
    }
    assert forall|f: Seq<Seq<ChunkModel>>, c: Seq<LightValue>, h: Seq<Seq<char>>| #[trigger] nodes_writes(f, seq![node], c, h) == node_writes(f, node, c, h) by {
        assert(nodes_writes(f, Seq::<TypedNode>::empty(), c, h) == f);
    }
    assert forall|count: int| #[trigger] nodes_emittable(seq![node], count) == node_emittable(node, count) by {
        assert(nodes_emittable(Seq::<TypedNode>::empty(), count));
    }
}

pub proof fn lemma_operator(node: TypedNode)
    requires
        operands(node) is Some,
    ensures
        forall|c: Seq<LightValue>, h: Seq<Seq<char>>, at: int| #[trigger] node_code(node, c, h, at)
            == nodes_code(operands(node)->0, c, h, at) + operator_tail(node),
        forall|f: Seq<Seq<ChunkModel>>, c: Seq<LightValue>, h: Seq<Seq<char>>| #[trigger] node_writes(f, node, c, h)
            == nodes_writes(f, operands(node)->0, c, h),
        forall|count: int| #[trigger] node_emittable(node, count) == nodes_emittable(operands(node)->0, count),
{
}

pub proof fn lemma_extends_self(pool: ConstantsPool)
    ensures
        pool_grew(pool, pool),
        extends(pool.constants@, pool.constants@),
        extends(heavy_texts(pool.heavy_constants@), heavy_texts(pool.heavy_constants@)),
{
    assert(pool.constants@.take(pool.constants@.len() as int) =~= pool.constants@);
    let h = heavy_texts(pool.heavy_constants@);
    assert(h.take(h.len() as int) =~= h);
}

pub proof fn lemma_own_extension(pool: ConstantsPool)
    requires
        pool.wf(),
    ensures
        pool_extension(pool.constants@, heavy_texts(pool.heavy_constants@), pool),
{
    lemma_extends_self(pool);
}

pub proof fn lemma_pool_extension_back(c: Seq<LightValue>, h: Seq<Seq<char>>, after: ConstantsPool, before: ConstantsPool)
    requires
        pool_extension(c, h, after),
        pool_grew(after, before),
    ensures
        pool_extension(c, h, before),
{
    lemma_extends_trans(c, after.constants@, before.constants@);
    lemma_extends_trans(h, heavy_texts(after.heavy_constants@), heavy_texts(before.heavy_constants@));
}

pub proof fn lemma_grew_trans(a: ConstantsPool, b: ConstantsPool, c: ConstantsPool)
    requires
        pool_grew(a, b),
        pool_grew(b, c),
    ensures
        pool_grew(a, c),
{
    lemma_extends_trans(a.constants@, b.constants@, c.constants@);
    lemma_extends_trans(heavy_texts(a.heavy_constants@), heavy_texts(b.heavy_constants@), heavy_texts(c.heavy_constants@));
}

pub proof fn lemma_add_grew(before: ConstantsPool, after: ConstantsPool)
    requires
        after.heavy_constants == before.heavy_constants,
        after.functions == before.functions,
        after.constants@ == before.constants@ || after.constants@ == before.constants@.push(after.constants@.last()),
    ensures
        pool_grew(after, before),
{
    lemma_extends_self(before);
    assert(after.constants@.take(before.constants@.len() as int) =~= before.constants@);
}

pub proof fn lemma_add_heavy_grew(before: ConstantsPool, after: ConstantsPool)
    requires
        after.functions == before.functions,
        before.constants@.len() <= after.constants@.len(),
        after.constants@.take(before.constants@.len() as int) == before.constants@,
        heavy_texts(before.heavy_constants@).len() <= heavy_texts(after.heavy_constants@).len(),
        heavy_texts(after.heavy_constants@).take(heavy_texts(before.heavy_constants@).len() as int)
            == heavy_texts(before.heavy_constants@),
    ensures
        pool_grew(after, before),
{
}

pub proof fn lemma_functions_model_update(functions: Seq<Vec<Chunk>>, index: int, body: Vec<Chunk>)
    requires
        0 <= index < functions.len(),
    ensures
        functions_model(functions.update(index, body)) == functions_model(functions).update(
            index, body@.map_values(|chunk: Chunk| chunk_model(chunk))),
{
    assert(functions_model(functions.update(index, body)) =~= functions_model(functions).update(
        index, body@.map_values(|chunk: Chunk| chunk_model(chunk))));
}

/// Emitting a node that is a single instruction of its own.
pub proof fn lemma_simple_emitted(node: TypedNode, before: Seq<Instruction>, after: Seq<Instruction>, pool: ConstantsPool, final_pool: ConstantsPool)
    requires
        node is RelativeReference || node is StationCapture || node is Assignment || node is Variable,
        after == before.push(node_code(node, Seq::empty(), Seq::empty(), 0)[0]),
        final_pool == pool,
    ensures
        emitted(seq![node], before, after, functions_model(pool.functions@), functions_model(final_pool.functions@), final_pool),
{
    lemma_single(node);
    assert forall|c: Seq<LightValue>, h: Seq<Seq<char>>| #[trigger] pool_extension(c, h, final_pool) implies {
        &&& after == before + nodes_code(seq![node], c, h, before.len() as int)
        &&& functions_model(final_pool.functions@) == nodes_writes(functions_model(pool.functions@), seq![node], c, h)
    } by {
        assert(after =~= before + node_code(node, c, h, before.len() as int));
    }
}

/// Turns typed pipelines into chunks of instructions, gathering constants
/// and function bodies in a pool.
pub struct Emitter {
    pub constants_pool: ConstantsPool,
}

/// What emitting `nodes` after `chunk_before` left in a chunk and in the
/// function bodies, for every pool that extends `pool`: the code of the
/// nodes appended at the chunk's end, and the bodies each definition wrote.
pub open spec fn emitted(
    nodes: Seq<TypedNode>,
    chunk_before: Seq<Instruction>,
    chunk_after: Seq<Instruction>,
    functions_before: Seq<Seq<ChunkModel>>,
    functions_after: Seq<Seq<ChunkModel>>,
    pool: ConstantsPool,
) -> bool {
    forall|c: Seq<LightValue>, h: Seq<Seq<char>>| #[trigger] pool_extension(c, h, pool) ==> {
        &&& chunk_after == chunk_before + nodes_code(nodes, c, h, chunk_before.len() as int)
        &&& functions_after == nodes_writes(functions_before, nodes, c, h)
    }
}

impl Emitter {
    /// An emitter that fills `constants_pool`.
    pub fn new(constants_pool: ConstantsPool) -> (emitter: Self)
        ensures
            emitter.constants_pool == constants_pool,
    {
        Emitter { constants_pool }
    }

    /// Emits a program made of pipelines: one chunk per pipeline, with the
    /// pool that holds their constants and the bodies of their functions.
    pub fn emit(self, ast: TypedAST) -> (result: (ConstantsPool, Vec<Chunk>))
        requires
            self.constants_pool.wf(),
            forall|i: int| 0 <= i < ast.nodes@.len() ==> #[trigger] ast.nodes@[i] is Pipeline,
            nodes_emittable(ast.nodes@, self.constants_pool.functions@.len() as int),
        ensures
            pool_model(result.0) == items_added(pool_model(self.constants_pool), nodes_items(ast.nodes@)),
            result.0.wf(),
            pool_grew(result.0, self.constants_pool),
            result.1@.len() == ast.nodes@.len(),
            forall|i: int| 0 <= i < ast.nodes@.len() ==> #[trigger] chunk_model(result.1@[i]) == (
                pipeline_code(ast.nodes@[i], result.0.constants@, heavy_texts(result.0.heavy_constants@)),
                0u8,
                0u16,
            ),
            functions_model(result.0.functions@) == nodes_writes(
                functions_model(self.constants_pool.functions@),
                ast.nodes@,
                result.0.constants@,
                heavy_texts(result.0.heavy_constants@),
            ),
    {
        let mut emitter = self;
        let ghost start = emitter.constants_pool;
        let ghost count = start.functions@.len() as int;
        let mut map: Vec<Chunk> = Vec::new();
        let mut i: usize = 0;
        proof {
            assert(ast.nodes@.take(0) =~= Seq::<TypedNode>::empty());
            lemma_extends_self(start);
            lemma_items_none(pool_model(start));
        }
        while i < ast.nodes.len()
            invariant
                i <= ast.nodes@.len(),
                emitter.constants_pool.wf(),
                pool_grew(emitter.constants_pool, start),
                count == start.functions@.len(),
                nodes_emittable(ast.nodes@, count),
                forall|j: int| 0 <= j < ast.nodes@.len() ==> #[trigger] ast.nodes@[j] is Pipeline,
                map@.len() == i,
                pool_model(emitter.constants_pool) == items_added(pool_model(start), nodes_items(ast.nodes@.take(i as int))),
                forall|c: Seq<LightValue>, h: Seq<Seq<char>>| #[trigger] pool_extension(c, h, emitter.constants_pool) ==> {
                    &&& (forall|j: int| 0 <= j < i ==> #[trigger] chunk_model(map@[j]) == (pipeline_code(ast.nodes@[j], c, h), 0u8, 0u16))
                    &&& functions_model(emitter.constants_pool.functions@) == nodes_writes(functions_model(start.functions@), ast.nodes@.take(i as int), c, h)
                },
            decreases ast.nodes@.len() - i,
        {
            let ghost before_pool = emitter.constants_pool;
            let ghost before_map = map@;
            proof {
                lemma_nodes_emittable_prefix(ast.nodes@, i as int, count);
                assert(ast.nodes@[i as int] is Pipeline);
            }
            let TypedNode::Pipeline(stations) = &ast.nodes[i] else {
                proof {
                    assert(false);
                }
                return (emitter.constants_pool, map);
            };
            let mut chunk = Chunk::new();
            emitter.create_chunk(stations, &mut chunk);
            map.push(chunk);
            proof {
                lemma_nodes_items_take(ast.nodes@, i as int);
                lemma_items_concat(pool_model(start), nodes_items(ast.nodes@.take(i as int)), node_items(ast.nodes@[i as int]));
                lemma_grew_trans(emitter.constants_pool, before_pool, start);
                assert forall|c: Seq<LightValue>, h: Seq<Seq<char>>| #[trigger] pool_extension(c, h, emitter.constants_pool) implies {
                    &&& (forall|j: int| 0 <= j < i + 1 ==> #[trigger] chunk_model(map@[j]) == (pipeline_code(ast.nodes@[j], c, h), 0u8, 0u16))
                    &&& functions_model(emitter.constants_pool.functions@) == nodes_writes(functions_model(start.functions@), ast.nodes@.take(i + 1), c, h)
                } by {
                    lemma_pool_extension_back(c, h, emitter.constants_pool, before_pool);
                    assert(pool_extension(c, h, before_pool));
                    lemma_nodes_take(ast.nodes@, i as int, c, h, 0, functions_model(start.functions@), count);
                    assert forall|j: int| 0 <= j < i + 1 implies #[trigger] chunk_model(map@[j]) == (pipeline_code(ast.nodes@[j], c, h), 0u8, 0u16) by {
                        if j < i {
                            assert(map@[j] == before_map[j]);
                        }
                    }
                }
            }
            i += 1;
        }
        proof {
            assert(ast.nodes@.take(i as int) =~= ast.nodes@);
            lemma_extends_self(emitter.constants_pool);
            let c = emitter.constants_pool.constants@;
            let h = heavy_texts(emitter.constants_pool.heavy_constants@);
            assert(pool_extension(c, h, emitter.constants_pool));
        }
        (emitter.constants_pool, map)
    }

    /// Appends the code of consecutive nodes to `chunk`.
    fn create_chunk(&mut self, stations: &Vec<TypedNode>, chunk: &mut Chunk)
        requires
            old(self).constants_pool.wf(),
            nodes_emittable(stations@, old(self).constants_pool.functions@.len() as int),
        ensures
            pool_model(final(self).constants_pool) == items_added(pool_model(old(self).constants_pool), nodes_items(stations@)),
            final(self).constants_pool.wf(),
            pool_grew(final(self).constants_pool, old(self).constants_pool),
            final(chunk).arity == old(chunk).arity,
            final(chunk).variables_count == old(chunk).variables_count,
            emitted(stations@, old(chunk).instructions@, final(chunk).instructions@,
                functions_model(old(self).constants_pool.functions@), functions_model(final(self).constants_pool.functions@),
                final(self).constants_pool),
        decreases stations@, 3nat,
    {
        let ghost start_pool = self.constants_pool;
        let ghost start_chunk = chunk.instructions@;
        let ghost count = start_pool.functions@.len() as int;
        let mut i: usize = 0;
        proof {
            assert(stations@.take(0) =~= Seq::<TypedNode>::empty());
            lemma_extends_self(start_pool);
            lemma_items_none(pool_model(start_pool));
        }
        while i < stations.len()
            invariant
                i <= stations@.len(),
                self.constants_pool.wf(),
                pool_grew(self.constants_pool, start_pool),
                count == start_pool.functions@.len(),
                nodes_emittable(stations@, count),
                chunk.arity == old(chunk).arity,
                chunk.variables_count == old(chunk).variables_count,
                start_chunk == old(chunk).instructions@,
                start_pool == old(self).constants_pool,
                pool_model(self.constants_pool) == items_added(pool_model(start_pool), nodes_items(stations@.take(i as int))),
                emitted(stations@.take(i as int), start_chunk, chunk.instructions@,
                    functions_model(start_pool.functions@), functions_model(self.constants_pool.functions@),
                    self.constants_pool),
            decreases stations@.len() - i,
        {
            let ghost before_pool = self.constants_pool;
            let ghost before_chunk = chunk.instructions@;
            proof {
                lemma_nodes_emittable_prefix(stations@, i as int, count);
                lemma_own_extension(before_pool);
                let c0 = before_pool.constants@;
                let h0 = heavy_texts(before_pool.heavy_constants@);
                assert(pool_extension(c0, h0, before_pool));
            }
            self.emit_node(&stations[i], chunk);
            proof {
                lemma_nodes_items_take(stations@, i as int);
                lemma_items_concat(pool_model(start_pool), nodes_items(stations@.take(i as int)), node_items(stations@[i as int]));
                lemma_grew_trans(self.constants_pool, before_pool, start_pool);
                assert forall|c: Seq<LightValue>, h: Seq<Seq<char>>| #[trigger] pool_extension(c, h, self.constants_pool) implies {
                    &&& chunk.instructions@ == start_chunk + nodes_code(stations@.take(i + 1), c, h, start_chunk.len() as int)
                    &&& functions_model(self.constants_pool.functions@) == nodes_writes(functions_model(start_pool.functions@), stations@.take(i + 1), c, h)
                } by {
                    lemma_pool_extension_back(c, h, self.constants_pool, before_pool);
                    lemma_nodes_take(stations@, i as int, c, h, start_chunk.len() as int, functions_model(start_pool.functions@), count);
                    lemma_single(stations@[i as int]);
                    assert(pool_extension(c, h, before_pool));
                    assert(before_chunk == start_chunk + nodes_code(stations@.take(i as int), c, h, start_chunk.len() as int));
                    assert(chunk.instructions@ =~= start_chunk + nodes_code(stations@.take(i + 1), c, h, start_chunk.len() as int));
                }
            }
            i += 1;
        }
        proof {
            assert(stations@.take(i as int) =~= stations@);
        }
    }

    /// Appends the code of an operator: its operands, then its tail.
    fn emit_operator(
        &mut self,
        arguments: &Vec<TypedNode>,
        first: Instruction,
        second: Option<Instruction>,
        third: Option<Instruction>,
        station: &TypedNode,
        chunk: &mut Chunk,
    )
        requires
            operands(*station) == Some(arguments@),
            operator_tail(*station) =~= tail_of(first, second, third),
            old(self).constants_pool.wf(),
            node_emittable(*station, old(self).constants_pool.functions@.len() as int),
        ensures
            pool_model(final(self).constants_pool) == items_added(pool_model(old(self).constants_pool), node_items(*station)),
            final(self).constants_pool.wf(),
            pool_grew(final(self).constants_pool, old(self).constants_pool),
            final(chunk).arity == old(chunk).arity,
            final(chunk).variables_count == old(chunk).variables_count,
            emitted(seq![*station], old(chunk).instructions@, final(chunk).instructions@,
                functions_model(old(self).constants_pool.functions@), functions_model(final(self).constants_pool.functions@),
                final(self).constants_pool),
        decreases *station, 1nat,
    {
        let ghost start_chunk = chunk.instructions@;
        proof {
            lemma_operator(*station);
            lemma_single(*station);
        }
        self.create_chunk(arguments, chunk);
        let ghost middle = chunk.instructions@;
        chunk.instructions.push(first);
        if let Some(instruction) = second {
            chunk.instructions.push(instruction);
        }
        if let Some(instruction) = third {
            chunk.instructions.push(instruction);
        }
        proof {
            assert(chunk.instructions@ =~= middle + tail_of(first, second, third));
            assert forall|c: Seq<LightValue>, h: Seq<Seq<char>>| #[trigger] pool_extension(c, h, self.constants_pool) implies {
                &&& chunk.instructions@ == start_chunk + nodes_code(seq![*station], c, h, start_chunk.len() as int)
                &&& functions_model(self.constants_pool.functions@) == nodes_writes(
                    functions_model(old(self).constants_pool.functions@), seq![*station], c, h)
            } by {
                assert(middle == start_chunk + nodes_code(arguments@, c, h, start_chunk.len() as int));
                assert(chunk.instructions@ =~= start_chunk + (nodes_code(arguments@, c, h, start_chunk.len() as int) + operator_tail(*station)));
            }
        }
    }

    /// Stores the body of a function definition: one chunk per pipeline,
    /// each with the function's frame layout.
    fn emit_function(&mut self, station: &TypedNode)
        requires
            station is DefineFunction,
            old(self).constants_pool.wf(),
            node_emittable(*station, old(self).constants_pool.functions@.len() as int),
        ensures
            pool_model(final(self).constants_pool) == items_added(pool_model(old(self).constants_pool), node_items(*station)),
            final(self).constants_pool.wf(),
            pool_grew(final(self).constants_pool, old(self).constants_pool),
            forall|c: Seq<LightValue>, h: Seq<Seq<char>>| #[trigger] pool_extension(c, h, final(self).constants_pool) ==>
                functions_model(final(self).constants_pool.functions@)
                    == node_writes(functions_model(old(self).constants_pool.functions@), *station, c, h),
        decreases *station, 1nat,
    {
        let (function_index, body) = match station {
            TypedNode::DefineFunction { function_index, body } => (*function_index, body),
            _ => {
                proof {
                    assert(false);
                }
                return;
            },
        };
        let ghost start_pool = self.constants_pool;
        let ghost count = start_pool.functions@.len() as int;
        let ghost start_functions = functions_model(start_pool.functions@);
        let mut pipelines: Vec<Chunk> = Vec::new();
        let mut j: usize = 0;
        proof {
            assert(body.nodes@.take(0) =~= Seq::<TypedNode>::empty());
            lemma_extends_self(start_pool);
            lemma_items_none(pool_model(start_pool));
        }
        while j < body.nodes.len()
            invariant
                station is DefineFunction,
                (*station)->body == *body,
                j <= body.nodes@.len(),
                self.constants_pool.wf(),
                pool_grew(self.constants_pool, start_pool),
                count == start_pool.functions@.len(),
                start_functions == functions_model(start_pool.functions@),
                function_index < count,
                forall|i: int| 0 <= i < body.nodes@.len() ==> #[trigger] body.nodes@[i] is Pipeline,
                nodes_emittable(body.nodes@, count),
                pipelines@.len() == j,
                pool_model(self.constants_pool) == items_added(pool_model(start_pool), nodes_items(body.nodes@.take(j as int))),
                forall|c: Seq<LightValue>, h: Seq<Seq<char>>| #[trigger] pool_extension(c, h, self.constants_pool) ==> {
                    &&& (forall|k: int| 0 <= k < j ==> #[trigger] chunk_model(pipelines@[k])
                        == (pipeline_code(body.nodes@[k], c, h), body.arity, body.variables_count))
                    &&& functions_model(self.constants_pool.functions@) == nodes_writes(start_functions, body.nodes@.take(j as int), c, h)
                },
            decreases body.nodes@.len() - j,
        {
            let ghost before_pool = self.constants_pool;
            let ghost before = pipelines@;
            proof {
                lemma_nodes_emittable_prefix(body.nodes@, j as int, count);
                assert(body.nodes@[j as int] is Pipeline);
            }
            let TypedNode::Pipeline(pipeline) = &body.nodes[j] else {
                proof {
                    assert(false);
                }
                return;
            };
            proof {
                let nodes = body.nodes;
                assert(decreases_to!(*station => (*station)->body));
                assert((*station)->body == *body);
                assert(decreases_to!(*body => body.nodes));
                assert(nodes == body.nodes);
                assert(decreases_to!(nodes => nodes@));
                assert(decreases_to!(nodes@ => nodes@[j as int]));
                assert(decreases_to!(nodes@[j as int] => *pipeline));
                assert(decreases_to!(*pipeline => pipeline@));
            }
            let mut child = Chunk { instructions: Vec::new(), arity: body.arity, variables_count: body.variables_count };
            self.create_chunk(pipeline, &mut child);
            pipelines.push(child);
            proof {
                lemma_nodes_items_take(body.nodes@, j as int);
                lemma_items_concat(pool_model(start_pool), nodes_items(body.nodes@.take(j as int)), node_items(body.nodes@[j as int]));
                lemma_grew_trans(self.constants_pool, before_pool, start_pool);
                assert forall|c: Seq<LightValue>, h: Seq<Seq<char>>| #[trigger] pool_extension(c, h, self.constants_pool) implies {
                    &&& (forall|k: int| 0 <= k < j + 1 ==> #[trigger] chunk_model(pipelines@[k])
                        == (pipeline_code(body.nodes@[k], c, h), body.arity, body.variables_count))
                    &&& functions_model(self.constants_pool.functions@) == nodes_writes(start_functions, body.nodes@.take(j + 1), c, h)
                } by {
                    lemma_pool_extension_back(c, h, self.constants_pool, before_pool);
                    lemma_nodes_take(body.nodes@, j as int, c, h, 0, start_functions, count);
                    assert forall|k: int| 0 <= k < j + 1 implies #[trigger] chunk_model(pipelines@[k])
                        == (pipeline_code(body.nodes@[k], c, h), body.arity, body.variables_count) by {
                        if k < j {
                            assert(pipelines@[k] == before[k]);
                        } else {
                            assert(child.instructions@ =~= nodes_code(pipeline@, c, h, 0));
                        }
                    }
                }
            }
            j += 1;
        }
        let ghost before_write = self.constants_pool;
        self.constants_pool.write_function_body(function_index as usize, pipelines);
        proof {
            assert(body.nodes@.take(j as int) =~= body.nodes@);
            lemma_functions_model_update(before_write.functions@, function_index as int, pipelines);
            lemma_extends_self(before_write);
            assert(pool_grew(self.constants_pool, before_write));
            lemma_grew_trans(self.constants_pool, before_write, start_pool);
            assert forall|c: Seq<LightValue>, h: Seq<Seq<char>>| #[trigger] pool_extension(c, h, self.constants_pool) implies
                functions_model(self.constants_pool.functions@) == node_writes(start_functions, *station, c, h) by {
                assert(pool_extension(c, h, before_write));
                assert(pipelines@.map_values(|chunk: Chunk| chunk_model(chunk)) =~= body_chunks(*body, c, h));
            }
        }
    }

    /// Appends the code of a condition: each branch's condition, a jump
    /// past the branch when it is false, its body and a jump to the end,
    /// then the final branch; the jumps are patched once their targets are
    /// known.
    fn emit_condition(&mut self, station: &TypedNode, chunk: &mut Chunk)
        requires
            station is Condition,
            old(self).constants_pool.wf(),
            node_emittable(*station, old(self).constants_pool.functions@.len() as int),
        ensures
            pool_model(final(self).constants_pool) == items_added(pool_model(old(self).constants_pool), node_items(*station)),
            final(self).constants_pool.wf(),
            pool_grew(final(self).constants_pool, old(self).constants_pool),
            final(chunk).arity == old(chunk).arity,
            final(chunk).variables_count == old(chunk).variables_count,
            emitted(seq![*station], old(chunk).instructions@, final(chunk).instructions@,
                functions_model(old(self).constants_pool.functions@), functions_model(final(self).constants_pool.functions@),
                final(self).constants_pool),
        decreases *station, 1nat,
    {
        let (branches, final_branch) = match station {
            TypedNode::Condition { branches, final_branch } => (branches, final_branch),
            _ => {
                proof {
                    assert(false);
                }
                return;
            },
        };
        let ghost start_pool = self.constants_pool;
        let ghost count = start_pool.functions@.len() as int;
        let ghost start_functions = functions_model(start_pool.functions@);
        let ghost start_chunk = chunk.instructions@;
        proof {
            lemma_single(*station);
            lemma_extends_self(start_pool);
            assert(branches@.take(0) =~= Seq::<ConditionBranch<TypedNode>>::empty());
            lemma_items_none(pool_model(start_pool));
        }
        let at = chunk.instructions.len();
        let mut complete_positions: Vec<usize> = Vec::new();
        let mut i: usize = 0;
        while i < branches.len()
            invariant
                station is Condition,
                (*station)->branches == *branches,
                i <= branches@.len(),
                self.constants_pool.wf(),
                pool_grew(self.constants_pool, start_pool),
                count == start_pool.functions@.len(),
                start_functions == functions_model(start_pool.functions@),
                branches_emittable(branches@, count),
                at == start_chunk.len(),
                chunk.arity == old(chunk).arity,
                chunk.variables_count == old(chunk).variables_count,
                start_chunk == old(chunk).instructions@,
                start_pool == old(self).constants_pool,
                pool_model(self.constants_pool) == items_added(pool_model(start_pool), branches_items(branches@.take(i as int))),
                forall|c: Seq<LightValue>, h: Seq<Seq<char>>| #[trigger] pool_extension(c, h, self.constants_pool) ==> {
                    &&& chunk.instructions@ == start_chunk + branches_code(branches@.take(i as int), c, h, at as int, 0)
                    &&& functions_model(self.constants_pool.functions@) == branches_writes(start_functions, branches@.take(i as int), c, h)
                    &&& complete_positions@.map_values(|p: usize| p as int) == end_jumps(branches@.take(i as int), c, h, at as int)
                },
            decreases branches@.len() - i,
        {
            let ghost before_pool = self.constants_pool;
            let ghost before_chunk = chunk.instructions@;
            let ghost before_positions = complete_positions@;
            proof {
                lemma_branches_emittable_prefix(branches@, i as int, count);
            }
            let branch = &branches[i];
            proof {
                assert(decreases_to!(*station => (*station)->branches));
                assert((*station)->branches == *branches);
                assert(decreases_to!(*branches => branches@));
                assert(decreases_to!(branches@ => branches@[i as int]));
                assert(decreases_to!(branches@[i as int] => branches@[i as int].condition));
                assert(decreases_to!(branches@[i as int].condition => branches@[i as int].condition@));
                assert(decreases_to!(branches@[i as int] => branches@[i as int].body));
                assert(decreases_to!(branches@[i as int].body => branches@[i as int].body@));
            }
            self.create_chunk(&branch.condition, chunk);
            let ghost after_condition_pool = self.constants_pool;
            let ghost after_condition = chunk.instructions@;
            let branch_position = chunk.instructions.len();
            chunk.instructions.push(Instruction::JumpIfFalse(0));
            proof {
                lemma_grew_trans(self.constants_pool, before_pool, start_pool);
            }
            self.create_chunk(&branch.body, chunk);
            let ghost after_body = chunk.instructions@;
            proof {
                lemma_own_extension(self.constants_pool);
                assert(pool_extension(self.constants_pool.constants@, heavy_texts(self.constants_pool.heavy_constants@), self.constants_pool));
            }
            proof {
                lemma_branches_items_take(branches@, i as int);
                let prefix = branches_items(branches@.take(i as int));
                let condition = nodes_items(branches@[i as int].condition@);
                let body = nodes_items(branches@[i as int].body@);
                lemma_items_concat(pool_model(start_pool), prefix, condition);
                lemma_items_concat(pool_model(start_pool), prefix + condition, body);
            }
            complete_positions.push(chunk.instructions.len());
            chunk.instructions.push(Instruction::Jump(0));
            let next_branch = chunk.instructions.len();
            chunk.instructions.set(branch_position, Instruction::JumpIfFalse(next_branch as u16));
            proof {
                lemma_grew_trans(self.constants_pool, after_condition_pool, start_pool);
                assert forall|c: Seq<LightValue>, h: Seq<Seq<char>>| #[trigger] pool_extension(c, h, self.constants_pool) implies {
                    &&& chunk.instructions@ == start_chunk + branches_code(branches@.take(i + 1), c, h, at as int, 0)
                    &&& functions_model(self.constants_pool.functions@) == branches_writes(start_functions, branches@.take(i + 1), c, h)
                    &&& complete_positions@.map_values(|p: usize| p as int) == end_jumps(branches@.take(i + 1), c, h, at as int)
                } by {
                    lemma_pool_extension_back(c, h, self.constants_pool, after_condition_pool);
                    lemma_pool_extension_back(c, h, after_condition_pool, before_pool);
                    lemma_branches_take(branches@, i as int, c, h, at as int, 0, start_functions, count);
                    let before = branches_code(branches@.take(i as int), c, h, at as int, 0);
                    let start = at + before.len();
                    let condition = nodes_code(branches@[i as int].condition@, c, h, start);
                    let body = nodes_code(branches@[i as int].body@, c, h, start + condition.len() + 1);
                    assert(after_condition == before_chunk + condition);
                    assert(after_body == after_condition.push(Instruction::JumpIfFalse(0)) + body);
                    assert(chunk.instructions@ =~= start_chunk + branches_code(branches@.take(i + 1), c, h, at as int, 0));
                    assert(complete_positions@.map_values(|p: usize| p as int) =~= before_positions.map_values(|p: usize| p as int).push(after_body.len() as int));
                }
            }
            i += 1;
        }
        proof {
            assert(branches@.take(i as int) =~= branches@);
        }
        let ghost before_final_pool = self.constants_pool;
        proof {
            lemma_items_concat(pool_model(start_pool), branches_items(branches@), nodes_items(final_branch@));
        }
        let ghost before_final = chunk.instructions@;
        self.create_chunk(final_branch, chunk);
        let end_position = chunk.instructions.len();
        let ghost unpatched = chunk.instructions@;
        proof {
            lemma_own_extension(self.constants_pool);
            lemma_grew_trans(self.constants_pool, before_final_pool, start_pool);
            let c = self.constants_pool.constants@;
            let h = heavy_texts(self.constants_pool.heavy_constants@);
            assert(pool_extension(c, h, self.constants_pool));
            lemma_pool_extension_back(c, h, self.constants_pool, before_final_pool);
            assert(pool_extension(c, h, before_final_pool));
            lemma_branches_end(branches@, c, h, at as int, 0);
            let jumps = end_jumps(branches@, c, h, at as int);
            assert(complete_positions@.map_values(|p: usize| p as int) == jumps);
            assert(before_final == start_chunk + branches_code(branches@, c, h, at as int, 0));
            assert forall|p: int| 0 <= p < complete_positions@.len() implies #[trigger] complete_positions@[p] < unpatched.len() by {
                assert(jumps[p] == complete_positions@[p] as int);
            }
            assert(complete_positions@.take(0) =~= Seq::<usize>::empty());
        }
        let mut k: usize = 0;
        while k < complete_positions.len()
            invariant
                k <= complete_positions@.len(),
                chunk.instructions@.len() == unpatched.len(),
                end_position == unpatched.len(),
                chunk.arity == old(chunk).arity,
                chunk.variables_count == old(chunk).variables_count,
                forall|p: int| 0 <= p < complete_positions@.len() ==> #[trigger] complete_positions@[p] < unpatched.len(),
                forall|q: int| 0 <= q < unpatched.len() ==> #[trigger] chunk.instructions@[q] == (
                    if complete_positions@.take(k as int).contains(q as usize) {
                        Instruction::Jump(end_position as u16)
                    } else {
                        unpatched[q]
                    }),
            decreases complete_positions@.len() - k,
        {
            let ghost before_set = chunk.instructions@;
            chunk.instructions.set(complete_positions[k], Instruction::Jump(end_position as u16));
            proof {
                let cp = complete_positions@;
                let t0 = cp.take(k as int);
                let t1 = cp.take(k + 1);
                assert(t1 =~= t0.push(cp[k as int]));
                assert forall|q: int| 0 <= q < unpatched.len() implies #[trigger] chunk.instructions@[q] == (
                    if t1.contains(q as usize) {
                        Instruction::Jump(end_position as u16)
                    } else {
                        unpatched[q]
                    }) by {
                    if q as usize == cp[k as int] {
                        assert(t1[k as int] == cp[k as int]);
                        assert(t1.contains(q as usize));
                    } else {
                        assert(chunk.instructions@[q] == before_set[q]);
                        if t0.contains(q as usize) {
                            let j = choose|j: int| 0 <= j < t0.len() && t0[j] == q as usize;
                            assert(t1[j] == q as usize);
                        }
                        if t1.contains(q as usize) {
                            let j = choose|j: int| 0 <= j < t1.len() && t1[j] == q as usize;
                            assert(t0[j] == q as usize);
                        }
                    }
                }
            }
            k += 1;
        }
        proof {
            lemma_grew_trans(self.constants_pool, before_final_pool, start_pool);
            assert(complete_positions@.take(k as int) =~= complete_positions@);
            assert forall|c: Seq<LightValue>, h: Seq<Seq<char>>| #[trigger] pool_extension(c, h, self.constants_pool) implies {
                &&& chunk.instructions@ == start_chunk + nodes_code(seq![*station], c, h, start_chunk.len() as int)
                &&& functions_model(self.constants_pool.functions@) == nodes_writes(start_functions, seq![*station], c, h)
            } by {
                lemma_pool_extension_back(c, h, self.constants_pool, before_final_pool);
                let placeholder = branches_code(branches@, c, h, at as int, 0);
                let final_code = nodes_code(final_branch@, c, h, at + placeholder.len());
                let end = at + placeholder.len() + final_code.len();
                assert(unpatched == start_chunk + placeholder + final_code);
                assert(end == end_position);
                lemma_branches_end(branches@, c, h, at as int, end);
                let patched = branches_code(branches@, c, h, at as int, end);
                assert forall|q: int| 0 <= q < unpatched.len() implies #[trigger] chunk.instructions@[q] == (start_chunk + patched + final_code)[q] by {
                    let jumps = end_jumps(branches@, c, h, at as int);
                    assert(complete_positions@.map_values(|p: usize| p as int) == jumps);
                    if at <= q < at + placeholder.len() {
                        let r = q - at;
                        if jumps.contains(q) {
                            let j = choose|j: int| 0 <= j < jumps.len() && jumps[j] == q;
                            assert(complete_positions@[j] as int == q);
                            assert(complete_positions@.contains(q as usize));
                        } else if complete_positions@.contains(q as usize) {
                            let j = choose|j: int| 0 <= j < complete_positions@.len() && complete_positions@[j] == q as usize;
                            assert(jumps[j] == q);
                        }
                        assert(patched[r] == (start_chunk + patched + final_code)[q]);
                    } else {
                        if complete_positions@.contains(q as usize) {
                            let j = choose|j: int| 0 <= j < complete_positions@.len() && complete_positions@[j] == q as usize;
                            assert(jumps[j] == q);
                        }
                    }
                }
                assert(chunk.instructions@ =~= start_chunk + patched + final_code);
            }
        }
    }

    /// Appends the code of one node to `chunk`.
    #[verifier::rlimit(50)]
    fn emit_node(&mut self, station: &TypedNode, chunk: &mut Chunk)
        requires
            old(self).constants_pool.wf(),
            node_emittable(*station, old(self).constants_pool.functions@.len() as int),
        ensures
            pool_model(final(self).constants_pool) == items_added(pool_model(old(self).constants_pool), node_items(*station)),
            final(self).constants_pool.wf(),
            pool_grew(final(self).constants_pool, old(self).constants_pool),
            final(chunk).arity == old(chunk).arity,
            final(chunk).variables_count == old(chunk).variables_count,
            emitted(seq![*station], old(chunk).instructions@, final(chunk).instructions@,
                functions_model(old(self).constants_pool.functions@), functions_model(final(self).constants_pool.functions@),
                final(self).constants_pool),
        decreases *station, 2nat,
    {
        let ghost start_pool = self.constants_pool;
        let ghost start_chunk = chunk.instructions@;
        proof {
            lemma_single(*station);
            lemma_extends_self(start_pool);
            lemma_items_none(pool_model(start_pool));
            if operands(*station) is Some {
                lemma_operator_items(*station);
            }
        }
        match station {
            TypedNode::Literal(value) => {
                let index = self.constants_pool.add_constant(*value);
                chunk.instructions.push(Instruction::Load(index as u32));
                proof {
                    lemma_items_single(pool_model(start_pool), PoolItem::Light(*value));
                    lemma_extends_self(self.constants_pool);
                    assert forall|c: Seq<LightValue>, h: Seq<Seq<char>>| #[trigger] pool_extension(c, h, self.constants_pool) implies
                        position_of(c, *value) == index by {
                        lemma_extends_index(c, self.constants_pool.constants@, index as int);
                        lemma_position_of(c, index as int);
                    }
                    lemma_add_grew(start_pool, self.constants_pool);
                    assert forall|c: Seq<LightValue>, h: Seq<Seq<char>>| #[trigger] pool_extension(c, h, self.constants_pool) implies
                        chunk.instructions@ == start_chunk + node_code(*station, c, h, start_chunk.len() as int) by {
                        assert(position_of(c, *value) == index);
                        assert(chunk.instructions@ =~= start_chunk + node_code(*station, c, h, start_chunk.len() as int));
                    }
                }
            },
            TypedNode::HeavyLiteral(value) => {
                let index = self.constants_pool.add_heavy_constant(value);
                chunk.instructions.push(Instruction::Load(index as u32));
                proof {
                    lemma_items_single(pool_model(start_pool), PoolItem::Heavy(heavy_text(*value)));
                    let hh = heavy_texts(self.constants_pool.heavy_constants@);
                    let k = choose|k: int| 0 <= k < self.constants_pool.heavy_constants@.len() && #[trigger] hh[k]
                        == heavy_text(*value) && self.constants_pool.constants@[index as int]
                        == LightValue::StringPointer((k % 0x1_0000_0000) as u32);
                    assert forall|c: Seq<LightValue>, h: Seq<Seq<char>>| #[trigger] pool_extension(c, h, self.constants_pool) implies
                        load_heavy(*value, c, h) == Instruction::Load(index as u32) by {
                        lemma_extends_index(h, hh, k);
                        lemma_position_of_text(h, k);
                        lemma_extends_index(c, self.constants_pool.constants@, index as int);
                        lemma_position_of(c, index as int);
                    }
                    lemma_add_heavy_grew(start_pool, self.constants_pool);
                    assert forall|c: Seq<LightValue>, h: Seq<Seq<char>>| #[trigger] pool_extension(c, h, self.constants_pool) implies
                        chunk.instructions@ == start_chunk + node_code(*station, c, h, start_chunk.len() as int) by {
                        assert(load_heavy(*value, c, h) == Instruction::Load(index as u32));
                        assert(chunk.instructions@ =~= start_chunk + node_code(*station, c, h, start_chunk.len() as int));
                    }
                }
            },
            TypedNode::RelativeReference(x, y, _) => {
                chunk.instructions.push(Instruction::RelativeReference(*x, *y));
                proof {
                    lemma_simple_emitted(*station, start_chunk, chunk.instructions@, start_pool, self.constants_pool);
                }
            },
            TypedNode::StationCapture(index, _) => {
                chunk.instructions.push(Instruction::StationCapture(*index));
                proof {
                    lemma_simple_emitted(*station, start_chunk, chunk.instructions@, start_pool, self.constants_pool);
                }
            },
            TypedNode::Assignment(index, kind) => {
                chunk.instructions.push(Instruction::Store(*index, kind.code()));
                proof {
                    lemma_simple_emitted(*station, start_chunk, chunk.instructions@, start_pool, self.constants_pool);
                }
            },
            TypedNode::Variable(index, _) => {
                chunk.instructions.push(Instruction::LoadVariable(*index));
                proof {
                    lemma_simple_emitted(*station, start_chunk, chunk.instructions@, start_pool, self.constants_pool);
                }
            },
            TypedNode::Pipeline(stations) => {
                self.create_chunk(stations, chunk);
            },
            TypedNode::Return(value) => {
                self.emit_node(value, chunk);
                chunk.instructions.push(Instruction::Return);
                proof {
                    lemma_single(**value);
                    assert forall|c: Seq<LightValue>, h: Seq<Seq<char>>| #[trigger] pool_extension(c, h, self.constants_pool) implies
                        chunk.instructions@ == start_chunk + node_code(*station, c, h, start_chunk.len() as int) by {
                        assert(chunk.instructions@ =~= start_chunk + node_code(**value, c, h, start_chunk.len() as int).push(Instruction::Return));
                    }
                }
            },
            TypedNode::Condition { .. } => {
                self.emit_condition(station, chunk);
            },
            TypedNode::DefineFunction { .. } => {
                self.emit_function(station);
                proof {
                    assert(start_chunk + Seq::<Instruction>::empty() =~= start_chunk);
                }
            },
            TypedNode::BuiltinCall { index, arguments, .. } => {
                let arity = arguments.len() as u16;
                self.emit_operator(arguments, Instruction::BuiltinCall(*index, arity), None, None, station, chunk);
            },
            TypedNode::Call { function_index, arguments, .. } => {
                self.emit_operator(arguments, Instruction::Call(*function_index as u16), None, None, station, chunk);
            },
            TypedNode::Array(elements) => {
                let count = elements.len() as u32;
                self.emit_operator(elements, Instruction::Array(count), None, None, station, chunk);
            },
            TypedNode::Add(arguments, kind, _) => {
                let arity = arguments.len() as u16;
                self.emit_operator(arguments, Instruction::Add(arity, *kind), None, None, station, chunk);
            },
            TypedNode::Minus(arguments, kind, _) => {
                let arity = arguments.len() as u16;
                self.emit_operator(arguments, Instruction::Minus(arity, *kind), None, None, station, chunk);
            },
            TypedNode::Multiply(arguments, kind, _) => {
                let arity = arguments.len() as u16;
                self.emit_operator(arguments, Instruction::Multiply(arity, *kind), None, None, station, chunk);
            },
            TypedNode::Equal(arguments, kind, _) => {
                let arity = arguments.len() as u16;
                self.emit_operator(arguments, Instruction::Equal(arity, *kind), None, None, station, chunk);
            },
            TypedNode::LessThan(arguments, kind, _) => {
                let arity = arguments.len() as u16;
                self.emit_operator(arguments, Instruction::LessThan(arity, *kind), None, None, station, chunk);
            },
            TypedNode::GreaterThan(arguments, kind, _) => {
                let arity = arguments.len() as u16;
                self.emit_operator(arguments, Instruction::Reverse(arity), Some(Instruction::LessThan(arity, *kind)), None, station, chunk);
            },
            TypedNode::LessThanOrEqual(arguments, kind, _) => {
                let arity = arguments.len() as u16;
                self.emit_operator(arguments, Instruction::Reverse(arity), Some(Instruction::LessThan(arity, *kind)), Some(Instruction::Not), station, chunk);
            },
            TypedNode::GreaterThanOrEqual(arguments, kind, _) => {
                let arity = arguments.len() as u16;
                self.emit_operator(arguments, Instruction::LessThan(arity, *kind), Some(Instruction::Not), None, station, chunk);
            },
            TypedNode::NotEqual(arguments, kind, _) => {
                let arity = arguments.len() as u16;
                self.emit_operator(arguments, Instruction::Equal(arity, *kind), Some(Instruction::Not), None, station, chunk);
            },
        }
    }
}


/// A prefix of emittable nodes is emittable.
proof fn lemma_emittable_prefix(nodes: Seq<TypedNode>, count: int, j: int)
    requires
        0 <= j <= nodes.len(),
        nodes_emittable(nodes, count),
    ensures
        nodes_emittable(nodes.take(j), count),
    decreases nodes.len() - j,
{
    if j == nodes.len() {
        assert(nodes.take(j) =~= nodes);
    } else {
        assert(nodes.drop_last().take(j) =~= nodes.take(j));
        lemma_emittable_prefix(nodes.drop_last(), count, j);
    }
}

/// A prefix of emittable branches is emittable.
proof fn lemma_branches_emittable_take(branches: Seq<ConditionBranch<TypedNode>>, count: int, j: int)
    requires
        0 <= j <= branches.len(),
        branches_emittable(branches, count),
    ensures
        branches_emittable(branches.take(j), count),
    decreases branches.len() - j,
{
    if j == branches.len() {
        assert(branches.take(j) =~= branches);
    } else {
        assert(branches.drop_last().take(j) =~= branches.take(j));
        lemma_branches_emittable_take(branches.drop_last(), count, j);
    }
}

/// Whether a node can be emitted into a program with `count` functions.
#[verifier::loop_isolation(false)]
fn node_can_emit(node: &TypedNode, count: usize) -> (emits: bool)
    ensures
        emits == node_emittable(*node, count as int),
    decreases *node, 1nat,
{
    match node {
        TypedNode::DefineFunction { function_index, body } => {
            if (*function_index as usize) >= count {
                return false;
            }
            let mut i: usize = 0;
            while i < body.nodes.len()
                invariant
                    i <= body.nodes@.len(),
                    forall|k: int| 0 <= k < i ==> #[trigger] body.nodes@[k] is Pipeline,
                decreases body.nodes@.len() - i,
            {
                if !matches!(body.nodes[i], TypedNode::Pipeline(_)) {
                    assert(!(body.nodes@[i as int] is Pipeline));
                    return false;
                }
                i += 1;
            }
            proof {
                assert(decreases_to!(*node => body.nodes));
            }
            nodes_can_emit(&body.nodes, count)
        },
        TypedNode::Pipeline(nodes) | TypedNode::BuiltinCall { arguments: nodes, .. } | TypedNode::Call { arguments: nodes, .. }
        | TypedNode::Array(nodes) | TypedNode::Add(nodes, _, _) | TypedNode::Minus(nodes, _, _)
        | TypedNode::Multiply(nodes, _, _) | TypedNode::Equal(nodes, _, _) | TypedNode::LessThan(nodes, _, _)
        | TypedNode::GreaterThan(nodes, _, _) | TypedNode::LessThanOrEqual(nodes, _, _)
        | TypedNode::GreaterThanOrEqual(nodes, _, _) | TypedNode::NotEqual(nodes, _, _) => nodes_can_emit(nodes, count),
        TypedNode::Condition { branches, final_branch } => branches_can_emit(branches, count) && nodes_can_emit(final_branch, count),
        TypedNode::Return(value) => node_can_emit(value, count),
        _ => true,
    }
}

/// Whether consecutive nodes can be emitted.
fn nodes_can_emit(nodes: &Vec<TypedNode>, count: usize) -> (emits: bool)
    ensures
        emits == nodes_emittable(nodes@, count as int),
    decreases nodes@, 0nat,
{
    let mut i: usize = 0;
    assert(nodes@.take(0) =~= Seq::<TypedNode>::empty());
    while i < nodes.len()
        invariant
            i <= nodes@.len(),
            nodes_emittable(nodes@.take(i as int), count as int),
        decreases nodes@.len() - i,
    {
        assert(nodes@.take(i + 1).drop_last() =~= nodes@.take(i as int));
        assert(nodes@.take(i + 1).last() == nodes@[i as int]);
        proof {
            assert(decreases_to!(nodes@ => nodes@[i as int]));
        }
        if !node_can_emit(&nodes[i], count) {
            proof {
                if nodes_emittable(nodes@, count as int) {
                    lemma_emittable_prefix(nodes@, count as int, i + 1);
                }
            }
            return false;
        }
        i += 1;
    }
    assert(nodes@.take(i as int) =~= nodes@);
    true
}

/// Whether condition branches can be emitted.
fn branches_can_emit(branches: &Vec<ConditionBranch<TypedNode>>, count: usize) -> (emits: bool)
    ensures
        emits == branches_emittable(branches@, count as int),
    decreases branches@, 0nat,
{
    let mut i: usize = 0;
    assert(branches@.take(0) =~= Seq::<ConditionBranch<TypedNode>>::empty());
    while i < branches.len()
        invariant
            i <= branches@.len(),
            branches_emittable(branches@.take(i as int), count as int),
        decreases branches@.len() - i,
    {
        assert(branches@.take(i + 1).drop_last() =~= branches@.take(i as int));
        assert(branches@.take(i + 1).last() == branches@[i as int]);
        proof {
            assert(decreases_to!(branches@ => branches@[i as int]));
            assert(decreases_to!(branches@[i as int] => branches@[i as int].condition));
            assert(decreases_to!(branches@[i as int] => branches@[i as int].body));
        }
        if !(nodes_can_emit(&branches[i].condition, count) && nodes_can_emit(&branches[i].body, count)) {
            proof {
                if branches_emittable(branches@, count as int) {
                    lemma_branches_emittable_take(branches@, count as int, i + 1);
                }
            }
            return false;
        }
        i += 1;
    }
    assert(branches@.take(i as int) =~= branches@);
    true
}

impl Emitter {
    /// Whether a program can be emitted: it is made of pipelines, and each
    /// function definition in it names one of the pool's functions.
    pub fn can_emit(&self, ast: &TypedAST) -> (emits: bool)
        ensures
            emits == ((forall|i: int| 0 <= i < ast.nodes@.len() ==> #[trigger] ast.nodes@[i] is Pipeline)
                && nodes_emittable(ast.nodes@, self.constants_pool.functions@.len() as int)),
    {
        let mut i: usize = 0;
        while i < ast.nodes.len()
            invariant
                i <= ast.nodes@.len(),
                forall|k: int| 0 <= k < i ==> #[trigger] ast.nodes@[k] is Pipeline,
            decreases ast.nodes@.len() - i,
        {
            if !matches!(ast.nodes[i], TypedNode::Pipeline(_)) {
                return false;
            }
            i += 1;
        }
        nodes_can_emit(&ast.nodes, self.constants_pool.functions.len())
    }
}

/// Two compared values on top of the stack, or the truth value left once
/// they have been compared.
pub enum PairState {
    Pair(int, int),
    Truth(bool),
}

/// What the machine's instructions make of two values on top of the stack,
/// one instruction after another: reversing the two swaps them, `LessThan`
/// leaves whether the first is below the second, `Equal` whether they are
/// equal, and `Not` negates a truth value; `None` for anything else.
pub open spec fn run_on_pair(tail: Seq<Instruction>, state: PairState) -> Option<PairState>
    decreases tail.len(),
{
    if tail.len() == 0 {
        Some(state)
    } else {
        let next = match (tail[0], state) {
            (Instruction::Reverse(2), PairState::Pair(x, y)) => Some(PairState::Pair(y, x)),
            (Instruction::LessThan(2, _), PairState::Pair(x, y)) => Some(PairState::Truth(x < y)),
            (Instruction::Equal(2, _), PairState::Pair(x, y)) => Some(PairState::Truth(x == y)),
            (Instruction::Not, PairState::Truth(t)) => Some(PairState::Truth(!t)),
            _ => None,
        };
        match next {
            Some(after) => run_on_pair(tail.drop_first(), after),
            None => None,
        }
    }
}

/// Each comparison operator on two operands is emitted as instructions
/// that, run on the operands' values, leave the comparison it names:
/// `==` equality, `<` and `>` strict order, `<=` and `>=` order or
/// equality, `!=` difference.
pub proof fn law_comparison_code_means_its_operator(node: TypedNode, a: int, b: int)
    requires
        operands(node) matches Some(arguments) && arguments.len() == 2,
    ensures
        node is Equal ==> run_on_pair(operator_tail(node), PairState::Pair(a, b)) == Some(PairState::Truth(a == b)),
        node is LessThan ==> run_on_pair(operator_tail(node), PairState::Pair(a, b)) == Some(PairState::Truth(a < b)),
        node is GreaterThan ==> run_on_pair(operator_tail(node), PairState::Pair(a, b)) == Some(PairState::Truth(a > b)),
        node is LessThanOrEqual ==> run_on_pair(operator_tail(node), PairState::Pair(a, b))
            == Some(PairState::Truth(a <= b)),
        node is GreaterThanOrEqual ==> run_on_pair(operator_tail(node), PairState::Pair(a, b))
            == Some(PairState::Truth(a >= b)),
        node is NotEqual ==> run_on_pair(operator_tail(node), PairState::Pair(a, b)) == Some(PairState::Truth(a != b)),
{
    let tail = operator_tail(node);
    if tail.len() > 0 {
        assert(tail.drop_first().len() < tail.len());
        if tail.len() > 1 {
            assert(tail.drop_first().drop_first().len() < tail.drop_first().len());
            if tail.len() > 2 {
                assert(tail.drop_first().drop_first().drop_first().len() == 0);
            }
        }
    }
    reveal_with_fuel(run_on_pair, 4);
}

} // verus!
