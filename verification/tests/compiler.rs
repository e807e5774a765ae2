use flowscript::assembler::Assembler;
use flowscript::constants_pool::ConstantsPool;
use flowscript::emitter::Emitter;
use flowscript::instructions::{Chunk, Instruction};
use flowscript::memory::Memory;
use flowscript::node::{ConditionBranch, TypedAST, TypedNode};
use flowscript::value::{Kind, LightValue};

fn program(nodes: Vec<TypedNode>) -> TypedAST {
    TypedAST { nodes, variables_count: 0, arity: 0, max_relative_reference: 0 }
}

#[test]
fn a_program_of_pipelines_can_be_emitted() {
    let emitter = Emitter::new(ConstantsPool::new(1));
    let pipeline = TypedNode::Pipeline(vec![TypedNode::Literal(LightValue::Integer(1))]);
    assert!(emitter.can_emit(&program(vec![pipeline])));
    let define = TypedNode::Pipeline(vec![TypedNode::DefineFunction { function_index: 0, body: program(Vec::new()) }]);
    assert!(emitter.can_emit(&program(vec![define])));
}

#[test]
fn a_program_naming_a_missing_function_or_not_made_of_pipelines_is_refused() {
    let emitter = Emitter::new(ConstantsPool::new(1));
    let define = TypedNode::Pipeline(vec![TypedNode::DefineFunction { function_index: 1, body: program(Vec::new()) }]);
    assert!(!emitter.can_emit(&program(vec![define])));
    assert!(!emitter.can_emit(&program(vec![TypedNode::Literal(LightValue::Nil)])));
}

#[test]
fn a_jump_past_the_end_of_its_chunk_cannot_be_assembled() {
    let assembler = Assembler::new(Memory::new(), ConstantsPool::new(0));
    let fine = vec![Chunk { instructions: vec![Instruction::Jump(1)], arity: 0, variables_count: 0 }];
    assert!(assembler.can_assemble(&fine));
    let broken = vec![Chunk { instructions: vec![Instruction::JumpIfFalse(2)], arity: 0, variables_count: 0 }];
    assert!(!assembler.can_assemble(&broken));
}

#[test]
fn equal_literals_share_one_constant_loaded_in_first_use_order() {
    let emitter = Emitter::new(ConstantsPool::new(0));
    let call = TypedNode::BuiltinCall {
        index: 3,
        arguments: vec![TypedNode::Literal(LightValue::Integer(7)), TypedNode::Literal(LightValue::Integer(7))],
        result: Kind::Nil,
    };
    let (pool, map) = emitter.emit(program(vec![TypedNode::Pipeline(vec![call])]));
    assert_eq!(pool.constants.len(), 1);
    assert!(matches!(pool.constants[0], LightValue::Integer(7)));
    let code = &map[0].instructions;
    assert_eq!(code.len(), 3);
    assert!(matches!(code[0], Instruction::Load(0)));
    assert!(matches!(code[1], Instruction::Load(0)));
    assert!(matches!(code[2], Instruction::BuiltinCall(3, 2)));
}

#[test]
fn a_condition_loads_its_constants_in_order_and_jumps_past_each_branch() {
    let emitter = Emitter::new(ConstantsPool::new(0));
    let condition = TypedNode::Condition {
        branches: vec![ConditionBranch {
            condition: vec![TypedNode::Literal(LightValue::Boolean(true))],
            body: vec![TypedNode::Literal(LightValue::Integer(1))],
        }],
        final_branch: vec![TypedNode::Literal(LightValue::Integer(2))],
    };
    let (pool, map) = emitter.emit(program(vec![TypedNode::Pipeline(vec![condition])]));
    assert_eq!(pool.constants.len(), 3);
    assert!(matches!(pool.constants[0], LightValue::Boolean(true)));
    assert!(matches!(pool.constants[1], LightValue::Integer(1)));
    assert!(matches!(pool.constants[2], LightValue::Integer(2)));
    let code = &map[0].instructions;
    assert_eq!(code.len(), 5);
    assert!(matches!(code[0], Instruction::Load(0)));
    assert!(matches!(code[1], Instruction::JumpIfFalse(4)));
    assert!(matches!(code[2], Instruction::Load(1)));
    assert!(matches!(code[3], Instruction::Jump(5)));
    assert!(matches!(code[4], Instruction::Load(2)));
}
