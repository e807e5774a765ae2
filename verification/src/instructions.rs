use vstd::prelude::*;
use crate::bytes::{le_bytes, lemma_le_bytes_len};
use crate::value::{Kind, kind_code};

verus! {

/// The operation codes of the bytecode. Each instruction is its code byte
/// followed by its operands in little-endian order.
#[derive(Debug, Clone, Copy, PartialEq, Eq, Structural)]
pub enum Bytecode {
    Call,
    BuiltinCall,
    Load,
    LoadVariable,
    Jump,
    JumpIfFalse,
    RelativeReference,
    Return,
    Store,
    Array,
    Not,
    Add,
    Minus,
    Multiply,
    Equal,
    LessThan,
    Reverse,
    StationCapture,
}

impl Bytecode {
    pub const CALL: u8 = 0;
    pub const CALL_SIZE: usize = 3;
    pub const BUILTIN_CALL: u8 = 1;
    pub const BUILTIN_CALL_SIZE: usize = 5;
    pub const LOAD: u8 = 2;
    pub const LOAD_SIZE: usize = 5;
    pub const LOAD_VARIABLE: u8 = 3;
    pub const LOAD_VARIABLE_SIZE: usize = 3;
    pub const JUMP: u8 = 4;
    pub const JUMP_SIZE: usize = 3;
    pub const JUMP_IF_FALSE: u8 = 5;
    pub const JUMP_IF_FALSE_SIZE: usize = 3;
    pub const RELATIVE_REFERENCE: u8 = 6;
    pub const RELATIVE_REFERENCE_SIZE: usize = 5;
    pub const RETURN: u8 = 7;
    pub const RETURN_SIZE: usize = 1;
    pub const STORE: u8 = 8;
    pub const STORE_SIZE: usize = 4;
    pub const ARRAY: u8 = 9;
    pub const ARRAY_SIZE: usize = 5;
    pub const NOT: u8 = 10;
    pub const NOT_SIZE: usize = 1;
    pub const ADD: u8 = 11;
    pub const ADD_SIZE: usize = 4;
    pub const MINUS: u8 = 12;
    pub const MINUS_SIZE: usize = 4;
    pub const MULTIPLY: u8 = 13;
    pub const MULTIPLY_SIZE: usize = 4;
    pub const EQUAL: u8 = 14;
    pub const EQUAL_SIZE: usize = 4;
    pub const LESS_THAN: u8 = 15;
    pub const LESS_THAN_SIZE: usize = 4;
    pub const REVERSE: u8 = 16;
    pub const REVERSE_SIZE: usize = 3;
    pub const STATION_CAPTURE: u8 = 17;
    pub const STATION_CAPTURE_SIZE: usize = 3;
}

/// An instruction before it is laid out in bytes. Jump targets are
/// positions in the instruction list.
#[derive(Debug, Clone, Copy, PartialEq, Eq, Structural)]
pub enum Instruction {
    Call(u16),
    BuiltinCall(u16, u16),
    Load(u32),
    LoadVariable(u16),
    Jump(u16),
    JumpIfFalse(u16),
    RelativeReference(u16, u16),
    Return,
    Store(u16, u8),
    Array(u32),
    Not,
    Add(u16, Kind),
    Minus(u16, Kind),
    Multiply(u16, Kind),
    Equal(u16, Kind),
    LessThan(u16, Kind),
    Reverse(u16),
    StationCapture(u16),
}

/// The instructions of one pipeline, with the frame layout of its function.
#[derive(Debug)]
pub struct Chunk {
    pub instructions: Vec<Instruction>,
    pub arity: u8,
    pub variables_count: u16,
}

impl Chunk {
    /// An empty chunk with no parameters and no variables.
    pub fn new() -> (chunk: Chunk)
        ensures
            chunk.instructions@.len() == 0,
            chunk.arity == 0,
            chunk.variables_count == 0,
    {
        Chunk { instructions: Vec::new(), arity: 0, variables_count: 0 }
    }
}

/// The number of bytes an instruction occupies once assembled.
pub open spec fn instruction_size(instruction: Instruction) -> nat {
    match instruction {
        Instruction::Call(_) => 3,
        Instruction::BuiltinCall(_, _) => 5,
        Instruction::Load(_) => 5,
        Instruction::LoadVariable(_) => 3,
        Instruction::Jump(_) => 3,
        Instruction::JumpIfFalse(_) => 3,
        Instruction::RelativeReference(_, _) => 5,
        Instruction::Return => 1,
        Instruction::Store(_, _) => 4,
        Instruction::Array(_) => 5,
        Instruction::Not => 1,
        Instruction::Add(_, _) => 4,
        Instruction::Minus(_, _) => 4,
        Instruction::Multiply(_, _) => 4,
        Instruction::Equal(_, _) => 4,
        Instruction::LessThan(_, _) => 4,
        Instruction::Reverse(_) => 3,
        Instruction::StationCapture(_) => 3,
    }
}

/// The number of bytes a list of instructions occupies once assembled.
pub open spec fn sizes_sum(instructions: Seq<Instruction>) -> nat
    decreases instructions.len(),
{
    if instructions.len() == 0 {
        0
    } else {
        sizes_sum(instructions.drop_last()) + instruction_size(instructions.last())
    }
}

/// The bytes between the start of instruction `from` and the start of
/// instruction `to`; nothing when `to` does not come after `from`.
pub open spec fn byte_distance(instructions: Seq<Instruction>, from: int, to: int) -> nat {
    if from < to {
        sizes_sum(instructions.subrange(from, to))
    } else {
        0
    }
}

/// The byte position written for a jump at `position` to instruction `target`,
/// when the chunk's instructions are laid out from byte `base`: the position
/// after the jump plus the distance to the target, kept to 16 bits.
pub open spec fn jump_operand(
    instructions: Seq<Instruction>,
    position: int,
    target: int,
    base: nat,
) -> nat {
    ((base + sizes_sum(instructions.take(position)) + 3 + byte_distance(
        instructions,
        position + 1,
        target,
    )) % 65536) as nat
}

/// The bytes of the instruction at `position`, laid out from byte `base`.
pub open spec fn encode_at(instructions: Seq<Instruction>, position: int, base: nat) -> Seq<u8> {
    match instructions[position] {
        Instruction::Call(index) => seq![Bytecode::CALL] + le_bytes(index as nat, 2),
        Instruction::BuiltinCall(index, arity) => seq![Bytecode::BUILTIN_CALL] + le_bytes(
            index as nat,
            2,
        ) + le_bytes(arity as nat, 2),
        Instruction::Load(index) => seq![Bytecode::LOAD] + le_bytes(index as nat, 4),
        Instruction::LoadVariable(index) => seq![Bytecode::LOAD_VARIABLE] + le_bytes(
            index as nat,
            2,
        ),
        Instruction::Jump(target) => seq![Bytecode::JUMP] + le_bytes(
            jump_operand(instructions, position, target as int, base),
            2,
        ),
        Instruction::JumpIfFalse(target) => seq![Bytecode::JUMP_IF_FALSE] + le_bytes(
            jump_operand(instructions, position, target as int, base),
            2,
        ),
        Instruction::RelativeReference(x, y) => seq![Bytecode::RELATIVE_REFERENCE] + le_bytes(
            x as nat,
            2,
        ) + le_bytes(y as nat, 2),
        Instruction::Return => seq![Bytecode::RETURN],
        Instruction::Store(index, kind) => seq![Bytecode::STORE] + le_bytes(index as nat, 2)
            + seq![kind],
        Instruction::Array(count) => seq![Bytecode::ARRAY] + le_bytes(count as nat, 4),
        Instruction::Not => seq![Bytecode::NOT],
        Instruction::Add(arity, kind) => seq![Bytecode::ADD] + le_bytes(arity as nat, 2) + seq![
            kind_code(kind),
        ],
        Instruction::Minus(arity, kind) => seq![Bytecode::MINUS] + le_bytes(arity as nat, 2)
            + seq![kind_code(kind)],
        Instruction::Multiply(arity, kind) => seq![Bytecode::MULTIPLY] + le_bytes(arity as nat, 2)
            + seq![kind_code(kind)],
        Instruction::Equal(arity, kind) => seq![Bytecode::EQUAL] + le_bytes(arity as nat, 2)
            + seq![kind_code(kind)],
        Instruction::LessThan(arity, kind) => seq![Bytecode::LESS_THAN] + le_bytes(arity as nat, 2)
            + seq![kind_code(kind)],
        Instruction::Reverse(arity) => seq![Bytecode::REVERSE] + le_bytes(arity as nat, 2),
        Instruction::StationCapture(index) => seq![Bytecode::STATION_CAPTURE] + le_bytes(
            index as nat,
            2,
        ),
    }
}

/// The bytes of the first `count` instructions, laid out from byte `base`.
pub open spec fn encode_prefix(instructions: Seq<Instruction>, count: int, base: nat) -> Seq<u8>
    decreases count,
{
    if count <= 0 {
        Seq::empty()
    } else {
        encode_prefix(instructions, count - 1, base) + encode_at(instructions, count - 1, base)
    }
}

/// The bytes of a whole list of instructions, laid out from byte `base`.
pub open spec fn encode_instructions(instructions: Seq<Instruction>, base: nat) -> Seq<u8> {
    encode_prefix(instructions, instructions.len() as int, base)
}

pub proof fn lemma_encode_at_len(instructions: Seq<Instruction>, position: int, base: nat)
    requires
        0 <= position < instructions.len(),
    ensures
        encode_at(instructions, position, base).len() == instruction_size(instructions[position]),
{
    lemma_le_bytes_len(0, 0);
    match instructions[position] {
        Instruction::Call(index) => lemma_le_bytes_len(index as nat, 2),
        Instruction::BuiltinCall(index, arity) => {
            lemma_le_bytes_len(index as nat, 2);
            lemma_le_bytes_len(arity as nat, 2);
        },
        Instruction::Load(index) => lemma_le_bytes_len(index as nat, 4),
        Instruction::LoadVariable(index) => lemma_le_bytes_len(index as nat, 2),
        Instruction::Jump(target) => lemma_le_bytes_len(
            jump_operand(instructions, position, target as int, base),
            2,
        ),
        Instruction::JumpIfFalse(target) => lemma_le_bytes_len(
            jump_operand(instructions, position, target as int, base),
            2,
        ),
        Instruction::RelativeReference(x, y) => {
            lemma_le_bytes_len(x as nat, 2);
            lemma_le_bytes_len(y as nat, 2);
        },
        Instruction::Return => {},
        Instruction::Store(index, _) => lemma_le_bytes_len(index as nat, 2),
        Instruction::Array(count) => lemma_le_bytes_len(count as nat, 4),
        Instruction::Not => {},
        Instruction::Add(arity, _) => lemma_le_bytes_len(arity as nat, 2),
        Instruction::Minus(arity, _) => lemma_le_bytes_len(arity as nat, 2),
        Instruction::Multiply(arity, _) => lemma_le_bytes_len(arity as nat, 2),
        Instruction::Equal(arity, _) => lemma_le_bytes_len(arity as nat, 2),
        Instruction::LessThan(arity, _) => lemma_le_bytes_len(arity as nat, 2),
        Instruction::Reverse(arity) => lemma_le_bytes_len(arity as nat, 2),
        Instruction::StationCapture(index) => lemma_le_bytes_len(index as nat, 2),
    }
}

/// The first `count` instructions take `sizes_sum` of that prefix in bytes.
pub proof fn lemma_encode_prefix_len(instructions: Seq<Instruction>, count: int, base: nat)
    requires
        0 <= count <= instructions.len(),
    ensures
        encode_prefix(instructions, count, base).len() == sizes_sum(instructions.take(count)),
    decreases count,
{
    if count > 0 {
        lemma_encode_prefix_len(instructions, count - 1, base);
        lemma_encode_at_len(instructions, count - 1, base);
        assert(instructions.take(count).drop_last() =~= instructions.take(count - 1));
    }
}

/// Sizes add up over a concatenation.
pub proof fn lemma_sizes_sum_concat(a: Seq<Instruction>, b: Seq<Instruction>)
    ensures
        sizes_sum(a + b) == sizes_sum(a) + sizes_sum(b),
    decreases b.len(),
{
    if b.len() == 0 {
        assert(a + b =~= a);
    } else {
        lemma_sizes_sum_concat(a, b.drop_last());
        assert((a + b).drop_last() =~= a + b.drop_last());
    }
}

/// Each instruction takes at most five bytes.
pub proof fn lemma_sizes_sum_bound(instructions: Seq<Instruction>)
    ensures
        sizes_sum(instructions) <= 5 * instructions.len(),
    decreases instructions.len(),
{
    if instructions.len() > 0 {
        lemma_sizes_sum_bound(instructions.drop_last());
    }
}

} // verus!
