use vstd::prelude::*;
use vstd::utf8::encode_utf8;
use crate::bytes::{append_bytes, le_bytes, lemma_le_bytes_len, push_le};
use crate::constants_pool::ConstantsPool;
use crate::instructions::{
    byte_distance, encode_at, encode_instructions, encode_prefix, instruction_size,
    jump_operand, lemma_encode_at_len, lemma_encode_prefix_len, lemma_sizes_sum_bound,
    lemma_sizes_sum_concat, sizes_sum, Bytecode, Chunk, Instruction,
};
use crate::memory::Memory;
use crate::value::HeavyValue;
use crate::virmac::VMConfig;

verus! {

/// Lays out instructions, heavy constants and function bodies as bytes.
pub struct Assembler {
    memory: Memory,
    constants_pool: ConstantsPool,
}

/// The jump target of a jump instruction.
pub open spec fn jump_target(instruction: Instruction) -> Option<u16> {
    match instruction {
        Instruction::Jump(target) => Some(target),
        Instruction::JumpIfFalse(target) => Some(target),
        _ => None,
    }
}

/// The instructions can be laid out: every jump targets a position inside
/// the list or just past it, and the bytes fit in memory.
pub open spec fn assemblable(instructions: Seq<Instruction>) -> bool {
    &&& forall|p: int|
        0 <= p < instructions.len() && #[trigger] jump_target(instructions[p]) is Some
            ==> jump_target(instructions[p])->0 <= instructions.len()
    &&& 5 * instructions.len() + 3 <= usize::MAX
}

/// The record of a chunk inside a function body: the length of its code,
/// its arity, its variable count, then its code laid out from byte 0.
pub open spec fn chunk_record(chunk: Chunk) -> Seq<u8> {
    le_bytes(sizes_sum(chunk.instructions@), 8) + seq![chunk.arity] + le_bytes(
        chunk.variables_count as nat,
        2,
    ) + encode_instructions(chunk.instructions@, 0)
}

/// The records of a list of chunks, one after the other.
pub open spec fn chunk_records(chunks: Seq<Chunk>) -> Seq<u8>
    decreases chunks.len(),
{
    if chunks.len() == 0 {
        Seq::empty()
    } else {
        chunk_records(chunks.drop_last()) + chunk_record(chunks.last())
    }
}

/// A function body: the number of its chunks, then their records.
pub open spec fn function_record(chunks: Seq<Chunk>) -> Seq<u8> {
    le_bytes(chunks.len(), 8) + chunk_records(chunks)
}

/// The function bodies, one after the other.
pub open spec fn function_space(functions: Seq<Vec<Chunk>>) -> Seq<u8>
    decreases functions.len(),
{
    if functions.len() == 0 {
        Seq::empty()
    } else {
        function_space(functions.drop_last()) + function_record(functions.last()@)
    }
}

/// The UTF-8 bytes of a heavy constant.
pub open spec fn heavy_bytes(value: HeavyValue) -> Seq<u8> {
    match value {
        HeavyValue::String(string) => encode_utf8(string@),
    }
}

/// A heavy constant in the constant space: its byte length, then its bytes.
pub open spec fn heavy_record(value: HeavyValue) -> Seq<u8> {
    le_bytes(heavy_bytes(value).len(), 8) + heavy_bytes(value)
}

/// The heavy constants, one after the other.
pub open spec fn heavy_space(values: Seq<HeavyValue>) -> Seq<u8>
    decreases values.len(),
{
    if values.len() == 0 {
        Seq::empty()
    } else {
        heavy_space(values.drop_last()) + heavy_record(values.last())
    }
}

impl Assembler {
    pub closed spec fn memory(&self) -> Memory {
        self.memory
    }

    pub closed spec fn constants_pool(&self) -> ConstantsPool {
        self.constants_pool
    }

    /// An assembler that lays out into `memory` what `constants_pool` holds.
    pub fn new(memory: Memory, constants_pool: ConstantsPool) -> (assembler: Assembler)
        ensures
            assembler.memory() == memory,
            assembler.constants_pool() == constants_pool,
    {
        Assembler { memory, constants_pool }
    }

    /// Lays out the main program's chunks, the heavy constants and the function
    /// bodies, and hands the virtual machine the memory and constants.
    pub fn assemble_map(self, map: Vec<Chunk>) -> (result: (Vec<Vec<u8>>, VMConfig))
        requires
            forall|i: int| 0 <= i < map@.len() ==> #[trigger] chunk_assemblable(map@[i]),
            functions_assemblable(self.constants_pool().functions@),
            self.memory().permanent_space@.len() + heavy_space(
                self.constants_pool().heavy_constants@,
            ).len() <= usize::MAX,
            self.memory().functions@.len() + function_space(
                self.constants_pool().functions@,
            ).len() <= usize::MAX,
        ensures
            result.0@.len() == map@.len(),
            forall|i: int|
                0 <= i < map@.len() ==> #[trigger] result.0@[i]@ == encode_instructions(
                    map@[i].instructions@,
                    0,
                ),
            result.1.constants_pool == self.constants_pool().constants,
            result.1.memory.permanent_space@ == self.memory().permanent_space@ + heavy_space(
                self.constants_pool().heavy_constants@,
            ),
            result.1.memory.functions@ == self.memory().functions@ + function_space(
                self.constants_pool().functions@,
            ),
            result.1.memory.from_space == self.memory().from_space,
            result.1.heavy_constant_starts@.len() == self.constants_pool().heavy_constants@.len(),
            forall|k: int|
                0 <= k < result.1.heavy_constant_starts@.len()
                    ==> #[trigger] result.1.heavy_constant_starts@[k]
                    == self.memory().permanent_space@.len() + heavy_space(
                    self.constants_pool().heavy_constants@.take(k),
                ).len(),
            result.1.function_starts@.len() == self.constants_pool().functions@.len(),
            forall|k: int|
                0 <= k < result.1.function_starts@.len() ==> #[trigger] result.1.function_starts@[k]
                    == self.memory().functions@.len() + function_space(
                    self.constants_pool().functions@.take(k),
                ).len(),
    {
        let mut assembler = self;
        let mut byte_map: Vec<Vec<u8>> = Vec::new();
        let mut i: usize = 0;
        while i < map.len()
            invariant
                i <= map@.len(),
                forall|j: int| 0 <= j < map@.len() ==> #[trigger] chunk_assemblable(map@[j]),
                assembler == self,
                byte_map@.len() == i,
                forall|j: int|
                    0 <= j < i ==> #[trigger] byte_map@[j]@ == encode_instructions(
                        map@[j].instructions@,
                        0,
                    ),
            decreases map@.len() - i,
        {
            let mut byte_position: usize = 0;
            let mut byte_chunk: Vec<u8> = Vec::new();
            assert(chunk_assemblable(map@[i as int]));
            assembler.assemble_instruction(&map[i].instructions, &mut byte_position, &mut byte_chunk);
            assert(byte_chunk@ =~= encode_instructions(map@[i as int].instructions@, 0));
            byte_map.push(byte_chunk);
            i += 1;
        }
        let heavy_constant_starts = assembler.assemble_heavy_constants();
        let function_starts = assembler.assemble_function();
        let config = VMConfig {
            heavy_constant_starts,
            function_starts,
            memory: assembler.memory,
            constants_pool: assembler.constants_pool.constants,
        };
        (byte_map, config)
    }

    /// Writes every heavy constant into the constant space and returns where each starts.
    fn assemble_heavy_constants(&mut self) -> (starts: Vec<usize>)
        requires
            old(self).memory.permanent_space@.len() + heavy_space(
                old(self).constants_pool.heavy_constants@,
            ).len() <= usize::MAX,
        ensures
            final(self).memory.permanent_space@ == old(self).memory.permanent_space@ + heavy_space(
                old(self).constants_pool.heavy_constants@,
            ),
            starts@.len() == old(self).constants_pool.heavy_constants@.len(),
            forall|k: int|
                0 <= k < starts@.len() ==> #[trigger] starts@[k] == old(
                    self,
                ).memory.permanent_space@.len() + heavy_space(
                    old(self).constants_pool.heavy_constants@.take(k),
                ).len(),
            final(self).constants_pool.heavy_constants@.len() == 0,
            final(self).constants_pool.constants == old(self).constants_pool.constants,
            final(self).constants_pool.functions == old(self).constants_pool.functions,
            final(self).memory.functions == old(self).memory.functions,
            final(self).memory.from_space == old(self).memory.from_space,
    {
        let mut heavy: Vec<HeavyValue> = Vec::new();
        core::mem::swap(&mut heavy, &mut self.constants_pool.heavy_constants);
        let ghost base = self.memory.permanent_space@;
        let mut starts: Vec<usize> = Vec::new();
        let mut k: usize = 0;
        while k < heavy.len()
            invariant
                k <= heavy@.len(),
                heavy@ == old(self).constants_pool.heavy_constants@,
                base == old(self).memory.permanent_space@,
                base.len() + heavy_space(heavy@).len() <= usize::MAX,
                self.memory.permanent_space@ == base + heavy_space(heavy@.take(k as int)),
                starts@.len() == k,
                forall|j: int|
                    0 <= j < k ==> #[trigger] starts@[j] == base.len() + heavy_space(
                        heavy@.take(j),
                    ).len(),
                self.constants_pool.heavy_constants@.len() == 0,
                self.constants_pool.constants == old(self).constants_pool.constants,
                self.constants_pool.functions == old(self).constants_pool.functions,
                self.memory.functions == old(self).memory.functions,
                self.memory.from_space == old(self).memory.from_space,
            decreases heavy@.len() - k,
        {
            proof {
                assert(heavy@.take(k + 1).drop_last() =~= heavy@.take(k as int));
                lemma_heavy_space_prefix_len(heavy@, (k + 1) as int);
            }
            let HeavyValue::String(text) = &heavy[k];
            starts.push(self.memory.permanent_space.len());
            let bytes = text.as_str().as_bytes();
            let ghost before = self.memory.permanent_space@;
            push_le(&mut self.memory.permanent_space, bytes.len() as u64, 8);
            append_bytes(&mut self.memory.permanent_space, bytes);
            assert(self.memory.permanent_space@ =~= before + heavy_record(heavy@[k as int]));
            k += 1;
        }
        assert(heavy@.take(heavy@.len() as int) =~= heavy@);
        starts
    }

    /// Writes every function body into the function space and returns where each starts.
    fn assemble_function(&mut self) -> (starts: Vec<usize>)
        requires
            functions_assemblable(old(self).constants_pool.functions@),
            old(self).memory.functions@.len() + function_space(
                old(self).constants_pool.functions@,
            ).len() <= usize::MAX,
        ensures
            final(self).memory.functions@ == old(self).memory.functions@ + function_space(
                old(self).constants_pool.functions@,
            ),
            starts@.len() == old(self).constants_pool.functions@.len(),
            forall|k: int|
                0 <= k < starts@.len() ==> #[trigger] starts@[k] == old(self).memory.functions@.len()
                    + function_space(old(self).constants_pool.functions@.take(k)).len(),
            final(self).constants_pool.functions@.len() == 0,
            final(self).constants_pool.constants == old(self).constants_pool.constants,
            final(self).constants_pool.heavy_constants == old(self).constants_pool.heavy_constants,
            final(self).memory.permanent_space == old(self).memory.permanent_space,
            final(self).memory.from_space == old(self).memory.from_space,
    {
        let mut functions: Vec<Vec<Chunk>> = Vec::new();
        core::mem::swap(&mut functions, &mut self.constants_pool.functions);
        let ghost base = self.memory.functions@;
        let mut starts: Vec<usize> = Vec::new();
        let mut k: usize = 0;
        while k < functions.len()
            invariant
                k <= functions@.len(),
                functions@ == old(self).constants_pool.functions@,
                functions_assemblable(functions@),
                base == old(self).memory.functions@,
                base.len() + function_space(functions@).len() <= usize::MAX,
                self.memory.functions@ == base + function_space(functions@.take(k as int)),
                starts@.len() == k,
                forall|j: int|
                    0 <= j < k ==> #[trigger] starts@[j] == base.len() + function_space(
                        functions@.take(j),
                    ).len(),
                self.constants_pool.functions@.len() == 0,
                self.constants_pool.constants == old(self).constants_pool.constants,
                self.constants_pool.heavy_constants == old(self).constants_pool.heavy_constants,
                self.memory.permanent_space == old(self).memory.permanent_space,
                self.memory.from_space == old(self).memory.from_space,
            decreases functions@.len() - k,
        {
            proof {
                assert(functions@.take(k + 1).drop_last() =~= functions@.take(k as int));
                lemma_function_space_prefix_len(functions@, (k + 1) as int);
            }
            starts.push(self.memory.functions.len());
            let function = &functions[k];
            let ghost record_start = self.memory.functions@;
            push_le(&mut self.memory.functions, function.len() as u64, 8);
            let mut c: usize = 0;
            while c < function.len()
                invariant
                    c <= function@.len(),
                    function@ == functions@[k as int]@,
                    functions_assemblable(functions@),
                    k < functions@.len(),
                    record_start.len() + function_record(function@).len() <= usize::MAX,
                    self.memory.functions@ == record_start + le_bytes(function@.len(), 8)
                        + chunk_records(function@.take(c as int)),
                    self.constants_pool.functions@.len() == 0,
                    self.constants_pool.constants == old(self).constants_pool.constants,
                    self.constants_pool.heavy_constants == old(self).constants_pool.heavy_constants,
                    self.memory.permanent_space == old(self).memory.permanent_space,
                    self.memory.from_space == old(self).memory.from_space,
                decreases function@.len() - c,
            {
                proof {
                    assert(function@.take(c + 1).drop_last() =~= function@.take(c as int));
                    lemma_chunk_records_prefix_len(function@, (c + 1) as int);
                    lemma_le_bytes_len(function@.len(), 8);
                    lemma_chunk_record_len(function@[c as int]);
                    assert(chunk_assemblable(function@[c as int]));
                }
                let chunk = &function[c];
                let mut byte_chunk: Vec<u8> = Vec::new();
                byte_chunk.push(chunk.arity);
                push_le(&mut byte_chunk, chunk.variables_count as u64, 2);
                let mut byte_position: usize = 0;
                self.assemble_instruction(&chunk.instructions, &mut byte_position, &mut byte_chunk);
                proof {
                    law_layout_length(chunk.instructions@, 0);
                    lemma_le_bytes_len(chunk.variables_count as nat, 2);
                }
                let code_length = byte_chunk.len() - 3;
                let ghost before = self.memory.functions@;
                push_le(&mut self.memory.functions, code_length as u64, 8);
                append_bytes(&mut self.memory.functions, byte_chunk.as_slice());
                assert(self.memory.functions@ =~= before + chunk_record(function@[c as int]));
                c += 1;
            }
            assert(function@.take(function@.len() as int) =~= function@);
            k += 1;
        }
        assert(functions@.take(functions@.len() as int) =~= functions@);
        starts
    }

    /// The number of bytes between instruction `position` and instruction `target`.
    fn get_byte_distance(&self, instructions: &[Instruction], position: usize, target: u16) -> (distance: usize)
        requires
            position < target ==> target <= instructions@.len(),
            5 * instructions@.len() <= usize::MAX,
        ensures
            distance == byte_distance(instructions@, position as int, target as int),
    {
        let mut distance: usize = 0;
        let mut current = position;
        let ghost target_int = target as int;
        if position < target as usize {
            proof {
                lemma_sizes_sum_bound(instructions@.subrange(position as int, target_int));
            }
            while current < target as usize
                invariant
                    position <= current <= target,
                    target <= instructions@.len(),
                    5 * instructions@.len() <= usize::MAX,
                    distance == sizes_sum(instructions@.subrange(position as int, current as int)),
                    distance <= 5 * (current - position),
                decreases target - current,
            {
                let ghost before = instructions@.subrange(position as int, current as int);
                let size = instruction_byte_size(&instructions[current]);
                distance = distance + size;
                current += 1;
                assert(instructions@.subrange(position as int, current as int).drop_last() =~= before);
            }
        }
        distance
    }

    /// Appends the bytes of the instruction at `position`, which starts at byte
    /// `byte_position` of a layout from byte `base`.
    fn encode_one(
        &self,
        instructions: &Vec<Instruction>,
        position: usize,
        byte_position: usize,
        byte_chunk: &mut Vec<u8>,
        Ghost(base): Ghost<nat>,
    )
        requires
            assemblable(instructions@),
            position < instructions@.len(),
            base + 5 * instructions@.len() + 3 <= usize::MAX,
            byte_position == base + sizes_sum(instructions@.take(position as int)),
        ensures
            final(byte_chunk)@ == old(byte_chunk)@ + encode_at(instructions@, position as int, base),
    {
        proof {
            lemma_sizes_sum_bound(instructions@.take(position as int));
        }
        let ghost before = byte_chunk@;
        let instruction = instructions[position];
        match instruction {
            Instruction::Load(index) => {
                byte_chunk.push(Bytecode::LOAD);
                push_le(byte_chunk, index as u64, 4);
            },
            Instruction::BuiltinCall(index, arity) => {
                byte_chunk.push(Bytecode::BUILTIN_CALL);
                push_le(byte_chunk, index as u64, 2);
                push_le(byte_chunk, arity as u64, 2);
            },
            Instruction::Call(index) => {
                byte_chunk.push(Bytecode::CALL);
                push_le(byte_chunk, index as u64, 2);
            },
            Instruction::RelativeReference(x, y) => {
                byte_chunk.push(Bytecode::RELATIVE_REFERENCE);
                push_le(byte_chunk, x as u64, 2);
                push_le(byte_chunk, y as u64, 2);
            },
            Instruction::Store(index, kind) => {
                byte_chunk.push(Bytecode::STORE);
                push_le(byte_chunk, index as u64, 2);
                byte_chunk.push(kind);
            },
            Instruction::LoadVariable(index) => {
                byte_chunk.push(Bytecode::LOAD_VARIABLE);
                push_le(byte_chunk, index as u64, 2);
            },
            Instruction::Return => {
                byte_chunk.push(Bytecode::RETURN);
            },
            Instruction::Array(count) => {
                byte_chunk.push(Bytecode::ARRAY);
                push_le(byte_chunk, count as u64, 4);
            },
            Instruction::Jump(index) => {
                assert(jump_target(instructions@[position as int]) == Some(index));
                let distance = self.get_byte_distance(instructions.as_slice(), position + 1, index);
                proof {
                    assert(instructions@.take(position as int + 1).drop_last() =~= instructions@.take(
                        position as int,
                    ));
                    if position + 1 < index {
                        lemma_sizes_sum_concat(
                            instructions@.take(position as int + 1),
                            instructions@.subrange(position as int + 1, index as int),
                        );
                        assert(instructions@.take(position as int + 1) + instructions@.subrange(
                            position as int + 1,
                            index as int,
                        ) =~= instructions@.take(index as int));
                        lemma_sizes_sum_bound(instructions@.take(index as int));
                    }
                }
                let operand = ((byte_position + Bytecode::JUMP_SIZE + distance) as u64 % 65536) as u64;
                byte_chunk.push(Bytecode::JUMP);
                push_le(byte_chunk, operand, 2);
            },
            Instruction::JumpIfFalse(index) => {
                assert(jump_target(instructions@[position as int]) == Some(index));
                let distance = self.get_byte_distance(instructions.as_slice(), position + 1, index);
                proof {
                    assert(instructions@.take(position as int + 1).drop_last() =~= instructions@.take(
                        position as int,
                    ));
                    if position + 1 < index {
                        lemma_sizes_sum_concat(
                            instructions@.take(position as int + 1),
                            instructions@.subrange(position as int + 1, index as int),
                        );
                        assert(instructions@.take(position as int + 1) + instructions@.subrange(
                            position as int + 1,
                            index as int,
                        ) =~= instructions@.take(index as int));
                        lemma_sizes_sum_bound(instructions@.take(index as int));
                    }
                }
                let operand = ((byte_position + Bytecode::JUMP_IF_FALSE_SIZE + distance) as u64 % 65536) as u64;
                byte_chunk.push(Bytecode::JUMP_IF_FALSE);
                push_le(byte_chunk, operand, 2);
            },
            Instruction::Not => {
                byte_chunk.push(Bytecode::NOT);
            },
            Instruction::Add(arity, kind) => {
                byte_chunk.push(Bytecode::ADD);
                push_le(byte_chunk, arity as u64, 2);
                byte_chunk.push(kind.code());
            },
            Instruction::Minus(arity, kind) => {
                byte_chunk.push(Bytecode::MINUS);
                push_le(byte_chunk, arity as u64, 2);
                byte_chunk.push(kind.code());
            },
            Instruction::Multiply(arity, kind) => {
                byte_chunk.push(Bytecode::MULTIPLY);
                push_le(byte_chunk, arity as u64, 2);
                byte_chunk.push(kind.code());
            },
            Instruction::Equal(arity, kind) => {
                byte_chunk.push(Bytecode::EQUAL);
                push_le(byte_chunk, arity as u64, 2);
                byte_chunk.push(kind.code());
            },
            Instruction::LessThan(arity, kind) => {
                byte_chunk.push(Bytecode::LESS_THAN);
                push_le(byte_chunk, arity as u64, 2);
                byte_chunk.push(kind.code());
            },
            Instruction::Reverse(arity) => {
                byte_chunk.push(Bytecode::REVERSE);
                push_le(byte_chunk, arity as u64, 2);
            },
            Instruction::StationCapture(index) => {
                byte_chunk.push(Bytecode::STATION_CAPTURE);
                push_le(byte_chunk, index as u64, 2);
            },
        }
        assert(byte_chunk@ =~= before + encode_at(instructions@, position as int, base));
    }

    /// Appends the bytes of `instructions`, laid out from byte `*byte_position`,
    /// to `byte_chunk`, and moves `byte_position` past them.
    fn assemble_instruction(
        &mut self,
        instructions: &Vec<Instruction>,
        byte_position: &mut usize,
        byte_chunk: &mut Vec<u8>,
    )
        requires
            assemblable(instructions@),
            *old(byte_position) + 5 * instructions@.len() + 3 <= usize::MAX,
        ensures
            final(byte_chunk)@ == old(byte_chunk)@ + encode_instructions(
                instructions@,
                *old(byte_position) as nat,
            ),
            *final(byte_position) == *old(byte_position) + sizes_sum(instructions@),
            *final(self) == *old(self),
    {
        let chunk_size = instructions.len();
        let ghost base = *byte_position as nat;
        let mut position: usize = 0;
        while position < chunk_size
            invariant
                chunk_size == instructions@.len(),
                position <= chunk_size,
                assemblable(instructions@),
                base + 5 * instructions@.len() + 3 <= usize::MAX,
                *self == *old(self),
                byte_chunk@ == old(byte_chunk)@ + encode_prefix(instructions@, position as int, base),
                *byte_position == base + sizes_sum(instructions@.take(position as int)),
            decreases chunk_size - position,
        {
            proof {
                lemma_sizes_sum_bound(instructions@.take(position as int));
                lemma_sizes_sum_bound(instructions@);
                assert(instructions@.take(position + 1).drop_last() =~= instructions@.take(
                    position as int,
                ));
                lemma_encode_at_len(instructions@, position as int, base);
            }
            self.encode_one(instructions, position, *byte_position, byte_chunk, Ghost(base));
            *byte_position += instruction_byte_size(&instructions[position]);
            position += 1;
        }
        assert(instructions@.take(chunk_size as int) =~= instructions@);
    }
}

/// The number of bytes an instruction occupies once assembled.
fn instruction_byte_size(instruction: &Instruction) -> (size: usize)
    ensures
        size == instruction_size(*instruction),
        size <= 5,
{
    match instruction {
        Instruction::Call(_) => Bytecode::CALL_SIZE,
        Instruction::BuiltinCall(_, _) => Bytecode::BUILTIN_CALL_SIZE,
        Instruction::Load(_) => Bytecode::LOAD_SIZE,
        Instruction::LoadVariable(_) => Bytecode::LOAD_VARIABLE_SIZE,
        Instruction::Jump(_) => Bytecode::JUMP_SIZE,
        Instruction::JumpIfFalse(_) => Bytecode::JUMP_IF_FALSE_SIZE,
        Instruction::RelativeReference(_, _) => Bytecode::RELATIVE_REFERENCE_SIZE,
        Instruction::Return => Bytecode::RETURN_SIZE,
        Instruction::Store(_, _) => Bytecode::STORE_SIZE,
        Instruction::Array(_) => Bytecode::ARRAY_SIZE,
        Instruction::Not => Bytecode::NOT_SIZE,
        Instruction::Add(_, _) => Bytecode::ADD_SIZE,
        Instruction::Minus(_, _) => Bytecode::MINUS_SIZE,
        Instruction::Multiply(_, _) => Bytecode::MULTIPLY_SIZE,
        Instruction::Equal(_, _) => Bytecode::EQUAL_SIZE,
        Instruction::LessThan(_, _) => Bytecode::LESS_THAN_SIZE,
        Instruction::Reverse(_) => Bytecode::REVERSE_SIZE,
        Instruction::StationCapture(_) => Bytecode::STATION_CAPTURE_SIZE,
    }
}

/// A forward jump lands on its target: the byte position written for a jump
/// from instruction `position` to a later instruction `target` is where the
/// target's bytes start (kept to 16 bits).
pub proof fn law_forward_jump_lands_on_target(
    instructions: Seq<Instruction>,
    position: int,
    target: int,
    base: nat,
)
    requires
        0 <= position < target <= instructions.len(),
        jump_target(instructions[position]) is Some,
    ensures
        jump_operand(instructions, position, target, base) == (base + sizes_sum(
            instructions.take(target),
        )) % 65536,
{
    assert(instructions.take(position + 1).drop_last() =~= instructions.take(position));
    assert(instruction_size(instructions[position]) == 3);
    if position + 1 < target {
        lemma_sizes_sum_concat(
            instructions.take(position + 1),
            instructions.subrange(position + 1, target),
        );
        assert(instructions.take(position + 1) + instructions.subrange(position + 1, target)
            =~= instructions.take(target));
    }
}

/// The laid-out bytes of a list of instructions are exactly as long as the
/// sum of the instructions' sizes, wherever the layout starts.
pub proof fn law_layout_length(instructions: Seq<Instruction>, base: nat)
    ensures
        encode_instructions(instructions, base).len() == sizes_sum(instructions),
{
    lemma_encode_prefix_len(instructions, instructions.len() as int, base);
    assert(instructions.take(instructions.len() as int) =~= instructions);
}

/// The heavy constants of a prefix take no more room than all of them.
proof fn lemma_heavy_space_prefix_len(values: Seq<HeavyValue>, k: int)
    requires
        0 <= k <= values.len(),
    ensures
        heavy_space(values.take(k)).len() <= heavy_space(values).len(),
    decreases values.len() - k,
{
    if k < values.len() {
        lemma_heavy_space_prefix_len(values, k + 1);
        assert(values.take(k + 1).drop_last() =~= values.take(k));
    } else {
        assert(values.take(k) =~= values);
    }
}

/// A chunk's instructions can be laid out.
pub open spec fn chunk_assemblable(chunk: Chunk) -> bool {
    assemblable(chunk.instructions@)
}

/// Every chunk of every function can be laid out.
pub open spec fn functions_assemblable(functions: Seq<Vec<Chunk>>) -> bool {
    forall|k: int, c: int|
        0 <= k < functions.len() && 0 <= c < functions[k]@.len() ==> #[trigger] chunk_assemblable(
            functions[k]@[c],
        )
}

/// A chunk record takes eleven bytes of header and its laid-out code.
proof fn lemma_chunk_record_len(chunk: Chunk)
    ensures
        chunk_record(chunk).len() == 11 + sizes_sum(chunk.instructions@),
{
    lemma_le_bytes_len(sizes_sum(chunk.instructions@), 8);
    lemma_le_bytes_len(chunk.variables_count as nat, 2);
    law_layout_length(chunk.instructions@, 0);
}

/// The records of a prefix of the chunks take no more room than all of them.
proof fn lemma_chunk_records_prefix_len(chunks: Seq<Chunk>, k: int)
    requires
        0 <= k <= chunks.len(),
    ensures
        chunk_records(chunks.take(k)).len() <= chunk_records(chunks).len(),
    decreases chunks.len() - k,
{
    if k < chunks.len() {
        lemma_chunk_records_prefix_len(chunks, k + 1);
        assert(chunks.take(k + 1).drop_last() =~= chunks.take(k));
    } else {
        assert(chunks.take(k) =~= chunks);
    }
}

/// The bodies of a prefix of the functions take no more room than all of them.
proof fn lemma_function_space_prefix_len(functions: Seq<Vec<Chunk>>, k: int)
    requires
        0 <= k <= functions.len(),
    ensures
        function_space(functions.take(k)).len() <= function_space(functions).len(),
    decreases functions.len() - k,
{
    if k < functions.len() {
        lemma_function_space_prefix_len(functions, k + 1);
        assert(functions.take(k + 1).drop_last() =~= functions.take(k));
    } else {
        assert(functions.take(k) =~= functions);
    }
}


/// The number of bytes an instruction occupies once assembled.
fn size_of(instruction: &Instruction) -> (size: usize)
    ensures
        size == instruction_size(*instruction),
{
    match instruction {
        Instruction::Call(_) | Instruction::LoadVariable(_) | Instruction::Jump(_) | Instruction::JumpIfFalse(_)
        | Instruction::Reverse(_) | Instruction::StationCapture(_) => 3,
        Instruction::BuiltinCall(_, _) | Instruction::Load(_) | Instruction::RelativeReference(_, _)
        | Instruction::Array(_) => 5,
        Instruction::Return | Instruction::Not => 1,
        _ => 4,
    }
}

/// Whether a chunk's instructions can be laid out.
fn chunk_can_assemble(chunk: &Chunk) -> (fits: bool)
    ensures
        fits == chunk_assemblable(*chunk),
{
    let count = chunk.instructions.len();
    if count > (usize::MAX - 3) / 5 {
        return false;
    }
    let mut p: usize = 0;
    while p < count
        invariant
            count == chunk.instructions@.len(),
            p <= count,
            5 * count + 3 <= usize::MAX,
            forall|q: int| 0 <= q < p && #[trigger] jump_target(chunk.instructions@[q]) is Some
                ==> jump_target(chunk.instructions@[q])->0 <= count,
        decreases count - p,
    {
        let target = match &chunk.instructions[p] {
            Instruction::Jump(t) => Some(*t),
            Instruction::JumpIfFalse(t) => Some(*t),
            _ => None,
        };
        assert(target == jump_target(chunk.instructions@[p as int]));
        if let Some(t) = target {
            if (t as usize) > count {
                return false;
            }
        }
        p += 1;
    }
    true
}

/// The bytes a chunk's code takes once laid out.
fn code_length(chunk: &Chunk) -> (length: u128)
    ensures
        length == sizes_sum(chunk.instructions@),
{
    let mut total: u128 = 0;
    let mut i: usize = 0;
    assert(chunk.instructions@.take(0) =~= Seq::<Instruction>::empty());
    while i < chunk.instructions.len()
        invariant
            i <= chunk.instructions@.len(),
            total == sizes_sum(chunk.instructions@.take(i as int)),
            total <= 5 * i,
        decreases chunk.instructions@.len() - i,
    {
        assert(chunk.instructions@.take(i + 1).drop_last() =~= chunk.instructions@.take(i as int));
        assert(chunk.instructions@.take(i + 1).last() == chunk.instructions@[i as int]);
        total = total + size_of(&chunk.instructions[i]) as u128;
        i += 1;
    }
    assert(chunk.instructions@.take(i as int) =~= chunk.instructions@);
    total
}

/// The bytes a function body takes once laid out, where they are at most
/// `usize::MAX`.
fn function_length(chunks: &Vec<Chunk>) -> (length: Option<usize>)
    ensures
        length matches Some(n) ==> n == function_record(chunks@).len(),
        length is None ==> function_record(chunks@).len() > usize::MAX,
{
    proof {
        lemma_le_bytes_len(chunks@.len() as nat, 8);
    }
    let mut total: u128 = 8;
    let mut i: usize = 0;
    assert(chunks@.take(0) =~= Seq::<Chunk>::empty());
    while i < chunks.len()
        invariant
            i <= chunks@.len(),
            function_record(chunks@).len() == 8 + chunk_records(chunks@).len(),
            total == 8 + chunk_records(chunks@.take(i as int)).len(),
            total <= usize::MAX,
        decreases chunks@.len() - i,
    {
        assert(chunks@.take(i + 1).drop_last() =~= chunks@.take(i as int));
        assert(chunks@.take(i + 1).last() == chunks@[i as int]);
        proof {
            lemma_chunk_record_len(chunks@[i as int]);
            lemma_chunk_records_prefix_len(chunks@, i + 1);
        }
        let code = code_length(&chunks[i]);
        if code > (usize::MAX as u128) {
            return None;
        }
        total = total + 11 + code;
        if total > (usize::MAX as u128) {
            return None;
        }
        i += 1;
    }
    assert(chunks@.take(i as int) =~= chunks@);
    Some(total as usize)
}

impl Assembler {
    /// Whether the chunks and the pool can be laid out into the memory: the
    /// condition `assemble_map` asks for.
    pub fn can_assemble(&self, map: &Vec<Chunk>) -> (fits: bool)
        ensures
            fits == ({
                &&& forall|i: int| 0 <= i < map@.len() ==> #[trigger] chunk_assemblable(map@[i])
                &&& functions_assemblable(self.constants_pool().functions@)
                &&& self.memory().permanent_space@.len() + heavy_space(self.constants_pool().heavy_constants@).len()
                    <= usize::MAX
                &&& self.memory().functions@.len() + function_space(self.constants_pool().functions@).len() <= usize::MAX
            }),
    {
        let mut i: usize = 0;
        while i < map.len()
            invariant
                i <= map@.len(),
                forall|k: int| 0 <= k < i ==> #[trigger] chunk_assemblable(map@[k]),
            decreases map@.len() - i,
        {
            if !chunk_can_assemble(&map[i]) {
                return false;
            }
            i += 1;
        }
        let functions = &self.constants_pool.functions;
        let mut k: usize = 0;
        while k < functions.len()
            invariant
                k <= functions@.len(),
                functions == &self.constants_pool.functions,
                forall|a: int, c: int| 0 <= a < k && 0 <= c < functions@[a]@.len() ==> #[trigger] chunk_assemblable(
                    functions@[a]@[c],
                ),
            decreases functions@.len() - k,
        {
            let mut c: usize = 0;
            while c < functions[k].len()
                invariant
                    k < functions@.len(),
                    c <= functions@[k as int]@.len(),
                    functions == &self.constants_pool.functions,
                    forall|a: int, d: int| 0 <= a < k && 0 <= d < functions@[a]@.len() ==> #[trigger] chunk_assemblable(
                        functions@[a]@[d],
                    ),
                    forall|d: int| 0 <= d < c ==> #[trigger] chunk_assemblable(functions@[k as int]@[d]),
                decreases functions@[k as int]@.len() - c,
            {
                if !chunk_can_assemble(&functions[k][c]) {
                    return false;
                }
                c += 1;
            }
            k += 1;
        }
        let heavy = &self.constants_pool.heavy_constants;
        let mut total: u128 = self.memory.permanent_space.len() as u128;
        let mut h: usize = 0;
        assert(heavy@.take(0) =~= Seq::<HeavyValue>::empty());
        while h < heavy.len()
            invariant
                h <= heavy@.len(),
                heavy == &self.constants_pool.heavy_constants,
                total == self.memory.permanent_space@.len() + heavy_space(heavy@.take(h as int)).len(),
                total <= usize::MAX,
            decreases heavy@.len() - h,
        {
            assert(heavy@.take(h + 1).drop_last() =~= heavy@.take(h as int));
            assert(heavy@.take(h + 1).last() == heavy@[h as int]);
            proof {
                lemma_heavy_space_prefix_len(heavy@, h + 1);
            }
            let length = match &heavy[h] {
                HeavyValue::String(text) => text.as_str().as_bytes().len(),
            };
            proof {
                lemma_le_bytes_len(length as nat, 8);
            }
            total = total + 8 + length as u128;
            if total > (usize::MAX as u128) {
                return false;
            }
            h += 1;
        }
        assert(heavy@.take(h as int) =~= heavy@);
        let mut space: u128 = self.memory.functions.len() as u128;
        let mut f: usize = 0;
        assert(functions@.take(0) =~= Seq::<Vec<Chunk>>::empty());
        while f < functions.len()
            invariant
                f <= functions@.len(),
                functions == &self.constants_pool.functions,
                space == self.memory.functions@.len() + function_space(functions@.take(f as int)).len(),
                space <= usize::MAX,
            decreases functions@.len() - f,
        {
            assert(functions@.take(f + 1).drop_last() =~= functions@.take(f as int));
            assert(functions@.take(f + 1).last() == functions@[f as int]);
            proof {
                lemma_function_space_prefix_len(functions@, f + 1);
            }
            match function_length(&functions[f]) {
                None => {
                    return false;
                },
                Some(length) => {
                    space = space + length as u128;
                    if space > (usize::MAX as u128) {
                        return false;
                    }
                },
            }
            f += 1;
        }
        assert(functions@.take(f as int) =~= functions@);
        true
    }
}

} // verus!
