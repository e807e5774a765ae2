use vstd::prelude::*;
use vstd::utf8::*;
use crate::bytes::{append_bytes, le_bytes, le_value, lemma_le_bytes_len, lemma_le_round_trip, lemma_le_value_bound, lemma_pow256_values, pow256, push_le, read_le};
use crate::error_handler::ErrorHandler;
use crate::lexer::text_of;
use crate::memory::{allocation_collects, collectable, collected_heap, heap_before_allocation, stack_after_collection, Memory};
use crate::instructions::Bytecode;
use crate::value::{get_kind, kind_code, Kind, LightValue, Value, BOOLEAN_SIZE, FLOAT_SIZE, INTEGER_SIZE, KIND_ARRAY, KIND_BOOLEAN, KIND_FLOAT, KIND_INTEGER, KIND_NIL, KIND_STRING, NIL_SIZE};

verus! {

/// What the assembler hands the virtual machine: its memory, the constants
/// it loads, and where each heavy constant and each function starts.
pub struct VMConfig {
    pub memory: Memory,
    pub constants_pool: Vec<LightValue>,
    pub heavy_constant_starts: Vec<usize>,
    pub function_starts: Vec<usize>,
}

/// What a running program keeps apart from its stack: its memory, its
/// constants, where heavy constants and functions start, and its errors.
pub struct VirMac {
    pub memory: Memory,
    pub constants_pool: Vec<LightValue>,
    pub heavy_constant_starts: Vec<usize>,
    pub function_starts: Vec<usize>,
    pub error_handler: ErrorHandler,
}

/// Where a frame is in its code and its part of the stack.
#[derive(Debug, Clone, Copy, PartialEq, Eq, Structural)]
pub struct CallFrame {
    pub instruction_position: usize,
    pub end_instruction: usize,
    pub stack_position: usize,
    pub base_pointer: usize,
    pub reference_pointer: usize,
}

/// What a step asks of the loop that runs the frames: a call, a return,
/// or an operation done outside the machine on the values at
/// `start..end` of the stack, whose result goes to `start`.
#[derive(Debug, Clone, Copy, PartialEq, Eq, Structural)]
pub enum FrameInstruction {
    /// Call the function whose start has this index.
    New(u16),
    /// Leave the frame.
    Pop,
    /// Run builtin `index`.
    Builtin(u16, usize, usize),
    /// Fold floats with the arithmetic or comparison of this operation code.
    Float(u8, usize, usize),
}

/// The operand of `width` bytes at offset `k` of the instruction at `ip`.
pub open spec fn operand(code: Seq<u8>, ip: int, k: int, width: int) -> int {
    le_value(code.subrange(ip + k, ip + k + width)) as int
}

/// The stack once it has room for position `sp`: doubled with nil when it
/// has not.
pub open spec fn grown(stack: Seq<LightValue>, sp: int) -> Seq<LightValue> {
    if stack.len() <= sp {
        stack + Seq::new(stack.len(), |i: int| LightValue::Nil)
    } else {
        stack
    }
}

/// The integer of an integer light value.
pub open spec fn int_of(value: LightValue) -> int {
    match value {
        LightValue::Integer(i) => i as int,
        _ => 0,
    }
}

/// Folding integers from `first` with addition, subtraction or
/// multiplication, per operation code.
pub open spec fn int_fold(first: int, rest: Seq<LightValue>, code: u8) -> int
    decreases rest.len(),
{
    if rest.len() == 0 {
        first
    } else {
        let before = int_fold(first, rest.drop_last(), code);
        let x = int_of(rest.last());
        if code == Bytecode::ADD {
            before + x
        } else if code == Bytecode::MINUS {
            before - x
        } else {
            before * x
        }
    }
}

/// Every intermediate result of the fold is an `i64`.
pub open spec fn fold_fits(first: int, rest: Seq<LightValue>, code: u8) -> bool
    decreases rest.len(),
{
    rest.len() == 0 || (fold_fits(first, rest.drop_last(), code) && i64::MIN <= int_fold(first, rest, code) <= i64::MAX)
}

/// The size of the instruction with each operation code.
pub open spec fn code_size(code: u8) -> int {
    if code == Bytecode::CALL { 3 }
    else if code == Bytecode::BUILTIN_CALL { 5 }
    else if code == Bytecode::LOAD { 5 }
    else if code == Bytecode::LOAD_VARIABLE { 3 }
    else if code == Bytecode::JUMP { 3 }
    else if code == Bytecode::JUMP_IF_FALSE { 3 }
    else if code == Bytecode::RELATIVE_REFERENCE { 5 }
    else if code == Bytecode::RETURN { 1 }
    else if code == Bytecode::STORE { 4 }
    else if code == Bytecode::ARRAY { 5 }
    else if code == Bytecode::NOT { 1 }
    else if code == Bytecode::ADD || code == Bytecode::MINUS || code == Bytecode::MULTIPLY
        || code == Bytecode::EQUAL || code == Bytecode::LESS_THAN { 4 }
    else { 3 }
}

impl VirMac {
    /// The value a light value stands for.
    pub open spec fn light_model(&self, value: LightValue) -> ValueModel {
        match value {
            LightValue::Boolean(b) => ValueModel::Boolean(b),
            LightValue::Nil => ValueModel::Nil,
            LightValue::Float(bits) => ValueModel::Float(bits),
            LightValue::Integer(i) => ValueModel::Integer(i),
            LightValue::StringPointer(i) => ValueModel::String(string_block(
                self.memory.permanent_space@, self.heavy_constant_starts@[i as int] as int)),
            LightValue::StringHeapPointer(i) => ValueModel::String(string_block(self.memory.from_space@, i as int)),
            LightValue::ArrayPointer(i) => ValueModel::Array(items_of(decode_block(self.memory.from_space@, i as int))),
        }
    }

    /// Whether what a light value points to can be read.
    pub open spec fn readable(&self, value: LightValue) -> bool {
        match value {
            LightValue::StringPointer(i) => i < self.heavy_constant_starts@.len()
                && string_block_ok(self.memory.permanent_space@, self.heavy_constant_starts@[i as int] as int),
            LightValue::StringHeapPointer(i) => string_block_ok(self.memory.from_space@, i as int),
            LightValue::ArrayPointer(i) => decode_block(self.memory.from_space@, i as int) is Some
                && self.memory.from_space@.len() < usize::MAX,
            _ => true,
        }
    }

    /// Whether the instruction at the frame's position can run once the
    /// stack has room: the stack is not empty and doubling it fits.
    pub open spec fn dispatchable(&self, frame: CallFrame, stack: Seq<LightValue>) -> bool {
        &&& stack.len() > 0
        &&& stack.len() * 2 <= usize::MAX
        &&& self.runnable(frame, grown(stack, frame.stack_position as int))
    }

    /// Whether the instruction at the frame's position can run on stack
    /// `s`: its operands are in the code, the stack slots it uses exist, the
    /// values it computes with have the kinds it expects, and integer
    /// arithmetic stays in range.
    pub open spec fn runnable(&self, frame: CallFrame, s: Seq<LightValue>) -> bool {
        let code = self.memory.functions@;
        let ip = frame.instruction_position as int;
        let sp = frame.stack_position as int;
        let bp = frame.base_pointer as int;
        let rp = frame.reference_pointer as int;
        &&& ip < code.len()
        &&& code[ip] <= Bytecode::STATION_CAPTURE
        &&& ip + code_size(code[ip]) <= code.len()
        &&& sp < s.len()
        &&& {
            let op = code[ip];
            let o16 = operand(code, ip, 1, 2);
            if op == Bytecode::LOAD {
                operand(code, ip, 1, 4) < self.constants_pool@.len()
            } else if op == Bytecode::LOAD_VARIABLE {
                bp + o16 < s.len()
            } else if op == Bytecode::JUMP_IF_FALSE {
                sp >= 1
            } else if op == Bytecode::STORE {
                sp >= 1 && bp + o16 < s.len()
            } else if op == Bytecode::BUILTIN_CALL {
                sp >= operand(code, ip, 3, 2)
            } else if op == Bytecode::RELATIVE_REFERENCE {
                operand(code, ip, 3, 2) == 0 && rp + o16 < s.len()
            } else if op == Bytecode::STATION_CAPTURE {
                sp >= 1 && rp + o16 < s.len()
            } else if op == Bytecode::RETURN {
                sp >= 1 && bp < s.len()
            } else if op == Bytecode::ARRAY {
                let count = operand(code, ip, 1, 4);
                &&& count <= sp
                &&& forall|k: int| sp - count <= k < sp ==> #[trigger] self.readable(s[k])
            } else if op == Bytecode::NOT {
                sp >= 1 && s[sp - 1] is Boolean
            } else if op == Bytecode::REVERSE {
                o16 <= sp
            } else if op >= Bytecode::ADD && op <= Bytecode::LESS_THAN {
                let start = sp - o16;
                &&& 1 <= o16 <= sp
                &&& code[ip + 3] == kind_code(Kind::Integer) || code[ip + 3] == kind_code(Kind::Float)
                &&& code[ip + 3] == kind_code(Kind::Integer) ==> {
                    &&& forall|k: int| start <= k < sp ==> #[trigger] s[k] is Integer
                    &&& op <= Bytecode::MULTIPLY ==> fold_fits(int_of(s[start]), s.subrange(start + 1, sp), op)
                }
                &&& code[ip + 3] == kind_code(Kind::Float) && op >= Bytecode::EQUAL ==> s[start] is Float
            } else {
                true
            }
        }
    }
}

/// A frame moved to instruction `ip` with stack position `sp`.
pub open spec fn moved(frame: CallFrame, ip: int, sp: int) -> CallFrame {
    CallFrame {
        instruction_position: ip as usize,
        end_instruction: frame.end_instruction,
        stack_position: sp as usize,
        base_pointer: frame.base_pointer,
        reference_pointer: frame.reference_pointer,
    }
}

/// The stack with positions `from..to` in reverse order.
pub open spec fn reversed_range(s: Seq<LightValue>, from: int, to: int) -> Seq<LightValue> {
    Seq::new(s.len(), |k: int| if from <= k < to { s[from + to - 1 - k] } else { s[k] })
}

impl VirMac {
    /// The values an array instruction gathers: those at `start..end`.
    pub open spec fn gathered(&self, s: Seq<LightValue>, start: int, end: int) -> Seq<ValueModel> {
        Seq::new((end - start) as nat, |j: int| self.light_model(s[start + j]))
    }

    /// The frame, stack and request after the instruction at the frame's
    /// position runs.
    pub open spec fn step(&self, frame: CallFrame, s: Seq<LightValue>) -> (CallFrame, Seq<LightValue>, Option<FrameInstruction>) {
        let code = self.memory.functions@;
        let ip = frame.instruction_position as int;
        let sp = frame.stack_position as int;
        let bp = frame.base_pointer as int;
        let rp = frame.reference_pointer as int;
        let op = code[ip];
        let o16 = operand(code, ip, 1, 2);
        if op == Bytecode::LOAD {
            (moved(frame, ip + 5, sp + 1), s.update(sp, self.constants_pool@[operand(code, ip, 1, 4)]), None)
        } else if op == Bytecode::LOAD_VARIABLE {
            (moved(frame, ip + 3, sp + 1), s.update(sp, s[bp + o16]), None)
        } else if op == Bytecode::JUMP {
            (moved(frame, o16, sp), s, None)
        } else if op == Bytecode::JUMP_IF_FALSE {
            (moved(frame, if s[sp - 1] == LightValue::Boolean(false) { o16 } else { ip + 3 }, sp - 1), s, None)
        } else if op == Bytecode::STORE {
            (moved(frame, ip + 4, sp), s.update(bp + o16, s[sp - 1]), None)
        } else if op == Bytecode::BUILTIN_CALL {
            let start = sp - operand(code, ip, 3, 2);
            (moved(frame, ip + 5, start + 1), s, Some(FrameInstruction::Builtin(o16 as u16, start as usize, sp as usize)))
        } else if op == Bytecode::CALL {
            (moved(frame, ip + 3, sp), s, Some(FrameInstruction::New(o16 as u16)))
        } else if op == Bytecode::RELATIVE_REFERENCE {
            (moved(frame, ip + 5, sp + 1), s.update(sp, s[rp + o16]), None)
        } else if op == Bytecode::STATION_CAPTURE {
            (moved(frame, ip + 3, sp), s.update(rp + o16, s[sp - 1]), None)
        } else if op == Bytecode::RETURN {
            (frame, s.update(bp, s[sp - 1]).update(sp - 1, s[bp]), Some(FrameInstruction::Pop))
        } else if op == Bytecode::ARRAY {
            let start = sp - operand(code, ip, 1, 4);
            (moved(frame, ip + 5, start + 1), s.update(start, LightValue::ArrayPointer(self.memory.from_space@.len() as u32)), None)
        } else if op == Bytecode::NOT {
            (moved(frame, ip + 1, sp), s.update(sp - 1, LightValue::Boolean(!(s[sp - 1]->Boolean_0))), None)
        } else if op == Bytecode::REVERSE {
            (moved(frame, ip + 3, sp), reversed_range(s, sp - o16, sp), None)
        } else {
            let start = sp - o16;
            let first = int_of(s[start]);
            let rest = s.subrange(start + 1, sp);
            if code[ip + 3] == kind_code(Kind::Float) {
                (moved(frame, ip + 4, start + 1), s, Some(FrameInstruction::Float(op, start as usize, sp as usize)))
            } else if op == Bytecode::EQUAL {
                (moved(frame, ip + 4, start + 1), s.update(start, LightValue::Boolean(
                    forall|k: int| 0 <= k < rest.len() ==> #[trigger] int_of(rest[k]) == first)), None)
            } else if op == Bytecode::LESS_THAN {
                (moved(frame, ip + 4, start + 1), s.update(start, LightValue::Boolean(
                    forall|k: int| 0 <= k < rest.len() ==> first < #[trigger] int_of(rest[k]))), None)
            } else {
                (moved(frame, ip + 4, start + 1), s.update(start, LightValue::Integer(int_fold(first, rest, op) as i64)), None)
            }
        }
    }

    /// The heap after the instruction at the frame's position runs: an array
    /// instruction appends the block of the values it gathers.
    pub open spec fn step_heap(&self, frame: CallFrame, s: Seq<LightValue>) -> Seq<u8> {
        let code = self.memory.functions@;
        let ip = frame.instruction_position as int;
        let sp = frame.stack_position as int;
        if code[ip] == Bytecode::ARRAY {
            self.memory.from_space@ + block_bytes(elements_bytes(self.gathered(s, sp - operand(code, ip, 1, 4), sp)))
        } else {
            self.memory.from_space@
        }
    }
}

pub proof fn lemma_fold_prefix(first: int, rest: Seq<LightValue>, code: u8, j: int)
    requires
        fold_fits(first, rest, code),
        0 <= j <= rest.len(),
    ensures
        fold_fits(first, rest.take(j), code),
    decreases rest.len() - j,
{
    if j < rest.len() {
        assert(rest.drop_last().take(j) =~= rest.take(j));
        lemma_fold_prefix(first, rest.drop_last(), code, j);
    } else {
        assert(rest.take(j) =~= rest);
    }
}

pub proof fn lemma_fold_step(first: int, rest: Seq<LightValue>, code: u8, j: int)
    requires
        0 <= j < rest.len(),
    ensures
        int_fold(first, rest.take(j + 1), code) == (if code == Bytecode::ADD {
            int_fold(first, rest.take(j), code) + int_of(rest[j])
        } else if code == Bytecode::MINUS {
            int_fold(first, rest.take(j), code) - int_of(rest[j])
        } else {
            int_fold(first, rest.take(j), code) * int_of(rest[j])
        }),
        fold_fits(first, rest.take(j + 1), code) == (fold_fits(first, rest.take(j), code)
            && i64::MIN <= int_fold(first, rest.take(j + 1), code) <= i64::MAX),
{
    assert(rest.take(j + 1).drop_last() =~= rest.take(j));
    assert(rest.take(j + 1).last() == rest[j]);
}

/// A value with its text as characters.
pub enum ValueModel {
    Boolean(bool),
    Nil,
    Float(u64),
    Integer(i64),
    String(Seq<char>),
    Array(Seq<ValueModel>),
}

/// The model of a value.
pub open spec fn value_model(value: Value) -> ValueModel
    decreases value, 0nat,
{
    match value {
        Value::Boolean(b) => ValueModel::Boolean(b),
        Value::Nil => ValueModel::Nil,
        Value::Float(bits) => ValueModel::Float(bits),
        Value::Integer(i) => ValueModel::Integer(i),
        Value::String(s) => ValueModel::String(s@),
        Value::Array(items) => ValueModel::Array(values_model(items@)),
    }
}

/// The models of consecutive values.
pub open spec fn values_model(values: Seq<Value>) -> Seq<ValueModel>
    decreases values, 0nat,
{
    if values.len() == 0 {
        Seq::empty()
    } else {
        values_model(values.drop_last()).push(value_model(values.last()))
    }
}

/// The bytes of a value as an element of a heap array: its kind tag, then
/// its payload; strings and arrays give their byte length first.
pub open spec fn element_bytes(value: ValueModel) -> Seq<u8>
    decreases value, 0nat,
{
    match value {
        ValueModel::Boolean(b) => seq![KIND_BOOLEAN, if b { 1u8 } else { 0u8 }],
        ValueModel::Nil => seq![KIND_NIL],
        ValueModel::Float(bits) => seq![KIND_FLOAT] + le_bytes(bits as nat, 8),
        ValueModel::Integer(i) => seq![KIND_INTEGER] + le_bytes((i as u64) as nat, 8),
        ValueModel::String(text) => seq![KIND_STRING] + le_bytes(encode_utf8(text).len(), 8) + encode_utf8(text),
        ValueModel::Array(items) => seq![KIND_ARRAY] + block_bytes(elements_bytes(items)),
    }
}

/// The bytes of consecutive elements.
pub open spec fn elements_bytes(values: Seq<ValueModel>) -> Seq<u8>
    decreases values, 0nat,
{
    if values.len() == 0 {
        Seq::empty()
    } else {
        elements_bytes(values.drop_last()) + element_bytes(values.last())
    }
}

/// A heap block: its payload's byte length, then the payload.
pub open spec fn block_bytes(payload: Seq<u8>) -> Seq<u8> {
    le_bytes(payload.len(), 8) + payload
}

/// The element that starts at `p` of the heap, and where it ends. A
/// boolean element reads back as false whatever its byte says, as the
/// decoder looks at the kind tag in its place.
pub open spec fn decode_element(heap: Seq<u8>, p: int) -> Option<(ValueModel, int)>
    decreases heap.len() - p, 0nat,
{
    if !(0 <= p < heap.len()) {
        None
    } else if heap[p] == KIND_BOOLEAN {
        Some((ValueModel::Boolean(heap[p] != 0), p + 2))
    } else if heap[p] == KIND_NIL {
        Some((ValueModel::Nil, p + 1))
    } else if heap[p] == KIND_FLOAT {
        if p + 9 <= heap.len() {
            Some((ValueModel::Float(le_value(heap.subrange(p + 1, p + 9)) as u64), p + 9))
        } else {
            None
        }
    } else if heap[p] == KIND_INTEGER {
        if p + 9 <= heap.len() {
            Some((ValueModel::Integer((le_value(heap.subrange(p + 1, p + 9)) as u64) as i64), p + 9))
        } else {
            None
        }
    } else if heap[p] == KIND_STRING {
        if p + 9 <= heap.len() {
            let n = le_value(heap.subrange(p + 1, p + 9));
            if p + 9 + n <= heap.len() && valid_utf8(heap.subrange(p + 9, p + 9 + n)) {
                Some((ValueModel::String(decode_utf8(heap.subrange(p + 9, p + 9 + n))), p + 9 + n))
            } else {
                None
            }
        } else {
            None
        }
    } else if heap[p] == KIND_ARRAY {
        match decode_block(heap, p + 1) {
            Some((items, q)) => Some((ValueModel::Array(items), q)),
            None => None,
        }
    } else {
        None
    }
}

/// The elements of the heap block that starts at `p`, and where reading
/// them stopped.
pub open spec fn decode_block(heap: Seq<u8>, p: int) -> Option<(Seq<ValueModel>, int)>
    decreases heap.len() - p, 2nat,
{
    if 0 <= p && p + 8 <= heap.len() && p + 8 + le_value(heap.subrange(p, p + 8)) <= usize::MAX {
        decode_elements(heap, p + 8, p + 8 + le_value(heap.subrange(p, p + 8)))
    } else {
        None
    }
}

/// The elements read from `p` while the position is before `end`, and where
/// reading stopped.
pub open spec fn decode_elements(heap: Seq<u8>, p: int, end: int) -> Option<(Seq<ValueModel>, int)>
    decreases heap.len() - p, 1nat,
{
    if p >= end {
        Some((Seq::empty(), p))
    } else if !(0 <= p <= heap.len()) {
        None
    } else {
        match decode_element(heap, p) {
            None => None,
            Some((value, q)) => if q >= end {
                Some((seq![value], q))
            } else if q <= p || q > heap.len() {
                None
            } else {
                match decode_elements(heap, q, end) {
                    Some((rest, r)) => Some((seq![value] + rest, r)),
                    None => None,
                }
            },
        }
    }
}

/// No `true` boolean occurs in the value.
pub open spec fn without_true(value: ValueModel) -> bool
    decreases value, 0nat,
{
    match value {
        ValueModel::Boolean(b) => !b,
        ValueModel::Array(items) => all_without_true(items),
        _ => true,
    }
}

/// No `true` boolean occurs in the values.
pub open spec fn all_without_true(values: Seq<ValueModel>) -> bool
    decreases values, 0nat,
{
    values.len() == 0 || (all_without_true(values.drop_last()) && without_true(values.last()))
}

pub proof fn lemma_elements_bytes_front(values: Seq<ValueModel>)
    requires
        values.len() > 0,
    ensures
        elements_bytes(values) == element_bytes(values[0]) + elements_bytes(values.drop_first()),
        all_without_true(values) == (without_true(values[0]) && all_without_true(values.drop_first())),
    decreases values.len(),
{
    if values.len() == 1 {
        assert(values.drop_last() =~= Seq::<ValueModel>::empty());
        assert(values.drop_first() =~= Seq::<ValueModel>::empty());
        assert(elements_bytes(Seq::<ValueModel>::empty()) == Seq::<u8>::empty());
        assert(element_bytes(values[0]) + Seq::<u8>::empty() =~= element_bytes(values[0]));
    } else {
        lemma_elements_bytes_front(values.drop_last());
        assert(values.drop_last().drop_first() =~= values.drop_first().drop_last());
        assert(values.drop_first().last() == values.last());
        assert(values.drop_last()[0] == values[0]);
    }
}

pub proof fn lemma_element_bytes_nonempty(value: ValueModel)
    ensures
        element_bytes(value).len() >= 1,
        element_bytes(value)[0] == match value {
            ValueModel::Boolean(_) => KIND_BOOLEAN,
            ValueModel::Nil => KIND_NIL,
            ValueModel::Float(_) => KIND_FLOAT,
            ValueModel::Integer(_) => KIND_INTEGER,
            ValueModel::String(_) => KIND_STRING,
            ValueModel::Array(_) => KIND_ARRAY,
        },
{
}

pub proof fn lemma_sub_of_sub(heap: Seq<u8>, p: int, bytes: Seq<u8>, a: int, b: int)
    requires
        0 <= p,
        p + bytes.len() <= heap.len(),
        heap.subrange(p, p + bytes.len()) == bytes,
        0 <= a <= b <= bytes.len(),
    ensures
        heap.subrange(p + a, p + b) == bytes.subrange(a, b),
{
    assert forall|k: int| 0 <= k < b - a implies #[trigger] heap.subrange(p + a, p + b)[k] == bytes.subrange(a, b)[k] by {
        assert(heap.subrange(p, p + bytes.len())[a + k] == heap[p + a + k]);
    }
    assert(heap.subrange(p + a, p + b) =~= bytes.subrange(a, b));
}

/// Reading back the bytes written for a value gives the value, when no
/// `true` occurs in it (a boolean reads back as false) and its lengths fit.
pub proof fn law_element_round_trip(value: ValueModel, heap: Seq<u8>, p: int)
    requires
        without_true(value),
        0 <= p,
        p + element_bytes(value).len() <= heap.len(),
        heap.len() < usize::MAX,
        heap.subrange(p, p + element_bytes(value).len()) == element_bytes(value),
    ensures
        decode_element(heap, p) == Some((value, p + element_bytes(value).len())),
    decreases value, 1nat,
{
    let bytes = element_bytes(value);
    lemma_element_bytes_nonempty(value);
    assert(heap[p] == bytes[0]);
    lemma_pow256_values();
    match value {
        ValueModel::Boolean(b) => {},
        ValueModel::Nil => {},
        ValueModel::Float(bits) => {
            lemma_le_bytes_len(bits as nat, 8);
            lemma_sub_of_sub(heap, p, bytes, 1, 9);
            assert(bytes.subrange(1, 9) =~= le_bytes(bits as nat, 8));
            lemma_le_round_trip(bits as nat, 8);
        },
        ValueModel::Integer(i) => {
            lemma_le_bytes_len((i as u64) as nat, 8);
            lemma_sub_of_sub(heap, p, bytes, 1, 9);
            assert(bytes.subrange(1, 9) =~= le_bytes((i as u64) as nat, 8));
            lemma_le_round_trip((i as u64) as nat, 8);
            assert(((i as u64) as i64) == i) by (bit_vector);
        },
        ValueModel::String(text) => {
            let encoded = encode_utf8(text);
            lemma_le_bytes_len(encoded.len(), 8);
            lemma_sub_of_sub(heap, p, bytes, 1, 9);
            assert(bytes.subrange(1, 9) =~= le_bytes(encoded.len(), 8));
            assert(encoded.len() < pow256(8));
            lemma_le_round_trip(encoded.len(), 8);
            lemma_sub_of_sub(heap, p, bytes, 9, 9 + encoded.len() as int);
            assert(bytes.subrange(9, 9 + encoded.len() as int) =~= encoded);
            encode_utf8_valid_utf8(text);
            encode_utf8_decode_utf8(text);
        },
        ValueModel::Array(items) => {
            let payload = elements_bytes(items);
            lemma_le_bytes_len(payload.len(), 8);
            lemma_sub_of_sub(heap, p, bytes, 1, 9);
            assert(bytes.subrange(1, 9) =~= le_bytes(payload.len(), 8));
            assert(payload.len() < pow256(8));
            lemma_le_round_trip(payload.len(), 8);
            lemma_sub_of_sub(heap, p, bytes, 9, 9 + payload.len() as int);
            assert(bytes.subrange(9, 9 + payload.len() as int) =~= payload);
            law_elements_round_trip(items, heap, p + 9);
        },
    }
}

/// Reading back the bytes written for consecutive values gives the values,
/// when no `true` occurs in them and their lengths fit.
pub proof fn law_elements_round_trip(values: Seq<ValueModel>, heap: Seq<u8>, p: int)
    requires
        all_without_true(values),
        0 <= p,
        p + elements_bytes(values).len() <= heap.len(),
        heap.len() < usize::MAX,
        heap.subrange(p, p + elements_bytes(values).len()) == elements_bytes(values),
    ensures
        decode_elements(heap, p, p + elements_bytes(values).len()) == Some((values, p + elements_bytes(values).len())),
    decreases values, 0nat,
{
    let end = p + elements_bytes(values).len();
    if values.len() == 0 {
        assert(values =~= Seq::<ValueModel>::empty());
    } else {
        lemma_elements_bytes_front(values);
        let first = element_bytes(values[0]);
        let rest = values.drop_first();
        lemma_element_bytes_nonempty(values[0]);
        lemma_sub_of_sub(heap, p, elements_bytes(values), 0, first.len() as int);
        assert(elements_bytes(values).subrange(0, first.len() as int) =~= first);
        assert(decreases_to!(values => values[0]));
        law_element_round_trip(values[0], heap, p);
        let q = p + first.len();
        if rest.len() == 0 {
            assert(elements_bytes(rest) == Seq::<u8>::empty());
            assert(values =~= seq![values[0]]);
        } else {
            lemma_element_bytes_nonempty(rest[0]);
            lemma_elements_bytes_front(rest);
            lemma_sub_of_sub(heap, p, elements_bytes(values), first.len() as int, elements_bytes(values).len() as int);
            assert(elements_bytes(values).subrange(first.len() as int, elements_bytes(values).len() as int) =~= elements_bytes(rest));
            law_elements_round_trip(rest, heap, q);
            assert(seq![values[0]] + rest =~= values);
        }
    }
}

/// The elements a successful reading found.
pub open spec fn items_of(read: Option<(Seq<ValueModel>, int)>) -> Seq<ValueModel> {
    match read {
        Some((items, _)) => items,
        None => Seq::empty(),
    }
}

/// Where a successful reading stopped.
pub open spec fn end_of(read: Option<(Seq<ValueModel>, int)>) -> int {
    match read {
        Some((_, end)) => end,
        None => 0,
    }
}

/// The elements of the heap block at `start`, read by the virtual machine.
pub open spec fn block_at(heap: Seq<u8>, start: int) -> Seq<ValueModel> {
    items_of(decode_block(heap, start))
}

/// The text of the string block (byte length, then UTF-8 bytes) at `start`.
pub open spec fn string_block_ok(bytes: Seq<u8>, start: int) -> bool {
    &&& 0 <= start
    &&& start + 8 <= bytes.len()
    &&& start + 8 + le_value(bytes.subrange(start, start + 8)) <= bytes.len()
    &&& valid_utf8(bytes.subrange(start + 8, start + 8 + le_value(bytes.subrange(start, start + 8))))
}

/// The text of a well-formed string block.
pub open spec fn string_block(bytes: Seq<u8>, start: int) -> Seq<char> {
    decode_utf8(bytes.subrange(start + 8, start + 8 + le_value(bytes.subrange(start, start + 8))))
}

pub proof fn lemma_values_model_push(values: Seq<Value>, value: Value)
    ensures
        values_model(values.push(value)) == values_model(values).push(value_model(value)),
{
    assert(values.push(value).drop_last() =~= values);
}

pub proof fn lemma_values_model_take(values: Seq<Value>, i: int)
    requires
        0 <= i < values.len(),
    ensures
        values_model(values.take(i + 1)) == values_model(values.take(i)).push(value_model(values[i])),
        elements_bytes(values_model(values.take(i + 1))) == elements_bytes(values_model(values.take(i))) + element_bytes(value_model(values[i])),
{
    assert(values.take(i + 1).drop_last() =~= values.take(i));
    assert(values.take(i + 1).last() == values[i]);
    let m = values_model(values.take(i)).push(value_model(values[i]));
    assert(m.drop_last() =~= values_model(values.take(i)));
}

/// Where a successful reading of one element stopped.
pub open spec fn element_end(read: Option<(ValueModel, int)>) -> int {
    match read {
        Some((_, end)) => end,
        None => 0,
    }
}

/// Reading an element moves forward.
pub proof fn lemma_element_progress(heap: Seq<u8>, p: int)
    ensures
        decode_element(heap, p) is Some ==> element_end(decode_element(heap, p)) > p,
    decreases heap.len() - p, 1nat,
{
    if 0 <= p < heap.len() && heap[p] == KIND_ARRAY && p + 1 + 8 <= heap.len() {
        lemma_elements_progress(heap, p + 9);
        let n = le_value(heap.subrange(p + 1, p + 9));
        let inner = decode_elements(heap, p + 9, p + 9 + n);
        assert(inner is Some ==> end_of(inner) >= p + 9);
        assert(decode_block(heap, p + 1) == inner || decode_block(heap, p + 1) is None);
    }
}

/// Reading elements never moves backward.
pub proof fn lemma_elements_progress(heap: Seq<u8>, p: int)
    ensures
        forall|end: int| #[trigger] decode_elements(heap, p, end) is Some ==> end_of(decode_elements(heap, p, end)) >= p,
    decreases heap.len() - p, 2nat,
{
    assert forall|end: int| #[trigger] decode_elements(heap, p, end) is Some implies end_of(decode_elements(heap, p, end)) >= p by {
        if p < end && 0 <= p <= heap.len() {
            lemma_element_progress(heap, p);
            match decode_element(heap, p) {
                Some((v, q)) => {
                    if q < end && q > p && q <= heap.len() {
                        lemma_elements_progress(heap, q);
                        assert(decode_elements(heap, q, end) is Some ==> end_of(decode_elements(heap, q, end)) >= q);
                    }
                },
                None => {},
            }
        }
    }
}

impl VirMac {
    /// Appends the heap-array element of `value` to `target_array`.
    fn push_into_array(&mut self, value: &Value, target_array: &mut Vec<u8>)
        ensures
            final(target_array)@ == old(target_array)@ + element_bytes(value_model(*value)),
            *final(self) == *old(self),
        decreases *value,
    {
        match value {
            Value::Boolean(boolean) => {
                target_array.push(KIND_BOOLEAN);
                target_array.push(if *boolean { 1u8 } else { 0u8 });
                assert(target_array@ =~= old(target_array)@ + element_bytes(value_model(*value)));
            },
            Value::Nil => {
                target_array.push(KIND_NIL);
                assert(target_array@ =~= old(target_array)@ + element_bytes(value_model(*value)));
            },
            Value::Float(bits) => {
                target_array.push(KIND_FLOAT);
                push_le(target_array, *bits, 8);
                assert(target_array@ =~= old(target_array)@ + element_bytes(value_model(*value)));
            },
            Value::Integer(integer) => {
                target_array.push(KIND_INTEGER);
                push_le(target_array, *integer as u64, 8);
                assert(target_array@ =~= old(target_array)@ + element_bytes(value_model(*value)));
            },
            Value::String(string) => {
                target_array.push(KIND_STRING);
                let string_bytes = string.as_str().as_bytes();
                push_le(target_array, string_bytes.len() as u64, 8);
                append_bytes(target_array, string_bytes);
                assert(target_array@ =~= old(target_array)@ + element_bytes(value_model(*value)));
            },
            Value::Array(array) => {
                let mut byte_array: Vec<u8> = Vec::new();
                let mut i: usize = 0;
                assert(array@.take(0) =~= Seq::<Value>::empty());
                while i < array.len()
                    invariant
                        value is Array,
                        (*value)->Array_0 == *array,
                        i <= array@.len(),
                        byte_array@ == elements_bytes(values_model(array@.take(i as int))),
                        *self == *old(self),
                    decreases array@.len() - i,
                {
                    proof {
                        lemma_values_model_take(array@, i as int);
                        assert(decreases_to!(*value => (*value)->Array_0));
                        assert(decreases_to!(*array => array@));
                        assert(decreases_to!(array@ => array@[i as int]));
                    }
                    self.push_into_array(&array[i], &mut byte_array);
                    i += 1;
                }
                assert(array@.take(i as int) =~= array@);
                target_array.push(KIND_ARRAY);
                push_le(target_array, byte_array.len() as u64, 8);
                append_bytes(target_array, byte_array.as_slice());
                assert(target_array@ =~= old(target_array)@ + element_bytes(value_model(*value)));
            },
        }
    }

    /// Reads the heap array block at `*start`, leaving `*start` where the
    /// reading stopped.
    fn get_array(&self, start: &mut usize) -> (array: Vec<Value>)
        requires
            decode_block(self.memory.from_space@, *old(start) as int) is Some,
            self.memory.from_space@.len() < usize::MAX,
        ensures
            values_model(array@) == items_of(decode_block(self.memory.from_space@, *old(start) as int)),
            *final(start) == end_of(decode_block(self.memory.from_space@, *old(start) as int)),
        decreases self.memory.from_space@.len() - *old(start),
    {
        let ghost heap = self.memory.from_space@;
        let ghost first = *start;
        let length = read_le(&self.memory.from_space, *start, 8);
        *start = *start + 8;
        let end = *start + length as usize;
        let mut array: Vec<Value> = Vec::new();
        proof {
            assert(heap.subrange(first as int, first + 8) == heap.subrange(first as int, first + 8));
        }
        let ghost whole = decode_elements(heap, first + 8, end as int);
        while *start < end
            invariant
                heap == self.memory.from_space@,
                heap.len() < usize::MAX,
                first == *old(start),
                first + 8 <= *start,
                whole == decode_elements(heap, first + 8, end as int),
                whole is Some,
                decode_elements(heap, *start as int, end as int) is Some,
                items_of(whole) == values_model(array@) + items_of(decode_elements(heap, *start as int, end as int)),
                end_of(whole) == end_of(decode_elements(heap, *start as int, end as int)),
            decreases usize::MAX - *start,
        {
            let ghost p = *start;
            let ghost element = decode_element(heap, p as int);
            let ghost rest = decode_elements(heap, p as int, end as int);
            assert(element is Some);
            proof {
                lemma_element_progress(heap, p as int);
            }
            let tag = self.memory.from_space[*start];
            let value = if tag == KIND_BOOLEAN {
                let boolean = Value::Boolean(self.memory.from_space[*start] != 0);
                *start = *start + BOOLEAN_SIZE;
                boolean
            } else if tag == KIND_NIL {
                *start = *start + NIL_SIZE;
                Value::Nil
            } else if tag == KIND_FLOAT {
                let bits = read_le(&self.memory.from_space, *start + 1, 8);
                *start = *start + FLOAT_SIZE;
                Value::Float(bits)
            } else if tag == KIND_INTEGER {
                let bits = read_le(&self.memory.from_space, *start + 1, 8);
                *start = *start + INTEGER_SIZE;
                Value::Integer(bits as i64)
            } else if tag == KIND_STRING {
                *start = *start + 1;
                let length = read_le(&self.memory.from_space, *start, 8);
                *start = *start + 8;
                let bytes = vstd::slice::slice_subrange(self.memory.from_space.as_slice(), *start, *start + length as usize);
                let string = text_of(bytes);
                *start = *start + length as usize;
                Value::String(string)
            } else if tag == KIND_ARRAY {
                *start = *start + 1;
                let nested = self.get_array(start);
                Value::Array(nested)
            } else {
                proof {
                    assert(false);
                }
                Value::Nil
            };
            let ghost before = array@;
            array.push(value);
            proof {
                lemma_values_model_push(before, value);
                assert(element == Some((value_model(value), *start as int)));
                assert(*start > p);
                if *start >= end {
                    assert(rest == Some((seq![value_model(value)], *start as int)));
                    assert(decode_elements(heap, *start as int, end as int) == Some((Seq::<ValueModel>::empty(), *start as int)));
                } else {
                    assert(decode_elements(heap, *start as int, end as int) is Some);
                }
                assert(items_of(whole) =~= values_model(array@) + items_of(decode_elements(heap, *start as int, end as int)));
            }
        }
        proof {
            assert(values_model(array@) + Seq::<ValueModel>::empty() =~= values_model(array@));
        }
        array
    }

    /// The text of the string block at `start` of the heap.
    fn get_string_in_heap(&self, start: usize) -> (string: String)
        requires
            string_block_ok(self.memory.from_space@, start as int),
        ensures
            string@ == string_block(self.memory.from_space@, start as int),
    {
        let space_len = self.memory.from_space.len();
        let length = read_le(&self.memory.from_space, start, 8);
        assert(length as int <= self.memory.from_space@.len());
        let bytes = vstd::slice::slice_subrange(self.memory.from_space.as_slice(), start + 8, start + 8 + length as usize);
        text_of(bytes)
    }

    /// The text of heavy constant `index_of_start`.
    fn get_string_in_permanent_space(&self, index_of_start: usize) -> (string: String)
        requires
            index_of_start < self.heavy_constant_starts@.len(),
            string_block_ok(self.memory.permanent_space@, self.heavy_constant_starts@[index_of_start as int] as int),
        ensures
            string@ == string_block(self.memory.permanent_space@, self.heavy_constant_starts@[index_of_start as int] as int),
    {
        let start = self.heavy_constant_starts[index_of_start];
        let space_len = self.memory.permanent_space.len();
        let length = read_le(&self.memory.permanent_space, start, 8);
        assert(length as int <= self.memory.permanent_space@.len());
        let bytes = vstd::slice::slice_subrange(self.memory.permanent_space.as_slice(), start + 8, start + 8 + length as usize);
        text_of(bytes)
    }
}

impl VirMac {
    /// A machine set up from what the assembler made.
    pub fn new(config: VMConfig, error_handler: ErrorHandler) -> (machine: Self)
        ensures
            machine.memory == config.memory,
            machine.constants_pool == config.constants_pool,
            machine.heavy_constant_starts == config.heavy_constant_starts,
            machine.function_starts == config.function_starts,
            machine.error_handler == error_handler,
    {
        VirMac {
            memory: config.memory,
            constants_pool: config.constants_pool,
            heavy_constant_starts: config.heavy_constant_starts,
            function_starts: config.function_starts,
            error_handler,
        }
    }

    /// The value a light value stands for, read from the constant space or
    /// the heap.
    pub fn light_value_to_value(&self, light_value: LightValue) -> (value: Value)
        requires
            self.readable(light_value),
        ensures
            value_model(value) == self.light_model(light_value),
    {
        match light_value {
            LightValue::Boolean(boolean) => Value::Boolean(boolean),
            LightValue::Nil => Value::Nil,
            LightValue::Float(bits) => Value::Float(bits),
            LightValue::Integer(integer) => Value::Integer(integer),
            LightValue::StringPointer(index) => Value::String(self.get_string_in_permanent_space(index as usize)),
            LightValue::StringHeapPointer(index) => Value::String(self.get_string_in_heap(index as usize)),
            LightValue::ArrayPointer(index) => {
                let mut start = index as usize;
                let array = self.get_array(&mut start);
                Value::Array(array)
            },
        }
    }

    /// The start of function `index_of_start`'s code, the code's length, its
    /// variable count, arity and relative reference count, read from the
    /// twelve-byte header there.
    pub fn get_function(&self, index_of_start: usize) -> (function: (usize, usize, u16, u8, u8))
        requires
            index_of_start < self.function_starts@.len(),
            self.function_starts@[index_of_start as int] + 12 <= self.memory.functions@.len(),
        ensures
            ({
                let code = self.memory.functions@;
                let start = self.function_starts@[index_of_start as int] as int;
                &&& function.0 == start + 12
                &&& function.1 == le_value(code.subrange(start, start + 8)) as usize
                &&& function.2 == le_value(code.subrange(start + 8, start + 10))
                &&& function.3 == code[start + 10]
                &&& function.4 == code[start + 11]
            }),
    {
        let code_len = self.memory.functions.len();
        let start = self.function_starts[index_of_start];
        let length = read_le(&self.memory.functions, start, 8);
        let variables_count = read_le(&self.memory.functions, start + 8, 2);
        proof {
            lemma_le_value_bound(self.memory.functions@.subrange(start + 8, start + 10));
            lemma_pow256_values();
        }
        let arity = self.memory.functions[start + 10];
        let max_relative_reference = self.memory.functions[start + 11];
        (start + 12, length as usize, variables_count as u16, arity, max_relative_reference)
    }

    /// Runs the instruction at the frame's position, first doubling the
    /// stack when it has no room at the frame's stack position. Calls,
    /// returns, builtins and float operations are handed back to the loop
    /// that runs the frames.
    pub fn dispatch_instruction(&mut self, call_frame: &mut CallFrame, stack: &mut Vec<LightValue>) -> (request: Option<FrameInstruction>)
        requires
            old(self).dispatchable(*old(call_frame), old(stack)@),
        ensures
            (*final(call_frame), final(stack)@, request) == old(self).step(
                *old(call_frame), grown(old(stack)@, old(call_frame).stack_position as int)),
            final(self).memory.from_space@ == old(self).step_heap(
                *old(call_frame), grown(old(stack)@, old(call_frame).stack_position as int)),
            final(self).memory.functions == old(self).memory.functions,
            final(self).memory.permanent_space == old(self).memory.permanent_space,
            final(self).memory.to_space == old(self).memory.to_space,
            final(self).constants_pool == old(self).constants_pool,
            final(self).heavy_constant_starts == old(self).heavy_constant_starts,
            final(self).function_starts == old(self).function_starts,
    {
        let ghost s = grown(stack@, call_frame.stack_position as int);
        if stack.len() <= call_frame.stack_position {
            let length = stack.len();
            let mut k: usize = 0;
            while k < length
                invariant
                    k <= length,
                    length == old(stack)@.len(),
                    stack@ == old(stack)@ + Seq::new(k as nat, |i: int| LightValue::Nil),
                decreases length - k,
            {
                stack.push(LightValue::Nil);
                k += 1;
                assert(stack@ =~= old(stack)@ + Seq::new(k as nat, |i: int| LightValue::Nil));
            }
        }
        assert(stack@ =~= s);
        let op = self.memory.functions[call_frame.instruction_position];
        if op == Bytecode::LOAD || op == Bytecode::LOAD_VARIABLE || op == Bytecode::STORE
            || op == Bytecode::RELATIVE_REFERENCE || op == Bytecode::STATION_CAPTURE || op == Bytecode::RETURN
            || op == Bytecode::NOT || op == Bytecode::REVERSE {
            self.move_step(call_frame, stack)
        } else if op == Bytecode::JUMP || op == Bytecode::JUMP_IF_FALSE || op == Bytecode::BUILTIN_CALL
            || op == Bytecode::CALL {
            self.control_step(call_frame, stack)
        } else if op == Bytecode::ARRAY {
            self.array_step(call_frame, stack)
        } else {
            self.arithmetic_step(call_frame, stack)
        }
    }

    /// Runs an instruction that moves values between stack slots.
    fn move_step(&mut self, call_frame: &mut CallFrame, stack: &mut Vec<LightValue>) -> (request: Option<FrameInstruction>)
        requires
            old(self).runnable(*old(call_frame), old(stack)@),
            old(self).memory.functions@[old(call_frame).instruction_position as int] == Bytecode::LOAD || old(self).memory.functions@[old(call_frame).instruction_position as int] == Bytecode::LOAD_VARIABLE || old(self).memory.functions@[old(call_frame).instruction_position as int] == Bytecode::STORE || old(self).memory.functions@[old(call_frame).instruction_position as int] == Bytecode::RELATIVE_REFERENCE || old(self).memory.functions@[old(call_frame).instruction_position as int] == Bytecode::STATION_CAPTURE || old(self).memory.functions@[old(call_frame).instruction_position as int] == Bytecode::RETURN || old(self).memory.functions@[old(call_frame).instruction_position as int] == Bytecode::NOT || old(self).memory.functions@[old(call_frame).instruction_position as int] == Bytecode::REVERSE,
        ensures
            (*final(call_frame), final(stack)@, request) == old(self).step(*old(call_frame), old(stack)@),
            final(self).memory.from_space@ == old(self).step_heap(*old(call_frame), old(stack)@),
            final(self).memory.functions == old(self).memory.functions,
            final(self).memory.permanent_space == old(self).memory.permanent_space,
            final(self).memory.to_space == old(self).memory.to_space,
            final(self).constants_pool == old(self).constants_pool,
            final(self).heavy_constant_starts == old(self).heavy_constant_starts,
            final(self).function_starts == old(self).function_starts,
    {
        let ghost s = stack@;
        proof {
            lemma_pow256_values();
        }
        let code_len = self.memory.functions.len();
        let constants_len = self.constants_pool.len();
        let stack_len = stack.len();
        let ip = call_frame.instruction_position;
        let sp = call_frame.stack_position;
        let op = self.memory.functions[ip];
        if op == Bytecode::LOAD {
            let index = read_le(&self.memory.functions, ip + 1, 4) as usize;
            stack.set(sp, self.constants_pool[index]);
            call_frame.stack_position = sp + 1;
            call_frame.instruction_position = ip + Bytecode::LOAD_SIZE;
            None
        } else if op == Bytecode::LOAD_VARIABLE {
            let index = read_le(&self.memory.functions, ip + 1, 2) as usize;
            let value = stack[call_frame.base_pointer + index];
            stack.set(sp, value);
            call_frame.stack_position = sp + 1;
            call_frame.instruction_position = ip + Bytecode::LOAD_VARIABLE_SIZE;
            None
        } else if op == Bytecode::STORE {
            let index = read_le(&self.memory.functions, ip + 1, 2) as usize;
            let value = stack[sp - 1];
            stack.set(call_frame.base_pointer + index, value);
            call_frame.instruction_position = ip + Bytecode::STORE_SIZE;
            None
        } else if op == Bytecode::RELATIVE_REFERENCE {
            let x = read_le(&self.memory.functions, ip + 1, 2) as usize;
            let value = stack[call_frame.reference_pointer + x];
            stack.set(sp, value);
            call_frame.stack_position = sp + 1;
            call_frame.instruction_position = ip + Bytecode::RELATIVE_REFERENCE_SIZE;
            None
        } else if op == Bytecode::STATION_CAPTURE {
            let index = read_le(&self.memory.functions, ip + 1, 2) as usize;
            let value = stack[sp - 1];
            stack.set(call_frame.reference_pointer + index, value);
            call_frame.instruction_position = ip + Bytecode::STATION_CAPTURE_SIZE;
            None
        } else if op == Bytecode::RETURN {
            let bp = call_frame.base_pointer;
            let top = stack[sp - 1];
            let bottom = stack[bp];
            stack.set(bp, top);
            stack.set(sp - 1, bottom);
            Some(FrameInstruction::Pop)
        } else if op == Bytecode::NOT {
            let LightValue::Boolean(boolean) = stack[sp - 1] else {
                proof {
                    assert(false);
                }
                return None;
            };
            stack.set(sp - 1, LightValue::Boolean(!boolean));
            call_frame.instruction_position = ip + Bytecode::NOT_SIZE;
            None
        } else {
            let arity = read_le(&self.memory.functions, ip + 1, 2) as usize;
            self.reverse(stack, sp - arity, sp);
            call_frame.instruction_position = ip + Bytecode::REVERSE_SIZE;
            None
        }
    }
    /// Runs a jump, a call or a builtin call.
    fn control_step(&mut self, call_frame: &mut CallFrame, stack: &mut Vec<LightValue>) -> (request: Option<FrameInstruction>)
        requires
            old(self).runnable(*old(call_frame), old(stack)@),
            old(self).memory.functions@[old(call_frame).instruction_position as int] == Bytecode::JUMP || old(self).memory.functions@[old(call_frame).instruction_position as int] == Bytecode::JUMP_IF_FALSE || old(self).memory.functions@[old(call_frame).instruction_position as int] == Bytecode::BUILTIN_CALL || old(self).memory.functions@[old(call_frame).instruction_position as int] == Bytecode::CALL,
        ensures
            (*final(call_frame), final(stack)@, request) == old(self).step(*old(call_frame), old(stack)@),
            final(self).memory.from_space@ == old(self).step_heap(*old(call_frame), old(stack)@),
            final(self).memory.functions == old(self).memory.functions,
            final(self).memory.permanent_space == old(self).memory.permanent_space,
            final(self).memory.to_space == old(self).memory.to_space,
            final(self).constants_pool == old(self).constants_pool,
            final(self).heavy_constant_starts == old(self).heavy_constant_starts,
            final(self).function_starts == old(self).function_starts,
    {
        let ghost s = stack@;
        proof {
            lemma_pow256_values();
        }
        let code_len = self.memory.functions.len();
        let constants_len = self.constants_pool.len();
        let stack_len = stack.len();
        let ip = call_frame.instruction_position;
        let sp = call_frame.stack_position;
        let op = self.memory.functions[ip];
        if op == Bytecode::JUMP {
            let position = read_le(&self.memory.functions, ip + 1, 2) as usize;
            call_frame.instruction_position = position;
            None
        } else if op == Bytecode::JUMP_IF_FALSE {
            let position = read_le(&self.memory.functions, ip + 1, 2) as usize;
            if stack[sp - 1] == LightValue::Boolean(false) {
                call_frame.instruction_position = position;
            } else {
                call_frame.instruction_position = ip + Bytecode::JUMP_IF_FALSE_SIZE;
            }
            call_frame.stack_position = sp - 1;
            None
        } else if op == Bytecode::BUILTIN_CALL {
            let index = read_le(&self.memory.functions, ip + 1, 2) as u16;
            let arity = read_le(&self.memory.functions, ip + 3, 2) as usize;
            let start = sp - arity;
            call_frame.stack_position = start + 1;
            call_frame.instruction_position = ip + Bytecode::BUILTIN_CALL_SIZE;
            Some(FrameInstruction::Builtin(index, start, sp))
        } else {
            let start_index = read_le(&self.memory.functions, ip + 1, 2) as u16;
            call_frame.instruction_position = ip + Bytecode::CALL_SIZE;
            Some(FrameInstruction::New(start_index))
        }
    }
    /// Runs an array instruction: gathers the values into a new heap block.
    fn array_step(&mut self, call_frame: &mut CallFrame, stack: &mut Vec<LightValue>) -> (request: Option<FrameInstruction>)
        requires
            old(self).runnable(*old(call_frame), old(stack)@),
            old(self).memory.functions@[old(call_frame).instruction_position as int] == Bytecode::ARRAY,
        ensures
            (*final(call_frame), final(stack)@, request) == old(self).step(*old(call_frame), old(stack)@),
            final(self).memory.from_space@ == old(self).step_heap(*old(call_frame), old(stack)@),
            final(self).memory.functions == old(self).memory.functions,
            final(self).memory.permanent_space == old(self).memory.permanent_space,
            final(self).memory.to_space == old(self).memory.to_space,
            final(self).constants_pool == old(self).constants_pool,
            final(self).heavy_constant_starts == old(self).heavy_constant_starts,
            final(self).function_starts == old(self).function_starts,
    {
        let ghost s = stack@;
        proof {
            lemma_pow256_values();
        }
        let code_len = self.memory.functions.len();
        let constants_len = self.constants_pool.len();
        let stack_len = stack.len();
        let ip = call_frame.instruction_position;
        let sp = call_frame.stack_position;
        let op = self.memory.functions[ip];
            let count = read_le(&self.memory.functions, ip + 1, 4) as usize;
            let start = sp - count;
            let mut array: Vec<u8> = Vec::new();
            let mut k: usize = start;
            let ghost gathered = self.gathered(s, start as int, sp as int);
            assert(gathered.take(0) =~= Seq::<ValueModel>::empty());
            while k < sp
                invariant
                    start <= k <= sp,
                    sp < stack@.len(),
                    stack@ == s,
                    *self == *old(self),
                    gathered == self.gathered(s, start as int, sp as int),
                    forall|j: int| start <= j < sp ==> #[trigger] self.readable(s[j]),
                    array@ == elements_bytes(gathered.take(k - start)),
                decreases sp - k,
            {
                let value = self.light_value_to_value(stack[k]);
                self.push_into_array(&value, &mut array);
                proof {
                    let t = gathered.take(k - start + 1);
                    assert(t.drop_last() =~= gathered.take(k - start));
                    assert(t.last() == gathered[k - start]);
                }
                k += 1;
            }
            assert(gathered.take(sp - start) =~= gathered);
            let index = self.memory.from_space.len();
            push_le(&mut self.memory.from_space, array.len() as u64, 8);
            append_bytes(&mut self.memory.from_space, array.as_slice());
            stack.set(start, LightValue::ArrayPointer(index as u32));
            call_frame.stack_position = start + 1;
            call_frame.instruction_position = ip + Bytecode::ARRAY_SIZE;
            proof {
                assert(self.memory.from_space@ =~= old(self).memory.from_space@ + block_bytes(elements_bytes(gathered)));
            }
            None
    }
    /// Runs an arithmetic or comparison instruction.
    fn arithmetic_step(&mut self, call_frame: &mut CallFrame, stack: &mut Vec<LightValue>) -> (request: Option<FrameInstruction>)
        requires
            old(self).runnable(*old(call_frame), old(stack)@),
            old(self).memory.functions@[old(call_frame).instruction_position as int] >= Bytecode::ADD && old(self).memory.functions@[old(call_frame).instruction_position as int] <= Bytecode::LESS_THAN,
        ensures
            (*final(call_frame), final(stack)@, request) == old(self).step(*old(call_frame), old(stack)@),
            final(self).memory.from_space@ == old(self).step_heap(*old(call_frame), old(stack)@),
            final(self).memory.functions == old(self).memory.functions,
            final(self).memory.permanent_space == old(self).memory.permanent_space,
            final(self).memory.to_space == old(self).memory.to_space,
            final(self).constants_pool == old(self).constants_pool,
            final(self).heavy_constant_starts == old(self).heavy_constant_starts,
            final(self).function_starts == old(self).function_starts,
    {
        let ghost s = stack@;
        proof {
            lemma_pow256_values();
        }
        let code_len = self.memory.functions.len();
        let constants_len = self.constants_pool.len();
        let stack_len = stack.len();
        let ip = call_frame.instruction_position;
        let sp = call_frame.stack_position;
        let op = self.memory.functions[ip];
            let arity = read_le(&self.memory.functions, ip + 1, 2) as usize;
            let kind = get_kind(self.memory.functions[ip + 3]);
            let start = sp - arity;
            call_frame.stack_position = start + 1;
            call_frame.instruction_position = ip + 4;
            if kind == Kind::Float {
                return Some(FrameInstruction::Float(op, start, sp));
            }
            let ghost rest = s.subrange(start + 1, sp as int);
            let LightValue::Integer(first) = stack[start] else {
                proof {
                    assert(false);
                }
                return None;
            };
            if op == Bytecode::EQUAL || op == Bytecode::LESS_THAN {
                let mut all = true;
                let mut k: usize = start + 1;
                while k < sp
                    invariant
                        start + 1 <= k <= sp,
                        sp < stack@.len(),
                        stack@ == s,
                        rest == s.subrange(start + 1, sp as int),
                        first as int == int_of(s[start as int]),
                        forall|j: int| start <= j < sp ==> #[trigger] s[j] is Integer,
                        op == Bytecode::EQUAL ==> all == forall|j: int| 0 <= j < k - start - 1 ==> #[trigger] int_of(rest[j]) == first,
                        op == Bytecode::LESS_THAN ==> all == forall|j: int| 0 <= j < k - start - 1 ==> first < #[trigger] int_of(rest[j]),
                        op == Bytecode::EQUAL || op == Bytecode::LESS_THAN,
                    decreases sp - k,
                {
                    let LightValue::Integer(x) = stack[k] else {
                        proof {
                            assert(false);
                        }
                        return None;
                    };
                    let ghost j0 = k - start - 1;
                    assert(rest[j0] == s[k as int]);
                    assert(int_of(rest[j0]) == x);
                    let ghost before = all;
                    if op == Bytecode::EQUAL {
                        all = all && x == first;
                    } else {
                        all = all && first < x;
                    }
                    proof {
                        if op == Bytecode::EQUAL {
                            if all {
                                assert forall|j: int| 0 <= j < j0 + 1 implies #[trigger] int_of(rest[j]) == first by {
                                    if j < j0 {
                                        assert(before);
                                    }
                                }
                            }
                        } else {
                            if all {
                                assert forall|j: int| 0 <= j < j0 + 1 implies first < #[trigger] int_of(rest[j]) by {
                                    if j < j0 {
                                        assert(before);
                                    }
                                }
                            }
                        }
                    }
                    k += 1;
                }
                stack.set(start, LightValue::Boolean(all));
                None
            } else {
                let mut accumulator: i64 = first;
                let mut k: usize = start + 1;
                proof {
                    assert(rest.take(0) =~= Seq::<LightValue>::empty());
                }
                while k < sp
                    invariant
                        start + 1 <= k <= sp,
                        sp < stack@.len(),
                        stack@ == s,
                        rest == s.subrange(start + 1, sp as int),
                        first as int == int_of(s[start as int]),
                        forall|j: int| start <= j < sp ==> #[trigger] s[j] is Integer,
                        fold_fits(first as int, rest, op),
                        accumulator as int == int_fold(first as int, rest.take(k - start - 1), op),
                        op == Bytecode::ADD || op == Bytecode::MINUS || op == Bytecode::MULTIPLY,
                    decreases sp - k,
                {
                    let LightValue::Integer(x) = stack[k] else {
                        proof {
                            assert(false);
                        }
                        return None;
                    };
                    proof {
                        let j = k - start - 1;
                        assert(rest[j] == s[k as int]);
                        lemma_fold_step(first as int, rest, op, j);
                        lemma_fold_prefix(first as int, rest, op, j + 1);
                    }
                    if op == Bytecode::ADD {
                        accumulator = accumulator + x;
                    } else if op == Bytecode::MINUS {
                        accumulator = accumulator - x;
                    } else {
                        accumulator = accumulator * x;
                    }
                    k += 1;
                }
                assert(rest.take(sp - start - 1) =~= rest);
                stack.set(start, LightValue::Integer(accumulator));
                None
            }
    }
    /// Reverses positions `from..to` of the stack.
    fn reverse(&self, stack: &mut Vec<LightValue>, from: usize, to: usize)
        requires
            from <= to <= old(stack)@.len(),
        ensures
            final(stack)@ == reversed_range(old(stack)@, from as int, to as int),
    {
        let ghost unreversed = stack@;
        let mut i = from;
        let mut j = to;
        while j - i > 1
            invariant
                from <= i <= j <= to,
                i - from == to - j,
                to <= unreversed.len(),
                stack@.len() == unreversed.len(),
                forall|k: int| 0 <= k < unreversed.len() ==> #[trigger] stack@[k] == (
                    if (from <= k < i) || (j <= k < to) { unreversed[from + to - 1 - k] } else { unreversed[k] }),
            decreases j - i,
        {
            let a = stack[i];
            let b = stack[j - 1];
            stack.set(i, b);
            stack.set(j - 1, a);
            i += 1;
            j -= 1;
        }
        assert(stack@ =~= reversed_range(unreversed, from as int, to as int));
    }
}

/// The heap block a string or array value is stored in: its payload's
/// length, then the payload.
pub open spec fn payload_of(value: ValueModel) -> Seq<u8> {
    match value {
        ValueModel::String(text) => encode_utf8(text),
        ValueModel::Array(items) => elements_bytes(items),
        _ => Seq::empty(),
    }
}

/// Whether the memory can take an allocation of `size` bytes for `stack`.
pub open spec fn can_allocate(memory: Memory, stack: Seq<LightValue>, size: int) -> bool {
    &&& memory.from_space@.len() + size <= usize::MAX
    &&& allocation_collects(memory, size as usize) ==> {
        &&& collectable(memory, stack)
        &&& (collected_heap(memory, stack).len() + size) * 100 <= usize::MAX
    }
}

impl VirMac {
    /// The stack form of a value: scalars as they are, strings and arrays as
    /// a block allocated on the heap, pointed to by where the heap ended
    /// before the allocation.
    pub fn push_into_stack(&mut self, value: Value, stack: &mut [LightValue]) -> (light: LightValue)
        requires
            value is String || value is Array ==> can_allocate(old(self).memory, old(stack)@,
                8 + payload_of(value_model(value)).len() as int),
        ensures
            final(self).memory.functions == old(self).memory.functions,
            final(self).memory.permanent_space == old(self).memory.permanent_space,
            final(self).constants_pool == old(self).constants_pool,
            final(self).heavy_constant_starts == old(self).heavy_constant_starts,
            final(self).function_starts == old(self).function_starts,
            match value {
                Value::Boolean(b) => light == LightValue::Boolean(b),
                Value::Nil => light == LightValue::Nil,
                Value::Float(bits) => light == LightValue::Float(bits),
                Value::Integer(i) => light == LightValue::Integer(i),
                _ => true,
            },
            !(value is String || value is Array) ==> final(self).memory == old(self).memory && final(stack)@ == old(stack)@,
            value is String || value is Array ==> {
                let size = (8 + payload_of(value_model(value)).len()) as usize;
                &&& light == (if value is String {
                    LightValue::StringHeapPointer(old(self).memory.from_space@.len() as u32)
                } else {
                    LightValue::ArrayPointer(old(self).memory.from_space@.len() as u32)
                })
                &&& final(self).memory.from_space@ == heap_before_allocation(old(self).memory, old(stack)@, size)
                    + block_bytes(payload_of(value_model(value)))
                &&& final(stack)@ == (if allocation_collects(old(self).memory, size) {
                    stack_after_collection(old(self).memory, old(stack)@)
                } else {
                    old(stack)@
                })
            },
    {
        match value {
            Value::Boolean(boolean) => LightValue::Boolean(boolean),
            Value::Nil => LightValue::Nil,
            Value::Float(bits) => LightValue::Float(bits),
            Value::Integer(integer) => LightValue::Integer(integer),
            Value::String(string) => {
                let index = self.memory.from_space.len();
                let string_bytes = string.as_str().as_bytes();
                let mut length_bytes: Vec<u8> = Vec::new();
                push_le(&mut length_bytes, string_bytes.len() as u64, 8);
                proof {
                    lemma_le_bytes_len(string_bytes@.len() as nat, 8);
                }
                self.memory.allocate(length_bytes.len() + string_bytes.len(), stack);
                self.memory.push_to_heap(length_bytes.as_slice());
                self.memory.push_to_heap(string_bytes);
                proof {
                    let before = heap_before_allocation(old(self).memory, old(stack)@, (8 + string_bytes@.len()) as usize);
                    assert(self.memory.from_space@ =~= before + block_bytes(string_bytes@));
                }
                LightValue::StringHeapPointer(index as u32)
            },
            Value::Array(array) => {
                let index = self.memory.from_space.len();
                let mut byte_array: Vec<u8> = Vec::new();
                let mut i: usize = 0;
                assert(array@.take(0) =~= Seq::<Value>::empty());
                while i < array.len()
                    invariant
                        i <= array@.len(),
                        byte_array@ == elements_bytes(values_model(array@.take(i as int))),
                        *self == *old(self),
                    decreases array@.len() - i,
                {
                    proof {
                        lemma_values_model_take(array@, i as int);
                    }
                    self.push_into_array(&array[i], &mut byte_array);
                    i += 1;
                }
                assert(array@.take(i as int) =~= array@);
                let mut length_bytes: Vec<u8> = Vec::new();
                push_le(&mut length_bytes, byte_array.len() as u64, 8);
                proof {
                    lemma_le_bytes_len(byte_array@.len() as nat, 8);
                }
                self.memory.allocate(length_bytes.len() + byte_array.len(), stack);
                self.memory.push_to_heap(length_bytes.as_slice());
                self.memory.push_to_heap(byte_array.as_slice());
                proof {
                    let before = heap_before_allocation(old(self).memory, old(stack)@, (8 + byte_array@.len()) as usize);
                    assert(self.memory.from_space@ =~= before + block_bytes(byte_array@));
                }
                LightValue::ArrayPointer(index as u32)
            },
        }
    }

    /// The frame that starts the program: its last function, with room for
    /// its variables and relative references.
    pub fn first_frame(&self) -> (frame: CallFrame)
        requires
            self.function_starts@.len() > 0,
            self.function_starts@.last() + 12 <= self.memory.functions@.len(),
            self.function_starts@.last() + 12 + le_value(self.memory.functions@.subrange(
                self.function_starts@.last() as int, self.function_starts@.last() + 8)) <= usize::MAX,
        ensures
            ({
                let code = self.memory.functions@;
                let start = self.function_starts@.last() as int;
                let length = le_value(code.subrange(start, start + 8)) as usize;
                let variables = le_value(code.subrange(start + 8, start + 10));
                &&& frame.instruction_position == start + 12
                &&& frame.end_instruction == start + 12 + le_value(code.subrange(start, start + 8))
                &&& frame.stack_position == variables + code[start + 11]
                &&& frame.base_pointer == 0
                &&& frame.reference_pointer == variables
            }),
    {
        let start_index = self.function_starts.len() - 1;
        let (function_index, length, variables_count, _arity, max_relative_reference) = self.get_function(start_index);
        CallFrame {
            instruction_position: function_index,
            end_instruction: function_index + length,
            stack_position: variables_count as usize + max_relative_reference as usize,
            base_pointer: 0,
            reference_pointer: variables_count as usize,
        }
    }

    /// The frame of a call to the function whose start has index
    /// `start_index`, made by `caller`: its arguments and relative
    /// references are the top of the caller's stack.
    pub fn new_frame(&self, caller: &CallFrame, start_index: u16) -> (frame: CallFrame)
        requires
            (start_index as int) < self.function_starts@.len(),
            self.function_starts@[start_index as int] + 12 <= self.memory.functions@.len(),
            ({
                let code = self.memory.functions@;
                let start = self.function_starts@[start_index as int] as int;
                let variables = le_value(code.subrange(start + 8, start + 10));
                &&& caller.stack_position + variables + code[start + 11] <= usize::MAX
                &&& caller.stack_position >= code[start + 10] + code[start + 11]
                &&& start + 12 + le_value(code.subrange(start, start + 8)) <= usize::MAX
            }),
        ensures
            ({
                let code = self.memory.functions@;
                let start = self.function_starts@[start_index as int] as int;
                let length = le_value(code.subrange(start, start + 8)) as usize;
                let variables = le_value(code.subrange(start + 8, start + 10));
                let arity = code[start + 10];
                let references = code[start + 11];
                &&& frame.instruction_position == start + 12
                &&& frame.end_instruction == start + 12 + le_value(code.subrange(start, start + 8))
                &&& frame.stack_position == caller.stack_position + variables + references
                &&& frame.base_pointer == caller.stack_position - arity - references
                &&& frame.reference_pointer == caller.stack_position - arity
            }),
    {
        let (function_index, length, variables_count, arity, max_relative_reference) = self.get_function(start_index as usize);
        CallFrame {
            instruction_position: function_index,
            end_instruction: function_index + length,
            stack_position: caller.stack_position + variables_count as usize + max_relative_reference as usize,
            base_pointer: caller.stack_position - arity as usize - max_relative_reference as usize,
            reference_pointer: caller.stack_position - arity as usize,
        }
    }
}

/// Storing the top of the stack into a variable and then loading that
/// variable pushes the stored value back, leaving the stored value in place.
pub proof fn law_store_then_load(machine: VirMac, frame: CallFrame, s: Seq<LightValue>)
    requires
        ({
            let code = machine.memory.functions@;
            let ip = frame.instruction_position as int;
            let sp = frame.stack_position as int;
            let bp = frame.base_pointer as int;
            &&& ip + 7 <= code.len()
            &&& ip + 7 <= usize::MAX
            &&& sp + 1 <= usize::MAX
            &&& code[ip] == Bytecode::STORE
            &&& code[ip + 4] == Bytecode::LOAD_VARIABLE
            &&& operand(code, ip, 1, 2) == operand(code, ip + 4, 1, 2)
            &&& 1 <= sp < s.len()
            &&& bp + operand(code, ip, 1, 2) < s.len()
        }),
    ensures
        ({
            let ip = frame.instruction_position as int;
            let sp = frame.stack_position as int;
            let (stored_frame, stored, stored_request) = machine.step(frame, s);
            let (loaded_frame, loaded, loaded_request) = machine.step(stored_frame, stored);
            &&& stored_request is None
            &&& stored_frame.instruction_position == ip + 4
            &&& stored_frame.stack_position == sp
            &&& loaded_request is None
            &&& loaded_frame.instruction_position == ip + 7
            &&& loaded_frame.stack_position == sp + 1
            &&& loaded[sp] == s[sp - 1]
            &&& loaded[sp - 1] == s[sp - 1]
        }),
{
}

/// A conditional jump pops its condition; exactly when the condition is
/// `false` it goes to its target (the little-endian operand after the
/// opcode), and on anything else it goes on with the instruction after it.
/// The stack itself is left as it was and nothing is asked of the loop.
pub proof fn law_jump_if_false_skips_on_false(machine: VirMac, frame: CallFrame, s: Seq<LightValue>)
    requires
        ({
            let code = machine.memory.functions@;
            let ip = frame.instruction_position as int;
            let sp = frame.stack_position as int;
            &&& ip + 3 <= code.len()
            &&& ip + 3 <= usize::MAX
            &&& code[ip] == Bytecode::JUMP_IF_FALSE
            &&& 1 <= sp <= s.len()
        }),
    ensures
        ({
            let code = machine.memory.functions@;
            let ip = frame.instruction_position as int;
            let sp = frame.stack_position as int;
            let target = code[ip + 1] as int + 256 * code[ip + 2] as int;
            let (after, stack, request) = machine.step(frame, s);
            &&& request is None
            &&& stack == s
            &&& after.stack_position == sp - 1
            &&& after.end_instruction == frame.end_instruction
            &&& after.base_pointer == frame.base_pointer
            &&& after.reference_pointer == frame.reference_pointer
            &&& s[sp - 1] == LightValue::Boolean(false) ==> after.instruction_position == target
            &&& s[sp - 1] != LightValue::Boolean(false) ==> after.instruction_position == ip + 3
        }),
{
    lemma_two_byte_operand(machine.memory.functions@, frame.instruction_position as int, 1);
}

/// A two-byte operand is its low byte plus 256 times its high byte.
proof fn lemma_two_byte_operand(code: Seq<u8>, ip: int, k: int)
    requires
        0 <= ip + k,
        ip + k + 2 <= code.len(),
    ensures
        operand(code, ip, k, 2) == code[ip + k] as int + 256 * code[ip + k + 1] as int,
{
    let window = code.subrange(ip + k, ip + k + 2);
    assert(window.drop_first().drop_first().len() == 0);
    assert(le_value(window.drop_first()) == window[1] as nat + 256 * le_value(window.drop_first().drop_first()));
}

/// The other control instructions: a jump goes to its target and leaves the
/// stack alone; a builtin call hands its builtin and the `arity` values
/// below the stack position to the loop, the result to take the first of
/// their slots; a call goes past itself and asks for a frame of the
/// function it names. Operands are little-endian, right after the opcode.
pub proof fn law_control_instructions(machine: VirMac, frame: CallFrame, s: Seq<LightValue>)
    requires
        frame.instruction_position + 5 <= machine.memory.functions@.len(),
        frame.instruction_position + 5 <= usize::MAX,
        frame.stack_position < usize::MAX,
    ensures
        machine.memory.functions@[frame.instruction_position as int] == Bytecode::JUMP ==> ({
            let code = machine.memory.functions@;
            let ip = frame.instruction_position as int;
            let (after, stack, request) = machine.step(frame, s);
            &&& after.instruction_position == code[ip + 1] as int + 256 * code[ip + 2] as int
            &&& after.stack_position == frame.stack_position
            &&& stack == s
            &&& request is None
        }),
        machine.memory.functions@[frame.instruction_position as int] == Bytecode::BUILTIN_CALL ==> ({
            let code = machine.memory.functions@;
            let ip = frame.instruction_position as int;
            let sp = frame.stack_position as int;
            let index = code[ip + 1] as int + 256 * code[ip + 2] as int;
            let arity = code[ip + 3] as int + 256 * code[ip + 4] as int;
            let (after, stack, request) = machine.step(frame, s);
            arity <= sp ==> {
                &&& after.instruction_position == ip + 5
                &&& after.stack_position == sp - arity + 1
                &&& stack == s
                &&& request == Some(FrameInstruction::Builtin(index as u16, (sp - arity) as usize, sp as usize))
            }
        }),
        machine.memory.functions@[frame.instruction_position as int] == Bytecode::CALL ==> ({
            let code = machine.memory.functions@;
            let ip = frame.instruction_position as int;
            let (after, stack, request) = machine.step(frame, s);
            &&& after.instruction_position == ip + 3
            &&& after.stack_position == frame.stack_position
            &&& stack == s
            &&& request == Some(FrameInstruction::New((code[ip + 1] as int + 256 * code[ip + 2] as int) as u16))
        }),
{
    let code = machine.memory.functions@;
    let ip = frame.instruction_position as int;
    lemma_two_byte_operand(code, ip, 1);
    lemma_two_byte_operand(code, ip, 3);
}

/// A four-byte operand is its bytes read least significant first.
proof fn lemma_four_byte_operand(code: Seq<u8>, ip: int, k: int)
    requires
        0 <= ip + k,
        ip + k + 4 <= code.len(),
    ensures
        operand(code, ip, k, 4) == code[ip + k] as int + 256 * code[ip + k + 1] as int
            + 65536 * code[ip + k + 2] as int + 16777216 * code[ip + k + 3] as int,
{
    let w = code.subrange(ip + k, ip + k + 4);
    let w1 = w.drop_first();
    let w2 = w1.drop_first();
    let w3 = w2.drop_first();
    assert(w3.drop_first().len() == 0);
    assert(le_value(w3) == w3[0] as nat + 256 * le_value(w3.drop_first()));
    assert(le_value(w2) == w2[0] as nat + 256 * le_value(w3));
    assert(le_value(w1) == w1[0] as nat + 256 * le_value(w2));
    assert(le_value(w) == w[0] as nat + 256 * le_value(w1));
}

/// The instructions that move values: a load pushes the constant its
/// four-byte operand names; a relative reference pushes the captured value
/// its operand names; a station capture copies the top of the stack into
/// the capture slot its operand names; a return swaps the top of the stack
/// with the frame's base slot and asks to leave the frame; a negation flips
/// the boolean on top of the stack.
pub proof fn law_value_instructions(machine: VirMac, frame: CallFrame, s: Seq<LightValue>)
    requires
        frame.instruction_position + 5 <= machine.memory.functions@.len(),
        frame.instruction_position + 5 <= usize::MAX,
        frame.stack_position < usize::MAX,
    ensures
        ({
            let code = machine.memory.functions@;
            let ip = frame.instruction_position as int;
            let sp = frame.stack_position as int;
            let index = code[ip + 1] as int + 256 * code[ip + 2] as int + 65536 * code[ip + 3] as int
                + 16777216 * code[ip + 4] as int;
            let (after, stack, request) = machine.step(frame, s);
            code[ip] == Bytecode::LOAD ==> {
                &&& after.instruction_position == ip + 5
                &&& after.stack_position == sp + 1
                &&& stack == s.update(sp, machine.constants_pool@[index])
                &&& request is None
            }
        }),
        ({
            let code = machine.memory.functions@;
            let ip = frame.instruction_position as int;
            let sp = frame.stack_position as int;
            let rp = frame.reference_pointer as int;
            let slot = rp + code[ip + 1] as int + 256 * code[ip + 2] as int;
            let (after, stack, request) = machine.step(frame, s);
            code[ip] == Bytecode::RELATIVE_REFERENCE ==> {
                &&& after.instruction_position == ip + 5
                &&& after.stack_position == sp + 1
                &&& stack == s.update(sp, s[slot])
                &&& request is None
            }
        }),
        ({
            let code = machine.memory.functions@;
            let ip = frame.instruction_position as int;
            let sp = frame.stack_position as int;
            let rp = frame.reference_pointer as int;
            let slot = rp + code[ip + 1] as int + 256 * code[ip + 2] as int;
            let (after, stack, request) = machine.step(frame, s);
            code[ip] == Bytecode::STATION_CAPTURE ==> {
                &&& after.instruction_position == ip + 3
                &&& after.stack_position == sp
                &&& stack == s.update(slot, s[sp - 1])
                &&& request is None
            }
        }),
        ({
            let code = machine.memory.functions@;
            let ip = frame.instruction_position as int;
            let sp = frame.stack_position as int;
            let bp = frame.base_pointer as int;
            let (after, stack, request) = machine.step(frame, s);
            code[ip] == Bytecode::RETURN && 0 <= bp < s.len() && 1 <= sp <= s.len() ==> {
                &&& after == frame
                &&& request == Some(FrameInstruction::Pop)
                &&& stack.len() == s.len()
                &&& stack[bp] == s[sp - 1]
                &&& stack[sp - 1] == s[bp]
                &&& forall|k: int| 0 <= k < s.len() && k != bp && k != sp - 1 ==> stack[k] == s[k]
            }
        }),
        ({
            let code = machine.memory.functions@;
            let ip = frame.instruction_position as int;
            let sp = frame.stack_position as int;
            let (after, stack, request) = machine.step(frame, s);
            code[ip] == Bytecode::NOT && 1 <= sp <= s.len() && s[sp - 1] is Boolean ==> {
                &&& after.instruction_position == ip + 1
                &&& after.stack_position == sp
                &&& stack == s.update(sp - 1, LightValue::Boolean(!(s[sp - 1]->Boolean_0)))
                &&& request is None
            }
        }),
{
    let code = machine.memory.functions@;
    let ip = frame.instruction_position as int;
    lemma_two_byte_operand(code, ip, 1);
    lemma_four_byte_operand(code, ip, 1);
}

/// On two integers of an integer-kinded instruction, addition, subtraction
/// and multiplication leave the sum, difference or product in the first
/// operand's slot, equality whether they are equal and less-than whether
/// the first is smaller; the stack shrinks by one.
pub proof fn law_integer_instructions(machine: VirMac, frame: CallFrame, s: Seq<LightValue>, a: i64, b: i64)
    requires
        ({
            let code = machine.memory.functions@;
            let ip = frame.instruction_position as int;
            let sp = frame.stack_position as int;
            &&& ip + 4 <= code.len()
            &&& ip + 4 <= usize::MAX
            &&& code[ip + 1] == 2 && code[ip + 2] == 0
            &&& code[ip + 3] == kind_code(Kind::Integer)
            &&& 2 <= sp <= s.len()
            &&& s[sp - 2] == LightValue::Integer(a)
            &&& s[sp - 1] == LightValue::Integer(b)
        }),
    ensures
        ({
            let code = machine.memory.functions@;
            let ip = frame.instruction_position as int;
            let sp = frame.stack_position as int;
            let (after, stack, request) = machine.step(frame, s);
            let arithmetic = code[ip] == Bytecode::ADD || code[ip] == Bytecode::MINUS || code[ip] == Bytecode::MULTIPLY;
            let comparing = code[ip] == Bytecode::EQUAL || code[ip] == Bytecode::LESS_THAN;
            &&& arithmetic || comparing ==> after.instruction_position == ip + 4 && after.stack_position == sp - 1
                && request is None && stack.len() == s.len()
                && forall|k: int| 0 <= k < s.len() && k != sp - 2 ==> stack[k] == s[k]
            &&& code[ip] == Bytecode::ADD && i64::MIN <= a + b <= i64::MAX ==> stack[sp - 2] == LightValue::Integer((a + b) as i64)
            &&& code[ip] == Bytecode::MINUS && i64::MIN <= a - b <= i64::MAX ==> stack[sp - 2] == LightValue::Integer((a - b) as i64)
            &&& code[ip] == Bytecode::MULTIPLY && i64::MIN <= a * b <= i64::MAX ==> stack[sp - 2] == LightValue::Integer((a * b) as i64)
            &&& code[ip] == Bytecode::EQUAL ==> stack[sp - 2] == LightValue::Boolean(a == b)
            &&& code[ip] == Bytecode::LESS_THAN ==> stack[sp - 2] == LightValue::Boolean(a < b)
        }),
{
    let code = machine.memory.functions@;
    let ip = frame.instruction_position as int;
    let sp = frame.stack_position as int;
    lemma_two_byte_operand(code, ip, 1);
    let rest = s.subrange(sp - 1, sp);
    assert(rest.len() == 1 && rest[0] == s[sp - 1]);
    assert(rest.drop_last().len() == 0);
    assert(int_fold(a as int, rest.drop_last(), code[ip]) == a);
    assert(int_of(rest.last()) == b);
}

} // verus!
