use vstd::prelude::*;
use vstd::utf8::valid_utf8;
use crate::bytes::{le_value, lemma_le_bytes_len, lemma_pow256_values, read_le};
use crate::memory::{
    allocation_collects, block_len, blocks_in_heap, collectable, collected_heap, copied_blocks, heap_pointer, is_heap_pointer,
    lemma_copied_prefix, lemma_copied_prefix_len_mono, live_pointers,
};
use crate::lexer::utf8_text;
use crate::instructions::Bytecode;
use crate::value::{kind_code, Kind, LightValue, Value, KIND_ARRAY, KIND_BOOLEAN, KIND_FLOAT, KIND_INTEGER, KIND_NIL, KIND_STRING};
use crate::virmac::{
    code_size, decode_block, decode_element, decode_elements, fold_fits, grown, int_fold, int_of, lemma_fold_prefix, lemma_fold_step,
    operand, string_block_ok, CallFrame, VirMac, can_allocate, element_bytes, elements_bytes, lemma_values_model_take, payload_of,
    value_model, values_model,
};

verus! {

/// Where the element at `p` of the heap ends, where it reads.
fn element_end(heap: &Vec<u8>, p: usize) -> (end: Option<usize>)
    requires
        heap@.len() < usize::MAX,
    ensures
        end is Some <==> decode_element(heap@, p as int) is Some,
        end matches Some(e) ==> (decode_element(heap@, p as int) matches Some((_, q)) && e == q) && e <= heap@.len() + 1,
    decreases heap@.len() - p, 0nat,
{
    proof {
        lemma_pow256_values();
    }
    if p >= heap.len() {
        return None;
    }
    let tag = heap[p];
    if tag == KIND_BOOLEAN {
        Some(p + 2)
    } else if tag == KIND_NIL {
        Some(p + 1)
    } else if tag == KIND_FLOAT || tag == KIND_INTEGER {
        if heap.len() - p >= 9 { Some(p + 9) } else { None }
    } else if tag == KIND_STRING {
        if heap.len() - p < 9 {
            return None;
        }
        let n = read_le(heap, p + 1, 8);
        if (n as u128) > ((heap.len() - (p + 9)) as u128) {
            return None;
        }
        let stop = p + 9 + n as usize;
        let text = vstd::slice::slice_subrange(heap.as_slice(), p + 9, stop);
        match utf8_text(text) {
            Some(_) => Some(stop),
            None => None,
        }
    } else if tag == KIND_ARRAY {
        block_end(heap, p + 1)
    } else {
        None
    }
}

/// Where the heap block at `p` ends, where its elements read.
fn block_end(heap: &Vec<u8>, p: usize) -> (end: Option<usize>)
    requires
        heap@.len() < usize::MAX,
    ensures
        end is Some <==> decode_block(heap@, p as int) is Some,
        end matches Some(e) ==> (decode_block(heap@, p as int) matches Some((_, q)) && e == q) && e <= heap@.len() + 1,
    decreases heap@.len() - p, 2nat,
{
    proof {
        lemma_pow256_values();
    }
    if p > heap.len() || heap.len() - p < 8 {
        return None;
    }
    let length = read_le(heap, p, 8);
    if (length as u128) > ((usize::MAX - (p + 8)) as u128) {
        return None;
    }
    elements_end(heap, p + 8, p + 8 + length as usize)
}

/// Where the elements from `p` up to `end` stop, where they read.
fn elements_end(heap: &Vec<u8>, p: usize, end: usize) -> (stop: Option<usize>)
    requires
        heap@.len() < usize::MAX,
        p <= heap@.len(),
    ensures
        stop is Some <==> decode_elements(heap@, p as int, end as int) is Some,
        stop matches Some(e) ==> (decode_elements(heap@, p as int, end as int) matches Some((_, q)) && e == q) && e <= heap@.len() + 1,
    decreases heap@.len() - p, 1nat,
{
    if p >= end {
        return Some(p);
    }
    match element_end(heap, p) {
        None => None,
        Some(q) => if q >= end {
            Some(q)
        } else if q <= p || q > heap.len() {
            None
        } else {
            elements_end(heap, q, end)
        },
    }
}

/// Whether the string block at `start` lies inside `bytes` and is UTF-8.
fn string_block_fits(bytes: &Vec<u8>, start: usize) -> (fits: bool)
    ensures
        fits == string_block_ok(bytes@, start as int),
{
    proof {
        lemma_pow256_values();
    }
    if start > bytes.len() || bytes.len() - start < 8 {
        return false;
    }
    let n = read_le(bytes, start, 8);
    if (n as u128) > ((bytes.len() - (start + 8)) as u128) {
        return false;
    }
    let stop = start + 8 + n as usize;
    let text = vstd::slice::slice_subrange(bytes.as_slice(), start + 8, stop);
    utf8_text(text).is_some()
}

impl VirMac {
    /// Whether a stack value can be read: a string or array it points to is
    /// well formed where it points.
    pub fn can_read(&self, value: LightValue) -> (readable: bool)
        ensures
            readable == self.readable(value),
    {
        match value {
            LightValue::StringPointer(i) => (i as usize) < self.heavy_constant_starts.len()
                && string_block_fits(&self.memory.permanent_space, self.heavy_constant_starts[i as usize]),
            LightValue::StringHeapPointer(i) => string_block_fits(&self.memory.from_space, i as usize),
            LightValue::ArrayPointer(i) => self.memory.from_space.len() < usize::MAX
                && block_end(&self.memory.from_space, i as usize).is_some(),
            _ => true,
        }
    }
}


/// The value at position `k` of the stack once it has room for `sp`.
fn grown_at(stack: &Vec<LightValue>, sp: usize, k: usize) -> (value: LightValue)
    requires
        k < grown(stack@, sp as int).len(),
    ensures
        value == grown(stack@, sp as int)[k as int],
{
    if k < stack.len() {
        stack[k]
    } else {
        LightValue::Nil
    }
}

/// The size of the instruction with an operation code.
fn code_size_of(code: u8) -> (size: usize)
    ensures
        size as int == code_size(code),
{
    if code == Bytecode::CALL { 3 }
    else if code == Bytecode::BUILTIN_CALL { 5 }
    else if code == Bytecode::LOAD { 5 }
    else if code == Bytecode::LOAD_VARIABLE { 3 }
    else if code == Bytecode::JUMP { 3 }
    else if code == Bytecode::JUMP_IF_FALSE { 3 }
    else if code == Bytecode::RELATIVE_REFERENCE { 5 }
    else if code == Bytecode::RETURN { 1 }
    else if code == Bytecode::STORE { 4 }
    else if code == Bytecode::ARRAY { 5 }
    else if code == Bytecode::NOT { 1 }
    else if code == Bytecode::ADD || code == Bytecode::MINUS || code == Bytecode::MULTIPLY
        || code == Bytecode::EQUAL || code == Bytecode::LESS_THAN { 4 }
    else { 3 }
}

/// The operand of `width` bytes at offset `k` of the instruction at `ip`.
fn operand_at(code: &Vec<u8>, ip: usize, k: usize, width: usize) -> (value: u64)
    requires
        width <= 8,
        ip + k + width <= code.len(),
    ensures
        value as int == operand(code@, ip as int, k as int, width as int),
{
    read_le(code, ip + k, width)
}

/// Whether every intermediate result of folding the integers of
/// `stack[start + 1..end]` into `first` is an `i64`.
fn fold_stays_in_range(stack: &Vec<LightValue>, sp: usize, first: i64, start: usize, end: usize, code: u8) -> (fits: bool)
    requires
        start < end <= grown(stack@, sp as int).len(),
    ensures
        fits == fold_fits(first as int, grown(stack@, sp as int).subrange(start + 1, end as int), code),
{
    let ghost rest = grown(stack@, sp as int).subrange(start + 1, end as int);
    let mut accumulated: i64 = first;
    let mut j: usize = 0;
    let count = end - start - 1;
    proof {
        assert(rest.take(0) =~= Seq::<LightValue>::empty());
    }
    while j < count
        invariant
            count == rest.len(),
            start < end <= grown(stack@, sp as int).len(),
            rest == grown(stack@, sp as int).subrange(start + 1, end as int),
            j <= count,
            fold_fits(first as int, rest.take(j as int), code),
            accumulated as int == int_fold(first as int, rest.take(j as int), code),
        decreases count - j,
    {
        proof {
            lemma_fold_step(first as int, rest, code, j as int);
        }
        let x = match grown_at(stack, sp, start + 1 + j) {
            LightValue::Integer(x) => x,
            _ => 0,
        };
        assert(x as int == int_of(rest[j as int]));
        let next = if code == Bytecode::ADD {
            accumulated.checked_add(x)
        } else if code == Bytecode::MINUS {
            accumulated.checked_sub(x)
        } else {
            accumulated.checked_mul(x)
        };
        match next {
            None => {
                proof {
                    if fold_fits(first as int, rest, code) {
                        lemma_fold_prefix(first as int, rest, code, j + 1);
                    }
                }
                return false;
            },
            Some(value) => {
                accumulated = value;
            },
        }
        j += 1;
    }
    proof {
        assert(rest.take(count as int) =~= rest);
    }
    true
}

impl VirMac {
    /// Whether the machine can run the instruction at the frame's position
    /// on this stack: the condition its step asks for.
    #[verifier::loop_isolation(false)]
    pub fn can_dispatch(&self, frame: &CallFrame, stack: &Vec<LightValue>) -> (runs: bool)
        ensures
            runs == self.dispatchable(*frame, stack@),
    {
        let length = stack.len();
        if length == 0 || length > usize::MAX / 2 {
            return false;
        }
        let sp = frame.stack_position;
        let bp = frame.base_pointer;
        let rp = frame.reference_pointer;
        let ip = frame.instruction_position;
        let ghost s = grown(stack@, sp as int);
        let room = if length <= sp { length * 2 } else { length };
        assert(s.len() == room);
        let code = &self.memory.functions;
        if ip >= code.len() {
            return false;
        }
        let op = code[ip];
        if op > Bytecode::STATION_CAPTURE {
            return false;
        }
        let size = code_size_of(op);
        if size > code.len() - ip {
            return false;
        }
        if sp >= room {
            return false;
        }
        if op == Bytecode::LOAD {
            (operand_at(code, ip, 1, 4) as u128) < (self.constants_pool.len() as u128)
        } else if op == Bytecode::LOAD_VARIABLE {
            (bp as u128) + (operand_at(code, ip, 1, 2) as u128) < (room as u128)
        } else if op == Bytecode::JUMP_IF_FALSE {
            sp >= 1
        } else if op == Bytecode::STORE {
            sp >= 1 && (bp as u128) + (operand_at(code, ip, 1, 2) as u128) < (room as u128)
        } else if op == Bytecode::BUILTIN_CALL {
            (sp as u128) >= (operand_at(code, ip, 3, 2) as u128)
        } else if op == Bytecode::RELATIVE_REFERENCE {
            operand_at(code, ip, 3, 2) == 0 && (rp as u128) + (operand_at(code, ip, 1, 2) as u128) < (room as u128)
        } else if op == Bytecode::STATION_CAPTURE {
            sp >= 1 && (rp as u128) + (operand_at(code, ip, 1, 2) as u128) < (room as u128)
        } else if op == Bytecode::RETURN {
            sp >= 1 && bp < room
        } else if op == Bytecode::ARRAY {
            let count = operand_at(code, ip, 1, 4);
            if (count as u128) > (sp as u128) {
                return false;
            }
            let start = sp - count as usize;
            let mut k = start;
            while k < sp
                invariant
                    start <= k <= sp,
                    sp < room,
                    s == grown(stack@, sp as int),
                    s.len() == room,
                    forall|j: int| start <= j < k ==> #[trigger] self.readable(s[j]),
                decreases sp - k,
            {
                let value = grown_at(stack, sp, k);
                if !self.can_read(value) {
                    assert(!self.readable(s[k as int]));
                    assert(count as int == operand(code@, ip as int, 1, 4));
                    return false;
                }
                k += 1;
            }
            true
        } else if op == Bytecode::NOT {
            sp >= 1 && matches!(grown_at(stack, sp, sp - 1), LightValue::Boolean(_))
        } else if op == Bytecode::REVERSE {
            (operand_at(code, ip, 1, 2) as u128) <= (sp as u128)
        } else if op >= Bytecode::ADD && op <= Bytecode::LESS_THAN {
            let count = operand_at(code, ip, 1, 2);
            if count < 1 || (count as u128) > (sp as u128) {
                return false;
            }
            let start = sp - count as usize;
            let kind = code[ip + 3];
            if kind == Kind::Integer.code() {
                let mut k = start;
                while k < sp
                    invariant
                        start <= k <= sp,
                        sp < room,
                        s == grown(stack@, sp as int),
                        s.len() == room,
                        forall|j: int| start <= j < k ==> #[trigger] s[j] is Integer,
                    decreases sp - k,
                {
                    let value = grown_at(stack, sp, k);
                    if !matches!(value, LightValue::Integer(_)) {
                        assert(!(s[k as int] is Integer));
                        assert(count as int == operand(code@, ip as int, 1, 2));
                        return false;
                    }
                    k += 1;
                }
                if op <= Bytecode::MULTIPLY {
                    let first = match grown_at(stack, sp, start) {
                        LightValue::Integer(x) => x,
                        _ => 0,
                    };
                    fold_stays_in_range(stack, sp, first, start, sp, op)
                } else {
                    true
                }
            } else if kind == Kind::Float.code() {
                op < Bytecode::EQUAL || matches!(grown_at(stack, sp, start), LightValue::Float(_))
            } else {
                false
            }
        } else {
            true
        }
    }
}


/// The bytes of a prefix of elements are no more than those of all of them.
proof fn lemma_elements_prefix_len(values: Seq<Value>, j: int)
    requires
        0 <= j <= values.len(),
    ensures
        elements_bytes(values_model(values.take(j))).len() <= elements_bytes(values_model(values)).len(),
    decreases values.len() - j,
{
    if j < values.len() {
        lemma_values_model_take(values, j);
        lemma_elements_prefix_len(values, j + 1);
    } else {
        assert(values.take(j) =~= values);
    }
}

/// How many bytes the elements of an array take on the heap, where that
/// is at most `usize::MAX`.
fn elements_length(array: &Vec<Value>, Ghost(whole): Ghost<Value>) -> (length: Option<usize>)
    requires
        whole is Array,
        whole->Array_0 == *array,
    ensures
        length matches Some(n) ==> n == elements_bytes(values_model(array@)).len(),
        length is None ==> elements_bytes(values_model(array@)).len() > usize::MAX,
    decreases whole, 0nat,
{
    let mut total: usize = 0;
    let mut i: usize = 0;
    assert(array@.take(0) =~= Seq::<Value>::empty());
    while i < array.len()
        invariant
            whole is Array,
            whole->Array_0 == *array,
            i <= array@.len(),
            total == elements_bytes(values_model(array@.take(i as int))).len(),
        decreases array@.len() - i,
    {
        proof {
            lemma_values_model_take(array@, i as int);
            assert(decreases_to!(whole => whole->Array_0));
            assert(decreases_to!(*array => array@));
            assert(decreases_to!(array@ => array@[i as int]));
            lemma_elements_prefix_len(array@, i + 1);
        }
        match element_length(&array[i]) {
            None => {
                return None;
            },
            Some(n) => {
                if n > usize::MAX - total {
                    return None;
                }
                total = total + n;
            },
        }
        i += 1;
    }
    assert(array@.take(i as int) =~= array@);
    Some(total)
}

/// How many bytes a value takes as a heap element, where that is at most
/// `usize::MAX`.
fn element_length(value: &Value) -> (length: Option<usize>)
    ensures
        length matches Some(n) ==> n == element_bytes(value_model(*value)).len(),
        length is None ==> element_bytes(value_model(*value)).len() > usize::MAX,
    decreases *value, 1nat,
{
    match value {
        Value::Boolean(b) => {
            assert(value_model(*value) == crate::virmac::ValueModel::Boolean(*b));
            let ghost bytes = element_bytes(crate::virmac::ValueModel::Boolean(*b));
            assert(bytes =~= seq![KIND_BOOLEAN, if *b { 1u8 } else { 0u8 }]);
            assert(bytes.len() == 2);
            Some(2)
        },
        Value::Nil => {
            assert(value_model(*value) == crate::virmac::ValueModel::Nil);
            assert(element_bytes(crate::virmac::ValueModel::Nil).len() == 1);
            Some(1)
        },
        Value::Float(bits) => {
            proof {
                lemma_le_bytes_len(*bits as nat, 8);
                assert(value_model(*value) == crate::virmac::ValueModel::Float(*bits));
                let ghost bytes = element_bytes(crate::virmac::ValueModel::Float(*bits));
                assert(bytes.len() == 9);
            }
            Some(9)
        },
        Value::Integer(integer) => {
            proof {
                lemma_le_bytes_len((*integer as u64) as nat, 8);
                assert(value_model(*value) == crate::virmac::ValueModel::Integer(*integer));
                let ghost bytes = element_bytes(crate::virmac::ValueModel::Integer(*integer));
                assert(bytes.len() == 9);
            }
            Some(9)
        },
        Value::String(text) => {
            let n = text.as_str().as_bytes().len();
            proof {
                lemma_le_bytes_len(n as nat, 8);
            }
            if n > usize::MAX - 9 { None } else { Some(9 + n) }
        },
        Value::Array(array) => {
            proof {
                assert(decreases_to!(*value => (*value)->Array_0));
            }
            match elements_length(array, Ghost(*value)) {
                None => None,
                Some(n) => {
                    proof {
                        lemma_le_bytes_len(n as nat, 8);
                    }
                    if n > usize::MAX - 9 { None } else { Some(9 + n) }
                },
            }
        },
    }
}


/// The live pointers of a prefix of the stack begin the live pointers of
/// the whole stack.
proof fn lemma_live_prefix(stack: Seq<LightValue>, k: int)
    requires
        0 <= k <= stack.len(),
    ensures
        live_pointers(stack.take(k)).len() <= live_pointers(stack).len(),
        live_pointers(stack).take(live_pointers(stack.take(k)).len() as int) == live_pointers(stack.take(k)),
    decreases stack.len() - k,
{
    if k == stack.len() {
        assert(stack.take(k) =~= stack);
        assert(live_pointers(stack).take(live_pointers(stack).len() as int) =~= live_pointers(stack));
    } else {
        lemma_live_prefix(stack, k + 1);
        lemma_live_step(stack, k);
        let shorter = live_pointers(stack.take(k));
        let longer = live_pointers(stack.take(k + 1));
        let all = live_pointers(stack);
        assert(all.take(shorter.len() as int) =~= all.take(longer.len() as int).take(shorter.len() as int));
        assert(longer.take(shorter.len() as int) =~= shorter);
    }
}

/// One more stack position adds its pointer, if it holds one.
proof fn lemma_live_step(stack: Seq<LightValue>, k: int)
    requires
        0 <= k < stack.len(),
    ensures
        live_pointers(stack.take(k + 1)) == (if is_heap_pointer(stack[k]) {
            live_pointers(stack.take(k)).push(heap_pointer(stack[k]) as usize)
        } else {
            live_pointers(stack.take(k))
        }),
{
    assert(stack.take(k + 1).drop_last() =~= stack.take(k));
    assert(stack.take(k + 1).last() == stack[k]);
}

impl VirMac {
    /// Whether the heap can take the block of a string or array pushed onto
    /// the stack now: the condition the push asks for. Other values need no
    /// room.
    #[verifier::loop_isolation(false)]
    pub fn can_push(&self, value: &Value, stack: &[LightValue]) -> (fits: bool)
        ensures
            fits == (value is String || value is Array ==> can_allocate(
                self.memory,
                stack@,
                8 + payload_of(value_model(*value)).len() as int,
            )),
    {
        let payload = match value {
            Value::String(text) => text.as_str().as_bytes().len(),
            Value::Array(array) => match elements_length(array, Ghost(*value)) {
                Some(n) => n,
                None => {
                    return false;
                },
            },
            _ => {
                return true;
            },
        };
        let heap = &self.memory.from_space;
        if payload > usize::MAX - 8 || payload + 8 > usize::MAX - heap.len() {
            return false;
        }
        let size = payload + 8;
        if heap.len() + size < self.memory.garbage_collect_threshold {
            return true;
        }
        let ghost all = live_pointers(stack@);
        let mut copied: usize = 0;
        let mut k: usize = 0;
        assert(stack@.take(0) =~= Seq::<LightValue>::empty());
        while k < stack.len()
            invariant
                k <= stack@.len(),
                heap == &self.memory.from_space,
                all == live_pointers(stack@),
                blocks_in_heap(heap@, live_pointers(stack@.take(k as int))),
                copied == copied_blocks(heap@, live_pointers(stack@.take(k as int))).len(),
            decreases stack@.len() - k,
        {
            proof {
                lemma_live_step(stack@, k as int);
                lemma_live_prefix(stack@, k as int + 1);
            }
            let pointer = match stack[k] {
                LightValue::StringHeapPointer(p) => Some(p as usize),
                LightValue::ArrayPointer(p) => Some(p as usize),
                _ => None,
            };
            if let Some(p) = pointer {
                let ghost before = live_pointers(stack@.take(k as int));
                let ghost after = live_pointers(stack@.take(k as int + 1));
                assert(after == before.push(p));
                assert(all.take(after.len() as int) == after);
                assert(after[before.len() as int] == p);
                assert(all.take(after.len() as int)[before.len() as int] == all[before.len() as int]);
                assert(all[before.len() as int] == p);
                proof {
                    lemma_pow256_values();
                }
                if p > heap.len() || heap.len() - p < 8 {
                    assert(!blocks_in_heap(heap@, all));
                    return false;
                }
                let length = read_le(heap, p, 8);
                if (length as u128) > ((heap.len() - p - 8) as u128) {
                    assert(!blocks_in_heap(heap@, all));
                    return false;
                }
                let block = 8 + length as usize;
                proof {
                    lemma_copied_prefix(heap@, after, before.len() as int);
                    assert(after.take(before.len() as int) =~= before);
                    assert(after.take(before.len() as int + 1) =~= after);
                }
                if block > usize::MAX - copied {
                    proof {
                        if blocks_in_heap(heap@, all) {
                            lemma_copied_prefix_len_mono(heap@, all, after.len() as int);
                        }
                    }
                    return false;
                }
                copied = copied + block;
            }
            k += 1;
        }
        assert(stack@.take(k as int) =~= stack@);
        (self.memory.free_pointer as u128) + (copied as u128) <= (usize::MAX as u128)
            && (self.memory.to_space.len() as u128) + (copied as u128) <= (usize::MAX as u128)
            && ((self.memory.to_space.len() as u128) + (copied as u128) + (size as u128)) * 100 <= (usize::MAX as u128)
    }
}


impl VirMac {
    /// Whether the program has a function to start from, with its header and
    /// code inside the function space: the condition `first_frame` asks for.
    pub fn can_start(&self) -> (starts: bool)
        ensures
            starts == ({
                &&& self.function_starts@.len() > 0
                &&& self.function_starts@.last() + 12 <= self.memory.functions@.len()
                &&& self.function_starts@.last() + 12 + le_value(self.memory.functions@.subrange(
                    self.function_starts@.last() as int, self.function_starts@.last() + 8)) <= usize::MAX
            }),
    {
        proof {
            lemma_pow256_values();
        }
        if self.function_starts.len() == 0 {
            return false;
        }
        let start = self.function_starts[self.function_starts.len() - 1];
        let code = &self.memory.functions;
        if start > code.len() || code.len() - start < 12 {
            return false;
        }
        let length = read_le(code, start, 8);
        (start as u128) + 12 + (length as u128) <= (usize::MAX as u128)
    }

    /// Whether `caller` can call the function whose start has index
    /// `start_index`: the condition `new_frame` asks for.
    pub fn can_enter(&self, caller: &CallFrame, start_index: u16) -> (enters: bool)
        ensures
            enters == self.enterable(*caller, start_index),
    {
        proof {
            lemma_pow256_values();
        }
        if (start_index as usize) >= self.function_starts.len() {
            return false;
        }
        let start = self.function_starts[start_index as usize];
        let code = &self.memory.functions;
        if start > code.len() || code.len() - start < 12 {
            return false;
        }
        let length = read_le(code, start, 8);
        let variables = read_le(code, start + 8, 2);
        let arity = code[start + 10];
        let references = code[start + 11];
        let sp = caller.stack_position;
        (sp as u128) + (variables as u128) + (references as u128) <= (usize::MAX as u128)
            && (sp as u128) >= (arity as u128) + (references as u128)
            && (start as u128) + 12 + (length as u128) <= (usize::MAX as u128)
    }
}

} // verus!
