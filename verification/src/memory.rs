use vstd::prelude::*;
use crate::bytes::{le_value, read_le, lemma_le_value_bound, lemma_pow256_values};
use crate::value::LightValue;

verus! {

/// The capacity that a fresh heap space is created with.
pub const CAPACITY: usize = 262144;

/// The memory of the virtual machine: constant strings, function bodies and a
/// copying-collected heap made of two semispaces. A heap block is an eight-byte
/// little-endian length followed by that many bytes.
pub struct Memory {
    pub permanent_space: Vec<u8>,
    pub functions: Vec<u8>,
    pub from_space: Vec<u8>,
    pub to_space: Vec<u8>,
    pub free_pointer: usize,
    pub scan_pointer: usize,
    pub allocated_bytes: usize,
    pub garbage_collect_threshold: usize,
}

/// Whether a stack value points into the heap.
pub open spec fn is_heap_pointer(value: LightValue) -> bool {
    value is StringHeapPointer || value is ArrayPointer
}

/// The heap position a heap-pointing stack value holds.
pub open spec fn heap_pointer(value: LightValue) -> u32 {
    match value {
        LightValue::StringHeapPointer(pointer) => pointer,
        LightValue::ArrayPointer(pointer) => pointer,
        _ => 0,
    }
}

/// The stack positions that hold heap pointers, in stack order.
pub open spec fn live_indices(stack: Seq<LightValue>) -> Seq<usize>
    decreases stack.len(),
{
    if stack.len() == 0 {
        Seq::empty()
    } else if is_heap_pointer(stack.last()) {
        live_indices(stack.drop_last()).push((stack.len() - 1) as usize)
    } else {
        live_indices(stack.drop_last())
    }
}

/// The heap pointers held on the stack, in stack order.
pub open spec fn live_pointers(stack: Seq<LightValue>) -> Seq<usize>
    decreases stack.len(),
{
    if stack.len() == 0 {
        Seq::empty()
    } else if is_heap_pointer(stack.last()) {
        live_pointers(stack.drop_last()).push(heap_pointer(stack.last()) as usize)
    } else {
        live_pointers(stack.drop_last())
    }
}

/// The length of the block at `pointer`: its length header and its payload.
pub open spec fn block_len(heap: Seq<u8>, pointer: int) -> nat {
    8 + le_value(heap.subrange(pointer, pointer + 8))
}

/// Every pointer starts a block that lies inside the heap.
pub open spec fn blocks_in_heap(heap: Seq<u8>, pointers: Seq<usize>) -> bool {
    forall|k: int|
        0 <= k < pointers.len() ==> #[trigger] pointers[k] + 8 <= heap.len() && pointers[k]
            + block_len(heap, pointers[k] as int) <= heap.len()
}

/// The blocks at the given pointers, copied one after the other.
pub open spec fn copied_blocks(heap: Seq<u8>, pointers: Seq<usize>) -> Seq<u8>
    decreases pointers.len(),
{
    if pointers.len() == 0 {
        Seq::empty()
    } else {
        let p = pointers.last() as int;
        copied_blocks(heap, pointers.drop_last()) + heap.subrange(p, p + block_len(heap, p))
    }
}

/// The positions the blocks are given in the new heap: block `k` follows
/// the blocks before it, counted from `start`.
pub open spec fn moved_pointer(heap: Seq<u8>, pointers: Seq<usize>, k: int, start: nat) -> nat {
    start + copied_blocks(heap, pointers.take(k)).len()
}

/// `Vec::capacity`: how many bytes the vector holds room for. The standard
/// library documents it as never less than the length, and a vector of bytes
/// never holds room for more than `isize::MAX`; how much more room than asked
/// for the allocator gives is not stated.
#[verifier::external_body]
fn capacity_of(bytes: &Vec<u8>) -> (capacity: usize)
    ensures
        bytes@.len() <= capacity <= isize::MAX,
{
    bytes.capacity()
}

impl Memory {
    /// A memory with empty spaces and a collection threshold of `CAPACITY`.
    pub fn new() -> (memory: Memory)
        ensures
            memory.permanent_space@.len() == 0,
            memory.functions@.len() == 0,
            memory.from_space@.len() == 0,
            memory.to_space@.len() == 0,
            memory.free_pointer == 0,
            memory.scan_pointer == 0,
            memory.allocated_bytes == 0,
            memory.garbage_collect_threshold == CAPACITY,
    {
        Memory {
            permanent_space: Vec::new(),
            functions: Vec::new(),
            from_space: Vec::with_capacity(CAPACITY),
            to_space: Vec::with_capacity(CAPACITY),
            free_pointer: 0,
            scan_pointer: 0,
            allocated_bytes: 0,
            garbage_collect_threshold: CAPACITY,
        }
    }

    /// Writes `value` into the heap at the allocation cursor and moves the cursor past it.
    pub fn push_to_heap(&mut self, value: &[u8])
        requires
            old(self).allocated_bytes + value@.len() <= old(self).from_space@.len(),
        ensures
            final(self).from_space@ == old(self).from_space@.subrange(
                0,
                old(self).allocated_bytes as int,
            ) + value@ + old(self).from_space@.subrange(
                (old(self).allocated_bytes + value@.len()) as int,
                old(self).from_space@.len() as int,
            ),
            final(self).allocated_bytes == old(self).allocated_bytes + value@.len(),
            final(self).permanent_space == old(self).permanent_space,
            final(self).functions == old(self).functions,
            final(self).to_space@ == old(self).to_space@,
            final(self).free_pointer == old(self).free_pointer,
            final(self).garbage_collect_threshold == old(self).garbage_collect_threshold,
    {
        let start = self.allocated_bytes;
        let heap_len = self.from_space.len();
        let mut index: usize = 0;
        while index < value.len()
            invariant
                heap_len == old(self).from_space@.len(),
                start == old(self).allocated_bytes,
                start + value@.len() <= old(self).from_space@.len(),
                index <= value@.len(),
                self.allocated_bytes == start,
                self.from_space@.len() == old(self).from_space@.len(),
                forall|i: int|
                    0 <= i < self.from_space@.len() ==> #[trigger] self.from_space@[i] == if start
                        <= i < start + index {
                        value@[i - start]
                    } else {
                        old(self).from_space@[i]
                    },
                self.permanent_space == old(self).permanent_space,
                self.functions == old(self).functions,
                self.to_space == old(self).to_space,
                self.free_pointer == old(self).free_pointer,
                self.garbage_collect_threshold == old(self).garbage_collect_threshold,
            decreases value@.len() - index,
        {
            self.from_space.set(start + index, value[index]);
            index += 1;
        }
        self.allocated_bytes = start + value.len();
        assert(self.from_space@ =~= old(self).from_space@.subrange(0, start as int) + value@
            + old(self).from_space@.subrange(start + value@.len(), old(self).from_space@.len() as int));
    }

    /// The heap pointers held on the stack and the stack positions that hold them.
    fn collect_live_pointers(&self, stack: &[LightValue]) -> (result: (Vec<usize>, Vec<usize>))
        ensures
            result.0@ == live_pointers(stack@),
            result.1@ == live_indices(stack@),
    {
        let mut pointers: Vec<usize> = Vec::new();
        let mut indices: Vec<usize> = Vec::new();
        let mut value_index: usize = 0;
        while value_index < stack.len()
            invariant
                value_index <= stack@.len(),
                pointers@ == live_pointers(stack@.take(value_index as int)),
                indices@ == live_indices(stack@.take(value_index as int)),
            decreases stack@.len() - value_index,
        {
            let value = stack[value_index];
            assert(stack@.take(value_index + 1).drop_last() =~= stack@.take(value_index as int));
            match value {
                LightValue::StringHeapPointer(index) => {
                    pointers.push(index as usize);
                    indices.push(value_index);
                },
                LightValue::ArrayPointer(index) => {
                    pointers.push(index as usize);
                    indices.push(value_index);
                },
                _ => {},
            }
            value_index += 1;
        }
        assert(stack@.take(stack@.len() as int) =~= stack@);
        (pointers, indices)
    }

    /// Copies the blocks at `pointers` into the to-space, one after the other,
    /// then swaps the spaces. Returns where each block now starts.
    fn garbage_collect(&mut self, pointers: Vec<usize>) -> (new_pointers: Vec<usize>)
        requires
            blocks_in_heap(old(self).from_space@, pointers@),
            old(self).free_pointer + copied_blocks(old(self).from_space@, pointers@).len()
                <= usize::MAX,
            old(self).to_space@.len() + copied_blocks(old(self).from_space@, pointers@).len()
                <= usize::MAX,
        ensures
            final(self).from_space@ == old(self).to_space@ + copied_blocks(
                old(self).from_space@,
                pointers@,
            ),
            final(self).to_space@ == old(self).from_space@,
            final(self).allocated_bytes == old(self).free_pointer + copied_blocks(
                old(self).from_space@,
                pointers@,
            ).len(),
            final(self).free_pointer == 0,
            new_pointers@.len() == pointers@.len(),
            forall|k: int|
                0 <= k < pointers@.len() ==> #[trigger] new_pointers@[k] == moved_pointer(
                    old(self).from_space@,
                    pointers@,
                    k,
                    old(self).free_pointer as nat,
                ),
            final(self).permanent_space == old(self).permanent_space,
            final(self).functions == old(self).functions,
            final(self).garbage_collect_threshold == old(self).garbage_collect_threshold,
    {
        let ghost heap = old(self).from_space@;
        let ghost start = old(self).free_pointer as nat;
        let mut new_pointers: Vec<usize> = Vec::new();
        let mut k: usize = 0;
        proof {
            lemma_pow256_values();
        }
        while k < pointers.len()
            invariant
                k <= pointers@.len(),
                self.from_space@ == heap,
                blocks_in_heap(heap, pointers@),
                start + copied_blocks(heap, pointers@).len() <= usize::MAX,
                old(self).to_space@.len() + copied_blocks(heap, pointers@).len() <= usize::MAX,
                self.to_space@ == old(self).to_space@ + copied_blocks(heap, pointers@.take(k as int)),
                self.free_pointer == start + copied_blocks(heap, pointers@.take(k as int)).len(),
                new_pointers@.len() == k,
                forall|j: int|
                    0 <= j < k ==> #[trigger] new_pointers@[j] == moved_pointer(heap, pointers@, j, start),
                self.permanent_space == old(self).permanent_space,
                self.functions == old(self).functions,
                self.garbage_collect_threshold == old(self).garbage_collect_threshold,
                crate::bytes::pow256(8) == 0x1_0000_0000_0000_0000,
            decreases pointers@.len() - k,
        {
            let pointer = pointers[k];
            proof {
                lemma_copied_prefix(heap, pointers@, k as int);
                lemma_copied_prefix_len_mono(heap, pointers@, (k + 1) as int);
            }
            new_pointers.push(self.free_pointer);
            assert(pointers@[k as int] + 8 <= heap.len());
            let length = read_le(&self.from_space, pointer, 8);
            assert(pointer + block_len(heap, pointer as int) <= heap.len());
            let size: usize = 8 + length as usize;
            let mut index: usize = pointer;
            let ghost before = self.to_space@;
            let heap_len = self.from_space.len();
            let end = pointer + size;
            while index < end
                invariant
                    heap_len == heap.len(),
                    end == pointer + size,
                    pointer <= index <= pointer + size,
                    pointer + size <= heap.len(),
                    self.from_space@ == heap,
                    self.to_space@ == before + heap.subrange(pointer as int, index as int),
                    self.permanent_space == old(self).permanent_space,
                    self.functions == old(self).functions,
                    self.garbage_collect_threshold == old(self).garbage_collect_threshold,
                    self.free_pointer == start + copied_blocks(heap, pointers@.take(k as int)).len(),
                decreases end - index,
            {
                let byte = self.from_space[index];
                self.to_space.push(byte);
                index += 1;
                assert(self.to_space@ =~= before + heap.subrange(pointer as int, index as int));
            }
            self.free_pointer = self.free_pointer + size;
            k += 1;
        }
        assert(pointers@.take(pointers@.len() as int) =~= pointers@);
        core::mem::swap(&mut self.from_space, &mut self.to_space);
        self.allocated_bytes = self.free_pointer;
        self.free_pointer = 0;
        new_pointers
    }

    /// Makes room for `size` more heap bytes and sets the allocation cursor at
    /// their start. When the heap would reach the collection threshold it is
    /// collected first; when it still would, both spaces grow to half as much
    /// again, or to room for the heap at 75% use, and the threshold becomes 75%
    /// of the new capacity.
    pub fn allocate(&mut self, size: usize, stack: &mut [LightValue])
        requires
            old(self).from_space@.len() + size <= usize::MAX,
            allocation_collects(*old(self), size) ==> {
                &&& collectable(*old(self), old(stack)@)
                &&& (collected_heap(*old(self), old(stack)@).len() + size) * 100 <= usize::MAX
            },
        ensures
            final(self).from_space@ == heap_before_allocation(*old(self), old(stack)@, size)
                + Seq::new(size as nat, |i: int| 0u8),
            final(self).allocated_bytes == heap_before_allocation(
                *old(self),
                old(stack)@,
                size,
            ).len(),
            final(self).permanent_space == old(self).permanent_space,
            final(self).functions == old(self).functions,
            allocation_collects(*old(self), size) ==> {
                &&& final(stack)@ == stack_after_collection(*old(self), old(stack)@)
                &&& final(self).to_space@ == old(self).from_space@
                &&& final(self).free_pointer == 0
            },
            !allocation_collects(*old(self), size) ==> {
                &&& final(stack)@ == old(stack)@
                &&& final(self).to_space@ == old(self).to_space@
                &&& final(self).free_pointer == old(self).free_pointer
                &&& final(self).garbage_collect_threshold == old(self).garbage_collect_threshold
            },
            allocation_collects(*old(self), size) && collected_heap(*old(self), old(stack)@).len()
                + size < old(self).garbage_collect_threshold ==> final(self).garbage_collect_threshold
                == old(self).garbage_collect_threshold,
            allocation_collects(*old(self), size) && collected_heap(*old(self), old(stack)@).len()
                + size >= old(self).garbage_collect_threshold ==> {
                &&& final(self).garbage_collect_threshold >= collected_heap(
                    *old(self),
                    old(stack)@,
                ).len() * 75 / 100
                &&& final(self).garbage_collect_threshold <= isize::MAX
            },
    {
        if self.from_space.len() + size >= self.garbage_collect_threshold {
            self.run_garbage_collection(stack);
            if self.from_space.len() + size >= self.garbage_collect_threshold {
                let length = self.from_space.len();
                let capacity = capacity_of(&self.from_space);
                let grown = capacity + capacity / 2;
                let wanted = (length + size) * 100 / 75;
                let target = if grown >= wanted {
                    grown
                } else {
                    wanted
                };
                let memory_needed = target - capacity;
                self.from_space.reserve(memory_needed);
                self.to_space.reserve(memory_needed);
                let new_capacity = capacity_of(&self.from_space);
                assert(new_capacity * 75 / 100 <= new_capacity) by (nonlinear_arith);
                assert(length * 75 / 100 <= new_capacity * 75 / 100) by (nonlinear_arith)
                    requires
                        length <= new_capacity,
                ;
                self.garbage_collect_threshold = ((new_capacity as u128) * 75 / 100) as usize;
            }
        }
        self.allocated_bytes = self.from_space.len();
        let ghost heap = self.from_space@;
        let ghost before = *self;
        let mut pushed: usize = 0;
        while pushed < size
            invariant
                pushed <= size,
                self.allocated_bytes == heap.len(),
                self.permanent_space == before.permanent_space,
                self.functions == before.functions,
                self.to_space == before.to_space,
                self.free_pointer == before.free_pointer,
                self.garbage_collect_threshold == before.garbage_collect_threshold,
                self.from_space@ == heap + Seq::new(pushed as nat, |i: int| 0u8),
            decreases size - pushed,
        {
            self.from_space.push(0u8);
            pushed += 1;
            assert(self.from_space@ =~= heap + Seq::new(pushed as nat, |i: int| 0u8));
        }
    }

    /// Moves every block the stack points to into the other space and
    /// updates the stack's pointers to the new positions.
    fn run_garbage_collection(&mut self, stack: &mut [LightValue])
        requires
            collectable(*old(self), old(stack)@),
        ensures
            final(self).from_space@ == collected_heap(*old(self), old(stack)@),
            final(self).to_space@ == old(self).from_space@,
            final(self).allocated_bytes == old(self).free_pointer + copied_blocks(
                old(self).from_space@,
                live_pointers(old(stack)@),
            ).len(),
            final(self).free_pointer == 0,
            final(stack)@ == stack_after_collection(*old(self), old(stack)@),
            final(self).permanent_space == old(self).permanent_space,
            final(self).functions == old(self).functions,
            final(self).garbage_collect_threshold == old(self).garbage_collect_threshold,
    {
        let ghost old_memory = *self;
        let ghost old_stack = stack@;
        let stack_len = stack.len();
        let (pointers, indices) = self.collect_live_pointers(stack);
        let new_pointers = self.garbage_collect(pointers);
        proof {
            lemma_live(old_stack);
        }
        let mut index: usize = 0;
        while index < indices.len()
            invariant
                index <= indices@.len(),
                indices@ == live_indices(old_stack),
                new_pointers@.len() == indices@.len(),
                live_indices(old_stack).len() == live_pointers(old_stack).len(),
                forall|k: int|
                    0 <= k < new_pointers@.len() ==> #[trigger] new_pointers@[k] == moved_pointer(
                        old_memory.from_space@,
                        live_pointers(old_stack),
                        k,
                        old_memory.free_pointer as nat,
                    ),
                forall|k: int|
                    0 <= k < live_indices(old_stack).len() ==> {
                        &&& #[trigger] live_indices(old_stack)[k] < old_stack.len()
                        &&& is_heap_pointer(old_stack[live_indices(old_stack)[k] as int])
                        &&& live_rank(old_stack, live_indices(old_stack)[k] as int) == k
                    },
                forall|i: int|
                    0 <= i < old_stack.len() && is_heap_pointer(old_stack[i]) ==> {
                        &&& 0 <= #[trigger] live_rank(old_stack, i) < live_indices(old_stack).len()
                        &&& live_indices(old_stack)[live_rank(old_stack, i)] == i
                    },
                stack@.len() == old_stack.len(),
                forall|i: int|
                    0 <= i < old_stack.len() ==> #[trigger] stack@[i] == if is_heap_pointer(
                        old_stack[i],
                    ) && live_rank(old_stack, i) < index {
                        stack_after_collection(old_memory, old_stack)[i]
                    } else {
                        old_stack[i]
                    },
            decreases indices@.len() - index,
        {
            let value_index = indices[index];
            let moved = (new_pointers[index] as u64 % 0x1_0000_0000) as u32;
            let updated = match stack[value_index] {
                LightValue::StringHeapPointer(_) => LightValue::StringHeapPointer(moved),
                LightValue::ArrayPointer(_) => LightValue::ArrayPointer(moved),
                other => other,
            };
            stack[value_index] = updated;
            index += 1;
        }
        assert(stack@ =~= stack_after_collection(old_memory, old_stack));
    }
}


/// Whether an allocation of `size` bytes collects the heap first.
pub open spec fn allocation_collects(memory: Memory, size: usize) -> bool {
    memory.from_space@.len() + size >= memory.garbage_collect_threshold
}

/// The heap that new bytes are appended to: the collected heap when the
/// allocation collects, the current one otherwise.
pub open spec fn heap_before_allocation(memory: Memory, stack: Seq<LightValue>, size: usize) -> Seq<
    u8,
> {
    if allocation_collects(memory, size) {
        collected_heap(memory, stack)
    } else {
        memory.from_space@
    }
}

/// The stack value with its heap pointer replaced by `pointer`.
pub open spec fn retarget(value: LightValue, pointer: u32) -> LightValue {
    match value {
        LightValue::StringHeapPointer(_) => LightValue::StringHeapPointer(pointer),
        LightValue::ArrayPointer(_) => LightValue::ArrayPointer(pointer),
        other => other,
    }
}

/// The from-space a collection leaves: the old to-space followed by the
/// blocks the stack points to.
pub open spec fn collected_heap(memory: Memory, stack: Seq<LightValue>) -> Seq<u8> {
    memory.to_space@ + copied_blocks(memory.from_space@, live_pointers(stack))
}

/// What a collection needs: every stack pointer starts a block inside the heap,
/// and the copies fit in memory.
pub open spec fn collectable(memory: Memory, stack: Seq<LightValue>) -> bool {
    &&& blocks_in_heap(memory.from_space@, live_pointers(stack))
    &&& memory.free_pointer + copied_blocks(memory.from_space@, live_pointers(stack)).len()
        <= usize::MAX
    &&& memory.to_space@.len() + copied_blocks(memory.from_space@, live_pointers(stack)).len()
        <= usize::MAX
}

/// The stack after a collection: each heap pointer is moved to where its block went.
pub open spec fn stack_after_collection(memory: Memory, stack: Seq<LightValue>) -> Seq<LightValue> {
    Seq::new(
        stack.len(),
        |i: int|
            if is_heap_pointer(stack[i]) {
                retarget(
                    stack[i],
                    (moved_pointer(
                        memory.from_space@,
                        live_pointers(stack),
                        live_rank(stack, i),
                        memory.free_pointer as nat,
                    ) % 0x1_0000_0000) as u32,
                )
            } else {
                stack[i]
            },
    )
}

/// How many heap pointers come before stack position `i`.
pub open spec fn live_rank(stack: Seq<LightValue>, i: int) -> int {
    live_indices(stack.take(i)).len() as int
}

/// The live indices are in range, increasing, name heap pointers, and match the live pointers.
proof fn lemma_live(stack: Seq<LightValue>)
    requires
        stack.len() <= usize::MAX,
    ensures
        live_indices(stack).len() == live_pointers(stack).len(),
        forall|k: int|
            0 <= k < live_indices(stack).len() ==> {
                &&& #[trigger] live_indices(stack)[k] < stack.len()
                &&& is_heap_pointer(stack[live_indices(stack)[k] as int])
                &&& live_pointers(stack)[k] == heap_pointer(stack[live_indices(stack)[k] as int]) as usize
                &&& live_rank(stack, live_indices(stack)[k] as int) == k
            },
        forall|i: int|
            0 <= i < stack.len() && is_heap_pointer(stack[i]) ==> {
                &&& 0 <= #[trigger] live_rank(stack, i) < live_indices(stack).len()
                &&& live_indices(stack)[live_rank(stack, i)] == i
            },
    decreases stack.len(),
{
    if stack.len() > 0 {
        let prefix = stack.drop_last();
        let n = prefix.len() as int;
        lemma_live(prefix);
        assert(stack.take(n) =~= prefix);
        assert forall|i: int| 0 <= i < n implies #[trigger] live_rank(stack, i) == live_rank(
            prefix,
            i,
        ) by {
            assert(stack.take(i) =~= prefix.take(i));
        }
        assert(live_rank(stack, n) == live_indices(prefix).len());
        let indices = live_indices(stack);
        let pointers = live_pointers(stack);
        assert forall|k: int| 0 <= k < indices.len() implies {
            &&& #[trigger] indices[k] < stack.len()
            &&& is_heap_pointer(stack[indices[k] as int])
            &&& pointers[k] == heap_pointer(stack[indices[k] as int]) as usize
            &&& live_rank(stack, indices[k] as int) == k
        } by {
            if k < live_indices(prefix).len() {
                let j = live_indices(prefix)[k];
                assert(j < n);
                assert(live_rank(prefix, j as int) == k);
                assert(live_rank(stack, j as int) == live_rank(prefix, j as int));
                assert(stack[j as int] == prefix[j as int]);
                assert(indices[k] == live_indices(prefix)[k]);
                assert(pointers[k] == live_pointers(prefix)[k]);
            } else {
                assert(is_heap_pointer(stack.last()));
                assert(indices == live_indices(prefix).push(n as usize));
                assert(pointers == live_pointers(prefix).push(heap_pointer(stack.last()) as usize));
                assert(indices[k] == n);
            }
        }
        assert forall|i: int| 0 <= i < stack.len() && is_heap_pointer(stack[i]) implies {
            &&& 0 <= #[trigger] live_rank(stack, i) < indices.len()
            &&& indices[live_rank(stack, i)] == i
        } by {
            if i < n {
                assert(stack[i] == prefix[i]);
            }
        }
    }
}

/// Copying one more block appends it to the copies made so far.
pub(crate) proof fn lemma_copied_prefix(heap: Seq<u8>, pointers: Seq<usize>, k: int)
    requires
        0 <= k < pointers.len(),
    ensures
        copied_blocks(heap, pointers.take(k + 1)) == copied_blocks(heap, pointers.take(k))
            + heap.subrange(pointers[k] as int, pointers[k] + block_len(heap, pointers[k] as int)),
{
    assert(pointers.take(k + 1).drop_last() =~= pointers.take(k));
}

/// The copies of a prefix are no longer than the copies of the whole.
pub(crate) proof fn lemma_copied_prefix_len_mono(heap: Seq<u8>, pointers: Seq<usize>, k: int)
    requires
        0 <= k <= pointers.len(),
        blocks_in_heap(heap, pointers),
    ensures
        copied_blocks(heap, pointers.take(k)).len() <= copied_blocks(heap, pointers).len(),
    decreases pointers.len() - k,
{
    if k < pointers.len() {
        lemma_copied_prefix_len_mono(heap, pointers, k + 1);
        lemma_copied_prefix(heap, pointers, k);
        assert(pointers[k] + block_len(heap, pointers[k] as int) <= heap.len());
    } else {
        assert(pointers.take(k) =~= pointers);
    }
}

/// The copies of a prefix of the pointers begin the copies of all of them.
proof fn lemma_copied_prefix_is_prefix(heap: Seq<u8>, pointers: Seq<usize>, k: int)
    requires
        0 <= k <= pointers.len(),
        blocks_in_heap(heap, pointers),
    ensures
        copied_blocks(heap, pointers.take(k)) =~= copied_blocks(heap, pointers).subrange(
            0,
            copied_blocks(heap, pointers.take(k)).len() as int,
        ),
    decreases pointers.len() - k,
{
    if k == pointers.len() {
        assert(pointers.take(k) =~= pointers);
    } else {
        lemma_copied_prefix_is_prefix(heap, pointers, k + 1);
        lemma_copied_prefix(heap, pointers, k);
        lemma_copied_prefix_len_mono(heap, pointers, k + 1);
        let shorter = copied_blocks(heap, pointers.take(k));
        let longer = copied_blocks(heap, pointers.take(k + 1));
        let all = copied_blocks(heap, pointers);
        assert(pointers[k] + block_len(heap, pointers[k] as int) <= heap.len());
        assert(shorter.len() <= longer.len());
        assert(shorter =~= longer.subrange(0, shorter.len() as int));
        assert(longer.subrange(0, shorter.len() as int) =~= all.subrange(0, shorter.len() as int));
    }
}

/// A collection keeps what it moves: when the to-space is empty up to the
/// free pointer (as it is for a fresh memory), the block that a stack pointer
/// names is found unchanged, after the collection, at the position its
/// pointer is moved to.
pub proof fn law_collection_keeps_blocks(memory: Memory, stack: Seq<LightValue>, k: int)
    requires
        collectable(memory, stack),
        memory.to_space@.len() == memory.free_pointer,
        0 <= k < live_pointers(stack).len(),
    ensures
        ({
            let pointers = live_pointers(stack);
            let old_at = pointers[k] as int;
            let new_at = moved_pointer(memory.from_space@, pointers, k, memory.free_pointer as nat)
                as int;
            let length = block_len(memory.from_space@, old_at) as int;
            collected_heap(memory, stack).subrange(new_at, new_at + length)
                == memory.from_space@.subrange(old_at, old_at + length)
        }),
{
    let heap = memory.from_space@;
    let pointers = live_pointers(stack);
    let p = pointers[k] as int;
    let length = block_len(heap, p) as int;
    let before = copied_blocks(heap, pointers.take(k));
    let upto = copied_blocks(heap, pointers.take(k + 1));
    lemma_copied_prefix(heap, pointers, k);
    lemma_copied_prefix_is_prefix(heap, pointers, k + 1);
    lemma_copied_prefix_len_mono(heap, pointers, k + 1);
    assert(p + 8 <= heap.len() && p + length <= heap.len());
    let all = copied_blocks(heap, pointers);
    let start = memory.free_pointer as int;
    assert(upto.len() == before.len() + length);
    assert(upto.len() <= all.len());
    assert(upto.subrange(before.len() as int, before.len() + length) =~= heap.subrange(
        p,
        p + length,
    ));
    assert(collected_heap(memory, stack).subrange(
        start + before.len(),
        start + before.len() + length,
    ) =~= all.subrange(before.len() as int, before.len() + length));
}

} // verus!
