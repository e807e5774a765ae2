use flowscript::memory::{Memory, CAPACITY};
use flowscript::value::LightValue;

fn block(text: &[u8]) -> Vec<u8> {
    let mut bytes = (text.len() as u64).to_le_bytes().to_vec();
    bytes.extend_from_slice(text);
    bytes
}

#[test]
fn a_new_memory_is_empty_with_the_default_threshold() {
    let memory = Memory::new();
    assert!(memory.from_space.is_empty());
    assert!(memory.to_space.is_empty());
    assert_eq!(memory.allocated_bytes, 0);
    assert_eq!(memory.garbage_collect_threshold, CAPACITY);
}

#[test]
fn allocation_appends_zeroed_room_and_points_at_it() {
    let mut memory = Memory::new();
    let mut stack: Vec<LightValue> = Vec::new();
    memory.allocate(4, &mut stack);
    assert_eq!(memory.from_space, vec![0u8; 4]);
    assert_eq!(memory.allocated_bytes, 0);
    memory.allocate(3, &mut stack);
    assert_eq!(memory.from_space.len(), 7);
    assert_eq!(memory.allocated_bytes, 4);
}

#[test]
fn a_push_writes_at_the_cursor_and_moves_it() {
    let mut memory = Memory::new();
    let mut stack: Vec<LightValue> = Vec::new();
    memory.allocate(10, &mut stack);
    memory.push_to_heap(&block(b"hi"));
    assert_eq!(memory.from_space, block(b"hi"));
    assert_eq!(memory.allocated_bytes, 10);
}

#[test]
fn a_collection_keeps_only_the_blocks_the_stack_points_to() {
    let mut memory = Memory::new();
    let mut stack = vec![LightValue::Integer(5)];
    memory.allocate(20, &mut stack);
    memory.push_to_heap(&block(b"zz"));
    memory.push_to_heap(&block(b"hi"));
    let mut stack = vec![LightValue::Integer(5), LightValue::StringHeapPointer(10)];
    memory.garbage_collect_threshold = 22;
    memory.allocate(4, &mut stack);
    let mut expected = block(b"hi");
    expected.extend_from_slice(&[0u8; 4]);
    assert_eq!(memory.from_space, expected);
    assert_eq!(memory.allocated_bytes, 10);
    assert_eq!(memory.garbage_collect_threshold, 22);
    assert!(matches!(stack[0], LightValue::Integer(5)));
    assert!(matches!(stack[1], LightValue::StringHeapPointer(0)));
}

#[test]
fn a_heap_still_full_after_collection_grows_its_threshold() {
    let mut memory = Memory::new();
    let mut stack: Vec<LightValue> = Vec::new();
    memory.garbage_collect_threshold = 16;
    memory.allocate(20, &mut stack);
    assert_eq!(memory.from_space.len(), 20);
    assert!(memory.garbage_collect_threshold >= 20 * 75 / 100);
    assert!(memory.garbage_collect_threshold > 16);
}
