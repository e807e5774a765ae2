use flowscript::builtins::BuiltinOperation;
use flowscript::error_handler::ErrorHandler;
use flowscript::evaluation::compute_exact;
use flowscript::instructions::Bytecode;
use flowscript::memory::Memory;
use flowscript::value::{Kind, LightValue, Value};
use flowscript::frames::Turn;
use flowscript::virmac::{CallFrame, VMConfig, VirMac};

fn machine(code: Vec<u8>) -> VirMac {
    let mut memory = Memory::new();
    memory.functions = code;
    VirMac::new(
        VMConfig { memory, constants_pool: Vec::new(), heavy_constant_starts: Vec::new(), function_starts: Vec::new() },
        ErrorHandler::new(),
    )
}

fn frame(end: usize, stack_position: usize) -> CallFrame {
    CallFrame { instruction_position: 0, end_instruction: end, stack_position, base_pointer: 0, reference_pointer: 0 }
}

#[test]
fn an_empty_array_literal_builds_an_empty_block() {
    let mut vm = machine(vec![Bytecode::ARRAY, 0, 0, 0, 0]);
    let mut call_frame = frame(5, 0);
    let mut stack = vec![LightValue::Nil, LightValue::Nil];
    let request = vm.dispatch_instruction(&mut call_frame, &mut stack);
    assert!(request.is_none());
    assert!(matches!(stack[0], LightValue::ArrayPointer(0)));
    assert_eq!(call_frame.instruction_position, 5);
    assert_eq!(call_frame.stack_position, 1);
    let value = vm.light_value_to_value(stack[0]);
    assert!(matches!(value, Value::Array(ref elements) if elements.is_empty()));
}

#[test]
fn a_store_then_a_load_of_the_same_slot_gives_the_value_back() {
    let mut vm = machine(vec![Bytecode::STORE, 0, 0, Kind::Integer.code(), Bytecode::LOAD_VARIABLE, 0, 0]);
    let mut call_frame = frame(7, 2);
    let mut stack = vec![LightValue::Nil, LightValue::Integer(42), LightValue::Nil, LightValue::Nil];
    assert!(vm.dispatch_instruction(&mut call_frame, &mut stack).is_none());
    assert_eq!(call_frame.instruction_position, 4);
    assert_eq!(call_frame.stack_position, 2);
    assert!(vm.dispatch_instruction(&mut call_frame, &mut stack).is_none());
    assert_eq!(call_frame.instruction_position, 7);
    assert_eq!(call_frame.stack_position, 3);
    assert!(matches!(stack[0], LightValue::Integer(42)));
    assert!(matches!(stack[2], LightValue::Integer(42)));
}

#[test]
fn the_less_than_instruction_agrees_with_the_builtin() {
    for (a, b) in [(1i64, 2i64), (2, 1), (3, 3)] {
        let mut vm = machine(vec![Bytecode::LESS_THAN, 2, 0, Kind::Integer.code()]);
        let mut call_frame = frame(4, 2);
        let mut stack = vec![LightValue::Integer(a), LightValue::Integer(b), LightValue::Nil];
        assert!(vm.dispatch_instruction(&mut call_frame, &mut stack).is_none());
        let instruction = match stack[0] {
            LightValue::Boolean(result) => result,
            _ => panic!("not a boolean"),
        };
        let builtin = match compute_exact(BuiltinOperation::LowerThan, &vec![Value::Integer(a), Value::Integer(b)]) {
            Some(Ok(Value::Boolean(result))) => result,
            _ => panic!("not a boolean"),
        };
        assert_eq!(instruction, a < b);
        assert_eq!(builtin, instruction);
    }
}

#[test]
fn the_machine_tells_which_instructions_it_can_run() {
    let vm = machine(vec![Bytecode::NOT]);
    let boolean = vec![LightValue::Boolean(true), LightValue::Nil];
    let integer = vec![LightValue::Integer(1), LightValue::Nil];
    assert!(vm.can_dispatch(&frame(1, 1), &boolean));
    assert!(!vm.can_dispatch(&frame(1, 1), &integer));
    assert!(!vm.can_dispatch(&frame(1, 0), &boolean));
    let empty_array = machine(vec![Bytecode::ARRAY, 0, 0, 0, 0]);
    assert!(empty_array.can_dispatch(&frame(5, 0), &vec![LightValue::Nil, LightValue::Nil]));
    let overflow = machine(vec![Bytecode::ADD, 2, 0, Kind::Integer.code()]);
    assert!(!overflow.can_dispatch(&frame(4, 2), &vec![LightValue::Integer(i64::MAX), LightValue::Integer(1), LightValue::Nil]));
    assert!(overflow.can_dispatch(&frame(4, 2), &vec![LightValue::Integer(2), LightValue::Integer(1), LightValue::Nil]));
    assert!(vm.can_read(LightValue::Integer(3)));
    assert!(!vm.can_read(LightValue::StringHeapPointer(0)));
}

#[test]
fn the_machine_tells_when_the_heap_can_take_a_value() {
    let mut vm = machine(Vec::new());
    let stack = vec![LightValue::Integer(1)];
    assert!(vm.can_push(&Value::Integer(5), &stack));
    assert!(vm.can_push(&Value::String("ab".to_string()), &stack));
    vm.memory.garbage_collect_threshold = 0;
    assert!(vm.can_push(&Value::String("ab".to_string()), &stack));
    let dangling = vec![LightValue::StringHeapPointer(100)];
    assert!(!vm.can_push(&Value::String("ab".to_string()), &dangling));
    assert!(vm.can_push(&Value::Boolean(true), &dangling));
}

#[test]
fn the_machine_tells_when_a_call_can_enter_its_function() {
    // A header: code length 1, two variables, arity 1, one capture; then one byte of code.
    let mut vm = machine(vec![1, 0, 0, 0, 0, 0, 0, 0, 2, 0, 1, 1, Bytecode::RETURN]);
    vm.function_starts = vec![0];
    assert!(vm.can_start());
    assert!(vm.can_enter(&frame(0, 2), 0));
    assert!(!vm.can_enter(&frame(0, 1), 0));
    assert!(!vm.can_enter(&frame(0, 2), 1));
    vm.function_starts = Vec::new();
    assert!(!vm.can_start());
}

#[test]
fn the_frames_turn_until_every_frame_has_left() {
    // A header: code length 5, no variables, no arguments, no captures; then an empty array literal.
    let mut vm = machine(vec![5, 0, 0, 0, 0, 0, 0, 0, 0, 0, 0, 0, Bytecode::ARRAY, 0, 0, 0, 0]);
    vm.function_starts = vec![0];
    assert!(vm.can_start());
    let mut frames = vec![vm.first_frame()];
    let mut stack = vec![LightValue::Nil; 4];
    assert_eq!(vm.run_turn(&mut frames, &mut stack), Turn::Moved);
    assert_eq!(frames.len(), 1);
    assert_eq!(frames[0].instruction_position, 17);
    assert_eq!(frames[0].stack_position, 1);
    assert!(matches!(stack[0], LightValue::ArrayPointer(_)));
    assert_eq!(vm.run_turn(&mut frames, &mut stack), Turn::Moved);
    assert!(frames.is_empty());
    assert_eq!(vm.run_turn(&mut frames, &mut stack), Turn::Finished);
    assert!(frames.is_empty());
}

#[test]
fn a_frame_whose_instruction_cannot_run_is_stuck_and_left_as_it_was() {
    let mut vm = machine(vec![255]);
    let mut frames = vec![frame(1, 0)];
    let mut stack = vec![LightValue::Nil; 2];
    assert_eq!(vm.run_turn(&mut frames, &mut stack), Turn::Stuck);
    assert_eq!(frames, vec![frame(1, 0)]);
}

#[test]
fn a_builtin_call_is_handed_back_with_the_frame_past_it() {
    // Builtin 3 on the two values below the stack position.
    let mut vm = machine(vec![Bytecode::BUILTIN_CALL, 3, 0, 2, 0]);
    let mut frames = vec![frame(5, 2)];
    let mut stack = vec![LightValue::Integer(1), LightValue::Integer(2), LightValue::Nil];
    assert_eq!(vm.run_turn(&mut frames, &mut stack), Turn::Builtin(3, 0, 2));
    assert_eq!(frames.len(), 1);
    assert_eq!(frames[0].instruction_position, 5);
    assert_eq!(frames[0].stack_position, 1);
}

#[test]
fn a_call_to_a_function_that_is_not_there_cannot_be_entered() {
    let mut vm = machine(vec![Bytecode::CALL, 4, 0]);
    let mut frames = vec![frame(3, 0)];
    let mut stack = vec![LightValue::Nil; 2];
    assert_eq!(vm.run_turn(&mut frames, &mut stack), Turn::Unenterable(4));
    assert_eq!(frames.len(), 1);
    assert_eq!(frames[0].instruction_position, 3);
}
