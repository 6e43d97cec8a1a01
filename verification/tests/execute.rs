use rustfuck::interpreter::Failure;
use rustfuck::interpreter::Interpreter;
use rustfuck::interpreter::Lexer;
use rustfuck::interpreter::OpCode;
use rustfuck::interpreter::Runnable;
use rustfuck::interpreter::TranslationError;
use rustfuck::interpreter::VirtualMachine;
use rustfuck::semantics::ExecutionError;
use rustfuck::semantics::Signal;
use rustfuck::semantics::MEM_SIZE;

const HELLO: &[u8] = b"++++++++[>++++[>++>+++>+++>+<<<<-]>+>+>->>+[<]<-]>>.>---.+++++++..+++.";

fn output(source: &[u8], input: &[u8], limit: usize) -> Result<Vec<u8>, Failure> {
    let mut machine = VirtualMachine::new();
    machine.exec(source.to_vec(), input.to_vec(), limit)
}

#[test]
fn tape_has_1024_cells() {
    assert_eq!(MEM_SIZE, 1024);
}

#[test]
fn new_machine_is_zeroed() {
    let machine = VirtualMachine::new();
    assert_eq!(machine.pointer(), 0);
    assert_eq!(machine.counter(), 0);
    assert_eq!(machine.cell(), 0);
    assert_eq!(machine.jump(0), None);
}

#[test]
fn pointer_wraps_backward_from_zero() {
    let mut machine = VirtualMachine::new();
    let ops = vec![OpCode::DecrementPointer];
    assert_eq!(machine.step(&ops), Ok(Signal::Continue));
    assert_eq!(machine.pointer(), MEM_SIZE - 1);
    assert_eq!(machine.counter(), 1);
}

#[test]
fn pointer_wraps_forward_from_the_last_cell() {
    let mut machine = VirtualMachine::new();
    let ops = vec![OpCode::DecrementPointer, OpCode::IncrementPointer];
    machine.step(&ops).unwrap();
    assert_eq!(machine.pointer(), MEM_SIZE - 1);
    assert_eq!(machine.step(&ops), Ok(Signal::Continue));
    assert_eq!(machine.pointer(), 0);
}

#[test]
fn pointer_comes_round_after_a_full_turn() {
    let mut machine = VirtualMachine::new();
    let ops = vec![OpCode::IncrementPointer; MEM_SIZE];
    for moved in 1..MEM_SIZE {
        machine.step(&ops).unwrap();
        assert_eq!(machine.pointer(), moved);
    }
    machine.step(&ops).unwrap();
    assert_eq!(machine.pointer(), 0);
}

#[test]
fn backward_wrap_reaches_a_cell_of_its_own() {
    assert_eq!(output(b"+<[-]>.", b"", 100), Ok(vec![1]));
    assert_eq!(output(b"<+>.<.", b"", 100), Ok(vec![0, 1]));
}

#[test]
fn cell_wraps_from_0_to_255_and_back() {
    let mut machine = VirtualMachine::new();
    let ops = vec![OpCode::Decrement, OpCode::Increment];
    machine.step(&ops).unwrap();
    assert_eq!(machine.cell(), 255);
    machine.step(&ops).unwrap();
    assert_eq!(machine.cell(), 0);
}

#[test]
fn cell_wraps_in_a_program() {
    assert_eq!(output(b"-.+.", b"", 100), Ok(vec![255, 0]));
    let mut source = vec![b'+'; 256];
    source.push(b'.');
    assert_eq!(output(&source, b"", 1000), Ok(vec![0]));
}

#[test]
fn hello_is_written_the_same_every_time() {
    let first = output(HELLO, b"", 100_000);
    let second = output(HELLO, b"", 100_000);
    assert_eq!(first, Ok(b"Hello".to_vec()));
    assert_eq!(first, second);
    let mut machine = VirtualMachine::new();
    let ops = machine.lex(HELLO.to_vec()).unwrap();
    let third = machine.run(ops.clone(), Vec::new(), 100_000);
    let fourth = machine.run(ops, Vec::new(), 100_000);
    assert_eq!(third, Ok(b"Hello".to_vec()));
    assert_eq!(third, fourth);
}

#[test]
fn echo_reads_one_byte_and_writes_it() {
    assert_eq!(output(b",.", b"A", 10), Ok(vec![b'A']));
    assert_eq!(output(b",.", &[0], 10), Ok(vec![0]));
    assert_eq!(output(b",.", &[255, 7, 9], 10), Ok(vec![255]));
    assert_eq!(output(b",.", b"A", 2), Ok(vec![b'A']));
}

#[test]
fn reading_past_the_input_fails() {
    assert_eq!(
        output(b",.", b"", 10),
        Err(Failure::Execution(ExecutionError::InputExhausted))
    );
    assert_eq!(
        output(b",,", b"x", 10),
        Err(Failure::Execution(ExecutionError::InputExhausted))
    );
}

#[test]
fn input_is_read_in_order() {
    assert_eq!(output(b",>,>,.<.<.", b"abc", 100), Ok(b"cba".to_vec()));
    assert_eq!(output(b",[.,]", &[3, 2, 1, 0, 9], 100), Ok(vec![3, 2, 1]));
}

#[test]
fn empty_loop_on_a_non_zero_cell_never_ends() {
    for limit in [0usize, 1, 2, 3, 10, 1000, 100_000] {
        assert_eq!(
            output(b"+[]", b"", limit),
            Err(Failure::Execution(ExecutionError::StepLimit))
        );
    }
    let mut machine = VirtualMachine::new();
    let ops = machine.lex(b"+[].".to_vec()).unwrap();
    assert_eq!(machine.run(ops, Vec::new(), 5000), Err(ExecutionError::StepLimit));
    assert_eq!(machine.counter(), 2);
    assert_eq!(machine.cell(), 1);
}

#[test]
fn empty_loop_on_a_zero_cell_is_skipped() {
    assert_eq!(output(b"[]+.", b"", 10), Ok(vec![1]));
    assert_eq!(output(b"[]", b"", 1), Ok(Vec::new()));
}

#[test]
fn skipped_loop_resumes_after_its_close() {
    assert_eq!(output(b"[+.>]+.", b"", 10), Ok(vec![1]));
    let mut machine = VirtualMachine::new();
    let ops = machine.lex(b"[+]-".to_vec()).unwrap();
    assert_eq!(machine.step(&ops), Ok(Signal::Continue));
    assert_eq!(machine.counter(), 3);
}

#[test]
fn repeated_loop_resumes_at_its_body() {
    let mut machine = VirtualMachine::new();
    let ops = machine.lex(b"++[-]".to_vec()).unwrap();
    for _ in 0..4 {
        machine.step(&ops).unwrap();
    }
    assert_eq!(machine.counter(), 4);
    assert_eq!(machine.cell(), 1);
    assert_eq!(machine.step(&ops), Ok(Signal::Continue));
    assert_eq!(machine.counter(), 3);
    machine.step(&ops).unwrap();
    assert_eq!(machine.cell(), 0);
    assert_eq!(machine.step(&ops), Ok(Signal::Continue));
    assert_eq!(machine.counter(), 5);
    assert_eq!(machine.step(&ops), Ok(Signal::Halt));
    assert_eq!(machine.counter(), 5);
}

#[test]
fn loop_multiplies() {
    assert_eq!(output(b"+++[>++++<-]>.", b"", 1000), Ok(vec![12]));
}

#[test]
fn budget_counts_operations() {
    assert_eq!(output(b"+++.", b"", 4), Ok(vec![3]));
    assert_eq!(
        output(b"+++.", b"", 3),
        Err(Failure::Execution(ExecutionError::StepLimit))
    );
    assert_eq!(output(b"", b"", 0), Ok(Vec::new()));
    assert_eq!(output(b"no commands here", b"", 0), Ok(Vec::new()));
}

#[test]
fn closing_bracket_without_entry_fails_when_it_has_to_jump() {
    let mut machine = VirtualMachine::new();
    let ops = vec![OpCode::Increment, OpCode::LoopEnd];
    assert_eq!(
        machine.run(ops, Vec::new(), 10),
        Err(ExecutionError::MissingJump { position: 1 })
    );
    let mut other = VirtualMachine::new();
    let passed = vec![OpCode::LoopEnd, OpCode::Increment, OpCode::Write];
    assert_eq!(other.run(passed, Vec::new(), 10), Ok(vec![1]));
}

#[test]
fn missing_jump_leaves_the_machine_where_it_was() {
    let mut machine = VirtualMachine::new();
    let ops = vec![OpCode::LoopBegin];
    assert_eq!(machine.step(&ops), Err(ExecutionError::MissingJump { position: 0 }));
    assert_eq!(machine.counter(), 0);
    assert_eq!(machine.step(&ops), Err(ExecutionError::MissingJump { position: 0 }));
}

#[test]
fn untranslatable_source_is_not_run() {
    assert_eq!(
        output(b"+.]", b"", 10),
        Err(Failure::Translation(TranslationError::UnmatchedClose { position: 2 }))
    );
}

#[test]
fn every_run_starts_on_a_fresh_tape() {
    let mut machine = VirtualMachine::new();
    let ops = machine.lex(b">+.".to_vec()).unwrap();
    assert_eq!(machine.run(ops.clone(), Vec::new(), 10), Ok(vec![1]));
    assert_eq!(machine.pointer(), 1);
    assert_eq!(machine.counter(), 3);
    assert_eq!(machine.run(ops, Vec::new(), 10), Ok(vec![1]));
}

#[test]
fn reset_zeroes_the_run_and_keeps_the_jumps() {
    let mut machine = VirtualMachine::new();
    let ops = machine.lex(b"+>[]".to_vec()).unwrap();
    machine.step(&ops).unwrap();
    machine.step(&ops).unwrap();
    machine.reset();
    assert_eq!(machine.pointer(), 0);
    assert_eq!(machine.counter(), 0);
    assert_eq!(machine.cell(), 0);
    assert_eq!(machine.jump(2), Some(3));
}

#[test]
fn step_waits_for_input_and_supply_hands_it_over() {
    let mut machine = VirtualMachine::new();
    let ops = machine.lex(b",.".to_vec()).unwrap();
    assert_eq!(machine.step(&ops), Ok(Signal::AwaitInput));
    assert_eq!(machine.counter(), 0);
    assert_eq!(machine.step(&ops), Ok(Signal::AwaitInput));
    assert!(machine.supply(&ops, 42));
    assert_eq!(machine.counter(), 1);
    assert_eq!(machine.cell(), 42);
    assert!(!machine.supply(&ops, 43));
    assert_eq!(machine.cell(), 42);
    assert_eq!(machine.step(&ops), Ok(Signal::Emit(42)));
    assert_eq!(machine.step(&ops), Ok(Signal::Halt));
    assert!(!machine.supply(&ops, 44));
    assert_eq!(machine.counter(), 2);
}
