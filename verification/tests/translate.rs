use rustfuck::interpreter::Interpreter;
use rustfuck::interpreter::Lexer;
use rustfuck::interpreter::OpCode;
use rustfuck::interpreter::Runnable;
use rustfuck::interpreter::TranslationError;
use rustfuck::interpreter::VirtualMachine;
use rustfuck::semantics::ExecutionError;

fn brackets_of(ops: &[OpCode]) -> Vec<usize> {
    let mut found = Vec::new();
    for (at, op) in ops.iter().enumerate() {
        if *op == OpCode::LoopBegin || *op == OpCode::LoopEnd {
            found.push(at);
        }
    }
    found
}

#[test]
fn each_command_byte_gives_its_operation() {
    let mut machine = VirtualMachine::new();
    let ops = machine.lex(b"><+-.,[]".to_vec()).unwrap();
    assert_eq!(
        ops,
        vec![
            OpCode::IncrementPointer,
            OpCode::DecrementPointer,
            OpCode::Increment,
            OpCode::Decrement,
            OpCode::Write,
            OpCode::Read,
            OpCode::LoopBegin,
            OpCode::LoopEnd,
        ]
    );
}

#[test]
fn from_byte_knows_the_eight_commands_only() {
    let mut known = 0;
    for byte in 0..=255u8 {
        if OpCode::from_byte(byte).is_some() {
            known += 1;
        }
    }
    assert_eq!(known, 8);
    assert_eq!(OpCode::from_byte(b'['), Some(OpCode::LoopBegin));
    assert_eq!(OpCode::from_byte(b']'), Some(OpCode::LoopEnd));
    assert_eq!(OpCode::from_byte(b' '), None);
    assert_eq!(OpCode::from_byte(0), None);
}

#[test]
fn empty_source_gives_no_operation() {
    let mut machine = VirtualMachine::new();
    assert_eq!(machine.lex(Vec::new()), Ok(Vec::new()));
    assert_eq!(machine.jump(0), None);
}

#[test]
fn spaces_between_commands_are_skipped() {
    let mut machine = VirtualMachine::new();
    let ops = machine.lex(b"+ + > >".to_vec()).unwrap();
    assert_eq!(
        ops,
        vec![
            OpCode::Increment,
            OpCode::Increment,
            OpCode::IncrementPointer,
            OpCode::IncrementPointer,
        ]
    );
}

#[test]
fn comments_do_not_shift_bracket_positions() {
    let mut plain = VirtualMachine::new();
    let mut noisy = VirtualMachine::new();
    let plain_ops = plain.lex(b"+[>[-]<-]".to_vec()).unwrap();
    let noisy_ops = noisy
        .lex(b"set one: + then loop [ go right > clear [ - ] back < count down - ] done".to_vec())
        .unwrap();
    assert_eq!(plain_ops, noisy_ops);
    for at in 0..plain_ops.len() + 1 {
        assert_eq!(plain.jump(at), noisy.jump(at));
    }
    assert_eq!(noisy.jump(1), Some(8));
    assert_eq!(noisy.jump(8), Some(1));
    assert_eq!(noisy.jump(3), Some(5));
    assert_eq!(noisy.jump(5), Some(3));
}

#[test]
fn jump_map_of_a_balanced_source_is_an_involution_on_the_brackets() {
    let mut machine = VirtualMachine::new();
    let ops = machine.lex(b"[[][]]+[-[>]<]".to_vec()).unwrap();
    assert_eq!(machine.jump(0), Some(5));
    assert_eq!(machine.jump(1), Some(2));
    assert_eq!(machine.jump(3), Some(4));
    assert_eq!(machine.jump(7), Some(13));
    assert_eq!(machine.jump(9), Some(11));
    let brackets = brackets_of(&ops);
    assert_eq!(brackets.len(), 10);
    for at in 0..ops.len() {
        match machine.jump(at) {
            Some(other) => {
                assert!(brackets.contains(&at));
                assert_ne!(other, at);
                assert_eq!(machine.jump(other), Some(at));
            }
            None => assert!(!brackets.contains(&at)),
        }
    }
    assert_eq!(machine.jump(ops.len()), None);
}

#[test]
fn unmatched_close_is_reported_at_its_operation_index() {
    let mut machine = VirtualMachine::new();
    let failed = machine.lex(b"+ [ - ] x ] +".to_vec());
    assert_eq!(failed, Err(TranslationError::UnmatchedClose { position: 4 }));
}

#[test]
fn lone_close_is_reported_at_zero() {
    let mut machine = VirtualMachine::new();
    assert_eq!(
        machine.lex(b"]".to_vec()),
        Err(TranslationError::UnmatchedClose { position: 0 })
    );
    assert_eq!(
        machine.lex(b"comment ] [".to_vec()),
        Err(TranslationError::UnmatchedClose { position: 0 })
    );
}

#[test]
fn only_the_first_unmatched_close_is_reported() {
    let mut machine = VirtualMachine::new();
    assert_eq!(
        machine.lex(b"[]]]".to_vec()),
        Err(TranslationError::UnmatchedClose { position: 2 })
    );
    assert_eq!(machine.jump(0), Some(1));
    assert_eq!(machine.jump(1), Some(0));
    assert_eq!(machine.jump(2), None);
}

#[test]
fn an_open_bracket_left_open_is_translated() {
    let mut machine = VirtualMachine::new();
    let ops = machine.lex(b"[[-]".to_vec()).unwrap();
    assert_eq!(
        ops,
        vec![OpCode::LoopBegin, OpCode::LoopBegin, OpCode::Decrement, OpCode::LoopEnd]
    );
    assert_eq!(machine.jump(0), None);
    assert_eq!(machine.jump(1), Some(3));
    assert_eq!(machine.jump(3), Some(1));
}

#[test]
fn an_open_bracket_left_open_fails_when_it_has_to_jump() {
    let mut machine = VirtualMachine::new();
    let ops = machine.lex(b"+-[".to_vec()).unwrap();
    assert_eq!(
        machine.run(ops, Vec::new(), 100),
        Err(ExecutionError::MissingJump { position: 2 })
    );
}

#[test]
fn an_open_bracket_left_open_is_passed_on_a_non_zero_cell() {
    let mut machine = VirtualMachine::new();
    let ops = machine.lex(b"+[.".to_vec()).unwrap();
    assert_eq!(machine.run(ops, Vec::new(), 100), Ok(vec![1]));
}

#[test]
fn a_new_translation_replaces_the_jump_map() {
    let mut machine = VirtualMachine::new();
    machine.lex(b"[[]]".to_vec()).unwrap();
    assert_eq!(machine.jump(0), Some(3));
    machine.lex(b"+[]".to_vec()).unwrap();
    assert_eq!(machine.jump(0), None);
    assert_eq!(machine.jump(1), Some(2));
    assert_eq!(machine.jump(2), Some(1));
    assert_eq!(machine.jump(3), None);
}

#[test]
fn translation_leaves_the_tape_alone() {
    let mut machine = VirtualMachine::new();
    let ops = vec![OpCode::IncrementPointer, OpCode::Increment];
    machine.step(&ops).unwrap();
    machine.step(&ops).unwrap();
    machine.lex(b"[-]".to_vec()).unwrap();
    assert_eq!(machine.pointer(), 1);
    assert_eq!(machine.counter(), 2);
    assert_eq!(machine.cell(), 1);
}
