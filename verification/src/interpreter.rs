//! The virtual machine: translation of a source into operations and a jump
//! table, and execution of the operations against the tape.

use crate::jumps::empty_table;
use crate::jumps::lookup;
use crate::jumps::record;
pub use crate::opcode::OpCode;
use crate::semantics::execution;
use crate::semantics::output_of;
use crate::semantics::program;
use crate::semantics::ExecutionError;
use crate::semantics::Machine;
use crate::semantics::Signal;
use crate::semantics::MEM_SIZE;
use crate::syntax::commands;
use crate::syntax::depth;
use crate::syntax::jump_map;
use crate::syntax::lemma_commands_len;
use crate::syntax::lemma_commands_next;
use crate::syntax::lemma_commands_starts;
use crate::syntax::lemma_depth_push;
use crate::syntax::lemma_depth_starts;
use crate::syntax::lemma_jump_map_push_close;
use crate::syntax::lemma_jump_map_push_plain;
use crate::syntax::never_negative;
use crate::syntax::pending;
use crate::syntax::stray_close;
use rustc_hash::FxHashMap;
use vstd::prelude::*;

verus! {

/// Why a source was not translated.
#[derive(Clone, Copy, Debug, PartialEq, Eq, Structural)]
pub enum TranslationError {
    /// The closing bracket that is operation number `position` has no opening
    /// bracket left to match.
    UnmatchedClose { position: usize },
}

/// A machine with its jump table and its tape.
pub struct VirtualMachine {
    cache: FxHashMap<usize, usize>,
    mem: [u8; MEM_SIZE],
    ptr: usize,
    pc: usize,
}

impl View for VirtualMachine {
    type V = Machine;

    closed spec fn view(&self) -> Machine {
        Machine { jumps: self.cache@, tape: self.mem@, ptr: self.ptr, pc: self.pc }
    }
}

/// Why a source gave no output: it was not translated, or its execution was
/// given up.
#[derive(Clone, Copy, Debug, PartialEq, Eq, Structural)]
pub enum Failure {
    Translation(TranslationError),
    Execution(ExecutionError),
}

/// Translation of a source into operations.
pub trait Lexer {
    fn lex(&mut self, code: Vec<u8>) -> Result<Vec<OpCode>, TranslationError>;
}

/// Execution of translated operations on a given input, within a budget of
/// operations.
pub trait Runnable {
    fn run(&mut self, ops: Vec<OpCode>, input: Vec<u8>, limit: usize) -> Result<
        Vec<u8>,
        ExecutionError,
    >;
}

/// Translation and execution in one call.
pub trait Interpreter: Lexer + Runnable + Sized {
    fn new() -> Self;

    fn exec(&mut self, code: Vec<u8>, input: Vec<u8>, limit: usize) -> Result<Vec<u8>, Failure>;
}

impl VirtualMachine {
    /// The pointer is on the tape, and every jump target has a successor.
    #[verifier::type_invariant]
    spec fn inv(self) -> bool {
        &&& self.ptr < MEM_SIZE
        &&& forall|key: usize| #[trigger]
            self.cache@.contains_key(key) ==> self.cache@[key] < usize::MAX
    }

    /// Starts a new run: the tape is zeroed, and the pointer and the counter
    /// go back to 0. The jump map stays.
    pub fn reset(&mut self)
        ensures
            final(self)@ == old(self)@.restarted(),
            final(self)@.wf(),
    {
        proof {
            use_type_invariant(&*self);
        }
        self.mem = [0u8; MEM_SIZE];
        self.ptr = 0;
        self.pc = 0;
        proof {
            assert(self@.tape =~= old(self)@.restarted().tape);
        }
    }

    /// Performs the operation under the program counter and reports what the
    /// caller has to do. Nothing changes where the machine has halted, where
    /// it reports an error, and where it awaits input.
    pub fn step(&mut self, ops: &Vec<OpCode>) -> (signal: Result<Signal, ExecutionError>)
        ensures
            signal == old(self)@.signal(ops@),
            final(self)@ == old(self)@.stepped(ops@),
            final(self)@.wf(),
    {
        proof {
            use_type_invariant(&*self);
        }
        if self.pc >= ops.len() {
            return Ok(Signal::Halt);
        }
        let cell: u8 = self.mem[self.ptr];
        match ops[self.pc] {
            OpCode::IncrementPointer => {
                self.ptr = (self.ptr + 1) % MEM_SIZE;
                self.pc = self.pc + 1;
                Ok(Signal::Continue)
            },
            OpCode::DecrementPointer => {
                self.ptr = (self.ptr + (MEM_SIZE - 1)) % MEM_SIZE;
                self.pc = self.pc + 1;
                Ok(Signal::Continue)
            },
            OpCode::Increment => {
                self.mem[self.ptr] = cell.wrapping_add(1);
                self.pc = self.pc + 1;
                Ok(Signal::Continue)
            },
            OpCode::Decrement => {
                self.mem[self.ptr] = cell.wrapping_sub(1);
                self.pc = self.pc + 1;
                Ok(Signal::Continue)
            },
            OpCode::Write => {
                self.pc = self.pc + 1;
                Ok(Signal::Emit(cell))
            },
            OpCode::Read => Ok(Signal::AwaitInput),
            OpCode::LoopBegin => {
                if cell == 0 {
                    match lookup(&self.cache, self.pc) {
                        Some(val) => {
                            self.pc = val + 1;
                            Ok(Signal::Continue)
                        },
                        None => Err(ExecutionError::MissingJump { position: self.pc }),
                    }
                } else {
                    self.pc = self.pc + 1;
                    Ok(Signal::Continue)
                }
            },
            OpCode::LoopEnd => {
                if cell != 0 {
                    match lookup(&self.cache, self.pc) {
                        Some(val) => {
                            self.pc = val + 1;
                            Ok(Signal::Continue)
                        },
                        None => Err(ExecutionError::MissingJump { position: self.pc }),
                    }
                } else {
                    self.pc = self.pc + 1;
                    Ok(Signal::Continue)
                }
            },
        }
    }
}

impl VirtualMachine {
    /// The position of the data pointer on the tape.
    pub fn pointer(&self) -> (at: usize)
        ensures
            at == self@.ptr,
            at < MEM_SIZE,
    {
        proof {
            use_type_invariant(self);
        }
        self.ptr
    }

    /// The index of the operation that the next step performs.
    pub fn counter(&self) -> (at: usize)
        ensures
            at == self@.pc,
    {
        self.pc
    }

    /// The byte under the data pointer.
    pub fn cell(&self) -> (byte: u8)
        ensures
            byte == self@.cell(),
    {
        proof {
            use_type_invariant(self);
        }
        self.mem[self.ptr]
    }

    /// Where the bracket at `position` jumps to, if the jump map has an
    /// entry for it.
    pub fn jump(&self, position: usize) -> (target: Option<usize>)
        ensures
            target == (if self@.jumps.contains_key(position) {
                Some(self@.jumps[position])
            } else {
                None
            }),
    {
        lookup(&self.cache, position)
    }

    /// Hands the machine the input byte that it awaits: the byte goes into
    /// the current cell and the counter moves on. Where the machine awaits
    /// none, nothing changes and the answer is `false`.
    pub fn supply(&mut self, ops: &Vec<OpCode>, byte: u8) -> (taken: bool)
        ensures
            taken == (old(self)@.signal(ops@) == Ok::<Signal, ExecutionError>(Signal::AwaitInput)),
            final(self)@ == old(self)@.supplied(ops@, byte),
            final(self)@.wf(),
    {
        proof {
            use_type_invariant(&*self);
        }
        if self.pc >= ops.len() {
            return false;
        }
        match ops[self.pc] {
            OpCode::Read => {
                self.mem[self.ptr] = byte;
                self.pc = self.pc + 1;
                true
            },
            _ => false,
        }
    }
}

impl Runnable for VirtualMachine {
    /// Runs `ops` from a fresh tape with the machine's jump map, reading from
    /// `input` and executing at most `limit` operations. The result and the
    /// machine afterwards are those of the execution so defined: the bytes
    /// written if the program halts in time, else the error that stopped it.
    fn run(&mut self, ops: Vec<OpCode>, input: Vec<u8>, limit: usize) -> (finished: Result<
        Vec<u8>,
        ExecutionError,
    >)
        ensures
            output_of(finished) == execution(ops@, old(self)@.jumps, input@, limit as nat).result,
            final(self)@ == execution(ops@, old(self)@.jumps, input@, limit as nat).machine,
            final(self)@.wf(),
    {
        let ghost whole = execution(ops@, old(self)@.jumps, input@, limit as nat);
        self.reset();
        let mut stdout: Vec<u8> = Vec::new();
        let mut taken: usize = 0;
        let mut steps: usize = 0;
        proof {
            assert(input@.skip(0) =~= input@);
        }
        loop
            invariant
                steps <= limit,
                taken <= input.len(),
                whole == execution(ops@, old(self)@.jumps, input@, limit as nat),
                self@.wf(),
                self@.run(ops@, input@.skip(taken as int), stdout@, (limit - steps) as nat)
                    == whole,
            decreases limit - steps,
        {
            if self.pc >= ops.len() {
                return Ok(stdout);
            }
            if steps == limit {
                return Err(ExecutionError::StepLimit);
            }
            match self.step(&ops) {
                Err(error) => {
                    return Err(error);
                },
                Ok(Signal::Emit(byte)) => {
                    stdout.push(byte);
                },
                Ok(Signal::AwaitInput) => {
                    if taken < input.len() {
                        self.supply(&ops, input[taken]);
                        proof {
                            assert(input@.skip(taken as int).drop_first() =~= input@.skip(
                                taken as int + 1,
                            ));
                        }
                        taken = taken + 1;
                    } else {
                        return Err(ExecutionError::InputExhausted);
                    }
                },
                Ok(_) => {},
            }
            steps = steps + 1;
        }
    }
}

impl Interpreter for VirtualMachine {
    /// A machine with an empty jump map and a zeroed tape.
    fn new() -> (machine: VirtualMachine)
        ensures
            machine@ == Machine::fresh(Map::empty()),
    {
        let machine = VirtualMachine { cache: empty_table(), mem: [0u8; MEM_SIZE], ptr: 0, pc: 0 };
        proof {
            assert(machine@.tape =~= Machine::fresh(Map::empty()).tape);
        }
        machine
    }

    /// Translates `code` and, if that succeeds, runs the operations on
    /// `input` within `limit` operations.
    fn exec(&mut self, code: Vec<u8>, input: Vec<u8>, limit: usize) -> (finished: Result<
        Vec<u8>,
        Failure,
    >)
        ensures
            finished matches Err(Failure::Translation(_)) <==> !never_negative(commands(code@)),
            match finished {
                Ok(bytes) => {
                    &&& program(code@, input@, limit as nat).result == Ok::<
                        Seq<u8>,
                        ExecutionError,
                    >(bytes@)
                    &&& final(self)@ == program(code@, input@, limit as nat).machine
                },
                Err(Failure::Execution(error)) => {
                    &&& program(code@, input@, limit as nat).result == Err::<
                        Seq<u8>,
                        ExecutionError,
                    >(error)
                    &&& final(self)@ == program(code@, input@, limit as nat).machine
                },
                Err(Failure::Translation(TranslationError::UnmatchedClose { position })) => {
                    &&& stray_close(commands(code@), position as int)
                    &&& final(self)@ == Machine {
                        jumps: jump_map(commands(code@).take(position as int)),
                        ..old(self)@
                    }
                },
            },
            final(self)@.wf(),
    {
        match self.lex(code) {
            Err(error) => Err(Failure::Translation(error)),
            Ok(ops) => match self.run(ops, input, limit) {
                Ok(bytes) => Ok(bytes),
                Err(error) => Err(Failure::Execution(error)),
            },
        }
    }
}

impl Lexer for VirtualMachine {
    /// Translates `code`. The operations are those that the bytes spell, in
    /// order, and the machine's jump map afterwards is that of the
    /// operations. Translation fails at the first closing bracket that
    /// nothing opened, and only there; a bracket left open is accepted. The
    /// tape, the pointer and the counter are left alone.
    fn lex(&mut self, code: Vec<u8>) -> (translated: Result<Vec<OpCode>, TranslationError>)
        ensures
            translated is Ok <==> never_negative(commands(code@)),
            match translated {
                Ok(ops) => ops@ == commands(code@) && final(self)@.jumps == jump_map(ops@),
                Err(TranslationError::UnmatchedClose { position }) => {
                    &&& stray_close(commands(code@), position as int)
                    &&& final(self)@.jumps == jump_map(commands(code@).take(position as int))
                },
            },
            final(self)@.tape == old(self)@.tape,
            final(self)@.ptr == old(self)@.ptr,
            final(self)@.pc == old(self)@.pc,
            final(self)@.wf(),
    {
        let mut ops: Vec<OpCode> = Vec::new();
        let mut loop_stack: Vec<usize> = Vec::new();
        let mut i: usize = 0;
        let mut table: FxHashMap<usize, usize> = empty_table();
        proof {
            use_type_invariant(&*self);
            assert(jump_map(ops@) =~= Map::<usize, usize>::empty()) by {
                assert forall|key: usize| !#[trigger] jump_map(ops@).contains_key(key) by {
                    if jump_map(ops@).contains_key(key) {
                        crate::syntax::lemma_jump_map_linked(ops@, key);
                    }
                }
            }
            assert(code@.take(0) =~= Seq::<u8>::empty());
        }
        while i < code.len()
            invariant
                i <= code.len(),
                ops.len() <= i,
                ops@ == commands(code@.take(i as int)),
                never_negative(ops@),
                loop_stack.len() == depth(ops@, ops.len() as int),
                forall|t: int| 0 <= t < loop_stack.len() ==> pending(ops@, #[trigger] loop_stack[t] as int, t),
                table@ == jump_map(ops@),
                self@ == old(self)@,
                self@.wf(),
                forall|key: usize| #[trigger] table@.contains_key(key) ==> table@[key] < i,
            decreases code.len() - i,
        {
            let pc: usize = ops.len();
            let ghost before = ops@;
            proof {
                lemma_commands_next(code@, i as int);
                lemma_commands_starts(code@, i as int);
                lemma_commands_starts(code@, i as int + 1);
            }
            match OpCode::from_byte(code[i]) {
                Some(OpCode::LoopBegin) => {
                    proof {
                        lemma_depth_push(before, OpCode::LoopBegin);
                        lemma_jump_map_push_plain(before, OpCode::LoopBegin);
                    }
                    loop_stack.push(pc);
                    ops.push(OpCode::LoopBegin);
                    proof {
                        assert forall|t: int| 0 <= t < loop_stack.len() implies pending(
                            ops@,
                            #[trigger] loop_stack[t] as int,
                            t,
                        ) by {
                            if t < loop_stack.len() - 1 {
                                assert(pending(before, loop_stack[t] as int, t));
                                assert(ops@[loop_stack[t] as int] == before[loop_stack[t] as int]);
                            }
                        }
                    }
                },
                Some(OpCode::LoopEnd) => {
                    match loop_stack.pop() {
                        Some(val) => {
                            proof {
                                lemma_depth_push(before, OpCode::LoopEnd);
                                assert(pending(before, val as int, loop_stack.len() as int));
                                lemma_jump_map_push_close(before, val as int);
                            }
                            record(&mut table, val, pc);
                            record(&mut table, pc, val);
                            ops.push(OpCode::LoopEnd);
                            proof {
                                assert forall|t: int| 0 <= t < loop_stack.len() implies pending(
                                    ops@,
                                    #[trigger] loop_stack[t] as int,
                                    t,
                                ) by {
                                    assert(pending(before, loop_stack[t] as int, t));
                                    assert(ops@[loop_stack[t] as int] == before[loop_stack[t] as int]);
                                }
                            }
                        },
                        None => {
                            proof {
                                let all = commands(code@);
                                let next = before.push(OpCode::LoopEnd);
                                lemma_depth_push(before, OpCode::LoopEnd);
                                lemma_depth_starts(next, all, pc as int + 1);
                                assert forall|k: int| 0 <= k <= pc implies #[trigger] depth(all, k)
                                    >= 0 by {
                                    lemma_depth_starts(next, all, k);
                                }
                                assert(all.take(pc as int) =~= before);
                            }
                            self.cache = table;
                            return Err(TranslationError::UnmatchedClose { position: pc });
                        },
                    }
                },
                Some(op) => {
                    proof {
                        lemma_depth_push(before, op);
                        lemma_jump_map_push_plain(before, op);
                    }
                    ops.push(op);
                    proof {
                        assert forall|t: int| 0 <= t < loop_stack.len() implies pending(
                            ops@,
                            #[trigger] loop_stack[t] as int,
                            t,
                        ) by {
                            assert(pending(before, loop_stack[t] as int, t));
                            assert(ops@[loop_stack[t] as int] == before[loop_stack[t] as int]);
                        }
                    }
                },
                None => {},
            }
            i += 1;
        }
        proof {
            assert(code@.take(i as int) =~= code@);
        }
        self.cache = table;
        Ok(ops)
    }
}

} // verus!
