//! What execution means: the state of a machine, what one operation does to
//! it, and what a whole run gives for a given input and step budget.

use crate::opcode::OpCode;
use crate::syntax::balanced;
use crate::syntax::commands;
use crate::syntax::jump_map;
use crate::syntax::lemma_balanced_keys;
use crate::syntax::lemma_commands_len;
use vstd::prelude::*;

verus! {

/// The number of cells on the tape.
pub const MEM_SIZE: usize = 1024;

/// The state of a machine: its jump map, its tape, the data pointer and the
/// program counter.
pub struct Machine {
    pub jumps: Map<usize, usize>,
    pub tape: Seq<u8>,
    pub ptr: usize,
    pub pc: usize,
}

/// What the caller of one step has to do next.
#[derive(Clone, Copy, Debug, PartialEq, Eq, Structural)]
pub enum Signal {
    /// Nothing: take the next step.
    Continue,
    /// Pass this byte on to the output, then take the next step.
    Emit(u8),
    /// Fetch one byte of input and hand it over before the next step.
    AwaitInput,
    /// The program counter is past the last operation.
    Halt,
}

/// Why an execution was given up.
#[derive(Clone, Copy, Debug, PartialEq, Eq, Structural)]
pub enum ExecutionError {
    /// The bracket at `position` had to jump and the jump map has no entry
    /// for it.
    MissingJump { position: usize },
    /// The program asked for a byte and the input had none left.
    InputExhausted,
    /// The program had not halted when the step budget ran out.
    StepLimit,
}

/// What a whole run leaves behind: the machine, and the output or the error.
pub struct Outcome {
    pub machine: Machine,
    pub result: Result<Seq<u8>, ExecutionError>,
}

impl Machine {
    /// The tape has its full length, the pointer is on it, and every jump
    /// target has a successor.
    pub open spec fn wf(self) -> bool {
        &&& self.tape.len() == MEM_SIZE
        &&& self.ptr < MEM_SIZE
        &&& forall|key: usize| #[trigger]
            self.jumps.contains_key(key) ==> self.jumps[key] < usize::MAX
    }

    /// The byte under the data pointer.
    pub open spec fn cell(self) -> u8 {
        self.tape[self.ptr as int]
    }

    /// A machine at the start of a run: the given jump map, a zeroed tape,
    /// pointer and counter at 0.
    pub open spec fn fresh(jumps: Map<usize, usize>) -> Machine {
        Machine { jumps, tape: Seq::new(MEM_SIZE as nat, |i: int| 0u8), ptr: 0, pc: 0 }
    }

    /// This machine at the start of its next run: it keeps its jump map only.
    pub open spec fn restarted(self) -> Machine {
        Machine::fresh(self.jumps)
    }

    /// The operation under the program counter jumps: an opening bracket on a
    /// zero cell, or a closing bracket on a non-zero cell.
    pub open spec fn jumping(self, ops: Seq<OpCode>) -> bool {
        self.pc < ops.len() && match ops[self.pc as int] {
            OpCode::LoopBegin => self.cell() == 0,
            OpCode::LoopEnd => self.cell() != 0,
            _ => false,
        }
    }

    /// What one step reports.
    pub open spec fn signal(self, ops: Seq<OpCode>) -> Result<Signal, ExecutionError> {
        if self.pc >= ops.len() {
            Ok(Signal::Halt)
        } else if self.jumping(ops) && !self.jumps.contains_key(self.pc) {
            Err(ExecutionError::MissingJump { position: self.pc })
        } else {
            match ops[self.pc as int] {
                OpCode::Write => Ok(Signal::Emit(self.cell())),
                OpCode::Read => Ok(Signal::AwaitInput),
                _ => Ok(Signal::Continue),
            }
        }
    }

    /// The machine after one step. A halted machine, one that reports an
    /// error and one that awaits input stay as they are.
    pub open spec fn stepped(self, ops: Seq<OpCode>) -> Machine {
        if self.pc >= ops.len() || self.signal(ops) is Err {
            self
        } else {
            let next = (self.pc + 1) as usize;
            match ops[self.pc as int] {
                OpCode::IncrementPointer => Machine {
                    ptr: ((self.ptr + 1) % (MEM_SIZE as int)) as usize,
                    pc: next,
                    ..self
                },
                OpCode::DecrementPointer => Machine {
                    ptr: ((self.ptr - 1) % (MEM_SIZE as int)) as usize,
                    pc: next,
                    ..self
                },
                OpCode::Increment => Machine {
                    tape: self.tape.update(self.ptr as int, ((self.cell() + 1) % 256) as u8),
                    pc: next,
                    ..self
                },
                OpCode::Decrement => Machine {
                    tape: self.tape.update(self.ptr as int, ((self.cell() - 1) % 256) as u8),
                    pc: next,
                    ..self
                },
                OpCode::Write => Machine { pc: next, ..self },
                OpCode::Read => self,
                OpCode::LoopBegin | OpCode::LoopEnd => if self.jumping(ops) {
                    Machine { pc: (self.jumps[self.pc] + 1) as usize, ..self }
                } else {
                    Machine { pc: next, ..self }
                },
            }
        }
    }

    /// The machine after it was handed the input byte it awaited: the byte is
    /// in the current cell and the counter is one further. A machine that
    /// awaits none stays as it is.
    pub open spec fn supplied(self, ops: Seq<OpCode>, byte: u8) -> Machine {
        if self.signal(ops) == Ok::<Signal, ExecutionError>(Signal::AwaitInput) {
            Machine {
                tape: self.tape.update(self.ptr as int, byte),
                pc: (self.pc + 1) as usize,
                ..self
            }
        } else {
            self
        }
    }

    /// The run from this state on: `input` is what is left to read, `output`
    /// what was written so far, `budget` the number of operations still
    /// allowed. A machine that has halted needs no budget.
    pub open spec fn run(
        self,
        ops: Seq<OpCode>,
        input: Seq<u8>,
        output: Seq<u8>,
        budget: nat,
    ) -> Outcome
        decreases budget,
    {
        if self.pc >= ops.len() {
            Outcome { machine: self, result: Ok(output) }
        } else if budget == 0 {
            Outcome { machine: self, result: Err(ExecutionError::StepLimit) }
        } else {
            match self.signal(ops) {
                Err(error) => Outcome { machine: self, result: Err(error) },
                Ok(Signal::Emit(byte)) => self.stepped(ops).run(
                    ops,
                    input,
                    output.push(byte),
                    (budget - 1) as nat,
                ),
                Ok(Signal::AwaitInput) => if input.len() == 0 {
                    Outcome { machine: self, result: Err(ExecutionError::InputExhausted) }
                } else {
                    self.supplied(ops, input[0]).run(
                        ops,
                        input.drop_first(),
                        output,
                        (budget - 1) as nat,
                    )
                },
                Ok(_) => self.stepped(ops).run(ops, input, output, (budget - 1) as nat),
            }
        }
    }
}

/// A program's whole execution: a fresh tape, pointer and counter at 0, the
/// given jump map, input and step budget.
pub open spec fn execution(
    ops: Seq<OpCode>,
    jumps: Map<usize, usize>,
    input: Seq<u8>,
    budget: nat,
) -> Outcome {
    Machine::fresh(jumps).run(ops, input, Seq::empty(), budget)
}

/// What a source gives on an input within a budget, once it is translated.
pub open spec fn program(code: Seq<u8>, input: Seq<u8>, budget: nat) -> Outcome {
    execution(commands(code), jump_map(commands(code)), input, budget)
}

/// A result with its output bytes seen as a sequence.
pub open spec fn output_of(finished: Result<Vec<u8>, ExecutionError>) -> Result<
    Seq<u8>,
    ExecutionError,
> {
    match finished {
        Ok(bytes) => Ok(bytes@),
        Err(error) => Err(error),
    }
}

/// A step keeps a machine well formed.
pub proof fn lemma_stepped_wf(m: Machine, ops: Seq<OpCode>)
    requires
        m.wf(),
    ensures
        m.stepped(ops).wf(),
        m.stepped(ops).jumps == m.jumps,
{
}

/// The pointer moves by one cell and wraps at both ends of the tape.
pub proof fn lemma_pointer_wraps(m: Machine, ops: Seq<OpCode>)
    requires
        m.wf(),
        m.pc < ops.len(),
    ensures
        ops[m.pc as int] == OpCode::IncrementPointer ==> m.stepped(ops).ptr == (if m.ptr
            == MEM_SIZE - 1 {
            0
        } else {
            m.ptr + 1
        }),
        ops[m.pc as int] == OpCode::DecrementPointer ==> m.stepped(ops).ptr == (if m.ptr == 0 {
            MEM_SIZE - 1
        } else {
            m.ptr - 1
        }),
{
}

/// The current cell changes by one and wraps at both ends of a byte; no other
/// cell changes.
pub proof fn lemma_cell_wraps(m: Machine, ops: Seq<OpCode>)
    requires
        m.wf(),
        m.pc < ops.len(),
    ensures
        ops[m.pc as int] == OpCode::Increment ==> m.stepped(ops).cell() == (if m.cell() == 255 {
            0
        } else {
            m.cell() + 1
        }),
        ops[m.pc as int] == OpCode::Decrement ==> m.stepped(ops).cell() == (if m.cell() == 0 {
            255
        } else {
            m.cell() - 1
        }),
        forall|i: int|
            0 <= i < MEM_SIZE && i != m.ptr ==> #[trigger] m.stepped(ops).tape[i] == m.tape[i],
{
}

/// An empty loop entered on a non-zero cell never ends: whatever the budget,
/// the run stops for want of steps, with the machine on the closing bracket
/// and nothing read or written.
pub proof fn lemma_empty_loop_spins(
    m: Machine,
    ops: Seq<OpCode>,
    input: Seq<u8>,
    output: Seq<u8>,
    budget: nat,
)
    requires
        m.wf(),
        m.pc + 1 < ops.len(),
        ops[m.pc as int] == OpCode::LoopBegin,
        ops[m.pc + 1] == OpCode::LoopEnd,
        m.jumps.contains_key((m.pc + 1) as usize),
        m.jumps[(m.pc + 1) as usize] == m.pc,
        m.cell() != 0,
    ensures
        m.stepped(ops) == (Machine { pc: (m.pc + 1) as usize, ..m }),
        m.stepped(ops).stepped(ops) == m.stepped(ops),
        m.run(ops, input, output, budget).result == Err::<Seq<u8>, ExecutionError>(
            ExecutionError::StepLimit,
        ),
        m.run(ops, input, output, budget).machine == (if budget == 0 {
            m
        } else {
            m.stepped(ops)
        }),
{
    let held = m.stepped(ops);
    assert(held.stepped(ops) == held);
    if budget > 0 {
        lemma_held_forever(held, ops, input, output, (budget - 1) as nat);
    }
}

/// A machine that a step leaves as it is, without halting, failing, writing
/// or reading, runs until the budget is spent.
proof fn lemma_held_forever(
    m: Machine,
    ops: Seq<OpCode>,
    input: Seq<u8>,
    output: Seq<u8>,
    budget: nat,
)
    requires
        m.pc < ops.len(),
        m.signal(ops) == Ok::<Signal, ExecutionError>(Signal::Continue),
        m.stepped(ops) == m,
    ensures
        m.run(ops, input, output, budget) == (Outcome {
            machine: m,
            result: Err(ExecutionError::StepLimit),
        }),
    decreases budget,
{
    if budget > 0 {
        lemma_held_forever(m, ops, input, output, (budget - 1) as nat);
    }
}

/// The source `,.` writes the first byte of its input, and nothing else,
/// whatever follows that byte.
pub proof fn lemma_echo(byte: u8, rest: Seq<u8>, budget: nat)
    requires
        budget >= 2,
    ensures
        program(seq![0x2c, 0x2e], seq![byte] + rest, budget).result == Ok::<
            Seq<u8>,
            ExecutionError,
        >(seq![byte]),
{
    let code: Seq<u8> = seq![0x2c, 0x2e];
    let ops = commands(code);
    let input = seq![byte] + rest;
    assert(ops =~= seq![OpCode::Read, OpCode::Write]) by {
        assert(code.drop_last() =~= seq![0x2cu8]);
        assert(code.drop_last().drop_last() =~= Seq::<u8>::empty());
        assert(commands(code.drop_last().drop_last()) =~= Seq::<OpCode>::empty());
        assert(commands(code.drop_last()) =~= seq![OpCode::Read]);
    }
    let start = Machine::fresh(jump_map(ops));
    let fed = start.supplied(ops, byte);
    let done = fed.stepped(ops);
    assert(start.signal(ops) == Ok::<Signal, ExecutionError>(Signal::AwaitInput));
    assert(input[0] == byte);
    assert(fed.cell() == byte);
    assert(fed.signal(ops) == Ok::<Signal, ExecutionError>(Signal::Emit(byte)));
    assert(done.pc == 2);
    assert(Seq::<u8>::empty().push(byte) =~= seq![byte]);
    assert(done.run(ops, input.drop_first(), seq![byte], (budget - 2) as nat).result == Ok::<
        Seq<u8>,
        ExecutionError,
    >(seq![byte]));
    assert(fed.run(ops, input.drop_first(), Seq::empty(), (budget - 1) as nat).result == Ok::<
        Seq<u8>,
        ExecutionError,
    >(seq![byte]));
}

/// Every bracket of `ops` is a key of `jumps`.
pub open spec fn covers(jumps: Map<usize, usize>, ops: Seq<OpCode>) -> bool {
    forall|at: usize|
        at < ops.len() && (#[trigger] ops[at as int] == OpCode::LoopBegin || ops[at as int]
            == OpCode::LoopEnd) ==> jumps.contains_key(at)
}

/// A run whose jump map has an entry for every bracket never fails for want
/// of a jump.
pub proof fn lemma_covered_run(
    m: Machine,
    ops: Seq<OpCode>,
    input: Seq<u8>,
    output: Seq<u8>,
    budget: nat,
)
    requires
        covers(m.jumps, ops),
    ensures
        !(m.run(ops, input, output, budget).result matches Err(
            ExecutionError::MissingJump { .. },
        )),
    decreases budget,
{
    if m.pc < ops.len() && budget > 0 {
        let left = (budget - 1) as nat;
        assert(m.jumping(ops) ==> m.jumps.contains_key(m.pc)) by {
            assert(ops[m.pc as int] == ops[m.pc as int]);
        }
        match m.signal(ops) {
            Err(error) => {},
            Ok(Signal::Emit(byte)) => {
                lemma_covered_run(m.stepped(ops), ops, input, output.push(byte), left);
            },
            Ok(Signal::AwaitInput) => {
                if input.len() > 0 {
                    lemma_covered_run(
                        m.supplied(ops, input[0]),
                        ops,
                        input.drop_first(),
                        output,
                        left,
                    );
                }
            },
            Ok(_) => {
                lemma_covered_run(m.stepped(ops), ops, input, output, left);
            },
        }
    }
}

/// A source whose brackets are balanced never fails for want of a jump: it
/// halts with its output, runs out of input, or runs out of steps.
pub proof fn lemma_balanced_program(code: Seq<u8>, input: Seq<u8>, budget: nat)
    requires
        balanced(commands(code)),
        code.len() <= usize::MAX,
    ensures
        !(program(code, input, budget).result matches Err(ExecutionError::MissingJump { .. })),
{
    let ops = commands(code);
    lemma_commands_len(code);
    lemma_balanced_keys(ops);
    assert(covers(jump_map(ops), ops)) by {
        assert forall|at: usize|
            at < ops.len() && (#[trigger] ops[at as int] == OpCode::LoopBegin || ops[at as int]
                == OpCode::LoopEnd) implies jump_map(ops).contains_key(at) by {}
    }
    lemma_covered_run(Machine::fresh(jump_map(ops)), ops, input, Seq::empty(), budget);
}

} // verus!
