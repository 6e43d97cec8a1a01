//! The eight operations of the language and the bytes that spell them.

use vstd::prelude::*;

verus! {

/// One operation of a translated program. It carries no payload: its position
/// is its index in the operation sequence.
#[derive(Clone, Copy, Debug, PartialEq, Eq, Structural)]
pub enum OpCode {
    IncrementPointer,
    DecrementPointer,
    Increment,
    Decrement,
    Write,
    Read,
    LoopBegin,
    LoopEnd,
}

/// The operation that a source byte spells, if it spells one. Every other byte
/// is a comment.
pub open spec fn command(byte: u8) -> Option<OpCode> {
    if byte == 0x3e {
        Some(OpCode::IncrementPointer)
    } else if byte == 0x3c {
        Some(OpCode::DecrementPointer)
    } else if byte == 0x2b {
        Some(OpCode::Increment)
    } else if byte == 0x2d {
        Some(OpCode::Decrement)
    } else if byte == 0x2e {
        Some(OpCode::Write)
    } else if byte == 0x2c {
        Some(OpCode::Read)
    } else if byte == 0x5b {
        Some(OpCode::LoopBegin)
    } else if byte == 0x5d {
        Some(OpCode::LoopEnd)
    } else {
        None
    }
}

impl OpCode {
    /// Decodes one source byte: `>` `<` `+` `-` `.` `,` `[` `]` give their
    /// operation, any other byte gives `None`.
    pub fn from_byte(byte: u8) -> (op: Option<OpCode>)
        ensures
            op == command(byte),
    {
        match byte {
            0x3e => Some(OpCode::IncrementPointer),
            0x3c => Some(OpCode::DecrementPointer),
            0x2b => Some(OpCode::Increment),
            0x2d => Some(OpCode::Decrement),
            0x2e => Some(OpCode::Write),
            0x2c => Some(OpCode::Read),
            0x5b => Some(OpCode::LoopBegin),
            0x5d => Some(OpCode::LoopEnd),
            _ => None,
        }
    }
}

} // verus!
