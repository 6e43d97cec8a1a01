//! An execution engine for an eight-command tape language: sources are
//! translated into an operation sequence with precomputed jump targets and
//! then interpreted against a fixed-size tape of wrapping byte cells.

pub mod interpreter;
pub mod jumps;
pub mod opcode;
pub mod semantics;
pub mod syntax;
