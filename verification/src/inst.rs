//! The compiled instruction set and the error taxonomy.

use vstd::prelude::*;

verus! {

/// One compiled instruction.
///
/// `Add`/`Sub`/`Shr`/`Shl` carry a run length of at least 1, produced by
/// folding consecutive identical source symbols.  `Jpf`/`Jpb` carry the
/// index of the matching partner bracket, resolved once at compile time.
/// `Stz` is the rewritten form of the three-instruction zeroing idiom.
#[derive(Debug, Clone, Copy, PartialEq, Eq, Structural)]
pub enum Inst {
    /// Add the count to the current cell, wrapping modulo 256.
    Add(u8),
    /// Subtract the count from the current cell, wrapping modulo 256.
    Sub(u8),
    /// Move the data pointer right by the count.
    Shr(usize),
    /// Move the data pointer left by the count.
    Shl(usize),
    /// Jump to just past the matching close bracket when the cell is zero.
    Jpf(usize),
    /// Jump back into the loop body when the cell is non-zero.
    Jpb(usize),
    /// Append the current cell to the output buffer.
    Wrt,
    /// Request one byte of external input; the engine suspends.
    Red,
    /// Set the current cell to zero directly.
    Stz,
}

/// Every failure the compiler or the engine can report.
///
/// The two pointer-bound failures are kept apart so that each can carry
/// its own report text; both are bounds violations of the data pointer.
#[derive(Debug, Clone, Copy, PartialEq, Eq, Structural)]
pub enum BfError {
    /// A loop bracket has no partner anywhere in the source.
    UnbalancedBrackets,
    /// A right shift would move the data pointer past the last cell.
    BoundsOverflow,
    /// A left shift would move the data pointer before the first cell.
    BoundsUnderflow,
    /// The program counter would leave the program (defensive; never
    /// produced for a compiler-built program).
    ProgramCounter,
    /// Input was requested from an empty staging queue.
    EmptyInput,
    /// A supplied input byte was outside the 7-bit range.
    NonAsciiInput,
}

impl BfError {
    /// A fixed human-readable report for each failure.
    pub fn message(&self) -> &'static str {
        match self {
            BfError::UnbalancedBrackets => "Jumptable can't be constructed.",
            BfError::BoundsOverflow => "Too large pointer than the size of memory.",
            BfError::BoundsUnderflow => "Too small pointer than the first address of memory.",
            BfError::ProgramCounter => "Counter is larger than the program size.",
            BfError::EmptyInput => "input empty String.",
            BfError::NonAsciiInput => "Input contains non-ascii code.",
        }
    }
}

} // verus!
