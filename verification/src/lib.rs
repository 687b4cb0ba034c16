//! A compiler and a suspendable execution engine for the classic
//! eight-symbol byte-tape language.
//!
//! Source text is compiled into a compact, jump-resolved instruction
//! sequence (runs of identical operations are folded, the common zeroing
//! idiom is rewritten, and loop brackets are paired).  The engine runs
//! such a sequence one step or many steps at a time and can suspend when
//! an instruction requests external input, resuming later without losing
//! state.

pub mod balance;
pub mod codegen;
pub mod inst;
pub mod laws;
pub mod machine;

pub use codegen::CodeGen;
pub use inst::BfError;
pub use inst::Inst;
pub use machine::Brainfuck;
