//! A two-stage interpreter for a minimal tape-based esoteric language.
//!
//! A textual program is compiled into a flat sequence of instructions with
//! pre-resolved jump targets (`parse`), which is then executed against a
//! single growable byte tape (`run_bytecode`).

pub mod instruction;
pub mod interpreter;
pub mod parse;
