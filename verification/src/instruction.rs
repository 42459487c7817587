//! The instruction set of the compiled form of a program.

use vstd::prelude::*;

verus! {

/// One compiled instruction.
///
/// `BeginLoop(target)` carries the index, within the instruction sequence, of
/// the matching `EndLoop`, and `EndLoop(target)` the index of the matching
/// `BeginLoop`. `Abort` is the placeholder written for an opening bracket
/// whose closing bracket has not been seen yet; it survives compilation only
/// when the program has an unmatched opening bracket, and reaching it during
/// execution is a fatal condition.
#[derive(Debug, PartialEq, Eq, Structural, Clone, Copy)]
pub enum Instruction {
    GoRight,
    GoLeft,
    Increment,
    Decrement,
    Output,
    Input,
    BeginLoop(usize),
    EndLoop(usize),
    Abort,
}

/// A single instruction's jump target, if it has one, stays inside a program
/// of length `len`.
pub open spec fn instr_target_ok(ins: Instruction, len: int) -> bool {
    match ins {
        Instruction::BeginLoop(t) => (t as int) < len,
        Instruction::EndLoop(t) => (t as int) < len,
        _ => true,
    }
}

/// Every jump target in the program is an index into the program itself.
/// The compiler only ever produces such programs.
pub open spec fn jump_targets_ok(prog: Seq<Instruction>) -> bool {
    forall|i: int| 0 <= i < prog.len() ==> instr_target_ok(#[trigger] prog[i], prog.len() as int)
}

} // verus!
