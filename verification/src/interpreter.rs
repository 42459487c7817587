//! The executor: a growable byte tape with a cursor, and the dispatch loop
//! that runs a compiled instruction sequence against it.

use crate::instruction::jump_targets_ok;
use crate::instruction::Instruction;
use vstd::prelude::*;

verus! {

/// Why a run ended abnormally.
#[derive(Debug, PartialEq, Eq, Structural, Clone, Copy)]
pub enum ExecError {
    /// Leftward motion was requested at the leftmost tape cell.
    TapeUnderflow,
    /// An `Input` instruction ran with no input bytes left.
    InputExhausted,
    /// An `Abort` placeholder (an unmatched opening bracket) was reached.
    AbortReached,
    /// The caller's step budget ran out before the program halted.
    StepLimitReached,
}

/// Number of cells the tape starts with. Purely a pre-allocation hint: the
/// tape grows on demand, so the semantics are as if it started with one cell.
pub const INITIAL_TAPE_LEN: usize = 1024;

/// The interpreter's tape: a sequence of byte cells and a cursor into it.
///
/// The cursor is always a valid index (`wf`); the cell sequence only grows,
/// one cell at a time, when the cursor moves past the current end.
pub struct State {
    pub memory: Vec<u8>,
    pub position: usize,
}

impl State {
    /// The cursor points at a cell of the tape.
    pub open spec fn wf(self) -> bool {
        self.position < self.memory@.len()
    }

    /// A fresh tape: all cells zero, cursor at the leftmost cell.
    pub fn new() -> (s: State)
        ensures
            s.wf(),
            s.position == 0,
            s.memory@ == Seq::new(INITIAL_TAPE_LEN as nat, |i: int| 0u8),
    {
        let mut memory: Vec<u8> = Vec::new();
        let mut i: usize = 0;
        while i < INITIAL_TAPE_LEN
            invariant
                i <= INITIAL_TAPE_LEN,
                memory@.len() == i,
                forall|k: int| 0 <= k < i ==> memory@[k] == 0u8,
            decreases INITIAL_TAPE_LEN - i,
        {
            memory.push(0);
            i += 1;
        }
        proof {
            assert(memory@ =~= Seq::new(INITIAL_TAPE_LEN as nat, |i: int| 0u8));
        }
        State { memory, position: 0 }
    }

    /// The value of the cell under the cursor.
    pub fn get_data(&self) -> (data: u8)
        requires
            self.wf(),
        ensures
            data == self.memory@[self.position as int],
    {
        self.memory[self.position]
    }

    /// Overwrite the cell under the cursor.
    pub fn set_data(&mut self, data: u8)
        requires
            old(self).wf(),
        ensures
            final(self).wf(),
            final(self).position == old(self).position,
            final(self).memory@ == old(self).memory@.update(old(self).position as int, data),
    {
        self.memory.set(self.position, data);
    }

    /// Move the cursor one cell to the left. The caller must rule out the
    /// leftmost position; the executor reports `TapeUnderflow` there instead.
    pub fn move_left(&mut self)
        requires
            old(self).wf(),
            old(self).position > 0,
        ensures
            final(self).wf(),
            final(self).position == old(self).position - 1,
            final(self).memory@ == old(self).memory@,
    {
        self.position -= 1;
    }

    /// Move the cursor one cell to the right, appending a fresh zero cell
    /// when it would step past the end of the tape. Never fails: after the
    /// call the cursor is again a valid index.
    pub fn move_right(&mut self)
        requires
            old(self).wf(),
        ensures
            final(self).wf(),
            final(self).position == old(self).position + 1,
            final(self).memory@ == if old(self).position + 1 == old(self).memory@.len() {
                old(self).memory@.push(0u8)
            } else {
                old(self).memory@
            },
    {
        let len = self.memory.len();
        self.position += 1;
        if self.position == len {
            self.memory.push(0);
        }
    }
}

/// The whole machine, mathematically: tape and cursor, instruction pointer,
/// input bytes not yet consumed, output bytes produced so far.
pub struct SpecState {
    pub tape: Seq<u8>,
    pub cursor: nat,
    pub ip: nat,
    pub input: Seq<u8>,
    pub output: Seq<u8>,
}

/// Where a run stands: still going, halted normally with its output, or
/// ended by a fatal condition with the output produced up to that point.
pub enum Outcome {
    Running(SpecState),
    Done(Seq<u8>),
    Failed(ExecError, Seq<u8>),
}

/// Cell increment, wrapping modulo 256.
pub open spec fn wrap_inc(c: u8) -> u8 {
    if c == 255 {
        0
    } else {
        (c + 1) as u8
    }
}

/// Cell decrement, wrapping modulo 256.
pub open spec fn wrap_dec(c: u8) -> u8 {
    if c == 0 {
        255
    } else {
        (c - 1) as u8
    }
}

/// The cell under the cursor.
pub open spec fn cell(s: SpecState) -> u8 {
    s.tape[s.cursor as int]
}

/// One instruction's effect on the machine, for an instruction pointer that
/// is inside the program. The pointer advances by one unless a loop
/// instruction jumps; a jump lands just past the jump target.
pub open spec fn step_at(prog: Seq<Instruction>, s: SpecState) -> Outcome
    recommends
        s.ip < prog.len(),
        s.cursor < s.tape.len(),
{
    match prog[s.ip as int] {
        Instruction::GoRight => Outcome::Running(
            SpecState {
                tape: if s.cursor + 1 == s.tape.len() {
                    s.tape.push(0u8)
                } else {
                    s.tape
                },
                cursor: s.cursor + 1,
                ip: s.ip + 1,
                ..s
            },
        ),
        Instruction::GoLeft => if s.cursor == 0 {
            Outcome::Failed(ExecError::TapeUnderflow, s.output)
        } else {
            Outcome::Running(SpecState { cursor: (s.cursor - 1) as nat, ip: s.ip + 1, ..s })
        },
        Instruction::Increment => Outcome::Running(
            SpecState {
                tape: s.tape.update(s.cursor as int, wrap_inc(cell(s))),
                ip: s.ip + 1,
                ..s
            },
        ),
        Instruction::Decrement => Outcome::Running(
            SpecState {
                tape: s.tape.update(s.cursor as int, wrap_dec(cell(s))),
                ip: s.ip + 1,
                ..s
            },
        ),
        Instruction::Output => Outcome::Running(
            SpecState { output: s.output.push(cell(s)), ip: s.ip + 1, ..s },
        ),
        Instruction::Input => if s.input.len() == 0 {
            Outcome::Failed(ExecError::InputExhausted, s.output)
        } else {
            Outcome::Running(
                SpecState {
                    tape: s.tape.update(s.cursor as int, s.input[0]),
                    input: s.input.skip(1),
                    ip: s.ip + 1,
                    ..s
                },
            )
        },
        Instruction::BeginLoop(target) => Outcome::Running(
            SpecState {
                ip: if cell(s) == 0 {
                    target as nat + 1
                } else {
                    s.ip + 1
                },
                ..s
            },
        ),
        Instruction::EndLoop(target) => Outcome::Running(
            SpecState {
                ip: if cell(s) != 0 {
                    target as nat + 1
                } else {
                    s.ip + 1
                },
                ..s
            },
        ),
        Instruction::Abort => Outcome::Failed(ExecError::AbortReached, s.output),
    }
}

/// The machine after at most `fuel` further instructions: halted as soon as
/// the instruction pointer leaves the program, failed as soon as a step
/// fails, still running if the fuel ran out first.
pub open spec fn run_to(prog: Seq<Instruction>, s: SpecState, fuel: nat) -> Outcome
    decreases fuel,
{
    if s.ip >= prog.len() {
        Outcome::Done(s.output)
    } else if fuel == 0 {
        Outcome::Running(s)
    } else {
        match step_at(prog, s) {
            Outcome::Running(s2) => run_to(prog, s2, (fuel - 1) as nat),
            o => o,
        }
    }
}

/// The machine a run starts from: a fresh tape, both pointers at zero, the
/// whole input ahead, no output yet.
pub open spec fn init_state(input: Seq<u8>) -> SpecState {
    SpecState {
        tape: Seq::new(INITIAL_TAPE_LEN as nat, |i: int| 0u8),
        cursor: 0,
        ip: 0,
        input,
        output: Seq::empty(),
    }
}

/// Wrap-around law: all cell mutation is modulo 256. Applying `Decrement`
/// to a cell holding 0 leaves 255 there, and applying `Increment` to a cell
/// holding 255 leaves 0.
pub proof fn lemma_cell_wrap_around(prog: Seq<Instruction>, s: SpecState)
    requires
        s.ip < prog.len(),
        s.cursor < s.tape.len(),
    ensures
        prog[s.ip as int] == Instruction::Increment ==> (step_at(prog, s) matches Outcome::Running(
            s2,
        ) && cell(s2) as int == (cell(s) as int + 1) % 256),
        prog[s.ip as int] == Instruction::Decrement ==> (step_at(prog, s) matches Outcome::Running(
            s2,
        ) && cell(s2) as int == (cell(s) as int + 255) % 256),
        prog[s.ip as int] == Instruction::Increment && cell(s) == 255 ==> (step_at(prog, s)
            matches Outcome::Running(s2) && cell(s2) == 0),
        prog[s.ip as int] == Instruction::Decrement && cell(s) == 0 ==> (step_at(prog, s)
            matches Outcome::Running(s2) && cell(s2) == 255),
{
}

/// Tape-growth law: moving right never fails — the cursor stays a valid
/// index, and when it steps onto ground the tape did not cover yet, the tape
/// grows by exactly one cell holding 0. Moving left at the leftmost cell
/// always fails with `TapeUnderflow`.
pub proof fn lemma_tape_motion(prog: Seq<Instruction>, s: SpecState)
    requires
        s.ip < prog.len(),
        s.cursor < s.tape.len(),
    ensures
        prog[s.ip as int] == Instruction::GoRight ==> (step_at(prog, s) matches Outcome::Running(
            s2,
        ) && s2.cursor == s.cursor + 1 && s2.cursor < s2.tape.len() && (s.cursor + 1 == s.tape.len()
            ==> s2.tape.len() == s.tape.len() + 1 && cell(s2) == 0)),
        prog[s.ip as int] == Instruction::GoLeft && s.cursor == 0 ==> step_at(prog, s)
            == Outcome::Failed(ExecError::TapeUnderflow, s.output),
{
}

/// Running for `a + b` steps is running for `a` steps and then, if the
/// machine is still going, for `b` more.
proof fn lemma_run_to_add(prog: Seq<Instruction>, s: SpecState, a: nat, b: nat)
    ensures
        run_to(prog, s, a + b) == (match run_to(prog, s, a) {
            Outcome::Running(s2) => run_to(prog, s2, b),
            o => o,
        }),
    decreases a,
{
    if s.ip < prog.len() && a > 0 {
        match step_at(prog, s) {
            Outcome::Running(s2) => {
                lemma_run_to_add(prog, s2, (a - 1) as nat, b);
            },
            _ => {},
        }
    }
}

/// Execute a compiled program against the given input bytes, allowing at
/// most `max_steps` instructions.
///
/// Returns the output bytes written up to the end of the run, together with
/// how the run ended: `Ok` for normal termination (the instruction pointer
/// left the program), or the fatal condition that stopped it. The pair is
/// exactly what the step semantics `run_to` yields on a fresh machine.
pub fn run_bytecode(bytecode: &[Instruction], input: &[u8], max_steps: u64) -> (r: (
    Vec<u8>,
    Result<(), ExecError>,
))
    requires
        jump_targets_ok(bytecode@),
    ensures
        (match run_to(bytecode@, init_state(input@), max_steps as nat) {
            Outcome::Done(out) => r.0@ == out && r.1 == Ok::<(), ExecError>(()),
            Outcome::Failed(e, out) => r.0@ == out && r.1 == Err::<(), ExecError>(e),
            Outcome::Running(s) => r.0@ == s.output && r.1 == Err::<(), ExecError>(
                ExecError::StepLimitReached,
            ),
        }),
{
    let mut state = State::new();
    let mut position: usize = 0;
    let mut in_pos: usize = 0;
    let mut output: Vec<u8> = Vec::new();
    let mut steps: u64 = 0;
    let ghost init = init_state(input@);
    proof {
        assert(input@.skip(0) =~= input@);
    }
    while position < bytecode.len() && steps < max_steps
        invariant
            jump_targets_ok(bytecode@),
            state.wf(),
            in_pos <= input@.len(),
            steps <= max_steps,
            init == init_state(input@),
            run_to(bytecode@, init, steps as nat) == run_to(
                bytecode@,
                (SpecState {
                    tape: state.memory@,
                    cursor: state.position as nat,
                    ip: position as nat,
                    input: input@.skip(in_pos as int),
                    output: output@,
                }),
                0,
            ),
        decreases max_steps - steps,
    {
        let ghost cur = SpecState {
            tape: state.memory@,
            cursor: state.position as nat,
            ip: position as nat,
            input: input@.skip(in_pos as int),
            output: output@,
        };
        proof {
            lemma_run_to_add(bytecode@, init, steps as nat, 1);
        }
        let instruction = bytecode[position];
        match instruction {
            Instruction::GoRight => {
                state.move_right();
                position += 1;
            },
            Instruction::GoLeft => {
                if state.position == 0 {
                    proof {
                        assert(run_to(bytecode@, init, steps as nat + 1) == Outcome::Failed(
                            ExecError::TapeUnderflow,
                            output@,
                        ));
                        lemma_run_to_add(
                            bytecode@,
                            init,
                            steps as nat + 1,
                            (max_steps - steps - 1) as nat,
                        );
                    }
                    return (output, Err(ExecError::TapeUnderflow));
                }
                state.move_left();
                position += 1;
            },
            Instruction::Increment => {
                let d = state.get_data();
                state.set_data(if d == 255 { 0 } else { d + 1 });
                position += 1;
            },
            Instruction::Decrement => {
                let d = state.get_data();
                state.set_data(if d == 0 { 255 } else { d - 1 });
                position += 1;
            },
            Instruction::Output => {
                let d = state.get_data();
                output.push(d);
                position += 1;
            },
            Instruction::Input => {
                if in_pos == input.len() {
                    proof {
                        assert(run_to(bytecode@, init, steps as nat + 1) == Outcome::Failed(
                            ExecError::InputExhausted,
                            output@,
                        ));
                        lemma_run_to_add(
                            bytecode@,
                            init,
                            steps as nat + 1,
                            (max_steps - steps - 1) as nat,
                        );
                    }
                    return (output, Err(ExecError::InputExhausted));
                }
                let b = input[in_pos];
                in_pos += 1;
                state.set_data(b);
                position += 1;
                proof {
                    assert(cur.input.skip(1) =~= input@.skip(in_pos as int));
                    assert(cur.input[0] == input@[in_pos as int - 1]);
                }
            },
            Instruction::BeginLoop(target) => {
                if state.get_data() == 0 {
                    position = target + 1;
                } else {
                    position += 1;
                }
            },
            Instruction::EndLoop(target) => {
                if state.get_data() != 0 {
                    position = target + 1;
                } else {
                    position += 1;
                }
            },
            Instruction::Abort => {
                proof {
                    assert(run_to(bytecode@, init, steps as nat + 1) == Outcome::Failed(
                        ExecError::AbortReached,
                        output@,
                    ));
                    lemma_run_to_add(
                        bytecode@,
                        init,
                        steps as nat + 1,
                        (max_steps - steps - 1) as nat,
                    );
                }
                return (output, Err(ExecError::AbortReached));
            },
        }
        steps += 1;
        proof {
            assert(step_at(bytecode@, cur) == Outcome::Running(
                SpecState {
                    tape: state.memory@,
                    cursor: state.position as nat,
                    ip: position as nat,
                    input: input@.skip(in_pos as int),
                    output: output@,
                },
            ));
        }
    }
    if position < bytecode.len() {
        return (output, Err(ExecError::StepLimitReached));
    }
    proof {
        lemma_run_to_add(bytecode@, init, steps as nat, (max_steps - steps) as nat);
    }
    (output, Ok(()))
}


} // verus!
