use brainfuck::instruction::Instruction;
use brainfuck::instruction::Instruction::{
    Abort, BeginLoop, Decrement, EndLoop, GoLeft, GoRight, Increment, Input, Output,
};
use brainfuck::interpreter::{run_bytecode, ExecError, State};
use brainfuck::parse::parse;

const STEPS: u64 = 1_000_000;

#[test]
fn test_state_new() {
    let state = State::new();
    assert_eq!(state.position, 0);
    assert_eq!(state.get_data(), 0);
    assert_eq!(state.memory.len(), 1024);
}

#[test]
fn test_state_increment_decrement() {
    let mut state = State::new();

    assert_eq!(state.get_data(), 0);
    state.set_data(state.get_data().wrapping_add(1));
    assert_eq!(state.get_data(), 1);
    state.set_data(state.get_data().wrapping_sub(1));
    assert_eq!(state.get_data(), 0);
}

#[test]
fn test_state_wrapping() {
    let mut state = State::new();

    state.set_data(255);
    state.set_data(state.get_data().wrapping_add(1));
    assert_eq!(state.get_data(), 0);

    state.set_data(0);
    state.set_data(state.get_data().wrapping_sub(1));
    assert_eq!(state.get_data(), 255);
}

#[test]
fn test_state_move_right() {
    let mut state = State::new();
    assert_eq!(state.position, 0);

    state.move_right();
    assert_eq!(state.position, 1);

    state.move_right();
    assert_eq!(state.position, 2);
}

#[test]
fn test_state_move_left() {
    let mut state = State::new();
    state.move_right();
    state.move_right();
    assert_eq!(state.position, 2);

    state.move_left();
    assert_eq!(state.position, 1);

    state.move_left();
    assert_eq!(state.position, 0);
}

#[test]
fn test_state_memory_expansion() {
    let mut state = State::new();
    let initial_len = state.memory.len();

    for _ in 0..initial_len {
        state.move_right();
    }

    assert_eq!(state.memory.len(), initial_len + 1);
    assert_eq!(state.get_data(), 0);
}

#[test]
fn test_basic_increment() {
    let bytecode = vec![Increment, Increment, Increment];
    let input: Vec<u8> = Vec::new();

    let (output, status) = run_bytecode(&bytecode, &input, STEPS);
    assert_eq!(status, Ok(()));
    assert_eq!(output.len(), 0);
}

#[test]
fn test_output() {
    let mut bytecode = vec![Increment; 65];
    bytecode.push(Output);
    let input: Vec<u8> = Vec::new();

    let (output, status) = run_bytecode(&bytecode, &input, STEPS);
    assert_eq!(status, Ok(()));
    assert_eq!(output, vec![65]); // ASCII 'A'
}

#[test]
fn test_input() {
    let bytecode = vec![Input, Output];
    let input: Vec<u8> = vec![72]; // ASCII 'H'

    let (output, status) = run_bytecode(&bytecode, &input, STEPS);
    assert_eq!(status, Ok(()));
    assert_eq!(output, vec![72]);
}

#[test]
fn test_simple_loop_skip() {
    let bytecode = vec![BeginLoop(2), Increment, EndLoop(0)];
    let input: Vec<u8> = Vec::new();

    let (output, status) = run_bytecode(&bytecode, &input, STEPS);
    assert_eq!(status, Ok(()));
    assert_eq!(output.len(), 0);
}

#[test]
fn test_simple_loop_execute() {
    let bytecode = vec![
        Increment,
        Increment,
        Increment,
        BeginLoop(6),
        Decrement,
        Output,
        EndLoop(3),
    ];
    let input: Vec<u8> = Vec::new();

    let (output, status) = run_bytecode(&bytecode, &input, STEPS);
    assert_eq!(status, Ok(()));
    assert_eq!(output, vec![2, 1, 0]);
}

#[test]
fn test_move_and_set() {
    let bytecode = vec![
        Increment, Increment, Increment, GoRight, Increment, Increment, Output, GoLeft, Output,
    ];
    let input: Vec<u8> = Vec::new();

    let (output, status) = run_bytecode(&bytecode, &input, STEPS);
    assert_eq!(status, Ok(()));
    assert_eq!(output, vec![2, 3]);
}

#[test]
fn test_hello_world_pattern() {
    let bytecode = vec![
        Increment,
        Increment,
        Increment,
        Increment,
        Increment,
        Increment,
        Increment,
        Increment,
        Increment,
        Increment,
        BeginLoop(21),
        GoRight,
        Increment,
        Increment,
        Increment,
        Increment,
        Increment,
        Increment,
        Increment,
        GoRight,
        Increment,
        Increment,
        Increment,
        Increment,
        Increment,
        Increment,
        Increment,
        Increment,
        Increment,
        Increment,
        GoLeft,
        GoLeft,
        Decrement,
        EndLoop(10),
        GoRight,
        GoRight,
        Output,
    ];
    let input: Vec<u8> = Vec::new();

    let (output, status) = run_bytecode(&bytecode, &input, STEPS);
    assert_eq!(status, Ok(()));
    assert_eq!(output[0], 100); // Should be close to 'd' or similar
}

#[test]
fn test_empty_program() {
    let bytecode: Vec<Instruction> = vec![];
    let input: Vec<u8> = Vec::new();

    let (output, status) = run_bytecode(&bytecode, &input, STEPS);
    assert_eq!(status, Ok(()));
    assert_eq!(output.len(), 0);
}

#[test]
fn test_abort_reached() {
    let bytecode = vec![Abort];
    let input: Vec<u8> = Vec::new();

    let (output, status) = run_bytecode(&bytecode, &input, STEPS);
    assert_eq!(status, Err(ExecError::AbortReached));
    assert_eq!(output.len(), 0);
}

#[test]
fn test_move_left_underflow() {
    // leftward motion as the very first instruction on a fresh tape
    let bytecode = vec![GoLeft, Output];
    let input: Vec<u8> = Vec::new();

    let (output, status) = run_bytecode(&bytecode, &input, STEPS);
    assert_eq!(status, Err(ExecError::TapeUnderflow));
    assert_eq!(output.len(), 0);
}

#[test]
fn test_input_exhausted() {
    let bytecode = vec![Input, Output];
    let input: Vec<u8> = Vec::new();

    let (output, status) = run_bytecode(&bytecode, &input, STEPS);
    assert_eq!(status, Err(ExecError::InputExhausted));
    assert_eq!(output.len(), 0);
}

#[test]
fn test_output_before_failure_is_kept() {
    let bytecode = vec![Increment, Output, GoLeft];
    let input: Vec<u8> = Vec::new();

    let (output, status) = run_bytecode(&bytecode, &input, STEPS);
    assert_eq!(status, Err(ExecError::TapeUnderflow));
    assert_eq!(output, vec![1]);
}

#[test]
fn test_step_limit_reached() {
    // a loop that never terminates: one increment, then spin
    let bytecode = parse("+[]").unwrap();
    let input: Vec<u8> = Vec::new();

    let (output, status) = run_bytecode(&bytecode, &input, 1000);
    assert_eq!(status, Err(ExecError::StepLimitReached));
    assert_eq!(output.len(), 0);
}

#[test]
fn test_decrement_wraps_to_255() {
    let bytecode = vec![Decrement, Output];
    let input: Vec<u8> = Vec::new();

    let (output, status) = run_bytecode(&bytecode, &input, STEPS);
    assert_eq!(status, Ok(()));
    assert_eq!(output, vec![255]);
}

#[test]
fn test_increment_wraps_to_zero() {
    let mut bytecode = vec![Increment; 256];
    bytecode.push(Output);
    let input: Vec<u8> = Vec::new();

    let (output, status) = run_bytecode(&bytecode, &input, STEPS);
    assert_eq!(status, Ok(()));
    assert_eq!(output, vec![0]);
}

#[test]
fn test_fresh_cell_after_growth_is_zero() {
    // move right beyond the pre-allocated tape and read the new cell
    let mut bytecode = vec![GoRight; 1024];
    bytecode.push(Output);
    let input: Vec<u8> = Vec::new();

    let (output, status) = run_bytecode(&bytecode, &input, STEPS);
    assert_eq!(status, Ok(()));
    assert_eq!(output, vec![0]);
}

#[test]
fn test_compile_and_run() {
    // ",+." reads a byte, increments it, writes it back out
    let bytecode = parse(",+.").unwrap();
    let input: Vec<u8> = vec![41];

    let (output, status) = run_bytecode(&bytecode, &input, STEPS);
    assert_eq!(status, Ok(()));
    assert_eq!(output, vec![42]);
}

#[test]
fn test_unmatched_open_fails_at_execution() {
    // an unmatched '[' compiles to a placeholder that execution reports
    let bytecode = parse("[").unwrap();
    assert_eq!(bytecode, vec![Abort]);
    let input: Vec<u8> = vec![0];

    let (output, status) = run_bytecode(&bytecode, &input, STEPS);
    assert_eq!(status, Err(ExecError::AbortReached));
    assert_eq!(output.len(), 0);
}
