use brainstorm::interpreter::{EofBehaviour, Interpreter, InterpreterError, StopReason};
use brainstorm::parser::Program;

const FUEL: u64 = 1_000_000;

fn engine(src: &str, tape_size: usize, input: Vec<u8>) -> Interpreter {
    let program = Program::parse(src, false).unwrap();
    Interpreter::new(program, tape_size, EofBehaviour::DontSet, input)
}

#[test]
fn fresh_engine_has_zeroed_tape() {
    let e = engine("+", 3, vec![]);
    assert_eq!(e.tape(), &vec![0u8, 0, 0]);
    assert_eq!(e.pc(), 0);
    assert_eq!(e.ptr(), 0);
    assert_eq!(e.current_unit(), 0);
    assert!(e.output().is_empty());
}

#[test]
fn increment_wraps_modulo_256() {
    let mut e = engine("-", 1, vec![]);
    assert_eq!(e.run(FUEL), Ok(StopReason::Halted));
    assert_eq!(e.tape()[0], 255);
}

#[test]
fn loop_transfer_scenario() {
    // +++[->+<] moves three increments from cell 0 to cell 1
    let mut e = engine("+++[->+<]", 4, vec![]);
    assert_eq!(e.run(FUEL), Ok(StopReason::Halted));
    assert_eq!(e.tape()[0], 0);
    assert_eq!(e.tape()[1], 3);
}

#[test]
fn move_off_right_end_is_tape_overrun() {
    let mut e = engine(">", 1, vec![]);
    assert_eq!(e.run(FUEL), Err(InterpreterError::TapeOverrun));
}

#[test]
fn move_off_left_end_is_tape_overrun() {
    let mut e = engine("<", 1, vec![]);
    assert_eq!(e.run(FUEL), Err(InterpreterError::TapeOverrun));
}

#[test]
fn any_nonzero_move_on_unit_tape_is_tape_overrun() {
    for src in [">", "<", ">>>", "<<<"] {
        let mut e = engine(src, 1, vec![]);
        assert_eq!(e.run(FUEL), Err(InterpreterError::TapeOverrun), "source {src}");
    }
}

#[test]
fn move_to_last_cell_is_allowed() {
    let mut e = engine(">+", 2, vec![]);
    assert_eq!(e.run(FUEL), Ok(StopReason::Halted));
    assert_eq!(e.tape()[1], 1);
    assert_eq!(e.ptr(), 1);
}

#[test]
fn failed_move_leaves_engine_unchanged() {
    let mut e = engine("+>", 1, vec![]);
    assert_eq!(e.step(), Ok(true));
    assert_eq!(e.step(), Err(InterpreterError::TapeOverrun));
    assert_eq!(e.ptr(), 0);
    assert_eq!(e.pc(), 1);
    assert_eq!(e.tape()[0], 1);
}

#[test]
fn exhausted_input_set_zero_policy() {
    let program = Program::parse("+++,", false).unwrap();
    let mut e = Interpreter::new(program, 1, EofBehaviour::SetZero, vec![]);
    assert_eq!(e.run(FUEL), Ok(StopReason::Halted));
    assert_eq!(e.tape()[0], 0);
}

#[test]
fn exhausted_input_set_minus_one_policy() {
    let program = Program::parse("+++,", false).unwrap();
    let mut e = Interpreter::new(program, 1, EofBehaviour::SetMinusOne, vec![]);
    assert_eq!(e.run(FUEL), Ok(StopReason::Halted));
    assert_eq!(e.tape()[0], 255);
}

#[test]
fn exhausted_input_dont_set_policy() {
    let program = Program::parse("+++,", false).unwrap();
    let mut e = Interpreter::new(program, 1, EofBehaviour::DontSet, vec![]);
    assert_eq!(e.run(FUEL), Ok(StopReason::Halted));
    assert_eq!(e.tape()[0], 3);
}

#[test]
fn input_reads_bytes_in_order() {
    let mut e = engine(",>,", 2, vec![65, 66]);
    assert_eq!(e.run(FUEL), Ok(StopReason::Halted));
    assert_eq!(e.tape(), &vec![65u8, 66]);
}

#[test]
fn input_skips_single_carriage_return() {
    let mut e = engine(",>,", 2, vec![13, 65, 66]);
    assert_eq!(e.run(FUEL), Ok(StopReason::Halted));
    assert_eq!(e.tape(), &vec![65u8, 66]);
}

#[test]
fn input_skips_at_most_one_carriage_return() {
    // a second carriage return is passed through as real data
    let mut e = engine(",", 1, vec![13, 13, 10]);
    assert_eq!(e.run(FUEL), Ok(StopReason::Halted));
    assert_eq!(e.tape()[0], 13);
}

#[test]
fn carriage_return_then_end_of_input_applies_policy() {
    let program = Program::parse("+++,", false).unwrap();
    let mut e = Interpreter::new(program, 1, EofBehaviour::SetMinusOne, vec![13]);
    assert_eq!(e.run(FUEL), Ok(StopReason::Halted));
    assert_eq!(e.tape()[0], 255);
}

#[test]
fn output_collects_written_bytes() {
    let mut e = engine(".+.", 1, vec![]);
    assert_eq!(e.run(FUEL), Ok(StopReason::Halted));
    assert_eq!(e.output(), &vec![0u8, 1]);
}

#[test]
fn fed_input_is_read_like_initial_input() {
    let mut e = engine(",.", 1, vec![]);
    e.feed_input(&vec![65]);
    assert_eq!(e.run(FUEL), Ok(StopReason::Halted));
    assert_eq!(e.output(), &vec![65u8]);
}

#[test]
fn infinite_loop_reports_step_limit_without_error() {
    // +[] never halts: run() under a budget keeps reporting StepLimit
    let mut e = engine("+[]", 2, vec![]);
    assert_eq!(e.run(1000), Ok(StopReason::StepLimit));
    assert_eq!(e.run(1000), Ok(StopReason::StepLimit));
    assert_eq!(e.current_unit(), 0);
}

#[test]
fn infinite_loop_unit_step_reports_step_limit() {
    let mut e = engine("+[]", 2, vec![]);
    assert_eq!(e.step_unit(1000), Ok(StopReason::StepLimit));
    assert_eq!(e.current_unit(), 0);
}

#[test]
fn step_unit_crosses_boundary_only_at_real_unit_change() {
    let p = Program::parse(";a\n++[-]\n;b\n+", false).unwrap();
    let mut e = Interpreter::new(p, 2, EofBehaviour::DontSet, vec![]);
    // four steps in: the backward jump inside unit a has run once and the
    // program counter is back inside the unit
    for _ in 0..4 {
        assert_eq!(e.step(), Ok(true));
    }
    assert_eq!(e.pc(), 2);
    assert_eq!(e.current_unit(), 0);
    let mut e2 = Interpreter::new(
        Program::parse(";a\n++[-]\n;b\n+", false).unwrap(),
        2,
        EofBehaviour::DontSet,
        vec![],
    );
    assert_eq!(e2.step_unit(FUEL), Ok(StopReason::Paused));
    assert_eq!(e2.current_unit(), 1);
    assert_eq!(e2.pc(), 4);
}

#[test]
fn step_unit_reports_halt_at_end_of_program() {
    let mut e = engine("+", 1, vec![]);
    assert_eq!(e.step_unit(FUEL), Ok(StopReason::Halted));
}

#[test]
fn breakpoints_pause_cont_but_not_step() {
    let mut e = engine("+.+.+.", 1, vec![]);
    e.add_breakpoint(2);
    assert_eq!(e.cont(FUEL), Ok(StopReason::Paused));
    assert_eq!(e.pc(), 2);
    assert_eq!(e.cont(FUEL), Ok(StopReason::Halted));
    assert_eq!(e.output(), &vec![1u8, 2, 3]);
}

#[test]
fn step_ignores_breakpoints() {
    let mut e = engine("+.+.+.", 1, vec![]);
    e.add_breakpoint(1);
    assert_eq!(e.step(), Ok(true));
    assert_eq!(e.pc(), 1);
    assert_eq!(e.step(), Ok(true));
}

#[test]
fn clear_breakpoint_reports_presence() {
    let mut e = engine("+", 1, vec![]);
    e.add_breakpoint(7);
    assert!(e.has_breakpoint(7));
    assert!(e.clear_breakpoint(7));
    assert!(!e.has_breakpoint(7));
    assert!(!e.clear_breakpoint(7));
}

#[test]
fn halted_engine_keeps_reporting_halted() {
    let mut e = engine("+", 1, vec![]);
    assert_eq!(e.run(FUEL), Ok(StopReason::Halted));
    assert_eq!(e.step(), Ok(false));
    assert_eq!(e.run(FUEL), Ok(StopReason::Halted));
}

#[test]
fn snapshot_instruction_has_no_tape_effect() {
    let program = Program::parse("+#+", true).unwrap();
    let mut e = Interpreter::new(program, 1, EofBehaviour::DontSet, vec![]);
    assert_eq!(e.run(FUEL), Ok(StopReason::Halted));
    assert_eq!(e.tape()[0], 2);
}

#[test]
fn empty_token_stream_is_invalid_program() {
    let program = Program { units: vec![], tokens: vec![] };
    let mut e = Interpreter::new(program, 1, EofBehaviour::DontSet, vec![]);
    assert_eq!(e.step(), Err(InterpreterError::InvalidProgram));
}

#[test]
fn run_with_zero_budget_reports_step_limit() {
    let mut e = engine("+", 1, vec![]);
    assert_eq!(e.run(0), Ok(StopReason::StepLimit));
    assert_eq!(e.pc(), 0);
}
