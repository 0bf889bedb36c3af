use brainstorm::interpreter::debugger::Debugger;
use brainstorm::interpreter::{EofBehaviour, Interpreter, InterpreterError, StopReason};
use brainstorm::parser::Program;

const FUEL: u64 = 1_000_000;

fn debugger(src: &str, tape_size: usize) -> Debugger {
    let program = Program::parse(src, false).unwrap();
    Debugger::new(Interpreter::new(program, tape_size, EofBehaviour::DontSet, vec![]))
}

#[test]
fn new_debugger_is_running() {
    let d = debugger("+", 1);
    assert!(d.running());
}

#[test]
fn unit_step_pauses_at_unit_boundary() {
    let mut d = debugger(";a\n+\n;b\n+", 1);
    assert_eq!(d.n(FUEL), Some(Ok(StopReason::Paused)));
    assert!(d.running());
    assert_eq!(d.interpreter().current_unit(), 1);
}

#[test]
fn halt_disables_further_stepping() {
    let mut d = debugger("+", 1);
    assert_eq!(d.n(FUEL), Some(Ok(StopReason::Halted)));
    assert!(!d.running());
    assert_eq!(d.n(FUEL), None);
    assert_eq!(d.ni(), None);
    assert_eq!(d.cont(FUEL), None);
}

#[test]
fn runtime_error_disables_further_stepping() {
    let mut d = debugger(">", 1);
    assert_eq!(d.ni(), Some(Err(InterpreterError::TapeOverrun)));
    assert!(!d.running());
    assert_eq!(d.ni(), None);
}

#[test]
fn single_instruction_step_advances_once() {
    let mut d = debugger("++.", 1);
    assert_eq!(d.ni(), Some(Ok(true)));
    assert!(d.running());
    assert_eq!(d.interpreter().pc(), 1);
    assert_eq!(d.interpreter().tape()[0], 2);
}

#[test]
fn debugger_breakpoints_drive_cont() {
    let mut d = debugger("+.+.+.", 1);
    d.breakpoint(3);
    assert_eq!(d.cont(FUEL), Some(Ok(StopReason::Paused)));
    assert_eq!(d.interpreter().pc(), 3);
    assert!(d.clear(3));
    assert!(!d.clear(3));
    assert_eq!(d.cont(FUEL), Some(Ok(StopReason::Halted)));
    assert!(!d.running());
}

#[test]
fn step_limit_keeps_debugger_running() {
    let mut d = debugger("+[]", 2);
    assert_eq!(d.n(1000), Some(Ok(StopReason::StepLimit)));
    assert!(d.running());
}
