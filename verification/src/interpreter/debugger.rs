//! The debug control interface: a thin facade over the execution engine
//! that steps by instruction, by unit, or to a breakpoint, manages the
//! breakpoint set, and demotes a halt or a runtime error to "no longer
//! running", after which stepping commands do nothing until the engine
//! is reconstructed.

use vstd::prelude::*;

use crate::interpreter::Engine;
use crate::interpreter::Interpreter;
use crate::interpreter::InterpreterError;
use crate::interpreter::StopReason;
use crate::interpreter::cont_spec;
use crate::interpreter::step_spec;
use crate::interpreter::step_unit_spec;
use crate::interpreter::Transition;

verus! {

/// An engine paired with a "still running" flag.
pub struct Debugger {
    interpreter: Interpreter,
    running: bool,
}

impl Debugger {
    /// The model of the underlying engine.
    pub closed spec fn engine(&self) -> Engine {
        self.interpreter@
    }

    /// Whether stepping commands still act.
    pub closed spec fn is_running(&self) -> bool {
        self.running
    }

    /// The current breakpoint set.
    pub closed spec fn bps(&self) -> Set<usize> {
        self.interpreter.bps()
    }

    /// Wraps an engine; the program counts as running until it halts or
    /// fails.
    pub fn new(interpreter: Interpreter) -> (r: Debugger)
        ensures
            r.engine() == interpreter@,
            r.bps() == interpreter.bps(),
            r.is_running(),
    {
        Debugger { interpreter, running: true }
    }

    /// Whether stepping commands still act.
    pub fn running(&self) -> (r: bool)
        ensures
            r == self.is_running(),
    {
        self.running
    }

    /// Read-only access to the engine, for rendering its state.
    pub fn interpreter(&self) -> (r: &Interpreter)
        ensures
            r@ == self.engine(),
            r.bps() == self.bps(),
    {
        &self.interpreter
    }

    /// One unit of execution, within a budget of `max_steps`
    /// instructions: `None` when the program is no longer running,
    /// otherwise exactly what [`Interpreter::step_unit`] reports; a halt
    /// or an error stops further stepping.
    pub fn n(&mut self, max_steps: u64) -> (r: Option<Result<StopReason, InterpreterError>>)
        ensures
            final(self).bps() == old(self).bps(),
            !old(self).is_running() ==> r is None && final(self).engine() == old(self).engine()
                && !final(self).is_running(),
            old(self).is_running() ==> ({
                let (m2, rr) = step_unit_spec(
                    old(self).engine(),
                    old(self).engine().cur_unit,
                    max_steps as nat,
                );
                &&& final(self).engine() == m2
                &&& r == Some(rr)
                &&& final(self).is_running() == (rr == Ok::<StopReason, InterpreterError>(
                    StopReason::Paused,
                ) || rr == Ok::<StopReason, InterpreterError>(StopReason::StepLimit))
            }),
    {
        if !self.running {
            return None;
        }
        let res = self.interpreter.step_unit(max_steps);
        match res {
            Ok(StopReason::Paused) => {},
            Ok(StopReason::StepLimit) => {},
            Ok(StopReason::Halted) => {
                self.running = false;
            },
            Err(_) => {
                self.running = false;
            },
        }
        Some(res)
    }

    /// One instruction: `None` when the program is no longer running,
    /// otherwise exactly what [`Interpreter::step`] reports; a halt or
    /// an error stops further stepping.
    pub fn ni(&mut self) -> (r: Option<Result<bool, InterpreterError>>)
        ensures
            final(self).bps() == old(self).bps(),
            !old(self).is_running() ==> r is None && final(self).engine() == old(self).engine()
                && !final(self).is_running(),
            old(self).is_running() ==> (match step_spec(old(self).engine()) {
                Transition::Step(m2) => final(self).engine() == m2 && r == Some(
                    Ok::<bool, InterpreterError>(true),
                ) && final(self).is_running(),
                Transition::Halt => final(self).engine() == old(self).engine() && r == Some(
                    Ok::<bool, InterpreterError>(false),
                ) && !final(self).is_running(),
                Transition::Fail(e) => final(self).engine() == old(self).engine() && r == Some(
                    Err::<bool, InterpreterError>(e),
                ) && !final(self).is_running(),
            }),
    {
        if !self.running {
            return None;
        }
        let res = self.interpreter.step();
        match res {
            Ok(true) => {},
            Ok(false) => {
                self.running = false;
            },
            Err(_) => {
                self.running = false;
            },
        }
        Some(res)
    }

    /// Runs to the next breakpoint, within a budget of `max_steps`
    /// instructions: `None` when the program is no longer running,
    /// otherwise exactly what [`Interpreter::cont`] reports; a halt or
    /// an error stops further stepping.
    pub fn cont(&mut self, max_steps: u64) -> (r: Option<Result<StopReason, InterpreterError>>)
        ensures
            final(self).bps() == old(self).bps(),
            !old(self).is_running() ==> r is None && final(self).engine() == old(self).engine()
                && !final(self).is_running(),
            old(self).is_running() ==> ({
                let (m2, rr) = cont_spec(old(self).engine(), old(self).bps(), max_steps as nat);
                &&& final(self).engine() == m2
                &&& r == Some(rr)
                &&& final(self).is_running() == (rr == Ok::<StopReason, InterpreterError>(
                    StopReason::Paused,
                ) || rr == Ok::<StopReason, InterpreterError>(StopReason::StepLimit))
            }),
    {
        if !self.running {
            return None;
        }
        let res = self.interpreter.cont(max_steps);
        match res {
            Ok(StopReason::Paused) => {},
            Ok(StopReason::StepLimit) => {},
            Ok(StopReason::Halted) => {
                self.running = false;
            },
            Err(_) => {
                self.running = false;
            },
        }
        Some(res)
    }

    /// Sets a breakpoint at an instruction index.
    pub fn breakpoint(&mut self, index: usize)
        ensures
            final(self).engine() == old(self).engine(),
            final(self).is_running() == old(self).is_running(),
            final(self).bps() == old(self).bps().insert(index),
    {
        self.interpreter.add_breakpoint(index);
    }

    /// Clears a breakpoint; reports whether one was set there.
    pub fn clear(&mut self, index: usize) -> (r: bool)
        ensures
            final(self).engine() == old(self).engine(),
            final(self).is_running() == old(self).is_running(),
            final(self).bps() == old(self).bps().remove(index),
            r == old(self).bps().contains(index),
    {
        self.interpreter.clear_breakpoint(index)
    }
}

} // verus!
