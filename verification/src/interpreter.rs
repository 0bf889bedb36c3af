//! The execution engine: a single-stepping state machine over a
//! fixed-size byte tape driven by a compiled [`Program`].
//!
//! The machine is modelled by [`Engine`]; one instruction is
//! [`step_spec`], and the multi-step drivers ([`run_spec`],
//! [`step_unit_spec`], [`cont_spec`]) iterate it up to a caller-chosen
//! step budget, since a program of this language need not halt. Every
//! stepping method is proved to produce exactly the state and result its
//! spec function describes.

pub mod debugger;

use vstd::prelude::*;
use std::collections::HashSet;

use crate::parser::Program;
use crate::parser::ProgramModel;
use crate::parser::Token;
use crate::parser::Unit;
use crate::parser::UnitModel;
use crate::parser::lemma_partition_covers;
use crate::parser::units_partition;
use crate::parser::wrap_add_u8;

verus! {

broadcast use vstd::std_specs::hash::group_hash_axioms;

/// Why execution failed: a pointer move landing at or past the end of
/// the tape (including via address-space wraparound), a program counter
/// or unit table inconsistency, or a failing input read.
#[derive(Debug, Clone, Copy, PartialEq, Eq, Structural)]
pub enum InterpreterError {
    TapeOverrun,
    InvalidProgram,
    InputError,
}

/// What happens to the current cell when an `Input` instruction runs
/// after the input has been exhausted.
#[derive(Debug, Copy, Clone, Eq, PartialEq, Structural)]
pub enum EofBehaviour {
    SetZero,
    SetMinusOne,
    DontSet,
}

/// Why a bounded stepping operation stopped: it reached its goal with
/// more program left to run (`Paused`), the program halted at `Eof`
/// (`Halted`), or the step budget ran out first (`StepLimit`).
#[derive(Debug, Clone, Copy, PartialEq, Eq, Structural)]
pub enum StopReason {
    Paused,
    Halted,
    StepLimit,
}

/// Mathematical model of the engine's state.
#[verifier::ext_equal]
pub struct Engine {
    pub tokens: Seq<Token>,
    pub units: Seq<UnitModel>,
    pub tape: Seq<u8>,
    pub pc: int,
    pub ptr: int,
    pub input: Seq<u8>,
    pub input_pos: int,
    pub eof: EofBehaviour,
    pub cur_unit: int,
    pub output: Seq<u8>,
}

/// What one instruction does: advance to a new state, halt at `Eof`, or
/// fail. On failure the engine is left exactly as it was.
pub enum Transition {
    Step(Engine),
    Halt,
    Fail(InterpreterError),
}

/// The pointer cell a `Move` by `d` lands on: `ptr + d` with wraparound
/// over the full address space, so a move below zero wraps to a very
/// large value and is rejected by the same `>= tape length` test as a
/// move off the right end.
pub open spec fn move_target(ptr: int, d: int) -> int {
    if ptr + d > usize::MAX {
        ptr + d - (usize::MAX as int + 1)
    } else if ptr + d < 0 {
        ptr + d + (usize::MAX as int + 1)
    } else {
        ptr + d
    }
}

/// The first unit containing `pc`, scanning cyclically from `start`; the
/// scan gives up after `fuel` probes.
pub open spec fn find_unit_from(units: Seq<UnitModel>, start: int, pc: int, fuel: nat) -> Option<
    int,
>
    decreases fuel,
{
    if fuel == 0 || units.len() == 0 {
        None
    } else {
        let idx = if 0 <= start < units.len() {
            start
        } else {
            0
        };
        if units[idx].start <= pc < units[idx].end {
            Some(idx)
        } else {
            find_unit_from(units, idx + 1, pc, (fuel - 1) as nat)
        }
    }
}

/// The cell value an exhausted input leaves behind under each policy.
pub open spec fn eof_cell(policy: EofBehaviour, cur: u8) -> u8 {
    match policy {
        EofBehaviour::SetZero => 0u8,
        EofBehaviour::SetMinusOne => 255u8,
        EofBehaviour::DontSet => cur,
    }
}

/// The byte one `Input` execution stores and the input position after
/// it: the next byte, except that a single leading carriage return is
/// discarded and one more byte is read; exhausted input applies the
/// end-of-input policy to the current cell.
pub open spec fn input_read(m: Engine) -> (u8, int) {
    let cur = m.tape[m.ptr];
    if m.input_pos >= m.input.len() {
        (eof_cell(m.eof, cur), m.input_pos)
    } else {
        let b1 = m.input[m.input_pos];
        if b1 != 13 {
            (b1, m.input_pos + 1)
        } else if m.input_pos + 1 >= m.input.len() {
            (eof_cell(m.eof, cur), m.input_pos + 1)
        } else {
            (m.input[m.input_pos + 1], m.input_pos + 2)
        }
    }
}

/// Moving the program counter to `pc2` and resynchronizing the current
/// unit by the cyclic scan; a `pc2` no unit contains is an inconsistent
/// program.
pub open spec fn advance(m: Engine, pc2: int) -> Transition {
    match find_unit_from(m.units, m.cur_unit, pc2, m.units.len()) {
        Some(j) => Transition::Step(Engine { pc: pc2, cur_unit: j, ..m }),
        None => Transition::Fail(InterpreterError::InvalidProgram),
    }
}

/// One instruction at the program counter, exactly as the engine
/// executes it. A program counter outside the stream, a pointer outside
/// the tape where a cell is read or written, a zero jump target, or a
/// unit table that covers no unit for the new program counter all fail
/// with `InvalidProgram`; a `Move` landing at or past the tape length
/// fails with `TapeOverrun`; `Eof` halts; everything else steps.
pub open spec fn step_spec(m: Engine) -> Transition {
    if !(0 <= m.pc < m.tokens.len()) {
        Transition::Fail(InterpreterError::InvalidProgram)
    } else {
        match m.tokens[m.pc] {
            Token::Eof => Transition::Halt,
            Token::Increment(v) => {
                if 0 <= m.ptr < m.tape.len() {
                    advance(
                        Engine { tape: m.tape.update(m.ptr, wrap_add_u8(m.tape[m.ptr], v)), ..m },
                        m.pc + 1,
                    )
                } else {
                    Transition::Fail(InterpreterError::InvalidProgram)
                }
            },
            Token::Move(d) => {
                let cand = move_target(m.ptr, d as int);
                if cand >= m.tape.len() {
                    Transition::Fail(InterpreterError::TapeOverrun)
                } else {
                    advance(Engine { ptr: cand, ..m }, m.pc + 1)
                }
            },
            Token::JumpZero(t) => {
                if 0 <= m.ptr < m.tape.len() {
                    if m.tape[m.ptr] == 0 {
                        if t == 0 {
                            Transition::Fail(InterpreterError::InvalidProgram)
                        } else {
                            advance(m, t as int)
                        }
                    } else {
                        advance(m, m.pc + 1)
                    }
                } else {
                    Transition::Fail(InterpreterError::InvalidProgram)
                }
            },
            Token::JumpNotZero(t) => {
                if 0 <= m.ptr < m.tape.len() {
                    if m.tape[m.ptr] != 0 {
                        if t == 0 {
                            Transition::Fail(InterpreterError::InvalidProgram)
                        } else {
                            advance(m, t as int)
                        }
                    } else {
                        advance(m, m.pc + 1)
                    }
                } else {
                    Transition::Fail(InterpreterError::InvalidProgram)
                }
            },
            Token::Output => {
                if 0 <= m.ptr < m.tape.len() {
                    advance(Engine { output: m.output.push(m.tape[m.ptr]), ..m }, m.pc + 1)
                } else {
                    Transition::Fail(InterpreterError::InvalidProgram)
                }
            },
            Token::Input => {
                if 0 <= m.ptr < m.tape.len() {
                    advance(
                        Engine {
                            tape: m.tape.update(m.ptr, input_read(m).0),
                            input_pos: input_read(m).1,
                            ..m
                        },
                        m.pc + 1,
                    )
                } else {
                    Transition::Fail(InterpreterError::InvalidProgram)
                }
            },
            Token::PrintState => advance(m, m.pc + 1),
        }
    }
}

/// Stepping until halt, failure, or `fuel` steps, whichever comes first:
/// the state reached and the result reported.
pub open spec fn run_spec(m: Engine, fuel: nat) -> (Engine, Result<
    StopReason,
    InterpreterError,
>)
    decreases fuel,
{
    if fuel == 0 {
        (m, Ok(StopReason::StepLimit))
    } else {
        match step_spec(m) {
            Transition::Halt => (m, Ok(StopReason::Halted)),
            Transition::Fail(e) => (m, Err(e)),
            Transition::Step(m2) => run_spec(m2, (fuel - 1) as nat),
        }
    }
}

/// Stepping until the current unit differs from `start_unit`, until
/// halt or failure, or until `fuel` steps run out.
pub open spec fn step_unit_spec(m: Engine, start_unit: int, fuel: nat) -> (Engine, Result<
    StopReason,
    InterpreterError,
>)
    decreases fuel,
{
    if fuel == 0 {
        (m, Ok(StopReason::StepLimit))
    } else {
        match step_spec(m) {
            Transition::Halt => (m, Ok(StopReason::Halted)),
            Transition::Fail(e) => (m, Err(e)),
            Transition::Step(m2) => {
                if m2.cur_unit != start_unit {
                    (m2, Ok(StopReason::Paused))
                } else {
                    step_unit_spec(m2, start_unit, (fuel - 1) as nat)
                }
            },
        }
    }
}

/// Stepping until the program counter lands in the breakpoint set, until
/// halt or failure, or until `fuel` steps run out.
pub open spec fn cont_spec(m: Engine, bps: Set<usize>, fuel: nat) -> (Engine, Result<
    StopReason,
    InterpreterError,
>)
    decreases fuel,
{
    if fuel == 0 {
        (m, Ok(StopReason::StepLimit))
    } else {
        match step_spec(m) {
            Transition::Halt => (m, Ok(StopReason::Halted)),
            Transition::Fail(e) => (m, Err(e)),
            Transition::Step(m2) => {
                if bps.contains(m2.pc as usize) {
                    (m2, Ok(StopReason::Paused))
                } else {
                    cont_spec(m2, bps, (fuel - 1) as nat)
                }
            },
        }
    }
}

/// Whatever find_unit_from returns is a unit that contains `pc`.
proof fn lemma_find_unit_range(units: Seq<UnitModel>, start: int, pc: int, fuel: nat)
    ensures
        find_unit_from(units, start, pc, fuel) matches Some(j) ==> 0 <= j < units.len()
            && units[j].start <= pc < units[j].end,
    decreases fuel,
{
    if fuel > 0 && units.len() > 0 {
        let idx = if 0 <= start < units.len() {
            start
        } else {
            0
        };
        if !(units[idx].start <= pc < units[idx].end) {
            lemma_find_unit_range(units, idx + 1, pc, (fuel - 1) as nat);
        }
    }
}

/// The cyclic scan finds a unit whenever one containing `pc` exists and
/// the fuel covers the cyclic distance to it.
proof fn lemma_find_unit_some(units: Seq<UnitModel>, start: int, pc: int, j: int, fuel: nat)
    requires
        0 <= start < units.len(),
        0 <= j < units.len(),
        units[j].start <= pc < units[j].end,
        fuel > (if j >= start {
            j - start
        } else {
            j + units.len() - start
        }),
    ensures
        find_unit_from(units, start, pc, fuel) is Some,
    decreases (if j >= start {
        j - start
    } else {
        j + units.len() - start
    }),
{
    if units[start].start <= pc < units[start].end {
    } else {
        assert(start != j);
        let s2 = start + 1;
        if s2 == units.len() {
            assert(find_unit_from(units, s2, pc, (fuel - 1) as nat) == find_unit_from(
                units,
                0,
                pc,
                (fuel - 1) as nat,
            ));
            lemma_find_unit_some(units, 0, pc, j, (fuel - 1) as nat);
        } else {
            lemma_find_unit_some(units, s2, pc, j, (fuel - 1) as nat);
        }
    }
}

/// The states from which execution is safe: a well-formed program, the
/// program counter inside the stream, the pointer inside a nonempty
/// tape, the current unit inside the table, and the input position
/// inside the buffer. [`Interpreter::new`] establishes this for every
/// compiled program and positive tape size.
pub open spec fn engine_wf(m: Engine) -> bool {
    &&& (ProgramModel { units: m.units, tokens: m.tokens }).wf()
    &&& 0 <= m.pc < m.tokens.len()
    &&& 1 <= m.tape.len()
    &&& 0 <= m.ptr < m.tape.len()
    &&& 0 <= m.cur_unit < m.units.len()
    &&& 0 <= m.input_pos <= m.input.len()
}

/// A fresh engine over any well-formed compiled program and a nonempty
/// tape starts in a safe state, so the clean-execution lemmas apply to
/// it.
pub proof fn lemma_fresh_engine_wf(m: Engine)
    requires
        (ProgramModel { units: m.units, tokens: m.tokens }).wf(),
        m.pc == 0,
        m.ptr == 0,
        m.cur_unit == 0,
        m.input_pos == 0,
        m.tape.len() >= 1,
    ensures
        engine_wf(m),
{
}

/// From a safe state, one step never fails with `InvalidProgram` or
/// `InputError` — the only possible failure is a genuine `TapeOverrun` —
/// and a successful step lands in a safe state again.
pub proof fn lemma_wf_step(m: Engine)
    requires
        engine_wf(m),
    ensures
        step_spec(m) matches Transition::Fail(e) ==> e == InterpreterError::TapeOverrun,
        step_spec(m) matches Transition::Step(m2) ==> engine_wf(m2),
{
    let pm = ProgramModel { units: m.units, tokens: m.tokens };
    let len = m.tokens.len() as int;
    match m.tokens[m.pc] {
        Token::Eof => {},
        Token::JumpZero(t) => {
            if m.tape[m.ptr] == 0 {
                assert(crate::parser::jz_resolved(m.tokens, m.pc));
                assert(m.tokens[t as int - 1] is JumpNotZero);
                assert(t as int - 1 != len - 1);
                lemma_wf_advance(m, t as int);
            } else {
                assert(m.tokens[m.pc] != Token::Eof);
                lemma_wf_advance(m, m.pc + 1);
            }
        },
        Token::JumpNotZero(u) => {
            if m.tape[m.ptr] != 0 {
                assert(crate::parser::jnz_resolved(m.tokens, m.pc));
                assert(m.tokens[u as int - 1] is JumpZero);
                assert(u as int - 1 != len - 1);
                lemma_wf_advance(m, u as int);
            } else {
                assert(m.tokens[m.pc] != Token::Eof);
                lemma_wf_advance(m, m.pc + 1);
            }
        },
        Token::Increment(v) => {
            assert(m.tokens[m.pc] != Token::Eof);
            lemma_wf_advance(Engine { tape: m.tape.update(m.ptr, wrap_add_u8(m.tape[m.ptr], v)), ..m }, m.pc + 1);
        },
        Token::Move(d) => {
            if move_target(m.ptr, d as int) < m.tape.len() {
                assert(m.tokens[m.pc] != Token::Eof);
                assert(move_target(m.ptr, d as int) >= 0);
                lemma_wf_advance(Engine { ptr: move_target(m.ptr, d as int), ..m }, m.pc + 1);
            }
        },
        Token::Output => {
            assert(m.tokens[m.pc] != Token::Eof);
            lemma_wf_advance(Engine { output: m.output.push(m.tape[m.ptr]), ..m }, m.pc + 1);
        },
        Token::Input => {
            assert(m.tokens[m.pc] != Token::Eof);
            assert(input_read(m).1 <= m.input.len());
            lemma_wf_advance(
                Engine { tape: m.tape.update(m.ptr, input_read(m).0), input_pos: input_read(m).1, ..m },
                m.pc + 1,
            );
        },
        Token::PrintState => {
            assert(m.tokens[m.pc] != Token::Eof);
            lemma_wf_advance(m, m.pc + 1);
        },
    }
}

/// Helper for [`lemma_wf_step`]: advancing to a program counter inside
/// the stream always finds a unit and keeps the state safe. `m` carries
/// the instruction's effect; only tape contents, output, input position
/// and pointer (within bounds) may differ from a safe state.
proof fn lemma_wf_advance(m: Engine, pc2: int)
    requires
        units_partition(m.units, m.tokens.len() as int),
        0 <= pc2 < m.tokens.len(),
        0 <= m.cur_unit < m.units.len(),
    ensures
        advance(m, pc2) is Step,
        (advance(m, pc2) matches Transition::Step(m2) ==> m2 == (Engine {
            pc: pc2,
            cur_unit: (match find_unit_from(m.units, m.cur_unit, pc2, m.units.len()) {
                Some(j) => j,
                None => 0,
            }),
            ..m
        }) && 0 <= m2.cur_unit < m.units.len()),
{
    let len = m.units.len() as int;
    lemma_partition_covers(m.units, m.tokens.len() as int, pc2, 0);
    let j = choose|j: int| 0 <= j < len && (#[trigger] m.units[j]).start <= pc2 < m.units[j].end;
    assert(len > (if j >= m.cur_unit {
        j - m.cur_unit
    } else {
        j + len - m.cur_unit
    }));
    lemma_find_unit_some(m.units, m.cur_unit, pc2, j, len as nat);
    lemma_find_unit_range(m.units, m.cur_unit, pc2, len as nat);
}

/// Execution of a compiled program is clean: however many steps run
/// from a safe state, the engine stays safe and the only error that can
/// ever surface is a genuine `TapeOverrun` — never `InvalidProgram` or
/// `InputError`.
pub proof fn lemma_wf_run(m: Engine, fuel: nat)
    requires
        engine_wf(m),
    ensures
        ({
            let (m2, r) = run_spec(m, fuel);
            &&& engine_wf(m2)
            &&& (r matches Err(e) ==> e == InterpreterError::TapeOverrun)
        }),
    decreases fuel,
{
    if fuel > 0 {
        lemma_wf_step(m);
        match step_spec(m) {
            Transition::Step(m2) => {
                lemma_wf_run(m2, (fuel - 1) as nat);
            },
            _ => {},
        }
    }
}

/// As [`lemma_wf_run`], for unit-granularity stepping.
pub proof fn lemma_wf_step_unit(m: Engine, start_unit: int, fuel: nat)
    requires
        engine_wf(m),
    ensures
        ({
            let (m2, r) = step_unit_spec(m, start_unit, fuel);
            &&& engine_wf(m2)
            &&& (r matches Err(e) ==> e == InterpreterError::TapeOverrun)
        }),
    decreases fuel,
{
    if fuel > 0 {
        lemma_wf_step(m);
        match step_spec(m) {
            Transition::Step(m2) => {
                if m2.cur_unit == start_unit {
                    lemma_wf_step_unit(m2, start_unit, (fuel - 1) as nat);
                }
            },
            _ => {},
        }
    }
}

/// As [`lemma_wf_run`], for running to a breakpoint.
pub proof fn lemma_wf_cont(m: Engine, bps: Set<usize>, fuel: nat)
    requires
        engine_wf(m),
    ensures
        ({
            let (m2, r) = cont_spec(m, bps, fuel);
            &&& engine_wf(m2)
            &&& (r matches Err(e) ==> e == InterpreterError::TapeOverrun)
        }),
    decreases fuel,
{
    if fuel > 0 {
        lemma_wf_step(m);
        match step_spec(m) {
            Transition::Step(m2) => {
                if !bps.contains(m2.pc as usize) {
                    lemma_wf_cont(m2, bps, (fuel - 1) as nat);
                }
            },
            _ => {},
        }
    }
}

/// A bounded unit step that stays inside its starting unit reports
/// `StepLimit` with the unit unchanged, and reports `Paused` only once
/// the unit boundary has actually been crossed.
pub proof fn lemma_step_unit_progress(m: Engine, start_unit: int, fuel: nat)
    requires
        m.cur_unit == start_unit,
    ensures
        ({
            let (m2, r) = step_unit_spec(m, start_unit, fuel);
            &&& r == Ok::<StopReason, InterpreterError>(StopReason::Paused) ==> m2.cur_unit
                != start_unit
            &&& r != Ok::<StopReason, InterpreterError>(StopReason::Paused) ==> m2.cur_unit
                == start_unit
        }),
    decreases fuel,
{
    if fuel > 0 {
        match step_spec(m) {
            Transition::Halt => {},
            Transition::Fail(e) => {},
            Transition::Step(m2) => {
                if m2.cur_unit == start_unit {
                    lemma_step_unit_progress(m2, start_unit, (fuel - 1) as nat);
                }
            },
        }
    }
}

/// A `Move` whose wrapped target lands at or past the tape length fails
/// with `TapeOverrun` and changes nothing.
pub proof fn lemma_move_overrun(m: Engine, d: isize)
    requires
        0 <= m.pc < m.tokens.len(),
        m.tokens[m.pc] == Token::Move(d),
        move_target(m.ptr, d as int) >= m.tape.len(),
    ensures
        step_spec(m) == Transition::Fail(InterpreterError::TapeOverrun),
{
}

/// On a tape of length 1 every nonzero `Move` fails with `TapeOverrun`:
/// a positive offset lands past the end, and a negative one wraps around
/// the address space to a huge index.
pub proof fn lemma_move_nonzero_small_tape(m: Engine, d: isize)
    requires
        0 <= m.pc < m.tokens.len(),
        m.tokens[m.pc] == Token::Move(d),
        m.tape.len() == 1,
        m.ptr == 0,
        d != 0,
    ensures
        step_spec(m) == Transition::Fail(InterpreterError::TapeOverrun),
{
    assert(move_target(0, d as int) >= 1);
}

/// An `Input` on exhausted input delivers what the end-of-input policy
/// says — 0 under `SetZero`, 255 under `SetMinusOne`, the cell's prior
/// value under `DontSet` — and consumes nothing.
pub proof fn lemma_input_exhausted(m: Engine)
    requires
        m.input_pos >= m.input.len(),
        0 <= m.ptr < m.tape.len(),
    ensures
        m.eof is SetZero ==> input_read(m).0 == 0u8,
        m.eof is SetMinusOne ==> input_read(m).0 == 255u8,
        m.eof is DontSet ==> input_read(m).0 == m.tape[m.ptr],
        input_read(m).1 == m.input_pos,
{
}

/// The execution engine: tape, program, program counter, pointer, input
/// buffer with its read position, end-of-input policy, current unit,
/// breakpoint set, and the bytes written so far.
pub struct Interpreter {
    tape: Vec<u8>,
    program: Program,
    pc: usize,
    ptr: usize,
    input: Vec<u8>,
    input_pos: usize,
    eof_behaviour: EofBehaviour,
    current_unit: usize,
    breakpoints: HashSet<usize>,
    output: Vec<u8>,
}

impl View for Interpreter {
    type V = Engine;

    closed spec fn view(&self) -> Engine {
        Engine {
            tokens: self.program@.tokens,
            units: self.program@.units,
            tape: self.tape@,
            pc: self.pc as int,
            ptr: self.ptr as int,
            input: self.input@,
            input_pos: self.input_pos as int,
            eof: self.eof_behaviour,
            cur_unit: self.current_unit as int,
            output: self.output@,
        }
    }
}

impl Interpreter {
    /// The current breakpoint set.
    pub closed spec fn bps(&self) -> Set<usize> {
        self.breakpoints@
    }

    /// Creates an engine over `program`: a zeroed tape of `tape_size`
    /// cells, program counter, pointer and current unit at 0, the given
    /// input bytes unread, no breakpoints, and nothing written yet.
    pub fn new(
        program: Program,
        tape_size: usize,
        eof_behaviour: EofBehaviour,
        input: Vec<u8>,
    ) -> (r: Interpreter)
        ensures
            r@ == (Engine {
                tokens: program@.tokens,
                units: program@.units,
                tape: Seq::new(tape_size as nat, |i: int| 0u8),
                pc: 0,
                ptr: 0,
                input: input@,
                input_pos: 0,
                eof: eof_behaviour,
                cur_unit: 0,
                output: Seq::empty(),
            }),
            r.bps() == Set::<usize>::empty(),
    {
        let mut tape: Vec<u8> = Vec::new();
        let mut k: usize = 0;
        while k < tape_size
            invariant
                k <= tape_size,
                tape@ =~= Seq::new(k as nat, |i: int| 0u8),
            decreases tape_size - k,
        {
            tape.push(0);
            k = k + 1;
        }
        let r = Interpreter {
            tape,
            program,
            pc: 0,
            ptr: 0,
            input,
            input_pos: 0,
            eof_behaviour,
            breakpoints: HashSet::new(),
            current_unit: 0,
            output: Vec::new(),
        };
        proof {
            assert(r@ =~= (Engine {
                tokens: program@.tokens,
                units: program@.units,
                tape: Seq::new(tape_size as nat, |i: int| 0u8),
                pc: 0,
                ptr: 0,
                input: input@,
                input_pos: 0,
                eof: eof_behaviour,
                cur_unit: 0,
                output: Seq::empty(),
            }));
        }
        r
    }

    /// The cyclic unit scan: the first unit containing `pc2`, starting
    /// from `cur` and giving up after one full cycle.
    fn resync(units: &Vec<Unit>, cur: usize, pc2: usize) -> (r: Option<usize>)
        ensures
            ({
                let f = find_unit_from(
                    units@.map_values(|u: Unit| u@),
                    cur as int,
                    pc2 as int,
                    units@.len() as nat,
                );
                match r {
                    Option::Some(j) => f == Some(j as int) && j < units@.len(),
                    Option::None => f is None,
                }
            }),
    {
        let ghost uv = units@.map_values(|u: Unit| u@);
        let len = units.len();
        if len == 0 {
            return None;
        }
        let mut idx: usize = if cur < len {
            cur
        } else {
            0
        };
        let mut k: usize = 0;
        proof {
            if cur >= len {
                assert(find_unit_from(uv, cur as int, pc2 as int, len as nat) == find_unit_from(
                    uv,
                    0,
                    pc2 as int,
                    len as nat,
                ));
            }
        }
        while k < len
            invariant
                0 < len == units@.len(),
                idx < len,
                k <= len,
                uv == units@.map_values(|u: Unit| u@),
                find_unit_from(uv, cur as int, pc2 as int, len as nat) == find_unit_from(
                    uv,
                    idx as int,
                    pc2 as int,
                    (len - k) as nat,
                ),
            decreases len - k,
        {
            proof {
                assert(uv[idx as int] == units@[idx as int]@);
            }
            if units[idx].start <= pc2 && pc2 < units[idx].end {
                return Some(idx);
            }
            let ghost fpre = (len - k) as nat;
            idx = idx + 1;
            k = k + 1;
            if idx == len {
                idx = 0;
                proof {
                    assert(find_unit_from(uv, len as int, pc2 as int, (fpre - 1) as nat)
                        == find_unit_from(uv, 0, pc2 as int, (fpre - 1) as nat));
                }
            }
        }
        None
    }

    /// Executes exactly one instruction as [`step_spec`] describes:
    /// `Ok(true)` after a successful step, `Ok(false)` when the program
    /// has halted at `Eof`, and the error of the failed instruction
    /// otherwise, with the engine left unchanged on halt and on failure.
    pub fn step(&mut self) -> (r: Result<bool, InterpreterError>)
        ensures
            final(self).bps() == old(self).bps(),
            (match step_spec(old(self)@) {
                Transition::Step(m2) => r == Ok::<bool, InterpreterError>(true) && final(self)@
                    == m2,
                Transition::Halt => r == Ok::<bool, InterpreterError>(false) && final(self)@ == old(
                    self,
                )@,
                Transition::Fail(e) => r == Err::<bool, InterpreterError>(e) && final(self)@ == old(
                    self,
                )@,
            }),
    {
        let pcv = self.pc;
        if pcv >= self.program.tokens.len() {
            return Err(InterpreterError::InvalidProgram);
        }
        let tok = self.program.tokens[pcv];
        match tok {
            Token::Eof => Ok(false),
            Token::Increment(v) => {
                if self.ptr >= self.tape.len() {
                    return Err(InterpreterError::InvalidProgram);
                }
                match Self::resync(&self.program.units, self.current_unit, pcv + 1) {
                    Option::None => Err(InterpreterError::InvalidProgram),
                    Option::Some(j) => {
                        let cell = self.tape[self.ptr];
                        proof {
                            assert(cell.wrapping_add(v) == wrap_add_u8(cell, v));
                        }
                        self.tape.set(self.ptr, cell.wrapping_add(v));
                        self.pc = pcv + 1;
                        self.current_unit = j;
                        proof {
                            assert((match step_spec(old(self)@) {
                                Transition::Step(m2) => self@ =~= m2,
                                _ => false,
                            }));
                        }
                        Ok(true)
                    },
                }
            },
            Token::Move(d) => {
                let cand = self.ptr.wrapping_add_signed(d);
                proof {
                    assert(cand as int == move_target(self.ptr as int, d as int));
                }
                if cand >= self.tape.len() {
                    return Err(InterpreterError::TapeOverrun);
                }
                match Self::resync(&self.program.units, self.current_unit, pcv + 1) {
                    Option::None => Err(InterpreterError::InvalidProgram),
                    Option::Some(j) => {
                        self.ptr = cand;
                        self.pc = pcv + 1;
                        self.current_unit = j;
                        proof {
                            assert((match step_spec(old(self)@) {
                                Transition::Step(m2) => self@ =~= m2,
                                _ => false,
                            }));
                        }
                        Ok(true)
                    },
                }
            },
            Token::JumpZero(t) => {
                if self.ptr >= self.tape.len() {
                    return Err(InterpreterError::InvalidProgram);
                }
                let cell = self.tape[self.ptr];
                let pc2: usize = if cell == 0 {
                    if t == 0 {
                        return Err(InterpreterError::InvalidProgram);
                    }
                    t
                } else {
                    pcv + 1
                };
                match Self::resync(&self.program.units, self.current_unit, pc2) {
                    Option::None => Err(InterpreterError::InvalidProgram),
                    Option::Some(j) => {
                        self.pc = pc2;
                        self.current_unit = j;
                        proof {
                            assert((match step_spec(old(self)@) {
                                Transition::Step(m2) => self@ =~= m2,
                                _ => false,
                            }));
                        }
                        Ok(true)
                    },
                }
            },
            Token::JumpNotZero(t) => {
                if self.ptr >= self.tape.len() {
                    return Err(InterpreterError::InvalidProgram);
                }
                let cell = self.tape[self.ptr];
                let pc2: usize = if cell != 0 {
                    if t == 0 {
                        return Err(InterpreterError::InvalidProgram);
                    }
                    t
                } else {
                    pcv + 1
                };
                match Self::resync(&self.program.units, self.current_unit, pc2) {
                    Option::None => Err(InterpreterError::InvalidProgram),
                    Option::Some(j) => {
                        self.pc = pc2;
                        self.current_unit = j;
                        proof {
                            assert((match step_spec(old(self)@) {
                                Transition::Step(m2) => self@ =~= m2,
                                _ => false,
                            }));
                        }
                        Ok(true)
                    },
                }
            },
            Token::Output => {
                if self.ptr >= self.tape.len() {
                    return Err(InterpreterError::InvalidProgram);
                }
                match Self::resync(&self.program.units, self.current_unit, pcv + 1) {
                    Option::None => Err(InterpreterError::InvalidProgram),
                    Option::Some(j) => {
                        let cell = self.tape[self.ptr];
                        self.output.push(cell);
                        self.pc = pcv + 1;
                        self.current_unit = j;
                        proof {
                            assert((match step_spec(old(self)@) {
                                Transition::Step(m2) => self@ =~= m2,
                                _ => false,
                            }));
                        }
                        Ok(true)
                    },
                }
            },
            Token::Input => {
                if self.ptr >= self.tape.len() {
                    return Err(InterpreterError::InvalidProgram);
                }
                match Self::resync(&self.program.units, self.current_unit, pcv + 1) {
                    Option::None => Err(InterpreterError::InvalidProgram),
                    Option::Some(j) => {
                        let cell = self.tape[self.ptr];
                        let b: u8;
                        let npos: usize;
                        if self.input_pos >= self.input.len() {
                            b = match self.eof_behaviour {
                                EofBehaviour::SetZero => 0,
                                EofBehaviour::SetMinusOne => 255,
                                EofBehaviour::DontSet => cell,
                            };
                            npos = self.input_pos;
                        } else {
                            let b1 = self.input[self.input_pos];
                            if b1 != 13 {
                                b = b1;
                                npos = self.input_pos + 1;
                            } else if self.input_pos + 1 >= self.input.len() {
                                b = match self.eof_behaviour {
                                    EofBehaviour::SetZero => 0,
                                    EofBehaviour::SetMinusOne => 255,
                                    EofBehaviour::DontSet => cell,
                                };
                                npos = self.input_pos + 1;
                            } else {
                                b = self.input[self.input_pos + 1];
                                npos = self.input_pos + 2;
                            }
                        }
                        proof {
                            assert(input_read(old(self)@) == (b, npos as int));
                        }
                        self.tape.set(self.ptr, b);
                        self.input_pos = npos;
                        self.pc = pcv + 1;
                        self.current_unit = j;
                        proof {
                            assert((match step_spec(old(self)@) {
                                Transition::Step(m2) => self@ =~= m2,
                                _ => false,
                            }));
                        }
                        Ok(true)
                    },
                }
            },
            Token::PrintState => {
                match Self::resync(&self.program.units, self.current_unit, pcv + 1) {
                    Option::None => Err(InterpreterError::InvalidProgram),
                    Option::Some(j) => {
                        self.pc = pcv + 1;
                        self.current_unit = j;
                        proof {
                            assert((match step_spec(old(self)@) {
                                Transition::Step(m2) => self@ =~= m2,
                                _ => false,
                            }));
                        }
                        Ok(true)
                    },
                }
            },
        }
    }

    /// Steps until the program halts, an instruction fails, or
    /// `max_steps` instructions have run, exactly as [`run_spec`] says;
    /// `Paused` is never reported.
    pub fn run(&mut self, max_steps: u64) -> (r: Result<StopReason, InterpreterError>)
        ensures
            final(self).bps() == old(self).bps(),
            ({
                let (m2, rr) = run_spec(old(self)@, max_steps as nat);
                final(self)@ == m2 && r == rr
            }),
            r != Ok::<StopReason, InterpreterError>(StopReason::Paused),
    {
        let mut k: u64 = 0;
        while k < max_steps
            invariant
                k <= max_steps,
                self.bps() == old(self).bps(),
                run_spec(old(self)@, max_steps as nat) == run_spec(self@, (max_steps - k) as nat),
            decreases max_steps - k,
        {
            match self.step() {
                Ok(true) => {
                    k = k + 1;
                },
                Ok(false) => {
                    return Ok(StopReason::Halted);
                },
                Err(e) => {
                    return Err(e);
                },
            }
        }
        Ok(StopReason::StepLimit)
    }

    /// Steps until the current unit differs from the one at entry, until
    /// halt or failure, or until `max_steps` instructions have run,
    /// exactly as [`step_unit_spec`] says. `Paused` is reported only
    /// when the unit boundary was actually crossed; an internal jump
    /// that stays within the unit never ends the walk.
    pub fn step_unit(&mut self, max_steps: u64) -> (r: Result<StopReason, InterpreterError>)
        ensures
            final(self).bps() == old(self).bps(),
            ({
                let (m2, rr) = step_unit_spec(old(self)@, old(self)@.cur_unit, max_steps as nat);
                final(self)@ == m2 && r == rr
            }),
            r == Ok::<StopReason, InterpreterError>(StopReason::Paused) ==> final(self)@.cur_unit
                != old(self)@.cur_unit,
            ((r is Ok) && r != Ok::<StopReason, InterpreterError>(StopReason::Paused))
                ==> final(self)@.cur_unit == old(self)@.cur_unit,
    {
        let ghost start = self@.cur_unit;
        proof {
            lemma_step_unit_progress(self@, start, max_steps as nat);
        }
        let mut k: u64 = 0;
        while k < max_steps
            invariant
                k <= max_steps,
                self.bps() == old(self).bps(),
                start == old(self)@.cur_unit,
                self@.cur_unit == start,
                step_unit_spec(old(self)@, start, max_steps as nat) == step_unit_spec(
                    self@,
                    start,
                    (max_steps - k) as nat,
                ),
            decreases max_steps - k,
        {
            let ghost pre = self@;
            let cur_before = self.current_unit;
            match self.step() {
                Ok(true) => {
                    if self.current_unit != cur_before {
                        proof {
                            assert(step_unit_spec(pre, start, (max_steps - k) as nat) == (
                                self@,
                                Ok::<StopReason, InterpreterError>(StopReason::Paused),
                            ));
                        }
                        return Ok(StopReason::Paused);
                    }
                    k = k + 1;
                },
                Ok(false) => {
                    return Ok(StopReason::Halted);
                },
                Err(e) => {
                    return Err(e);
                },
            }
        }
        Ok(StopReason::StepLimit)
    }

    /// Steps until the program counter lands in the breakpoint set,
    /// until halt or failure, or until `max_steps` instructions have
    /// run, exactly as [`cont_spec`] says.
    pub fn cont(&mut self, max_steps: u64) -> (r: Result<StopReason, InterpreterError>)
        ensures
            final(self).bps() == old(self).bps(),
            ({
                let (m2, rr) = cont_spec(old(self)@, old(self).bps(), max_steps as nat);
                final(self)@ == m2 && r == rr
            }),
    {
        let mut k: u64 = 0;
        while k < max_steps
            invariant
                k <= max_steps,
                self.bps() == old(self).bps(),
                cont_spec(old(self)@, old(self).bps(), max_steps as nat) == cont_spec(
                    self@,
                    old(self).bps(),
                    (max_steps - k) as nat,
                ),
            decreases max_steps - k,
        {
            match self.step() {
                Ok(true) => {
                    if self.breakpoints.contains(&self.pc) {
                        return Ok(StopReason::Paused);
                    }
                    k = k + 1;
                },
                Ok(false) => {
                    return Ok(StopReason::Halted);
                },
                Err(e) => {
                    return Err(e);
                },
            }
        }
        Ok(StopReason::StepLimit)
    }

    /// Adds a breakpoint at an instruction index. Breakpoints are
    /// consulted only by [`Interpreter::cont`].
    pub fn add_breakpoint(&mut self, breakpoint: usize)
        ensures
            final(self)@ == old(self)@,
            final(self).bps() == old(self).bps().insert(breakpoint),
    {
        self.breakpoints.insert(breakpoint);
    }

    /// Clears a breakpoint; reports whether one was set there.
    pub fn clear_breakpoint(&mut self, breakpoint: usize) -> (r: bool)
        ensures
            final(self)@ == old(self)@,
            final(self).bps() == old(self).bps().remove(breakpoint),
            r == old(self).bps().contains(breakpoint),
    {
        self.breakpoints.remove(&breakpoint)
    }

    /// Appends bytes to the not-yet-read end of the input buffer.
    pub fn feed_input(&mut self, more: &Vec<u8>)
        ensures
            final(self).bps() == old(self).bps(),
            final(self)@ == (Engine { input: old(self)@.input + more@, ..old(self)@ }),
    {
        let mut k: usize = 0;
        while k < more.len()
            invariant
                k <= more@.len(),
                self.bps() == old(self).bps(),
                self@ =~= (Engine {
                    input: old(self)@.input + more@.take(k as int),
                    ..old(self)@
                }),
            decreases more@.len() - k,
        {
            let b = more[k];
            self.input.push(b);
            k = k + 1;
            proof {
                assert(old(self)@.input + more@.take(k as int) =~= (old(self)@.input + more@.take(
                    k as int - 1,
                )).push(more@[k as int - 1]));
            }
        }
        proof {
            assert(more@.take(more@.len() as int) =~= more@);
            assert(self@ =~= (Engine { input: old(self)@.input + more@, ..old(self)@ }));
        }
    }

    /// Read-only view of the tape.
    pub fn tape(&self) -> (r: &Vec<u8>)
        ensures
            r@ == self@.tape,
    {
        &self.tape
    }

    /// Read-only view of the compiled program.
    pub fn program(&self) -> (r: &Program)
        ensures
            r@.tokens == self@.tokens,
            r@.units == self@.units,
    {
        &self.program
    }

    /// The program counter.
    pub fn pc(&self) -> (r: usize)
        ensures
            r as int == self@.pc,
    {
        self.pc
    }

    /// The tape pointer.
    pub fn ptr(&self) -> (r: usize)
        ensures
            r as int == self@.ptr,
    {
        self.ptr
    }

    /// The index of the unit currently containing the program counter.
    pub fn current_unit(&self) -> (r: usize)
        ensures
            r as int == self@.cur_unit,
    {
        self.current_unit
    }

    /// The bytes the program has written so far.
    pub fn output(&self) -> (r: &Vec<u8>)
        ensures
            r@ == self@.output,
    {
        &self.output
    }

    /// Whether every byte of the input buffer has been consumed, so
    /// that the next `Input` instruction would apply the end-of-input
    /// policy.
    pub fn input_exhausted(&self) -> (r: bool)
        ensures
            r == (self@.input_pos >= self@.input.len()),
    {
        self.input_pos >= self.input.len()
    }

    /// Whether a breakpoint is set at `index`.
    pub fn has_breakpoint(&self, index: usize) -> (r: bool)
        ensures
            r == self.bps().contains(index),
    {
        self.breakpoints.contains(&index)
    }
}

} // verus!
