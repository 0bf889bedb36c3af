//! The compiler: turns raw source text into a resolved, jump-target-linked
//! instruction stream together with a partition of that stream into named
//! units.
//!
//! The scanner is modelled as a character-at-a-time state machine
//! ([`scan_char`] folded over the source by [`scan_upto`], closed out by
//! [`finish`]); [`Program::parse`] is proved to return exactly
//! [`spec_parse`], and every compiled program is proved well formed
//! ([`ProgramModel::wf`]): the stream ends in a single `Eof`, conditional
//! jumps are pairwise linked, and the units partition the stream.

use vstd::prelude::*;
use vstd::string::StrSliceExecFns;
use vstd::string::StringExecFns;

verus! {

/// Why compilation failed: a `]` with no `[` before it, or a `[` still
/// open when the source ends.
#[derive(Debug, Clone, Copy, PartialEq, Eq, Structural)]
pub enum ParserError {
    MissingOpen,
    MissingClose,
}

/// One compiled instruction. `Increment` carries the folded delta modulo
/// 256; `Move` carries the folded signed pointer offset; the jump targets
/// are indices into the instruction stream; `Eof` terminates execution.
#[derive(Debug, Copy, Clone, PartialEq, Eq, Structural)]
pub enum Token {
    Increment(u8),
    Move(isize),
    JumpZero(usize),
    JumpNotZero(usize),
    Input,
    Output,
    PrintState,
    Eof,
}

/// A named, contiguous half-open range `[start, end)` of instruction
/// indices.
#[derive(Debug)]
pub struct Unit {
    pub description: String,
    pub start: usize,
    pub end: usize,
}

/// Mathematical model of a [`Unit`].
#[verifier::ext_equal]
pub struct UnitModel {
    pub description: Seq<char>,
    pub start: int,
    pub end: int,
}

impl View for Unit {
    type V = UnitModel;

    open spec fn view(&self) -> UnitModel {
        UnitModel { description: self.description@, start: self.start as int, end: self.end as int }
    }
}

/// A compiled program: the instruction stream and the unit table.
#[derive(Debug)]
pub struct Program {
    pub units: Vec<Unit>,
    pub tokens: Vec<Token>,
}

/// Mathematical model of a [`Program`].
#[verifier::ext_equal]
pub struct ProgramModel {
    pub units: Seq<UnitModel>,
    pub tokens: Seq<Token>,
}

impl View for Program {
    type V = ProgramModel;

    open spec fn view(&self) -> ProgramModel {
        ProgramModel {
            units: self.units@.map_values(|u: Unit| u@),
            tokens: self.tokens@,
        }
    }
}

/// A resolved forward jump: the `JumpZero` at `p` targets the instruction
/// one past its partner `JumpNotZero`, and that partner targets `p + 1`.
pub open spec fn jz_resolved(tokens: Seq<Token>, p: int) -> bool {
    tokens[p] matches Token::JumpZero(t) && {
        &&& 1 <= t as int
        &&& t as int - 1 < tokens.len()
        &&& tokens[t as int - 1] matches Token::JumpNotZero(u) && u as int == p + 1
    }
}

/// A resolved backward jump: the `JumpNotZero` at `q` targets the
/// instruction one past its partner `JumpZero`, and that partner targets
/// `q + 1`.
pub open spec fn jnz_resolved(tokens: Seq<Token>, q: int) -> bool {
    tokens[q] matches Token::JumpNotZero(u) && {
        &&& 1 <= u as int
        &&& u as int - 1 < tokens.len()
        &&& tokens[u as int - 1] matches Token::JumpZero(t) && t as int == q + 1
    }
}

/// Round-trip bracket pairing: every conditional jump is linked to its
/// partner as [`jz_resolved`] and [`jnz_resolved`] describe.
pub open spec fn jumps_paired(tokens: Seq<Token>) -> bool {
    &&& forall|p: int|
        0 <= p < tokens.len() && (#[trigger] tokens[p]) is JumpZero ==> jz_resolved(tokens, p)
    &&& forall|q: int|
        0 <= q < tokens.len() && (#[trigger] tokens[q]) is JumpNotZero ==> jnz_resolved(tokens, q)
}

/// The units exactly partition `[0, len)`: contiguous, in increasing
/// order, with no gaps or overlaps.
pub open spec fn units_partition(units: Seq<UnitModel>, len: int) -> bool {
    &&& units.len() >= 1
    &&& units[0].start == 0
    &&& units.last().end == len
    &&& forall|k: int| 0 <= k < units.len() - 1 ==> (#[trigger] units[k]).end == units[k + 1].start
    &&& forall|k: int| 0 <= k < units.len() ==> (#[trigger] units[k]).start <= units[k].end
}

impl ProgramModel {
    /// Every program the compiler returns satisfies this: a nonempty
    /// stream terminated by exactly one `Eof`, pairwise-linked jumps, and
    /// a unit table that partitions the stream.
    pub open spec fn wf(self) -> bool {
        &&& self.tokens.len() >= 1
        &&& self.tokens.last() == Token::Eof
        &&& forall|k: int| 0 <= k < self.tokens.len() - 1 ==> (#[trigger] self.tokens[k]) != Token::Eof
        &&& jumps_paired(self.tokens)
        &&& units_partition(self.units, self.tokens.len() as int)
    }
}

/// The whitespace the scanner skips when looking for a unit marker at the
/// start of a line and when trimming a unit's label.
pub open spec fn is_space(c: char) -> bool {
    c == ' ' || c == '\t' || c == '\r'
}

/// Where the scanner stands within the current line.
#[derive(Debug, Copy, Clone, PartialEq, Eq, Structural)]
pub enum ScanMode {
    LineStart,
    UnitLine,
    Body,
}

/// The scanner's full state after some prefix of the source.
#[verifier::ext_equal]
pub struct ParseState {
    pub tokens: Seq<Token>,
    pub pending: Option<Token>,
    pub stack: Seq<int>,
    pub units: Seq<UnitModel>,
    pub mode: ScanMode,
    pub label_start: int,
    pub failed: bool,
}

/// Appends the pending folded operator to the stream, unless it folded to
/// a net zero, in which case it vanishes.
pub open spec fn flushed_tokens(tokens: Seq<Token>, pending: Option<Token>) -> Seq<Token> {
    match pending {
        Option::None => tokens,
        Option::Some(t) => match t {
            Token::Increment(v) => if v == 0 { tokens } else { tokens.push(t) },
            Token::Move(v) => if v == 0 { tokens } else { tokens.push(t) },
            _ => tokens.push(t),
        },
    }
}

/// Addition modulo 256, as `u8` wraparound.
pub open spec fn wrap_add_u8(x: u8, y: u8) -> u8 {
    if x + y > 255 { (x + y - 256) as u8 } else { (x + y) as u8 }
}

/// Successor with `isize` wraparound.
pub open spec fn wrap_inc_isize(v: isize) -> isize {
    if v == isize::MAX { isize::MIN } else { (v + 1) as isize }
}

/// Predecessor with `isize` wraparound.
pub open spec fn wrap_dec_isize(v: isize) -> isize {
    if v == isize::MIN { isize::MAX } else { (v - 1) as isize }
}

/// Result of feeding one instruction character to the scanner: the
/// updated stream, fold buffer and bracket stack; `ok` is false exactly
/// when the character was an unmatched `]`.
#[verifier::ext_equal]
pub struct InstOut {
    pub tokens: Seq<Token>,
    pub pending: Option<Token>,
    pub stack: Seq<int>,
    pub ok: bool,
}

/// What one instruction character does to the stream, the fold buffer and
/// the bracket stack. Unrecognized characters do nothing and in
/// particular do not interrupt run-length folding; `#` is ignored
/// entirely unless `parse_print` is set.
pub open spec fn inst_step(
    tokens: Seq<Token>,
    pending: Option<Token>,
    stack: Seq<int>,
    c: char,
    parse_print: bool,
) -> InstOut {
    if c == '+' || c == '-' {
        let d: u8 = if c == '+' { 1u8 } else { 255u8 };
        match pending {
            Option::Some(Token::Increment(v)) => InstOut {
                tokens,
                pending: Some(Token::Increment(wrap_add_u8(v, d))),
                stack,
                ok: true,
            },
            _ => InstOut {
                tokens: flushed_tokens(tokens, pending),
                pending: Some(Token::Increment(d)),
                stack,
                ok: true,
            },
        }
    } else if c == '>' || c == '<' {
        match pending {
            Option::Some(Token::Move(v)) => InstOut {
                tokens,
                pending: Some(
                    Token::Move(if c == '>' { wrap_inc_isize(v) } else { wrap_dec_isize(v) }),
                ),
                stack,
                ok: true,
            },
            _ => InstOut {
                tokens: flushed_tokens(tokens, pending),
                pending: Some(Token::Move(if c == '>' { 1isize } else { -1isize })),
                stack,
                ok: true,
            },
        }
    } else if c == '.' {
        InstOut {
            tokens: flushed_tokens(tokens, pending).push(Token::Output),
            pending: None,
            stack,
            ok: true,
        }
    } else if c == ',' {
        InstOut {
            tokens: flushed_tokens(tokens, pending).push(Token::Input),
            pending: None,
            stack,
            ok: true,
        }
    } else if c == '[' {
        let ts = flushed_tokens(tokens, pending);
        InstOut {
            tokens: ts.push(Token::JumpZero(0usize)),
            pending: None,
            stack: stack.push(ts.len() as int),
            ok: true,
        }
    } else if c == ']' {
        let ts = flushed_tokens(tokens, pending);
        if stack.len() == 0 {
            InstOut { tokens: ts, pending: None, stack, ok: false }
        } else {
            let p = stack.last();
            let q = ts.len() as int;
            InstOut {
                tokens: ts.update(p, Token::JumpZero((q + 1) as usize)).push(
                    Token::JumpNotZero((p + 1) as usize),
                ),
                pending: None,
                stack: stack.drop_last(),
                ok: true,
            }
        }
    } else if c == '#' {
        if parse_print {
            InstOut {
                tokens: flushed_tokens(tokens, pending).push(Token::PrintState),
                pending: None,
                stack,
                ok: true,
            }
        } else {
            InstOut { tokens, pending, stack, ok: true }
        }
    } else {
        InstOut { tokens, pending, stack, ok: true }
    }
}

/// First index at or after `lo` (up to `hi`) holding a non-space
/// character.
pub open spec fn skip_fwd(s: Seq<char>, lo: int, hi: int) -> int
    decreases hi - lo,
{
    if lo >= hi {
        hi
    } else if is_space(s[lo]) {
        skip_fwd(s, lo + 1, hi)
    } else {
        lo
    }
}

/// Last bound at or before `hi` (down to `lo`) such that the character
/// just before it is not a space.
pub open spec fn skip_back(s: Seq<char>, lo: int, hi: int) -> int
    decreases hi - lo,
{
    if hi <= lo {
        lo
    } else if is_space(s[hi - 1]) {
        skip_back(s, lo, hi - 1)
    } else {
        hi
    }
}

/// The characters of `[lo, hi)` with leading and trailing spaces removed.
pub open spec fn trim_range(s: Seq<char>, lo: int, hi: int) -> Seq<char> {
    let a = skip_fwd(s, lo, hi);
    let b = skip_back(s, a, hi);
    s.subrange(a, b)
}

/// Closing out a unit boundary when `tc` instructions have been emitted:
/// a first boundary after some instructions synthesizes a covering unit,
/// the previous unit's provisional end becomes `tc`, and the new unit
/// opens at `tc` with a provisional end.
pub open spec fn close_units(units: Seq<UnitModel>, tc: int, label: Seq<char>) -> Seq<UnitModel> {
    let units1 = if units.len() == 0 && tc > 0 {
        seq![UnitModel { description: "No Unit Name"@, start: 0, end: tc }]
    } else {
        units
    };
    let units2 = if units1.len() > 0 {
        units1.update(
            units1.len() - 1,
            UnitModel {
                description: units1.last().description,
                start: units1.last().start,
                end: tc,
            },
        )
    } else {
        units1
    };
    units2.push(UnitModel { description: label, start: tc, end: 0 })
}

/// The scanner's initial state.
pub open spec fn init_state() -> ParseState {
    ParseState {
        tokens: Seq::empty(),
        pending: None,
        stack: Seq::empty(),
        units: Seq::empty(),
        mode: ScanMode::LineStart,
        label_start: 0,
        failed: false,
    }
}

/// One transition of the scanner on the character at position `i`. A line
/// whose first non-space character is the unit marker `;` declares a unit
/// and contributes nothing to the instruction stream; everywhere else the
/// character acts as [`inst_step`] says. Failure is absorbing.
pub open spec fn scan_char(st: ParseState, s: Seq<char>, i: int, parse_print: bool) -> ParseState {
    let c = s[i];
    if st.failed {
        st
    } else {
        match st.mode {
            ScanMode::LineStart => {
                if c == '\n' || is_space(c) {
                    st
                } else if c == ';' {
                    ParseState {
                        tokens: flushed_tokens(st.tokens, st.pending),
                        pending: None,
                        mode: ScanMode::UnitLine,
                        label_start: i + 1,
                        ..st
                    }
                } else {
                    let o = inst_step(st.tokens, st.pending, st.stack, c, parse_print);
                    ParseState {
                        tokens: o.tokens,
                        pending: o.pending,
                        stack: o.stack,
                        failed: !o.ok,
                        mode: ScanMode::Body,
                        ..st
                    }
                }
            },
            ScanMode::UnitLine => {
                if c == '\n' {
                    ParseState {
                        units: close_units(
                            st.units,
                            st.tokens.len() as int,
                            trim_range(s, st.label_start, i),
                        ),
                        mode: ScanMode::LineStart,
                        ..st
                    }
                } else {
                    st
                }
            },
            ScanMode::Body => {
                if c == '\n' {
                    ParseState { mode: ScanMode::LineStart, ..st }
                } else {
                    let o = inst_step(st.tokens, st.pending, st.stack, c, parse_print);
                    ParseState {
                        tokens: o.tokens,
                        pending: o.pending,
                        stack: o.stack,
                        failed: !o.ok,
                        ..st
                    }
                }
            },
        }
    }
}

/// The scanner's state after the first `n` characters of `s`.
pub open spec fn scan_upto(s: Seq<char>, parse_print: bool, n: int) -> ParseState
    decreases n,
{
    if n <= 0 {
        init_state()
    } else {
        scan_char(scan_upto(s, parse_print, n - 1), s, n - 1, parse_print)
    }
}

/// Closing out the scan: a pending unit line is closed, the fold buffer
/// is flushed, a single `Eof` is appended, open brackets are rejected,
/// and the unit table is completed (synthesizing one covering unit if
/// none was declared).
pub open spec fn finish(st: ParseState, s: Seq<char>) -> Result<ProgramModel, ParserError> {
    if st.failed {
        Err(ParserError::MissingOpen)
    } else {
        let st1 = if st.mode is UnitLine {
            ParseState {
                units: close_units(
                    st.units,
                    st.tokens.len() as int,
                    trim_range(s, st.label_start, s.len() as int),
                ),
                mode: ScanMode::LineStart,
                ..st
            }
        } else {
            st
        };
        let ts = flushed_tokens(st1.tokens, st1.pending).push(Token::Eof);
        if st1.stack.len() > 0 {
            Err(ParserError::MissingClose)
        } else {
            let units1 = if st1.units.len() == 0 {
                seq![UnitModel { description: "No Unit Information"@, start: 0, end: ts.len() as int }]
            } else {
                st1.units
            };
            let units = units1.update(
                units1.len() - 1,
                UnitModel {
                    description: units1.last().description,
                    start: units1.last().start,
                    end: ts.len() as int,
                },
            );
            Ok(ProgramModel { units, tokens: ts })
        }
    }
}

/// What compiling `s` yields: the scanner folded over all of `s`, closed
/// out by [`finish`].
pub open spec fn spec_parse(s: Seq<char>, parse_print: bool) -> Result<ProgramModel, ParserError> {
    finish(scan_upto(s, parse_print, s.len() as int), s)
}

/// Bracket-stack health: every entry is the index of a still-unresolved
/// `JumpZero` placeholder, and entries increase strictly.
pub open spec fn stack_ok(tokens: Seq<Token>, stack: Seq<int>) -> bool {
    &&& forall|j: int|
        0 <= j < stack.len() ==> 0 <= #[trigger] stack[j] < tokens.len() && tokens[stack[j]]
            == Token::JumpZero(0usize)
    &&& forall|j1: int, j2: int| 0 <= j1 < j2 < stack.len() ==> stack[j1] < stack[j2]
}

/// Pairing holds already for every jump not still waiting on the stack.
pub open spec fn pairing_partial(tokens: Seq<Token>, stack: Seq<int>) -> bool {
    &&& forall|p: int|
        0 <= p < tokens.len() && (#[trigger] tokens[p]) is JumpZero && !stack.contains(p)
            ==> jz_resolved(tokens, p)
    &&& forall|q: int|
        0 <= q < tokens.len() && (#[trigger] tokens[q]) is JumpNotZero ==> jnz_resolved(tokens, q)
}

/// Unit-table health mid-scan: the table is contiguous from 0, except
/// that the most recent unit's end is still the provisional 0.
pub open spec fn units_chain(units: Seq<UnitModel>, tc: int) -> bool {
    units.len() > 0 ==> {
        &&& units[0].start == 0
        &&& forall|k: int|
            0 <= k < units.len() - 1 ==> (#[trigger] units[k]).end == units[k + 1].start
                && units[k].start <= units[k].end
        &&& units.last().end == 0
        &&& 0 <= units.last().start <= tc
    }
}

/// Everything that holds of the scanner's state after `i` characters.
pub open spec fn scan_inv(st: ParseState, i: int) -> bool {
    &&& st.tokens.len() <= 2 * i
    &&& (match st.pending {
        Option::None => true,
        Option::Some(t) => t is Increment || t is Move,
    })
    &&& (st.mode is UnitLine ==> st.pending is None && 0 <= st.label_start <= i)
    &&& forall|k: int| 0 <= k < st.tokens.len() ==> (#[trigger] st.tokens[k]) != Token::Eof
    &&& stack_ok(st.tokens, st.stack)
    &&& pairing_partial(st.tokens, st.stack)
    &&& units_chain(st.units, st.tokens.len() as int)
}

/// Appending a non-jump, non-`Eof` token disturbs neither the stack nor
/// the pairing.
proof fn lemma_push_nonjump_preserves(tokens: Seq<Token>, stack: Seq<int>, t: Token)
    requires
        stack_ok(tokens, stack),
        pairing_partial(tokens, stack),
        !(t is JumpZero),
        !(t is JumpNotZero),
    ensures
        stack_ok(tokens.push(t), stack),
        pairing_partial(tokens.push(t), stack),
{
    let ts2 = tokens.push(t);
    assert forall|p: int|
        0 <= p < ts2.len() && (#[trigger] ts2[p]) is JumpZero && !stack.contains(p) implies jz_resolved(
        ts2,
        p,
    ) by {
        if p < tokens.len() {
            assert(ts2[p] == tokens[p]);
            assert(jz_resolved(tokens, p));
            let tt = tokens[p]->JumpZero_0 as int;
            assert(ts2[tt - 1] == tokens[tt - 1]);
        }
    }
    assert forall|q: int|
        0 <= q < ts2.len() && (#[trigger] ts2[q]) is JumpNotZero implies jnz_resolved(ts2, q) by {
        if q < tokens.len() {
            assert(ts2[q] == tokens[q]);
            assert(jnz_resolved(tokens, q));
            let u = tokens[q]->JumpNotZero_0 as int;
            assert(ts2[u - 1] == tokens[u - 1]);
        }
    }
}

/// Flushing the fold buffer disturbs neither the stack nor the pairing,
/// appends at most one token, and never appends `Eof`.
proof fn lemma_flush_preserves(tokens: Seq<Token>, stack: Seq<int>, pending: Option<Token>)
    requires
        stack_ok(tokens, stack),
        pairing_partial(tokens, stack),
        (match pending {
            Option::None => true,
            Option::Some(t) => t is Increment || t is Move,
        }),
        forall|k: int| 0 <= k < tokens.len() ==> (#[trigger] tokens[k]) != Token::Eof,
    ensures
        stack_ok(flushed_tokens(tokens, pending), stack),
        pairing_partial(flushed_tokens(tokens, pending), stack),
        tokens.len() <= flushed_tokens(tokens, pending).len() <= tokens.len() + 1,
        forall|k: int|
            0 <= k < flushed_tokens(tokens, pending).len() ==> (#[trigger] flushed_tokens(
                tokens,
                pending,
            )[k]) != Token::Eof,
        forall|k: int|
            0 <= k < tokens.len() ==> (#[trigger] flushed_tokens(tokens, pending)[k]) == tokens[k],
{
    match pending {
        Option::None => {},
        Option::Some(t) => {
            match t {
                Token::Increment(v) => {
                    if v != 0 {
                        lemma_push_nonjump_preserves(tokens, stack, t);
                    }
                },
                Token::Move(v) => {
                    if v != 0 {
                        lemma_push_nonjump_preserves(tokens, stack, t);
                    }
                },
                _ => {},
            }
        },
    }
}

/// One instruction character preserves the scanner's invariant on the
/// stream, fold buffer and stack, growing the stream by at most two.
proof fn lemma_inst_step_inv(
    tokens: Seq<Token>,
    pending: Option<Token>,
    stack: Seq<int>,
    c: char,
    parse_print: bool,
)
    requires
        stack_ok(tokens, stack),
        pairing_partial(tokens, stack),
        tokens.len() + 2 <= usize::MAX,
        (match pending {
            Option::None => true,
            Option::Some(t) => t is Increment || t is Move,
        }),
        forall|k: int| 0 <= k < tokens.len() ==> (#[trigger] tokens[k]) != Token::Eof,
    ensures
        ({
            let o = inst_step(tokens, pending, stack, c, parse_print);
            o.ok ==> {
                &&& o.tokens.len() <= tokens.len() + 2
                &&& (match o.pending {
                    Option::None => true,
                    Option::Some(t) => t is Increment || t is Move,
                })
                &&& forall|k: int| 0 <= k < o.tokens.len() ==> (#[trigger] o.tokens[k]) != Token::Eof
                &&& stack_ok(o.tokens, o.stack)
                &&& pairing_partial(o.tokens, o.stack)
            }
        }),
{
    lemma_flush_preserves(tokens, stack, pending);
    let ts = flushed_tokens(tokens, pending);
    let o = inst_step(tokens, pending, stack, c, parse_print);
    if c == '+' || c == '-' || c == '>' || c == '<' {
        // fold into the pending buffer, possibly after a flush
    } else if c == '.' {
        lemma_push_nonjump_preserves(ts, stack, Token::Output);
    } else if c == ',' {
        lemma_push_nonjump_preserves(ts, stack, Token::Input);
    } else if c == '[' {
        let ts2 = ts.push(Token::JumpZero(0usize));
        let stack2 = stack.push(ts.len() as int);
        assert forall|j: int| 0 <= j < stack2.len() implies 0 <= #[trigger] stack2[j] < ts2.len()
            && ts2[stack2[j]] == Token::JumpZero(0usize) by {
            if j < stack.len() {
                assert(stack2[j] == stack[j]);
                assert(ts2[stack[j]] == ts[stack[j]]);
            }
        }
        assert forall|p: int|
            0 <= p < ts2.len() && (#[trigger] ts2[p]) is JumpZero && !stack2.contains(p) implies jz_resolved(
            ts2,
            p,
        ) by {
            if p < ts.len() {
                assert(ts2[p] == ts[p]);
                if stack.contains(p) {
                    let j = choose|j: int| 0 <= j < stack.len() && stack[j] == p;
                    assert(stack2[j] == p);
                    assert(stack2.contains(p));
                } else {
                    assert(jz_resolved(ts, p));
                    let tt = ts[p]->JumpZero_0 as int;
                    assert(ts2[tt - 1] == ts[tt - 1]);
                }
            } else {
                assert(stack2[stack2.len() - 1] == p);
                assert(stack2.contains(p));
            }
        }
        assert forall|q: int|
            0 <= q < ts2.len() && (#[trigger] ts2[q]) is JumpNotZero implies jnz_resolved(
            ts2,
            q,
        ) by {
            assert(ts2[q] == ts[q]);
            assert(jnz_resolved(ts, q));
            let u = ts[q]->JumpNotZero_0 as int;
            assert(ts2[u - 1] == ts[u - 1]);
        }
    } else if c == ']' {
        if stack.len() > 0 {
            let p = stack.last();
            let q = ts.len() as int;
            let ts2 = ts.update(p, Token::JumpZero((q + 1) as usize)).push(
                Token::JumpNotZero((p + 1) as usize),
            );
            let stack2 = stack.drop_last();
            assert(0 <= p < q);
            assert(ts[p] == Token::JumpZero(0usize));
            assert(q + 1 <= usize::MAX) by {
                assert(ts.len() <= tokens.len() + 1);
            }
            assert forall|j: int|
                0 <= j < stack2.len() implies 0 <= #[trigger] stack2[j] < ts2.len() && ts2[stack2[j]]
                == Token::JumpZero(0usize) by {
                assert(stack2[j] == stack[j]);
                assert(stack[j] < stack[stack.len() - 1]);
                assert(ts2[stack[j]] == ts[stack[j]]);
            }
            assert forall|p2: int|
                0 <= p2 < ts2.len() && (#[trigger] ts2[p2]) is JumpZero && !stack2.contains(
                p2,
            ) implies jz_resolved(ts2, p2) by {
                if p2 == p {
                    assert(ts2[p] == Token::JumpZero((q + 1) as usize));
                    assert(ts2[q] == Token::JumpNotZero((p + 1) as usize));
                } else if p2 < q {
                    assert(ts2[p2] == ts[p2]);
                    if stack.contains(p2) {
                        let j = choose|j: int| 0 <= j < stack.len() && stack[j] == p2;
                        assert(j < stack.len() - 1) by {
                            assert(stack[j] != p);
                        }
                        assert(stack2[j] == p2);
                        assert(stack2.contains(p2));
                    } else {
                        assert(jz_resolved(ts, p2));
                        let tt = ts[p2]->JumpZero_0 as int;
                        assert(ts[tt - 1] is JumpNotZero);
                        assert(tt - 1 != p);
                        assert(ts2[tt - 1] == ts[tt - 1]);
                    }
                }
            }
            assert forall|q2: int|
                0 <= q2 < ts2.len() && (#[trigger] ts2[q2]) is JumpNotZero implies jnz_resolved(
                ts2,
                q2,
            ) by {
                if q2 == q {
                    assert(ts2[p] == Token::JumpZero((q + 1) as usize));
                } else {
                    assert(q2 < q);
                    if q2 == p {
                        assert(ts2[p] is JumpZero);
                    } else {
                        assert(ts2[q2] == ts[q2]);
                        assert(jnz_resolved(ts, q2));
                        let u = ts[q2]->JumpNotZero_0 as int;
                        assert(ts[u - 1] matches Token::JumpZero(t2) && t2 as int == q2 + 1);
                        assert(u - 1 != p) by {
                            assert(ts[p] == Token::JumpZero(0usize));
                        }
                        assert(ts2[u - 1] == ts[u - 1]);
                    }
                }
            }
        }
    } else if c == '#' {
        if parse_print {
            lemma_push_nonjump_preserves(ts, stack, Token::PrintState);
        }
    }
}

/// Closing a unit boundary keeps the unit table healthy.
proof fn lemma_close_units_chain(units: Seq<UnitModel>, tc: int, label: Seq<char>)
    requires
        units_chain(units, tc),
        0 <= tc,
    ensures
        units_chain(close_units(units, tc, label), tc),
        close_units(units, tc, label).len() > 0,
{
    let u3 = close_units(units, tc, label);
    assert(u3.last().end == 0);
    if units.len() == 0 && tc > 0 {
        assert(u3[0].start == 0);
        assert forall|k: int|
            0 <= k < u3.len() - 1 implies (#[trigger] u3[k]).end == u3[k + 1].start && u3[k].start
            <= u3[k].end by {}
    } else if units.len() == 0 {
        assert(u3.len() == 1);
        assert(u3[0].start == tc);
        assert(tc == 0);
    } else {
        let l = units.len() as int;
        assert(u3.len() == l + 1);
        assert forall|k: int|
            0 <= k < u3.len() - 1 implies (#[trigger] u3[k]).end == u3[k + 1].start && u3[k].start
            <= u3[k].end by {
            if k < l - 1 {
                assert(u3[k] == units[k]);
            } else {
                assert(u3[l - 1].end == tc);
                assert(u3[l].start == tc);
            }
        }
        assert(u3[0].start == 0);
    }
}

/// Once the scanner has failed, it stays failed.
proof fn lemma_failed_absorbs(s: Seq<char>, parse_print: bool, i: int, j: int)
    requires
        0 <= i <= j,
        scan_upto(s, parse_print, i).failed,
    ensures
        scan_upto(s, parse_print, j).failed,
    decreases j - i,
{
    if i < j {
        lemma_failed_absorbs(s, parse_print, i, j - 1);
    }
}

/// The scanner's invariant holds after any prefix, as long as it has not
/// failed.
proof fn lemma_scan_inv(s: Seq<char>, parse_print: bool, i: int)
    requires
        0 <= i,
        2 * i <= usize::MAX,
    ensures
        !scan_upto(s, parse_print, i).failed ==> scan_inv(scan_upto(s, parse_print, i), i),
    decreases i,
{
    if i > 0 {
        lemma_scan_inv(s, parse_print, i - 1);
        let st = scan_upto(s, parse_print, i - 1);
        let st2 = scan_upto(s, parse_print, i);
        if !st2.failed {
            assert(!st.failed);
            let c = s[i - 1];
            match st.mode {
                ScanMode::LineStart => {
                    if c == '\n' || is_space(c) {
                    } else if c == ';' {
                        lemma_flush_preserves(st.tokens, st.stack, st.pending);
                    } else {
                        lemma_inst_step_inv(st.tokens, st.pending, st.stack, c, parse_print);
                    }
                },
                ScanMode::UnitLine => {
                    if c == '\n' {
                        lemma_close_units_chain(
                            st.units,
                            st.tokens.len() as int,
                            trim_range(s, st.label_start, i - 1),
                        );
                    }
                },
                ScanMode::Body => {
                    if c == '\n' {
                    } else {
                        lemma_inst_step_inv(st.tokens, st.pending, st.stack, c, parse_print);
                    }
                },
            }
        }
    }
}

/// Appends the pending folded operator to `tokens` and clears it; a fold
/// with net zero vanishes.
fn push_token(tokens: &mut Vec<Token>, token: &mut Option<Token>)
    ensures
        final(tokens)@ == flushed_tokens(old(tokens)@, *old(token)),
        *final(token) is None,
{
    let cur = *token;
    *token = None;
    match cur {
        Option::Some(t) => {
            match t {
                Token::Increment(v) => {
                    if v != 0 {
                        tokens.push(t);
                    }
                },
                Token::Move(v) => {
                    if v != 0 {
                        tokens.push(t);
                    }
                },
                _ => {
                    tokens.push(t);
                },
            }
        },
        Option::None => {},
    }
}

/// Applies one instruction character, mirroring [`inst_step`]. Returns
/// false exactly on an unmatched `]`.
fn apply_inst_char(
    tokens: &mut Vec<Token>,
    pending: &mut Option<Token>,
    stack: &mut Vec<usize>,
    c: char,
    parse_print: bool,
) -> (ok: bool)
    requires
        old(tokens)@.len() + 2 <= usize::MAX,
        forall|j: int|
            0 <= j < old(stack)@.len() ==> (#[trigger] old(stack)@[j]) < old(tokens)@.len(),
    ensures
        ({
            let o = inst_step(
                old(tokens)@,
                *old(pending),
                old(stack)@.map_values(|x: usize| x as int),
                c,
                parse_print,
            );
            &&& final(tokens)@ == o.tokens
            &&& *final(pending) == o.pending
            &&& final(stack)@.map_values(|x: usize| x as int) == o.stack
            &&& ok == o.ok
        }),
{
    let ghost sv = stack@.map_values(|x: usize| x as int);
    if c == '+' || c == '-' {
        let d: u8 = if c == '+' { 1 } else { 255 };
        let cur = *pending;
        match cur {
            Option::Some(Token::Increment(v)) => {
                *pending = Some(Token::Increment(v.wrapping_add(d)));
                proof {
                    assert(v.wrapping_add(d) == wrap_add_u8(v, d));
                }
            },
            _ => {
                push_token(tokens, pending);
                *pending = Some(Token::Increment(d));
            },
        }
        true
    } else if c == '>' || c == '<' {
        let cur = *pending;
        match cur {
            Option::Some(Token::Move(v)) => {
                let nv: isize = if c == '>' {
                    if v == isize::MAX {
                        isize::MIN
                    } else {
                        v + 1
                    }
                } else {
                    if v == isize::MIN {
                        isize::MAX
                    } else {
                        v - 1
                    }
                };
                *pending = Some(Token::Move(nv));
            },
            _ => {
                push_token(tokens, pending);
                *pending = Some(Token::Move(if c == '>' { 1 } else { -1 }));
            },
        }
        true
    } else if c == '.' {
        push_token(tokens, pending);
        tokens.push(Token::Output);
        true
    } else if c == ',' {
        push_token(tokens, pending);
        tokens.push(Token::Input);
        true
    } else if c == '[' {
        push_token(tokens, pending);
        stack.push(tokens.len());
        tokens.push(Token::JumpZero(0));
        proof {
            assert(stack@.map_values(|x: usize| x as int) =~= sv.push(
                flushed_tokens(old(tokens)@, *old(pending)).len() as int,
            ));
        }
        true
    } else if c == ']' {
        push_token(tokens, pending);
        match stack.pop() {
            Option::Some(p) => {
                let q = tokens.len();
                tokens.set(p, Token::JumpZero(q + 1));
                tokens.push(Token::JumpNotZero(p + 1));
                proof {
                    assert(sv.len() > 0);
                    assert(sv.last() == p as int);
                    assert(stack@.map_values(|x: usize| x as int) =~= sv.drop_last());
                }
                true
            },
            Option::None => {
                proof {
                    assert(sv.len() == 0);
                }
                false
            },
        }
    } else if c == '#' {
        if parse_print {
            push_token(tokens, pending);
            tokens.push(Token::PrintState);
        }
        true
    } else {
        true
    }
}

/// Records a unit boundary in the table, mirroring [`close_units`].
fn record_unit(units: &mut Vec<Unit>, tc: usize, desc: String)
    ensures
        final(units)@.map_values(|u: Unit| u@) == close_units(
            old(units)@.map_values(|u: Unit| u@),
            tc as int,
            desc@,
        ),
{
    let ghost uv = units@.map_values(|u: Unit| u@);
    if units.len() == 0 && tc > 0 {
        units.push(Unit { description: String::from_str("No Unit Name"), start: 0, end: tc });
    }
    let ghost uv1 = units@.map_values(|u: Unit| u@);
    proof {
        let spec1 = if uv.len() == 0 && tc > 0 {
            seq![UnitModel { description: "No Unit Name"@, start: 0, end: tc as int }]
        } else {
            uv
        };
        assert(uv1 =~= spec1);
    }
    match units.pop() {
        Option::Some(u) => {
            units.push(Unit { description: u.description, start: u.start, end: tc });
        },
        Option::None => {},
    }
    proof {
        let spec2 = if uv1.len() > 0 {
            uv1.update(
                uv1.len() - 1,
                UnitModel {
                    description: uv1.last().description,
                    start: uv1.last().start,
                    end: tc as int,
                },
            )
        } else {
            uv1
        };
        assert(units@.map_values(|u: Unit| u@) =~= spec2);
    }
    units.push(Unit { description: desc, start: tc, end: 0 });
    proof {
        assert(units@.map_values(|u: Unit| u@) =~= close_units(uv, tc as int, desc@));
    }
}

/// The label text of a unit line: the characters of `[lo, hi)` with
/// surrounding whitespace removed.
fn trimmed_label(source: &str, lo: usize, hi: usize) -> (r: String)
    requires
        lo <= hi <= source@.len(),
    ensures
        r@ == trim_range(source@, lo as int, hi as int),
{
    let ghost s = source@;
    let mut a: usize = lo;
    loop
        invariant
            lo <= a <= hi <= s.len(),
            source@ == s,
            skip_fwd(s, lo as int, hi as int) == skip_fwd(s, a as int, hi as int),
        ensures
            a as int == skip_fwd(s, lo as int, hi as int),
        decreases hi - a,
    {
        if a >= hi {
            break;
        }
        let ch = source.get_char(a);
        if ch == ' ' || ch == '\t' || ch == '\r' {
            a = a + 1;
        } else {
            break;
        }
    }
    let mut b: usize = hi;
    loop
        invariant
            a <= b <= hi <= s.len(),
            source@ == s,
            skip_back(s, a as int, hi as int) == skip_back(s, a as int, b as int),
        ensures
            b as int == skip_back(s, a as int, hi as int),
        decreases b,
    {
        if b <= a {
            break;
        }
        let ch = source.get_char(b - 1);
        if ch == ' ' || ch == '\t' || ch == '\r' {
            b = b - 1;
        } else {
            break;
        }
    }
    String::from_str(source.substring_char(a, b))
}

impl Program {
    /// Compiles source text: folds runs of `+`/`-` and `>`/`<`, links
    /// bracket pairs, collects unit boundaries from lines whose first
    /// non-space character is `;`, and appends the terminal `Eof`.
    /// Returns exactly what [`spec_parse`] says, and every accepted
    /// program is well formed.
    pub fn parse(source: &str, parse_print: bool) -> (r: Result<Program, ParserError>)
        requires
            2 * source@.len() + 2 <= usize::MAX,
        ensures
            (match r {
                Ok(prog) => spec_parse(source@, parse_print) == Ok::<ProgramModel, ParserError>(
                    prog@,
                ) && prog@.wf(),
                Err(e) => spec_parse(source@, parse_print) == Err::<ProgramModel, ParserError>(e),
            }),
    {
        let ghost s = source@;
        let n = source.unicode_len();
        let mut tokens: Vec<Token> = Vec::new();
        let mut pending: Option<Token> = None;
        let mut stack: Vec<usize> = Vec::new();
        let mut units: Vec<Unit> = Vec::new();
        let mut mode: ScanMode = ScanMode::LineStart;
        let mut label_start: usize = 0;
        let mut i: usize = 0;
        proof {
            assert(tokens@ =~= init_state().tokens);
            assert(stack@.map_values(|x: usize| x as int) =~= init_state().stack);
            assert(units@.map_values(|u: Unit| u@) =~= init_state().units);
        }
        while i < n
            invariant
                0 <= i <= n,
                n == s.len(),
                source@ == s,
                2 * s.len() + 2 <= usize::MAX,
                ({
                    let st = scan_upto(s, parse_print, i as int);
                    &&& !st.failed
                    &&& tokens@ == st.tokens
                    &&& pending == st.pending
                    &&& stack@.map_values(|x: usize| x as int) == st.stack
                    &&& units@.map_values(|u: Unit| u@) == st.units
                    &&& mode == st.mode
                    &&& (st.mode is UnitLine ==> label_start as int == st.label_start)
                }),
            decreases n - i,
        {
            let ghost st = scan_upto(s, parse_print, i as int);
            proof {
                lemma_scan_inv(s, parse_print, i as int);
                assert(scan_upto(s, parse_print, i as int + 1) == scan_char(
                    st,
                    s,
                    i as int,
                    parse_print,
                ));
                assert forall|j: int| 0 <= j < stack@.len() implies (#[trigger] stack@[j])
                    < tokens@.len() by {
                    assert(st.stack[j] == stack@.map_values(|x: usize| x as int)[j]);
                }
            }
            let c = source.get_char(i);
            match mode {
                ScanMode::LineStart => {
                    if c == '\n' || c == ' ' || c == '\t' || c == '\r' {
                    } else if c == ';' {
                        push_token(&mut tokens, &mut pending);
                        mode = ScanMode::UnitLine;
                        label_start = i + 1;
                    } else {
                        mode = ScanMode::Body;
                        let ok = apply_inst_char(
                            &mut tokens,
                            &mut pending,
                            &mut stack,
                            c,
                            parse_print,
                        );
                        if !ok {
                            proof {
                                lemma_failed_absorbs(s, parse_print, i as int + 1, s.len() as int);
                            }
                            return Err(ParserError::MissingOpen);
                        }
                    }
                },
                ScanMode::UnitLine => {
                    if c == '\n' {
                        let desc = trimmed_label(source, label_start, i);
                        record_unit(&mut units, tokens.len(), desc);
                        mode = ScanMode::LineStart;
                    }
                },
                ScanMode::Body => {
                    if c == '\n' {
                        mode = ScanMode::LineStart;
                    } else {
                        let ok = apply_inst_char(
                            &mut tokens,
                            &mut pending,
                            &mut stack,
                            c,
                            parse_print,
                        );
                        if !ok {
                            proof {
                                lemma_failed_absorbs(s, parse_print, i as int + 1, s.len() as int);
                            }
                            return Err(ParserError::MissingOpen);
                        }
                    }
                },
            }
            i = i + 1;
        }
        let ghost st = scan_upto(s, parse_print, s.len() as int);
        proof {
            lemma_scan_inv(s, parse_print, s.len() as int);
        }
        let ghost st1 = if st.mode is UnitLine {
            ParseState {
                units: close_units(
                    st.units,
                    st.tokens.len() as int,
                    trim_range(s, st.label_start, s.len() as int),
                ),
                mode: ScanMode::LineStart,
                ..st
            }
        } else {
            st
        };
        match mode {
            ScanMode::UnitLine => {
                let desc = trimmed_label(source, label_start, n);
                record_unit(&mut units, tokens.len(), desc);
            },
            _ => {},
        }
        push_token(&mut tokens, &mut pending);
        tokens.push(Token::Eof);
        proof {
            assert(tokens@ == flushed_tokens(st1.tokens, st1.pending).push(Token::Eof));
        }
        if stack.len() > 0 {
            proof {
                assert(st1.stack.len() > 0);
            }
            return Err(ParserError::MissingClose);
        }
        if units.len() == 0 {
            units.push(
                Unit {
                    description: String::from_str("No Unit Information"),
                    start: 0,
                    end: tokens.len(),
                },
            );
            proof {
                assert(st1.units.len() == 0);
                assert(units@.map_values(|u: Unit| u@) =~= seq![
                    UnitModel {
                        description: "No Unit Information"@,
                        start: 0,
                        end: tokens@.len() as int,
                    },
                ]);
            }
        }
        let ghost units1 = units@.map_values(|u: Unit| u@);
        let tl = tokens.len();
        match units.pop() {
            Option::Some(u) => {
                units.push(Unit { description: u.description, start: u.start, end: tl });
            },
            Option::None => {},
        }
        proof {
            assert(units@.map_values(|u: Unit| u@) =~= units1.update(
                units1.len() - 1,
                UnitModel {
                    description: units1.last().description,
                    start: units1.last().start,
                    end: tokens@.len() as int,
                },
            ));
        }
        let prog = Program { units, tokens };
        proof {
            lemma_spec_parse_wf(s, parse_print);
            assert(spec_parse(s, parse_print) matches Ok(pm) && pm =~= prog@);
        }
        Ok(prog)
    }
}

/// Whatever the compiler accepts is well formed.
pub proof fn lemma_spec_parse_wf(s: Seq<char>, parse_print: bool)
    requires
        2 * s.len() <= usize::MAX,
    ensures
        spec_parse(s, parse_print) matches Ok(pm) ==> pm.wf(),
{
    lemma_scan_inv(s, parse_print, s.len() as int);
    let st = scan_upto(s, parse_print, s.len() as int);
    if spec_parse(s, parse_print) is Ok {
        assert(!st.failed);
        assert(scan_inv(st, s.len() as int));
        let st1 = if st.mode is UnitLine {
            ParseState {
                units: close_units(
                    st.units,
                    st.tokens.len() as int,
                    trim_range(s, st.label_start, s.len() as int),
                ),
                mode: ScanMode::LineStart,
                ..st
            }
        } else {
            st
        };
        if st.mode is UnitLine {
            lemma_close_units_chain(
                st.units,
                st.tokens.len() as int,
                trim_range(s, st.label_start, s.len() as int),
            );
        }
        lemma_flush_preserves(st1.tokens, st1.stack, st1.pending);
        let tsf = flushed_tokens(st1.tokens, st1.pending);
        let ts = tsf.push(Token::Eof);
        let pm = spec_parse(s, parse_print).unwrap();
        assert(st1.stack.len() == 0);
        // the stream: ends with exactly one Eof, and the jumps stay paired
        assert(ts.last() == Token::Eof);
        assert forall|k: int| 0 <= k < ts.len() - 1 implies (#[trigger] ts[k]) != Token::Eof by {
            assert(ts[k] == tsf[k]);
        }
        assert forall|p: int|
            0 <= p < ts.len() && (#[trigger] ts[p]) is JumpZero implies jz_resolved(ts, p) by {
            assert(p < tsf.len());
            assert(ts[p] == tsf[p]);
            assert(!st1.stack.contains(p));
            assert(jz_resolved(tsf, p));
            let tt = tsf[p]->JumpZero_0 as int;
            assert(ts[tt - 1] == tsf[tt - 1]);
        }
        assert forall|q: int|
            0 <= q < ts.len() && (#[trigger] ts[q]) is JumpNotZero implies jnz_resolved(ts, q) by {
            assert(q < tsf.len());
            assert(ts[q] == tsf[q]);
            assert(jnz_resolved(tsf, q));
            let u = tsf[q]->JumpNotZero_0 as int;
            assert(ts[u - 1] == tsf[u - 1]);
        }
        // the unit table: a partition of [0, ts.len())
        let units1 = if st1.units.len() == 0 {
            seq![UnitModel { description: "No Unit Information"@, start: 0, end: ts.len() as int }]
        } else {
            st1.units
        };
        let units = units1.update(
            units1.len() - 1,
            UnitModel {
                description: units1.last().description,
                start: units1.last().start,
                end: ts.len() as int,
            },
        );
        assert(pm.units == units);
        assert(pm.tokens == ts);
        if st1.units.len() == 0 {
            assert(units_partition(units, ts.len() as int));
        } else {
            assert(units_chain(st1.units, st1.tokens.len() as int));
            let l = units1.len() as int;
            assert(units.last().end == ts.len() as int);
            assert(units.last().start <= st1.tokens.len() as int);
            assert(st1.tokens.len() < ts.len());
            assert forall|k: int|
                0 <= k < units.len() - 1 implies (#[trigger] units[k]).end == units[k + 1].start by {
                assert(units[k] == units1[k]);
                if k < l - 2 {
                    assert(units[k + 1] == units1[k + 1]);
                } else {
                    assert(units[l - 1].start == units1[l - 1].start);
                }
            }
            assert forall|k: int|
                0 <= k < units.len() implies (#[trigger] units[k]).start <= units[k].end by {
                if k < l - 1 {
                    assert(units[k] == units1[k]);
                }
            }
            assert(units[0].start == 0) by {
                if l == 1 {
                } else {
                    assert(units[0] == units1[0]);
                }
            }
            assert(units_partition(units, ts.len() as int));
        }
    }
}


/// The net count of `+` over `-` in `s`, modulo 256, as the scanner
/// folds it.
pub open spec fn net_increment(s: Seq<char>) -> u8
    decreases s.len(),
{
    if s.len() == 0 {
        0u8
    } else {
        wrap_add_u8(
            net_increment(s.drop_last()),
            if s.last() == '+' {
                1u8
            } else if s.last() == '-' {
                255u8
            } else {
                0u8
            },
        )
    }
}

/// The net pointer offset of `>` over `<` in `s`, with `isize`
/// wraparound, as the scanner folds it.
pub open spec fn net_move(s: Seq<char>) -> isize
    decreases s.len(),
{
    if s.len() == 0 {
        0isize
    } else {
        let r = net_move(s.drop_last());
        if s.last() == '>' {
            wrap_inc_isize(r)
        } else if s.last() == '<' {
            wrap_dec_isize(r)
        } else {
            r
        }
    }
}

proof fn lemma_increment_scan(s: Seq<char>, parse_print: bool, i: int)
    requires
        1 <= i <= s.len(),
        forall|k: int| 0 <= k < s.len() ==> s[k] == '+' || s[k] == '-',
    ensures
        ({
            let st = scan_upto(s, parse_print, i);
            &&& st.tokens == Seq::<Token>::empty()
            &&& st.pending == Some(Token::Increment(net_increment(s.take(i))))
            &&& st.stack == Seq::<int>::empty()
            &&& st.units == Seq::<UnitModel>::empty()
            &&& st.mode is Body
            &&& !st.failed
        }),
    decreases i,
{
    assert(s.take(i).last() == s[i - 1]);
    assert(s.take(i).drop_last() =~= s.take(i - 1));
    if i == 1 {
        assert(net_increment(s.take(0)) == 0);
    } else {
        lemma_increment_scan(s, parse_print, i - 1);
    }
}

/// Folding of `+`/`-` runs: a source consisting only of `+` and `-`
/// characters with net count `k` modulo 256 compiles to a single
/// `Increment(k mod 256)` followed by `Eof`; a net count of 0 modulo 256
/// emits no instruction at all.
pub proof fn lemma_increment_folding(s: Seq<char>, parse_print: bool)
    requires
        forall|k: int| 0 <= k < s.len() ==> s[k] == '+' || s[k] == '-',
        2 * s.len() + 2 <= usize::MAX,
    ensures
        spec_parse(s, parse_print) matches Ok(pm) && pm.tokens == (if net_increment(s) == 0 {
            seq![Token::Eof]
        } else {
            seq![Token::Increment(net_increment(s)), Token::Eof]
        }),
{
    if s.len() == 0 {
        assert(Seq::<Token>::empty().push(Token::Eof) =~= seq![Token::Eof]);
    } else {
        lemma_increment_scan(s, parse_print, s.len() as int);
        assert(s.take(s.len() as int) =~= s);
        let st = scan_upto(s, parse_print, s.len() as int);
        let ts = flushed_tokens(st.tokens, st.pending).push(Token::Eof);
        if net_increment(s) == 0 {
            assert(ts =~= seq![Token::Eof]);
        } else {
            assert(ts =~= seq![Token::Increment(net_increment(s)), Token::Eof]);
        }
    }
}

proof fn lemma_move_scan(s: Seq<char>, parse_print: bool, i: int)
    requires
        1 <= i <= s.len(),
        forall|k: int| 0 <= k < s.len() ==> s[k] == '>' || s[k] == '<',
    ensures
        ({
            let st = scan_upto(s, parse_print, i);
            &&& st.tokens == Seq::<Token>::empty()
            &&& st.pending == Some(Token::Move(net_move(s.take(i))))
            &&& st.stack == Seq::<int>::empty()
            &&& st.units == Seq::<UnitModel>::empty()
            &&& st.mode is Body
            &&& !st.failed
        }),
    decreases i,
{
    assert(s.take(i).last() == s[i - 1]);
    assert(s.take(i).drop_last() =~= s.take(i - 1));
    if i == 1 {
        assert(net_move(s.take(0)) == 0);
    } else {
        lemma_move_scan(s, parse_print, i - 1);
    }
}

/// A partition leaves no index of `[0, len)` uncovered: from any unit
/// whose start is at or below `pc`, some unit at or after it contains
/// `pc`.
pub proof fn lemma_partition_covers(units: Seq<UnitModel>, len: int, pc: int, k: int)
    requires
        units_partition(units, len),
        0 <= pc < len,
        0 <= k < units.len(),
        units[k].start <= pc,
    ensures
        exists|j: int| k <= j < units.len() && (#[trigger] units[j]).start <= pc < units[j].end,
    decreases units.len() - k,
{
    if pc < units[k].end {
        assert(units[k].start <= pc < units[k].end);
    } else {
        assert(k < units.len() - 1) by {
            assert(units.last().end == len);
        }
        assert(units[k + 1].start == units[k].end);
        lemma_partition_covers(units, len, pc, k + 1);
    }
}

/// Folding of `>`/`<` runs: a source consisting only of `>` and `<`
/// characters with net offset `d` compiles to a single `Move(d)` followed
/// by `Eof`; in particular a net offset of 0 emits no `Move` at all.
pub proof fn lemma_move_folding(s: Seq<char>, parse_print: bool)
    requires
        forall|k: int| 0 <= k < s.len() ==> s[k] == '>' || s[k] == '<',
        2 * s.len() + 2 <= usize::MAX,
    ensures
        spec_parse(s, parse_print) matches Ok(pm) && pm.tokens == (if net_move(s) == 0 {
            seq![Token::Eof]
        } else {
            seq![Token::Move(net_move(s)), Token::Eof]
        }),
{
    if s.len() == 0 {
        assert(Seq::<Token>::empty().push(Token::Eof) =~= seq![Token::Eof]);
    } else {
        lemma_move_scan(s, parse_print, s.len() as int);
        assert(s.take(s.len() as int) =~= s);
        let st = scan_upto(s, parse_print, s.len() as int);
        let ts = flushed_tokens(st.tokens, st.pending).push(Token::Eof);
        if net_move(s) == 0 {
            assert(ts =~= seq![Token::Eof]);
        } else {
            assert(ts =~= seq![Token::Move(net_move(s)), Token::Eof]);
        }
    }
}

} // verus!
