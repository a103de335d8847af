//! The bytecode compiler for the tape language.
//!
//! Compilation runs in four passes.  A lexing pass maps each
//! recognised source character to one primitive opcode and skips
//! everything else as commentary.  A folding pass collapses runs of
//! cell arithmetic and of tape motion into single instructions
//! carrying a signed net count.  An idiom pass rewrites the loop whose
//! body toggles the cell by one — the "set cell to zero" idiom — into
//! a single clear instruction.  Code generation then emits the binary
//! stream, resolving loop brackets into absolute jump instructions by
//! backpatching: a begin-loop emits a conditional jump with a
//! placeholder target and records the position just past the
//! placeholder; the matching end-loop pops that position, jumps back
//! to it, and overwrites the placeholder with the position just past
//! itself.

use crate::command::Opcode;
use crate::command::spec_ordinal;
use crate::tape::Tape;
use crate::tape::be_bytes;
use crate::tape::be_value;
use vstd::prelude::*;

verus! {

/// Failures of compilation.  They are distinct from the run-time
/// error taxonomy and abort compilation before any bytecode is
/// handed on.
#[derive(Debug, Clone, Copy, PartialEq, Eq, Structural)]
pub enum CompileError {
    /// An end-loop without a begin-loop, or a begin-loop never closed.
    UnmatchedBracket,
    /// The emitted program would exceed the 32-bit address space.
    CodeTooLarge,
    /// The selected language has no working front end.
    UnsupportedLanguage,
}

/// One abstract operation after folding: the unit between the peephole
/// passes and code generation.
#[derive(Debug, Clone, Copy, PartialEq, Eq, Structural)]
pub enum Ir {
    /// Increment the current cell by one.
    Inc,
    /// Decrement the current cell by one.
    Dec,
    /// Move the tape cursor right by one.
    IncTape,
    /// Move the tape cursor left by one.
    DecTape,
    /// Write the current cell to the output channel.
    Output,
    /// Read one byte from the input channel into the current cell.
    Input,
    /// Begin a loop.
    Start,
    /// End a loop.
    End,
    /// Subtract the immediate from the current cell.
    Sub(i8),
    /// Move the tape cursor by a count that fits eight signed bits.
    MoveShort(i8),
    /// Move the tape cursor by a count that fits sixteen signed bits.
    MoveLong(i16),
    /// Set the current cell to zero.
    Clear,
}

/// The primitive opcode a source character stands for, if any.
pub open spec fn char_op(c: char) -> Option<Opcode> {
    if c == '+' {
        Some(Opcode::Inc)
    } else if c == '-' {
        Some(Opcode::Dec)
    } else if c == '>' {
        Some(Opcode::IncTape)
    } else if c == '<' {
        Some(Opcode::DecTape)
    } else if c == '.' {
        Some(Opcode::OutputByte)
    } else if c == ',' {
        Some(Opcode::InputByte)
    } else if c == '[' {
        Some(Opcode::StartLoop)
    } else if c == ']' {
        Some(Opcode::EndLoop)
    } else {
        None
    }
}

/// The eight opcodes the lexer can produce.
pub open spec fn is_prim(op: Opcode) -> bool {
    ||| op == Opcode::Inc
    ||| op == Opcode::Dec
    ||| op == Opcode::IncTape
    ||| op == Opcode::DecTape
    ||| op == Opcode::OutputByte
    ||| op == Opcode::InputByte
    ||| op == Opcode::StartLoop
    ||| op == Opcode::EndLoop
}

/// The lexing pass: each recognised character maps to one primitive
/// opcode, every other character is commentary.
pub open spec fn lex_spec(s: Seq<char>) -> Seq<Opcode>
    decreases s.len(),
{
    if s.len() == 0 {
        Seq::empty()
    } else {
        lex_spec(s.drop_last()) + match char_op(s.last()) {
            Some(op) => seq![op],
            None => Seq::empty(),
        }
    }
}

/// The lexer only produces primitive opcodes.
pub proof fn lemma_lex_prim(s: Seq<char>)
    ensures
        forall|k: int| 0 <= k < lex_spec(s).len() ==> is_prim(#[trigger] lex_spec(s)[k]),
    decreases s.len(),
{
    if s.len() > 0 {
        lemma_lex_prim(s.drop_last());
        let l = lex_spec(s);
        let p = lex_spec(s.drop_last());
        assert forall|k: int| 0 <= k < l.len() implies is_prim(l[k]) by {
            if k < p.len() {
                assert(l[k] == p[k]);
            }
        }
    }
}

impl Ir {
    /// The opcode a source primitive passes through unchanged.
    pub open spec fn of_direct(op: Opcode) -> Ir {
        if op == Opcode::InputByte {
            Ir::Input
        } else if op == Opcode::StartLoop {
            Ir::Start
        } else if op == Opcode::EndLoop {
            Ir::End
        } else {
            Ir::Output
        }
    }
}

/// Scan a run of `plus` and `minus` opcodes starting behind `j`,
/// accumulating the signed net `count`.  The scan stops before the
/// count's magnitude would pass `cap`, at the first other opcode, or
/// at the end; it returns the final count and the index of the last
/// opcode consumed.
pub open spec fn run_scan(
    ops: Seq<Opcode>,
    j: int,
    count: int,
    plus: Opcode,
    minus: Opcode,
    cap: int,
) -> (int, int)
    decreases ops.len() - j,
{
    if j + 1 >= ops.len() {
        (count, j)
    } else if ops[j + 1] == plus {
        if count >= cap || count <= -cap {
            (count, j)
        } else {
            run_scan(ops, j + 1, count + 1, plus, minus, cap)
        }
    } else if ops[j + 1] == minus {
        if count >= cap || count <= -cap {
            (count, j)
        } else {
            run_scan(ops, j + 1, count - 1, plus, minus, cap)
        }
    } else {
        (count, j)
    }
}

/// The scan stays inside the sequence and inside the cap.
pub proof fn lemma_run_scan_bounds(
    ops: Seq<Opcode>,
    j: int,
    count: int,
    plus: Opcode,
    minus: Opcode,
    cap: int,
)
    requires
        0 <= j < ops.len(),
        -cap <= count <= cap,
        cap >= 1,
    ensures
        j <= run_scan(ops, j, count, plus, minus, cap).1 < ops.len(),
        -cap <= run_scan(ops, j, count, plus, minus, cap).0 <= cap,
    decreases ops.len() - j,
{
    if j + 1 < ops.len() && (ops[j + 1] == plus || ops[j + 1] == minus) && !(count >= cap || count
        <= -cap) {
        if ops[j + 1] == plus {
            lemma_run_scan_bounds(ops, j + 1, count + 1, plus, minus, cap);
        } else {
            lemma_run_scan_bounds(ops, j + 1, count - 1, plus, minus, cap);
        }
    }
}

/// The instruction a folded arithmetic run becomes: a unit step for a
/// net of one, an immediate subtraction of the negated net otherwise.
pub open spec fn encode_add(count: int) -> Seq<Ir>
    recommends
        -127 <= count <= 127,
{
    if count == 1 {
        seq![Ir::Inc]
    } else if count == -1 {
        seq![Ir::Dec]
    } else {
        seq![Ir::Sub((-count) as i8)]
    }
}

/// The instruction a folded motion run becomes: a unit move for a net
/// of one, a short move when the net fits eight signed bits, a long
/// move otherwise.
pub open spec fn encode_move(count: int) -> Seq<Ir>
    recommends
        -32767 <= count <= 32767,
{
    if count == 1 {
        seq![Ir::IncTape]
    } else if count == -1 {
        seq![Ir::DecTape]
    } else if -127 <= count <= 127 {
        seq![Ir::MoveShort(count as i8)]
    } else {
        seq![Ir::MoveLong(count as i16)]
    }
}

/// The run-folding pass from position `i` on.
pub open spec fn fold_from(ops: Seq<Opcode>, i: int) -> Seq<Ir>
    decreases ops.len() - i,
{
    if i < 0 || i >= ops.len() {
        Seq::empty()
    } else {
        let op = ops[i];
        if op == Opcode::Inc || op == Opcode::Dec {
            let c0: int = if op == Opcode::Inc {
                1
            } else {
                -1
            };
            let (count, j) = run_scan(ops, i, c0, Opcode::Inc, Opcode::Dec, 127);
            if i <= j < ops.len() {
                encode_add(count) + fold_from(ops, j + 1)
            } else {
                Seq::empty()
            }
        } else if op == Opcode::IncTape || op == Opcode::DecTape {
            let c0: int = if op == Opcode::IncTape {
                1
            } else {
                -1
            };
            let (count, j) = run_scan(ops, i, c0, Opcode::IncTape, Opcode::DecTape, 32767);
            if i <= j < ops.len() {
                encode_move(count) + fold_from(ops, j + 1)
            } else {
                Seq::empty()
            }
        } else {
            seq![Ir::of_direct(op)] + fold_from(ops, i + 1)
        }
    }
}

/// The run-folding pass.
pub open spec fn fold_spec(ops: Seq<Opcode>) -> Seq<Ir> {
    fold_from(ops, 0)
}

/// The idiom pass: a loop whose body is exactly one unit toggle of the
/// cell becomes a single clear instruction; everything else passes
/// through.
pub open spec fn idiom_spec(irs: Seq<Ir>) -> Seq<Ir>
    decreases irs.len(),
{
    if irs.len() == 0 {
        Seq::empty()
    } else if irs.len() >= 3 && irs[0] == Ir::Start && (irs[1] == Ir::Inc || irs[1] == Ir::Dec)
        && irs[2] == Ir::End {
        seq![Ir::Clear] + idiom_spec(irs.skip(3))
    } else {
        seq![irs[0]] + idiom_spec(irs.skip(1))
    }
}

/// The lexing pass over source text.
pub fn lex(source: &str) -> (r: Vec<Opcode>)
    ensures
        r@ == lex_spec(source@),
        forall|k: int| 0 <= k < r@.len() ==> is_prim(#[trigger] r@[k]),
{
    let n = source.unicode_len();
    let mut out: Vec<Opcode> = Vec::new();
    let mut i: usize = 0;
    while i < n
        invariant
            n == source@.len(),
            i <= n,
            out@ == lex_spec(source@.subrange(0, i as int)),
        decreases n - i,
    {
        let c = source.get_char(i);
        proof {
            let pre = source@.subrange(0, i as int);
            let post = source@.subrange(0, i + 1);
            assert(post.drop_last() =~= pre);
            assert(post.last() == c);
        }
        match c {
            '+' => out.push(Opcode::Inc),
            '-' => out.push(Opcode::Dec),
            '>' => out.push(Opcode::IncTape),
            '<' => out.push(Opcode::DecTape),
            '.' => out.push(Opcode::OutputByte),
            ',' => out.push(Opcode::InputByte),
            '[' => out.push(Opcode::StartLoop),
            ']' => out.push(Opcode::EndLoop),
            _ => (),
        }
        i += 1;
    }
    proof {
        assert(source@.subrange(0, source@.len() as int) =~= source@);
        lemma_lex_prim(source@);
    }
    out
}

/// The run-folding pass over the lexed opcodes.
pub fn fold_runs(ops: &Vec<Opcode>) -> (r: Vec<Ir>)
    requires
        forall|k: int| 0 <= k < ops@.len() ==> is_prim(#[trigger] ops@[k]),
    ensures
        r@ == fold_spec(ops@),
{
    let mut out: Vec<Ir> = Vec::new();
    let mut index: usize = 0;
    while index < ops.len()
        invariant
            index <= ops@.len(),
            forall|k: int| 0 <= k < ops@.len() ==> is_prim(#[trigger] ops@[k]),
            fold_spec(ops@) == out@ + fold_from(ops@, index as int),
        decreases ops@.len() - index,
    {
        let ghost i0 = index as int;
        let ghost out0 = out@;
        let current = ops[index];
        match current {
            Opcode::Inc | Opcode::Dec => {
                let ghost c0: int = if current == Opcode::Inc {
                    1
                } else {
                    -1
                };
                let mut count: i32 = if matches!(current, Opcode::Inc) {
                    1
                } else {
                    -1
                };
                while index < ops.len() - 1 && (matches!(ops[index + 1], Opcode::Inc) || matches!(
                    ops[index + 1],
                    Opcode::Dec,
                )) && count < 127 && count > -127
                    invariant
                        i0 <= index < ops@.len(),
                        -127 <= count <= 127,
                        run_scan(ops@, index as int, count as int, Opcode::Inc, Opcode::Dec, 127)
                            == run_scan(ops@, i0, c0, Opcode::Inc, Opcode::Dec, 127),
                    decreases ops@.len() - index,
                {
                    if matches!(ops[index + 1], Opcode::Inc) {
                        count = count + 1;
                    } else {
                        count = count - 1;
                    }
                    index = index + 1;
                }
                proof {
                    assert(run_scan(ops@, index as int, count as int, Opcode::Inc, Opcode::Dec, 127)
                        == (count as int, index as int));
                    assert(fold_from(ops@, i0) == encode_add(count as int) + fold_from(
                        ops@,
                        index + 1,
                    ));
                }
                if count == 1 {
                    out.push(Ir::Inc);
                } else if count == -1 {
                    out.push(Ir::Dec);
                } else {
                    out.push(Ir::Sub((-count) as i8));
                }
                proof {
                    assert(out@ =~= out0 + encode_add(count as int));
                    assert(out0 + fold_from(ops@, i0) =~= out@ + fold_from(ops@, index + 1));
                }
            },
            Opcode::IncTape | Opcode::DecTape => {
                let ghost c0: int = if current == Opcode::IncTape {
                    1
                } else {
                    -1
                };
                let mut count: i32 = if matches!(current, Opcode::IncTape) {
                    1
                } else {
                    -1
                };
                while index < ops.len() - 1 && (matches!(ops[index + 1], Opcode::IncTape)
                    || matches!(ops[index + 1], Opcode::DecTape)) && count < 32767 && count > -32767
                    invariant
                        i0 <= index < ops@.len(),
                        -32767 <= count <= 32767,
                        run_scan(
                            ops@,
                            index as int,
                            count as int,
                            Opcode::IncTape,
                            Opcode::DecTape,
                            32767,
                        ) == run_scan(ops@, i0, c0, Opcode::IncTape, Opcode::DecTape, 32767),
                    decreases ops@.len() - index,
                {
                    if matches!(ops[index + 1], Opcode::IncTape) {
                        count = count + 1;
                    } else {
                        count = count - 1;
                    }
                    index = index + 1;
                }
                proof {
                    assert(run_scan(
                        ops@,
                        index as int,
                        count as int,
                        Opcode::IncTape,
                        Opcode::DecTape,
                        32767,
                    ) == (count as int, index as int));
                    assert(fold_from(ops@, i0) == encode_move(count as int) + fold_from(
                        ops@,
                        index + 1,
                    ));
                }
                if count == 1 {
                    out.push(Ir::IncTape);
                } else if count == -1 {
                    out.push(Ir::DecTape);
                } else if count >= -127 && count <= 127 {
                    out.push(Ir::MoveShort(count as i8));
                } else {
                    out.push(Ir::MoveLong(count as i16));
                }
                proof {
                    assert(out@ =~= out0 + encode_move(count as int));
                    assert(out0 + fold_from(ops@, i0) =~= out@ + fold_from(ops@, index + 1));
                }
            },
            Opcode::OutputByte => {
                out.push(Ir::Output);
                proof {
                    assert(out0 + fold_from(ops@, i0) =~= out@ + fold_from(ops@, i0 + 1));
                }
            },
            Opcode::InputByte => {
                out.push(Ir::Input);
                proof {
                    assert(out0 + fold_from(ops@, i0) =~= out@ + fold_from(ops@, i0 + 1));
                }
            },
            Opcode::StartLoop => {
                out.push(Ir::Start);
                proof {
                    assert(out0 + fold_from(ops@, i0) =~= out@ + fold_from(ops@, i0 + 1));
                }
            },
            Opcode::EndLoop => {
                out.push(Ir::End);
                proof {
                    assert(out0 + fold_from(ops@, i0) =~= out@ + fold_from(ops@, i0 + 1));
                }
            },
            _ => {
                proof {
                    assert(false);
                }
            },
        }
        index += 1;
    }
    proof {
        assert(out@ + fold_from(ops@, index as int) =~= out@);
    }
    out
}

/// The idiom pass over the folded operations.
pub fn fold_idioms(irs: &Vec<Ir>) -> (r: Vec<Ir>)
    ensures
        r@ == idiom_spec(irs@),
{
    let mut out: Vec<Ir> = Vec::new();
    let mut i: usize = 0;
    proof {
        assert(irs@.skip(0) =~= irs@);
        assert(Seq::<Ir>::empty() + idiom_spec(irs@) =~= idiom_spec(irs@));
    }
    while i < irs.len()
        invariant
            i <= irs@.len(),
            idiom_spec(irs@) == out@ + idiom_spec(irs@.skip(i as int)),
        decreases irs@.len() - i,
    {
        let ghost out0 = out@;
        let ghost rest = irs@.skip(i as int);
        if irs.len() >= 3 && i < irs.len() - 2 && matches!(irs[i], Ir::Start) && (matches!(
            irs[i + 1],
            Ir::Inc,
        )
            || matches!(irs[i + 1], Ir::Dec)) && matches!(irs[i + 2], Ir::End) {
            out.push(Ir::Clear);
            proof {
                assert(rest[0] == irs@[i as int]);
                assert(rest[1] == irs@[i + 1]);
                assert(rest[2] == irs@[i + 2]);
                assert(rest.skip(3) =~= irs@.skip(i + 3));
                assert(out0 + idiom_spec(rest) =~= out@ + idiom_spec(irs@.skip(i + 3)));
            }
            i += 3;
        } else {
            out.push(irs[i]);
            proof {
                assert(rest[0] == irs@[i as int]);
                assert(rest.skip(1) =~= irs@.skip(i + 1));
                if rest.len() >= 3 && rest[0] == Ir::Start && (rest[1] == Ir::Inc || rest[1]
                    == Ir::Dec) && rest[2] == Ir::End {
                    assert(false);
                }
                assert(out0 + idiom_spec(rest) =~= out@ + idiom_spec(irs@.skip(i + 1)));
            }
            i += 1;
        }
    }
    proof {
        assert(irs@.skip(irs@.len() as int) =~= Seq::<Ir>::empty());
        assert(out@ + idiom_spec(irs@.skip(irs@.len() as int)) =~= out@);
    }
    out
}

/// The bytes an abstract operation occupies in the emitted stream.
pub open spec fn ir_size(ir: Ir) -> nat {
    match ir {
        Ir::Inc | Ir::Dec | Ir::IncTape | Ir::DecTape | Ir::Output | Ir::Input => 1,
        Ir::Sub(_) | Ir::MoveShort(_) | Ir::Clear => 2,
        Ir::MoveLong(_) => 3,
        Ir::Start | Ir::End => 5,
    }
}

/// The bytes the first `i` operations occupy together.
pub open spec fn size_upto(irs: Seq<Ir>, i: int) -> nat
    decreases i,
{
    if i <= 0 {
        0
    } else {
        size_upto(irs, i - 1) + ir_size(irs[i - 1])
    }
}

pub proof fn lemma_size_upto_mono(irs: Seq<Ir>, i: int, j: int)
    requires
        i <= j,
    ensures
        size_upto(irs, i) <= size_upto(irs, j),
    decreases j - i,
{
    if i < j {
        lemma_size_upto_mono(irs, i, j - 1);
    }
}

/// The state of code generation: the bytes emitted so far, the stack
/// of pending loop targets (each the position just past a placeholder
/// operand), and whether an unmatched end-loop has been seen.
pub ghost struct EmitState {
    pub code: Seq<u8>,
    pub stack: Seq<int>,
    pub err: bool,
}

/// The state before any operation is emitted: one filler byte, so the
/// machine's first decode step can use the same read-then-advance path
/// as every later one.
pub open spec fn emit_init() -> EmitState {
    EmitState { code: seq![0u8], stack: Seq::empty(), err: false }
}

/// Code generation for one operation.
pub open spec fn emit1(st: EmitState, ir: Ir) -> EmitState {
    if st.err {
        st
    } else {
        match ir {
            Ir::Inc => EmitState {
                code: st.code + seq![spec_ordinal(Opcode::Inc)],
                stack: st.stack,
                err: false,
            },
            Ir::Dec => EmitState {
                code: st.code + seq![spec_ordinal(Opcode::Dec)],
                stack: st.stack,
                err: false,
            },
            Ir::IncTape => EmitState {
                code: st.code + seq![spec_ordinal(Opcode::IncTape)],
                stack: st.stack,
                err: false,
            },
            Ir::DecTape => EmitState {
                code: st.code + seq![spec_ordinal(Opcode::DecTape)],
                stack: st.stack,
                err: false,
            },
            Ir::Output => EmitState {
                code: st.code + seq![spec_ordinal(Opcode::OutputByte)],
                stack: st.stack,
                err: false,
            },
            Ir::Input => EmitState {
                code: st.code + seq![spec_ordinal(Opcode::InputByte)],
                stack: st.stack,
                err: false,
            },
            Ir::Sub(n) => EmitState {
                code: st.code + seq![spec_ordinal(Opcode::SubImmediate), n as u8],
                stack: st.stack,
                err: false,
            },
            Ir::MoveShort(n) => EmitState {
                code: st.code + seq![spec_ordinal(Opcode::MoveTapeShort), n as u8],
                stack: st.stack,
                err: false,
            },
            Ir::MoveLong(n) => EmitState {
                code: st.code + seq![spec_ordinal(Opcode::MoveTapeLong)] + be_bytes(
                    n as u16 as nat,
                    2,
                ),
                stack: st.stack,
                err: false,
            },
            Ir::Clear => EmitState {
                code: st.code + seq![spec_ordinal(Opcode::SetCell), 0u8],
                stack: st.stack,
                err: false,
            },
            Ir::Start => EmitState {
                code: st.code + seq![spec_ordinal(Opcode::JumpAbsoluteIfZero), 0u8, 0u8, 0u8, 0u8],
                stack: st.stack.push(st.code.len() + 5int),
                err: false,
            },
            Ir::End => {
                if st.stack.len() == 0 {
                    EmitState { code: st.code, stack: st.stack, err: true }
                } else {
                    let t = st.stack.last();
                    let code1 = st.code + seq![spec_ordinal(Opcode::JumpAbsoluteIfNonzero)]
                        + be_bytes(t as nat, 4);
                    let here = code1.len() as int;
                    let code2 = code1.subrange(0, t - 4) + be_bytes(here as nat, 4)
                        + code1.subrange(t, code1.len() as int);
                    EmitState { code: code2, stack: st.stack.drop_last(), err: false }
                }
            },
        }
    }
}

/// Code generation over the first `i` operations.
pub open spec fn emit_upto(irs: Seq<Ir>, i: int) -> EmitState
    decreases i,
{
    if i <= 0 {
        emit_init()
    } else {
        emit1(emit_upto(irs, i - 1), irs[i - 1])
    }
}

/// An unmatched end-loop poisons every later state.
pub proof fn lemma_emit_err_sticky(irs: Seq<Ir>, i: int, j: int)
    requires
        0 <= i <= j,
        emit_upto(irs, i).err,
    ensures
        emit_upto(irs, j).err,
    decreases j - i,
{
    if i < j {
        lemma_emit_err_sticky(irs, i, j - 1);
    }
}

/// The total of `ir_size` over the whole list, stopping early once it
/// has passed the 32-bit address space: the exact figure then no
/// longer matters, only that the program is too large.
pub fn total_size(irs: &Vec<Ir>) -> (r: u64)
    ensures
        size_upto(irs@, irs@.len() as int) <= 0xFFFF_FFFE ==> r == size_upto(
            irs@,
            irs@.len() as int,
        ),
        (r > 0xFFFF_FFFE) == (size_upto(irs@, irs@.len() as int) > 0xFFFF_FFFE),
{
    let mut sum: u64 = 0;
    let mut i: usize = 0;
    while i < irs.len()
        invariant
            i <= irs@.len(),
            sum == size_upto(irs@, i as int),
            sum <= 0x1_0000_0004,
        decreases irs@.len() - i,
    {
        let s: u64 = match irs[i] {
            Ir::Inc | Ir::Dec | Ir::IncTape | Ir::DecTape | Ir::Output | Ir::Input => 1,
            Ir::Sub(_) | Ir::MoveShort(_) | Ir::Clear => 2,
            Ir::MoveLong(_) => 3,
            Ir::Start | Ir::End => 5,
        };
        sum = sum + s;
        i += 1;
        if sum > 0x1_0000_0000 {
            proof {
                lemma_size_upto_mono(irs@, i as int, irs@.len() as int);
            }
            return sum;
        }
    }
    sum
}

/// The whole compilation, from source text to bytecode.
pub open spec fn compile_bf_spec(src: Seq<char>) -> Result<Seq<u8>, CompileError> {
    let irs = idiom_spec(fold_spec(lex_spec(src)));
    if 2 + size_upto(irs, irs.len() as int) > 0x1_0000_0000 {
        Err(CompileError::CodeTooLarge)
    } else {
        let st = emit_upto(irs, irs.len() as int);
        if st.err || st.stack.len() != 0 {
            Err(CompileError::UnmatchedBracket)
        } else {
            Ok(st.code.push(spec_ordinal(Opcode::HaltAlways)))
        }
    }
}

/// A bracket token: `true` for a begin-loop, `false` for an end-loop.
pub open spec fn opt_brk(o: Option<bool>) -> Seq<bool> {
    match o {
        Some(b) => seq![b],
        None => Seq::empty(),
    }
}

/// The bracket a source character stands for, if any.
pub open spec fn brk_of_char(c: char) -> Option<bool> {
    if c == '[' {
        Some(true)
    } else if c == ']' {
        Some(false)
    } else {
        None
    }
}

/// The bracket a primitive opcode stands for, if any.
pub open spec fn brk_of_op(op: Opcode) -> Option<bool> {
    if op == Opcode::StartLoop {
        Some(true)
    } else if op == Opcode::EndLoop {
        Some(false)
    } else {
        None
    }
}

/// The bracket an abstract operation stands for, if any.
pub open spec fn brk_of_ir(ir: Ir) -> Option<bool> {
    match ir {
        Ir::Start => Some(true),
        Ir::End => Some(false),
        _ => None,
    }
}

/// The sequence of bracket tokens a sequence carries, in order.
pub open spec fn brackets<T>(s: Seq<T>, f: spec_fn(T) -> Option<bool>) -> Seq<bool>
    decreases s.len(),
{
    if s.len() == 0 {
        Seq::empty()
    } else {
        brackets(s.drop_last(), f) + opt_brk(f(s.last()))
    }
}

/// The net nesting depth a token sequence ends on.
pub open spec fn depth(bs: Seq<bool>) -> int
    decreases bs.len(),
{
    if bs.len() == 0 {
        0
    } else {
        depth(bs.drop_last()) + (if bs.last() {
            1int
        } else {
            -1int
        })
    }
}

/// Whether, starting from depth `d`, no prefix of the token sequence
/// drives the depth below zero.
pub open spec fn never_falls(bs: Seq<bool>, d: int) -> bool
    decreases bs.len(),
{
    if bs.len() == 0 {
        true
    } else {
        never_falls(bs.drop_last(), d) && d + depth(bs) >= 0
    }
}

/// A balanced token sequence: no prefix closes more loops than were
/// opened, and every opened loop is closed.
pub open spec fn balanced(bs: Seq<bool>) -> bool {
    never_falls(bs, 0) && depth(bs) == 0
}

/// The bracket tokens of a source program.
pub open spec fn source_brackets(src: Seq<char>) -> Seq<bool> {
    brackets(src, |c: char| brk_of_char(c))
}

/// The operations the whole front end hands to code generation.
pub open spec fn compiled_irs(src: Seq<char>) -> Seq<Ir> {
    idiom_spec(fold_spec(lex_spec(src)))
}

/// Whether the emitted program fits the 32-bit address space.
pub open spec fn fits_address_space(src: Seq<char>) -> bool {
    2 + size_upto(compiled_irs(src), compiled_irs(src).len() as int) <= 0x1_0000_0000
}

proof fn lemma_brackets_singleton<T>(x: T, f: spec_fn(T) -> Option<bool>)
    ensures
        brackets(seq![x], f) == opt_brk(f(x)),
{
    let s = seq![x];
    assert(s.drop_last() =~= Seq::<T>::empty());
    assert(s.last() == x);
    assert(brackets(Seq::<T>::empty(), f) == Seq::<bool>::empty());
    assert(Seq::<bool>::empty() + opt_brk(f(x)) =~= opt_brk(f(x)));
}

proof fn lemma_token_singleton(b: bool)
    ensures
        depth(seq![b]) == (if b {
            1int
        } else {
            -1int
        }),
        forall|d: int|
            #![trigger never_falls(seq![b], d)]
            never_falls(seq![b], d) == (d + (if b {
                1int
            } else {
                -1int
            }) >= 0),
{
    let s = seq![b];
    assert(s.drop_last() =~= Seq::<bool>::empty());
    assert(s.last() == b);
    assert(depth(Seq::<bool>::empty()) == 0);
    assert forall|d: int| never_falls(s, d) == (d + (if b {
        1int
    } else {
        -1int
    }) >= 0) by {
        assert(never_falls(Seq::<bool>::empty(), d));
    }
}

proof fn lemma_brackets_add<T>(a: Seq<T>, b: Seq<T>, f: spec_fn(T) -> Option<bool>)
    ensures
        brackets(a + b, f) == brackets(a, f) + brackets(b, f),
    decreases b.len(),
{
    if b.len() == 0 {
        assert(a + b =~= a);
        assert(brackets(a, f) + brackets(b, f) =~= brackets(a, f));
    } else {
        assert((a + b).drop_last() =~= a + b.drop_last());
        assert((a + b).last() == b.last());
        lemma_brackets_add(a, b.drop_last(), f);
        assert(brackets(a, f) + brackets(b.drop_last(), f) + opt_brk(f(b.last())) =~= brackets(
            a,
            f,
        ) + (brackets(b.drop_last(), f) + opt_brk(f(b.last()))));
    }
}

proof fn lemma_depth_add(a: Seq<bool>, b: Seq<bool>)
    ensures
        depth(a + b) == depth(a) + depth(b),
    decreases b.len(),
{
    if b.len() == 0 {
        assert(a + b =~= a);
    } else {
        assert((a + b).drop_last() =~= a + b.drop_last());
        lemma_depth_add(a, b.drop_last());
    }
}

proof fn lemma_never_falls_add(a: Seq<bool>, b: Seq<bool>, d: int)
    ensures
        never_falls(a + b, d) == (never_falls(a, d) && never_falls(b, d + depth(a))),
    decreases b.len(),
{
    if b.len() == 0 {
        assert(a + b =~= a);
    } else {
        assert((a + b).drop_last() =~= a + b.drop_last());
        lemma_never_falls_add(a, b.drop_last(), d);
        lemma_depth_add(a, b);
    }
}

/// A sequence without brackets projects to no tokens.
proof fn lemma_brackets_none<T>(s: Seq<T>, f: spec_fn(T) -> Option<bool>)
    requires
        forall|k: int| 0 <= k < s.len() ==> f(#[trigger] s[k]) == None::<bool>,
    ensures
        brackets(s, f) == Seq::<bool>::empty(),
    decreases s.len(),
{
    if s.len() > 0 {
        lemma_brackets_none(s.drop_last(), f);
        assert(brackets(s.drop_last(), f) + opt_brk(f(s.last())) =~= Seq::<bool>::empty());
    }
}

/// The scan only consumes run opcodes.
proof fn lemma_run_scan_consumed(
    ops: Seq<Opcode>,
    j: int,
    count: int,
    plus: Opcode,
    minus: Opcode,
    cap: int,
)
    requires
        0 <= j < ops.len(),
    ensures
        forall|k: int|
            j < k <= run_scan(ops, j, count, plus, minus, cap).1 ==> (#[trigger] ops[k] == plus
                || ops[k] == minus),
    decreases ops.len() - j,
{
    if j + 1 < ops.len() && (ops[j + 1] == plus || ops[j + 1] == minus) && !(count >= cap || count
        <= -cap) {
        if ops[j + 1] == plus {
            lemma_run_scan_consumed(ops, j + 1, count + 1, plus, minus, cap);
        } else {
            lemma_run_scan_consumed(ops, j + 1, count - 1, plus, minus, cap);
        }
    }
}

/// Lexing keeps the bracket structure of the source text.
proof fn lemma_lex_brackets(s: Seq<char>)
    ensures
        brackets(lex_spec(s), |op: Opcode| brk_of_op(op)) == source_brackets(s),
    decreases s.len(),
{
    let fo = |op: Opcode| brk_of_op(op);
    let fc = |c: char| brk_of_char(c);
    if s.len() == 0 {
    } else {
        lemma_lex_brackets(s.drop_last());
        let tail = match char_op(s.last()) {
            Some(op) => seq![op],
            None => Seq::<Opcode>::empty(),
        };
        lemma_brackets_add(lex_spec(s.drop_last()), tail, fo);
        assert(brackets(tail, fo) =~= opt_brk(brk_of_char(s.last()))) by {
            match char_op(s.last()) {
                Some(op) => {
                    lemma_brackets_singleton(op, fo);
                },
                None => {},
            }
        }
        assert(brackets(s, fc) == brackets(s.drop_last(), fc) + opt_brk(fc(s.last())));
        assert(brackets(lex_spec(s), fo) =~= brackets(s, fc));
    }
}

/// Run folding keeps the bracket structure.
proof fn lemma_fold_brackets(ops: Seq<Opcode>, i: int)
    requires
        0 <= i <= ops.len(),
    ensures
        brackets(fold_from(ops, i), |ir: Ir| brk_of_ir(ir)) == brackets(
            ops.subrange(i, ops.len() as int),
            |op: Opcode| brk_of_op(op),
        ),
    decreases ops.len() - i,
{
    let fi = |ir: Ir| brk_of_ir(ir);
    let fo = |op: Opcode| brk_of_op(op);
    if i >= ops.len() {
        assert(ops.subrange(i, ops.len() as int) =~= Seq::<Opcode>::empty());
    } else {
        let op = ops[i];
        let rest = ops.subrange(i, ops.len() as int);
        if op == Opcode::Inc || op == Opcode::Dec || op == Opcode::IncTape || op
            == Opcode::DecTape {
            let arith = op == Opcode::Inc || op == Opcode::Dec;
            let plus = if arith {
                Opcode::Inc
            } else {
                Opcode::IncTape
            };
            let minus = if arith {
                Opcode::Dec
            } else {
                Opcode::DecTape
            };
            let cap: int = if arith {
                127
            } else {
                32767
            };
            let c0: int = if op == plus {
                1
            } else {
                -1
            };
            let (count, j) = run_scan(ops, i, c0, plus, minus, cap);
            lemma_run_scan_bounds(ops, i, c0, plus, minus, cap);
            lemma_run_scan_consumed(ops, i, c0, plus, minus, cap);
            let seg = ops.subrange(i, j + 1);
            let after = ops.subrange(j + 1, ops.len() as int);
            assert(rest =~= seg + after);
            lemma_brackets_add(seg, after, fo);
            assert(forall|k: int| 0 <= k < seg.len() ==> fo(#[trigger] seg[k]) == None::<bool>);
            lemma_brackets_none(seg, fo);
            let enc = if arith {
                encode_add(count)
            } else {
                encode_move(count)
            };
            assert(forall|k: int| 0 <= k < enc.len() ==> fi(#[trigger] enc[k]) == None::<bool>);
            lemma_brackets_none(enc, fi);
            lemma_brackets_add(enc, fold_from(ops, j + 1), fi);
            lemma_fold_brackets(ops, j + 1);
            assert(fold_from(ops, i) == enc + fold_from(ops, j + 1));
            assert(brackets(fold_from(ops, i), fi) =~= brackets(rest, fo));
        } else {
            let one = seq![Ir::of_direct(op)];
            lemma_brackets_add(one, fold_from(ops, i + 1), fi);
            lemma_fold_brackets(ops, i + 1);
            let first = seq![op];
            let after = ops.subrange(i + 1, ops.len() as int);
            assert(rest =~= first + after);
            lemma_brackets_add(first, after, fo);
            lemma_brackets_singleton(Ir::of_direct(op), fi);
            lemma_brackets_singleton(op, fo);
            assert(brackets(one, fi) =~= opt_brk(fo(op)));
            assert(brackets(first, fo) =~= opt_brk(fo(op)));
            assert(brackets(fold_from(ops, i), fi) =~= brackets(rest, fo));
        }
    }
}

/// The idiom pass keeps the bracket discipline: it only replaces a
/// matched, adjacent begin-toggle-end triple by a bracketless clear.
proof fn lemma_idiom_brackets(irs: Seq<Ir>, d: int)
    requires
        d >= 0,
    ensures
        never_falls(brackets(idiom_spec(irs), |ir: Ir| brk_of_ir(ir)), d) == never_falls(
            brackets(irs, |ir: Ir| brk_of_ir(ir)),
            d,
        ),
        depth(brackets(idiom_spec(irs), |ir: Ir| brk_of_ir(ir))) == depth(
            brackets(irs, |ir: Ir| brk_of_ir(ir)),
        ),
    decreases irs.len(),
{
    let fi = |ir: Ir| brk_of_ir(ir);
    if irs.len() == 0 {
    } else if irs.len() >= 3 && irs[0] == Ir::Start && (irs[1] == Ir::Inc || irs[1] == Ir::Dec)
        && irs[2] == Ir::End {
        let rest = irs.skip(3);
        let first = irs.subrange(0, 3);
        assert(irs =~= first + rest);
        lemma_brackets_add(first, rest, fi);
        assert(brackets(first, fi) =~= seq![true, false]) by {
            assert(first =~= irs.subrange(0, 2) + seq![irs[2]]);
            assert(irs.subrange(0, 2) =~= irs.subrange(0, 1) + seq![irs[1]]);
            assert(irs.subrange(0, 1) =~= seq![irs[0]]);
            lemma_brackets_singleton(irs[0], fi);
            lemma_brackets_singleton(irs[1], fi);
            lemma_brackets_singleton(irs[2], fi);
            lemma_brackets_add(irs.subrange(0, 1), seq![irs[1]], fi);
            lemma_brackets_add(irs.subrange(0, 2), seq![irs[2]], fi);
            assert(brackets(irs.subrange(0, 2), fi) =~= seq![true]);
        }
        lemma_idiom_brackets(rest, d);
        let pair = seq![true, false];
        let bs_rest = brackets(rest, fi);
        lemma_token_singleton(true);
        lemma_token_singleton(false);
        assert(pair =~= seq![true] + seq![false]);
        lemma_depth_add(seq![true], seq![false]);
        lemma_never_falls_add(seq![true], seq![false], d);
        assert(depth(pair) == 0);
        assert(never_falls(pair, d));
        lemma_never_falls_add(pair, bs_rest, d);
        lemma_depth_add(pair, bs_rest);
        let out_rest = brackets(idiom_spec(rest), fi);
        assert(brackets(idiom_spec(irs), fi) =~= out_rest) by {
            assert(idiom_spec(irs) == seq![Ir::Clear] + idiom_spec(rest));
            lemma_brackets_add(seq![Ir::Clear], idiom_spec(rest), fi);
            lemma_brackets_singleton(Ir::Clear, fi);
            assert(brackets(seq![Ir::Clear], fi) =~= Seq::<bool>::empty());
            assert(Seq::<bool>::empty() + out_rest =~= out_rest);
        }
        assert(brackets(irs, fi) =~= pair + bs_rest);
    } else {
        let rest = irs.skip(1);
        let first = seq![irs[0]];
        assert(irs =~= first + rest);
        lemma_brackets_add(first, rest, fi);
        lemma_brackets_singleton(irs[0], fi);
        assert(brackets(first, fi) =~= opt_brk(fi(irs[0])));
        let bs_rest = brackets(rest, fi);
        let out_rest = brackets(idiom_spec(rest), fi);
        assert(brackets(idiom_spec(irs), fi) =~= brackets(first, fi) + out_rest) by {
            assert(idiom_spec(irs) == first + idiom_spec(rest));
            lemma_brackets_add(first, idiom_spec(rest), fi);
        }
        lemma_never_falls_add(brackets(first, fi), bs_rest, d);
        lemma_never_falls_add(brackets(first, fi), out_rest, d);
        lemma_depth_add(brackets(first, fi), bs_rest);
        lemma_depth_add(brackets(first, fi), out_rest);
        match brk_of_ir(irs[0]) {
            None => {
                assert(brackets(first, fi) =~= Seq::<bool>::empty());
                lemma_idiom_brackets(rest, d);
            },
            Some(b) => {
                assert(brackets(first, fi) =~= seq![b]);
                lemma_token_singleton(b);
                if b {
                    assert(depth(seq![b]) == 1);
                    lemma_idiom_brackets(rest, d + 1);
                } else {
                    assert(depth(seq![b]) == -1);
                    if d >= 1 {
                        lemma_idiom_brackets(rest, d - 1);
                    } else {
                        lemma_idiom_brackets(rest, 0);
                        assert(!never_falls(seq![b] + bs_rest, d)) by {
                            lemma_never_falls_add(seq![b], bs_rest, d);
                        }
                        assert(!never_falls(seq![b] + out_rest, d)) by {
                            lemma_never_falls_add(seq![b], out_rest, d);
                        }
                    }
                }
            },
        }
        assert(brackets(irs, fi) =~= brackets(first, fi) + bs_rest);
    }
}

/// Code generation tracks the bracket discipline: while no prefix of
/// the brackets has fallen below depth zero, the pending-loop stack is
/// exactly as deep as the brackets are nested and no error has been
/// seen; once a prefix falls below zero, the error is set.
proof fn lemma_emit_balance(irs: Seq<Ir>, i: int)
    requires
        0 <= i <= irs.len(),
    ensures
        ({
            let bs = brackets(irs.subrange(0, i), |ir: Ir| brk_of_ir(ir));
            let st = emit_upto(irs, i);
            if never_falls(bs, 0) {
                !st.err && st.stack.len() == depth(bs)
            } else {
                st.err
            }
        }),
    decreases i,
{
    let fi = |ir: Ir| brk_of_ir(ir);
    if i == 0 {
        assert(irs.subrange(0, 0) =~= Seq::<Ir>::empty());
        assert(brackets(Seq::<Ir>::empty(), fi) == Seq::<bool>::empty());
        assert(never_falls(Seq::<bool>::empty(), 0));
        assert(depth(Seq::<bool>::empty()) == 0);
    } else {
        lemma_emit_balance(irs, i - 1);
        let prev = irs.subrange(0, i - 1);
        let cur = irs.subrange(0, i);
        assert(cur.drop_last() =~= prev);
        assert(cur.last() == irs[i - 1]);
        assert(brackets(cur, fi) == brackets(prev, fi) + opt_brk(fi(irs[i - 1])));
        let bp = brackets(prev, fi);
        let bc = brackets(cur, fi);
        lemma_never_falls_add(bp, opt_brk(fi(irs[i - 1])), 0);
        lemma_depth_add(bp, opt_brk(fi(irs[i - 1])));
        assert(emit_upto(irs, i) == emit1(emit_upto(irs, i - 1), irs[i - 1]));
        match irs[i - 1] {
            Ir::Start => {
                lemma_token_singleton(true);
                assert(bc =~= bp + seq![true]);
            },
            Ir::End => {
                lemma_token_singleton(false);
                assert(bc =~= bp + seq![false]);
            },
            _ => {
                assert(opt_brk(fi(irs[i - 1])) =~= Seq::<bool>::empty());
                assert(bc =~= bp);
                assert(never_falls(Seq::<bool>::empty(), 0 + depth(bp)));
            },
        }
    }
}

/// Compilation succeeds on every balanced source program that fits
/// the address space, and the bracket structure is what decides it.
pub proof fn lemma_compile_verdict(src: Seq<char>)
    ensures
        balanced(source_brackets(src)) && fits_address_space(src) ==> compile_bf_spec(src) matches
            Ok(_),
        !balanced(source_brackets(src)) && fits_address_space(src) ==> compile_bf_spec(src) == Err::<
            Seq<u8>,
            CompileError,
        >(CompileError::UnmatchedBracket),
        !fits_address_space(src) ==> compile_bf_spec(src) == Err::<Seq<u8>, CompileError>(
            CompileError::CodeTooLarge,
        ),
{
    let irs = compiled_irs(src);
    let fi = |ir: Ir| brk_of_ir(ir);
    lemma_lex_brackets(src);
    lemma_fold_brackets(lex_spec(src), 0);
    assert(lex_spec(src).subrange(0, lex_spec(src).len() as int) =~= lex_spec(src));
    lemma_idiom_brackets(fold_spec(lex_spec(src)), 0);
    lemma_emit_balance(irs, irs.len() as int);
    assert(irs.subrange(0, irs.len() as int) =~= irs);
    assert(never_falls(brackets(irs, fi), 0) == never_falls(source_brackets(src), 0));
    assert(depth(brackets(irs, fi)) == depth(source_brackets(src)));
}

/// For every source program with balanced brackets, compilation
/// succeeds.  The one proviso is the compiler's own address-space
/// rule: a program whose emitted form would not fit 32-bit addressing
/// is not compiled but rejected as too large, whatever its brackets,
/// so the success claim holds exactly of the programs that fit.
pub proof fn theorem_balanced_compiles(src: Seq<char>)
    ensures
        balanced(source_brackets(src)) && fits_address_space(src) ==> compile_bf_spec(src) matches
            Ok(_),
        !fits_address_space(src) ==> compile_bf_spec(src) == Err::<Seq<u8>, CompileError>(
            CompileError::CodeTooLarge,
        ),
{
    lemma_compile_verdict(src);
}

/// For every source program with unbalanced brackets — an extra
/// end-loop or an unclosed begin-loop — compilation fails
/// deterministically, before any bytecode is produced.
pub proof fn theorem_unbalanced_rejected(src: Seq<char>)
    ensures
        !balanced(source_brackets(src)) ==> !(compile_bf_spec(src) matches Ok(_)),
        !balanced(source_brackets(src)) && fits_address_space(src) ==> compile_bf_spec(src)
            == Err::<Seq<u8>, CompileError>(CompileError::UnmatchedBracket),
{
    lemma_compile_verdict(src);
}

/// Whether the decode chain that starts at `i` reaches position `p`
/// exactly: stepping from each opcode byte over its declared encoded
/// width, never past `p`.
pub open spec fn decodes_to(code: Seq<u8>, i: int, p: int) -> bool
    decreases p - i,
{
    if i >= p {
        i == p
    } else if i >= code.len() {
        false
    } else if i + crate::command::spec_len_of_byte(code[i]) <= p {
        decodes_to(code, i + crate::command::spec_len_of_byte(code[i]) as int, p)
    } else {
        false
    }
}

/// An instruction boundary: a position the decode chain from the
/// first instruction reaches.  Position 0 is the filler byte; decoding
/// proper starts at 1.
pub open spec fn boundary(code: Seq<u8>, p: int) -> bool {
    decodes_to(code, 1, p)
}

/// The opcode bytes that carry an absolute jump.
pub open spec fn is_jump(b: u8) -> bool {
    b == spec_ordinal(Opcode::JumpAbsoluteIfZero) || b == spec_ordinal(
        Opcode::JumpAbsoluteIfNonzero,
    )
}

/// The decode chain composes.
proof fn lemma_chain_trans(code: Seq<u8>, i: int, j: int, k: int)
    requires
        decodes_to(code, i, j),
        decodes_to(code, j, k),
    ensures
        decodes_to(code, i, k),
    decreases j - i,
{
    if i < j {
        lemma_chain_trans(code, i + crate::command::spec_len_of_byte(code[i]) as int, j, k);
    }
}

/// Two positions on one chain are chained to each other.
proof fn lemma_chain_linear(code: Seq<u8>, i: int, p: int, q: int)
    requires
        decodes_to(code, i, p),
        decodes_to(code, i, q),
        p <= q,
    ensures
        decodes_to(code, p, q),
    decreases p - i,
{
    if i < p {
        lemma_chain_linear(code, i + crate::command::spec_len_of_byte(code[i]) as int, p, q);
    }
}

/// Appending bytes never breaks an existing chain.
proof fn lemma_chain_append(code: Seq<u8>, suffix: Seq<u8>, i: int, p: int)
    requires
        decodes_to(code, i, p),
        p <= code.len(),
        0 <= i,
    ensures
        decodes_to(code + suffix, i, p),
    decreases p - i,
{
    if i < p {
        lemma_chain_append(code, suffix, i + crate::command::spec_len_of_byte(code[i]) as int, p);
    }
}

/// A chain that ends inside the shorter prefix already holds there.
proof fn lemma_chain_shrink(code: Seq<u8>, suffix: Seq<u8>, i: int, p: int)
    requires
        decodes_to(code + suffix, i, p),
        p <= code.len(),
        0 <= i,
    ensures
        decodes_to(code, i, p),
    decreases p - i,
{
    if i < p {
        lemma_chain_shrink(
            code,
            suffix,
            i + crate::command::spec_len_of_byte((code + suffix)[i]) as int,
            p,
        );
    }
}

/// A chain survives byte changes that avoid every position on it.
proof fn lemma_chain_congruence(c1: Seq<u8>, c2: Seq<u8>, i: int, p: int)
    requires
        decodes_to(c1, i, p),
        c1.len() == c2.len(),
        forall|q: int| #[trigger] decodes_to(c1, i, q) && q < p ==> c2[q] == c1[q],
    ensures
        decodes_to(c2, i, p),
    decreases p - i,
{
    if i < p {
        assert(decodes_to(c1, i, i));
        let i2 = i + crate::command::spec_len_of_byte(c1[i]) as int;
        assert(decodes_to(c1, i2, i2));
        assert(decodes_to(c1, i, i2));
        assert forall|q: int| #[trigger] decodes_to(c1, i2, q) && q < p implies c2[q] == c1[q] by {
            lemma_chain_trans(c1, i, i2, q);
        }
        lemma_chain_congruence(c1, c2, i2, p);
    }
}

/// A jump instruction at boundary `q` is accounted for: either it is
/// the pending begin-loop whose placeholder the matching end-loop
/// will patch, or its operand already holds a target on the decode
/// chain.
pub open spec fn jump_ok(st: EmitState, q: int) -> bool {
    ||| (st.code[q] == spec_ordinal(Opcode::JumpAbsoluteIfZero) && st.stack.contains(q + 5))
    ||| {
        let t = be_value(st.code.subrange(q + 1, q + 5)) as int;
        &&& 1 <= t <= st.code.len()
        &&& boundary(st.code, t)
    }
}

/// What code generation maintains: the emitted bytes decode cleanly
/// from position 1 to the end, every pending loop target sits just
/// past a begin-loop placeholder on the chain, the pending targets
/// grow strictly, and every jump emitted so far is accounted for.
pub open spec fn emit_wf(st: EmitState) -> bool {
    &&& st.code.len() >= 1
    &&& st.code[0] == 0
    &&& decodes_to(st.code, 1, st.code.len() as int)
    &&& (forall|k: int| 0 <= k < st.stack.len() ==> 6 <= #[trigger] st.stack[k] <= st.code.len())
    &&& (forall|k: int|
        0 <= k < st.stack.len() ==> boundary(st.code, #[trigger] st.stack[k] - 5))
    &&& (forall|k: int|
        0 <= k < st.stack.len() ==> st.code[#[trigger] st.stack[k] - 5] == spec_ordinal(
            Opcode::JumpAbsoluteIfZero,
        ))
    &&& (forall|k1: int, k2: int|
        0 <= k1 < k2 < st.stack.len() ==> #[trigger] st.stack[k1] < #[trigger] st.stack[k2])
    &&& (forall|q: int|
        #[trigger] boundary(st.code, q) && 0 <= q < st.code.len() && is_jump(st.code[q])
            ==> jump_ok(st, q))
}

/// A boundary of code extended by one instruction lies in the old
/// code or at its old end.
proof fn lemma_boundary_of_extension(code: Seq<u8>, bytes: Seq<u8>, q: int)
    requires
        decodes_to(code, 1, code.len() as int),
        code.len() >= 1,
        bytes.len() >= 1,
        crate::command::spec_len_of_byte(bytes[0]) == bytes.len(),
        boundary(code + bytes, q),
        q < (code + bytes).len(),
    ensures
        q <= code.len(),
        q < code.len() ==> boundary(code, q),
        boundary(code + bytes, code.len() as int),
    decreases 0int,
{
    let c2 = code + bytes;
    let l = code.len() as int;
    lemma_chain_append(code, bytes, 1, l);
    assert(boundary(c2, l));
    if q > l {
        lemma_chain_linear(c2, 1, l, q);
        assert(decodes_to(c2, l, q));
        assert(c2[l] == bytes[0]);
        assert(false);
    }
    if q < l {
        lemma_chain_shrink(code, bytes, 1, q);
    }
}

/// Appending one bracketless instruction preserves the invariant.
proof fn lemma_append_instruction(st: EmitState, bytes: Seq<u8>)
    requires
        emit_wf(st),
        bytes.len() >= 1,
        crate::command::spec_len_of_byte(bytes[0]) == bytes.len(),
        !is_jump(bytes[0]),
    ensures
        emit_wf(EmitState { code: st.code + bytes, stack: st.stack, err: st.err }),
{
    let st2 = EmitState { code: st.code + bytes, stack: st.stack, err: st.err };
    let c2 = st.code + bytes;
    let l = st.code.len() as int;
    let l2 = c2.len() as int;
    lemma_chain_append(st.code, bytes, 1, l);
    assert(decodes_to(c2, l2, l2));
    assert(decodes_to(c2, l, l2));
    lemma_chain_trans(c2, 1, l, l2);
    assert forall|k: int| 0 <= k < st2.stack.len() implies boundary(
        st2.code,
        #[trigger] st2.stack[k] - 5,
    ) by {
        lemma_chain_append(st.code, bytes, 1, st.stack[k] - 5);
    }
    assert forall|q: int|
        #[trigger] boundary(st2.code, q) && 0 <= q < st2.code.len() && is_jump(st2.code[q]) implies
        jump_ok(st2, q) by {
        lemma_boundary_of_extension(st.code, bytes, q);
        if q < l {
            assert(boundary(st.code, q));
            assert(st.code[q] == c2[q]);
            assert(jump_ok(st, q));
            if !(st.code[q] == spec_ordinal(Opcode::JumpAbsoluteIfZero) && st.stack.contains(
                q + 5,
            )) {
                let t = be_value(st.code.subrange(q + 1, q + 5)) as int;
                assert(q + 5 <= l) by {
                    lemma_chain_linear(st.code, 1, q, l);
                }
                assert(c2.subrange(q + 1, q + 5) =~= st.code.subrange(q + 1, q + 5));
                lemma_chain_append(st.code, bytes, 1, t);
                assert(boundary(c2, t));
            }
        }
    }
}

/// Emitting a begin-loop preserves the invariant: the new jump is the
/// pending one.
proof fn lemma_emit_start_wf(st: EmitState)
    requires
        emit_wf(st),
    ensures
        emit_wf(emit1(EmitState { code: st.code, stack: st.stack, err: false }, Ir::Start)),
{
    let st0 = EmitState { code: st.code, stack: st.stack, err: false };
    let st2 = emit1(st0, Ir::Start);
    let bytes = seq![13u8, 0u8, 0u8, 0u8, 0u8];
    assert(st2.code =~= st.code + bytes);
    let c2 = st2.code;
    let l = st.code.len() as int;
    let l2 = c2.len() as int;
    lemma_chain_append(st.code, bytes, 1, l);
    assert(decodes_to(c2, l2, l2));
    assert(c2[l] == 13);
    assert(decodes_to(c2, l, l2));
    lemma_chain_trans(c2, 1, l, l2);
    assert forall|k: int| 0 <= k < st2.stack.len() implies boundary(
        st2.code,
        #[trigger] st2.stack[k] - 5,
    ) by {
        if k < st.stack.len() {
            assert(st2.stack[k] == st.stack[k]);
            lemma_chain_append(st.code, bytes, 1, st.stack[k] - 5);
        } else {
            assert(st2.stack[k] == l + 5);
        }
    }
    assert forall|k1: int, k2: int| 0 <= k1 < k2 < st2.stack.len() implies #[trigger] st2.stack[k1]
        < #[trigger] st2.stack[k2] by {}
    assert forall|q: int|
        #[trigger] boundary(st2.code, q) && 0 <= q < st2.code.len() && is_jump(st2.code[q]) implies
        jump_ok(st2, q) by {
        lemma_boundary_of_extension(st.code, bytes, q);
        if q == l {
            assert(st2.stack.last() == l + 5);
            assert(st2.stack.contains(q + 5));
        } else if q < l {
            assert(boundary(st.code, q));
            assert(st.code[q] == c2[q]);
            assert(jump_ok(st, q));
            if st.code[q] == spec_ordinal(Opcode::JumpAbsoluteIfZero) && st.stack.contains(q + 5) {
                let i = choose|i: int| 0 <= i < st.stack.len() && st.stack[i] == q + 5;
                assert(st2.stack[i] == q + 5);
                assert(st2.stack.contains(q + 5));
            } else {
                let t = be_value(st.code.subrange(q + 1, q + 5)) as int;
                assert(q + 5 <= l) by {
                    lemma_chain_linear(st.code, 1, q, l);
                }
                assert(c2.subrange(q + 1, q + 5) =~= st.code.subrange(q + 1, q + 5));
                lemma_chain_append(st.code, bytes, 1, t);
            }
        }
    }
}

/// Emitting an end-loop preserves the invariant: the back-jump's
/// target is the pending position, and the patched placeholder now
/// points just past the end-loop.
proof fn lemma_emit_end_wf(st: EmitState)
    requires
        emit_wf(st),
        st.stack.len() > 0,
        st.code.len() + 5 < 0x1_0000_0000,
    ensures
        emit_wf(emit1(EmitState { code: st.code, stack: st.stack, err: false }, Ir::End)),
        emit1(
            EmitState { code: st.code, stack: st.stack, err: false },
            Ir::End,
        ).code.len() == st.code.len() + 5,
{
    let st0 = EmitState { code: st.code, stack: st.stack, err: false };
    let st2 = emit1(st0, Ir::End);
    let l = st.code.len() as int;
    let l1 = l + 5;
    let t = st.stack.last();
    assert(st.stack.contains(t));
    assert(6 <= t <= l);
    assert(boundary(st.code, t - 5));
    assert(st.code[t - 5] == 13);
    assert(decodes_to(st.code, t, t));
    assert(decodes_to(st.code, t - 5, t));
    lemma_chain_trans(st.code, 1, t - 5, t);
    assert(boundary(st.code, t));
    crate::tape::lemma_pow256_small_values();
    crate::tape::lemma_be_bytes_len(t as nat, 4);
    crate::tape::lemma_be_bytes_len(l1 as nat, 4);
    crate::tape::lemma_be_roundtrip(t as nat, 4);
    crate::tape::lemma_be_roundtrip(l1 as nat, 4);
    let bytes = seq![14u8] + be_bytes(t as nat, 4);
    assert(bytes.len() == 5);
    assert(bytes[0] == 14);
    let c1 = st.code + seq![14u8] + be_bytes(t as nat, 4);
    assert(c1 =~= st.code + bytes);
    assert(c1.len() == l1);
    // The appended back-jump keeps the chain and every old boundary.
    lemma_chain_append(st.code, bytes, 1, l);
    assert(decodes_to(c1, l1, l1));
    assert(c1[l] == 14);
    assert(decodes_to(c1, l, l1));
    lemma_chain_trans(c1, 1, l, l1);
    // No boundary lies strictly inside the placeholder instruction.
    assert(boundary(c1, t - 5)) by {
        lemma_chain_append(st.code, bytes, 1, t - 5);
    }
    assert(c1[t - 5] == 13);
    assert forall|q: int| boundary(c1, q) && t - 5 < q < t implies false by {
        lemma_chain_linear(c1, 1, t - 5, q);
    }
    // The patch changes only the placeholder's operand bytes.
    let c2 = c1.subrange(0, t - 4) + be_bytes(l1 as nat, 4) + c1.subrange(t, l1);
    assert(st2.code == c2);
    assert(c2.len() == l1);
    assert forall|k: int| 0 <= k < l1 && !(t - 4 <= k < t) implies c2[k] == c1[k] by {}
    assert(c2.subrange(t - 4, t) =~= be_bytes(l1 as nat, 4));
    assert(be_value(c2.subrange(t - 4, t)) == l1);
    // The chain is unchanged by the patch, in both directions.
    assert forall|p: int| #[trigger] boundary(c1, p) && p <= l1 implies boundary(c2, p) by {
        assert forall|q: int| #[trigger] decodes_to(c1, 1, q) && q < p implies c2[q] == c1[q] by {
            if t - 4 <= q < t {
                assert(boundary(c1, q));
                assert(false);
            }
        }
        lemma_chain_congruence(c1, c2, 1, p);
    }
    assert(boundary(c2, t - 5) && c2[t - 5] == 13);
    assert forall|q: int| boundary(c2, q) && t - 5 < q < t implies false by {
        lemma_chain_linear(c2, 1, t - 5, q);
    }
    assert forall|p: int| #[trigger] boundary(c2, p) && p <= l1 implies boundary(c1, p) by {
        assert forall|q: int| #[trigger] decodes_to(c2, 1, q) && q < p implies c1[q] == c2[q] by {
            if t - 4 <= q < t {
                assert(boundary(c2, q));
                assert(false);
            }
        }
        lemma_chain_congruence(c2, c1, 1, p);
    }
    assert(boundary(c1, l1));
    assert(boundary(c2, l1));
    assert(decodes_to(c2, 1, l1));
    // The shrunken stack keeps its discipline.
    assert(st2.stack == st.stack.drop_last());
    assert forall|k: int| 0 <= k < st2.stack.len() implies 6 <= #[trigger] st2.stack[k] <= l1 by {
        assert(st2.stack[k] == st.stack[k]);
    }
    assert forall|k: int| 0 <= k < st2.stack.len() implies boundary(
        c2,
        #[trigger] st2.stack[k] - 5,
    ) && c2[st2.stack[k] - 5] == 13 by {
        let s = st.stack[k];
        assert(st2.stack[k] == s);
        assert(s < t);
        assert(boundary(c1, s - 5)) by {
            lemma_chain_append(st.code, bytes, 1, s - 5);
        }
        assert(c1[s - 5] == st.code[s - 5]);
        assert(c2[s - 5] == c1[s - 5]);
    }
    // Every jump is still accounted for.
    assert forall|q: int|
        #[trigger] boundary(st2.code, q) && 0 <= q < st2.code.len() && is_jump(st2.code[q]) implies
        jump_ok(st2, q) by {
        assert(boundary(c1, q));
        lemma_boundary_of_extension(st.code, bytes, q);
        if q == t - 5 {
            // The freshly patched begin-loop points just past us.
            assert(c2.subrange(q + 1, q + 5) =~= c2.subrange(t - 4, t));
            assert(boundary(c2, l1));
        } else if q == l {
            // The back-jump we just emitted points at the pending target.
            assert(c2[l] == c1[l]);
            assert(c2.subrange(l + 1, l + 5) =~= be_bytes(t as nat, 4)) by {
                assert forall|k: int| 0 <= k < 4 implies #[trigger] c2.subrange(l + 1, l + 5)[k]
                    == be_bytes(t as nat, 4)[k] by {
                    assert(c2[l + 1 + k] == c1[l + 1 + k]);
                    assert(c1[l + 1 + k] == bytes[1 + k]);
                }
            }
            assert(be_value(c2.subrange(l + 1, l + 5)) == t);
            assert(boundary(c1, t)) by {
                lemma_chain_append(st.code, bytes, 1, t);
            }
            assert(boundary(c2, t));
        } else if q < l {
            assert(boundary(st.code, q)) by {
                lemma_chain_shrink(st.code, bytes, 1, q);
            }
            assert(c1[q] == st.code[q]);
            assert(!(t - 4 <= q < t));
            assert(c2[q] == st.code[q]);
            assert(jump_ok(st, q));
            if st.code[q] == 13 && st.stack.contains(q + 5) {
                let i = choose|i: int| 0 <= i < st.stack.len() && st.stack[i] == q + 5;
                assert(q + 5 != t);
                assert(i < st.stack.len() - 1) by {
                    if i == st.stack.len() - 1 {
                        assert(st.stack[i] == t);
                    }
                }
                assert(st2.stack[i] == q + 5);
                assert(st2.stack.contains(q + 5));
            } else {
                let tq = be_value(st.code.subrange(q + 1, q + 5)) as int;
                assert(q + 5 <= l) by {
                    lemma_chain_linear(st.code, 1, q, l);
                }
                // The operand bytes lie outside the patched region.
                assert(q + 5 <= t - 5 || q >= t) by {
                    if q < t - 5 {
                        lemma_chain_linear(st.code, 1, q, t - 5);
                    }
                }
                assert(c2.subrange(q + 1, q + 5) =~= st.code.subrange(q + 1, q + 5)) by {
                    assert forall|k: int| 0 <= k < 4 implies #[trigger] c2.subrange(q + 1, q + 5)[k]
                        == st.code.subrange(q + 1, q + 5)[k] by {
                        assert(c2[q + 1 + k] == c1[q + 1 + k]);
                        assert(c1[q + 1 + k] == st.code[q + 1 + k]);
                    }
                }
                assert(boundary(c1, tq)) by {
                    lemma_chain_append(st.code, bytes, 1, tq);
                }
                assert(boundary(c2, tq));
            }
        }
    }
}

/// The invariant holds after any number of emitted operations, and
/// the code stays within the declared sizes.
proof fn lemma_emit_upto_wf(irs: Seq<Ir>, i: int)
    requires
        0 <= i <= irs.len(),
        2 + size_upto(irs, irs.len() as int) <= 0x1_0000_0000,
    ensures
        emit_wf(emit_upto(irs, i)),
        emit_upto(irs, i).code.len() <= 1 + size_upto(irs, i),
    decreases i,
{
    if i == 0 {
        let st = emit_init();
        assert(st.code.len() == 1);
        assert(decodes_to(st.code, 1, 1));
        assert forall|q: int|
            #[trigger] boundary(st.code, q) && 0 <= q < st.code.len() && is_jump(st.code[q])
            implies jump_ok(st, q) by {
            assert(!decodes_to(st.code, 1, 0));
        }
    } else {
        lemma_emit_upto_wf(irs, i - 1);
        lemma_size_upto_mono(irs, i, irs.len() as int);
        let st = emit_upto(irs, i - 1);
        let ir = irs[i - 1];
        let st2 = emit_upto(irs, i);
        assert(st2 == emit1(st, ir));
        assert(size_upto(irs, i) == size_upto(irs, i - 1) + ir_size(ir));
        if st.err {
            assert(st2 == st);
        } else {
            match ir {
                Ir::Inc => {
                    lemma_append_instruction(st, seq![1u8]);
                    assert(st2.code =~= st.code + seq![1u8]);
                },
                Ir::Dec => {
                    lemma_append_instruction(st, seq![2u8]);
                    assert(st2.code =~= st.code + seq![2u8]);
                },
                Ir::IncTape => {
                    lemma_append_instruction(st, seq![3u8]);
                    assert(st2.code =~= st.code + seq![3u8]);
                },
                Ir::DecTape => {
                    lemma_append_instruction(st, seq![4u8]);
                    assert(st2.code =~= st.code + seq![4u8]);
                },
                Ir::Output => {
                    lemma_append_instruction(st, seq![5u8]);
                    assert(st2.code =~= st.code + seq![5u8]);
                },
                Ir::Input => {
                    lemma_append_instruction(st, seq![6u8]);
                    assert(st2.code =~= st.code + seq![6u8]);
                },
                Ir::Sub(n) => {
                    lemma_append_instruction(st, seq![15u8, n as u8]);
                    assert(st2.code =~= st.code + seq![15u8, n as u8]);
                },
                Ir::MoveShort(n) => {
                    lemma_append_instruction(st, seq![18u8, n as u8]);
                    assert(st2.code =~= st.code + seq![18u8, n as u8]);
                },
                Ir::MoveLong(n) => {
                    crate::tape::lemma_be_bytes_len(n as u16 as nat, 2);
                    lemma_append_instruction(st, seq![19u8] + be_bytes(n as u16 as nat, 2));
                    assert(st2.code =~= st.code + (seq![19u8] + be_bytes(n as u16 as nat, 2)));
                },
                Ir::Clear => {
                    lemma_append_instruction(st, seq![17u8, 0u8]);
                    assert(st2.code =~= st.code + seq![17u8, 0u8]);
                },
                Ir::Start => {
                    lemma_emit_start_wf(st);
                },
                Ir::End => {
                    if st.stack.len() == 0 {
                        assert(st2.code == st.code);
                    } else {
                        lemma_emit_end_wf(st);
                    }
                },
            }
        }
    }
}

/// For every source program that compiles, the bytecode decodes
/// cleanly from the first instruction to the end — and every absolute
/// jump in it carries a backpatched target that is a valid position
/// on that same decode chain, never the middle of a multi-byte
/// instruction.
pub proof fn theorem_targets_aligned(src: Seq<char>, code: Seq<u8>)
    requires
        compile_bf_spec(src) == Ok::<Seq<u8>, CompileError>(code),
    ensures
        code.len() >= 2,
        code[0] == 0,
        code.last() == spec_ordinal(Opcode::HaltAlways),
        decodes_to(code, 1, code.len() as int),
        forall|q: int|
            #[trigger] boundary(code, q) && 0 <= q < code.len() && is_jump(code[q]) ==> ({
                let t = be_value(code.subrange(q + 1, q + 5)) as int;
                &&& 1 <= t < code.len()
                &&& boundary(code, t)
            }),
{
    let irs = compiled_irs(src);
    lemma_emit_upto_wf(irs, irs.len() as int);
    let st = emit_upto(irs, irs.len() as int);
    assert(!st.err && st.stack.len() == 0);
    assert(code == st.code.push(22u8));
    let bytes = seq![22u8];
    assert(code =~= st.code + bytes);
    let l = st.code.len() as int;
    let l2 = code.len() as int;
    lemma_chain_append(st.code, bytes, 1, l);
    assert(decodes_to(code, l2, l2));
    assert(code[l] == 22);
    assert(decodes_to(code, l, l2));
    lemma_chain_trans(code, 1, l, l2);
    assert forall|q: int|
        #[trigger] boundary(code, q) && 0 <= q < code.len() && is_jump(code[q]) implies ({
        let t = be_value(code.subrange(q + 1, q + 5)) as int;
        &&& 1 <= t < code.len()
        &&& boundary(code, t)
    }) by {
        lemma_boundary_of_extension(st.code, bytes, q);
        assert(q != l);
        assert(boundary(st.code, q));
        assert(st.code[q] == code[q]);
        assert(jump_ok(st, q));
        assert(!st.stack.contains(q + 5));
        let t = be_value(st.code.subrange(q + 1, q + 5)) as int;
        assert(q + 5 <= l) by {
            lemma_chain_linear(st.code, 1, q, l);
        }
        assert(code.subrange(q + 1, q + 5) =~= st.code.subrange(q + 1, q + 5));
        lemma_chain_append(st.code, bytes, 1, t);
        assert(boundary(code, t));
        assert(t <= l < l2);
    }
}

/// Code generation with backpatching over the folded operations.  The
/// emitted stream must fit the 32-bit address space, which the caller
/// has already established.
pub fn emit(irs: &Vec<Ir>) -> (r: Result<Tape<u8>, CompileError>)
    requires
        size_upto(irs@, irs@.len() as int) <= 0xFFFF_FFFE,
    ensures
        ({
            let st = emit_upto(irs@, irs@.len() as int);
            &&& (st.err || st.stack.len() != 0) ==> r == Err::<Tape<u8>, CompileError>(
                CompileError::UnmatchedBracket,
            )
            &&& (!st.err && st.stack.len() == 0) ==> (r matches Ok(t) && t@.data == st.code
                && t@.cursor == 0)
        }),
{
    let mut bytecode: Tape<u8> = Tape::new(Vec::new());
    bytecode.push(0u8);
    let mut loop_stack: Vec<usize> = Vec::new();
    let mut i: usize = 0;
    proof {
        assert(bytecode@.data =~= emit_init().code);
    }
    while i < irs.len()
        invariant
            i <= irs@.len(),
            size_upto(irs@, irs@.len() as int) <= 0xFFFF_FFFE,
            !emit_upto(irs@, i as int).err,
            bytecode@.cursor == 0,
            bytecode@.data == emit_upto(irs@, i as int).code,
            bytecode@.data.len() == 1 + size_upto(irs@, i as int),
            loop_stack@.len() == emit_upto(irs@, i as int).stack.len(),
            forall|k: int|
                0 <= k < loop_stack@.len() ==> loop_stack@[k] as int == #[trigger] emit_upto(
                    irs@,
                    i as int,
                ).stack[k],
            forall|k: int|
                0 <= k < loop_stack@.len() ==> 6 <= #[trigger] loop_stack@[k] && loop_stack@[k]
                    <= bytecode@.data.len(),
        decreases irs@.len() - i,
    {
        let ghost st0 = emit_upto(irs@, i as int);
        proof {
            lemma_size_upto_mono(irs@, i + 1, irs@.len() as int);
            assert(size_upto(irs@, i + 1) == size_upto(irs@, i as int) + ir_size(irs@[i as int]));
        }
        let ir = irs[i];
        match ir {
            Ir::Inc => bytecode.push(Opcode::Inc.to_u8()),
            Ir::Dec => bytecode.push(Opcode::Dec.to_u8()),
            Ir::IncTape => bytecode.push(Opcode::IncTape.to_u8()),
            Ir::DecTape => bytecode.push(Opcode::DecTape.to_u8()),
            Ir::Output => bytecode.push(Opcode::OutputByte.to_u8()),
            Ir::Input => bytecode.push(Opcode::InputByte.to_u8()),
            Ir::Sub(n) => {
                bytecode.push(Opcode::SubImmediate.to_u8());
                bytecode.push(n as u8);
            },
            Ir::MoveShort(n) => {
                bytecode.push(Opcode::MoveTapeShort.to_u8());
                bytecode.push(n as u8);
            },
            Ir::MoveLong(n) => {
                bytecode.push(Opcode::MoveTapeLong.to_u8());
                match bytecode.push_int(2, n as u16 as u32) {
                    Ok(()) => (),
                    Err(_) => unreached(),
                }
                proof {
                    crate::tape::lemma_be_bytes_len(n as u16 as nat, 2);
                }
            },
            Ir::Clear => {
                bytecode.push(Opcode::SetCell.to_u8());
                bytecode.push(0u8);
            },
            Ir::Start => {
                bytecode.push(Opcode::JumpAbsoluteIfZero.to_u8());
                match bytecode.push_int(4, 0) {
                    Ok(()) => (),
                    Err(_) => unreached(),
                }
                proof {
                    crate::tape::lemma_be_bytes_len(0, 4);
                    assert(be_bytes(0, 4) =~= seq![0u8, 0u8, 0u8, 0u8]) by {
                        crate::tape::lemma_be_bytes_unfold(0, 4);
                    }
                }
                let pos = bytecode.len();
                loop_stack.push(pos);
            },
            Ir::End => {
                let t = match loop_stack.pop() {
                    Some(t) => t,
                    None => {
                        proof {
                            lemma_emit_err_sticky(irs@, i + 1, irs@.len() as int);
                        }
                        return Err(CompileError::UnmatchedBracket);
                    },
                };
                bytecode.push(Opcode::JumpAbsoluteIfNonzero.to_u8());
                match bytecode.push_int(4, t as u32) {
                    Ok(()) => (),
                    Err(_) => unreached(),
                }
                let here = bytecode.len();
                let ghost code1 = st0.code + seq![spec_ordinal(Opcode::JumpAbsoluteIfNonzero)]
                    + be_bytes(t as nat, 4);
                proof {
                    crate::tape::lemma_be_bytes_len(t as nat, 4);
                    crate::tape::lemma_be_bytes_len(here as nat, 4);
                    assert(bytecode@.data =~= code1);
                }
                match bytecode.write_int_at(t - 4, 4, here as u32) {
                    Ok(()) => (),
                    Err(_) => unreached(),
                }
                proof {
                    let t = t as int;
                    let patched = code1.subrange(0, t - 4) + be_bytes(here as nat, 4)
                        + code1.subrange(t, code1.len() as int);
                    assert forall|k: int| 0 <= k < code1.len() implies bytecode@.data[k]
                        == patched[k] by {
                        if t - 4 <= k < t {
                            assert(bytecode@.data.subrange(t - 4, t)[k - (t - 4)]
                                == bytecode@.data[k]);
                        }
                    }
                    assert(bytecode@.data =~= patched);
                }
            },
        }
        proof {
            let st1 = emit1(st0, irs@[i as int]);
            assert(emit_upto(irs@, i + 1) == st1);
            match irs@[i as int] {
                Ir::MoveLong(n) => {
                    assert(bytecode@.data =~= st1.code);
                },
                Ir::Sub(n) => {
                    assert(bytecode@.data =~= st1.code);
                },
                Ir::MoveShort(n) => {
                    assert(bytecode@.data =~= st1.code);
                },
                Ir::Clear => {
                    assert(bytecode@.data =~= st1.code);
                },
                Ir::Start => {
                    assert(bytecode@.data =~= st1.code);
                },
                Ir::End => {},
                _ => {
                    assert(bytecode@.data =~= st1.code);
                },
            }
        }
        i += 1;
    }
    if loop_stack.len() != 0 {
        return Err(CompileError::UnmatchedBracket);
    }
    Ok(bytecode)
}

/// Compile source text of the tape language into bytecode.  The
/// result starts with a filler byte, ends with an unconditional halt,
/// and resolves every loop bracket into a pair of absolute jumps.
pub fn compile(sourcecode: &str) -> (r: Result<Tape<u8>, CompileError>)
    ensures
        compile_bf_spec(sourcecode@) matches Ok(c) ==> (r matches Ok(t) && t@.data == c
            && t@.cursor == 0),
        compile_bf_spec(sourcecode@) matches Err(e) ==> r == Err::<Tape<u8>, CompileError>(e),
{
    let ops = lex(sourcecode);
    let irs0 = fold_runs(&ops);
    let irs = fold_idioms(&irs0);
    let total = total_size(&irs);
    if total > 0xFFFF_FFFE {
        return Err(CompileError::CodeTooLarge);
    }
    let mut bytecode = match emit(&irs) {
        Ok(t) => t,
        Err(e) => {
            return Err(e);
        },
    };
    bytecode.push(Opcode::HaltAlways.to_u8());
    Ok(bytecode)
}

} // verus!
