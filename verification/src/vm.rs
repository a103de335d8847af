//! The virtual machine.
//!
//! A fetch-decode-execute loop drives a growable data tape, an
//! auxiliary stack, a set of diagnostic status registers and a
//! pseudo-random generator against a compiled program.  Each step is
//! atomic: all state mutation is applied before the step reports its
//! outcome, and every illegal condition surfaces as a typed error.
//! The status registers are observable diagnostics only: branches
//! test the current data cell directly, never a register.

use crate::bf::CompileError;
use crate::bf::compile_bf_spec;
use crate::command::Opcode;
use crate::command::spec_from_u8;
use crate::prng::Prng;
use crate::prng::sm64_spec;
use crate::program::Lang;
use crate::program::Program;
use crate::tape::Tape;
use crate::tape::TapeError;
use crate::tape::be_value;
use crate::tape::wrap_i8;
use vstd::prelude::*;

verus! {

/// The machine's status registers: diagnostic flags recomputed by the
/// instructions that concern them, never fed back into control flow.
#[derive(Debug, Clone, Copy, PartialEq, Eq, Structural)]
pub struct RegisterSet {
    pub acc: i16,
    pub zero: bool,
    pub arithmetic_overflow: bool,
    pub stack_underflow: bool,
    pub tape_outside_right_bound: bool,
}

impl RegisterSet {
    pub fn new() -> (r: RegisterSet)
        ensures
            r == (RegisterSet {
                acc: 0i16,
                zero: false,
                arithmetic_overflow: false,
                stack_underflow: false,
                tape_outside_right_bound: false,
            }),
    {
        RegisterSet {
            acc: 0,
            zero: false,
            arithmetic_overflow: false,
            stack_underflow: false,
            tape_outside_right_bound: false,
        }
    }
}

/// What a successful step reports: whether execution goes on.
#[derive(Debug, Clone, Copy, PartialEq, Eq, Structural)]
pub enum VmState {
    Continue,
    Halt,
}

/// The run-time error taxonomy.  `Halt` stands for a stop forced by
/// the engine rather than the program; the expected end of a program
/// is the success path, not an error.
#[derive(Debug, Clone, Copy)]
pub enum VmError {
    /// The engine stopped the program: its step budget — a machine
    /// limit, not part of the modelled language — was exhausted.
    Halt,
    /// Blocking input failed: no byte could be read.
    Io(&'static str),
    /// An undecodable opcode byte, with the byte and its position.
    InvalidOperation(i8, usize),
    /// An operand read ran past the end of the bytecode.
    UnexpectedEof,
    /// A buffer-level failure, wrapped.
    TapeError(TapeError),
    /// A structurally valid opcode that is illegal in compiled output.
    UnexpectedCommand(Opcode),
}

/// The mathematical state of the machine: every field the step
/// relation reads or writes.
pub ghost struct VmModel {
    /// The compiled bytecode.
    pub code: Seq<u8>,
    /// The bytecode cursor.
    pub pc: nat,
    /// The data tape.
    pub tape: Seq<i8>,
    /// The data tape cursor.
    pub pos: nat,
    /// The auxiliary stack, bottom first.
    pub stack: Seq<i8>,
    /// The status registers.
    pub regs: RegisterSet,
    /// The pseudo-random generator's state.
    pub prng: u16,
    /// The input channel.
    pub input: Seq<u8>,
    /// How much of the input channel has been consumed.
    pub inpos: nat,
    /// The output channel.
    pub output: Seq<u8>,
}

impl VmModel {
    /// The cell under the data tape cursor.
    pub open spec fn cell(self) -> i8 {
        self.tape[self.pos as int]
    }

    /// The operand field of width `w` behind the opcode byte.
    pub open spec fn operand(self, w: nat) -> nat {
        be_value(self.code.subrange(self.pc + 1int, self.pc + 1 + w as int))
    }

    /// Whether an operand of width `w` lies inside the bytecode.
    pub open spec fn operand_fits(self, w: nat) -> bool {
        self.pc + 1 + w <= self.code.len()
    }
}

/// Subtract `n` from the current cell with wraparound, recording the
/// overflow flag.  The model's cursor has already passed the operand.
pub open spec fn sub_spec(m: VmModel, n: i8) -> VmModel {
    VmModel {
        tape: m.tape.update(m.pos as int, wrap_i8(m.cell() - n)),
        regs: RegisterSet {
            arithmetic_overflow: !(-128 <= m.cell() - n <= 127),
            ..m.regs
        },
        ..m
    }
}

/// Move the data tape cursor by `d`, growing the tape with zero cells
/// past the right bound and recording the right-bound flag.  A
/// negative target, or one past the address space, is an error and
/// leaves the model unchanged.
pub open spec fn move_spec(m: VmModel, d: int) -> (VmModel, bool) {
    if m.pos + d < 0 || m.pos + d >= usize::MAX {
        (m, true)
    } else {
        let outside = m.pos + d >= m.tape.len();
        let grown = if outside {
            m.tape + Seq::new((m.pos + d + 1 - m.tape.len()) as nat, |i: int| 0i8)
        } else {
            m.tape
        };
        (
            VmModel {
                tape: grown,
                pos: (m.pos + d) as nat,
                regs: RegisterSet { tape_outside_right_bound: outside, ..m.regs },
                ..m
            },
            false,
        )
    }
}

/// The position of the first zero cell at or after `p`, or the tape
/// length if there is none.
pub open spec fn seek_right_pos(tape: Seq<i8>, p: nat) -> nat
    decreases tape.len() - p,
{
    if p >= tape.len() {
        tape.len()
    } else if tape[p as int] == 0 {
        p
    } else {
        seek_right_pos(tape, p + 1)
    }
}

/// The position of the first zero cell at or before `p`, if any.
pub open spec fn seek_left_pos(tape: Seq<i8>, p: nat) -> Option<nat>
    decreases p,
{
    if p < tape.len() && tape[p as int] == 0 {
        Some(p)
    } else if p == 0 {
        None
    } else {
        seek_left_pos(tape, (p - 1) as nat)
    }
}

/// One atomic fetch-decode-execute step of the machine: the state
/// after the step, and what the step reports.
pub open spec fn step_spec(m: VmModel) -> (VmModel, Result<VmState, VmError>) {
    if m.pc >= m.code.len() {
        (m, Err(VmError::UnexpectedEof))
    } else {
        let b = m.code[m.pc as int];
        let com = spec_from_u8(b);
        if com == Opcode::Illegal {
            (m, Err(VmError::InvalidOperation(b as i8, m.pc as usize)))
        } else {
            let m1 = VmModel { pc: m.pc + 1, ..m };
            match com {
                Opcode::Nop => (m1, Ok(VmState::Continue)),
                Opcode::Inc => (sub_spec(m1, -1i8), Ok(VmState::Continue)),
                Opcode::Dec => (sub_spec(m1, 1i8), Ok(VmState::Continue)),
                Opcode::IncTape => {
                    let (m2, bad) = move_spec(m1, 1);
                    if bad {
                        (m2, Err(VmError::TapeError(TapeError::OutOfBounds)))
                    } else {
                        (m2, Ok(VmState::Continue))
                    }
                },
                Opcode::DecTape => {
                    let (m2, bad) = move_spec(m1, -1);
                    if bad {
                        (m2, Err(VmError::TapeError(TapeError::OutOfBounds)))
                    } else {
                        (m2, Ok(VmState::Continue))
                    }
                },
                Opcode::SetCell => {
                    if !m.operand_fits(1) {
                        (VmModel { pc: m.code.len(), ..m }, Err(VmError::UnexpectedEof))
                    } else {
                        let m2 = VmModel { pc: m.pc + 2, ..m };
                        let v = m.operand(1) as u8 as i8;
                        (
                            VmModel { tape: m2.tape.update(m2.pos as int, v), ..m2 },
                            Ok(VmState::Continue),
                        )
                    }
                },
                Opcode::SubImmediate => {
                    if !m.operand_fits(1) {
                        (VmModel { pc: m.code.len(), ..m }, Err(VmError::UnexpectedEof))
                    } else {
                        let m2 = VmModel { pc: m.pc + 2, ..m };
                        (sub_spec(m2, m.operand(1) as u8 as i8), Ok(VmState::Continue))
                    }
                },
                Opcode::SubRelativeLong => {
                    if !m.operand_fits(2) {
                        (VmModel { pc: m.code.len(), ..m }, Err(VmError::UnexpectedEof))
                    } else {
                        let m2 = VmModel { pc: m.pc + 3, ..m };
                        let off = m.operand(2);
                        if m2.pos + off >= m2.tape.len() {
                            (m2, Err(VmError::TapeError(TapeError::OutOfBounds)))
                        } else {
                            (
                                sub_spec(m2, m2.tape[m2.pos + off as int]),
                                Ok(VmState::Continue),
                            )
                        }
                    }
                },
                Opcode::MoveTapeShort => {
                    if !m.operand_fits(1) {
                        (VmModel { pc: m.code.len(), ..m }, Err(VmError::UnexpectedEof))
                    } else {
                        let m2 = VmModel { pc: m.pc + 2, ..m };
                        let (m3, bad) = move_spec(m2, m.operand(1) as u8 as i8 as int);
                        if bad {
                            (m3, Err(VmError::TapeError(TapeError::OutOfBounds)))
                        } else {
                            (m3, Ok(VmState::Continue))
                        }
                    }
                },
                Opcode::MoveTapeLong => {
                    if !m.operand_fits(2) {
                        (VmModel { pc: m.code.len(), ..m }, Err(VmError::UnexpectedEof))
                    } else {
                        let m2 = VmModel { pc: m.pc + 3, ..m };
                        let (m3, bad) = move_spec(m2, m.operand(2) as u16 as i16 as int);
                        if bad {
                            (m3, Err(VmError::TapeError(TapeError::OutOfBounds)))
                        } else {
                            (m3, Ok(VmState::Continue))
                        }
                    }
                },
                Opcode::SeekRight => {
                    let target = seek_right_pos(m1.tape, m1.pos);
                    if target < m1.tape.len() {
                        (VmModel { pos: target, ..m1 }, Ok(VmState::Continue))
                    } else if m1.tape.len() < usize::MAX {
                        (
                            VmModel { tape: m1.tape + seq![0i8], pos: target, ..m1 },
                            Ok(VmState::Continue),
                        )
                    } else {
                        (m1, Err(VmError::TapeError(TapeError::OutOfBounds)))
                    }
                },
                Opcode::SeekLeft => {
                    match seek_left_pos(m1.tape, m1.pos) {
                        Some(target) => (VmModel { pos: target, ..m1 }, Ok(VmState::Continue)),
                        None => (
                            VmModel { pos: 0, ..m1 },
                            Err(VmError::TapeError(TapeError::OutOfBounds)),
                        ),
                    }
                },
                Opcode::JumpRelativeShortIfZero | Opcode::JumpRelativeShortIfNonzero => {
                    // No relative encoding appears in compiled output:
                    // the operand is consumed, then the opcode is
                    // rejected.
                    if !m.operand_fits(1) {
                        (VmModel { pc: m.code.len(), ..m }, Err(VmError::UnexpectedEof))
                    } else {
                        (VmModel { pc: m.pc + 2, ..m }, Err(VmError::UnexpectedCommand(com)))
                    }
                },
                Opcode::JumpRelativeLongIfZero | Opcode::JumpRelativeLongIfNonzero => {
                    if !m.operand_fits(2) {
                        (VmModel { pc: m.code.len(), ..m }, Err(VmError::UnexpectedEof))
                    } else {
                        (VmModel { pc: m.pc + 3, ..m }, Err(VmError::UnexpectedCommand(com)))
                    }
                },
                Opcode::JumpAbsoluteIfZero => {
                    if !m.operand_fits(4) {
                        (VmModel { pc: m.code.len(), ..m }, Err(VmError::UnexpectedEof))
                    } else {
                        let m2 = VmModel { pc: m.pc + 5, ..m };
                        let t = m.operand(4);
                        if m.cell() == 0 {
                            if t >= m.code.len() {
                                (m2, Err(VmError::TapeError(TapeError::OutOfBounds)))
                            } else {
                                (VmModel { pc: t, ..m }, Ok(VmState::Continue))
                            }
                        } else {
                            (m2, Ok(VmState::Continue))
                        }
                    }
                },
                Opcode::JumpAbsoluteIfNonzero => {
                    if !m.operand_fits(4) {
                        (VmModel { pc: m.code.len(), ..m }, Err(VmError::UnexpectedEof))
                    } else {
                        let m2 = VmModel { pc: m.pc + 5, ..m };
                        let t = m.operand(4);
                        if m.cell() != 0 {
                            if t >= m.code.len() {
                                (m2, Err(VmError::TapeError(TapeError::OutOfBounds)))
                            } else {
                                (VmModel { pc: t, ..m }, Ok(VmState::Continue))
                            }
                        } else {
                            (m2, Ok(VmState::Continue))
                        }
                    }
                },
                Opcode::InputByte => {
                    if m1.inpos < m1.input.len() {
                        (
                            VmModel {
                                tape: m1.tape.update(
                                    m1.pos as int,
                                    m1.input[m1.inpos as int] as i8,
                                ),
                                inpos: m1.inpos + 1,
                                ..m1
                            },
                            Ok(VmState::Continue),
                        )
                    } else {
                        (m1, Err(VmError::Io("no bytes read from input")))
                    }
                },
                Opcode::OutputByte => {
                    (
                        VmModel { output: m1.output.push(m1.cell() as u8), ..m1 },
                        Ok(VmState::Continue),
                    )
                },
                Opcode::HaltIfNotEqual => {
                    if !m.operand_fits(1) {
                        (VmModel { pc: m.code.len(), ..m }, Err(VmError::UnexpectedEof))
                    } else {
                        let m2 = VmModel { pc: m.pc + 2, ..m };
                        let n = m.operand(1) as u8 as i8;
                        if m2.cell() != n {
                            (m2, Ok(VmState::Halt))
                        } else {
                            (m2, Ok(VmState::Continue))
                        }
                    }
                },
                Opcode::Push => {
                    (VmModel { stack: m1.stack.push(m1.cell()), ..m1 }, Ok(VmState::Continue))
                },
                Opcode::Pop => {
                    let underflow = m1.stack.len() == 1;
                    let v = if underflow {
                        m1.stack[0]
                    } else {
                        m1.stack.last()
                    };
                    (
                        VmModel {
                            tape: m1.tape.update(m1.pos as int, v),
                            stack: if underflow {
                                m1.stack
                            } else {
                                m1.stack.drop_last()
                            },
                            regs: RegisterSet { stack_underflow: underflow, ..m1.regs },
                            ..m1
                        },
                        Ok(VmState::Continue),
                    )
                },
                Opcode::PushRand => {
                    let next = sm64_spec(m1.prng);
                    (
                        VmModel {
                            prng: next,
                            stack: m1.stack.push((next & 0xff) as u8 as i8),
                            ..m1
                        },
                        Ok(VmState::Continue),
                    )
                },
                Opcode::HaltAlways => (m1, Ok(VmState::Halt)),
                // A raw begin- or end-loop token: structurally valid,
                // never valid in compiled output, and without operand
                // bytes to consume.
                _ => (m1, Err(VmError::UnexpectedCommand(com))),
            }
        }
    }
}

/// The machine state after `n` steps, errors and halts disregarded.
pub open spec fn iter_n(m: VmModel, n: nat) -> VmModel
    decreases n,
{
    if n == 0 {
        m
    } else {
        iter_n(step_spec(m).0, (n - 1) as nat)
    }
}

/// Whether the first `n` steps from `m` all report `Continue`.
pub open spec fn running(m: VmModel, n: nat) -> bool {
    forall|k: nat|
        k < n ==> (#[trigger] step_spec(iter_n(m, k)).1) == Ok::<VmState, VmError>(
            VmState::Continue,
        )
}

/// Unrolling the iteration from the far end.
pub proof fn lemma_iter_snoc(m: VmModel, n: nat)
    ensures
        iter_n(m, n + 1) == step_spec(iter_n(m, n)).0,
    decreases n,
{
    if n == 0 {
        assert(iter_n(m, 1) == iter_n(step_spec(m).0, 0));
        assert(iter_n(step_spec(m).0, 0) == step_spec(m).0);
    } else {
        lemma_iter_snoc(step_spec(m).0, (n - 1) as nat);
        assert(iter_n(m, n + 1) == iter_n(step_spec(m).0, n));
        assert(iter_n(m, n) == iter_n(step_spec(m).0, (n - 1) as nat));
    }
}

/// Introduce `run_post` from an explicit step count.
proof fn lemma_run_post_intro(m0: VmModel, mf: VmModel, r: Result<(), VmError>, n: nat)
    requires
        run_outcome(m0, mf, r, n),
    ensures
        run_post(m0, mf, r),
{
    assert(run_outcome(m0, mf, r, n));
}

/// The number of steps a single run may take before the engine stops
/// it: a machine limit, not part of the modelled language.
pub open spec fn step_budget() -> nat {
    0xffff_ffff_ffff_ffff
}

/// A run from `m0` that took exactly `n` continuing steps and then
/// finished as `r` says, leaving the state `mf`: either the next step
/// halted (the success path), or the next step failed with the
/// reported error, or the step budget was exhausted and the engine
/// stopped the program with `VmError::Halt`.
pub open spec fn run_outcome(m0: VmModel, mf: VmModel, r: Result<(), VmError>, n: nat) -> bool {
    &&& running(m0, n)
    &&& ({
        ||| (n < step_budget() && step_spec(iter_n(m0, n)).1 == Ok::<VmState, VmError>(
            VmState::Halt,
        ) && r == Ok::<(), VmError>(()) && mf == iter_n(m0, n + 1))
        ||| (n < step_budget() && (step_spec(iter_n(m0, n)).1 matches Err(e) && r == Err::<
            (),
            VmError,
        >(e)) && mf == iter_n(m0, n + 1))
        ||| (n == step_budget() && r == Err::<(), VmError>(VmError::Halt) && mf == iter_n(m0, n))
    })
}

/// What a finished run guarantees: some number of continuing steps,
/// then the outcome the result reports.
pub open spec fn run_post(m0: VmModel, mf: VmModel, r: Result<(), VmError>) -> bool {
    exists|n: nat| #[trigger] run_outcome(m0, mf, r, n)
}

/// The registers a fresh machine starts with.
pub open spec fn initial_registers() -> RegisterSet {
    RegisterSet {
        acc: 0,
        zero: false,
        arithmetic_overflow: false,
        stack_underflow: false,
        tape_outside_right_bound: false,
    }
}

/// A generator state that seeding from the clock can produce: never
/// zero and never on the degenerate two-cycle.
pub open spec fn prng_seeded(p: u16) -> bool {
    p != 0 && p != 0x560a && p != 0xe550
}

/// The virtual machine: one program, one data tape, one stack, one
/// register set, one pseudo-random generator, and buffered input and
/// output channels.
#[derive(Debug)]
pub struct STVM {
    pub program: Program,
    pub tape: Tape<i8>,
    pub stack: Tape<i8>,
    pub registers: RegisterSet,
    pub prng: Prng,
    pub input: Tape<u8>,
    pub output: Tape<u8>,
}

impl STVM {
    /// The machine's mathematical state.
    pub open spec fn model(self) -> VmModel {
        VmModel {
            code: self.program.bytecode@.data,
            pc: self.program.bytecode@.cursor,
            tape: self.tape@.data,
            pos: self.tape@.cursor,
            stack: self.stack@.data,
            regs: self.registers,
            prng: self.prng@,
            input: self.input@.data,
            inpos: self.input@.cursor,
            output: self.output@.data,
        }
    }

    /// The machine's structural invariant: the data tape cursor is a
    /// valid index, the stack guards one element that is never
    /// removed, and no cursor strays past its buffer.
    pub open spec fn wf(self) -> bool {
        &&& self.program.bytecode@.cursor <= self.program.bytecode@.data.len()
        &&& self.tape@.cursor < self.tape@.data.len()
        &&& self.stack@.cursor == 0
        &&& self.stack@.data.len() >= 1
        &&& self.input@.cursor <= self.input@.data.len()
    }

    /// Everything the step relation does not touch.
    pub open spec fn same_frame(self, other: STVM) -> bool {
        &&& self.program.lang == other.program.lang
        &&& self.program.sourcecode == other.program.sourcecode
        &&& self.output@.cursor == other.output@.cursor
    }

    /// Move the data tape cursor by `d`, growing the tape to the
    /// right as needed; a move below zero or past the address space
    /// reports the failure without moving.
    fn do_move(&mut self, d: i32) -> (r: Result<(), VmError>)
        requires
            old(self).wf(),
            -0x8000 <= d <= 0x7fff,
        ensures
            final(self).wf(),
            old(self).same_frame(*final(self)),
            ({
                let (m2, bad) = move_spec(old(self).model(), d as int);
                &&& final(self).model() == m2
                &&& r == (if bad {
                    Err::<(), VmError>(VmError::TapeError(TapeError::OutOfBounds))
                } else {
                    Ok::<(), VmError>(())
                })
            }),
    {
        let pos = self.tape.get_cursor();
        if d >= 0 {
            let dd = d as usize;
            if pos >= usize::MAX - dd {
                return Err(VmError::TapeError(TapeError::OutOfBounds));
            }
            let flag = self.tape.move_cursor(dd as isize);
            self.registers.tape_outside_right_bound = flag;
            Ok(())
        } else {
            let dd = (-d) as usize;
            if pos < dd {
                return Err(VmError::TapeError(TapeError::OutOfBounds));
            }
            let flag = self.tape.move_cursor(-(dd as isize));
            self.registers.tape_outside_right_bound = flag;
            Ok(())
        }
    }

    /// One atomic fetch-decode-execute step.
    #[verifier::spinoff_prover]
    #[verifier::rlimit(100)]
    pub fn step(&mut self) -> (r: Result<VmState, VmError>)
        requires
            old(self).wf(),
        ensures
            final(self).wf(),
            old(self).same_frame(*final(self)),
            final(self).model() == step_spec(old(self).model()).0,
            r == step_spec(old(self).model()).1,
    {
        let pc = self.program.bytecode.get_cursor();
        if pc >= self.program.bytecode.len() {
            return Err(VmError::UnexpectedEof);
        }
        let b = self.program.bytecode.peek();
        let com = match Opcode::from_i8(b as i8) {
            Some(c) => c,
            None => {
                proof {
                    assert(b as i8 as u8 == b) by (bit_vector);
                }
                return Err(VmError::InvalidOperation(b as i8, pc));
            },
        };
        proof {
            assert(b as i8 as u8 == b) by (bit_vector);
        }
        let _advanced = self.program.bytecode.inc_cursor();
        match com {
            Opcode::Nop => (),
            Opcode::Inc => {
                self.registers.arithmetic_overflow = self.tape.i8_subtract(-1);
            },
            Opcode::Dec => {
                self.registers.arithmetic_overflow = self.tape.i8_subtract(1);
            },
            Opcode::IncTape => {
                match self.do_move(1) {
                    Ok(()) => (),
                    Err(e) => {
                        return Err(e);
                    },
                }
            },
            Opcode::DecTape => {
                match self.do_move(-1) {
                    Ok(()) => (),
                    Err(e) => {
                        return Err(e);
                    },
                }
            },
            Opcode::SetCell => {
                let n = match self.program.bytecode.read_int(1) {
                    Ok(v) => v,
                    Err(_) => {
                        return Err(VmError::UnexpectedEof);
                    },
                };
                self.tape.write(n as u8 as i8);
            },
            Opcode::SubImmediate => {
                let n = match self.program.bytecode.read_int(1) {
                    Ok(v) => v,
                    Err(_) => {
                        return Err(VmError::UnexpectedEof);
                    },
                };
                self.registers.arithmetic_overflow = self.tape.i8_subtract(n as u8 as i8);
            },
            Opcode::SubRelativeLong => {
                let n = match self.program.bytecode.read_int(2) {
                    Ok(v) => v,
                    Err(_) => {
                        return Err(VmError::UnexpectedEof);
                    },
                };
                let pos = self.tape.get_cursor();
                let l = self.tape.len();
                proof {
                    crate::tape::lemma_pow256_small_values();
                }
                if n as usize >= l - pos {
                    return Err(VmError::TapeError(TapeError::OutOfBounds));
                }
                let m = self.tape.peek_relative(n as usize as isize);
                self.registers.arithmetic_overflow = self.tape.i8_subtract(m);
            },
            Opcode::MoveTapeShort => {
                let n = match self.program.bytecode.read_int(1) {
                    Ok(v) => v,
                    Err(_) => {
                        return Err(VmError::UnexpectedEof);
                    },
                };
                match self.do_move(n as u8 as i8 as i32) {
                    Ok(()) => (),
                    Err(e) => {
                        return Err(e);
                    },
                }
            },
            Opcode::MoveTapeLong => {
                let n = match self.program.bytecode.read_int(2) {
                    Ok(v) => v,
                    Err(_) => {
                        return Err(VmError::UnexpectedEof);
                    },
                };
                match self.do_move(n as u16 as i16 as i32) {
                    Ok(()) => (),
                    Err(e) => {
                        return Err(e);
                    },
                }
            },
            Opcode::SeekRight => {
                let mut j = self.tape.get_cursor();
                let l = self.tape.len();
                while j < l && self.tape.nonzero_at(j)
                    invariant
                        self.tape@.cursor <= j <= l,
                        l == self.tape@.data.len(),
                        seek_right_pos(self.tape@.data, self.tape@.cursor) == seek_right_pos(
                            self.tape@.data,
                            j as nat,
                        ),
                    decreases l - j,
                {
                    j += 1;
                }
                if j < l {
                    self.tape.jump(j);
                } else if l < usize::MAX {
                    self.tape.grow(l + 1);
                    self.tape.jump(l);
                    proof {
                        assert(self.tape@.data =~= old(self).tape@.data + seq![0i8]);
                    }
                } else {
                    return Err(VmError::TapeError(TapeError::OutOfBounds));
                }
            },
            Opcode::SeekLeft => {
                let mut j = self.tape.get_cursor();
                while self.tape.nonzero_at(j) && j > 0
                    invariant
                        j <= self.tape@.cursor < self.tape@.data.len(),
                        seek_left_pos(self.tape@.data, self.tape@.cursor) == seek_left_pos(
                            self.tape@.data,
                            j as nat,
                        ),
                    decreases j,
                {
                    j -= 1;
                }
                if !self.tape.nonzero_at(j) {
                    self.tape.jump(j);
                } else {
                    self.tape.jump(0);
                    return Err(VmError::TapeError(TapeError::OutOfBounds));
                }
            },
            Opcode::JumpRelativeShortIfZero | Opcode::JumpRelativeShortIfNonzero => {
                // Structurally valid, but no relative encoding appears
                // in compiled output: consume the operand, then reject.
                match self.program.bytecode.read_int(1) {
                    Ok(_) => {
                        return Err(VmError::UnexpectedCommand(com));
                    },
                    Err(_) => {
                        return Err(VmError::UnexpectedEof);
                    },
                }
            },
            Opcode::JumpRelativeLongIfZero | Opcode::JumpRelativeLongIfNonzero => {
                match self.program.bytecode.read_int(2) {
                    Ok(_) => {
                        return Err(VmError::UnexpectedCommand(com));
                    },
                    Err(_) => {
                        return Err(VmError::UnexpectedEof);
                    },
                }
            },
            Opcode::JumpAbsoluteIfZero => {
                let target = match self.program.bytecode.read_int(4) {
                    Ok(v) => v,
                    Err(_) => {
                        return Err(VmError::UnexpectedEof);
                    },
                };
                if self.tape.peek() == 0 {
                    if (target as usize) >= self.program.bytecode.len() {
                        return Err(VmError::TapeError(TapeError::OutOfBounds));
                    }
                    self.program.bytecode.jump(target as usize);
                }
            },
            Opcode::JumpAbsoluteIfNonzero => {
                let target = match self.program.bytecode.read_int(4) {
                    Ok(v) => v,
                    Err(_) => {
                        return Err(VmError::UnexpectedEof);
                    },
                };
                if self.tape.peek() != 0 {
                    if (target as usize) >= self.program.bytecode.len() {
                        return Err(VmError::TapeError(TapeError::OutOfBounds));
                    }
                    self.program.bytecode.jump(target as usize);
                }
            },
            Opcode::InputByte => {
                if self.input.get_cursor() < self.input.len() {
                    let (byte, _ok) = self.input.read_inc();
                    self.tape.write(byte as i8);
                } else {
                    return Err(VmError::Io("no bytes read from input"));
                }
            },
            Opcode::OutputByte => {
                let c = self.tape.peek();
                self.output.push(c as u8);
            },
            Opcode::HaltIfNotEqual => {
                let n = match self.program.bytecode.read_int(1) {
                    Ok(v) => v,
                    Err(_) => {
                        return Err(VmError::UnexpectedEof);
                    },
                };
                if self.tape.peek() != n as u8 as i8 {
                    return Ok(VmState::Halt);
                }
            },
            Opcode::Push => {
                let c = self.tape.peek();
                self.stack.push(c);
            },
            Opcode::Pop => {
                let (n, underflow) = self.stack.pop();
                self.registers.stack_underflow = underflow;
                self.tape.write(n);
            },
            Opcode::PushRand => {
                let r = self.prng.gen_u8();
                self.stack.push(r as i8);
            },
            Opcode::HaltAlways => {
                return Ok(VmState::Halt);
            },
            _ => {
                // A raw begin- or end-loop token: no operand bytes to
                // consume, and never valid in compiled output.
                return Err(VmError::UnexpectedCommand(com));
            },
        }
        Ok(VmState::Continue)
    }

    /// Repeat `step` until the program halts or an error surfaces.
    /// The engine forcibly stops a program that is still executing
    /// after the step budget, reporting `VmError::Halt`.
    pub fn run(&mut self) -> (r: Result<(), VmError>)
        requires
            old(self).wf(),
        ensures
            final(self).wf(),
            old(self).same_frame(*final(self)),
            run_post(old(self).model(), final(self).model(), r),
    {
        let ghost m0 = self.model();
        let mut fuel: u64 = 0xffff_ffff_ffff_ffff;
        let ghost mut n: nat = 0;
        while fuel > 0
            invariant
                self.wf(),
                old(self).same_frame(*self),
                m0 == old(self).model(),
                n + fuel == step_budget(),
                self.model() == iter_n(m0, n),
                running(m0, n),
            decreases fuel,
        {
            let res = self.step();
            proof {
                lemma_iter_snoc(m0, n);
            }
            match res {
                Ok(VmState::Continue) => {
                    proof {
                        assert forall|k: nat| k < n + 1 implies (#[trigger] step_spec(
                            iter_n(m0, k),
                        ).1) == Ok::<VmState, VmError>(VmState::Continue) by {}
                        n = n + 1;
                    }
                    fuel -= 1;
                },
                Ok(VmState::Halt) => {
                    proof {
                        lemma_run_post_intro(m0, self.model(), Ok(()), n);
                    }
                    return Ok(());
                },
                Err(e) => {
                    proof {
                        lemma_run_post_intro(m0, self.model(), Err(e), n);
                    }
                    return Err(e);
                },
            }
        }
        proof {
            lemma_run_post_intro(m0, self.model(), Err(VmError::Halt), n);
        }
        Err(VmError::Halt)
    }

    fn set_program(&mut self, program: Program)
        ensures
            final(self).program == program,
            final(self).tape == old(self).tape,
            final(self).stack == old(self).stack,
            final(self).registers == old(self).registers,
            final(self).prng == old(self).prng,
            final(self).input == old(self).input,
            final(self).output == old(self).output,
    {
        self.program = program;
    }

    /// A fresh machine: no program, a single zero cell on the data
    /// tape, the stack holding its one placeholder element, cleared
    /// registers, empty input and output channels, and a generator
    /// seeded from the clock.
    pub fn new() -> (vm: STVM)
        ensures
            vm.wf(),
            vm.program.lang == Lang::Raw,
            vm.program.sourcecode@ == Seq::<char>::empty(),
            vm.model().code == Seq::<u8>::empty(),
            vm.model().pc == 0,
            vm.model().tape == seq![0i8],
            vm.model().pos == 0,
            vm.model().stack == seq![0i8],
            vm.model().regs == initial_registers(),
            vm.model().input == Seq::<u8>::empty(),
            vm.model().inpos == 0,
            vm.model().output == Seq::<u8>::empty(),
            prng_seeded(vm.model().prng),
    {
        proof {
            reveal_strlit("");
            assert(""@ =~= Seq::<char>::empty());
        }
        STVM {
            program: Program::new(Lang::Raw, ""),
            tape: Tape::new(vec![0i8]),
            stack: Tape::new(vec![0i8]),
            registers: RegisterSet::new(),
            prng: Prng::new_from_time(),
            input: Tape::new(Vec::new()),
            output: Tape::new(Vec::new()),
        }
    }

    /// A fresh machine loaded with source text and compiled.  The
    /// compile errors are handed through; a machine is only returned
    /// when compilation succeeded.
    pub fn from_code(lang: Lang, sourcecode: &str) -> (r: Result<STVM, CompileError>)
        ensures
            lang matches Lang::Bf ==> (match compile_bf_spec(sourcecode@) {
                Ok(c) => r matches Ok(vm) && vm.wf() && vm.program.lang == lang
                    && vm.program.sourcecode@ == sourcecode@ && vm.model().code == c
                    && vm.model().pc == 0 && vm.model().tape == seq![0i8] && vm.model().pos == 0
                    && vm.model().stack == seq![0i8] && vm.model().regs == initial_registers()
                    && vm.model().input == Seq::<u8>::empty() && vm.model().inpos == 0
                    && vm.model().output == Seq::<u8>::empty() && prng_seeded(vm.model().prng),
                Err(e) => r == Err::<STVM, CompileError>(e),
            }),
            !(lang matches Lang::Bf) ==> r == Err::<STVM, CompileError>(
                CompileError::UnsupportedLanguage,
            ),
    {
        let mut vm = STVM::new();
        vm.set_program(Program::new(lang, sourcecode));
        match vm.compile() {
            Ok(()) => Ok(vm),
            Err(e) => Err(e),
        }
    }

    /// Compile the loaded program's source text; see
    /// `Program::compile`.
    pub fn compile(&mut self) -> (r: Result<(), CompileError>)
        ensures
            final(self).program.lang == old(self).program.lang,
            final(self).program.sourcecode == old(self).program.sourcecode,
            final(self).tape == old(self).tape,
            final(self).stack == old(self).stack,
            final(self).registers == old(self).registers,
            final(self).prng == old(self).prng,
            final(self).input == old(self).input,
            final(self).output == old(self).output,
            old(self).program.lang matches Lang::Bf ==> match compile_bf_spec(
                old(self).program.sourcecode@,
            ) {
                Ok(c) => r == Ok::<(), CompileError>(()) && final(self).program.bytecode@.data == c
                    && final(self).program.bytecode@.cursor == 0,
                Err(e) => r == Err::<(), CompileError>(e) && final(self).program.bytecode == old(
                    self,
                ).program.bytecode,
            },
            !(old(self).program.lang matches Lang::Bf) ==> r == Err::<(), CompileError>(
                CompileError::UnsupportedLanguage,
            ) && final(self).program.bytecode == old(self).program.bytecode,
    {
        self.program.compile()
    }

    /// The data tape cursor.
    pub fn get_cursor(&self) -> (c: usize)
        ensures
            c == self.tape@.cursor,
    {
        self.tape.get_cursor()
    }

    /// A copy of every cell of the data tape, in order.
    pub fn each_cell(&self) -> (v: Vec<i8>)
        ensures
            v@ == self.tape@.data,
    {
        self.tape.iter()
    }

    /// Replace the input channel with the given bytes, unread.
    pub fn set_input(&mut self, bytes: Vec<u8>)
        ensures
            final(self).model() == (VmModel {
                input: bytes@,
                inpos: 0,
                ..old(self).model()
            }),
            old(self).wf() ==> final(self).wf(),
            old(self).same_frame(*final(self)),
    {
        self.input = Tape::new(bytes);
    }

    /// A machine whose bytecode holds nothing but a filler byte and
    /// one no-operation instruction, injected directly.
    pub fn debug_new() -> (vm: STVM)
        ensures
            vm.wf(),
            vm.model().code == seq![0u8, 0u8],
            vm.model().pc == 0,
            vm.model().tape == seq![0i8],
            vm.model().pos == 0,
            vm.model().stack == seq![0i8],
    {
        let mut test_vm = STVM::new();
        test_vm.debug_inject_byte(0x00);
        test_vm.debug_inject_byte(Opcode::Nop.to_u8() as i8);
        proof {
            assert(test_vm.model().code =~= seq![0u8, 0u8]);
        }
        test_vm
    }

    /// Append one raw byte to the loaded program's bytecode.
    pub fn debug_inject_byte(&mut self, b: i8)
        ensures
            final(self).program.lang == old(self).program.lang,
            final(self).program.sourcecode == old(self).program.sourcecode,
            final(self).model() == (VmModel {
                code: old(self).model().code.push(b as u8),
                ..old(self).model()
            }),
            old(self).wf() ==> final(self).wf(),
    {
        self.program.debug_inject_byte(b);
    }
}

} // verus!
