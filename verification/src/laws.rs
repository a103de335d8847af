//! Theorems that tie the compiler and the machine together.

use crate::bf::Ir;
use crate::bf::compile_bf_spec;
use crate::bf::encode_add;
use crate::bf::fold_from;
use crate::bf::fold_spec;
use crate::bf::idiom_spec;
use crate::bf::lex_spec;
use crate::bf::run_scan;
use crate::bf::size_upto;
use crate::bf::emit1;
use crate::bf::emit_init;
use crate::bf::emit_upto;
use crate::command::Opcode;
use crate::tape::be_value;
use crate::tape::wrap_i8;
use crate::vm::RegisterSet;
use crate::vm::VmModel;
use crate::vm::VmState;
use crate::vm::iter_n;
use crate::vm::lemma_iter_snoc;
use crate::vm::run_outcome;
use crate::vm::run_post;
use crate::vm::running;
use crate::vm::step_budget;
use crate::vm::step_spec;
use vstd::prelude::*;

verus! {

/// The value of a one-byte big-endian field.
proof fn lemma_be_value_single(b: u8)
    ensures
        be_value(seq![b]) == b,
{
    assert(seq![b].drop_last() =~= Seq::<u8>::empty());
    assert(be_value(Seq::<u8>::empty()) == 0);
}

/// A source program of `n` increment characters.
pub open spec fn increments(n: nat) -> Seq<char> {
    Seq::new(n, |i: int| '+')
}

/// The operand byte of the immediate subtraction that undoes `n`
/// increments: the two's-complement image of `-n`.
pub open spec fn neg_byte(n: nat) -> u8 {
    ((-(n as int)) as i8) as u8
}

/// The bytecode a run of `n` increments compiles to: the filler byte,
/// a unit increment or an immediate subtraction of `-n`, and the
/// final halt.
pub open spec fn increments_code(n: nat) -> Seq<u8> {
    if n == 1 {
        seq![0u8, 1u8, 22u8]
    } else {
        seq![0u8, 15u8, neg_byte(n), 22u8]
    }
}

proof fn lemma_lex_increments(n: nat)
    ensures
        lex_spec(increments(n)) == Seq::new(n, |i: int| Opcode::Inc),
    decreases n,
{
    if n == 0 {
        assert(lex_spec(increments(0)) =~= Seq::new(0, |i: int| Opcode::Inc));
    } else {
        let s = increments(n);
        assert(s.drop_last() =~= increments((n - 1) as nat));
        assert(s.last() == '+');
        lemma_lex_increments((n - 1) as nat);
        assert(lex_spec(s) =~= Seq::new(n, |i: int| Opcode::Inc));
    }
}

proof fn lemma_scan_increments(ops: Seq<Opcode>, n: nat, j: int)
    requires
        1 <= n <= 126,
        ops == Seq::new(n, |i: int| Opcode::Inc),
        0 <= j < n,
    ensures
        run_scan(ops, j, j + 1, Opcode::Inc, Opcode::Dec, 127) == (n as int, n - 1),
    decreases n - j,
{
    if j + 1 >= n {
    } else {
        assert(ops[j + 1] == Opcode::Inc);
        lemma_scan_increments(ops, n, j + 1);
    }
}

/// Compiling a run of `n` identical increment characters yields the
/// three- or four-byte program of `increments_code`.
pub proof fn lemma_compile_increments(n: nat)
    requires
        1 <= n <= 126,
    ensures
        compile_bf_spec(increments(n)) == Ok::<Seq<u8>, crate::bf::CompileError>(
            increments_code(n),
        ),
{
    let ops = Seq::new(n, |i: int| Opcode::Inc);
    lemma_lex_increments(n);
    lemma_scan_increments(ops, n, 0);
    assert(fold_from(ops, n as int) =~= Seq::<Ir>::empty());
    let enc = encode_add(n as int);
    assert(fold_spec(ops) == enc + fold_from(ops, n as int));
    assert(enc + Seq::<Ir>::empty() =~= enc);
    assert(fold_spec(ops) == enc);
    let irs = idiom_spec(fold_spec(ops));
    assert(irs =~= enc) by {
        assert(enc.len() == 1);
        assert(enc[0] != Ir::Start);
        assert(enc.skip(1) =~= Seq::<Ir>::empty());
        assert(idiom_spec(Seq::<Ir>::empty()) =~= Seq::<Ir>::empty());
        assert(seq![enc[0]] + Seq::<Ir>::empty() =~= enc);
    }
    assert(size_upto(irs, 1) == size_upto(irs, 0) + crate::bf::ir_size(irs[0]));
    assert(size_upto(irs, 0) == 0);
    let st = emit_upto(irs, 1);
    assert(emit_upto(irs, 0) == emit_init());
    assert(st == emit1(emit_init(), irs[0]));
    if n == 1 {
        assert(st.code =~= seq![0u8, 1u8]);
        assert(st.code.push(22u8) =~= increments_code(n));
    } else {
        assert(st.code =~= seq![0u8, 15u8, neg_byte(n)]);
        assert(st.code.push(22u8) =~= increments_code(n));
    }
    assert(st.stack.len() == 0 && !st.err);
}

/// Round trip: executing the compiled run of `n` increments from a
/// zero cell runs to completion and leaves the cell holding `n`.
/// `n` stays below the signed 8-bit limit, so `n mod 256` is `n`
/// itself.
pub proof fn theorem_increment_round_trip(
    m0: VmModel,
    n: nat,
    mf: VmModel,
    r: Result<(), crate::vm::VmError>,
)
    requires
        1 <= n <= 126,
        m0.code == increments_code(n),
        m0.pc == 0,
        m0.tape == seq![0i8],
        m0.pos == 0,
        run_post(m0, mf, r),
    ensures
        r == Ok::<(), crate::vm::VmError>(()),
        mf.tape == seq![n as i8],
        mf.pos == 0,
{
    let s1 = step_spec(m0).0;
    let s2 = step_spec(s1).0;
    let s3 = step_spec(s2).0;
    // Step one decodes the filler byte.
    assert(m0.code[0] == 0);
    assert(crate::command::spec_from_u8(0) == Opcode::Nop);
    assert(step_spec(m0).1 == Ok::<VmState, crate::vm::VmError>(VmState::Continue));
    assert(s1.pc == 1 && s1.tape == m0.tape && s1.pos == 0);
    // Step two performs the arithmetic.
    if n == 1 {
        assert(s1.code[1] == 1);
        assert(crate::command::spec_from_u8(1) == Opcode::Inc);
        assert(step_spec(s1).1 == Ok::<VmState, crate::vm::VmError>(VmState::Continue));
        assert(s2.tape =~= seq![1i8]);
        assert(s2.pc == 2 && s2.pos == 0);
        assert(s2.code[2] == 22);
    } else {
        assert(s1.code[1] == 15);
        assert(crate::command::spec_from_u8(15) == Opcode::SubImmediate);
        assert(s1.operand_fits(1));
        assert(s1.code.subrange(2, 3) =~= seq![neg_byte(n)]);
        lemma_be_value_single(neg_byte(n));
        assert(s1.operand(1) == neg_byte(n) as nat);
        let v: i8 = (-(n as int)) as i8;
        assert(v == -(n as int));
        assert(v as u8 as i8 == v) by (bit_vector);
        assert(s1.operand(1) as u8 as i8 == v);
        assert(step_spec(s1).1 == Ok::<VmState, crate::vm::VmError>(VmState::Continue));
        assert(s2.tape =~= seq![n as i8]);
        assert(s2.pc == 3 && s2.pos == 0);
        assert(s2.code[3] == 22);
    }
    // Step three decodes the final halt.
    assert(crate::command::spec_from_u8(22) == Opcode::HaltAlways);
    assert(step_spec(s2).1 == Ok::<VmState, crate::vm::VmError>(VmState::Halt));
    assert(s3.tape == s2.tape && s3.pos == 0);
    // Locate the halting step inside the run.
    assert(iter_n(m0, 0) == m0);
    assert(iter_n(m0, 1) == s1) by {
        crate::vm::lemma_iter_snoc(m0, 0);
    }
    assert(iter_n(m0, 2) == s2) by {
        crate::vm::lemma_iter_snoc(m0, 1);
    }
    assert(iter_n(m0, 3) == s3) by {
        crate::vm::lemma_iter_snoc(m0, 2);
    }
    let nw = choose|k: nat| run_outcome(m0, mf, r, k);
    assert(run_outcome(m0, mf, r, nw));
    if nw == 0 || nw == 1 {
        assert(false);
    } else if nw == 2 {
    } else {
        assert(running(m0, nw));
        assert(step_spec(iter_n(m0, 2)).1 == Ok::<VmState, crate::vm::VmError>(VmState::Continue));
        assert(false);
    }
}

/// Iteration splits over a sum of step counts.
proof fn lemma_iter_add(m: VmModel, a: nat, b: nat)
    ensures
        iter_n(m, a + b) == iter_n(iter_n(m, a), b),
    decreases a,
{
    if a > 0 {
        lemma_iter_add(step_spec(m).0, (a - 1) as nat, b);
    }
}

/// Two stretches of continuing steps concatenate.
proof fn lemma_running_concat(m: VmModel, a: nat, b: nat)
    requires
        running(m, a),
        running(iter_n(m, a), b),
    ensures
        running(m, a + b),
{
    assert forall|k: nat| k < a + b implies (#[trigger] step_spec(iter_n(m, k)).1) == Ok::<
        VmState,
        crate::vm::VmError,
    >(VmState::Continue) by {
        if k >= a {
            lemma_iter_add(m, a, (k - a) as nat);
            assert(iter_n(m, k) == iter_n(iter_n(m, a), (k - a) as nat));
            assert(step_spec(iter_n(iter_n(m, a), (k - a) as nat)).1 == Ok::<
                VmState,
                crate::vm::VmError,
            >(VmState::Continue));
        }
    }
}

/// The compiled form a `[-]` or `[+]` loop would take without the
/// idiom pass: a conditional jump past the loop, one unit toggle of
/// the cell, and a conditional jump back to the toggle.  The exit
/// target lies strictly inside the program, as it always does in
/// compiled output, where at least the final halt follows.
pub open spec fn clear_loop_at(code: Seq<u8>, p: nat, dec: bool) -> bool {
    &&& p + 11 < code.len()
    &&& code[p as int] == 13
    &&& be_value(code.subrange(p + 1int, p + 5int)) == p + 11
    &&& code[p + 5int] == (if dec {
        2u8
    } else {
        1u8
    })
    &&& code[p + 6int] == 14
    &&& be_value(code.subrange(p + 7int, p + 11int)) == p + 5
}

/// Executing the unoptimised loop from `m` runs for `k` continuing
/// steps and stops just past the loop with the current cell cleared
/// and everything else untouched — the same data tape the folded
/// clear instruction produces in one step.
pub open spec fn clear_loop_done(m: VmModel, p: nat, k: nat) -> bool {
    &&& running(m, k)
    &&& iter_n(m, k).tape == m.tape.update(m.pos as int, 0i8)
    &&& iter_n(m, k).pc == p + 11
    &&& iter_n(m, k).pos == m.pos
    &&& iter_n(m, k).stack == m.stack
    &&& iter_n(m, k).code == m.code
    &&& iter_n(m, k).prng == m.prng
    &&& iter_n(m, k).input == m.input
    &&& iter_n(m, k).inpos == m.inpos
    &&& iter_n(m, k).output == m.output
    &&& iter_n(m, k).regs == (RegisterSet {
        arithmetic_overflow: iter_n(m, k).regs.arithmetic_overflow,
        ..m.regs
    })
}

/// From the toggle instruction with a non-zero cell, the loop spins
/// until the cell reaches zero and leaves through the back-jump.
proof fn lemma_clear_rounds(m: VmModel, p: nat, dec: bool)
    requires
        clear_loop_at(m.code, p, dec),
        m.pc == p + 5,
        m.pos < m.tape.len(),
        m.cell() != 0,
    ensures
        exists|k: nat| #[trigger] clear_loop_done(m, p, k),
    decreases (if dec {
        m.cell() as u8 as nat
    } else {
        (512 - m.cell() as u8) as nat
    }),
{
    let cell = m.cell();
    let s1 = step_spec(m).0;
    if dec {
        assert(crate::command::spec_from_u8(2) == Opcode::Dec);
    } else {
        assert(crate::command::spec_from_u8(1) == Opcode::Inc);
    }
    assert(step_spec(m).1 == Ok::<VmState, crate::vm::VmError>(VmState::Continue));
    let c2 = if dec {
        wrap_i8(cell - 1)
    } else {
        wrap_i8(cell + 1)
    };
    assert(s1.pc == p + 6 && s1.tape == m.tape.update(m.pos as int, c2) && s1.pos == m.pos);
    assert(s1.tape[s1.pos as int] == c2);
    // The back-jump.
    assert(crate::command::spec_from_u8(14) == Opcode::JumpAbsoluteIfNonzero);
    assert(s1.operand_fits(4));
    assert(s1.code.subrange(p + 7int, p + 11int) =~= m.code.subrange(p + 7int, p + 11int));
    assert(s1.operand(4) == p + 5);
    let s2 = step_spec(s1).0;
    assert(step_spec(s1).1 == Ok::<VmState, crate::vm::VmError>(VmState::Continue));
    assert(iter_n(m, 0) == m);
    assert(iter_n(m, 1) == s1) by {
        lemma_iter_snoc(m, 0);
    }
    assert(iter_n(m, 2) == s2) by {
        lemma_iter_snoc(m, 1);
    }
    assert(running(m, 2)) by {
        assert forall|k: nat| k < 2 implies (#[trigger] step_spec(iter_n(m, k)).1) == Ok::<
            VmState,
            crate::vm::VmError,
        >(VmState::Continue) by {}
    }
    if c2 == 0 {
        assert(s2.pc == p + 11);
        assert(clear_loop_done(m, p, 2));
    } else {
        assert(s2.pc == p + 5);
        assert(s2.tape == m.tape.update(m.pos as int, c2) && s2.pos == m.pos);
        assert(s2.cell() == c2);
        // The cell's unsigned image steps toward the exit.
        let d = cell as u8;
        let d2 = c2 as u8;
        if dec {
            if cell == -128 {
                assert(c2 == 127);
                assert(cell == -128 ==> cell as u8 == 128) by (bit_vector);
                assert(c2 == 127 ==> c2 as u8 == 127) by (bit_vector);
            } else {
                assert(c2 == cell - 1);
                assert((cell != 0 && cell != -128 && c2 == (cell - 1) as i8) ==> (c2 as u8) == (
                cell as u8) - 1 && cell as u8 >= 1) by (bit_vector);
                assert(c2 == (cell - 1) as i8);
            }
            assert(d2 == d - 1 && d >= 1);
        } else {
            assert(cell != 0 ==> cell as u8 != 0) by (bit_vector);
            if cell == 127 {
                assert(c2 == -128);
                assert(cell == 127 ==> cell as u8 == 127) by (bit_vector);
                assert(c2 == -128 ==> c2 as u8 == 128) by (bit_vector);
            } else {
                assert(c2 == cell + 1);
                assert((cell != -1 && cell != 127 && c2 == (cell + 1) as i8) ==> (c2 as u8) == (
                cell as u8) + 1 && cell as u8 <= 254) by (bit_vector);
                assert(c2 == (cell + 1) as i8);
            }
            assert(d2 == d + 1);
        }
        lemma_clear_rounds(s2, p, dec);
        let kr = choose|k: nat| clear_loop_done(s2, p, k);
        assert(clear_loop_done(s2, p, kr));
        lemma_iter_add(m, 2, kr);
        lemma_running_concat(m, 2, kr);
        assert(iter_n(m, 2 + kr) == iter_n(s2, kr));
        assert(s2.tape.update(s2.pos as int, 0i8) =~= m.tape.update(m.pos as int, 0i8));
        assert(clear_loop_done(m, p, (2 + kr) as nat));
    }
}

/// Idempotence of the loop-folding optimisation: at any tape
/// position, executing the unoptimised `[-]` or `[+]` loop to
/// completion leaves the current cell at zero — the very tape the
/// folded clear instruction produces — and touches nothing else.
pub proof fn theorem_clear_loop_equivalence(m: VmModel, p: nat, dec: bool)
    requires
        clear_loop_at(m.code, p, dec),
        m.pc == p,
        m.pos < m.tape.len(),
    ensures
        exists|k: nat| #[trigger] clear_loop_done(m, p, k),
{
    let cell = m.cell();
    assert(crate::command::spec_from_u8(13) == Opcode::JumpAbsoluteIfZero);
    assert(m.operand_fits(4));
    assert(m.code.subrange(p + 1int, p + 5int) == m.code.subrange(m.pc + 1int, m.pc + 1 + 4int));
    assert(m.operand(4) == p + 11);
    let s1 = step_spec(m).0;
    assert(step_spec(m).1 == Ok::<VmState, crate::vm::VmError>(VmState::Continue));
    assert(iter_n(m, 0) == m);
    assert(iter_n(m, 1) == s1) by {
        lemma_iter_snoc(m, 0);
    }
    assert(running(m, 1)) by {
        assert forall|k: nat| k < 1 implies (#[trigger] step_spec(iter_n(m, k)).1) == Ok::<
            VmState,
            crate::vm::VmError,
        >(VmState::Continue) by {}
    }
    if cell == 0 {
        assert(s1.pc == p + 11);
        assert(m.tape.update(m.pos as int, 0i8) =~= m.tape);
        assert(clear_loop_done(m, p, 1));
    } else {
        assert(s1.pc == p + 5);
        lemma_clear_rounds(s1, p, dec);
        let kr = choose|k: nat| clear_loop_done(s1, p, k);
        assert(clear_loop_done(s1, p, kr));
        lemma_iter_add(m, 1, kr);
        lemma_running_concat(m, 1, kr);
        assert(clear_loop_done(m, p, (1 + kr) as nat));
    }
}

/// The folded form: one clear instruction sets the current cell to
/// zero in a single step, leaving everything else untouched.
pub proof fn lemma_clear_instruction(m: VmModel)
    requires
        m.pc + 2 <= m.code.len(),
        m.code[m.pc as int] == 17,
        m.code[m.pc + 1int] == 0,
        m.pos < m.tape.len(),
    ensures
        step_spec(m).1 == Ok::<VmState, crate::vm::VmError>(VmState::Continue),
        step_spec(m).0 == (VmModel {
            pc: m.pc + 2,
            tape: m.tape.update(m.pos as int, 0i8),
            ..m
        }),
{
    assert(crate::command::spec_from_u8(17) == Opcode::SetCell);
    assert(m.operand_fits(1));
    assert(m.code.subrange(m.pc + 1int, m.pc + 2int) =~= seq![0u8]);
    lemma_be_value_single(0);
    assert(m.operand(1) == 0);
}

} // verus!
