use stvm::Lang;
use stvm::STVM;
use stvm::VmError;
use stvm::VmState;

#[test]
fn compiling_test() {
    let mut test_vm = STVM::from_code(Lang::Bf, "+++++[>+++<-]>").unwrap();
    test_vm.run().expect("VM error");
    assert_eq!(test_vm.tape.peek(), 15);
}

#[test]
fn nested_loops_halt() {
    let mut vm = STVM::from_code(Lang::Bf, "+++++>++<[->>+<<]>>>+++[-]++[<]++[>]").unwrap();
    vm.run().expect("VM error");
}

#[test]
fn increment_run_round_trip() {
    let mut vm = STVM::from_code(Lang::Bf, "+++++").unwrap();
    vm.run().expect("VM error");
    assert_eq!(vm.tape.peek(), 5);
}

#[test]
fn single_increment() {
    let mut vm = STVM::from_code(Lang::Bf, "+").unwrap();
    vm.run().expect("VM error");
    assert_eq!(vm.tape.peek(), 1);
}

#[test]
fn long_increment_run() {
    let mut vm = STVM::from_code(Lang::Bf, &"+".repeat(126)).unwrap();
    vm.run().expect("VM error");
    assert_eq!(vm.tape.peek(), 126);
}

#[test]
fn clear_loop_idiom_dec() {
    let mut vm = STVM::from_code(Lang::Bf, "+++[-]").unwrap();
    vm.run().expect("VM error");
    assert_eq!(vm.tape.peek(), 0);
}

#[test]
fn clear_loop_idiom_inc() {
    let mut vm = STVM::from_code(Lang::Bf, "++[+]").unwrap();
    vm.run().expect("VM error");
    assert_eq!(vm.tape.peek(), 0);
}

#[test]
fn unmatched_open_bracket_fails() {
    let r = STVM::from_code(Lang::Bf, "+++[->");
    assert!(matches!(r, Err(stvm::bf::CompileError::UnmatchedBracket)));
}

#[test]
fn unmatched_close_bracket_fails() {
    let r = STVM::from_code(Lang::Bf, "+]");
    assert!(matches!(r, Err(stvm::bf::CompileError::UnmatchedBracket)));
}

#[test]
fn lisp_front_end_is_unsupported() {
    let r = STVM::from_code(Lang::Lisp, "(add 2 3)");
    assert!(matches!(r, Err(stvm::bf::CompileError::UnsupportedLanguage)));
}

#[test]
fn exhausted_input_reports_io_error() {
    let mut vm = STVM::from_code(Lang::Bf, ",").unwrap();
    let r = vm.run();
    assert!(matches!(r, Err(VmError::Io(_))));
}

#[test]
fn input_reaches_cell_and_output() {
    let mut vm = STVM::from_code(Lang::Bf, ",+.").unwrap();
    vm.set_input(vec![65u8]);
    vm.run().expect("VM error");
    assert_eq!(vm.tape.peek(), 66);
    assert_eq!(vm.output.iter(), vec![66u8]);
}

#[test]
fn illegal_opcode_reports_byte_and_position() {
    let mut vm = STVM::new();
    vm.debug_inject_byte(0);
    vm.debug_inject_byte(27);
    let first = vm.step();
    assert!(matches!(first, Ok(VmState::Continue)));
    let second = vm.step();
    assert!(matches!(second, Err(VmError::InvalidOperation(27, 1))));
}

#[test]
fn debug_vm_runs_off_the_end() {
    let mut vm = STVM::debug_new();
    assert!(matches!(vm.step(), Ok(VmState::Continue)));
    assert!(matches!(vm.step(), Ok(VmState::Continue)));
    assert!(matches!(vm.step(), Err(VmError::UnexpectedEof)));
}

#[test]
fn single_increment_bytecode_layout() {
    let vm = STVM::from_code(Lang::Bf, "+").unwrap();
    assert_eq!(vm.program.bytecode.iter(), vec![0u8, 1, 22]);
}

#[test]
fn folded_run_bytecode_layout() {
    let vm = STVM::from_code(Lang::Bf, "++").unwrap();
    // SubImmediate carries the negated net count: -2 encodes as 254.
    assert_eq!(vm.program.bytecode.iter(), vec![0u8, 15, 254, 22]);
}

#[test]
fn clear_idiom_bytecode_layout() {
    let vm = STVM::from_code(Lang::Bf, "[-]").unwrap();
    assert_eq!(vm.program.bytecode.iter(), vec![0u8, 17, 0, 22]);
}

#[test]
fn empty_loop_backpatched_targets() {
    let vm = STVM::from_code(Lang::Bf, "[]").unwrap();
    // Begin-loop at 1 jumps past the end-loop instruction (offset 11);
    // end-loop at 6 jumps back to the loop body start (offset 6).
    assert_eq!(
        vm.program.bytecode.iter(),
        vec![0u8, 13, 0, 0, 0, 11, 14, 0, 0, 0, 6, 22]
    );
}

#[test]
fn raw_start_loop_is_unexpected() {
    let mut vm = STVM::new();
    vm.debug_inject_byte(0);
    vm.debug_inject_byte(7); // a begin-loop token, never valid in compiled output
    assert!(matches!(vm.step(), Ok(VmState::Continue)));
    let r = vm.step();
    assert!(matches!(r, Err(VmError::UnexpectedCommand(_))));
}

#[test]
fn moving_past_the_left_bound_fails() {
    let mut vm = STVM::from_code(Lang::Bf, "<").unwrap();
    let r = vm.run();
    assert!(matches!(r, Err(VmError::TapeError(_))));
}

#[test]
fn truncated_operand_reports_eof() {
    let mut vm = STVM::new();
    vm.debug_inject_byte(0);
    vm.debug_inject_byte(15); // an immediate subtraction missing its operand
    assert!(matches!(vm.step(), Ok(VmState::Continue)));
    let r = vm.step();
    assert!(matches!(r, Err(VmError::UnexpectedEof)));
}

#[test]
fn push_and_pop_move_cells_through_the_stack() {
    // push the cell (value 3), clear the cell, pop it back
    let mut vm = STVM::new();
    for b in [0i8, 15, -3i8, 24, 17, 0, 25, 22] {
        vm.debug_inject_byte(b);
    }
    vm.run().expect("VM error");
    assert_eq!(vm.tape.peek(), 3);
}

#[test]
fn pop_on_fresh_stack_sets_underflow_flag() {
    let mut vm = STVM::new();
    vm.debug_inject_byte(0);
    vm.debug_inject_byte(25); // pop with nothing but the placeholder
    vm.debug_inject_byte(22);
    vm.run().expect("VM error");
    assert_eq!(vm.registers.stack_underflow, true);
    assert_eq!(vm.tape.peek(), 0);
}

#[test]
fn tape_grows_to_the_right() {
    let mut vm = STVM::from_code(Lang::Bf, ">>>+").unwrap();
    vm.run().expect("VM error");
    assert_eq!(vm.get_cursor(), 3);
    assert_eq!(vm.each_cell(), vec![0i8, 0, 0, 1]);
}

#[test]
fn long_motion_run_uses_wide_operand() {
    let mut vm = STVM::from_code(Lang::Bf, &">".repeat(130)).unwrap();
    assert_eq!(vm.program.bytecode.iter(), vec![0u8, 19, 0, 130, 22]);
    vm.run().expect("VM error");
    assert_eq!(vm.get_cursor(), 130);
}

#[test]
fn relative_jumps_are_unexpected_in_compiled_output() {
    // All four relative-jump encodings are structurally valid but
    // never emitted by the compiler; each is rejected after its
    // operand is consumed.
    for op in [9i8, 10, 11, 12] {
        let mut vm = STVM::new();
        for b in [0i8, op, 1, 1, 22] {
            vm.debug_inject_byte(b);
        }
        let r = vm.run();
        assert!(matches!(r, Err(VmError::UnexpectedCommand(_))));
    }
}

#[test]
fn truncated_relative_jump_reports_eof() {
    // A rejected opcode still consumes its operand first, so a
    // truncated operand reports end-of-stream, not the opcode.
    for op in [9i8, 11] {
        let mut vm = STVM::new();
        vm.debug_inject_byte(0);
        vm.debug_inject_byte(op);
        assert!(matches!(vm.step(), Ok(VmState::Continue)));
        let r = vm.step();
        assert!(matches!(r, Err(VmError::UnexpectedEof)));
    }
}

#[test]
fn relative_subtract_reads_cell_at_offset() {
    let mut vm = STVM::new();
    for b in [0i8, 15, -5, 16, 0, 0, 22] {
        vm.debug_inject_byte(b);
    }
    // The cell is set to five, then diminished by the cell at offset
    // zero: itself.
    vm.run().expect("VM error");
    assert_eq!(vm.tape.peek(), 0);
}

#[test]
fn push_rand_grows_the_stack() {
    let mut vm = STVM::new();
    for b in [0i8, 26, 26, 22] {
        vm.debug_inject_byte(b);
    }
    vm.run().expect("VM error");
    assert_eq!(vm.stack.len(), 3);
}

#[test]
fn comments_are_skipped() {
    let mut vm = STVM::from_code(Lang::Bf, "two: ++ and one less: -").unwrap();
    vm.run().expect("VM error");
    assert_eq!(vm.tape.peek(), 1);
}

#[test]
fn mixed_run_folds_to_net_count() {
    let mut vm = STVM::from_code(Lang::Bf, "+++--").unwrap();
    vm.run().expect("VM error");
    assert_eq!(vm.tape.peek(), 1);
}
