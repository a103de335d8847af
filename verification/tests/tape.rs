use stvm::tape::Tape;
use stvm::tape::TapeError;

#[test]
fn u8_test() {
}

#[test]
fn pop_reports_underflow_without_removing() {
    let mut stack: Tape<i8> = Tape::new(vec![0]);
    stack.push(7);
    assert_eq!(stack.pop(), (7, false));
    assert_eq!(stack.pop(), (0, true));
    assert_eq!(stack.pop(), (0, true));
    assert_eq!(stack.len(), 1);
}

#[test]
fn pop_sequence_eventually_underflows() {
    let mut stack: Tape<i8> = Tape::new(vec![9]);
    stack.push(1);
    stack.push(2);
    stack.push(3);
    let mut underflowed = false;
    for _ in 0..5 {
        let (_, flag) = stack.pop();
        if flag {
            underflowed = true;
            break;
        }
    }
    assert!(underflowed);
    assert_eq!(stack.len(), 1);
    assert_eq!(stack.peek(), 9);
}

#[test]
fn int_helpers_round_trip() {
    let mut t: Tape<u8> = Tape::new(Vec::new());
    t.push_int(4, 0x01020304).unwrap();
    assert_eq!(t.len(), 4);
    assert_eq!(t.peek_int(0, 4), Ok(0x01020304));
    assert_eq!(t.read_int(4), Ok(0x01020304));
    assert_eq!(t.get_cursor(), 4);
}

#[test]
fn int_helpers_are_big_endian() {
    let mut t: Tape<u8> = Tape::new(Vec::new());
    t.push_int(2, 0x1234).unwrap();
    assert_eq!(t.iter(), vec![0x12u8, 0x34]);
}

#[test]
fn int_helpers_reject_bad_widths() {
    let mut t: Tape<u8> = Tape::new(vec![1, 2, 3, 4, 5]);
    assert_eq!(t.read_int(0), Err(TapeError::InvalidArgument));
    assert_eq!(t.read_int(5), Err(TapeError::InvalidArgument));
    assert_eq!(t.peek_int(0, 0), Err(TapeError::InvalidArgument));
    assert_eq!(t.push_int(9, 1), Err(TapeError::InvalidArgument));
    assert_eq!(t.write_int_at(0, 0, 1), Err(TapeError::InvalidArgument));
}

#[test]
fn truncated_read_reports_eof() {
    let mut t: Tape<u8> = Tape::new(vec![1, 2]);
    assert_eq!(t.read_int(4), Err(TapeError::Eof));
}

#[test]
fn peek_at_checks_bounds() {
    let t: Tape<i8> = Tape::new(vec![5]);
    assert_eq!(t.peek_at(0), Ok(5));
    assert_eq!(t.peek_at(1), Err(TapeError::OutOfBounds));
}

#[test]
fn write_int_at_patches_in_place() {
    let mut t: Tape<u8> = Tape::new(vec![0xaa; 6]);
    t.write_int_at(1, 4, 0x01020304).unwrap();
    assert_eq!(t.iter(), vec![0xaau8, 1, 2, 3, 4, 0xaa]);
    assert_eq!(t.write_int_at(3, 4, 0), Err(TapeError::OutOfBounds));
}

#[test]
fn move_cursor_grows_with_zero_fill() {
    let mut t: Tape<i8> = Tape::new(vec![1]);
    let outside = t.move_cursor(3);
    assert!(outside);
    assert_eq!(t.get_cursor(), 3);
    assert_eq!(t.iter(), vec![1i8, 0, 0, 0]);
    let outside_again = t.move_cursor(-2);
    assert!(!outside_again);
    assert_eq!(t.get_cursor(), 1);
}

#[test]
fn read_inc_walks_the_tape() {
    let mut t: Tape<u8> = Tape::new(vec![10, 20]);
    assert_eq!(t.read_inc(), (10, true));
    assert_eq!(t.read_inc(), (20, true));
    assert_eq!(t.get_cursor(), 2);
}
