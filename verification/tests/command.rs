use stvm::command::Opcode;
use stvm::prng::Prng;

#[test]
fn opcode_byte_round_trip() {
    for v in 0u8..27 {
        let op = Opcode::from_u8(v);
        assert!(!matches!(op, Opcode::Illegal));
        assert_eq!(op.to_u8(), v);
    }
}

#[test]
fn bytes_at_or_above_sentinel_decode_to_illegal() {
    assert!(matches!(Opcode::from_u8(27), Opcode::Illegal));
    assert!(matches!(Opcode::from_u8(200), Opcode::Illegal));
    assert!(Opcode::from_i8(27).is_none());
    assert!(Opcode::from_i8(-1).is_none());
    assert_eq!(Opcode::from_i8(22), Some(Opcode::HaltAlways));
}

#[test]
fn opcode_encoded_lengths() {
    assert_eq!(Opcode::Nop.len(), 1);
    assert_eq!(Opcode::HaltAlways.len(), 1);
    assert_eq!(Opcode::SubImmediate.len(), 2);
    assert_eq!(Opcode::SetCell.len(), 2);
    assert_eq!(Opcode::MoveTapeLong.len(), 3);
    assert_eq!(Opcode::JumpAbsoluteIfZero.len(), 5);
    assert_eq!(Opcode::JumpAbsoluteIfNonzero.len(), 5);
    assert_eq!(Opcode::Illegal.len(), 1);
}

#[test]
fn prng_is_deterministic_per_seed() {
    let mut a = Prng::new_from_seed(0x1234);
    let mut b = Prng::new_from_seed(0x1234);
    for _ in 0..16 {
        assert_eq!(a.gen_u8(), b.gen_u8());
    }
    let mut c = Prng::new_from_seed(0x4321);
    let d = c.gen_u8();
    let mut e = Prng::new_from_seed(0x1234);
    let f = e.gen_u8();
    let _ = (d, f);
}

#[test]
fn prng_seed_replaces_state() {
    let mut a = Prng::new_from_seed(7);
    let first = a.gen_u8();
    a.seed(7);
    assert_eq!(a.gen_u8(), first);
}
