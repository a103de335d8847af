//! The instruction set of the virtual machine.
//!
//! Opcodes form a closed, densely numbered tag set.  Each opcode has a
//! fixed encoded length (opcode byte plus operand bytes), and a safe
//! numeric round trip: a byte at or above the ordinal of `Illegal`
//! decodes to `Illegal` rather than to undefined behaviour.

use vstd::prelude::*;

verus! {

/// One instruction tag.  The order of the variants fixes the binary
/// encoding: `Nop` is byte 0 and `Illegal` is the highest ordinal, the
/// sentinel for undecodable bytes.  No variant may be added after
/// `Illegal`.
#[derive(Debug, Clone, Copy, PartialEq, Eq, Structural)]
pub enum Opcode {
    Nop,
    Inc,
    Dec,
    IncTape,
    DecTape,
    OutputByte,
    InputByte,
    StartLoop,
    EndLoop,
    JumpRelativeShortIfZero,
    JumpRelativeShortIfNonzero,
    JumpRelativeLongIfZero,
    JumpRelativeLongIfNonzero,
    JumpAbsoluteIfZero,
    JumpAbsoluteIfNonzero,
    SubImmediate,
    SubRelativeLong,
    SetCell,
    MoveTapeShort,
    MoveTapeLong,
    SeekRight,
    SeekLeft,
    HaltAlways,
    HaltIfNotEqual,
    Push,
    Pop,
    PushRand,
    Illegal,
}

/// The ordinal of an opcode: its value in the binary encoding.
pub open spec fn spec_ordinal(op: Opcode) -> u8 {
    match op {
        Opcode::Nop => 0,
        Opcode::Inc => 1,
        Opcode::Dec => 2,
        Opcode::IncTape => 3,
        Opcode::DecTape => 4,
        Opcode::OutputByte => 5,
        Opcode::InputByte => 6,
        Opcode::StartLoop => 7,
        Opcode::EndLoop => 8,
        Opcode::JumpRelativeShortIfZero => 9,
        Opcode::JumpRelativeShortIfNonzero => 10,
        Opcode::JumpRelativeLongIfZero => 11,
        Opcode::JumpRelativeLongIfNonzero => 12,
        Opcode::JumpAbsoluteIfZero => 13,
        Opcode::JumpAbsoluteIfNonzero => 14,
        Opcode::SubImmediate => 15,
        Opcode::SubRelativeLong => 16,
        Opcode::SetCell => 17,
        Opcode::MoveTapeShort => 18,
        Opcode::MoveTapeLong => 19,
        Opcode::SeekRight => 20,
        Opcode::SeekLeft => 21,
        Opcode::HaltAlways => 22,
        Opcode::HaltIfNotEqual => 23,
        Opcode::Push => 24,
        Opcode::Pop => 25,
        Opcode::PushRand => 26,
        Opcode::Illegal => 27,
    }
}

/// Decoding of a raw byte: the inverse of `spec_ordinal` below the
/// sentinel, and `Illegal` for every byte at or above it.
pub open spec fn spec_from_u8(v: u8) -> Opcode {
    if v == 0 {
        Opcode::Nop
    } else if v == 1 {
        Opcode::Inc
    } else if v == 2 {
        Opcode::Dec
    } else if v == 3 {
        Opcode::IncTape
    } else if v == 4 {
        Opcode::DecTape
    } else if v == 5 {
        Opcode::OutputByte
    } else if v == 6 {
        Opcode::InputByte
    } else if v == 7 {
        Opcode::StartLoop
    } else if v == 8 {
        Opcode::EndLoop
    } else if v == 9 {
        Opcode::JumpRelativeShortIfZero
    } else if v == 10 {
        Opcode::JumpRelativeShortIfNonzero
    } else if v == 11 {
        Opcode::JumpRelativeLongIfZero
    } else if v == 12 {
        Opcode::JumpRelativeLongIfNonzero
    } else if v == 13 {
        Opcode::JumpAbsoluteIfZero
    } else if v == 14 {
        Opcode::JumpAbsoluteIfNonzero
    } else if v == 15 {
        Opcode::SubImmediate
    } else if v == 16 {
        Opcode::SubRelativeLong
    } else if v == 17 {
        Opcode::SetCell
    } else if v == 18 {
        Opcode::MoveTapeShort
    } else if v == 19 {
        Opcode::MoveTapeLong
    } else if v == 20 {
        Opcode::SeekRight
    } else if v == 21 {
        Opcode::SeekLeft
    } else if v == 22 {
        Opcode::HaltAlways
    } else if v == 23 {
        Opcode::HaltIfNotEqual
    } else if v == 24 {
        Opcode::Push
    } else if v == 25 {
        Opcode::Pop
    } else if v == 26 {
        Opcode::PushRand
    } else {
        Opcode::Illegal
    }
}

/// The total encoded width of an instruction, opcode byte included.
pub open spec fn spec_len(op: Opcode) -> nat {
    match op {
        Opcode::HaltIfNotEqual
        | Opcode::JumpRelativeShortIfZero
        | Opcode::JumpRelativeShortIfNonzero
        | Opcode::SubImmediate
        | Opcode::MoveTapeShort
        | Opcode::SetCell => 2,
        Opcode::JumpRelativeLongIfZero
        | Opcode::JumpRelativeLongIfNonzero
        | Opcode::SubRelativeLong
        | Opcode::MoveTapeLong => 3,
        Opcode::JumpAbsoluteIfZero | Opcode::JumpAbsoluteIfNonzero => 5,
        _ => 1,
    }
}

/// The encoded width of the instruction whose opcode byte is `b`.
pub open spec fn spec_len_of_byte(b: u8) -> nat {
    spec_len(spec_from_u8(b))
}

/// Decoding is a left inverse of encoding, for every opcode.
pub proof fn lemma_opcode_roundtrip(op: Opcode)
    ensures
        spec_from_u8(spec_ordinal(op)) == op,
{
}

/// Encoding is a left inverse of decoding, below the sentinel.
pub proof fn lemma_byte_roundtrip(v: u8)
    ensures
        v < spec_ordinal(Opcode::Illegal) ==> spec_ordinal(spec_from_u8(v)) == v,
        v >= spec_ordinal(Opcode::Illegal) ==> spec_from_u8(v) == Opcode::Illegal,
{
}

impl Opcode {
    /// The total encoded width of this instruction, opcode byte included.
    pub fn len(&self) -> (r: usize)
        ensures
            r == spec_len(*self),
    {
        match self {
            Opcode::HaltIfNotEqual
            | Opcode::JumpRelativeShortIfZero
            | Opcode::JumpRelativeShortIfNonzero
            | Opcode::SubImmediate
            | Opcode::MoveTapeShort
            | Opcode::SetCell => 2,
            Opcode::JumpRelativeLongIfZero
            | Opcode::JumpRelativeLongIfNonzero
            | Opcode::SubRelativeLong
            | Opcode::MoveTapeLong => 3,
            Opcode::JumpAbsoluteIfZero | Opcode::JumpAbsoluteIfNonzero => 5,
            _ => 1,
        }
    }

    /// The ordinal of this opcode in the binary encoding.
    pub fn to_u8(self) -> (r: u8)
        ensures
            r == spec_ordinal(self),
    {
        match self {
            Opcode::Nop => 0,
            Opcode::Inc => 1,
            Opcode::Dec => 2,
            Opcode::IncTape => 3,
            Opcode::DecTape => 4,
            Opcode::OutputByte => 5,
            Opcode::InputByte => 6,
            Opcode::StartLoop => 7,
            Opcode::EndLoop => 8,
            Opcode::JumpRelativeShortIfZero => 9,
            Opcode::JumpRelativeShortIfNonzero => 10,
            Opcode::JumpRelativeLongIfZero => 11,
            Opcode::JumpRelativeLongIfNonzero => 12,
            Opcode::JumpAbsoluteIfZero => 13,
            Opcode::JumpAbsoluteIfNonzero => 14,
            Opcode::SubImmediate => 15,
            Opcode::SubRelativeLong => 16,
            Opcode::SetCell => 17,
            Opcode::MoveTapeShort => 18,
            Opcode::MoveTapeLong => 19,
            Opcode::SeekRight => 20,
            Opcode::SeekLeft => 21,
            Opcode::HaltAlways => 22,
            Opcode::HaltIfNotEqual => 23,
            Opcode::Push => 24,
            Opcode::Pop => 25,
            Opcode::PushRand => 26,
            Opcode::Illegal => 27,
        }
    }

    /// Bounds-checked decoding of a raw byte.
    pub fn from_u8(v: u8) -> (r: Opcode)
        ensures
            r == spec_from_u8(v),
    {
        match v {
            0 => Opcode::Nop,
            1 => Opcode::Inc,
            2 => Opcode::Dec,
            3 => Opcode::IncTape,
            4 => Opcode::DecTape,
            5 => Opcode::OutputByte,
            6 => Opcode::InputByte,
            7 => Opcode::StartLoop,
            8 => Opcode::EndLoop,
            9 => Opcode::JumpRelativeShortIfZero,
            10 => Opcode::JumpRelativeShortIfNonzero,
            11 => Opcode::JumpRelativeLongIfZero,
            12 => Opcode::JumpRelativeLongIfNonzero,
            13 => Opcode::JumpAbsoluteIfZero,
            14 => Opcode::JumpAbsoluteIfNonzero,
            15 => Opcode::SubImmediate,
            16 => Opcode::SubRelativeLong,
            17 => Opcode::SetCell,
            18 => Opcode::MoveTapeShort,
            19 => Opcode::MoveTapeLong,
            20 => Opcode::SeekRight,
            21 => Opcode::SeekLeft,
            22 => Opcode::HaltAlways,
            23 => Opcode::HaltIfNotEqual,
            24 => Opcode::Push,
            25 => Opcode::Pop,
            26 => Opcode::PushRand,
            _ => Opcode::Illegal,
        }
    }

    /// Decoding that reports the sentinel as an absent value: bytes at
    /// or above the ordinal of `Illegal` give `None`.
    pub fn from_i8(n: i8) -> (r: Option<Opcode>)
        ensures
            r == (if spec_from_u8(n as u8) == Opcode::Illegal {
                None::<Opcode>
            } else {
                Some(spec_from_u8(n as u8))
            }),
    {
        let op = Opcode::from_u8(n as u8);
        match op {
            Opcode::Illegal => None,
            x => Some(x),
        }
    }
}

} // verus!
