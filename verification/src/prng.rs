//! A small deterministic 16-bit pseudo-random generator.
//!
//! The state advances by a fixed bit-mixing transform.  Two states,
//! 0x560a and 0xe550, form their own cycle of length two; seeding from
//! the clock rejects them (and zero) so the generator never starts in
//! a degenerate short cycle.

use vstd::prelude::*;

verus! {

/// One application of the bit-mixing transform to a 16-bit state.
pub open spec fn sm64_spec(state: u16) -> u16 {
    let i0: u16 = if state == 0x560a {
        0
    } else {
        state
    };
    let s0: u16 = (i0 << 8) ^ i0;
    let i1: u16 = (s0 << 8) | (s0 >> 8);
    let s1: u16 = i1 ^ ((s0 & 0xff) << 1);
    let s2: u16 = 0xff80 ^ (s1 >> 1);
    if s1 & 1 == 1 {
        0x8180 ^ s2
    } else {
        0x1ff4 ^ s2
    }
}

/// The pseudo-random generator: nothing but a 16-bit state.
#[derive(Debug, Clone, Copy)]
pub struct Prng {
    data: u16,
}

impl View for Prng {
    type V = u16;

    closed spec fn view(&self) -> u16 {
        self.data
    }
}

/// Relies on std::time::Instant (through `now`, `elapsed` and
/// `subsec_nanos`) for a nanosecond reading of the clock.  The result
/// depends on the moment of the call, so nothing is promised of it.
#[verifier::external_body]
fn subsec_nanos_now() -> (r: u32)
    ensures
        r < 1_000_000_000,
{
    std::time::Instant::now().elapsed().subsec_nanos()
}

impl Prng {
    pub fn new() -> (p: Prng)
        ensures
            p@ == 0u16,
    {
        Prng { data: 0 }
    }

    pub fn new_from_seed(seed: u16) -> (p: Prng)
        ensures
            p@ == seed,
    {
        let mut p = Prng::new();
        p.seed(seed);
        p
    }

    /// Seed from the clock, rejecting zero and the two states of the
    /// degenerate two-cycle: a reading that lands on one of those
    /// three values is nudged to the next state, which never does.
    pub fn new_from_time() -> (p: Prng)
        ensures
            p@ != 0u16,
            p@ != 0x560au16,
            p@ != 0xe550u16,
    {
        let mut seed: u16 = (subsec_nanos_now() % 0x10000) as u16;
        if seed == 0 || seed == 0x560a || seed == 0xe550 {
            seed = seed + 1;
        }
        Prng::new_from_seed(seed)
    }

    pub fn seed(&mut self, seed: u16)
        ensures
            final(self)@ == seed,
    {
        self.data = seed;
    }

    fn read(&self) -> (r: u16)
        ensures
            r == self@,
    {
        self.data
    }

    fn next(&self) -> (r: u16)
        ensures
            r == sm64_spec(self@),
    {
        let mut i = self.read();
        if i == 0x560a {
            // 0x560a and 0xe550 are in their own cycle of 2,
            // so just in case either is given as a seed
            i = 0;
        }
        let mut s0: u16 = (i << 8) ^ i;
        i = (s0 << 8) | (s0 >> 8);
        s0 = i ^ ((s0 & 0xff) << 1);
        let s1: u16 = 0xff80 ^ (s0 >> 1);
        if s0 & 1 == 1 {
            0x8180 ^ s1
        } else {
            0x1ff4 ^ s1
        }
    }

    /// Advance the state and hand out its low byte.
    pub fn gen_u8(&mut self) -> (r: u8)
        ensures
            final(self)@ == sm64_spec(old(self)@),
            r == (sm64_spec(old(self)@) & 0xff) as u8,
    {
        self.data = self.next();
        (self.data & 0xff) as u8
    }
}

} // verus!
