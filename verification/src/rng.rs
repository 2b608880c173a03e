//! Pseudo-random number generators over fixed-width integer state.
//!
//! Each generator advances its state by a pure integer formula; the formula
//! itself is the contract, so every draw is pinned down exactly.

use vstd::prelude::*;

verus! {

/// Clamps a seed word to be at least 1, as the generators require non-zero state.
pub open spec fn clamp_seed32(s: u32) -> u32 {
    if s == 0 {
        1u32
    } else {
        s
    }
}

/// One step of the 32-bit xorshift recurrence.
pub open spec fn xorshift32_step(x: u32) -> u32 {
    let a = x ^ (x << 13);
    let b = a ^ (a >> 17);
    b ^ (b << 5)
}

/// 32-bit xorshift pseudo-random generator.
pub struct XorShift32(u32);

impl View for XorShift32 {
    type V = u32;

    closed spec fn view(&self) -> u32 {
        self.0
    }
}

impl XorShift32 {
    pub fn new(seed: u32) -> (r: Self)
        ensures
            r@ == clamp_seed32(seed),
    {
        Self(if seed == 0 { 1 } else { seed })
    }

    pub fn nextu(&mut self) -> (r: u32)
        ensures
            final(self)@ == xorshift32_step(old(self)@),
            r == final(self)@,
    {
        let mut x = self.0;
        x ^= x << 13;
        x ^= x >> 17;
        x ^= x << 5;
        self.0 = x;
        x
    }
}

/// One step of the 64-bit xorshift recurrence.
pub open spec fn xorshift64_step(x: u64) -> u64 {
    let a = x ^ (x << 13);
    let b = a ^ (a >> 7);
    b ^ (b << 17)
}

/// 64-bit xorshift pseudo-random generator.
pub struct XorShift64(u64);

impl View for XorShift64 {
    type V = u64;

    closed spec fn view(&self) -> u64 {
        self.0
    }
}

impl XorShift64 {
    pub fn new(seed: u64) -> (r: Self)
        ensures
            r@ == if seed == 0 { 1u64 } else { seed },
    {
        Self(if seed == 0 { 1 } else { seed })
    }

    pub fn nextu(&mut self) -> (r: u64)
        ensures
            final(self)@ == xorshift64_step(old(self)@),
            r == final(self)@,
    {
        let mut x = self.0;
        x ^= x << 13;
        x ^= x >> 7;
        x ^= x << 17;
        self.0 = x;
        x
    }
}

/// The scrambled word that a 128-bit xorshift+ step derives from its state pair.
pub open spec fn xorshift128p_mix(t0: u64, s: u64) -> u64 {
    let t1 = t0 ^ (t0 << 23);
    let t2 = t1 ^ (t1 >> 18);
    t2 ^ (s ^ (s >> 5))
}

/// Addition on u64 that wraps around past the maximum, as the output step uses.
pub open spec fn wrap_add64(x: u64, y: u64) -> u64 {
    if x + y > u64::MAX {
        (x + y - 0x1_0000_0000_0000_0000) as u64
    } else {
        (x + y) as u64
    }
}

/// 128-bit non-linear xorshift+ pseudo-random generator; yields u64 values.
pub struct XorShift128p(u64, u64);

impl View for XorShift128p {
    type V = (u64, u64);

    closed spec fn view(&self) -> (u64, u64) {
        (self.0, self.1)
    }
}

impl XorShift128p {
    pub fn new_raw(seed0: u64, seed1: u64) -> (r: Self)
        ensures
            r@ == (seed0, seed1),
    {
        Self(seed0, seed1)
    }

    pub fn new(seed: u64) -> (r: Self)
        ensures
            ({
                let s0 = xorshift64_step(if seed == 0 { 1u64 } else { seed });
                r@ == (s0, xorshift64_step(s0))
            }),
    {
        let mut rng = XorShift64::new(seed);
        let a = rng.nextu();
        let b = rng.nextu();
        Self::new_raw(a, b)
    }

    pub fn nextu(&mut self) -> (r: u64)
        ensures
            final(self)@ == (old(self)@.1, xorshift128p_mix(old(self)@.0, old(self)@.1)),
            r == wrap_add64(xorshift128p_mix(old(self)@.0, old(self)@.1), old(self)@.1),
    {
        let mut t: u64 = self.0;
        let s: u64 = self.1;
        self.0 = s;
        t ^= t << 23;
        t ^= t >> 18;
        t ^= s ^ (s >> 5);
        self.1 = t;
        t.wrapping_add(s)
    }
}

/// One step of the 16-bit Fibonacci linear-feedback shift register.
/// Returns the new `(feedback bit, register)` pair.
pub open spec fn lfsr16_step(s1: u16) -> (u16, u16) {
    let bit = (s1 ^ (s1 >> 2) ^ (s1 >> 3) ^ (s1 >> 5)) & 1;
    (bit, (s1 >> 1) | (bit << 15))
}

/// 16-bit Fibonacci linear-feedback shift register pseudo-random generator.
pub struct FibLFSR16(u16, u16);

impl View for FibLFSR16 {
    type V = (u16, u16);

    closed spec fn view(&self) -> (u16, u16) {
        (self.0, self.1)
    }
}

impl FibLFSR16 {
    pub fn new_raw(seed0: u16, seed1: u16) -> (r: Self)
        ensures
            r@.0 == if seed0 == 0 { 1u16 } else { seed0 },
            r@.1 == if seed1 == u16::MAX { 0u16 } else { (seed1 + 1) as u16 },
    {
        Self(if seed0 == 0 { 1 } else { seed0 }, seed1.wrapping_add(1))
    }

    pub fn new(seed: u32) -> (r: Self)
        ensures
            ({
                let hi = (seed >> 16) as u16;
                let lo = (seed & 0xFFFF) as u16;
                r@.0 == if hi == 0 { 1u16 } else { hi }
                    && r@.1 == if lo == u16::MAX { 0u16 } else { (lo + 1) as u16 }
            }),
    {
        let hi: u32 = seed >> 16;
        let lo: u32 = seed & 0xFFFF;
        Self::new_raw(hi as u16, lo as u16)
    }

    pub fn nextu(&mut self) -> (r: u16)
        ensures
            final(self)@ == lfsr16_step(old(self)@.1),
            r == final(self)@.1,
    {
        self.0 = ((self.1) ^ (self.1 >> 2) ^ (self.1 >> 3) ^ (self.1 >> 5)) & 1;
        self.1 = (self.1 >> 1) | (self.0 << 15);
        self.1
    }
}

/// One step of the Wichmann-Hill recurrence on the three seed words.
pub open spec fn wichhill_step(s: (u32, u32, u32)) -> (u32, u32, u32) {
    (((s.0 * 171) % 30269) as u32, ((s.1 * 172) % 30307) as u32, ((s.2 * 170) % 30323) as u32)
}

/// Wichmann-Hill pseudo-random generator; three coupled 16-bit-scale streams.
///
/// The floating-point combination of the three streams is left to the caller:
/// [`WichHill::step`] advances the integer state and [`WichHill::seeds`]
/// exposes it.
pub struct WichHill {
    seed0: u32,
    seed1: u32,
    seed2: u32,
}

impl View for WichHill {
    type V = (u32, u32, u32);

    closed spec fn view(&self) -> (u32, u32, u32) {
        (self.seed0, self.seed1, self.seed2)
    }
}

impl WichHill {
    pub fn new_raw(seed0: u32, seed1: u32, seed2: u32) -> (r: Self)
        ensures
            r@ == (clamp_seed32(seed0), clamp_seed32(seed1), clamp_seed32(seed2)),
    {
        Self {
            seed0: if seed0 == 0 { 1 } else { seed0 },
            seed1: if seed1 == 0 { 1 } else { seed1 },
            seed2: if seed2 == 0 { 1 } else { seed2 },
        }
    }

    pub fn new(seed: u32) -> (r: Self)
        ensures
            ({
                let x0 = xorshift32_step(clamp_seed32(seed));
                let x1 = xorshift32_step(x0);
                let x2 = xorshift32_step(x1);
                r@ == (
                    clamp_seed32((x0 % 30000) as u32),
                    clamp_seed32((x1 % 30000) as u32),
                    clamp_seed32((x2 % 30000) as u32),
                )
            }),
    {
        let mut rng = XorShift32::new(seed);
        let a = rng.nextu() % 30000;
        let b = rng.nextu() % 30000;
        let c = rng.nextu() % 30000;
        Self::new_raw(a, b, c)
    }

    /// Advances the three seed words by one Wichmann-Hill step.
    pub fn step(&mut self)
        requires
            old(self)@.0 * 171 <= u32::MAX,
            old(self)@.1 * 172 <= u32::MAX,
            old(self)@.2 * 170 <= u32::MAX,
        ensures
            final(self)@ == wichhill_step(old(self)@),
    {
        self.seed0 = (self.seed0 * 171) % 30269;
        self.seed1 = (self.seed1 * 172) % 30307;
        self.seed2 = (self.seed2 * 170) % 30323;
    }

    /// Returns the current seed words, from which a caller derives a draw.
    pub fn seeds(&self) -> (r: (u32, u32, u32))
        ensures
            r == self@,
    {
        (self.seed0, self.seed1, self.seed2)
    }
}

} // verus!
