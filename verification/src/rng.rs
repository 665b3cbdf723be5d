//! Deterministic xorshift32 pseudo-random number generator.

use vstd::prelude::*;

verus! {

/// One xorshift32 step: the state that follows `s`.
pub open spec fn xorshift32(s: u32) -> u32 {
    let a = s ^ (s << 13u32);
    let b = a ^ (a >> 17u32);
    b ^ (b << 5u32)
}

/// The state a seed starts from: a zero seed is replaced by one.
pub open spec fn seed_state(seed: u32) -> u32 {
    if seed == 0 {
        1
    } else {
        seed
    }
}

/// Deterministic xorshift32 PRNG.
pub struct Rng(u32);

impl View for Rng {
    type V = u32;

    closed spec fn view(&self) -> u32 {
        self.0
    }
}

impl Rng {
    #[verifier::type_invariant]
    spec fn state_nonzero(self) -> bool {
        self.0 != 0
    }

    /// Create a new RNG with the given seed; a zero seed is replaced with 1.
    pub fn new(seed: u32) -> (r: Self)
        ensures
            r@ == seed_state(seed),
            r@ != 0,
    {
        Rng(if seed == 0 { 1 } else { seed })
    }

    /// Advance the state and return the next raw value, which is the new state.
    pub fn next(&mut self) -> (r: u32)
        ensures
            r == xorshift32(old(self)@),
            final(self)@ == r,
            r != 0,
            r != old(self)@,
    {
        proof {
            use_type_invariant(&*self);
            lemma_xorshift32_nonzero(self.0);
        }
        let mut s = self.0;
        s = s ^ (s << 13u32);
        s = s ^ (s >> 17u32);
        s = s ^ (s << 5u32);
        self.0 = s;
        s
    }

    /// The next value in ten-thousandths of the unit interval: a random
    /// `t / 10000` in `[0, 1)`, which scales a random real into a range.
    pub fn range_ticks(&mut self) -> (t: u32)
        ensures
            final(self)@ == xorshift32(old(self)@),
            t == xorshift32(old(self)@) % 10000,
            t < 10000,
    {
        self.next() % 10000
    }

    /// Random value in `[lo, hi)`: `lo` plus the next raw value modulo `hi - lo`.
    pub fn range_u32(&mut self, lo: u32, hi: u32) -> (r: u32)
        requires
            lo < hi,
        ensures
            final(self)@ == xorshift32(old(self)@),
            r == lo + xorshift32(old(self)@) % ((hi - lo) as u32),
            lo <= r < hi,
    {
        let x = self.next();
        lo + x % (hi - lo)
    }
}

/// xorshift32 never leaves a nonzero state for zero, and zero is its fixed point.
pub proof fn lemma_xorshift32_nonzero(s: u32)
    ensures
        s != 0 ==> xorshift32(s) != 0,
        s != 0 ==> xorshift32(s) != s,
        s == 0 ==> xorshift32(s) == 0,
{
    assert(s != 0 ==> xorshift32(s) != s) by (bit_vector);
    assert(s != 0 ==> (s ^ (s << 13u32)) != 0) by (bit_vector);
    let a = s ^ (s << 13u32);
    assert(a != 0 ==> (a ^ (a >> 17u32)) != 0) by (bit_vector);
    let b = a ^ (a >> 17u32);
    assert(b != 0 ==> (b ^ (b << 5u32)) != 0) by (bit_vector);
    assert(s == 0 ==> xorshift32(s) == 0) by (bit_vector);
}

} // verus!
