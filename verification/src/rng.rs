use vstd::prelude::*;

verus! {

/// Successor of a xorshift64 state.
pub open spec fn rng_next(s: u64) -> u64 {
    let a = s ^ (s << 13);
    let b = a ^ (a >> 7);
    b ^ (b << 17)
}

/// State a generator falls back to when seeded with zero, where the
/// xorshift recurrence would be stuck.
pub const RNG_FALLBACK_SEED: u64 = 0x9E37_79B9_7F4A_7C15;

/// The state a generator starts from for a given seed.
pub open spec fn rng_init(seed: u64) -> u64 {
    if seed == 0 {
        RNG_FALLBACK_SEED
    } else {
        seed
    }
}

/// A deterministic xorshift64 pseudo-random source.
///
/// The whole simulation draws from a single sequential generator, so a
/// run is a pure function of the seed it was constructed with.
pub struct Rng {
    state: u64,
}

impl Rng {
    /// The current generator state.
    pub closed spec fn view(self) -> u64 {
        self.state
    }

    /// Creates a generator from an explicit seed.
    pub fn new(seed: u64) -> (r: Rng)
        ensures
            r@ == rng_init(seed),
    {
        if seed == 0 {
            Rng { state: RNG_FALLBACK_SEED }
        } else {
            Rng { state: seed }
        }
    }

    /// Advances the state and returns it as the next draw.
    pub fn next(&mut self) -> (r: u64)
        ensures
            final(self)@ == rng_next(old(self)@),
            r == final(self)@,
    {
        let s: u64 = self.state;
        let a: u64 = s ^ (s << 13u64);
        let b: u64 = a ^ (a >> 7u64);
        let c: u64 = b ^ (b << 17u64);
        self.state = c;
        c
    }
}

} // verus!
