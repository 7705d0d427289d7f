use vstd::prelude::*;

verus! {

/// One step of the xorshift sequence over 64-bit state.
pub open spec fn seed_step(s: u64) -> u64 {
    let a = s ^ (s << 13);
    let b = a ^ (a >> 7);
    b ^ (b << 17)
}

/// The candidate index a seeded source picks among `n` candidates when its
/// state is `s`.
pub open spec fn seed_pick(s: u64, n: usize) -> usize {
    (seed_step(s) % (n as u64)) as usize
}

/// Relies on rand::Rng::gen_range over the half-open range `0..n`: the
/// sample lies below `n`; the empty range, the one case where it panics,
/// is excluded by the precondition.
#[verifier::external_body]
fn external_below(n: usize) -> (r: usize)
    requires
        n > 0,
    ensures
        r < n,
{
    rand::Rng::gen_range(&mut rand::thread_rng(), 0..n)
}

/// A replaceable source of uniform choices, threaded explicitly through
/// every algorithm so runs can be reproduced.
pub enum RandomSource {
    /// Operating-system randomness through the `rand` crate.
    External,
    /// A deterministic xorshift sequence grown from a fixed seed.
    Seeded { state: u64 },
    /// Always the first candidate.
    First,
}

impl RandomSource {
    /// A source backed by the thread-local generator.
    pub fn external() -> (r: RandomSource)
        ensures
            r == RandomSource::External,
    {
        RandomSource::External
    }

    /// A deterministic source; equal seeds give equal choice sequences.
    pub fn seeded(seed: u64) -> (r: RandomSource)
        ensures
            r == (RandomSource::Seeded { state: seed }),
    {
        RandomSource::Seeded { state: seed }
    }

    /// A source that always picks the first candidate.
    pub fn first() -> (r: RandomSource)
        ensures
            r == RandomSource::First,
    {
        RandomSource::First
    }

    /// An index below `n`: uniform for the external source, a pure function
    /// of the state for a seeded one, zero for the first-candidate source.
    pub fn next_below(&mut self, n: usize) -> (r: usize)
        requires
            n > 0,
        ensures
            r < n,
            match *old(self) {
                RandomSource::External => *final(self) == RandomSource::External,
                RandomSource::Seeded { state } => {
                    &&& *final(self) == (RandomSource::Seeded { state: seed_step(state) })
                    &&& r == seed_pick(state, n)
                },
                RandomSource::First => *final(self) == RandomSource::First && r == 0,
            },
    {
        match self {
            RandomSource::External => external_below(n),
            RandomSource::Seeded { state } => {
                let s = *state;
                let a = s ^ (s << 13u64);
                let b = a ^ (a >> 7u64);
                let next = b ^ (b << 17u64);
                *state = next;
                let r = next % (n as u64);
                assert(r < n as u64);
                r as usize
            },
            RandomSource::First => 0,
        }
    }
}

} // verus!
