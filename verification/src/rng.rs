use vstd::prelude::*;
use rand::Rng;

verus! {

/// Source of uniformly distributed indices for shuffling.
///
/// `System` draws from the process-wide generator of the `rand` crate;
/// `Seeded` steps a deterministic linear congruential generator, so that a
/// whole simulation can be replayed from one seed.
#[derive(Clone, Copy, Debug)]
pub enum RandomSource {
    System,
    Seeded { state: u64 },
}

/// Relies on rand::Rng::gen_range over the range 0..bound: a uniformly
/// distributed integer below `bound`. It panics only on an empty range,
/// which `requires` rules out.
#[verifier::external_body]
fn system_below(bound: usize) -> (r: usize)
    requires
        1 <= bound,
    ensures
        r < bound,
{
    rand::thread_rng().gen_range(0..bound)
}

/// The successor of a seeded state: one step of a 64-bit linear
/// congruential generator, with the multiplier and increment of Knuth's
/// MMIX generator.
pub open spec fn lcg_spec(state: u64) -> u64 {
    (((state as int) * 6364136223846793005 + 1442695040888963407) % 0x1_0000_0000_0000_0000) as u64
}

/// The index a seeded source at `state` draws for `bound`: the high half
/// of the stepped state, reduced below the bound.
pub open spec fn seeded_index(state: u64, bound: usize) -> usize {
    (((lcg_spec(state) >> 32) % (bound as u64)) as usize)
}

/// The seed state a source carries; the system source keeps none of its
/// own and reads as zero.
pub open spec fn state_of(s: RandomSource) -> u64 {
    match s {
        RandomSource::System => 0,
        RandomSource::Seeded { state } => state,
    }
}

fn lcg_step(state: u64) -> (next: u64)
    ensures
        next == lcg_spec(state),
{
    let next = state.wrapping_mul(6364136223846793005).wrapping_add(1442695040888963407);
    proof {
        let m: int = 0x1_0000_0000_0000_0000;
        let c: int = 1442695040888963407;
        let p: int = (state as int) * 6364136223846793005;
        let pm: int = p % m;
        vstd::arithmetic::div_mod::lemma_add_mod_noop(p, c, m);
        vstd::arithmetic::div_mod::lemma_small_mod(c as nat, m as nat);
        if pm + c > u64::MAX {
            vstd::arithmetic::div_mod::lemma_mod_multiples_vanish(1, pm + c - m, m);
            vstd::arithmetic::div_mod::lemma_small_mod((pm + c - m) as nat, m as nat);
        } else {
            vstd::arithmetic::div_mod::lemma_small_mod((pm + c) as nat, m as nat);
        }
        assert(next == lcg_spec(state));
    }
    next
}

impl RandomSource {
    /// A source backed by the operating system's generator.
    pub fn system() -> (s: RandomSource)
        ensures
            s == RandomSource::System,
    {
        RandomSource::System
    }

    /// A deterministic source: the same seed replays the same draws.
    pub fn seeded(seed: u64) -> (s: RandomSource)
        ensures
            s == (RandomSource::Seeded { state: seed }),
    {
        RandomSource::Seeded { state: seed }
    }

    /// Draw an index below `bound`.  A `System` source draws it uniformly
    /// and is not otherwise changed; a `Seeded` source steps its state once
    /// and yields exactly `seeded_index` of the old state.
    pub fn below(&mut self, bound: usize) -> (r: usize)
        requires
            1 <= bound,
        ensures
            r < bound,
            *old(self) is System ==> *final(self) == *old(self),
            ({
                match *old(self) {
                    RandomSource::System => true,
                    RandomSource::Seeded { state } => {
                        &&& *final(self) == (RandomSource::Seeded { state: lcg_spec(state) })
                        &&& r == seeded_index(state, bound)
                    },
                }
            }),
    {
        match *self {
            RandomSource::System => system_below(bound),
            RandomSource::Seeded { state } => {
                let next = lcg_step(state);
                *self = RandomSource::Seeded { state: next };
                let b = bound as u64;
                ((next >> 32) % b) as usize
            },
        }
    }
}

} // verus!
