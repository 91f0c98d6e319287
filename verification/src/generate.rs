//! Random states, made of the numbers of a seeded generator.

use rand::rngs::SmallRng;
use vstd::prelude::*;
use crate::maze::MazeState;
use crate::rng::{entropy_rng, next_u32, seeded_rng};

verus! {

/// The next `count` numbers of the generator, in the order drawn.
pub fn draw_many(rng: &mut SmallRng, count: usize) -> (draws: Vec<u32>)
    ensures
        draws@.len() == count,
{
    let mut draws: Vec<u32> = Vec::new();
    while draws.len() < count
        invariant
            draws@.len() <= count,
        decreases count - draws@.len(),
    {
        let draw: u32 = next_u32(rng);
        draws.push(draw);
    }
    draws
}

impl<const H: usize, const W: usize, const END_TURN: usize> MazeState<H, W, END_TURN> {
    /// A random state at turn 0: the character on a random cell, and on
    /// every other cell a random value of at most `MAX_POINT`. A `seed`
    /// below `u64::MAX` seeds the generator; `u64::MAX` asks the operating
    /// system for a seed.
    ///
    /// There is a state whenever the shape allows one and the generator
    /// could be seeded, which is certain with a seed below `u64::MAX`. The
    /// state is the one that `from_draws` makes of the generator's numbers.
    pub fn new(seed: u64) -> (state: Option<Self>)
        ensures
            seed < u64::MAX && Self::dims_ok() ==> state is Some,
            state is Some ==> {
                &&& Self::dims_ok()
                &&& state->0@.wf()
                &&& exists|draws: Seq<u32>|
                    draws.len() == Self::draws_needed() && state->0@ == #[trigger] Self::generated(
                        draws,
                    )
            },
    {
        if !Self::dims_fit() {
            return None;
        }
        let mut rng_for_construct = if seed < u64::MAX {
            seeded_rng(seed)
        } else {
            match entropy_rng() {
                Some(rng) => rng,
                None => {
                    return None;
                },
            }
        };
        let draws = draw_many(&mut rng_for_construct, H * W + 1);
        let state = Self::from_draws(&draws);
        proof {
            if state is Some {
                assert(state->0@ == Self::generated(draws@));
            }
        }
        state
    }
}

} // verus!
