//! Random heights for new skip-list nodes: level `k` is reached with
//! probability `p^k`, capped at `max_level`.

use vstd::prelude::*;

verus! {

/// A source of node heights. Whatever its distribution, a generated level
/// never exceeds `max_level`, which is fixed for the generator's lifetime.
pub trait LevelGenerator: Sized {
    spec fn spec_max_level(&self) -> usize;

    fn max_level(&self) -> (r: usize)
        ensures
            r == self.spec_max_level(),
    ;

    fn generate_level(&self) -> (r: usize)
        ensures
            r <= self.spec_max_level(),
    ;
}

/// Relies on rand::random: a `u32` drawn from the thread-local generator.
/// Nothing is assumed of its value.
#[verifier::external_body]
fn random_u32() -> u32 {
    rand::random::<u32>()
}

/// Geometric heights: climb one level with probability
/// `numerator / denominator`, stop otherwise, capped at `max_level`.
pub struct RandomLevelGenerator {
    pub max_level: usize,
    pub numerator: u32,
    pub denominator: u32,
}

impl RandomLevelGenerator {
    pub fn new(max_level: usize, numerator: u32, denominator: u32) -> (r: RandomLevelGenerator)
        requires
            0 < denominator,
            numerator <= denominator,
        ensures
            r.max_level == max_level,
            r.spec_max_level() == max_level,
    {
        RandomLevelGenerator { max_level, numerator, denominator }
    }
}

impl LevelGenerator for RandomLevelGenerator {
    open spec fn spec_max_level(&self) -> usize {
        self.max_level
    }

    fn max_level(&self) -> (r: usize) {
        self.max_level
    }

    fn generate_level(&self) -> (r: usize) {
        let mut level: usize = 0;
        while level < self.max_level
            invariant
                level <= self.max_level,
            decreases self.max_level - level,
        {
            let draw = random_u32();
            proof {
                assert((draw as u64) * (self.denominator as u64) <= (u32::MAX as u64) * (
                u32::MAX as u64)) by (nonlinear_arith)
                    requires
                        draw as u64 <= u32::MAX as u64,
                        self.denominator as u64 <= u32::MAX as u64,
                ;
            }
            // Climb while the draw falls below numerator / denominator.
            if (draw as u64) * (self.denominator as u64) < ((self.numerator as u64) << 32) {
                level = level + 1;
            } else {
                return level;
            }
        }
        level
    }
}

} // verus!
