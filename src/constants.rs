//! Tuning constants of the search and the deterministic random source that
//! drives every stochastic operator.
use vstd::prelude::*;

verus! {

/// Default quality target, in thousandths.
pub const FITNESS_THRESHOLD: u32 = 950;
/// Worker threads used to score candidates.
pub const WORKERS: usize = 16;
/// Pixel-fix threshold on the weighted channel difference.
pub const PIXEL_FIX_THRESHOLD: u64 = 30;
/// Polygons given to each seed individual.
pub const INITIAL_POLYGONS: usize = 0;
/// Mutated clones made of every individual per generation.
pub const MUTATIONS: usize = 2;
/// Individuals kept from one generation to the next.
pub const POPULATION_SIZE: usize = 16;
/// Vertices scattered by the random polygon generator.
pub const VERTICES: usize = 6;
/// Full width of the square in which the generator scatters vertices.
pub const POLY_SIZE_INIT: u64 = 50;

pub const ADD_POLYGON_RATE: u64 = 30;
pub const MAX_POLYGONS: usize = 100;
pub const REMOVE_POLYGON_RATE: u64 = 100;

pub const CHANGE_COLOR_RATE: u64 = 50;
/// Full width of the interval a recolored channel moves in.
pub const CHANGE_COLOR_MAX: u64 = 150;

pub const MOVE_VERTEX_RATE: u64 = 50;
/// Full width of the interval a moved vertex coordinate moves in.
pub const MOVE_VERTEX_MAX: u64 = 60;

pub const ADD_VERTEX_RATE: u64 = 50;
pub const REMOVE_VERTEX_RATE: u64 = 100;

pub const CHANGE_BLUR_RATE: u64 = 60;

/// Smallest alpha a polygon may carry.
pub const ALPHA_MIN: u8 = 125;
/// Number of alpha values in the band starting at `ALPHA_MIN`.
pub const ALPHA_BAND: u64 = 130;

/// Blur factor bounds, in thousandths.
pub const BLUR_MIN: u32 = 500;
pub const BLUR_MAX: u32 = 1000;

/// Draw that makes an operator fire.
pub const FIRE: u64 = 0;

pub const LCG_MUL: u64 = 6364136223846793005;
pub const LCG_INC: u64 = 1442695040888963407;

/// State after one step of the generator.
pub open spec fn lcg_next(s: u64) -> u64 {
    ((s as int * LCG_MUL as int + LCG_INC as int) % 0x1_0000_0000_0000_0000int) as u64
}

/// Value drawn by the step that leaves the generator in state `s`.
pub open spec fn lcg_output(s: u64) -> u64 {
    s / 0x2_0000_0000
}

/// Deterministic 64-bit linear congruential generator.
pub struct Rng {
    pub state: u64,
}

impl Rng {
    pub fn new(seed: u64) -> (r: Rng)
        ensures
            r.state == seed,
    {
        Rng { state: seed }
    }

    /// Advance one step and return the upper 31 bits of the new state.
    pub fn next(&mut self) -> (r: u64)
        ensures
            final(self).state == lcg_next(old(self).state),
            r == lcg_output(final(self).state),
            r < 0x8000_0000,
    {
        let s = self.state as u128;
        assert(s * (LCG_MUL as u128) <= 0xffff_ffff_ffff_ffff * 6364136223846793005u128) by (nonlinear_arith)
            requires s <= 0xffff_ffff_ffff_ffff;
        let t = (s * (LCG_MUL as u128) + (LCG_INC as u128)) % 0x1_0000_0000_0000_0000u128;
        self.state = t as u64;
        self.state / 0x2_0000_0000
    }

    /// Draw in `[0, n)`: the next output modulo `n`.
    pub fn below(&mut self, n: u64) -> (r: u64)
        requires
            n > 0,
        ensures
            final(self).state == lcg_next(old(self).state),
            r == lcg_output(final(self).state) % n,
            r < n,
    {
        let v = self.next();
        v % n
    }
}

/// Whether an operator with the given rate fires on the next draw: the draw
/// taken modulo `rate` must equal the sentinel `FIRE`, so an operator fires
/// with probability `1/rate`.
pub fn should_mutate(rng: &mut Rng, rate: u64) -> (r: bool)
    requires
        rate > 0,
    ensures
        final(rng).state == lcg_next(old(rng).state),
        r == (lcg_output(final(rng).state) % rate == FIRE),
{
    rng.below(rate) == FIRE
}

} // verus!
