//! Fitness: squared per-channel error between a target raster and a
//! rendered candidate, and the convergence test on normalized scores.
use vstd::prelude::*;
use crate::encoding::{Encoding, Rgb};
use crate::render::{render, rendered};

verus! {

/// Largest squared error of one pixel: `3 * 255^2`.
pub const MAX_PIXEL_ERROR: u64 = 195075;

pub open spec fn diff_spec(a: u8, b: u8) -> int {
    if a > b {
        a - b
    } else {
        b - a
    }
}

/// Sum of squared channel differences of one pixel.
pub open spec fn px_error(t: Rgb, c: Rgb) -> int {
    diff_spec(t.r, c.r) * diff_spec(t.r, c.r) + diff_spec(t.g, c.g) * diff_spec(t.g, c.g)
        + diff_spec(t.b, c.b) * diff_spec(t.b, c.b)
}

/// Squared error over the first `n` pixels.
pub open spec fn sq_error(t: Seq<Rgb>, c: Seq<Rgb>, n: nat) -> int
    decreases n,
{
    if n == 0 {
        0
    } else {
        sq_error(t, c, (n - 1) as nat) + px_error(t[n - 1], c[n - 1])
    }
}

/// Fitness of `e` against target raster `base`: lower is better.
pub open spec fn score(base: Seq<Rgb>, e: Encoding) -> int {
    sq_error(base, rendered(e, false), base.len())
}

/// `|a - b|`.
pub fn diff(a: u8, b: u8) -> (r: u64)
    ensures
        r == diff_spec(a, b),
        r <= 255,
{
    if a > b {
        (a - b) as u64
    } else {
        (b - a) as u64
    }
}

/// `px_error(t, c)`.
pub fn pixel_error(t: Rgb, c: Rgb) -> (r: u64)
    ensures
        r == px_error(t, c),
        r <= MAX_PIXEL_ERROR,
{
    let (dr, dg, db) = (diff(t.r, c.r), diff(t.g, c.g), diff(t.b, c.b));
    assert(dr * dr <= 65025 && dg * dg <= 65025 && db * db <= 65025) by (nonlinear_arith)
        requires dr <= 255, dg <= 255, db <= 255;
    dr * dr + dg * dg + db * db
}

/// `sq_error(t, c, t.len())`.
pub fn raster_error(t: &Vec<Rgb>, c: &Vec<Rgb>) -> (r: u64)
    requires
        t.len() == c.len(),
        t.len() <= 0x1_0000_0000,
    ensures
        r == sq_error(t@, c@, t.len() as nat),
{
    let mut sum: u64 = 0;
    let mut i: usize = 0;
    while i < t.len()
        invariant
            t.len() == c.len(),
            t.len() <= 0x1_0000_0000,
            i <= t.len(),
            sum == sq_error(t@, c@, i as nat),
            sum <= i * MAX_PIXEL_ERROR,
        decreases t.len() - i,
    {
        let e = pixel_error(t[i], c[i]);
        assert(i * MAX_PIXEL_ERROR + MAX_PIXEL_ERROR <= 0x1_0000_0000 * MAX_PIXEL_ERROR) by (nonlinear_arith)
            requires i < 0x1_0000_0000;
        sum = sum + e;
        i += 1;
    }
    sum
}

/// Fitness of `individual` against `base`: render without antialiasing
/// and sum the squared channel differences.
pub fn fitness(dims: (u32, u32), base: &Vec<Rgb>, individual: &Encoding) -> (r: u64)
    requires
        individual.wf(),
        individual.dimensions == dims,
        base.len() == dims.0 as int * dims.1 as int,
    ensures
        r == score(base@, *individual),
{
    let new_render = render(individual, false);
    assert(base.len() <= 0x1_0000_0000) by (nonlinear_arith)
        requires base.len() == dims.0 as int * dims.1 as int, dims.0 <= 65536, dims.1 <= 65536, dims.0 >= 0, dims.1 >= 0;
    raster_error(base, &new_render)
}

/// `1 - best / max >= threshold / 1000`, without division: with `max == 0`
/// only a perfect score converges.
pub open spec fn converged_spec(best: int, max: int, threshold: int) -> bool {
    1000 * best <= (1000 - threshold) * max
}

/// Whether the normalized score `1 - best / max` reaches `threshold`
/// thousandths.
pub fn converged(best: u64, max: u64, threshold: u32) -> (r: bool)
    requires
        threshold <= 1000,
    ensures
        r == converged_spec(best as int, max as int, threshold as int),
{
    assert(((1000 - threshold) as u128) * (max as u128) <= 1000 * 0xffff_ffff_ffff_ffffu128) by (nonlinear_arith)
        requires threshold <= 1000, max <= 0xffff_ffff_ffff_ffffu64;
    (best as u128) * 1000 <= ((1000 - threshold) as u128) * (max as u128)
}

} // verus!
