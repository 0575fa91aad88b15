//! Lossy image compression by evolving a small set of translucent convex
//! polygons (plus exact pixel overrides) towards a target raster.
//!
//! Everything here is plain integer arithmetic: canvas coordinates are whole
//! pixels, fractional quantities (blur factor, quality threshold) are kept in
//! thousandths, and randomness comes from a small deterministic generator so
//! that every stochastic step is stated over the draws it consumes.
//!
//! Rendering starts from a white background. A polygon covers a pixel when
//! the pixel's grid point lies inside it (even-odd rule) or on its outline.
//! The error map is the only bias on where new polygons are placed; the
//! detected edges of the target are kept for inspection.
use vstd::prelude::*;

pub mod compress;
pub mod constants;
pub mod encoding;
pub mod errormap;
pub mod fitness;
pub mod fnvhasher;
pub mod generator;
pub mod hull;
pub mod mutation;
pub mod render;

verus! {

} // verus!
