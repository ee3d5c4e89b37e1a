//! A string-art planner: turns a grayscale raster into an ordered sequence of
//! pins on a polygonal window, such that straight thread segments drawn
//! between consecutive pins approximate the raster's tonal values.
//!
//! All tonal arithmetic is carried out in exact fixed-point integers so that
//! every step of the planner is deterministic and fully specified.
use vstd::prelude::*;

pub mod atomicf32;
pub mod canvas;
pub mod graph;
pub mod math;
pub mod planner;
pub mod raster;
pub mod rng;
pub mod score;
pub mod transfer;
pub mod types;

verus! {

/// Default cap on the number of planning iterations for a window.
pub fn default_iter_limit() -> (r: u32)
    ensures
        r == 512,
{
    512
}

} // verus!
