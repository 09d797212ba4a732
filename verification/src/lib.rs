//! A genetic-algorithm engine for short round-trip tours over 2-D point sets.
//!
//! Coordinates are integers and distances are Euclidean lengths rounded down
//! to an integer, so every quantity the engine manipulates is exact.
pub mod ga;
pub mod map;
pub mod rnd;
pub mod genome;
pub mod solve;

use vstd::prelude::*;

verus! {

} // verus!
