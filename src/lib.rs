//! A toroidal Game of Life engine whose grids, rules and generation steps
//! are specified against one mathematical board model.
mod arith;
pub mod board;
pub mod dense;
pub mod engine;
pub mod grid;
pub mod grid_alternative;
pub mod input;
pub mod packed;
pub mod partition;
pub mod patterns;
pub mod rle;
pub mod rule;
pub mod session;
pub mod worker;

use vstd::prelude::*;

verus! {

} // verus!
