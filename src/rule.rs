//! Conway's rule on a single cell.
use vstd::prelude::*;
use crate::board::life_rule;

verus! {

/// Whether a cell is alive in the next generation, given whether it is alive
/// now and how many of its eight neighbours are.
pub fn rule(alive: bool, neighbors: u8) -> (r: bool)
    ensures
        r == life_rule(alive, neighbors as int),
{
    neighbors == 3 || (alive && neighbors == 2)
}

} // verus!
