//! The dense cell buffer: one `bool` per cell, row-major, read with
//! toroidal wraparound.
use vstd::prelude::*;
use crate::arith::{lemma_index_in_range, lemma_wrap};
use crate::board::Board;

verus! {

/// The board that a row-major buffer of `cols * rows` cells stands for.
pub open spec fn board_of(cells: Seq<bool>, cols: usize, rows: usize) -> Board {
    Board { cols: cols as nat, rows: rows as nat, cells }
}

/// Whether `cells` is a buffer for a `cols` by `rows` grid whose positions
/// fit in `usize`.
pub open spec fn buffer_wf(cells: Seq<bool>, cols: usize, rows: usize) -> bool {
    &&& cols > 0
    &&& rows > 0
    &&& cols <= u32::MAX
    &&& rows <= u32::MAX
    &&& cols * rows <= usize::MAX
    &&& cells.len() == cols * rows
}

/// A buffer of `n` dead cells.
pub fn dead_cells(n: usize) -> (r: Vec<bool>)
    ensures
        r@ == Seq::new(n as nat, |i: int| false),
{
    let mut r: Vec<bool> = Vec::new();
    let mut k: usize = 0;
    while k < n
        invariant
            k <= n,
            r@ == Seq::new(k as nat, |i: int| false),
        decreases n - k,
    {
        r.push(false);
        k = k + 1;
        assert(r@ =~= Seq::new(k as nat, |i: int| false));
    }
    r
}

/// Reads the cell at `(col, row)`, both in range.
fn cell_at(cells: &Vec<bool>, cols: usize, rows: usize, col: usize, row: usize) -> (r: u8)
    requires
        buffer_wf(cells@, cols, rows),
        col < cols,
        row < rows,
    ensures
        r == board_of(cells@, cols, rows).bit(col as int, row as int),
{
    proof {
        lemma_index_in_range(cols as int, rows as int, col as int, row as int);
        lemma_wrap(col as int, cols as int);
        lemma_wrap(row as int, rows as int);
    }
    if cells[row * cols + col] {
        1
    } else {
        0
    }
}

/// Number of live cells among the eight neighbours of `(col, row)`, found by
/// wrapping at every edge.
pub fn count_neighbors(cells: &Vec<bool>, cols: usize, rows: usize, col: usize, row: usize) -> (r: u8)
    requires
        buffer_wf(cells@, cols, rows),
        col < cols,
        row < rows,
    ensures
        r == board_of(cells@, cols, rows).neighbor_count(col as int, row as int),
        r <= 8,
{
    let b = Ghost(board_of(cells@, cols, rows));
    let left = ((col as u64 + cols as u64 - 1) % cols as u64) as usize;
    let right = ((col as u64 + 1) % cols as u64) as usize;
    let up = ((row as u64 + rows as u64 - 1) % rows as u64) as usize;
    let down = ((row as u64 + 1) % rows as u64) as usize;
    proof {
        lemma_wrap(col as int, cols as int);
        lemma_wrap(row as int, rows as int);
        let (c, r, n, m) = (col as int, row as int, cols as int, rows as int);
        vstd::arithmetic::div_mod::lemma_mod_twice(c - 1, n);
        vstd::arithmetic::div_mod::lemma_mod_twice(c + 1, n);
        vstd::arithmetic::div_mod::lemma_mod_twice(r - 1, m);
        vstd::arithmetic::div_mod::lemma_mod_twice(r + 1, m);
        assert(b@.bit(left as int, up as int) == b@.bit(c - 1, r - 1));
        assert(b@.bit(col as int, up as int) == b@.bit(c, r - 1));
        assert(b@.bit(right as int, up as int) == b@.bit(c + 1, r - 1));
        assert(b@.bit(left as int, row as int) == b@.bit(c - 1, r));
        assert(b@.bit(right as int, row as int) == b@.bit(c + 1, r));
        assert(b@.bit(left as int, down as int) == b@.bit(c - 1, r + 1));
        assert(b@.bit(col as int, down as int) == b@.bit(c, r + 1));
        assert(b@.bit(right as int, down as int) == b@.bit(c + 1, r + 1));
    }
    cell_at(cells, cols, rows, left, up) + cell_at(cells, cols, rows, col, up) + cell_at(
        cells,
        cols,
        rows,
        right,
        up,
    ) + cell_at(cells, cols, rows, left, row) + cell_at(cells, cols, rows, right, row) + cell_at(
        cells,
        cols,
        rows,
        left,
        down,
    ) + cell_at(cells, cols, rows, col, down) + cell_at(cells, cols, rows, right, down)
}

/// Whether the cell at `(col, row)` is alive in the next generation.
pub fn next_cell(cells: &Vec<bool>, cols: usize, rows: usize, col: usize, row: usize) -> (r: bool)
    requires
        buffer_wf(cells@, cols, rows),
        col < cols,
        row < rows,
    ensures
        r == board_of(cells@, cols, rows).next_alive(col as int, row as int),
{
    let n = count_neighbors(cells, cols, rows, col, row);
    proof {
        lemma_index_in_range(cols as int, rows as int, col as int, row as int);
        lemma_wrap(col as int, cols as int);
        lemma_wrap(row as int, rows as int);
    }
    crate::rule::rule(cells[row * cols + col], n)
}

} // verus!
