//! Arithmetic facts about row-major indexing on a torus.
use vstd::prelude::*;
use vstd::arithmetic::div_mod::{lemma_fundamental_div_mod, lemma_mod_add_multiples_vanish, lemma_small_mod};

verus! {

/// A cell position in range is a position in the buffer, and its column and
/// row come back from it by `%` and `/`.
pub proof fn lemma_index_in_range(cols: int, rows: int, c: int, r: int)
    requires
        0 <= c < cols,
        0 <= r < rows,
    ensures
        0 <= r * cols + c < cols * rows,
        (r * cols + c) % cols == c,
        (r * cols + c) / cols == r,
{
    assert(0 <= r * cols + c < cols * rows) by (nonlinear_arith)
        requires 0 <= c < cols, 0 <= r < rows;
    lemma_fundamental_div_mod(r * cols + c, cols);
    let q = (r * cols + c) / cols;
    let m = (r * cols + c) % cols;
    assert(0 <= m < cols);
    assert(q == r && m == c) by (nonlinear_arith)
        requires r * cols + c == cols * q + m, 0 <= m < cols, 0 <= c < cols, cols > 0;
}

/// A buffer position splits into a column and a row in range.
pub proof fn lemma_split_index(cols: int, rows: int, i: int)
    requires
        cols > 0,
        0 <= i < cols * rows,
    ensures
        0 <= i % cols < cols,
        0 <= i / cols < rows,
        i == (i / cols) * cols + i % cols,
{
    lemma_fundamental_div_mod(i, cols);
    let q = i / cols;
    assert(0 <= q < rows) by (nonlinear_arith)
        requires i == cols * q + i % cols, 0 <= i % cols < cols, 0 <= i < cols * rows, cols > 0;
    assert(i == q * cols + i % cols) by (nonlinear_arith)
        requires i == cols * q + i % cols;
}

/// On a ring of `n` positions, stepping back one is adding `n - 1`, and a
/// position in range is its own residue.
pub proof fn lemma_wrap(c: int, n: int)
    requires
        0 <= c < n,
    ensures
        (c + n - 1) % n == (c - 1) % n,
        c % n == c,
{
    lemma_mod_add_multiples_vanish(c - 1, n);
    lemma_small_mod(c as nat, n as nat);
}

} // verus!
