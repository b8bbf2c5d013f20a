//! The mathematical model every grid representation is viewed as: a
//! row-major sequence of cells on a torus, and the generation that follows it.
use vstd::prelude::*;
use vstd::arithmetic::div_mod::{lemma_fundamental_div_mod, lemma_mod_multiples_vanish, lemma_mod_twice};
use crate::arith::{lemma_index_in_range, lemma_split_index};

verus! {

/// Conway's rule B3/S23: a cell is alive in the next generation when it has
/// three live neighbours, or when it is alive and has two.
pub open spec fn life_rule(alive: bool, neighbors: int) -> bool {
    neighbors == 3 || (alive && neighbors == 2)
}

/// A board state: `cols * rows` cells, row-major, where the cell at
/// `(col, row)` is `cells[row * cols + col]`.
pub struct Board {
    pub cols: nat,
    pub rows: nat,
    pub cells: Seq<bool>,
}

impl Board {
    pub open spec fn wf(self) -> bool {
        &&& self.cols > 0
        &&& self.rows > 0
        &&& self.cells.len() == self.cols * self.rows
    }

    /// Position in `cells` of the cell at `(col, row)`, both in range.
    pub open spec fn index(self, col: int, row: int) -> int {
        row * self.cols + col
    }

    /// Whether the cell at `(col, row)` is alive, with both coordinates taken
    /// modulo the board's dimensions: the board wraps around at every edge.
    pub open spec fn alive(self, col: int, row: int) -> bool {
        self.cells[self.index(col % (self.cols as int), row % (self.rows as int))]
    }

    pub open spec fn bit(self, col: int, row: int) -> int {
        if self.alive(col, row) {
            1
        } else {
            0
        }
    }

    /// Number of live cells among the eight toroidal neighbours of `(col, row)`.
    pub open spec fn neighbor_count(self, col: int, row: int) -> int {
        self.bit(col - 1, row - 1) + self.bit(col, row - 1) + self.bit(col + 1, row - 1)
            + self.bit(col - 1, row) + self.bit(col + 1, row)
            + self.bit(col - 1, row + 1) + self.bit(col, row + 1) + self.bit(col + 1, row + 1)
    }

    /// Whether the cell at `(col, row)` is alive in the next generation.
    pub open spec fn next_alive(self, col: int, row: int) -> bool {
        life_rule(self.alive(col, row), self.neighbor_count(col, row))
    }

    /// The next generation: every cell updated at once from this state.
    pub open spec fn next(self) -> Board {
        Board {
            cols: self.cols,
            rows: self.rows,
            cells: Seq::new(
                self.cells.len(),
                |i: int| self.next_alive(i % (self.cols as int), i / (self.cols as int)),
            ),
        }
    }

    /// The board after `n` generations.
    pub open spec fn advance(self, n: nat) -> Board
        decreases n,
    {
        if n == 0 {
            self
        } else {
            self.advance((n - 1) as nat).next()
        }
    }

    /// The board with every cell moved one column to the right, wrapping
    /// the last column round to the first.
    pub open spec fn shift_right(self) -> Board {
        Board {
            cols: self.cols,
            rows: self.rows,
            cells: Seq::new(
                self.cells.len(),
                |i: int| self.alive(i % (self.cols as int) - 1, i / (self.cols as int)),
            ),
        }
    }

    /// The board with every cell moved one row down, wrapping the last row
    /// round to the first.
    pub open spec fn shift_down(self) -> Board {
        Board {
            cols: self.cols,
            rows: self.rows,
            cells: Seq::new(
                self.cells.len(),
                |i: int| self.alive(i % (self.cols as int), i / (self.cols as int) - 1),
            ),
        }
    }

    /// Number of live cells.
    pub open spec fn live_count(self) -> nat {
        count_true(self.cells)
    }
}

/// The board of `cols` by `rows` dead cells.
pub open spec fn empty_board(cols: nat, rows: nat) -> Board {
    Board { cols, rows, cells: Seq::new(cols * rows, |i: int| false) }
}

/// Number of `true` entries of `s`.
pub open spec fn count_true(s: Seq<bool>) -> nat
    decreases s.len(),
{
    if s.len() == 0 {
        0
    } else {
        count_true(s.drop_last()) + if s.last() {
            1nat
        } else {
            0nat
        }
    }
}

/// Making one entry `true` adds one to the count if it was `false`.
pub proof fn lemma_count_set(s: Seq<bool>, i: int)
    requires
        0 <= i < s.len(),
    ensures
        count_true(s.update(i, true)) == count_true(s) + if s[i] {
            0nat
        } else {
            1nat
        },
    decreases s.len(),
{
    let t = s.update(i, true);
    if i == s.len() - 1 {
        assert(t.drop_last() =~= s.drop_last());
    } else {
        assert(t.drop_last() =~= s.drop_last().update(i, true));
        lemma_count_set(s.drop_last(), i);
    }
}

/// A sequence with a `true` entry counts at least one.
pub proof fn lemma_count_positive(s: Seq<bool>, i: int)
    requires
        0 <= i < s.len(),
        s[i],
    ensures
        count_true(s) >= 1,
    decreases s.len(),
{
    if i < s.len() - 1 {
        lemma_count_positive(s.drop_last(), i);
    }
}

/// Moving by `d` before or after reducing modulo `n` lands on the same
/// residue.
pub proof fn lemma_mod_shift(x: int, d: int, n: int)
    requires
        n > 0,
    ensures
        (x % n + d) % n == (x + d) % n,
{
    lemma_fundamental_div_mod(x, n);
    lemma_mod_multiples_vanish(-(x / n), x + d, n);
    assert(n * (-(x / n)) + (x + d) == x % n + d) by (nonlinear_arith)
        requires x == n * (x / n) + x % n;
}

/// The shifted board's cell at `(col, row)` is the unshifted board's cell one
/// column to the left.
proof fn lemma_shift_alive(b: Board, col: int, row: int)
    requires
        b.wf(),
    ensures
        b.shift_right().alive(col, row) == b.alive(col - 1, row),
{
    let n = b.cols as int;
    let m = b.rows as int;
    lemma_index_in_range(n, m, col % n, row % m);
    lemma_mod_shift(col, -1, n);
    lemma_mod_twice(row, m);
}

/// The board shifted down has at `(col, row)` the cell one row above.
proof fn lemma_shift_down_alive(b: Board, col: int, row: int)
    requires
        b.wf(),
    ensures
        b.shift_down().alive(col, row) == b.alive(col, row - 1),
{
    let n = b.cols as int;
    let m = b.rows as int;
    lemma_index_in_range(n, m, col % n, row % m);
    lemma_mod_shift(row, -1, m);
    lemma_mod_twice(col, n);
}

/// Every cell has the same number of live neighbours after the whole board
/// is rotated by one column, or by one row, as the cell it came from had
/// before: counting neighbours does not depend on where on the torus a
/// pattern stands.
pub proof fn lemma_neighbor_count_rotates(b: Board, col: int, row: int)
    requires
        b.wf(),
    ensures
        b.shift_right().neighbor_count(col, row) == b.neighbor_count(col - 1, row),
        b.shift_down().neighbor_count(col, row) == b.neighbor_count(col, row - 1),
{
    let s = b.shift_right();
    let d = b.shift_down();
    let c = col;
    let r = row;
    lemma_shift_alive(b, c - 1, r - 1);
    lemma_shift_alive(b, c, r - 1);
    lemma_shift_alive(b, c + 1, r - 1);
    lemma_shift_alive(b, c - 1, r);
    lemma_shift_alive(b, c + 1, r);
    lemma_shift_alive(b, c - 1, r + 1);
    lemma_shift_alive(b, c, r + 1);
    lemma_shift_alive(b, c + 1, r + 1);
    assert(s.neighbor_count(c, r) == b.neighbor_count(c - 1, r));
    lemma_shift_down_alive(b, c - 1, r - 1);
    lemma_shift_down_alive(b, c, r - 1);
    lemma_shift_down_alive(b, c + 1, r - 1);
    lemma_shift_down_alive(b, c - 1, r);
    lemma_shift_down_alive(b, c + 1, r);
    lemma_shift_down_alive(b, c - 1, r + 1);
    lemma_shift_down_alive(b, c, r + 1);
    lemma_shift_down_alive(b, c + 1, r + 1);
    let r1 = r - 1;
    assert(r1 - 1 == r - 1 - 1 && r1 + 1 == r + 1 - 1 && r1 == r - 1);
    assert(b.neighbor_count(c, r1) == b.bit(c - 1, r - 2) + b.bit(c, r - 2) + b.bit(c + 1, r - 2)
        + b.bit(c - 1, r - 1) + b.bit(c + 1, r - 1) + b.bit(c - 1, r) + b.bit(c, r) + b.bit(c + 1, r));
    assert(d.neighbor_count(c, r) == b.neighbor_count(c, r1));
}

/// The cells around `(col, row)` depend on `col` only modulo the width.
proof fn lemma_next_alive_periodic(b: Board, col: int, row: int)
    requires
        b.wf(),
    ensures
        b.next_alive(col % (b.cols as int), row) == b.next_alive(col, row),
{
    let n = b.cols as int;
    lemma_mod_shift(col, -1, n);
    lemma_mod_shift(col, 0, n);
    lemma_mod_shift(col, 1, n);
}

/// The rule does not depend on where a pattern stands: moving every cell one
/// column to the right (wrapping round) and then advancing one generation
/// gives the same board as advancing first and moving afterwards.
pub proof fn lemma_next_commutes_with_shift(b: Board)
    requires
        b.wf(),
    ensures
        b.shift_right().next() == b.next().shift_right(),
{
    let n = b.cols as int;
    let m = b.rows as int;
    let s = b.shift_right();
    let lhs = s.next();
    let rhs = b.next().shift_right();
    assert forall|i: int| 0 <= i < lhs.cells.len() implies #[trigger] lhs.cells[i] == rhs.cells[i] by {
        lemma_split_index(n, m, i);
        let c = i % n;
        let r = i / n;
        lemma_shift_alive(b, c, r);
        lemma_shift_alive(b, c - 1, r - 1);
        lemma_shift_alive(b, c, r - 1);
        lemma_shift_alive(b, c + 1, r - 1);
        lemma_shift_alive(b, c - 1, r);
        lemma_shift_alive(b, c + 1, r);
        lemma_shift_alive(b, c - 1, r + 1);
        lemma_shift_alive(b, c, r + 1);
        lemma_shift_alive(b, c + 1, r + 1);
        assert(lhs.cells[i] == b.next_alive(c - 1, r));
        let c1 = (c - 1) % n;
        assert(0 <= c1 < n);
        lemma_index_in_range(n, m, c1, r);
        vstd::arithmetic::div_mod::lemma_small_mod(r as nat, m as nat);
        assert(b.next().alive(c - 1, r) == b.next_alive(c1, r));
        lemma_next_alive_periodic(b, c - 1, r);
    }
    assert(lhs.cells =~= rhs.cells);
}

} // verus!
