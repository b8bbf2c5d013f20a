//! A column-major grid: one bit vector per column, each holding the column's
//! cells from top to bottom.
use vstd::prelude::*;
use bit_vec::BitVec;
use crate::arith::{lemma_index_in_range, lemma_split_index, lemma_wrap};
use crate::board::{empty_board, Board};

verus! {

#[verifier::external_type_specification]
#[verifier::external_body]
#[verifier::reject_recursive_types(B)]
pub struct ExBitVec<B>(BitVec<B>);

/// The bits a bit vector holds, in order.
pub uninterp spec fn bits_of(v: BitVec) -> Seq<bool>;

/// Relies on bit_vec's `BitVec::from_elem`: `n` bits, each equal to `bit`.
#[verifier::external_body]
fn bits_filled(n: usize, bit: bool) -> (r: BitVec)
    ensures
        bits_of(r) == Seq::new(n as nat, |i: int| bit),
{
    BitVec::from_elem(n, bit)
}

/// Relies on bit_vec's `BitVec::get`: the bit at `i`, or `None` past the end.
#[verifier::external_body]
fn bits_get(v: &BitVec, i: usize) -> (r: Option<bool>)
    ensures
        r == if i < bits_of(*v).len() {
            Some(bits_of(*v)[i as int])
        } else {
            None::<bool>
        },
{
    v.get(i)
}

/// Relies on bit_vec's `BitVec::set`, which panics past the end: bit `i`
/// becomes `x`, the others stay.
#[verifier::external_body]
fn bits_set(v: &mut BitVec, i: usize, x: bool)
    requires
        i < bits_of(*old(v)).len(),
    ensures
        bits_of(*final(v)) == bits_of(*old(v)).update(i as int, x),
{
    v.set(i, x)
}

/// Relies on bit_vec's `BitVec::len`: the number of bits.
#[verifier::external_body]
fn bits_len(v: &BitVec) -> (r: usize)
    ensures
        r == bits_of(*v).len(),
{
    v.len()
}

/// A toroidal grid stored column by column: `cells[col]` holds the cells of
/// column `col`, row 0 first.
pub struct Grid {
    pub cells: Vec<BitVec>,
}

impl Grid {
    pub open spec fn num_cols(&self) -> int {
        self.cells@.len() as int
    }

    pub open spec fn num_rows(&self) -> int {
        bits_of(self.cells@[0]).len() as int
    }

    pub open spec fn wf(&self) -> bool {
        &&& self.num_cols() > 0
        &&& self.num_rows() > 0
        &&& self.num_cols() <= u32::MAX
        &&& self.num_rows() <= u32::MAX
        &&& self.num_cols() * self.num_rows() <= usize::MAX
        &&& forall|c: int|
            0 <= c < self.num_cols() ==> bits_of(#[trigger] self.cells@[c]).len() == self.num_rows()
    }
}

impl View for Grid {
    type V = Board;

    open spec fn view(&self) -> Board {
        Board {
            cols: self.num_cols() as nat,
            rows: self.num_rows() as nat,
            cells: Seq::new(
                (self.num_cols() * self.num_rows()) as nat,
                |i: int| bits_of(self.cells@[i % self.num_cols()])[i / self.num_cols()],
            ),
        }
    }
}

impl Grid {
    /// A grid of `board_size.0` columns and `board_size.1` rows, all dead.
    pub fn new(board_size: (u32, u32)) -> (r: Grid)
        requires
            board_size.0 > 0,
            board_size.1 > 0,
            (board_size.0 as int) * (board_size.1 as int) <= usize::MAX,
        ensures
            r.wf(),
            r@ == empty_board(board_size.0 as nat, board_size.1 as nat),
    {
        let mut cells: Vec<BitVec> = Vec::new();
        let mut k: u32 = 0;
        while k < board_size.0
            invariant
                k <= board_size.0,
                cells@.len() == k,
                forall|c: int|
                    0 <= c < k ==> bits_of(#[trigger] cells@[c]) == Seq::new(
                        board_size.1 as nat,
                        |i: int| false,
                    ),
            decreases board_size.0 - k,
        {
            cells.push(bits_filled(board_size.1 as usize, false));
            k = k + 1;
        }
        let g = Grid { cells };
        proof {
            assert(g@.cells =~= empty_board(board_size.0 as nat, board_size.1 as nat).cells) by {
                assert forall|i: int| 0 <= i < g@.cells.len() implies #[trigger] g@.cells[i] == false by {
                    lemma_split_index(board_size.0 as int, board_size.1 as int, i);
                }
            }
        }
        g
    }

    /// Whether the cell at `(col, row)` is alive; `false` outside the grid.
    pub fn cell(&self, col: usize, row: usize) -> (r: bool)
        requires
            self.wf(),
        ensures
            r == (col < self@.cols && row < self@.rows && self@.alive(col as int, row as int)),
    {
        if col < self.cells.len() {
            proof {
                assert(bits_of(self.cells@[col as int]).len() == self.num_rows());
            }
            match bits_get(&self.cells[col], row) {
                Some(b) => {
                    proof {
                        lemma_index_in_range(self.num_cols(), self.num_rows(), col as int, row as int);
                        lemma_wrap(col as int, self.num_cols());
                        lemma_wrap(row as int, self.num_rows());
                    }
                    b
                },
                None => false,
            }
        } else {
            false
        }
    }

    /// Makes the cell at `(col, row)` alive or dead. Coordinates outside the
    /// grid are ignored.
    pub fn set_cell(&mut self, col: usize, row: usize, value: bool)
        requires
            old(self).wf(),
        ensures
            final(self).wf(),
            final(self)@.cols == old(self)@.cols,
            final(self)@.rows == old(self)@.rows,
            final(self)@.cells == if col < old(self)@.cols && row < old(self)@.rows {
                old(self)@.cells.update(old(self)@.index(col as int, row as int), value)
            } else {
                old(self)@.cells
            },
    {
        if col < self.cells.len() && row < bits_len(&self.cells[0]) {
            let ghost ob = self@;
            let mut column = self.cells.remove(col);
            proof {
                assert(bits_of(old(self).cells@[col as int]).len() == ob.rows);
            }
            bits_set(&mut column, row, value);
            self.cells.insert(col, column);
            proof {
                let n = ob.cols as int;
                let m = ob.rows as int;
                assert(self.cells@ =~= old(self).cells@.update(col as int, column));
                if col == 0 {
                    assert(self.num_rows() == m);
                } else {
                    assert(self.cells@[0] == old(self).cells@[0]);
                }
                assert forall|c: int| 0 <= c < self.num_cols() implies bits_of(#[trigger] self.cells@[c]).len() == self.num_rows() by {
                    assert(bits_of(old(self).cells@[c]).len() == m);
                }
                lemma_index_in_range(n, m, col as int, row as int);
                let x = ob.index(col as int, row as int);
                assert forall|i: int| 0 <= i < self@.cells.len() implies #[trigger] self@.cells[i] == ob.cells.update(x, value)[i] by {
                    lemma_split_index(n, m, i);
                    if i % n == col && i / n == row {
                        assert(i == x);
                    } else if i == x {
                        assert(i % n == col && i / n == row);
                    }
                }
                assert(self@.cells =~= ob.cells.update(x, value));
            }
        }
    }

    /// Number of live cells among the eight neighbours of `(col, row)`,
    /// wrapping at every edge; `None` outside the grid.
    fn num_neighbors(&self, col: usize, row: usize) -> (r: Option<usize>)
        requires
            self.wf(),
        ensures
            r == if col < self@.cols && row < self@.rows {
                Some(self@.neighbor_count(col as int, row as int) as usize)
            } else {
                None::<usize>
            },
    {
        let num_cols = self.cells.len();
        let num_rows = bits_len(&self.cells[0]);
        if col >= num_cols || row >= num_rows {
            return None;
        }
        let left = ((col as u64 + num_cols as u64 - 1) % num_cols as u64) as usize;
        let right = ((col as u64 + 1) % num_cols as u64) as usize;
        let up = ((row as u64 + num_rows as u64 - 1) % num_rows as u64) as usize;
        let down = ((row as u64 + 1) % num_rows as u64) as usize;
        let ghost b = self@;
        proof {
            let (c, r, n, m) = (col as int, row as int, num_cols as int, num_rows as int);
            lemma_wrap(c, n);
            lemma_wrap(r, m);
            vstd::arithmetic::div_mod::lemma_mod_twice(c - 1, n);
            vstd::arithmetic::div_mod::lemma_mod_twice(c + 1, n);
            vstd::arithmetic::div_mod::lemma_mod_twice(r - 1, m);
            vstd::arithmetic::div_mod::lemma_mod_twice(r + 1, m);
            assert(b.bit(left as int, up as int) == b.bit(c - 1, r - 1));
            assert(b.bit(col as int, up as int) == b.bit(c, r - 1));
            assert(b.bit(right as int, up as int) == b.bit(c + 1, r - 1));
            assert(b.bit(left as int, row as int) == b.bit(c - 1, r));
            assert(b.bit(right as int, row as int) == b.bit(c + 1, r));
            assert(b.bit(left as int, down as int) == b.bit(c - 1, r + 1));
            assert(b.bit(col as int, down as int) == b.bit(c, r + 1));
            assert(b.bit(right as int, down as int) == b.bit(c + 1, r + 1));
        }
        let count = self.bit(left, up) + self.bit(col, up) + self.bit(right, up) + self.bit(left, row)
            + self.bit(right, row) + self.bit(left, down) + self.bit(col, down) + self.bit(right, down);
        Some(count)
    }

    /// 1 if the cell at `(col, row)`, both in range, is alive, else 0.
    fn bit(&self, col: usize, row: usize) -> (r: usize)
        requires
            self.wf(),
            col < self@.cols,
            row < self@.rows,
        ensures
            r == self@.bit(col as int, row as int),
    {
        if self.cell(col, row) {
            1
        } else {
            0
        }
    }

    /// Whether the cell at `(col, row)` is alive in the next generation;
    /// `None` outside the grid.
    pub fn rule_result(&self, col: usize, row: usize) -> (r: Option<bool>)
        requires
            self.wf(),
        ensures
            r == if col < self@.cols && row < self@.rows {
                Some(self@.next_alive(col as int, row as int))
            } else {
                None::<bool>
            },
    {
        match self.num_neighbors(col, row) {
            Some(num_neighbors) => {
                if self.cell(col, row) {
                    if num_neighbors < 2 || num_neighbors > 3 {
                        Some(false)
                    } else {
                        Some(true)
                    }
                } else {
                    if num_neighbors == 3 {
                        Some(true)
                    } else {
                        Some(false)
                    }
                }
            },
            None => None,
        }
    }
}

} // verus!
