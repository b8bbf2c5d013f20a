//! The packed grid: each row stored as `u16` words of sixteen cells, the
//! leftmost cell of a word in its most significant bit, advanced one word at
//! a time by the word-parallel rule.
use vstd::prelude::*;
use vstd::arithmetic::div_mod::{lemma_fundamental_div_mod_converse, lemma_mod_twice};
use rayon::iter::{IntoParallelIterator, ParallelIterator};
use crate::arith::{lemma_index_in_range, lemma_split_index, lemma_wrap};
use crate::board::{empty_board, Board};
use crate::packed::{next_word, triplet_cell, triplet_rule, word_bit, Triplet};
use crate::partition::ConfigError;

verus! {

/// A `num_cols` by `num_rows` toroidal grid, `num_cols` a multiple of 16,
/// stored row-major as words of sixteen cells.
pub struct Grid {
    pub cells: Vec<u16>,
    pub num_cols: usize,
    pub num_rows: usize,
}

/// Where the cell `j` columns on from the first cell of word column `wcol`
/// lies, on a ring of `wc` words: its word column and its place in the word.
proof fn lemma_column(wc: int, wcol: int, j: int)
    requires
        wc >= 1,
        0 <= wcol < wc,
        -1 <= j <= 16,
    ensures
        ({
            let c = (wcol * 16 + j) % (16 * wc);
            &&& 0 <= c < 16 * wc
            &&& c / 16 == if j < 0 {
                (wcol + wc - 1) % wc
            } else if j >= 16 {
                (wcol + 1) % wc
            } else {
                wcol
            }
            &&& c % 16 == if j < 0 {
                15
            } else if j >= 16 {
                0
            } else {
                j
            }
        }),
{
    let n = 16 * wc;
    let c = (wcol * 16 + j) % n;
    if j < 0 {
        if wcol >= 1 {
            lemma_wrap(wcol * 16 - 1, n);
            lemma_wrap(wcol, wc);
            lemma_wrap(wcol - 1, wc);
            vstd::arithmetic::div_mod::lemma_mod_add_multiples_vanish(wcol - 1, wc);
            lemma_fundamental_div_mod_converse(c, 16, wcol - 1, 15);
        } else {
            vstd::arithmetic::div_mod::lemma_mod_add_multiples_vanish(-1, n);
            lemma_wrap(n - 1, n);
            lemma_wrap(wc - 1, wc);
            lemma_fundamental_div_mod_converse(c, 16, wc - 1, 15);
        }
    } else if j >= 16 {
        if wcol + 1 < wc {
            lemma_wrap(wcol * 16 + 16, n);
            lemma_wrap(wcol + 1, wc);
            lemma_fundamental_div_mod_converse(c, 16, wcol + 1, 0);
        } else {
            vstd::arithmetic::div_mod::lemma_mod_self_0(n);
            vstd::arithmetic::div_mod::lemma_mod_self_0(wc);
            lemma_fundamental_div_mod_converse(c, 16, 0, 0);
        }
    } else {
        lemma_wrap(wcol * 16 + j, n);
        lemma_fundamental_div_mod_converse(c, 16, wcol, j);
    }
}

impl Grid {
    pub open spec fn wf(&self) -> bool {
        &&& self.num_cols > 0
        &&& self.num_rows > 0
        &&& self.num_cols % 16 == 0
        &&& self.num_cols <= u32::MAX
        &&& self.num_rows <= u32::MAX
        &&& self.num_cols * self.num_rows <= usize::MAX
        &&& self.cells@.len() == self.word_cols() * self.num_rows
    }

    /// Number of words in a row.
    pub open spec fn word_cols(&self) -> int {
        self.num_cols as int / 16
    }

    /// The cell at `(col, row)`, both in range.
    pub open spec fn cell_spec(&self, col: int, row: int) -> bool {
        word_bit(self.cells@[row * self.word_cols() + col / 16], 15 - col % 16)
    }

    /// Whether `w` is the word at position `idx` one generation on.
    pub open spec fn word_advanced(&self, idx: int, w: u16) -> bool {
        forall|j: int|
            0 <= j < 16 ==> word_bit(w, 15 - j) == #[trigger] self@.next_alive(
                (idx % self.word_cols()) * 16 + j,
                idx / self.word_cols(),
            )
    }
}

impl View for Grid {
    type V = Board;

    open spec fn view(&self) -> Board {
        Board {
            cols: self.num_cols as nat,
            rows: self.num_rows as nat,
            cells: Seq::new(
                (self.num_cols * self.num_rows) as nat,
                |i: int| self.cell_spec(i % (self.num_cols as int), i / (self.num_cols as int)),
            ),
        }
    }
}

/// Relies on rayon's `into_par_iter` over a range, `map` and `collect` into a
/// `Vec`: the closure runs once for each word position, on the pool's
/// threads, and the results come back in the order of the positions.
#[verifier::external_body]
fn next_words(g: &Grid) -> (r: Vec<u16>)
    requires
        g.wf(),
    ensures
        r@.len() == g.cells@.len(),
        forall|idx: int| 0 <= idx < r@.len() ==> g.word_advanced(idx, #[trigger] r@[idx]),
{
    (0..g.cells.len()).into_par_iter().map(|idx| g.word_after(idx)).collect()
}

impl Grid {
    /// The three words of row `row` around word column `wcol`.
    fn triplet(&self, row: usize, wcol: usize) -> (t: Triplet)
        requires
            self.wf(),
            row < self.num_rows,
            wcol < self.word_cols(),
        ensures
            forall|j: int|
                -1 <= j <= 16 ==> #[trigger] triplet_cell(t, j) == self@.alive(
                    wcol * 16 + j,
                    row as int,
                ),
    {
        let wc = self.num_cols / 16;
        let left = (wcol + wc - 1) % wc;
        let right = (wcol + 1) % wc;
        proof {
            assert(wc * self.num_rows <= self.num_cols * self.num_rows) by (nonlinear_arith)
                requires wc * 16 == self.num_cols, self.num_rows > 0;
            lemma_index_in_range(wc as int, self.num_rows as int, left as int, row as int);
            lemma_index_in_range(wc as int, self.num_rows as int, wcol as int, row as int);
            lemma_index_in_range(wc as int, self.num_rows as int, right as int, row as int);
        }
        let off = row * wc;
        let t = (self.cells[off + left], self.cells[off + wcol], self.cells[off + right]);
        proof {
            let cols = self.num_cols as int;
            let rows = self.num_rows as int;
            assert forall|j: int| -1 <= j <= 16 implies #[trigger] triplet_cell(t, j) == self@.alive(
                wcol * 16 + j,
                row as int,
            ) by {
                lemma_column(wc as int, wcol as int, j);
                let c = (wcol * 16 + j) % cols;
                lemma_wrap(row as int, rows);
                lemma_index_in_range(cols, rows, c, row as int);
            }
        }
        t
    }

    /// The word at position `idx` one generation on.
    fn word_after(&self, idx: usize) -> (w: u16)
        requires
            self.wf(),
            idx < self.cells@.len(),
        ensures
            self.word_advanced(idx as int, w),
    {
        let wc = self.num_cols / 16;
        let rows = self.num_rows;
        proof {
            lemma_split_index(wc as int, rows as int, idx as int);
        }
        let wcol = idx % wc;
        let row = idx / wc;
        let up = ((row as u64 + rows as u64 - 1) % rows as u64) as usize;
        let down = ((row as u64 + 1) % rows as u64) as usize;
        let above = self.triplet(up, wcol);
        let middle = self.triplet(row, wcol);
        let below = self.triplet(down, wcol);
        let w = next_word(above, middle, below);
        proof {
            let b = self@;
            lemma_wrap(row as int, rows as int);
            lemma_mod_twice(row - 1, rows as int);
            lemma_mod_twice(row + 1, rows as int);
            lemma_wrap(up as int, rows as int);
            lemma_wrap(down as int, rows as int);
            assert((row - 1) % (rows as int) == up);
            assert((row + 1) % (rows as int) == down);
            assert forall|j: int| 0 <= j < 16 implies word_bit(w, 15 - j) == #[trigger] b.next_alive(
                (idx as int % (wc as int)) * 16 + j,
                idx as int / (wc as int),
            ) by {
                assert(word_bit(w, 15 - j) == triplet_rule(above, middle, below, j));
                let c = wcol * 16 + j;
                assert(triplet_cell(above, j - 1) == b.alive(c - 1, up as int));
                assert(triplet_cell(above, j) == b.alive(c, up as int));
                assert(triplet_cell(above, j + 1) == b.alive(c + 1, up as int));
                assert(triplet_cell(middle, j - 1) == b.alive(c - 1, row as int));
                assert(triplet_cell(middle, j) == b.alive(c, row as int));
                assert(triplet_cell(middle, j + 1) == b.alive(c + 1, row as int));
                assert(triplet_cell(below, j - 1) == b.alive(c - 1, down as int));
                assert(triplet_cell(below, j) == b.alive(c, down as int));
                assert(triplet_cell(below, j + 1) == b.alive(c + 1, down as int));
            }
        }
        w
    }
}

/// Setting or clearing bit `b` of a word leaves the other bits as they were.
proof fn lemma_set_bit(w: u16, w2: u16, b: u16, value: bool)
    requires
        b < 16,
        w2 == if value {
            w | (1u16 << b)
        } else {
            w & !(1u16 << b)
        },
    ensures
        word_bit(w2, b as int) == value,
        forall|i: int| 0 <= i < 16 && i != b ==> #[trigger] word_bit(w2, i) == word_bit(w, i),
{
    if value {
        assert(((((w | (1u16 << b)) as u64) >> (b as u64)) & 1 == 1)) by (bit_vector)
            requires b < 16;
        assert forall|i: int| 0 <= i < 16 && i != b implies #[trigger] word_bit(w2, i) == word_bit(w, i) by {
            let iu = i as u64;
            assert((((w | (1u16 << b)) as u64) >> iu) & 1 == ((w as u64) >> iu) & 1) by (bit_vector)
                requires b < 16, iu < 16, iu != b as u64;
        }
    } else {
        assert(((((w & !(1u16 << b)) as u64) >> (b as u64)) & 1 == 0)) by (bit_vector)
            requires b < 16;
        assert forall|i: int| 0 <= i < 16 && i != b implies #[trigger] word_bit(w2, i) == word_bit(w, i) by {
            let iu = i as u64;
            assert((((w & !(1u16 << b)) as u64) >> iu) & 1 == ((w as u64) >> iu) & 1) by (bit_vector)
                requires b < 16, iu < 16, iu != b as u64;
        }
    }
}

/// The words of a grid fit in `usize` positions when its cells do.
proof fn lemma_words_fit(cols: int, rows: int)
    requires
        cols >= 16,
        rows >= 1,
        cols * rows <= usize::MAX,
    ensures
        (cols / 16) * rows <= cols * rows,
{
    assert((cols / 16) * rows <= cols * rows) by (nonlinear_arith)
        requires cols >= 16, rows >= 1, 0 <= cols / 16 <= cols;
}

impl Grid {
    /// A grid of `board_size.0` columns and `board_size.1` rows, all dead.
    /// The width must be a multiple of the word width, 16.
    pub fn new(board_size: (u32, u32)) -> (r: Result<Grid, ConfigError>)
        requires
            (board_size.0 as int) * (board_size.1 as int) <= usize::MAX,
        ensures
            match r {
                Ok(g) => {
                    &&& board_size.0 > 0
                    &&& board_size.1 > 0
                    &&& board_size.0 % 16 == 0
                    &&& g.wf()
                    &&& g@ == empty_board(board_size.0 as nat, board_size.1 as nat)
                },
                Err(ConfigError::GridTooSmall) => board_size.0 == 0 || board_size.1 == 0,
                Err(ConfigError::WidthNotWordAligned) => {
                    &&& board_size.0 > 0
                    &&& board_size.1 > 0
                    &&& board_size.0 % 16 != 0
                },
                Err(ConfigError::WorkerCountNotSquare) => false,
            },
    {
        let (cols, rows) = board_size;
        if cols == 0 || rows == 0 {
            return Err(ConfigError::GridTooSmall);
        }
        if cols % 16 != 0 {
            return Err(ConfigError::WidthNotWordAligned);
        }
        proof {
            lemma_words_fit(cols as int, rows as int);
        }
        let n = (cols as usize / 16) * rows as usize;
        let mut cells: Vec<u16> = Vec::new();
        let mut k: usize = 0;
        while k < n
            invariant
                k <= n,
                cells@ == Seq::new(k as nat, |i: int| 0u16),
            decreases n - k,
        {
            cells.push(0);
            k = k + 1;
            assert(cells@ =~= Seq::new(k as nat, |i: int| 0u16));
        }
        let g = Grid { cells, num_cols: cols as usize, num_rows: rows as usize };
        proof {
            assert forall|i: int| 0 <= i < g@.cells.len() implies #[trigger] g@.cells[i] == false by {
                lemma_split_index(cols as int, rows as int, i);
                let c = i % (cols as int);
                let rr = i / (cols as int);
                assert(0 <= c / 16 < g.word_cols());
                lemma_index_in_range(g.word_cols(), rows as int, c / 16, rr);
                assert(word_bit(0u16, 15 - c % 16) == false) by {
                    let q = (15 - c % 16) as u64;
                    assert(((0u16 as u64) >> q) & 1 == 0) by (bit_vector);
                }
            }
            assert(g@.cells =~= empty_board(cols as nat, rows as nat).cells);
        }
        Ok(g)
    }

    /// The word at position `idx`: sixteen cells of one row.
    pub fn get_word(&self, idx: usize) -> (r: u16)
        requires
            self.wf(),
            idx < self.cells@.len(),
        ensures
            r == self.cells@[idx as int],
    {
        self.cells[idx]
    }

    /// Replaces the word at position `idx`.
    pub fn set_word(&mut self, idx: usize, word: u16)
        requires
            old(self).wf(),
            idx < old(self).cells@.len(),
        ensures
            final(self).wf(),
            final(self).num_cols == old(self).num_cols,
            final(self).num_rows == old(self).num_rows,
            final(self).cells@ == old(self).cells@.update(idx as int, word),
    {
        self.cells.set(idx, word);
    }

    /// Whether the cell at `(col, row)` is alive; `false` outside the grid.
    pub fn get_cell(&self, col: usize, row: usize) -> (r: bool)
        requires
            self.wf(),
        ensures
            r == (col < self.num_cols && row < self.num_rows && self@.alive(col as int, row as int)),
    {
        if col < self.num_cols && row < self.num_rows {
            let wc = self.num_cols / 16;
            proof {
                lemma_words_fit(self.num_cols as int, self.num_rows as int);
                lemma_index_in_range(self.num_cols as int, self.num_rows as int, col as int, row as int);
                lemma_index_in_range(wc as int, self.num_rows as int, col as int / 16, row as int);
                lemma_wrap(col as int, self.num_cols as int);
                lemma_wrap(row as int, self.num_rows as int);
            }
            let w = self.cells[row * wc + col / 16];
            let b = (15 - col % 16) as u64;
            ((w as u64) >> b) & 1 == 1
        } else {
            false
        }
    }

    /// Makes the cell at `(col, row)` alive or dead. Coordinates outside the
    /// grid are ignored.
    pub fn set_cell(&mut self, col: usize, row: usize, value: bool)
        requires
            old(self).wf(),
        ensures
            final(self).wf(),
            final(self)@.cols == old(self)@.cols,
            final(self)@.rows == old(self)@.rows,
            final(self)@.cells == if col < old(self).num_cols && row < old(self).num_rows {
                old(self)@.cells.update(old(self)@.index(col as int, row as int), value)
            } else {
                old(self)@.cells
            },
    {
        if col < self.num_cols && row < self.num_rows {
            let wc = self.num_cols / 16;
            proof {
                lemma_words_fit(self.num_cols as int, self.num_rows as int);
                lemma_index_in_range(wc as int, self.num_rows as int, col as int / 16, row as int);
            }
            let idx = row * wc + col / 16;
            let b = (15 - col % 16) as u16;
            let u = self.cells[idx];
            let w = if value {
                u | (1u16 << b)
            } else {
                u & !(1u16 << b)
            };
            proof {
                lemma_set_bit(u, w, b, value);
            }
            self.cells.set(idx, w);
            proof {
                let ob = old(self)@;
                let nb = self@;
                let cols = self.num_cols as int;
                let rows = self.num_rows as int;
                lemma_index_in_range(cols, rows, col as int, row as int);
                let x = ob.index(col as int, row as int);
                assert forall|i: int| 0 <= i < nb.cells.len() implies #[trigger] nb.cells[i] == ob.cells.update(x, value)[i] by {
                    lemma_split_index(cols, rows, i);
                    let c = i % cols;
                    let rr = i / cols;
                    lemma_index_in_range(wc as int, rows, c / 16, rr);
                    vstd::arithmetic::div_mod::lemma_fundamental_div_mod(c, 16);
                    vstd::arithmetic::div_mod::lemma_fundamental_div_mod(col as int, 16);
                    lemma_index_in_range(wc as int, rows, col as int / 16, row as int);
                    if rr * wc + c / 16 == idx {
                        assert(rr == row && c / 16 == col / 16);
                        if c % 16 == col % 16 {
                            assert(c == col);
                            assert(i == x);
                        } else {
                            assert(i != x);
                            assert(b as int == 15 - (col as int) % 16);
                            assert(0 <= 15 - c % 16 < 16);
                            assert(15 - c % 16 != b as int);
                            assert(word_bit(w, 15 - c % 16) == word_bit(u, 15 - c % 16));
                        }
                    } else {
                        if i == x {
                            assert(c == col && rr == row);
                        }
                    }
                }
                assert(nb.cells =~= ob.cells.update(x, value));
            }
        }
    }

    /// Advances the grid by one generation: every word is computed from the
    /// current words in parallel, then all are replaced at once.
    pub fn run_lifecycle(&mut self)
        requires
            old(self).wf(),
        ensures
            final(self).wf(),
            final(self)@ == old(self)@.next(),
    {
        let next = next_words(self);
        let ghost ob = self@;
        let ghost og = *self;
        self.cells = next;
        proof {
            let cols = self.num_cols as int;
            let rows = self.num_rows as int;
            let wc = self.word_cols();
            assert forall|i: int| 0 <= i < self@.cells.len() implies #[trigger] self@.cells[i] == ob.next().cells[i] by {
                lemma_split_index(cols, rows, i);
                let c = i % cols;
                let rr = i / cols;
                assert(0 <= c / 16 < wc);
                lemma_index_in_range(wc, rows, c / 16, rr);
                let idx = rr * wc + c / 16;
                assert(og.word_advanced(idx, next@[idx]));
                let j = c % 16;
                assert((c / 16) * 16 + j == c);
                assert(word_bit(next@[idx], 15 - j) == ob.next_alive((idx % wc) * 16 + j, idx / wc));
            }
            assert(self@.cells =~= ob.next().cells);
        }
    }
}

} // verus!
