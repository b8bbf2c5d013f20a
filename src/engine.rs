//! The engine: a dense buffer advanced one generation at a time by workers
//! that each own one patch of a square tiling and run in parallel.
use vstd::prelude::*;
use rayon::iter::{IntoParallelRefIterator, ParallelIterator};
use crate::arith::{lemma_index_in_range, lemma_split_index, lemma_wrap};
use crate::board::{count_true, empty_board, Board};
use crate::dense::{board_of, buffer_wf, dead_cells};
use crate::partition::{
    is_square, lemma_prefix_bounds, lemma_tiling_exact, partition, side_of, tile_contains,
    ConfigError, Patch,
};
use crate::worker::Worker;

verus! {

/// Relies on rayon's `par_iter` over a slice, `map` and `collect` into a
/// `Vec`: the closure runs once for each worker, on the pool's threads, and
/// the results come back in the workers' order.
#[verifier::external_body]
fn advance_all(workers: &Vec<Worker>, cells: &Vec<bool>, cols: usize, rows: usize) -> (r: Vec<
    Worker,
>)
    requires
        buffer_wf(cells@, cols, rows),
        forall|k: int|
            0 <= k < workers@.len() ==> (#[trigger] workers@[k]).fits(cols as int, rows as int)
                && workers@[k].tracks(board_of(cells@, cols, rows)),
    ensures
        r@.len() == workers@.len(),
        forall|k: int|
            0 <= k < workers@.len() ==> (#[trigger] workers@[k]).advanced_to(
                board_of(cells@, cols, rows),
                r@[k],
            ),
{
    workers.par_iter().map(|w| w.advance(cells, cols, rows)).collect()
}

/// The simulation: a `cols` by `rows` toroidal grid, its workers, and the
/// number of generations computed so far.
pub struct Engine {
    cols: usize,
    rows: usize,
    side: Ghost<int>,
    cells: Vec<bool>,
    workers: Vec<Worker>,
    generation: u64,
}

impl View for Engine {
    type V = Board;

    closed spec fn view(&self) -> Board {
        board_of(self.cells@, self.cols, self.rows)
    }
}

/// Whether `cols`, `rows` and `workers` can be set up together: the worker
/// count is a square `side * side`, and each dimension is at least `side`.
pub open spec fn config_ok(cols: int, rows: int, workers: int) -> bool {
    &&& is_square(workers)
    &&& cols >= side_of(workers)
    &&& rows >= side_of(workers)
}

/// The tile `k` of a tiling with `side` tiles a side fits in the grid.
proof fn lemma_tile_fits(cols: int, rows: int, side: int, k: int, p: Patch)
    requires
        side >= 1,
        cols >= side,
        rows >= side,
        0 <= k < side * side,
        p.is_tile(cols, rows, side, k),
    ensures
        p.col_start < p.col_end <= cols,
        p.row_start < p.row_end <= rows,
        forall|c: int, r: int| p.contains(c, r) <==> tile_contains(cols, rows, side, k, c, r),
{
    lemma_split_index(side, side, k);
    lemma_prefix_bounds(cols, side, k % side);
    lemma_prefix_bounds(rows, side, k / side);
    lemma_prefix_bounds(cols, side, k % side + 1);
    lemma_prefix_bounds(rows, side, k / side + 1);
}

impl Engine {
    pub closed spec fn wf(&self) -> bool {
        &&& buffer_wf(self.cells@, self.cols, self.rows)
        &&& self.side@ >= 1
        &&& self.cols >= self.side@
        &&& self.rows >= self.side@
        &&& self.workers@.len() == self.side@ * self.side@
        &&& forall|k: int|
            0 <= k < self.workers@.len() ==> (#[trigger] self.workers@[k]).patch.is_tile(
                self.cols as int,
                self.rows as int,
                self.side@,
                k,
            )
        &&& forall|k: int|
            0 <= k < self.workers@.len() ==> (#[trigger] self.workers@[k]).fits(
                self.cols as int,
                self.rows as int,
            )
        &&& forall|k: int| 0 <= k < self.workers@.len() ==> (#[trigger] self.workers@[k]).tracks(self@)
    }

    pub closed spec fn spec_generation(&self) -> u64 {
        self.generation
    }

    pub closed spec fn spec_worker_count(&self) -> usize {
        self.workers.len()
    }

    /// Every cell of the grid lies in exactly one worker's patch.
    proof fn lemma_owner(&self, col: int, row: int)
        requires
            self.wf(),
            0 <= col < self@.cols,
            0 <= row < self@.rows,
        ensures
            exists|k: int|
                0 <= k < self.workers@.len() && (#[trigger] self.workers@[k]).patch.contains(col, row),
            forall|k1: int, k2: int|
                0 <= k1 < self.workers@.len() && 0 <= k2 < self.workers@.len()
                    && (#[trigger] self.workers@[k1]).patch.contains(col, row)
                    && (#[trigger] self.workers@[k2]).patch.contains(col, row) ==> k1 == k2,
    {
        let side = self.side@;
        lemma_tiling_exact(self.cols as int, self.rows as int, side, col, row);
        assert forall|k: int| 0 <= k < self.workers@.len() implies (#[trigger] self.workers@[k]).patch.contains(col, row)
            == tile_contains(self.cols as int, self.rows as int, side, k, col, row) by {
            lemma_tile_fits(self.cols as int, self.rows as int, side, k, self.workers@[k].patch);
        }
        let k = choose|k: int|
            0 <= k < side * side && tile_contains(self.cols as int, self.rows as int, side, k, col, row);
        assert(self.workers@[k].patch.contains(col, row));
    }

    /// Sets up a `cols` by `rows` grid of dead cells, split among
    /// `worker_count` workers as `partition` splits it.
    pub fn new(cols: u32, rows: u32, worker_count: u32) -> (r: Result<Engine, ConfigError>)
        requires
            (cols as int) * (rows as int) <= usize::MAX,
        ensures
            match r {
                Ok(e) => {
                    &&& config_ok(cols as int, rows as int, worker_count as int)
                    &&& e.wf()
                    &&& e@ == empty_board(cols as nat, rows as nat)
                    &&& e.generation() == 0
                    &&& e.worker_count() == worker_count
                },
                Err(ConfigError::WorkerCountNotSquare) => !is_square(worker_count as int),
                Err(ConfigError::GridTooSmall) => {
                    &&& is_square(worker_count as int)
                    &&& !config_ok(cols as int, rows as int, worker_count as int)
                },
                Err(ConfigError::WidthNotWordAligned) => false,
            },
    {
        let patches = match partition(cols, rows, worker_count) {
            Ok(p) => p,
            Err(e) => {
                return Err(e);
            },
        };
        let ghost side = side_of(worker_count as int);
        let n = (cols as usize) * (rows as usize);
        let cells = dead_cells(n);
        let mut workers: Vec<Worker> = Vec::new();
        let mut k: usize = 0;
        while k < patches.len()
            invariant
                0 <= k <= patches@.len(),
                patches@.len() == worker_count,
                side >= 1,
                side * side == worker_count,
                cols >= side,
                rows >= side,
                forall|j: int|
                    0 <= j < patches@.len() ==> (#[trigger] patches@[j]).is_tile(
                        cols as int,
                        rows as int,
                        side,
                        j,
                    ),
                workers@.len() == k,
                forall|j: int|
                    0 <= j < k ==> (#[trigger] workers@[j]).patch == patches@[j] && workers@[j].live@
                        == Seq::<usize>::empty(),
            decreases patches@.len() - k,
        {
            workers.push(Worker { patch: patches[k], live: Vec::new() });
            k = k + 1;
        }
        let e = Engine {
            cols: cols as usize,
            rows: rows as usize,
            side: Ghost(side),
            cells,
            workers,
            generation: 0,
        };
        proof {
            assert(e@.cells =~= empty_board(cols as nat, rows as nat).cells);
            assert forall|j: int| 0 <= j < e.workers@.len() implies (#[trigger] e.workers@[j]).fits(
                cols as int,
                rows as int,
            ) by {
                lemma_tile_fits(cols as int, rows as int, side, j, e.workers@[j].patch);
            }
            assert forall|j: int| 0 <= j < e.workers@.len() implies (#[trigger] e.workers@[j]).tracks(e@) by {
                assert(e.workers@[j].live@.len() == 0);
            }
        }
        Ok(e)
    }

    /// The number of generations computed since the engine was set up.
    #[verifier::when_used_as_spec(spec_generation)]
    pub fn generation(&self) -> (r: u64)
        ensures
            r == self.spec_generation(),
    {
        self.generation
    }

    /// The number of workers.
    #[verifier::when_used_as_spec(spec_worker_count)]
    pub fn worker_count(&self) -> (r: usize)
        ensures
            r == self.spec_worker_count(),
    {
        self.workers.len()
    }

    /// Position in the cell buffer of the cell at `(col, row)`.
    pub fn coord_to_index(&self, col: u32, row: u32) -> (r: usize)
        requires
            self.wf(),
            col < self@.cols,
            row < self@.rows,
        ensures
            r == self@.index(col as int, row as int),
            r < self@.cells.len(),
    {
        proof {
            lemma_index_in_range(self.cols as int, self.rows as int, col as int, row as int);
        }
        (row as usize) * self.cols + col as usize
    }

    /// The cell at position `idx` of the cell buffer, as `(col, row)`.
    pub fn index_to_coord(&self, idx: usize) -> (r: (u32, u32))
        requires
            self.wf(),
            idx < self@.cells.len(),
        ensures
            r.0 < self@.cols,
            r.1 < self@.rows,
            self@.index(r.0 as int, r.1 as int) == idx,
    {
        proof {
            lemma_split_index(self.cols as int, self.rows as int, idx as int);
        }
        ((idx % self.cols) as u32, (idx / self.cols) as u32)
    }

    /// Whether the cell at `(col, row)` is alive; `false` outside the grid.
    pub fn get_cell(&self, col: u32, row: u32) -> (r: bool)
        requires
            self.wf(),
        ensures
            r == (col < self@.cols && row < self@.rows && self@.alive(col as int, row as int)),
    {
        if (col as usize) < self.cols && (row as usize) < self.rows {
            proof {
                lemma_index_in_range(self.cols as int, self.rows as int, col as int, row as int);
                lemma_wrap(col as int, self.cols as int);
                lemma_wrap(row as int, self.rows as int);
            }
            self.cells[(row as usize) * self.cols + col as usize]
        } else {
            false
        }
    }

    /// Number of live cells.
    pub fn live_count(&self) -> (r: usize)
        requires
            self.wf(),
        ensures
            r == self@.live_count(),
    {
        let mut n: usize = 0;
        let mut i: usize = 0;
        while i < self.cells.len()
            invariant
                i <= self.cells@.len(),
                n == count_true(self.cells@.subrange(0, i as int)),
                n <= i,
            decreases self.cells@.len() - i,
        {
            proof {
                assert(self.cells@.subrange(0, i + 1).drop_last() =~= self.cells@.subrange(0, i as int));
            }
            if self.cells[i] {
                n = n + 1;
            }
            i = i + 1;
        }
        proof {
            assert(self.cells@.subrange(0, i as int) =~= self.cells@);
        }
        n
    }

    /// Advances the grid by one generation. Every worker computes the next
    /// state of its patch from the current buffer, in parallel, and only
    /// when all are done is the buffer rewritten: the cells of the old live
    /// sets are cleared, those of the new ones set, and the new live sets
    /// kept.
    pub fn step(&mut self)
        requires
            old(self).wf(),
            old(self).generation() < u64::MAX,
        ensures
            final(self).wf(),
            final(self)@ == old(self)@.next(),
            final(self).generation() == old(self).generation() + 1,
            final(self).worker_count() == old(self).worker_count(),
    {
        let ghost b = self@;
        let next = advance_all(&self.workers, &self.cells, self.cols, self.rows);
        let mut k: usize = 0;
        while k < self.workers.len()
            invariant
                self.cols == old(self).cols,
                self.rows == old(self).rows,
                self.workers == old(self).workers,
                self.side == old(self).side,
                self.generation == old(self).generation,
                b == old(self)@,
                old(self).wf(),
                k <= self.workers@.len(),
                self.cells@.len() == b.cells.len(),
                forall|i: int| 0 <= i < b.cells.len() && #[trigger] self.cells@[i] ==> b.cells[i],
                forall|k2: int, t2: int|
                    0 <= k2 < k && 0 <= t2 < self.workers@[k2].live@.len() ==> !self.cells@[
                        #[trigger] self.workers@[k2].live@[t2] as int],
            decreases self.workers@.len() - k,
        {
            let mut t: usize = 0;
            while t < self.workers[k].live.len()
                invariant
                    self.cols == old(self).cols,
                    self.rows == old(self).rows,
                    self.workers == old(self).workers,
                    self.side == old(self).side,
                    self.generation == old(self).generation,
                    b == old(self)@,
                    old(self).wf(),
                    k < self.workers@.len(),
                    t <= self.workers@[k as int].live@.len(),
                    self.cells@.len() == b.cells.len(),
                    forall|i: int| 0 <= i < b.cells.len() && #[trigger] self.cells@[i] ==> b.cells[i],
                    forall|k2: int, t2: int|
                        0 <= k2 < k && 0 <= t2 < self.workers@[k2].live@.len() ==> !self.cells@[
                            #[trigger] self.workers@[k2].live@[t2] as int],
                    forall|t2: int|
                        0 <= t2 < t ==> !self.cells@[#[trigger] self.workers@[k as int].live@[t2] as int],
                decreases self.workers@[k as int].live@.len() - t,
            {
                let i = self.workers[k].live[t];
                proof {
                    assert(self.workers@[k as int].tracks(b));
                    assert(i < b.cells.len());
                }
                self.cells.set(i, false);
                t = t + 1;
            }
            k = k + 1;
        }
        proof {
            assert forall|i: int| 0 <= i < b.cells.len() implies !#[trigger] self.cells@[i] by {
                if self.cells@[i] {
                    lemma_split_index(b.cols as int, b.rows as int, i);
                    old(self).lemma_owner(i % (b.cols as int), i / (b.cols as int));
                    let k2 = choose|k2: int|
                        0 <= k2 < self.workers@.len() && (#[trigger] self.workers@[k2]).patch.contains(
                            i % (b.cols as int),
                            i / (b.cols as int),
                        );
                    assert(self.workers@[k2].tracks(b));
                    assert(self.workers@[k2].live@.contains(i as usize));
                    let t2 = choose|t2: int| 0 <= t2 < self.workers@[k2].live@.len() && self.workers@[k2].live@[t2] == i as usize;
                    assert(!self.cells@[self.workers@[k2].live@[t2] as int]);
                }
            }
        }
        let ghost nb = b.next();
        proof {
            assert forall|k2: int| 0 <= k2 < next@.len() implies (#[trigger] next@[k2]).tracks(nb) by {
                assert(self.workers@[k2].advanced_to(b, next@[k2]));
            }
        }
        let mut k: usize = 0;
        while k < next.len()
            invariant
                self.cols == old(self).cols,
                self.rows == old(self).rows,
                self.workers == old(self).workers,
                self.side == old(self).side,
                self.generation == old(self).generation,
                b == old(self)@,
                nb == b.next(),
                old(self).wf(),
                next@.len() == self.workers@.len(),
                forall|k2: int|
                    0 <= k2 < self.workers@.len() ==> (#[trigger] self.workers@[k2]).advanced_to(
                        b,
                        next@[k2],
                    ),
                k <= next@.len(),
                forall|k2: int| 0 <= k2 < next@.len() ==> (#[trigger] next@[k2]).tracks(nb),
                self.cells@.len() == b.cells.len(),
                forall|i: int| 0 <= i < b.cells.len() && #[trigger] self.cells@[i] ==> nb.cells[i],
                forall|k2: int, t2: int|
                    0 <= k2 < k && 0 <= t2 < next@[k2].live@.len() ==> self.cells@[
                        #[trigger] next@[k2].live@[t2] as int],
            decreases next@.len() - k,
        {
            let mut t: usize = 0;
            while t < next[k].live.len()
                invariant
                    self.cols == old(self).cols,
                    self.rows == old(self).rows,
                    self.workers == old(self).workers,
                    self.side == old(self).side,
                    self.generation == old(self).generation,
                    b == old(self)@,
                    nb == b.next(),
                    old(self).wf(),
                    next@.len() == self.workers@.len(),
                    forall|k2: int|
                        0 <= k2 < self.workers@.len() ==> (#[trigger] self.workers@[k2]).advanced_to(
                            b,
                            next@[k2],
                        ),
                    k < next@.len(),
                    t <= next@[k as int].live@.len(),
                    forall|k2: int| 0 <= k2 < next@.len() ==> (#[trigger] next@[k2]).tracks(nb),
                    self.cells@.len() == b.cells.len(),
                    forall|i: int| 0 <= i < b.cells.len() && #[trigger] self.cells@[i] ==> nb.cells[i],
                    forall|k2: int, t2: int|
                        0 <= k2 < k && 0 <= t2 < next@[k2].live@.len() ==> self.cells@[
                            #[trigger] next@[k2].live@[t2] as int],
                    forall|t2: int|
                        0 <= t2 < t ==> self.cells@[#[trigger] next@[k as int].live@[t2] as int],
                decreases next@[k as int].live@.len() - t,
            {
                let i = next[k].live[t];
                proof {
                    assert(self.workers@[k as int].advanced_to(b, next@[k as int]));
                    assert(next@[k as int].tracks(nb));
                }
                self.cells.set(i, true);
                t = t + 1;
            }
            k = k + 1;
        }
        proof {
            assert forall|i: int| 0 <= i < b.cells.len() implies #[trigger] self.cells@[i] == nb.cells[i] by {
                if nb.cells[i] {
                    lemma_split_index(b.cols as int, b.rows as int, i);
                    old(self).lemma_owner(i % (b.cols as int), i / (b.cols as int));
                    let k2 = choose|k2: int|
                        0 <= k2 < self.workers@.len() && (#[trigger] self.workers@[k2]).patch.contains(
                            i % (b.cols as int),
                            i / (b.cols as int),
                        );
                    assert(self.workers@[k2].advanced_to(b, next@[k2]));
                    assert(next@[k2].live@.contains(i as usize));
                    let t2 = choose|t2: int| 0 <= t2 < next@[k2].live@.len() && next@[k2].live@[t2] == i as usize;
                    assert(self.cells@[next@[k2].live@[t2] as int]);
                }
            }
            assert(self.cells@ =~= nb.cells);
        }
        self.workers = next;
        self.generation = self.generation + 1;
        proof {
            assert(self@ == nb);
            assert forall|k2: int| 0 <= k2 < self.workers@.len() implies (#[trigger] self.workers@[k2]).patch.is_tile(
                self.cols as int,
                self.rows as int,
                self.side@,
                k2,
            ) && self.workers@[k2].fits(self.cols as int, self.rows as int) && self.workers@[k2].tracks(self@) by {
                assert(old(self).workers@[k2].advanced_to(b, self.workers@[k2]));
                assert(old(self).workers@[k2].patch.is_tile(self.cols as int, self.rows as int, self.side@, k2));
                assert(old(self).workers@[k2].fits(self.cols as int, self.rows as int));
            }
        }
    }

    /// The worker whose patch holds the cell at `(col, row)`.
    fn owner(&self, col: usize, row: usize) -> (k: usize)
        requires
            self.wf(),
            col < self.cols,
            row < self.rows,
        ensures
            k < self.workers@.len(),
            self.workers@[k as int].patch.contains(col as int, row as int),
    {
        proof {
            self.lemma_owner(col as int, row as int);
        }
        let mut k: usize = 0;
        while k < self.workers.len()
            invariant
                self.wf(),
                col < self.cols,
                row < self.rows,
                k <= self.workers@.len(),
                exists|k2: int|
                    0 <= k2 < self.workers@.len() && (#[trigger] self.workers@[k2]).patch.contains(
                        col as int,
                        row as int,
                    ),
                forall|k2: int|
                    0 <= k2 < k ==> !(#[trigger] self.workers@[k2]).patch.contains(
                        col as int,
                        row as int,
                    ),
            decreases self.workers@.len() - k,
        {
            let p = self.workers[k].patch;
            if (p.col_start as usize) <= col && col < (p.col_end as usize) && (p.row_start as usize)
                <= row && row < (p.row_end as usize) {
                return k;
            }
            k = k + 1;
        }
        proof {
            let k2 = choose|k2: int|
                0 <= k2 < self.workers@.len() && (#[trigger] self.workers@[k2]).patch.contains(
                    col as int,
                    row as int,
                );
            assert(!self.workers@[k2].patch.contains(col as int, row as int));
        }
        0
    }

    /// Makes the cell at `(col, row)` alive or dead. Coordinates outside the
    /// grid are ignored.
    pub fn set_cell(&mut self, col: u32, row: u32, alive: bool)
        requires
            old(self).wf(),
        ensures
            final(self).wf(),
            final(self).generation() == old(self).generation(),
            final(self).worker_count() == old(self).worker_count(),
            final(self)@.cols == old(self)@.cols,
            final(self)@.rows == old(self)@.rows,
            final(self)@.cells == if col < old(self)@.cols && row < old(self)@.rows {
                old(self)@.cells.update(old(self)@.index(col as int, row as int), alive)
            } else {
                old(self)@.cells
            },
    {
        if (col as usize) < self.cols && (row as usize) < self.rows {
            let ghost b = self@;
            proof {
                lemma_index_in_range(self.cols as int, self.rows as int, col as int, row as int);
            }
            let i = (row as usize) * self.cols + col as usize;
            if self.cells[i] != alive {
                let k = self.owner(col as usize, row as usize);
                proof {
                    self.lemma_owner(col as int, row as int);
                    assert(self.workers@[k as int].tracks(b));
                }
                let mut w = self.workers.remove(k);
                if alive {
                    proof {
                        if w.live@.contains(i) {
                            let t = choose|t: int| 0 <= t < w.live@.len() && w.live@[t] == i;
                            assert(b.cells[w.live@[t] as int]);
                        }
                    }
                    w.live.push(i);
                } else {
                    proof {
                        assert(w.tracks(b));
                        assert(w.owns(b.cols as int, i as int));
                        assert(b.cells[i as int]);
                    }
                    remove_value(&mut w.live, i);
                }
                self.cells.set(i, alive);
                self.workers.insert(k, w);
                proof {
                    let nb = self@;
                    assert(nb.cells == b.cells.update(i as int, alive));
                    assert(self.workers@ =~= old(self).workers@.update(k as int, w));
                    assert(w.owns(b.cols as int, i as int));
                    assert forall|k2: int| 0 <= k2 < self.workers@.len() implies (#[trigger] self.workers@[k2]).tracks(nb) by {
                        let wk = self.workers@[k2];
                        assert(old(self).workers@[k2].tracks(b));
                        if k2 != k {
                            assert(!wk.owns(b.cols as int, i as int));
                            assert forall|t: int| 0 <= t < wk.live@.len() implies {
                                let j = #[trigger] wk.live@[t] as int;
                                0 <= j < nb.cells.len() && wk.owns(nb.cols as int, j) && nb.cells[j]
                            } by {
                                assert(wk.live@[t] != i);
                            }
                        } else {
                            if alive {
                                assert forall|t: int| 0 <= t < wk.live@.len() implies {
                                    let j = #[trigger] wk.live@[t] as int;
                                    0 <= j < nb.cells.len() && wk.owns(nb.cols as int, j) && nb.cells[j]
                                } by {
                                    if t < wk.live@.len() - 1 {
                                        assert(old(self).workers@[k2].live@[t] == wk.live@[t]);
                                    }
                                }
                                assert forall|j: int|
                                    0 <= j < nb.cells.len() && wk.owns(nb.cols as int, j) && #[trigger] nb.cells[j]
                                        implies wk.live@.contains(j as usize) by {
                                    if j != i {
                                        assert(old(self).workers@[k2].live@.contains(j as usize));
                                        let t = choose|t: int| 0 <= t < old(self).workers@[k2].live@.len() && old(self).workers@[k2].live@[t] == j as usize;
                                        assert(wk.live@[t] == j as usize);
                                    } else {
                                        assert(wk.live@[wk.live@.len() - 1] == i);
                                    }
                                }
                            } else {
                                assert forall|t: int| 0 <= t < wk.live@.len() implies {
                                    let j = #[trigger] wk.live@[t] as int;
                                    0 <= j < nb.cells.len() && wk.owns(nb.cols as int, j) && nb.cells[j]
                                } by {
                                    let j = wk.live@[t];
                                    assert(wk.live@.contains(j));
                                    assert(old(self).workers@[k2].live@.contains(j));
                                }
                            }
                        }
                    }
                    assert forall|k2: int| 0 <= k2 < self.workers@.len() implies (#[trigger] self.workers@[k2]).patch.is_tile(
                        self.cols as int,
                        self.rows as int,
                        self.side@,
                        k2,
                    ) && self.workers@[k2].fits(self.cols as int, self.rows as int) by {
                        assert(old(self).workers@[k2].patch.is_tile(self.cols as int, self.rows as int, self.side@, k2));
                        assert(old(self).workers@[k2].fits(self.cols as int, self.rows as int));
                    }
                }
            } else {
                proof {
                    assert(self@.cells =~= b.cells.update(i as int, alive));
                }
            }
        }
    }
}

/// Removes `x` from a list that holds it once.
fn remove_value(v: &mut Vec<usize>, x: usize)
    requires
        old(v)@.no_duplicates(),
        old(v)@.contains(x),
    ensures
        final(v)@.no_duplicates(),
        forall|y: usize| final(v)@.contains(y) <==> (old(v)@.contains(y) && y != x),
{
    let ghost s = v@;
    let n = v.len();
    let mut t: usize = 0;
    while v[t] != x
        invariant
            v@ == s,
            n == s.len(),
            s.contains(x),
            t < s.len(),
            forall|t2: int| 0 <= t2 < t ==> s[t2] != x,
        decreases s.len() - t,
    {
        proof {
            let t2 = choose|t2: int| 0 <= t2 < s.len() && s[t2] == x;
            assert(t2 > t);
        }
        t = t + 1;
    }
    v.swap_remove(t);
    proof {
        let n = s.len();
        let r = v@;
        assert(r =~= s.update(t as int, s[n - 1]).drop_last());
        assert forall|y: usize| r.contains(y) <==> (s.contains(y) && y != x) by {
            if r.contains(y) {
                let j = choose|j: int| 0 <= j < r.len() && r[j] == y;
                if j == t {
                    assert(s[n - 1] == y);
                    assert(n - 1 != t);
                } else {
                    assert(s[j] == y);
                }
            }
            if s.contains(y) && y != x {
                let j = choose|j: int| 0 <= j < n && s[j] == y;
                if j == n - 1 {
                    if t == n - 1 {
                        assert(s[t as int] == x);
                    } else {
                        assert(r[t as int] == y);
                    }
                } else {
                    assert(j != t);
                    assert(r[j] == y);
                }
            }
        }
        assert forall|i: int, j: int| 0 <= i < r.len() && 0 <= j < r.len() && i != j implies r[i] != r[j] by {
            let si = if i == t { n - 1 } else { i };
            let sj = if j == t { n - 1 } else { j };
            assert(r[i] == s[si]);
            assert(r[j] == s[sj]);
        }
    }
}

} // verus!
