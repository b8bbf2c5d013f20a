//! A worker that computes the next generation of the cells of one patch,
//! from the live cells it owns and a re-check of the patch's border.
use vstd::prelude::*;
use crate::arith::{lemma_index_in_range, lemma_split_index, lemma_wrap};
use crate::board::Board;
use crate::dense::{board_of, buffer_wf, next_cell};
use crate::partition::Patch;

verus! {

/// One worker: its patch, and the positions of the live cells inside it.
pub struct Worker {
    pub patch: Patch,
    pub live: Vec<usize>,
}

impl Worker {
    /// Whether buffer position `i` of a grid `cols` wide lies in the patch.
    pub open spec fn owns(self, cols: int, i: int) -> bool {
        self.patch.contains(i % cols, i / cols)
    }

    /// Whether the patch is a nonempty rectangle inside a `cols` by `rows` grid.
    pub open spec fn fits(self, cols: int, rows: int) -> bool {
        &&& self.patch.col_start < self.patch.col_end <= cols
        &&& self.patch.row_start < self.patch.row_end <= rows
    }

    /// Whether `live` lists, once each, exactly the live cells of board `b`
    /// that lie in the patch.
    pub open spec fn tracks(self, b: Board) -> bool {
        &&& self.live@.no_duplicates()
        &&& forall|t: int|
            0 <= t < self.live@.len() ==> {
                let i = #[trigger] self.live@[t] as int;
                0 <= i < b.cells.len() && self.owns(b.cols as int, i) && b.cells[i]
            }
        &&& forall|i: int|
            0 <= i < b.cells.len() && self.owns(b.cols as int, i) && #[trigger] b.cells[i]
                ==> self.live@.contains(i as usize)
    }

    /// Whether `next` is this worker one generation on from board `b`: the
    /// same patch, tracking the cells of the patch that are alive in the next
    /// generation.
    pub open spec fn advanced_to(self, b: Board, next: Worker) -> bool {
        &&& next.patch == self.patch
        &&& next.tracks(b.next())
    }

    pub open spec fn width(self) -> int {
        self.patch.col_end - self.patch.col_start
    }

    pub open spec fn height(self) -> int {
        self.patch.row_end - self.patch.row_start
    }

    /// Position of the cell `(col, row)` of the patch in a patch-sized buffer.
    pub open spec fn local(self, col: int, row: int) -> int {
        (row - self.patch.row_start) * self.width() + (col - self.patch.col_start)
    }

    /// Whether `x` may stand in the output: a cell of the patch, already
    /// decided, alive in the next generation.
    pub open spec fn emitted(self, b: Board, decided: Seq<bool>, x: int) -> bool {
        &&& 0 <= x < b.cells.len()
        &&& self.owns(b.cols as int, x)
        &&& decided[self.local(x % (b.cols as int), x / (b.cols as int))]
        &&& b.next_alive(x % (b.cols as int), x / (b.cols as int))
    }

    /// The bookkeeping of `advance`: which cells are decided, and the output
    /// holding, once each, the decided cells that live on.
    pub open spec fn marks_ok(self, b: Board, decided: Seq<bool>, out: Seq<usize>) -> bool {
        &&& decided.len() == self.width() * self.height()
        &&& out.no_duplicates()
        &&& forall|t: int| 0 <= t < out.len() ==> #[trigger] self.emitted(b, decided, out[t] as int)
        &&& forall|c: int, r: int|
            self.patch.contains(c, r) && #[trigger] decided[self.local(c, r)] && b.next_alive(c, r)
                ==> out.contains(b.index(c, r) as usize)
    }

    /// Whether the neighbour `(dc, dr)` away from buffer position `i`, if it
    /// lies in the patch, is decided.
    pub open spec fn visited(self, b: Board, decided: Seq<bool>, i: int, dc: int, dr: int) -> bool {
        let c = (i % (b.cols as int) + dc) % (b.cols as int);
        let r = (i / (b.cols as int) + dr) % (b.rows as int);
        self.patch.contains(c, r) ==> decided[self.local(c, r)]
    }
}

/// Cells of the patch map one to one onto a patch-sized buffer.
proof fn lemma_local(w: Worker, c: int, r: int)
    requires
        w.fits(0x1_0000_0000, 0x1_0000_0000),
        w.patch.contains(c, r),
    ensures
        0 <= w.local(c, r) < w.width() * w.height(),
        w.local(c, r) % w.width() == c - w.patch.col_start,
        w.local(c, r) / w.width() == r - w.patch.row_start,
{
    lemma_index_in_range(w.width(), w.height(), c - w.patch.col_start, r - w.patch.row_start);
}

impl Worker {
    /// Decides the cell `(col, row)` if it lies in the patch and is not yet
    /// decided, and emits it when it lives on.
    fn consider(
        &self,
        cells: &Vec<bool>,
        cols: usize,
        rows: usize,
        decided: &mut Vec<bool>,
        out: &mut Vec<usize>,
        col: usize,
        row: usize,
    )
        requires
            buffer_wf(cells@, cols, rows),
            self.fits(cols as int, rows as int),
            self.marks_ok(board_of(cells@, cols, rows), old(decided)@, old(out)@),
            col < cols,
            row < rows,
        ensures
            self.marks_ok(board_of(cells@, cols, rows), final(decided)@, final(out)@),
            final(decided)@.len() == old(decided)@.len(),
            forall|j: int| 0 <= j < old(decided)@.len() && old(decided)@[j] ==> final(decided)@[j],
            self.patch.contains(col as int, row as int) ==> final(decided)@[self.local(
                col as int,
                row as int,
            )],
    {
        let ghost b = board_of(cells@, cols, rows);
        let p = self.patch;
        if (p.col_start as usize) <= col && col < (p.col_end as usize) && (p.row_start as usize)
            <= row && row < (p.row_end as usize) {
            let w = (p.col_end - p.col_start) as usize;
            proof {
                lemma_local(*self, col as int, row as int);
                assert(self.width() * self.height() <= cols * rows) by (nonlinear_arith)
                    requires
                        0 < self.width() <= cols,
                        0 < self.height() <= rows,
                ;
            }
            let j = (row - p.row_start as usize) * w + (col - p.col_start as usize);
            if !decided[j] {
                let ghost old_decided = decided@;
                let ghost old_out = out@;
                proof {
                    lemma_index_in_range(cols as int, rows as int, col as int, row as int);
                }
                let x = row * cols + col;
                decided.set(j, true);
                let alive = next_cell(cells, cols, rows, col, row);
                if alive {
                    out.push(x);
                }
                proof {
                    assert forall|t: int| 0 <= t < out@.len() implies #[trigger] self.emitted(
                        b,
                        decided@,
                        out@[t] as int,
                    ) by {
                        if t < old_out.len() {
                            let y = old_out[t] as int;
                            assert(self.emitted(b, old_decided, y));
                            lemma_local(*self, y % (cols as int), y / (cols as int));
                        } else {
                            assert(out@[t] == x);
                            assert(x as int % (cols as int) == col && x as int / (cols as int) == row);
                        }
                    }
                    assert forall|t: int| 0 <= t < old_out.len() implies old_out[t] != x by {
                        let y = old_out[t] as int;
                        assert(self.emitted(b, old_decided, y));
                        lemma_split_index(cols as int, rows as int, y);
                        if y == x {
                            assert(old_decided[j as int]);
                        }
                    }
                    assert forall|c: int, r: int|
                        self.patch.contains(c, r) && #[trigger] decided@[self.local(c, r)]
                            && b.next_alive(c, r) implies out@.contains(b.index(c, r) as usize) by {
                        lemma_local(*self, c, r);
                        if self.local(c, r) == j {
                            assert(out@[out@.len() - 1] == x);
                        } else {
                            assert(old_decided[self.local(c, r)]);
                            assert(old_out.contains(b.index(c, r) as usize));
                            let t = choose|t: int| 0 <= t < old_out.len() && old_out[t] == b.index(c, r) as usize;
                            assert(out@[t] == old_out[t]);
                        }
                    }
                }
            }
        }
    }
}

impl Worker {
    /// Decides the neighbour `(dc - 1, dr - 1)` away from buffer position `i`.
    fn visit(
        &self,
        cells: &Vec<bool>,
        cols: usize,
        rows: usize,
        decided: &mut Vec<bool>,
        out: &mut Vec<usize>,
        i: usize,
        dc: usize,
        dr: usize,
    )
        requires
            buffer_wf(cells@, cols, rows),
            self.fits(cols as int, rows as int),
            self.marks_ok(board_of(cells@, cols, rows), old(decided)@, old(out)@),
            i < cols * rows,
            dc < 3,
            dr < 3,
        ensures
            self.marks_ok(board_of(cells@, cols, rows), final(decided)@, final(out)@),
            final(decided)@.len() == old(decided)@.len(),
            forall|j: int| 0 <= j < old(decided)@.len() && old(decided)@[j] ==> final(decided)@[j],
            self.visited(
                board_of(cells@, cols, rows),
                final(decided)@,
                i as int,
                dc - 1,
                dr - 1,
            ),
    {
        let col = i % cols;
        let row = i / cols;
        proof {
            lemma_split_index(cols as int, rows as int, i as int);
        }
        let c = ((col as u64 + cols as u64 + dc as u64 - 1) % cols as u64) as usize;
        let r = ((row as u64 + rows as u64 + dr as u64 - 1) % rows as u64) as usize;
        proof {
            vstd::arithmetic::div_mod::lemma_mod_add_multiples_vanish(
                col + dc - 1,
                cols as int,
            );
            vstd::arithmetic::div_mod::lemma_mod_add_multiples_vanish(
                row + dr - 1,
                rows as int,
            );
        }
        self.consider(cells, cols, rows, decided, out, c, r);
    }

    /// Decides the cell at buffer position `i` and its eight neighbours.
    fn visit_around(
        &self,
        cells: &Vec<bool>,
        cols: usize,
        rows: usize,
        decided: &mut Vec<bool>,
        out: &mut Vec<usize>,
        i: usize,
    )
        requires
            buffer_wf(cells@, cols, rows),
            self.fits(cols as int, rows as int),
            self.marks_ok(board_of(cells@, cols, rows), old(decided)@, old(out)@),
            i < cols * rows,
        ensures
            self.marks_ok(board_of(cells@, cols, rows), final(decided)@, final(out)@),
            final(decided)@.len() == old(decided)@.len(),
            forall|j: int| 0 <= j < old(decided)@.len() && old(decided)@[j] ==> final(decided)@[j],
            forall|dc: int, dr: int|
                -1 <= dc <= 1 && -1 <= dr <= 1 ==> #[trigger] self.visited(
                    board_of(cells@, cols, rows),
                    final(decided)@,
                    i as int,
                    dc,
                    dr,
                ),
    {
        let ghost b = board_of(cells@, cols, rows);
        let mut dr: usize = 0;
        while dr < 3
            invariant
                buffer_wf(cells@, cols, rows),
                self.fits(cols as int, rows as int),
                self.marks_ok(b, decided@, out@),
                b == board_of(cells@, cols, rows),
                i < cols * rows,
                dr <= 3,
                decided@.len() == old(decided)@.len(),
                forall|j: int|
                    0 <= j < old(decided)@.len() && old(decided)@[j] ==> decided@[j],
                forall|dc2: int, dr2: int|
                    -1 <= dc2 <= 1 && -1 <= dr2 < dr - 1 ==> #[trigger] self.visited(
                        b,
                        decided@,
                        i as int,
                        dc2,
                        dr2,
                    ),
            decreases 3 - dr,
        {
            let mut dc: usize = 0;
            while dc < 3
                invariant
                    buffer_wf(cells@, cols, rows),
                    self.fits(cols as int, rows as int),
                    self.marks_ok(b, decided@, out@),
                    b == board_of(cells@, cols, rows),
                    i < cols * rows,
                    dr < 3,
                    dc <= 3,
                    decided@.len() == old(decided)@.len(),
                    forall|j: int|
                        0 <= j < old(decided)@.len() && old(decided)@[j] ==> decided@[j],
                    forall|dc2: int, dr2: int|
                        -1 <= dc2 <= 1 && -1 <= dr2 < dr - 1 ==> #[trigger] self.visited(
                            b,
                            decided@,
                            i as int,
                            dc2,
                            dr2,
                        ),
                    forall|dc2: int|
                        -1 <= dc2 < dc - 1 ==> #[trigger] self.visited(
                            b,
                            decided@,
                            i as int,
                            dc2,
                            dr - 1,
                        ),
                decreases 3 - dc,
            {
                let ghost before = decided@;
                self.visit(cells, cols, rows, decided, out, i, dc, dr);
                proof {
                    assert forall|dc2: int, dr2: int|
                        -1 <= dc2 <= 1 && -1 <= dr2 < dr - 1 implies #[trigger] self.visited(
                            b,
                            decided@,
                            i as int,
                            dc2,
                            dr2,
                        ) by {
                        assert(self.visited(b, before, i as int, dc2, dr2));
                        let c = (i as int % (b.cols as int) + dc2) % (b.cols as int);
                        let r = (i as int / (b.cols as int) + dr2) % (b.rows as int);
                        if self.patch.contains(c, r) {
                            lemma_local(*self, c, r);
                        }
                    }
                    assert forall|dc2: int| -1 <= dc2 < dc - 1 + 1 implies #[trigger] self.visited(
                        b,
                        decided@,
                        i as int,
                        dc2,
                        dr - 1,
                    ) by {
                        if dc2 < dc - 1 {
                            assert(self.visited(b, before, i as int, dc2, dr - 1));
                            let c = (i as int % (b.cols as int) + dc2) % (b.cols as int);
                            let r = (i as int / (b.cols as int) + dr - 1) % (b.rows as int);
                            if self.patch.contains(c, r) {
                                lemma_local(*self, c, r);
                            }
                        }
                    }
                }
                dc = dc + 1;
            }
            dr = dr + 1;
        }
    }
}

/// A cell strictly inside the patch that nothing decided has no live cell
/// around it and is itself dead: it stays dead.
proof fn lemma_untouched_stays_dead(w: Worker, b: Board, decided: Seq<bool>, c: int, r: int)
    requires
        b.wf(),
        w.fits(b.cols as int, b.rows as int),
        b.cols <= u32::MAX,
        b.rows <= u32::MAX,
        b.cells.len() <= usize::MAX,
        w.tracks(b),
        w.patch.col_start < c < w.patch.col_end - 1,
        w.patch.row_start < r < w.patch.row_end - 1,
        forall|t: int, dc: int, dr: int|
            0 <= t < w.live@.len() && -1 <= dc <= 1 && -1 <= dr <= 1 ==> #[trigger] w.visited(
                b,
                decided,
                w.live@[t] as int,
                dc,
                dr,
            ),
        !decided[w.local(c, r)],
    ensures
        !b.next_alive(c, r),
{
    let n = b.cols as int;
    let m = b.rows as int;
    assert forall|c2: int, r2: int| c - 1 <= c2 <= c + 1 && r - 1 <= r2 <= r + 1 implies !#[trigger] b.alive(c2, r2) by {
        let dc = c2 - c;
        let dr = r2 - r;
        lemma_wrap(c2, n);
        lemma_wrap(r2, m);
        lemma_index_in_range(n, m, c2, r2);
        let i = b.index(c2, r2);
        if b.cells[i] {
            assert(w.owns(n, i));
            assert(w.live@.contains(i as usize));
            let t = choose|t: int| 0 <= t < w.live@.len() && w.live@[t] == i as usize;
            assert(w.visited(b, decided, w.live@[t] as int, -dc, -dr));
            lemma_wrap(c, n);
            lemma_wrap(r, m);
            assert(i % n == c2 && i / n == r2);
            assert(w.live@[t] as int == i);
            assert((c2 - dc) % n == c);
            assert((r2 - dr) % m == r);
            assert(w.patch.contains(c, r));
            assert(decided[w.local(c, r)]);
        }
    }
    assert(!b.alive(c - 1, r - 1) && !b.alive(c, r - 1) && !b.alive(c + 1, r - 1));
    assert(!b.alive(c - 1, r) && !b.alive(c, r) && !b.alive(c + 1, r));
    assert(!b.alive(c - 1, r + 1) && !b.alive(c, r + 1) && !b.alive(c + 1, r + 1));
}

impl Worker {
    /// Computes the next generation of the patch from the current buffer:
    /// every live cell the worker owns is decided together with its
    /// neighbours, then every cell of the patch's border is re-checked, since
    /// births there may come from cells of other patches. Returns the worker
    /// for the next generation.
    pub fn advance(&self, cells: &Vec<bool>, cols: usize, rows: usize) -> (r: Worker)
        requires
            buffer_wf(cells@, cols, rows),
            self.fits(cols as int, rows as int),
            self.tracks(board_of(cells@, cols, rows)),
        ensures
            self.advanced_to(board_of(cells@, cols, rows), r),
    {
        let ghost b = board_of(cells@, cols, rows);
        let p = self.patch;
        let w = (p.col_end - p.col_start) as usize;
        let h = (p.row_end - p.row_start) as usize;
        proof {
            assert(w * h <= cols * rows) by (nonlinear_arith)
                requires
                    0 < w <= cols,
                    0 < h <= rows,
            ;
        }
        let mut decided = crate::dense::dead_cells(w * h);
        let mut out: Vec<usize> = Vec::new();
        proof {
            assert forall|c: int, r: int| self.patch.contains(c, r) implies !#[trigger] decided@[self.local(c, r)] by {
                lemma_local(*self, c, r);
            }
        }
        let mut t: usize = 0;
        while t < self.live.len()
            invariant
                buffer_wf(cells@, cols, rows),
                self.fits(cols as int, rows as int),
                self.tracks(b),
                b == board_of(cells@, cols, rows),
                self.marks_ok(b, decided@, out@),
                t <= self.live@.len(),
                forall|t2: int, dc: int, dr: int|
                    0 <= t2 < t && -1 <= dc <= 1 && -1 <= dr <= 1 ==> #[trigger] self.visited(
                        b,
                        decided@,
                        self.live@[t2] as int,
                        dc,
                        dr,
                    ),
            decreases self.live@.len() - t,
        {
            let ghost before = decided@;
            let i = self.live[t];
            self.visit_around(cells, cols, rows, &mut decided, &mut out, i);
            proof {
                assert forall|t2: int, dc: int, dr: int|
                    0 <= t2 < t + 1 && -1 <= dc <= 1 && -1 <= dr <= 1 implies #[trigger] self.visited(
                        b,
                        decided@,
                        self.live@[t2] as int,
                        dc,
                        dr,
                    ) by {
                    if t2 < t {
                        let y = self.live@[t2] as int;
                        assert(self.visited(b, before, y, dc, dr));
                        let c = (y % (b.cols as int) + dc) % (b.cols as int);
                        let r = (y / (b.cols as int) + dr) % (b.rows as int);
                        if self.patch.contains(c, r) {
                            lemma_local(*self, c, r);
                        }
                    }
                }
            }
            t = t + 1;
        }
        let mut c = p.col_start as usize;
        while c < p.col_end as usize
            invariant
                buffer_wf(cells@, cols, rows),
                self.fits(cols as int, rows as int),
                self.tracks(b),
                b == board_of(cells@, cols, rows),
                self.marks_ok(b, decided@, out@),
                p == self.patch,
                p.col_start <= c <= p.col_end,
                forall|t2: int, dc: int, dr: int|
                    0 <= t2 < self.live@.len() && -1 <= dc <= 1 && -1 <= dr <= 1
                        ==> #[trigger] self.visited(b, decided@, self.live@[t2] as int, dc, dr),
                forall|c2: int|
                    p.col_start <= c2 < c ==> #[trigger] decided@[self.local(c2, p.row_start as int)],
                forall|c2: int|
                    p.col_start <= c2 < c ==> #[trigger] decided@[self.local(c2, p.row_end - 1)],
            decreases p.col_end - c,
        {
            let ghost d0 = decided@;
            self.consider(cells, cols, rows, &mut decided, &mut out, c, p.row_start as usize);
            let ghost d1 = decided@;
            self.consider(cells, cols, rows, &mut decided, &mut out, c, (p.row_end - 1) as usize);
            proof {
                assert forall|t2: int, dc: int, dr: int|
                    0 <= t2 < self.live@.len() && -1 <= dc <= 1 && -1 <= dr <= 1
                        implies #[trigger] self.visited(b, decided@, self.live@[t2] as int, dc, dr) by {
                    let y = self.live@[t2] as int;
                    assert(self.visited(b, d0, y, dc, dr));
                    let cc = (y % (b.cols as int) + dc) % (b.cols as int);
                    let rr = (y / (b.cols as int) + dr) % (b.rows as int);
                    if self.patch.contains(cc, rr) {
                        lemma_local(*self, cc, rr);
                    }
                }
                assert forall|c2: int| #![trigger decided@[self.local(c2, p.row_start as int)]] #![trigger decided@[self.local(c2, p.row_end - 1)]] p.col_start <= c2 < c + 1 implies decided@[self.local(c2, p.row_start as int)]
                        && decided@[self.local(c2, p.row_end - 1)] by {
                    lemma_local(*self, c2, p.row_start as int);
                    lemma_local(*self, c2, p.row_end - 1);
                    if c2 < c {
                        assert(d0[self.local(c2, p.row_start as int)]);
                        assert(d1[self.local(c2, p.row_start as int)]);
                        assert(d0[self.local(c2, p.row_end - 1)]);
                        assert(d1[self.local(c2, p.row_end - 1)]);
                    } else {
                        assert(d1[self.local(c2, p.row_start as int)]);
                    }
                }
            }
            c = c + 1;
        }
        let mut r = p.row_start as usize;
        while r < p.row_end as usize
            invariant
                buffer_wf(cells@, cols, rows),
                self.fits(cols as int, rows as int),
                self.tracks(b),
                b == board_of(cells@, cols, rows),
                self.marks_ok(b, decided@, out@),
                p == self.patch,
                p.row_start <= r <= p.row_end,
                forall|t2: int, dc: int, dr: int|
                    0 <= t2 < self.live@.len() && -1 <= dc <= 1 && -1 <= dr <= 1
                        ==> #[trigger] self.visited(b, decided@, self.live@[t2] as int, dc, dr),
                forall|c2: int|
                    p.col_start <= c2 < p.col_end ==> #[trigger] decided@[self.local(c2, p.row_start as int)],
                forall|c2: int|
                    p.col_start <= c2 < p.col_end ==> #[trigger] decided@[self.local(c2, p.row_end - 1)],
                forall|r2: int|
                    p.row_start <= r2 < r ==> #[trigger] decided@[self.local(p.col_start as int, r2)],
                forall|r2: int|
                    p.row_start <= r2 < r ==> #[trigger] decided@[self.local(p.col_end - 1, r2)],
            decreases p.row_end - r,
        {
            let ghost d0 = decided@;
            self.consider(cells, cols, rows, &mut decided, &mut out, p.col_start as usize, r);
            let ghost d1 = decided@;
            self.consider(cells, cols, rows, &mut decided, &mut out, (p.col_end - 1) as usize, r);
            proof {
                assert forall|t2: int, dc: int, dr: int|
                    0 <= t2 < self.live@.len() && -1 <= dc <= 1 && -1 <= dr <= 1
                        implies #[trigger] self.visited(b, decided@, self.live@[t2] as int, dc, dr) by {
                    let y = self.live@[t2] as int;
                    assert(self.visited(b, d0, y, dc, dr));
                    let cc = (y % (b.cols as int) + dc) % (b.cols as int);
                    let rr = (y / (b.cols as int) + dr) % (b.rows as int);
                    if self.patch.contains(cc, rr) {
                        lemma_local(*self, cc, rr);
                    }
                }
                assert forall|c2: int| #![trigger decided@[self.local(c2, p.row_start as int)]] #![trigger decided@[self.local(c2, p.row_end - 1)]] p.col_start <= c2 < p.col_end implies decided@[self.local(c2, p.row_start as int)]
                        && decided@[self.local(c2, p.row_end - 1)] by {
                    lemma_local(*self, c2, p.row_start as int);
                    lemma_local(*self, c2, p.row_end - 1);
                    assert(d0[self.local(c2, p.row_start as int)]);
                    assert(d1[self.local(c2, p.row_start as int)]);
                    assert(d0[self.local(c2, p.row_end - 1)]);
                    assert(d1[self.local(c2, p.row_end - 1)]);
                }
                assert forall|r2: int| #![trigger decided@[self.local(p.col_start as int, r2)]] #![trigger decided@[self.local(p.col_end - 1, r2)]] p.row_start <= r2 < r + 1 implies decided@[self.local(p.col_start as int, r2)]
                        && decided@[self.local(p.col_end - 1, r2)] by {
                    lemma_local(*self, p.col_start as int, r2);
                    lemma_local(*self, p.col_end - 1, r2);
                    if r2 < r {
                        assert(d0[self.local(p.col_start as int, r2)]);
                        assert(d1[self.local(p.col_start as int, r2)]);
                        assert(d0[self.local(p.col_end - 1, r2)]);
                        assert(d1[self.local(p.col_end - 1, r2)]);
                    } else {
                        assert(d1[self.local(p.col_start as int, r2)]);
                    }
                }
            }
            r = r + 1;
        }
        let next = Worker { patch: p, live: out };
        proof {
            let nb = b.next();
            assert forall|i: int|
                0 <= i < nb.cells.len() && next.owns(nb.cols as int, i) && #[trigger] nb.cells[i]
                    implies next.live@.contains(i as usize) by {
                lemma_split_index(cols as int, rows as int, i);
                let cc = i % (cols as int);
                let rr = i / (cols as int);
                if !decided@[self.local(cc, rr)] {
                    if rr == p.row_start {
                        assert(decided@[self.local(cc, p.row_start as int)]);
                    } else if rr == p.row_end - 1 {
                        assert(decided@[self.local(cc, p.row_end - 1)]);
                    } else if cc == p.col_start {
                        assert(decided@[self.local(p.col_start as int, rr)]);
                    } else if cc == p.col_end - 1 {
                        assert(decided@[self.local(p.col_end - 1, rr)]);
                    } else {
                        lemma_untouched_stays_dead(*self, b, decided@, cc, rr);
                    }
                }
                assert(b.next_alive(cc, rr));
                assert(b.index(cc, rr) == i);
            }
            assert forall|t2: int| 0 <= t2 < next.live@.len() implies {
                let i = #[trigger] next.live@[t2] as int;
                0 <= i < nb.cells.len() && next.owns(nb.cols as int, i) && nb.cells[i]
            } by {
                assert(self.emitted(b, decided@, out@[t2] as int));
            }
        }
        next
    }
}

} // verus!
