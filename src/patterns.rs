//! Small patterns whose fate the rule fixes wherever they stand on the
//! torus: the block, which never changes, the blinker, which flips between
//! a row and a column of three, and the glider, which moves diagonally.
use vstd::prelude::*;
use vstd::arithmetic::div_mod::{lemma_mod_add_multiples_vanish, lemma_small_mod};
use crate::arith::{lemma_index_in_range, lemma_split_index};
use crate::board::{lemma_mod_shift, life_rule, Board};

verus! {

/// A `cols` by `rows` board whose live cells are the `w` by `h` rectangle
/// with top-left cell `(col, row)`, wrapping round the edges.
pub open spec fn rect_board(cols: nat, rows: nat, col: int, row: int, w: int, h: int) -> Board {
    Board {
        cols,
        rows,
        cells: Seq::new(
            cols * rows,
            |i: int|
                (i % (cols as int) - col) % (cols as int) < w && (i / (cols as int) - row) % (
                rows as int) < h,
        ),
    }
}

/// The residues next to `u` on a ring of `n`.
proof fn lemma_ring(u: int, n: int)
    requires
        0 <= u < n,
    ensures
        (u - 1) % n == if u == 0 {
            n - 1
        } else {
            u - 1
        },
        (u + 1) % n == if u == n - 1 {
            0
        } else {
            u + 1
        },
        u % n == u,
{
    lemma_small_mod(u as nat, n as nat);
    if u == 0 {
        lemma_mod_add_multiples_vanish(-1, n);
        lemma_small_mod((n - 1) as nat, n as nat);
    } else {
        lemma_small_mod((u - 1) as nat, n as nat);
    }
    if u == n - 1 {
        vstd::arithmetic::div_mod::lemma_mod_self_0(n);
    } else {
        lemma_small_mod((u + 1) as nat, n as nat);
    }
}

/// A cell of a rectangle board, at any coordinates, is alive when it lies
/// in the rectangle.
proof fn lemma_rect_alive(cols: nat, rows: nat, col: int, row: int, w: int, h: int, x: int, y: int)
    requires
        cols > 0,
        rows > 0,
    ensures
        rect_board(cols, rows, col, row, w, h).alive(x, y) == ((x - col) % (cols as int) < w && (y
            - row) % (rows as int) < h),
{
    let n = cols as int;
    let m = rows as int;
    lemma_index_in_range(n, m, x % n, y % m);
    lemma_mod_shift(x, -col, n);
    lemma_mod_shift(y, -row, m);
}

/// The next state of the cell `(x, y)` of a rectangle board, from where it
/// and its neighbours lie relative to the rectangle.
proof fn lemma_rect_next(
    cols: nat,
    rows: nat,
    col: int,
    row: int,
    w: int,
    h: int,
    x: int,
    y: int,
)
    requires
        cols > 0,
        rows > 0,
    ensures
        ({
            let n = cols as int;
            let m = rows as int;
            let u = (x - col) % n;
            let v = (y - row) % m;
            let a = |d: int| (u + d) % n < w;
            let b = |d: int| (v + d) % m < h;
            let bit = |d: int, e: int|
                if a(d) && b(e) {
                    1int
                } else {
                    0int
                };
            rect_board(cols, rows, col, row, w, h).next_alive(x, y) == life_rule(
                a(0) && b(0),
                bit(-1, -1) + bit(0, -1) + bit(1, -1) + bit(-1, 0) + bit(1, 0) + bit(-1, 1) + bit(0, 1)
                    + bit(1, 1),
            )
        }),
{
    let n = cols as int;
    let m = rows as int;
    assert forall|dx: int, dy: int|
        -1 <= dx <= 1 && -1 <= dy <= 1 implies #[trigger] rect_board(cols, rows, col, row, w, h).alive(
        x + dx,
        y + dy,
    ) == (((x - col) % n + dx) % n < w && ((y - row) % m + dy) % m < h) by {
        lemma_rect_alive(cols, rows, col, row, w, h, x + dx, y + dy);
        lemma_mod_shift(x - col, dx, n);
        lemma_mod_shift(y - row, dy, m);
    }
    let b = rect_board(cols, rows, col, row, w, h);
    assert(b.alive(x, y) == b.alive(x + 0, y + 0));
    assert(b.alive(x - 1, y - 1) == b.alive(x + -1, y + -1));
    assert(b.alive(x, y - 1) == b.alive(x + 0, y + -1));
    assert(b.alive(x + 1, y - 1) == b.alive(x + 1, y + -1));
    assert(b.alive(x - 1, y) == b.alive(x + -1, y + 0));
    assert(b.alive(x + 1, y) == b.alive(x + 1, y + 0));
    assert(b.alive(x - 1, y + 1) == b.alive(x + -1, y + 1));
    assert(b.alive(x, y + 1) == b.alive(x + 0, y + 1));
    lemma_mod_shift(x - col, 0, n);
    lemma_mod_shift(y - row, 0, m);
}

/// A 2 by 2 block of live cells, wherever it stands on a board at least 3
/// cells each way, stays as it is: one generation on, and any number.
pub proof fn lemma_block_is_still(cols: nat, rows: nat, col: int, row: int)
    requires
        cols >= 3,
        rows >= 3,
    ensures
        rect_board(cols, rows, col, row, 2, 2).next() == rect_board(cols, rows, col, row, 2, 2),
        forall|k: nat| #[trigger] rect_board(cols, rows, col, row, 2, 2).advance(k) == rect_board(
            cols,
            rows,
            col,
            row,
            2,
            2,
        ),
{
    let b = rect_board(cols, rows, col, row, 2, 2);
    let n = cols as int;
    let m = rows as int;
    assert forall|i: int| 0 <= i < b.cells.len() implies #[trigger] b.next().cells[i] == b.cells[i] by {
        lemma_split_index(n, m, i);
        let x = i % n;
        let y = i / n;
        lemma_rect_next(cols, rows, col, row, 2, 2, x, y);
        lemma_ring((x - col) % n, n);
        lemma_ring((y - row) % m, m);
    }
    assert(b.next().cells =~= b.cells);
    assert forall|k: nat| #[trigger] b.advance(k) == b by {
        lemma_still_forever(b, k);
    }
}

/// A board that the next generation leaves as it is stays so.
proof fn lemma_still_forever(b: Board, k: nat)
    requires
        b.next() == b,
    ensures
        b.advance(k) == b,
    decreases k,
{
    if k > 0 {
        lemma_still_forever(b, (k - 1) as nat);
    }
}

/// One cell of a row of three one generation on: it is alive exactly when
/// it lies in the column of three through the row's middle cell.
#[verifier::rlimit(50)]
proof fn lemma_row_to_column_cell(cols: nat, rows: nat, col: int, row: int, x: int, y: int)
    requires
        cols >= 4,
        rows >= 4,
    ensures
        rect_board(cols, rows, col, row, 3, 1).next_alive(x, y) == ((x - (col + 1)) % (cols as int)
            < 1 && (y - (row - 1)) % (rows as int) < 3),
{
    let n = cols as int;
    let m = rows as int;
    lemma_rect_next(cols, rows, col, row, 3, 1, x, y);
    let u = (x - col) % n;
    let v = (y - row) % m;
    lemma_ring(u, n);
    lemma_ring(v, m);
    lemma_mod_shift(x - col, -1, n);
    lemma_mod_shift(y - row, 1, m);
    assert(x - (col + 1) == (x - col) + -1);
    assert(y - (row - 1) == (y - row) + 1);
}

/// One cell of a column of three one generation on: it is alive exactly
/// when it lies in the row of three through the column's middle cell.
#[verifier::rlimit(50)]
proof fn lemma_column_to_row_cell(cols: nat, rows: nat, col: int, row: int, x: int, y: int)
    requires
        cols >= 4,
        rows >= 4,
    ensures
        rect_board(cols, rows, col + 1, row - 1, 1, 3).next_alive(x, y) == ((x - col) % (cols as int)
            < 3 && (y - row) % (rows as int) < 1),
{
    let n = cols as int;
    let m = rows as int;
    lemma_rect_next(cols, rows, col + 1, row - 1, 1, 3, x, y);
    let u = (x - (col + 1)) % n;
    let v = (y - (row - 1)) % m;
    lemma_ring(u, n);
    lemma_ring(v, m);
    lemma_mod_shift(x - (col + 1), 1, n);
    lemma_mod_shift(y - (row - 1), -1, m);
    assert(x - col == (x - (col + 1)) + 1);
    assert(y - row == (y - (row - 1)) + -1);
}

/// A blinker, wherever it stands on a board at least 4 cells each way,
/// turns from a row of three into the column of three through its middle
/// cell and back: after an even number of generations it is the row again,
/// after an odd number the column.
pub proof fn lemma_blinker_oscillates(cols: nat, rows: nat, col: int, row: int)
    requires
        cols >= 4,
        rows >= 4,
    ensures
        rect_board(cols, rows, col, row, 3, 1).next() == rect_board(cols, rows, col + 1, row - 1, 1, 3),
        rect_board(cols, rows, col + 1, row - 1, 1, 3).next() == rect_board(cols, rows, col, row, 3, 1),
        forall|k: nat|
            #[trigger] rect_board(cols, rows, col, row, 3, 1).advance(k) == if k % 2 == 0 {
                rect_board(cols, rows, col, row, 3, 1)
            } else {
                rect_board(cols, rows, col + 1, row - 1, 1, 3)
            },
{
    let hb = rect_board(cols, rows, col, row, 3, 1);
    let vb = rect_board(cols, rows, col + 1, row - 1, 1, 3);
    let n = cols as int;
    let m = rows as int;
    assert forall|i: int| 0 <= i < hb.cells.len() implies #[trigger] hb.next().cells[i] == vb.cells[i] by {
        lemma_row_to_column_cell(cols, rows, col, row, i % n, i / n);
    }
    assert(hb.next().cells =~= vb.cells);
    assert forall|i: int| 0 <= i < vb.cells.len() implies #[trigger] vb.next().cells[i] == hb.cells[i] by {
        lemma_column_to_row_cell(cols, rows, col, row, i % n, i / n);
    }
    assert(vb.next().cells =~= hb.cells);
    assert forall|k: nat| #[trigger] hb.advance(k) == if k % 2 == 0 {
        hb
    } else {
        vb
    } by {
        lemma_flip_forever(hb, vb, k);
    }
}

/// Two boards that the next generation swaps alternate for ever.
proof fn lemma_flip_forever(p: Board, q: Board, k: nat)
    requires
        p.next() == q,
        q.next() == p,
    ensures
        p.advance(k) == if k % 2 == 0 {
            p
        } else {
            q
        },
    decreases k,
{
    if k > 0 {
        lemma_flip_forever(p, q, (k - 1) as nat);
    }
}

/// Whether `(u, v)`, taken from the top-left corner of a 4 by 4 box, is a
/// live cell of the glider in phase `k`: phase 0 is the cells `(1, 0)`,
/// `(2, 1)`, `(0, 2)`, `(1, 2)`, `(2, 2)`, each phase is the generation after
/// the one before, and phase 4 is phase 0 moved one cell right and down.
pub open spec fn glider_phase(k: int, u: int, v: int) -> bool {
    if k == 0 {
        (u == 0 && v == 2)
            || (u == 1 && v == 0)
            || (u == 1 && v == 2)
            || (u == 2 && v == 1)
            || (u == 2 && v == 2)
    } else if k == 1 {
        (u == 0 && v == 1)
            || (u == 1 && v == 2)
            || (u == 1 && v == 3)
            || (u == 2 && v == 1)
            || (u == 2 && v == 2)
    } else if k == 2 {
        (u == 0 && v == 2)
            || (u == 1 && v == 3)
            || (u == 2 && v == 1)
            || (u == 2 && v == 2)
            || (u == 2 && v == 3)
    } else if k == 3 {
        (u == 1 && v == 1)
            || (u == 1 && v == 3)
            || (u == 2 && v == 2)
            || (u == 2 && v == 3)
            || (u == 3 && v == 2)
    } else {
        (u == 1 && v == 3)
            || (u == 2 && v == 1)
            || (u == 2 && v == 3)
            || (u == 3 && v == 2)
            || (u == 3 && v == 3)
    }
}

/// A `cols` by `rows` board holding only the glider in phase `k`, its box's
/// top-left cell at `(col, row)`.
pub open spec fn glider_board(cols: nat, rows: nat, col: int, row: int, k: int) -> Board {
    Board {
        cols,
        rows,
        cells: Seq::new(
            cols * rows,
            |i: int|
                glider_phase(
                    k,
                    (i % (cols as int) - col) % (cols as int),
                    (i / (cols as int) - row) % (rows as int),
                ),
        ),
    }
}

proof fn lemma_glider_alive(cols: nat, rows: nat, col: int, row: int, k: int, x: int, y: int)
    requires
        cols > 0,
        rows > 0,
    ensures
        glider_board(cols, rows, col, row, k).alive(x, y) == glider_phase(
            k,
            (x - col) % (cols as int),
            (y - row) % (rows as int),
        ),
{
    let n = cols as int;
    let m = rows as int;
    lemma_index_in_range(n, m, x % n, y % m);
    lemma_mod_shift(x, -col, n);
    lemma_mod_shift(y, -row, m);
}

/// One cell of the glider in phase `k` one generation on is the same cell
/// of phase `k + 1`.
#[verifier::rlimit(100)]
proof fn lemma_glider_cell(cols: nat, rows: nat, col: int, row: int, k: int, x: int, y: int)
    requires
        cols >= 5,
        rows >= 5,
        0 <= k < 4,
    ensures
        glider_board(cols, rows, col, row, k).next_alive(x, y) == glider_phase(
            k + 1,
            (x - col) % (cols as int),
            (y - row) % (rows as int),
        ),
{
    let n = cols as int;
    let m = rows as int;
    let b = glider_board(cols, rows, col, row, k);
    let u = (x - col) % n;
    let v = (y - row) % m;
    lemma_ring(u, n);
    lemma_ring(v, m);
    assert forall|dx: int, dy: int|
        -1 <= dx <= 1 && -1 <= dy <= 1 implies #[trigger] b.alive(x + dx, y + dy) == glider_phase(
        k,
        (u + dx) % n,
        (v + dy) % m,
    ) by {
        lemma_glider_alive(cols, rows, col, row, k, x + dx, y + dy);
        lemma_mod_shift(x - col, dx, n);
        lemma_mod_shift(y - row, dy, m);
    }
    assert(b.alive(x, y) == b.alive(x + 0, y + 0));
    assert(b.alive(x - 1, y - 1) == b.alive(x + -1, y + -1));
    assert(b.alive(x, y - 1) == b.alive(x + 0, y + -1));
    assert(b.alive(x + 1, y - 1) == b.alive(x + 1, y + -1));
    assert(b.alive(x - 1, y) == b.alive(x + -1, y + 0));
    assert(b.alive(x + 1, y) == b.alive(x + 1, y + 0));
    assert(b.alive(x - 1, y + 1) == b.alive(x + -1, y + 1));
    assert(b.alive(x, y + 1) == b.alive(x + 0, y + 1));
    lemma_mod_shift(x - col, 0, n);
    lemma_mod_shift(y - row, 0, m);
}

/// The glider in phase `k` becomes phase `k + 1` in one generation.
proof fn lemma_glider_phase_step(cols: nat, rows: nat, col: int, row: int, k: int)
    requires
        cols >= 5,
        rows >= 5,
        0 <= k < 4,
    ensures
        glider_board(cols, rows, col, row, k).next() == glider_board(cols, rows, col, row, k + 1),
{
    let b = glider_board(cols, rows, col, row, k);
    let n = cols as int;
    let m = rows as int;
    assert forall|i: int| 0 <= i < b.cells.len() implies #[trigger] b.next().cells[i] == glider_board(
        cols,
        rows,
        col,
        row,
        k + 1,
    ).cells[i] by {
        lemma_glider_cell(cols, rows, col, row, k, i % n, i / n);
    }
    assert(b.next().cells =~= glider_board(cols, rows, col, row, k + 1).cells);
}

/// A glider, wherever it stands on a board at least 5 cells each way, moves
/// one cell right and one cell down every 4 generations, keeping its shape.
pub proof fn lemma_glider_moves(cols: nat, rows: nat, col: int, row: int)
    requires
        cols >= 5,
        rows >= 5,
    ensures
        glider_board(cols, rows, col, row, 0).advance(4) == glider_board(cols, rows, col + 1, row + 1, 0),
{
    let n = cols as int;
    let m = rows as int;
    let b = glider_board(cols, rows, col, row, 0);
    lemma_glider_phase_step(cols, rows, col, row, 0);
    lemma_glider_phase_step(cols, rows, col, row, 1);
    lemma_glider_phase_step(cols, rows, col, row, 2);
    lemma_glider_phase_step(cols, rows, col, row, 3);
    assert(b.advance(0) == b);
    assert(b.advance(1) == b.advance(0).next());
    assert(b.advance(2) == b.advance(1).next());
    assert(b.advance(3) == b.advance(2).next());
    assert(b.advance(4) == b.advance(3).next());
    let last = glider_board(cols, rows, col, row, 4);
    let moved = glider_board(cols, rows, col + 1, row + 1, 0);
    assert forall|i: int| 0 <= i < last.cells.len() implies #[trigger] last.cells[i] == moved.cells[i] by {
        let u = (i % n - col) % n;
        let v = (i / n - row) % m;
        lemma_split_index(n, m, i);
        lemma_ring(u, n);
        lemma_ring(v, m);
        lemma_mod_shift(i % n - col, -1, n);
        lemma_mod_shift(i / n - row, -1, m);
        assert(i % n - (col + 1) == (i % n - col) + -1);
        assert(i / n - (row + 1) == (i / n - row) + -1);
    }
    assert(last.cells =~= moved.cells);
}

} // verus!
