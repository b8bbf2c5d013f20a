//! Splitting a grid into a square tiling of rectangular patches, one per
//! worker.
use vstd::prelude::*;
use vstd::arithmetic::div_mod::lemma_fundamental_div_mod;

verus! {

/// Why a grid and a worker count cannot be set up together.
#[derive(Debug, Clone, Copy, PartialEq, Eq, Structural)]
pub enum ConfigError {
    /// The worker count is not the square of a positive integer.
    WorkerCountNotSquare,
    /// A dimension of the grid is smaller than the number of patches along it.
    GridTooSmall,
    /// The grid's width is not a multiple of the word width of packed storage.
    WidthNotWordAligned,
}

/// A rectangular region of the grid: columns `col_start..col_end` and rows
/// `row_start..row_end`, both half-open.
#[derive(Debug, Clone, Copy, PartialEq, Eq, Structural)]
pub struct Patch {
    pub col_start: u32,
    pub col_end: u32,
    pub row_start: u32,
    pub row_end: u32,
}

/// Whether `n` is the square of a positive integer.
pub open spec fn is_square(n: int) -> bool {
    exists|s: int| s >= 1 && #[trigger] (s * s) == n
}

/// The number of patches along each side of the tiling for `n` workers.
pub open spec fn side_of(n: int) -> int {
    choose|s: int| s >= 1 && #[trigger] (s * s) == n
}

/// Where the `i`-th of `side` spans of `0..n` begins: every span is
/// `n / side` long but the last, which reaches to `n`.
pub open spec fn prefix(n: int, side: int, i: int) -> int {
    if i >= side {
        n
    } else {
        i * (n / side)
    }
}

/// Whether `(col, row)` lies in the `k`-th patch, in row-major order, of the
/// `side` by `side` tiling of a `cols` by `rows` grid.
pub open spec fn tile_contains(cols: int, rows: int, side: int, k: int, col: int, row: int) -> bool {
    &&& prefix(cols, side, k % side) <= col < prefix(cols, side, k % side + 1)
    &&& prefix(rows, side, k / side) <= row < prefix(rows, side, k / side + 1)
}

/// Number of cells in the `k`-th patch of the tiling.
pub open spec fn tile_area(cols: int, rows: int, side: int, k: int) -> int {
    (prefix(cols, side, k % side + 1) - prefix(cols, side, k % side)) * (prefix(
        rows,
        side,
        k / side + 1,
    ) - prefix(rows, side, k / side))
}

/// Total number of cells in the first `k` patches of the tiling.
pub open spec fn tiles_area(cols: int, rows: int, side: int, k: int) -> int
    decreases k,
{
    if k <= 0 {
        0
    } else {
        tiles_area(cols, rows, side, k - 1) + tile_area(cols, rows, side, k - 1)
    }
}

impl Patch {
    /// Whether the cell at `(col, row)` lies in this patch.
    pub open spec fn contains(self, col: int, row: int) -> bool {
        &&& self.col_start <= col < self.col_end
        &&& self.row_start <= row < self.row_end
    }

    /// Whether this patch is the `k`-th patch of the `side` by `side` tiling
    /// of a `cols` by `rows` grid.
    pub open spec fn is_tile(self, cols: int, rows: int, side: int, k: int) -> bool {
        &&& self.col_start == prefix(cols, side, k % side)
        &&& self.col_end == prefix(cols, side, k % side + 1)
        &&& self.row_start == prefix(rows, side, k / side)
        &&& self.row_end == prefix(rows, side, k / side + 1)
    }
}

proof fn lemma_square_unique(s: int, t: int)
    requires
        s >= 1,
        t >= 1,
        s * s == t * t,
    ensures
        s == t,
{
    if s < t {
        assert(s * s < t * t) by (nonlinear_arith)
            requires 1 <= s < t;
    } else if t < s {
        assert(t * t < s * s) by (nonlinear_arith)
            requires 1 <= t < s;
    }
}

/// The spans of `0..n` are ordered, nonempty, and end at `n`.
pub proof fn lemma_prefix_bounds(n: int, side: int, i: int)
    requires
        side >= 1,
        n >= side,
        0 <= i <= side,
    ensures
        0 <= prefix(n, side, i) <= n,
        i < side ==> prefix(n, side, i) < prefix(n, side, i + 1),
        i < side ==> prefix(n, side, i) + n / side <= prefix(n, side, i + 1),
        n / side >= 1,
{
    lemma_fundamental_div_mod(n, side);
    let w = n / side;
    assert(w >= 1) by (nonlinear_arith)
        requires n == side * w + n % side, n % side < side, n >= side, side >= 1;
    assert(side * w <= n) by (nonlinear_arith)
        requires n == side * w + n % side, n % side >= 0;
    if i < side {
        assert(0 <= i * w <= n) by (nonlinear_arith)
            requires 0 <= i < side, w >= 1, side * w <= n;
        assert((i + 1) * w <= n) by (nonlinear_arith)
            requires 0 <= i < side, w >= 1, side * w <= n;
        assert((i + 1) * w == i * w + w) by (nonlinear_arith);
    }
}

/// Which of the `side` spans of `0..n` holds `x`.
pub open spec fn span_index(n: int, side: int, x: int) -> int {
    if x / (n / side) >= side - 1 {
        side - 1
    } else {
        x / (n / side)
    }
}

/// The spans of `0..n` cover every `x` in range exactly once.
pub proof fn lemma_span_exact(n: int, side: int, x: int)
    requires
        side >= 1,
        n >= side,
        0 <= x < n,
    ensures
        0 <= span_index(n, side, x) < side,
        prefix(n, side, span_index(n, side, x)) <= x < prefix(n, side, span_index(n, side, x) + 1),
        forall|j: int|
            0 <= j < side && #[trigger] prefix(n, side, j) <= x < prefix(n, side, j + 1) ==> j == span_index(
                n,
                side,
                x,
            ),
{
    lemma_prefix_bounds(n, side, 0);
    let w = n / side;
    let q = x / w;
    lemma_fundamental_div_mod(x, w);
    assert(0 <= q) by (nonlinear_arith)
        requires x == w * q + x % w, 0 <= x % w < w, x >= 0, w >= 1;
    assert(q * w <= x < (q + 1) * w) by (nonlinear_arith)
        requires x == w * q + x % w, 0 <= x % w < w;
    let i = span_index(n, side, x);
    if q >= side - 1 {
        assert((side - 1) * w <= q * w) by (nonlinear_arith)
            requires side - 1 <= q, w >= 1;
    }
    assert forall|j: int| 0 <= j < side && #[trigger] prefix(n, side, j) <= x < prefix(n, side, j + 1) implies j
        == i by {
        if j < i {
            assert((j + 1) * w <= i * w) by (nonlinear_arith)
                requires j + 1 <= i, w >= 1;
        } else if i < j {
            assert((i + 1) * w <= j * w) by (nonlinear_arith)
                requires i + 1 <= j, w >= 1;
        }
    }
}

/// The patch of the tiling, in row-major order, that holds `(col, row)`.
pub open spec fn tile_of(cols: int, rows: int, side: int, col: int, row: int) -> int {
    span_index(rows, side, row) * side + span_index(cols, side, col)
}

/// Every cell of the grid lies in exactly one patch of the tiling.
pub proof fn lemma_tiling_exact(cols: int, rows: int, side: int, col: int, row: int)
    requires
        side >= 1,
        cols >= side,
        rows >= side,
        0 <= col < cols,
        0 <= row < rows,
    ensures
        0 <= tile_of(cols, rows, side, col, row) < side * side,
        tile_contains(cols, rows, side, tile_of(cols, rows, side, col, row), col, row),
        exists|k: int| 0 <= k < side * side && tile_contains(cols, rows, side, k, col, row),
        forall|k1: int, k2: int|
            0 <= k1 < side * side && 0 <= k2 < side * side && #[trigger] tile_contains(
                cols,
                rows,
                side,
                k1,
                col,
                row,
            ) && #[trigger] tile_contains(cols, rows, side, k2, col, row) ==> k1 == k2,
{
    lemma_span_exact(cols, side, col);
    lemma_span_exact(rows, side, row);
    let pc = span_index(cols, side, col);
    let pr = span_index(rows, side, row);
    let k = pr * side + pc;
    crate::arith::lemma_index_in_range(side, side, pc, pr);
    assert(tile_contains(cols, rows, side, k, col, row));
    assert forall|k1: int|
        0 <= k1 < side * side && #[trigger] tile_contains(cols, rows, side, k1, col, row) implies k1 == k by {
        crate::arith::lemma_split_index(side, side, k1);
    }
}

/// The first `k` patches, in row-major order, cover the rows above their
/// patch row in full and, in their patch row, the columns up to theirs.
proof fn lemma_tiles_area_prefix(cols: int, rows: int, side: int, k: int)
    requires
        side >= 1,
        cols >= side,
        rows >= side,
        0 <= k <= side * side,
    ensures
        tiles_area(cols, rows, side, k) == prefix(rows, side, k / side) * cols + (prefix(
            rows,
            side,
            k / side + 1,
        ) - prefix(rows, side, k / side)) * prefix(cols, side, k % side),
    decreases k,
{
    if k == 0 {
        assert(0int / side == 0 && 0int % side == 0) by (nonlinear_arith)
            requires side >= 1;
        assert(prefix(rows, side, 0) == 0);
        assert(prefix(cols, side, 0) == 0);
    } else {
        let j = k - 1;
        lemma_tiles_area_prefix(cols, rows, side, j);
        vstd::arithmetic::div_mod::lemma_fundamental_div_mod(j, side);
        let m = j / side;
        let t = j % side;
        assert(0 <= m < side) by (nonlinear_arith)
            requires j == side * m + t, 0 <= t < side, 0 <= j < side * side;
        lemma_prefix_bounds(rows, side, m);
        lemma_prefix_bounds(cols, side, t);
        let rm = prefix(rows, side, m);
        let rm1 = prefix(rows, side, m + 1);
        let h = rm1 - rm;
        let pc = prefix(cols, side, t);
        let pc1 = prefix(cols, side, t + 1);
        let pj = tiles_area(cols, rows, side, j);
        assert(pj == rm * cols + h * pc);
        assert(tile_area(cols, rows, side, j) == (pc1 - pc) * h);
        let pk = tiles_area(cols, rows, side, k);
        assert(pk == pj + (pc1 - pc) * h);
        if t + 1 < side {
            vstd::arithmetic::div_mod::lemma_fundamental_div_mod_converse(k, side, m, t + 1);
            assert(pk == rm * cols + h * pc1) by (nonlinear_arith)
                requires pk == pj + (pc1 - pc) * h, pj == rm * cols + h * pc;
        } else {
            assert(k == (m + 1) * side + 0) by (nonlinear_arith)
                requires k == j + 1, j == side * m + t, t + 1 == side;
            vstd::arithmetic::div_mod::lemma_fundamental_div_mod_converse(k, side, m + 1, 0);
            assert(pc1 == cols);
            assert(prefix(cols, side, 0) == 0);
            assert(pk == rm1 * cols) by (nonlinear_arith)
                requires pk == pj + (pc1 - pc) * h, pj == rm * cols + h * pc, pc1 == cols, h == rm1 - rm;
            assert(pk == rm1 * cols + (prefix(rows, side, m + 2) - rm1) * 0);
        }
    }
}

/// The patches of a tiling cover the grid exactly: each cell lies in one
/// patch, and their areas add up to `cols * rows`.
pub proof fn lemma_tiling_covers_grid(cols: int, rows: int, side: int)
    requires
        side >= 1,
        cols >= side,
        rows >= side,
    ensures
        tiles_area(cols, rows, side, side * side) == cols * rows,
        forall|c: int, r: int|
            0 <= c < cols && 0 <= r < rows ==> 0 <= #[trigger] tile_of(cols, rows, side, c, r) < side
                * side && tile_contains(cols, rows, side, tile_of(cols, rows, side, c, r), c, r),
        forall|c: int, r: int, k1: int, k2: int|
            0 <= c < cols && 0 <= r < rows && 0 <= k1 < side * side && 0 <= k2 < side * side
                && #[trigger] tile_contains(cols, rows, side, k1, c, r) && #[trigger] tile_contains(
                cols,
                rows,
                side,
                k2,
                c,
                r,
            ) ==> k1 == k2,
{
    lemma_tiles_area_prefix(cols, rows, side, side * side);
    vstd::arithmetic::div_mod::lemma_fundamental_div_mod_converse(side * side, side, side, 0);
    assert(prefix(rows, side, side) == rows);
    assert(prefix(rows, side, side + 1) == rows);
    let kk = side * side;
    assert(kk / side == side && kk % side == 0);
    let pk = tiles_area(cols, rows, side, kk);
    assert(pk == rows * cols + (rows - rows) * prefix(cols, side, 0));
    assert(pk == cols * rows) by (nonlinear_arith)
        requires pk == rows * cols + (rows - rows) * prefix(cols, side, 0);
    assert forall|c: int, r: int| 0 <= c < cols && 0 <= r < rows implies 0 <= #[trigger] tile_of(
        cols,
        rows,
        side,
        c,
        r,
    ) < side * side && tile_contains(cols, rows, side, tile_of(cols, rows, side, c, r), c, r) by {
        lemma_tiling_exact(cols, rows, side, c, r);
    }
    assert forall|c: int, r: int, k1: int, k2: int|
        0 <= c < cols && 0 <= r < rows && 0 <= k1 < side * side && 0 <= k2 < side * side
            && #[trigger] tile_contains(cols, rows, side, k1, c, r) && #[trigger] tile_contains(
            cols,
            rows,
            side,
            k2,
            c,
            r,
        ) implies k1 == k2 by {
        lemma_tiling_exact(cols, rows, side, c, r);
    }
}

/// Computes `prefix(n, side, i)`.
fn prefix_exec(n: u32, side: u32, i: u32) -> (r: u32)
    requires
        side >= 1,
        n >= side,
        i <= side,
    ensures
        r == prefix(n as int, side as int, i as int),
{
    proof {
        lemma_prefix_bounds(n as int, side as int, i as int);
    }
    if i >= side {
        n
    } else {
        i * (n / side)
    }
}

/// The integer square root of `n`, rounded down.
fn floor_sqrt(n: u32) -> (r: u32)
    ensures
        (r as int) * (r as int) <= n,
        n < (r as int + 1) * (r as int + 1),
{
    let mut s: u64 = 0;
    loop
        invariant
            s * s <= n,
            s <= 65535,
        ensures
            s * s <= n < (s + 1) * (s + 1),
            s <= 65535,
        decreases n - s * s,
    {
        let t = s + 1;
        assert(t * t <= 65536 * 65536) by (nonlinear_arith)
            requires 1 <= t <= 65536;
        if t * t > n as u64 {
            break;
        }
        assert(t <= 65535) by (nonlinear_arith)
            requires t * t <= n, n <= 0xffff_ffff, t >= 1;
        assert(s * s < t * t) by (nonlinear_arith)
            requires t == s + 1, s >= 0;
        s = t;
    }
    s as u32
}

/// Splits a `cols` by `rows` grid into `workers` patches laid out as a
/// square tiling, listed in row-major order. Each patch spans
/// `cols / side` columns and `rows / side` rows, where `side * side ==
/// workers`, but those of the last column and the last row of patches, which
/// reach to the grid's edge.
pub fn partition(cols: u32, rows: u32, workers: u32) -> (r: Result<Vec<Patch>, ConfigError>)
    ensures
        match r {
            Ok(p) => {
                &&& is_square(workers as int)
                &&& cols >= side_of(workers as int)
                &&& rows >= side_of(workers as int)
                &&& p@.len() == workers
                &&& forall|k: int|
                    0 <= k < p@.len() ==> (#[trigger] p@[k]).is_tile(
                        cols as int,
                        rows as int,
                        side_of(workers as int),
                        k,
                    )
            },
            Err(ConfigError::WorkerCountNotSquare) => !is_square(workers as int),
            Err(ConfigError::GridTooSmall) => {
                &&& is_square(workers as int)
                &&& (cols < side_of(workers as int) || rows < side_of(workers as int))
            },
            Err(ConfigError::WidthNotWordAligned) => false,
        },
{
    let side = floor_sqrt(workers);
    if side == 0 || side * side != workers {
        proof {
            assert forall|t: int| t >= 1 implies #[trigger] (t * t) != workers as int by {
                if t * t == workers as int {
                    if t <= side {
                        assert(t * t <= side * side) by (nonlinear_arith)
                            requires 1 <= t <= side;
                    } else {
                        assert((side + 1) * (side + 1) <= t * t) by (nonlinear_arith)
                            requires side + 1 <= t;
                    }
                }
            }
        }
        return Err(ConfigError::WorkerCountNotSquare);
    }
    proof {
        assert(side as int * side as int == workers as int);
        let c = side_of(workers as int);
        lemma_square_unique(c, side as int);
    }
    if cols < side || rows < side {
        return Err(ConfigError::GridTooSmall);
    }
    let mut patches: Vec<Patch> = Vec::new();
    let mut k: u32 = 0;
    while k < workers
        invariant
            side >= 1,
            side * side == workers,
            side_of(workers as int) == side,
            cols >= side,
            rows >= side,
            k <= workers,
            patches@.len() == k,
            forall|j: int|
                0 <= j < k ==> (#[trigger] patches@[j]).is_tile(
                    cols as int,
                    rows as int,
                    side as int,
                    j,
                ),
        decreases workers - k,
    {
        let pc = k % side;
        let pr = k / side;
        assert(pr < side) by (nonlinear_arith)
            requires pr == k / side, k < side * side, side >= 1;
        let patch = Patch {
            col_start: prefix_exec(cols, side, pc),
            col_end: prefix_exec(cols, side, pc + 1),
            row_start: prefix_exec(rows, side, pr),
            row_end: prefix_exec(rows, side, pr + 1),
        };
        patches.push(patch);
        k = k + 1;
    }
    Ok(patches)
}

} // verus!
