//! The interactive session: the grid, the statistics shown beside it, and
//! what each frame's input does to them.
use vstd::prelude::*;
use rand::Rng;
use crate::arith::{lemma_index_in_range, lemma_wrap};
use crate::board::{count_true, lemma_count_positive, lemma_count_set};
use crate::grid::Grid;
use crate::input::{InputMap, Key};
use crate::partition::ConfigError;

verus! {

/// Whether the simulation advances on its own.
#[derive(Debug, Clone, Copy, PartialEq, Eq, Structural)]
pub enum SimStatus {
    PAUSED,
    RUNNING,
}

impl SimStatus {
    /// The status as shown to the user.
    pub fn label(&self) -> (r: &'static str)
        ensures
            *self == SimStatus::PAUSED ==> r@ == "PAUSED"@,
            *self == SimStatus::RUNNING ==> r@ == "RUNNING"@,
    {
        proof {
            reveal_strlit("PAUSED");
            reveal_strlit("RUNNING");
        }
        match self {
            SimStatus::PAUSED => "PAUSED",
            SimStatus::RUNNING => "RUNNING",
        }
    }
}

/// What the session shows about itself.
pub struct Statistics {
    pub sim_step_ms: u128,
    pub generation: u128,
    pub fps: u64,
    pub rendering: bool,
    pub sim_status: SimStatus,
    pub board_width: u128,
    pub board_height: u128,
    pub resolution_width: u32,
    pub resolution_height: u32,
}

impl Statistics {
    /// A paused session that renders and steps every 10 ms once running.
    pub fn new() -> (r: Statistics)
        ensures
            r.sim_step_ms == 10,
            r.generation == 0,
            r.fps == 0,
            r.rendering,
            r.sim_status == SimStatus::PAUSED,
            r.board_width == 0,
            r.board_height == 0,
            r.resolution_width == 0,
            r.resolution_height == 0,
    {
        Statistics {
            sim_step_ms: 10,
            generation: 0,
            fps: 0,
            rendering: true,
            sim_status: SimStatus::PAUSED,
            board_width: 0,
            board_height: 0,
            resolution_width: 0,
            resolution_height: 0,
        }
    }
}

/// `n` rounded up to a multiple of 16.
pub open spec fn round_up_16(n: int) -> int {
    if n % 16 == 0 {
        n
    } else {
        n + (16 - n % 16)
    }
}

/// Rounds `n` up to a multiple of 16.
pub fn padded(n: u32) -> (r: u32)
    requires
        n <= u32::MAX - 15,
    ensures
        r == round_up_16(n as int),
        r % 16 == 0,
        n <= r < n + 16,
{
    match n % 16 {
        0 => n,
        x => n + (16 - x),
    }
}

/// The step length after the plus and minus keys of one frame: with shift
/// held they change it by 10, else by 1, never past the range of `u128`
/// and, when shortening by 10, never below 10.
pub open spec fn adjusted_step(ms: u128, shift: bool, plus: bool, minus: bool) -> u128 {
    let a = if shift && plus {
        if ms < u128::MAX - 10 {
            (ms + 10) as u128
        } else {
            ms
        }
    } else if plus {
        if ms < u128::MAX {
            (ms + 1) as u128
        } else {
            ms
        }
    } else {
        ms
    };
    if shift && minus {
        if a > 10 {
            (a - 10) as u128
        } else {
            a
        }
    } else if minus {
        if a > 0 {
            (a - 1) as u128
        } else {
            a
        }
    } else {
        a
    }
}

/// `g` advanced by `n` generations, stopping at the largest count.
pub open spec fn counted(g: u128, n: nat) -> u128 {
    if g + n <= u128::MAX {
        (g + n) as u128
    } else {
        u128::MAX
    }
}

/// What a frame asks of the program around the session.
#[derive(Debug, Clone, Copy, PartialEq, Eq, Structural)]
pub struct FrameOutcome {
    /// The program goes on to the next frame.
    pub keep_running: bool,
    /// A timed step was taken: the step timer starts again.
    pub restart_timer: bool,
}

/// Relies on rand's `thread_rng` and `Rng::gen_range`, which returns a value
/// in `low..high` and panics when that range is empty.
#[verifier::external_body]
fn random_below(n: u32) -> (r: u32)
    requires
        n > 0,
    ensures
        r < n,
{
    rand::thread_rng().gen_range(0, n)
}

/// A sequence of `n` `false` entries counts none.
proof fn lemma_count_zero(n: nat)
    ensures
        count_true(Seq::new(n, |i: int| false)) == 0,
    decreases n,
{
    if n > 0 {
        assert(Seq::new(n, |i: int| false).drop_last() =~= Seq::new((n - 1) as nat, |i: int| false));
        lemma_count_zero((n - 1) as nat);
    }
}

/// Makes alive every cell `(col, row)` that `draws` lists; pairs outside the
/// grid are ignored and every other cell keeps its state. At most one cell
/// comes to life per pair.
pub fn seed(grid: &mut Grid, draws: &Vec<(u32, u32)>)
    requires
        old(grid).wf(),
    ensures
        final(grid).wf(),
        final(grid)@.cols == old(grid)@.cols,
        final(grid)@.rows == old(grid)@.rows,
        forall|c: int, r: int|
            0 <= c < old(grid)@.cols && 0 <= r < old(grid)@.rows ==> #[trigger] final(grid)@.alive(c, r)
                == (old(grid)@.alive(c, r) || draws@.contains((c as u32, r as u32))),
        final(grid)@.live_count() <= old(grid)@.live_count() + draws@.len(),
{
    let ghost b0 = grid@;
    let ghost n = b0.cols as int;
    let ghost m = b0.rows as int;
    let mut k: usize = 0;
    while k < draws.len()
        invariant
            grid.wf(),
            b0 == old(grid)@,
            grid@.cols == b0.cols,
            grid@.rows == b0.rows,
            n == b0.cols,
            m == b0.rows,
            k <= draws@.len(),
            n <= u32::MAX,
            m <= u32::MAX,
            forall|c: int, r: int|
                0 <= c < n && 0 <= r < m ==> #[trigger] grid@.alive(c, r) == (b0.alive(c, r)
                    || draws@.subrange(0, k as int).contains((c as u32, r as u32))),
            grid@.live_count() <= b0.live_count() + k,
        decreases draws@.len() - k,
    {
        let (col, row) = draws[k];
        let ghost g0 = grid@;
        grid.set_cell(col as usize, row as usize, true);
        proof {
            let sub = draws@.subrange(0, k as int);
            let sub1 = draws@.subrange(0, k + 1);
            assert(sub1 =~= sub.push((col, row)));
            if (col as int) < n && (row as int) < m {
                lemma_index_in_range(n, m, col as int, row as int);
                lemma_count_set(g0.cells, g0.index(col as int, row as int));
            } else {
                assert(grid@.cells == g0.cells);
            }
            assert forall|c: int, r: int| 0 <= c < n && 0 <= r < m implies #[trigger] grid@.alive(c, r)
                == (b0.alive(c, r) || sub1.contains((c as u32, r as u32))) by {
                lemma_wrap(c, n);
                lemma_wrap(r, m);
                lemma_index_in_range(n, m, c, r);
                assert(g0.alive(c, r) == (b0.alive(c, r) || sub.contains((c as u32, r as u32))));
                if sub1.contains((c as u32, r as u32)) && !sub.contains((c as u32, r as u32)) {
                    let j = choose|j: int| 0 <= j < sub1.len() && sub1[j] == (c as u32, r as u32);
                    assert(j == k);
                }
                if sub.contains((c as u32, r as u32)) {
                    let j = choose|j: int| 0 <= j < sub.len() && sub[j] == (c as u32, r as u32);
                    assert(sub1[j] == sub[j]);
                }
                if (col as int) < n && (row as int) < m {
                    lemma_index_in_range(n, m, col as int, row as int);
                    if c == col && r == row {
                        assert(sub1[k as int] == (c as u32, r as u32));
                    } else {
                        assert(g0.index(c, r) != g0.index(col as int, row as int));
                    }
                } else {
                    assert((c as u32, r as u32) != (col, row));
                }
            }
        }
        k = k + 1;
    }
    assert(draws@.subrange(0, draws@.len() as int) =~= draws@);
}

/// Number of cells placed by the glider armada: five for each of 1001 by
/// 1001 gliders.
pub const ARMADA_CELLS: u32 = 5_005_005;

/// The `k`-th cell of the glider armada: glider `k / 5`, in column `i` and
/// row `j` of a 1001 by 1001 array of gliders 7 columns and 5 rows apart,
/// and of that glider the cell `k % 5` among `(0, 2)`, `(1, 2)`, `(2, 2)`,
/// `(2, 1)`, `(1, 0)`.
pub open spec fn armada_cell(k: int) -> (u32, u32) {
    let g = k / 5;
    let i = g / 1001;
    let j = g % 1001;
    let t = k % 5;
    let (dx, dy) = if t == 0 {
        (0int, 2int)
    } else if t == 1 {
        (1, 2)
    } else if t == 2 {
        (2, 2)
    } else if t == 3 {
        (2, 1)
    } else {
        (1, 0)
    };
    ((7 * i + dx) as u32, (5 * j + dy) as u32)
}

/// Whether `(col, row)` is a cell of the glider armada.
pub open spec fn in_armada(col: int, row: int) -> bool {
    exists|k: int| 0 <= k < ARMADA_CELLS && #[trigger] armada_cell(k) == (col as u32, row as u32)
}

fn armada_cell_at(k: u32) -> (r: (u32, u32))
    requires
        k < ARMADA_CELLS,
    ensures
        r == armada_cell(k as int),
{
    let g = k / 5;
    let i = g / 1001;
    let j = g % 1001;
    let t = k % 5;
    let (dx, dy): (u32, u32) = if t == 0 {
        (0, 2)
    } else if t == 1 {
        (1, 2)
    } else if t == 2 {
        (2, 2)
    } else if t == 3 {
        (2, 1)
    } else {
        (1, 0)
    };
    (7 * i + dx, 5 * j + dy)
}

/// Places a fleet of 1001 by 1001 gliders, 7 columns and 5 rows apart, from
/// the top-left corner on: every armada cell inside the grid comes alive,
/// every other cell keeps its state.
pub fn seed_glider_armada(grid: &mut Grid)
    requires
        old(grid).wf(),
    ensures
        final(grid).wf(),
        final(grid)@.cols == old(grid)@.cols,
        final(grid)@.rows == old(grid)@.rows,
        forall|c: int, r: int|
            0 <= c < old(grid)@.cols && 0 <= r < old(grid)@.rows ==> #[trigger] final(grid)@.alive(c, r)
                == (old(grid)@.alive(c, r) || in_armada(c, r)),
{
    let mut draws: Vec<(u32, u32)> = Vec::new();
    let mut k: u32 = 0;
    while k < ARMADA_CELLS
        invariant
            k <= ARMADA_CELLS,
            draws@ == Seq::new(k as nat, |j: int| armada_cell(j)),
        decreases ARMADA_CELLS - k,
    {
        draws.push(armada_cell_at(k));
        k = k + 1;
        assert(draws@ =~= Seq::new(k as nat, |j: int| armada_cell(j)));
    }
    seed(grid, &draws);
    proof {
        assert forall|c: int, r: int|
            0 <= c < old(grid)@.cols && 0 <= r < old(grid)@.rows implies draws@.contains(
            (c as u32, r as u32),
        ) == in_armada(c, r) by {
            if in_armada(c, r) {
                let k = choose|k: int| 0 <= k < ARMADA_CELLS && #[trigger] armada_cell(k) == (c as u32, r as u32);
                assert(draws@[k] == armada_cell(k));
            }
            if draws@.contains((c as u32, r as u32)) {
                let k = choose|k: int| 0 <= k < draws@.len() && draws@[k] == (c as u32, r as u32);
                assert(armada_cell(k) == draws@[k]);
            }
        }
    }
}

/// Milliseconds between the plain viewer's timed steps.
pub const VIEWER_STEP_MS: u128 = 10;

/// What one frame of the plain viewer asks of the program around it.
#[derive(Debug, Clone, Copy, PartialEq, Eq, Structural)]
pub struct ViewerFrame {
    /// The program goes on to the next frame.
    pub keep_running: bool,
    /// The grid is drawn.
    pub rendering: bool,
    /// A timed step was taken: the step timer starts again.
    pub restart_timer: bool,
}

/// One frame of the plain viewer, which always runs: `quit` ends it,
/// `toggle_rendering` turns drawing on or off, `step_once` takes one extra
/// step, and a step is taken whenever `elapsed_ms`, the time since the last
/// timed step, reaches `VIEWER_STEP_MS`.
pub fn viewer_frame(
    grid: &mut Grid,
    rendering: bool,
    quit: bool,
    toggle_rendering: bool,
    step_once: bool,
    elapsed_ms: u128,
) -> (r: ViewerFrame)
    requires
        old(grid).wf(),
    ensures
        final(grid).wf(),
        r.keep_running == !quit,
        r.rendering == (rendering != toggle_rendering),
        r.restart_timer == (elapsed_ms >= VIEWER_STEP_MS),
        final(grid)@ == old(grid)@.advance(
            (if step_once {
                1nat
            } else {
                0nat
            }) + (if r.restart_timer {
                1nat
            } else {
                0nat
            }),
        ),
{
    let ghost b0 = grid@;
    if step_once {
        grid.run_lifecycle();
    }
    let ghost n1: nat = if step_once { 1 } else { 0 };
    assert(b0.advance(0) == b0);
    assert(b0.advance(1) == b0.advance(0).next());
    assert(grid@ == b0.advance(n1));
    let restart_timer = elapsed_ms >= VIEWER_STEP_MS;
    if restart_timer {
        grid.run_lifecycle();
        assert(b0.advance(n1 + 1) == b0.advance(n1).next());
        assert(b0.advance(2) == b0.advance(1).next());
    }
    ViewerFrame { keep_running: !quit, rendering: rendering != toggle_rendering, restart_timer }
}

/// A running session: the grid and its statistics.
pub struct RustyLife {
    pub grid: Grid,
    pub stats: Statistics,
}

impl RustyLife {
    pub open spec fn wf(&self) -> bool {
        &&& self.grid.wf()
        &&& self.stats.board_width == self.grid.num_cols
        &&& self.stats.board_height == self.grid.num_rows
    }

    /// A session on a board of at least `board_size`, each side rounded up
    /// to a multiple of 16, seeded by making `width * height / 2` cells,
    /// drawn at random, alive.
    pub fn new(board_size: (u32, u32), window_size: (u32, u32)) -> (r: RustyLife)
        requires
            0 < board_size.0 <= u32::MAX - 15,
            0 < board_size.1 <= u32::MAX - 15,
            round_up_16(board_size.0 as int) * round_up_16(board_size.1 as int) <= usize::MAX,
        ensures
            r.wf(),
            r.grid@.cols == round_up_16(board_size.0 as int),
            r.grid@.rows == round_up_16(board_size.1 as int),
            r.stats.board_width == round_up_16(board_size.0 as int),
            r.stats.board_height == round_up_16(board_size.1 as int),
            r.stats.resolution_width == window_size.0,
            r.stats.resolution_height == window_size.1,
            r.stats.sim_step_ms == 10,
            r.stats.generation == 0,
            r.stats.fps == 0,
            r.stats.rendering,
            r.stats.sim_status == SimStatus::PAUSED,
            1 <= r.grid@.live_count() <= round_up_16(board_size.0 as int) * round_up_16(
                board_size.1 as int,
            ) / 2,
    {
        let cols = padded(board_size.0);
        let rows = padded(board_size.1);
        let mut stats = Statistics::new();
        stats.board_width = cols as u128;
        stats.board_height = rows as u128;
        stats.resolution_width = window_size.0;
        stats.resolution_height = window_size.1;
        let mut grid = match Grid::new((cols, rows)) {
            Ok(g) => g,
            Err(e) => {
                proof {
                    assert(false);
                }
                return RustyLife { grid: Grid { cells: Vec::new(), num_cols: 0, num_rows: 0 }, stats };
            },
        };
        let seeds = ((cols as u64) * (rows as u64) / 2) as usize;
        let mut draws: Vec<(u32, u32)> = Vec::new();
        let mut k: usize = 0;
        while k < seeds
            invariant
                cols > 0,
                rows > 0,
                draws@.len() == k,
                k <= seeds,
                forall|j: int| 0 <= j < k ==> (#[trigger] draws@[j]).0 < cols && draws@[j].1 < rows,
            decreases seeds - k,
        {
            let col = random_below(cols);
            let row = random_below(rows);
            draws.push((col, row));
            k = k + 1;
        }
        let ghost before = grid@;
        seed(&mut grid, &draws);
        proof {
            assert(before.live_count() == 0) by {
                assert(before.cells =~= Seq::new(before.cells.len(), |i: int| false));
                lemma_count_zero(before.cells.len());
            }
            assert(seeds >= 1) by (nonlinear_arith)
                requires seeds == (cols as int * rows as int) / 2, cols >= 16, rows >= 16;
            let (c, r) = draws@[0];
            assert(draws@.contains((c, r)));
            lemma_wrap(c as int, cols as int);
            lemma_wrap(r as int, rows as int);
            assert(grid@.alive(c as int, r as int));
            lemma_index_in_range(cols as int, rows as int, c as int, r as int);
            lemma_count_positive(grid@.cells, grid@.index(c as int, r as int));
        }
        RustyLife { grid, stats }
    }

    /// Advances the grid by one generation and counts it.
    fn tick(&mut self)
        requires
            old(self).wf(),
        ensures
            final(self).wf(),
            final(self).grid@ == old(self).grid@.next(),
            final(self).stats.generation == counted(old(self).stats.generation, 1),
            final(self).stats.sim_step_ms == old(self).stats.sim_step_ms,
            final(self).stats.fps == old(self).stats.fps,
            final(self).stats.rendering == old(self).stats.rendering,
            final(self).stats.sim_status == old(self).stats.sim_status,
            final(self).stats.board_width == old(self).stats.board_width,
            final(self).stats.board_height == old(self).stats.board_height,
            final(self).stats.resolution_width == old(self).stats.resolution_width,
            final(self).stats.resolution_height == old(self).stats.resolution_height,
    {
        self.grid.run_lifecycle();
        self.stats.generation = if self.stats.generation < u128::MAX {
            self.stats.generation + 1
        } else {
            self.stats.generation
        };
    }

    /// Applies one frame: `input` is what the user did since the last
    /// frame, `elapsed_ms` the time since the last timed step. Escape ends
    /// the session; `N` takes one step; `R` turns rendering on or off; space
    /// starts or pauses the simulation; plus and minus change the step
    /// length. A running simulation then takes a step once `elapsed_ms`
    /// reaches the step length.
    pub fn handle_frame(&mut self, input: &InputMap, elapsed_ms: u128) -> (r: FrameOutcome)
        requires
            old(self).wf(),
        ensures
            final(self).wf(),
            r.keep_running == !input.pressed(Key::ESC),
            final(self).stats.rendering == (old(self).stats.rendering != input.pressed(Key::R)),
            final(self).stats.sim_status == if input.pressed(Key::SPACE) {
                if old(self).stats.sim_status == SimStatus::RUNNING {
                    SimStatus::PAUSED
                } else {
                    SimStatus::RUNNING
                }
            } else {
                old(self).stats.sim_status
            },
            final(self).stats.sim_step_ms == adjusted_step(
                old(self).stats.sim_step_ms,
                input.held(Key::LSHIFT),
                input.pressed(Key::NumPLUS),
                input.pressed(Key::NumMINUS),
            ),
            r.restart_timer == (final(self).stats.sim_status == SimStatus::RUNNING && elapsed_ms
                >= final(self).stats.sim_step_ms),
            ({
                let steps: nat = (if input.pressed(Key::N) {
                    1nat
                } else {
                    0nat
                }) + (if r.restart_timer {
                    1nat
                } else {
                    0nat
                });
                &&& final(self).grid@ == old(self).grid@.advance(steps)
                &&& final(self).stats.generation == counted(old(self).stats.generation, steps)
            }),
            final(self).stats.fps == old(self).stats.fps,
            final(self).stats.board_width == old(self).stats.board_width,
            final(self).stats.board_height == old(self).stats.board_height,
            final(self).stats.resolution_width == old(self).stats.resolution_width,
            final(self).stats.resolution_height == old(self).stats.resolution_height,
    {
        let ghost b0 = self.grid@;
        let ghost g0 = self.stats.generation;
        let keep_running = !input.pressed(Key::ESC);
        if input.pressed(Key::N) {
            self.tick();
        }
        let ghost b1 = self.grid@;
        let ghost g1 = self.stats.generation;
        let ghost n1: nat = if input.pressed(Key::N) { 1 } else { 0 };
        assert(b0.advance(0) == b0);
        assert(b0.advance(1) == b0.advance(0).next());
        assert(b1 == b0.advance(n1));
        assert(g1 == counted(g0, n1));
        if input.pressed(Key::R) {
            self.stats.rendering = !self.stats.rendering;
        }
        if input.pressed(Key::SPACE) {
            self.stats.sim_status = match self.stats.sim_status {
                SimStatus::RUNNING => SimStatus::PAUSED,
                _ => SimStatus::RUNNING,
            };
        }
        let shift = input.held(Key::LSHIFT);
        if shift && input.pressed(Key::NumPLUS) {
            if self.stats.sim_step_ms < u128::MAX - 10 {
                self.stats.sim_step_ms = self.stats.sim_step_ms + 10;
            }
        } else if input.pressed(Key::NumPLUS) {
            if self.stats.sim_step_ms < u128::MAX {
                self.stats.sim_step_ms = self.stats.sim_step_ms + 1;
            }
        }
        if shift && input.pressed(Key::NumMINUS) {
            if self.stats.sim_step_ms > 10 {
                self.stats.sim_step_ms = self.stats.sim_step_ms - 10;
            }
        } else if input.pressed(Key::NumMINUS) {
            if self.stats.sim_step_ms > 0 {
                self.stats.sim_step_ms = self.stats.sim_step_ms - 1;
            }
        }
        let mut restart_timer = false;
        if self.stats.sim_status == SimStatus::RUNNING && elapsed_ms >= self.stats.sim_step_ms {
            self.tick();
            restart_timer = true;
        }
        proof {
            let n2: nat = if restart_timer { 1 } else { 0 };
            if n2 == 1 {
                assert(b0.advance(n1 + 1) == b0.advance(n1).next());
                assert(b0.advance(2) == b0.advance(1).next());
            }
        }
        FrameOutcome { keep_running, restart_timer }
    }
}

} // verus!
