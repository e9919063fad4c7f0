//! The search for a frame over time and frequency on the downsampled signal.
//!
//! A cell of the search is a start and a frequency offset. Its score is the
//! sum of the correlations with the blocks of fixed tones, each of which
//! counts nothing where it leaves the signal. The scorer is handed in and
//! gives the score's rank (see `search`).

use crate::engine::search::best_place;
use crate::engine::search::{chosen, first_best, scored};
use vstd::prelude::*;

verus! {

/// Samples between two starts of the coarse pass.
pub const COARSE_DT_STEP: i32 = 4;

pub const COARSE_DF_MIN: i32 = -12;

pub const COARSE_DF_STEP: i32 = 3;

/// Offsets of FT4's coarse pass.
pub const N_COARSE_DF: usize = 9;

/// FT4's fine pass: hertz and samples to either side.
pub const FINE_DF: i32 = 4;

pub const FINE_DT: i32 = 5;

/// FST4's passes: tenths of the baud rate, fiftieths of it, and samples.
pub const FST4_DF: i32 = 12;

pub const FST4_FINE_DF: i32 = 7;

pub const FST4_FINE_DT: i32 = 4;

/// The starts that `ft4_sync_search` covers.
pub const FT4_IB_MIN: i32 = -344;

pub const FT4_IB_MAX: i32 = 1012;

/// The least rank: what no score has to beat.
pub const NO_RANK: i64 = i64::MIN;

/// A place of the search. FT4 counts offsets in hertz, with no `fine` part;
/// FST4 counts `df` in tenths and `fine` in fiftieths of the baud rate.
#[derive(Debug, Clone, Copy, PartialEq, Eq, Structural)]
pub struct Cell {
    pub df: i32,
    pub fine: i32,
    pub i0: i32,
}

/// What a search found: the cell and the rank of its score.
#[derive(Debug, Clone, Copy, PartialEq, Eq, Structural)]
pub struct Sync2dResult {
    pub cell: Cell,
    pub rank: i64,
}

// ── Where a block's samples lie ─────────────────────────────────────────────

/// A block's first sample when all of its samples are there.
pub open spec fn window_of(start: int, len: int, n: int) -> Option<int> {
    if start < 0 || start + len > n {
        None
    } else {
        Some(start)
    }
}

/// The window of a block of `len` samples at `start` in a signal of `n`; a
/// block that is partly outside has none, and scores zero.
pub fn block_window(start: i64, len: u32, n: usize) -> (r: Option<usize>)
    ensures
        match r {
            Some(s) => window_of(start as int, len as int, n as int) == Some(s as int),
            None => window_of(start as int, len as int, n as int) is None,
        },
{
    if start < 0 || start as u128 + len as u128 > n as u128 {
        None
    } else {
        Some(start as usize)
    }
}

// ── Grids ───────────────────────────────────────────────────────────────────

/// How many starts, `step` apart, lie between `lo` and `hi`.
pub open spec fn count(lo: int, hi: int, step: int) -> nat {
    if hi < lo {
        0
    } else {
        ((hi - lo) / step + 1) as nat
    }
}

/// Cells by offset and then by start, as they are visited: `rows` offsets
/// from `df0`, `df_step` apart, and at each `cols` starts from `i0`,
/// `i0_step` apart. With `fine` the offsets are fine ones around `df`.
pub open spec fn grid(
    df: int,
    fine: bool,
    df0: int,
    df_step: int,
    rows: nat,
    i0: int,
    i0_step: int,
    cols: nat,
) -> Seq<Cell> {
    Seq::new(
        rows * cols,
        |k: int|
            {
                let row = df0 + df_step * (k / cols as int);
                let start = (i0 + i0_step * (k % cols as int)) as i32;
                if fine {
                    Cell { df: df as i32, fine: row as i32, i0: start }
                } else {
                    Cell { df: (df + row) as i32, fine: 0, i0: start }
                }
            },
    )
}

fn starts_between(lo: i32, hi: i32, step: i32) -> (r: u64)
    requires
        0 < step,
    ensures
        r == count(lo as int, hi as int, step as int),
{
    if hi < lo {
        0
    } else {
        let width: u64 = (hi as i64 - lo as i64) as u64;
        assert(width as int / step as int <= width) by (nonlinear_arith)
            requires
                width >= 0,
                step > 0,
        ;
        width / step as u64 + 1
    }
}

/// All cells of the grid fit their types.
pub open spec fn grid_fits(
    df: int,
    df0: int,
    df_step: int,
    rows: nat,
    i0: int,
    i0_step: int,
    cols: nat,
) -> bool {
    &&& 0 <= df_step <= 100
    &&& rows <= 100
    &&& -1000 <= df <= 1000
    &&& -1000 <= df0 <= 1000
    &&& 0 < i0_step
    &&& i32::MIN <= i0 <= i32::MAX
    &&& cols > 0 ==> i0 + i0_step * (cols - 1) <= i32::MAX
}

proof fn lemma_grid_at(
    df: int,
    fine: bool,
    df0: int,
    df_step: int,
    rows: nat,
    i0: int,
    i0_step: int,
    cols: nat,
    r: int,
    c: int,
)
    requires
        0 <= r < rows,
        0 <= c < cols,
    ensures
        0 <= r * cols + c < rows * cols,
        grid(df, fine, df0, df_step, rows, i0, i0_step, cols)[r * cols + c] == (if fine {
            Cell { df: df as i32, fine: (df0 + df_step * r) as i32, i0: (i0 + i0_step * c) as i32 }
        } else {
            Cell {
                df: (df + (df0 + df_step * r)) as i32,
                fine: 0,
                i0: (i0 + i0_step * c) as i32,
            }
        }),
{
    vstd::arithmetic::div_mod::lemma_fundamental_div_mod_converse(
        r * cols + c,
        cols as int,
        r,
        c,
    );
    assert(0 <= r * cols + c < rows * cols) by (nonlinear_arith)
        requires
            0 <= r < rows,
            0 <= c < cols,
    ;
}

fn list_grid(
    df: i32,
    fine: bool,
    df0: i32,
    df_step: i32,
    rows: u32,
    i0: i32,
    i0_step: i32,
    cols: u64,
) -> (out: Vec<Cell>)
    requires
        grid_fits(
            df as int,
            df0 as int,
            df_step as int,
            rows as nat,
            i0 as int,
            i0_step as int,
            cols as nat,
        ),
    ensures
        out@ == grid(
            df as int,
            fine,
            df0 as int,
            df_step as int,
            rows as nat,
            i0 as int,
            i0_step as int,
            cols as nat,
        ),
{
    let ghost want = grid(
        df as int,
        fine,
        df0 as int,
        df_step as int,
        rows as nat,
        i0 as int,
        i0_step as int,
        cols as nat,
    );
    let mut out: Vec<Cell> = Vec::new();
    let mut r: u32 = 0;
    let mut row: i32 = df0;
    assert(out@ =~= want.take(0));
    while r < rows
        invariant
            r <= rows,
            row == df0 + df_step * r,
            grid_fits(
                df as int,
                df0 as int,
                df_step as int,
                rows as nat,
                i0 as int,
                i0_step as int,
                cols as nat,
            ),
            want == grid(
                df as int,
                fine,
                df0 as int,
                df_step as int,
                rows as nat,
                i0 as int,
                i0_step as int,
                cols as nat,
            ),
            r * cols <= want.len(),
            out@ == want.take(r * cols),
        decreases rows - r,
    {
        assert(0 <= df_step * r <= 10_000) by (nonlinear_arith)
            requires
                0 <= df_step <= 100,
                0 <= r <= 100,
        ;
        assert(df_step * (r + 1) == df_step * r + df_step) by (nonlinear_arith);
        assert((r + 1) * cols == r * cols + cols) by (nonlinear_arith);
        let mut c: u64 = 0;
        let mut start: i64 = i0 as i64;
        while c < cols
            invariant
                c <= cols,
                0 <= r < rows,
                row == df0 + df_step * r,
                0 <= df_step * r <= 10_000,
                start == i0 + i0_step * c,
                grid_fits(
                    df as int,
                    df0 as int,
                    df_step as int,
                    rows as nat,
                    i0 as int,
                    i0_step as int,
                    cols as nat,
                ),
                want == grid(
                    df as int,
                    fine,
                    df0 as int,
                    df_step as int,
                    rows as nat,
                    i0 as int,
                    i0_step as int,
                    cols as nat,
                ),
                r * cols + c <= want.len(),
                out@ == want.take(r * cols + c),
            decreases cols - c,
        {
            proof {
                lemma_grid_at(
                    df as int,
                    fine,
                    df0 as int,
                    df_step as int,
                    rows as nat,
                    i0 as int,
                    i0_step as int,
                    cols as nat,
                    r as int,
                    c as int,
                );
                assert(0 <= i0_step * c <= i0_step * (cols - 1)) by (nonlinear_arith)
                    requires
                        0 < i0_step,
                        0 <= c < cols,
                ;
                assert(i0_step * (c + 1) == i0_step * c + i0_step) by (nonlinear_arith);
            }
            let cell = if fine {
                Cell { df, fine: row, i0: start as i32 }
            } else {
                Cell { df: df + row, fine: 0, i0: start as i32 }
            };
            out.push(cell);
            start += i0_step as i64;
            c += 1;
            assert(out@ =~= want.take(r * cols + c));
        }
        row += df_step;
        r += 1;
        assert(r * cols <= want.len()) by (nonlinear_arith)
            requires
                r <= rows,
                want.len() == rows * cols,
        ;
    }
    assert(out@ =~= want);
    out
}

// ── FT4 ─────────────────────────────────────────────────────────────────────

/// The cells of FT4's coarse pass.
pub open spec fn ft4_coarse_cells(ib_min: int, ib_max: int) -> Seq<Cell> {
    grid(
        0,
        false,
        COARSE_DF_MIN as int,
        COARSE_DF_STEP as int,
        N_COARSE_DF as nat,
        ib_min,
        COARSE_DT_STEP as int,
        count(ib_min, ib_max, COARSE_DT_STEP as int),
    )
}

/// The cells of its fine pass around a coarse winner.
pub open spec fn ft4_fine_cells(at: Cell) -> Seq<Cell> {
    grid(
        at.df as int,
        false,
        -(FINE_DF as int),
        1,
        (2 * FINE_DF + 1) as nat,
        at.i0 - FINE_DT,
        1,
        (2 * FINE_DT + 1) as nat,
    )
}

/// Where the search starts when no cell of the coarse pass has a score.
pub open spec fn start_cell(i0: i32) -> Cell {
    Cell { df: 0, fine: 0, i0 }
}

/// The result from the ranks of the two passes.
pub open spec fn ft4_found(
    ib_min: int,
    ib_max: int,
    init_i0: i32,
    coarse: Seq<i64>,
    fine: Seq<i64>,
) -> Sync2dResult {
    ft4_refined(
        chosen(ft4_coarse_cells(ib_min, ib_max), coarse, NO_RANK, start_cell(init_i0)).0,
        fine,
    )
}

/// The fine pass's result.
pub open spec fn ft4_refined(at: Cell, fine: Seq<i64>) -> Sync2dResult {
    let f = chosen(ft4_fine_cells(at), fine, NO_RANK, at);
    Sync2dResult { cell: f.0, rank: f.1 }
}

/// A start that leaves room for the fine pass.
pub open spec fn roomy(i0: int) -> bool {
    i32::MIN + FINE_DT <= i0 <= i32::MAX - FINE_DT
}

/// A cell that the coarse pass over a window of starts can ask for.
pub open spec fn ft4_coarse_cell(c: Cell, ib_min: int, ib_max: int) -> bool {
    &&& COARSE_DF_MIN <= c.df <= -COARSE_DF_MIN
    &&& c.fine == 0
    &&& ib_min <= c.i0 <= ib_max
}

/// A cell that the fine pass around a start from `lo` to `hi` can ask for.
pub open spec fn ft4_fine_cell(c: Cell, lo: int, hi: int) -> bool {
    &&& lo <= hi
    &&& COARSE_DF_MIN - FINE_DF <= c.df <= -COARSE_DF_MIN + FINE_DF
    &&& c.fine == 0
    &&& lo - FINE_DT <= c.i0 <= hi + FINE_DT
}

/// A cell that the search can ask for: around the window, or around the
/// start it was given.
pub open spec fn ft4_near(c: Cell, ib_min: int, ib_max: int, init_i0: int) -> bool {
    ft4_fine_cell(c, ib_min, ib_max) || ft4_fine_cell(c, init_i0, init_i0)
}

/// A cell of the fine pass around `at`.
pub open spec fn beside(c: Cell, at: Cell) -> bool {
    &&& at.df - FINE_DF <= c.df <= at.df + FINE_DF
    &&& c.fine == 0
    &&& at.i0 - FINE_DT <= c.i0 <= at.i0 + FINE_DT
}

proof fn lemma_coarse_cell(ib_min: int, ib_max: int, k: int)
    requires
        i32::MIN <= ib_min,
        ib_max <= i32::MAX,
        0 <= k < ft4_coarse_cells(ib_min, ib_max).len(),
    ensures
        ft4_coarse_cell(ft4_coarse_cells(ib_min, ib_max)[k], ib_min, ib_max),
{
    let cols = count(ib_min, ib_max, COARSE_DT_STEP as int) as int;
    assert(0 <= k < 9 * cols);
    assert(cols > 0) by (nonlinear_arith)
        requires
            0 <= k < 9 * cols,
            cols >= 0,
    ;
    assert(0 <= k / cols <= 8 && 0 <= k % cols < cols) by (nonlinear_arith)
        requires
            0 <= k < 9 * cols,
            cols > 0,
    ;
}

proof fn lemma_fine_cell(at: Cell, k: int)
    requires
        roomy(at.i0 as int),
        -1000 <= at.df <= 1000,
        0 <= k < ft4_fine_cells(at).len(),
    ensures
        beside(ft4_fine_cells(at)[k], at),
{
    assert(ft4_fine_cells(at).len() == 9nat * 11nat);
    assert(0 <= k / 11 <= 8);
    let c = ft4_fine_cells(at)[k];
    assert(c.df == at.df - FINE_DF + k / 11);
    assert(c.i0 == at.i0 - FINE_DT + k % 11);
}

/// Both passes scored the cells that they should, in order.
pub open spec fn ft4_passes<G: Fn(Cell) -> i64, F: Fn(Cell) -> i64>(
    coarse_score: G,
    score: F,
    ib_min: int,
    ib_max: int,
    init_i0: i32,
    coarse: Seq<i64>,
    fine: Seq<i64>,
) -> bool {
    &&& scored(coarse_score, ft4_coarse_cells(ib_min, ib_max), coarse)
    &&& scored(
        score,
        ft4_fine_cells(
            chosen(ft4_coarse_cells(ib_min, ib_max), coarse, NO_RANK, start_cell(init_i0)).0,
        ),
        fine,
    )
}

/// A search found this, by scorers of its two passes.
pub open spec fn ft4_finds<G: Fn(Cell) -> i64, F: Fn(Cell) -> i64>(
    coarse_score: G,
    score: F,
    ib_min: int,
    ib_max: int,
    init_i0: i32,
    r: Sync2dResult,
) -> bool {
    exists|coarse: Seq<i64>, fine: Seq<i64>| #[trigger]
        ft4_passes(coarse_score, score, ib_min, ib_max, init_i0, coarse, fine) && r == ft4_found(
            ib_min,
            ib_max,
            init_i0,
            coarse,
            fine,
        )
}

proof fn lemma_coarse_winner(ib_min: int, ib_max: int, ranks: Seq<i64>, init_i0: i32)
    requires
        i32::MIN <= ib_min,
        ib_max <= i32::MAX,
        ranks.len() == ft4_coarse_cells(ib_min, ib_max).len(),
    ensures
        ({
            let w = chosen(
                ft4_coarse_cells(ib_min, ib_max),
                ranks,
                NO_RANK,
                start_cell(init_i0),
            ).0;
            if first_best(ranks, NO_RANK) is Some {
                ft4_coarse_cell(w, ib_min, ib_max)
            } else {
                w == start_cell(init_i0)
            }
        }),
{
    crate::engine::search::law_first_best_is_best(ranks, NO_RANK);
    match first_best(ranks, NO_RANK) {
        Some(k) => {
            lemma_coarse_cell(ib_min, ib_max, k);
        },
        None => {},
    }
}

/// The fine pass that both coarse passes end with: four hertz and five
/// samples to either side, one at a time.
pub(crate) fn ft4_fine_pass<F: Fn(Cell) -> i64>(score: &F, at: Cell) -> (r: Sync2dResult)
    requires
        forall|c: Cell| beside(c, at) ==> #[trigger] call_requires(*score, (c,)),
        roomy(at.i0 as int),
        -1000 <= at.df <= 1000,
    ensures
        exists|fine: Seq<i64>| #[trigger]
            scored(*score, ft4_fine_cells(at), fine) && r == ft4_refined(at, fine),
{
    let cells = list_grid(
        at.df,
        false,
        -FINE_DF,
        1,
        (2 * FINE_DF + 1) as u32,
        at.i0 - FINE_DT,
        1,
        (2 * FINE_DT + 1) as u64,
    );
    assert forall|k: int| 0 <= k < cells@.len() implies call_requires(
        *score,
        (#[trigger] cells@[k],),
    ) by {
        lemma_fine_cell(at, k);
    }
    let (cell, rank) = best_place(score, cells.as_slice(), NO_RANK, at);
    proof {
        let fine = choose|ranks: Seq<i64>| #[trigger]
            scored(*score, cells@, ranks) && (cell, rank) == chosen(cells@, ranks, NO_RANK, at);
        assert(scored(*score, ft4_fine_cells(at), fine));
    }
    Sync2dResult { cell, rank }
}

/// FT4's search over a window of starts, with its own scorer for the coarse
/// pass, which may be an approximation on bins of samples: the fine pass is
/// exact either way.
pub fn ft4_sync_search_window_binned<G: Fn(Cell) -> i64, F: Fn(Cell) -> i64>(
    coarse_score: &G,
    score: &F,
    init_i0: i32,
    ib_min: i32,
    ib_max: i32,
) -> (r: Sync2dResult)
    requires
        forall|c: Cell|
            ft4_coarse_cell(c, ib_min as int, ib_max as int) ==> #[trigger] call_requires(
                *coarse_score,
                (c,),
            ),
        forall|c: Cell|
            ft4_near(c, ib_min as int, ib_max as int, init_i0 as int)
                ==> #[trigger] call_requires(*score, (c,)),
        roomy(init_i0 as int),
        roomy(ib_min as int),
        roomy(ib_max as int),
    ensures
        ft4_finds(*coarse_score, *score, ib_min as int, ib_max as int, init_i0, r),
{
    let cols: u64 = starts_between(ib_min, ib_max, COARSE_DT_STEP);
    let cells = list_grid(
        0,
        false,
        COARSE_DF_MIN,
        COARSE_DF_STEP,
        N_COARSE_DF as u32,
        ib_min,
        COARSE_DT_STEP,
        cols,
    );
    let first = Cell { df: 0, fine: 0, i0: init_i0 };
    assert forall|k: int| 0 <= k < cells@.len() implies call_requires(
        *coarse_score,
        (#[trigger] cells@[k],),
    ) by {
        lemma_coarse_cell(ib_min as int, ib_max as int, k);
    }
    let (at, _rank) = best_place(coarse_score, cells.as_slice(), NO_RANK, first);
    let ghost coarse = choose|ranks: Seq<i64>| #[trigger]
        scored(*coarse_score, cells@, ranks) && (at, _rank) == chosen(
            cells@,
            ranks,
            NO_RANK,
            first,
        );
    proof {
        lemma_coarse_winner(ib_min as int, ib_max as int, coarse, init_i0);
    }
    let r = ft4_fine_pass(score, at);
    proof {
        let fine = choose|fine: Seq<i64>| #[trigger]
            scored(*score, ft4_fine_cells(at), fine) && r == ft4_refined(at, fine);
        assert(ft4_passes(
            *coarse_score,
            *score,
            ib_min as int,
            ib_max as int,
            init_i0,
            coarse,
            fine,
        ));
    }
    r
}

/// FT4's search over the starts from `ib_min` to `ib_max`.
pub fn ft4_sync_search_window_with<F: Fn(Cell) -> i64>(
    score: &F,
    init_i0: i32,
    ib_min: i32,
    ib_max: i32,
) -> (r: Sync2dResult)
    requires
        forall|c: Cell|
            ft4_near(c, ib_min as int, ib_max as int, init_i0 as int)
                ==> #[trigger] call_requires(*score, (c,)),
        roomy(init_i0 as int),
        roomy(ib_min as int),
        roomy(ib_max as int),
    ensures
        ft4_finds(*score, *score, ib_min as int, ib_max as int, init_i0, r),
{
    ft4_sync_search_window_binned(score, score, init_i0, ib_min, ib_max)
}

/// FT4's search over the whole slot: the starts around the nominal one,
/// whatever start the candidate came with.
pub fn ft4_sync_search<F: Fn(Cell) -> i64>(score: &F, init_i0: i32) -> (r: Sync2dResult)
    requires
        forall|c: Cell|
            ft4_near(c, FT4_IB_MIN as int, FT4_IB_MAX as int, init_i0 as int)
                ==> #[trigger] call_requires(*score, (c,)),
        roomy(init_i0 as int),
    ensures
        ft4_finds(*score, *score, FT4_IB_MIN as int, FT4_IB_MAX as int, init_i0, r),
{
    ft4_sync_search_window_with(score, init_i0, FT4_IB_MIN, FT4_IB_MAX)
}

// ── FST4 ────────────────────────────────────────────────────────────────────

/// The cells of FST4's coarse pass, `ishw` samples to either side.
pub open spec fn fst4_coarse_cells(init_i0: int, ishw: int) -> Seq<Cell> {
    grid(
        0,
        false,
        -(FST4_DF as int),
        1,
        (2 * FST4_DF + 1) as nat,
        init_i0 - ishw,
        COARSE_DT_STEP as int,
        count(init_i0 - ishw, init_i0 + ishw, COARSE_DT_STEP as int),
    )
}

pub open spec fn fst4_fine_cells(at: Cell) -> Seq<Cell> {
    grid(
        at.df as int,
        true,
        -(FST4_FINE_DF as int),
        1,
        (2 * FST4_FINE_DF + 1) as nat,
        at.i0 - FST4_FINE_DT,
        1,
        (2 * FST4_FINE_DT + 1) as nat,
    )
}

/// The coarse winner.
pub open spec fn fst4_coarse(init_i0: i32, ishw: int, coarse: Seq<i64>) -> Cell {
    chosen(
        fst4_coarse_cells(init_i0 as int, ishw),
        coarse,
        NO_RANK,
        start_cell(init_i0),
    ).0
}

/// The result: the fine pass forgets the coarse score and takes a cell only
/// for a score above zero.
pub open spec fn fst4_found(
    init_i0: i32,
    ishw: int,
    coarse: Seq<i64>,
    fine: Seq<i64>,
) -> Sync2dResult {
    let at = fst4_coarse(init_i0, ishw, coarse);
    let f = chosen(fst4_fine_cells(at), fine, 0, at);
    Sync2dResult { cell: f.0, rank: f.1 }
}

pub open spec fn fst4_passes<F: Fn(Cell) -> i64>(
    score: F,
    init_i0: i32,
    ishw: int,
    coarse: Seq<i64>,
    fine: Seq<i64>,
) -> bool {
    &&& scored(score, fst4_coarse_cells(init_i0 as int, ishw), coarse)
    &&& scored(score, fst4_fine_cells(fst4_coarse(init_i0, ishw, coarse)), fine)
}

/// A cell that the search can ask for.
pub open spec fn fst4_near(c: Cell, init_i0: int, ishw: int) -> bool {
    &&& -FST4_DF <= c.df <= FST4_DF
    &&& -FST4_FINE_DF <= c.fine <= FST4_FINE_DF
    &&& init_i0 - ishw - FST4_FINE_DT <= c.i0 <= init_i0 + ishw + FST4_FINE_DT
}

proof fn lemma_fst4_coarse_cell(init_i0: int, ishw: int, k: int)
    requires
        ishw >= 0,
        i32::MIN <= init_i0 - ishw,
        init_i0 + ishw <= i32::MAX,
        0 <= k < fst4_coarse_cells(init_i0, ishw).len(),
    ensures
        ({
            let c = fst4_coarse_cells(init_i0, ishw)[k];
            &&& c.fine == 0
            &&& -FST4_DF <= c.df <= FST4_DF
            &&& init_i0 - ishw <= c.i0 <= init_i0 + ishw
        }),
{
    let cols = count(init_i0 - ishw, init_i0 + ishw, COARSE_DT_STEP as int) as int;
    assert(0 <= k < 25 * cols);
    assert(0 <= k / cols <= 24 && 0 <= k % cols < cols) by (nonlinear_arith)
        requires
            0 <= k < 25 * cols,
            cols > 0,
    ;
}

proof fn lemma_fst4_fine_cell(at: Cell, k: int)
    requires
        i32::MIN + FST4_FINE_DT <= at.i0 <= i32::MAX - FST4_FINE_DT,
        0 <= k < fst4_fine_cells(at).len(),
    ensures
        ({
            let c = fst4_fine_cells(at)[k];
            &&& c.df == at.df
            &&& -FST4_FINE_DF <= c.fine <= FST4_FINE_DF
            &&& at.i0 - FST4_FINE_DT <= c.i0 <= at.i0 + FST4_FINE_DT
        }),
{
    assert(fst4_fine_cells(at).len() == 15nat * 9nat);
    assert(0 <= k / 9 <= 14);
    let c = fst4_fine_cells(at)[k];
    assert(c.fine == -FST4_FINE_DF + k / 9);
    assert(c.i0 == at.i0 - FST4_FINE_DT + k % 9);
}

proof fn lemma_fst4_winner(init_i0: i32, ishw: int, ranks: Seq<i64>)
    requires
        ishw >= 0,
        i32::MIN <= init_i0 - ishw,
        init_i0 + ishw <= i32::MAX,
        ranks.len() == fst4_coarse_cells(init_i0 as int, ishw).len(),
    ensures
        ({
            let w = fst4_coarse(init_i0, ishw, ranks);
            &&& w.fine == 0
            &&& -FST4_DF <= w.df <= FST4_DF
            &&& init_i0 - ishw <= w.i0 <= init_i0 + ishw
        }),
{
    crate::engine::search::law_first_best_is_best(ranks, NO_RANK);
    match first_best(ranks, NO_RANK) {
        Some(k) => {
            lemma_fst4_coarse_cell(init_i0 as int, ishw, k);
        },
        None => {},
    }
}

/// FST4's search around `init_i0`: by tenths of the baud rate over `ishw`
/// samples to either side, then close by.
pub fn fst4_sync_search<F: Fn(Cell) -> i64>(score: &F, init_i0: i32, ishw: i32) -> (r:
    Sync2dResult)
    requires
        forall|c: Cell|
            fst4_near(c, init_i0 as int, ishw as int) ==> #[trigger] call_requires(*score, (c,)),
        ishw >= 0,
        i32::MIN + FST4_FINE_DT <= init_i0 - ishw,
        init_i0 + ishw <= i32::MAX - FST4_FINE_DT,
    ensures
        exists|coarse: Seq<i64>, fine: Seq<i64>| #[trigger]
            fst4_passes(*score, init_i0, ishw as int, coarse, fine) && r == fst4_found(
                init_i0,
                ishw as int,
                coarse,
                fine,
            ),
{
    let lo: i32 = init_i0 - ishw;
    let cols: u64 = starts_between(lo, init_i0 + ishw, COARSE_DT_STEP);
    let cells = list_grid(
        0,
        false,
        -FST4_DF,
        1,
        (2 * FST4_DF + 1) as u32,
        lo,
        COARSE_DT_STEP,
        cols,
    );
    let first = Cell { df: 0, fine: 0, i0: init_i0 };
    assert forall|k: int| 0 <= k < cells@.len() implies call_requires(
        *score,
        (#[trigger] cells@[k],),
    ) by {
        lemma_fst4_coarse_cell(init_i0 as int, ishw as int, k);
    }
    let (at, _rank) = best_place(score, cells.as_slice(), NO_RANK, first);
    let ghost coarse = choose|ranks: Seq<i64>| #[trigger]
        scored(*score, cells@, ranks) && (at, _rank) == chosen(cells@, ranks, NO_RANK, first);
    proof {
        lemma_fst4_winner(init_i0, ishw as int, coarse);
    }
    let near = list_grid(
        at.df,
        true,
        -FST4_FINE_DF,
        1,
        (2 * FST4_FINE_DF + 1) as u32,
        at.i0 - FST4_FINE_DT,
        1,
        (2 * FST4_FINE_DT + 1) as u64,
    );
    assert forall|k: int| 0 <= k < near@.len() implies call_requires(
        *score,
        (#[trigger] near@[k],),
    ) by {
        lemma_fst4_fine_cell(at, k);
    }
    let (cell, rank) = best_place(score, near.as_slice(), 0, at);
    proof {
        let fine = choose|ranks: Seq<i64>| #[trigger]
            scored(*score, near@, ranks) && (cell, rank) == chosen(near@, ranks, 0, at);
        assert(fst4_passes(*score, init_i0, ishw as int, coarse, fine));
    }
    Sync2dResult { cell, rank }
}

// ── Bins ────────────────────────────────────────────────────────────────────

/// The first bin of a symbol of a block, when bins are as long as the coarse
/// pass's step.
pub open spec fn bin_of(start: int, symbol: int, ds_spb: int) -> int {
    (start + symbol * ds_spb) / (COARSE_DT_STEP as int)
}

/// Which of the start phases a start has.
pub open spec fn phase_of(i0: int, ds_spb: int) -> int {
    (i0 % ds_spb) / (COARSE_DT_STEP as int)
}

/// The phase of a start, as an index into the table of start phases.
pub fn phase_index(i0: i32, ds_spb: u32) -> (r: usize)
    requires
        0 < ds_spb <= 0x7fff_ffff,
    ensures
        r == phase_of(i0 as int, ds_spb as int),
        r * COARSE_DT_STEP < ds_spb,
{
    let m: i64 = (i0 as i64).checked_rem_euclid(ds_spb as i64).unwrap();
    (m as u64 / COARSE_DT_STEP as u64) as usize
}

/// The first bin of a symbol of a block whose window is in range.
pub fn bin_base(start: usize, symbol: u32, ds_spb: u32) -> (r: usize)
    requires
        start + symbol * ds_spb <= usize::MAX,
    ensures
        r == bin_of(start as int, symbol as int, ds_spb as int),
{
    assert(symbol * ds_spb >= 0) by (nonlinear_arith);
    (start + symbol as usize * ds_spb as usize) / COARSE_DT_STEP as usize
}

/// A symbol's bins are all there when the block's window is: the bins of a
/// signal of `n` samples are the whole fours of it.
pub proof fn law_bins_are_in_range(start: int, nsym: int, symbol: int, ds_spb: int, n: int)
    requires
        0 <= symbol < nsym,
        ds_spb > 0,
        ds_spb % (COARSE_DT_STEP as int) == 0,
        window_of(start, nsym * ds_spb, n) is Some,
    ensures
        0 <= bin_of(start, symbol, ds_spb),
        bin_of(start, symbol, ds_spb) + ds_spb / (COARSE_DT_STEP as int) <= n / (
        COARSE_DT_STEP as int),
{
    assert(symbol * ds_spb + ds_spb <= nsym * ds_spb && 0 <= symbol * ds_spb) by (nonlinear_arith)
        requires
            0 <= symbol < nsym,
            ds_spb > 0,
    ;
}

// ── What the searches keep to ───────────────────────────────────────────────

/// A rank is one that can win.
pub open spec fn any_scores(ranks: Seq<i64>) -> bool {
    exists|k: int| 0 <= k < ranks.len() && #[trigger] ranks[k] > NO_RANK
}

/// FT4's result is near a cell of the window when any cell there scores, and
/// only when none does near the start it was given.
pub proof fn law_ft4_stays_near_the_window(
    ib_min: int,
    ib_max: int,
    init_i0: i32,
    coarse: Seq<i64>,
    fine: Seq<i64>,
)
    requires
        roomy(ib_min),
        roomy(ib_max),
        roomy(init_i0 as int),
        coarse.len() == ft4_coarse_cells(ib_min, ib_max).len(),
        fine.len() == (2 * FINE_DF + 1) * (2 * FINE_DT + 1),
    ensures
        ({
            let r = ft4_found(ib_min, ib_max, init_i0, coarse, fine).cell;
            &&& any_scores(coarse) ==> ft4_fine_cell(r, ib_min, ib_max)
            &&& !any_scores(coarse) ==> ft4_fine_cell(r, init_i0 as int, init_i0 as int)
        }),
{
    lemma_coarse_winner(ib_min, ib_max, coarse, init_i0);
    crate::engine::search::law_first_best_is_best(coarse, NO_RANK);
    crate::engine::search::law_first_best_is_best(fine, NO_RANK);
    let at = chosen(
        ft4_coarse_cells(ib_min, ib_max),
        coarse,
        NO_RANK,
        start_cell(init_i0),
    ).0;
    if any_scores(coarse) {
        let k = choose|k: int| 0 <= k < coarse.len() && #[trigger] coarse[k] > NO_RANK;
        assert(coarse[k] > NO_RANK);
    }
    match first_best(fine, NO_RANK) {
        Some(k) => {
            assert((2 * FINE_DF + 1) * (2 * FINE_DT + 1) == 99) by (nonlinear_arith);
            lemma_fine_cell(at, k);
        },
        None => {},
    }
}

/// Where every cell scores, a window that is not empty is never left by more
/// than the fine pass's reach, whatever start the search was given.
pub proof fn law_a_scored_window_is_kept(
    ib_min: int,
    ib_max: int,
    init_i0: i32,
    coarse: Seq<i64>,
    fine: Seq<i64>,
)
    requires
        roomy(ib_min),
        roomy(ib_max),
        roomy(init_i0 as int),
        ib_min <= ib_max,
        coarse.len() == ft4_coarse_cells(ib_min, ib_max).len(),
        fine.len() == (2 * FINE_DF + 1) * (2 * FINE_DT + 1),
        forall|k: int| 0 <= k < coarse.len() ==> #[trigger] coarse[k] > NO_RANK,
    ensures
        ({
            let r = ft4_found(ib_min, ib_max, init_i0, coarse, fine).cell;
            &&& -16 <= r.df <= 16
            &&& ib_min - FINE_DT <= r.i0 <= ib_max + FINE_DT
        }),
{
    let cols = count(ib_min, ib_max, COARSE_DT_STEP as int);
    assert(9 * cols > 0) by (nonlinear_arith)
        requires
            cols > 0,
    ;
    assert(coarse[0] > NO_RANK);
    law_ft4_stays_near_the_window(ib_min, ib_max, init_i0, coarse, fine);
}

/// Two scorers of the coarse pass never differ on a cell of the window.
pub open spec fn agree_on_window<F: Fn(Cell) -> i64, G: Fn(Cell) -> i64>(
    f: F,
    g: G,
    ib_min: int,
    ib_max: int,
) -> bool {
    forall|c: Cell, v: i64, w: i64|
        ft4_coarse_cell(c, ib_min, ib_max) && #[trigger] call_ensures(f, (c,), v)
            && #[trigger] call_ensures(g, (c,), w) ==> v == w
}

/// Two scorers never differ on a cell that the search can ask for.
pub open spec fn agree_near<F: Fn(Cell) -> i64, G: Fn(Cell) -> i64>(
    f: F,
    g: G,
    ib_min: int,
    ib_max: int,
    init_i0: int,
) -> bool {
    forall|c: Cell, v: i64, w: i64|
        ft4_near(c, ib_min, ib_max, init_i0) && #[trigger] call_ensures(f, (c,), v)
            && #[trigger] call_ensures(g, (c,), w) ==> v == w
}

/// Scorers that give the same ranks lead to the same cell and the same rank,
/// in both passes: how a score is computed, from a kept reference or a fresh
/// one, does not show.
pub proof fn law_equal_scores_find_the_same<
    F: Fn(Cell) -> i64,
    G: Fn(Cell) -> i64,
    H: Fn(Cell) -> i64,
    K: Fn(Cell) -> i64,
>(
    coarse_f: F,
    f: G,
    coarse_g: H,
    g: K,
    ib_min: int,
    ib_max: int,
    init_i0: i32,
    a: Sync2dResult,
    b: Sync2dResult,
)
    requires
        roomy(ib_min),
        roomy(ib_max),
        roomy(init_i0 as int),
        agree_on_window(coarse_f, coarse_g, ib_min, ib_max),
        agree_near(f, g, ib_min, ib_max, init_i0 as int),
        ft4_finds(coarse_f, f, ib_min, ib_max, init_i0, a),
        ft4_finds(coarse_g, g, ib_min, ib_max, init_i0, b),
    ensures
        a == b,
{
    let (ca, fa) = choose|coarse: Seq<i64>, fine: Seq<i64>| #[trigger]
        ft4_passes(coarse_f, f, ib_min, ib_max, init_i0, coarse, fine) && a == ft4_found(
            ib_min,
            ib_max,
            init_i0,
            coarse,
            fine,
        );
    let (cb, fb) = choose|coarse: Seq<i64>, fine: Seq<i64>| #[trigger]
        ft4_passes(coarse_g, g, ib_min, ib_max, init_i0, coarse, fine) && b == ft4_found(
            ib_min,
            ib_max,
            init_i0,
            coarse,
            fine,
        );
    let cells = ft4_coarse_cells(ib_min, ib_max);
    assert forall|k: int| 0 <= k < cells.len() implies ca[k] == cb[k] by {
        lemma_coarse_cell(ib_min, ib_max, k);
        assert(call_ensures(coarse_f, (cells[k],), ca[k]));
        assert(call_ensures(coarse_g, (cells[k],), cb[k]));
    }
    assert(ca =~= cb);
    lemma_coarse_winner(ib_min, ib_max, ca, init_i0);
    let at = chosen(cells, ca, NO_RANK, start_cell(init_i0)).0;
    let near = ft4_fine_cells(at);
    assert forall|k: int| 0 <= k < near.len() implies fa[k] == fb[k] by {
        lemma_fine_cell(at, k);
        assert(ft4_near(near[k], ib_min, ib_max, init_i0 as int));
        assert(call_ensures(f, (near[k],), fa[k]));
        assert(call_ensures(g, (near[k],), fb[k]));
    }
    assert(fa =~= fb);
}

/// The window search with one scorer and with another that gives the same
/// ranks: one result, at most 16 Hz off the candidate, and, where every cell
/// of a window that is not empty scores, at most the fine pass's reach
/// outside it.
pub proof fn law_the_window_search_is_repeatable<F: Fn(Cell) -> i64, G: Fn(Cell) -> i64>(
    f: F,
    g: G,
    ib_min: int,
    ib_max: int,
    init_i0: i32,
    a: Sync2dResult,
    b: Sync2dResult,
)
    requires
        roomy(ib_min),
        roomy(ib_max),
        roomy(init_i0 as int),
        agree_near(f, g, ib_min, ib_max, init_i0 as int),
        ft4_finds(f, f, ib_min, ib_max, init_i0, a),
        ft4_finds(g, g, ib_min, ib_max, init_i0, b),
    ensures
        a == b,
        -16 <= a.cell.df <= 16,
        a.cell.fine == 0,
        ib_min <= ib_max && (forall|c: Cell, v: i64|
            ft4_coarse_cell(c, ib_min, ib_max) && #[trigger] call_ensures(f, (c,), v) ==> v
                > NO_RANK) ==> ib_min - FINE_DT <= a.cell.i0 <= ib_max + FINE_DT,
{
    assert forall|c: Cell, v: i64, w: i64|
        ft4_coarse_cell(c, ib_min, ib_max) && #[trigger] call_ensures(f, (c,), v)
            && #[trigger] call_ensures(g, (c,), w) implies v == w by {
        assert(ft4_near(c, ib_min, ib_max, init_i0 as int));
    }
    law_equal_scores_find_the_same(f, f, g, g, ib_min, ib_max, init_i0, a, b);
    let (coarse, fine) = choose|coarse: Seq<i64>, fine: Seq<i64>| #[trigger]
        ft4_passes(f, f, ib_min, ib_max, init_i0, coarse, fine) && a == ft4_found(
            ib_min,
            ib_max,
            init_i0,
            coarse,
            fine,
        );
    let cells = ft4_coarse_cells(ib_min, ib_max);
    assert((2 * FINE_DF + 1) * (2 * FINE_DT + 1) == 99) by (nonlinear_arith);
    assert(fine.len() == 9nat * 11nat);
    law_ft4_stays_near_the_window(ib_min, ib_max, init_i0, coarse, fine);
    if ib_min <= ib_max && (forall|c: Cell, v: i64|
        ft4_coarse_cell(c, ib_min, ib_max) && #[trigger] call_ensures(f, (c,), v) ==> v
            > NO_RANK) {
        assert forall|k: int| 0 <= k < coarse.len() implies #[trigger] coarse[k] > NO_RANK by {
            lemma_coarse_cell(ib_min, ib_max, k);
            assert(call_ensures(f, (cells[k],), coarse[k]));
        }
        law_a_scored_window_is_kept(ib_min, ib_max, init_i0, coarse, fine);
    }
}

/// The fine pass never loses to the coarse one: the coarse winner is among
/// its cells.
pub proof fn law_the_winner_is_looked_at_again(at: Cell)
    requires
        roomy(at.i0 as int),
        at.fine == 0,
        -1000 <= at.df <= 1000,
    ensures
        ft4_fine_cells(at).contains(at),
{
    lemma_grid_at(
        at.df as int,
        false,
        -(FINE_DF as int),
        1,
        (2 * FINE_DF + 1) as nat,
        at.i0 - FINE_DT,
        1,
        (2 * FINE_DT + 1) as nat,
        FINE_DF as int,
        FINE_DT as int,
    );
    assert(ft4_fine_cells(at)[FINE_DF * (2 * FINE_DT + 1) + FINE_DT] == at);
}

/// FST4's result is near a cell of its window, and its score is never below
/// zero.
pub proof fn law_fst4_stays_near_the_window(
    init_i0: i32,
    ishw: int,
    coarse: Seq<i64>,
    fine: Seq<i64>,
)
    requires
        ishw >= 0,
        i32::MIN + FST4_FINE_DT <= init_i0 - ishw,
        init_i0 + ishw <= i32::MAX - FST4_FINE_DT,
        coarse.len() == fst4_coarse_cells(init_i0 as int, ishw).len(),
        fine.len() == (2 * FST4_FINE_DF + 1) * (2 * FST4_FINE_DT + 1),
    ensures
        ({
            let r = fst4_found(init_i0, ishw, coarse, fine);
            &&& fst4_near(r.cell, init_i0 as int, ishw)
            &&& r.rank >= 0
        }),
{
    lemma_fst4_winner(init_i0, ishw, coarse);
    crate::engine::search::law_first_best_is_best(fine, 0);
    let at = fst4_coarse(init_i0, ishw, coarse);
    match first_best(fine, 0) {
        Some(k) => {
            assert((2 * FST4_FINE_DF + 1) * (2 * FST4_FINE_DT + 1) == 135) by (nonlinear_arith);
            lemma_fst4_fine_cell(at, k);
        },
        None => {},
    }
}

/// FT4's coarse pass visits nine offsets from 12 Hz below to 12 Hz above, 3 Hz
/// apart, and at each the starts from the window's first on, four samples
/// apart, as far as the window goes.
pub proof fn law_ft4_visits_its_window(ib_min: int, ib_max: int, row: int, col: int)
    requires
        i32::MIN <= ib_min <= ib_max <= i32::MAX,
        0 <= row < 9,
        0 <= col,
        ib_min + 4 * col <= ib_max,
    ensures
        ({
            let cells = ft4_coarse_cells(ib_min, ib_max);
            let cols = count(ib_min, ib_max, 4) as int;
            &&& cells.len() == 9 * cols
            &&& 4 * (cols - 1) <= ib_max - ib_min < 4 * cols
            &&& 0 <= row * cols + col < cells.len()
            &&& cells[row * cols + col] == (Cell {
                df: (3 * row - 12) as i32,
                fine: 0,
                i0: (ib_min + 4 * col) as i32,
            })
        }),
{
    let cols = count(ib_min, ib_max, 4);
    lemma_grid_at(0, false, -12, 3, 9, ib_min, 4, cols, row, col);
}

/// Its fine pass visits every hertz to four on either side of the coarse
/// winner, and at each every start to five samples on either side.
pub proof fn law_ft4_looks_close_by(at: Cell, row: int, col: int)
    requires
        roomy(at.i0 as int),
        -1000 <= at.df <= 1000,
        -4 <= row <= 4,
        -5 <= col <= 5,
    ensures
        ft4_fine_cells(at).len() == 99,
        ft4_fine_cells(at)[(row + 4) * 11 + col + 5] == (Cell {
            df: (at.df + row) as i32,
            fine: 0,
            i0: (at.i0 + col) as i32,
        }),
{
    lemma_grid_at(at.df as int, false, -4, 1, 9, at.i0 - 5, 1, 11, row + 4, col + 5);
    assert(ft4_fine_cells(at).len() == 9nat * 11nat);
}

/// FST4's coarse pass visits every tenth of the baud rate to twelve on either
/// side, and at each the starts to `ishw` on either side, four samples apart.
pub proof fn law_fst4_visits_its_window(init_i0: int, ishw: int, row: int, col: int)
    requires
        ishw >= 0,
        i32::MIN <= init_i0 - ishw,
        init_i0 + ishw <= i32::MAX,
        -12 <= row <= 12,
        0 <= col,
        4 * col <= 2 * ishw,
    ensures
        ({
            let cells = fst4_coarse_cells(init_i0, ishw);
            let cols = count(init_i0 - ishw, init_i0 + ishw, 4) as int;
            &&& cells.len() == 25 * cols
            &&& 4 * (cols - 1) <= 2 * ishw < 4 * cols
            &&& 0 <= (row + 12) * cols + col < cells.len()
            &&& cells[(row + 12) * cols + col] == (Cell {
                df: row as i32,
                fine: 0,
                i0: (init_i0 - ishw + 4 * col) as i32,
            })
        }),
{
    let cols = count(init_i0 - ishw, init_i0 + ishw, 4);
    lemma_grid_at(0, false, -12, 1, 25, init_i0 - ishw, 4, cols, row + 12, col);
}

/// Its fine pass keeps the coarse offset and visits every fiftieth to seven
/// on either side, and at each every start to four samples on either side.
pub proof fn law_fst4_looks_close_by(at: Cell, row: int, col: int)
    requires
        i32::MIN + 4 <= at.i0 <= i32::MAX - 4,
        -7 <= row <= 7,
        -4 <= col <= 4,
    ensures
        fst4_fine_cells(at).len() == 135,
        fst4_fine_cells(at)[(row + 7) * 9 + col + 4] == (Cell {
            df: at.df,
            fine: row as i32,
            i0: (at.i0 + col) as i32,
        }),
{
    lemma_grid_at(at.df as int, true, -7, 1, 15, at.i0 - 4, 1, 9, row + 7, col + 4);
    assert(fst4_fine_cells(at).len() == 15nat * 9nat);
}

/// FT4's result is the best of the fine pass, the first of several, and its
/// rank is that cell's own; without a score it is the coarse winner.
pub proof fn law_ft4_takes_the_best(at: Cell, fine: Seq<i64>)
    requires
        fine.len() == ft4_fine_cells(at).len(),
    ensures
        any_scores(fine) ==> exists|b: int|
            0 <= b < fine.len() && ft4_refined(at, fine).cell == ft4_fine_cells(at)[b]
                && ft4_refined(at, fine).rank == fine[b] && (forall|k: int|
                0 <= k < fine.len() ==> #[trigger] fine[k] <= #[trigger] fine[b]),
        forall|k: int| 0 <= k < fine.len() ==> #[trigger] fine[k] <= ft4_refined(at, fine).rank,
        !any_scores(fine) ==> ft4_refined(at, fine).cell == at,
{
    crate::engine::search::law_first_best_is_best(fine, NO_RANK);
    match first_best(fine, NO_RANK) {
        Some(b) => {
            assert(fine[b] > NO_RANK);
        },
        None => {
            if any_scores(fine) {
                let k = choose|k: int| 0 <= k < fine.len() && #[trigger] fine[k] > NO_RANK;
                assert(fine[k] <= NO_RANK);
            }
        },
    }
}

/// FST4's result is the best cell of its fine pass if that scores above zero;
/// if none does it is the coarse winner, with a score of zero.
pub proof fn law_fst4_takes_the_best(
    init_i0: i32,
    ishw: int,
    coarse: Seq<i64>,
    fine: Seq<i64>,
)
    requires
        fine.len() == fst4_fine_cells(fst4_coarse(init_i0, ishw, coarse)).len(),
    ensures
        ({
            let r = fst4_found(init_i0, ishw, coarse, fine);
            let at = fst4_coarse(init_i0, ishw, coarse);
            &&& forall|k: int| 0 <= k < fine.len() ==> #[trigger] fine[k] <= r.rank
            &&& r.rank == 0 ==> r.cell == at
            &&& r.rank != 0 ==> r.rank > 0 && exists|b: int|
                0 <= b < fine.len() && #[trigger] fine[b] == r.rank && r.cell == fst4_fine_cells(
                    at,
                )[b]
        }),
{
    crate::engine::search::law_first_best_is_best(fine, 0);
    match first_best(fine, 0) {
        Some(b) => {
            assert(fine[b] > 0);
        },
        None => {},
    }
}

/// A symbol's first bin is the one that its first sample falls into, four
/// samples to a bin; a start's phase counts its bins past whole symbols.
pub proof fn law_bins_are_four_samples(start: int, symbol: int, ds_spb: int)
    requires
        ds_spb > 0,
    ensures
        4 * bin_of(start, symbol, ds_spb) <= start + symbol * ds_spb < 4 * bin_of(
            start,
            symbol,
            ds_spb,
        ) + 4,
        4 * phase_of(start, ds_spb) <= start % ds_spb < 4 * phase_of(start, ds_spb) + 4,
{
}

}
