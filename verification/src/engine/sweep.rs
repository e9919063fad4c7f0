//! FT4's coarse pass while the signal is still arriving.
//!
//! A cell's score is the sum over four blocks, and a block of a cell reads
//! its own samples and nothing else: it can be scored as soon as they are
//! there. The sweep says which block-cells to score; the sums are kept beside
//! it. Blocks are taken in order within a cell, so that a sum is formed as
//! the one-shot pass forms it.

use crate::engine::search::{chosen, first_best, pick, scored};
use crate::engine::sync2d::ft4_fine_pass;
use crate::engine::sync2d::{
    count, ft4_coarse_cells, ft4_found, ft4_near, ft4_refined, grid, roomy, start_cell, window_of,
};
use crate::engine::sync2d::{
    Cell, Sync2dResult, COARSE_DF_MIN, COARSE_DF_STEP, COARSE_DT_STEP, NO_RANK, N_COARSE_DF,
};
use vstd::prelude::*;

verus! {

/// Blocks that a cell's score sums.
pub const BLOCKS: usize = 4;

/// Samples that must follow a block before it is scored.
pub const MARGIN: i64 = 4;

/// A block of fixed tones: its place in the frame and its length, in samples.
#[derive(Debug, Clone, Copy, PartialEq, Eq, Structural)]
pub struct Block {
    pub off: i32,
    pub len: u32,
}

/// Cells of one block to score, at every offset.
#[derive(Debug, Clone, Copy, PartialEq, Eq, Structural)]
pub struct Stripe {
    pub block: usize,
    pub from: usize,
    pub n: usize,
}

#[verifier::ext_equal]
pub struct SweepView {
    pub ib_min: int,
    /// Starts.
    pub n: nat,
    /// Per block, how many starts have been scored.
    pub done: Seq<nat>,
    /// Samples that have arrived, and how many can.
    pub have: nat,
    pub cap: nat,
}

/// No block is ahead of the one before it.
pub open spec fn in_order(v: SweepView) -> bool {
    &&& v.done.len() == BLOCKS
    &&& v.done[0] <= v.n
    &&& v.done[1] <= v.done[0]
    &&& v.done[2] <= v.done[1]
    &&& v.done[3] <= v.done[2]
    &&& v.have <= v.cap
}

/// Where a block of a cell starts and ends.
pub open spec fn cell_start(v: SweepView, c: int, b: Block) -> int {
    v.ib_min + c * COARSE_DT_STEP + b.off
}

pub open spec fn cell_end(v: SweepView, c: int, b: Block) -> int {
    cell_start(v, c, b) + b.len
}

/// The block's score will not change: it ends, with a margin, inside what
/// has arrived, or everything has arrived, or it ends past the signal.
pub open spec fn readable(v: SweepView, c: int, b: Block, final_len: nat) -> bool {
    cell_end(v, c, b) + MARGIN <= v.have || v.have == final_len || cell_end(v, c, b) > final_len
}

/// How far a block may go.
pub open spec fn limit(v: SweepView, k: int) -> nat {
    if k == 0 {
        v.n
    } else {
        v.done[k - 1]
    }
}

/// Past the readable cells from `c` on.
pub open spec fn run_end(v: SweepView, c: nat, lim: nat, b: Block, final_len: nat) -> nat
    decreases lim - c,
{
    if c < lim && readable(v, c as int, b, final_len) {
        run_end(v, c + 1, lim, b, final_len)
    } else {
        c
    }
}

/// How many cells of a run a budget of block-cells lets be scored; one
/// always is.
pub open spec fn allowed(run: nat, budget: nat) -> nat {
    let most = if budget / (N_COARSE_DF as nat) >= 1 {
        budget / (N_COARSE_DF as nat)
    } else {
        1
    };
    if run <= most {
        run
    } else {
        most
    }
}

/// What is left of a budget.
pub open spec fn left(budget: nat, n: nat) -> nat {
    if n * N_COARSE_DF <= budget {
        (budget - n * N_COARSE_DF) as nat
    } else {
        0
    }
}

/// The stripes from block `k` on, and how far each block is then.
pub open spec fn stripes(
    v: SweepView,
    k: nat,
    blocks: Seq<Block>,
    final_len: nat,
    budget: nat,
) -> (Seq<Stripe>, SweepView)
    decreases BLOCKS - k,
{
    if k >= BLOCKS || k >= blocks.len() {
        (Seq::empty(), v)
    } else {
        let from = v.done[k as int];
        let end = run_end(v, from, limit(v, k as int), blocks[k as int], final_len);
        if end <= from {
            stripes(v, k + 1, blocks, final_len, budget)
        } else {
            let n = allowed((end - from) as nat, budget);
            let w = SweepView { done: v.done.update(k as int, from + n), ..v };
            let s = Stripe { block: k as usize, from: from as usize, n: n as usize };
            if left(budget, n) == 0 {
                (seq![s], w)
            } else {
                let rest = stripes(w, k + 1, blocks, final_len, left(budget, n));
                (seq![s] + rest.0, rest.1)
            }
        }
    }
}

/// The samples that a call brings, as far as they are new and fit.
pub open spec fn arrived(v: SweepView, offered: nat) -> SweepView {
    let take = if offered <= v.cap {
        offered
    } else {
        v.cap
    };
    SweepView {
        have: if take > v.have {
            take
        } else {
            v.have
        },
        ..v
    }
}

/// A call of `advance`.
pub open spec fn advanced(
    v: SweepView,
    offered: nat,
    final_len: nat,
    blocks: Seq<Block>,
    max_cells: nat,
) -> (Seq<Stripe>, SweepView) {
    stripes(arrived(v, offered), 0, blocks, final_len, max_cells)
}

/// Another call could score more of what has arrived.
pub open spec fn more(v: SweepView, blocks: Seq<Block>, final_len: nat) -> bool {
    exists|k: int|
        0 <= k < BLOCKS && k < blocks.len() && #[trigger] v.done[k] < limit(v, k) && readable(
            v,
            v.done[k] as int,
            blocks[k],
            final_len,
        )
}

/// The sweep of one candidate.
#[derive(Debug)]
pub struct Ft4CoarseSweep {
    ib_min: i32,
    n_i0: usize,
    done: Vec<usize>,
    have: usize,
    cap: usize,
}

impl View for Ft4CoarseSweep {
    type V = SweepView;

    closed spec fn view(&self) -> SweepView {
        SweepView {
            ib_min: self.ib_min as int,
            n: self.n_i0 as nat,
            done: self.done@.map_values(|d: usize| d as nat),
            have: self.have as nat,
            cap: self.cap as nat,
        }
    }
}

impl Ft4CoarseSweep {
    /// No block is ahead, and every start leaves room for the fine pass.
    pub closed spec fn wf(&self) -> bool {
        &&& self.done@.len() == BLOCKS
        &&& in_order(self@)
        &&& self.n_i0 * 36 <= usize::MAX
        &&& roomy(self.ib_min as int)
        &&& self.n_i0 > 0 ==> roomy(self.ib_min + (self.n_i0 - 1) * COARSE_DT_STEP)
    }

    /// A sweep over the starts from `ib_min` to `ib_max` of a signal that
    /// will be `cd0_len` samples long, kept in whole pairs.
    pub fn new(ib_min: i32, ib_max: i32, cd0_len: usize) -> (r: Self)
        requires
            roomy(ib_min as int),
            roomy(ib_max as int),
            count(ib_min as int, ib_max as int, COARSE_DT_STEP as int) * 36 <= usize::MAX,
            cd0_len < usize::MAX,
        ensures
            r.wf(),
            r@ == (SweepView {
                ib_min: ib_min as int,
                n: count(ib_min as int, ib_max as int, COARSE_DT_STEP as int),
                done: seq![0, 0, 0, 0],
                have: 0,
                cap: (cd0_len + cd0_len % 2) as nat,
            }),
    {
        let n_i0: usize = if ib_max < ib_min {
            0
        } else {
            let width: u64 = (ib_max as i64 - ib_min as i64) as u64;
            (width / COARSE_DT_STEP as u64) as usize + 1
        };
        let r = Ft4CoarseSweep {
            ib_min,
            n_i0,
            done: vec![0, 0, 0, 0],
            have: 0,
            cap: cd0_len + cd0_len % 2,
        };
        assert(r@.done =~= seq![0, 0, 0, 0]);
        r
    }

    /// Block-cells scored so far and in all.
    pub fn progress(&self) -> (r: (usize, usize))
        requires
            self.wf(),
        ensures
            r.0 == (self@.done[0] + self@.done[1] + self@.done[2] + self@.done[3]) * N_COARSE_DF,
            r.1 == BLOCKS * N_COARSE_DF * self@.n,
            r.0 <= r.1,
    {
        let sum: usize = self.done[0] + self.done[1] + self.done[2] + self.done[3];
        (sum * N_COARSE_DF, 36 * self.n_i0)
    }

    fn is_readable(&self, c: usize, b: Block, final_len: usize) -> (r: bool)
        requires
            self.wf(),
            c < self@.n,
        ensures
            r == readable(self@, c as int, b, final_len as nat),
    {
        let end: i64 = self.ib_min as i64 + c as i64 * COARSE_DT_STEP as i64 + b.off as i64
            + b.len as i64;
        let by_now: i128 = end as i128 + MARGIN as i128;
        by_now <= self.have as i128 || self.have == final_len || end as i128 > final_len as i128
    }

    fn run_end(&self, k: usize, lim: usize, b: Block, final_len: usize) -> (r: usize)
        requires
            self.wf(),
            k < BLOCKS,
            lim <= self@.n,
        ensures
            r == run_end(self@, self@.done[k as int], lim as nat, b, final_len as nat),
            self@.done[k as int] <= r,
            r <= lim || r == self@.done[k as int],
    {
        let mut upto: usize = self.done[k];
        let mut going: bool = true;
        while going && upto < lim
            invariant
                self.wf(),
                k < BLOCKS,
                lim <= self@.n,
                self@.done[k as int] <= upto,
                upto <= lim || upto == self@.done[k as int],
                run_end(self@, upto as nat, lim as nat, b, final_len as nat) == run_end(
                    self@,
                    self@.done[k as int],
                    lim as nat,
                    b,
                    final_len as nat,
                ),
                !going ==> upto < lim && !readable(self@, upto as int, b, final_len as nat),
            decreases
                    lim - upto + if going {
                        1int
                    } else {
                        0
                    },
        {
            if self.is_readable(upto, b, final_len) {
                upto += 1;
            } else {
                going = false;
            }
        }
        upto
    }

    /// Takes notice of what has arrived, `offered` samples from the start of
    /// a signal that will be `final_len` long, and says what to score now:
    /// at most about `max_cells` block-cells, counting each offset. Says too
    /// whether another call could score more of what has arrived.
    pub fn advance(
        &mut self,
        offered: usize,
        final_len: usize,
        blocks: &[Block],
        max_cells: usize,
    ) -> (r: (Vec<Stripe>, bool))
        requires
            old(self).wf(),
        ensures
            final(self).wf(),
            (r.0@, final(self)@) == advanced(
                old(self)@,
                offered as nat,
                final_len as nat,
                blocks@,
                max_cells as nat,
            ),
            r.1 == more(final(self)@, blocks@, final_len as nat),
    {
        let take: usize = if offered <= self.cap {
            offered
        } else {
            self.cap
        };
        if take > self.have {
            self.have = take;
        }
        let ghost want = advanced(
            old(self)@,
            offered as nat,
            final_len as nat,
            blocks@,
            max_cells as nat,
        );
        let mut out: Vec<Stripe> = Vec::new();
        let mut budget: usize = max_cells;
        let mut k: usize = 0;
        assert(self@ =~= arrived(old(self)@, offered as nat));
        while k < BLOCKS && k < blocks.len()
            invariant
                k <= BLOCKS,
                self.wf(),
                ({
                    let rest = stripes(
                        self@,
                        k as nat,
                        blocks@,
                        final_len as nat,
                        budget as nat,
                    );
                    want == (out@ + rest.0, rest.1)
                }),
            decreases BLOCKS - k,
        {
            let lim: usize = if k == 0 {
                self.n_i0
            } else {
                self.done[k - 1]
            };
            let from: usize = self.done[k];
            let end: usize = self.run_end(k, lim, blocks[k], final_len);
            if end > from {
                let run: usize = end - from;
                let most: usize = if budget / N_COARSE_DF >= 1 {
                    budget / N_COARSE_DF
                } else {
                    1
                };
                let n: usize = if run <= most {
                    run
                } else {
                    most
                };
                let ghost before = self@;
                self.done.set(k, from + n);
                assert(self@ =~= SweepView {
                    done: before.done.update(k as int, (from + n) as nat),
                    ..before
                });
                let spent: usize = n * N_COARSE_DF;
                let ghost had = out@;
                let stripe = Stripe { block: k, from, n };
                out.push(stripe);
                budget = if spent <= budget {
                    budget - spent
                } else {
                    0
                };
                if budget == 0 {
                    k = BLOCKS;
                    assert(out@ + Seq::<Stripe>::empty() =~= had + seq![stripe]);
                } else {
                    k += 1;
                    proof {
                        let rest = stripes(
                            self@,
                            k as nat,
                            blocks@,
                            final_len as nat,
                            budget as nat,
                        );
                        assert(out@ + rest.0 =~= had + (seq![stripe] + rest.0));
                    }
                }
            } else {
                k += 1;
            }
        }
        assert(out@ + Seq::<Stripe>::empty() =~= out@);
        let again: bool = self.can_go(blocks, final_len);
        (out, again)
    }

    fn can_go(&self, blocks: &[Block], final_len: usize) -> (r: bool)
        requires
            self.wf(),
        ensures
            r == more(self@, blocks@, final_len as nat),
    {
        let mut k: usize = 0;
        while k < BLOCKS && k < blocks.len()
            invariant
                k <= BLOCKS,
                self.wf(),
                forall|j: int|
                    0 <= j < k && j < blocks@.len() && #[trigger] self@.done[j] < limit(self@, j)
                        ==> !readable(self@, self@.done[j] as int, blocks@[j], final_len as nat),
            decreases BLOCKS - k,
        {
            let lim: usize = if k == 0 {
                self.n_i0
            } else {
                self.done[k - 1]
            };
            if self.done[k] < lim && self.is_readable(self.done[k], blocks[k], final_len) {
                assert(self@.done[k as int] < limit(self@, k as int));
                return true;
            }
            k += 1;
        }
        false
    }

    /// Scores whatever is left, now that all of the signal is there.
    pub fn complete(&mut self, cd0_len: usize, blocks: &[Block]) -> (r: Vec<Stripe>)
        requires
            old(self).wf(),
            old(self)@.have <= cd0_len <= old(self)@.cap,
            blocks@.len() >= BLOCKS,
        ensures
            final(self).wf(),
            (r@, final(self)@) == advanced(
                old(self)@,
                cd0_len as nat,
                cd0_len as nat,
                blocks@,
                usize::MAX as nat,
            ),
            forall|k: int| 0 <= k < BLOCKS ==> #[trigger] final(self)@.done[k] == final(self)@.n,
    {
        proof {
            law_completing_scores_everything(
                self@,
                cd0_len as nat,
                blocks@,
                usize::MAX as nat,
            );
            lemma_stripes(
                arrived(self@, cd0_len as nat),
                0,
                blocks@,
                cd0_len as nat,
                usize::MAX as nat,
            );
        }
        let (out, _) = self.advance(cd0_len, cd0_len, blocks, usize::MAX);
        out
    }

    /// The fine pass around the best cell of the sweep, from the ranks of
    /// its sums: by offset and then by start.
    pub fn fine<F: Fn(Cell) -> i64>(self, ranks: &[i64], score: &F) -> (r: Sync2dResult)
        requires
            self.wf(),
            ranks@.len() == N_COARSE_DF * self@.n,
            forall|c: Cell| sweep_near(self@, c) ==> #[trigger] call_requires(*score, (c,)),
        ensures
            exists|fine: Seq<i64>| #[trigger]
                scored(*score, crate::engine::sync2d::ft4_fine_cells(winner(self@, ranks@)), fine)
                    && r == ft4_refined(winner(self@, ranks@), fine),
    {
        let at: Cell = match pick(ranks, NO_RANK) {
            Some(k) => {
                proof {
                    let n = self.n_i0 as int;
                    assert(n > 0) by (nonlinear_arith)
                        requires
                            0 <= k < 9 * n,
                    ;
                    assert(0 <= k as int / n <= 8 && 0 <= k as int % n < n) by (nonlinear_arith)
                        requires
                            0 <= k < 9 * n,
                            n > 0,
                    ;
                }
                let row: i32 = (k / self.n_i0) as i32;
                let col: usize = k % self.n_i0;
                assert(roomy(self.ib_min + (self.n_i0 - 1) * COARSE_DT_STEP));
                let step: i64 = COARSE_DT_STEP as i64;
                assert(col * 4 <= (self.n_i0 - 1) * 4);
                let i0: i64 = self.ib_min as i64 + step * col as i64;
                Cell { df: COARSE_DF_MIN + COARSE_DF_STEP * row, fine: 0, i0: i0 as i32 }
            },
            None => Cell { df: 0, fine: 0, i0: 0 },
        };
        assert(at == winner(self@, ranks@));
        ft4_fine_pass(score, at)
    }
}

/// The cells of a sweep, in the order of the ranks.
pub open spec fn sweep_cells(v: SweepView) -> Seq<Cell> {
    grid(
        0,
        false,
        COARSE_DF_MIN as int,
        COARSE_DF_STEP as int,
        N_COARSE_DF as nat,
        v.ib_min,
        COARSE_DT_STEP as int,
        v.n,
    )
}

/// A cell that the fine pass of a sweep can ask for: around its starts, or
/// around the nominal one when no cell scores.
pub open spec fn sweep_near(v: SweepView, c: Cell) -> bool {
    ft4_near(c, v.ib_min, v.ib_min + (v.n - 1) * COARSE_DT_STEP, 0)
}

/// The best cell of a sweep.
pub open spec fn winner(v: SweepView, ranks: Seq<i64>) -> Cell {
    chosen(sweep_cells(v), ranks, NO_RANK, start_cell(0)).0
}

// ── What a sweep keeps to ───────────────────────────────────────────────────

proof fn lemma_run_end(v: SweepView, c: nat, lim: nat, b: Block, final_len: nat)
    ensures
        run_end(v, c, lim, b, final_len) >= c,
        c <= lim ==> run_end(v, c, lim, b, final_len) <= lim,
        v.have == final_len && c <= lim ==> run_end(v, c, lim, b, final_len) == lim,
        forall|j: int|
            c <= j < run_end(v, c, lim, b, final_len) ==> #[trigger] readable(v, j, b, final_len),
    decreases lim - c,
{
    if c < lim && readable(v, c as int, b, final_len) {
        lemma_run_end(v, c + 1, lim, b, final_len);
    }
}

/// What holds of stripes that took a sweep from `v` to `w`: they are in the
/// order of their blocks, each goes on where its block was left, over cells
/// that are readable, and a block without one is left alone.
pub open spec fn takes_up(
    v: SweepView,
    w: SweepView,
    blocks: Seq<Block>,
    final_len: nat,
    s: Seq<Stripe>,
) -> bool {
    &&& forall|i: int| 0 <= i < s.len() ==> goes_on(v, w, blocks, final_len, #[trigger] s[i])
    &&& forall|i: int, j: int|
        0 <= i < j < s.len() ==> (#[trigger] s[i]).block < (#[trigger] s[j]).block
    &&& forall|b: int|
        0 <= b < BLOCKS && !touched(s, b) ==> #[trigger] w.done[b] == v.done[b]
}

/// A stripe goes on where its block was left, over readable cells.
pub open spec fn goes_on(
    v: SweepView,
    w: SweepView,
    blocks: Seq<Block>,
    final_len: nat,
    s: Stripe,
) -> bool {
    let b = s.block as int;
    &&& b < BLOCKS
    &&& b < blocks.len()
    &&& s.n > 0
    &&& s.from == v.done[b]
    &&& w.done[b] == s.from + s.n
    &&& forall|c: int|
        s.from <= c < s.from + s.n ==> #[trigger] readable(v, c, blocks[b], final_len)
}

/// A stripe is of this block.
pub open spec fn touched(s: Seq<Stripe>, b: int) -> bool {
    exists|i: int| 0 <= i < s.len() && (#[trigger] s[i]).block == b
}

proof fn lemma_stripes(v: SweepView, k: nat, blocks: Seq<Block>, final_len: nat, budget: nat)
    requires
        in_order(v),
        v.n <= usize::MAX,
    ensures
        ({
            let (s, w) = stripes(v, k, blocks, final_len, budget);
            &&& in_order(w)
            &&& w == SweepView { done: w.done, ..v }
            &&& takes_up(v, w, blocks, final_len, s)
            &&& forall|i: int| 0 <= i < s.len() ==> k <= (#[trigger] s[i]).block
        }),
    decreases BLOCKS - k,
{
    if k < BLOCKS && k < blocks.len() {
        let b = blocks[k as int];
        let from = v.done[k as int];
        let end = run_end(v, from, limit(v, k as int), b, final_len);
        lemma_run_end(v, from, limit(v, k as int), b, final_len);
        if end <= from {
            lemma_stripes(v, k + 1, blocks, final_len, budget);
        } else {
            let n = allowed((end - from) as nat, budget);
            let w = SweepView { done: v.done.update(k as int, from + n), ..v };
            let s = Stripe { block: k as usize, from: from as usize, n: n as usize };
            let one = seq![s];
            assert(one[0] == s);
            assert(goes_on(v, w, blocks, final_len, s));
            if left(budget, n) == 0 {
                assert(takes_up(v, w, blocks, final_len, one)) by {
                    assert forall|x: int|
                        0 <= x < BLOCKS && !touched(one, x) implies #[trigger] w.done[x]
                        == v.done[x] by {
                        assert(one[0].block != x);
                    }
                }
            } else {
                lemma_stripes(w, k + 1, blocks, final_len, left(budget, n));
                let (s2, w2) = stripes(w, k + 1, blocks, final_len, left(budget, n));
                let all = one + s2;
                assert(!touched(s2, k as int));
                assert(w2.done[k as int] == w.done[k as int]);
                assert forall|i: int| 0 <= i < all.len() implies goes_on(
                    v,
                    w2,
                    blocks,
                    final_len,
                    #[trigger] all[i],
                ) by {
                    if i > 0 {
                        assert(all[i] == s2[i - 1]);
                        assert(goes_on(w, w2, blocks, final_len, all[i]));
                        let x = all[i].block as int;
                        assert forall|c: int|
                            all[i].from <= c < all[i].from + all[i].n implies #[trigger] readable(
                            v,
                            c,
                            blocks[x],
                            final_len,
                        ) by {
                            assert(readable(w, c, blocks[x], final_len));
                        }
                    }
                }
                assert forall|i: int, j: int| 0 <= i < j < all.len() implies (
                #[trigger] all[i]).block < (#[trigger] all[j]).block by {
                    assert(all[j] == s2[j - 1]);
                    if i > 0 {
                        assert(all[i] == s2[i - 1]);
                    }
                }
                assert forall|x: int|
                    0 <= x < BLOCKS && !touched(all, x) implies #[trigger] w2.done[x]
                    == v.done[x] by {
                    assert(all[0].block != x);
                    if touched(s2, x) {
                        let i = choose|i: int| 0 <= i < s2.len() && (#[trigger] s2[i]).block == x;
                        assert(all[i + 1] == s2[i]);
                    }
                    assert(w2.done[x] == w.done[x]);
                }
                assert forall|i: int| 0 <= i < all.len() implies k <= (
                #[trigger] all[i]).block by {
                    if i > 0 {
                        assert(all[i] == s2[i - 1]);
                    }
                }
            }
        }
    }
}

/// Nothing is scored twice or left out: a call takes each block up where it
/// was left, says so, and only what has become readable; blocks come in
/// order, and none gets ahead of the one before it.
pub proof fn law_cells_are_scored_once(
    v: SweepView,
    offered: nat,
    final_len: nat,
    blocks: Seq<Block>,
    max_cells: nat,
)
    requires
        in_order(v),
        v.n <= usize::MAX,
    ensures
        ({
            let (s, w) = advanced(v, offered, final_len, blocks, max_cells);
            in_order(w) && takes_up(arrived(v, offered), w, blocks, final_len, s)
        }),
{
    lemma_stripes(arrived(v, offered), 0, blocks, final_len, max_cells);
}

/// A block that may be scored now reads what it would read of the whole
/// signal: where the input was cut does not show in the sums.
pub proof fn law_cuts_do_not_show(v: SweepView, c: int, b: Block, final_len: nat)
    requires
        readable(v, c, b, final_len),
    ensures
        window_of(cell_start(v, c, b), b.len as int, final_len as int) == (if cell_end(v, c, b)
            > final_len {
            None
        } else {
            window_of(cell_start(v, c, b), b.len as int, v.have as int)
        }),
{
}

proof fn lemma_complete(v: SweepView, k: nat, blocks: Seq<Block>, final_len: nat, budget: nat)
    requires
        in_order(v),
        v.have == final_len,
        blocks.len() >= BLOCKS,
        k <= BLOCKS,
        forall|j: int| 0 <= j < k ==> #[trigger] v.done[j] == v.n,
        budget >= 9 * v.n * (4 - k),
    ensures
        forall|j: int|
            0 <= j < BLOCKS ==> #[trigger] stripes(v, k, blocks, final_len, budget).1.done[j]
                == v.n,
    decreases BLOCKS - k,
{
    if k < BLOCKS {
        let from = v.done[k as int];
        let lim = limit(v, k as int);
        assert(lim == v.n);
        assert(from <= v.n);
        lemma_run_end(v, from, lim, blocks[k as int], final_len);
        let end = run_end(v, from, lim, blocks[k as int], final_len);
        assert(end == v.n);
        if end <= from {
            assert(9 * v.n * (4 - k) >= 9 * v.n * (4 - (k + 1))) by (nonlinear_arith)
                requires
                    v.n >= 0,
            ;
            lemma_complete(v, k + 1, blocks, final_len, budget);
            assert(stripes(v, k, blocks, final_len, budget) == stripes(
                v,
                k + 1,
                blocks,
                final_len,
                budget,
            ));
        } else {
            let run = (end - from) as nat;
            let vn = v.n as int;
            assert(9 * vn * (4 - k) >= 9 * vn + 9 * vn * (4 - (k + 1)) && 9 * vn * (4 - (k + 1))
                >= 0) by (nonlinear_arith)
                requires
                    vn >= 0,
                    k < 4,
            ;
            assert(budget >= 9 * vn);
            assert(budget / 9 >= run);
            let n = allowed(run, budget);
            assert(n == run);
            let w = SweepView { done: v.done.update(k as int, from + n), ..v };
            let rem = left(budget, n);
            assert(rem == budget - 9 * n);
            if rem == 0 {
                if k < 3 {
                    assert(9 * vn * (4 - (k + 1)) >= 9 * vn) by (nonlinear_arith)
                        requires
                            vn >= 0,
                            k < 3,
                    ;
                }
                assert(stripes(v, k, blocks, final_len, budget).1 == w);
                assert(forall|j: int| 0 <= j < BLOCKS ==> #[trigger] w.done[j] == v.n);
            } else {
                lemma_complete(w, k + 1, blocks, final_len, rem);
                assert(stripes(v, k, blocks, final_len, budget).1 == stripes(
                    w,
                    k + 1,
                    blocks,
                    final_len,
                    rem,
                ).1);
            }
        }
    }
}

/// Once the whole signal is there, one call without a bound scores all that
/// is left.
pub proof fn law_completing_scores_everything(
    v: SweepView,
    len: nat,
    blocks: Seq<Block>,
    max_cells: nat,
)
    requires
        in_order(v),
        v.have <= len <= v.cap,
        blocks.len() >= BLOCKS,
        max_cells >= 36 * v.n,
    ensures
        forall|j: int|
            0 <= j < BLOCKS ==> #[trigger] advanced(v, len, len, blocks, max_cells).1.done[j]
                == v.n,
{
    assert(9 * v.n * 4 == 36 * v.n);
    lemma_complete(arrived(v, len), 0, blocks, len, max_cells);
}

/// Cells in all of some stripes.
pub open spec fn cells_in(s: Seq<Stripe>) -> nat
    decreases s.len(),
{
    if s.len() == 0 {
        0
    } else {
        s[0].n as nat + cells_in(s.drop_first())
    }
}

proof fn lemma_budget(v: SweepView, k: nat, blocks: Seq<Block>, final_len: nat, budget: nat)
    requires
        in_order(v),
        v.n <= usize::MAX,
    ensures
        N_COARSE_DF * cells_in(stripes(v, k, blocks, final_len, budget).0) <= budget + (
        if budget == 0 {
            9int
        } else {
            8
        }),
    decreases BLOCKS - k,
{
    if k < BLOCKS && k < blocks.len() {
        let from = v.done[k as int];
        let lim = limit(v, k as int);
        let end = run_end(v, from, lim, blocks[k as int], final_len);
        lemma_run_end(v, from, lim, blocks[k as int], final_len);
        if end <= from {
            lemma_budget(v, k + 1, blocks, final_len, budget);
            assert(stripes(v, k, blocks, final_len, budget) == stripes(
                v,
                k + 1,
                blocks,
                final_len,
                budget,
            ));
        } else {
            let n = allowed((end - from) as nat, budget);
            let w = SweepView { done: v.done.update(k as int, from + n), ..v };
            let s = Stripe { block: k as usize, from: from as usize, n: n as usize };
            let rem = left(budget, n);
            assert(in_order(w));
            if rem == 0 {
                let one = seq![s];
                assert(one.drop_first() =~= Seq::empty());
                assert(cells_in(one) == n + cells_in(one.drop_first()));
                assert(stripes(v, k, blocks, final_len, budget).0 == one);
            } else {
                lemma_budget(w, k + 1, blocks, final_len, rem);
                let rest = stripes(w, k + 1, blocks, final_len, rem).0;
                let all = seq![s] + rest;
                assert(all.drop_first() =~= rest);
                assert(cells_in(all) == n + cells_in(rest));
                assert(stripes(v, k, blocks, final_len, budget).0 == all);
            }
        }
    }
}

/// A call stays within its budget, to the whole start: it never scores a
/// start's worth of block-cells or more beyond it, unless the budget is
/// nothing, and then it scores one.
pub proof fn law_the_budget_is_kept(
    v: SweepView,
    offered: nat,
    final_len: nat,
    blocks: Seq<Block>,
    max_cells: nat,
)
    requires
        in_order(v),
        v.n <= usize::MAX,
    ensures
        ({
            let scored = N_COARSE_DF * cells_in(
                advanced(v, offered, final_len, blocks, max_cells).0,
            );
            if max_cells == 0 {
                scored <= N_COARSE_DF
            } else {
                scored < max_cells + N_COARSE_DF
            }
        }),
{
    lemma_budget(arrived(v, offered), 0, blocks, final_len, max_cells);
}

/// With all of the signal there, there is more exactly while something is
/// unscored.
pub proof fn law_more_until_done(v: SweepView, blocks: Seq<Block>)
    requires
        in_order(v),
        blocks.len() >= BLOCKS,
    ensures
        more(v, blocks, v.have) <==> v.done[3] < v.n,
{
    if v.done[3] < v.n {
        if v.done[0] < v.n {
            assert(v.done[0] < limit(v, 0));
        } else if v.done[1] < v.n {
            assert(v.done[1] < limit(v, 1));
        } else if v.done[2] < v.n {
            assert(v.done[2] < limit(v, 2));
        } else {
            assert(v.done[3] < limit(v, 3));
        }
    }
}

/// The sweep finds what the one-shot search finds: with the same ranks, the
/// same cells lead to the same result, whatever start the search was given,
/// as soon as one cell scores.
pub proof fn law_sweeping_is_searching(
    v: SweepView,
    ib_max: int,
    init_i0: i32,
    ranks: Seq<i64>,
    fine: Seq<i64>,
)
    requires
        v.n == count(v.ib_min, ib_max, COARSE_DT_STEP as int),
        first_best(ranks, NO_RANK) is Some,
    ensures
        sweep_cells(v) == ft4_coarse_cells(v.ib_min, ib_max),
        ft4_refined(winner(v, ranks), fine) == ft4_found(v.ib_min, ib_max, init_i0, ranks, fine),
{
}

/// Only what is there is scored: every cell of a stripe reads a block that
/// ends four samples before what has arrived, or one that ends past the
/// signal, unless all of the signal has arrived.
pub proof fn law_only_what_is_there_is_scored(
    v: SweepView,
    offered: nat,
    final_len: nat,
    blocks: Seq<Block>,
    max_cells: nat,
    i: int,
    c: int,
)
    requires
        in_order(v),
        v.n <= usize::MAX,
        0 <= i < advanced(v, offered, final_len, blocks, max_cells).0.len(),
        ({
            let s = advanced(v, offered, final_len, blocks, max_cells).0[i];
            s.from <= c < s.from + s.n
        }),
    ensures
        ({
            let s = advanced(v, offered, final_len, blocks, max_cells).0[i];
            let have = arrived(v, offered).have;
            &&& s.block < 4 && s.block < blocks.len()
            &&& ({
                let b = blocks[s.block as int];
                let end = v.ib_min + 4 * c + b.off + b.len;
                end + 4 <= have || end > final_len || have == final_len
            })
        }),
{
    lemma_stripes_readable(arrived(v, offered), 0, blocks, final_len, max_cells, i, c);
}

proof fn lemma_stripes_readable(
    v: SweepView,
    k: nat,
    blocks: Seq<Block>,
    final_len: nat,
    budget: nat,
    i: int,
    c: int,
)
    requires
        in_order(v),
        v.n <= usize::MAX,
        0 <= i < stripes(v, k, blocks, final_len, budget).0.len(),
        ({
            let s = stripes(v, k, blocks, final_len, budget).0[i];
            s.from <= c < s.from + s.n
        }),
    ensures
        ({
            let s = stripes(v, k, blocks, final_len, budget).0[i];
            s.block < 4 && s.block < blocks.len() && readable(
                v,
                c,
                blocks[s.block as int],
                final_len,
            )
        }),
    decreases BLOCKS - k,
{
    if k < BLOCKS && k < blocks.len() {
        let from = v.done[k as int];
        let lim = limit(v, k as int);
        let b = blocks[k as int];
        lemma_run_end(v, from, lim, b, final_len);
        let end = run_end(v, from, lim, b, final_len);
        if end <= from {
            lemma_stripes_readable(v, k + 1, blocks, final_len, budget, i, c);
        } else {
            let n = allowed((end - from) as nat, budget);
            let w = SweepView { done: v.done.update(k as int, from + n), ..v };
            if i == 0 {
                assert(readable(v, c, b, final_len));
            } else {
                assert(left(budget, n) != 0);
                lemma_stripes_readable(
                    w,
                    k + 1,
                    blocks,
                    final_len,
                    left(budget, n),
                    i - 1,
                    c,
                );
            }
        }
    }
}

/// What has arrived only grows, to no more than can; a call that brings less
/// than is there changes nothing.
pub proof fn law_arrivals_only_grow(v: SweepView, offered: nat)
    requires
        v.have <= v.cap,
    ensures
        v.have <= arrived(v, offered).have <= v.cap,
        offered <= v.cap ==> arrived(v, offered).have >= offered,
        offered >= v.cap ==> arrived(v, offered).have == v.cap,
        offered <= v.have ==> arrived(v, offered) == v,
{
}

}
