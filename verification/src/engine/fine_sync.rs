//! Fine sync of an FT8 candidate on the 12 kHz audio.
//!
//! The audio under each Costas symbol is mixed down into bins of 60 samples,
//! 32 to a symbol and as many more on either side as the search can move.
//! The search has three stages: the start in steps of 5 ms, then the
//! frequency in steps of half a hertz, then the start again, close by.

use crate::engine::search::best_place;
use crate::engine::search::{chosen, scored};
use vstd::prelude::*;

verus! {

/// Samples in a bin.
pub const BIN: i64 = 60;

/// Bins in a symbol.
pub const SYMBOL_BINS: i64 = 32;

/// Half-width of the first stage, in bins.
pub const STAGE_A_REACH: i32 = 10;

/// Half-width of the last stage.
pub const STAGE_C_REACH: i32 = 4;

/// Frequency steps to either side in the middle stage.
pub const STAGE_B_STEPS: i32 = 5;

/// How far the first and the last stage together can move.
pub const REACH: i32 = STAGE_A_REACH + STAGE_C_REACH;

/// Bins mixed per symbol.
pub const NB: usize = 60;

/// The rank of the least finite score, which a stage's best must exceed.
pub const LOWEST_RANK: i64 = -2_139_095_039;

/// Where a bin's audio starts.
pub open spec fn bin_start(i0: int, symbol: int, j: int) -> int {
    (i0 - REACH + symbol * SYMBOL_BINS + j) * BIN
}

/// The audio of bin `j` of a symbol, as its first sample, when all of it is
/// there; a bin that leaves the audio counts nothing.
pub fn bin_window(i0: i32, symbol: u32, j: usize, len: usize) -> (r: Option<usize>)
    requires
        j < NB,
    ensures
        match r {
            Some(st) => st == bin_start(i0 as int, symbol as int, j as int) && st + BIN <= len,
            None => bin_start(i0 as int, symbol as int, j as int) < 0 || bin_start(
                i0 as int,
                symbol as int,
                j as int,
            ) + BIN > len,
        },
{
    let first: i64 = i0 as i64 - REACH as i64 + symbol as i64 * SYMBOL_BINS;
    let st: i64 = (first + j as i64) * BIN;
    if st >= 0 && st as u128 + BIN as u128 <= len as u128 {
        Some(st as usize)
    } else {
        None
    }
}

/// The first bin of the 32 that a start of `d` sums.
pub fn span_start(d: i32) -> (r: usize)
    requires
        -REACH <= d <= REACH,
    ensures
        r == d + REACH,
        r + SYMBOL_BINS <= NB,
{
    (d + REACH) as usize
}

/// A place of the search: the start relative to where it began, and the
/// frequency step, from 0; none before the frequency is searched.
#[derive(Debug, Clone, Copy, PartialEq, Eq, Structural)]
pub struct Place {
    pub d: i32,
    pub tweak: Option<usize>,
}

/// A place that the stages can ask for: its bins are all mixed, and its
/// frequency step is one of those searched.
pub open spec fn in_reach(p: Place) -> bool {
    &&& -REACH <= p.d <= REACH
    &&& p.tweak matches Some(k) ==> k <= 2 * STAGE_B_STEPS
}

/// Starts from `lo` to `hi`.
pub open spec fn starts(lo: int, hi: int, tweak: Option<usize>) -> Seq<Place> {
    Seq::new(
        (if hi >= lo {
            hi - lo + 1
        } else {
            0
        }) as nat,
        |k: int| Place { d: (lo + k) as i32, tweak },
    )
}

/// The frequency steps at a start.
pub open spec fn tweaks(d: i32) -> Seq<Place> {
    Seq::new((2 * STAGE_B_STEPS + 1) as nat, |k: int| Place { d, tweak: Some(k as usize) })
}

fn list_starts(lo: i32, hi: i32, tweak: Option<usize>) -> (r: Vec<Place>)
    requires
        -100 <= lo <= hi <= 100,
    ensures
        r@ == starts(lo as int, hi as int, tweak),
{
    let mut out: Vec<Place> = Vec::new();
    let mut d: i32 = lo;
    while d <= hi
        invariant
            -100 <= lo <= d <= hi + 1 <= 101,
            out@ == starts(lo as int, d - 1, tweak),
        decreases hi + 1 - d,
    {
        out.push(Place { d, tweak });
        assert(out@ =~= starts(lo as int, d as int, tweak));
        d += 1;
    }
    out
}

fn list_tweaks(d: i32) -> (r: Vec<Place>)
    ensures
        r@ == tweaks(d),
{
    let mut out: Vec<Place> = Vec::new();
    let n: usize = (2 * STAGE_B_STEPS + 1) as usize;
    let mut k: usize = 0;
    while k < n
        invariant
            k <= n,
            n == 2 * STAGE_B_STEPS + 1,
            out@ == tweaks(d).take(k as int),
        decreases n - k,
    {
        out.push(Place { d, tweak: Some(k) });
        k += 1;
        assert(out@ =~= tweaks(d).take(k as int));
    }
    assert(out@ =~= tweaks(d));
    out
}

/// What the three stages find, from the ranks that each gave.
pub open spec fn refined(a: Seq<i64>, b: Seq<i64>, c: Seq<i64>) -> Place {
    let at = stage_a(a);
    let step = stage_b(a, b);
    chosen(
        starts(at - STAGE_C_REACH, at + STAGE_C_REACH, Some(step)),
        c,
        LOWEST_RANK,
        Place { d: at as i32, tweak: Some(step) },
    ).0
}

/// Where the first stage ends.
pub open spec fn stage_a(a: Seq<i64>) -> int {
    chosen(
        starts(-(STAGE_A_REACH as int), STAGE_A_REACH as int, None),
        a,
        LOWEST_RANK,
        Place { d: (-(STAGE_A_REACH as int)) as i32, tweak: None },
    ).0.d as int
}

/// Which frequency step the second stage takes.
pub open spec fn stage_b(a: Seq<i64>, b: Seq<i64>) -> usize {
    let at = stage_a(a) as i32;
    let p = chosen(
        tweaks(at),
        b,
        LOWEST_RANK,
        Place { d: at, tweak: Some(STAGE_B_STEPS as usize) },
    ).0;
    p.tweak->0
}

/// The three stages saw the places that they should, in order.
pub open spec fn stages_scored<F: Fn(Place) -> i64>(
    score: F,
    a: Seq<i64>,
    b: Seq<i64>,
    c: Seq<i64>,
) -> bool {
    let at = stage_a(a);
    &&& scored(score, starts(-(STAGE_A_REACH as int), STAGE_A_REACH as int, None), a)
    &&& scored(score, tweaks(at as i32), b)
    &&& scored(
        score,
        starts(at - STAGE_C_REACH, at + STAGE_C_REACH, Some(stage_b(a, b))),
        c,
    )
}

/// Refines a candidate with the given scorer: the best start, then the best
/// frequency there, then the best start close by at that frequency; the
/// first of several best each time.
pub fn refine_one<F: Fn(Place) -> i64>(score: &F) -> (r: (i32, usize))
    requires
        forall|p: Place| in_reach(p) ==> #[trigger] call_requires(*score, (p,)),
    ensures
        exists|a: Seq<i64>, b: Seq<i64>, c: Seq<i64>| #[trigger]
            stages_scored(*score, a, b, c) && refined(a, b, c) == (Place {
                d: r.0,
                tweak: Some(r.1),
            }),
        in_reach(Place { d: r.0, tweak: Some(r.1) }),
{
    let first = Place { d: -STAGE_A_REACH, tweak: None };
    let places_a = list_starts(-STAGE_A_REACH, STAGE_A_REACH, None);
    let (pa, _ka) = best_place(score, places_a.as_slice(), LOWEST_RANK, first);
    let ghost a = choose|ranks: Seq<i64>| #[trigger]
        scored(*score, places_a@, ranks) && (pa, _ka) == chosen(
            places_a@,
            ranks,
            LOWEST_RANK,
            first,
        );
    proof {
        crate::engine::search::law_first_best_is_best(a, LOWEST_RANK);
    }
    let da: i32 = pa.d;
    let middle = Place { d: da, tweak: Some(STAGE_B_STEPS as usize) };
    let places_b = list_tweaks(da);
    let (pb, _kb) = best_place(score, places_b.as_slice(), LOWEST_RANK, middle);
    let ghost b = choose|ranks: Seq<i64>| #[trigger]
        scored(*score, places_b@, ranks) && (pb, _kb) == chosen(
            places_b@,
            ranks,
            LOWEST_RANK,
            middle,
        );
    proof {
        crate::engine::search::law_first_best_is_best(b, LOWEST_RANK);
    }
    let step: usize = match pb.tweak {
        Some(k) => k,
        None => STAGE_B_STEPS as usize,
    };
    let last = Place { d: da, tweak: Some(step) };
    let places_c = list_starts(da - STAGE_C_REACH, da + STAGE_C_REACH, Some(step));
    let (pc, _kc) = best_place(score, places_c.as_slice(), LOWEST_RANK, last);
    let ghost c = choose|ranks: Seq<i64>| #[trigger]
        scored(*score, places_c@, ranks) && (pc, _kc) == chosen(
            places_c@,
            ranks,
            LOWEST_RANK,
            last,
        );
    proof {
        crate::engine::search::law_first_best_is_best(c, LOWEST_RANK);
        assert(stages_scored(*score, a, b, c));
        assert(refined(a, b, c) == pc);
        assert(pc.tweak == Some(step));
    }
    (pc.d, step)
}

/// A refinement of candidate `i` by a scorer of all candidates.
pub open spec fn refines<G: Fn(usize, Place) -> i64>(
    score: G,
    i: usize,
    a: Seq<i64>,
    b: Seq<i64>,
    c: Seq<i64>,
    r: (i32, usize),
) -> bool {
    let at = stage_a(a);
    &&& ranked(score, i, starts(-(STAGE_A_REACH as int), STAGE_A_REACH as int, None), a)
    &&& ranked(score, i, tweaks(at as i32), b)
    &&& ranked(
        score,
        i,
        starts(at - STAGE_C_REACH, at + STAGE_C_REACH, Some(stage_b(a, b))),
        c,
    )
    &&& refined(a, b, c) == (Place { d: r.0, tweak: Some(r.1) })
}

/// What the three stages find of candidate `i`.
pub open spec fn is_refined<G: Fn(usize, Place) -> i64>(
    score: G,
    i: usize,
    r: (i32, usize),
) -> bool {
    exists|a: Seq<i64>, b: Seq<i64>, c: Seq<i64>| #[trigger] refines(score, i, a, b, c, r)
}

/// Ranks that the scorer gave a candidate at places, in order.
pub open spec fn ranked<G: Fn(usize, Place) -> i64>(
    score: G,
    i: usize,
    places: Seq<Place>,
    ranks: Seq<i64>,
) -> bool {
    ranks.len() == places.len() && forall|k: int|
        0 <= k < places.len() ==> call_ensures(score, (i, #[trigger] places[k]), ranks[k])
}

/// Refines every candidate, in order, with a scorer of a candidate at a
/// place: how far each start moves, in bins, and which frequency step it
/// takes.
pub fn fine_sync_12k<G: Fn(usize, Place) -> i64>(score: &G, n: usize) -> (r: Vec<(i32, usize)>)
    requires
        forall|i: usize, p: Place|
            i < n && in_reach(p) ==> #[trigger] call_requires(*score, (i, p)),
    ensures
        r@.len() == n,
        forall|i: int|
            0 <= i < n ==> is_refined(*score, i as usize, #[trigger] r@[i]),
{
    let mut out: Vec<(i32, usize)> = Vec::new();
    let mut i: usize = 0;
    while i < n
        invariant
            i <= n,
            out@.len() == i,
            forall|i: usize, p: Place|
                i < n && in_reach(p) ==> #[trigger] call_requires(*score, (i, p)),
            forall|j: int|
                0 <= j < i ==> is_refined(*score, j as usize, #[trigger] out@[j]),
        decreases n - i,
    {
        let one = |p: Place| -> (v: i64)
            requires
                in_reach(p),
            ensures
                call_ensures(*score, (i, p), v),
            { score(i, p) };
        let r = refine_one(&one);
        proof {
            let (a, b, c) = choose|a: Seq<i64>, b: Seq<i64>, c: Seq<i64>| #[trigger]
                stages_scored(one, a, b, c) && refined(a, b, c) == (Place {
                    d: r.0,
                    tweak: Some(r.1),
                });
            assert(refines(*score, i, a, b, c, r));
            assert(is_refined(*score, i, r));
        }
        out.push(r);
        i += 1;
    }
    out
}

/// No stage asks for a bin that was not mixed: every place has its 32 bins
/// among those of a symbol.
pub proof fn law_the_search_stays_in_its_bins(a: Seq<i64>, b: Seq<i64>, c: Seq<i64>)
    requires
        a.len() == 2 * STAGE_A_REACH + 1,
        c.len() == 2 * STAGE_C_REACH + 1,
    ensures
        -STAGE_A_REACH <= stage_a(a) <= STAGE_A_REACH,
        0 <= refined(a, b, c).d + REACH,
        refined(a, b, c).d + REACH + SYMBOL_BINS <= NB,
{
    crate::engine::search::law_first_best_is_best(a, LOWEST_RANK);
    crate::engine::search::law_first_best_is_best(c, LOWEST_RANK);
}

/// Bins follow each other without a gap, and with no move a symbol's bins are
/// its own 1920 samples: 32 of them, from the candidate's start on.
pub proof fn law_bins_tile_the_symbols(i0: int, symbol: int, k: int)
    ensures
        bin_start(i0, symbol, 14 + k) == 60 * i0 + 1920 * symbol + 60 * k,
        bin_start(i0, symbol + 1, k) == bin_start(i0, symbol, k + 32),
{
}

/// A stage that scores takes the best of its places, and the first of
/// several; the start of the first stage is within ten bins, the frequency
/// step is one of eleven, and the last start within four bins of the first.
pub proof fn law_each_stage_takes_its_best(a: Seq<i64>, b: Seq<i64>, c: Seq<i64>)
    requires
        a.len() == 21,
        b.len() == 11,
        c.len() == 9,
        exists|k: int| 0 <= k < 21 && #[trigger] a[k] > LOWEST_RANK,
        exists|k: int| 0 <= k < 11 && #[trigger] b[k] > LOWEST_RANK,
        exists|k: int| 0 <= k < 9 && #[trigger] c[k] > LOWEST_RANK,
    ensures
        ({
            let at = stage_a(a) + 10;
            let step = stage_b(a, b) as int;
            let r = refined(a, b, c);
            let last = r.d - stage_a(a) + 4;
            &&& 0 <= at < 21 && 0 <= step < 11 && 0 <= last < 9
            &&& r.tweak == Some(step as usize)
            &&& forall|k: int| 0 <= k < 21 ==> #[trigger] a[k] <= a[at]
            &&& forall|k: int| 0 <= k < at ==> #[trigger] a[k] < a[at]
            &&& forall|k: int| 0 <= k < 11 ==> #[trigger] b[k] <= b[step]
            &&& forall|k: int| 0 <= k < step ==> #[trigger] b[k] < b[step]
            &&& forall|k: int| 0 <= k < 9 ==> #[trigger] c[k] <= c[last]
            &&& forall|k: int| 0 <= k < last ==> #[trigger] c[k] < c[last]
        }),
{
    crate::engine::search::law_first_best_is_best(a, LOWEST_RANK);
    crate::engine::search::law_first_best_is_best(b, LOWEST_RANK);
    crate::engine::search::law_first_best_is_best(c, LOWEST_RANK);
}

/// Stages that score nothing keep what they began with: the earliest start,
/// the middle frequency, and the start that the first stage found.
pub proof fn law_without_scores_nothing_moves(a: Seq<i64>, b: Seq<i64>, c: Seq<i64>)
    requires
        a.len() == 21,
        b.len() == 11,
        c.len() == 9,
    ensures
        (forall|k: int| 0 <= k < 21 ==> #[trigger] a[k] <= LOWEST_RANK) ==> stage_a(a) == -10,
        (forall|k: int| 0 <= k < 11 ==> #[trigger] b[k] <= LOWEST_RANK) ==> stage_b(a, b) == 5,
        (forall|k: int| 0 <= k < 9 ==> #[trigger] c[k] <= LOWEST_RANK) ==> refined(a, b, c).d
            == stage_a(a),
{
    crate::engine::search::law_first_best_is_best(a, LOWEST_RANK);
    crate::engine::search::law_first_best_is_best(b, LOWEST_RANK);
    crate::engine::search::law_first_best_is_best(c, LOWEST_RANK);
}

}
