//! Picking the best of the places that a search visits.
//!
//! A score is known by its rank: an integer that is larger for a better
//! score, 0 for a score of zero, and `i64::MIN` for one that can never win.
//! The first of several best places wins.

use vstd::prelude::*;

verus! {

/// The first best of the first `n` ranks above `floor`.
pub open spec fn best_upto(ranks: Seq<i64>, n: int, floor: i64) -> Option<int>
    decreases n,
{
    if n <= 0 {
        None
    } else {
        let b = best_upto(ranks, n - 1, floor);
        let bar = match b {
            Some(k) => ranks[k],
            None => floor,
        };
        if ranks[n - 1] > bar {
            Some(n - 1)
        } else {
            b
        }
    }
}

/// The first best of the ranks above `floor`.
pub open spec fn first_best(ranks: Seq<i64>, floor: i64) -> Option<int> {
    best_upto(ranks, ranks.len() as int, floor)
}

/// What is picked is above the floor, no worse than any, and better than all
/// before it; nothing is picked only if nothing is above the floor.
pub proof fn law_first_best_is_best(ranks: Seq<i64>, floor: i64)
    ensures
        match first_best(ranks, floor) {
            Some(b) => {
                &&& 0 <= b < ranks.len()
                &&& ranks[b] > floor
                &&& forall|k: int| 0 <= k < ranks.len() ==> #[trigger] ranks[k] <= ranks[b]
                &&& forall|k: int| 0 <= k < b ==> #[trigger] ranks[k] < ranks[b]
            },
            None => forall|k: int| 0 <= k < ranks.len() ==> #[trigger] ranks[k] <= floor,
        },
{
    lemma_best_upto(ranks, ranks.len() as int, floor);
}

proof fn lemma_best_upto(ranks: Seq<i64>, n: int, floor: i64)
    requires
        0 <= n <= ranks.len(),
    ensures
        match best_upto(ranks, n, floor) {
            Some(b) => {
                &&& 0 <= b < n
                &&& ranks[b] > floor
                &&& forall|k: int| 0 <= k < n ==> #[trigger] ranks[k] <= ranks[b]
                &&& forall|k: int| 0 <= k < b ==> #[trigger] ranks[k] < ranks[b]
            },
            None => forall|k: int| 0 <= k < n ==> #[trigger] ranks[k] <= floor,
        },
    decreases n,
{
    if n > 0 {
        lemma_best_upto(ranks, n - 1, floor);
    }
}

/// The first best of known ranks.
pub fn pick(ranks: &[i64], floor: i64) -> (r: Option<usize>)
    ensures
        match r {
            Some(b) => first_best(ranks@, floor) == Some(b as int) && b < ranks.len(),
            None => first_best(ranks@, floor) is None,
        },
{
    let mut best: Option<usize> = None;
    let mut bar: i64 = floor;
    let mut k: usize = 0;
    while k < ranks.len()
        invariant
            k <= ranks@.len(),
            match best {
                Some(b) => best_upto(ranks@, k as int, floor) == Some(b as int) && b < k && bar
                    == ranks@[b as int],
                None => best_upto(ranks@, k as int, floor) is None && bar == floor,
            },
        decreases ranks@.len() - k,
    {
        if ranks[k] > bar {
            bar = ranks[k];
            best = Some(k);
        }
        k += 1;
    }
    best
}

/// Ranks that a scorer gave for places, in order.
pub open spec fn scored<A, F: Fn(A) -> i64>(score: F, places: Seq<A>, ranks: Seq<i64>) -> bool {
    ranks.len() == places.len() && forall|k: int|
        0 <= k < places.len() ==> call_ensures(score, (#[trigger] places[k],), ranks[k])
}

/// What the best place is, once the ranks are known.
pub open spec fn chosen<A>(places: Seq<A>, ranks: Seq<i64>, floor: i64, default: A) -> (A, i64) {
    match first_best(ranks, floor) {
        Some(b) => (places[b], ranks[b]),
        None => (default, floor),
    }
}

/// Scores the places in order and takes the first best above `floor`, or the
/// default with the floor for its rank.
pub fn best_place<A: Copy, F: Fn(A) -> i64>(
    score: &F,
    places: &[A],
    floor: i64,
    default: A,
) -> (r: (A, i64))
    requires
        forall|k: int| 0 <= k < places@.len() ==> call_requires(*score, (#[trigger] places@[k],)),
    ensures
        exists|ranks: Seq<i64>| #[trigger]
            scored(*score, places@, ranks) && r == chosen(places@, ranks, floor, default),
{
    let mut ranks: Vec<i64> = Vec::new();
    let mut k: usize = 0;
    while k < places.len()
        invariant
            k <= places@.len(),
            ranks@.len() == k,
            forall|j: int|
                0 <= j < places@.len() ==> call_requires(*score, (#[trigger] places@[j],)),
            forall|j: int|
                0 <= j < k ==> call_ensures(*score, (#[trigger] places@[j],), ranks@[j]),
        decreases places@.len() - k,
    {
        let v: i64 = score(places[k]);
        ranks.push(v);
        k += 1;
    }
    assert(scored(*score, places@, ranks@));
    match pick(ranks.as_slice(), floor) {
        Some(b) => (places[b], ranks[b]),
        None => (default, floor),
    }
}

}
