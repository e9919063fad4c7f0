//! A block of audio on its way through the capture and the slot grid.
//!
//! The block is cut up to the first boundary in it. There the next slot's
//! length is decided, which takes the clock as it is by then, and the rest of
//! the block follows.

use crate::uac::acquisition::{capture_ok, captured, Acquisition};
use crate::uac::slot_grid::{
    anchor_target, cut, due, law_fold_keeps_the_phase, least, nearest, sink_ok, so_far, with_fix,
    SinkView,
};
use crate::uac::slot_grid::{
    Ft8ChunkSink, GridFixSeed, GridLock, SlotEnd, CHUNK_LEN, SLOT_SAMPLES_12K,
};
use vstd::prelude::*;

verus! {

/// The clock as a block comes in.
#[derive(Debug, Clone, Copy, PartialEq, Eq, Structural)]
pub struct Readings {
    /// Samples to the next slot, once the clock is known.
    pub remain: Option<usize>,
    /// The same, as precisely as the clock has it.
    pub clock: Option<i64>,
    pub disciplined: bool,
}

/// What came of a block, up to the first boundary.
#[derive(Debug)]
pub struct Pushed {
    /// The lock to note, if the grid was anchored just now.
    pub lock: Option<GridLock>,
    /// Chunks to hand on, in order.
    pub chunks: Vec<Vec<i16>>,
    /// The boundary that was reached, after those chunks.
    pub end: Option<SlotEnd>,
    /// Where in the block to go on.
    pub next: usize,
}

pub struct RunView {
    pub chunks: Seq<Seq<i16>>,
    pub sink: SinkView,
    pub end: Option<SlotEnd>,
    pub next: int,
}

/// The end of the slot that `n` more samples complete.
pub open spec fn slot_end(s: SinkView, n: int) -> SlotEnd {
    SlotEnd {
        wav_idx: s.wav_idx,
        total_samples: (so_far(s) + n) as usize,
        boundary_at: cut(s, n).sent_total,
        phase: s.phase,
    }
}

/// A block from `at` on: chunk after chunk as each is due, up to a boundary
/// or the end of the block; what is left over is held.
pub open spec fn run(s: SinkView, samples: Seq<i16>, at: int) -> RunView
    decreases samples.len() - at,
{
    let n = due(s);
    if n <= 0 || at + n > samples.len() {
        RunView {
            chunks: Seq::empty(),
            sink: SinkView { chunk: s.chunk + samples.subrange(at, samples.len() as int), ..s },
            end: None,
            next: samples.len() as int,
        }
    } else {
        let chunk = s.chunk + samples.subrange(at, at + n);
        if so_far(s) + n >= s.slot_target {
            RunView {
                chunks: seq![chunk],
                sink: cut(s, n),
                end: Some(slot_end(s, n)),
                next: at + n,
            }
        } else {
            let rest = run(cut(s, n), samples, at + n);
            RunView { chunks: seq![chunk] + rest.chunks, ..rest }
        }
    }
}

pub open spec fn chunk_views(v: Seq<Vec<i16>>) -> Seq<Seq<i16>> {
    v.map_values(|c: Vec<i16>| c@)
}

/// The grid once the clock is there to anchor it.
pub open spec fn after_anchor(s: SinkView, n: int, remain: Option<usize>, offset_us: i32) -> SinkView {
    if s.coarse_anchored || remain is None {
        s
    } else {
        SinkView {
            slot_target: anchor_target(
                so_far(s),
                n,
                with_fix(remain->0 as int, offset_us),
            ) as nat,
            coarse_anchored: true,
            ..s
        }
    }
}

/// The grid once a block was held against the clock.
pub open spec fn after_observe(s: SinkView, n: int, clock: Option<i64>) -> SinkView {
    if s.coarse_anchored && clock is Some {
        SinkView {
            phase: least(
                s.phase,
                nearest(s.slot_target - (so_far(s) + n) - clock->0, SLOT_SAMPLES_12K as int),
            ),
            ..s
        }
    } else {
        s
    }
}

impl Ft8ChunkSink {
    /// The rest of a block, from `at` on, up to the next boundary.
    pub fn go_on(&mut self, samples: &[i16], at: usize) -> (r: Pushed)
        requires
            sink_ok(old(self)@),
            at <= samples.len(),
        ensures
            sink_ok(final(self)@),
            r.lock is None,
            r.next <= samples.len(),
            (RunView {
                chunks: chunk_views(r.chunks@),
                sink: final(self)@,
                end: r.end,
                next: r.next as int,
            }) == run(old(self)@, samples@, at as int),
    {
        let ghost want = run(self@, samples@, at as int);
        let mut chunks: Vec<Vec<i16>> = Vec::new();
        let mut next: usize = at;
        let mut end: Option<SlotEnd> = None;
        let mut going = true;
        assert(chunk_views(chunks@) + want.chunks =~= want.chunks);
        while going
            invariant
                sink_ok(self@),
                next <= samples@.len(),
                going ==> end is None && ({
                    let rest = run(self@, samples@, next as int);
                    want == (RunView { chunks: chunk_views(chunks@) + rest.chunks, ..rest })
                }),
                !going ==> want == (RunView {
                    chunks: chunk_views(chunks@),
                    sink: self@,
                    end,
                    next: next as int,
                }),
            decreases
                    samples@.len() - next + if going {
                        1int
                    } else {
                        0
                    },
        {
            let ghost before = chunk_views(chunks@);
            let ghost s = self@;
            let ghost from = next as int;
            match self.next_cut(samples, next) {
                Some(c) => {
                    let ghost chunk = c.chunk@;
                    next = c.next;
                    chunks.push(c.chunk);
                    assert(chunk_views(chunks@) =~= before + seq![chunk]);
                    if c.end.is_some() {
                        end = c.end;
                        going = false;
                    } else {
                        proof {
                            let rest = run(self@, samples@, next as int);
                            assert(before + (seq![chunk] + rest.chunks) =~= chunk_views(chunks@)
                                + rest.chunks);
                        }
                    }
                },
                None => {
                    next = samples.len();
                    going = false;
                    assert(before + Seq::<Seq<i16>>::empty() =~= before);
                },
            }
        }
        Pushed { lock: None, chunks, end, next }
    }

    /// A block comes in: into the capture, into the anchor and the phase
    /// while the clock is there, and into chunks up to the first boundary.
    pub fn push_samples(
        &mut self,
        capture: &mut Acquisition,
        seed: &GridFixSeed,
        now: Readings,
        samples: &[i16],
    ) -> (r: Pushed)
        requires
            sink_ok(old(self)@),
            capture_ok(old(capture)@),
            now.remain is Some ==> so_far(old(self)@) + samples.len() + with_fix(
                now.remain->0 as int,
                seed.offset_us,
            ) < usize::MAX,
        ensures
            sink_ok(final(self)@),
            capture_ok(final(capture)@),
            final(capture)@ == captured(
                old(capture)@,
                samples@,
                so_far(old(self)@) as usize,
            ),
            r.lock == if old(self)@.coarse_anchored || now.remain is None {
                None
            } else if now.disciplined {
                Some(GridLock::Ntp)
            } else {
                Some(GridLock::Rtc)
            },
            r.next <= samples.len(),
            (RunView {
                chunks: chunk_views(r.chunks@),
                sink: final(self)@,
                end: r.end,
                next: r.next as int,
            }) == run(
                after_observe(
                    after_anchor(
                        old(self)@,
                        samples.len() as int,
                        now.remain,
                        seed.offset_us,
                    ),
                    samples.len() as int,
                    now.clock,
                ),
                samples@,
                0,
            ),
    {
        capture.feed(samples, self.in_slot());
        let lock = self.anchor(samples.len(), now.remain, seed, now.disciplined);
        self.observe(samples.len(), now.clock);
        let done = self.go_on(samples, 0);
        Pushed { lock, ..done }
    }
}

// ── What a block keeps to ───────────────────────────────────────────────────

/// The chunks one after the other.
pub open spec fn joined(chunks: Seq<Seq<i16>>) -> Seq<i16>
    decreases chunks.len(),
{
    if chunks.len() == 0 {
        Seq::empty()
    } else {
        chunks[0] + joined(chunks.skip(1))
    }
}

/// Nothing is lost, added or moved: the chunks that go out and what is held
/// afterwards are what was held before and what was taken of the block. No
/// chunk is empty or too long, and without a boundary all of the block is
/// taken.
pub proof fn law_a_block_is_passed_on_whole(s: SinkView, samples: Seq<i16>, at: int)
    requires
        sink_ok(s),
        0 <= at <= samples.len(),
    ensures
        ({
            let r = run(s, samples, at);
            &&& at <= r.next <= samples.len()
            &&& joined(r.chunks) + r.sink.chunk == s.chunk + samples.subrange(at, r.next)
            &&& forall|i: int|
                0 <= i < r.chunks.len() ==> 0 < (#[trigger] r.chunks[i]).len() <= CHUNK_LEN
            &&& r.end is None ==> r.next == samples.len()
        }),
    decreases samples.len() - at,
{
    let n = due(s);
    let r = run(s, samples, at);
    if at + n > samples.len() {
        assert(joined(r.chunks) + r.sink.chunk =~= s.chunk + samples.subrange(at, r.next));
    } else {
        let chunk = s.chunk + samples.subrange(at, at + n);
        if so_far(s) + n >= s.slot_target {
            assert(r.chunks.skip(1) =~= Seq::empty());
            assert(joined(r.chunks.skip(1)) =~= Seq::empty());
            assert(joined(r.chunks) =~= chunk);
            assert(joined(r.chunks) + r.sink.chunk =~= s.chunk + samples.subrange(at, r.next));
        } else {
            let t = cut(s, n);
            law_a_block_is_passed_on_whole(t, samples, at + n);
            let rest = run(t, samples, at + n);
            assert(r.chunks.skip(1) =~= rest.chunks);
            assert(r.chunks[0] == chunk);
            assert(joined(r.chunks) =~= chunk + joined(rest.chunks));
            let tail = samples.subrange(at + n, rest.next);
            assert(joined(rest.chunks) + rest.sink.chunk =~= tail);
            assert(joined(r.chunks) + r.sink.chunk =~= chunk + tail);
            assert(chunk + tail =~= s.chunk + samples.subrange(at, r.next));
            assert forall|i: int| 0 <= i < r.chunks.len() implies 0 < (
            #[trigger] r.chunks[i]).len() <= CHUNK_LEN by {
                if i > 0 {
                    assert(r.chunks[i] == rest.chunks[i - 1]);
                }
            }
        }
    }
}

/// A slot is as long as it was to be, however its audio came in, and the
/// next one is a whole one until it is decided otherwise.
pub proof fn law_a_slot_has_its_length(s: SinkView, samples: Seq<i16>, at: int)
    requires
        sink_ok(s),
        so_far(s) < s.slot_target,
        0 <= at <= samples.len(),
    ensures
        ({
            let r = run(s, samples, at);
            match r.end {
                Some(e) => e.total_samples == s.slot_target && e.wav_idx == s.wav_idx
                    && so_far(r.sink) == 0 && r.sink.slot_target == SLOT_SAMPLES_12K,
                None => r.sink.slot_target == s.slot_target && so_far(r.sink) == so_far(s)
                    + samples.len() - at && so_far(r.sink) < s.slot_target,
            }
        }),
    decreases samples.len() - at,
{
    let n = due(s);
    if at + n <= samples.len() && so_far(s) + n < s.slot_target {
        law_a_slot_has_its_length(cut(s, n), samples, at + n);
    }
}

/// A boundary is where the samples before it end, counted from the start of
/// the stream, and it takes the phase that was held against the clock with
/// it. The slot after it is the next one.
pub proof fn law_a_boundary_is_counted(s: SinkView, samples: Seq<i16>, at: int)
    requires
        sink_ok(s),
        so_far(s) < s.slot_target,
        0 <= at <= samples.len(),
        s.wav_idx < usize::MAX,
        s.sent_total + s.chunk.len() + samples.len() - at < 0x1_0000_0000,
    ensures
        ({
            let r = run(s, samples, at);
            match r.end {
                Some(e) => e.boundary_at == s.sent_total + s.chunk.len() + (r.next - at)
                    && r.sink.sent_total == e.boundary_at && e.phase == s.phase
                    && r.sink.phase is None && r.sink.wav_idx == s.wav_idx + 1,
                None => r.sink.sent_total + r.sink.chunk.len() == s.sent_total + s.chunk.len()
                    + samples.len() - at && r.sink.phase == s.phase && r.sink.wav_idx == s.wav_idx,
            }
        }),
    decreases samples.len() - at,
{
    let n = due(s);
    if at + n <= samples.len() && so_far(s) + n < s.slot_target {
        law_a_boundary_is_counted(cut(s, n), samples, at + n);
    }
}

/// The clock anchors the grid once: from the first block after it is known
/// the slot ends where the clock has its boundary, moved by the fix, and an
/// anchored grid is not anchored again. Nothing else changes.
pub proof fn law_the_clock_anchors_once(
    s: SinkView,
    n: int,
    remain: Option<usize>,
    offset_us: i32,
    again: Option<usize>,
)
    ensures
        ({
            let a = after_anchor(s, n, remain, offset_us);
            &&& s.coarse_anchored || remain is None ==> a == s
            &&& !s.coarse_anchored && remain is Some ==> a.coarse_anchored && a.slot_target
                == anchor_target(so_far(s), n, with_fix(remain->0 as int, offset_us)) as nat
                && a.chunk == s.chunk && a.slot_samples == s.slot_samples && a.sent_total
                == s.sent_total && a.phase == s.phase && a.wav_idx == s.wav_idx
            &&& remain is Some ==> after_anchor(a, n, again, offset_us) == a
        }),
{
}

/// Once anchored, a block is held against the clock: the phase is off by what
/// is left of the slot after the block less what the clock says is left, up
/// to whole slots, and the least of a slot's is kept.
pub proof fn law_blocks_are_held_against_the_clock(s: SinkView, n: int, clock: Option<i64>)
    requires
        so_far(s) + n <= s.slot_target < 0x1_0000_0000,
        0 <= n,
        clock matches Some(c) ==> 0 <= c <= 0x1_0000_0000,
    ensures
        ({
            let a = after_observe(s, n, clock);
            &&& !s.coarse_anchored || clock is None ==> a == s
            &&& s.coarse_anchored && clock is Some && s.phase is None ==> a.phase is Some && (
            s.slot_target - so_far(s) - n - clock->0 - a.phase->0) % 180_000 == 0 && -90_000
                < a.phase->0 <= 90_000
            &&& s.coarse_anchored && clock is Some && s.phase is Some ==> a.phase is Some
                && a.phase->0 <= s.phase->0
            &&& a.slot_target == s.slot_target && a.chunk == s.chunk && a.slot_samples
                == s.slot_samples && a.sent_total == s.sent_total && a.coarse_anchored
                == s.coarse_anchored
        }),
{
    if s.coarse_anchored && clock is Some {
        let d = s.slot_target - (so_far(s) + n) - clock->0;
        law_fold_keeps_the_phase(d, 180_000);
        let e = nearest(d, 180_000);
        assert((d - e) % 180_000 == 0) by {
            vstd::arithmetic::div_mod::lemma_fundamental_div_mod(e - d, 180_000);
            let q = (e - d) / 180_000;
            assert(d - e == (-q) * 180_000);
            vstd::arithmetic::div_mod::lemma_mod_multiples_basic(-q, 180_000);
        }
    }
}

}
