//! What goes to the decoder over any number of blocks.

use crate::uac::slot_grid::{
    anchor_target, cut, due, planned, sink_ok, so_far, with_fix, SinkView,
};
use crate::uac::slot_grid::{SlotEnd, CHUNK_LEN, SLOT_SAMPLES_12K};
use crate::uac::stream::{
    after_anchor, after_observe, law_a_slot_has_its_length, run, slot_end,
};
use vstd::prelude::*;

verus! {

/// What the decoder is handed.
pub enum Sent {
    Samples { chunk: Seq<i16> },
    End { end: SlotEnd },
}

/// What a boundary finds: the clock, and the shifts that are asked for.
pub struct Decision {
    pub disciplined: bool,
    pub remain: Option<usize>,
    pub acquisition: i32,
    pub air: i32,
}

/// A block as it comes in, with what each boundary in it finds, by the
/// boundary's place in the block.
pub struct Block {
    pub samples: Seq<i16>,
    pub remain: Option<usize>,
    pub offset_us: i32,
    pub clock: Option<i64>,
    pub at: spec_fn(int) -> Decision,
}

/// The sink before any audio.
pub open spec fn fresh() -> SinkView {
    SinkView {
        chunk: Seq::empty(),
        slot_samples: 0,
        slot_target: SLOT_SAMPLES_12K as nat,
        wav_idx: 0,
        coarse_anchored: false,
        utc_said: false,
        sent_total: 0,
        phase: None,
    }
}

/// The sink once the next slot is decided.
pub open spec fn after_plan(s: SinkView, d: Decision, phase: Option<i64>) -> SinkView {
    SinkView {
        slot_target: planned(
            d.disciplined,
            d.remain,
            phase,
            d.acquisition as int,
            d.air as int,
        ) as nat,
        coarse_anchored: s.coarse_anchored || (!d.disciplined && d.acquisition != 0),
        utc_said: s.utc_said || d.disciplined,
        ..s
    }
}

pub open spec fn as_sent(chunks: Seq<Seq<i16>>) -> Seq<Sent> {
    chunks.map_values(|c: Seq<i16>| Sent::Samples { chunk: c })
}

/// A block from `at` on to its end, over every boundary in it.
pub open spec fn passed(s: SinkView, b: Block, at: int) -> (Seq<Sent>, SinkView)
    decreases b.samples.len() - at,
{
    let r = run(s, b.samples, at);
    match r.end {
        Some(e) if at < r.next <= b.samples.len() => {
            let rest = passed(after_plan(r.sink, (b.at)(r.next), e.phase), b, r.next);
            (as_sent(r.chunks).push(Sent::End { end: e }) + rest.0, rest.1)
        },
        _ => (as_sent(r.chunks), r.sink),
    }
}

/// The sink as a block starts to be cut.
pub open spec fn entered(s: SinkView, b: Block) -> SinkView {
    let n = b.samples.len() as int;
    after_observe(after_anchor(s, n, b.remain, b.offset_us), n, b.clock)
}

/// All that was sent over some blocks, and the sink then.
pub open spec fn streamed(blocks: Seq<Block>) -> (Seq<Sent>, SinkView)
    decreases blocks.len(),
{
    if blocks.len() == 0 {
        (Seq::empty(), fresh())
    } else {
        let before = streamed(blocks.drop_last());
        let more = passed(entered(before.1, blocks.last()), blocks.last(), 0);
        (before.0 + more.0, more.1)
    }
}

/// All samples of some blocks.
pub open spec fn pushed(blocks: Seq<Block>) -> Seq<i16>
    decreases blocks.len(),
{
    if blocks.len() == 0 {
        Seq::empty()
    } else {
        pushed(blocks.drop_last()) + blocks.last().samples
    }
}

/// The clock readings are ones that a sink can take.
pub open spec fn decision_ok(d: Decision) -> bool {
    &&& d.remain is Some ==> d.remain->0 <= SLOT_SAMPLES_12K
    &&& d.air <= i32::MAX - SLOT_SAMPLES_12K
}

pub open spec fn block_ok(s: SinkView, b: Block) -> bool {
    &&& b.remain is Some ==> so_far(s) + b.samples.len() + with_fix(
        b.remain->0 as int,
        b.offset_us,
    ) < usize::MAX
    &&& forall|at: int| decision_ok(#[trigger] (b.at)(at))
}

/// Every block is one that the sink can take when it comes.
pub open spec fn stream_ok(blocks: Seq<Block>) -> bool
    decreases blocks.len(),
{
    blocks.len() > 0 ==> stream_ok(blocks.drop_last()) && block_ok(
        streamed(blocks.drop_last()).1,
        blocks.last(),
    )
}

// ── What was sent ───────────────────────────────────────────────────────────

/// The samples, one after the other.
pub open spec fn audio(sent: Seq<Sent>) -> Seq<i16>
    decreases sent.len(),
{
    if sent.len() == 0 {
        Seq::empty()
    } else {
        match sent.last() {
            Sent::Samples { chunk } => audio(sent.drop_last()) + chunk,
            Sent::End { .. } => audio(sent.drop_last()),
        }
    }
}

/// Samples since the last boundary.
pub open spec fn since_end(sent: Seq<Sent>) -> nat
    decreases sent.len(),
{
    if sent.len() == 0 {
        0
    } else {
        match sent.last() {
            Sent::Samples { chunk } => since_end(sent.drop_last()) + chunk.len(),
            Sent::End { .. } => 0,
        }
    }
}

/// Boundaries so far.
pub open spec fn ends(sent: Seq<Sent>) -> nat
    decreases sent.len(),
{
    if sent.len() == 0 {
        0
    } else {
        match sent.last() {
            Sent::Samples { .. } => ends(sent.drop_last()),
            Sent::End { .. } => ends(sent.drop_last()) + 1,
        }
    }
}

/// What may follow what was sent: a chunk that is neither empty nor too
/// long, or a boundary that counts the samples since the last one and has
/// the next number.
pub open spec fn may_follow(sent: Seq<Sent>, m: Sent) -> bool {
    match m {
        Sent::Samples { chunk } => 0 < chunk.len() <= CHUNK_LEN,
        Sent::End { end } => end.total_samples == since_end(sent) && end.wav_idx == ends(sent) % (
        usize::MAX as nat + 1),
    }
}

pub open spec fn orderly(sent: Seq<Sent>) -> bool {
    forall|i: int| 0 <= i < sent.len() ==> may_follow(sent.take(i), #[trigger] sent[i])
}

/// What was sent and the sink agree.
spec fn agrees(sent: Seq<Sent>, s: SinkView, stream: Seq<i16>) -> bool {
    &&& sink_ok(s)
    &&& orderly(sent)
    &&& audio(sent) + s.chunk == stream
    &&& since_end(sent) == s.slot_samples
    &&& s.wav_idx == ends(sent) % (usize::MAX as nat + 1)
}

proof fn lemma_push(sent: Seq<Sent>, m: Sent)
    requires
        orderly(sent),
        may_follow(sent, m),
    ensures
        orderly(sent.push(m)),
        sent.push(m).drop_last() == sent,
{
    let x = sent.push(m);
    assert(x.drop_last() =~= sent);
    assert forall|i: int| 0 <= i < x.len() implies may_follow(x.take(i), #[trigger] x[i]) by {
        assert(x.take(i) =~= sent.take(i));
        if i == sent.len() {
            assert(sent.take(i) =~= sent);
        } else {
            assert(x[i] == sent[i]);
        }
    }
}

proof fn lemma_next_number(n: nat)
    ensures
        ({
            let w = usize::MAX as nat + 1;
            (n + 1) % w == (if n % w < usize::MAX {
                n % w + 1
            } else {
                0
            })
        }),
{
    let w = usize::MAX as int + 1;
    let q = n as int / w;
    let r = n as int % w;
    vstd::arithmetic::div_mod::lemma_fundamental_div_mod(n as int, w);
    if r < usize::MAX {
        vstd::arithmetic::div_mod::lemma_fundamental_div_mod_converse((n + 1) as int, w, q, r + 1);
    } else {
        assert(n + 1 == (q + 1) * w) by (nonlinear_arith)
            requires
                n == w * q + r,
                r + 1 == w,
        ;
        vstd::arithmetic::div_mod::lemma_fundamental_div_mod_converse((n + 1) as int, w, q + 1, 0);
    }
}

/// Up to a boundary, what is sent and the sink go on agreeing.
proof fn lemma_run(sent: Seq<Sent>, s: SinkView, stream: Seq<i16>, samples: Seq<i16>, at: int)
    requires
        agrees(sent, s, stream),
        0 <= at <= samples.len(),
    ensures
        ({
            let r = run(s, samples, at);
            let out = sent + as_sent(r.chunks);
            &&& at <= r.next <= samples.len()
            &&& match r.end {
                Some(e) => at < r.next && r.sink.slot_samples == 0 && r.sink.chunk.len() == 0
                    && agrees(
                    out.push(Sent::End { end: e }),
                    r.sink,
                    stream + samples.subrange(at, r.next),
                ),
                None => r.next == samples.len() && agrees(
                    out,
                    r.sink,
                    stream + samples.subrange(at, r.next),
                ),
            }
        }),
    decreases samples.len() - at,
{
    let n = due(s);
    let r = run(s, samples, at);
    if at + n > samples.len() {
        assert(sent + as_sent(r.chunks) =~= sent);
        assert(audio(sent) + r.sink.chunk =~= stream + samples.subrange(at, r.next));
    } else {
        let chunk = s.chunk + samples.subrange(at, at + n);
        let m = Sent::Samples { chunk };
        let sent1 = sent.push(m);
        lemma_push(sent, m);
        let stream1 = stream + samples.subrange(at, at + n);
        let t = cut(s, n);
        assert(audio(sent1) =~= stream1);
        if so_far(s) + n >= s.slot_target {
            let end = slot_end(s, n);
            let e = Sent::End { end };
            assert(sent + as_sent(r.chunks) =~= sent1);
            assert(since_end(sent1) == so_far(s) + n);
            lemma_push(sent1, e);
            lemma_next_number(ends(sent));
            assert(audio(sent1.push(e)) + t.chunk =~= stream1);
        } else {
            assert(audio(sent1) + t.chunk =~= stream1);
            lemma_run(sent1, t, stream1, samples, at + n);
            let rest = run(t, samples, at + n);
            assert(sent + as_sent(r.chunks) =~= sent1 + as_sent(rest.chunks));
            assert(stream1 + samples.subrange(at + n, rest.next) =~= stream + samples.subrange(
                at,
                rest.next,
            ));
        }
    }
}

proof fn lemma_planned(d: Decision, phase: Option<i64>)
    requires
        decision_ok(d),
    ensures
        0 < planned(d.disciplined, d.remain, phase, d.acquisition as int, d.air as int)
            < usize::MAX,
{
}

proof fn lemma_passed(sent: Seq<Sent>, s: SinkView, stream: Seq<i16>, b: Block, at: int)
    requires
        agrees(sent, s, stream),
        0 <= at <= b.samples.len(),
        forall|at: int| decision_ok(#[trigger] (b.at)(at)),
    ensures
        agrees(
            sent + passed(s, b, at).0,
            passed(s, b, at).1,
            stream + b.samples.subrange(at, b.samples.len() as int),
        ),
    decreases b.samples.len() - at,
{
    lemma_run(sent, s, stream, b.samples, at);
    let r = run(s, b.samples, at);
    match r.end {
        Some(e) => {
            let d = (b.at)(r.next);
            let t = after_plan(r.sink, d, e.phase);
            let sent1 = (sent + as_sent(r.chunks)).push(Sent::End { end: e });
            let stream1 = stream + b.samples.subrange(at, r.next);
            assert(decision_ok(d));
            lemma_planned(d, e.phase);
            lemma_passed(sent1, t, stream1, b, r.next);
            let rest = passed(t, b, r.next);
            assert(sent1 + rest.0 =~= sent + passed(s, b, at).0);
            assert(stream1 + b.samples.subrange(r.next, b.samples.len() as int) =~= stream
                + b.samples.subrange(at, b.samples.len() as int));
        },
        None => {},
    }
}

proof fn lemma_streamed(blocks: Seq<Block>)
    requires
        stream_ok(blocks),
    ensures
        agrees(streamed(blocks).0, streamed(blocks).1, pushed(blocks)),
    decreases blocks.len(),
{
    if blocks.len() == 0 {
        assert(audio(streamed(blocks).0) + fresh().chunk =~= pushed(blocks));
    } else {
        lemma_streamed(blocks.drop_last());
        let before = streamed(blocks.drop_last());
        let b = blocks.last();
        let n = b.samples.len() as int;
        let s = entered(before.1, b);
        if !before.1.coarse_anchored && b.remain is Some {
            assert(with_fix(b.remain->0 as int, b.offset_us) >= 0);
            assert(anchor_target(
                so_far(before.1),
                n,
                with_fix(b.remain->0 as int, b.offset_us),
            ) >= so_far(before.1));
        }
        lemma_passed(before.0, s, pushed(blocks.drop_last()), b, 0);
        assert(b.samples.subrange(0, n) =~= b.samples);
    }
}

/// Over any number of blocks, whatever the clock and the shifts say: the
/// samples that were sent, one after the other, are what came in, but for
/// less than a chunk that is held back. No chunk is empty or too long; each
/// boundary counts the samples since the one before it, and boundaries are
/// numbered from 0 on.
pub proof fn law_the_stream_goes_out_whole(blocks: Seq<Block>)
    requires
        stream_ok(blocks),
    ensures
        ({
            let (sent, s) = streamed(blocks);
            &&& audio(sent) + s.chunk == pushed(blocks)
            &&& s.chunk.len() < CHUNK_LEN
            &&& orderly(sent)
        }),
{
    lemma_streamed(blocks);
}

/// No clock and no shift.
pub open spec fn unmoved(b: Block) -> bool {
    &&& b.remain is None
    &&& forall|at: int| left_alone(#[trigger] (b.at)(at))
}

pub open spec fn left_alone(d: Decision) -> bool {
    !d.disciplined && d.acquisition == 0 && d.air == 0
}

/// A grid that has not been moved.
spec fn nominal(s: SinkView) -> bool {
    sink_ok(s) && s.slot_target == SLOT_SAMPLES_12K && so_far(s) < SLOT_SAMPLES_12K
        && !s.coarse_anchored
}

pub open spec fn whole_slots(sent: Seq<Sent>) -> bool {
    forall|i: int|
        0 <= i < sent.len() ==> (#[trigger] sent[i] matches Sent::End { end }
            ==> end.total_samples == SLOT_SAMPLES_12K)
}

proof fn lemma_unanchored(s: SinkView, samples: Seq<i16>, at: int)
    requires
        sink_ok(s),
        0 <= at <= samples.len(),
    ensures
        run(s, samples, at).sink.coarse_anchored == s.coarse_anchored,
        sink_ok(run(s, samples, at).sink),
        at <= run(s, samples, at).next <= samples.len(),
    decreases samples.len() - at,
{
    let n = due(s);
    if at + n <= samples.len() && so_far(s) + n < s.slot_target {
        lemma_unanchored(cut(s, n), samples, at + n);
    }
}

proof fn lemma_whole(s: SinkView, b: Block, at: int)
    requires
        nominal(s),
        unmoved(b),
        0 <= at <= b.samples.len(),
    ensures
        nominal(passed(s, b, at).1),
        whole_slots(passed(s, b, at).0),
    decreases b.samples.len() - at,
{
    let r = run(s, b.samples, at);
    law_a_slot_has_its_length(s, b.samples, at);
    lemma_unanchored(s, b.samples, at);
    match r.end {
        Some(e) if at < r.next <= b.samples.len() => {
            assert(left_alone((b.at)(r.next)));
            let t = after_plan(r.sink, (b.at)(r.next), e.phase);
            lemma_whole(t, b, r.next);
            let rest = passed(t, b, r.next).0;
            let all = as_sent(r.chunks).push(Sent::End { end: e }) + rest;
            assert forall|i: int| 0 <= i < all.len() implies (
            #[trigger] all[i] matches Sent::End { end } ==> end.total_samples
                == SLOT_SAMPLES_12K) by {
                if i > r.chunks.len() {
                    assert(all[i] == rest[i - r.chunks.len() - 1]);
                }
            }
        },
        _ => {},
    }
}

/// Without a clock and without a shift every slot is a whole one.
pub proof fn law_slots_are_whole_if_left_alone(blocks: Seq<Block>)
    requires
        forall|i: int| 0 <= i < blocks.len() ==> unmoved(#[trigger] blocks[i]),
    ensures
        whole_slots(streamed(blocks).0),
{
    lemma_left_alone(blocks);
}

proof fn lemma_left_alone(blocks: Seq<Block>)
    requires
        forall|i: int| 0 <= i < blocks.len() ==> unmoved(#[trigger] blocks[i]),
    ensures
        whole_slots(streamed(blocks).0),
        nominal(streamed(blocks).1),
    decreases blocks.len(),
{
    if blocks.len() > 0 {
        let first = blocks.drop_last();
        assert forall|i: int| 0 <= i < first.len() implies unmoved(#[trigger] first[i]) by {
            assert(first[i] == blocks[i]);
        }
        lemma_left_alone(first);
        let before = streamed(first);
        let b = blocks[blocks.len() - 1];
        lemma_whole(entered(before.1, b), b, 0);
        let more = passed(entered(before.1, b), b, 0).0;
        let all = before.0 + more;
        assert forall|i: int| 0 <= i < all.len() implies (
        #[trigger] all[i] matches Sent::End { end } ==> end.total_samples
            == SLOT_SAMPLES_12K) by {
            if i >= before.0.len() {
                assert(all[i] == more[i - before.0.len()]);
            } else {
                assert(all[i] == before.0[i]);
            }
        }
    }
}

}
