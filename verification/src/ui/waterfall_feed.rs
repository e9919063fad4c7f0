//! Feeding the waterfall from the audio itself.
//!
//! Audio is offered to a ring that never makes the audio path wait: what
//! does not fit is dropped here and only here. The panel takes what has
//! gathered and turns it into rows; the clock's slot boundaries are placed in
//! the same stream of samples.

use vstd::prelude::*;
use vstd::slice::slice_subrange;

verus! {

/// Four seconds of audio at 12 kHz.
pub const CAP: usize = 48_000;

/// Boundaries that can wait to be drawn.
pub const MARKS_MAX: usize = 8;

/// How often the cost is reported, in microseconds.
pub const REPORT_EVERY_US: i64 = 10_000_000;

/// `heapless::Deque`: up to `N` items, first in first out.
#[verifier::external_type_specification]
#[verifier::external_body]
#[verifier::reject_recursive_types(T)]
pub struct ExFixedDeque<T, const N: usize>(heapless::Deque<T, N>);

/// What a queue of boundaries holds, front first.
pub uninterp spec fn queued(d: heapless::Deque<u64, 8>) -> Seq<u64>;

/// `heapless::Deque::new`: empty.
#[verifier::external_body]
fn queue_new() -> (d: heapless::Deque<u64, 8>)
    ensures
        queued(d) == Seq::<u64>::empty(),
{
    heapless::Deque::new()
}

/// `heapless::Deque::is_full`: whether it holds as many as it can.
#[verifier::external_body]
fn queue_is_full(d: &heapless::Deque<u64, 8>) -> (r: bool)
    ensures
        r == (queued(*d).len() == 8),
{
    d.is_full()
}

/// `heapless::Deque::push_back`: appends at the back, or leaves the queue
/// alone and says no when it is full.
#[verifier::external_body]
fn queue_push_back(d: &mut heapless::Deque<u64, 8>, x: u64) -> (r: bool)
    ensures
        r == (queued(*old(d)).len() < 8),
        queued(*final(d)) == if r {
            queued(*old(d)).push(x)
        } else {
            queued(*old(d))
        },
        queued(*final(d)).len() <= 8,
{
    d.push_back(x).is_ok()
}

/// `heapless::Deque::pop_front`: takes the item at the front, if there is
/// one.
#[verifier::external_body]
fn queue_pop_front(d: &mut heapless::Deque<u64, 8>) -> (r: Option<u64>)
    ensures
        match r {
            Some(x) => queued(*old(d)).len() > 0 && x == queued(*old(d))[0] && queued(*final(d))
                == queued(*old(d)).skip(1),
            None => queued(*old(d)).len() == 0 && queued(*final(d)) == queued(*old(d)),
        },
{
    d.pop_front()
}

/// `heapless::Deque::front`: the item at the front, if there is one.
#[verifier::external_body]
fn queue_front(d: &heapless::Deque<u64, 8>) -> (r: Option<u64>)
    ensures
        match r {
            Some(x) => queued(*d).len() > 0 && x == queued(*d)[0],
            None => queued(*d).len() == 0,
        },
{
    d.front().copied()
}

/// A boundary queued; the oldest makes room.
pub open spec fn queue_mark(q: Seq<u64>, b: u64) -> Seq<u64> {
    if q.len() >= MARKS_MAX {
        q.skip(1).push(b)
    } else {
        q.push(b)
    }
}

fn add_mark(d: &mut heapless::Deque<u64, 8>, b: u64)
    ensures
        queued(*old(d)).len() <= MARKS_MAX ==> queued(*final(d)) == queue_mark(
            queued(*old(d)),
            b,
        ),
        queued(*final(d)).len() <= MARKS_MAX,
{
    if queue_is_full(d) {
        let _oldest = queue_pop_front(d);
    }
    let _ok = queue_push_back(d, b);
}

// ── The ring ────────────────────────────────────────────────────────────────

/// Audio on its way to the panel.
pub struct Ring {
    buf: Vec<i16>,
    /// Samples accepted in all.
    accepted: u64,
    /// Where the clock says that the next boundary falls.
    next_boundary: Option<u64>,
    /// Boundaries passed and not yet drawn.
    marks: heapless::Deque<u64, 8>,
    /// Samples dropped since the last report, wrapping.
    dropped: u32,
    /// Slot period; 0 draws no marks.
    period_ms: u32,
}

pub struct RingView {
    pub buf: Seq<i16>,
    pub accepted: u64,
    pub next_boundary: Option<u64>,
    pub marks: Seq<u64>,
    pub dropped: u32,
    pub period_ms: u32,
}

impl View for Ring {
    type V = RingView;

    closed spec fn view(&self) -> RingView {
        RingView {
            buf: self.buf@,
            accepted: self.accepted,
            next_boundary: self.next_boundary,
            marks: queued(self.marks),
            dropped: self.dropped,
            period_ms: self.period_ms,
        }
    }
}

/// The ring holds no more than it may.
pub open spec fn ring_ok(r: RingView) -> bool {
    r.buf.len() <= CAP && r.marks.len() <= MARKS_MAX
}

/// How much of a block is taken.
pub open spec fn taken(r: RingView, n: int) -> int {
    if n <= CAP - r.buf.len() {
        n
    } else {
        CAP - r.buf.len()
    }
}

/// The ring after a block was offered, with the next boundary `remain`
/// samples away by the clock.
pub open spec fn offered(r: RingView, samples: Seq<i16>, remain: Option<u32>) -> RingView {
    let t = taken(r, samples.len() as int);
    let accepted = (r.accepted + t) as u64;
    let q = RingView {
        buf: r.buf + samples.take(t),
        accepted,
        dropped: ((r.dropped + (samples.len() - t)) % 0x1_0000_0000) as u32,
        ..r
    };
    if r.period_ms == 0 {
        q
    } else {
        RingView {
            marks: if r.next_boundary is Some && accepted >= r.next_boundary->0 {
                queue_mark(r.marks, r.next_boundary->0)
            } else {
                r.marks
            },
            next_boundary: match remain {
                Some(n) => Some((accepted + n) as u64),
                None => None,
            },
            ..q
        }
    }
}

/// Adds to a wrapping counter.
fn wrapping_plus(a: u32, n: usize) -> (r: u32)
    ensures
        r == (a + n) % 0x1_0000_0000,
{
    ((a as u128 + n as u128) % 0x1_0000_0000) as u32
}

/// A ring for a mode with the given slot period; 0 for no marks.
pub fn init(period_ms: u32) -> (r: Ring)
    ensures
        r@ == (RingView {
            buf: Seq::empty(),
            accepted: 0,
            next_boundary: None,
            marks: Seq::empty(),
            dropped: 0,
            period_ms,
        }),
        ring_ok(r@),
{
    let r = Ring {
        buf: Vec::new(),
        accepted: 0,
        next_boundary: None,
        marks: queue_new(),
        dropped: 0,
        period_ms,
    };
    assert(r@.buf =~= Seq::<i16>::empty());
    r
}

impl Ring {
    /// Offer audio. What does not fit is dropped. A boundary that the stream
    /// has passed is marked, and the clock is asked anew for the next one,
    /// so that a step of the clock moves the rules with it.
    pub fn push(&mut self, samples: &[i16], remain: Option<u32>)
        requires
            ring_ok(old(self)@),
            old(self)@.accepted <= u64::MAX - 0x2_0000_0000,
        ensures
            final(self)@ == offered(old(self)@, samples@, remain),
            ring_ok(final(self)@),
    {
        let room: usize = CAP - self.buf.len();
        let take: usize = if samples.len() < room {
            samples.len()
        } else {
            room
        };
        if take < samples.len() {
            self.dropped = wrapping_plus(self.dropped, samples.len() - take);
        }
        let part = slice_subrange(samples, 0, take);
        assert(part@ =~= samples@.take(take as int));
        let ghost before = self.buf@;
        self.buf.extend_from_slice(part);
        assert(self.buf@ =~= before + samples@.take(take as int));
        self.accepted = self.accepted + take as u64;
        if self.period_ms == 0 {
            return;
        }
        if let Some(b) = self.next_boundary {
            if self.accepted >= b {
                add_mark(&mut self.marks, b);
            }
        }
        self.next_boundary = match remain {
            Some(n) => Some(self.accepted + n as u64),
            None => None,
        };
    }

    /// Audio that could not be offered at all.
    pub fn missed(&mut self, n: usize)
        ensures
            final(self)@ == (RingView {
                dropped: ((old(self)@.dropped + n) % 0x1_0000_0000) as u32,
                ..old(self)@
            }),
    {
        self.dropped = wrapping_plus(self.dropped, n);
    }

    /// Samples dropped since the last time this was asked.
    pub fn take_dropped(&mut self) -> (r: u32)
        ensures
            r == old(self)@.dropped,
            final(self)@ == (RingView { dropped: 0, ..old(self)@ }),
    {
        let r: u32 = self.dropped;
        self.dropped = 0;
        r
    }
}

// ── The panel's side ────────────────────────────────────────────────────────

/// What the panel has taken and not drawn.
pub struct Drain {
    /// Swapped with the ring's audio, so that neither side reallocates.
    spare: Vec<i16>,
    marks: heapless::Deque<u64, 8>,
    last_report_us: i64,
}

pub struct DrainView {
    pub spare: Seq<i16>,
    pub marks: Seq<u64>,
    pub last_report_us: i64,
}

impl View for Drain {
    type V = DrainView;

    closed spec fn view(&self) -> DrainView {
        DrainView {
            spare: self.spare@,
            marks: queued(self.marks),
            last_report_us: self.last_report_us,
        }
    }
}

/// Boundaries moved over, in order; the oldest make room.
pub open spec fn moved_marks(to: Seq<u64>, from: Seq<u64>) -> Seq<u64>
    decreases from.len(),
{
    if from.len() == 0 {
        to
    } else {
        moved_marks(queue_mark(to, from[0]), from.skip(1))
    }
}

/// Boundaries left once those up to `pos` are drawn.
pub open spec fn marks_after(marks: Seq<u64>, pos: u64) -> Seq<u64>
    decreases marks.len(),
{
    if marks.len() > 0 && marks[0] <= pos {
        marks_after(marks.skip(1), pos)
    } else {
        marks
    }
}

impl Drain {
    pub fn new(now_us: i64) -> (r: Self)
        ensures
            r@ == (DrainView {
                spare: Seq::empty(),
                marks: Seq::empty(),
                last_report_us: now_us,
            }),
    {
        let r = Drain { spare: Vec::new(), marks: queue_new(), last_report_us: now_us };
        assert(r@.spare =~= Seq::<i16>::empty());
        r
    }

    /// Take what has gathered; no if there is nothing.
    pub fn take(&mut self, ring: &mut Ring) -> (r: bool)
        requires
            ring_ok(old(ring)@),
            old(self)@.spare.len() == 0,
            old(self)@.marks.len() <= MARKS_MAX,
        ensures
            r == (old(ring)@.buf.len() > 0),
            !r ==> final(self)@ == old(self)@ && final(ring)@ == old(ring)@,
            r ==> final(self)@ == (DrainView {
                spare: old(ring)@.buf,
                marks: moved_marks(old(self)@.marks, old(ring)@.marks),
                ..old(self)@
            }),
            r ==> final(ring)@ == (RingView {
                buf: Seq::empty(),
                marks: Seq::empty(),
                ..old(ring)@
            }),
            ring_ok(final(ring)@),
            final(self)@.marks.len() <= MARKS_MAX,
    {
        if ring.buf.len() == 0 {
            return false;
        }
        std::mem::swap(&mut ring.buf, &mut self.spare);
        let ghost to = queued(self.marks);
        let ghost from = queued(ring.marks);
        let mut going = true;
        while going
            invariant
                queued(self.marks).len() <= MARKS_MAX,
                queued(ring.marks).len() <= MARKS_MAX,
                moved_marks(to, from) == moved_marks(queued(self.marks), queued(ring.marks)),
                !going ==> queued(ring.marks).len() == 0,
                self.spare@ == old(ring)@.buf,
                self.last_report_us == old(self)@.last_report_us,
                ring.buf@ == old(self)@.spare,
                ring.accepted == old(ring)@.accepted,
                ring.next_boundary == old(ring)@.next_boundary,
                ring.dropped == old(ring)@.dropped,
                ring.period_ms == old(ring)@.period_ms,
            decreases
                queued(ring.marks).len() + if going {
                    1nat
                } else {
                    0nat
                },
        {
            match queue_pop_front(&mut ring.marks) {
                Some(m) => {
                    add_mark(&mut self.marks, m);
                },
                None => {
                    going = false;
                },
            }
        }
        proof {
            assert(ring@.buf =~= Seq::<i16>::empty());
            assert(ring@.marks =~= Seq::<u64>::empty());
        }
        true
    }

    /// The audio that was taken.
    pub fn audio(&self) -> (r: &[i16])
        ensures
            r@ == self@.spare,
    {
        self.spare.as_slice()
    }

    /// A row that ends at `pos` of the stream: whether a boundary falls in
    /// it. Boundaries up to there are done with.
    pub fn row_mark(&mut self, pos: u64) -> (r: bool)
        ensures
            r == (old(self)@.marks.len() > 0 && old(self)@.marks[0] <= pos),
            final(self)@ == (DrainView {
                marks: marks_after(old(self)@.marks, pos),
                ..old(self)@
            }),
    {
        let mut mark = false;
        let ghost m0 = queued(self.marks);
        let mut going = true;
        while going
            invariant
                marks_after(m0, pos) == marks_after(queued(self.marks), pos),
                mark ==> m0.len() > 0 && m0[0] <= pos,
                !mark ==> queued(self.marks) == m0,
                !going ==> queued(self.marks).len() == 0 || queued(self.marks)[0] > pos,
                self.spare@ == old(self)@.spare,
                self.last_report_us == old(self)@.last_report_us,
                m0 == old(self)@.marks,
            decreases
                queued(self.marks).len() + if going {
                    1nat
                } else {
                    0nat
                },
        {
            match queue_front(&self.marks) {
                Some(b) => {
                    if b <= pos {
                        let _done = queue_pop_front(&mut self.marks);
                        mark = true;
                    } else {
                        going = false;
                    }
                },
                None => {
                    going = false;
                },
            }
        }
        mark
    }

    /// The audio has been turned into rows.
    pub fn done(&mut self)
        ensures
            final(self)@ == (DrainView { spare: Seq::empty(), ..old(self)@ }),
    {
        self.spare.clear();
        assert(self@.spare =~= Seq::<i16>::empty());
    }

    /// Whether a report is due; it then counts as made.
    pub fn report_due(&mut self, now_us: i64) -> (r: bool)
        ensures
            r == (now_us - old(self)@.last_report_us >= REPORT_EVERY_US),
            final(self)@ == (DrainView {
                last_report_us: if r {
                    now_us
                } else {
                    old(self)@.last_report_us
                },
                ..old(self)@
            }),
    {
        if now_us as i128 - self.last_report_us as i128 >= REPORT_EVERY_US as i128 {
            self.last_report_us = now_us;
            true
        } else {
            false
        }
    }
}

/// The slot index that a row is pushed with: 0 for one with a rule, and 255
/// for none stated.
pub fn row_index(mark: bool) -> (r: u8)
    ensures
        r == if mark {
            0u8
        } else {
            u8::MAX
        },
{
    if mark {
        0
    } else {
        u8::MAX
    }
}

/// Every sample offered is either in the ring or counted as dropped.
pub proof fn law_nothing_is_lost_unseen(r: RingView, samples: Seq<i16>, remain: Option<u32>)
    requires
        ring_ok(r),
        r.accepted + samples.len() <= u64::MAX,
        r.dropped + samples.len() <= u32::MAX,
    ensures
        ({
            let q = offered(r, samples, remain);
            &&& (q.accepted - r.accepted) + (q.dropped - r.dropped) == samples.len()
            &&& q.buf.len() - r.buf.len() == q.accepted - r.accepted
            &&& r.buf.len() + samples.len() <= CAP ==> q.dropped == r.dropped && q.buf == r.buf
                + samples
        }),
{
    assert(samples.take(samples.len() as int) =~= samples);
}

/// Boundaries come out in the order they went in, and no more wait than
/// there is room for.
pub proof fn law_marks_stay_in_order(q: Seq<u64>, b: u64)
    requires
        q.len() <= MARKS_MAX,
        forall|i: int, j: int| 0 <= i < j < q.len() ==> q[i] <= q[j],
        forall|i: int| 0 <= i < q.len() ==> q[i] <= b,
    ensures
        queue_mark(q, b).len() <= MARKS_MAX,
        forall|i: int, j: int|
            0 <= i < j < queue_mark(q, b).len() ==> queue_mark(q, b)[i] <= queue_mark(q, b)[j],
        queue_mark(q, b).last() == b,
{
}

/// A boundary is marked once the samples up to it have come in, and not
/// before; the next one is where the clock puts it, counted from the last
/// sample taken. With no slots there is nothing to mark.
pub proof fn law_a_boundary_is_marked_once_passed(
    r: RingView,
    samples: Seq<i16>,
    remain: Option<u32>,
    b: u64,
)
    requires
        ring_ok(r),
        r.accepted + samples.len() + 0x1_0000_0000 <= u64::MAX,
        r.next_boundary == Some(b),
    ensures
        ({
            let q = offered(r, samples, remain);
            &&& r.period_ms == 0 ==> q.marks == r.marks && q.next_boundary == r.next_boundary
            &&& r.period_ms > 0 && q.accepted < b ==> q.marks == r.marks
            &&& r.period_ms > 0 && b <= q.accepted ==> q.marks.len() > 0 && q.marks.last() == b
            &&& r.period_ms > 0 && b <= q.accepted && r.marks.len() < 8 ==> q.marks
                == r.marks.push(b)
            &&& r.period_ms > 0 && remain is Some ==> q.next_boundary is Some
                && q.next_boundary->0 - q.accepted == remain->0
            &&& r.period_ms > 0 && remain is None ==> q.next_boundary is None
        }),
{
}

/// Without a boundary to come there is no new mark.
pub proof fn law_no_boundary_no_mark(r: RingView, samples: Seq<i16>, remain: Option<u32>)
    requires
        r.next_boundary is None,
    ensures
        offered(r, samples, remain).marks == r.marks,
{
}

/// What was drawn is gone and the rest waits: the boundaries left are the
/// last ones, the first of them not reached yet, and those taken out were.
pub proof fn law_drawn_marks_are_gone(marks: Seq<u64>, pos: u64)
    ensures
        ({
            let left = marks_after(marks, pos);
            &&& left.len() <= marks.len()
            &&& left == marks.skip(marks.len() - left.len())
            &&& left.len() > 0 ==> left[0] > pos
            &&& forall|i: int| 0 <= i < marks.len() - left.len() ==> #[trigger] marks[i] <= pos
        }),
    decreases marks.len(),
{
    if marks.len() > 0 && marks[0] <= pos {
        let t = marks.skip(1);
        law_drawn_marks_are_gone(t, pos);
        let left = marks_after(marks, pos);
        assert(left =~= marks.skip(marks.len() - left.len()));
        assert forall|i: int| 0 <= i < marks.len() - left.len() implies #[trigger] marks[i]
            <= pos by {
            if i > 0 {
                assert(t[i - 1] == marks[i]);
            }
        }
    } else {
        assert(marks =~= marks.skip(0));
    }
}

/// Boundaries that fit are moved over behind those that wait, all of them and
/// in order.
pub proof fn law_marks_move_over_in_order(to: Seq<u64>, from: Seq<u64>)
    requires
        to.len() + from.len() <= 8,
    ensures
        moved_marks(to, from) == to + from,
    decreases from.len(),
{
    if from.len() > 0 {
        law_marks_move_over_in_order(queue_mark(to, from[0]), from.skip(1));
        assert(to.push(from[0]) + from.skip(1) =~= to + from);
    } else {
        assert(to + from =~= to);
    }
}

}
