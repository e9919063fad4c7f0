//! The capture a cold acquisition works on.
//!
//! While armed, raw 12 kHz audio is gathered until there is enough of it;
//! taking it disarms, one acquisition per arming.

use crate::uac::slot_grid::CHUNK_LEN;
use vstd::prelude::*;
use vstd::slice::slice_subrange;

verus! {

/// Audio that a cold acquisition captures: 25 s at 12 kHz.
pub const ACQUIRE_CAPTURE_SAMPLES: usize = 300_000;

/// The capture and one chunk of slack.
pub const ACQUIRE_RING_CAP: usize = ACQUIRE_CAPTURE_SAMPLES + CHUNK_LEN;

/// The capture.
pub struct Acquisition {
    armed: bool,
    ring: Vec<i16>,
    /// Samples into its slot of the first captured sample; `usize::MAX`
    /// before a capture has started.
    start_in_slot: usize,
}

pub struct AcquisitionView {
    pub armed: bool,
    pub ring: Seq<i16>,
    pub start_in_slot: usize,
}

impl View for Acquisition {
    type V = AcquisitionView;

    closed spec fn view(&self) -> AcquisitionView {
        AcquisitionView { armed: self.armed, ring: self.ring@, start_in_slot: self.start_in_slot }
    }
}

/// The capture never outgrows its room.
pub open spec fn capture_ok(a: AcquisitionView) -> bool {
    a.ring.len() <= ACQUIRE_RING_CAP
}

/// What the capture takes of a block.
pub open spec fn room_for(have: int, n: int) -> int {
    if have + n <= ACQUIRE_RING_CAP {
        n
    } else {
        ACQUIRE_RING_CAP - have
    }
}

/// The capture after a block.
pub open spec fn captured(a: AcquisitionView, samples: Seq<i16>, in_slot: usize) -> AcquisitionView {
    if a.armed {
        AcquisitionView {
            ring: a.ring + samples.take(room_for(a.ring.len() as int, samples.len() as int)),
            start_in_slot: if a.ring.len() == 0 {
                in_slot
            } else {
                a.start_in_slot
            },
            ..a
        }
    } else {
        a
    }
}

impl Acquisition {
    pub fn new() -> (r: Self)
        ensures
            r@ == (AcquisitionView {
                armed: false,
                ring: Seq::empty(),
                start_in_slot: usize::MAX,
            }),
            capture_ok(r@),
    {
        let r = Acquisition { armed: false, ring: Vec::new(), start_in_slot: usize::MAX };
        assert(r@.ring =~= Seq::<i16>::empty());
        r
    }

    /// A block of audio whose first sample is `in_slot` samples into its
    /// slot: appended while armed, as far as there is room.
    pub fn feed(&mut self, samples: &[i16], in_slot: usize)
        requires
            capture_ok(old(self)@),
        ensures
            final(self)@ == captured(old(self)@, samples@, in_slot),
            capture_ok(final(self)@),
    {
        if !self.armed {
            return;
        }
        let have: usize = self.ring.len();
        if have == 0 {
            self.start_in_slot = in_slot;
        }
        let room: usize = ACQUIRE_RING_CAP - have;
        let n: usize = if samples.len() < room {
            samples.len()
        } else {
            room
        };
        let part = slice_subrange(samples, 0, n);
        assert(part@ =~= samples@.take(n as int));
        let ghost before = self.ring@;
        self.ring.extend_from_slice(part);
        assert(self.ring@ =~= before + samples@.take(n as int));
    }
}

/// Samples into its slot of the first captured sample. `None` until a
/// capture has started.
pub fn acquisition_start_in_slot(a: &Acquisition) -> (r: Option<usize>)
    ensures
        r == if a@.start_in_slot == usize::MAX {
            None::<usize>
        } else {
            Some(a@.start_in_slot)
        },
{
    if a.start_in_slot == usize::MAX {
        None
    } else {
        Some(a.start_in_slot)
    }
}

/// Start capturing from scratch. A capture already under way is left alone.
pub fn arm_acquisition(a: &mut Acquisition)
    ensures
        final(a)@ == if old(a)@.armed {
            old(a)@
        } else {
            AcquisitionView { armed: true, ring: Seq::empty(), ..old(a)@ }
        },
        capture_ok(old(a)@) ==> capture_ok(final(a)@),
{
    if a.armed {
        return;
    }
    a.ring.clear();
    a.armed = true;
    assert(a@.ring =~= Seq::<i16>::empty());
}

/// Stop capturing and drop what was captured.
pub fn disarm_acquisition(a: &mut Acquisition)
    ensures
        final(a)@ == (AcquisitionView { armed: false, ring: Seq::empty(), ..old(a)@ }),
        capture_ok(final(a)@),
{
    a.armed = false;
    a.ring = Vec::new();
    assert(a@.ring =~= Seq::<i16>::empty());
}

/// How much of the capture is in hand while one is armed, and how much is
/// wanted. `None` when nothing is armed.
pub fn acquisition_fill(a: &Acquisition, want: usize) -> (r: Option<(usize, usize)>)
    ensures
        match r {
            Some((have, w)) => a@.armed && w == want && have == (if a@.ring.len() < want {
                a@.ring.len() as int
            } else {
                want as int
            }),
            None => !a@.armed,
        },
{
    if !a.armed {
        return None;
    }
    let n: usize = a.ring.len();
    Some(
        (
            if n < want {
                n
            } else {
                want
            },
            want,
        ),
    )
}

/// Take the captured audio once there are at least `min_samples`, leaving
/// nothing behind and disarming; `None` while it is still filling.
pub fn take_acquisition_audio(a: &mut Acquisition, min_samples: usize) -> (r: Option<Vec<i16>>)
    ensures
        match r {
            Some(v) => old(a)@.ring.len() >= min_samples && v@ == old(a)@.ring && final(a)@ == (
            AcquisitionView { armed: false, ring: Seq::empty(), ..old(a)@ }),
            None => old(a)@.ring.len() < min_samples && final(a)@ == old(a)@,
        },
{
    if a.ring.len() < min_samples {
        return None;
    }
    a.armed = false;
    let mut out: Vec<i16> = Vec::new();
    std::mem::swap(&mut out, &mut a.ring);
    assert(a@.ring =~= Seq::<i16>::empty());
    Some(out)
}

/// The capture over a run of blocks.
pub open spec fn captured_all(a: AcquisitionView, blocks: Seq<(Seq<i16>, usize)>) -> AcquisitionView
    decreases blocks.len(),
{
    if blocks.len() == 0 {
        a
    } else {
        captured(captured_all(a, blocks.drop_last()), blocks.last().0, blocks.last().1)
    }
}

/// The blocks one after the other.
pub open spec fn joined(blocks: Seq<(Seq<i16>, usize)>) -> Seq<i16>
    decreases blocks.len(),
{
    if blocks.len() == 0 {
        Seq::empty()
    } else {
        joined(blocks.drop_last()) + blocks.last().0
    }
}

/// What an armed capture holds after any run of blocks is the start of the
/// audio that came in, as much of it as fits, and its start is where the
/// first block was.
pub proof fn law_capture_is_the_first_audio(a: AcquisitionView, blocks: Seq<(Seq<i16>, usize)>)
    requires
        a.armed,
        a.ring.len() == 0,
    ensures
        ({
            let c = captured_all(a, blocks);
            let all = joined(blocks);
            &&& c.armed
            &&& c.ring == all.take(
                if all.len() <= ACQUIRE_RING_CAP {
                    all.len() as int
                } else {
                    ACQUIRE_RING_CAP as int
                },
            )
            &&& blocks.len() > 0 && blocks[0].0.len() > 0 ==> c.start_in_slot == blocks[0].1
        }),
    decreases blocks.len(),
{
    if blocks.len() > 0 {
        let b = blocks.drop_last();
        law_capture_is_the_first_audio(a, b);
        let c = captured_all(a, b);
        let before = joined(b);
        let last = blocks.last().0;
        let all = joined(blocks);
        assert(captured_all(a, blocks).ring =~= all.take(
            if all.len() <= ACQUIRE_RING_CAP {
                all.len() as int
            } else {
                ACQUIRE_RING_CAP as int
            },
        ));
        if b.len() > 0 && blocks[0].0.len() > 0 {
            assert(b[0] == blocks[0]);
            lemma_joined_keeps_the_first(b);
        }
    } else {
        assert(a.ring =~= joined(blocks).take(0));
    }
}

proof fn lemma_joined_keeps_the_first(blocks: Seq<(Seq<i16>, usize)>)
    requires
        blocks.len() > 0,
    ensures
        joined(blocks).len() >= blocks[0].0.len(),
    decreases blocks.len(),
{
    if blocks.len() > 1 {
        assert(blocks.drop_last()[0] == blocks[0]);
        lemma_joined_keeps_the_first(blocks.drop_last());
    }
}

/// A capture that is not armed takes nothing.
pub proof fn law_an_unarmed_capture_rests(a: AcquisitionView, blocks: Seq<(Seq<i16>, usize)>)
    requires
        !a.armed,
    ensures
        captured_all(a, blocks) == a,
    decreases blocks.len(),
{
    if blocks.len() > 0 {
        law_an_unarmed_capture_rests(a, blocks.drop_last());
    }
}

}
