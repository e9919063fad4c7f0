//! Who takes the audio.

use vstd::prelude::*;

verus! {

/// Takes freshly resampled 12 kHz mono audio, one read's worth at a time.
pub trait AudioSink {
    fn push_samples(&mut self, samples_12k_mono: &[i16]);
}

/// The place of the sink. Audio is dropped until there is one.
pub struct SinkSlot<S> {
    pub sink: Option<S>,
}

impl<S: AudioSink> SinkSlot<S> {
    pub fn new() -> (r: Self)
        ensures
            r.sink is None,
    {
        SinkSlot { sink: None }
    }
}

/// Register the sink, in the place of any earlier one.
pub fn set_audio_sink<S: AudioSink>(slot: &mut SinkSlot<S>, sink: S)
    ensures
        final(slot).sink == Some(sink),
{
    slot.sink = Some(sink);
}

}
