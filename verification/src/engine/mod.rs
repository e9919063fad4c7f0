//! The modem's frame: symbols, tones, and the search for them.

pub mod fine_sync;
pub mod gray;
pub mod search;
pub mod sweep;
pub mod sync2d;
pub mod tx;
pub mod waveform;
