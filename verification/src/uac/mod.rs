//! The USB audio link: capture from the radio, the slot grid it is cut on,
//! and the probe of the way out.

pub mod acquisition;
pub mod descriptor;
pub mod host;
pub mod reader;
pub mod sim;
pub mod sink;
pub mod slot_grid;
pub mod stream;
pub mod stream_laws;
pub mod tx;
