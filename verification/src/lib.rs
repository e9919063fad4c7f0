//! Verified core of an amateur-radio digital-mode station.

pub mod alphabet;
pub mod bits;
pub mod engine;
pub mod fixed;
pub mod msg;
pub mod radix;
pub mod request;
pub mod station;
pub mod text;
pub mod uac;
pub mod ui;
