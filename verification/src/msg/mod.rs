//! Messages: callsigns, the 77-bit payload and the callsign hash table.

pub mod callsign;
pub mod hash_table;
pub mod wsjt77;
pub mod pack;
pub mod laws;
pub mod kind_laws;
