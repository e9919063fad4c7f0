//! The station around the modem: radio control, logging, operating.

pub mod activator;
pub mod activator_laws;
pub mod contact_laws;
pub mod adif;
pub mod all_txt;
pub mod civ_frame;
pub mod civil_time;
pub mod freq_presets;
pub mod grid_state;
pub mod megahertz;
pub mod prefs;
