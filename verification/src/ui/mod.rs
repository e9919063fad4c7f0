//! The panel: the mode picker and the waterfall.

pub mod mode_picker;
pub mod waterfall;
pub mod waterfall_feed;
