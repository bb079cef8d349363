//! Flattening and structural comparison of hierarchical key-value documents
//! (such as localization files), with rename detection by value equality.
pub mod value;
pub mod flat_map;
pub mod flatten;
pub mod diff;
pub mod order;
pub mod align;
pub mod listing;
pub mod paths;
