//! References to entries, and views into entries.
pub mod entry;
pub mod multiple;
pub mod one;
