//! A terminal's output pipeline: the bytes a shell writes to a
//! pseudo-terminal are queued, then parsed into runs of styled text.
pub mod format;
pub mod parser;
pub mod buffer;
pub mod palette;
