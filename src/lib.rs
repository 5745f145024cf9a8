//! Reading and writing MicroDVD (`.sub`) subtitle files.
//!
//! A physical line such as `{0}{25}{Y:i}Hello|{y:b}World` holds one or more
//! timed sub-lines sharing the frame range `0..25`. Parsing splits it into
//! sub-lines with their formatting tags; writing regroups sub-lines with the
//! same frame range and hoists the tags they all share.
pub mod tags;
pub mod frames;
pub mod line;
pub mod grammar;
pub mod document;
pub mod canon;
pub mod laws;

pub use document::{MdvdFile, MdvdError, SubtitleEntry, DEFAULT_FPS};
