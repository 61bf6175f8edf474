//! Decoding of the legacy LZMA stream format: a 13-byte header, then a range-coded payload that
//! ends with an end marker or at a declared length.
//!
//! The decoder works on compressed bytes held in memory. Each decoding step is proved to follow
//! a model over plain values (`reader::Model`), and reads of any length hand out the decoded
//! bytes in order.

mod consts;

mod error;
pub use error::Error;

/// Model property related functions.
pub mod properties;
pub use properties::Properties;

/// Stream decoding.
pub mod reader;
pub use reader::{Reader, Stream, read};
