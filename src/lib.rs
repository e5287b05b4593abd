//! Short, sortable keys for fractional positions strictly between 0 and 1.
//!
//! A key is a string of base-79 digits read after an implicit leading `0.`,
//! written with the 79 printable ASCII characters from `+` to `y`. Keys compare
//! as strings in the same order as the values they stand for, so a new key can
//! always be made strictly between two neighbours without renumbering the rest.
pub mod digits;
pub mod engine;
pub mod codec;
pub mod key;

pub use key::{Base79, ParseError};
