//! Discovery and chunk extraction for source trees.
//!
//! The library decides which files of a tree are worth indexing and turns
//! their text into chunks. It performs no input or output itself: callers
//! read files and walk directories, and hand the library what they found.

pub mod language;
pub mod markdown;
pub mod order;
pub mod processor;
pub mod text;
