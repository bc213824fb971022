//! A byte-stream run-length codec with a proved round trip, plus small
//! verified line utilities: splitting a byte stream into lines, collecting
//! them onto a persistent stack, emitting them in reverse, and filtering
//! lines by a search term.

pub mod codec;
pub mod lines;
pub mod stack;
pub mod stream;
