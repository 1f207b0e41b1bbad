//! Tailing a byte source by lines and following it as it grows.
//!
//! The crate holds the two decisions of a log tailer: where the last `n` lines of a
//! source start, found by walking back from its end, and what to print when the
//! followed file has changed size. Reading, seeking, watching and printing are the
//! caller's part; the crate takes and returns plain values.

pub mod buffered;
pub mod error;
pub mod follow;
pub mod lines;
pub mod locate;
pub mod options;
pub mod sieve;
pub mod source;
pub mod tail;
pub mod text;
