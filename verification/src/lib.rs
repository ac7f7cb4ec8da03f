//! A verified interpreter for a minimal eight-command tape-machine language.
//!
//! Programs are byte sequences. The parser turns source text into a nested
//! instruction tree with bracket-matched loop bodies; the evaluator walks
//! that tree against a fixed-size tape of 8-bit cells and a movable data
//! pointer, pulling characters from an input source and accumulating an
//! output byte stream. Cell arithmetic wraps modulo 256; pointer motion
//! outside the tape is a reported error, and every run carries a step
//! budget so that a non-terminating program yields a `Cancelled` outcome
//! instead of hanging.

pub mod ast;
pub mod eval;
pub mod parser;


