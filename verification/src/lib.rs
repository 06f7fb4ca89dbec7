//! Censors the fractional digits of a decimal expansion such as the digits
//! of pi: every digit that is strictly smaller than the digit before it is
//! replaced by a marker byte, and the number of replacements is reported.
//!
//! Two strategies implement the same contract: a materializing one that
//! builds the whole censored suffix before writing, and a bounded-memory one
//! that censors fixed-size chunks in a reusable buffer. Both write through an
//! abstract byte sink and are proved to produce identical output.

pub mod censor;
pub mod input;
pub mod rule;
pub mod sink;
