//! Word-frequency counting with a small theme-aware application state.
//!
//! The library normalizes a piece of text (case-folding ASCII capitals and
//! stripping a fixed punctuation set), splits it into whitespace-separated
//! words, and tallies how often each word occurs.  A state record with a
//! pure update function ties the counter to a theme selection, ready to be
//! driven by any event loop.

pub mod normalize;
pub mod state;
pub mod tally;
pub mod tokenize;
