//! Threshold-gated parallel map: a sequence is mapped element by element,
//! and the work is split across workers only when the input is longer than a
//! threshold.

pub mod chunking;
pub mod splitter;
pub mod transform;
