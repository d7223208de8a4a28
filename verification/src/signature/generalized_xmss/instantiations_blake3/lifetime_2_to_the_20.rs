//! Instantiations with lifetime 2^20.

/// Target-sum incomparable encodings.
pub mod target_sum;
