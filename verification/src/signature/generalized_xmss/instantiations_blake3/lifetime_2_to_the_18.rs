//! Instantiations with lifetime 2^18.

/// Target-sum incomparable encodings.
pub mod target_sum;
