//! Hash-based stateful signatures (generalized XMSS) over BLAKE3.

use vstd::prelude::*;

pub mod cli;
pub mod decimal;
pub mod inc_encoding;
pub mod primitives;
pub mod serialization;
pub mod signature;
pub mod symmetric;

verus! {

/// Message length in bytes, for messages that we want to sign.
pub const MESSAGE_LENGTH: usize = 32;

/// Size in bytes of BLAKE3 digests, public salts, PRF keys, and signing randomness.
pub const HASH_LENGTH: usize = 32;

} // verus!
