//! Sizes that the protocol fixes.

use vstd::prelude::*;

verus! {

/// The largest block that one request asks for, in bytes.
pub const BLOCK_SIZE: usize = 16384;

/// The length of a SHA-1 digest in bytes.
pub const PIECE_SHA1_LENGTH: usize = 20;

} // verus!
