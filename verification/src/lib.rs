//! Block signatures for delta transfer: a rolling window checksum with
//! verified algebraic sliding operations, and a signature generator that
//! chunks an input into fixed-size blocks and serializes one weak and one
//! truncated strong digest per block behind a fixed binary header.

use vstd::prelude::*;

pub mod mksum;
pub mod rollsum;

verus! {

/// Default number of bytes per signature block.
pub const DEFAULT_BLOCK_LEN: u32 = 2048;

} // verus!
