//! Chunk flags (chunk header byte 5).

use vstd::prelude::*;

verus! {

/// A reader that does not know this chunk may skip it.
pub const SKIPPABLE: u8 = 1;

/// A CRC-32 of the original bytes follows the payload.
pub const HAS_CRC: u8 = 2;

} // verus!
