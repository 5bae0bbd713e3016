//! File flags (header bytes 6..8).

use vstd::prelude::*;

verus! {

/// A `SIGN` chunk is present, as the last chunk.
pub const SIGNED: u16 = 1;

/// Chunks are ordered by dependency, so the file can be parsed while streaming.
pub const STREAMABLE: u16 = 2;

/// Bitmaps are merged into an `ATLS` texture atlas.
pub const ATLAS_PACKED: u16 = 4;

} // verus!
