//! Reader, validator and timeline evaluator for the ZWF1 container format.
//!
//! The format layer (`header`, `chunk`, `reader` and the per-chunk body
//! modules) turns bytes into typed values and back. The runtime layer
//! (`registry`, `timeline`, `abi`) keeps opened files in handle slots and
//! evaluates movie-clip frames into render lists.
//!
//! Every `f32` field of the format is carried here as its IEEE-754 bit
//! pattern (`u32`): the library only moves those bits, it never computes
//! with them.

pub mod abi;
pub mod bmap;
pub mod chrs;
pub mod chunk;
pub mod crc32;
pub mod le;
pub mod mclip;
pub mod reader;
pub mod registry;
pub mod shap;
pub mod stage;
pub mod timeline;
pub mod vids;
pub mod error;
pub mod header;

pub use bmap::{BitmapBody, BitmapEncoding};
pub use chrs::{CharacterEntry, CharacterKind, Characters};
pub use chunk::{Chunk, ChunkHeader, ChunkId, Codec, Payload};
pub use error::Error;
pub use header::Header;
pub use mclip::{DictionaryEntry, MovieClipBody, PlaceObject};
pub use reader::{Archive, ArchiveWriter, ChunkReader};
pub use shap::ShapeBody;
pub use stage::Stage;
pub use vids::{VideoBody, VideoEncoding};

use vstd::prelude::*;

verus! {

/// Major version of the ZWF1 format this library reads and writes.
pub const SPEC_VERSION_MAJOR: u8 = 0;

/// Minor version of the ZWF1 format this library reads and writes.
pub const SPEC_VERSION_MINOR: u8 = 1;

} // verus!
