//! Reasons a parse can fail, each with a stable negative code.

use vstd::prelude::*;

verus! {

/// Why a file or a chunk was rejected.
///
/// Every variant carries a stable `i32` code (see [`Error::code`]) that
/// crosses the host boundary; those numbers never change.
#[allow(inconsistent_fields)]
#[derive(Debug, Clone, Copy, PartialEq, Eq)]
pub enum Error {
    /// The file is shorter than the 32-byte header.
    TooShort,
    /// The magic number is not `ZWF1`.
    BadMagic,
    /// The header CRC does not match: the bytes were damaged.
    HeaderCrcMismatch,
    /// `version_major` is above what this reader supports.
    UnsupportedVersion { major: u8, minor: u8 },
    /// `header_size` is not a known value.
    BadHeaderSize(u32),
    /// `file_size` differs from the real buffer length.
    LengthMismatch { declared: u64, actual: u64 },
    /// A chunk header or payload runs past the end of the buffer.
    TruncatedChunk,
    /// `chunk_count` differs from the number of chunks actually read.
    ChunkCountMismatch { declared: u32, actual: u32 },
    /// An unknown `codec` value on a chunk that is not skippable.
    UnknownCodec(u8),
    /// A RAW chunk whose `origin_size` differs from `stored_size`.
    SizeMismatch,
    /// Decompression (or the payload CRC check) failed.
    DecompressFailed,
    /// This build has no decompressor for the codec.
    CodecUnavailable(u8),
    /// A required chunk (`META`/`STAG`/`CHRS`/`MCLP`) is absent.
    MissingRequiredChunk(&'static str),
    /// A chunk payload is shorter than its own schema requires.
    MalformedPayload(&'static str),
}

impl Error {
    /// The stable code of each variant, as the spec function behind [`Error::code`].
    pub open spec fn spec_code(self) -> int {
        match self {
            Error::TooShort => -1,
            Error::BadMagic => -2,
            Error::HeaderCrcMismatch => -3,
            Error::UnsupportedVersion { .. } => -4,
            Error::BadHeaderSize(_) => -5,
            Error::LengthMismatch { .. } => -6,
            Error::TruncatedChunk => -7,
            Error::ChunkCountMismatch { .. } => -8,
            Error::UnknownCodec(_) => -9,
            Error::SizeMismatch => -10,
            Error::DecompressFailed => -11,
            Error::CodecUnavailable(_) => -12,
            Error::MissingRequiredChunk(_) => -13,
            Error::MalformedPayload(_) => -14,
        }
    }

    /// The code handed across the host boundary. Only negative values are
    /// used: zero and above are success values.
    pub fn code(&self) -> (c: i32)
        ensures
            c == self.spec_code(),
            -14 <= c <= -1,
    {
        match self {
            Error::TooShort => -1,
            Error::BadMagic => -2,
            Error::HeaderCrcMismatch => -3,
            Error::UnsupportedVersion { .. } => -4,
            Error::BadHeaderSize(_) => -5,
            Error::LengthMismatch { .. } => -6,
            Error::TruncatedChunk => -7,
            Error::ChunkCountMismatch { .. } => -8,
            Error::UnknownCodec(_) => -9,
            Error::SizeMismatch => -10,
            Error::DecompressFailed => -11,
            Error::CodecUnavailable(_) => -12,
            Error::MissingRequiredChunk(_) => -13,
            Error::MalformedPayload(_) => -14,
        }
    }
}

/// Distinct variants never share a code.
pub proof fn lemma_codes_identify_variants(a: Error, b: Error)
    requires
        a.spec_code() == b.spec_code(),
    ensures
        a is TooShort <==> b is TooShort,
        a is BadMagic <==> b is BadMagic,
        a is HeaderCrcMismatch <==> b is HeaderCrcMismatch,
        a is UnsupportedVersion <==> b is UnsupportedVersion,
        a is BadHeaderSize <==> b is BadHeaderSize,
        a is LengthMismatch <==> b is LengthMismatch,
        a is TruncatedChunk <==> b is TruncatedChunk,
        a is ChunkCountMismatch <==> b is ChunkCountMismatch,
        a is UnknownCodec <==> b is UnknownCodec,
        a is SizeMismatch <==> b is SizeMismatch,
        a is DecompressFailed <==> b is DecompressFailed,
        a is CodecUnavailable <==> b is CodecUnavailable,
        a is MissingRequiredChunk <==> b is MissingRequiredChunk,
        a is MalformedPayload <==> b is MalformedPayload,
{
}

} // verus!
