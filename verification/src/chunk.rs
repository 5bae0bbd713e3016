//! Chunks: a 16-byte header, the payload, an optional CRC, then padding.

pub mod flags;

use crate::crc32::{checksum, spec_checksum};
use crate::error::Error;
use crate::le::{lemma_le_lengths, push_u32};
use vstd::bytes::spec_u32_to_le_bytes;
use vstd::prelude::*;
use vstd::string::StringSliceAdditionalSpecFns;
use vstd::utf8::valid_utf8;

verus! {

/// Size of a chunk header.
pub const CHUNK_HEADER_SIZE: usize = 16;

/// Every chunk boundary is a multiple of this.
pub const ALIGNMENT: usize = 4;

/// A four-byte ASCII identifier, right-padded with spaces.
#[derive(Debug, Clone, Copy, PartialEq, Eq, PartialOrd, Ord, Hash)]
pub struct ChunkId(pub [u8; 4]);

impl ChunkId {
    /// `META`: metadata (required, first chunk).
    #[verifier::allow_in_spec]
    pub fn meta() -> ChunkId
        returns
            ChunkId([0x4D, 0x45, 0x54, 0x41]),
    {
        ChunkId([0x4D, 0x45, 0x54, 0x41])
    }

    /// `STAG`: the stage (required).
    #[verifier::allow_in_spec]
    pub fn stag() -> ChunkId
        returns
            ChunkId([0x53, 0x54, 0x41, 0x47]),
    {
        ChunkId([0x53, 0x54, 0x41, 0x47])
    }

    /// `SYMB`: the symbol table.
    #[verifier::allow_in_spec]
    pub fn symb() -> ChunkId
        returns
            ChunkId([0x53, 0x59, 0x4D, 0x42]),
    {
        ChunkId([0x53, 0x59, 0x4D, 0x42])
    }

    /// `CHRS`: the character index (required).
    #[verifier::allow_in_spec]
    pub fn chrs() -> ChunkId
        returns
            ChunkId([0x43, 0x48, 0x52, 0x53]),
    {
        ChunkId([0x43, 0x48, 0x52, 0x53])
    }

    /// `MCLP`: movie-clip timelines (required).
    #[verifier::allow_in_spec]
    pub fn mclp() -> ChunkId
        returns
            ChunkId([0x4D, 0x43, 0x4C, 0x50]),
    {
        ChunkId([0x4D, 0x43, 0x4C, 0x50])
    }

    /// `SHAP`: vector shapes.
    #[verifier::allow_in_spec]
    pub fn shap() -> ChunkId
        returns
            ChunkId([0x53, 0x48, 0x41, 0x50]),
    {
        ChunkId([0x53, 0x48, 0x41, 0x50])
    }

    /// `BMAP`: bitmaps.
    #[verifier::allow_in_spec]
    pub fn bmap() -> ChunkId
        returns
            ChunkId([0x42, 0x4D, 0x41, 0x50]),
    {
        ChunkId([0x42, 0x4D, 0x41, 0x50])
    }

    /// `ATLS`: the texture atlas.
    #[verifier::allow_in_spec]
    pub fn atls() -> ChunkId
        returns
            ChunkId([0x41, 0x54, 0x4C, 0x53]),
    {
        ChunkId([0x41, 0x54, 0x4C, 0x53])
    }

    /// `SNDS`: sounds.
    #[verifier::allow_in_spec]
    pub fn snds() -> ChunkId
        returns
            ChunkId([0x53, 0x4E, 0x44, 0x53]),
    {
        ChunkId([0x53, 0x4E, 0x44, 0x53])
    }

    /// `VIDS`: videos.
    #[verifier::allow_in_spec]
    pub fn vids() -> ChunkId
        returns
            ChunkId([0x56, 0x49, 0x44, 0x53]),
    {
        ChunkId([0x56, 0x49, 0x44, 0x53])
    }

    /// `SCPT`: frame scripts.
    #[verifier::allow_in_spec]
    pub fn scpt() -> ChunkId
        returns
            ChunkId([0x53, 0x43, 0x50, 0x54]),
    {
        ChunkId([0x53, 0x43, 0x50, 0x54])
    }

    /// `SIGN`: the signature (last chunk).
    #[verifier::allow_in_spec]
    pub fn sign() -> ChunkId
        returns
            ChunkId([0x53, 0x49, 0x47, 0x4E]),
    {
        ChunkId([0x53, 0x49, 0x47, 0x4E])
    }

    /// The chunks a file cannot be played without, with their names, in the
    /// order they are checked.
    pub fn required() -> (r: [(ChunkId, &'static str); 4])
        ensures
            r@[0].0 == ChunkId::meta(),
            r@[1].0 == ChunkId::stag(),
            r@[2].0 == ChunkId::chrs(),
            r@[3].0 == ChunkId::mclp(),
            r@[0].1@ == "META"@,
            r@[1].1@ == "STAG"@,
            r@[2].1@ == "CHRS"@,
            r@[3].1@ == "MCLP"@,
    {
        [
            (ChunkId::meta(), "META"),
            (ChunkId::stag(), "STAG"),
            (ChunkId::chrs(), "CHRS"),
            (ChunkId::mclp(), "MCLP"),
        ]
    }

    /// The identifier as text. Identifiers are ASCII by the format's rules;
    /// bytes that are not valid UTF-8 read as `"????"`.
    pub fn as_str(&self) -> (s: &str)
        ensures
            valid_utf8(self.0@) ==> s.spec_bytes() == self.0@,
            !valid_utf8(self.0@) ==> s@ == "????"@,
    {
        match utf8_str(self.0.as_slice()) {
            Some(s) => s,
            None => "????",
        }
    }
}

/// `true` when the two identifiers hold the same four bytes.
pub fn same_id(a: &ChunkId, b: &ChunkId) -> (r: bool)
    ensures
        r == (*a == *b),
{
    let r = a.0[0] == b.0[0] && a.0[1] == b.0[1] && a.0[2] == b.0[2] && a.0[3] == b.0[3];
    proof {
        if r {
            assert(a.0@ =~= b.0@);
            assert(a.0 =~= b.0);
        }
    }
    r
}

/// How a payload is compressed.
#[derive(Debug, Clone, Copy, PartialEq, Eq, Structural)]
pub enum Codec {
    /// Stored as is (code 0).
    Raw,
    /// RFC 1951 raw DEFLATE, without a zlib wrapper (code 1).
    Deflate,
}

/// The codec a header byte names, if any.
pub open spec fn spec_codec(value: u8) -> Option<Codec> {
    if value == 0 {
        Some(Codec::Raw)
    } else if value == 1 {
        Some(Codec::Deflate)
    } else {
        None
    }
}

impl Codec {
    /// The codec a header byte names; `None` for the reserved values.
    pub fn from_u8(value: u8) -> (r: Option<Codec>)
        ensures
            r == spec_codec(value),
    {
        match value {
            0 => Some(Codec::Raw),
            1 => Some(Codec::Deflate),
            _ => None,
        }
    }

    /// The header byte of this codec.
    #[verifier::allow_in_spec]
    pub fn to_u8(self) -> u8
        returns
            (match self {
                Codec::Raw => 0u8,
                Codec::Deflate => 1u8,
            }),
    {
        match self {
            Codec::Raw => 0,
            Codec::Deflate => 1,
        }
    }
}

/// The 16-byte header in front of every chunk.
#[derive(Debug, Clone, Copy, PartialEq, Eq)]
pub struct ChunkHeader {
    pub id: ChunkId,
    pub codec: u8,
    pub flags: u8,
    pub stored_size: u32,
    pub origin_size: u32,
}

impl ChunkHeader {
    /// The `HAS_CRC` flag.
    pub open spec fn spec_has_crc(self) -> bool {
        self.flags & flags::HAS_CRC != 0
    }

    /// The 16 bytes of this header, reserved bytes zero.
    pub open spec fn spec_to_bytes(self) -> Seq<u8> {
        self.id.0@ + seq![self.codec, self.flags, 0u8, 0u8] + spec_u32_to_le_bytes(
            self.stored_size,
        ) + spec_u32_to_le_bytes(self.origin_size)
    }

    /// `true` when a CRC-32 follows the payload.
    pub fn has_crc(&self) -> (b: bool)
        ensures
            b == self.spec_has_crc(),
    {
        self.flags & flags::HAS_CRC != 0
    }

    /// `true` when a reader that does not know the chunk may skip it.
    pub fn is_skippable(&self) -> (b: bool)
        ensures
            b == (self.flags & flags::SKIPPABLE != 0),
    {
        self.flags & flags::SKIPPABLE != 0
    }

    /// Encodes the header into its 16 bytes.
    pub fn to_bytes(&self) -> (out: [u8; 16])
        ensures
            out@ == self.spec_to_bytes(),
    {
        let mut v: Vec<u8> = Vec::new();
        v.push(self.id.0[0]);
        v.push(self.id.0[1]);
        v.push(self.id.0[2]);
        v.push(self.id.0[3]);
        v.push(self.codec);
        v.push(self.flags);
        v.push(0);
        v.push(0);
        push_u32(&mut v, self.stored_size);
        push_u32(&mut v, self.origin_size);
        proof {
            lemma_le_lengths(0, self.stored_size, 0, 0);
            lemma_le_lengths(0, self.origin_size, 0, 0);
            assert(v@ =~= self.spec_to_bytes());
        }
        let mut out = [0u8; 16];
        let mut i: usize = 0;
        while i < 16
            invariant
                i <= 16,
                v@.len() == 16,
                forall|k: int| 0 <= k < i ==> out@[k] == v@[k],
            decreases 16 - i,
        {
            out[i] = v[i];
            i = i + 1;
        }
        proof {
            assert(out@ =~= v@);
        }
        out
    }
}

/// One chunk located in a file. The stored bytes are borrowed from the
/// file, not copied.
#[derive(Debug, Clone, Copy)]
pub struct Chunk<'a> {
    pub header: ChunkHeader,
    /// The bytes as stored (possibly compressed).
    pub stored: &'a [u8],
    /// Offset of this chunk's header from the start of the file.
    pub offset: usize,
    /// The CRC-32 that followed the payload when `HAS_CRC` is set.
    pub crc: Option<u32>,
}

/// What decompressing `input` (raw DEFLATE, output limited to `limit`
/// bytes) gives: `None` when the data is invalid or does not fit.
pub uninterp spec fn spec_inflate(input: Seq<u8>, limit: nat) -> Option<Seq<u8>>;

/// `miniz_oxide::inflate::decompress_to_vec_with_limit`: decompresses raw
/// DEFLATE data, giving up when the output would exceed `limit` bytes.
/// What it gives is named `spec_inflate`; its source shows that a result
/// never exceeds the limit.
#[verifier::external_body]
fn decompress_with_limit(input: &[u8], limit: usize) -> (r: Option<Vec<u8>>)
    ensures
        r is Some <==> spec_inflate(input@, limit as nat) is Some,
        r matches Some(v) ==> Some(v@) == spec_inflate(input@, limit as nat),
        r matches Some(v) ==> v@.len() <= limit,
{
    miniz_oxide::inflate::decompress_to_vec_with_limit(input, limit).ok()
}

/// What inflating a DEFLATE payload gives: the decompressed bytes when
/// the data is valid and decompresses to exactly `origin_size` bytes,
/// otherwise `DecompressFailed`.
pub open spec fn spec_inflate_payload(input: Seq<u8>, origin_size: u32) -> Result<Seq<u8>, Error> {
    match spec_inflate(input, origin_size as nat) {
        Some(d) => if d.len() == origin_size {
            Ok(d)
        } else {
            Err(Error::DecompressFailed)
        },
        None => Err(Error::DecompressFailed),
    }
}

/// Inflates a DEFLATE payload whose original size is `origin_size`.
fn inflate(input: &[u8], origin_size: usize) -> (r: Result<Vec<u8>, Error>)
    requires
        origin_size <= u32::MAX,
    ensures
        r matches Ok(v) ==> Ok::<Seq<u8>, Error>(v@) == spec_inflate_payload(input@, origin_size as u32),
        r matches Err(e) ==> Err::<Seq<u8>, Error>(e) == spec_inflate_payload(input@, origin_size as u32),
{
    match decompress_with_limit(input, origin_size) {
        Some(v) => {
            if v.len() != origin_size {
                return Err(Error::DecompressFailed);
            }
            Ok(v)
        },
        None => Err(Error::DecompressFailed),
    }
}

/// A decoded payload. A RAW chunk lends its stored bytes, which stay in
/// the file; only a DEFLATE chunk owns the bytes it was inflated to.
#[derive(Debug, Clone, PartialEq, Eq)]
pub enum Payload<'a> {
    /// The stored bytes of a RAW chunk, not copied.
    Borrowed(&'a [u8]),
    /// The bytes a DEFLATE chunk was inflated to.
    Owned(Vec<u8>),
}

impl<'a> View for Payload<'a> {
    type V = Seq<u8>;

    open spec fn view(&self) -> Seq<u8> {
        match self {
            Payload::Borrowed(s) => s@,
            Payload::Owned(v) => v@,
        }
    }
}

impl<'a> Payload<'a> {
    /// The payload bytes.
    pub fn as_slice(&self) -> (s: &[u8])
        ensures
            s@ == self@,
    {
        match self {
            Payload::Borrowed(s) => s,
            Payload::Owned(v) => v.as_slice(),
        }
    }
}

/// The view of a decoded payload result.
pub open spec fn result_view(r: Result<Payload, Error>) -> Result<Seq<u8>, Error> {
    match r {
        Ok(p) => Ok(p@),
        Err(e) => Err(e),
    }
}

/// What the CRC check of a decoded payload gives: the data itself, or
/// an error when the chunk carries a CRC that is missing or differs.
pub open spec fn spec_check_crc(header: ChunkHeader, crc: Option<u32>, data: Seq<u8>) -> Result<Seq<u8>, Error> {
    if header.spec_has_crc() {
        match crc {
            None => Err(Error::TruncatedChunk),
            Some(expected) => if spec_checksum(data) != expected {
                Err(Error::DecompressFailed)
            } else {
                Ok(data)
            },
        }
    } else {
        Ok(data)
    }
}

/// What decoding a chunk's payload gives, from its header, the CRC that
/// followed it and its stored bytes, for a given result of decompression
/// (`inflated`, used only when the codec is DEFLATE).
pub open spec fn spec_payload_with(header: ChunkHeader, crc: Option<u32>, stored: Seq<u8>, inflated: Result<Seq<u8>, Error>) -> Result<Seq<u8>, Error> {
    match spec_codec(header.codec) {
        None => Err(Error::UnknownCodec(header.codec)),
        Some(Codec::Raw) => if header.origin_size != header.stored_size {
            Err(Error::SizeMismatch)
        } else {
            spec_check_crc(header, crc, stored)
        },
        Some(Codec::Deflate) => match inflated {
            Err(e) => Err(e),
            Ok(d) => spec_check_crc(header, crc, d),
        },
    }
}

/// What decoding a chunk's payload gives, from its header, the CRC that
/// followed it and its stored bytes.
pub open spec fn spec_decode_payload(header: ChunkHeader, crc: Option<u32>, stored: Seq<u8>) -> Result<Seq<u8>, Error> {
    spec_payload_with(header, crc, stored, spec_inflate_payload(stored, header.origin_size))
}

/// What [`Chunk::payload`] gives.
pub open spec fn spec_payload(c: Chunk) -> Result<Seq<u8>, Error> {
    spec_decode_payload(c.header, c.crc, c.stored@)
}

impl<'a> Chunk<'a> {
    /// The chunk identifier.
    pub fn id(&self) -> (id: ChunkId)
        ensures
            id == self.header.id,
    {
        self.header.id
    }

    /// Checks a decoded payload against the chunk's CRC, when the chunk
    /// carries one.
    pub fn check_crc(&self, data: &[u8]) -> (r: Result<(), Error>)
        ensures
            match spec_check_crc(self.header, self.crc, data@) {
                Ok(_) => r is Ok,
                Err(e) => r == Err::<(), Error>(e),
            },
    {
        if self.header.has_crc() {
            let expected = match self.trailing_crc() {
                Some(c) => c,
                None => {
                    return Err(Error::TruncatedChunk);
                },
            };
            if checksum(data) != expected {
                return Err(Error::DecompressFailed);
            }
        }
        Ok(())
    }

    /// The usable payload: a RAW chunk lends its stored bytes (no copy),
    /// a DEFLATE chunk is decompressed. With `HAS_CRC` the CRC is checked
    /// against the decoded bytes.
    pub fn payload(&self) -> (r: Result<Payload<'a>, Error>)
        ensures
            result_view(r) == spec_payload(*self),
            spec_codec(self.header.codec) == Some(Codec::Raw) ==> (r matches Ok(p) ==> p == Payload::Borrowed(self.stored)),
    {
        let data: Payload<'a> = match Codec::from_u8(self.header.codec) {
            None => {
                return Err(Error::UnknownCodec(self.header.codec));
            },
            Some(Codec::Raw) => {
                if self.header.origin_size != self.header.stored_size {
                    return Err(Error::SizeMismatch);
                }
                Payload::Borrowed(self.stored)
            },
            Some(Codec::Deflate) => {
                match inflate(self.stored, self.header.origin_size as usize) {
                    Ok(d) => Payload::Owned(d),
                    Err(e) => {
                        return Err(e);
                    },
                }
            },
        };
        match self.check_crc(data.as_slice()) {
            Ok(()) => Ok(data),
            Err(e) => Err(e),
        }
    }

    /// The CRC that followed the payload, when there was one.
    fn trailing_crc(&self) -> (c: Option<u32>)
        ensures
            c == self.crc,
    {
        self.crc
    }
}

/// `value` rounded up to a multiple of four.
pub open spec fn spec_align_up(value: int) -> int {
    ((value + 3) / 4) * 4
}

/// Rounds `value` up to the next multiple of four (the alignment of every
/// chunk boundary).
pub fn align_up(value: usize) -> (r: usize)
    requires
        value + 3 <= usize::MAX,
    ensures
        r == spec_align_up(value as int),
        r % 4 == 0,
        value <= r < value + 4,
{
    (value + 3) / 4 * 4
}

/// Decodes `bytes` as UTF-8 (`core::str::from_utf8`).
#[verifier::external_body]
fn utf8_str(bytes: &[u8]) -> (r: Option<&str>)
    ensures
        r is Some <==> valid_utf8(bytes@),
        r matches Some(s) ==> s.spec_bytes() == bytes@,
{
    core::str::from_utf8(bytes).ok()
}

} // verus!
