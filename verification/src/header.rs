//! The fixed 32-byte file header.

pub mod flags;

use crate::crc32::{checksum, spec_checksum};
use crate::error::Error;
use crate::le::{lemma_u16_round_trip, lemma_u32_round_trip, lemma_u64_round_trip, lemma_le_lengths, push_u16, push_u32, push_u64, read_u16_at, read_u32_at, read_u64_at, u16_at, u32_at, u64_at};
use vstd::bytes::*;
use vstd::prelude::*;

verus! {

/// `"ZWF1"`.
pub const MAGIC: [u8; 4] = [0x5A, 0x57, 0x46, 0x31];

/// The current header size. It grows when the format adds header fields.
pub const HEADER_SIZE: u32 = 32;

/// The highest `version_major` this reader accepts.
pub const SUPPORTED_VERSION_MAJOR: u8 = 0;

/// The magic number as a byte sequence.
pub open spec fn magic_seq() -> Seq<u8> {
    seq![0x5Au8, 0x57u8, 0x46u8, 0x31u8]
}

/// The decoded file header.
#[derive(Debug, Clone, Copy, PartialEq, Eq, Structural)]
pub struct Header {
    pub version_major: u8,
    pub version_minor: u8,
    pub flags: u16,
    pub header_size: u32,
    pub chunk_count: u32,
    pub file_size: u64,
}

/// What reading a header from `s` gives: the checks run in the order
/// magic, CRC, version, header size, length, and the first failing one
/// decides the error. The CRC is checked before the version so that a
/// damaged byte is not reported as an unsupported version.
pub open spec fn spec_parse_header(s: Seq<u8>) -> Result<Header, Error> {
    if s.len() < 32 {
        Err(Error::TooShort)
    } else if s.subrange(0, 4) != magic_seq() {
        Err(Error::BadMagic)
    } else if spec_checksum(s.subrange(0, 28)) != u32_at(s, 28) {
        Err(Error::HeaderCrcMismatch)
    } else if s[4] > SUPPORTED_VERSION_MAJOR {
        Err(Error::UnsupportedVersion { major: s[4], minor: s[5] })
    } else if u32_at(s, 8) != HEADER_SIZE {
        Err(Error::BadHeaderSize(u32_at(s, 8)))
    } else if u64_at(s, 16) != s.len() {
        Err(Error::LengthMismatch { declared: u64_at(s, 16), actual: s.len() as u64 })
    } else {
        Ok(
            Header {
                version_major: s[4],
                version_minor: s[5],
                flags: u16_at(s, 6),
                header_size: u32_at(s, 8),
                chunk_count: u32_at(s, 12),
                file_size: u64_at(s, 16),
            },
        )
    }
}

impl Header {
    /// The first 28 bytes of the encoding: every field, reserved bytes zero.
    pub open spec fn spec_prefix(self) -> Seq<u8> {
        magic_seq() + seq![self.version_major, self.version_minor] + spec_u16_to_le_bytes(
            self.flags,
        ) + spec_u32_to_le_bytes(self.header_size) + spec_u32_to_le_bytes(self.chunk_count)
            + spec_u64_to_le_bytes(self.file_size) + seq![0u8, 0u8, 0u8, 0u8]
    }

    /// The 32-byte encoding: the prefix followed by its CRC-32.
    pub open spec fn spec_to_bytes(self) -> Seq<u8> {
        self.spec_prefix() + spec_u32_to_le_bytes(spec_checksum(self.spec_prefix()))
    }

    /// Reads the header from the front of `bytes` and checks all of it.
    pub fn parse(bytes: &[u8]) -> (r: Result<Header, Error>)
        ensures
            r == spec_parse_header(bytes@),
    {
        let len = bytes.len();
        if len < 32 {
            return Err(Error::TooShort);
        }
        if bytes[0] != MAGIC[0] || bytes[1] != MAGIC[1] || bytes[2] != MAGIC[2] || bytes[3]
            != MAGIC[3] {
            proof {
                assert(bytes@.subrange(0, 4) != magic_seq()) by {
                    if bytes@.subrange(0, 4) == magic_seq() {
                        assert(bytes@.subrange(0, 4)[0] == bytes@[0]);
                        assert(bytes@.subrange(0, 4)[1] == bytes@[1]);
                        assert(bytes@.subrange(0, 4)[2] == bytes@[2]);
                        assert(bytes@.subrange(0, 4)[3] == bytes@[3]);
                    }
                }
            }
            return Err(Error::BadMagic);
        }
        proof {
            assert(bytes@.subrange(0, 4) =~= magic_seq());
        }
        let stored_crc = read_u32_at(bytes, 28);
        if checksum(&bytes[0..28]) != stored_crc {
            return Err(Error::HeaderCrcMismatch);
        }
        let version_major = bytes[4];
        let version_minor = bytes[5];
        if version_major > SUPPORTED_VERSION_MAJOR {
            return Err(Error::UnsupportedVersion { major: version_major, minor: version_minor });
        }
        let header_size = read_u32_at(bytes, 8);
        if header_size != HEADER_SIZE {
            return Err(Error::BadHeaderSize(header_size));
        }
        let file_size = read_u64_at(bytes, 16);
        if file_size != len as u64 {
            return Err(Error::LengthMismatch { declared: file_size, actual: len as u64 });
        }
        Ok(
            Header {
                version_major,
                version_minor,
                flags: read_u16_at(bytes, 6),
                header_size,
                chunk_count: read_u32_at(bytes, 12),
                file_size,
            },
        )
    }

    /// Encodes the header into its 32 bytes; the CRC is computed here.
    pub fn to_bytes(&self) -> (out: [u8; 32])
        ensures
            out@ == self.spec_to_bytes(),
    {
        let mut v: Vec<u8> = Vec::new();
        v.push(MAGIC[0]);
        v.push(MAGIC[1]);
        v.push(MAGIC[2]);
        v.push(MAGIC[3]);
        v.push(self.version_major);
        v.push(self.version_minor);
        push_u16(&mut v, self.flags);
        push_u32(&mut v, self.header_size);
        push_u32(&mut v, self.chunk_count);
        push_u64(&mut v, self.file_size);
        v.push(0);
        v.push(0);
        v.push(0);
        v.push(0);
        proof {
            lemma_le_lengths(self.flags, self.header_size, self.file_size, 0);
            lemma_le_lengths(0, self.chunk_count, 0, 0);
            assert(v@ =~= self.spec_prefix());
        }
        let crc = checksum(v.as_slice());
        push_u32(&mut v, crc);
        proof {
            lemma_le_lengths(0, crc, 0, 0);
            assert(v@ =~= self.spec_to_bytes());
        }
        let mut out = [0u8; 32];
        let mut i: usize = 0;
        while i < 32
            invariant
                i <= 32,
                v@.len() == 32,
                forall|k: int| 0 <= k < i ==> out@[k] == v@[k],
            decreases 32 - i,
        {
            out[i] = v[i];
            i = i + 1;
        }
        proof {
            assert(out@ =~= v@);
        }
        out
    }

    /// `true` when the `SIGNED` flag is set.
    pub fn is_signed(&self) -> (b: bool)
        ensures
            b == (self.flags & flags::SIGNED != 0),
    {
        self.flags & flags::SIGNED != 0
    }

    /// `true` when the `STREAMABLE` flag is set.
    pub fn is_streamable(&self) -> (b: bool)
        ensures
            b == (self.flags & flags::STREAMABLE != 0),
    {
        self.flags & flags::STREAMABLE != 0
    }

    /// `true` when the `ATLAS_PACKED` flag is set.
    pub fn is_atlas_packed(&self) -> (b: bool)
        ensures
            b == (self.flags & flags::ATLAS_PACKED != 0),
    {
        self.flags & flags::ATLAS_PACKED != 0
    }
}

/// Reading back an encoded header, followed by the rest of a file whose
/// length the header declares, gives the same header.
pub proof fn lemma_header_round_trip(h: Header, rest: Seq<u8>)
    requires
        h.version_major <= SUPPORTED_VERSION_MAJOR,
        h.header_size == HEADER_SIZE,
        h.file_size == 32 + rest.len(),
    ensures
        spec_parse_header(h.spec_to_bytes() + rest) == Ok::<Header, Error>(h),
{
    let p = h.spec_prefix();
    let crc = spec_checksum(p);
    lemma_le_lengths(h.flags, h.header_size, h.file_size, 0);
    lemma_le_lengths(0, h.chunk_count, 0, 0);
    lemma_le_lengths(0, crc, 0, 0);
    let b = h.spec_to_bytes() + rest;
    assert(p.len() == 28);
    assert(b.subrange(0, 4) =~= magic_seq());
    assert(b.subrange(0, 28) =~= p);
    assert(b.subrange(28, 32) =~= spec_u32_to_le_bytes(crc));
    lemma_u32_round_trip(crc, b, 28);
    assert(b[4] == h.version_major);
    assert(b[5] == h.version_minor);
    assert(b.subrange(6, 8) =~= spec_u16_to_le_bytes(h.flags));
    lemma_u16_round_trip(h.flags, b, 6);
    assert(b.subrange(8, 12) =~= spec_u32_to_le_bytes(h.header_size));
    lemma_u32_round_trip(h.header_size, b, 8);
    assert(b.subrange(12, 16) =~= spec_u32_to_le_bytes(h.chunk_count));
    lemma_u32_round_trip(h.chunk_count, b, 12);
    assert(b.subrange(16, 24) =~= spec_u64_to_le_bytes(h.file_size));
    lemma_u64_round_trip(h.file_size, b, 16);
}

/// A header that parses, and whose reserved bytes are zero, is encoded
/// back into exactly the first 32 bytes it was read from.
pub proof fn lemma_header_encode_after_parse(s: Seq<u8>)
    requires
        spec_parse_header(s) is Ok,
        s.subrange(24, 28) == seq![0u8, 0u8, 0u8, 0u8],
    ensures
        spec_parse_header(s).unwrap().spec_to_bytes() == s.subrange(0, 32),
{
    let h = spec_parse_header(s).unwrap();
    lemma_auto_spec_u16_to_from_le_bytes();
    lemma_auto_spec_u32_to_from_le_bytes();
    lemma_auto_spec_u64_to_from_le_bytes();
    assert(spec_u16_to_le_bytes(h.flags) == s.subrange(6, 8));
    assert(spec_u32_to_le_bytes(h.header_size) == s.subrange(8, 12));
    assert(spec_u32_to_le_bytes(h.chunk_count) == s.subrange(12, 16));
    assert(spec_u64_to_le_bytes(h.file_size) == s.subrange(16, 24));
    assert(h.spec_prefix() =~= s.subrange(0, 28));
    assert(spec_u32_to_le_bytes(u32_at(s, 28)) == s.subrange(28, 32));
    assert(h.spec_to_bytes() =~= s.subrange(0, 32));
}


/// The header's layout, read: a header that parses starts with `"ZWF1"`,
/// carries `version_major` in byte 4 and `version_minor` in byte 5, the
/// flags as the little-endian `u16` at 6, the header size (32) as the
/// `u32` at 8, the chunk count as the `u32` at 12, and the file size (the
/// length of the whole input) as the `u64` at 16; bytes 28..32 hold the
/// CRC-32 of bytes 0..28. Anything shorter than 32 bytes is `TooShort`.
pub proof fn lemma_header_read_layout(s: Seq<u8>)
    ensures
        s.len() < 32 ==> spec_parse_header(s) == Err::<Header, Error>(Error::TooShort),
        spec_parse_header(s) matches Ok(h) ==> {
            &&& s.subrange(0, 4) == seq![0x5Au8, 0x57u8, 0x46u8, 0x31u8]
            &&& h.version_major == s[4]
            &&& h.version_minor == s[5]
            &&& h.flags == spec_u16_from_le_bytes(s.subrange(6, 8))
            &&& h.header_size == spec_u32_from_le_bytes(s.subrange(8, 12))
            &&& h.header_size == 32
            &&& h.chunk_count == spec_u32_from_le_bytes(s.subrange(12, 16))
            &&& h.file_size == spec_u64_from_le_bytes(s.subrange(16, 24))
            &&& h.file_size == s.len()
            &&& spec_checksum(s.subrange(0, 28)) == spec_u32_from_le_bytes(s.subrange(28, 32))
        },
{
}
} // verus!
