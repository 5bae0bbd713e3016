//! The `BMAP` chunk: bitmap bodies. The encoded image bytes are stored as
//! they are; decoding them is the host's job.

use crate::error::Error;
use crate::le::{
    body_window, lemma_u32_round_trip, lemma_u32x4_round_trip, push_u32, push_u32x4, read_u32_at,
    read_u32x4_at, spec_body_window, u32_at, u32x4_at, u32x4_le,
};
use vstd::bytes::{lemma_auto_spec_u32_to_from_le_bytes, spec_u32_from_le_bytes, spec_u32_to_le_bytes};
use vstd::prelude::*;
use vstd::slice::slice_to_vec;

verus! {

/// How the image bytes are encoded.
#[derive(Debug, Clone, Copy, PartialEq, Eq, Structural)]
pub enum BitmapEncoding {
    /// Code 0: raw RGBA, eight bits per channel.
    RawRgba8,
    /// Code 1.
    Png,
    /// Code 2.
    Webp,
    /// Code 3.
    Avif,
}

/// The encoding a byte names, if any.
pub open spec fn spec_bitmap_encoding(value: u8) -> Option<BitmapEncoding> {
    if value == 0 {
        Some(BitmapEncoding::RawRgba8)
    } else if value == 1 {
        Some(BitmapEncoding::Png)
    } else if value == 2 {
        Some(BitmapEncoding::Webp)
    } else if value == 3 {
        Some(BitmapEncoding::Avif)
    } else {
        None
    }
}

impl BitmapEncoding {
    /// The encoding a byte names; `None` for unknown values.
    pub fn from_u8(value: u8) -> (r: Option<BitmapEncoding>)
        ensures
            r == spec_bitmap_encoding(value),
    {
        match value {
            0 => Some(BitmapEncoding::RawRgba8),
            1 => Some(BitmapEncoding::Png),
            2 => Some(BitmapEncoding::Webp),
            3 => Some(BitmapEncoding::Avif),
            _ => None,
        }
    }

    /// The byte of this encoding.
    #[verifier::allow_in_spec]
    pub fn to_u8(self) -> u8
        returns
            (match self {
                BitmapEncoding::RawRgba8 => 0u8,
                BitmapEncoding::Png => 1u8,
                BitmapEncoding::Webp => 2u8,
                BitmapEncoding::Avif => 3u8,
            }),
    {
        match self {
            BitmapEncoding::RawRgba8 => 0,
            BitmapEncoding::Png => 1,
            BitmapEncoding::Webp => 2,
            BitmapEncoding::Avif => 3,
        }
    }
}

/// A bitmap body.
#[derive(Debug, Clone, PartialEq, Eq)]
pub struct BitmapBody {
    /// `x_min, x_max, y_min, y_max`, each the bits of an `f32`.
    pub bounds: [u32; 4],
    pub encoding: BitmapEncoding,
    pub data: Vec<u8>,
}

/// The fields of a bitmap body, as plain values.
pub struct BitmapView {
    pub bounds: [u32; 4],
    pub encoding: BitmapEncoding,
    pub data: Seq<u8>,
}

impl View for BitmapBody {
    type V = BitmapView;

    open spec fn view(&self) -> BitmapView {
        BitmapView { bounds: self.bounds, encoding: self.encoding, data: self.data@ }
    }
}

/// Size of the fixed part of a bitmap body.
pub const BITMAP_HEADER_SIZE: usize = 24;

/// What parsing a bitmap body gives: bounds, encoding byte (then three
/// pad bytes), the data length, then the data. Bytes after the data are
/// ignored.
pub open spec fn spec_parse_bitmap(s: Seq<u8>) -> Result<BitmapView, Error> {
    if s.len() < 24 {
        Err(Error::MalformedPayload("BMAP"))
    } else if spec_bitmap_encoding(s[16]) is None {
        Err(Error::MalformedPayload("BMAP"))
    } else if 24 + u32_at(s, 20) > s.len() {
        Err(Error::MalformedPayload("BMAP"))
    } else {
        Ok(
            BitmapView {
                bounds: u32x4_at(s, 0),
                encoding: spec_bitmap_encoding(s[16]).unwrap(),
                data: s.subrange(24, 24 + u32_at(s, 20)),
            },
        )
    }
}

/// The encoding of a bitmap body.
pub open spec fn spec_bitmap_bytes(b: BitmapView) -> Seq<u8> {
    u32x4_le(b.bounds) + seq![b.encoding.to_u8(), 0u8, 0u8, 0u8] + spec_u32_to_le_bytes(
        b.data.len() as u32,
    ) + b.data
}

/// What parsing the body that `offset`/`size` locate inside a `BMAP`
/// payload gives.
pub open spec fn spec_parse_bitmap_at(s: Seq<u8>, offset: u32, size: u32) -> Result<BitmapView, Error> {
    match spec_body_window(s, offset, size) {
        None => Err(Error::MalformedPayload("BMAP")),
        Some(w) => spec_parse_bitmap(w),
    }
}

/// The view of a parse result.
pub open spec fn bitmap_result_view(r: Result<BitmapBody, Error>) -> Result<BitmapView, Error> {
    match r {
        Ok(b) => Ok(b@),
        Err(e) => Err(e),
    }
}

impl BitmapBody {
    /// Reads a bitmap body.
    pub fn parse(payload: &[u8]) -> (r: Result<BitmapBody, Error>)
        ensures
            bitmap_result_view(r) == spec_parse_bitmap(payload@),
    {
        let len = payload.len();
        if len < BITMAP_HEADER_SIZE {
            return Err(Error::MalformedPayload("BMAP"));
        }
        let bounds = read_u32x4_at(payload, 0);
        let encoding = match BitmapEncoding::from_u8(payload[16]) {
            Some(e) => e,
            None => {
                return Err(Error::MalformedPayload("BMAP"));
            },
        };
        let byte_len = read_u32_at(payload, 20) as usize;
        if byte_len > len - BITMAP_HEADER_SIZE {
            return Err(Error::MalformedPayload("BMAP"));
        }
        let data = slice_to_vec(&payload[BITMAP_HEADER_SIZE..BITMAP_HEADER_SIZE + byte_len]);
        Ok(BitmapBody { bounds, encoding, data })
    }

    /// Encodes the body. The data length is written cut to 32 bits.
    pub fn to_bytes(&self) -> (out: Vec<u8>)
        ensures
            out@ == spec_bitmap_bytes(self@),
    {
        let mut out: Vec<u8> = Vec::new();
        push_u32x4(&mut out, &self.bounds);
        out.push(self.encoding.to_u8());
        out.push(0);
        out.push(0);
        out.push(0);
        push_u32(&mut out, self.data.len() as u32);
        out.extend_from_slice(self.data.as_slice());
        proof {
            assert(out@ =~= spec_bitmap_bytes(self@));
        }
        out
    }

    /// Reads the body that `body_offset`/`body_size` locate inside a
    /// whole `BMAP` payload.
    pub fn parse_at(bmap_payload: &[u8], body_offset: u32, body_size: u32) -> (r: Result<BitmapBody, Error>)
        ensures
            bitmap_result_view(r) == spec_parse_bitmap_at(bmap_payload@, body_offset, body_size),
    {
        match body_window(bmap_payload, body_offset, body_size) {
            None => Err(Error::MalformedPayload("BMAP")),
            Some(w) => BitmapBody::parse(w),
        }
    }
}

/// An encoded bitmap body parses back to the same body.
pub proof fn lemma_bitmap_round_trip(b: BitmapView)
    requires
        b.data.len() <= u32::MAX,
    ensures
        spec_parse_bitmap(spec_bitmap_bytes(b)) == Ok::<BitmapView, Error>(b),
{
    lemma_auto_spec_u32_to_from_le_bytes();
    let s = spec_bitmap_bytes(b);
    let n = b.data.len() as u32;
    let h = u32x4_le(b.bounds);
    assert(h.len() == 16);
    assert(s.subrange(0, 16) =~= h);
    lemma_u32x4_round_trip(b.bounds, s, 0);
    assert(s[16] == b.encoding.to_u8());
    assert(s.subrange(20, 24) =~= spec_u32_to_le_bytes(n));
    lemma_u32_round_trip(n, s, 20);
    assert(s.subrange(24, 24 + n) =~= b.data);
}


/// A bitmap body's layout, read: the bounds are the four little-endian
/// `u32`s at 0, 4, 8, 12; byte 16 holds the encoding (0 raw RGBA, 1 PNG,
/// 2 WebP, 3 AVIF); the data length is the `u32` at 20 and the data
/// follows at 24.
pub proof fn lemma_bitmap_read_layout(s: Seq<u8>)
    ensures
        spec_parse_bitmap(s) matches Ok(b) ==> {
            &&& b.bounds[0] == spec_u32_from_le_bytes(s.subrange(0, 4))
            &&& b.bounds[1] == spec_u32_from_le_bytes(s.subrange(4, 8))
            &&& b.bounds[2] == spec_u32_from_le_bytes(s.subrange(8, 12))
            &&& b.bounds[3] == spec_u32_from_le_bytes(s.subrange(12, 16))
            &&& (b.encoding == BitmapEncoding::RawRgba8 <==> s[16] == 0)
            &&& (b.encoding == BitmapEncoding::Png <==> s[16] == 1)
            &&& (b.encoding == BitmapEncoding::Webp <==> s[16] == 2)
            &&& (b.encoding == BitmapEncoding::Avif <==> s[16] == 3)
            &&& b.data == s.subrange(24, 24 + spec_u32_from_le_bytes(s.subrange(20, 24)))
        },
{
}
} // verus!
