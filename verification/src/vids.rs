//! The `VIDS` chunk: video bodies. The container bytes are stored as they
//! are; decoding is left to the platform.
//!
//! Layout of a body:
//!
//! ```text
//! f32 x_min, x_max, y_min, y_max
//! f32 volume
//! u8  flags         // bit0 = loop, bit1 = auto_play
//! u8  encoding      // 0 = MP4, 1 = WEBM, 2 = OGG
//! u8  pad[2]
//! u32 byte_len
//! u8[byte_len] data
//! ```

use crate::error::Error;
use crate::le::{
    body_window, lemma_u32_round_trip, lemma_u32x4_round_trip, push_u32, push_u32x4, read_u32_at,
    read_u32x4_at, spec_body_window, u32_at, u32x4_at, u32x4_le,
};
use vstd::bytes::{lemma_auto_spec_u32_to_from_le_bytes, spec_u32_from_le_bytes, spec_u32_to_le_bytes};
use vstd::prelude::*;
use vstd::slice::slice_to_vec;

verus! {

/// Flag bit: play in a loop.
pub const FLAG_LOOP: u8 = 1;

/// Flag bit: start playing on its own.
pub const FLAG_AUTO_PLAY: u8 = 2;

/// The video container format.
#[derive(Debug, Clone, Copy, PartialEq, Eq, Structural)]
pub enum VideoEncoding {
    /// Code 0.
    Mp4,
    /// Code 1.
    Webm,
    /// Code 2.
    Ogg,
}

/// The encoding a byte names, if any.
pub open spec fn spec_video_encoding(value: u8) -> Option<VideoEncoding> {
    if value == 0 {
        Some(VideoEncoding::Mp4)
    } else if value == 1 {
        Some(VideoEncoding::Webm)
    } else if value == 2 {
        Some(VideoEncoding::Ogg)
    } else {
        None
    }
}

impl VideoEncoding {
    /// The encoding a byte names; `None` for unknown values.
    pub fn from_u8(value: u8) -> (r: Option<VideoEncoding>)
        ensures
            r == spec_video_encoding(value),
    {
        match value {
            0 => Some(VideoEncoding::Mp4),
            1 => Some(VideoEncoding::Webm),
            2 => Some(VideoEncoding::Ogg),
            _ => None,
        }
    }

    /// The byte of this encoding.
    #[verifier::allow_in_spec]
    pub fn to_u8(self) -> u8
        returns
            (match self {
                VideoEncoding::Mp4 => 0u8,
                VideoEncoding::Webm => 1u8,
                VideoEncoding::Ogg => 2u8,
            }),
    {
        match self {
            VideoEncoding::Mp4 => 0,
            VideoEncoding::Webm => 1,
            VideoEncoding::Ogg => 2,
        }
    }
}

/// A video body.
#[derive(Debug, Clone, PartialEq, Eq)]
pub struct VideoBody {
    /// `x_min, x_max, y_min, y_max`, each the bits of an `f32`.
    pub bounds: [u32; 4],
    /// The volume, as the bits of an `f32`.
    pub volume_bits: u32,
    pub loop_playback: bool,
    pub auto_play: bool,
    pub encoding: VideoEncoding,
    pub data: Vec<u8>,
}

/// The fields of a video body, as plain values.
pub struct VideoView {
    pub bounds: [u32; 4],
    pub volume_bits: u32,
    pub loop_playback: bool,
    pub auto_play: bool,
    pub encoding: VideoEncoding,
    pub data: Seq<u8>,
}

impl View for VideoBody {
    type V = VideoView;

    open spec fn view(&self) -> VideoView {
        VideoView {
            bounds: self.bounds,
            volume_bits: self.volume_bits,
            loop_playback: self.loop_playback,
            auto_play: self.auto_play,
            encoding: self.encoding,
            data: self.data@,
        }
    }
}

/// Size of the fixed part of a video body.
pub const VIDEO_HEADER_SIZE: usize = 28;

/// What parsing a video body gives. Bytes after the data are ignored.
pub open spec fn spec_parse_video(s: Seq<u8>) -> Result<VideoView, Error> {
    if s.len() < 28 {
        Err(Error::MalformedPayload("VIDS"))
    } else if spec_video_encoding(s[21]) is None {
        Err(Error::MalformedPayload("VIDS"))
    } else if 28 + u32_at(s, 24) > s.len() {
        Err(Error::MalformedPayload("VIDS"))
    } else {
        Ok(
            VideoView {
                bounds: u32x4_at(s, 0),
                volume_bits: u32_at(s, 16),
                loop_playback: s[20] & FLAG_LOOP != 0,
                auto_play: s[20] & FLAG_AUTO_PLAY != 0,
                encoding: spec_video_encoding(s[21]).unwrap(),
                data: s.subrange(28, 28 + u32_at(s, 24)),
            },
        )
    }
}

/// The flags byte of a video body.
pub open spec fn spec_video_flags(v: VideoView) -> u8 {
    (if v.loop_playback {
        FLAG_LOOP
    } else {
        0u8
    }) | (if v.auto_play {
        FLAG_AUTO_PLAY
    } else {
        0u8
    })
}

/// The encoding of a video body.
pub open spec fn spec_video_bytes(v: VideoView) -> Seq<u8> {
    u32x4_le(v.bounds) + spec_u32_to_le_bytes(v.volume_bits) + seq![
        spec_video_flags(v),
        v.encoding.to_u8(),
        0u8,
        0u8,
    ] + spec_u32_to_le_bytes(v.data.len() as u32) + v.data
}

/// What parsing the body that `offset`/`size` locate inside a `VIDS`
/// payload gives.
pub open spec fn spec_parse_video_at(s: Seq<u8>, offset: u32, size: u32) -> Result<VideoView, Error> {
    match spec_body_window(s, offset, size) {
        None => Err(Error::MalformedPayload("VIDS")),
        Some(w) => spec_parse_video(w),
    }
}

/// The view of a parse result.
pub open spec fn video_result_view(r: Result<VideoBody, Error>) -> Result<VideoView, Error> {
    match r {
        Ok(b) => Ok(b@),
        Err(e) => Err(e),
    }
}

impl VideoBody {
    /// Reads a video body.
    pub fn parse(payload: &[u8]) -> (r: Result<VideoBody, Error>)
        ensures
            video_result_view(r) == spec_parse_video(payload@),
    {
        let len = payload.len();
        if len < VIDEO_HEADER_SIZE {
            return Err(Error::MalformedPayload("VIDS"));
        }
        let bounds = read_u32x4_at(payload, 0);
        let volume_bits = read_u32_at(payload, 16);
        let flags = payload[20];
        let encoding = match VideoEncoding::from_u8(payload[21]) {
            Some(e) => e,
            None => {
                return Err(Error::MalformedPayload("VIDS"));
            },
        };
        let byte_len = read_u32_at(payload, 24) as usize;
        if byte_len > len - VIDEO_HEADER_SIZE {
            return Err(Error::MalformedPayload("VIDS"));
        }
        let data = slice_to_vec(&payload[VIDEO_HEADER_SIZE..VIDEO_HEADER_SIZE + byte_len]);
        Ok(
            VideoBody {
                bounds,
                volume_bits,
                loop_playback: flags & FLAG_LOOP != 0,
                auto_play: flags & FLAG_AUTO_PLAY != 0,
                encoding,
                data,
            },
        )
    }

    /// Encodes the body. The data length is written cut to 32 bits.
    pub fn to_bytes(&self) -> (out: Vec<u8>)
        ensures
            out@ == spec_video_bytes(self@),
    {
        let flags: u8 = (if self.loop_playback {
            FLAG_LOOP
        } else {
            0u8
        }) | (if self.auto_play {
            FLAG_AUTO_PLAY
        } else {
            0u8
        });
        let mut out: Vec<u8> = Vec::new();
        push_u32x4(&mut out, &self.bounds);
        push_u32(&mut out, self.volume_bits);
        out.push(flags);
        out.push(self.encoding.to_u8());
        out.push(0);
        out.push(0);
        push_u32(&mut out, self.data.len() as u32);
        out.extend_from_slice(self.data.as_slice());
        proof {
            assert(out@ =~= spec_video_bytes(self@));
        }
        out
    }

    /// Reads the body that `body_offset`/`body_size` locate inside a
    /// whole `VIDS` payload.
    pub fn parse_at(vids_payload: &[u8], body_offset: u32, body_size: u32) -> (r: Result<VideoBody, Error>)
        ensures
            video_result_view(r) == spec_parse_video_at(vids_payload@, body_offset, body_size),
    {
        match body_window(vids_payload, body_offset, body_size) {
            None => Err(Error::MalformedPayload("VIDS")),
            Some(w) => VideoBody::parse(w),
        }
    }
}

/// An encoded video body parses back to the same body.
pub proof fn lemma_video_round_trip(v: VideoView)
    requires
        v.data.len() <= u32::MAX,
    ensures
        spec_parse_video(spec_video_bytes(v)) == Ok::<VideoView, Error>(v),
{
    lemma_auto_spec_u32_to_from_le_bytes();
    let s = spec_video_bytes(v);
    let n = v.data.len() as u32;
    let h = u32x4_le(v.bounds);
    assert(h.len() == 16);
    assert(s.subrange(0, 16) =~= h);
    lemma_u32x4_round_trip(v.bounds, s, 0);
    assert(s.subrange(16, 20) =~= spec_u32_to_le_bytes(v.volume_bits));
    lemma_u32_round_trip(v.volume_bits, s, 16);
    let f = spec_video_flags(v);
    assert(s[20] == f);
    assert(s[21] == v.encoding.to_u8());
    let lp = v.loop_playback;
    let ap = v.auto_play;
    assert(((f & 1u8) != 0u8) == lp && ((f & 2u8) != 0u8) == ap) by (bit_vector)
        requires
            f == (if lp { 1u8 } else { 0u8 }) | (if ap { 2u8 } else { 0u8 }),
    ;
    assert(s.subrange(24, 28) =~= spec_u32_to_le_bytes(n));
    lemma_u32_round_trip(n, s, 24);
    assert(s.subrange(28, 28 + n) =~= v.data);
}


/// A video body's layout, read: the bounds are the four little-endian
/// `u32`s at 0, 4, 8, 12; the volume is the `u32` at 16; byte 20 holds
/// the flags (bit 0 loop, bit 1 auto-play); byte 21 the encoding (0 MP4,
/// 1 WebM, 2 Ogg); the data length is the `u32` at 24 and the data follows
/// at 28.
pub proof fn lemma_video_read_layout(s: Seq<u8>)
    ensures
        spec_parse_video(s) matches Ok(v) ==> {
            &&& v.bounds[0] == spec_u32_from_le_bytes(s.subrange(0, 4))
            &&& v.bounds[1] == spec_u32_from_le_bytes(s.subrange(4, 8))
            &&& v.bounds[2] == spec_u32_from_le_bytes(s.subrange(8, 12))
            &&& v.bounds[3] == spec_u32_from_le_bytes(s.subrange(12, 16))
            &&& v.volume_bits == spec_u32_from_le_bytes(s.subrange(16, 20))
            &&& v.loop_playback == (s[20] & 1 != 0)
            &&& v.auto_play == (s[20] & 2 != 0)
            &&& (v.encoding == VideoEncoding::Mp4 <==> s[21] == 0)
            &&& (v.encoding == VideoEncoding::Webm <==> s[21] == 1)
            &&& (v.encoding == VideoEncoding::Ogg <==> s[21] == 2)
            &&& v.data == s.subrange(28, 28 + spec_u32_from_le_bytes(s.subrange(24, 28)))
        },
{
}
} // verus!
