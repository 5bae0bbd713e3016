//! The `STAG` chunk: canvas size, frame rate, background and root clip.

use crate::error::Error;
use crate::le::{lemma_u32_round_trip, push_u32, read_u32_at, u32_at};
use vstd::bytes::{lemma_auto_spec_u32_to_from_le_bytes, spec_u32_from_le_bytes, spec_u32_to_le_bytes};
use vstd::prelude::*;

verus! {

/// Size of a `STAG` payload; it is fixed.
pub const STAGE_SIZE: usize = 24;

/// The IEEE-754 bits of 60.0, the frame rate used when the stored one is
/// not positive.
pub const FALLBACK_FPS_BITS: u32 = 0x4270_0000;

/// Everything needed to start playback: canvas size, background, tick rate.
#[derive(Debug, Clone, Copy, PartialEq, Eq, Structural)]
pub struct Stage {
    pub width: u32,
    pub height: u32,
    /// The frame rate, as the bits of an `f32`.
    pub fps_bits: u32,
    /// `0xRRGGBBAA`.
    pub bg_rgba: u32,
    pub root_character_id: u32,
}

/// What parsing a `STAG` payload gives.
pub open spec fn spec_parse_stage(s: Seq<u8>) -> Result<Stage, Error> {
    if s.len() < 24 {
        Err(Error::MalformedPayload("STAG"))
    } else {
        Ok(
            Stage {
                width: u32_at(s, 0),
                height: u32_at(s, 4),
                fps_bits: u32_at(s, 8),
                bg_rgba: u32_at(s, 12),
                root_character_id: u32_at(s, 16),
            },
        )
    }
}

/// `bits` encode an `f32` greater than zero: the sign bit is clear, the
/// value is not zero, and it is not a NaN (`0x7F80_0000` is +infinity).
pub open spec fn spec_f32_bits_positive(bits: u32) -> bool {
    0 < bits <= 0x7F80_0000
}

impl Stage {
    /// The 24-byte encoding; the reserved last four bytes are zero.
    pub open spec fn spec_to_bytes(self) -> Seq<u8> {
        spec_u32_to_le_bytes(self.width) + spec_u32_to_le_bytes(self.height)
            + spec_u32_to_le_bytes(self.fps_bits) + spec_u32_to_le_bytes(self.bg_rgba)
            + spec_u32_to_le_bytes(self.root_character_id) + seq![0u8, 0u8, 0u8, 0u8]
    }

    /// Reads a `STAG` payload; extra bytes after the 24 are ignored.
    pub fn parse(payload: &[u8]) -> (r: Result<Stage, Error>)
        ensures
            r == spec_parse_stage(payload@),
    {
        if payload.len() < STAGE_SIZE {
            return Err(Error::MalformedPayload("STAG"));
        }
        Ok(
            Stage {
                width: read_u32_at(payload, 0),
                height: read_u32_at(payload, 4),
                fps_bits: read_u32_at(payload, 8),
                bg_rgba: read_u32_at(payload, 12),
                root_character_id: read_u32_at(payload, 16),
            },
        )
    }

    /// Encodes the stage into its 24 bytes.
    pub fn to_bytes(&self) -> (out: [u8; 24])
        ensures
            out@ == self.spec_to_bytes(),
    {
        let mut v: Vec<u8> = Vec::new();
        push_u32(&mut v, self.width);
        push_u32(&mut v, self.height);
        push_u32(&mut v, self.fps_bits);
        push_u32(&mut v, self.bg_rgba);
        push_u32(&mut v, self.root_character_id);
        v.push(0);
        v.push(0);
        v.push(0);
        v.push(0);
        proof {
            lemma_auto_spec_u32_to_from_le_bytes();
            assert(v@ =~= self.spec_to_bytes());
        }
        let mut out = [0u8; 24];
        let mut i: usize = 0;
        while i < 24
            invariant
                i <= 24,
                v@.len() == 24,
                forall|k: int| 0 <= k < i ==> out@[k] == v@[k],
            decreases 24 - i,
        {
            out[i] = v[i];
            i = i + 1;
        }
        proof {
            assert(out@ =~= v@);
        }
        out
    }

    /// The frame rate playback runs at, as `f32` bits: the stored one when
    /// it is positive, otherwise 60 frames per second, so that playback
    /// never stalls. One frame lasts `1000 / rate` milliseconds.
    pub fn frame_rate_bits(&self) -> (bits: u32)
        ensures
            spec_f32_bits_positive(self.fps_bits) ==> bits == self.fps_bits,
            !spec_f32_bits_positive(self.fps_bits) ==> bits == FALLBACK_FPS_BITS,
    {
        if 0 < self.fps_bits && self.fps_bits <= 0x7F80_0000 {
            self.fps_bits
        } else {
            FALLBACK_FPS_BITS
        }
    }
}

/// An encoded stage parses back to the same stage.
pub proof fn lemma_stage_round_trip(st: Stage)
    ensures
        spec_parse_stage(st.spec_to_bytes()) == Ok::<Stage, Error>(st),
{
    let b = st.spec_to_bytes();
    lemma_auto_spec_u32_to_from_le_bytes();
    assert(b.len() == 24);
    assert(b.subrange(0, 4) =~= spec_u32_to_le_bytes(st.width));
    assert(b.subrange(4, 8) =~= spec_u32_to_le_bytes(st.height));
    assert(b.subrange(8, 12) =~= spec_u32_to_le_bytes(st.fps_bits));
    assert(b.subrange(12, 16) =~= spec_u32_to_le_bytes(st.bg_rgba));
    assert(b.subrange(16, 20) =~= spec_u32_to_le_bytes(st.root_character_id));
    lemma_u32_round_trip(st.width, b, 0);
    lemma_u32_round_trip(st.height, b, 4);
    lemma_u32_round_trip(st.fps_bits, b, 8);
    lemma_u32_round_trip(st.bg_rgba, b, 12);
    lemma_u32_round_trip(st.root_character_id, b, 16);
}

/// The layout of a `STAG` payload, read: any payload of at least 24
/// bytes parses, and each field is the little-endian `u32` at its fixed
/// offset: width at 0, height at 4, frame-rate bits at 8, background at
/// 12, root character at 16.
pub proof fn lemma_stage_read_layout(s: Seq<u8>)
    ensures
        spec_parse_stage(s) is Ok <==> s.len() >= 24,
        spec_parse_stage(s) matches Ok(st) ==> {
            &&& st.width == spec_u32_from_le_bytes(s.subrange(0, 4))
            &&& st.height == spec_u32_from_le_bytes(s.subrange(4, 8))
            &&& st.fps_bits == spec_u32_from_le_bytes(s.subrange(8, 12))
            &&& st.bg_rgba == spec_u32_from_le_bytes(s.subrange(12, 16))
            &&& st.root_character_id == spec_u32_from_le_bytes(s.subrange(16, 20))
        },
{
}

/// The layout of a `STAG` payload, written: 24 bytes, each field as a
/// little-endian `u32` at its fixed offset (width at 0, height at 4,
/// frame-rate bits at 8, background at 12, root character at 16), then
/// four zero bytes.
pub proof fn lemma_stage_write_layout(st: Stage)
    ensures
        st.spec_to_bytes().len() == 24,
        st.spec_to_bytes().subrange(0, 4) == spec_u32_to_le_bytes(st.width),
        st.spec_to_bytes().subrange(4, 8) == spec_u32_to_le_bytes(st.height),
        st.spec_to_bytes().subrange(8, 12) == spec_u32_to_le_bytes(st.fps_bits),
        st.spec_to_bytes().subrange(12, 16) == spec_u32_to_le_bytes(st.bg_rgba),
        st.spec_to_bytes().subrange(16, 20) == spec_u32_to_le_bytes(st.root_character_id),
        st.spec_to_bytes().subrange(20, 24) == seq![0u8, 0u8, 0u8, 0u8],
{
    let b = st.spec_to_bytes();
    lemma_auto_spec_u32_to_from_le_bytes();
    assert(b.subrange(0, 4) =~= spec_u32_to_le_bytes(st.width));
    assert(b.subrange(4, 8) =~= spec_u32_to_le_bytes(st.height));
    assert(b.subrange(8, 12) =~= spec_u32_to_le_bytes(st.fps_bits));
    assert(b.subrange(12, 16) =~= spec_u32_to_le_bytes(st.bg_rgba));
    assert(b.subrange(16, 20) =~= spec_u32_to_le_bytes(st.root_character_id));
    assert(b.subrange(20, 24) =~= seq![0u8, 0u8, 0u8, 0u8]);
}

} // verus!
