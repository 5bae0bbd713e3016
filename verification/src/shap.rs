//! The `SHAP` chunk: vector shape bodies.
//!
//! ```text
//! f32 x_min, x_max, y_min, y_max
//! u8  flags            // bit0 = has_grid, bit1 = in_bitmap, bit2 = has_bitmap_id
//! u8  pad[3]
//! [ f32 grid_x, grid_y, grid_w, grid_h ]   // flags.bit0
//! [ u32 bitmap_id ]                        // flags.bit2
//! u32 recode_len
//! recode_len × f32
//! ```

use crate::error::Error;
use crate::le::{
    body_window, lemma_u32_round_trip, lemma_u32s_round_trip, lemma_u32x4_round_trip, push_u32,
    push_u32s, push_u32x4, read_u32_at, read_u32s_at, read_u32x4_at, spec_body_window, u32_at,
    u32s_at, u32s_le, u32x4_at, u32x4_le, lemma_u32s_len,
};
use vstd::bytes::{lemma_auto_spec_u32_to_from_le_bytes, spec_u32_from_le_bytes, spec_u32_to_le_bytes};
use vstd::prelude::*;

verus! {

/// Flag bit: a nine-slice grid follows the flags.
pub const FLAG_HAS_GRID: u8 = 1;

/// Flag bit: the shape is drawn inside a bitmap.
pub const FLAG_IN_BITMAP: u8 = 2;

/// Flag bit: a bitmap id follows the grid.
pub const FLAG_HAS_BITMAP_ID: u8 = 4;

/// A vector shape body. Every `f32` of the format is kept as its bits.
#[derive(Debug, Clone, PartialEq, Eq)]
pub struct ShapeBody {
    pub bounds: [u32; 4],
    pub in_bitmap: bool,
    pub grid: Option<[u32; 4]>,
    pub bitmap_id: Option<u32>,
    /// The render commands, each an `f32` as bits.
    pub recodes: Vec<u32>,
}

/// The fields of a shape body, as plain values.
pub struct ShapeView {
    pub bounds: [u32; 4],
    pub in_bitmap: bool,
    pub grid: Option<[u32; 4]>,
    pub bitmap_id: Option<u32>,
    pub recodes: Seq<u32>,
}

impl View for ShapeBody {
    type V = ShapeView;

    open spec fn view(&self) -> ShapeView {
        ShapeView {
            bounds: self.bounds,
            in_bitmap: self.in_bitmap,
            grid: self.grid,
            bitmap_id: self.bitmap_id,
            recodes: self.recodes@,
        }
    }
}

/// Where the bitmap id (if any) starts, after the optional grid.
pub open spec fn shape_id_offset(flags: u8) -> int {
    20 + if flags & FLAG_HAS_GRID != 0 {
        16int
    } else {
        0int
    }
}

/// Where `recode_len` starts, after the optional bitmap id.
pub open spec fn shape_len_offset(flags: u8) -> int {
    shape_id_offset(flags) + if flags & FLAG_HAS_BITMAP_ID != 0 {
        4int
    } else {
        0int
    }
}

/// What parsing a shape body gives. Every field must lie inside `s`;
/// bytes after the last recode are ignored.
pub open spec fn spec_parse_shape(s: Seq<u8>) -> Result<ShapeView, Error> {
    if s.len() < 20 {
        Err(Error::MalformedPayload("SHAP"))
    } else {
        let flags = s[16];
        let lo = shape_len_offset(flags);
        if lo + 4 > s.len() {
            Err(Error::MalformedPayload("SHAP"))
        } else {
            let n = u32_at(s, lo);
            if lo + 4 + 4 * n > s.len() {
                Err(Error::MalformedPayload("SHAP"))
            } else {
                Ok(
                    ShapeView {
                        bounds: u32x4_at(s, 0),
                        in_bitmap: flags & FLAG_IN_BITMAP != 0,
                        grid: if flags & FLAG_HAS_GRID != 0 {
                            Some(u32x4_at(s, 20))
                        } else {
                            None
                        },
                        bitmap_id: if flags & FLAG_HAS_BITMAP_ID != 0 {
                            Some(u32_at(s, shape_id_offset(flags)))
                        } else {
                            None
                        },
                        recodes: u32s_at(s, lo + 4, n as nat),
                    },
                )
            }
        }
    }
}

/// The flags byte the encoder writes.
pub open spec fn spec_shape_flags(v: ShapeView) -> u8 {
    (if v.in_bitmap {
        FLAG_IN_BITMAP
    } else {
        0u8
    }) | (if v.grid is Some {
        FLAG_HAS_GRID
    } else {
        0u8
    }) | (if v.bitmap_id is Some {
        FLAG_HAS_BITMAP_ID
    } else {
        0u8
    })
}

/// The encoding of a shape body.
pub open spec fn spec_shape_bytes(v: ShapeView) -> Seq<u8> {
    u32x4_le(v.bounds) + seq![spec_shape_flags(v), 0u8, 0u8, 0u8] + match v.grid {
        Some(g) => u32x4_le(g),
        None => Seq::empty(),
    } + match v.bitmap_id {
        Some(id) => spec_u32_to_le_bytes(id),
        None => Seq::empty(),
    } + spec_u32_to_le_bytes(v.recodes.len() as u32) + u32s_le(v.recodes)
}

/// What parsing the body that `offset`/`size` locate inside a `SHAP`
/// payload gives.
pub open spec fn spec_parse_shape_at(s: Seq<u8>, offset: u32, size: u32) -> Result<ShapeView, Error> {
    match spec_body_window(s, offset, size) {
        None => Err(Error::MalformedPayload("SHAP")),
        Some(w) => spec_parse_shape(w),
    }
}

/// The view of a parse result.
pub open spec fn shape_result_view(r: Result<ShapeBody, Error>) -> Result<ShapeView, Error> {
    match r {
        Ok(b) => Ok(b@),
        Err(e) => Err(e),
    }
}

impl ShapeBody {
    /// Reads a shape body.
    pub fn parse(payload: &[u8]) -> (r: Result<ShapeBody, Error>)
        ensures
            shape_result_view(r) == spec_parse_shape(payload@),
    {
        let len = payload.len();
        if len < 20 {
            return Err(Error::MalformedPayload("SHAP"));
        }
        let bounds = read_u32x4_at(payload, 0);
        let flags = payload[16];
        let mut offset: usize = 20;
        let in_bitmap = flags & FLAG_IN_BITMAP != 0;
        let has_grid = flags & FLAG_HAS_GRID != 0;
        let has_id = flags & FLAG_HAS_BITMAP_ID != 0;
        if has_grid {
            offset = offset + 16;
        }
        let id_offset = offset;
        if has_id {
            offset = offset + 4;
        }
        if offset > len || len - offset < 4 {
            return Err(Error::MalformedPayload("SHAP"));
        }
        let grid = if has_grid {
            Some(read_u32x4_at(payload, 20))
        } else {
            None
        };
        let bitmap_id = if has_id {
            Some(read_u32_at(payload, id_offset))
        } else {
            None
        };
        let recode_len = read_u32_at(payload, offset);
        offset = offset + 4;
        if (recode_len as u64) * 4 > (len - offset) as u64 {
            return Err(Error::MalformedPayload("SHAP"));
        }
        let recodes = read_u32s_at(payload, offset, recode_len as usize);
        Ok(ShapeBody { bounds, in_bitmap, grid, bitmap_id, recodes })
    }

    /// Encodes the body. The recode count is written cut to 32 bits.
    pub fn to_bytes(&self) -> (out: Vec<u8>)
        ensures
            out@ == spec_shape_bytes(self@),
    {
        let flags: u8 = (if self.in_bitmap {
            FLAG_IN_BITMAP
        } else {
            0u8
        }) | (if self.grid.is_some() {
            FLAG_HAS_GRID
        } else {
            0u8
        }) | (if self.bitmap_id.is_some() {
            FLAG_HAS_BITMAP_ID
        } else {
            0u8
        });
        let mut out: Vec<u8> = Vec::new();
        push_u32x4(&mut out, &self.bounds);
        out.push(flags);
        out.push(0);
        out.push(0);
        out.push(0);
        let ghost after_flags = out@;
        match &self.grid {
            Some(g) => push_u32x4(&mut out, g),
            None => {},
        }
        let ghost after_grid = out@;
        match self.bitmap_id {
            Some(id) => push_u32(&mut out, id),
            None => {},
        }
        let ghost after_id = out@;
        push_u32(&mut out, self.recodes.len() as u32);
        push_u32s(&mut out, self.recodes.as_slice());
        proof {
            assert(after_grid =~= after_flags + match self@.grid {
                Some(g) => u32x4_le(g),
                None => Seq::empty(),
            });
            assert(after_id =~= after_grid + match self@.bitmap_id {
                Some(id) => spec_u32_to_le_bytes(id),
                None => Seq::empty(),
            });
            assert(out@ =~= spec_shape_bytes(self@));
        }
        out
    }

    /// Reads the body that `body_offset`/`body_size` locate inside a
    /// whole `SHAP` payload.
    pub fn parse_at(shap_payload: &[u8], body_offset: u32, body_size: u32) -> (r: Result<ShapeBody, Error>)
        ensures
            shape_result_view(r) == spec_parse_shape_at(shap_payload@, body_offset, body_size),
    {
        match body_window(shap_payload, body_offset, body_size) {
            None => Err(Error::MalformedPayload("SHAP")),
            Some(w) => ShapeBody::parse(w),
        }
    }
}

/// An encoded shape body parses back to the same body.
pub proof fn lemma_shape_round_trip(v: ShapeView)
    requires
        v.recodes.len() <= u32::MAX,
    ensures
        spec_parse_shape(spec_shape_bytes(v)) == Ok::<ShapeView, Error>(v),
{
    lemma_auto_spec_u32_to_from_le_bytes();
    let s = spec_shape_bytes(v);
    let f = spec_shape_flags(v);
    let ib = v.in_bitmap;
    let hg = v.grid is Some;
    let hi = v.bitmap_id is Some;
    assert(((f & 2u8) != 0u8) == ib && ((f & 1u8) != 0u8) == hg && ((f & 4u8) != 0u8) == hi) by (bit_vector)
        requires
            f == (if ib { 2u8 } else { 0u8 }) | (if hg { 1u8 } else { 0u8 }) | (if hi { 4u8 } else { 0u8 }),
    ;
    let head = u32x4_le(v.bounds);
    assert(head.len() == 16);
    let gpart: Seq<u8> = match v.grid {
        Some(g) => u32x4_le(g),
        None => Seq::empty(),
    };
    let ipart: Seq<u8> = match v.bitmap_id {
        Some(id) => spec_u32_to_le_bytes(id),
        None => Seq::empty(),
    };
    let n = v.recodes.len() as u32;
    lemma_u32s_len(v.recodes);
    let lo = shape_len_offset(f);
    assert(gpart.len() == if hg { 16int } else { 0int });
    assert(ipart.len() == if hi { 4int } else { 0int });
    assert(s == head + seq![f, 0u8, 0u8, 0u8] + gpart + ipart + spec_u32_to_le_bytes(n) + u32s_le(v.recodes));
    assert(s.len() == lo + 4 + 4 * n);
    assert(s[16] == f);
    assert(s.subrange(0, 16) =~= head);
    lemma_u32x4_round_trip(v.bounds, s, 0);
    if let Some(g) = v.grid {
        assert(s.subrange(20, 36) =~= u32x4_le(g));
        lemma_u32x4_round_trip(g, s, 20);
    }
    if let Some(id) = v.bitmap_id {
        assert(s.subrange(shape_id_offset(f), shape_id_offset(f) + 4) =~= spec_u32_to_le_bytes(id));
        lemma_u32_round_trip(id, s, shape_id_offset(f));
    }
    assert(s.subrange(lo, lo + 4) =~= spec_u32_to_le_bytes(n));
    lemma_u32_round_trip(n, s, lo);
    assert(s.subrange(lo + 4, lo + 4 + 4 * v.recodes.len()) =~= u32s_le(v.recodes));
    lemma_u32s_round_trip(v.recodes, s, lo + 4);
}


/// A shape body's layout, read: the bounds are the four little-endian
/// `u32`s at 0, 4, 8, 12; byte 16 holds the flags (bit 0 grid, bit 1
/// in-bitmap, bit 2 bitmap id), followed by three pad bytes; the grid, when
/// flagged, is four `u32`s at 20; the bitmap id, when flagged, is the
/// `u32` after it; then comes the recode count and the recodes, one `u32`
/// each.
pub proof fn lemma_shape_read_layout(s: Seq<u8>)
    ensures
        spec_parse_shape(s) matches Ok(v) ==> {
            let f = s[16];
            let id_at: int = if f & 1 != 0 { 36 } else { 20 };
            let len_at: int = if f & 4 != 0 { id_at + 4 } else { id_at };
            &&& v.bounds[0] == spec_u32_from_le_bytes(s.subrange(0, 4))
            &&& v.bounds[1] == spec_u32_from_le_bytes(s.subrange(4, 8))
            &&& v.bounds[2] == spec_u32_from_le_bytes(s.subrange(8, 12))
            &&& v.bounds[3] == spec_u32_from_le_bytes(s.subrange(12, 16))
            &&& v.in_bitmap == (f & 2 != 0)
            &&& (v.grid is Some <==> f & 1 != 0)
            &&& (v.grid matches Some(g) ==> g[0] == spec_u32_from_le_bytes(s.subrange(20, 24))
                && g[1] == spec_u32_from_le_bytes(s.subrange(24, 28))
                && g[2] == spec_u32_from_le_bytes(s.subrange(28, 32))
                && g[3] == spec_u32_from_le_bytes(s.subrange(32, 36)))
            &&& (v.bitmap_id is Some <==> f & 4 != 0)
            &&& (v.bitmap_id matches Some(id) ==> id == spec_u32_from_le_bytes(s.subrange(id_at, id_at + 4)))
            &&& v.recodes.len() == spec_u32_from_le_bytes(s.subrange(len_at, len_at + 4))
            &&& forall|k: int| 0 <= k < v.recodes.len() ==> #[trigger] v.recodes[k]
                == spec_u32_from_le_bytes(s.subrange(len_at + 4 + 4 * k, len_at + 8 + 4 * k))
        },
{
    if let Ok(v) = spec_parse_shape(s) {
        let f = s[16];
        assert(((f & FLAG_HAS_GRID) != 0) == ((f & 1) != 0));
        assert(((f & FLAG_HAS_BITMAP_ID) != 0) == ((f & 4) != 0));
        assert(((f & FLAG_IN_BITMAP) != 0) == ((f & 2) != 0));
    }
}
} // verus!
