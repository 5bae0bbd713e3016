//! The `MCLP` chunk: movie-clip timelines.
//!
//! A body holds the frame count, the dictionary of characters, the place
//! objects, and two dense `depth × frame` matrices (`controller` and
//! `place_map`, `-1` meaning "nothing"). Every `f32` of the format is kept
//! as its bits.

use crate::error::Error;
use crate::le::{
    body_window, i32_at, i32_le, i32s_at, i32s_le, lemma_i32_round_trip, lemma_i32s_round_trip,
    lemma_u16_round_trip, lemma_u32_round_trip, lemma_u32s_len, lemma_u32s_round_trip,
    lemma_u32x6_round_trip, lemma_u32x8_round_trip, lemma_window, push_i32, push_i32s, push_u16,
    push_u32, push_u32s, read_i32s_at, read_u16_at, read_u32_at, read_u32s_at, read_u32x6_at,
    read_u32x8_at, spec_body_window, u16_at, u32_at, u32s_at, u32s_le, u32x6_at, u32x8_at,
};
use vstd::bytes::{
    lemma_auto_spec_u16_to_from_le_bytes, lemma_auto_spec_u32_to_from_le_bytes,
    spec_u16_from_le_bytes, spec_u16_to_le_bytes, spec_u32_from_le_bytes, spec_u32_to_le_bytes,
};
use vstd::prelude::*;

verus! {

/// One timeline dictionary entry: which character, over which frames.
#[derive(Debug, Clone, Copy, PartialEq, Eq, Structural)]
pub struct DictionaryEntry {
    pub character_id: u32,
    pub start_frame: u32,
    pub end_frame: u32,
    /// `-1` when the entry is not a mask.
    pub clip_depth: i32,
}

/// A filter applied to a placed object.
#[derive(Debug, Clone, PartialEq, Eq)]
pub struct PlaceFilter {
    pub class: u8,
    /// Each parameter is an `f32`, kept as its bits.
    pub params: Vec<u32>,
}

/// Loop settings of a placed object.
#[derive(Debug, Clone, Copy, PartialEq, Eq, Structural)]
pub struct LoopData {
    pub loop_type: u8,
    pub start_frame: u32,
    pub frame_count: u32,
}

/// An object placed on a frame (variable length on disk).
#[derive(Debug, Clone, PartialEq, Eq, Default)]
pub struct PlaceObject {
    /// `[a, b, c, d, tx, ty]`, as `f32` bits.
    pub matrix: Option<[u32; 6]>,
    /// `[rM, gM, bM, aM, rO, gO, bO, aO]`, as `f32` bits.
    pub color_transform: Option<[u32; 8]>,
    pub blend_mode: Option<u8>,
    pub filters: Vec<PlaceFilter>,
    pub loop_data: Option<LoopData>,
}

/// A movie-clip timeline body.
#[derive(Debug, Clone, PartialEq, Eq)]
pub struct MovieClipBody {
    pub total_frame: u32,
    pub dictionary: Vec<DictionaryEntry>,
    pub depth_count: u32,
    pub place_objects: Vec<PlaceObject>,
    /// `depth_count × total_frame` dictionary indices, `-1` = none.
    pub controller: Vec<i32>,
    /// `depth_count × total_frame` place-object indices, `-1` = none.
    pub place_map: Vec<i32>,
}

/// A filter as plain values.
pub struct PlaceFilterView {
    pub class: u8,
    pub params: Seq<u32>,
}

/// A placed object as plain values.
pub struct PlaceObjectView {
    pub matrix: Option<[u32; 6]>,
    pub color_transform: Option<[u32; 8]>,
    pub blend_mode: Option<u8>,
    pub filters: Seq<PlaceFilterView>,
    pub loop_data: Option<LoopData>,
}

/// A timeline body as plain values.
pub struct MovieClipView {
    pub total_frame: u32,
    pub dictionary: Seq<DictionaryEntry>,
    pub depth_count: u32,
    pub place_objects: Seq<PlaceObjectView>,
    pub controller: Seq<i32>,
    pub place_map: Seq<i32>,
}

impl View for PlaceFilter {
    type V = PlaceFilterView;

    open spec fn view(&self) -> PlaceFilterView {
        PlaceFilterView { class: self.class, params: self.params@ }
    }
}

/// The views of a sequence of filters.
pub open spec fn filters_view(fs: Seq<PlaceFilter>) -> Seq<PlaceFilterView> {
    fs.map_values(|f: PlaceFilter| f@)
}

impl View for PlaceObject {
    type V = PlaceObjectView;

    open spec fn view(&self) -> PlaceObjectView {
        PlaceObjectView {
            matrix: self.matrix,
            color_transform: self.color_transform,
            blend_mode: self.blend_mode,
            filters: filters_view(self.filters@),
            loop_data: self.loop_data,
        }
    }
}

/// The views of a sequence of placed objects.
pub open spec fn places_view(ps: Seq<PlaceObject>) -> Seq<PlaceObjectView> {
    ps.map_values(|p: PlaceObject| p@)
}

impl View for MovieClipBody {
    type V = MovieClipView;

    open spec fn view(&self) -> MovieClipView {
        MovieClipView {
            total_frame: self.total_frame,
            dictionary: self.dictionary@,
            depth_count: self.depth_count,
            place_objects: places_view(self.place_objects@),
            controller: self.controller@,
            place_map: self.place_map@,
        }
    }
}

/// Bit of `present`: a matrix follows.
pub const PRESENT_MATRIX: u8 = 1;

/// Bit of `present`: a color transform follows.
pub const PRESENT_COLOR: u8 = 2;

/// Bit of `present`: the blend-mode byte is meaningful.
pub const PRESENT_BLEND: u8 = 4;

/// Bit of `present`: a filter count and filters follow.
pub const PRESENT_FILTERS: u8 = 8;

/// Bit of `present`: loop settings follow.
pub const PRESENT_LOOP: u8 = 16;

/// The error every short or inconsistent `MCLP` body gives.
pub open spec fn malformed() -> Error {
    Error::MalformedPayload("MCLP")
}

/// Reading a `u32` at `o`: the value and the offset after it.
pub open spec fn spec_read_u32(s: Seq<u8>, o: int) -> Result<(u32, int), Error> {
    if o + 4 > s.len() {
        Err(malformed())
    } else {
        Ok((u32_at(s, o), o + 4))
    }
}

/// Reading one filter at `o`: class, parameter count, two pad bytes, then
/// the parameters.
pub open spec fn spec_read_filter(s: Seq<u8>, o: int) -> Result<(PlaceFilterView, int), Error> {
    if o + 4 > s.len() {
        Err(malformed())
    } else {
        let n = s[o + 1];
        if o + 4 + 4 * n > s.len() {
            Err(malformed())
        } else {
            Ok((PlaceFilterView { class: s[o], params: u32s_at(s, o + 4, n as nat) }, o + 4 + 4 * n))
        }
    }
}

/// Reading `k` filters one after another from `o`.
pub open spec fn spec_read_filters(s: Seq<u8>, o: int, k: nat) -> Result<(Seq<PlaceFilterView>, int), Error>
    decreases k,
{
    if k == 0 {
        Ok((Seq::empty(), o))
    } else {
        match spec_read_filters(s, o, (k - 1) as nat) {
            Err(e) => Err(e),
            Ok((fs, o2)) => match spec_read_filter(s, o2) {
                Err(e) => Err(e),
                Ok((f, o3)) => Ok((fs.push(f), o3)),
            },
        }
    }
}

/// Reading one placed object at `o`: four fixed bytes (`present`, the
/// blend mode, the `u16` filter count), then each optional part, present
/// when its bit of `present` is set. The blend mode and the filter count
/// count only when their bits are set. Every part must lie inside `s`.
pub open spec fn spec_read_place(s: Seq<u8>, o: int) -> Result<(PlaceObjectView, int), Error> {
    if o + 4 > s.len() {
        Err(malformed())
    } else {
        let present = s[o];
        let has_filters = present & PRESENT_FILTERS != 0;
        {
            let count: nat = if has_filters {
                u16_at(s, o + 2) as nat
            } else {
                0nat
            };
            let o1 = o + 4;
            let o2 = o1 + if present & PRESENT_MATRIX != 0 {
                24int
            } else {
                0int
            };
            let o3 = o2 + if present & PRESENT_COLOR != 0 {
                32int
            } else {
                0int
            };
            if o3 > s.len() {
                Err(malformed())
            } else {
                match spec_read_filters(s, o3, count) {
                    Err(e) => Err(e),
                    Ok((fs, o4)) => {
                        let has_loop = present & PRESENT_LOOP != 0;
                        if has_loop && o4 + 12 > s.len() {
                            Err(malformed())
                        } else {
                            Ok(
                                (
                                    PlaceObjectView {
                                        matrix: if present & PRESENT_MATRIX != 0 {
                                            Some(u32x6_at(s, o1))
                                        } else {
                                            None
                                        },
                                        color_transform: if present & PRESENT_COLOR != 0 {
                                            Some(u32x8_at(s, o2))
                                        } else {
                                            None
                                        },
                                        blend_mode: if present & PRESENT_BLEND != 0 {
                                            Some(s[o + 1])
                                        } else {
                                            None
                                        },
                                        filters: fs,
                                        loop_data: if has_loop {
                                            Some(
                                                LoopData {
                                                    loop_type: s[o4],
                                                    start_frame: u32_at(s, o4 + 4),
                                                    frame_count: u32_at(s, o4 + 8),
                                                },
                                            )
                                        } else {
                                            None
                                        },
                                    },
                                    if has_loop {
                                        o4 + 12
                                    } else {
                                        o4
                                    },
                                ),
                            )
                        }
                    },
                }
            }
        }
    }
}

/// Reading `k` placed objects one after another from `o`.
pub open spec fn spec_read_places(s: Seq<u8>, o: int, k: nat) -> Result<(Seq<PlaceObjectView>, int), Error>
    decreases k,
{
    if k == 0 {
        Ok((Seq::empty(), o))
    } else {
        match spec_read_places(s, o, (k - 1) as nat) {
            Err(e) => Err(e),
            Ok((ps, o2)) => match spec_read_place(s, o2) {
                Err(e) => Err(e),
                Ok((p, o3)) => Ok((ps.push(p), o3)),
            },
        }
    }
}

/// The dictionary entry whose 16 bytes start at `o`.
pub open spec fn spec_dictionary_entry_at(s: Seq<u8>, o: int) -> DictionaryEntry {
    DictionaryEntry {
        character_id: u32_at(s, o),
        start_frame: u32_at(s, o + 4),
        end_frame: u32_at(s, o + 8),
        clip_depth: i32_at(s, o + 12),
    }
}

/// `n` dictionary entries starting at `o`.
pub open spec fn spec_dictionary_at(s: Seq<u8>, o: int, n: nat) -> Seq<DictionaryEntry> {
    Seq::new(n, |k: int| spec_dictionary_entry_at(s, o + 16 * k))
}

/// Reading a matrix (`controller` or `place_map`) at `o`: its `u32`
/// length, which must equal `cells`, then that many `i32` values.
pub open spec fn spec_read_matrix(s: Seq<u8>, o: int, cells: int) -> Result<(Seq<i32>, int), Error> {
    if o + 4 > s.len() {
        Err(malformed())
    } else if u32_at(s, o) != cells {
        Err(malformed())
    } else if o + 4 + 4 * cells > s.len() {
        Err(malformed())
    } else {
        Ok((i32s_at(s, o + 4, cells as nat), o + 4 + 4 * cells))
    }
}

/// What parsing a timeline body gives.
pub open spec fn spec_parse_movie_clip(s: Seq<u8>) -> Result<MovieClipView, Error> {
    if s.len() < 8 {
        Err(malformed())
    } else {
        let total = u32_at(s, 0);
        let dc = u32_at(s, 4);
        let o1 = 8 + 16 * dc;
        if o1 + 8 > s.len() {
            Err(malformed())
        } else {
            let depth = u32_at(s, o1);
            let pc = u32_at(s, o1 + 4);
            match spec_read_places(s, o1 + 8, pc as nat) {
                Err(e) => Err(e),
                Ok((ps, o2)) => match spec_read_matrix(s, o2, depth * total) {
                    Err(e) => Err(e),
                    Ok((controller, o3)) => match spec_read_matrix(s, o3, depth * total) {
                        Err(e) => Err(e),
                        Ok((place_map, _)) => Ok(
                            MovieClipView {
                                total_frame: total,
                                dictionary: spec_dictionary_at(s, 8, dc as nat),
                                depth_count: depth,
                                place_objects: ps,
                                controller,
                                place_map,
                            },
                        ),
                    },
                },
            }
        }
    }
}

/// Reading `k` filters (or placed objects) that failed stays failed, with
/// the same error, however many more are asked for.
proof fn lemma_filters_fail_stays(s: Seq<u8>, o: int, k: nat, m: nat)
    requires
        k <= m,
        spec_read_filters(s, o, k) is Err,
    ensures
        spec_read_filters(s, o, m) == spec_read_filters(s, o, k),
    decreases m,
{
    if m > k {
        lemma_filters_fail_stays(s, o, k, (m - 1) as nat);
    }
}

proof fn lemma_places_fail_stays(s: Seq<u8>, o: int, k: nat, m: nat)
    requires
        k <= m,
        spec_read_places(s, o, k) is Err,
    ensures
        spec_read_places(s, o, m) == spec_read_places(s, o, k),
    decreases m,
{
    if m > k {
        lemma_places_fail_stays(s, o, k, (m - 1) as nat);
    }
}

/// Reads a `u32` at `*offset` and moves past it.
fn read_u32(payload: &[u8], offset: &mut usize) -> (r: Result<u32, Error>)
    requires
        *old(offset) <= payload@.len(),
    ensures
        match spec_read_u32(payload@, *old(offset) as int) {
            Ok((v, o)) => r == Ok::<u32, Error>(v) && *final(offset) == o,
            Err(e) => r == Err::<u32, Error>(e),
        },
        *final(offset) <= payload@.len(),
{
    let len = payload.len();
    if len - *offset < 4 {
        return Err(Error::MalformedPayload("MCLP"));
    }
    let v = read_u32_at(payload, *offset);
    *offset = *offset + 4;
    Ok(v)
}

fn read_filter(payload: &[u8], offset: &mut usize) -> (r: Result<PlaceFilter, Error>)
    requires
        *old(offset) <= payload@.len(),
    ensures
        match spec_read_filter(payload@, *old(offset) as int) {
            Ok((f, o)) => r matches Ok(g) && g@ == f && *final(offset) == o,
            Err(e) => r == Err::<PlaceFilter, Error>(e),
        },
        *final(offset) <= payload@.len(),
{
    let len = payload.len();
    let o = *offset;
    if len - o < 4 {
        return Err(Error::MalformedPayload("MCLP"));
    }
    let class = payload[o];
    let count = payload[o + 1] as usize;
    if len - (o + 4) < 4 * count {
        return Err(Error::MalformedPayload("MCLP"));
    }
    let params = read_u32s_at(payload, o + 4, count);
    *offset = o + 4 + 4 * count;
    Ok(PlaceFilter { class, params })
}

#[verifier::loop_isolation(false)]
fn parse_place_object(payload: &[u8], offset: &mut usize) -> (r: Result<PlaceObject, Error>)
    requires
        *old(offset) <= payload@.len(),
    ensures
        match spec_read_place(payload@, *old(offset) as int) {
            Ok((p, o)) => r matches Ok(q) && q@ == p && *final(offset) == o,
            Err(e) => r == Err::<PlaceObject, Error>(e),
        },
        *final(offset) <= payload@.len(),
{
    let len = payload.len();
    let start = *offset;
    if len - start < 4 {
        return Err(Error::MalformedPayload("MCLP"));
    }
    let present = payload[start];
    let blend_mode = if present & PRESENT_BLEND != 0 {
        Some(payload[start + 1])
    } else {
        None
    };
    let has_filters = present & PRESENT_FILTERS != 0;
    let filter_count: u16 = if has_filters {
        read_u16_at(payload, start + 2)
    } else {
        0
    };
    let mut o = start + 4;
    let has_matrix = present & PRESENT_MATRIX != 0;
    let has_color = present & PRESENT_COLOR != 0;
    let o1 = o;
    let need_matrix: usize = if has_matrix {
        24
    } else {
        0
    };
    if len - o < need_matrix {
        return Err(Error::MalformedPayload("MCLP"));
    }
    o = o + need_matrix;
    let o2 = o;
    let need_color: usize = if has_color {
        32
    } else {
        0
    };
    if len - o < need_color {
        return Err(Error::MalformedPayload("MCLP"));
    }
    o = o + need_color;
    let matrix = if has_matrix {
        Some(read_u32x6_at(payload, o1))
    } else {
        None
    };
    let color_transform = if has_color {
        Some(read_u32x8_at(payload, o2))
    } else {
        None
    };
    let ghost o3 = o as int;
    let ghost s = payload@;
    let mut filters: Vec<PlaceFilter> = Vec::new();
    proof {
        assert(filters_view(filters@) =~= Seq::<PlaceFilterView>::empty());
    }
    let mut i: u16 = 0;
    while i < filter_count
        invariant
            s == payload@,
            o3 <= len == payload@.len(),
            o <= len,
            i <= filter_count,
            spec_read_filters(s, o3, i as nat) == Ok::<(Seq<PlaceFilterView>, int), Error>((filters_view(filters@), o as int)),
        decreases filter_count - i,
    {
        let ghost before = filters@;
        match read_filter(payload, &mut o) {
            Ok(f) => {
                filters.push(f);
                proof {
                    assert(filters_view(filters@) =~= filters_view(before).push(f@));
                }
            },
            Err(e) => {
                proof {
                    lemma_filters_fail_stays(s, o3, (i + 1) as nat, filter_count as nat);
                }
                return Err(e);
            },
        }
        i = i + 1;
    }
    let loop_data = if present & PRESENT_LOOP != 0 {
        if len - o < 12 {
            return Err(Error::MalformedPayload("MCLP"));
        }
        let loop_type = payload[o];
        let start_frame = read_u32_at(payload, o + 4);
        let frame_count = read_u32_at(payload, o + 8);
        o = o + 12;
        Some(LoopData { loop_type, start_frame, frame_count })
    } else {
        None
    };
    *offset = o;
    Ok(PlaceObject { matrix, color_transform, blend_mode, filters, loop_data })
}

impl MovieClipBody {
    /// Reads a timeline body.
    #[verifier::loop_isolation(false)]
    pub fn parse(payload: &[u8]) -> (r: Result<MovieClipBody, Error>)
        ensures
            match spec_parse_movie_clip(payload@) {
                Ok(v) => r matches Ok(b) && b@ == v,
                Err(e) => r == Err::<MovieClipBody, Error>(e),
            },
    {
        let len = payload.len();
        let mut offset: usize = 0;
        let total_frame = match read_u32(payload, &mut offset) {
            Ok(v) => v,
            Err(e) => {
                return Err(e);
            },
        };
        let dictionary_count = match read_u32(payload, &mut offset) {
            Ok(v) => v,
            Err(e) => {
                return Err(e);
            },
        };
        if (dictionary_count as u64) * 16 > (len - offset) as u64 {
            return Err(Error::MalformedPayload("MCLP"));
        }
        let mut dictionary: Vec<DictionaryEntry> = Vec::new();
        let mut k: u32 = 0;
        while k < dictionary_count
            invariant
                len == payload@.len(),
                8 + 16 * dictionary_count <= len,
                k <= dictionary_count,
                offset == 8 + 16 * k,
                dictionary_count == u32_at(payload@, 4),
                dictionary@ == spec_dictionary_at(payload@, 8, k as nat),
            decreases dictionary_count - k,
        {
            let character_id = read_u32_at(payload, offset);
            let start_frame = read_u32_at(payload, offset + 4);
            let end_frame = read_u32_at(payload, offset + 8);
            let raw_depth = read_u32_at(payload, offset + 12);
            dictionary.push(
                DictionaryEntry {
                    character_id,
                    start_frame,
                    end_frame,
                    clip_depth: #[verifier::truncate] (raw_depth as i32),
                },
            );
            offset = offset + 16;
            k = k + 1;
            proof {
                assert(dictionary@ =~= spec_dictionary_at(payload@, 8, k as nat));
            }
        }
        let depth_count = match read_u32(payload, &mut offset) {
            Ok(v) => v,
            Err(e) => {
                return Err(e);
            },
        };
        let place_object_count = match read_u32(payload, &mut offset) {
            Ok(v) => v,
            Err(e) => {
                return Err(e);
            },
        };
        let ghost o_places = offset as int;
        let mut place_objects: Vec<PlaceObject> = Vec::new();
        proof {
            assert(places_view(place_objects@) =~= Seq::<PlaceObjectView>::empty());
        }
        let mut i: u32 = 0;
        while i < place_object_count
            invariant
                len == payload@.len(),
                o_places <= len,
                offset <= len,
                i <= place_object_count,
                spec_read_places(payload@, o_places, i as nat) == Ok::<(Seq<PlaceObjectView>, int), Error>((places_view(place_objects@), offset as int)),
            decreases place_object_count - i,
        {
            let ghost before = place_objects@;
            match parse_place_object(payload, &mut offset) {
                Ok(p) => {
                    place_objects.push(p);
                    proof {
                        assert(places_view(place_objects@) =~= places_view(before).push(p@));
                    }
                },
                Err(e) => {
                    proof {
                        lemma_places_fail_stays(payload@, o_places, (i + 1) as nat, place_object_count as nat);
                    }
                    return Err(e);
                },
            }
            i = i + 1;
        }
        proof {
            let d = depth_count as int;
            let t = total_frame as int;
            assert(0 <= d * t <= 0xFFFF_FFFF * 0xFFFF_FFFF) by (nonlinear_arith)
                requires
                    0 <= d <= 0xFFFF_FFFF,
                    0 <= t <= 0xFFFF_FFFF,
            ;
        }
        let cells: u64 = (depth_count as u64) * (total_frame as u64);
        let controller_len = match read_u32(payload, &mut offset) {
            Ok(v) => v,
            Err(e) => {
                return Err(e);
            },
        };
        if controller_len as u64 != cells {
            return Err(Error::MalformedPayload("MCLP"));
        }
        if (controller_len as u64) * 4 > (len - offset) as u64 {
            return Err(Error::MalformedPayload("MCLP"));
        }
        let controller = read_i32s_at(payload, offset, controller_len as usize);
        offset = offset + 4 * (controller_len as usize);
        let place_map_len = match read_u32(payload, &mut offset) {
            Ok(v) => v,
            Err(e) => {
                return Err(e);
            },
        };
        if place_map_len as u64 != cells {
            return Err(Error::MalformedPayload("MCLP"));
        }
        if (place_map_len as u64) * 4 > (len - offset) as u64 {
            return Err(Error::MalformedPayload("MCLP"));
        }
        let place_map = read_i32s_at(payload, offset, place_map_len as usize);
        proof {
            assert(dictionary@ == spec_dictionary_at(payload@, 8, dictionary_count as nat));
        }
        Ok(MovieClipBody { total_frame, dictionary, depth_count, place_objects, controller, place_map })
    }

    /// Reads the body that `body_offset`/`body_size` locate inside a whole
    /// `MCLP` payload.
    pub fn parse_at(mclp_payload: &[u8], body_offset: u32, body_size: u32) -> (r: Result<MovieClipBody, Error>)
        ensures
            match spec_body_window(mclp_payload@, body_offset, body_size) {
                None => r == Err::<MovieClipBody, Error>(malformed()),
                Some(w) => match spec_parse_movie_clip(w) {
                    Ok(v) => r matches Ok(b) && b@ == v,
                    Err(e) => r == Err::<MovieClipBody, Error>(e),
                },
            },
    {
        match body_window(mclp_payload, body_offset, body_size) {
            None => Err(Error::MalformedPayload("MCLP")),
            Some(w) => MovieClipBody::parse(w),
        }
    }
}

/// The bytes of one filter.
pub open spec fn spec_filter_bytes(f: PlaceFilterView) -> Seq<u8> {
    seq![f.class, f.params.len() as u8, 0u8, 0u8] + u32s_le(f.params)
}

/// The bytes of several filters, one after another.
pub open spec fn spec_filters_bytes(fs: Seq<PlaceFilterView>) -> Seq<u8>
    decreases fs.len(),
{
    if fs.len() == 0 {
        Seq::empty()
    } else {
        spec_filters_bytes(fs.drop_last()) + spec_filter_bytes(fs.last())
    }
}

/// The `present` byte the encoder writes for a placed object.
pub open spec fn spec_present(p: PlaceObjectView) -> u8 {
    (if p.matrix is Some {
        PRESENT_MATRIX
    } else {
        0u8
    }) | (if p.color_transform is Some {
        PRESENT_COLOR
    } else {
        0u8
    }) | (if p.blend_mode is Some {
        PRESENT_BLEND
    } else {
        0u8
    }) | (if p.filters.len() > 0 {
        PRESENT_FILTERS
    } else {
        0u8
    }) | (if p.loop_data is Some {
        PRESENT_LOOP
    } else {
        0u8
    })
}

/// The four fixed bytes of a placed object: `present`, the blend mode (0
/// when absent) and the `u16` filter count (0 when there are no filters).
pub open spec fn spec_place_head(p: PlaceObjectView) -> Seq<u8> {
    seq![
        spec_present(p),
        match p.blend_mode {
            Some(b) => b,
            None => 0u8,
        },
    ] + spec_u16_to_le_bytes(p.filters.len() as u16)
}

/// The matrix and color transform bytes of a placed object.
pub open spec fn spec_place_arrays(p: PlaceObjectView) -> Seq<u8> {
    (match p.matrix {
        Some(m) => u32s_le(m@),
        None => Seq::empty(),
    }) + (match p.color_transform {
        Some(c) => u32s_le(c@),
        None => Seq::empty(),
    })
}

/// The loop bytes of a placed object.
pub open spec fn spec_place_loop(p: PlaceObjectView) -> Seq<u8> {
    match p.loop_data {
        Some(l) => seq![l.loop_type, 0u8, 0u8, 0u8] + spec_u32_to_le_bytes(l.start_frame)
            + spec_u32_to_le_bytes(l.frame_count),
        None => Seq::empty(),
    }
}

/// The bytes of one placed object.
pub open spec fn spec_place_bytes(p: PlaceObjectView) -> Seq<u8> {
    spec_place_head(p) + spec_place_arrays(p) + spec_filters_bytes(p.filters) + spec_place_loop(p)
}

/// The bytes of several placed objects, one after another.
pub open spec fn spec_places_bytes(ps: Seq<PlaceObjectView>) -> Seq<u8>
    decreases ps.len(),
{
    if ps.len() == 0 {
        Seq::empty()
    } else {
        spec_places_bytes(ps.drop_last()) + spec_place_bytes(ps.last())
    }
}

/// The bytes of one dictionary entry.
pub open spec fn spec_dictionary_entry_bytes(d: DictionaryEntry) -> Seq<u8> {
    spec_u32_to_le_bytes(d.character_id) + spec_u32_to_le_bytes(d.start_frame)
        + spec_u32_to_le_bytes(d.end_frame) + i32_le(d.clip_depth)
}

/// The bytes of several dictionary entries, one after another.
pub open spec fn spec_dictionary_bytes(ds: Seq<DictionaryEntry>) -> Seq<u8>
    decreases ds.len(),
{
    if ds.len() == 0 {
        Seq::empty()
    } else {
        spec_dictionary_bytes(ds.drop_last()) + spec_dictionary_entry_bytes(ds.last())
    }
}

/// The bytes of a timeline body. Both matrix lengths are written as
/// `depth_count × total_frame` (truncated to 32 bits).
pub open spec fn spec_movie_clip_bytes(v: MovieClipView) -> Seq<u8> {
    let cells = (v.depth_count * v.total_frame) as u32;
    spec_u32_to_le_bytes(v.total_frame) + spec_u32_to_le_bytes(v.dictionary.len() as u32)
        + spec_dictionary_bytes(v.dictionary) + spec_u32_to_le_bytes(v.depth_count)
        + spec_u32_to_le_bytes(v.place_objects.len() as u32) + spec_places_bytes(v.place_objects)
        + spec_u32_to_le_bytes(cells) + i32s_le(v.controller) + spec_u32_to_le_bytes(cells)
        + i32s_le(v.place_map)
}

fn encode_filters(out: &mut Vec<u8>, filters: &Vec<PlaceFilter>)
    ensures
        final(out)@ == old(out)@ + spec_filters_bytes(filters_view(filters@)),
{
    let ghost start = out@;
    let mut i: usize = 0;
    while i < filters.len()
        invariant
            i <= filters@.len(),
            out@ == start + spec_filters_bytes(filters_view(filters@.subrange(0, i as int))),
        decreases filters@.len() - i,
    {
        let f = &filters[i];
        out.push(f.class);
        out.push(f.params.len() as u8);
        out.push(0);
        out.push(0);
        push_u32s(out, f.params.as_slice());
        proof {
            let next = filters_view(filters@.subrange(0, i + 1));
            assert(next.drop_last() =~= filters_view(filters@.subrange(0, i as int)));
            assert(next.last() == f@);
            assert(out@ =~= start + spec_filters_bytes(next));
        }
        i = i + 1;
    }
    proof {
        assert(filters@.subrange(0, i as int) =~= filters@);
    }
}

fn place_present(place: &PlaceObject) -> (present: u8)
    ensures
        present == spec_present(place@),
{
    (if place.matrix.is_some() {
        PRESENT_MATRIX
    } else {
        0u8
    }) | (if place.color_transform.is_some() {
        PRESENT_COLOR
    } else {
        0u8
    }) | (if place.blend_mode.is_some() {
        PRESENT_BLEND
    } else {
        0u8
    }) | (if place.filters.len() > 0 {
        PRESENT_FILTERS
    } else {
        0u8
    }) | (if place.loop_data.is_some() {
        PRESENT_LOOP
    } else {
        0u8
    })
}

fn encode_place_head(out: &mut Vec<u8>, place: &PlaceObject)
    ensures
        final(out)@ == old(out)@ + spec_place_head(place@),
{
    let ghost start = out@;
    out.push(place_present(place));
    out.push(
        match place.blend_mode {
            Some(b) => b,
            None => 0,
        },
    );
    push_u16(out, place.filters.len() as u16);
    proof {
        assert(out@ =~= start + spec_place_head(place@));
    }
}

fn encode_place_arrays(out: &mut Vec<u8>, place: &PlaceObject)
    ensures
        final(out)@ == old(out)@ + spec_place_arrays(place@),
{
    let ghost start = out@;
    match &place.matrix {
        Some(m) => push_u32s(out, m.as_slice()),
        None => {},
    }
    let ghost mid = out@;
    match &place.color_transform {
        Some(c) => push_u32s(out, c.as_slice()),
        None => {},
    }
    proof {
        assert(mid =~= start + match place@.matrix {
            Some(m) => u32s_le(m@),
            None => Seq::empty(),
        });
        assert(out@ =~= start + spec_place_arrays(place@));
    }
}

fn encode_place_loop(out: &mut Vec<u8>, place: &PlaceObject)
    ensures
        final(out)@ == old(out)@ + spec_place_loop(place@),
{
    let ghost start = out@;
    match place.loop_data {
        Some(l) => {
            out.push(l.loop_type);
            out.push(0);
            out.push(0);
            out.push(0);
            push_u32(out, l.start_frame);
            push_u32(out, l.frame_count);
        },
        None => {},
    }
    proof {
        assert(out@ =~= start + spec_place_loop(place@));
    }
}

fn encode_place_object(place: &PlaceObject) -> (out: Vec<u8>)
    ensures
        out@ == spec_place_bytes(place@),
{
    let mut out: Vec<u8> = Vec::new();
    encode_place_head(&mut out, place);
    encode_place_arrays(&mut out, place);
    encode_filters(&mut out, &place.filters);
    encode_place_loop(&mut out, place);
    proof {
        assert(out@ =~= spec_place_bytes(place@));
    }
    out
}

impl MovieClipBody {
    /// Encodes the body. The two matrix lengths are written as
    /// `depth_count × total_frame`, whatever the vectors hold.
    pub fn to_bytes(&self) -> (out: Vec<u8>)
        ensures
            out@ == spec_movie_clip_bytes(self@),
    {
        let mut out: Vec<u8> = Vec::new();
        push_u32(&mut out, self.total_frame);
        push_u32(&mut out, self.dictionary.len() as u32);
        let ghost d0 = out@;
        let mut i: usize = 0;
        while i < self.dictionary.len()
            invariant
                i <= self.dictionary@.len(),
                out@ == d0 + spec_dictionary_bytes(self.dictionary@.subrange(0, i as int)),
            decreases self.dictionary@.len() - i,
        {
            let entry = self.dictionary[i];
            push_u32(&mut out, entry.character_id);
            push_u32(&mut out, entry.start_frame);
            push_u32(&mut out, entry.end_frame);
            push_i32(&mut out, entry.clip_depth);
            proof {
                let next = self.dictionary@.subrange(0, i + 1);
                assert(next.drop_last() =~= self.dictionary@.subrange(0, i as int));
                assert(out@ =~= d0 + spec_dictionary_bytes(next));
            }
            i = i + 1;
        }
        proof {
            assert(self.dictionary@.subrange(0, i as int) =~= self.dictionary@);
        }
        push_u32(&mut out, self.depth_count);
        push_u32(&mut out, self.place_objects.len() as u32);
        let ghost p0 = out@;
        let mut j: usize = 0;
        while j < self.place_objects.len()
            invariant
                j <= self.place_objects@.len(),
                out@ == p0 + spec_places_bytes(places_view(self.place_objects@.subrange(0, j as int))),
            decreases self.place_objects@.len() - j,
        {
            let bytes = encode_place_object(&self.place_objects[j]);
            out.extend_from_slice(bytes.as_slice());
            proof {
                let next = places_view(self.place_objects@.subrange(0, j + 1));
                assert(next.drop_last() =~= places_view(self.place_objects@.subrange(0, j as int)));
                assert(next.last() == self.place_objects@[j as int]@);
                assert(out@ =~= p0 + spec_places_bytes(next));
            }
            j = j + 1;
        }
        proof {
            assert(self.place_objects@.subrange(0, j as int) =~= self.place_objects@);
            let d = self.depth_count as int;
            let t = self.total_frame as int;
            assert(0 <= d * t <= 0xFFFF_FFFF * 0xFFFF_FFFF) by (nonlinear_arith)
                requires
                    0 <= d <= 0xFFFF_FFFF,
                    0 <= t <= 0xFFFF_FFFF,
            ;
        }
        let cells = ((self.depth_count as u64) * (self.total_frame as u64)) as u32;
        push_u32(&mut out, cells);
        push_i32s(&mut out, self.controller.as_slice());
        push_u32(&mut out, cells);
        push_i32s(&mut out, self.place_map.as_slice());
        proof {
            assert(out@ =~= spec_movie_clip_bytes(self@));
        }
        out
    }
}

/// A filter fits its encoding: at most 255 parameters.
pub open spec fn filter_fits(f: PlaceFilterView) -> bool {
    f.params.len() <= 255
}

/// A placed object fits its encoding: at most 65535 filters, each fitting.
pub open spec fn place_fits(p: PlaceObjectView) -> bool {
    &&& p.filters.len() <= 0xFFFF
    &&& forall|i: int| 0 <= i < p.filters.len() ==> #[trigger] filter_fits(p.filters[i])
}

/// A timeline body fits its encoding: counts fit 32 bits, every placed
/// object fits, and both matrices hold exactly `depth_count × total_frame`
/// cells, a number that fits 32 bits.
pub open spec fn movie_clip_fits(v: MovieClipView) -> bool {
    &&& v.dictionary.len() <= u32::MAX
    &&& v.place_objects.len() <= u32::MAX
    &&& forall|i: int| 0 <= i < v.place_objects.len() ==> #[trigger] place_fits(v.place_objects[i])
    &&& v.depth_count * v.total_frame <= u32::MAX
    &&& v.controller.len() == v.depth_count * v.total_frame
    &&& v.place_map.len() == v.depth_count * v.total_frame
}

proof fn lemma_filter_round_trip(f: PlaceFilterView, s: Seq<u8>, o: int)
    requires
        0 <= o,
        filter_fits(f),
        o + spec_filter_bytes(f).len() <= s.len(),
        s.subrange(o, o + spec_filter_bytes(f).len()) == spec_filter_bytes(f),
    ensures
        spec_filter_bytes(f).len() == 4 + 4 * f.params.len(),
        spec_read_filter(s, o) == Ok::<(PlaceFilterView, int), Error>((f, o + spec_filter_bytes(f).len())),
{
    let b = spec_filter_bytes(f);
    let n = f.params.len();
    lemma_u32s_len(f.params);
    lemma_window(s, o, b, 0, 4);
    assert(s.subrange(o, o + 4)[0] == s[o]);
    assert(s.subrange(o, o + 4)[1] == s[o + 1]);
    assert(b.subrange(0, 4)[0] == f.class);
    assert(b.subrange(0, 4)[1] == n as u8);
    lemma_window(s, o, b, 4, b.len() as int);
    assert(b.subrange(4, b.len() as int) =~= u32s_le(f.params));
    lemma_u32s_round_trip(f.params, s, o + 4);
    let g = PlaceFilterView { class: s[o], params: u32s_at(s, o + 4, s[o + 1] as nat) };
    assert(g == f);
}

proof fn lemma_filters_round_trip(fs: Seq<PlaceFilterView>, s: Seq<u8>, o: int)
    requires
        0 <= o,
        forall|i: int| 0 <= i < fs.len() ==> #[trigger] filter_fits(fs[i]),
        o + spec_filters_bytes(fs).len() <= s.len(),
        s.subrange(o, o + spec_filters_bytes(fs).len()) == spec_filters_bytes(fs),
    ensures
        spec_read_filters(s, o, fs.len()) == Ok::<(Seq<PlaceFilterView>, int), Error>((fs, o + spec_filters_bytes(fs).len())),
    decreases fs.len(),
{
    if fs.len() == 0 {
        assert(fs =~= Seq::<PlaceFilterView>::empty());
    } else {
        let init = fs.drop_last();
        let last = fs.last();
        let all = spec_filters_bytes(fs);
        let bi = spec_filters_bytes(init);
        let bl = spec_filter_bytes(last);
        assert(all == bi + bl);
        lemma_window(s, o, all, 0, bi.len() as int);
        assert(all.subrange(0, bi.len() as int) =~= bi);
        assert forall|i: int| 0 <= i < init.len() implies #[trigger] filter_fits(init[i]) by {
            assert(init[i] == fs[i]);
        }
        lemma_filters_round_trip(init, s, o);
        lemma_window(s, o, all, bi.len() as int, all.len() as int);
        assert(all.subrange(bi.len() as int, all.len() as int) =~= bl);
        assert(filter_fits(fs[fs.len() - 1]));
        lemma_filter_round_trip(last, s, o + bi.len());
        assert(init.push(last) =~= fs);
    }
}

proof fn lemma_present_bits(p: PlaceObjectView)
    ensures
        (spec_present(p) & PRESENT_MATRIX != 0) == p.matrix is Some,
        (spec_present(p) & PRESENT_COLOR != 0) == p.color_transform is Some,
        (spec_present(p) & PRESENT_BLEND != 0) == p.blend_mode is Some,
        (spec_present(p) & PRESENT_FILTERS != 0) == (p.filters.len() > 0),
        (spec_present(p) & PRESENT_LOOP != 0) == p.loop_data is Some,
{
    let x = spec_present(p);
    let a = p.matrix is Some;
    let b = p.color_transform is Some;
    let c = p.blend_mode is Some;
    let d = p.filters.len() > 0;
    let e = p.loop_data is Some;
    assert(((x & 1u8) != 0u8) == a && ((x & 2u8) != 0u8) == b && ((x & 4u8) != 0u8) == c && ((x
        & 8u8) != 0u8) == d && ((x & 16u8) != 0u8) == e) by (bit_vector)
        requires
            x == (if a { 1u8 } else { 0u8 }) | (if b { 2u8 } else { 0u8 }) | (if c { 4u8 } else { 0u8 }) | (if d { 8u8 } else { 0u8 }) | (if e { 16u8 } else { 0u8 }),
    ;
}

/// A placed object that fits its encoding, written anywhere inside a
/// byte sequence, reads back as itself, and reading stops right after it.
#[verifier::rlimit(50)]
pub proof fn lemma_place_round_trip(p: PlaceObjectView, s: Seq<u8>, o: int)
    requires
        0 <= o,
        place_fits(p),
        o + spec_place_bytes(p).len() <= s.len(),
        s.subrange(o, o + spec_place_bytes(p).len()) == spec_place_bytes(p),
    ensures
        spec_read_place(s, o) == Ok::<(PlaceObjectView, int), Error>((p, o + spec_place_bytes(p).len())),
{
    lemma_auto_spec_u16_to_from_le_bytes();
    lemma_auto_spec_u32_to_from_le_bytes();
    lemma_present_bits(p);
    let all = spec_place_bytes(p);
    let head = spec_place_head(p);
    let arrays = spec_place_arrays(p);
    let fb = spec_filters_bytes(p.filters);
    let lb = spec_place_loop(p);
    assert(all == head + arrays + fb + lb);
    let present = spec_present(p);
    let hf = p.filters.len() > 0;
    assert(head.len() == 4);
    lemma_window(s, o, all, 0, 2);
    assert(s.subrange(o, o + 2)[0] == s[o]);
    assert(s.subrange(o, o + 2)[1] == s[o + 1]);
    assert(s[o] == present);
    lemma_window(s, o, all, 2, 4);
    assert(all.subrange(2, 4) =~= spec_u16_to_le_bytes(p.filters.len() as u16));
    lemma_u16_round_trip(p.filters.len() as u16, s, o + 2);
    let o1 = o + head.len();
    let ml: int = if p.matrix is Some {
        24int
    } else {
        0int
    };
    let cl: int = if p.color_transform is Some {
        32int
    } else {
        0int
    };
    if let Some(m) = p.matrix {
        assert(m@.len() == 6);
        lemma_u32s_len(m@);
        lemma_window(s, o, all, head.len() as int, head.len() as int + 24);
        assert(all.subrange(head.len() as int, head.len() as int + 24) =~= u32s_le(m@));
        lemma_u32x6_round_trip(m, s, o1);
    }
    if let Some(c) = p.color_transform {
        assert(c@.len() == 8);
        lemma_u32s_len(c@);
        let at: int = head.len() + ml;
        lemma_window(s, o, all, at, at + 32);
        assert(all.subrange(at, at + 32) =~= u32s_le(c@));
        lemma_u32x8_round_trip(c, s, o1 + ml);
    }
    let am: Seq<u8> = match p.matrix {
        Some(m) => u32s_le(m@),
        None => Seq::empty(),
    };
    if let Some(m) = p.matrix {
        assert(m@.len() == 6);
        lemma_u32s_len(m@);
    }
    if let Some(c) = p.color_transform {
        assert(c@.len() == 8);
        lemma_u32s_len(c@);
    }
    assert(arrays.len() == ml + cl);
    let o3 = o1 + ml + cl;
    let fstart: int = head.len() as int + arrays.len() as int;
    lemma_window(s, o, all, fstart, fstart + fb.len());
    assert(all.subrange(fstart, fstart + fb.len()) =~= fb);
    lemma_filters_round_trip(p.filters, s, o3);
    let o4 = o3 + fb.len();
    if let Some(l) = p.loop_data {
        let lstart: int = fstart + fb.len();
        assert(lb.len() == 12);
        lemma_window(s, o, all, lstart, lstart + 12);
        assert(s.subrange(o4, o4 + 12)[0] == s[o4]);
        assert(lb[0] == l.loop_type);
        assert(all.subrange(lstart, lstart + 12) =~= lb);
        assert(s.subrange(o4 + 4, o4 + 8) =~= lb.subrange(4, 8));
        assert(lb.subrange(4, 8) =~= spec_u32_to_le_bytes(l.start_frame));
        lemma_u32_round_trip(l.start_frame, s, o4 + 4);
        assert(s.subrange(o4 + 8, o4 + 12) =~= lb.subrange(8, 12));
        assert(lb.subrange(8, 12) =~= spec_u32_to_le_bytes(l.frame_count));
        lemma_u32_round_trip(l.frame_count, s, o4 + 8);
    }
}

proof fn lemma_places_round_trip(ps: Seq<PlaceObjectView>, s: Seq<u8>, o: int)
    requires
        0 <= o,
        forall|i: int| 0 <= i < ps.len() ==> #[trigger] place_fits(ps[i]),
        o + spec_places_bytes(ps).len() <= s.len(),
        s.subrange(o, o + spec_places_bytes(ps).len()) == spec_places_bytes(ps),
    ensures
        spec_read_places(s, o, ps.len()) == Ok::<(Seq<PlaceObjectView>, int), Error>((ps, o + spec_places_bytes(ps).len())),
    decreases ps.len(),
{
    if ps.len() == 0 {
        assert(ps =~= Seq::<PlaceObjectView>::empty());
    } else {
        let init = ps.drop_last();
        let last = ps.last();
        let all = spec_places_bytes(ps);
        let bi = spec_places_bytes(init);
        let bl = spec_place_bytes(last);
        assert(all == bi + bl);
        lemma_window(s, o, all, 0, bi.len() as int);
        assert(all.subrange(0, bi.len() as int) =~= bi);
        assert forall|i: int| 0 <= i < init.len() implies #[trigger] place_fits(init[i]) by {
            assert(init[i] == ps[i]);
        }
        lemma_places_round_trip(init, s, o);
        lemma_window(s, o, all, bi.len() as int, all.len() as int);
        assert(all.subrange(bi.len() as int, all.len() as int) =~= bl);
        assert(place_fits(ps[ps.len() - 1]));
        lemma_place_round_trip(last, s, o + bi.len());
        assert(init.push(last) =~= ps);
    }
}

proof fn lemma_dictionary_round_trip(ds: Seq<DictionaryEntry>, s: Seq<u8>, o: int)
    requires
        0 <= o,
        o + spec_dictionary_bytes(ds).len() <= s.len(),
        s.subrange(o, o + spec_dictionary_bytes(ds).len()) == spec_dictionary_bytes(ds),
    ensures
        spec_dictionary_bytes(ds).len() == 16 * ds.len(),
        spec_dictionary_at(s, o, ds.len()) == ds,
    decreases ds.len(),
{
    lemma_auto_spec_u32_to_from_le_bytes();
    if ds.len() == 0 {
        assert(spec_dictionary_at(s, o, 0) =~= ds);
    } else {
        let init = ds.drop_last();
        let d = ds.last();
        let all = spec_dictionary_bytes(ds);
        let bi = spec_dictionary_bytes(init);
        let bl = spec_dictionary_entry_bytes(d);
        assert(all == bi + bl);
        assert(bl.len() == 16);
        lemma_window(s, o, all, 0, bi.len() as int);
        assert(all.subrange(0, bi.len() as int) =~= bi);
        lemma_dictionary_round_trip(init, s, o);
        let at = o + 16 * init.len();
        lemma_window(s, o, all, bi.len() as int, all.len() as int);
        assert(all.subrange(bi.len() as int, all.len() as int) =~= bl);
        assert(s.subrange(at, at + 4) =~= bl.subrange(0, 4));
        assert(bl.subrange(0, 4) =~= spec_u32_to_le_bytes(d.character_id));
        lemma_u32_round_trip(d.character_id, s, at);
        assert(s.subrange(at + 4, at + 8) =~= bl.subrange(4, 8));
        assert(bl.subrange(4, 8) =~= spec_u32_to_le_bytes(d.start_frame));
        lemma_u32_round_trip(d.start_frame, s, at + 4);
        assert(s.subrange(at + 8, at + 12) =~= bl.subrange(8, 12));
        assert(bl.subrange(8, 12) =~= spec_u32_to_le_bytes(d.end_frame));
        lemma_u32_round_trip(d.end_frame, s, at + 8);
        assert(s.subrange(at + 12, at + 16) =~= bl.subrange(12, 16));
        assert(bl.subrange(12, 16) =~= i32_le(d.clip_depth));
        lemma_i32_round_trip(d.clip_depth, s, at + 12);
        assert forall|k: int| 0 <= k < ds.len() implies spec_dictionary_at(s, o, ds.len())[k] == ds[k] by {
            if k < init.len() {
                assert(spec_dictionary_at(s, o, init.len())[k] == init[k]);
            }
        }
        assert(spec_dictionary_at(s, o, ds.len()) =~= ds);
    }
}

/// An encoded timeline body parses back to the same body, as long as the
/// body fits its encoding.
#[verifier::rlimit(50)]
pub proof fn lemma_movie_clip_round_trip(v: MovieClipView)
    requires
        movie_clip_fits(v),
    ensures
        spec_parse_movie_clip(spec_movie_clip_bytes(v)) == Ok::<MovieClipView, Error>(v),
{
    lemma_auto_spec_u32_to_from_le_bytes();
    let s = spec_movie_clip_bytes(v);
    let cells = v.depth_count * v.total_frame;
    let c32 = cells as u32;
    let db = spec_dictionary_bytes(v.dictionary);
    let pb = spec_places_bytes(v.place_objects);
    let cb = i32s_le(v.controller);
    let mb = i32s_le(v.place_map);
    let t4 = spec_u32_to_le_bytes(v.total_frame);
    let n4 = spec_u32_to_le_bytes(v.dictionary.len() as u32);
    let d4 = spec_u32_to_le_bytes(v.depth_count);
    let p4 = spec_u32_to_le_bytes(v.place_objects.len() as u32);
    let c4 = spec_u32_to_le_bytes(c32);
    assert(s == t4 + n4 + db + d4 + p4 + pb + c4 + cb + c4 + mb);
    let dlen = v.dictionary.len() as int;
    // lengths of the variable parts
    lemma_i32s_len_only(v.controller);
    lemma_i32s_len_only(v.place_map);
    assert(s.subrange(8, 8 + db.len() as int) =~= db);
    lemma_dictionary_round_trip(v.dictionary, s, 8);
    let o1 = 8 + 16 * dlen;
    assert(s.subrange(0, 4) =~= t4);
    lemma_u32_round_trip(v.total_frame, s, 0);
    assert(s.subrange(4, 8) =~= n4);
    lemma_u32_round_trip(v.dictionary.len() as u32, s, 4);
    assert(s.subrange(o1, o1 + 4) =~= d4);
    lemma_u32_round_trip(v.depth_count, s, o1);
    assert(s.subrange(o1 + 4, o1 + 8) =~= p4);
    lemma_u32_round_trip(v.place_objects.len() as u32, s, o1 + 4);
    assert(s.subrange(o1 + 8, o1 + 8 + pb.len()) =~= pb);
    lemma_places_round_trip(v.place_objects, s, o1 + 8);
    let o2 = o1 + 8 + pb.len();
    assert(s.subrange(o2, o2 + 4) =~= c4);
    lemma_u32_round_trip(c32, s, o2);
    assert(s.subrange(o2 + 4, o2 + 4 + cb.len()) =~= cb);
    lemma_i32s_round_trip(v.controller, s, o2 + 4);
    let o3 = o2 + 4 + 4 * cells;
    assert(s.subrange(o3, o3 + 4) =~= c4);
    lemma_u32_round_trip(c32, s, o3);
    assert(s.subrange(o3 + 4, o3 + 4 + mb.len()) =~= mb);
    lemma_i32s_round_trip(v.place_map, s, o3 + 4);
}

proof fn lemma_i32s_len_only(vs: Seq<i32>)
    ensures
        i32s_le(vs).len() == 4 * vs.len(),
{
    lemma_u32s_len(vs.map_values(|v: i32| v as u32));
}


/// The fixed part of a timeline body's layout, read: `total_frame` is the
/// little-endian `u32` at 0 and the dictionary count the one at 4; then
/// come 16-byte dictionary entries, entry `k` at `8 + 16 * k` holding the
/// character id, the start frame, the end frame (each a `u32`) and the
/// clip depth (an `i32`), in that order; the depth count follows the last
/// entry.
pub proof fn lemma_movie_clip_read_layout(s: Seq<u8>)
    ensures
        spec_parse_movie_clip(s) matches Ok(m) ==> {
            &&& m.total_frame == spec_u32_from_le_bytes(s.subrange(0, 4))
            &&& m.dictionary.len() == spec_u32_from_le_bytes(s.subrange(4, 8))
            &&& forall|k: int| 0 <= k < m.dictionary.len() ==> {
                let at = 8 + 16 * k;
                &&& (#[trigger] m.dictionary[k]).character_id == spec_u32_from_le_bytes(s.subrange(at, at + 4))
                &&& m.dictionary[k].start_frame == spec_u32_from_le_bytes(s.subrange(at + 4, at + 8))
                &&& m.dictionary[k].end_frame == spec_u32_from_le_bytes(s.subrange(at + 8, at + 12))
                &&& m.dictionary[k].clip_depth == spec_u32_from_le_bytes(s.subrange(at + 12, at + 16)) as i32
            }
            &&& m.depth_count == spec_u32_from_le_bytes(
                s.subrange(8 + 16 * m.dictionary.len() as int, 12 + 16 * m.dictionary.len() as int),
            )
        },
{
}

/// Reading `k` filters that succeeds gives `k` filters.
proof fn lemma_read_filters_len(s: Seq<u8>, o: int, k: nat)
    ensures
        spec_read_filters(s, o, k) matches Ok((fs, _)) ==> fs.len() == k,
    decreases k,
{
    if k > 0 {
        lemma_read_filters_len(s, o, (k - 1) as nat);
    }
}

/// A placed object's layout, read: byte 0 is `present` (bit 0 matrix,
/// bit 1 color transform, bit 2 blend mode, bit 3 filters, bit 4 loop),
/// byte 1 the blend mode, bytes 2..4 the little-endian `u16` filter count;
/// the matrix (six `u32`s) follows at 4 when flagged, then the color
/// transform (eight `u32`s) when flagged, then the filters, then the loop
/// (its type byte, three pad bytes, the start frame and the frame count).
pub proof fn lemma_place_read_layout(s: Seq<u8>, o: int)
    requires
        0 <= o,
    ensures
        spec_read_place(s, o) matches Ok((p, next)) ==> {
            let present = s[o];
            let m_at = o + 4;
            let c_at = if present & 1 != 0 { m_at + 24 } else { m_at };
            &&& (p.matrix is Some <==> present & 1 != 0)
            &&& (p.color_transform is Some <==> present & 2 != 0)
            &&& (p.blend_mode is Some <==> present & 4 != 0)
            &&& (p.loop_data is Some <==> present & 16 != 0)
            &&& (p.blend_mode matches Some(b) ==> b == s[o + 1])
            &&& p.filters.len() == (if present & 8 != 0 { spec_u16_from_le_bytes(s.subrange(o + 2, o + 4)) as nat } else { 0nat })
            &&& (p.matrix matches Some(m) ==> forall|k: int| 0 <= k < 6 ==> #[trigger] m[k]
                == spec_u32_from_le_bytes(s.subrange(m_at + 4 * k, m_at + 4 * k + 4)))
            &&& (p.color_transform matches Some(c) ==> forall|k: int| 0 <= k < 8 ==> #[trigger] c[k]
                == spec_u32_from_le_bytes(s.subrange(c_at + 4 * k, c_at + 4 * k + 4)))
            &&& (p.loop_data matches Some(l) ==> l.loop_type == s[next - 12]
                && l.start_frame == spec_u32_from_le_bytes(s.subrange(next - 8, next - 4))
                && l.frame_count == spec_u32_from_le_bytes(s.subrange(next - 4, next)))
        },
{
    if let Ok((p, next)) = spec_read_place(s, o) {
        let present = s[o];
        let count: nat = if present & PRESENT_FILTERS != 0 { u16_at(s, o + 2) as nat } else { 0nat };
        let o3 = o + 4 + (if present & PRESENT_MATRIX != 0 { 24int } else { 0int }) + (if present & PRESENT_COLOR != 0 { 32int } else { 0int });
        lemma_read_filters_len(s, o3, count);
        assert(((present & PRESENT_MATRIX) != 0) == ((present & 1) != 0));
        assert(((present & PRESENT_COLOR) != 0) == ((present & 2) != 0));
        assert(((present & PRESENT_BLEND) != 0) == ((present & 4) != 0));
        assert(((present & PRESENT_FILTERS) != 0) == ((present & 8) != 0));
        assert(((present & PRESENT_LOOP) != 0) == ((present & 16) != 0));
        if let Some(m) = p.matrix {
            assert forall|k: int| 0 <= k < 6 implies #[trigger] m[k] == spec_u32_from_le_bytes(s.subrange(o + 4 + 4 * k, o + 4 + 4 * k + 4)) by {
                assert(m@[k] == m[k]);
            }
        }
        let c_at = if present & 1 != 0 { o + 28 } else { o + 4 };
        if let Some(c) = p.color_transform {
            assert forall|k: int| 0 <= k < 8 implies #[trigger] c[k] == spec_u32_from_le_bytes(s.subrange(c_at + 4 * k, c_at + 4 * k + 4)) by {
                assert(c@[k] == c[k]);
            }
        }
    }
}
} // verus!
