//! The decisions behind the host-facing calls: which value or which error
//! code each call gives, and what it records as the last error. The calls
//! themselves (pointers, `extern "C"`) live outside the library.
//!
//! A negative `i32` is an error code: `-1..=-14` are [`crate::Error`]
//! codes, `-100` and below are the codes of this module. Every call that
//! succeeds clears the last error to zero.

use crate::mclip::spec_parse_movie_clip;
use crate::registry::{
    instance, movie_clip_body, movie_clip_total_frame, open_count, set_last_error,
    spec_movie_clip_body, spec_open_count, InstanceView, Registry,
};
use crate::chrs::CharacterKind;
use crate::stage::Stage;
use crate::timeline::{evaluate_frame, spec_render_list, FrameError, RenderItem, RENDER_ITEM_FLOATS};
use crate::{SPEC_VERSION_MAJOR, SPEC_VERSION_MINOR};
use vstd::bytes::{spec_u32_from_le_bytes, u32_from_le_bytes};
use vstd::prelude::*;

verus! {

/// A call's argument is out of range.
pub const BAD_ARGUMENT: i32 = -100;

/// The handle names no open file.
pub const BAD_HANDLE: i32 = -101;

/// The output buffer is too small.
pub const BAD_BUFFER: i32 = -102;

/// The format version this library implements: major in the high 16 bits,
/// minor in the low 16 bits.
pub fn zwf_spec_version() -> (v: u32)
    ensures
        v == SPEC_VERSION_MAJOR * 65536 + SPEC_VERSION_MINOR,
{
    (SPEC_VERSION_MAJOR as u32) * 65536 + SPEC_VERSION_MINOR as u32
}

/// How many files are open (for the host's leak checks).
pub fn zwf_open_count(reg: &Registry) -> (n: u32)
    ensures
        n == spec_open_count(reg.spec_slots()) as u32,
{
    open_count(reg) as u32
}

/// The number of `f32` slots one render item takes.
pub fn zwf_render_item_stride() -> (n: u32)
    ensures
        n == RENDER_ITEM_FLOATS,
{
    RENDER_ITEM_FLOATS as u32
}

/// The registry is left as it was, but for the last error.
pub open spec fn only_error_changed(before: Registry, after: Registry) -> bool {
    &&& after.spec_slots() == before.spec_slots()
    &&& forall|h: int| #[trigger] after.instance_at(h) == before.instance_at(h)
}

fn stage_of(reg: &Registry, handle: i32) -> (r: Option<Stage>)
    ensures
        match reg.spec_instance(handle as int) {
            Some(v) => r == Some(v.stage),
            None => r is None,
        },
{
    match instance(reg, handle) {
        Some(inst) => Some(inst.stage),
        None => None,
    }
}

/// The stage width of an open file; 0 (and `BAD_HANDLE` as the last error)
/// when the handle is not open.
pub fn zwf_stage_width(reg: &mut Registry, handle: i32) -> (r: u32)
    ensures
        only_error_changed(*old(reg), *final(reg)),
        match old(reg).spec_instance(handle as int) {
            Some(v) => r == v.stage.width && final(reg).spec_last_error() == 0,
            None => r == 0 && final(reg).spec_last_error() == BAD_HANDLE,
        },
{
    match stage_of(reg, handle) {
        Some(st) => {
            set_last_error(reg, 0);
            st.width
        },
        None => {
            set_last_error(reg, BAD_HANDLE);
            0
        },
    }
}

/// The stage height of an open file; 0 (and `BAD_HANDLE`) when not open.
pub fn zwf_stage_height(reg: &mut Registry, handle: i32) -> (r: u32)
    ensures
        only_error_changed(*old(reg), *final(reg)),
        match old(reg).spec_instance(handle as int) {
            Some(v) => r == v.stage.height && final(reg).spec_last_error() == 0,
            None => r == 0 && final(reg).spec_last_error() == BAD_HANDLE,
        },
{
    match stage_of(reg, handle) {
        Some(st) => {
            set_last_error(reg, 0);
            st.height
        },
        None => {
            set_last_error(reg, BAD_HANDLE);
            0
        },
    }
}

/// The stored frame rate of an open file, as `f32` bits; 0 (the bits of
/// 0.0, and `BAD_HANDLE`) when not open.
pub fn zwf_stage_fps(reg: &mut Registry, handle: i32) -> (r: u32)
    ensures
        only_error_changed(*old(reg), *final(reg)),
        match old(reg).spec_instance(handle as int) {
            Some(v) => r == v.stage.fps_bits && final(reg).spec_last_error() == 0,
            None => r == 0 && final(reg).spec_last_error() == BAD_HANDLE,
        },
{
    match stage_of(reg, handle) {
        Some(st) => {
            set_last_error(reg, 0);
            st.fps_bits
        },
        None => {
            set_last_error(reg, BAD_HANDLE);
            0
        },
    }
}

/// The background color (`0xRRGGBBAA`) of an open file; 0 (and
/// `BAD_HANDLE`) when not open.
pub fn zwf_stage_bg_rgba(reg: &mut Registry, handle: i32) -> (r: u32)
    ensures
        only_error_changed(*old(reg), *final(reg)),
        match old(reg).spec_instance(handle as int) {
            Some(v) => r == v.stage.bg_rgba && final(reg).spec_last_error() == 0,
            None => r == 0 && final(reg).spec_last_error() == BAD_HANDLE,
        },
{
    match stage_of(reg, handle) {
        Some(st) => {
            set_last_error(reg, 0);
            st.bg_rgba
        },
        None => {
            set_last_error(reg, BAD_HANDLE);
            0
        },
    }
}

/// The root movie clip of an open file; 0 (and `BAD_HANDLE`) when not open.
pub fn zwf_root_character_id(reg: &mut Registry, handle: i32) -> (r: u32)
    ensures
        only_error_changed(*old(reg), *final(reg)),
        match old(reg).spec_instance(handle as int) {
            Some(v) => r == v.stage.root_character_id && final(reg).spec_last_error() == 0,
            None => r == 0 && final(reg).spec_last_error() == BAD_HANDLE,
        },
{
    match stage_of(reg, handle) {
        Some(st) => {
            set_last_error(reg, 0);
            st.root_character_id
        },
        None => {
            set_last_error(reg, BAD_HANDLE);
            0
        },
    }
}

/// The number of chunks in an open file; `BAD_HANDLE` when not open.
pub fn zwf_chunk_count(reg: &mut Registry, handle: i32) -> (r: i32)
    ensures
        only_error_changed(*old(reg), *final(reg)),
        match old(reg).spec_instance(handle as int) {
            Some(v) => r == v.chunk_ids.len() as i32 && final(reg).spec_last_error() == 0,
            None => r == BAD_HANDLE && final(reg).spec_last_error() == BAD_HANDLE,
        },
{
    let n = match instance(reg, handle) {
        Some(inst) => Some(inst.chunk_ids.len()),
        None => None,
    };
    match n {
        Some(n) => {
            set_last_error(reg, 0);
            n as i32
        },
        None => {
            set_last_error(reg, BAD_HANDLE);
            BAD_HANDLE
        },
    }
}

/// The identifier of chunk `index` of an open file, as the little-endian
/// `u32` of its four bytes. 0 with `BAD_ARGUMENT` when there is no such
/// chunk, 0 with `BAD_HANDLE` when not open.
pub fn zwf_chunk_id_at(reg: &mut Registry, handle: i32, index: u32) -> (r: u32)
    ensures
        only_error_changed(*old(reg), *final(reg)),
        match old(reg).spec_instance(handle as int) {
            Some(v) => if index < v.chunk_ids.len() {
                r == spec_u32_from_le_bytes(v.chunk_ids[index as int].0@) && final(reg).spec_last_error() == 0
            } else {
                r == 0 && final(reg).spec_last_error() == BAD_ARGUMENT
            },
            None => r == 0 && final(reg).spec_last_error() == BAD_HANDLE,
        },
{
    let found: Option<Option<u32>> = match instance(reg, handle) {
        Some(inst) => {
            let i = index as usize;
            if i < inst.chunk_ids.len() {
                let id = inst.chunk_ids[i];
                Some(Some(u32_from_le_bytes(id.0.as_slice())))
            } else {
                Some(None)
            }
        },
        None => None,
    };
    match found {
        Some(Some(id)) => {
            set_last_error(reg, 0);
            id
        },
        Some(None) => {
            set_last_error(reg, BAD_ARGUMENT);
            0
        },
        None => {
            set_last_error(reg, BAD_HANDLE);
            0
        },
    }
}

/// The file flags of an open file: bit 0 signed, bit 1 streamable.
/// `BAD_HANDLE` when not open.
pub fn zwf_file_flags(reg: &mut Registry, handle: i32) -> (r: i32)
    ensures
        only_error_changed(*old(reg), *final(reg)),
        match old(reg).spec_instance(handle as int) {
            Some(v) => r == (if v.is_signed { 1int } else { 0int }) + (if v.is_streamable { 2int } else { 0int })
                && final(reg).spec_last_error() == 0,
            None => r == BAD_HANDLE && final(reg).spec_last_error() == BAD_HANDLE,
        },
{
    let found = match instance(reg, handle) {
        Some(inst) => Some((if inst.is_signed { 1i32 } else { 0i32 }) + (if inst.is_streamable { 2i32 } else { 0i32 })),
        None => None,
    };
    match found {
        Some(flags) => {
            set_last_error(reg, 0);
            flags
        },
        None => {
            set_last_error(reg, BAD_HANDLE);
            BAD_HANDLE
        },
    }
}

/// The number of characters of an open file; `BAD_HANDLE` when not open.
pub fn zwf_character_count(reg: &mut Registry, handle: i32) -> (r: i32)
    ensures
        only_error_changed(*old(reg), *final(reg)),
        match old(reg).spec_instance(handle as int) {
            Some(v) => r == v.characters.len() as i32 && final(reg).spec_last_error() == 0,
            None => r == BAD_HANDLE && final(reg).spec_last_error() == BAD_HANDLE,
        },
{
    let n = match instance(reg, handle) {
        Some(inst) => Some(inst.characters.entries.len()),
        None => None,
    };
    match n {
        Some(n) => {
            set_last_error(reg, 0);
            n as i32
        },
        None => {
            set_last_error(reg, BAD_HANDLE);
            BAD_HANDLE
        },
    }
}

/// The kind code (1 = movie clip … 5 = text) of a character of an open
/// file. 0 with `BAD_ARGUMENT` when there is no such character;
/// `BAD_HANDLE` when not open.
pub fn zwf_character_kind(reg: &mut Registry, handle: i32, character_id: u32) -> (r: i32)
    ensures
        only_error_changed(*old(reg), *final(reg)),
        match old(reg).spec_instance(handle as int) {
            Some(v) => if character_id < v.characters.len() {
                r == v.characters[character_id as int].kind.to_u8() && final(reg).spec_last_error() == 0
            } else {
                r == 0 && final(reg).spec_last_error() == BAD_ARGUMENT
            },
            None => r == BAD_HANDLE && final(reg).spec_last_error() == BAD_HANDLE,
        },
{
    let found: Option<Option<i32>> = match instance(reg, handle) {
        Some(inst) => {
            let i = character_id as usize;
            if i < inst.characters.entries.len() {
                Some(Some(inst.characters.entries[i].kind.to_u8() as i32))
            } else {
                Some(None)
            }
        },
        None => None,
    };
    match found {
        Some(Some(kind)) => {
            set_last_error(reg, 0);
            kind
        },
        Some(None) => {
            set_last_error(reg, BAD_ARGUMENT);
            0
        },
        None => {
            set_last_error(reg, BAD_HANDLE);
            BAD_HANDLE
        },
    }
}

/// What [`zwf_mclip_total_frame`] gives for a character that does not
/// exist or is not a movie clip.
pub const NOT_A_MOVIE_CLIP: i32 = -1;

/// The `total_frame` of a movie clip of an open file. For a character that
/// does not exist or is not a movie clip it gives `NOT_A_MOVIE_CLIP` (-1),
/// recording `BAD_ARGUMENT` as the last error; when the timeline cannot be
/// read it gives the error code of why (also recorded as the last error).
pub fn zwf_mclip_total_frame(reg: &mut Registry, handle: i32, character_id: u32) -> (r: i32)
    ensures
        only_error_changed(*old(reg), *final(reg)),
        match old(reg).spec_instance(handle as int) {
            Some(v) => if character_id >= v.characters.len() || v.characters[character_id as int].kind
                != CharacterKind::MovieClip {
                r == NOT_A_MOVIE_CLIP && final(reg).spec_last_error() == BAD_ARGUMENT
            } else {
                match spec_movie_clip_body(v, character_id) {
                    Ok(m) => r == m.total_frame as i32 && final(reg).spec_last_error() == 0,
                    Err(c) => r == c && final(reg).spec_last_error() == c,
                }
            },
            None => r == BAD_HANDLE && final(reg).spec_last_error() == BAD_HANDLE,
        },
{
    let found = match instance(reg, handle) {
        Some(inst) => {
            proof {
                assert(reg.instance_at(handle as int) is Some);
            }
            Some(movie_clip_total_frame(inst, character_id))
        },
        None => None,
    };
    match found {
        Some(Ok(total)) => {
            set_last_error(reg, 0);
            total as i32
        },
        Some(Err(code)) => {
            if code == BAD_ARGUMENT {
                set_last_error(reg, BAD_ARGUMENT);
                return NOT_A_MOVIE_CLIP;
            }
            set_last_error(reg, code);
            code
        },
        None => {
            set_last_error(reg, BAD_HANDLE);
            BAD_HANDLE
        },
    }
}

/// What evaluating frame `frame` of movie clip `character_id` gives: its
/// display list, `BAD_ARGUMENT` when the frame is not below `total_frame`,
/// or the code of why the timeline cannot be read.
pub open spec fn spec_eval_frame(v: InstanceView, character_id: u32, frame: u32) -> Result<Seq<RenderItem>, int> {
    match spec_movie_clip_body(v, character_id) {
        Err(c) => Err(c),
        Ok(m) => if frame >= m.total_frame {
            Err(BAD_ARGUMENT as int)
        } else {
            Ok(spec_render_list(m, frame, m.depth_count as nat))
        },
    }
}

/// A parsed timeline holds one controller cell per depth and frame.
proof fn lemma_parsed_controller_covers(w: Seq<u8>, frame: u32)
    requires
        spec_parse_movie_clip(w) is Ok,
    ensures
        crate::timeline::controller_covers(spec_parse_movie_clip(w).unwrap(), frame),
{
    let m = spec_parse_movie_clip(w).unwrap();
    let d = m.depth_count as int;
    let t = m.total_frame as int;
    assert(m.controller.len() == d * t);
    if frame < t && d > 0 {
        assert((d - 1) * t + frame < d * t) by (nonlinear_arith)
            requires
                frame < t,
                d > 0,
        ;
    }
}

/// Evaluates frame `frame` of movie clip `character_id` of an open file.
///
/// Gives the code to return and the items to write. When the host wants
/// the items written (`writes_output`, with a non-zero `out_capacity` in
/// `f32` slots) and they need more slots than it has, the code is
/// `BAD_BUFFER`. Otherwise a success gives the number of items, and a
/// failure its error code; the code is also recorded as the last error.
pub fn zwf_eval_frame(
    reg: &mut Registry,
    handle: i32,
    character_id: u32,
    frame: u32,
    writes_output: bool,
    out_capacity: u32,
) -> (r: (i32, Vec<RenderItem>))
    ensures
        only_error_changed(*old(reg), *final(reg)),
        match old(reg).spec_instance(handle as int) {
            None => r.0 == BAD_HANDLE && final(reg).spec_last_error() == BAD_HANDLE,
            Some(v) => match spec_eval_frame(v, character_id, frame) {
                Err(c) => r.0 == c && final(reg).spec_last_error() == c,
                Ok(items) => {
                    &&& r.1@ == items
                    &&& if writes_output && out_capacity > 0 && out_capacity < items.len() * RENDER_ITEM_FLOATS {
                        r.0 == BAD_BUFFER && final(reg).spec_last_error() == BAD_BUFFER
                    } else {
                        r.0 == items.len() as i32 && final(reg).spec_last_error() == 0
                    }
                },
            },
        },
{
    let result: Option<Result<Vec<RenderItem>, i32>> = match instance(reg, handle) {
        Some(inst) => {
            proof {
                assert(reg.instance_at(handle as int) is Some);
            }
            match movie_clip_body(inst, character_id) {
                Err(code) => Some(Err(code)),
                Ok(body) => {
                    proof {
                        let v = inst@;
                        let e = v.characters[character_id as int];
                        let p = crate::registry::spec_span_payload(v.bytes, crate::reader::spec_parse_archive(v.bytes).unwrap().1[crate::reader::spec_first_index(crate::reader::span_ids(crate::reader::spec_parse_archive(v.bytes).unwrap().1), crate::chunk::ChunkId::mclp())]).unwrap();
                        let w = crate::le::spec_body_window(p, e.body_offset, e.body_size).unwrap();
                        lemma_parsed_controller_covers(w, frame);
                    }
                    match evaluate_frame(&body, frame) {
                        Ok(items) => Some(Ok(items)),
                        Err(FrameError::OutOfRange) => Some(Err(BAD_ARGUMENT)),
                        Err(FrameError::BufferTooSmall { .. }) => Some(Err(BAD_BUFFER)),
                    }
                },
            }
        },
        None => None,
    };
    match result {
        Some(Ok(items)) => {
            let count = items.len();
            if writes_output && out_capacity > 0 && ((out_capacity / 17) as usize) < count {
                set_last_error(reg, BAD_BUFFER);
                return (BAD_BUFFER, items);
            }
            set_last_error(reg, 0);
            (#[verifier::truncate] (count as i32), items)
        },
        Some(Err(code)) => {
            set_last_error(reg, code);
            (code, Vec::new())
        },
        None => {
            set_last_error(reg, BAD_HANDLE);
            (BAD_HANDLE, Vec::new())
        },
    }
}

} // verus!
