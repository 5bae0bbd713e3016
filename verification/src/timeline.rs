//! Evaluating a movie-clip timeline: the display list of one frame.
//!
//! `controller` and `place_map` are dense `depth × frame` matrices; the cell
//! of depth `d` at frame `f` is `d * total_frame + f`.

use crate::mclip::{DictionaryEntry, MovieClipBody, MovieClipView, PlaceObject, PlaceObjectView};
use vstd::prelude::*;

verus! {

/// Number of `f32` slots one render item takes in the host's buffer.
pub const RENDER_ITEM_FLOATS: usize = 17;

/// Slot of the depth: `[depth, character_id, matrix×6, color×8, blend_mode]`.
pub const RENDER_ITEM_DEPTH: usize = 0;

/// Slot of the character id.
pub const RENDER_ITEM_CHARACTER_ID: usize = 1;

/// First slot of the matrix.
pub const RENDER_ITEM_MATRIX: usize = 2;

/// First slot of the color transform.
pub const RENDER_ITEM_COLOR: usize = 8;

/// Slot of the blend mode.
pub const RENDER_ITEM_BLEND: usize = 16;

/// The identity matrix `[1, 0, 0, 1, 0, 0]`, as `f32` bits.
pub const IDENTITY_MATRIX: [u32; 6] = [0x3F80_0000, 0, 0, 0x3F80_0000, 0, 0];

/// The identity color transform, used when none is placed: in the layout
/// `[rM, gM, bM, aM, rO, gO, bO, aO]` every multiplier is 1 and every
/// offset 0, that is `[1, 1, 1, 1, 0, 0, 0, 0]`, as `f32` bits.
pub const IDENTITY_COLOR_TRANSFORM: [u32; 8] = [0x3F80_0000, 0x3F80_0000, 0x3F80_0000, 0x3F80_0000, 0, 0, 0, 0];

/// One object shown at one depth.
#[derive(Debug, Clone, Copy, PartialEq, Eq)]
pub struct RenderItem {
    pub depth: u32,
    pub character_id: u32,
    /// As `f32` bits.
    pub matrix: [u32; 6],
    /// As `f32` bits.
    pub color_transform: [u32; 8],
    pub blend_mode: u8,
}

/// Why a frame could not be evaluated or written.
#[derive(Debug, Clone, Copy, PartialEq, Eq, Structural)]
pub enum FrameError {
    /// The frame is not below `total_frame`.
    OutOfRange,
    /// The output buffer holds fewer `f32` slots than the items need.
    BufferTooSmall { needed_floats: usize },
}

/// Whether a dictionary entry shows at `frame`: `start_frame == 1` with
/// `end_frame == 0` means "always", otherwise `start_frame <= frame < end_frame`.
pub open spec fn spec_active(entry: DictionaryEntry, frame: u32) -> bool {
    (entry.start_frame == 1 && entry.end_frame == 0) || (entry.start_frame <= frame
        && entry.end_frame > frame)
}

/// The placed object that a cell of `place_map` points at, if any.
pub open spec fn spec_place_at(v: MovieClipView, cell: int) -> Option<PlaceObjectView> {
    if cell < 0 || cell >= v.place_map.len() {
        None
    } else if v.place_map[cell] < 0 || v.place_map[cell] >= v.place_objects.len() {
        None
    } else {
        Some(v.place_objects[v.place_map[cell] as int])
    }
}

/// The item shown at `depth` on `frame`, if any: the controller cell names a
/// dictionary entry that exists and is active; the placed object of the
/// cell, when there is one, gives matrix, color transform and blend mode.
pub open spec fn spec_item_at(v: MovieClipView, depth: int, frame: u32) -> Option<RenderItem> {
    let cell = depth * v.total_frame + frame;
    let di = v.controller[cell];
    if di < 0 || di >= v.dictionary.len() {
        None
    } else if !spec_active(v.dictionary[di as int], frame) {
        None
    } else {
        let place = spec_place_at(v, cell);
        Some(
            RenderItem {
                depth: depth as u32,
                character_id: v.dictionary[di as int].character_id,
                matrix: match place {
                    Some(p) => match p.matrix {
                        Some(m) => m,
                        None => IDENTITY_MATRIX,
                    },
                    None => IDENTITY_MATRIX,
                },
                color_transform: match place {
                    Some(p) => match p.color_transform {
                        Some(c) => c,
                        None => IDENTITY_COLOR_TRANSFORM,
                    },
                    None => IDENTITY_COLOR_TRANSFORM,
                },
                blend_mode: match place {
                    Some(p) => match p.blend_mode {
                        Some(b) => b,
                        None => 0u8,
                    },
                    None => 0u8,
                },
            },
        )
    }
}

/// The items of the first `d` depths, in depth order.
pub open spec fn spec_render_list(v: MovieClipView, frame: u32, d: nat) -> Seq<RenderItem>
    decreases d,
{
    if d == 0 {
        Seq::empty()
    } else {
        spec_render_list(v, frame, (d - 1) as nat) + match spec_item_at(v, d - 1, frame) {
            Some(item) => seq![item],
            None => Seq::empty(),
        }
    }
}

/// The controller holds a cell for every depth at `frame`.
pub open spec fn controller_covers(v: MovieClipView, frame: u32) -> bool {
    frame < v.total_frame && v.depth_count > 0 ==> (v.depth_count - 1) * v.total_frame + frame
        < v.controller.len()
}

/// Whether the dictionary entry is active at `frame`.
fn dictionary_active(entry: &DictionaryEntry, frame: u32) -> (b: bool)
    ensures
        b == spec_active(*entry, frame),
{
    (entry.start_frame == 1 && entry.end_frame == 0) || (entry.start_frame <= frame
        && entry.end_frame > frame)
}

fn place_object_at<'a>(body: &'a MovieClipBody, cell: usize) -> (r: Option<&'a PlaceObject>)
    ensures
        match spec_place_at(body@, cell as int) {
            Some(p) => r matches Some(q) && q@ == p,
            None => r is None,
        },
{
    if cell >= body.place_map.len() {
        return None;
    }
    let place_idx = body.place_map[cell];
    if place_idx < 0 {
        return None;
    }
    let idx = place_idx as usize;
    if idx >= body.place_objects.len() {
        return None;
    }
    Some(&body.place_objects[idx])
}

fn item_at(body: &MovieClipBody, depth: u32, frame: u32, cell: usize) -> (r: Option<RenderItem>)
    requires
        cell == depth * body.total_frame + frame,
        cell < body.controller@.len(),
    ensures
        r == spec_item_at(body@, depth as int, frame),
{
    let dict_idx = body.controller[cell];
    if dict_idx < 0 {
        return None;
    }
    let di = dict_idx as usize;
    if di >= body.dictionary.len() {
        return None;
    }
    let entry = &body.dictionary[di];
    if !dictionary_active(entry, frame) {
        return None;
    }
    let place = place_object_at(body, cell);
    let matrix = match place {
        Some(p) => match p.matrix {
            Some(m) => m,
            None => IDENTITY_MATRIX,
        },
        None => IDENTITY_MATRIX,
    };
    let color_transform = match place {
        Some(p) => match p.color_transform {
            Some(c) => c,
            None => IDENTITY_COLOR_TRANSFORM,
        },
        None => IDENTITY_COLOR_TRANSFORM,
    };
    let blend_mode = match place {
        Some(p) => match p.blend_mode {
            Some(b) => b,
            None => 0,
        },
        None => 0,
    };
    Some(RenderItem { depth, character_id: entry.character_id, matrix, color_transform, blend_mode })
}

/// The display list of `frame`, in ascending depth order.
pub fn evaluate_frame(body: &MovieClipBody, frame: u32) -> (r: Result<Vec<RenderItem>, FrameError>)
    requires
        controller_covers(body@, frame),
    ensures
        frame >= body.total_frame ==> r == Err::<Vec<RenderItem>, FrameError>(FrameError::OutOfRange),
        frame < body.total_frame ==> (r matches Ok(items) && items@ == spec_render_list(body@, frame, body.depth_count as nat)),
{
    if frame >= body.total_frame {
        return Err(FrameError::OutOfRange);
    }
    let clen = body.controller.len();
    let mut items: Vec<RenderItem> = Vec::new();
    let mut depth: u32 = 0;
    while depth < body.depth_count
        invariant
            clen == body.controller@.len(),
            frame < body.total_frame,
            controller_covers(body@, frame),
            depth <= body.depth_count,
            items@ == spec_render_list(body@, frame, depth as nat),
        decreases body.depth_count - depth,
    {
        proof {
            let d = depth as int;
            let n = body.depth_count as int;
            let t = body.total_frame as int;
            assert(d * t <= (n - 1) * t) by (nonlinear_arith)
                requires
                    0 <= d <= n - 1,
                    0 <= t,
            ;
        }
        let cell = depth as usize * body.total_frame as usize + frame as usize;
        let ghost before = items@;
        match item_at(body, depth, frame, cell) {
            Some(item) => {
                items.push(item);
            },
            None => {},
        }
        proof {
            assert(items@ =~= spec_render_list(body@, frame, (depth + 1) as nat));
        }
        depth = depth + 1;
    }
    Ok(items)
}

/// The `f32` slots that writing `item_count` items needs, or the error when
/// the buffer holds only `capacity` slots.
pub fn render_buffer_len(item_count: usize, capacity: usize) -> (r: Result<usize, FrameError>)
    requires
        item_count * RENDER_ITEM_FLOATS <= usize::MAX,
    ensures
        capacity < item_count * RENDER_ITEM_FLOATS ==> r == Err::<usize, FrameError>(
            FrameError::BufferTooSmall { needed_floats: (item_count * RENDER_ITEM_FLOATS) as usize },
        ),
        capacity >= item_count * RENDER_ITEM_FLOATS ==> r == Ok::<usize, FrameError>(
            (item_count * RENDER_ITEM_FLOATS) as usize,
        ),
{
    let needed = item_count * RENDER_ITEM_FLOATS;
    if capacity < needed {
        Err(FrameError::BufferTooSmall { needed_floats: needed })
    } else {
        Ok(needed)
    }
}

/// Some dictionary entry active on `frame` shows `item`'s character.
pub open spec fn shown_by_active_entry(v: MovieClipView, frame: u32, item: RenderItem) -> bool {
    exists|k: int| 0 <= k < v.dictionary.len() && #[trigger] spec_active(v.dictionary[k], frame) && v.dictionary[k].character_id == item.character_id
}

/// A display list is in strictly ascending depth order, every item sits
/// below `depth_count`, and every item comes from a dictionary entry that is
/// active on the frame.
pub proof fn lemma_render_list_ordered(v: MovieClipView, frame: u32, d: nat)
    requires
        d <= u32::MAX + 1,
    ensures
        forall|i: int, j: int| 0 <= i < j < spec_render_list(v, frame, d).len() ==> #[trigger] spec_render_list(v, frame, d)[i].depth < #[trigger] spec_render_list(v, frame, d)[j].depth,
        forall|i: int| 0 <= i < spec_render_list(v, frame, d).len() ==> #[trigger] spec_render_list(v, frame, d)[i].depth < d,
        forall|i: int| 0 <= i < spec_render_list(v, frame, d).len() ==> shown_by_active_entry(v, frame, #[trigger] spec_render_list(v, frame, d)[i]),
        spec_render_list(v, frame, d).len() <= d,
    decreases d,
{
    if d > 0 {
        lemma_render_list_ordered(v, frame, (d - 1) as nat);
        let prev = spec_render_list(v, frame, (d - 1) as nat);
        let cur = spec_render_list(v, frame, d);
        match spec_item_at(v, d - 1, frame) {
            Some(item) => {
                assert(cur == prev + seq![item]);
                assert(item.depth == d - 1);
                assert forall|i: int| 0 <= i < cur.len() implies shown_by_active_entry(v, frame, #[trigger] cur[i]) by {
                    if i < prev.len() {
                        assert(cur[i] == prev[i]);
                    } else {
                        let cell = (d - 1) * v.total_frame + frame;
                        let di = v.controller[cell] as int;
                        assert(cur[i] == item);
                        assert(0 <= di < v.dictionary.len());
                        assert(v.dictionary[di].character_id == cur[i].character_id);
                        assert(spec_active(v.dictionary[di], frame));
                    }
                }
                assert forall|i: int, j: int| 0 <= i < j < cur.len() implies #[trigger] cur[i].depth < #[trigger] cur[j].depth by {
                    if j < prev.len() {
                        assert(cur[i] == prev[i]);
                        assert(cur[j] == prev[j]);
                    } else {
                        assert(cur[i] == prev[i]);
                    }
                }
            },
            None => {
                assert(cur =~= prev);
                assert forall|i: int| 0 <= i < cur.len() implies shown_by_active_entry(v, frame, #[trigger] cur[i]) by {
                    assert(cur[i] == prev[i]);
                }
            },
        }
    } else {
        assert(spec_render_list(v, frame, d).len() == 0);
    }
}

/// Every item of a display list comes from the one cell of its depth at
/// the frame, `depth * total_frame + frame`: that cell of `controller`
/// names the dictionary entry that gives the character, and the entry is
/// active on the frame (`start_frame <= frame < end_frame`, or the
/// "always" pair start 1, end 0); the same cell of `place_map` names the
/// placed object whose matrix, color transform and blend mode the item
/// carries, each part that is absent (or a cell with no placed object)
/// giving the identity matrix, the identity color transform, blend mode 0.
/// Conversely every depth whose cell names an active entry is shown.
pub proof fn lemma_render_items_come_from_their_cell(v: MovieClipView, frame: u32, d: nat)
    requires
        d <= v.depth_count,
    ensures
        forall|i: int| #![trigger spec_render_list(v, frame, d)[i]]
            0 <= i < spec_render_list(v, frame, d).len() ==> {
                let it = spec_render_list(v, frame, d)[i];
                let cell = it.depth * v.total_frame + frame;
                let di = v.controller[cell];
                let pm = v.place_map[cell];
                let placed = 0 <= cell < v.place_map.len() && 0 <= pm < v.place_objects.len();
                &&& it.depth < d
                &&& 0 <= di < v.dictionary.len()
                &&& ((v.dictionary[di as int].start_frame == 1 && v.dictionary[di as int].end_frame == 0)
                    || (v.dictionary[di as int].start_frame <= frame && frame < v.dictionary[di as int].end_frame))
                &&& it.character_id == v.dictionary[di as int].character_id
                &&& it.matrix == (if placed && v.place_objects[pm as int].matrix is Some {
                    v.place_objects[pm as int].matrix.unwrap()
                } else {
                    IDENTITY_MATRIX
                })
                &&& it.color_transform == (if placed && v.place_objects[pm as int].color_transform is Some {
                    v.place_objects[pm as int].color_transform.unwrap()
                } else {
                    IDENTITY_COLOR_TRANSFORM
                })
                &&& it.blend_mode == (if placed && v.place_objects[pm as int].blend_mode is Some {
                    v.place_objects[pm as int].blend_mode.unwrap()
                } else {
                    0u8
                })
            },
        forall|dd: int| 0 <= dd < d && 0 <= #[trigger] v.controller[dd * v.total_frame + frame] < v.dictionary.len()
            && ((v.dictionary[v.controller[dd * v.total_frame + frame] as int].start_frame == 1
                && v.dictionary[v.controller[dd * v.total_frame + frame] as int].end_frame == 0)
            || (v.dictionary[v.controller[dd * v.total_frame + frame] as int].start_frame <= frame
                && frame < v.dictionary[v.controller[dd * v.total_frame + frame] as int].end_frame))
            ==> exists|i: int| 0 <= i < spec_render_list(v, frame, d).len()
                && #[trigger] spec_render_list(v, frame, d)[i].depth == dd,
    decreases d,
{
    if d > 0 {
        let dm = (d - 1) as nat;
        lemma_render_items_come_from_their_cell(v, frame, dm);
        let prev = spec_render_list(v, frame, dm);
        let cur = spec_render_list(v, frame, d);
        match spec_item_at(v, d - 1, frame) {
            Some(item) => {
                assert(cur == prev + seq![item]);
                assert(item.depth == d - 1);
                assert forall|i: int| 0 <= i < cur.len() implies #[trigger] cur[i] == (if i < prev.len() {
                    prev[i]
                } else {
                    item
                }) by {}
            },
            None => {
                assert(cur =~= prev);
            },
        }
        assert forall|dd: int| 0 <= dd < d && 0 <= #[trigger] v.controller[dd * v.total_frame + frame] < v.dictionary.len()
            && ((v.dictionary[v.controller[dd * v.total_frame + frame] as int].start_frame == 1
                && v.dictionary[v.controller[dd * v.total_frame + frame] as int].end_frame == 0)
            || (v.dictionary[v.controller[dd * v.total_frame + frame] as int].start_frame <= frame
                && frame < v.dictionary[v.controller[dd * v.total_frame + frame] as int].end_frame))
            implies exists|i: int| 0 <= i < cur.len() && #[trigger] cur[i].depth == dd by {
            if dd < d - 1 {
                let i = choose|i: int| 0 <= i < prev.len() && #[trigger] prev[i].depth == dd;
                assert(cur[i] == prev[i]);
            } else {
                let item = spec_item_at(v, d - 1, frame).unwrap();
                assert(cur[prev.len() as int] == item);
            }
        }
    }
}
} // verus!
