//! The files that are open, each in a numbered slot.
//!
//! A handle is a slot index. A closed slot is emptied and the next open
//! takes the lowest empty slot, so handles stay small.

use crate::abi::BAD_ARGUMENT;
use crate::chrs::{spec_parse_characters, CharacterEntry, CharacterKind, Characters};
use crate::chunk::{spec_decode_payload, ChunkId};
use crate::error::Error;
use crate::le::spec_body_window;
use crate::mclip::{spec_parse_movie_clip, MovieClipBody, MovieClipView};
use crate::reader::{
    chunk_ids, chunk_matches, chunks_match, is_first_id, is_first_with_id, lemma_first_index,
    span_ids, spec_first_index, spec_parse_archive, Archive, ChunkSpan,
};
use crate::header::flags::{SIGNED, STREAMABLE};
use crate::reader::lemma_read_chunks_aligned;
use crate::stage::{spec_parse_stage, Stage};
use vstd::bytes::{spec_u16_from_le_bytes, spec_u32_from_le_bytes};
use vstd::prelude::*;

verus! {

/// A parsed file. The archive borrows its bytes, so it cannot be kept;
/// what playback needs is taken out when the file is opened, and the bytes
/// are kept to walk the chunks again later.
pub struct Instance {
    pub bytes: Vec<u8>,
    pub stage: Stage,
    pub characters: Characters,
    pub chunk_ids: Vec<ChunkId>,
    pub is_signed: bool,
    pub is_streamable: bool,
}

/// An open file as plain values.
pub struct InstanceView {
    pub bytes: Seq<u8>,
    pub stage: Stage,
    pub characters: Seq<CharacterEntry>,
    pub chunk_ids: Seq<ChunkId>,
    pub is_signed: bool,
    pub is_streamable: bool,
}

impl View for Instance {
    type V = InstanceView;

    open spec fn view(&self) -> InstanceView {
        InstanceView {
            bytes: self.bytes@,
            stage: self.stage,
            characters: self.characters.entries@,
            chunk_ids: self.chunk_ids@,
            is_signed: self.is_signed,
            is_streamable: self.is_streamable,
        }
    }
}

/// What decoding the payload of the chunk that `sp` locates in `s` gives.
pub open spec fn spec_span_payload(s: Seq<u8>, sp: ChunkSpan) -> Result<Seq<u8>, Error> {
    spec_decode_payload(sp.header, sp.crc, s.subrange(sp.offset + 16, sp.payload_end))
}

/// What opening a file gives: the parsed archive, then the stage from the
/// first `STAG` chunk and the character table from the first `CHRS` chunk.
pub open spec fn spec_open_instance(s: Seq<u8>) -> Result<InstanceView, Error> {
    match spec_parse_archive(s) {
        Err(e) => Err(e),
        Ok((h, spans)) => {
            let ids = span_ids(spans);
            match spec_span_payload(s, spans[spec_first_index(ids, ChunkId::stag())]) {
                Err(e) => Err(e),
                Ok(p) => match spec_parse_stage(p) {
                    Err(e) => Err(e),
                    Ok(stage) => match spec_span_payload(
                        s,
                        spans[spec_first_index(ids, ChunkId::chrs())],
                    ) {
                        Err(e) => Err(e),
                        Ok(q) => match spec_parse_characters(q) {
                            Err(e) => Err(e),
                            Ok(es) => Ok(
                                InstanceView {
                                    bytes: s,
                                    stage,
                                    characters: es,
                                    chunk_ids: ids,
                                    is_signed: h.flags & 1 != 0,
                                    is_streamable: h.flags & 2 != 0,
                                },
                            ),
                        },
                    },
                },
            }
        },
    }
}

/// An opened file reports what its header says: `is_signed` is the
/// `SIGNED` bit and `is_streamable` the `STREAMABLE` bit of the flags, the
/// little-endian `u16` at bytes 6..8; it lists one chunk identifier per
/// chunk the header's count (the `u32` at 12..16) declares; and it keeps
/// the file's bytes.
pub proof fn lemma_open_instance_reports_header(s: Seq<u8>)
    ensures
        spec_open_instance(s) matches Ok(v) ==> {
            &&& v.is_signed == (spec_u16_from_le_bytes(s.subrange(6, 8)) & SIGNED != 0)
            &&& v.is_streamable == (spec_u16_from_le_bytes(s.subrange(6, 8)) & STREAMABLE != 0)
            &&& v.chunk_ids.len() == spec_u32_from_le_bytes(s.subrange(12, 16))
            &&& v.bytes == s
        },
{
    if let Ok((h, spans)) = spec_parse_archive(s) {
        lemma_read_chunks_aligned(s, h.header_size as int, h.chunk_count as nat);
    }
}

proof fn lemma_first_index_exists(ids: Seq<ChunkId>, id: ChunkId)
    requires
        ids.contains(id),
    ensures
        is_first_id(ids, spec_first_index(ids, id), id),
    decreases ids.len(),
{
    if ids[0] == id {
        assert(is_first_id(ids, 0, id));
    } else {
        let rest = ids.drop_first();
        let k = choose|k: int| 0 <= k < ids.len() && ids[k] == id;
        assert(rest[k - 1] == id);
        lemma_first_index_exists(rest, id);
        let j = spec_first_index(rest, id);
        assert forall|m: int| 0 <= m < j + 1 implies #[trigger] ids[m] != id by {
            if m > 0 {
                assert(ids[m] == rest[m - 1]);
            }
        }
        assert(is_first_id(ids, j + 1, id));
    }
}

/// An opened file takes its stage from the first chunk named `"STAG"` and
/// its character table from the first chunk named `"CHRS"`: each is what
/// that chunk's decoded payload parses to.
pub proof fn lemma_open_instance_reads_stage_and_characters(s: Seq<u8>)
    ensures
        spec_open_instance(s) matches Ok(v) ==> {
            let spans = spec_parse_archive(s).unwrap().1;
            &&& exists|i: int| 0 <= i < spans.len()
                && spans[i].header.id.0@ == seq![0x53u8, 0x54u8, 0x41u8, 0x47u8]
                && (forall|j: int| 0 <= j < i ==> #[trigger] spans[j].header.id.0@ != seq![0x53u8, 0x54u8, 0x41u8, 0x47u8])
                && (spec_span_payload(s, spans[i]) matches Ok(p) && spec_parse_stage(p) == Ok::<Stage, Error>(v.stage))
            &&& exists|i: int| 0 <= i < spans.len()
                && spans[i].header.id.0@ == seq![0x43u8, 0x48u8, 0x52u8, 0x53u8]
                && (forall|j: int| 0 <= j < i ==> #[trigger] spans[j].header.id.0@ != seq![0x43u8, 0x48u8, 0x52u8, 0x53u8])
                && (spec_span_payload(s, spans[i]) matches Ok(q) && spec_parse_characters(q) == Ok::<Seq<CharacterEntry>, Error>(v.characters))
        },
{
    if let Ok(v) = spec_open_instance(s) {
        let spans = spec_parse_archive(s).unwrap().1;
        let ids = span_ids(spans);
        lemma_first_index_exists(ids, ChunkId::stag());
        lemma_first_index_exists(ids, ChunkId::chrs());
        let i = spec_first_index(ids, ChunkId::stag());
        let k = spec_first_index(ids, ChunkId::chrs());
        let st = seq![0x53u8, 0x54u8, 0x41u8, 0x47u8];
        let ch = seq![0x43u8, 0x48u8, 0x52u8, 0x53u8];
        assert(ChunkId::stag().0@ =~= st);
        assert(ChunkId::chrs().0@ =~= ch);
        assert(spans[i].header.id == ChunkId::stag());
        assert(spans[k].header.id == ChunkId::chrs());
        assert forall|j: int| 0 <= j < i implies #[trigger] spans[j].header.id.0@ != st by {
            assert(ids[j] != ChunkId::stag());
            if spans[j].header.id.0@ == st {
                assert(spans[j].header.id.0 =~= ChunkId::stag().0);
            }
        }
        assert forall|j: int| 0 <= j < k implies #[trigger] spans[j].header.id.0@ != ch by {
            assert(ids[j] != ChunkId::chrs());
            if spans[j].header.id.0@ == ch {
                assert(spans[j].header.id.0 =~= ChunkId::chrs().0);
            }
        }
    }
}

/// A movie clip's timeline is read from the first chunk named `"MCLP"`:
/// the character exists and is a movie clip, and its body is the
/// `body_size` bytes at `body_offset` of that chunk's decoded payload.
pub proof fn lemma_movie_clip_body_source(v: InstanceView, character_id: u32)
    requires
        spec_parse_archive(v.bytes) is Ok,
    ensures
        spec_movie_clip_body(v, character_id) matches Ok(m) ==> {
            let spans = spec_parse_archive(v.bytes).unwrap().1;
            let e = v.characters[character_id as int];
            &&& character_id < v.characters.len()
            &&& e.kind == CharacterKind::MovieClip
            &&& exists|i: int| 0 <= i < spans.len()
                && spans[i].header.id.0@ == seq![0x4Du8, 0x43u8, 0x4Cu8, 0x50u8]
                && (forall|j: int| 0 <= j < i ==> #[trigger] spans[j].header.id.0@ != seq![0x4Du8, 0x43u8, 0x4Cu8, 0x50u8])
                && (spec_span_payload(v.bytes, spans[i]) matches Ok(p)
                    && e.body_offset + e.body_size <= p.len()
                    && spec_parse_movie_clip(p.subrange(e.body_offset as int, e.body_offset + e.body_size))
                        == Ok::<MovieClipView, Error>(m))
        },
{
    if let Ok(m) = spec_movie_clip_body(v, character_id) {
        let spans = spec_parse_archive(v.bytes).unwrap().1;
        let ids = span_ids(spans);
        lemma_first_index_exists(ids, ChunkId::mclp());
        let i = spec_first_index(ids, ChunkId::mclp());
        let mc = seq![0x4Du8, 0x43u8, 0x4Cu8, 0x50u8];
        assert(ChunkId::mclp().0@ =~= mc);
        assert(spans[i].header.id == ChunkId::mclp());
        assert forall|j: int| 0 <= j < i implies #[trigger] spans[j].header.id.0@ != mc by {
            assert(ids[j] != ChunkId::mclp());
            if spans[j].header.id.0@ == mc {
                assert(spans[j].header.id.0 =~= ChunkId::mclp().0);
            }
        }
    }
}

/// The first chunk of a parsed archive with identifier `id`, when the
/// archive has one, is the chunk the first span with that identifier
/// locates.
proof fn lemma_found_chunk(a: Archive, spans: Seq<ChunkSpan>, s: Seq<u8>, id: ChunkId, i: int)
    requires
        chunks_match(a.chunks@, spans, s),
        is_first_with_id(a.chunks@, i, id),
    ensures
        spec_first_index(span_ids(spans), id) == i,
        chunk_matches(a.chunks@[i], spans[i], s),
{
    assert(chunk_matches(a.chunks@[i], spans[i], s));
    assert forall|j: int| 0 <= j < i implies #[trigger] span_ids(spans)[j] != id by {
        assert(chunk_matches(a.chunks@[j], spans[j], s));
        assert(a.chunks@[j].header.id != id);
    }
    assert(is_first_id(span_ids(spans), i, id));
    lemma_first_index(span_ids(spans), i, id);
}

impl Instance {
    /// Opens a file: parses and checks it, then reads its stage and its
    /// character table.
    pub fn open(bytes: Vec<u8>) -> (r: Result<Instance, Error>)
        requires
            bytes@.len() <= isize::MAX,
        ensures
            match spec_open_instance(bytes@) {
                Ok(v) => r matches Ok(inst) && inst@ == v,
                Err(e) => r == Err::<Instance, Error>(e),
            },
    {
        let ghost s = bytes@;
        let archive = match Archive::parse(bytes.as_slice()) {
            Ok(a) => a,
            Err(e) => {
                return Err(e);
            },
        };
        let ghost spans = spec_parse_archive(s).unwrap().1;
        proof {
            assert forall|k: int| 0 <= k < spans.len() implies chunk_ids(archive.chunks@)[k] == span_ids(spans)[k] by {
                assert(chunk_matches(archive.chunks@[k], spans[k], s));
            }
            assert(chunk_ids(archive.chunks@) =~= span_ids(spans));
        }
        let stage_chunk = match archive.find(ChunkId::stag()) {
            Some(c) => c,
            None => {
                return Err(Error::MissingRequiredChunk("STAG"));
            },
        };
        proof {
            let i = choose|i: int| is_first_with_id(archive.chunks@, i, ChunkId::stag()) && *stage_chunk == archive.chunks@[i];
            lemma_found_chunk(archive, spans, s, ChunkId::stag(), i);
        }
        let stage_payload = match stage_chunk.payload() {
            Ok(p) => p,
            Err(e) => {
                return Err(e);
            },
        };
        let stage = match Stage::parse(stage_payload.as_slice()) {
            Ok(st) => st,
            Err(e) => {
                return Err(e);
            },
        };
        let chrs_chunk = match archive.find(ChunkId::chrs()) {
            Some(c) => c,
            None => {
                return Err(Error::MissingRequiredChunk("CHRS"));
            },
        };
        proof {
            let i = choose|i: int| is_first_with_id(archive.chunks@, i, ChunkId::chrs()) && *chrs_chunk == archive.chunks@[i];
            lemma_found_chunk(archive, spans, s, ChunkId::chrs(), i);
        }
        let chrs_payload = match chrs_chunk.payload() {
            Ok(p) => p,
            Err(e) => {
                return Err(e);
            },
        };
        let characters = match Characters::parse(chrs_payload.as_slice()) {
            Ok(c) => c,
            Err(e) => {
                return Err(e);
            },
        };
        let mut ids: Vec<ChunkId> = Vec::new();
        let mut i: usize = 0;
        while i < archive.chunks.len()
            invariant
                i <= archive.chunks@.len(),
                ids@ == chunk_ids(archive.chunks@).subrange(0, i as int),
            decreases archive.chunks@.len() - i,
        {
            ids.push(archive.chunks[i].id());
            i = i + 1;
            proof {
                assert(ids@ =~= chunk_ids(archive.chunks@).subrange(0, i as int));
            }
        }
        let is_signed = archive.header.is_signed();
        let is_streamable = archive.header.is_streamable();
        proof {
            assert(ids@ =~= chunk_ids(archive.chunks@));
            assert forall|k: int| 0 <= k < spans.len() implies chunk_ids(archive.chunks@)[k] == span_ids(spans)[k] by {
                assert(chunk_matches(archive.chunks@[k], spans[k], s));
            }
            assert(chunk_ids(archive.chunks@) =~= span_ids(spans));
        }
        Ok(Instance { bytes, stage, characters, chunk_ids: ids, is_signed, is_streamable })
    }
}

/// `k` is the slot an open takes: the lowest empty one, or a new one at
/// the end when none is empty.
pub open spec fn is_first_free(slots: Seq<Option<InstanceView>>, k: int) -> bool {
    &&& 0 <= k <= slots.len()
    &&& k < slots.len() ==> slots[k] is None
    &&& forall|j: int| 0 <= j < k ==> #[trigger] slots[j] is Some
}

/// A closed slot is taken again: when every slot below `h` holds an open
/// file and slot `h` is emptied, the next open takes slot `h`.
pub proof fn lemma_closed_slot_reused(slots: Seq<Option<InstanceView>>, h: int, k: int)
    requires
        0 <= h < slots.len(),
        forall|j: int| 0 <= j < h ==> #[trigger] slots[j] is Some,
        is_first_free(slots.update(h, None), k),
    ensures
        k == h,
{
    let u = slots.update(h, None);
    if k < h {
        assert(u[k] is None);
        assert(u[k] == slots[k]);
    }
    if k > h {
        assert(u[h] is Some);
    }
}

/// How many slots hold an open file.
pub open spec fn spec_open_count(slots: Seq<Option<InstanceView>>) -> nat
    decreases slots.len(),
{
    if slots.len() == 0 {
        0
    } else {
        spec_open_count(slots.drop_last()) + if slots.last() is Some {
            1nat
        } else {
            0nat
        }
    }
}

/// The handles whose slot holds an open file.
pub open spec fn open_handles(slots: Seq<Option<InstanceView>>) -> Set<int> {
    Set::new(|h: int| 0 <= h < slots.len() && slots[h] is Some)
}

proof fn lemma_open_handles_count(slots: Seq<Option<InstanceView>>)
    ensures
        open_handles(slots).finite(),
        open_handles(slots).len() == spec_open_count(slots),
    decreases slots.len(),
{
    if slots.len() == 0 {
        assert(open_handles(slots) =~= Set::<int>::empty());
    } else {
        let init = slots.drop_last();
        let k = slots.len() - 1;
        lemma_open_handles_count(init);
        if slots.last() is Some {
            assert(open_handles(slots) =~= open_handles(init).insert(k));
            assert(!open_handles(init).contains(k));
        } else {
            assert(open_handles(slots) =~= open_handles(init));
        }
    }
}

/// The open files and the code of the last failed call.
pub struct Registry {
    slots: Vec<Option<Instance>>,
    last_error: i32,
}

/// The view of one slot.
pub open spec fn slot_view(o: Option<Instance>) -> Option<InstanceView> {
    match o {
        Some(i) => Some(i@),
        None => None,
    }
}

impl Registry {
    /// The slots, as plain values.
    pub closed spec fn spec_slots(self) -> Seq<Option<InstanceView>> {
        self.slots@.map_values(|o: Option<Instance>| slot_view(o))
    }

    /// The instance a handle names, if that slot is open.
    pub closed spec fn instance_at(self, handle: int) -> Option<Instance> {
        if 0 <= handle < self.slots@.len() {
            self.slots@[handle]
        } else {
            None
        }
    }

    /// The code of the last failed call; zero after a success.
    pub closed spec fn spec_last_error(self) -> i32 {
        self.last_error
    }

    /// Every open file fits the limits a slice has.
    #[verifier::type_invariant]
    spec fn inv(self) -> bool {
        forall|h: int| #![trigger self.slots@[h]] 0 <= h < self.slots@.len() && self.slots@[h] is Some ==> self.slots@[h].unwrap().bytes@.len() <= isize::MAX
    }

    /// The view of the slot a handle names.
    pub open spec fn spec_instance(self, handle: int) -> Option<InstanceView> {
        slot_view(self.instance_at(handle))
    }

    /// No file open, no error recorded.
    pub fn new() -> (r: Registry)
        ensures
            r.spec_slots() == Seq::<Option<InstanceView>>::empty(),
            r.spec_last_error() == 0,
            forall|h: int| r.instance_at(h) is None,
    {
        let r = Registry { slots: Vec::new(), last_error: 0 };
        proof {
            assert(r.spec_slots() =~= Seq::<Option<InstanceView>>::empty());
        }
        r
    }
}

/// A handle names an open file exactly when its slot, among the slots,
/// holds one: a negative handle or one past the slots names none.
pub proof fn lemma_handle_is_slot(reg: Registry, h: int)
    ensures
        reg.spec_instance(h) == (if 0 <= h < reg.spec_slots().len() {
            reg.spec_slots()[h]
        } else {
            None
        }),
{
}

/// The number of open files is the number of handles that name one.
pub proof fn lemma_open_count_is_open_handles(reg: Registry)
    ensures
        Set::new(|h: int| reg.spec_instance(h) is Some).finite(),
        Set::new(|h: int| reg.spec_instance(h) is Some).len() == spec_open_count(reg.spec_slots()),
{
    lemma_open_handles_count(reg.spec_slots());
    assert(Set::new(|h: int| reg.spec_instance(h) is Some) =~= open_handles(reg.spec_slots()));
}

/// Opens a file and gives its handle, or the negative code of why it was
/// refused. On success the file takes the lowest empty slot (or a new one)
/// and the last error is cleared; on failure the slots are unchanged and
/// the code is recorded as the last error.
pub fn open(reg: &mut Registry, bytes: Vec<u8>) -> (r: i32)
    requires
        bytes@.len() <= isize::MAX,
        old(reg).spec_slots().len() < i32::MAX,
    ensures
        match spec_open_instance(bytes@) {
            Err(e) => {
                &&& r == e.spec_code()
                &&& final(reg).spec_last_error() == r
                &&& final(reg).spec_slots() == old(reg).spec_slots()
            },
            Ok(v) => {
                &&& is_first_free(old(reg).spec_slots(), r as int)
                &&& r >= 0
                &&& final(reg).spec_instance(r as int) == Some(v)
                &&& final(reg).spec_last_error() == 0
                &&& final(reg).spec_slots() == if r < old(reg).spec_slots().len() {
                    old(reg).spec_slots().update(r as int, Some(v))
                } else {
                    old(reg).spec_slots().push(Some(v))
                }
                &&& spec_open_count(final(reg).spec_slots()) == spec_open_count(old(reg).spec_slots()) + 1
            },
        },
        forall|h: int| h != r ==> #[trigger] final(reg).instance_at(h) == old(reg).instance_at(h),
{
    proof {
        use_type_invariant(&*reg);
    }
    match Instance::open(bytes) {
        Ok(instance) => {
            reg.last_error = 0;
            let ghost old_slots = reg.spec_slots();
            let ghost old_reg = *reg;
            let ghost v = instance@;
            let index = first_free_slot(reg);
            proof {
                lemma_open_count_fill(old_slots, index as int, v);
            }
            let mut slots: Vec<Option<Instance>> = Vec::new();
            std::mem::swap(&mut slots, &mut reg.slots);
            let ghost before = slots@;
            if index < slots.len() {
                slots.set(index, Some(instance));
            } else {
                slots.push(Some(instance));
            }
            proof {
                assert forall|h: int| 0 <= h < slots@.len() && #[trigger] slots@[h] is Some implies slots@[h].unwrap().bytes@.len() <= isize::MAX by {
                    if h != index {
                        assert(slots@[h] == before[h]);
                        assert(before[h] == old_reg.slots@[h]);
                    }
                }
            }
            reg.slots = slots;
            proof {
                if index < old_slots.len() {
                    assert(reg.spec_slots() =~= old_slots.update(index as int, Some(v)));
                } else {
                    assert(reg.spec_slots() =~= old_slots.push(Some(v)));
                }
                assert forall|h: int| #![trigger reg.instance_at(h)] h != index ==> reg.instance_at(h) == old_reg.instance_at(h) by {}
            }
            index as i32
        },
        Err(error) => {
            let code = error.code();
            reg.last_error = code;
            proof {
                assert(reg.spec_slots() =~= old(reg).spec_slots());
            }
            code
        },
    }
}

/// The slot an open takes.
fn first_free_slot(reg: &Registry) -> (k: usize)
    ensures
        is_first_free(reg.spec_slots(), k as int),
{
    let mut index: usize = 0;
    loop
        invariant
            index <= reg.slots@.len(),
            forall|j: int| 0 <= j < index ==> #[trigger] reg.slots@[j] is Some,
        ensures
            index <= reg.slots@.len(),
            forall|j: int| 0 <= j < index ==> #[trigger] reg.slots@[j] is Some,
            index < reg.slots@.len() ==> reg.slots@[index as int] is None,
        decreases reg.slots@.len() - index,
    {
        if index >= reg.slots.len() {
            break;
        }
        if reg.slots[index].is_none() {
            break;
        }
        index = index + 1;
    }
    proof {
        let sl = reg.spec_slots();
        assert forall|j: int| 0 <= j < index implies #[trigger] sl[j] is Some by {
            assert(reg.slots@[j] is Some);
        }
    }
    index
}

proof fn lemma_open_count_update(slots: Seq<Option<InstanceView>>, k: int, x: Option<InstanceView>)
    requires
        0 <= k < slots.len(),
    ensures
        spec_open_count(slots.update(k, x)) + (if slots[k] is Some { 1int } else { 0int }) == spec_open_count(slots) + (if x is Some { 1int } else { 0int }),
    decreases slots.len(),
{
    let u = slots.update(k, x);
    if k == slots.len() - 1 {
        assert(u.drop_last() =~= slots.drop_last());
    } else {
        assert(u.drop_last() =~= slots.drop_last().update(k, x));
        lemma_open_count_update(slots.drop_last(), k, x);
    }
}

proof fn lemma_open_count_fill(slots: Seq<Option<InstanceView>>, k: int, v: InstanceView)
    requires
        is_first_free(slots, k),
    ensures
        spec_open_count(if k < slots.len() { slots.update(k, Some(v)) } else { slots.push(Some(v)) }) == spec_open_count(slots) + 1,
{
    if k < slots.len() {
        lemma_open_count_update(slots, k, Some(v));
    } else {
        assert(slots.push(Some(v)).drop_last() =~= slots);
    }
}

/// Closes a handle: its slot becomes empty. Closing a handle that is not
/// open does nothing.
pub fn close(reg: &mut Registry, handle: i32)
    ensures
        final(reg).spec_last_error() == old(reg).spec_last_error(),
        final(reg).spec_slots() == if 0 <= handle < old(reg).spec_slots().len() {
            old(reg).spec_slots().update(handle as int, None)
        } else {
            old(reg).spec_slots()
        },
        final(reg).instance_at(handle as int) is None,
        final(reg).spec_instance(handle as int) is None,
        forall|h: int| h != handle ==> #[trigger] final(reg).instance_at(h) == old(reg).instance_at(h),
        old(reg).spec_instance(handle as int) is Some ==> spec_open_count(final(reg).spec_slots()) + 1 == spec_open_count(old(reg).spec_slots()),
        old(reg).spec_instance(handle as int) is None ==> spec_open_count(final(reg).spec_slots()) == spec_open_count(old(reg).spec_slots()),
{
    proof {
        use_type_invariant(&*reg);
    }
    if handle < 0 {
        return;
    }
    let index = handle as usize;
    if index < reg.slots.len() {
        let ghost old_slots = reg.spec_slots();
        let ghost old_reg = *reg;
        let mut slots: Vec<Option<Instance>> = Vec::new();
        std::mem::swap(&mut slots, &mut reg.slots);
        slots.set(index, None);
        proof {
            assert forall|h: int| 0 <= h < slots@.len() && #[trigger] slots@[h] is Some implies slots@[h].unwrap().bytes@.len() <= isize::MAX by {
                assert(slots@[h] == old_reg.slots@[h]);
            }
        }
        reg.slots = slots;
        proof {
            assert(reg.spec_slots() =~= old_slots.update(handle as int, None));
            lemma_open_count_update(old_slots, handle as int, None);
        }
    }
}

/// The instance a handle names, if that slot is open.
pub fn instance(reg: &Registry, handle: i32) -> (r: Option<&Instance>)
    ensures
        match reg.instance_at(handle as int) {
            Some(inst) => r matches Some(i) && *i == inst,
            None => r is None,
        },
        r matches Some(i) ==> i.bytes@.len() <= isize::MAX,
        r matches Some(i) ==> reg.spec_instance(handle as int) == Some(i@),
        r is None <==> reg.spec_instance(handle as int) is None,
        handle < 0 || handle >= reg.spec_slots().len() ==> r is None,
{
    proof {
        use_type_invariant(reg);
    }
    if handle < 0 {
        return None;
    }
    let index = handle as usize;
    if index >= reg.slots.len() {
        return None;
    }
    match &reg.slots[index] {
        Some(inst) => Some(inst),
        None => None,
    }
}

/// Runs `f` on the instance a handle names; `None` when the slot is not open.
pub fn with<T, F: FnOnce(&Instance) -> T>(reg: &Registry, handle: i32, f: F) -> (r: Option<T>)
    requires
        forall|i: &Instance| f.requires((i,)),
    ensures
        match reg.instance_at(handle as int) {
            Some(inst) => r matches Some(t) && f.ensures((&inst,), t),
            None => r is None,
        },
        r is Some <==> reg.spec_instance(handle as int) is Some,
        handle < 0 || handle >= reg.spec_slots().len() ==> r is None,
{
    match instance(reg, handle) {
        Some(inst) => Some(f(inst)),
        None => None,
    }
}

/// Records the code of a failed call (zero clears it).
pub fn set_last_error(reg: &mut Registry, code: i32)
    ensures
        final(reg).spec_last_error() == code,
        final(reg).spec_slots() == old(reg).spec_slots(),
        forall|h: int| #[trigger] final(reg).instance_at(h) == old(reg).instance_at(h),
{
    proof {
        use_type_invariant(&*reg);
    }
    reg.last_error = code;
}

/// The code of the last failed call; zero after a success.
pub fn last_error(reg: &Registry) -> (code: i32)
    ensures
        code == reg.spec_last_error(),
{
    reg.last_error
}

/// How many files are open.
pub fn open_count(reg: &Registry) -> (n: usize)
    ensures
        n == spec_open_count(reg.spec_slots()),
{
    let mut n: usize = 0;
    let mut i: usize = 0;
    while i < reg.slots.len()
        invariant
            i <= reg.slots@.len(),
            n <= i,
            n == spec_open_count(reg.spec_slots().subrange(0, i as int)),
        decreases reg.slots@.len() - i,
    {
        proof {
            let next = reg.spec_slots().subrange(0, i + 1);
            assert(next.drop_last() =~= reg.spec_slots().subrange(0, i as int));
        }
        if reg.slots[i].is_some() {
            n = n + 1;
        }
        i = i + 1;
    }
    proof {
        assert(reg.spec_slots().subrange(0, i as int) =~= reg.spec_slots());
    }
    n
}

/// How many slots exist, open or empty: an open that finds no empty slot
/// adds one, and a handle must stay below `i32::MAX`.
pub fn slot_count(reg: &Registry) -> (n: usize)
    ensures
        n == reg.spec_slots().len(),
{
    reg.slots.len()
}

/// What reading the timeline of movie clip `character_id` gives: the
/// character must exist and be a movie clip (else `BAD_ARGUMENT`); the
/// body is the window its row locates in the payload of the first `MCLP`
/// chunk. Parse failures give their error codes.
pub open spec fn spec_movie_clip_body(v: InstanceView, character_id: u32) -> Result<MovieClipView, int> {
    if character_id >= v.characters.len() {
        Err(BAD_ARGUMENT as int)
    } else if v.characters[character_id as int].kind != CharacterKind::MovieClip {
        Err(BAD_ARGUMENT as int)
    } else {
        match spec_parse_archive(v.bytes) {
            Err(e) => Err(e.spec_code()),
            Ok((h, spans)) => match spec_span_payload(
                v.bytes,
                spans[spec_first_index(span_ids(spans), ChunkId::mclp())],
            ) {
                Err(e) => Err(e.spec_code()),
                Ok(p) => {
                    let entry = v.characters[character_id as int];
                    match spec_body_window(p, entry.body_offset, entry.body_size) {
                        None => Err(Error::MalformedPayload("MCLP").spec_code()),
                        Some(w) => match spec_parse_movie_clip(w) {
                            Err(e) => Err(e.spec_code()),
                            Ok(m) => Ok(m),
                        },
                    }
                },
            },
        }
    }
}

/// Reads the timeline body of movie clip `character_id`.
pub fn movie_clip_body(instance: &Instance, character_id: u32) -> (r: Result<MovieClipBody, i32>)
    requires
        instance.bytes@.len() <= isize::MAX,
    ensures
        match spec_movie_clip_body(instance@, character_id) {
            Ok(m) => r matches Ok(b) && b@ == m,
            Err(c) => r matches Err(d) && d == c,
        },
{
    let idx = character_id as usize;
    if idx >= instance.characters.entries.len() {
        return Err(BAD_ARGUMENT);
    }
    let entry = instance.characters.entries[idx];
    match entry.kind {
        CharacterKind::MovieClip => {},
        _ => {
            return Err(BAD_ARGUMENT);
        },
    }
    let ghost s = instance.bytes@;
    let archive = match Archive::parse(instance.bytes.as_slice()) {
        Ok(a) => a,
        Err(e) => {
            return Err(e.code());
        },
    };
    let ghost spans = spec_parse_archive(s).unwrap().1;
    proof {
        assert forall|k: int| 0 <= k < spans.len() implies chunk_ids(archive.chunks@)[k] == span_ids(spans)[k] by {
            assert(chunk_matches(archive.chunks@[k], spans[k], s));
        }
        assert(chunk_ids(archive.chunks@) =~= span_ids(spans));
    }
    let mclp = match archive.find(ChunkId::mclp()) {
        Some(c) => c,
        None => {
            return Err(Error::MissingRequiredChunk("MCLP").code());
        },
    };
    proof {
        let i = choose|i: int| is_first_with_id(archive.chunks@, i, ChunkId::mclp()) && *mclp == archive.chunks@[i];
        lemma_found_chunk(archive, spans, s, ChunkId::mclp(), i);
    }
    let payload = match mclp.payload() {
        Ok(p) => p,
        Err(e) => {
            return Err(e.code());
        },
    };
    match MovieClipBody::parse_at(payload.as_slice(), entry.body_offset, entry.body_size) {
        Ok(body) => Ok(body),
        Err(e) => Err(e.code()),
    }
}

/// The `total_frame` of movie clip `character_id`.
pub fn movie_clip_total_frame(instance: &Instance, character_id: u32) -> (r: Result<u32, i32>)
    requires
        instance.bytes@.len() <= isize::MAX,
    ensures
        match spec_movie_clip_body(instance@, character_id) {
            Ok(m) => r == Ok::<u32, i32>(m.total_frame),
            Err(c) => r matches Err(d) && d == c,
        },
{
    match movie_clip_body(instance, character_id) {
        Ok(body) => Ok(body.total_frame),
        Err(code) => Err(code),
    }
}

} // verus!
