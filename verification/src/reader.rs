//! Walking a whole container: the chunk reader, the parsed archive, and
//! the writer that produces files for it.

use crate::chunk::{align_up, same_id, spec_align_up, spec_payload, Chunk, ChunkHeader, ChunkId, Codec, CHUNK_HEADER_SIZE};
use crate::crc32::{checksum, spec_checksum};
use crate::error::Error;
use crate::header::{lemma_header_round_trip, spec_parse_header, Header, HEADER_SIZE};
use crate::le::{lemma_window, lemma_le_lengths, lemma_u32_round_trip, push_u32, read_u32_at, u32_at};
use vstd::bytes::{spec_u32_from_le_bytes, spec_u32_to_le_bytes};
use vstd::slice::slice_subrange;
use vstd::prelude::*;

verus! {

/// Where one chunk lies in a file, as positions in the byte sequence.
pub struct ChunkSpan {
    /// The decoded chunk header.
    pub header: ChunkHeader,
    /// Offset of the chunk header.
    pub offset: int,
    /// End of the stored payload (it starts right after the header).
    pub payload_end: int,
    /// The CRC that follows the payload, when the chunk has one.
    pub crc: Option<u32>,
    /// Where the next chunk starts: after the CRC, rounded up to four.
    pub next: int,
}

/// The chunk header whose 16 bytes start at `start`.
pub open spec fn spec_chunk_header_at(s: Seq<u8>, start: int) -> ChunkHeader {
    ChunkHeader {
        id: ChunkId([s[start], s[start + 1], s[start + 2], s[start + 3]]),
        codec: s[start + 4],
        flags: s[start + 5],
        stored_size: u32_at(s, start + 8),
        origin_size: u32_at(s, start + 12),
    }
}

/// Reading the chunk that starts at `start`: the header, the payload and
/// the CRC (when flagged) must all lie inside `s`.
pub open spec fn spec_read_chunk(s: Seq<u8>, start: int) -> Result<ChunkSpan, Error> {
    if start + 16 > s.len() {
        Err(Error::TruncatedChunk)
    } else {
        let h = spec_chunk_header_at(s, start);
        let payload_end = start + 16 + h.stored_size;
        let crc_end = payload_end + if h.spec_has_crc() {
            4int
        } else {
            0int
        };
        if crc_end > s.len() {
            Err(Error::TruncatedChunk)
        } else {
            Ok(
                ChunkSpan {
                    header: h,
                    offset: start,
                    payload_end,
                    crc: if h.spec_has_crc() {
                        Some(u32_at(s, payload_end))
                    } else {
                        None
                    },
                    next: spec_align_up(crc_end),
                },
            )
        }
    }
}

/// Reading `n` chunks one after another from `cursor`; the first failure
/// stops the walk.
pub open spec fn spec_read_chunks(s: Seq<u8>, cursor: int, n: nat) -> Result<Seq<ChunkSpan>, Error>
    decreases n,
{
    if n == 0 {
        Ok(Seq::empty())
    } else {
        match spec_read_chunk(s, cursor) {
            Err(e) => Err(e),
            Ok(sp) => match spec_read_chunks(s, sp.next, (n - 1) as nat) {
                Err(e) => Err(e),
                Ok(rest) => Ok(seq![sp] + rest),
            },
        }
    }
}

/// `prefix` followed by what `r` holds, or `r`'s error.
pub open spec fn prepend_spans(prefix: Seq<ChunkSpan>, r: Result<Seq<ChunkSpan>, Error>) -> Result<Seq<ChunkSpan>, Error> {
    match r {
        Ok(rest) => Ok(prefix + rest),
        Err(e) => Err(e),
    }
}

/// `c` is the chunk that `sp` locates in `s`.
pub open spec fn chunk_matches(c: Chunk, sp: ChunkSpan, s: Seq<u8>) -> bool {
    &&& c.header == sp.header
    &&& c.offset == sp.offset
    &&& c.crc == sp.crc
    &&& c.stored@ == s.subrange(sp.offset + 16, sp.payload_end)
}

/// Each chunk of `cs` is the one the span at the same position locates.
pub open spec fn chunks_match(cs: Seq<Chunk>, spans: Seq<ChunkSpan>, s: Seq<u8>) -> bool {
    &&& cs.len() == spans.len()
    &&& forall|i: int| 0 <= i < cs.len() ==> #[trigger] chunk_matches(cs[i], spans[i], s)
}

/// The identifiers of the spans, in order.
pub open spec fn span_ids(spans: Seq<ChunkSpan>) -> Seq<ChunkId> {
    spans.map_values(|sp: ChunkSpan| sp.header.id)
}

/// The identifiers of the chunks, in order.
pub open spec fn chunk_ids(cs: Seq<Chunk>) -> Seq<ChunkId> {
    cs.map_values(|c: Chunk| c.header.id)
}

/// The first required chunk that `ids` lacks, as the error that reports it.
pub open spec fn spec_missing_required(ids: Seq<ChunkId>) -> Option<Error> {
    if !ids.contains(ChunkId::meta()) {
        Some(Error::MissingRequiredChunk("META"))
    } else if !ids.contains(ChunkId::stag()) {
        Some(Error::MissingRequiredChunk("STAG"))
    } else if !ids.contains(ChunkId::chrs()) {
        Some(Error::MissingRequiredChunk("CHRS"))
    } else if !ids.contains(ChunkId::mclp()) {
        Some(Error::MissingRequiredChunk("MCLP"))
    } else {
        None
    }
}

/// `i` is the first position of `id` in `ids`.
pub open spec fn is_first_id(ids: Seq<ChunkId>, i: int, id: ChunkId) -> bool {
    &&& 0 <= i < ids.len()
    &&& ids[i] == id
    &&& forall|j: int| 0 <= j < i ==> #[trigger] ids[j] != id
}

/// The first position of `id` in `ids` (meaningful when `ids` contains it).
pub open spec fn spec_first_index(ids: Seq<ChunkId>, id: ChunkId) -> int {
    choose|i: int| is_first_id(ids, i, id)
}

/// The first position is unique, so it is the one `spec_first_index` picks.
pub proof fn lemma_first_index(ids: Seq<ChunkId>, i: int, id: ChunkId)
    requires
        is_first_id(ids, i, id),
    ensures
        spec_first_index(ids, id) == i,
{
    let k = spec_first_index(ids, id);
    assert(is_first_id(ids, k, id));
    if k < i {
        assert(ids[k] != id);
    }
    if i < k {
        assert(ids[i] != id);
    }
}

/// `i` is the first position whose chunk has identifier `id`.
pub open spec fn is_first_with_id(cs: Seq<Chunk>, i: int, id: ChunkId) -> bool {
    &&& 0 <= i < cs.len()
    &&& cs[i].header.id == id
    &&& forall|j: int| 0 <= j < i ==> #[trigger] cs[j].header.id != id
}

/// What parsing a whole file gives: the header, then `chunk_count` chunks
/// starting at `header_size`, then the check for the required chunks.
pub open spec fn spec_parse_archive(s: Seq<u8>) -> Result<(Header, Seq<ChunkSpan>), Error> {
    match spec_parse_header(s) {
        Err(e) => Err(e),
        Ok(h) => match spec_read_chunks(s, h.header_size as int, h.chunk_count as nat) {
            Err(e) => Err(e),
            Ok(spans) => match spec_missing_required(span_ids(spans)) {
                Some(e) => Err(e),
                None => Ok((h, spans)),
            },
        },
    }
}

/// Every span that a walk from a four-aligned cursor finds starts
/// four-aligned, and the spans follow each other.
pub proof fn lemma_read_chunks_aligned(s: Seq<u8>, cursor: int, n: nat)
    requires
        cursor % 4 == 0,
        cursor >= 0,
    ensures
        spec_read_chunks(s, cursor, n) matches Ok(spans) ==> {
            &&& spans.len() == n
            &&& forall|i: int| 0 <= i < spans.len() ==> #[trigger] spans[i].offset % 4 == 0
            &&& forall|i: int| 0 <= i < spans.len() ==> #[trigger] spans[i].offset >= cursor
            &&& forall|i: int|
                0 <= i < spans.len() ==> #[trigger] spans[i].offset + 16 <= spans[i].payload_end
                    <= s.len()
        },
    decreases n,
{
    if n > 0 {
        if let Ok(sp) = spec_read_chunk(s, cursor) {
            lemma_read_chunks_aligned(s, sp.next, (n - 1) as nat);
            if let Ok(rest) = spec_read_chunks(s, sp.next, (n - 1) as nat) {
                let spans = seq![sp] + rest;
                assert forall|i: int| 0 <= i < spans.len() implies #[trigger] spans[i].offset % 4
                    == 0 && spans[i].offset >= cursor by {
                    if i > 0 {
                        assert(spans[i] == rest[i - 1]);
                    }
                }
                assert forall|i: int| 0 <= i < spans.len() implies #[trigger] spans[i].offset + 16
                    <= spans[i].payload_end <= s.len() by {
                    if i > 0 {
                        assert(spans[i] == rest[i - 1]);
                    }
                }
            }
        }
    }
}

/// Reading a chunk that lies inside the bytes that have arrived gives the
/// same chunk once more bytes follow.
proof fn lemma_read_chunk_prefix(s: Seq<u8>, t: Seq<u8>, start: int)
    requires
        start >= 0,
        spec_read_chunk(s, start) is Ok,
    ensures
        spec_read_chunk(s + t, start) == spec_read_chunk(s, start),
{
    let st = s + t;
    assert(st.subrange(start, start + 16) =~= s.subrange(start, start + 16));
    assert(st.subrange(start + 8, start + 12) =~= s.subrange(start + 8, start + 12));
    assert(st.subrange(start + 12, start + 16) =~= s.subrange(start + 12, start + 16));
    assert(st[start] == s[start] && st[start + 1] == s[start + 1] && st[start + 2] == s[start + 2]
        && st[start + 3] == s[start + 3] && st[start + 4] == s[start + 4] && st[start + 5] == s[start + 5]);
    let h = spec_chunk_header_at(s, start);
    assert(spec_chunk_header_at(st, start) == h);
    if h.spec_has_crc() {
        let pe = start + 16 + h.stored_size;
        assert(st.subrange(pe, pe + 4) =~= s.subrange(pe, pe + 4));
    }
}

/// A walk that succeeds on the bytes that have arrived so far gives the
/// same chunks once more bytes follow: reading never looks past the chunks
/// it returns, so a file can be parsed while it is still arriving.
pub proof fn lemma_read_chunks_prefix(s: Seq<u8>, t: Seq<u8>, cursor: int, n: nat)
    requires
        cursor >= 0,
        spec_read_chunks(s, cursor, n) is Ok,
    ensures
        spec_read_chunks(s + t, cursor, n) == spec_read_chunks(s, cursor, n),
    decreases n,
{
    if n > 0 {
        lemma_read_chunk_prefix(s, t, cursor);
        let sp = spec_read_chunk(s, cursor).unwrap();
        lemma_read_chunks_prefix(s, t, sp.next, (n - 1) as nat);
    }
}

/// What a reader at `cursor`, with `remaining` chunks to go and `failed`
/// telling whether a read has failed, yields from here on, call by call,
/// until it gives `None`: the chunks one after another, and at most one
/// error, which ends the walk.
pub open spec fn spec_reader_items(s: Seq<u8>, cursor: int, remaining: nat, failed: bool) -> Seq<Result<ChunkSpan, Error>>
    decreases remaining,
{
    if failed || remaining == 0 {
        Seq::empty()
    } else {
        match spec_read_chunk(s, cursor) {
            Ok(sp) => seq![Ok(sp)] + spec_reader_items(s, sp.next, (remaining - 1) as nat, false),
            Err(e) => seq![Err(e)],
        }
    }
}

/// A walk that succeeds reads exactly the chunks it was asked for.
proof fn lemma_read_chunks_len(s: Seq<u8>, cursor: int, n: nat)
    ensures
        spec_read_chunks(s, cursor, n) matches Ok(spans) ==> spans.len() == n,
    decreases n,
{
    if n > 0 {
        if let Ok(sp) = spec_read_chunk(s, cursor) {
            lemma_read_chunks_len(s, sp.next, (n - 1) as nat);
        }
    }
}

/// A reader yields at most as many items as it has chunks to go, nothing
/// once it has failed, and an error only as its last item. When the whole
/// walk succeeds it yields exactly the chunks the walk reads; when the walk
/// fails, its last item is the walk's error.
pub proof fn lemma_reader_items(s: Seq<u8>, cursor: int, remaining: nat, failed: bool)
    ensures
        ({
            let items = spec_reader_items(s, cursor, remaining, failed);
            &&& items.len() <= remaining
            &&& failed ==> items.len() == 0
            &&& forall|i: int| 0 <= i < items.len() - 1 ==> #[trigger] items[i] is Ok
            &&& !failed ==> match spec_read_chunks(s, cursor, remaining) {
                Ok(spans) => items.len() == remaining && forall|i: int|
                    0 <= i < remaining ==> #[trigger] items[i] == Ok::<ChunkSpan, Error>(spans[i]),
                Err(e) => items.len() > 0 && items.last() == Err::<ChunkSpan, Error>(e),
            }
        }),
    decreases remaining,
{
    if !failed && remaining > 0 {
        match spec_read_chunk(s, cursor) {
            Ok(sp) => {
                lemma_reader_items(s, sp.next, (remaining - 1) as nat, false);
                let rest = spec_reader_items(s, sp.next, (remaining - 1) as nat, false);
                let items = spec_reader_items(s, cursor, remaining, failed);
                assert(items == seq![Ok::<ChunkSpan, Error>(sp)] + rest);
                assert forall|i: int| 0 <= i < items.len() - 1 implies #[trigger] items[i] is Ok by {
                    if i > 0 {
                        assert(items[i] == rest[i - 1]);
                    }
                }
                match spec_read_chunks(s, sp.next, (remaining - 1) as nat) {
                    Ok(spans_rest) => {
                        lemma_read_chunks_len(s, sp.next, (remaining - 1) as nat);
                        let spans = seq![sp] + spans_rest;
                        assert forall|i: int| 0 <= i < remaining implies #[trigger] items[i] == Ok::<ChunkSpan, Error>(spans[i]) by {
                            if i > 0 {
                                assert(items[i] == rest[i - 1]);
                                assert(spans[i] == spans_rest[i - 1]);
                            }
                        }
                    },
                    Err(e) => {
                        assert(items.last() == rest.last());
                    },
                }
            },
            Err(e) => {},
        }
    }
}

/// What a reader yields over bytes that have partly arrived, it yields
/// the same once more bytes follow, up to its first error: reading a chunk
/// never looks at the bytes after it.
pub proof fn lemma_reader_items_prefix(s: Seq<u8>, t: Seq<u8>, cursor: int, remaining: nat, failed: bool)
    requires
        cursor >= 0,
    ensures
        ({
            let a = spec_reader_items(s, cursor, remaining, failed);
            let b = spec_reader_items(s + t, cursor, remaining, failed);
            forall|i: int| 0 <= i < a.len() && #[trigger] a[i] is Ok ==> i < b.len() && b[i] == a[i]
        }),
    decreases remaining,
{
    if !failed && remaining > 0 {
        match spec_read_chunk(s, cursor) {
            Ok(sp) => {
                lemma_read_chunk_prefix(s, t, cursor);
                lemma_reader_items_prefix(s, t, sp.next, (remaining - 1) as nat, false);
                let a = spec_reader_items(s, cursor, remaining, failed);
                let b = spec_reader_items(s + t, cursor, remaining, failed);
                let ra = spec_reader_items(s, sp.next, (remaining - 1) as nat, false);
                let rb = spec_reader_items(s + t, sp.next, (remaining - 1) as nat, false);
                assert(a == seq![Ok::<ChunkSpan, Error>(sp)] + ra);
                assert(b == seq![Ok::<ChunkSpan, Error>(sp)] + rb);
                assert forall|i: int| 0 <= i < a.len() && #[trigger] a[i] is Ok implies i < b.len() && b[i] == a[i] by {
                    if i > 0 {
                        assert(a[i] == ra[i - 1]);
                        assert(b[i] == rb[i - 1]);
                    }
                }
            },
            Err(e) => {},
        }
    }
}

/// Reads chunks one at a time without looking past the current one, which
/// is what parsing a file that is still arriving needs.
pub struct ChunkReader<'a> {
    bytes: &'a [u8],
    cursor: usize,
    remaining: u32,
    failed: bool,
}

impl<'a> ChunkReader<'a> {
    #[verifier::type_invariant]
    spec fn inv(self) -> bool {
        self.bytes@.len() <= isize::MAX
    }

    /// The bytes being read.
    pub closed spec fn spec_bytes(self) -> Seq<u8> {
        self.bytes@
    }

    /// Where the next chunk starts.
    pub closed spec fn spec_cursor(self) -> int {
        self.cursor as int
    }

    /// How many chunks are still to be read.
    pub closed spec fn spec_remaining(self) -> nat {
        self.remaining as nat
    }

    /// Whether a read has failed; after that nothing more is read.
    pub closed spec fn spec_failed(self) -> bool {
        self.failed
    }

    /// What this reader yields from here on, call by call.
    pub open spec fn spec_items(self) -> Seq<Result<ChunkSpan, Error>> {
        spec_reader_items(self.spec_bytes(), self.spec_cursor(), self.spec_remaining(), self.spec_failed())
    }

    /// Starts at the first chunk after the header. A slice never holds
    /// more than `isize::MAX` bytes.
    pub fn new(bytes: &'a [u8], header: &Header) -> (r: Self)
        requires
            bytes@.len() <= isize::MAX,
        ensures
            r.spec_bytes() == bytes@,
            r.spec_cursor() == header.header_size,
            r.spec_remaining() == header.chunk_count,
            !r.spec_failed(),
    {
        ChunkReader {
            bytes,
            cursor: header.header_size as usize,
            remaining: header.chunk_count,
            failed: false,
        }
    }

    fn read_one(&self) -> (r: Result<(Chunk<'a>, usize), Error>)
        ensures
            match spec_read_chunk(self.bytes@, self.cursor as int) {
                Ok(sp) => r matches Ok((c, next)) && chunk_matches(c, sp, self.bytes@) && next
                    == sp.next,
                Err(e) => r == Err::<(Chunk<'a>, usize), Error>(e),
            },
    {
        proof {
            use_type_invariant(self);
        }
        let bytes = self.bytes;
        let len = bytes.len();
        let start = self.cursor;
        if start > len || len - start < CHUNK_HEADER_SIZE {
            return Err(Error::TruncatedChunk);
        }
        let header_end = start + CHUNK_HEADER_SIZE;
        let header = ChunkHeader {
            id: ChunkId([bytes[start], bytes[start + 1], bytes[start + 2], bytes[start + 3]]),
            codec: bytes[start + 4],
            flags: bytes[start + 5],
            stored_size: read_u32_at(bytes, start + 8),
            origin_size: read_u32_at(bytes, start + 12),
        };
        let stored_size = header.stored_size as usize;
        if stored_size > len - header_end {
            return Err(Error::TruncatedChunk);
        }
        let payload_end = header_end + stored_size;
        let has_crc = header.has_crc();
        let crc_len: usize = if has_crc {
            4
        } else {
            0
        };
        if crc_len > len - payload_end {
            return Err(Error::TruncatedChunk);
        }
        let crc_end = payload_end + crc_len;
        let crc = if has_crc {
            Some(read_u32_at(bytes, payload_end))
        } else {
            None
        };
        let next = align_up(crc_end);
        let chunk = Chunk { header, stored: &bytes[header_end..payload_end], offset: start, crc };
        Ok((chunk, next))
    }

    /// The next chunk, `None` once `chunk_count` chunks were read or after
    /// a failure. A failure is reported once, and then the walk stops: the
    /// offsets after a bad chunk cannot be trusted.
    pub fn next(&mut self) -> (r: Option<Result<Chunk<'a>, Error>>)
        ensures
            final(self).spec_bytes() == old(self).spec_bytes(),
            old(self).spec_failed() || old(self).spec_remaining() == 0 ==> {
                &&& r is None
                &&& final(self).spec_cursor() == old(self).spec_cursor()
                &&& final(self).spec_remaining() == old(self).spec_remaining()
                &&& final(self).spec_failed() == old(self).spec_failed()
            },
            !old(self).spec_failed() && old(self).spec_remaining() > 0 ==> match spec_read_chunk(old(self).spec_bytes(), old(self).spec_cursor()) {
                Ok(sp) => {
                    &&& r matches Some(Ok(c)) && chunk_matches(c, sp, old(self).spec_bytes())
                    &&& final(self).spec_cursor() == sp.next
                    &&& final(self).spec_remaining() == old(self).spec_remaining() - 1
                    &&& !final(self).spec_failed()
                },
                Err(e) => {
                    &&& r == Some(Err::<Chunk<'a>, Error>(e))
                    &&& final(self).spec_failed()
                    &&& final(self).spec_cursor() == old(self).spec_cursor()
                    &&& final(self).spec_remaining() == old(self).spec_remaining()
                },
            },
            r is None <==> old(self).spec_items().len() == 0,
            r matches Some(Ok(c)) ==> (old(self).spec_items()[0] matches Ok(sp) && chunk_matches(c, sp, old(self).spec_bytes())),
            r matches Some(Err(e)) ==> old(self).spec_items()[0] == Err::<ChunkSpan, Error>(e),
            final(self).spec_items() == if r is None {
                old(self).spec_items()
            } else {
                old(self).spec_items().drop_first()
            },
    {
        proof {
            use_type_invariant(&*self);
        }
        if self.failed || self.remaining == 0 {
            return None;
        }
        match self.read_one() {
            Ok((chunk, next)) => {
                self.cursor = next;
                self.remaining = self.remaining - 1;
                Some(Ok(chunk))
            },
            Err(error) => {
                self.failed = true;
                Some(Err(error))
            },
        }
    }
}

/// A parsed and checked file. It is an index into the original bytes,
/// not a copy of them.
pub struct Archive<'a> {
    pub header: Header,
    pub chunks: Vec<Chunk<'a>>,
    /// The whole file.
    pub bytes: &'a [u8],
}

impl<'a> Archive<'a> {
    /// The bytes of the whole file.
    pub open spec fn spec_bytes(self) -> Seq<u8> {
        self.bytes@
    }

    /// Every chunk header lies inside the file.
    pub open spec fn wf(self) -> bool {
        forall|i: int| 0 <= i < self.chunks@.len() ==> #[trigger] self.chunks@[i].offset + 16 <= self.spec_bytes().len()
    }

    /// Parses the whole file and checks its structure: the header, every
    /// chunk it declares, and the presence of the required chunks. Every
    /// chunk of a parsed file starts on a four-byte boundary.
    pub fn parse(bytes: &'a [u8]) -> (r: Result<Archive<'a>, Error>)
        requires
            bytes@.len() <= isize::MAX,
        ensures
            r matches Ok(a) ==> {
                &&& spec_parse_archive(bytes@) matches Ok((h, spans))
                &&& a.header == h
                &&& chunks_match(a.chunks@, spans, bytes@)
                &&& a.spec_bytes() == bytes@
                &&& a.wf()
                &&& forall|i: int| 0 <= i < a.chunks@.len() ==> #[trigger] a.chunks@[i].offset % 4 == 0
            },
            r matches Err(e) ==> spec_parse_archive(bytes@) == Err::<(Header, Seq<ChunkSpan>), Error>(e),
    {
        let header = match Header::parse(bytes) {
            Ok(h) => h,
            Err(e) => {
                return Err(e);
            },
        };
        let mut reader = ChunkReader::new(bytes, &header);
        let mut chunks: Vec<Chunk<'a>> = Vec::new();
        let ghost mut spans: Seq<ChunkSpan> = Seq::empty();
        let ghost total = spec_read_chunks(bytes@, header.header_size as int, header.chunk_count as nat);
        loop
            invariant
                reader.spec_bytes() == bytes@,
                spec_parse_header(bytes@) == Ok::<Header, Error>(header),
                !reader.spec_failed(),
                chunks_match(chunks@, spans, bytes@),
                spans.len() + reader.spec_remaining() == header.chunk_count,
                total == spec_read_chunks(bytes@, header.header_size as int, header.chunk_count as nat),
                total == prepend_spans(spans, spec_read_chunks(bytes@, reader.spec_cursor(), reader.spec_remaining())),
            ensures
                spec_parse_header(bytes@) == Ok::<Header, Error>(header),
                chunks_match(chunks@, spans, bytes@),
                spans.len() == header.chunk_count,
                total == Ok::<Seq<ChunkSpan>, Error>(spans),
            decreases reader.spec_remaining(),
        {
            let ghost cursor = reader.spec_cursor();
            let ghost remaining = reader.spec_remaining();
            match reader.next() {
                None => {
                    proof {
                        assert(spans + Seq::<ChunkSpan>::empty() =~= spans);
                    }
                    break;
                },
                Some(Ok(chunk)) => {
                    proof {
                        let sp = spec_read_chunk(bytes@, cursor).unwrap();
                        let inner = spec_read_chunks(bytes@, sp.next, (remaining - 1) as nat);
                        assert(spans.push(sp) =~= spans + seq![sp]);
                        match inner {
                            Ok(rest) => {
                                assert(spans + (seq![sp] + rest) =~= (spans + seq![sp]) + rest);
                                assert(spec_read_chunks(bytes@, cursor, remaining) == Ok::<Seq<ChunkSpan>, Error>(seq![sp] + rest));
                            },
                            Err(e) => {
                                assert(spec_read_chunks(bytes@, cursor, remaining) == Err::<Seq<ChunkSpan>, Error>(e));
                            },
                        }
                        spans = spans.push(sp);
                    }
                    let ghost before = chunks@;
                    chunks.push(chunk);
                    proof {
                        assert forall|i: int| 0 <= i < chunks@.len() implies #[trigger] chunk_matches(chunks@[i], spans[i], bytes@) by {
                            if i < chunks@.len() - 1 {
                                assert(chunks@[i] == before[i]);
                            }
                        }
                    }
                },
                Some(Err(e)) => {
                    proof {
                        assert(spec_read_chunks(bytes@, cursor, remaining) == Err::<Seq<ChunkSpan>, Error>(e));
                    }
                    return Err(e);
                },
            }
        }
        if chunks.len() as u64 != header.chunk_count as u64 {
            return Err(Error::ChunkCountMismatch { declared: header.chunk_count, actual: chunks.len() as u32 });
        }
        let archive = Archive { header, chunks, bytes };
        proof {
            lemma_read_chunks_aligned(bytes@, header.header_size as int, header.chunk_count as nat);
            assert forall|i: int| 0 <= i < spans.len() implies chunk_ids(archive.chunks@)[i] == span_ids(spans)[i]
                && archive.chunks@[i].offset % 4 == 0 && archive.chunks@[i].offset <= bytes@.len() by {
                assert(chunk_matches(archive.chunks@[i], spans[i], bytes@));
                assert(spans[i].offset % 4 == 0);
                assert(spans[i].offset + 16 <= spans[i].payload_end <= bytes@.len());
            }
            assert(chunk_ids(archive.chunks@) =~= span_ids(spans));
            assert forall|i: int| 0 <= i < archive.chunks@.len() implies #[trigger] archive.chunks@[i].offset % 4 == 0 by {
                assert(chunk_matches(archive.chunks@[i], spans[i], bytes@));
                assert(spans[i].offset % 4 == 0);
            }
            assert forall|i: int| 0 <= i < archive.chunks@.len() implies #[trigger] archive.chunks@[i].offset + 16 <= archive.bytes@.len() by {
                assert(chunk_matches(archive.chunks@[i], spans[i], bytes@));
                assert(spans[i].offset + 16 <= spans[i].payload_end <= bytes@.len());
            }
            assert(archive.wf());
        }
        match archive.check_required_chunks() {
            Ok(()) => {},
            Err(e) => {
                return Err(e);
            },
        }
        Ok(archive)
    }

    fn check_required_chunks(&self) -> (r: Result<(), Error>)
        ensures
            match spec_missing_required(chunk_ids(self.chunks@)) {
                Some(e) => r == Err::<(), Error>(e),
                None => r is Ok,
            },
    {
        if self.find(ChunkId::meta()).is_none() {
            return Err(Error::MissingRequiredChunk("META"));
        }
        if self.find(ChunkId::stag()).is_none() {
            return Err(Error::MissingRequiredChunk("STAG"));
        }
        if self.find(ChunkId::chrs()).is_none() {
            return Err(Error::MissingRequiredChunk("CHRS"));
        }
        if self.find(ChunkId::mclp()).is_none() {
            return Err(Error::MissingRequiredChunk("MCLP"));
        }
        Ok(())
    }

    /// The first chunk with identifier `id`.
    pub fn find(&self, id: ChunkId) -> (r: Option<&Chunk<'a>>)
        ensures
            r matches Some(c) ==> exists|i: int| is_first_with_id(self.chunks@, i, id) && *c == self.chunks@[i],
            r is None <==> !chunk_ids(self.chunks@).contains(id),
    {
        let mut i: usize = 0;
        while i < self.chunks.len()
            invariant
                i <= self.chunks@.len(),
                forall|j: int| 0 <= j < i ==> #[trigger] self.chunks@[j].header.id != id,
            decreases self.chunks@.len() - i,
        {
            let c = &self.chunks[i];
            if same_id(&c.header.id, &id) {
                proof {
                    assert(is_first_with_id(self.chunks@, i as int, id));
                    assert(chunk_ids(self.chunks@)[i as int] == id);
                }
                return Some(c);
            }
            i = i + 1;
        }
        proof {
            if chunk_ids(self.chunks@).contains(id) {
                let k = choose|k: int| 0 <= k < chunk_ids(self.chunks@).len() && chunk_ids(self.chunks@)[k] == id;
                assert(self.chunks@[k].header.id == id);
            }
        }
        None
    }

    /// The bytes a `SIGN` chunk covers: from the start of the file up to
    /// the header of the (first) `SIGN` chunk. `None` when unsigned. In a
    /// parsed archive (`wf`) that range is shorter than the file.
    pub fn signed_range(&self) -> (r: Option<&'a [u8]>)
        requires
            forall|i: int| #[trigger] is_first_with_id(self.chunks@, i, ChunkId::sign()) ==> self.chunks@[i].offset <= self.bytes@.len(),
        ensures
            r is None <==> !chunk_ids(self.chunks@).contains(ChunkId::sign()),
            r matches Some(s) ==> exists|i: int| is_first_with_id(self.chunks@, i, ChunkId::sign())
                && s@ == self.spec_bytes().subrange(0, self.chunks@[i].offset as int),
            self.wf() ==> (r matches Some(s) ==> s@.len() < self.spec_bytes().len()),
    {
        let sign = match self.find(ChunkId::sign()) {
            Some(c) => c,
            None => {
                return None;
            },
        };
        let bytes = self.bytes;
        proof {
            let i = choose|i: int| is_first_with_id(self.chunks@, i, ChunkId::sign()) && *sign == self.chunks@[i];
            assert(self.chunks@[i].offset <= self.bytes@.len());
            if self.wf() {
                assert(self.chunks@[i].offset + 16 <= self.bytes@.len());
            }
        }
        Some(slice_subrange(bytes, 0, sign.offset))
    }

    /// The bytes of the whole file, for signature checks and hashing.
    pub fn as_bytes(&self) -> (r: &'a [u8])
        ensures
            r@ == self.spec_bytes(),
    {
        self.bytes
    }
}

/// One chunk handed to [`ArchiveWriter::push_raw`].
pub struct RawEntry {
    pub id: ChunkId,
    pub payload: Seq<u8>,
    pub flags: u8,
}

/// The header the writer puts in front of an entry's payload.
pub open spec fn entry_header(e: RawEntry) -> ChunkHeader {
    ChunkHeader {
        id: e.id,
        codec: 0,
        flags: e.flags,
        stored_size: e.payload.len() as u32,
        origin_size: e.payload.len() as u32,
    }
}

/// The CRC bytes that follow an entry's payload, if its flags ask for them.
pub open spec fn entry_crc_bytes(e: RawEntry) -> Seq<u8> {
    if entry_header(e).spec_has_crc() {
        spec_u32_to_le_bytes(spec_checksum(e.payload))
    } else {
        Seq::empty()
    }
}

/// `n` zero bytes.
pub open spec fn zeros(n: nat) -> Seq<u8> {
    Seq::new(n, |i: int| 0u8)
}

/// The bytes the writer emits for one entry at a four-aligned position:
/// header, payload, optional CRC, zero padding up to four.
pub open spec fn spec_record(e: RawEntry) -> Seq<u8> {
    let n: int = 16 + e.payload.len() as int + entry_crc_bytes(e).len() as int;
    entry_header(e).spec_to_bytes() + e.payload + entry_crc_bytes(e) + zeros(
        (spec_align_up(n) - n) as nat,
    )
}

/// The records of all entries, in order.
pub open spec fn spec_records(es: Seq<RawEntry>) -> Seq<u8>
    decreases es.len(),
{
    if es.len() == 0 {
        Seq::empty()
    } else {
        spec_record(es[0]) + spec_records(es.subrange(1, es.len() as int))
    }
}

/// The file header the writer emits for `n` entries whose records take
/// `body_len` bytes.
pub open spec fn writer_header(flags: u16, n: nat, body_len: nat) -> Header {
    Header {
        version_major: 0,
        version_minor: 1,
        flags,
        header_size: HEADER_SIZE,
        chunk_count: n as u32,
        file_size: (32 + body_len) as u64,
    }
}

/// The whole file the writer emits for `es`.
pub open spec fn spec_written_file(flags: u16, es: Seq<RawEntry>) -> Seq<u8> {
    writer_header(flags, es.len(), spec_records(es).len()).spec_to_bytes() + spec_records(es)
}

/// The span read back locates exactly what was written for `e`.
pub open spec fn span_matches_entry(sp: ChunkSpan, e: RawEntry, s: Seq<u8>) -> bool {
    &&& sp.header == entry_header(e)
    &&& s.subrange(sp.offset + 16, sp.payload_end) == e.payload
    &&& sp.crc == (if entry_header(e).spec_has_crc() {
        Some(spec_checksum(e.payload))
    } else {
        None
    })
}

/// Every entry's payload fits the 32-bit size fields.
pub open spec fn entries_fit(es: Seq<RawEntry>) -> bool {
    forall|i: int| 0 <= i < es.len() ==> #[trigger] es[i].payload.len() <= u32::MAX
}

#[verifier::spinoff_prover]
proof fn lemma_record_len(e: RawEntry)
    ensures
        spec_record(e).len() % 4 == 0,
        spec_record(e).len() == spec_align_up(16 + e.payload.len() + entry_crc_bytes(e).len() as int),
        entry_crc_bytes(e).len() == if entry_header(e).spec_has_crc() {
            4int
        } else {
            0int
        },
        entry_header(e).spec_to_bytes().len() == 16,
{
    lemma_le_lengths(0, entry_header(e).stored_size, 0, 0);
    lemma_le_lengths(0, spec_checksum(e.payload), 0, 0);
}

/// Appending one more entry appends its record.
proof fn lemma_records_push(es: Seq<RawEntry>, e: RawEntry)
    ensures
        spec_records(es.push(e)) == spec_records(es) + spec_record(e),
    decreases es.len(),
{
    if es.len() == 0 {
        assert(es.push(e).subrange(1, 1) =~= Seq::<RawEntry>::empty());
        assert(spec_records(Seq::<RawEntry>::empty()) == Seq::<u8>::empty());
        assert(es.push(e)[0] == e);
        assert(spec_records(es.push(e)) == spec_record(e) + spec_records(es.push(e).subrange(1, 1)));
        assert(spec_records(es.push(e)) =~= spec_record(e));
    } else {
        let tail = es.subrange(1, es.len() as int);
        lemma_records_push(tail, e);
        assert(es.push(e).subrange(1, es.len() as int + 1) =~= tail.push(e));
        assert(es.push(e)[0] == es[0]);
        assert(spec_records(es.push(e)) =~= spec_records(es) + spec_record(e));
    }
}

proof fn lemma_records_aligned(es: Seq<RawEntry>)
    ensures
        spec_records(es).len() % 4 == 0,
    decreases es.len(),
{
    if es.len() > 0 {
        lemma_record_len(es[0]);
        lemma_records_aligned(es.subrange(1, es.len() as int));
    }
}

/// Reading one record back at a four-aligned position.
proof fn lemma_read_record(s: Seq<u8>, cursor: int, e: RawEntry)
    requires
        cursor >= 0,
        cursor % 4 == 0,
        e.payload.len() <= u32::MAX,
        cursor + spec_record(e).len() <= s.len(),
        s.subrange(cursor, cursor + spec_record(e).len()) == spec_record(e),
    ensures
        spec_read_chunk(s, cursor) matches Ok(sp) && span_matches_entry(sp, e, s) && sp.offset
            == cursor && sp.next == cursor + spec_record(e).len(),
{
    lemma_record_len(e);
    let r = spec_record(e);
    let h = entry_header(e);
    let hb = h.spec_to_bytes();
    let len = e.payload.len();
    lemma_le_lengths(0, h.stored_size, 0, 0);
    assert forall|k: int| 0 <= k < r.len() implies s[cursor + k] == r[k] by {
        assert(s.subrange(cursor, cursor + r.len())[k] == s[cursor + k]);
    }
    assert(r.subrange(0, 16) =~= hb);
    assert(h.id.0@.len() == 4);
    assert forall|k: int| 0 <= k < 4 implies hb[k] == h.id.0@[k] by {}
    assert forall|k: int| 0 <= k < 16 implies s[cursor + k] == hb[k] by {
        assert(r.subrange(0, 16)[k] == r[k]);
        assert(s.subrange(cursor, cursor + r.len())[k] == s[cursor + k]);
    }
    assert(s[cursor + 0] == hb[0] && hb[0] == h.id.0@[0]);
    assert(s[cursor + 1] == hb[1] && hb[1] == h.id.0@[1]);
    assert(s[cursor + 2] == hb[2] && hb[2] == h.id.0@[2]);
    assert(s[cursor + 3] == hb[3] && hb[3] == h.id.0@[3]);
    assert(s[cursor + 4] == hb[4]);
    assert(s[cursor + 5] == hb[5]);
    assert(s[cursor + 4] == h.codec);
    assert(s[cursor + 5] == h.flags);
    assert(hb.subrange(8, 12) =~= spec_u32_to_le_bytes(h.stored_size));
    assert(hb.subrange(12, 16) =~= spec_u32_to_le_bytes(h.origin_size));
    assert(s.subrange(cursor, cursor + 16) =~= hb);
    assert(s.subrange(cursor + 8, cursor + 12) =~= s.subrange(cursor, cursor + 16).subrange(8, 12));
    assert(s.subrange(cursor + 12, cursor + 16) =~= s.subrange(cursor, cursor + 16).subrange(12, 16));
    assert(s.subrange(cursor + 8, cursor + 12) =~= spec_u32_to_le_bytes(h.stored_size));
    lemma_u32_round_trip(h.stored_size, s, cursor + 8);
    assert(s.subrange(cursor + 12, cursor + 16) =~= spec_u32_to_le_bytes(h.origin_size));
    lemma_u32_round_trip(h.origin_size, s, cursor + 12);
    let hdr = spec_chunk_header_at(s, cursor);
    assert(hdr.id.0@ =~= h.id.0@);
    assert(hdr.id.0 =~= h.id.0);
    assert(hdr == h);
    assert(r.subrange(16, 16 + len as int) =~= e.payload);
    lemma_window(s, cursor, r, 16, 16 + len as int);
    if h.spec_has_crc() {
        let c = spec_checksum(e.payload);
        assert(r.subrange(16 + len as int, 16 + len as int + 4) =~= spec_u32_to_le_bytes(c));
        lemma_window(s, cursor, r, 16 + len as int, 16 + len as int + 4);
        lemma_u32_round_trip(c, s, cursor + 16 + len);
    }
    let n: int = 16 + len as int + entry_crc_bytes(e).len() as int;
    assert(spec_align_up(cursor + n) == cursor + spec_align_up(n));
}

/// Reading back all records of `es` written at a four-aligned position
/// gives one span per entry, each locating that entry.
pub proof fn lemma_read_records(s: Seq<u8>, cursor: int, es: Seq<RawEntry>)
    requires
        cursor >= 0,
        cursor % 4 == 0,
        entries_fit(es),
        cursor + spec_records(es).len() <= s.len(),
        s.subrange(cursor, cursor + spec_records(es).len()) == spec_records(es),
    ensures
        spec_read_chunks(s, cursor, es.len()) matches Ok(spans) && spans.len() == es.len() && (
        forall|i: int| 0 <= i < es.len() ==> #[trigger] span_matches_entry(spans[i], es[i], s)),
    decreases es.len(),
{
    if es.len() > 0 {
        let e = es[0];
        let tail = es.subrange(1, es.len() as int);
        let r = spec_record(e);
        let rest = spec_records(tail);
        assert(spec_records(es) == r + rest);
        assert(s.subrange(cursor, cursor + r.len()) =~= spec_records(es).subrange(0, r.len() as int));
        assert(spec_records(es).subrange(0, r.len() as int) =~= r);
        lemma_record_len(e);
        lemma_read_record(s, cursor, e);
        let sp = spec_read_chunk(s, cursor).unwrap();
        assert(s.subrange(sp.next, sp.next + rest.len()) =~= spec_records(es).subrange(r.len() as int, spec_records(es).len() as int));
        assert(spec_records(es).subrange(r.len() as int, spec_records(es).len() as int) =~= rest);
        assert forall|i: int| 0 <= i < tail.len() implies #[trigger] tail[i].payload.len() <= u32::MAX by {
            assert(tail[i] == es[i + 1]);
        }
        lemma_read_records(s, sp.next, tail);
        let spans_rest = spec_read_chunks(s, sp.next, tail.len()).unwrap();
        let spans = seq![sp] + spans_rest;
        assert(spec_read_chunks(s, cursor, es.len()) == Ok::<Seq<ChunkSpan>, Error>(spans));
        assert forall|i: int| 0 <= i < es.len() implies #[trigger] span_matches_entry(spans[i], es[i], s) by {
            if i > 0 {
                assert(spans[i] == spans_rest[i - 1]);
                assert(es[i] == tail[i - 1]);
            }
        }
    }
}

/// The identifiers of the entries, in order.
pub open spec fn entry_ids(es: Seq<RawEntry>) -> Seq<ChunkId> {
    es.map_values(|e: RawEntry| e.id)
}

/// What the writer writes, the parser reads back: the header the writer
/// built, and one chunk per pushed entry with its identifier, flags,
/// payload and CRC; or, when a required chunk was never pushed, the error
/// naming the first one missing.
pub proof fn lemma_written_file_parses(flags: u16, es: Seq<RawEntry>)
    requires
        entries_fit(es),
        es.len() <= u32::MAX,
        spec_records(es).len() + 32 <= u64::MAX,
    ensures
        ({
            let s = spec_written_file(flags, es);
            let h = writer_header(flags, es.len(), spec_records(es).len());
            match spec_missing_required(entry_ids(es)) {
                Some(err) => spec_parse_archive(s) == Err::<(Header, Seq<ChunkSpan>), Error>(err),
                None => spec_parse_archive(s) matches Ok((h2, spans)) && h2 == h && spans.len()
                    == es.len() && forall|i: int|
                    0 <= i < es.len() ==> #[trigger] span_matches_entry(spans[i], es[i], s),
            }
        }),
{
    let body = spec_records(es);
    let h = writer_header(flags, es.len(), body.len());
    let s = spec_written_file(flags, es);
    lemma_header_round_trip(h, body);
    let hb = h.spec_to_bytes();
    lemma_le_lengths(h.flags, h.header_size, h.file_size, 0);
    lemma_le_lengths(0, h.chunk_count, 0, 0);
    lemma_le_lengths(0, spec_checksum(h.spec_prefix()), 0, 0);
    assert(hb.len() == 32);
    assert(s.subrange(32, 32 + body.len() as int) =~= body);
    lemma_read_records(s, 32, es);
    let spans = spec_read_chunks(s, 32, es.len()).unwrap();
    assert forall|i: int| 0 <= i < spans.len() implies span_ids(spans)[i] == entry_ids(es)[i] by {
        assert(span_matches_entry(spans[i], es[i], s));
    }
    assert(span_ids(spans) =~= entry_ids(es));
}

/// A RAW chunk read back from a written file gives back the payload that
/// was written, its CRC (when flagged) passing the check.
pub proof fn lemma_written_payload(c: Chunk, sp: ChunkSpan, e: RawEntry, s: Seq<u8>)
    requires
        chunk_matches(c, sp, s),
        span_matches_entry(sp, e, s),
        e.payload.len() <= u32::MAX,
    ensures
        spec_payload(c) == Ok::<Seq<u8>, Error>(e.payload),
{
}

/// Builds files for tests and tools. It never compresses: files are
/// produced by the editor, this writer exists to make inputs for the parser.
pub struct ArchiveWriter {
    body: Vec<u8>,
    chunk_count: u32,
    flags: u16,
    entries: Ghost<Seq<RawEntry>>,
}

impl ArchiveWriter {
    /// The body holds exactly the records of the entries pushed so far.
    #[verifier::type_invariant]
    spec fn inv(self) -> bool {
        &&& self.body@ == spec_records(self.entries@)
        &&& self.chunk_count == self.entries@.len()
        &&& self.body@.len() <= isize::MAX
    }

    /// The entries pushed so far.
    pub closed spec fn spec_entries(self) -> Seq<RawEntry> {
        self.entries@
    }

    /// The file flags the header will carry.
    pub closed spec fn spec_flags(self) -> u16 {
        self.flags
    }

    /// A writer with no chunks yet.
    pub fn new(flags: u16) -> (w: Self)
        ensures
            w.spec_entries() == Seq::<RawEntry>::empty(),
            w.spec_flags() == flags,
    {
        ArchiveWriter { body: Vec::new(), chunk_count: 0, flags, entries: Ghost(Seq::empty()) }
    }

    /// Appends an uncompressed chunk. With `HAS_CRC` in `chunk_flags` the
    /// payload's CRC-32 follows it; then zero padding brings the next
    /// chunk to a four-byte boundary. The size fields are 32 bits wide: a
    /// longer payload is written with its length cut to 32 bits, and such
    /// a file does not read back.
    #[verifier::spinoff_prover]
    #[verifier::rlimit(40)]
    pub fn push_raw(&mut self, id: ChunkId, payload: &[u8], chunk_flags: u8)
        requires
            old(self).spec_entries().len() < u32::MAX,
            spec_records(old(self).spec_entries()).len() + payload@.len() + 23 <= isize::MAX,
        ensures
            final(self).spec_entries() == old(self).spec_entries().push(
                RawEntry { id, payload: payload@, flags: chunk_flags },
            ),
            final(self).spec_flags() == old(self).spec_flags(),
    {
        let mut taken = ArchiveWriter::new(self.flags);
        std::mem::swap(&mut taken, self);
        proof {
            use_type_invariant(&taken);
        }
        let ArchiveWriter { mut body, chunk_count, flags, entries } = taken;
        proof {
            lemma_records_aligned(entries@);
        }
        let ghost e = RawEntry { id, payload: payload@, flags: chunk_flags };
        let len = payload.len();
        let header = ChunkHeader {
            id,
            codec: Codec::Raw.to_u8(),
            flags: chunk_flags,
            stored_size: #[verifier::truncate] (len as u32),
            origin_size: #[verifier::truncate] (len as u32),
        };
        let ghost start = body@;
        let hb = header.to_bytes();
        body.extend_from_slice(hb.as_slice());
        body.extend_from_slice(payload);
        if header.has_crc() {
            push_u32(&mut body, checksum(payload));
        }
        proof {
            lemma_record_len(e);
            assert(header == entry_header(e));
            assert(body@ =~= start + hb@ + payload@ + entry_crc_bytes(e));
        }
        let ghost before_pad = body@;
        let current = body.len();
        let padding = align_up(current) - current;
        body.resize(current + padding, 0);
        proof {
            assert forall|k: int| current <= k < body@.len() implies body@[k] == 0u8 by {
                assert(cloned::<u8>(0u8, body@[k]));
            }
            let n: int = 16 + len as int + entry_crc_bytes(e).len() as int;
            assert(spec_align_up(start.len() + n) == start.len() + spec_align_up(n));
            assert(current == start.len() + n);
            assert(padding == spec_align_up(n) - n);
            let z = zeros((spec_align_up(n) - n) as nat);
            assert(spec_record(e) == hb@ + payload@ + entry_crc_bytes(e) + z);
            assert(body@.subrange(0, current as int) == before_pad);
            assert(body@ =~= before_pad + z);
            assert(body@ =~= start + spec_record(e));
            lemma_records_push(entries@, e);
        }
        *self = ArchiveWriter { body, chunk_count: chunk_count + 1, flags, entries: Ghost(entries@.push(e)) };
    }

    /// The finished file: the header (version 0.1, the flags, the chunk
    /// count, the total size) followed by every record.
    pub fn finish(self) -> (out: Vec<u8>)
        ensures
            out@ == spec_written_file(self.spec_flags(), self.spec_entries()),
    {
        proof {
            use_type_invariant(&self);
        }
        let header = Header {
            version_major: 0,
            version_minor: 1,
            flags: self.flags,
            header_size: HEADER_SIZE,
            chunk_count: self.chunk_count,
            file_size: 32 + self.body.len() as u64,
        };
        let mut out: Vec<u8> = Vec::new();
        let hb = header.to_bytes();
        out.extend_from_slice(hb.as_slice());
        out.extend_from_slice(self.body.as_slice());
        proof {
            assert(header == writer_header(self.flags, self.entries@.len(), self.body@.len()));
            assert(out@ =~= spec_written_file(self.flags, self.entries@));
        }
        out
    }
}


/// A chunk's layout, read: a chunk that reads at `start` has its
/// identifier in bytes `start..start + 4`, the codec in byte 4, the flags
/// in byte 5, the stored size as the little-endian `u32` at 8 and the
/// original size as the one at 12; its payload follows the 16-byte header
/// and is `stored_size` bytes long; with `HAS_CRC` (flag bit 1) the CRC is
/// the `u32` right after the payload; and the next chunk starts at the
/// first multiple of four after that.
pub proof fn lemma_chunk_read_layout(s: Seq<u8>, start: int)
    requires
        0 <= start,
    ensures
        spec_read_chunk(s, start) matches Ok(sp) ==> {
            let pe = start + 16 + spec_u32_from_le_bytes(s.subrange(start + 8, start + 12));
            let has_crc = s[start + 5] & 2 != 0;
            let end = if has_crc { pe + 4 } else { pe };
            &&& sp.offset == start
            &&& sp.header.id.0@ == s.subrange(start, start + 4)
            &&& sp.header.codec == s[start + 4]
            &&& sp.header.flags == s[start + 5]
            &&& sp.header.stored_size == spec_u32_from_le_bytes(s.subrange(start + 8, start + 12))
            &&& sp.header.origin_size == spec_u32_from_le_bytes(s.subrange(start + 12, start + 16))
            &&& sp.payload_end == pe
            &&& end <= s.len()
            &&& sp.crc == (if has_crc {
                Some(spec_u32_from_le_bytes(s.subrange(pe, pe + 4)))
            } else {
                None
            })
            &&& sp.next % 4 == 0
            &&& end <= sp.next < end + 4
        },
{
    if let Ok(sp) = spec_read_chunk(s, start) {
        let h = sp.header;
        assert(h.id.0@.len() == 4);
        assert forall|k: int| 0 <= k < 4 implies h.id.0@[k] == s.subrange(start, start + 4)[k] by {
            assert(h.id.0@[0] == s[start] && h.id.0@[1] == s[start + 1]);
            assert(h.id.0@[2] == s[start + 2] && h.id.0@[3] == s[start + 3]);
        }
        assert(h.id.0@ =~= s.subrange(start, start + 4));
        assert((h.flags & 2 != 0) == h.spec_has_crc());
    }
}
} // verus!
