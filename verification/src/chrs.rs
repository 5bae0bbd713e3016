//! The `CHRS` chunk: the character table. The position of an entry is its
//! character id.

use crate::error::Error;
use crate::le::{push_u32, read_u32_at, u32_at, lemma_u32_round_trip};
use vstd::bytes::{lemma_auto_spec_u32_to_from_le_bytes, spec_u32_from_le_bytes, spec_u32_to_le_bytes};
use vstd::prelude::*;

verus! {

/// What a character is.
#[derive(Debug, Clone, Copy, PartialEq, Eq, Structural)]
pub enum CharacterKind {
    /// Code 1.
    MovieClip,
    /// Code 2.
    Shape,
    /// Code 3.
    Bitmap,
    /// Code 4.
    Video,
    /// Code 5.
    Text,
}

/// The kind a table byte names, if any.
pub open spec fn spec_kind(value: u8) -> Option<CharacterKind> {
    if value == 1 {
        Some(CharacterKind::MovieClip)
    } else if value == 2 {
        Some(CharacterKind::Shape)
    } else if value == 3 {
        Some(CharacterKind::Bitmap)
    } else if value == 4 {
        Some(CharacterKind::Video)
    } else if value == 5 {
        Some(CharacterKind::Text)
    } else {
        None
    }
}

impl CharacterKind {
    /// The kind a table byte names; `None` for unknown values.
    pub fn from_u8(value: u8) -> (r: Option<CharacterKind>)
        ensures
            r == spec_kind(value),
    {
        match value {
            1 => Some(CharacterKind::MovieClip),
            2 => Some(CharacterKind::Shape),
            3 => Some(CharacterKind::Bitmap),
            4 => Some(CharacterKind::Video),
            5 => Some(CharacterKind::Text),
            _ => None,
        }
    }

    /// The table byte of this kind.
    #[verifier::allow_in_spec]
    pub fn to_u8(self) -> u8
        returns
            (match self {
                CharacterKind::MovieClip => 1u8,
                CharacterKind::Shape => 2u8,
                CharacterKind::Bitmap => 3u8,
                CharacterKind::Video => 4u8,
                CharacterKind::Text => 5u8,
            }),
    {
        match self {
            CharacterKind::MovieClip => 1,
            CharacterKind::Shape => 2,
            CharacterKind::Bitmap => 3,
            CharacterKind::Video => 4,
            CharacterKind::Text => 5,
        }
    }
}

/// One row of the table.
#[derive(Debug, Clone, Copy, PartialEq, Eq, Structural)]
pub struct CharacterEntry {
    pub kind: CharacterKind,
    /// Bit 0 of the flags: the symbol table has a name for it.
    pub exported: bool,
    /// Byte offset of the body inside its body chunk (MCLP/SHAP/BMAP/VIDS).
    pub body_offset: u32,
    /// Size of the body in bytes.
    pub body_size: u32,
}

/// The whole `CHRS` payload.
#[derive(Debug, Clone, PartialEq, Eq)]
pub struct Characters {
    pub entries: Vec<CharacterEntry>,
}

/// The size of one table row.
pub const ENTRY_SIZE: usize = 12;

/// Where row `i` starts.
pub open spec fn row_start(i: int) -> int {
    4 + 12 * i
}

/// The row of `s` that starts at `base`, given that its kind byte is known.
pub open spec fn spec_entry_at(s: Seq<u8>, base: int) -> CharacterEntry {
    CharacterEntry {
        kind: spec_kind(s[base]).unwrap(),
        exported: s[base + 1] & 1 != 0,
        body_offset: u32_at(s, base + 4),
        body_size: u32_at(s, base + 8),
    }
}

/// What parsing a `CHRS` payload gives: a `u32` count, then that many
/// rows; every row must name a known kind.
pub open spec fn spec_parse_characters(s: Seq<u8>) -> Result<Seq<CharacterEntry>, Error> {
    if s.len() < 4 {
        Err(Error::MalformedPayload("CHRS"))
    } else if s.len() < row_start(u32_at(s, 0) as int) {
        Err(Error::MalformedPayload("CHRS"))
    } else if exists|i: int| 0 <= i < u32_at(s, 0) && #[trigger] spec_kind(s[row_start(i)]) is None {
        Err(Error::MalformedPayload("CHRS"))
    } else {
        Ok(Seq::new(u32_at(s, 0) as nat, |i: int| spec_entry_at(s, row_start(i))))
    }
}

/// The 12 bytes of one row; the reserved bytes are zero.
pub open spec fn spec_entry_bytes(e: CharacterEntry) -> Seq<u8> {
    seq![e.kind.to_u8(), if e.exported { 1u8 } else { 0u8 }, 0u8, 0u8] + spec_u32_to_le_bytes(
        e.body_offset,
    ) + spec_u32_to_le_bytes(e.body_size)
}

/// The rows of `es`, in order.
pub open spec fn spec_rows(es: Seq<CharacterEntry>) -> Seq<u8>
    decreases es.len(),
{
    if es.len() == 0 {
        Seq::empty()
    } else {
        spec_rows(es.drop_last()) + spec_entry_bytes(es.last())
    }
}

/// The encoding of a table: the row count, then the rows.
pub open spec fn spec_characters_bytes(es: Seq<CharacterEntry>) -> Seq<u8> {
    spec_u32_to_le_bytes(es.len() as u32) + spec_rows(es)
}

impl Characters {
    /// Reads a `CHRS` payload.
    pub fn parse(payload: &[u8]) -> (r: Result<Characters, Error>)
        ensures
            match spec_parse_characters(payload@) {
                Ok(es) => r matches Ok(c) && c.entries@ == es,
                Err(e) => r == Err::<Characters, Error>(e),
            },
    {
        let len = payload.len();
        if len < 4 {
            return Err(Error::MalformedPayload("CHRS"));
        }
        let count = read_u32_at(payload, 0);
        let expected: u64 = 4 + (count as u64) * 12;
        if (len as u64) < expected {
            return Err(Error::MalformedPayload("CHRS"));
        }
        let mut entries: Vec<CharacterEntry> = Vec::new();
        let mut idx: usize = 0;
        while idx < count as usize
            invariant
                len == payload@.len(),
                count == u32_at(payload@, 0),
                row_start(count as int) <= len,
                idx <= count,
                entries@.len() == idx,
                forall|i: int| 0 <= i < idx ==> #[trigger] spec_kind(payload@[row_start(i)]) is Some,
                forall|i: int| 0 <= i < idx ==> #[trigger] entries@[i] == spec_entry_at(payload@, row_start(i)),
            decreases count - idx,
        {
            let base = 4 + idx * 12;
            let kind = match CharacterKind::from_u8(payload[base]) {
                Some(k) => k,
                None => {
                    proof {
                        assert(row_start(idx as int) == base);
                        assert(spec_kind(payload@[row_start(idx as int)]) is None);
                    }
                    return Err(Error::MalformedPayload("CHRS"));
                },
            };
            let flags = payload[base + 1];
            entries.push(
                CharacterEntry {
                    kind,
                    exported: flags & 1 != 0,
                    body_offset: read_u32_at(payload, base + 4),
                    body_size: read_u32_at(payload, base + 8),
                },
            );
            idx = idx + 1;
        }
        proof {
            assert(entries@ =~= Seq::new(count as nat, |i: int| spec_entry_at(payload@, row_start(i))));
        }
        Ok(Characters { entries })
    }

    /// Encodes the table: the row count, then 12 bytes per row. The count
    /// field is 32 bits wide; a longer table has its count cut to 32 bits.
    pub fn to_bytes(&self) -> (out: Vec<u8>)
        ensures
            out@ == spec_characters_bytes(self.entries@),
    {
        let mut out: Vec<u8> = Vec::new();
        push_u32(&mut out, self.entries.len() as u32);
        let ghost head = out@;
        let mut i: usize = 0;
        while i < self.entries.len()
            invariant
                i <= self.entries@.len(),
                out@ == head + spec_rows(self.entries@.subrange(0, i as int)),
            decreases self.entries@.len() - i,
        {
            let entry = self.entries[i];
            out.push(entry.kind.to_u8());
            out.push(if entry.exported { 1 } else { 0 });
            out.push(0);
            out.push(0);
            push_u32(&mut out, entry.body_offset);
            push_u32(&mut out, entry.body_size);
            proof {
                let next = self.entries@.subrange(0, i + 1);
                assert(next.drop_last() =~= self.entries@.subrange(0, i as int));
                assert(next.last() == entry);
                assert(out@ =~= head + spec_rows(next));
            }
            i = i + 1;
        }
        proof {
            assert(self.entries@.subrange(0, i as int) =~= self.entries@);
        }
        out
    }
}

proof fn lemma_rows_shape(es: Seq<CharacterEntry>)
    ensures
        spec_rows(es).len() == 12 * es.len(),
        forall|i: int, k: int| 0 <= i < es.len() && 0 <= k < 12 ==> #[trigger] spec_rows(es)[12 * i + k] == spec_entry_bytes(es[i])[k],
    decreases es.len(),
{
    lemma_auto_spec_u32_to_from_le_bytes();
    if es.len() > 0 {
        let init = es.drop_last();
        lemma_rows_shape(init);
        assert(spec_entry_bytes(es.last()).len() == 12);
        assert forall|i: int, k: int| 0 <= i < es.len() && 0 <= k < 12 implies #[trigger] spec_rows(es)[12 * i + k] == spec_entry_bytes(es[i])[k] by {
            if i < es.len() - 1 {
                assert(spec_rows(init)[12 * i + k] == spec_entry_bytes(init[i])[k]);
                assert(init[i] == es[i]);
            }
        }
    }
}

/// An encoded table parses back to the same rows.
pub proof fn lemma_characters_round_trip(es: Seq<CharacterEntry>)
    requires
        es.len() <= u32::MAX,
    ensures
        spec_parse_characters(spec_characters_bytes(es)) == Ok::<Seq<CharacterEntry>, Error>(es),
{
    lemma_auto_spec_u32_to_from_le_bytes();
    let s = spec_characters_bytes(es);
    let n = es.len() as u32;
    lemma_rows_shape(es);
    assert(s.subrange(0, 4) =~= spec_u32_to_le_bytes(n));
    lemma_u32_round_trip(n, s, 0);
    let rows = spec_rows(es);
    assert forall|j: int| 0 <= j < rows.len() implies s[4 + j] == #[trigger] rows[j] by {}
    assert forall|i: int| 0 <= i < es.len() implies #[trigger] spec_entry_at(s, row_start(i)) == es[i] && spec_kind(s[row_start(i)]) is Some by {
        let b = spec_entry_bytes(es[i]);
        assert forall|k: int| 0 <= k < 12 implies s[row_start(i) + k] == b[k] by {
            assert(rows[12 * i + k] == b[k]);
            assert(s[4 + (12 * i + k)] == rows[12 * i + k]);
        }
        assert(s[row_start(i) + 0] == b[0]);
        assert(s[row_start(i) + 1] == b[1]);
        assert(b[0] == es[i].kind.to_u8());
        assert(b[1] == if es[i].exported { 1u8 } else { 0u8 });
        assert((1u8 & 1u8) != 0u8 && (0u8 & 1u8) == 0u8) by (bit_vector);
        assert(s.subrange(row_start(i) + 4, row_start(i) + 8) =~= spec_u32_to_le_bytes(es[i].body_offset)) by {
            assert forall|k: int| 0 <= k < 4 implies s.subrange(row_start(i) + 4, row_start(i) + 8)[k] == spec_u32_to_le_bytes(es[i].body_offset)[k] by {
                assert(s[row_start(i) + (4 + k)] == b[4 + k]);
                assert(b[4 + k] == spec_u32_to_le_bytes(es[i].body_offset)[k]);
            }
        }
        assert(s.subrange(row_start(i) + 8, row_start(i) + 12) =~= spec_u32_to_le_bytes(es[i].body_size)) by {
            assert forall|k: int| 0 <= k < 4 implies s.subrange(row_start(i) + 8, row_start(i) + 12)[k] == spec_u32_to_le_bytes(es[i].body_size)[k] by {
                assert(s[row_start(i) + (8 + k)] == b[8 + k]);
                assert(b[8 + k] == spec_u32_to_le_bytes(es[i].body_size)[k]);
            }
        }
        lemma_u32_round_trip(es[i].body_offset, s, row_start(i) + 4);
        lemma_u32_round_trip(es[i].body_size, s, row_start(i) + 8);
    }
    assert(s.len() == 4 + 12 * es.len());
    assert forall|i: int| 0 <= i < u32_at(s, 0) implies #[trigger] spec_kind(s[row_start(i)]) is Some by {
        assert(spec_entry_at(s, row_start(i)) == es[i]);
    }
    assert(Seq::new(n as nat, |i: int| spec_entry_at(s, row_start(i))) =~= es);
}


/// The character table's layout, read: the row count is the little-endian
/// `u32` at 0; row `i` is the 12 bytes at `4 + 12 * i`: the kind code
/// (1 movie clip, 2 shape, 3 bitmap, 4 video, 5 text), a flags byte whose
/// bit 0 is `exported`, two reserved bytes, then the body offset and the
/// body size as little-endian `u32`s. Character `i` is row `i`.
pub proof fn lemma_characters_read_layout(s: Seq<u8>)
    ensures
        spec_parse_characters(s) matches Ok(es) ==> {
            &&& es.len() == spec_u32_from_le_bytes(s.subrange(0, 4))
            &&& forall|i: int| 0 <= i < es.len() ==> {
                let at = 4 + 12 * i;
                &&& ((#[trigger] es[i]).kind == CharacterKind::MovieClip <==> s[at] == 1)
                &&& (es[i].kind == CharacterKind::Shape <==> s[at] == 2)
                &&& (es[i].kind == CharacterKind::Bitmap <==> s[at] == 3)
                &&& (es[i].kind == CharacterKind::Video <==> s[at] == 4)
                &&& (es[i].kind == CharacterKind::Text <==> s[at] == 5)
                &&& es[i].exported == (s[at + 1] & 1 != 0)
                &&& es[i].body_offset == spec_u32_from_le_bytes(s.subrange(at + 4, at + 8))
                &&& es[i].body_size == spec_u32_from_le_bytes(s.subrange(at + 8, at + 12))
            }
        },
{
    if let Ok(es) = spec_parse_characters(s) {
        assert forall|i: int| 0 <= i < es.len() implies spec_kind(#[trigger] s[row_start(i)]) is Some by {
        }
    }
}
} // verus!
