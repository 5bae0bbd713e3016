//! Little-endian integer fields read from and written to byte sequences.
//!
//! Every multi-byte integer of the format is little-endian. The byte-level
//! meaning of each conversion comes from `vstd::bytes`; this module adds the
//! "field at offset `i`" view used by all chunk schemas.

use vstd::bytes::*;
use vstd::prelude::*;

verus! {

/// The `u16` stored little-endian at `s[i..i + 2]`.
pub open spec fn u16_at(s: Seq<u8>, i: int) -> u16 {
    spec_u16_from_le_bytes(s.subrange(i, i + 2))
}

/// The `u32` stored little-endian at `s[i..i + 4]`.
pub open spec fn u32_at(s: Seq<u8>, i: int) -> u32 {
    spec_u32_from_le_bytes(s.subrange(i, i + 4))
}

/// The `i32` stored little-endian (two's complement) at `s[i..i + 4]`.
pub open spec fn i32_at(s: Seq<u8>, i: int) -> i32 {
    u32_at(s, i) as i32
}

/// The `u64` stored little-endian at `s[i..i + 8]`.
pub open spec fn u64_at(s: Seq<u8>, i: int) -> u64 {
    spec_u64_from_le_bytes(s.subrange(i, i + 8))
}

/// The four little-endian bytes of an `i32`.
pub open spec fn i32_le(v: i32) -> Seq<u8> {
    spec_u32_to_le_bytes(v as u32)
}

/// Reads the `u16` at `bytes[i..i + 2]`.
pub fn read_u16_at(bytes: &[u8], i: usize) -> (v: u16)
    requires
        i + 2 <= bytes@.len(),
    ensures
        v == u16_at(bytes@, i as int),
{
    let len = bytes.len();
    assert(i + 2 <= len);
    u16_from_le_bytes(&bytes[i..i + 2])
}

/// Reads the `u32` at `bytes[i..i + 4]`.
pub fn read_u32_at(bytes: &[u8], i: usize) -> (v: u32)
    requires
        i + 4 <= bytes@.len(),
    ensures
        v == u32_at(bytes@, i as int),
{
    let len = bytes.len();
    assert(i + 4 <= len);
    u32_from_le_bytes(&bytes[i..i + 4])
}

/// Reads the `u64` at `bytes[i..i + 8]`.
pub fn read_u64_at(bytes: &[u8], i: usize) -> (v: u64)
    requires
        i + 8 <= bytes@.len(),
    ensures
        v == u64_at(bytes@, i as int),
{
    let len = bytes.len();
    assert(i + 8 <= len);
    u64_from_le_bytes(&bytes[i..i + 8])
}

/// Appends the little-endian bytes of `v`.
pub fn push_u16(out: &mut Vec<u8>, v: u16)
    ensures
        final(out)@ == old(out)@ + spec_u16_to_le_bytes(v),
{
    let bytes = u16_to_le_bytes(v);
    proof {
        lemma_auto_spec_u16_to_from_le_bytes();
    }
    out.push(bytes[0]);
    out.push(bytes[1]);
    proof {
        assert(final(out)@ =~= old(out)@ + spec_u16_to_le_bytes(v));
    }
}

/// Appends the little-endian bytes of `v`.
pub fn push_u32(out: &mut Vec<u8>, v: u32)
    ensures
        final(out)@ == old(out)@ + spec_u32_to_le_bytes(v),
{
    let bytes = u32_to_le_bytes(v);
    proof {
        lemma_auto_spec_u32_to_from_le_bytes();
    }
    out.push(bytes[0]);
    out.push(bytes[1]);
    out.push(bytes[2]);
    out.push(bytes[3]);
    proof {
        assert(final(out)@ =~= old(out)@ + spec_u32_to_le_bytes(v));
    }
}

/// Appends the little-endian bytes of `v`.
pub fn push_u64(out: &mut Vec<u8>, v: u64)
    ensures
        final(out)@ == old(out)@ + spec_u64_to_le_bytes(v),
{
    let bytes = u64_to_le_bytes(v);
    proof {
        lemma_auto_spec_u64_to_from_le_bytes();
    }
    let mut k: usize = 0;
    let ghost start = out@;
    while k < 8
        invariant
            k <= 8,
            bytes@ == spec_u64_to_le_bytes(v),
            bytes@.len() == 8,
            out@ == start + bytes@.subrange(0, k as int),
        decreases 8 - k,
    {
        out.push(bytes[k]);
        k = k + 1;
        proof {
            assert(out@ =~= start + bytes@.subrange(0, k as int));
        }
    }
    proof {
        assert(bytes@.subrange(0, 8) =~= bytes@);
    }
}

/// Appends the little-endian two's-complement bytes of `v`.
pub fn push_i32(out: &mut Vec<u8>, v: i32)
    ensures
        final(out)@ == old(out)@ + i32_le(v),
{
    push_u32(out, v as u32);
}

/// Reading back the bytes of a `u16` gives the `u16`.
pub proof fn lemma_u16_round_trip(v: u16, s: Seq<u8>, i: int)
    requires
        0 <= i,
        i + 2 <= s.len(),
        s.subrange(i, i + 2) == spec_u16_to_le_bytes(v),
    ensures
        u16_at(s, i) == v,
{
    lemma_auto_spec_u16_to_from_le_bytes();
    assert(spec_u16_to_le_bytes(v).len() == 2);
}

/// Reading back the bytes of a `u32` gives the `u32`.
pub proof fn lemma_u32_round_trip(v: u32, s: Seq<u8>, i: int)
    requires
        0 <= i,
        i + 4 <= s.len(),
        s.subrange(i, i + 4) == spec_u32_to_le_bytes(v),
    ensures
        u32_at(s, i) == v,
{
    lemma_auto_spec_u32_to_from_le_bytes();
    assert(spec_u32_to_le_bytes(v).len() == 4);
}

/// Reading back the bytes of a `u64` gives the `u64`.
pub proof fn lemma_u64_round_trip(v: u64, s: Seq<u8>, i: int)
    requires
        0 <= i,
        i + 8 <= s.len(),
        s.subrange(i, i + 8) == spec_u64_to_le_bytes(v),
    ensures
        u64_at(s, i) == v,
{
    lemma_auto_spec_u64_to_from_le_bytes();
    assert(spec_u64_to_le_bytes(v).len() == 8);
}

/// Reading back the bytes of an `i32` gives the `i32`.
pub proof fn lemma_i32_round_trip(v: i32, s: Seq<u8>, i: int)
    requires
        0 <= i,
        i + 4 <= s.len(),
        s.subrange(i, i + 4) == i32_le(v),
    ensures
        i32_at(s, i) == v,
{
    lemma_u32_round_trip(v as u32, s, i);
    assert(((v as u32) as i32) == v) by (bit_vector);
}

/// Each encoding has its fixed width.
pub proof fn lemma_le_lengths(a: u16, b: u32, c: u64, d: i32)
    ensures
        spec_u16_to_le_bytes(a).len() == 2,
        spec_u32_to_le_bytes(b).len() == 4,
        spec_u64_to_le_bytes(c).len() == 8,
        i32_le(d).len() == 4,
{
    lemma_auto_spec_u16_to_from_le_bytes();
    lemma_auto_spec_u32_to_from_le_bytes();
    lemma_auto_spec_u64_to_from_le_bytes();
}

/// The body that a table row locates inside a body chunk: `size` bytes at
/// `offset`, or `None` when they run past the end.
pub open spec fn spec_body_window(s: Seq<u8>, offset: u32, size: u32) -> Option<Seq<u8>> {
    if offset + size > s.len() {
        None
    } else {
        Some(s.subrange(offset as int, offset + size))
    }
}

/// The `size` bytes at `offset`, or `None` when they run past the end.
pub fn body_window(payload: &[u8], offset: u32, size: u32) -> (r: Option<&[u8]>)
    ensures
        match spec_body_window(payload@, offset, size) {
            Some(w) => r matches Some(b) && b@ == w,
            None => r is None,
        },
{
    let len = payload.len() as u64;
    let end = offset as u64 + size as u64;
    if end > len {
        return None;
    }
    Some(&payload[offset as usize..end as usize])
}

/// The four `u32` fields starting at `i`.
pub open spec fn u32x4_at(s: Seq<u8>, i: int) -> [u32; 4] {
    [u32_at(s, i), u32_at(s, i + 4), u32_at(s, i + 8), u32_at(s, i + 12)]
}

/// The little-endian bytes of four `u32` values.
pub open spec fn u32x4_le(v: [u32; 4]) -> Seq<u8> {
    spec_u32_to_le_bytes(v[0]) + spec_u32_to_le_bytes(v[1]) + spec_u32_to_le_bytes(v[2])
        + spec_u32_to_le_bytes(v[3])
}

/// Reads four `u32` values starting at `i`.
pub fn read_u32x4_at(bytes: &[u8], i: usize) -> (v: [u32; 4])
    requires
        i + 16 <= bytes@.len(),
    ensures
        v == u32x4_at(bytes@, i as int),
{
    let len = bytes.len();
    assert(i + 16 <= len);
    [read_u32_at(bytes, i), read_u32_at(bytes, i + 4), read_u32_at(bytes, i + 8), read_u32_at(bytes, i + 12)]
}

/// Appends the little-endian bytes of four `u32` values.
pub fn push_u32x4(out: &mut Vec<u8>, v: &[u32; 4])
    ensures
        final(out)@ == old(out)@ + u32x4_le(*v),
{
    push_u32(out, v[0]);
    push_u32(out, v[1]);
    push_u32(out, v[2]);
    push_u32(out, v[3]);
    proof {
        assert(final(out)@ =~= old(out)@ + u32x4_le(*v));
    }
}

/// A window of `s` that equals `r` shows `r`'s four `u32` values.
pub proof fn lemma_u32x4_round_trip(v: [u32; 4], s: Seq<u8>, i: int)
    requires
        0 <= i,
        i + 16 <= s.len(),
        s.subrange(i, i + 16) == u32x4_le(v),
    ensures
        u32x4_at(s, i) == v,
{
    lemma_auto_spec_u32_to_from_le_bytes();
    let w = u32x4_le(v);
    assert(spec_u32_to_le_bytes(v[0]).len() == 4);
    assert(spec_u32_to_le_bytes(v[1]).len() == 4);
    assert(spec_u32_to_le_bytes(v[2]).len() == 4);
    assert(spec_u32_to_le_bytes(v[3]).len() == 4);
    assert(s.subrange(i, i + 4) =~= w.subrange(0, 4));
    assert(s.subrange(i + 4, i + 8) =~= w.subrange(4, 8));
    assert(s.subrange(i + 8, i + 12) =~= w.subrange(8, 12));
    assert(s.subrange(i + 12, i + 16) =~= w.subrange(12, 16));
    assert(w.subrange(0, 4) =~= spec_u32_to_le_bytes(v[0]));
    assert(w.subrange(4, 8) =~= spec_u32_to_le_bytes(v[1]));
    assert(w.subrange(8, 12) =~= spec_u32_to_le_bytes(v[2]));
    assert(w.subrange(12, 16) =~= spec_u32_to_le_bytes(v[3]));
    lemma_u32_round_trip(v[0], s, i);
    lemma_u32_round_trip(v[1], s, i + 4);
    lemma_u32_round_trip(v[2], s, i + 8);
    lemma_u32_round_trip(v[3], s, i + 12);
    assert(u32x4_at(s, i) =~= v);
}

/// A window of `s` that equals `r`: every smaller window shows the
/// matching part of `r`.
pub proof fn lemma_window(s: Seq<u8>, c: int, r: Seq<u8>, a: int, b: int)
    requires
        0 <= c,
        c + r.len() <= s.len(),
        s.subrange(c, c + r.len()) == r,
        0 <= a <= b <= r.len(),
    ensures
        s.subrange(c + a, c + b) == r.subrange(a, b),
{
    assert forall|k: int| 0 <= k < b - a implies s.subrange(c + a, c + b)[k] == r.subrange(a, b)[k] by {
        assert(s.subrange(c, c + r.len())[a + k] == s[c + a + k]);
    }
    assert(s.subrange(c + a, c + b) =~= r.subrange(a, b));
}

/// The little-endian bytes of every value of `vs`, one after another.
pub open spec fn u32s_le(vs: Seq<u32>) -> Seq<u8>
    decreases vs.len(),
{
    if vs.len() == 0 {
        Seq::empty()
    } else {
        u32s_le(vs.drop_last()) + spec_u32_to_le_bytes(vs.last())
    }
}

/// `n` consecutive `u32` values starting at `i`.
pub open spec fn u32s_at(s: Seq<u8>, i: int, n: nat) -> Seq<u32> {
    Seq::new(n, |k: int| u32_at(s, i + 4 * k))
}

/// The little-endian bytes of every value of `vs`, one after another.
pub open spec fn i32s_le(vs: Seq<i32>) -> Seq<u8> {
    u32s_le(vs.map_values(|v: i32| v as u32))
}

/// `n` consecutive `i32` values starting at `i`.
pub open spec fn i32s_at(s: Seq<u8>, i: int, n: nat) -> Seq<i32> {
    Seq::new(n, |k: int| i32_at(s, i + 4 * k))
}

/// Appends the little-endian bytes of every value.
pub fn push_u32s(out: &mut Vec<u8>, vs: &[u32])
    ensures
        final(out)@ == old(out)@ + u32s_le(vs@),
{
    let ghost start = out@;
    let mut i: usize = 0;
    while i < vs.len()
        invariant
            i <= vs@.len(),
            out@ == start + u32s_le(vs@.subrange(0, i as int)),
        decreases vs@.len() - i,
    {
        push_u32(out, vs[i]);
        proof {
            let next = vs@.subrange(0, i + 1);
            assert(next.drop_last() =~= vs@.subrange(0, i as int));
            assert(out@ =~= start + u32s_le(next));
        }
        i = i + 1;
    }
    proof {
        assert(vs@.subrange(0, i as int) =~= vs@);
    }
}

/// Appends the little-endian bytes of every value.
pub fn push_i32s(out: &mut Vec<u8>, vs: &[i32])
    ensures
        final(out)@ == old(out)@ + i32s_le(vs@),
{
    let ghost start = out@;
    let mut i: usize = 0;
    while i < vs.len()
        invariant
            i <= vs@.len(),
            out@ == start + i32s_le(vs@.subrange(0, i as int)),
        decreases vs@.len() - i,
    {
        push_i32(out, vs[i]);
        proof {
            let next = vs@.subrange(0, i + 1);
            let mapped = next.map_values(|v: i32| v as u32);
            assert(mapped.drop_last() =~= vs@.subrange(0, i as int).map_values(|v: i32| v as u32));
            assert(out@ =~= start + i32s_le(next));
        }
        i = i + 1;
    }
    proof {
        assert(vs@.subrange(0, i as int) =~= vs@);
    }
}

/// Reads `n` consecutive `u32` values starting at `i`.
pub fn read_u32s_at(bytes: &[u8], i: usize, n: usize) -> (v: Vec<u32>)
    requires
        i + 4 * n <= bytes@.len(),
    ensures
        v@ == u32s_at(bytes@, i as int, n as nat),
{
    let len = bytes.len();
    let mut v: Vec<u32> = Vec::new();
    let mut k: usize = 0;
    while k < n
        invariant
            k <= n,
            len == bytes@.len(),
            i + 4 * n <= len,
            v@ == u32s_at(bytes@, i as int, k as nat),
        decreases n - k,
    {
        v.push(read_u32_at(bytes, i + 4 * k));
        k = k + 1;
        proof {
            assert(v@ =~= u32s_at(bytes@, i as int, k as nat));
        }
    }
    v
}

/// Reads `n` consecutive `i32` values starting at `i`.
pub fn read_i32s_at(bytes: &[u8], i: usize, n: usize) -> (v: Vec<i32>)
    requires
        i + 4 * n <= bytes@.len(),
    ensures
        v@ == i32s_at(bytes@, i as int, n as nat),
{
    let len = bytes.len();
    let mut v: Vec<i32> = Vec::new();
    let mut k: usize = 0;
    while k < n
        invariant
            k <= n,
            len == bytes@.len(),
            i + 4 * n <= len,
            v@ == i32s_at(bytes@, i as int, k as nat),
        decreases n - k,
    {
        let raw = read_u32_at(bytes, i + 4 * k);
        v.push(#[verifier::truncate] (raw as i32));
        k = k + 1;
        proof {
            assert(v@ =~= i32s_at(bytes@, i as int, k as nat));
        }
    }
    v
}

/// The encoding of `vs` has four bytes per value, and reading it back
/// value by value gives `vs`.
pub proof fn lemma_u32s_round_trip(vs: Seq<u32>, s: Seq<u8>, i: int)
    requires
        0 <= i,
        i + 4 * vs.len() <= s.len(),
        s.subrange(i, i + 4 * vs.len()) == u32s_le(vs),
    ensures
        u32s_at(s, i, vs.len()) == vs,
        u32s_le(vs).len() == 4 * vs.len(),
    decreases vs.len(),
{
    lemma_auto_spec_u32_to_from_le_bytes();
    if vs.len() > 0 {
        let init = vs.drop_last();
        let n = vs.len() as int;
        assert(spec_u32_to_le_bytes(vs.last()).len() == 4);
        lemma_u32s_len(init);
        lemma_window(s, i, u32s_le(vs), 0, 4 * (n - 1));
        assert(u32s_le(vs).subrange(0, 4 * (n - 1)) =~= u32s_le(init));
        lemma_u32s_round_trip(init, s, i);
        lemma_window(s, i, u32s_le(vs), 4 * (n - 1), 4 * n);
        assert(u32s_le(vs).subrange(4 * (n - 1), 4 * n) =~= spec_u32_to_le_bytes(vs.last()));
        lemma_u32_round_trip(vs.last(), s, i + 4 * (n - 1));
        assert forall|k: int| 0 <= k < n implies u32s_at(s, i, vs.len())[k] == vs[k] by {
            if k < n - 1 {
                assert(u32s_at(s, i, init.len())[k] == init[k]);
            }
        }
        assert(u32s_at(s, i, vs.len()) =~= vs);
    }
}

/// The encoding of `vs` has four bytes per value.
pub proof fn lemma_u32s_len(vs: Seq<u32>)
    ensures
        u32s_le(vs).len() == 4 * vs.len(),
    decreases vs.len(),
{
    lemma_auto_spec_u32_to_from_le_bytes();
    if vs.len() > 0 {
        assert(spec_u32_to_le_bytes(vs.last()).len() == 4);
        lemma_u32s_len(vs.drop_last());
    }
}

/// Reading back encoded `i32` values gives them back.
pub proof fn lemma_i32s_round_trip(vs: Seq<i32>, s: Seq<u8>, i: int)
    requires
        0 <= i,
        i + 4 * vs.len() <= s.len(),
        s.subrange(i, i + 4 * vs.len()) == i32s_le(vs),
    ensures
        i32s_at(s, i, vs.len()) == vs,
        i32s_le(vs).len() == 4 * vs.len(),
{
    let us = vs.map_values(|v: i32| v as u32);
    lemma_u32s_round_trip(us, s, i);
    assert forall|k: int| 0 <= k < vs.len() implies i32s_at(s, i, vs.len())[k] == vs[k] by {
        assert(u32s_at(s, i, us.len())[k] == us[k]);
        let v = vs[k];
        assert(((v as u32) as i32) == v) by (bit_vector);
    }
    assert(i32s_at(s, i, vs.len()) =~= vs);
}

/// The six `u32` fields starting at `i`.
pub open spec fn u32x6_at(s: Seq<u8>, i: int) -> [u32; 6] {
    [u32_at(s, i), u32_at(s, i + 4), u32_at(s, i + 8), u32_at(s, i + 12), u32_at(s, i + 16), u32_at(s, i + 20)]
}

/// The eight `u32` fields starting at `i`.
pub open spec fn u32x8_at(s: Seq<u8>, i: int) -> [u32; 8] {
    [
        u32_at(s, i),
        u32_at(s, i + 4),
        u32_at(s, i + 8),
        u32_at(s, i + 12),
        u32_at(s, i + 16),
        u32_at(s, i + 20),
        u32_at(s, i + 24),
        u32_at(s, i + 28),
    ]
}

/// Reads six `u32` values starting at `i`.
pub fn read_u32x6_at(bytes: &[u8], i: usize) -> (v: [u32; 6])
    requires
        i + 24 <= bytes@.len(),
    ensures
        v == u32x6_at(bytes@, i as int),
{
    let len = bytes.len();
    assert(i + 24 <= len);
    [
        read_u32_at(bytes, i),
        read_u32_at(bytes, i + 4),
        read_u32_at(bytes, i + 8),
        read_u32_at(bytes, i + 12),
        read_u32_at(bytes, i + 16),
        read_u32_at(bytes, i + 20),
    ]
}

/// Reads eight `u32` values starting at `i`.
pub fn read_u32x8_at(bytes: &[u8], i: usize) -> (v: [u32; 8])
    requires
        i + 32 <= bytes@.len(),
    ensures
        v == u32x8_at(bytes@, i as int),
{
    let len = bytes.len();
    assert(i + 32 <= len);
    [
        read_u32_at(bytes, i),
        read_u32_at(bytes, i + 4),
        read_u32_at(bytes, i + 8),
        read_u32_at(bytes, i + 12),
        read_u32_at(bytes, i + 16),
        read_u32_at(bytes, i + 20),
        read_u32_at(bytes, i + 24),
        read_u32_at(bytes, i + 28),
    ]
}

/// Reading back six encoded `u32` values gives them back.
pub proof fn lemma_u32x6_round_trip(v: [u32; 6], s: Seq<u8>, i: int)
    requires
        0 <= i,
        i + 24 <= s.len(),
        s.subrange(i, i + 24) == u32s_le(v@),
    ensures
        u32x6_at(s, i) == v,
{
    assert(v@.len() == 6);
    lemma_u32s_round_trip(v@, s, i);
    assert(u32s_at(s, i, 6)[0] == v@[0]);
    assert(u32s_at(s, i, 6)[1] == v@[1]);
    assert(u32s_at(s, i, 6)[2] == v@[2]);
    assert(u32s_at(s, i, 6)[3] == v@[3]);
    assert(u32s_at(s, i, 6)[4] == v@[4]);
    assert(u32s_at(s, i, 6)[5] == v@[5]);
    assert(u32x6_at(s, i) =~= v);
}

/// Reading back eight encoded `u32` values gives them back.
pub proof fn lemma_u32x8_round_trip(v: [u32; 8], s: Seq<u8>, i: int)
    requires
        0 <= i,
        i + 32 <= s.len(),
        s.subrange(i, i + 32) == u32s_le(v@),
    ensures
        u32x8_at(s, i) == v,
{
    assert(v@.len() == 8);
    lemma_u32s_round_trip(v@, s, i);
    assert(u32s_at(s, i, 8)[0] == v@[0]);
    assert(u32s_at(s, i, 8)[1] == v@[1]);
    assert(u32s_at(s, i, 8)[2] == v@[2]);
    assert(u32s_at(s, i, 8)[3] == v@[3]);
    assert(u32s_at(s, i, 8)[4] == v@[4]);
    assert(u32s_at(s, i, 8)[5] == v@[5]);
    assert(u32s_at(s, i, 8)[6] == v@[6]);
    assert(u32s_at(s, i, 8)[7] == v@[7]);
    assert(u32x8_at(s, i) =~= v);
}

} // verus!
