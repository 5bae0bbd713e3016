//! CRC-32 (IEEE 802.3, reflected, polynomial `0xEDB88320`).
//!
//! Guards the file header and the chunks flagged `HAS_CRC`.

use vstd::prelude::*;

verus! {

/// The reflected IEEE 802.3 polynomial.
pub const POLYNOMIAL: u32 = 0xEDB8_8320;

/// One bit step of the reflected shift register.
pub open spec fn crc_bit_step(crc: u32) -> u32 {
    if crc & 1 != 0 {
        (crc >> 1) ^ POLYNOMIAL
    } else {
        crc >> 1
    }
}

/// `n` bit steps.
pub open spec fn crc_bit_steps(crc: u32, n: nat) -> u32
    decreases n,
{
    if n == 0 {
        crc
    } else {
        crc_bit_steps(crc_bit_step(crc), (n - 1) as nat)
    }
}

/// Feeds one byte into the running register.
pub open spec fn crc_update(crc: u32, byte: u8) -> u32 {
    crc_bit_steps(crc ^ (byte as u32), 8)
}

/// The register after feeding all of `bytes`, starting from `crc`.
pub open spec fn crc_fold(crc: u32, bytes: Seq<u8>) -> u32
    decreases bytes.len(),
{
    if bytes.len() == 0 {
        crc
    } else {
        crc_update(crc_fold(crc, bytes.drop_last()), bytes.last())
    }
}

/// The CRC-32 of `bytes`: the register starts all ones and is inverted at the end.
pub open spec fn spec_checksum(bytes: Seq<u8>) -> u32 {
    crc_fold(0xFFFF_FFFF, bytes) ^ 0xFFFF_FFFF
}

fn update_byte(crc: u32, byte: u8) -> (out: u32)
    ensures
        out == crc_update(crc, byte),
{
    let mut c: u32 = crc ^ (byte as u32);
    let mut bit: u32 = 0;
    while bit < 8
        invariant
            bit <= 8,
            crc_bit_steps(c, (8 - bit) as nat) == crc_update(crc, byte),
        decreases 8 - bit,
    {
        c = if c & 1 != 0 {
            (c >> 1) ^ POLYNOMIAL
        } else {
            c >> 1
        };
        bit = bit + 1;
    }
    c
}

/// Computes the CRC-32 of `bytes`.
pub fn checksum(bytes: &[u8]) -> (c: u32)
    ensures
        c == spec_checksum(bytes@),
{
    let mut crc: u32 = 0xFFFF_FFFF;
    let mut i: usize = 0;
    while i < bytes.len()
        invariant
            i <= bytes@.len(),
            crc == crc_fold(0xFFFF_FFFF, bytes@.subrange(0, i as int)),
        decreases bytes@.len() - i,
    {
        proof {
            let next = bytes@.subrange(0, i + 1);
            assert(next.drop_last() =~= bytes@.subrange(0, i as int));
        }
        crc = update_byte(crc, bytes[i]);
        i = i + 1;
    }
    proof {
        assert(bytes@.subrange(0, i as int) =~= bytes@);
    }
    crc ^ 0xFFFF_FFFF
}

} // verus!
