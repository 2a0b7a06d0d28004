//! The CRC-32 that guards GUID partition tables.

use vstd::prelude::*;

verus! {

/// One bit of the reflected CRC-32.
pub open spec fn crc_bit(state: u32) -> u32 {
    if state & 1 != 0 {
        (state >> 1) ^ 0xedb8_8320
    } else {
        state >> 1
    }
}

/// `n` bits of the reflected CRC-32.
pub open spec fn crc_bits(state: u32, n: nat) -> u32
    decreases n,
{
    if n == 0 {
        state
    } else {
        crc_bit(crc_bits(state, (n - 1) as nat))
    }
}

/// The CRC register `state` extended by every byte of `bytes`.
pub open spec fn crc_register(state: u32, bytes: Seq<u8>) -> u32
    decreases bytes.len(),
{
    if bytes.len() == 0 {
        state
    } else {
        crc_bits(crc_register(state, bytes.drop_last()) ^ (bytes.last() as u32), 8)
    }
}

/// The CRC-32 of `bytes`.
pub open spec fn crc_of(bytes: Seq<u8>) -> u32 {
    crc_register(0xffff_ffff, bytes) ^ 0xffff_ffff
}

/// Extend a CRC register by the first `count` bytes.
pub fn crc32_step(state: u32, bytes: &[u8], count: usize) -> (next: u32)
    requires
        count <= bytes.len(),
    ensures
        next == crc_register(state, bytes@.take(count as int)),
{
    let mut register: u32 = state;
    let mut i: usize = 0;
    assert(bytes@.take(0) =~= Seq::<u8>::empty());
    while i < count
        invariant
            i <= count <= bytes.len(),
            register == crc_register(state, bytes@.take(i as int)),
        decreases count - i,
    {
        let ghost start = register ^ (bytes[i as int] as u32);
        register = register ^ (bytes[i] as u32);
        let mut bit: u32 = 0;
        while bit < 8
            invariant
                bit <= 8,
                register == crc_bits(start, bit as nat),
            decreases 8 - bit,
        {
            register = if register & 1 != 0 {
                (register >> 1) ^ 0xedb8_8320
            } else {
                register >> 1
            };
            bit = bit + 1;
        }
        assert(bytes@.take(i + 1).drop_last() =~= bytes@.take(i as int));
        i = i + 1;
    }
    register
}

/// The CRC-32 of the first `count` bytes.
pub fn crc32(bytes: &[u8], count: usize) -> (crc: u32)
    requires
        count <= bytes.len(),
    ensures
        crc == crc_of(bytes@.take(count as int)),
{
    crc32_step(0xffff_ffff, bytes, count) ^ 0xffff_ffff
}

} // verus!
