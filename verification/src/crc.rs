//! CRC32C (Castagnoli), used by the ext4 metadata checksums and the journal.
//!
//! Reflected bitwise implementation of the polynomial 0x1EDC6F41 (reflected
//! 0x82F63B78). There is no final xor, and the caller picks the initial value
//! (usually 0xFFFF_FFFF).

use vstd::prelude::*;

verus! {

pub const POLY: u32 = 0x82F6_3B78;

/// The checksum register after one bit: a division step by the polynomial.
pub open spec fn crc_bit(c: u32) -> u32 {
    if c & 1 != 0 {
        (c >> 1) ^ POLY
    } else {
        c >> 1
    }
}

/// The checksum register after `n` bits.
pub open spec fn crc_bits(c: u32, n: nat) -> u32
    decreases n,
{
    if n == 0 {
        c
    } else {
        crc_bit(crc_bits(c, (n - 1) as nat))
    }
}

/// The checksum of `data` started from `init`: each byte is added to the low
/// end of the register and then shifted out of it, one bit at a time.
pub open spec fn crc_of(init: u32, data: Seq<u8>) -> u32
    decreases data.len(),
{
    if data.len() == 0 {
        init
    } else {
        crc_bits(crc_of(init, data.drop_last()) ^ (data.last() as u32), 8)
    }
}

/// The checksum of a concatenation is the checksum of the second part started
/// from the checksum of the first.
pub proof fn crc_of_concatenation(init: u32, a: Seq<u8>, b: Seq<u8>)
    ensures
        crc_of(init, a + b) == crc_of(crc_of(init, a), b),
    decreases b.len(),
{
    if b.len() == 0 {
        assert(a + b =~= a);
    } else {
        assert((a + b).drop_last() =~= a + b.drop_last());
        crc_of_concatenation(init, a, b.drop_last());
    }
}

pub fn crc32c(init: u32, data: &[u8]) -> (c: u32)
    ensures
        c == crc_of(init, data@),
{
    let mut c: u32 = init;
    let mut k: usize = 0;
    assert(data@.take(0) =~= Seq::<u8>::empty());
    while k < data.len()
        invariant
            k <= data@.len(),
            c == crc_of(init, data@.take(k as int)),
        decreases data@.len() - k,
    {
        let ghost before = c;
        c = c ^ (data[k] as u32);
        let mut n: u32 = 0;
        while n < 8
            invariant
                n <= 8,
                k < data@.len(),
                c == crc_bits(before ^ (data@[k as int] as u32), n as nat),
            decreases 8 - n,
        {
            c = if c & 1 != 0 {
                (c >> 1) ^ POLY
            } else {
                c >> 1
            };
            n += 1;
        }
        k += 1;
        assert(data@.take(k as int).drop_last() =~= data@.take(k - 1));
    }
    assert(data@.take(data@.len() as int) =~= data@);
    c
}

} // verus!
