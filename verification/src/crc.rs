//! The cyclic redundancy check that guards write-ahead-log records.
//!
//! Reflected 32-bit CRC with polynomial `0xEDB88320`, computed bit by bit
//! over each byte, seeded and finalized with all-ones.

use vstd::prelude::*;

verus! {

/// One shift-and-conditionally-xor round.
pub open spec fn crc_bit(c: u32) -> u32 {
    if c & 1u32 == 1u32 {
        (c >> 1u32) ^ 0xEDB88320u32
    } else {
        c >> 1u32
    }
}

/// Eight bit rounds.
pub open spec fn crc_bits(c: u32, rounds: nat) -> u32
    decreases rounds,
{
    if rounds == 0 {
        c
    } else {
        crc_bits(crc_bit(c), (rounds - 1) as nat)
    }
}

/// Fold one byte into the running value.
pub open spec fn crc_byte(c: u32, b: u8) -> u32 {
    crc_bits(c ^ (b as u32), 8)
}

/// Fold the remaining input into the running value.
pub open spec fn crc_fold(data: Seq<u8>, c: u32) -> u32
    decreases data.len(),
{
    if data.len() == 0 {
        c
    } else {
        crc_fold(data.skip(1), crc_byte(c, data[0]))
    }
}

/// The checksum of a byte string.
pub open spec fn spec_crc32(data: Seq<u8>) -> u32 {
    crc_fold(data, 0xFFFFFFFFu32) ^ 0xFFFFFFFFu32
}

/// Compute the checksum of a byte string.
pub fn crc32(data: &[u8]) -> (r: u32)
    ensures
        r == spec_crc32(data@),
{
    let mut c: u32 = 0xFFFFFFFF;
    let mut i: usize = 0;
    proof {
        assert(data@.skip(0) =~= data@);
    }
    while i < data.len()
        invariant
            i <= data.len(),
            crc_fold(data@, 0xFFFFFFFFu32) == crc_fold(data@.skip(i as int), c),
        decreases data.len() - i,
    {
        proof {
            assert(data@.skip(i as int)[0] == data@[i as int]);
            assert(data@.skip(i as int).skip(1) =~= data@.skip(i + 1));
        }
        c = c ^ (data[i] as u32);
        let mut round: usize = 0;
        let ghost c0 = c;
        while round < 8
            invariant
                round <= 8,
                crc_bits(c0, 8) == crc_bits(c, (8 - round) as nat),
            decreases 8 - round,
        {
            if c & 1 != 0 {
                proof {
                    assert(c & 1u32 == 1u32) by (bit_vector)
                        requires
                            c & 1u32 != 0u32,
                    ;
                }
                c = (c >> 1) ^ 0xEDB88320;
            } else {
                c = c >> 1;
            }
            round = round + 1;
        }
        i = i + 1;
    }
    proof {
        assert(data@.skip(i as int).len() == 0);
    }
    c ^ 0xFFFFFFFF
}

} // verus!
