//! Bloom filter over segment keys.
//!
//! A classical k-hash bit array: `add` sets `hash_count` bit positions
//! derived from seeded hashes of the key, and `might_contain` answers
//! false only when at least one of those bits is clear. The only promise
//! is the absence of false negatives: a key that was added is always
//! reported as possibly present.

use vstd::prelude::*;

verus! {

/// One multiply-rotate round of the seeded hash.
pub open spec fn hash_step(h: u64, val: u64) -> u64 {
    let m = h.wrapping_mul(0x9e3779b97f4a7c15u64).wrapping_add(val);
    (m << 31) | (m >> 33)
}

/// A block of up to eight bytes packed little-endian into one word.
pub open spec fn chunk_word(s: Seq<u8>) -> u64
    recommends
        s.len() <= 8,
    decreases s.len(),
{
    if s.len() == 0 {
        0u64
    } else {
        chunk_word(s.drop_last()) | ((s.last() as u64) << (8 * (s.len() - 1)))
    }
}

/// The hash of the remaining input folded into accumulator `h`.
pub open spec fn hash_fold(data: Seq<u8>, h: u64) -> u64
    decreases data.len(),
{
    if data.len() == 0 {
        h
    } else {
        let n = if data.len() >= 8 {
            8int
        } else {
            data.len() as int
        };
        hash_fold(data.skip(n), hash_step(h, chunk_word(data.take(n))))
    }
}

/// Seeded hash of a byte string: the seed plus the length, folded over
/// eight-byte chunks.
pub open spec fn spec_xxhash(data: Seq<u8>, seed: u64) -> u64 {
    hash_fold(data, seed.wrapping_add(data.len() as u64))
}

/// Seeded multiply-rotate hash used to pick bloom-filter bits.
pub fn xxhash(data: &[u8], seed: u64) -> (r: u64)
    ensures
        r == spec_xxhash(data@, seed),
{
    let mut h: u64 = seed.wrapping_add(data.len() as u64);
    let mut i: usize = 0;
    proof {
        assert(data@.skip(0) =~= data@);
    }
    while i < data.len()
        invariant
            i <= data.len(),
            hash_fold(data@, seed.wrapping_add(data@.len() as u64)) == hash_fold(
                data@.skip(i as int),
                h,
            ),
        decreases data.len() - i,
    {
        let end = if data.len() - i >= 8 {
            i + 8
        } else {
            data.len()
        };
        let ghost rest = data@.skip(i as int);
        let ghost n = end - i;
        let mut val: u64 = 0;
        let mut j: usize = i;
        proof {
            assert(rest.take(n as int).take(0) =~= Seq::<u8>::empty());
        }
        while j < end
            invariant
                i <= j <= end <= data.len(),
                n == end - i,
                rest == data@.skip(i as int),
                n <= 8,
                val == chunk_word(rest.take(n as int).take(j - i)),
            decreases end - j,
        {
            let b = data[j];
            proof {
                let c = rest.take(n as int);
                assert(c.take(j - i + 1).drop_last() =~= c.take(j - i));
                assert(c.take(j - i + 1).last() == data@[j as int]);
            }
            val = val | ((b as u64) << ((8 * (j - i)) as u64));
            j = j + 1;
        }
        proof {
            let c = rest.take(n as int);
            assert(c.take(n as int) =~= c);
            assert(rest.skip(n as int) =~= data@.skip(end as int));
        }
        h = h.wrapping_mul(0x9e3779b97f4a7c15u64).wrapping_add(val);
        h = (h << 31) | (h >> 33);
        i = end;
    }
    proof {
        assert(data@.skip(i as int).len() == 0);
    }
    h
}

/// Bit `i` of the packed bit array is set.
pub open spec fn spec_bit(bits: Seq<u8>, i: nat) -> bool {
    i / 8 < bits.len() && ((bits[(i / 8) as int] >> (i % 8) as u8) & 1u8) == 1u8
}

/// The bit position the `round`-th hash of `key` selects.
pub open spec fn spec_hash_pos(key: Seq<u8>, round: nat, bit_count: nat) -> nat
    recommends
        bit_count > 0,
{
    (spec_xxhash(key, round as u64) as nat) % bit_count
}

/// Every hash round of `key` hits a set bit.
pub open spec fn spec_might_contain(bits: Seq<u8>, key: Seq<u8>, hash_count: nat, bit_count: nat) -> bool {
    forall|r: nat| r < hash_count ==> spec_bit(bits, #[trigger] spec_hash_pos(key, r, bit_count))
}

/// Probabilistic membership filter over the keys of one segment.
pub struct BloomFilter {
    pub bits: Vec<u8>,
    pub bit_count: usize,
    pub hash_count: usize,
}

impl BloomFilter {
    /// The bit array covers `bit_count` usable bits.
    pub open spec fn wf(&self) -> bool {
        &&& self.bit_count > 0
        &&& self.bit_count <= 8 * self.bits@.len()
        &&& self.bits@.len() <= u32::MAX
    }

    pub open spec fn contains_key(&self, key: Seq<u8>) -> bool {
        spec_might_contain(self.bits@, key, self.hash_count as nat, self.bit_count as nat)
    }

    /// A filter of `bit_count` clear bits checked by `hash_count` hashes.
    pub fn new(bit_count: usize, hash_count: usize) -> (r: BloomFilter)
        requires
            0 < bit_count,
            bit_count <= 0xFFFF_FFF0,
        ensures
            r.wf(),
            r.bit_count == bit_count,
            r.hash_count == hash_count,
            r.bits@.len() == (bit_count + 7) / 8,
    {
        let nbytes = (bit_count + 7) / 8;
        let mut bits: Vec<u8> = Vec::new();
        let mut i: usize = 0;
        while i < nbytes
            invariant
                bits@.len() == i,
                i <= nbytes,
            decreases nbytes - i,
        {
            bits.push(0u8);
            i = i + 1;
        }
        BloomFilter { bits, bit_count, hash_count }
    }

    /// Mark every hash position of `key` as present. Bits are only ever
    /// set, so previously added keys stay present.
    pub fn add(&mut self, key: &[u8])
        requires
            old(self).wf(),
        ensures
            final(self).wf(),
            final(self).bit_count == old(self).bit_count,
            final(self).hash_count == old(self).hash_count,
            final(self).bits@.len() == old(self).bits@.len(),
            final(self).contains_key(key@),
            forall|k2: Seq<u8>|
                old(self).contains_key(k2) ==> final(self).contains_key(k2),
            forall|i: nat| spec_bit(old(self).bits@, i) ==> spec_bit(final(self).bits@, i),
    {
        let mut r: usize = 0;
        while r < self.hash_count
            invariant
                self.wf(),
                self.bit_count == old(self).bit_count,
                self.hash_count == old(self).hash_count,
                self.bits@.len() == old(self).bits@.len(),
                forall|i: nat| spec_bit(old(self).bits@, i) ==> spec_bit(self.bits@, i),
                forall|r2: nat|
                    r2 < r ==> spec_bit(
                        self.bits@,
                        #[trigger] spec_hash_pos(key@, r2, self.bit_count as nat),
                    ),
            decreases self.hash_count - r,
        {
            let h = xxhash(key, r as u64);
            let pos = h % (self.bit_count as u64);
            let idx = (pos / 8) as usize;
            let shift = (pos % 8) as u8;
            proof {
                assert(pos < self.bit_count as u64);
                assert(pos as nat / 8 < self.bits@.len()) by (nonlinear_arith)
                    requires
                        (pos as nat) < self.bit_count as nat,
                        self.bit_count as nat <= 8 * self.bits@.len(),
                ;
                assert(idx < self.bits.len());
            }
            let b = self.bits[idx];
            let nb = b | (1u8 << shift);
            proof {
                lemma_u8_set_bit(b, nb, shift);
            }
            let ghost prev = self.bits@;
            self.bits[idx] = nb;
            proof {
                let bitsv = self.bits@;
                assert forall|i: nat| spec_bit(prev, i) implies spec_bit(bitsv, i) by {
                    lemma_bit_preserved(prev, bitsv, i, idx as nat, shift);
                }
                assert(spec_bit(self.bits@, pos as nat)) by {
                    assert(pos as nat / 8 == idx as nat);
                    assert((pos as nat % 8) as u8 == shift);
                }
                assert(pos as nat == spec_hash_pos(key@, r as nat, self.bit_count as nat));
            }
            r = r + 1;
        }
    }

    /// False only when some hash position of `key` is clear, so a key that
    /// was added is never reported absent.
    pub fn might_contain(&self, key: &[u8]) -> (r: bool)
        requires
            self.wf(),
        ensures
            r == self.contains_key(key@),
    {
        let mut r: usize = 0;
        while r < self.hash_count
            invariant
                self.wf(),
                r <= self.hash_count,
                forall|r2: nat|
                    r2 < r ==> spec_bit(
                        self.bits@,
                        #[trigger] spec_hash_pos(key@, r2, self.bit_count as nat),
                    ),
            decreases self.hash_count - r,
        {
            let h = xxhash(key, r as u64);
            let pos = h % (self.bit_count as u64);
            let idx = (pos / 8) as usize;
            let shift = (pos % 8) as u8;
            proof {
                assert(pos as nat / 8 < self.bits@.len()) by (nonlinear_arith)
                    requires
                        (pos as nat) < self.bit_count as nat,
                        self.bit_count as nat <= 8 * self.bits@.len(),
                ;
            }
            let b = self.bits[idx];
            if (b >> shift) & 1u8 == 0u8 {
                proof {
                    assert(pos as nat / 8 == idx as nat);
                    assert((pos as nat % 8) as u8 == shift);
                    assert(!spec_bit(self.bits@, pos as nat));
                    assert(pos as nat == spec_hash_pos(key@, r as nat, self.bit_count as nat));
                }
                return false;
            }
            proof {
                assert(pos as nat / 8 == idx as nat);
                assert((pos as nat % 8) as u8 == shift);
                assert((self.bits@[(pos as nat / 8) as int] >> (pos as nat % 8) as u8) & 1u8
                    == 1u8) by {
                    lemma_u8_bit_read(b, shift);
                }
                assert(spec_bit(self.bits@, pos as nat));
            }
            r = r + 1;
        }
        true
    }
}

/// Setting one bit in a byte makes that bit read back as one.
proof fn lemma_u8_set_bit(b: u8, nb: u8, shift: u8)
    requires
        shift < 8,
        nb == b | (1u8 << shift),
    ensures
        ((nb >> shift) & 1u8) == 1u8,
        forall|s2: u8| s2 < 8 && s2 != shift ==> ((nb >> s2) & 1u8) == ((b >> s2) & 1u8),
{
    assert(((b | (1u8 << shift)) >> shift) & 1u8 == 1u8) by (bit_vector)
        requires
            shift < 8,
    ;
    assert(forall|s2: u8|
        s2 < 8 && s2 != shift ==> (((b | (1u8 << shift)) >> s2) & 1u8) == ((b >> s2)
            & 1u8)) by (bit_vector)
        requires
            shift < 8,
    ;
}

/// A bit read is either zero or one.
proof fn lemma_u8_bit_read(b: u8, shift: u8)
    requires
        shift < 8,
        ((b >> shift) & 1u8) != 0u8,
    ensures
        ((b >> shift) & 1u8) == 1u8,
{
    assert(((b >> shift) & 1u8) == 0u8 || ((b >> shift) & 1u8) == 1u8) by (bit_vector);
}

/// After setting one bit in one byte, every bit that was set stays set.
proof fn lemma_bit_preserved(oldv: Seq<u8>, newv: Seq<u8>, i: nat, idx: nat, shift: u8)
    requires
        oldv.len() == newv.len(),
        idx < newv.len(),
        shift < 8,
        newv[idx as int] == oldv[idx as int] | (1u8 << shift),
        forall|j: int| 0 <= j < oldv.len() && j != idx ==> oldv[j] == newv[j],
        spec_bit(oldv, i),
    ensures
        spec_bit(newv, i),
{
    if i / 8 == idx {
        let s2 = (i % 8) as u8;
        if s2 == shift {
            lemma_u8_set_bit(oldv[idx as int], newv[idx as int], shift);
        } else {
            lemma_u8_set_bit(oldv[idx as int], newv[idx as int], shift);
        }
    }
}

} // verus!
