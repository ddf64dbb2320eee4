//! Immutable sorted runs of records.
//!
//! A segment is produced by a memtable flush or by a level merge and never
//! changes afterwards. It carries its records, the span of sequence
//! numbers inside, and a bloom filter over its keys so point reads can
//! skip segments that cannot contain the key. The on-disk image of a
//! segment is built and reopened in [`crate::segcodec`].

use vstd::prelude::*;

use crate::bloom::BloomFilter;
use crate::order::{bytes_eq, lex_lt};
use crate::rec::{Rec, RecV, RT_DEL_POINT, RT_SET};

verus! {

/// Record keys strictly ascending, hence one record per key — the order
/// every segment is written in.
pub open spec fn sorted_keys(rs: Seq<RecV>) -> bool {
    forall|i: int, j: int|
        0 <= i < j < rs.len() ==> lex_lt((#[trigger] rs[i]).key, (#[trigger] rs[j]).key)
}

/// Ascending neighbors make the whole list ascending.
pub proof fn lemma_adjacent_sorted(rs: Seq<RecV>)
    requires
        forall|i: int| 0 <= i < rs.len() - 1 ==> lex_lt((#[trigger] rs[i]).key, rs[i + 1].key),
    ensures
        sorted_keys(rs),
{
    assert forall|i: int, j: int|
        0 <= i < j < rs.len() implies lex_lt((#[trigger] rs[i]).key, (#[trigger] rs[j]).key) by {
        lemma_key_chain(rs, i, j);
    }
}

proof fn lemma_key_chain(rs: Seq<RecV>, i: int, j: int)
    requires
        forall|m: int| 0 <= m < rs.len() - 1 ==> lex_lt((#[trigger] rs[m]).key, rs[m + 1].key),
        0 <= i < j < rs.len(),
    ensures
        lex_lt(rs[i].key, rs[j].key),
    decreases j - i,
{
    if j > i + 1 {
        lemma_key_chain(rs, i, j - 1);
        crate::order::lemma_lex_lt_trans(rs[i].key, rs[j - 1].key, rs[j].key);
    }
}

/// First record for key `k`, if any.
pub open spec fn seg_find(rs: Seq<RecV>, k: Seq<u8>) -> Option<RecV>
    decreases rs.len(),
{
    if rs.len() == 0 {
        None
    } else if rs[0].key == k {
        Some(rs[0])
    } else {
        seg_find(rs.skip(1), k)
    }
}

/// Some record carries key `k`.
pub open spec fn seg_has_key(rs: Seq<RecV>, k: Seq<u8>) -> bool {
    exists|i: int| 0 <= i < rs.len() && rs[i].key == k
}

/// A key is found exactly when a record carries it.
pub proof fn lemma_seg_find_has_key(rs: Seq<RecV>, k: Seq<u8>)
    ensures
        seg_find(rs, k) is Some <==> seg_has_key(rs, k),
        seg_find(rs, k) matches Some(r) ==> r.key == k && exists|i: int|
            0 <= i < rs.len() && rs[i] == r,
    decreases rs.len(),
{
    if rs.len() > 0 {
        lemma_seg_find_has_key(rs.skip(1), k);
        if rs[0].key == k {
            assert(rs[0] == rs[0]);
        } else {
            if seg_has_key(rs, k) {
                let i = choose|i: int| 0 <= i < rs.len() && rs[i].key == k;
                assert(rs.skip(1)[i - 1].key == k);
            }
            if seg_find(rs.skip(1), k) is Some {
                let r = seg_find(rs.skip(1), k).unwrap();
                let i = choose|i: int| 0 <= i < rs.skip(1).len() && rs.skip(1)[i] == r;
                assert(rs[i + 1] == r);
            }
            if seg_has_key(rs.skip(1), k) {
                let i = choose|i: int| 0 <= i < rs.skip(1).len() && rs.skip(1)[i].key == k;
                assert(rs[i + 1].key == k);
            }
        }
    }
}

/// The largest sequence number among records, zero when there are none.
pub open spec fn recs_max_seq(rs: Seq<RecV>) -> u64
    decreases rs.len(),
{
    if rs.len() == 0 {
        0u64
    } else {
        let rest = recs_max_seq(rs.skip(1));
        if rs[0].seq >= rest {
            rs[0].seq
        } else {
            rest
        }
    }
}

pub proof fn lemma_recs_max_seq_bound(rs: Seq<RecV>)
    ensures
        forall|i: int| 0 <= i < rs.len() ==> (#[trigger] rs[i]).seq <= recs_max_seq(rs),
    decreases rs.len(),
{
    if rs.len() > 0 {
        lemma_recs_max_seq_bound(rs.skip(1));
        assert forall|i: int| 0 <= i < rs.len() implies (#[trigger] rs[i]).seq <= recs_max_seq(
            rs,
        ) by {
            if i > 0 {
                assert(rs[i] == rs.skip(1)[i - 1]);
            }
        }
    }
}

/// Every record's fields fit the on-disk framing and its key is in the
/// bloom filter.
pub open spec fn seg_rec_ok(r: RecV) -> bool {
    &&& r.key.len() + r.value.len() + 17 <= u32::MAX
    &&& (r.kind == RT_SET || r.kind == RT_DEL_POINT)
}

/// An immutable sorted run with its bloom filter and sequence span.
pub struct Segment {
    pub name: Vec<u8>,
    pub records: Vec<Rec>,
    pub seq_low: u64,
    pub seq_high: u64,
    pub bloom: BloomFilter,
}

impl Segment {
    /// The records as mathematical values.
    pub open spec fn recs(&self) -> Seq<RecV> {
        self.records@.map_values(|r: Rec| r@)
    }

    pub open spec fn wf(&self) -> bool {
        &&& self.bloom.wf()
        &&& sorted_keys(self.recs())
        &&& forall|i: int|
            0 <= i < self.recs().len() ==> {
                &&& seg_rec_ok(#[trigger] self.recs()[i])
                &&& self.bloom.contains_key(self.recs()[i].key)
                &&& self.recs()[i].seq <= self.seq_high
            }
    }

    /// Build a segment from its records, computing the bloom filter and
    /// the sequence span.
    pub fn from_records(name: Vec<u8>, records: Vec<Rec>) -> (r: Segment)
        requires
            forall|i: int| 0 <= i < records@.len() ==> seg_rec_ok(#[trigger] records@[i]@),
            sorted_keys(records@.map_values(|x: Rec| x@)),
        ensures
            r.wf(),
            r.recs() =~= records@.map_values(|x: Rec| x@),
            r.name@ == name@,
            r.seq_high == recs_max_seq(records@.map_values(|x: Rec| x@)),
            r.bloom.bits@.len() == 1250,
            r.bloom.bit_count == 10000,
            r.bloom.hash_count == 7,
    {
        let ghost rv = records@.map_values(|x: Rec| x@);
        let mut bloom = BloomFilter::new(10000, 7);
        proof {
            assert(bloom.bits@.len() == 1250);
        }
        let mut seq_low: u64 = u64::MAX;
        let mut seq_high: u64 = 0;
        let mut i: usize = 0;
        proof {
            assert(rv.skip(0) =~= rv);
        }
        while i < records.len()
            invariant
                rv == records@.map_values(|x: Rec| x@),
                forall|j: int| 0 <= j < rv.len() ==> seg_rec_ok(#[trigger] rv[j]),
                i <= records.len(),
                bloom.wf(),
                bloom.bits@.len() == 1250,
                bloom.bit_count == 10000,
                bloom.hash_count == 7,
                forall|j: int| 0 <= j < i ==> bloom.contains_key(#[trigger] rv[j].key),
                recs_max_seq(rv) == if seq_high >= recs_max_seq(rv.skip(i as int)) {
                    seq_high
                } else {
                    recs_max_seq(rv.skip(i as int))
                },
                forall|j: int| 0 <= j < i ==> (#[trigger] rv[j]).seq <= seq_high,
            decreases records.len() - i,
        {
            let ghost pre = bloom;
            proof {
                assert(rv.skip(i as int)[0] == rv[i as int]);
                assert(rv.skip(i as int).skip(1) =~= rv.skip(i + 1));
            }
            bloom.add(&records[i].key);
            if records[i].seq < seq_low {
                seq_low = records[i].seq;
            }
            if records[i].seq > seq_high {
                seq_high = records[i].seq;
            }
            proof {
                assert(bloom.contains_key(rv[i as int].key));
                assert(forall|j: int|
                    0 <= j < i ==> pre.contains_key(#[trigger] rv[j].key)
                        ==> bloom.contains_key(rv[j].key));
            }
            i = i + 1;
        }
        proof {
            assert(rv.skip(i as int).len() == 0);
            assert(recs_max_seq(rv.skip(i as int)) == 0);
        }
        Segment { name, records, seq_low, seq_high, bloom }
    }

    /// Point lookup: the record stored here for `key`, if any. The bloom
    /// filter rejects most keys the segment does not hold without a scan.
    pub fn find(&self, key: &[u8]) -> (r: Option<&Rec>)
        requires
            self.wf(),
        ensures
            match r {
                Some(rec) => seg_find(self.recs(), key@) == Some(rec@),
                None => seg_find(self.recs(), key@) is None,
            },
    {
        if !self.bloom.might_contain(key) {
            proof {
                lemma_seg_find_has_key(self.recs(), key@);
                if seg_has_key(self.recs(), key@) {
                    let i = choose|i: int|
                        0 <= i < self.recs().len() && self.recs()[i].key == key@;
                    assert(self.bloom.contains_key(self.recs()[i].key));
                }
            }
            return None;
        }
        let mut i: usize = 0;
        proof {
            assert(self.recs().skip(0) =~= self.recs());
        }
        while i < self.records.len()
            invariant
                i <= self.records.len(),
                seg_find(self.recs(), key@) == seg_find(self.recs().skip(i as int), key@),
            decreases self.records.len() - i,
        {
            proof {
                assert(self.recs().skip(i as int)[0] == self.recs()[i as int]);
                assert(self.recs().skip(i as int).skip(1) =~= self.recs().skip(i + 1));
            }
            if bytes_eq(&self.records[i].key, key) {
                return Some(&self.records[i]);
            }
            i = i + 1;
        }
        proof {
            assert(self.recs().skip(i as int).len() == 0);
        }
        None
    }
}

} // verus!
