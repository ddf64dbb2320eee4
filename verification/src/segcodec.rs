//! The on-disk segment image: build on flush or merge, reopen at startup.
//!
//! Layout, top to bottom: a seven-byte magic; the record blocks (each
//! record is stamp, kind, key length, value length, key, value, packed
//! into blocks of about four kilobytes); the sparse block index (first key
//! and byte offset of each block); the bloom filter's raw bits; and a
//! 32-byte footer giving the sequence span, the record count, the index
//! and bloom region sizes, and the hash count. The reader finds where the
//! blocks end from the footer — never from the file length alone — and
//! rejects an image whose magic, framing, record kinds, sequence bounds or
//! bloom coverage do not hold together.

use vstd::bytes::{
    lemma_auto_spec_u32_to_from_le_bytes, lemma_auto_spec_u64_to_from_le_bytes,
    spec_u32_from_le_bytes, spec_u32_to_le_bytes, spec_u64_from_le_bytes, spec_u64_to_le_bytes,
    u32_from_le_bytes, u32_to_le_bytes, u64_from_le_bytes, u64_to_le_bytes,
};
use vstd::prelude::*;
use vstd::slice::slice_subrange;
use vstd::string::StringExecFns;

use crate::bloom::{spec_might_contain, BloomFilter};
use crate::errors::WalDBError;
use crate::rec::{clone_bytes, slice_to_bytes, Rec, RecV, RT_DEL_POINT, RT_SET};
use crate::segment::{recs_max_seq, seg_rec_ok, Segment};

verus! {

/// The segment file's seven-byte magic.
pub open spec fn seg_magic() -> Seq<u8> {
    seq![87u8, 65u8, 76u8, 68u8, 66u8, 48u8, 51u8]
}

/// The segment magic as bytes to write.
pub fn seg_magic_bytes() -> (r: Vec<u8>)
    ensures
        r@ == seg_magic(),
{
    let mut v: Vec<u8> = Vec::new();
    v.push(87);
    v.push(65);
    v.push(76);
    v.push(68);
    v.push(66);
    v.push(48);
    v.push(51);
    proof {
        assert(v@ =~= seg_magic());
    }
    v
}

/// The bytes of one stored record.
pub open spec fn spec_seg_rec_bytes(r: RecV) -> Seq<u8> {
    spec_u64_to_le_bytes(r.seq) + seq![r.kind] + spec_u32_to_le_bytes(r.key.len() as u32)
        + spec_u32_to_le_bytes(r.value.len() as u32) + r.key + r.value
}

/// The block region: every record's bytes, in order.
pub open spec fn spec_recs_bytes(rs: Seq<RecV>) -> Seq<u8>
    decreases rs.len(),
{
    if rs.len() == 0 {
        Seq::empty()
    } else {
        spec_seg_rec_bytes(rs[0]) + spec_recs_bytes(rs.skip(1))
    }
}

/// Total encoded size of a record list.
pub open spec fn spec_recs_size(rs: Seq<RecV>) -> nat
    decreases rs.len(),
{
    if rs.len() == 0 {
        0
    } else {
        17 + rs[0].key.len() + rs[0].value.len() + spec_recs_size(rs.skip(1))
    }
}

/// Decode a whole block region. Anything torn, oversized or of unknown
/// kind rejects the region.
pub open spec fn spec_parse_recs(b: Seq<u8>) -> Option<Seq<RecV>>
    decreases b.len(),
{
    if b.len() == 0 {
        Some(Seq::empty())
    } else if b.len() < 17 {
        None
    } else {
        let seq = spec_u64_from_le_bytes(b.subrange(0, 8));
        let kind = b[8];
        let klen = spec_u32_from_le_bytes(b.subrange(9, 13)) as int;
        let vlen = spec_u32_from_le_bytes(b.subrange(13, 17)) as int;
        if klen + vlen + 17 > u32::MAX {
            None
        } else if 17 + klen + vlen > b.len() {
            None
        } else if kind != RT_SET && kind != RT_DEL_POINT {
            None
        } else {
            let rec = RecV {
                kind,
                key: b.subrange(17, 17 + klen),
                value: b.subrange(17 + klen, 17 + klen + vlen),
                seq,
            };
            match spec_parse_recs(b.skip(17 + klen + vlen)) {
                Some(rest) => Some(seq![rec] + rest),
                None => None,
            }
        }
    }
}

/// Decoding a record list's bytes gives the list back.
pub proof fn lemma_parse_recs_round_trip(rs: Seq<RecV>)
    requires
        forall|i: int| 0 <= i < rs.len() ==> seg_rec_ok(#[trigger] rs[i]),
    ensures
        spec_parse_recs(spec_recs_bytes(rs)) == Some(rs),
        spec_recs_bytes(rs).len() == spec_recs_size(rs),
    decreases rs.len(),
{
    lemma_auto_spec_u32_to_from_le_bytes();
    lemma_auto_spec_u64_to_from_le_bytes();
    if rs.len() == 0 {
        assert(spec_parse_recs(spec_recs_bytes(rs)) =~= Some(Seq::<RecV>::empty()));
        assert(Some(Seq::<RecV>::empty()) == Some(rs)) by {
            assert(rs =~= Seq::<RecV>::empty());
        }
    } else {
        let r0 = rs[0];
        let b = spec_recs_bytes(rs);
        let klen = r0.key.len() as int;
        let vlen = r0.value.len() as int;
        assert(b =~= spec_seg_rec_bytes(r0) + spec_recs_bytes(rs.skip(1)));
        assert(b.len() >= 17 + klen + vlen);
        assert(b.subrange(0, 8) =~= spec_u64_to_le_bytes(r0.seq));
        assert(b[8] == r0.kind);
        assert(b.subrange(9, 13) =~= spec_u32_to_le_bytes(r0.key.len() as u32));
        assert(b.subrange(13, 17) =~= spec_u32_to_le_bytes(r0.value.len() as u32));
        assert(b.subrange(17, 17 + klen) =~= r0.key);
        assert(b.subrange(17 + klen, 17 + klen + vlen) =~= r0.value);
        assert(b.skip(17 + klen + vlen) =~= spec_recs_bytes(rs.skip(1)));
        lemma_parse_recs_round_trip(rs.skip(1));
        assert(seq![r0] + rs.skip(1) =~= rs);
    }
}

/// One more record appends its bytes.
pub proof fn lemma_recs_bytes_take(rs: Seq<RecV>, i: int)
    requires
        0 <= i < rs.len(),
    ensures
        spec_recs_bytes(rs.take(i + 1)) == spec_recs_bytes(rs.take(i)) + spec_seg_rec_bytes(
            rs[i],
        ),
        spec_recs_size(rs.take(i + 1)) == spec_recs_size(rs.take(i)) + 17 + rs[i].key.len()
            + rs[i].value.len(),
    decreases i,
{
    if i == 0 {
        assert(rs.take(0) =~= Seq::<RecV>::empty());
        assert(rs.take(1)[0] == rs[0]);
        assert(rs.take(1).skip(1) =~= Seq::<RecV>::empty());
        assert(spec_recs_bytes(rs.take(1)) =~= spec_recs_bytes(rs.take(0)) + spec_seg_rec_bytes(
            rs[0],
        ));
    } else {
        assert(rs.take(i + 1)[0] == rs[0]);
        assert(rs.take(i + 1).skip(1) =~= rs.skip(1).take(i));
        assert(rs.take(i)[0] == rs[0]);
        assert(rs.take(i).skip(1) =~= rs.skip(1).take(i - 1));
        lemma_recs_bytes_take(rs.skip(1), i - 1);
        assert(rs.skip(1)[i - 1] == rs[i]);
        assert(spec_recs_bytes(rs.take(i + 1)) =~= spec_recs_bytes(rs.take(i))
            + spec_seg_rec_bytes(rs[i]));
    }
}

/// Mathematical image of a decoded segment file.
pub struct SegImageV {
    pub records: Seq<RecV>,
    pub seq_low: u64,
    pub seq_high: u64,
    pub bloom_bits: Seq<u8>,
    pub hash_count: u32,
}

/// Decode a segment image: magic, footer, block region, and the checks
/// that make the segment usable — record count and sequence bounds match
/// the footer, keys are strictly ascending as the format requires, and
/// the bloom filter covers every key.
pub open spec fn spec_open_segment(b: Seq<u8>) -> Option<SegImageV> {
    if b.len() < 39 {
        None
    } else if b.subrange(0, 7) != seg_magic() {
        None
    } else {
        let n = b.len() as int;
        let seq_low = spec_u64_from_le_bytes(b.subrange(n - 32, n - 24));
        let seq_high = spec_u64_from_le_bytes(b.subrange(n - 24, n - 16));
        let key_count = spec_u32_from_le_bytes(b.subrange(n - 16, n - 12)) as int;
        let index_bytes = spec_u32_from_le_bytes(b.subrange(n - 12, n - 8)) as int;
        let bloom_bytes = spec_u32_from_le_bytes(b.subrange(n - 8, n - 4)) as int;
        let hash_count = spec_u32_from_le_bytes(b.subrange(n - 4, n));
        if 7 + index_bytes + bloom_bytes + 32 > n {
            None
        } else if bloom_bytes == 0 || bloom_bytes > 0x0FFF_FFFF {
            None
        } else {
            let index_start = n - 32 - bloom_bytes - index_bytes;
            let bloom_bits = b.subrange(index_start + index_bytes, n - 32);
            match spec_parse_recs(b.subrange(7, index_start)) {
                Some(rs) => {
                    if rs.len() == key_count && crate::segment::sorted_keys(rs) && (forall|
                        i: int,
                    |
                        0 <= i < rs.len() ==> (#[trigger] rs[i]).seq <= seq_high) && (forall|
                        i: int,
                    |
                        0 <= i < rs.len() ==> spec_might_contain(
                            bloom_bits,
                            (#[trigger] rs[i]).key,
                            hash_count as nat,
                            (8 * bloom_bytes) as nat,
                        )) {
                        Some(SegImageV { records: rs, seq_low, seq_high, bloom_bits, hash_count })
                    } else {
                        None
                    }
                },
                None => None,
            }
        }
    }
}

/// Decode the block region into records.
fn parse_records(b: &[u8]) -> (r: Option<Vec<Rec>>)
    ensures
        match r {
            Some(rs) => spec_parse_recs(b@) == Some(rs@.map_values(|x: Rec| x@)),
            None => spec_parse_recs(b@) is None,
        },
{
    let mut out: Vec<Rec> = Vec::new();
    let mut pos: usize = 0;
    let mut ok = true;
    proof {
        assert(b@.skip(0) =~= b@);
        assert(out@.map_values(|x: Rec| x@) + spec_parse_recs(b@).unwrap() =~= spec_parse_recs(
            b@,
        ).unwrap());
    }
    loop
        invariant_except_break
            pos <= b@.len(),
            ok,
            spec_parse_recs(b@) == (match spec_parse_recs(b@.skip(pos as int)) {
                Some(rest) => Some(out@.map_values(|x: Rec| x@) + rest),
                None => None::<Seq<RecV>>,
            }),
        ensures
            ok ==> spec_parse_recs(b@) == Some(out@.map_values(|x: Rec| x@)),
            !ok ==> spec_parse_recs(b@) is None,
        decreases b@.len() - pos,
    {
        let ghost rem = b@.skip(pos as int);
        if pos == b.len() {
            proof {
                assert(rem.len() == 0);
                assert(spec_parse_recs(rem) == Some(Seq::<RecV>::empty()));
                assert(out@.map_values(|x: Rec| x@) + Seq::<RecV>::empty() =~= out@.map_values(
                    |x: Rec| x@,
                ));
            }
            break ;
        }
        if b.len() - pos < 17 {
            ok = false;
            proof {
                assert(spec_parse_recs(rem) is None);
            }
            break ;
        }
        let seq = u64_from_le_bytes(slice_subrange(b, pos, pos + 8));
        let kind = b[pos + 8];
        let klen64 = u32_from_le_bytes(slice_subrange(b, pos + 9, pos + 13)) as u64;
        let vlen64 = u32_from_le_bytes(slice_subrange(b, pos + 13, pos + 17)) as u64;
        proof {
            assert(b@.subrange(pos as int, pos + 8) =~= rem.subrange(0, 8));
            assert(b@.subrange(pos + 9, pos + 13) =~= rem.subrange(9, 13));
            assert(b@.subrange(pos + 13, pos + 17) =~= rem.subrange(13, 17));
            assert(rem[8] == b@[pos + 8]);
        }
        if klen64 + vlen64 + 17 > 0xFFFF_FFFFu64 {
            ok = false;
            proof {
                assert(spec_parse_recs(rem) is None);
            }
            break ;
        }
        let klen = klen64 as usize;
        let vlen = vlen64 as usize;
        if klen + vlen > b.len() - pos - 17 {
            ok = false;
            proof {
                assert(spec_parse_recs(rem) is None);
            }
            break ;
        }
        if kind != RT_SET && kind != RT_DEL_POINT {
            ok = false;
            proof {
                assert(spec_parse_recs(rem) is None);
            }
            break ;
        }
        let key = slice_to_bytes(slice_subrange(b, pos + 17, pos + 17 + klen));
        let value = slice_to_bytes(slice_subrange(b, pos + 17 + klen, pos + 17 + klen + vlen));
        proof {
            assert(key@ =~= rem.subrange(17, 17 + klen as int));
            assert(value@ =~= rem.subrange(17 + klen as int, 17 + klen as int + vlen as int));
        }
        let ghost preout = out@;
        out.push(Rec { kind, key, value, seq });
        pos = pos + 17 + klen + vlen;
        proof {
            let rem2 = b@.skip(pos as int);
            assert(rem.skip(17 + klen as int + vlen as int) =~= rem2);
            let recv = out@[out@.len() - 1]@;
            assert(out@.map_values(|x: Rec| x@) =~= preout.map_values(|x: Rec| x@) + seq![recv]);
            assert(spec_parse_recs(rem) == (match spec_parse_recs(rem2) {
                Some(rest) => Some(seq![recv] + rest),
                None => None::<Seq<RecV>>,
            }));
            if spec_parse_recs(rem2) is Some {
                let rest = spec_parse_recs(rem2).unwrap();
                assert(preout.map_values(|x: Rec| x@) + (seq![recv] + rest) =~= out@.map_values(
                    |x: Rec| x@,
                ) + rest);
            }
        }
    }
    if ok {
        Some(out)
    } else {
        None
    }
}

/// Every decoded record fits the framing and is a point write or point
/// tombstone.
pub proof fn lemma_parse_recs_ok(b: Seq<u8>)
    requires
        spec_parse_recs(b) is Some,
    ensures
        forall|i: int|
            0 <= i < spec_parse_recs(b).unwrap().len() ==> seg_rec_ok(
                #[trigger] spec_parse_recs(b).unwrap()[i],
            ),
    decreases b.len(),
{
    if b.len() == 0 {
    } else {
        let klen = spec_u32_from_le_bytes(b.subrange(9, 13)) as int;
        let vlen = spec_u32_from_le_bytes(b.subrange(13, 17)) as int;
        lemma_parse_recs_ok(b.skip(17 + klen + vlen));
        let rs = spec_parse_recs(b).unwrap();
        let rest = spec_parse_recs(b.skip(17 + klen + vlen)).unwrap();
        assert forall|i: int| 0 <= i < rs.len() implies seg_rec_ok(#[trigger] rs[i]) by {
            if i > 0 {
                assert(rs[i] == rest[i - 1]);
            }
        }
    }
}

/// Build the on-disk image of a segment from its records. Fails only when
/// a region grows past the format's 32-bit size fields; any reasonably
/// sized record list succeeds.
pub fn build_segment(name: Vec<u8>, records: Vec<Rec>) -> (r: Result<
    (Segment, Vec<u8>),
    WalDBError,
>)
    requires
        forall|i: int| 0 <= i < records@.len() ==> seg_rec_ok(#[trigger] records@[i]@),
        crate::segment::sorted_keys(records@.map_values(|x: Rec| x@)),
    ensures
        ({
            let rv = records@.map_values(|x: Rec| x@);
            match r {
                Ok((seg, bytes)) => {
                    &&& seg.wf()
                    &&& seg.recs() == rv
                    &&& seg.name@ == name@
                    &&& seg.seq_high == recs_max_seq(rv)
                    &&& spec_open_segment(bytes@) matches Some(img) && img.records == rv
                        && img.seq_high == recs_max_seq(rv)
                },
                Err(e) => e is ResourceExhausted,
            }
        }),
        (records@.len() <= 0x100000 && spec_recs_size(records@.map_values(|x: Rec| x@))
            <= 0x4000_0000) ==> r is Ok,
{
    let ghost rv = records@.map_values(|x: Rec| x@);
    let seg = Segment::from_records(name, records);
    proof {
        assert(seg.recs() == rv);
    }
    let mut data = seg_magic_bytes();
    let mut index_data: Vec<u8> = Vec::new();
    let mut block_bytes: usize = 0;
    let mut i: usize = 0;
    proof {
        assert(rv.take(0) =~= Seq::<RecV>::empty());
        assert(data@ =~= seg_magic() + spec_recs_bytes(rv.take(0)));
    }
    while i < seg.records.len()
        invariant
            seg.wf(),
            rv == seg.recs(),
            i <= seg.records.len(),
            data@ == seg_magic() + spec_recs_bytes(rv.take(i as int)),
            index_data@.len() <= 12 * i + spec_recs_size(rv.take(i as int)),
            block_bytes <= 0xFFFF_FFFF,
        decreases seg.records.len() - i,
    {
        proof {
            assert(seg_rec_ok(rv[i as int]));
            assert(rv[i as int] == seg.records@[i as int]@);
        }
        let klen = seg.records[i].key.len();
        let vlen = seg.records[i].value.len();
        let rec_len = 17 + klen + vlen;
        if block_bytes > 0 && (block_bytes >= 4096 || rec_len > 4096 - block_bytes) {
            block_bytes = 0;
        }
        let ghost index_pre = index_data@;
        if block_bytes == 0 {
            let mut e = u32_to_le_bytes(klen as u32);
            index_data.append(&mut e);
            let mut o = u64_to_le_bytes(data.len() as u64);
            index_data.append(&mut o);
            let mut kb = clone_bytes(&seg.records[i].key);
            index_data.append(&mut kb);
        }
        let mut sb = u64_to_le_bytes(seg.records[i].seq);
        data.append(&mut sb);
        data.push(seg.records[i].kind);
        let mut k4 = u32_to_le_bytes(klen as u32);
        data.append(&mut k4);
        let mut v4 = u32_to_le_bytes(vlen as u32);
        data.append(&mut v4);
        let mut kb2 = clone_bytes(&seg.records[i].key);
        data.append(&mut kb2);
        let mut vb = clone_bytes(&seg.records[i].value);
        data.append(&mut vb);
        block_bytes = block_bytes + rec_len;
        proof {
            lemma_recs_bytes_take(rv, i as int);
            assert(data@ =~= seg_magic() + spec_recs_bytes(rv.take(i + 1)));
            assert(index_data@.len() <= index_pre.len() + 12 + klen);
            assert(index_data@.len() <= 12 * (i + 1) + spec_recs_size(rv.take(i + 1)));
        }
        i = i + 1;
    }
    proof {
        assert(rv.take(i as int) =~= rv);
        lemma_parse_recs_round_trip(rv);
    }
    if seg.records.len() as u64 > 0xFFFF_FFFFu64 {
        return Err(WalDBError::ResourceExhausted {
            resource: String::from_str("segment record count"),
            limit: String::from_str("4294967295"),
        });
    }
    if index_data.len() as u64 > 0xFFFF_FFFFu64 {
        return Err(WalDBError::ResourceExhausted {
            resource: String::from_str("segment index size"),
            limit: String::from_str("4294967295"),
        });
    }
    let key_count = seg.records.len() as u32;
    let index_len = index_data.len();
    let bloom_len = seg.bloom.bits.len();
    data.append(&mut index_data);
    let mut bb = clone_bytes(&seg.bloom.bits);
    data.append(&mut bb);
    let mut f1 = u64_to_le_bytes(seg.seq_low);
    data.append(&mut f1);
    let mut f2 = u64_to_le_bytes(seg.seq_high);
    data.append(&mut f2);
    let mut f3 = u32_to_le_bytes(key_count);
    data.append(&mut f3);
    let mut f4 = u32_to_le_bytes(index_len as u32);
    data.append(&mut f4);
    let mut f5 = u32_to_le_bytes(bloom_len as u32);
    data.append(&mut f5);
    let mut f6 = u32_to_le_bytes(7u32);
    data.append(&mut f6);
    proof {
        lemma_auto_spec_u32_to_from_le_bytes();
        lemma_auto_spec_u64_to_from_le_bytes();
        let b = data@;
        let rlen = spec_recs_bytes(rv).len() as int;
        let il = index_len as int;
        let bl = bloom_len as int;
        let n = b.len() as int;
        assert(n == 7 + rlen + il + bl + 32);
        assert(b.subrange(0, 7) =~= seg_magic());
        assert(b.subrange(n - 32, n - 24) =~= spec_u64_to_le_bytes(seg.seq_low));
        assert(b.subrange(n - 24, n - 16) =~= spec_u64_to_le_bytes(seg.seq_high));
        assert(b.subrange(n - 16, n - 12) =~= spec_u32_to_le_bytes(key_count));
        assert(b.subrange(n - 12, n - 8) =~= spec_u32_to_le_bytes(index_len as u32));
        assert(b.subrange(n - 8, n - 4) =~= spec_u32_to_le_bytes(bloom_len as u32));
        assert(b.subrange(n - 4, n) =~= spec_u32_to_le_bytes(7u32));
        assert(bl == 1250);
        let index_start = n - 32 - bl - il;
        assert(index_start == 7 + rlen);
        assert(b.subrange(7, index_start) =~= spec_recs_bytes(rv));
        assert(b.subrange(index_start + il, n - 32) =~= seg.bloom.bits@);
        assert(spec_parse_recs(b.subrange(7, index_start)) == Some(rv));
        assert(rv.len() == key_count as int);
        assert(forall|j: int| 0 <= j < rv.len() ==> (#[trigger] rv[j]).seq <= seg.seq_high);
        assert forall|j: int| 0 <= j < rv.len() implies spec_might_contain(
            seg.bloom.bits@,
            (#[trigger] rv[j]).key,
            7nat,
            (8 * 1250) as nat,
        ) by {
            assert(seg.bloom.contains_key(rv[j].key));
            assert(seg.bloom.bit_count == 10000);
            assert(seg.bloom.hash_count == 7);
        }
        assert(spec_open_segment(b) is Some);
        assert(spec_open_segment(b).unwrap().records == rv);
        assert(spec_open_segment(b).unwrap().seq_high == seg.seq_high);
    }
    Ok((seg, data))
}

/// Reopen a segment image. Succeeds exactly when the image decodes and
/// passes its consistency checks, yielding a segment holding exactly the
/// decoded records.
pub fn open_segment(name: Vec<u8>, b: &[u8]) -> (r: Result<Segment, WalDBError>)
    ensures
        match r {
            Ok(seg) => spec_open_segment(b@) matches Some(img) && seg.wf() && seg.recs()
                == img.records && seg.seq_high == img.seq_high && seg.seq_low == img.seq_low
                && seg.name@ == name@,
            Err(e) => spec_open_segment(b@) is None && e is SegmentCorruption,
        },
{
    if b.len() < 39 {
        return Err(seg_corrupt());
    }
    let magic = seg_magic_bytes();
    if !crate::order::bytes_eq(slice_subrange(b, 0, 7), magic.as_slice()) {
        proof {
            assert(b@.subrange(0, 7) != seg_magic());
        }
        return Err(seg_corrupt());
    }
    let n = b.len();
    let seq_low = u64_from_le_bytes(slice_subrange(b, n - 32, n - 24));
    let seq_high = u64_from_le_bytes(slice_subrange(b, n - 24, n - 16));
    let key_count = u32_from_le_bytes(slice_subrange(b, n - 16, n - 12));
    let index_bytes = u32_from_le_bytes(slice_subrange(b, n - 12, n - 8));
    let bloom_bytes = u32_from_le_bytes(slice_subrange(b, n - 8, n - 4));
    let hash_count = u32_from_le_bytes(slice_subrange(b, n - 4, n));
    if 7 + index_bytes as u64 + bloom_bytes as u64 + 32 > n as u64 {
        return Err(seg_corrupt());
    }
    if bloom_bytes == 0 || bloom_bytes > 0x0FFF_FFFF {
        return Err(seg_corrupt());
    }
    let index_start = n - 32 - bloom_bytes as usize - index_bytes as usize;
    let region = slice_subrange(b, 7, index_start);
    let records = match parse_records(region) {
        Some(rs) => rs,
        None => {
            proof {
                assert(b@.subrange(7, index_start as int) == region@);
            }
            return Err(seg_corrupt());
        },
    };
    let ghost img_recs = records@.map_values(|x: Rec| x@);
    proof {
        assert(b@.subrange(7, index_start as int) == region@);
        lemma_parse_recs_ok(region@);
    }
    if records.len() as u64 != key_count as u64 {
        return Err(seg_corrupt());
    }
    let bits = slice_to_bytes(slice_subrange(b, index_start + index_bytes as usize, n - 32));
    let bloom = BloomFilter {
        bits,
        bit_count: 8 * bloom_bytes as usize,
        hash_count: hash_count as usize,
    };
    let mut i: usize = 0;
    let mut all_ok = true;
    let mut ordered = true;
    while i < records.len()
        invariant
            img_recs == records@.map_values(|x: Rec| x@),
            i <= records@.len(),
            bloom.bit_count == 8 * (bloom.bits@.len() as int),
            bloom.bits@.len() > 0,
            bloom.bits@.len() <= 0x0FFF_FFFF,
            bloom.hash_count <= u32::MAX,
            all_ok <==> (forall|j: int|
                0 <= j < i ==> (#[trigger] img_recs[j]).seq <= seq_high && spec_might_contain(
                    bloom.bits@,
                    img_recs[j].key,
                    bloom.hash_count as nat,
                    bloom.bit_count as nat,
                )),
            ordered <==> (forall|j: int|
                1 <= j < i ==> crate::order::lex_lt(
                    (#[trigger] img_recs[j - 1]).key,
                    img_recs[j].key,
                )),
        decreases records@.len() - i,
    {
        proof {
            assert(img_recs[i as int] == records@[i as int]@);
        }
        let seq_bad = records[i].seq > seq_high;
        let bloom_ok = bloom.might_contain(&records[i].key);
        let in_order = if i == 0 {
            true
        } else {
            proof {
                assert(img_recs[i - 1] == records@[i - 1]@);
            }
            crate::order::bytes_lt(&records[i - 1].key, &records[i].key)
        };
        proof {
            if all_ok && !seq_bad && bloom_ok {
                assert forall|j: int|
                    0 <= j < i + 1 implies (#[trigger] img_recs[j]).seq <= seq_high
                    && spec_might_contain(
                    bloom.bits@,
                    img_recs[j].key,
                    bloom.hash_count as nat,
                    bloom.bit_count as nat,
                ) by {}
            }
            if ordered && in_order {
                assert forall|j: int|
                    1 <= j < i + 1 implies crate::order::lex_lt(
                    (#[trigger] img_recs[j - 1]).key,
                    img_recs[j].key,
                ) by {}
            }
        }
        if seq_bad || !bloom_ok {
            all_ok = false;
        }
        if !in_order {
            ordered = false;
        }
        i = i + 1;
    }
    if !all_ok {
        proof {
            assert(!(forall|j: int|
                0 <= j < img_recs.len() ==> (#[trigger] img_recs[j]).seq <= seq_high
                    && spec_might_contain(
                    bloom.bits@,
                    img_recs[j].key,
                    bloom.hash_count as nat,
                    bloom.bit_count as nat,
                )));
        }
        return Err(seg_corrupt());
    }
    if !ordered {
        proof {
            let j = choose|j: int|
                1 <= j < img_recs.len() && !crate::order::lex_lt(
                    (#[trigger] img_recs[j - 1]).key,
                    img_recs[j].key,
                );
            assert(!crate::segment::sorted_keys(img_recs));
        }
        return Err(seg_corrupt());
    }
    proof {
        assert forall|j: int|
            0 <= j < img_recs.len() - 1 implies crate::order::lex_lt(
            (#[trigger] img_recs[j]).key,
            img_recs[j + 1].key,
        ) by {
            assert(crate::order::lex_lt(img_recs[j + 1 - 1].key, img_recs[j + 1].key));
        }
        crate::segment::lemma_adjacent_sorted(img_recs);
    }
    let seg = Segment { name, records, seq_low, seq_high, bloom };
    proof {
        assert(seg.recs() == img_recs);
        assert(seg.wf());
        assert(spec_open_segment(b@) is Some);
        assert(spec_open_segment(b@).unwrap().records == img_recs);
    }
    Ok(seg)
}

/// The error for an image that failed its checks.
fn seg_corrupt() -> (e: WalDBError)
    ensures
        e is SegmentCorruption,
{
    WalDBError::SegmentCorruption {
        path: String::new(),
        offset: 0,
        reason: String::from_str("segment image failed its checks"),
    }
}

} // verus!
