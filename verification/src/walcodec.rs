//! Write-ahead-log encoding and replay.
//!
//! The log file starts with a four-byte magic and then holds framed
//! records: a little-endian length, the payload, and a checksum of the
//! payload. A payload stamps a key with a sequence number and kind; point
//! writes append the value. Replay walks the frames in order and stops at
//! the first torn or corrupt frame, so a crash mid-append loses only the
//! tail that was never acknowledged as durable.

use vstd::bytes::{
    lemma_auto_spec_u32_to_from_le_bytes, lemma_auto_spec_u64_to_from_le_bytes,
    spec_u32_from_le_bytes, spec_u32_to_le_bytes, spec_u64_from_le_bytes, spec_u64_to_le_bytes,
    u32_from_le_bytes, u32_to_le_bytes, u64_from_le_bytes, u64_to_le_bytes,
};
use vstd::prelude::*;
use vstd::slice::slice_subrange;

use crate::crc::{crc32, spec_crc32};
use crate::order::bytes_eq;
use crate::rec::{slice_to_bytes, Rec, RecV, RT_DEL_POINT, RT_DEL_SUB, RT_SET};

verus! {

/// The log file's four-byte magic.
pub open spec fn wal_magic() -> Seq<u8> {
    seq![87u8, 65u8, 76u8, 50u8]
}

/// The log file's magic as bytes to write.
pub fn wal_magic_bytes() -> (r: Vec<u8>)
    ensures
        r@ == wal_magic(),
{
    let mut v: Vec<u8> = Vec::new();
    v.push(87);
    v.push(65);
    v.push(76);
    v.push(50);
    proof {
        assert(v@ =~= wal_magic());
    }
    v
}

/// A record fits the log framing, and only point writes carry a value.
pub open spec fn wal_rec_ok(r: RecV) -> bool {
    &&& r.key.len() + r.value.len() + 17 <= u32::MAX
    &&& (r.kind == RT_SET || r.kind == RT_DEL_POINT || r.kind == RT_DEL_SUB)
    &&& (r.kind != RT_SET ==> r.value.len() == 0)
}

/// The payload bytes of one record.
pub open spec fn spec_wal_payload(r: RecV) -> Seq<u8> {
    let head = spec_u64_to_le_bytes(r.seq) + seq![r.kind] + spec_u32_to_le_bytes(
        r.key.len() as u32,
    ) + r.key;
    if r.kind == RT_SET {
        head + spec_u32_to_le_bytes(r.value.len() as u32) + r.value
    } else {
        head
    }
}

/// One framed record: length, payload, checksum.
pub open spec fn spec_wal_frame(r: RecV) -> Seq<u8> {
    let p = spec_wal_payload(r);
    spec_u32_to_le_bytes(p.len() as u32) + p + spec_u32_to_le_bytes(spec_crc32(p))
}

/// The frames of a record list, in order.
pub open spec fn spec_frames(rs: Seq<RecV>) -> Seq<u8>
    decreases rs.len(),
{
    if rs.len() == 0 {
        Seq::empty()
    } else {
        spec_wal_frame(rs[0]) + spec_frames(rs.skip(1))
    }
}

/// Decode one payload. A too-short payload, a key or value running past
/// the end, or an unknown kind yields nothing.
pub open spec fn spec_parse_payload(p: Seq<u8>) -> Option<RecV> {
    if p.len() < 13 {
        None
    } else {
        let seq = spec_u64_from_le_bytes(p.subrange(0, 8));
        let kind = p[8];
        let klen = spec_u32_from_le_bytes(p.subrange(9, 13)) as int;
        if 13 + klen > p.len() {
            None
        } else if klen + 17 > u32::MAX {
            None
        } else {
            let key = p.subrange(13, 13 + klen);
            if kind == RT_SET {
                if 17 + klen > p.len() {
                    None
                } else {
                    let vlen = spec_u32_from_le_bytes(p.subrange(13 + klen, 17 + klen)) as int;
                    if 17 + klen + vlen > p.len() {
                        None
                    } else if klen + vlen + 17 > u32::MAX {
                        None
                    } else {
                        Some(
                            RecV {
                                kind,
                                key,
                                value: p.subrange(17 + klen, 17 + klen + vlen),
                                seq,
                            },
                        )
                    }
                }
            } else if kind == RT_DEL_POINT || kind == RT_DEL_SUB {
                Some(RecV { kind, key, value: Seq::empty(), seq })
            } else {
                None
            }
        }
    }
}

/// Replay framed records: stop at the first torn or checksum-failing
/// frame, skip frames whose payload does not decode.
pub open spec fn spec_replay_frames(b: Seq<u8>) -> Seq<RecV>
    decreases b.len(),
{
    if b.len() < 8 {
        Seq::empty()
    } else {
        let len = spec_u32_from_le_bytes(b.subrange(0, 4)) as int;
        if 8 + len > b.len() {
            Seq::empty()
        } else {
            let payload = b.subrange(4, 4 + len);
            let crc = spec_u32_from_le_bytes(b.subrange(4 + len, 8 + len));
            if spec_crc32(payload) != crc {
                Seq::empty()
            } else {
                let rest = spec_replay_frames(b.skip(8 + len));
                match spec_parse_payload(payload) {
                    Some(r) => seq![r] + rest,
                    None => rest,
                }
            }
        }
    }
}

/// Replay a whole log file: nothing without the magic, otherwise the
/// frames that follow it.
pub open spec fn spec_wal_replay(b: Seq<u8>) -> Seq<RecV> {
    if b.len() >= 4 && b.subrange(0, 4) == wal_magic() {
        spec_replay_frames(b.skip(4))
    } else {
        Seq::empty()
    }
}

/// Encode one record as a framed log entry.
pub fn encode_wal_record(r: &Rec) -> (out: Vec<u8>)
    requires
        wal_rec_ok(r@),
    ensures
        out@ == spec_wal_frame(r@),
{
    let mut payload: Vec<u8> = u64_to_le_bytes(r.seq);
    payload.push(r.kind);
    let mut klen = u32_to_le_bytes(r.key.len() as u32);
    payload.append(&mut klen);
    let mut keyb = slice_to_bytes(r.key.as_slice());
    payload.append(&mut keyb);
    if r.kind == RT_SET {
        let mut vlen = u32_to_le_bytes(r.value.len() as u32);
        payload.append(&mut vlen);
        let mut valb = slice_to_bytes(r.value.as_slice());
        payload.append(&mut valb);
    }
    proof {
        assert(payload@ =~= spec_wal_payload(r@));
    }
    let crc = crc32(payload.as_slice());
    let mut out = u32_to_le_bytes(payload.len() as u32);
    out.append(&mut payload);
    let mut crcb = u32_to_le_bytes(crc);
    out.append(&mut crcb);
    proof {
        assert(out@ =~= spec_wal_frame(r@));
    }
    out
}

/// Decode one payload.
fn parse_wal_payload(p: &[u8]) -> (r: Option<Rec>)
    ensures
        match r {
            Some(rec) => spec_parse_payload(p@) == Some(rec@),
            None => spec_parse_payload(p@) is None,
        },
{
    if p.len() < 13 {
        return None;
    }
    let seq = u64_from_le_bytes(slice_subrange(p, 0, 8));
    let kind = p[8];
    let klen = u32_from_le_bytes(slice_subrange(p, 9, 13)) as usize;
    if klen > p.len() - 13 {
        return None;
    }
    if klen as u64 + 17 > 0xFFFF_FFFFu64 {
        return None;
    }
    let key = slice_to_bytes(slice_subrange(p, 13, 13 + klen));
    if kind == RT_SET {
        if p.len() - 13 - klen < 4 {
            return None;
        }
        let vlen = u32_from_le_bytes(slice_subrange(p, 13 + klen, 17 + klen)) as usize;
        if vlen > p.len() - 17 - klen {
            return None;
        }
        if klen as u64 + vlen as u64 + 17 > 0xFFFF_FFFFu64 {
            return None;
        }
        let value = slice_to_bytes(slice_subrange(p, 17 + klen, 17 + klen + vlen));
        Some(Rec { kind, key, value, seq })
    } else if kind == RT_DEL_POINT || kind == RT_DEL_SUB {
        Some(Rec { kind, key, value: Vec::new(), seq })
    } else {
        None
    }
}

/// Replay a log image into the records it acknowledges, stopping at the
/// first torn or corrupt frame.
pub fn wal_replay(b: &[u8]) -> (out: Vec<Rec>)
    ensures
        out@.map_values(|r: Rec| r@) == spec_wal_replay(b@),
{
    let magic = wal_magic_bytes();
    if b.len() < 4 {
        proof {
            assert(spec_wal_replay(b@) =~= Seq::<RecV>::empty());
        }
        return Vec::new();
    }
    if !bytes_eq(slice_subrange(b, 0, 4), magic.as_slice()) {
        proof {
            assert(b@.subrange(0, 4) != wal_magic());
            assert(spec_wal_replay(b@) =~= Seq::<RecV>::empty());
        }
        return Vec::new();
    }
    let mut out: Vec<Rec> = Vec::new();
    let mut pos: usize = 4;
    proof {
        assert(b@.subrange(0, 4) == wal_magic());
        assert(b@.skip(4) =~= b@.skip(4));
    }
    loop
        invariant_except_break
            4 <= pos <= b@.len(),
            spec_wal_replay(b@) == out@.map_values(|r: Rec| r@) + spec_replay_frames(
                b@.skip(pos as int),
            ),
        ensures
            out@.map_values(|r: Rec| r@) == spec_wal_replay(b@),
        decreases b@.len() - pos,
    {
        let ghost rem = b@.skip(pos as int);
        if b.len() - pos < 8 {
            proof {
                assert(rem.len() < 8);
                assert(spec_replay_frames(rem) =~= Seq::<RecV>::empty());
                assert(out@.map_values(|r: Rec| r@) + spec_replay_frames(rem) =~= out@.map_values(
                    |r: Rec| r@,
                ));
            }
            break ;
        }
        let len = u32_from_le_bytes(slice_subrange(b, pos, pos + 4)) as usize;
        proof {
            assert(b@.subrange(pos as int, pos + 4) =~= rem.subrange(0, 4));
        }
        if len > b.len() - pos - 8 {
            proof {
                assert(8 + len > rem.len());
                assert(spec_replay_frames(rem) =~= Seq::<RecV>::empty());
                assert(out@.map_values(|r: Rec| r@) + spec_replay_frames(rem) =~= out@.map_values(
                    |r: Rec| r@,
                ));
            }
            break ;
        }
        let payload = slice_subrange(b, pos + 4, pos + 4 + len);
        let stored = u32_from_le_bytes(slice_subrange(b, pos + 4 + len, pos + 8 + len));
        proof {
            assert(payload@ =~= rem.subrange(4, 4 + len));
            assert(b@.subrange(pos + 4 + len, pos + 8 + len) =~= rem.subrange(
                4 + len,
                8 + len,
            ));
        }
        if crc32(payload) != stored {
            proof {
                assert(spec_replay_frames(rem) =~= Seq::<RecV>::empty());
                assert(out@.map_values(|r: Rec| r@) + spec_replay_frames(rem) =~= out@.map_values(
                    |r: Rec| r@,
                ));
            }
            break ;
        }
        let ghost preout = out@;
        match parse_wal_payload(payload) {
            Some(rec) => {
                out.push(rec);
                proof {
                    assert(out@.map_values(|r: Rec| r@) =~= preout.map_values(|r: Rec| r@)
                        + seq![out@[out@.len() - 1]@]);
                }
            },
            None => {},
        }
        pos = pos + 8 + len;
        proof {
            assert(rem.skip(8 + len) =~= b@.skip(pos as int));
            assert(spec_replay_frames(rem) == match spec_parse_payload(rem.subrange(4, 4 + len)) {
                Some(r) => seq![r] + spec_replay_frames(b@.skip(pos as int)),
                None => spec_replay_frames(b@.skip(pos as int)),
            });
            assert(spec_wal_replay(b@) =~= out@.map_values(|r: Rec| r@) + spec_replay_frames(
                b@.skip(pos as int),
            ));
        }
    }
    out
}

/// Every record a replay yields fits the memtable and framing bounds.
pub proof fn lemma_replay_recs_ok(b: Seq<u8>)
    ensures
        forall|i: int|
            0 <= i < spec_replay_frames(b).len() ==> wal_rec_ok(
                #[trigger] spec_replay_frames(b)[i],
            ),
    decreases b.len(),
{
    if b.len() >= 8 {
        let len = spec_u32_from_le_bytes(b.subrange(0, 4)) as int;
        if 8 + len <= b.len() {
            let payload = b.subrange(4, 4 + len);
            let crc = spec_u32_from_le_bytes(b.subrange(4 + len, 8 + len));
            if spec_crc32(payload) == crc {
                lemma_replay_recs_ok(b.skip(8 + len));
                let rest = spec_replay_frames(b.skip(8 + len));
                match spec_parse_payload(payload) {
                    Some(r) => {
                        assert(wal_rec_ok(r));
                        assert forall|i: int|
                            0 <= i < spec_replay_frames(b).len() implies wal_rec_ok(
                            #[trigger] spec_replay_frames(b)[i],
                        ) by {
                            if i > 0 {
                                assert(spec_replay_frames(b)[i] == rest[i - 1]);
                            }
                        }
                    },
                    None => {},
                }
            }
        }
    }
}

/// One more record appends its frame.
pub proof fn lemma_frames_take(rs: Seq<RecV>, i: int)
    requires
        0 <= i < rs.len(),
    ensures
        spec_frames(rs.take(i + 1)) == spec_frames(rs.take(i)) + spec_wal_frame(rs[i]),
    decreases i,
{
    if i == 0 {
        assert(rs.take(0) =~= Seq::<RecV>::empty());
        assert(rs.take(1)[0] == rs[0]);
        assert(rs.take(1).skip(1) =~= Seq::<RecV>::empty());
        assert(spec_frames(rs.take(1)) =~= spec_frames(rs.take(0)) + spec_wal_frame(rs[0]));
    } else {
        assert(rs.take(i + 1)[0] == rs[0]);
        assert(rs.take(i + 1).skip(1) =~= rs.skip(1).take(i));
        assert(rs.take(i)[0] == rs[0]);
        assert(rs.take(i).skip(1) =~= rs.skip(1).take(i - 1));
        lemma_frames_take(rs.skip(1), i - 1);
        assert(rs.skip(1)[i - 1] == rs[i]);
        assert(spec_frames(rs.take(i + 1)) =~= spec_frames(rs.take(i)) + spec_wal_frame(rs[i]));
    }
}

/// Decoding a payload gives back the record it encodes.
pub proof fn lemma_payload_round_trip(r: RecV)
    requires
        wal_rec_ok(r),
    ensures
        spec_parse_payload(spec_wal_payload(r)) == Some(r),
        spec_wal_payload(r).len() >= 13,
        spec_wal_payload(r).len() <= u32::MAX,
{
    lemma_auto_spec_u32_to_from_le_bytes();
    lemma_auto_spec_u64_to_from_le_bytes();
    let p = spec_wal_payload(r);
    let klen = r.key.len() as int;
    assert(p.subrange(0, 8) =~= spec_u64_to_le_bytes(r.seq));
    assert(p[8] == r.kind);
    assert(p.subrange(9, 13) =~= spec_u32_to_le_bytes(r.key.len() as u32));
    assert(p.subrange(13, 13 + klen) =~= r.key);
    if r.kind == RT_SET {
        let vlen = r.value.len() as int;
        assert(p.subrange(13 + klen, 17 + klen) =~= spec_u32_to_le_bytes(r.value.len() as u32));
        assert(p.subrange(17 + klen, 17 + klen + vlen) =~= r.value);
        assert(p.len() == 17 + klen + vlen);
    } else {
        assert(p.len() == 13 + klen);
        assert(r.value =~= Seq::<u8>::empty());
    }
}

/// Replaying the frames of well-formed records gives the records back.
pub proof fn lemma_replay_frames_round_trip(rs: Seq<RecV>)
    requires
        forall|i: int| 0 <= i < rs.len() ==> wal_rec_ok(#[trigger] rs[i]),
    ensures
        spec_replay_frames(spec_frames(rs)) == rs,
    decreases rs.len(),
{
    lemma_auto_spec_u32_to_from_le_bytes();
    if rs.len() == 0 {
        assert(spec_replay_frames(spec_frames(rs)) =~= rs);
    } else {
        let r0 = rs[0];
        lemma_payload_round_trip(r0);
        let p = spec_wal_payload(r0);
        let b = spec_frames(rs);
        let len = p.len() as int;
        assert(b =~= spec_wal_frame(r0) + spec_frames(rs.skip(1)));
        assert(b.len() >= 8 + len);
        assert(b.subrange(0, 4) =~= spec_u32_to_le_bytes(p.len() as u32));
        assert(b.subrange(4, 4 + len) =~= p);
        assert(b.subrange(4 + len, 8 + len) =~= spec_u32_to_le_bytes(spec_crc32(p)));
        assert(b.skip(8 + len) =~= spec_frames(rs.skip(1)));
        lemma_replay_frames_round_trip(rs.skip(1));
        assert(spec_replay_frames(b) =~= seq![r0] + spec_replay_frames(spec_frames(rs.skip(1))));
        assert(seq![r0] + rs.skip(1) =~= rs);
    }
}

/// Replaying a log image made of the magic and the frames of well-formed
/// records yields exactly those records.
pub proof fn lemma_wal_round_trip(rs: Seq<RecV>)
    requires
        forall|i: int| 0 <= i < rs.len() ==> wal_rec_ok(#[trigger] rs[i]),
    ensures
        spec_wal_replay(wal_magic() + spec_frames(rs)) == rs,
{
    let b = wal_magic() + spec_frames(rs);
    assert(b.subrange(0, 4) =~= wal_magic());
    assert(b.skip(4) =~= spec_frames(rs));
    lemma_replay_frames_round_trip(rs);
}

} // verus!
