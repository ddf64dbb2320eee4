//! Level merges.
//!
//! When level 0 accumulates four segments, the oldest four merge into one
//! new level-1 segment; when level 1 accumulates ten, the oldest ten merge
//! into one new level-2 segment. A merge keeps, for every distinct key,
//! only the record with the largest stamp across its inputs. Tombstones
//! survive a merge into level 1, where they must keep shadowing older
//! data; a merge into level 2, the deepest level, drops them. The caller
//! runs these on its own schedule; the queued output file, manifest line
//! and obsolete input names travel the same road as a flush's.

use vstd::prelude::*;

use crate::errors::WalDBError;
use crate::lifecycle::lemma_push_seg_wf;
use crate::manifest::{
    format_manifest_entry, seg_filename, spec_manifest_line, spec_seg_filename, ManifestEntry,
    ManifestEntryV,
};
use crate::order::{bytes_eq, bytes_lt, lemma_lex_lt_connected, lex_lt};
use crate::rec::{clone_bytes, Rec, RecV, RT_SET};
use crate::segcodec::{build_segment, spec_open_segment, spec_recs_size};
use crate::segment::{recs_max_seq, seg_rec_ok, Segment};
use crate::store::{all_segs, wf_v, Store, StoreV};

verus! {

/// Fold one record into a merge accumulator sorted by key: a new key is
/// inserted in order; an existing key keeps whichever record has the
/// strictly larger stamp.
pub open spec fn merge_rec(acc: Seq<RecV>, r: RecV) -> Seq<RecV>
    decreases acc.len(),
{
    if acc.len() == 0 {
        seq![r]
    } else if lex_lt(r.key, acc[0].key) {
        seq![r] + acc
    } else if r.key == acc[0].key {
        if r.seq > acc[0].seq {
            seq![r] + acc.skip(1)
        } else {
            acc
        }
    } else {
        seq![acc[0]] + merge_rec(acc.skip(1), r)
    }
}

/// Fold a segment's records into the accumulator, in order.
pub open spec fn merge_seg(acc: Seq<RecV>, rs: Seq<RecV>) -> Seq<RecV>
    decreases rs.len(),
{
    if rs.len() == 0 {
        acc
    } else {
        merge_seg(merge_rec(acc, rs[0]), rs.skip(1))
    }
}

/// Fold a list of segments into the accumulator, oldest first.
pub open spec fn merge_segs(acc: Seq<RecV>, segs: Seq<Seq<RecV>>) -> Seq<RecV>
    decreases segs.len(),
{
    if segs.len() == 0 {
        acc
    } else {
        merge_segs(merge_seg(acc, segs[0]), segs.skip(1))
    }
}

/// The merge of a segment list: one record per distinct key, the one with
/// the largest stamp, in key order.
pub open spec fn spec_merge(segs: Seq<Seq<RecV>>) -> Seq<RecV> {
    merge_segs(Seq::empty(), segs)
}

/// The records that survive a merge into the deepest level: point writes
/// only.
pub open spec fn keep_sets(rs: Seq<RecV>) -> Seq<RecV> {
    rs.filter(|r: RecV| r.kind == RT_SET)
}

/// State after merging the oldest four level-0 segments into one new
/// level-1 segment.
pub open spec fn spec_after_compact0(v: StoreV) -> StoreV {
    StoreV { l0: v.l0.skip(4), l1: v.l1.push(spec_merge(v.l0.take(4))), ..v }
}

/// State after merging the oldest ten level-1 segments into one new
/// level-2 segment, tombstones dropped.
pub open spec fn spec_after_compact1(v: StoreV) -> StoreV {
    StoreV { l1: v.l1.skip(10), l2: v.l2.push(keep_sets(spec_merge(v.l1.take(10)))), ..v }
}

/// Where a linear scan stops is where `merge_rec` acts.
proof fn lemma_merge_rec_at(acc: Seq<RecV>, r: RecV, pos: int)
    requires
        0 <= pos <= acc.len(),
        forall|j: int| 0 <= j < pos ==> lex_lt((#[trigger] acc[j]).key, r.key),
        pos < acc.len() ==> !lex_lt(acc[pos].key, r.key),
    ensures
        merge_rec(acc, r) == if pos < acc.len() && acc[pos].key == r.key {
            if r.seq > acc[pos].seq {
                acc.take(pos) + seq![r] + acc.skip(pos + 1)
            } else {
                acc
            }
        } else {
            acc.take(pos) + seq![r] + acc.skip(pos)
        },
    decreases pos,
{
    if pos == 0 {
        if acc.len() == 0 {
            assert(merge_rec(acc, r) =~= acc.take(0) + seq![r] + acc.skip(0));
        } else if acc[0].key == r.key {
            if r.seq > acc[0].seq {
                assert(merge_rec(acc, r) =~= acc.take(0) + seq![r] + acc.skip(1));
            }
        } else {
            assert(lex_lt(r.key, acc[0].key)) by {
                if !lex_lt(r.key, acc[0].key) {
                    lemma_lex_lt_connected(r.key, acc[0].key);
                }
            }
            assert(merge_rec(acc, r) =~= acc.take(0) + seq![r] + acc.skip(0));
        }
    } else {
        assert(lex_lt(acc[0].key, r.key));
        assert(!lex_lt(r.key, acc[0].key)) by {
            crate::order::lemma_lex_lt_asymmetric(acc[0].key, r.key);
        }
        assert(acc[0].key != r.key) by {
            crate::order::lemma_lex_lt_irrefl(acc[0].key);
        }
        let a1 = acc.skip(1);
        assert(forall|j: int| 0 <= j < pos - 1 ==> lex_lt((#[trigger] a1[j]).key, r.key));
        lemma_merge_rec_at(a1, r, pos - 1);
        assert(merge_rec(acc, r) == seq![acc[0]] + merge_rec(a1, r));
        if pos < acc.len() && acc[pos].key == r.key {
            assert(a1[pos - 1].key == r.key);
            if r.seq > acc[pos as int].seq {
                assert(seq![acc[0]] + (a1.take(pos - 1) + seq![r] + a1.skip(pos)) =~= acc.take(
                    pos,
                ) + seq![r] + acc.skip(pos + 1));
            } else {
                assert(seq![acc[0]] + a1 =~= acc);
            }
        } else {
            assert(seq![acc[0]] + (a1.take(pos - 1) + seq![r] + a1.skip(pos - 1)) =~= acc.take(
                pos,
            ) + seq![r] + acc.skip(pos));
        }
    }
}

/// Everything in a merge accumulator came from the inputs folded so far.
proof fn lemma_merge_rec_entries(acc: Seq<RecV>, r: RecV)
    ensures
        forall|j: int|
            0 <= j < merge_rec(acc, r).len() ==> (#[trigger] merge_rec(acc, r)[j] == r || exists|
                m: int,
            | 0 <= m < acc.len() && acc[m] == merge_rec(acc, r)[j]),
        merge_rec(acc, r).len() <= acc.len() + 1,
        spec_recs_size(merge_rec(acc, r)) <= spec_recs_size(acc) + 17 + r.key.len()
            + r.value.len(),
    decreases acc.len(),
{
    let res = merge_rec(acc, r);
    if acc.len() == 0 {
        assert(spec_recs_size(seq![r]) == 17 + r.key.len() + r.value.len() + spec_recs_size(
            seq![r].skip(1),
        ));
        assert(seq![r].skip(1) =~= Seq::<RecV>::empty());
    } else if lex_lt(r.key, acc[0].key) {
        assert forall|j: int| 0 <= j < res.len() && res[j] != r implies exists|m: int|
            0 <= m < acc.len() && acc[m] == res[j] by {
            assert(acc[j - 1] == res[j]);
        }
        assert((seq![r] + acc).skip(1) =~= acc);
        assert(spec_recs_size(res) == 17 + r.key.len() + r.value.len() + spec_recs_size(acc));
    } else if r.key == acc[0].key {
        if r.seq > acc[0].seq {
            assert forall|j: int| 0 <= j < res.len() && res[j] != r implies exists|m: int|
                0 <= m < acc.len() && acc[m] == res[j] by {
                assert(acc[j] == res[j]);
            }
            assert((seq![r] + acc.skip(1)).skip(1) =~= acc.skip(1));
            assert(spec_recs_size(res) == 17 + r.key.len() + r.value.len() + spec_recs_size(
                acc.skip(1),
            ));
            lemma_recs_size_skip(acc);
        } else {
            assert forall|j: int| 0 <= j < res.len() && res[j] != r implies exists|m: int|
                0 <= m < acc.len() && acc[m] == res[j] by {
                assert(acc[j] == res[j]);
            }
        }
    } else {
        lemma_merge_rec_entries(acc.skip(1), r);
        let r1 = merge_rec(acc.skip(1), r);
        assert forall|j: int| 0 <= j < res.len() && res[j] != r implies exists|m: int|
            0 <= m < acc.len() && acc[m] == res[j] by {
            if j == 0 {
                assert(acc[0] == res[0]);
            } else {
                assert(res[j] == r1[j - 1]);
                let m = choose|m: int| 0 <= m < acc.skip(1).len() && acc.skip(1)[m] == r1[j - 1];
                assert(acc[m + 1] == res[j]);
            }
        }
        assert((seq![acc[0]] + r1).skip(1) =~= r1);
        assert(spec_recs_size(res) == 17 + acc[0].key.len() + acc[0].value.len() + spec_recs_size(
            r1,
        ));
        assert(spec_recs_size(acc) == 17 + acc[0].key.len() + acc[0].value.len() + spec_recs_size(
            acc.skip(1),
        ));
    }
}

/// The first record never increases a list's total size when removed.
proof fn lemma_recs_size_skip(rs: Seq<RecV>)
    requires
        rs.len() > 0,
    ensures
        spec_recs_size(rs.skip(1)) <= spec_recs_size(rs),
{
}

/// Everything in a merged segment came from one of the input segments, and
/// the totals are bounded by the inputs' totals.
proof fn lemma_merge_seg_entries(acc: Seq<RecV>, rs: Seq<RecV>)
    ensures
        forall|j: int|
            0 <= j < merge_seg(acc, rs).len() ==> ((exists|m: int|
                0 <= m < acc.len() && acc[m] == #[trigger] merge_seg(acc, rs)[j]) || (exists|
                m: int,
            | 0 <= m < rs.len() && rs[m] == merge_seg(acc, rs)[j])),
        merge_seg(acc, rs).len() <= acc.len() + rs.len(),
        spec_recs_size(merge_seg(acc, rs)) <= spec_recs_size(acc) + spec_recs_size(rs),
    decreases rs.len(),
{
    if rs.len() == 0 {
        assert forall|j: int| 0 <= j < merge_seg(acc, rs).len() implies (exists|m: int|
            0 <= m < acc.len() && acc[m] == #[trigger] merge_seg(acc, rs)[j]) by {
            assert(merge_seg(acc, rs) == acc);
            assert(0 <= j < acc.len() && acc[j] == merge_seg(acc, rs)[j]);
        }
    } else {
        let acc1 = merge_rec(acc, rs[0]);
        lemma_merge_rec_entries(acc, rs[0]);
        lemma_merge_seg_entries(acc1, rs.skip(1));
        let res = merge_seg(acc, rs);
        assert(res == merge_seg(acc1, rs.skip(1)));
        assert forall|j: int| 0 <= j < res.len() implies ((exists|m: int|
            0 <= m < acc.len() && acc[m] == #[trigger] res[j]) || (exists|m: int|
            0 <= m < rs.len() && rs[m] == res[j])) by {
            if exists|m: int| 0 <= m < acc1.len() && acc1[m] == res[j] {
                let m1 = choose|m1: int| 0 <= m1 < acc1.len() && acc1[m1] == res[j];
                if acc1[m1] == rs[0] {
                    assert(rs[0] == res[j]);
                } else {
                    let m0 = choose|m0: int| 0 <= m0 < acc.len() && acc[m0] == acc1[m1];
                    assert(acc[m0] == res[j]);
                }
            } else {
                let m = choose|m: int| 0 <= m < rs.skip(1).len() && rs.skip(1)[m] == res[j];
                assert(rs[m + 1] == res[j]);
            }
        }
        assert(spec_recs_size(rs) == 17 + rs[0].key.len() + rs[0].value.len() + spec_recs_size(
            rs.skip(1),
        ));
    }
}

/// Everything in a level merge came from one of the segments, and the
/// totals are bounded by the level's totals.
pub proof fn lemma_merge_segs_entries(acc: Seq<RecV>, segs: Seq<Seq<RecV>>)
    ensures
        forall|j: int|
            0 <= j < merge_segs(acc, segs).len() ==> ((exists|m: int|
                0 <= m < acc.len() && acc[m] == #[trigger] merge_segs(acc, segs)[j]) || (exists|
                si: int,
                ri: int,
            |
                0 <= si < segs.len() && 0 <= ri < segs[si].len() && segs[si][ri] == merge_segs(
                    acc,
                    segs,
                )[j])),
        merge_segs(acc, segs).len() <= acc.len() + crate::scan::segs_size(segs),
        spec_recs_size(merge_segs(acc, segs)) <= spec_recs_size(acc) + seg_sizes(segs),
    decreases segs.len(),
{
    if segs.len() == 0 {
        assert forall|j: int| 0 <= j < merge_segs(acc, segs).len() implies (exists|m: int|
            0 <= m < acc.len() && acc[m] == #[trigger] merge_segs(acc, segs)[j]) by {
            assert(merge_segs(acc, segs) == acc);
            assert(0 <= j < acc.len() && acc[j] == merge_segs(acc, segs)[j]);
        }
    } else {
        let acc1 = merge_seg(acc, segs[0]);
        lemma_merge_seg_entries(acc, segs[0]);
        lemma_merge_segs_entries(acc1, segs.skip(1));
        let res = merge_segs(acc, segs);
        assert(res == merge_segs(acc1, segs.skip(1)));
        assert forall|j: int| 0 <= j < res.len() implies ((exists|m: int|
            0 <= m < acc.len() && acc[m] == #[trigger] res[j]) || (exists|si: int, ri: int|
            0 <= si < segs.len() && 0 <= ri < segs[si].len() && segs[si][ri] == res[j])) by {
            if exists|m: int| 0 <= m < acc1.len() && acc1[m] == res[j] {
                let m1 = choose|m1: int| 0 <= m1 < acc1.len() && acc1[m1] == res[j];
                if exists|m: int| 0 <= m < acc.len() && acc[m] == acc1[m1] {
                } else {
                    let ri = choose|ri: int|
                        0 <= ri < segs[0].len() && segs[0][ri] == acc1[m1];
                    assert(segs[0][ri] == res[j]);
                }
            } else {
                let (si, ri) = choose|si: int, ri: int|
                    0 <= si < segs.skip(1).len() && 0 <= ri < segs.skip(1)[si].len()
                        && segs.skip(1)[si][ri] == res[j];
                assert(segs[si + 1][ri] == res[j]);
            }
        }
    }
}

/// Total encoded size of a list of segments.
pub open spec fn seg_sizes(segs: Seq<Seq<RecV>>) -> nat
    decreases segs.len(),
{
    if segs.len() == 0 {
        0
    } else {
        spec_recs_size(segs[0]) + seg_sizes(segs.skip(1))
    }
}

/// Fold one record into a sorted merge accumulator.
fn insert_merge(out: &mut Vec<Rec>, r: Rec)
    ensures
        final(out)@.map_values(|x: Rec| x@) == merge_rec(
            old(out)@.map_values(|x: Rec| x@),
            r@,
        ),
{
    let ghost s = out@.map_values(|x: Rec| x@);
    let ghost rv = r@;
    let mut pos: usize = 0;
    loop
        invariant_except_break
            out@.map_values(|x: Rec| x@) == s,
            rv == r@,
            pos <= out@.len(),
            forall|j: int| 0 <= j < pos ==> lex_lt((#[trigger] s[j]).key, rv.key),
        ensures
            out@.map_values(|x: Rec| x@) == s,
            rv == r@,
            pos <= out@.len(),
            forall|j: int| 0 <= j < pos ==> lex_lt((#[trigger] s[j]).key, rv.key),
            pos < out@.len() ==> !lex_lt(s[pos as int].key, rv.key),
        decreases out@.len() - pos,
    {
        if pos >= out.len() {
            break ;
        }
        let below = bytes_lt(&out[pos].key, &r.key);
        proof {
            assert(s[pos as int] == out@[pos as int]@);
        }
        if !below {
            break ;
        }
        pos = pos + 1;
    }
    proof {
        lemma_merge_rec_at(s, rv, pos as int);
    }
    if pos < out.len() && bytes_eq(&out[pos].key, &r.key) {
        proof {
            assert(s[pos as int].key == rv.key);
        }
        if r.seq > out[pos].seq {
            out[pos] = r;
            proof {
                assert(out@.map_values(|x: Rec| x@) =~= s.take(pos as int) + seq![rv] + s.skip(
                    pos as int + 1,
                ));
            }
        } else {
            proof {
                assert(out@.map_values(|x: Rec| x@) =~= s);
            }
        }
    } else {
        proof {
            if pos < out@.len() {
                assert(s[pos as int].key != rv.key);
            }
        }
        out.insert(pos, r);
        proof {
            assert(out@.map_values(|x: Rec| x@) =~= s.take(pos as int) + seq![rv] + s.skip(
                pos as int,
            ));
        }
    }
}

impl Store {
    /// Merge the oldest `count` segments at the front of one level into a
    /// single record list.
    fn merge_front(segs: &Vec<Segment>, count: usize) -> (out: Vec<Rec>)
        requires
            count <= segs@.len(),
            forall|i: int| 0 <= i < segs@.len() ==> (#[trigger] segs@[i]).wf(),
        ensures
            out@.map_values(|x: Rec| x@) == spec_merge(
                segs@.map_values(|s: Segment| s.recs()).take(count as int),
            ),
    {
        let ghost lv = segs@.map_values(|s: Segment| s.recs()).take(count as int);
        let mut out: Vec<Rec> = Vec::new();
        let mut si: usize = 0;
        proof {
            assert(lv.skip(0) =~= lv);
            assert(out@.map_values(|x: Rec| x@) =~= Seq::<RecV>::empty());
        }
        while si < count
            invariant
                count <= segs@.len(),
                forall|i: int| 0 <= i < segs@.len() ==> (#[trigger] segs@[i]).wf(),
                lv == segs@.map_values(|s: Segment| s.recs()).take(count as int),
                si <= count,
                spec_merge(lv) == merge_segs(out@.map_values(|x: Rec| x@), lv.skip(si as int)),
            decreases count - si,
        {
            proof {
                assert(lv.skip(si as int)[0] == lv[si as int]);
                assert(lv.skip(si as int).skip(1) =~= lv.skip(si + 1));
                assert(lv[si as int] == segs@[si as int].recs());
            }
            let ghost rs = segs@[si as int].recs();
            let ghost base = out@.map_values(|x: Rec| x@);
            let mut ri: usize = 0;
            proof {
                assert(rs.skip(0) =~= rs);
            }
            while ri < segs[si].records.len()
                invariant
                    count <= segs@.len(),
                    si < count,
                    forall|i: int| 0 <= i < segs@.len() ==> (#[trigger] segs@[i]).wf(),
                    rs == segs@[si as int].recs(),
                    ri <= segs@[si as int].records.len(),
                    merge_seg(base, rs) == merge_seg(
                        out@.map_values(|x: Rec| x@),
                        rs.skip(ri as int),
                    ),
                decreases segs@[si as int].records@.len() - ri,
            {
                proof {
                    assert(rs.skip(ri as int)[0] == rs[ri as int]);
                    assert(rs.skip(ri as int).skip(1) =~= rs.skip(ri + 1));
                    assert(rs[ri as int] == segs@[si as int].records@[ri as int]@);
                }
                insert_merge(&mut out, segs[si].records[ri].duplicate());
                ri = ri + 1;
            }
            proof {
                assert(rs.skip(ri as int).len() == 0);
            }
            si = si + 1;
        }
        proof {
            assert(lv.skip(si as int).len() == 0);
        }
        out
    }

    /// When level 0 holds at least four segments, merge the oldest four
    /// into one new level-1 segment, queue its file and manifest line,
    /// and queue the four input files for deletion. Does nothing and
    /// reports `false` below the threshold.
    pub fn compact_l0_to_l1(&mut self) -> (r: Result<bool, WalDBError>)
        requires
            old(self).wf(),
        ensures
            final(self).wf(),
            match r {
                Ok(did) => if !did {
                    old(self)@.l0.len() < 4 && final(self)@ == old(self)@
                        && final(self).new_files@ == old(self).new_files@
                        && final(self).manifest_tail@ == old(self).manifest_tail@
                        && final(self).dead_files@ == old(self).dead_files@
                } else {
                    &&& old(self)@.l0.len() >= 4
                    &&& final(self)@ == spec_after_compact0(old(self)@)
                    &&& final(self).new_files@.len() == old(self).new_files@.len() + 1
                    &&& forall|i: int|
                        0 <= i < old(self).new_files@.len() ==> final(self).new_files@[i]
                            == old(self).new_files@[i]
                    &&& final(self).new_files@.last().0@ == spec_seg_filename(
                        1,
                        recs_max_seq(spec_merge(old(self)@.l0.take(4))),
                    )
                    &&& (spec_open_segment(final(self).new_files@.last().1@) matches Some(img)
                        && img.records == spec_merge(old(self)@.l0.take(4)))
                    &&& final(self).manifest_tail@ == old(self).manifest_tail@
                        + spec_manifest_line(
                        ManifestEntryV {
                            seq_high: recs_max_seq(spec_merge(old(self)@.l0.take(4))),
                            level: 1,
                            filename: spec_seg_filename(
                                1,
                                recs_max_seq(spec_merge(old(self)@.l0.take(4))),
                            ),
                        },
                    )
                    &&& final(self).dead_files@.len() == old(self).dead_files@.len() + 4
                    &&& forall|m: int|
                        0 <= m < old(self).dead_files@.len() ==> final(self).dead_files@[m]
                            == old(self).dead_files@[m]
                    &&& forall|m: int|
                        0 <= m < 4 ==> final(self).dead_files@[old(self).dead_files@.len() + m]
                            == old(self).l0@[m].name
                },
                Err(e) => e is ResourceExhausted && final(self)@ == old(self)@
                    && final(self).new_files@ == old(self).new_files@
                    && final(self).manifest_tail@ == old(self).manifest_tail@
                    && final(self).dead_files@ == old(self).dead_files@,
            },
            old(self)@.l0.len() < 4 ==> r is Ok,
            (old(self)@.l0.len() >= 4 && spec_merge(old(self)@.l0.take(4)).len() <= 0x100000
                && spec_recs_size(spec_merge(old(self)@.l0.take(4))) <= 0x4000_0000) ==> r is Ok,
    {
        if self.l0.len() < 4 {
            return Ok(false);
        }
        let ghost pre = self@;
        let merged = Store::merge_front(&self.l0, 4);
        let ghost mv = merged@.map_values(|x: Rec| x@);
        proof {
            assert(self.l0@.map_values(|s: Segment| s.recs()).take(4) =~= pre.l0.take(4));
            lemma_merge_segs_entries(Seq::empty(), pre.l0.take(4));
            assert forall|j: int| 0 <= j < mv.len() implies seg_rec_ok(#[trigger] mv[j])
                && mv[j].seq <= pre.seq by {
                let (si, ri) = choose|si: int, ri: int|
                    0 <= si < pre.l0.take(4).len() && 0 <= ri < pre.l0.take(4)[si].len()
                        && pre.l0.take(4)[si][ri] == mv[j];
                assert(pre.l0.take(4)[si] == pre.l0[si]);
                assert(all_segs(pre)[si] == pre.l0[si]);
                assert(seg_rec_ok(all_segs(pre)[si][ri]));
            }
            assert forall|j: int| 0 <= j < merged@.len() implies seg_rec_ok(
                #[trigger] merged@[j]@,
            ) by {
                assert(merged@[j]@ == mv[j]);
            }
            crate::laws::lemma_merge_sorted(pre.l0.take(4));
            assert(merged@.map_values(|x: Rec| x@) == mv);
        }
        let (mut seg, bytes) = match build_segment(Vec::new(), merged) {
            Ok(p) => p,
            Err(e) => {
                return Err(e);
            },
        };
        let name = seg_filename(1, seg.seq_high);
        seg.name = clone_bytes(&name);
        let entry = ManifestEntry { seq_high: seg.seq_high, level: 1, filename: clone_bytes(&name) };
        let mut line = format_manifest_entry(&entry);
        self.manifest_tail.append(&mut line);
        self.new_files.push((name, bytes));
        let ghost nfmid = self.new_files@;
        let ghost mtmid = self.manifest_tail@;
        proof {
            assert(seg.seq_high == recs_max_seq(mv));
            assert(nfmid.last().0@ == spec_seg_filename(1, recs_max_seq(mv)));
            assert(mtmid =~= old(self).manifest_tail@ + spec_manifest_line(
                ManifestEntryV {
                    seq_high: recs_max_seq(mv),
                    level: 1,
                    filename: spec_seg_filename(1, recs_max_seq(mv)),
                },
            ));
            assert(forall|i: int|
                0 <= i < old(self).new_files@.len() ==> nfmid[i] == old(self).new_files@[i]);
        }
        let mut k: usize = 0;
        proof {
            assert(pre.l0.skip(0) =~= pre.l0);
        }
        while k < 4
            invariant
                k <= 4,
                pre.l0.len() >= 4,
                self.new_files@ == nfmid,
                self.manifest_tail@ == mtmid,
                forall|i: int| 0 <= i < self.l0@.len() ==> #[trigger] self.l0@[i] == old(
                    self,
                ).l0@[i + k],
                forall|m: int|
                    0 <= m < old(self).dead_files@.len() ==> #[trigger] self.dead_files@[m]
                        == old(self).dead_files@[m],
                forall|m: int|
                    0 <= m < k ==> #[trigger] self.dead_files@[old(self).dead_files@.len() + m]
                        == old(self).l0@[m].name,
                self@.l0 == pre.l0.skip(k as int),
                self@.seq == pre.seq,
                self@.mem == pre.mem,
                self@.tombs == pre.tombs,
                self@.l1 == pre.l1,
                self@.l2 == pre.l2,
                self@.wal == pre.wal,
                self.dead_files@.len() == old(self).dead_files@.len() + k,
                self.memtable.wf(),
                forall|i: int| 0 <= i < self.l0@.len() ==> (#[trigger] self.l0@[i]).wf()
                    && self.l0@[i].seq_high <= self.seq,
                forall|i: int| 0 <= i < self.l1@.len() ==> (#[trigger] self.l1@[i]).wf()
                    && self.l1@[i].seq_high <= self.seq,
                forall|i: int| 0 <= i < self.l2@.len() ==> (#[trigger] self.l2@[i]).wf()
                    && self.l2@[i].seq_high <= self.seq,
            decreases 4 - k,
        {
            let ghost l0pre = self.l0@;
            let ghost vl0pre = self@.l0;
            proof {
                assert(vl0pre == l0pre.map_values(|s: Segment| s.recs()));
                assert(l0pre.len() == vl0pre.len());
                assert(vl0pre.len() == pre.l0.skip(k as int).len());
                assert(pre.l0.skip(k as int).len() == pre.l0.len() - k);
            }
            let ghost deadpre = self.dead_files@;
            let dead = self.l0.remove(0);
            proof {
                assert(dead == l0pre[0]);
                assert(dead == old(self).l0@[k as int]);
            }
            self.dead_files.push(dead.name);
            proof {
                assert(self.dead_files@ =~= deadpre.push(old(self).l0@[k as int].name));
                assert(self.l0@ =~= l0pre.skip(1));
                assert forall|i: int| 0 <= i < self.l0@.len() implies (#[trigger] self.l0@[i]).wf()
                    && self.l0@[i].seq_high <= self.seq && self@.l0[i] == vl0pre[i + 1]
                    && self.l0@[i] == old(self).l0@[i + k + 1] by {
                    assert(self.l0@[i] == l0pre[i + 1]);
                    assert(vl0pre[i + 1] == l0pre[i + 1].recs());
                }
                assert(self@.l0 =~= vl0pre.skip(1));
                assert(vl0pre.skip(1) =~= pre.l0.skip(k + 1));
            }
            k = k + 1;
        }
        let ghost mid = self@;
        let ghost sh = seg.seq_high;
        proof {
            crate::segment::lemma_recs_max_seq_bound(mv);
            assert(wf_v(mid)) by {
                assert forall|si: int, ri: int|
                    0 <= si < all_segs(mid).len() && 0 <= ri < all_segs(mid)[si].len() implies {
                    &&& (#[trigger] all_segs(mid)[si][ri]).seq <= mid.seq
                    &&& seg_rec_ok(all_segs(mid)[si][ri])
                } by {
                    if si < mid.l0.len() {
                        assert(all_segs(mid)[si] == mid.l0[si]);
                        assert(mid.l0[si] == all_segs(pre)[si + 4]);
                    } else {
                        assert(all_segs(mid)[si] == all_segs(pre)[si + 4]);
                    }
                }
            }
            crate::lifecycle::lemma_recs_max_seq_le(mv, pre.seq);
        }
        self.l1.push(seg);
        proof {
            assert(self@.l1 =~= mid.l1.push(mv));
            assert(self@ == spec_after_compact0(pre));
            lemma_push_seg_wf(mid, self@, mv, 1);
        }
        Ok(true)
    }

    /// When level 1 holds at least ten segments, merge the oldest ten into
    /// one new level-2 segment with point tombstones dropped, queue its
    /// file and manifest line, and queue the ten input files for deletion.
    /// Does nothing and reports `false` below the threshold.
    pub fn compact_l1_to_l2(&mut self) -> (r: Result<bool, WalDBError>)
        requires
            old(self).wf(),
        ensures
            final(self).wf(),
            match r {
                Ok(did) => if !did {
                    old(self)@.l1.len() < 10 && final(self)@ == old(self)@
                        && final(self).new_files@ == old(self).new_files@
                        && final(self).manifest_tail@ == old(self).manifest_tail@
                        && final(self).dead_files@ == old(self).dead_files@
                } else {
                    &&& old(self)@.l1.len() >= 10
                    &&& final(self)@ == spec_after_compact1(old(self)@)
                    &&& final(self).new_files@.len() == old(self).new_files@.len() + 1
                    &&& forall|i: int|
                        0 <= i < old(self).new_files@.len() ==> final(self).new_files@[i]
                            == old(self).new_files@[i]
                    &&& final(self).new_files@.last().0@ == spec_seg_filename(
                        2,
                        recs_max_seq(keep_sets(spec_merge(old(self)@.l1.take(10)))),
                    )
                    &&& (spec_open_segment(final(self).new_files@.last().1@) matches Some(img)
                        && img.records == keep_sets(spec_merge(old(self)@.l1.take(10))))
                    &&& final(self).manifest_tail@ == old(self).manifest_tail@
                        + spec_manifest_line(
                        ManifestEntryV {
                            seq_high: recs_max_seq(keep_sets(spec_merge(old(self)@.l1.take(10)))),
                            level: 2,
                            filename: spec_seg_filename(
                                2,
                                recs_max_seq(keep_sets(spec_merge(old(self)@.l1.take(10)))),
                            ),
                        },
                    )
                    &&& final(self).dead_files@.len() == old(self).dead_files@.len() + 10
                    &&& forall|m: int|
                        0 <= m < old(self).dead_files@.len() ==> final(self).dead_files@[m]
                            == old(self).dead_files@[m]
                    &&& forall|m: int|
                        0 <= m < 10 ==> final(self).dead_files@[old(self).dead_files@.len() + m]
                            == old(self).l1@[m].name
                },
                Err(e) => e is ResourceExhausted && final(self)@ == old(self)@
                    && final(self).new_files@ == old(self).new_files@
                    && final(self).manifest_tail@ == old(self).manifest_tail@
                    && final(self).dead_files@ == old(self).dead_files@,
            },
            old(self)@.l1.len() < 10 ==> r is Ok,
            (old(self)@.l1.len() >= 10 && keep_sets(spec_merge(old(self)@.l1.take(10))).len()
                <= 0x100000 && spec_recs_size(keep_sets(spec_merge(old(self)@.l1.take(10))))
                <= 0x4000_0000) ==> r is Ok,
    {
        if self.l1.len() < 10 {
            return Ok(false);
        }
        let ghost pre = self@;
        let merged_all = Store::merge_front(&self.l1, 10);
        let ghost mv_all = merged_all@.map_values(|x: Rec| x@);
        proof {
            assert(self.l1@.map_values(|s: Segment| s.recs()).take(10) =~= pre.l1.take(10));
        }
        let mut merged: Vec<Rec> = Vec::new();
        let mut i: usize = 0;
        proof {
            reveal(Seq::filter);
            assert(keep_sets(mv_all.take(0)) =~= Seq::<RecV>::empty());
            assert(merged@.map_values(|x: Rec| x@) =~= keep_sets(mv_all.take(0)));
        }
        while i < merged_all.len()
            invariant
                mv_all == merged_all@.map_values(|x: Rec| x@),
                i <= merged_all@.len(),
                merged@.map_values(|x: Rec| x@) == keep_sets(mv_all.take(i as int)),
            decreases merged_all@.len() - i,
        {
            proof {
                assert(mv_all[i as int] == merged_all@[i as int]@);
                reveal(Seq::filter);
                assert(mv_all.take(i + 1).drop_last() =~= mv_all.take(i as int));
                assert(mv_all.take(i + 1).last() == mv_all[i as int]);
            }
            let ghost premerged = merged@;
            if merged_all[i].kind == RT_SET {
                merged.push(merged_all[i].duplicate());
                proof {
                    assert(merged@.map_values(|x: Rec| x@) =~= premerged.map_values(
                        |x: Rec| x@,
                    ) + seq![mv_all[i as int]]);
                }
            }
            i = i + 1;
        }
        proof {
            assert(mv_all.take(i as int) =~= mv_all);
        }
        let ghost mv = keep_sets(mv_all);
        proof {
            lemma_merge_segs_entries(Seq::empty(), pre.l1.take(10));
            lemma_filter_sub(mv_all);
            assert forall|j: int| 0 <= j < mv.len() implies seg_rec_ok(#[trigger] mv[j])
                && mv[j].seq <= pre.seq by {
                assert(keep_sets(mv_all)[j] == mv[j]);
                let m = choose|m: int| 0 <= m < mv_all.len() && mv_all[m] == mv[j];
                assert(mv_all == merge_segs(Seq::<RecV>::empty(), pre.l1.take(10)));
                assert(merge_segs(Seq::<RecV>::empty(), pre.l1.take(10))[m] == mv_all[m]);
                let (si, ri) = choose|si: int, ri: int|
                    0 <= si < pre.l1.take(10).len() && 0 <= ri < pre.l1.take(10)[si].len()
                        && pre.l1.take(10)[si][ri] == mv_all[m];
                assert(pre.l1.take(10)[si] == pre.l1[si]);
                assert(all_segs(pre)[pre.l0.len() + si] == pre.l1[si]);
                assert(seg_rec_ok(all_segs(pre)[pre.l0.len() + si][ri]));
            }
            assert forall|j: int| 0 <= j < merged@.len() implies seg_rec_ok(
                #[trigger] merged@[j]@,
            ) by {
                assert(merged@[j]@ == mv[j]);
            }
            crate::laws::lemma_merge_sorted(pre.l1.take(10));
            crate::laws::lemma_keep_sets_sorted(mv_all);
            assert(merged@.map_values(|x: Rec| x@) == mv);
        }
        let (mut seg, bytes) = match build_segment(Vec::new(), merged) {
            Ok(p) => p,
            Err(e) => {
                return Err(e);
            },
        };
        let name = seg_filename(2, seg.seq_high);
        seg.name = clone_bytes(&name);
        let entry = ManifestEntry { seq_high: seg.seq_high, level: 2, filename: clone_bytes(&name) };
        let mut line = format_manifest_entry(&entry);
        self.manifest_tail.append(&mut line);
        self.new_files.push((name, bytes));
        let ghost nfmid = self.new_files@;
        let ghost mtmid = self.manifest_tail@;
        proof {
            assert(seg.seq_high == recs_max_seq(mv));
            assert(nfmid.last().0@ == spec_seg_filename(2, recs_max_seq(mv)));
            assert(mtmid =~= old(self).manifest_tail@ + spec_manifest_line(
                ManifestEntryV {
                    seq_high: recs_max_seq(mv),
                    level: 2,
                    filename: spec_seg_filename(2, recs_max_seq(mv)),
                },
            ));
            assert(forall|i: int|
                0 <= i < old(self).new_files@.len() ==> nfmid[i] == old(self).new_files@[i]);
        }
        let mut k: usize = 0;
        proof {
            assert(pre.l1.skip(0) =~= pre.l1);
        }
        while k < 10
            invariant
                k <= 10,
                pre.l1.len() >= 10,
                self.new_files@ == nfmid,
                self.manifest_tail@ == mtmid,
                forall|i: int| 0 <= i < self.l1@.len() ==> #[trigger] self.l1@[i] == old(
                    self,
                ).l1@[i + k],
                forall|m: int|
                    0 <= m < old(self).dead_files@.len() ==> #[trigger] self.dead_files@[m]
                        == old(self).dead_files@[m],
                forall|m: int|
                    0 <= m < k ==> #[trigger] self.dead_files@[old(self).dead_files@.len() + m]
                        == old(self).l1@[m].name,
                self@.l1 == pre.l1.skip(k as int),
                self@.seq == pre.seq,
                self@.mem == pre.mem,
                self@.tombs == pre.tombs,
                self@.l0 == pre.l0,
                self@.l2 == pre.l2,
                self@.wal == pre.wal,
                self.dead_files@.len() == old(self).dead_files@.len() + k,
                self.memtable.wf(),
                forall|i2: int| 0 <= i2 < self.l0@.len() ==> (#[trigger] self.l0@[i2]).wf()
                    && self.l0@[i2].seq_high <= self.seq,
                forall|i2: int| 0 <= i2 < self.l1@.len() ==> (#[trigger] self.l1@[i2]).wf()
                    && self.l1@[i2].seq_high <= self.seq,
                forall|i2: int| 0 <= i2 < self.l2@.len() ==> (#[trigger] self.l2@[i2]).wf()
                    && self.l2@[i2].seq_high <= self.seq,
            decreases 10 - k,
        {
            let ghost l1pre = self.l1@;
            let ghost vl1pre = self@.l1;
            proof {
                assert(vl1pre == l1pre.map_values(|s: Segment| s.recs()));
                assert(l1pre.len() == vl1pre.len());
                assert(vl1pre.len() == pre.l1.skip(k as int).len());
                assert(pre.l1.skip(k as int).len() == pre.l1.len() - k);
            }
            let ghost deadpre = self.dead_files@;
            let dead = self.l1.remove(0);
            proof {
                assert(dead == l1pre[0]);
                assert(dead == old(self).l1@[k as int]);
            }
            self.dead_files.push(dead.name);
            proof {
                assert(self.dead_files@ =~= deadpre.push(old(self).l1@[k as int].name));
                assert(self.l1@ =~= l1pre.skip(1));
                assert forall|i2: int|
                    0 <= i2 < self.l1@.len() implies (#[trigger] self.l1@[i2]).wf()
                    && self.l1@[i2].seq_high <= self.seq && self@.l1[i2] == vl1pre[i2 + 1]
                    && self.l1@[i2] == old(self).l1@[i2 + k + 1] by {
                    assert(self.l1@[i2] == l1pre[i2 + 1]);
                    assert(vl1pre[i2 + 1] == l1pre[i2 + 1].recs());
                }
                assert(self@.l1 =~= vl1pre.skip(1));
                assert(vl1pre.skip(1) =~= pre.l1.skip(k + 1));
            }
            k = k + 1;
        }
        let ghost mid = self@;
        proof {
            crate::segment::lemma_recs_max_seq_bound(mv);
            assert(wf_v(mid)) by {
                assert forall|si: int, ri: int|
                    0 <= si < all_segs(mid).len() && 0 <= ri < all_segs(mid)[si].len() implies {
                    &&& (#[trigger] all_segs(mid)[si][ri]).seq <= mid.seq
                    &&& seg_rec_ok(all_segs(mid)[si][ri])
                } by {
                    if si < mid.l0.len() {
                        assert(all_segs(mid)[si] == all_segs(pre)[si]);
                    } else {
                        assert(all_segs(mid)[si] == all_segs(pre)[si + 10]);
                    }
                }
            }
            crate::lifecycle::lemma_recs_max_seq_le(mv, pre.seq);
        }
        self.l2.push(seg);
        proof {
            assert(self@.l2 =~= mid.l2.push(mv));
            assert(self@ == spec_after_compact1(pre));
            lemma_push_seg_wf(mid, self@, mv, 2);
        }
        Ok(true)
    }
}

/// Everything a filter keeps was in the list.
pub proof fn lemma_filter_sub(rs: Seq<RecV>)
    ensures
        forall|j: int|
            0 <= j < keep_sets(rs).len() ==> exists|m: int|
                0 <= m < rs.len() && rs[m] == #[trigger] keep_sets(rs)[j],
    decreases rs.len(),
{
    reveal(Seq::filter);
    if rs.len() > 0 {
        lemma_filter_sub(rs.drop_last());
        let f = keep_sets(rs);
        let f0 = keep_sets(rs.drop_last());
        assert forall|j: int| 0 <= j < f.len() implies exists|m: int|
            0 <= m < rs.len() && rs[m] == #[trigger] f[j] by {
            if j < f0.len() {
                let m = choose|m: int| 0 <= m < rs.drop_last().len() && rs.drop_last()[m] == f0[j];
                assert(rs[m] == f[j]);
            } else {
                assert(f[j] == rs.last());
                assert(rs[rs.len() - 1] == f[j]);
            }
        }
    }
}

} // verus!
