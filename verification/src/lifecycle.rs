//! Flushing, durability hand-off, and startup recovery.
//!
//! A flush drains the memtable into one new newest level-0 segment and
//! queues its file image and manifest line for the caller. The caller
//! drains the queued write-ahead-log bytes, new files, manifest bytes and
//! obsolete file names, performs the writes and deletions, and at startup
//! hands the directory's bytes back to [`Store::open_image`], which
//! rebuilds exactly the state those bytes describe.

use vstd::prelude::*;

use crate::errors::WalDBError;
use crate::manifest::{
    format_manifest_entry, parse_manifest, seg_filename, spec_manifest_line, spec_parse_manifest,
    spec_seg_filename, ManifestEntry, ManifestEntryV,
};
use crate::memtable::{MemValue, MemValV};
use crate::rec::{clone_bytes, Rec, RecV, RT_DEL_POINT, RT_DEL_SUB, RT_SET};
use crate::segcodec::{build_segment, open_segment, spec_open_segment, spec_recs_size};
use crate::segment::{recs_max_seq, lemma_recs_max_seq_bound, seg_rec_ok};
use crate::store::{
    all_segs, mem_entry_len, mem_entry_seq, mem_recs, spec_after_flush, wf_v, Store, StoreV,
};
use crate::walcodec::{
    encode_wal_record, lemma_frames_take, lemma_replay_recs_ok, spec_frames, spec_wal_replay,
    wal_rec_ok, wal_replay,
};

verus! {

/// A maximum is bounded by any bound on its elements.
pub proof fn lemma_recs_max_seq_le(rs: Seq<RecV>, s: u64)
    requires
        forall|i: int| 0 <= i < rs.len() ==> (#[trigger] rs[i]).seq <= s,
    ensures
        recs_max_seq(rs) <= s || rs.len() == 0,
    decreases rs.len(),
{
    if rs.len() > 0 {
        assert forall|i: int| 0 <= i < rs.skip(1).len() implies (#[trigger] rs.skip(1)[i]).seq
            <= s by {
            assert(rs.skip(1)[i] == rs[i + 1]);
        }
        lemma_recs_max_seq_le(rs.skip(1), s);
        assert(rs[0].seq <= s);
        if rs.skip(1).len() == 0 {
            assert(recs_max_seq(rs.skip(1)) == 0);
        }
        assert(recs_max_seq(rs.skip(1)) <= s);
        assert(recs_max_seq(rs) == if rs[0].seq >= recs_max_seq(rs.skip(1)) {
            rs[0].seq
        } else {
            recs_max_seq(rs.skip(1))
        });
    }
}

/// Appending one well-formed segment to a level preserves the store
/// bounds, provided its stamps stay within the new `seq`.
pub proof fn lemma_push_seg_wf(pre: StoreV, post: StoreV, recs: Seq<RecV>, level: int)
    requires
        wf_v(pre),
        post.seq >= pre.seq,
        forall|i: int|
            0 <= i < recs.len() ==> seg_rec_ok(#[trigger] recs[i]) && recs[i].seq <= post.seq,
        post.mem == pre.mem || post.mem.len() == 0,
        post.tombs == pre.tombs,
        post.wal == pre.wal,
        level == 0 ==> post.l0 == pre.l0.push(recs) && post.l1 == pre.l1 && post.l2 == pre.l2,
        level == 1 ==> post.l1 == pre.l1.push(recs) && post.l0 == pre.l0 && post.l2 == pre.l2,
        level == 2 ==> post.l2 == pre.l2.push(recs) && post.l0 == pre.l0 && post.l1 == pre.l1,
        level == 0 || level == 1 || level == 2,
    ensures
        wf_v(post),
{
    let a = all_segs(pre);
    let b = all_segs(post);
    assert forall|si: int, ri: int|
        0 <= si < b.len() && 0 <= ri < b[si].len() implies {
        &&& (#[trigger] b[si][ri]).seq <= post.seq
        &&& seg_rec_ok(b[si][ri])
    } by {
        if level == 0 {
            if si < pre.l0.len() {
                assert(b[si] == a[si]);
            } else if si == pre.l0.len() {
                assert(b[si] == recs);
            } else {
                assert(b[si] == a[si - 1]);
            }
        } else if level == 1 {
            if si < pre.l0.len() + pre.l1.len() {
                assert(b[si] == a[si]);
            } else if si == pre.l0.len() + pre.l1.len() {
                assert(b[si] == recs);
            } else {
                assert(b[si] == a[si - 1]);
            }
        } else {
            if si < a.len() {
                assert(b[si] == a[si]);
            } else {
                assert(b[si] == recs);
            }
        }
    }
    assert forall|i: int| 0 <= i < post.mem.len() implies {
        &&& mem_entry_seq(#[trigger] post.mem[i].1) <= post.seq
        &&& post.mem[i].0.len() + mem_entry_len(post.mem[i].1) + 17 <= u32::MAX
    } by {
        assert(post.mem == pre.mem);
        assert(mem_entry_seq(pre.mem[i].1) <= pre.seq);
    }
}

impl Store {
    /// Drain the memtable into one new newest level-0 segment, queueing
    /// its file image and manifest line for the caller. Flushing an empty
    /// memtable changes nothing. Fails, changing nothing, only when the
    /// segment image would overflow the format's size fields.
    pub fn flush(&mut self) -> (r: Result<(), WalDBError>)
        requires
            old(self).wf(),
        ensures
            final(self).wf(),
            match r {
                Ok(_) => if old(self)@.mem.len() == 0 {
                    final(self)@ == old(self)@ && final(self).new_files@ == old(self).new_files@
                        && final(self).manifest_tail@ == old(self).manifest_tail@
                } else {
                    &&& final(self)@ == spec_after_flush(old(self)@)
                    &&& final(self).new_files@.len() == old(self).new_files@.len() + 1
                    &&& forall|i: int|
                        0 <= i < old(self).new_files@.len() ==> final(self).new_files@[i]
                            == old(self).new_files@[i]
                    &&& final(self).new_files@.last().0@ == spec_seg_filename(
                        0,
                        recs_max_seq(mem_recs(old(self)@.mem)),
                    )
                    &&& (spec_open_segment(final(self).new_files@.last().1@) matches Some(img)
                        && img.records == mem_recs(old(self)@.mem))
                    &&& final(self).manifest_tail@ == old(self).manifest_tail@
                        + spec_manifest_line(
                        ManifestEntryV {
                            seq_high: recs_max_seq(mem_recs(old(self)@.mem)),
                            level: 0,
                            filename: spec_seg_filename(
                                0,
                                recs_max_seq(mem_recs(old(self)@.mem)),
                            ),
                        },
                    )
                },
                Err(e) => e is ResourceExhausted && final(self)@ == old(self)@
                    && final(self).new_files@ == old(self).new_files@
                    && final(self).manifest_tail@ == old(self).manifest_tail@,
            },
            final(self).dead_files@ == old(self).dead_files@,
            (old(self)@.mem.len() <= 0x100000 && spec_recs_size(mem_recs(old(self)@.mem))
                <= 0x4000_0000) ==> r is Ok,
    {
        if self.memtable.is_empty() {
            proof {
                assert(mem_recs(self@.mem).len() == 0);
            }
            return Ok(());
        }
        let ghost pre = self@;
        let mut records: Vec<Rec> = Vec::new();
        let mut i: usize = 0;
        proof {
            assert(records@.map_values(|x: Rec| x@) =~= mem_recs(pre.mem).take(0));
        }
        while i < self.memtable.entries.len()
            invariant
                self.wf(),
                self@ == pre,
                i <= self.memtable.entries.len(),
                records@.map_values(|x: Rec| x@) == mem_recs(pre.mem).take(i as int),
                forall|j: int| 0 <= j < records@.len() ==> seg_rec_ok(#[trigger] records@[j]@),
            decreases self.memtable.entries.len() - i,
        {
            proof {
                assert(pre.mem[i as int] == (self.memtable.entries@[i as int].0@,
                    self.memtable.entries@[i as int].1@));
                assert(mem_entry_seq(pre.mem[i as int].1) <= pre.seq);
                assert(pre.mem[i as int].0.len() + mem_entry_len(pre.mem[i as int].1) + 17
                    <= u32::MAX);
            }
            let ghost prerecs = records@;
            let e = &self.memtable.entries[i];
            match &e.1 {
                MemValue::Scalar(v, s) => {
                    records.push(
                        Rec { kind: RT_SET, key: clone_bytes(&e.0), value: clone_bytes(v), seq: *s },
                    );
                },
                MemValue::PointTomb(s) => {
                    records.push(
                        Rec { kind: RT_DEL_POINT, key: clone_bytes(&e.0), value: Vec::new(), seq: *s },
                    );
                },
            }
            proof {
                assert(records@.map_values(|x: Rec| x@) =~= prerecs.map_values(|x: Rec| x@)
                    + seq![records@[records@.len() - 1]@]);
                assert(mem_recs(pre.mem).take(i + 1) =~= mem_recs(pre.mem).take(i as int) + seq![
                    mem_recs(pre.mem)[i as int],
                ]);
                assert(records@[records@.len() - 1]@ == mem_recs(pre.mem)[i as int]);
            }
            i = i + 1;
        }
        proof {
            assert(mem_recs(pre.mem).take(i as int) =~= mem_recs(pre.mem));
        }
        let ghost rv = mem_recs(pre.mem);
        let (mut seg, bytes) = match build_segment(Vec::new(), records) {
            Ok(p) => p,
            Err(e) => {
                return Err(e);
            },
        };
        let name = seg_filename(0, seg.seq_high);
        seg.name = clone_bytes(&name);
        let entry = ManifestEntry { seq_high: seg.seq_high, level: 0, filename: clone_bytes(&name) };
        let mut line = format_manifest_entry(&entry);
        self.manifest_tail.append(&mut line);
        self.new_files.push((name, bytes));
        proof {
            assert forall|j: int| 0 <= j < rv.len() implies (#[trigger] rv[j]).seq
                <= pre.seq by {
                assert(rv[j] == mem_recs(pre.mem)[j]);
                assert(mem_entry_seq(pre.mem[j].1) <= pre.seq);
            }
            lemma_recs_max_seq_le(rv, pre.seq);
            lemma_recs_max_seq_bound(rv);
        }
        self.l0.push(seg);
        self.memtable.clear();
        self.mem_bytes = 0;
        proof {
            let post = spec_after_flush(pre);
            assert(self@.l0 =~= pre.l0.push(rv));
            assert(self@.mem =~= Seq::<(Seq<u8>, MemValV)>::empty());
            assert(self@ == post);
            lemma_push_seg_wf(pre, self@, rv, 0);
        }
        Ok(())
    }

    /// Hand the queued write-ahead-log bytes to the caller, emptying the
    /// queue. The caller appends them to the log file and syncs it.
    pub fn take_wal_bytes(&mut self) -> (r: Vec<u8>)
        requires
            old(self).wf(),
        ensures
            final(self).wf(),
            r@ == spec_frames(old(self)@.wal),
            final(self)@ == (StoreV { wal: Seq::empty(), ..old(self)@ }),
            final(self).new_files@ == old(self).new_files@,
            final(self).manifest_tail@ == old(self).manifest_tail@,
            final(self).dead_files@ == old(self).dead_files@,
    {
        let ghost wv = self@.wal;
        let mut out: Vec<u8> = Vec::new();
        let mut i: usize = 0;
        proof {
            assert(out@ =~= spec_frames(wv.take(0)));
        }
        while i < self.wal_buf.len()
            invariant
                self.wf(),
                wv == self@.wal,
                i <= self.wal_buf.len(),
                out@ == spec_frames(wv.take(i as int)),
            decreases self.wal_buf.len() - i,
        {
            proof {
                assert(wv[i as int] == self.wal_buf@[i as int]@);
                assert(wal_rec_ok(wv[i as int]));
                lemma_frames_take(wv, i as int);
            }
            let mut frame = encode_wal_record(&self.wal_buf[i]);
            out.append(&mut frame);
            i = i + 1;
        }
        proof {
            assert(wv.take(i as int) =~= wv);
        }
        self.wal_buf.clear();
        proof {
            assert(self@.wal =~= Seq::<RecV>::empty());
            assert(self@ == StoreV { wal: Seq::empty(), ..old(self)@ });
        }
        out
    }

    /// Hand the queued segment files to the caller, emptying the queue.
    /// The caller creates each file with the given contents before
    /// appending the manifest bytes.
    pub fn take_new_files(&mut self) -> (r: Vec<(Vec<u8>, Vec<u8>)>)
        ensures
            r@ == old(self).new_files@,
            final(self).new_files@.len() == 0,
            final(self)@ == old(self)@,
            final(self).wf() == old(self).wf(),
            final(self).manifest_tail@ == old(self).manifest_tail@,
            final(self).dead_files@ == old(self).dead_files@,
    {
        let mut out: Vec<(Vec<u8>, Vec<u8>)> = Vec::new();
        core::mem::swap(&mut out, &mut self.new_files);
        out
    }

    /// Hand the queued manifest bytes to the caller, emptying the queue.
    /// The caller appends them to the manifest file and syncs it.
    pub fn take_manifest_bytes(&mut self) -> (r: Vec<u8>)
        ensures
            r@ == old(self).manifest_tail@,
            final(self).manifest_tail@.len() == 0,
            final(self)@ == old(self)@,
            final(self).wf() == old(self).wf(),
            final(self).new_files@ == old(self).new_files@,
            final(self).dead_files@ == old(self).dead_files@,
    {
        let mut out: Vec<u8> = Vec::new();
        core::mem::swap(&mut out, &mut self.manifest_tail);
        out
    }

    /// Hand the names of files superseded by compaction to the caller,
    /// emptying the queue. The caller may delete them.
    pub fn take_dead_files(&mut self) -> (r: Vec<Vec<u8>>)
        ensures
            r@ == old(self).dead_files@,
            final(self).dead_files@.len() == 0,
            final(self)@ == old(self)@,
            final(self).wf() == old(self).wf(),
            final(self).new_files@ == old(self).new_files@,
            final(self).manifest_tail@ == old(self).manifest_tail@,
    {
        let mut out: Vec<Vec<u8>> = Vec::new();
        core::mem::swap(&mut out, &mut self.dead_files);
        out
    }
}

/// The named file's contents, if the directory image holds it.
pub open spec fn spec_find_file(files: Seq<(Seq<u8>, Seq<u8>)>, name: Seq<u8>) -> Option<Seq<u8>>
    decreases files.len(),
{
    if files.len() == 0 {
        None
    } else if files[0].0 == name {
        Some(files[0].1)
    } else {
        spec_find_file(files.skip(1), name)
    }
}

/// A store with nothing in it.
pub open spec fn empty_store_v() -> StoreV {
    StoreV {
        seq: 0,
        mem: Seq::empty(),
        tombs: Seq::empty(),
        l0: Seq::empty(),
        l1: Seq::empty(),
        l2: Seq::empty(),
        wal: Seq::empty(),
    }
}

/// Load one manifest entry: if its file is present and its image decodes,
/// the segment joins its level and the stamp counter absorbs its highest
/// stamp; otherwise the entry is skipped.
pub open spec fn spec_load_entry(
    v: StoreV,
    e: ManifestEntryV,
    files: Seq<(Seq<u8>, Seq<u8>)>,
) -> StoreV {
    match spec_find_file(files, e.filename) {
        Some(bytes) => match spec_open_segment(bytes) {
            Some(img) => {
                let s = if img.seq_high > v.seq {
                    img.seq_high
                } else {
                    v.seq
                };
                if e.level == 0 {
                    StoreV { seq: s, l0: v.l0.push(img.records), ..v }
                } else if e.level == 1 {
                    StoreV { seq: s, l1: v.l1.push(img.records), ..v }
                } else if e.level == 2 {
                    StoreV { seq: s, l2: v.l2.push(img.records), ..v }
                } else {
                    StoreV { seq: s, ..v }
                }
            },
            None => v,
        },
        None => v,
    }
}

/// Load the manifest's entries in order.
pub open spec fn spec_load(
    v: StoreV,
    entries: Seq<ManifestEntryV>,
    files: Seq<(Seq<u8>, Seq<u8>)>,
) -> StoreV
    decreases entries.len(),
{
    if entries.len() == 0 {
        v
    } else {
        spec_load(spec_load_entry(v, entries[0], files), entries.skip(1), files)
    }
}

/// Apply one replayed log record: point writes and point tombstones go to
/// the memtable, subtree tombstones to the tombstone list, and the stamp
/// counter absorbs the record's stamp.
pub open spec fn spec_apply_rec(v: StoreV, r: RecV) -> StoreV {
    let s = if r.seq > v.seq {
        r.seq
    } else {
        v.seq
    };
    if r.kind == RT_SET {
        StoreV {
            seq: s,
            mem: crate::memtable::sorted_insert(v.mem, r.key, MemValV::Scalar(r.value, r.seq)),
            ..v
        }
    } else if r.kind == RT_DEL_POINT {
        StoreV {
            seq: s,
            mem: crate::memtable::sorted_insert(v.mem, r.key, MemValV::PointTomb(r.seq)),
            ..v
        }
    } else if r.kind == RT_DEL_SUB {
        StoreV { seq: s, tombs: v.tombs.push((r.key, r.seq)), ..v }
    } else {
        v
    }
}

/// Apply replayed log records in order.
pub open spec fn spec_apply_wal(v: StoreV, rs: Seq<RecV>) -> StoreV
    decreases rs.len(),
{
    if rs.len() == 0 {
        v
    } else {
        spec_apply_wal(spec_apply_rec(v, rs[0]), rs.skip(1))
    }
}

/// The store state a directory image describes: the manifest's segments,
/// then the log's surviving records replayed over them.
pub open spec fn spec_open_image(
    manifest: Seq<u8>,
    files: Seq<(Seq<u8>, Seq<u8>)>,
    wal: Seq<u8>,
) -> StoreV {
    spec_apply_wal(
        spec_load(empty_store_v(), spec_parse_manifest(manifest), files),
        spec_wal_replay(wal),
    )
}

/// Applying one well-formed replayed record preserves the store bounds.
proof fn lemma_replay_rec_wf(pre: StoreV, r: RecV)
    requires
        wf_v(pre),
        wal_rec_ok(r),
    ensures
        wf_v(spec_apply_rec(pre, r)),
{
    let post = spec_apply_rec(pre, r);
    assert(post.seq >= pre.seq && post.seq >= r.seq);
    if r.kind == RT_SET || r.kind == RT_DEL_POINT {
        let e = if r.kind == RT_SET {
            MemValV::Scalar(r.value, r.seq)
        } else {
            MemValV::PointTomb(r.seq)
        };
        crate::memtable::lemma_sorted_insert_sorted(pre.mem, r.key, e);
        crate::memtable::lemma_sorted_insert_entries(pre.mem, r.key, e);
        assert(post.mem == crate::memtable::sorted_insert(pre.mem, r.key, e));
        assert forall|i: int| 0 <= i < post.mem.len() implies {
            &&& mem_entry_seq(#[trigger] post.mem[i].1) <= post.seq
            &&& post.mem[i].0.len() + mem_entry_len(post.mem[i].1) + 17 <= u32::MAX
        } by {
            if post.mem[i] != (r.key, e) {
                let m = choose|m: int| 0 <= m < pre.mem.len() && pre.mem[m] == post.mem[i];
                assert(mem_entry_seq(pre.mem[m].1) <= pre.seq);
            }
        }
    }
    assert(all_segs(post) == all_segs(pre));
}

/// The named file's contents, searched in order.
fn find_file<'a>(files: &'a Vec<(Vec<u8>, Vec<u8>)>, name: &[u8]) -> (r: Option<&'a Vec<u8>>)
    ensures
        match r {
            Some(bytes) => spec_find_file(
                files@.map_values(|f: (Vec<u8>, Vec<u8>)| (f.0@, f.1@)),
                name@,
            ) == Some(bytes@),
            None => spec_find_file(
                files@.map_values(|f: (Vec<u8>, Vec<u8>)| (f.0@, f.1@)),
                name@,
            ) is None,
        },
{
    let ghost fv = files@.map_values(|f: (Vec<u8>, Vec<u8>)| (f.0@, f.1@));
    let mut i: usize = 0;
    proof {
        assert(fv.skip(0) =~= fv);
    }
    while i < files.len()
        invariant
            fv == files@.map_values(|f: (Vec<u8>, Vec<u8>)| (f.0@, f.1@)),
            i <= files@.len(),
            spec_find_file(fv, name@) == spec_find_file(fv.skip(i as int), name@),
        decreases files@.len() - i,
    {
        proof {
            assert(fv.skip(i as int)[0] == fv[i as int]);
            assert(fv.skip(i as int).skip(1) =~= fv.skip(i + 1));
        }
        if crate::order::bytes_eq(&files[i].0, name) {
            return Some(&files[i].1);
        }
        i = i + 1;
    }
    proof {
        assert(fv.skip(i as int).len() == 0);
    }
    None
}

impl Store {
    /// Rebuild a store from a directory image: the manifest text, the
    /// directory's files as name–contents pairs, and the write-ahead-log
    /// bytes. Unreadable segments and the log's torn tail are skipped, as
    /// on any startup after a crash.
    pub fn open_image(manifest: &[u8], files: &Vec<(Vec<u8>, Vec<u8>)>, wal: &[u8]) -> (r: Store)
        ensures
            r.wf(),
            r@ == spec_open_image(
                manifest@,
                files@.map_values(|f: (Vec<u8>, Vec<u8>)| (f.0@, f.1@)),
                wal@,
            ),
            r.new_files@.len() == 0,
            r.manifest_tail@.len() == 0,
            r.dead_files@.len() == 0,
    {
        let ghost fv = files@.map_values(|f: (Vec<u8>, Vec<u8>)| (f.0@, f.1@));
        let entries = parse_manifest(manifest);
        let ghost ev = entries@.map_values(|e: ManifestEntry| e@);
        let mut st = Store::new();
        proof {
            assert(st@ =~= empty_store_v());
            assert(ev.skip(0) =~= ev);
        }
        let ghost base = st@;
        let mut i: usize = 0;
        while i < entries.len()
            invariant
                st.wf(),
                fv == files@.map_values(|f: (Vec<u8>, Vec<u8>)| (f.0@, f.1@)),
                ev == entries@.map_values(|e: ManifestEntry| e@),
                i <= entries@.len(),
                spec_load(base, ev, fv) == spec_load(st@, ev.skip(i as int), fv),
                st@.mem.len() == 0,
                st@.tombs.len() == 0,
                st@.wal.len() == 0,
                st.new_files@.len() == 0,
                st.manifest_tail@.len() == 0,
                st.dead_files@.len() == 0,
            decreases entries@.len() - i,
        {
            proof {
                assert(ev.skip(i as int)[0] == ev[i as int]);
                assert(ev.skip(i as int).skip(1) =~= ev.skip(i + 1));
                assert(ev[i as int] == entries@[i as int]@);
            }
            let ghost mid = st@;
            match find_file(files, &entries[i].filename) {
                Some(bytes) => {
                    match open_segment(clone_bytes(&entries[i].filename), bytes.as_slice()) {
                        Ok(seg) => {
                            let ghost img_recs = seg.recs();
                            let ghost sh = seg.seq_high;
                            if seg.seq_high > st.seq {
                                st.seq = seg.seq_high;
                            }
                            let level = entries[i].level;
                            proof {
                                lemma_recs_max_seq_bound(img_recs);
                                assert(forall|j: int|
                                    0 <= j < img_recs.len() ==> (#[trigger] img_recs[j]).seq
                                        <= sh);
                            }
                            if level == 0 {
                                let ghost before = st@;
                                st.l0.push(seg);
                                proof {
                                    assert(st@.l0 =~= before.l0.push(img_recs));
                                    assert(st@ == spec_load_entry(mid, ev[i as int], fv));
                                    lemma_push_seg_wf(before, st@, img_recs, 0);
                                }
                            } else if level == 1 {
                                let ghost before = st@;
                                st.l1.push(seg);
                                proof {
                                    assert(st@.l1 =~= before.l1.push(img_recs));
                                    assert(st@ == spec_load_entry(mid, ev[i as int], fv));
                                    lemma_push_seg_wf(before, st@, img_recs, 1);
                                }
                            } else if level == 2 {
                                let ghost before = st@;
                                st.l2.push(seg);
                                proof {
                                    assert(st@.l2 =~= before.l2.push(img_recs));
                                    assert(st@ == spec_load_entry(mid, ev[i as int], fv));
                                    lemma_push_seg_wf(before, st@, img_recs, 2);
                                }
                            } else {
                                proof {
                                    assert(st@ == spec_load_entry(mid, ev[i as int], fv));
                                }
                            }
                        },
                        Err(_) => {
                            proof {
                                assert(st@ == spec_load_entry(mid, ev[i as int], fv));
                            }
                        },
                    }
                },
                None => {
                    proof {
                        assert(st@ == spec_load_entry(mid, ev[i as int], fv));
                    }
                },
            }
            i = i + 1;
        }
        proof {
            assert(ev.skip(i as int).len() == 0);
        }
        let ghost loaded = st@;
        let recs = wal_replay(wal);
        let ghost rv = recs@.map_values(|x: Rec| x@);
        proof {
            assert(rv == spec_wal_replay(wal@));
            if wal@.len() >= 4 && wal@.subrange(0, 4) == crate::walcodec::wal_magic() {
                lemma_replay_recs_ok(wal@.skip(4));
            }
            assert(forall|j: int| 0 <= j < rv.len() ==> wal_rec_ok(#[trigger] rv[j]));
            assert(rv.skip(0) =~= rv);
        }
        let mut j: usize = 0;
        while j < recs.len()
            invariant
                st.wf(),
                rv == recs@.map_values(|x: Rec| x@),
                forall|m: int| 0 <= m < rv.len() ==> wal_rec_ok(#[trigger] rv[m]),
                j <= recs@.len(),
                spec_apply_wal(loaded, rv) == spec_apply_wal(st@, rv.skip(j as int)),
                st@.wal.len() == 0,
                st.new_files@.len() == 0,
                st.manifest_tail@.len() == 0,
                st.dead_files@.len() == 0,
            decreases recs@.len() - j,
        {
            proof {
                assert(rv.skip(j as int)[0] == rv[j as int]);
                assert(rv.skip(j as int).skip(1) =~= rv.skip(j + 1));
                assert(rv[j as int] == recs@[j as int]@);
            }
            let ghost mid = st@;
            let rec = &recs[j];
            if rec.seq > st.seq {
                st.seq = rec.seq;
            }
            if rec.kind == RT_SET {
                st.memtable.insert(
                    clone_bytes(&rec.key),
                    MemValue::Scalar(clone_bytes(&rec.value), rec.seq),
                );
                proof {
                    assert(st@ == spec_apply_rec(mid, rv[j as int]));
                    lemma_replay_rec_wf(mid, rv[j as int]);
                }
            } else if rec.kind == RT_DEL_POINT {
                st.memtable.insert(clone_bytes(&rec.key), MemValue::PointTomb(rec.seq));
                proof {
                    assert(st@ == spec_apply_rec(mid, rv[j as int]));
                    lemma_replay_rec_wf(mid, rv[j as int]);
                }
            } else {
                st.subtombs.add(clone_bytes(&rec.key), rec.seq);
                proof {
                    assert(st@.tombs =~= mid.tombs.push((rv[j as int].key, rv[j as int].seq)));
                    assert(st@ == spec_apply_rec(mid, rv[j as int]));
                    lemma_replay_rec_wf(mid, rv[j as int]);
                }
            }
            j = j + 1;
        }
        proof {
            assert(rv.skip(j as int).len() == 0);
        }
        st
    }
}

} // verus!
