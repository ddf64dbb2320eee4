//! The store: write path, read path, and the tree rules that tie them
//! together.
//!
//! A store holds a memtable, the in-flight subtree tombstones, and three
//! levels of immutable segments. Readers consult the memtable first and
//! otherwise take, across all segments, the record with the largest
//! sequence number not hidden by a subtree tombstone. Writers stamp each
//! mutation with the next sequence number, queue its write-ahead-log
//! record for the caller to persist, and update the memtable.
//!
//! The view [`StoreV`] is the mathematical image of a store; the effect of
//! every mutation is stated as a function on views, and [`spec_get`] is
//! the single definition of visibility that every read contract uses.

use vstd::prelude::*;
use vstd::string::StringExecFns;

use crate::errors::WalDBError;
use crate::memtable::{
    mem_lookup, mem_sorted, sorted_insert, MemTable, MemValue, MemValV,
    lemma_sorted_insert_entries, lemma_sorted_insert_sorted,
};
use crate::rec::{clone_bytes, slice_to_bytes, Rec, RecV, RT_DEL_POINT, RT_DEL_SUB, RT_SET, SLASH};
use crate::segment::{seg_find, seg_has_key, lemma_seg_find_has_key, seg_rec_ok, Segment};
use crate::tombs::{covered, TombList};

verus! {

/// Flush the memtable once its byte estimate reaches this threshold.
pub const MEMTABLE_THRESHOLD: u64 = 262144;

/// Mathematical image of a whole store.
#[verifier::ext_equal]
pub struct StoreV {
    /// The last assigned sequence number.
    pub seq: u64,
    /// Memtable entries, strictly sorted by key.
    pub mem: Seq<(Seq<u8>, MemValV)>,
    /// Subtree tombstones, in arrival order.
    pub tombs: Seq<(Seq<u8>, u64)>,
    /// Records of each level-0 segment, oldest segment first.
    pub l0: Seq<Seq<RecV>>,
    /// Records of each level-1 segment, oldest first.
    pub l1: Seq<Seq<RecV>>,
    /// Records of each level-2 segment, oldest first.
    pub l2: Seq<Seq<RecV>>,
    /// Write-ahead-log records queued for the caller to persist.
    pub wal: Seq<RecV>,
}

/// Every segment's records, in the order a reader consults them.
pub open spec fn all_segs(v: StoreV) -> Seq<Seq<RecV>> {
    v.l0 + v.l1 + v.l2
}

/// Fold one candidate into the best record seen so far: an uncovered
/// record replaces the current best only with a strictly larger sequence
/// number.
pub open spec fn upd_best(
    init: Option<RecV>,
    cand: Option<RecV>,
    tombs: Seq<(Seq<u8>, u64)>,
    k: Seq<u8>,
) -> Option<RecV> {
    match cand {
        Some(r) => if !covered(tombs, k, r.seq) && (init is None || r.seq > init.unwrap().seq) {
            Some(r)
        } else {
            init
        },
        None => init,
    }
}

/// The best uncovered record for `k` after consulting `segs` in order,
/// starting from `init`.
pub open spec fn best_from(
    segs: Seq<Seq<RecV>>,
    tombs: Seq<(Seq<u8>, u64)>,
    k: Seq<u8>,
    init: Option<RecV>,
) -> Option<RecV>
    decreases segs.len(),
{
    if segs.len() == 0 {
        init
    } else {
        best_from(segs.skip(1), tombs, k, upd_best(init, seg_find(segs[0], k), tombs, k))
    }
}

/// The record a reader of `v` resolves for key `k`: the memtable entry if
/// one exists, otherwise the best uncovered segment record; tombstones and
/// covered records resolve to nothing.
pub open spec fn spec_get_rec(v: StoreV, k: Seq<u8>) -> Option<RecV> {
    match mem_lookup(v.mem, k) {
        Some(MemValV::Scalar(val, s)) => if covered(v.tombs, k, s) {
            None
        } else {
            Some(RecV { kind: RT_SET, key: k, value: val, seq: s })
        },
        Some(MemValV::PointTomb(_)) => None,
        None => match best_from(all_segs(v), v.tombs, k, None) {
            Some(r) => if r.kind == RT_SET {
                Some(r)
            } else {
                None
            },
            None => None,
        },
    }
}

/// The visible value of key `k` in store state `v`, if any.
pub open spec fn spec_get(v: StoreV, k: Seq<u8>) -> Option<Seq<u8>> {
    match spec_get_rec(v, k) {
        Some(r) => Some(r.value),
        None => None,
    }
}

/// Writing `key` would put it under a visible scalar ancestor: some strict
/// prefix of `key` ending at a `/` is itself visible.
pub open spec fn tree_violation_at(v: StoreV, key: Seq<u8>) -> bool {
    exists|i: int|
        0 < i < key.len() && key[i] == SLASH && spec_get(v, #[trigger] key.take(i)) is Some
}

/// State after a successful `set`: the next sequence number is assigned,
/// the memtable maps the key to the new scalar, and, when the write
/// replaces a subtree, a tombstone at `key/` with the same stamp appears.
/// The queued write-ahead-log records mirror exactly that.
pub open spec fn spec_after_set(v: StoreV, key: Seq<u8>, val: Seq<u8>, replace: bool) -> StoreV {
    let s = (v.seq + 1) as u64;
    let prefix = key.push(SLASH);
    let wal1 = if replace {
        v.wal.push(RecV { kind: RT_DEL_SUB, key: prefix, value: Seq::empty(), seq: s }).push(
            RecV { kind: RT_DEL_POINT, key: key, value: Seq::empty(), seq: s },
        )
    } else {
        v.wal
    };
    StoreV {
        seq: s,
        mem: sorted_insert(v.mem, key, MemValV::Scalar(val, s)),
        tombs: if replace {
            v.tombs.push((prefix, s))
        } else {
            v.tombs
        },
        l0: v.l0,
        l1: v.l1,
        l2: v.l2,
        wal: wal1.push(RecV { kind: RT_SET, key: key, value: val, seq: s }),
    }
}

/// State after `delete`: the key maps to a point tombstone at the next
/// sequence number.
pub open spec fn spec_after_delete(v: StoreV, key: Seq<u8>) -> StoreV {
    let s = (v.seq + 1) as u64;
    StoreV {
        seq: s,
        mem: sorted_insert(v.mem, key, MemValV::PointTomb(s)),
        tombs: v.tombs,
        l0: v.l0,
        l1: v.l1,
        l2: v.l2,
        wal: v.wal.push(RecV { kind: RT_DEL_POINT, key: key, value: Seq::empty(), seq: s }),
    }
}

/// The prefix a subtree operation acts on: the key, `/`-terminated.
pub open spec fn norm_prefix(p: Seq<u8>) -> Seq<u8> {
    if p.len() > 0 && p[p.len() - 1] == SLASH {
        p
    } else {
        p.push(SLASH)
    }
}

/// State after `delete_subtree`: a tombstone at the normalized prefix with
/// the next sequence number.
pub open spec fn spec_after_delete_subtree(v: StoreV, p: Seq<u8>) -> StoreV {
    let s = (v.seq + 1) as u64;
    StoreV {
        seq: s,
        mem: v.mem,
        tombs: v.tombs.push((norm_prefix(p), s)),
        l0: v.l0,
        l1: v.l1,
        l2: v.l2,
        wal: v.wal.push(
            RecV { kind: RT_DEL_SUB, key: norm_prefix(p), value: Seq::empty(), seq: s },
        ),
    }
}

/// The segment records a memtable drains into: scalars become point
/// writes, tombstoned keys become point-tombstone records.
pub open spec fn mem_recs(mem: Seq<(Seq<u8>, MemValV)>) -> Seq<RecV> {
    mem.map_values(
        |e: (Seq<u8>, MemValV)|
            match e.1 {
                MemValV::Scalar(val, s) => RecV { kind: RT_SET, key: e.0, value: val, seq: s },
                MemValV::PointTomb(s) => RecV {
                    kind: RT_DEL_POINT,
                    key: e.0,
                    value: Seq::empty(),
                    seq: s,
                },
            },
    )
}

/// State after a flush of a nonempty memtable: its records become one new
/// newest level-0 segment and the memtable empties.
pub open spec fn spec_after_flush(v: StoreV) -> StoreV {
    StoreV {
        seq: v.seq,
        mem: Seq::empty(),
        tombs: v.tombs,
        l0: v.l0.push(mem_recs(v.mem)),
        l1: v.l1,
        l2: v.l2,
        wal: v.wal,
    }
}

/// Sequence-number and framing bounds every reachable store state obeys:
/// nothing in the store is stamped past `seq`, and every stored key and
/// value fits the 32-bit on-disk framing.
pub open spec fn wf_v(v: StoreV) -> bool {
    &&& mem_sorted(v.mem)
    &&& forall|i: int|
        0 <= i < v.mem.len() ==> {
            &&& mem_entry_seq(#[trigger] v.mem[i].1) <= v.seq
            &&& v.mem[i].0.len() + mem_entry_len(v.mem[i].1) + 17 <= u32::MAX
        }
    &&& forall|i: int| 0 <= i < v.tombs.len() ==> (#[trigger] v.tombs[i]).1 <= v.seq
    &&& forall|si: int, ri: int|
        0 <= si < all_segs(v).len() && 0 <= ri < all_segs(v)[si].len() ==> {
            &&& (#[trigger] all_segs(v)[si][ri]).seq <= v.seq
            &&& seg_rec_ok(all_segs(v)[si][ri])
        }
    &&& forall|i: int| 0 <= i < v.wal.len() ==> crate::walcodec::wal_rec_ok(#[trigger] v.wal[i])
}

/// The stamp on a memtable entry.
pub open spec fn mem_entry_seq(e: MemValV) -> u64 {
    match e {
        MemValV::Scalar(_, s) => s,
        MemValV::PointTomb(s) => s,
    }
}

/// The value length of a memtable entry.
pub open spec fn mem_entry_len(e: MemValV) -> nat {
    match e {
        MemValV::Scalar(val, _) => val.len(),
        MemValV::PointTomb(_) => 0,
    }
}

/// Folding over two segment lists in sequence is folding over their
/// concatenation.
pub proof fn lemma_best_from_concat(
    a: Seq<Seq<RecV>>,
    b: Seq<Seq<RecV>>,
    tombs: Seq<(Seq<u8>, u64)>,
    k: Seq<u8>,
    init: Option<RecV>,
)
    ensures
        best_from(a + b, tombs, k, init) == best_from(b, tombs, k, best_from(a, tombs, k, init)),
    decreases a.len(),
{
    if a.len() == 0 {
        assert(a + b =~= b);
    } else {
        assert((a + b)[0] == a[0]);
        assert((a + b).skip(1) =~= a.skip(1) + b);
        lemma_best_from_concat(a.skip(1), b, tombs, k, upd_best(init, seg_find(a[0], k), tombs, k));
    }
}

/// A best record exists only if some segment holds the key, the result is
/// never covered, and it was seen with a stamp at least `init`'s.
pub proof fn lemma_best_from_found(
    segs: Seq<Seq<RecV>>,
    tombs: Seq<(Seq<u8>, u64)>,
    k: Seq<u8>,
    init: Option<RecV>,
)
    ensures
        best_from(segs, tombs, k, init) is None ==> init is None,
        (best_from(segs, tombs, k, init) is Some && (init is None || best_from(
            segs,
            tombs,
            k,
            init,
        ).unwrap() != init.unwrap())) ==> ({
            let r = best_from(segs, tombs, k, init).unwrap();
            r.key == k && !covered(tombs, k, r.seq) && exists|si: int|
                0 <= si < segs.len() && seg_has_key(#[trigger] segs[si], k)
        }),
    decreases segs.len(),
{
    if segs.len() > 0 {
        let next = upd_best(init, seg_find(segs[0], k), tombs, k);
        lemma_best_from_found(segs.skip(1), tombs, k, next);
        lemma_seg_find_has_key(segs[0], k);
        if best_from(segs, tombs, k, init) is Some {
            let r = best_from(segs, tombs, k, init).unwrap();
            if init is None || r != init.unwrap() {
                if next is Some && r == next.unwrap() && (init is None || r != init.unwrap()) {
                    assert(seg_has_key(segs[0], k));
                } else {
                    let si = choose|si: int|
                        0 <= si < segs.skip(1).len() && seg_has_key(
                            #[trigger] segs.skip(1)[si],
                            k,
                        );
                    assert(seg_has_key(segs[si + 1], k));
                }
            }
        }
    }
}

/// Mathematical image of an optional owned record.
pub open spec fn opt_rec_v(o: Option<Rec>) -> Option<RecV> {
    match o {
        Some(r) => Some(r@),
        None => None,
    }
}

/// Fold a level's segments into the running best record for `key`.
fn best_in_level(segs: &Vec<Segment>, tombs: &TombList, key: &[u8], init: Option<Rec>) -> (r:
    Option<Rec>)
    requires
        forall|i: int| 0 <= i < segs@.len() ==> (#[trigger] segs@[i]).wf(),
    ensures
        opt_rec_v(r) == best_from(
            segs@.map_values(|s: Segment| s.recs()),
            tombs@,
            key@,
            opt_rec_v(init),
        ),
{
    let ghost sv = segs@.map_values(|s: Segment| s.recs());
    let mut cur = init;
    let mut i: usize = 0;
    proof {
        assert(sv.skip(0) =~= sv);
    }
    while i < segs.len()
        invariant
            forall|j: int| 0 <= j < segs@.len() ==> (#[trigger] segs@[j]).wf(),
            sv == segs@.map_values(|s: Segment| s.recs()),
            i <= segs.len(),
            best_from(sv, tombs@, key@, opt_rec_v(init)) == best_from(
                sv.skip(i as int),
                tombs@,
                key@,
                opt_rec_v(cur),
            ),
        decreases segs.len() - i,
    {
        proof {
            assert(sv.skip(i as int)[0] == sv[i as int]);
            assert(sv.skip(i as int).skip(1) =~= sv.skip(i + 1));
            assert(sv[i as int] == segs@[i as int].recs());
        }
        let found = segs[i].find(key);
        match found {
            Some(rec) => {
                if !tombs.is_covered(key, rec.seq) {
                    let replace = match &cur {
                        Some(b) => rec.seq > b.seq,
                        None => true,
                    };
                    if replace {
                        cur = Some(rec.duplicate());
                    }
                }
            },
            None => {},
        }
        i = i + 1;
    }
    proof {
        assert(sv.skip(i as int).len() == 0);
    }
    cur
}

/// An embedded, crash-consistent key-value store over `/`-separated byte
/// paths.
///
/// All state lives in memory; durability flows through the caller, which
/// drains [`Store::take_wal_bytes`] to the log file, writes the files from
/// [`Store::take_new_files`], appends [`Store::take_manifest_bytes`] to
/// the manifest, and deletes [`Store::take_dead_files`].
pub struct Store {
    /// Last assigned sequence number.
    pub seq: u64,
    /// The in-memory write buffer.
    pub memtable: MemTable,
    /// Rough byte estimate of the memtable, used for the flush trigger.
    pub mem_bytes: u64,
    /// In-flight subtree tombstones.
    pub subtombs: TombList,
    /// Level-0 segments, oldest first.
    pub l0: Vec<Segment>,
    /// Level-1 segments, oldest first.
    pub l1: Vec<Segment>,
    /// Level-2 segments, oldest first.
    pub l2: Vec<Segment>,
    /// Write-ahead-log records not yet handed to the caller.
    pub wal_buf: Vec<Rec>,
    /// Segment files the caller must write: name and contents.
    pub new_files: Vec<(Vec<u8>, Vec<u8>)>,
    /// Manifest bytes the caller must append.
    pub manifest_tail: Vec<u8>,
    /// Files superseded by compaction that the caller may delete.
    pub dead_files: Vec<Vec<u8>>,
}

impl View for Store {
    type V = StoreV;

    open spec fn view(&self) -> StoreV {
        StoreV {
            seq: self.seq,
            mem: self.memtable@,
            tombs: self.subtombs@,
            l0: self.l0@.map_values(|s: Segment| s.recs()),
            l1: self.l1@.map_values(|s: Segment| s.recs()),
            l2: self.l2@.map_values(|s: Segment| s.recs()),
            wal: self.wal_buf@.map_values(|r: Rec| r@),
        }
    }
}

impl Store {
    /// Structural soundness: the memtable is sorted, every segment is
    /// well-formed, and all stamps are at most `seq`.
    pub open spec fn wf(&self) -> bool {
        &&& self.memtable.wf()
        &&& forall|i: int|
            0 <= i < self.l0@.len() ==> (#[trigger] self.l0@[i]).wf() && self.l0@[i].seq_high
                <= self.seq
        &&& forall|i: int|
            0 <= i < self.l1@.len() ==> (#[trigger] self.l1@[i]).wf() && self.l1@[i].seq_high
                <= self.seq
        &&& forall|i: int|
            0 <= i < self.l2@.len() ==> (#[trigger] self.l2@[i]).wf() && self.l2@[i].seq_high
                <= self.seq
        &&& wf_v(self@)
    }

    /// A fresh store over nothing: no data, no pending output.
    pub fn new() -> (r: Store)
        ensures
            r.wf(),
            r@.seq == 0,
            r@.mem =~= Seq::<(Seq<u8>, MemValV)>::empty(),
            r@.tombs =~= Seq::<(Seq<u8>, u64)>::empty(),
            r@.l0 =~= Seq::<Seq<RecV>>::empty(),
            r@.l1 =~= Seq::<Seq<RecV>>::empty(),
            r@.l2 =~= Seq::<Seq<RecV>>::empty(),
            r@.wal =~= Seq::<RecV>::empty(),
            r.new_files@.len() == 0,
            r.manifest_tail@.len() == 0,
            r.dead_files@.len() == 0,
    {
        let r = Store {
            seq: 0,
            memtable: MemTable::new(),
            mem_bytes: 0,
            subtombs: TombList::new(),
            l0: Vec::new(),
            l1: Vec::new(),
            l2: Vec::new(),
            wal_buf: Vec::new(),
            new_files: Vec::new(),
            manifest_tail: Vec::new(),
            dead_files: Vec::new(),
        };
        proof {
            assert(all_segs(r@) =~= Seq::<Seq<RecV>>::empty());
        }
        r
    }

    /// The visible value at `key`, or nothing when the key is absent,
    /// deleted, or hidden under a subtree tombstone.
    pub fn get(&self, key: &[u8]) -> (r: Option<Vec<u8>>)
        requires
            self.wf(),
        ensures
            match r {
                Some(v) => spec_get(self@, key@) == Some(v@),
                None => spec_get(self@, key@) is None,
            },
    {
        match self.memtable.get(key) {
            Some(mv) => {
                match mv {
                    MemValue::Scalar(v, s) => {
                        if !self.subtombs.is_covered(key, *s) {
                            Some(clone_bytes(v))
                        } else {
                            None
                        }
                    },
                    MemValue::PointTomb(_) => None,
                }
            },
            None => {
                let b0 = best_in_level(&self.l0, &self.subtombs, key, None);
                let b1 = best_in_level(&self.l1, &self.subtombs, key, b0);
                let b2 = best_in_level(&self.l2, &self.subtombs, key, b1);
                proof {
                    let v = self@;
                    lemma_best_from_concat(v.l0, v.l1, v.tombs, key@, None);
                    lemma_best_from_concat(v.l0 + v.l1, v.l2, v.tombs, key@, None);
                    assert(all_segs(v) =~= (v.l0 + v.l1) + v.l2);
                }
                match b2 {
                    Some(rec) => {
                        if rec.kind == RT_SET {
                            Some(rec.value)
                        } else {
                            None
                        }
                    },
                    None => None,
                }
            },
        }
    }

    /// The offending visible scalar ancestor of `key`, if one exists.
    pub(crate) fn find_scalar_ancestor(&self, key: &[u8]) -> (r: Option<Vec<u8>>)
        requires
            self.wf(),
        ensures
            match r {
                Some(a) => tree_violation_at(self@, key@) && spec_get(self@, a@) is Some
                    && exists|i: int| 0 < i < key@.len() && key@[i] == SLASH && a@ == key@.take(i),
                None => !tree_violation_at(self@, key@),
            },
    {
        let mut i: usize = 1;
        while i < key.len()
            invariant
                self.wf(),
                1 <= i,
                forall|j: int|
                    0 < j < i && j < key@.len() && key@[j] == SLASH ==> spec_get(
                        self@,
                        #[trigger] key@.take(j),
                    ) is None,
            decreases key.len() - i,
        {
            if key[i] == SLASH {
                let anc = vstd::slice::slice_subrange(key, 0, i);
                match self.get(anc) {
                    Some(_) => {
                        proof {
                            assert(anc@ == key@.take(i as int));
                        }
                        return Some(slice_to_bytes(anc));
                    },
                    None => {
                        proof {
                            assert(anc@ == key@.take(i as int));
                        }
                    },
                }
            }
            i = i + 1;
        }
        None
    }

    /// Write `value` at `key`. Fails, changing nothing, exactly when a
    /// strict ancestor of `key` is a visible scalar. With
    /// `replace_subtree` the write also tombstones everything strictly
    /// under `key/` at the same stamp, so the new scalar survives while
    /// every previous descendant disappears.
    pub fn set(&mut self, key: &[u8], value: &[u8], replace_subtree: bool) -> (r: Result<
        (),
        WalDBError,
    >)
        requires
            old(self).wf(),
            key@.len() > 0,
            key@.len() + value@.len() + 17 <= u32::MAX,
            replace_subtree ==> key@.len() + 18 <= u32::MAX,
            old(self).seq < u64::MAX,
        ensures
            final(self).wf(),
            match r {
                Ok(_) => !tree_violation_at(old(self)@, key@) && final(self)@ == spec_after_set(
                    old(self)@,
                    key@,
                    value@,
                    replace_subtree,
                ),
                Err(e) => tree_violation_at(old(self)@, key@) && final(self)@ == old(self)@ && e
                    is TreeStructureViolation,
            },
            final(self).new_files@ == old(self).new_files@,
            final(self).manifest_tail@ == old(self).manifest_tail@,
            final(self).dead_files@ == old(self).dead_files@,
    {
        match self.find_scalar_ancestor(key) {
            Some(parent) => {
                return Err(WalDBError::TreeStructureViolation {
                    path: crate::errors::bytes_to_text(key),
                    parent: crate::errors::bytes_to_text(parent.as_slice()),
                    reason: String::from_str("Cannot write under scalar parent"),
                });
            },
            None => {},
        }
        let ghost pre = self@;
        self.seq = self.seq + 1;
        let s = self.seq;
        if replace_subtree {
            let mut prefix = slice_to_bytes(key);
            prefix.push(SLASH);
            self.wal_buf.push(
                Rec { kind: RT_DEL_SUB, key: clone_bytes(&prefix), value: Vec::new(), seq: s },
            );
            self.subtombs.add(prefix, s);
            self.wal_buf.push(
                Rec { kind: RT_DEL_POINT, key: slice_to_bytes(key), value: Vec::new(), seq: s },
            );
        }
        self.wal_buf.push(
            Rec { kind: RT_SET, key: slice_to_bytes(key), value: slice_to_bytes(value), seq: s },
        );
        self.memtable.insert(slice_to_bytes(key), MemValue::Scalar(slice_to_bytes(value), s));
        let add = (key.len() as u64) + (value.len() as u64) + 16;
        self.mem_bytes = match self.mem_bytes.checked_add(add) {
            Some(n) => n,
            None => u64::MAX,
        };
        proof {
            let post = spec_after_set(pre, key@, value@, replace_subtree);
            assert(self@.wal =~= post.wal);
            assert(self@.tombs =~= post.tombs);
            assert(self@ == post);
            assert forall|i: int|
                0 <= i < self@.wal.len() implies crate::walcodec::wal_rec_ok(
                #[trigger] self@.wal[i],
            ) by {
                if i < pre.wal.len() {
                    assert(self@.wal[i] == pre.wal[i]);
                }
            }
            lemma_set_like_wf(pre, key@, MemValV::Scalar(value@, s), self@);
        }
        Ok(())
    }

    /// Delete `key`: record a point tombstone at the next stamp. Deleting
    /// an absent key succeeds and still consumes a stamp.
    pub fn delete(&mut self, key: &[u8])
        requires
            old(self).wf(),
            key@.len() + 17 <= u32::MAX,
            old(self).seq < u64::MAX,
        ensures
            final(self).wf(),
            final(self)@ == spec_after_delete(old(self)@, key@),
            final(self).new_files@ == old(self).new_files@,
            final(self).manifest_tail@ == old(self).manifest_tail@,
            final(self).dead_files@ == old(self).dead_files@,
    {
        let ghost pre = self@;
        self.seq = self.seq + 1;
        let s = self.seq;
        self.wal_buf.push(
            Rec { kind: RT_DEL_POINT, key: slice_to_bytes(key), value: Vec::new(), seq: s },
        );
        self.memtable.insert(slice_to_bytes(key), MemValue::PointTomb(s));
        let add = (key.len() as u64) + 16;
        self.mem_bytes = match self.mem_bytes.checked_add(add) {
            Some(n) => n,
            None => u64::MAX,
        };
        proof {
            let post = spec_after_delete(pre, key@);
            assert(self@.wal =~= post.wal);
            assert(self@ == post);
            assert forall|i: int|
                0 <= i < self@.wal.len() implies crate::walcodec::wal_rec_ok(
                #[trigger] self@.wal[i],
            ) by {
                if i < pre.wal.len() {
                    assert(self@.wal[i] == pre.wal[i]);
                }
            }
            lemma_set_like_wf(pre, key@, MemValV::PointTomb(s), self@);
        }
    }

    /// Tombstone every key strictly under `prefix/` (a trailing `/` is
    /// added when missing) at the next stamp. The anchor key itself stays.
    pub fn delete_subtree(&mut self, prefix: &[u8])
        requires
            old(self).wf(),
            prefix@.len() > 0,
            prefix@.len() + 18 <= u32::MAX,
            old(self).seq < u64::MAX,
        ensures
            final(self).wf(),
            final(self)@ == spec_after_delete_subtree(old(self)@, prefix@),
            final(self).new_files@ == old(self).new_files@,
            final(self).manifest_tail@ == old(self).manifest_tail@,
            final(self).dead_files@ == old(self).dead_files@,
    {
        let ghost pre = self@;
        self.seq = self.seq + 1;
        let s = self.seq;
        let mut p = slice_to_bytes(prefix);
        if p[p.len() - 1] != SLASH {
            p.push(SLASH);
        }
        proof {
            assert(p@ == norm_prefix(prefix@));
        }
        self.wal_buf.push(Rec { kind: RT_DEL_SUB, key: clone_bytes(&p), value: Vec::new(), seq: s });
        self.subtombs.add(p, s);
        proof {
            let post = spec_after_delete_subtree(pre, prefix@);
            assert(self@.wal =~= post.wal);
            assert(self@.tombs =~= post.tombs);
            assert(self@ == post);
            assert forall|i: int|
                0 <= i < self@.wal.len() implies crate::walcodec::wal_rec_ok(
                #[trigger] self@.wal[i],
            ) by {
                if i < pre.wal.len() {
                    assert(self@.wal[i] == pre.wal[i]);
                }
            }
            assert(all_segs(self@) == all_segs(pre));
        }
    }

    /// How many segments sit at each level: `(level 0, level 1, level 2)`.
    pub fn segment_counts(&self) -> (r: (usize, usize, usize))
        ensures
            r.0 == self@.l0.len(),
            r.1 == self@.l1.len(),
            r.2 == self@.l2.len(),
    {
        (self.l0.len(), self.l1.len(), self.l2.len())
    }

    /// The memtable's byte estimate has crossed the flush threshold; the
    /// caller should flush.
    pub fn needs_flush(&self) -> (r: bool)
        ensures
            r == (self.mem_bytes >= MEMTABLE_THRESHOLD),
    {
        self.mem_bytes >= MEMTABLE_THRESHOLD
    }
}

/// A mutation that bumps `seq` by one and inserts one memtable entry at
/// the new stamp (with possibly one new tombstone and some queued log
/// records) preserves well-formedness.
proof fn lemma_set_like_wf(pre: StoreV, key: Seq<u8>, e: MemValV, post: StoreV)
    requires
        wf_v(pre),
        pre.seq < u64::MAX,
        post.seq == pre.seq + 1,
        post.mem == sorted_insert(pre.mem, key, e),
        mem_entry_seq(e) == post.seq,
        key.len() + mem_entry_len(e) + 17 <= u32::MAX,
        post.l0 == pre.l0,
        post.l1 == pre.l1,
        post.l2 == pre.l2,
        post.tombs == pre.tombs || post.tombs == pre.tombs.push((key.push(SLASH), post.seq)),
        forall|i: int|
            0 <= i < post.wal.len() ==> crate::walcodec::wal_rec_ok(#[trigger] post.wal[i]),
    ensures
        wf_v(post),
    decreases pre.mem.len(),
{
    lemma_sorted_insert_sorted(pre.mem, key, e);
    lemma_sorted_insert_entries(pre.mem, key, e);
    assert forall|i: int| 0 <= i < post.mem.len() implies {
        &&& mem_entry_seq(#[trigger] post.mem[i].1) <= post.seq
        &&& post.mem[i].0.len() + mem_entry_len(post.mem[i].1) + 17 <= u32::MAX
    } by {
        if post.mem[i] != (key, e) {
            let m = choose|m: int| 0 <= m < pre.mem.len() && pre.mem[m] == post.mem[i];
            assert(mem_entry_seq(pre.mem[m].1) <= pre.seq);
        }
    }
    assert(all_segs(post) == all_segs(pre));
}


/// The position of the last `/` in a path, or a negative value when there
/// is none.
pub open spec fn rfind_slash(p: Seq<u8>) -> int
    decreases p.len(),
{
    if p.len() == 0 {
        -1
    } else if p.last() == SLASH {
        p.len() - 1
    } else {
        rfind_slash(p.drop_last())
    }
}

/// The longest strict path ancestor: everything before the last `/`, or
/// nothing when the path has no `/` past its first byte.
pub open spec fn spec_parent_path(p: Seq<u8>) -> Option<Seq<u8>> {
    let i = rfind_slash(p);
    if i > 0 {
        Some(p.take(i))
    } else {
        None
    }
}

/// The key's parent path, if it has one.
pub fn parent_path(path: &[u8]) -> (r: Option<Vec<u8>>)
    ensures
        match r {
            Some(a) => spec_parent_path(path@) == Some(a@),
            None => spec_parent_path(path@) is None,
        },
{
    let mut i: usize = path.len();
    proof {
        assert(path@.take(path@.len() as int) =~= path@);
    }
    while i > 0
        invariant
            i <= path@.len(),
            rfind_slash(path@) == rfind_slash(path@.take(i as int)),
        decreases i,
    {
        proof {
            assert(path@.take(i as int).last() == path@[i - 1]);
            assert(path@.take(i as int).drop_last() =~= path@.take(i - 1));
        }
        if path[i - 1] == SLASH {
            proof {
                assert(rfind_slash(path@.take(i as int)) == i - 1);
            }
            if i - 1 > 0 {
                let a = slice_to_bytes(vstd::slice::slice_subrange(path, 0, i - 1));
                proof {
                    assert(a@ =~= path@.take(i - 1));
                }
                return Some(a);
            }
            return None;
        }
        i = i - 1;
    }
    proof {
        assert(path@.take(0).len() == 0);
        assert(rfind_slash(path@) == -1);
    }
    None
}

} // verus!
