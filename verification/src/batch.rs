//! Atomic batch writes.
//!
//! A batch either applies all of its point writes under one sequence
//! number or fails without a trace. A batch may also replace a whole
//! subtree: the anchor's previous scalar and all of its descendants are
//! tombstoned one stamp before the new writes land.

use vstd::prelude::*;
use vstd::string::StringExecFns;

use crate::errors::WalDBError;
use crate::memtable::{mem_sorted, sorted_insert, MemValue, MemValV};
use crate::rec::{clone_bytes, slice_to_bytes, Rec, RecV, RT_DEL_POINT, RT_DEL_SUB, RT_SET, SLASH};
use crate::store::{
    all_segs, mem_entry_len, mem_entry_seq, norm_prefix, spec_get, tree_violation_at, wf_v, Store,
    StoreV,
};

verus! {

/// The entries of a batch as mathematical values.
pub open spec fn pairs_v(es: Seq<(Vec<u8>, Vec<u8>)>) -> Seq<(Seq<u8>, Seq<u8>)> {
    es.map_values(|e: (Vec<u8>, Vec<u8>)| (e.0@, e.1@))
}

/// `a` is a strict path ancestor of `k`: `k` continues `a` across a `/`.
pub open spec fn path_ancestor(a: Seq<u8>, k: Seq<u8>) -> bool {
    a.len() > 0 && a.push(SLASH).is_prefix_of(k)
}

/// A batch is rejected when one of its keys sits under a visible scalar,
/// or when one of its keys is an ancestor of another.
pub open spec fn batch_violation(v: StoreV, es: Seq<(Seq<u8>, Seq<u8>)>) -> bool {
    ||| exists|i: int| 0 <= i < es.len() && tree_violation_at(v, (#[trigger] es[i]).0)
    ||| exists|i: int, j: int|
        0 <= i < es.len() && 0 <= j < es.len() && path_ancestor(
            (#[trigger] es[i]).0,
            (#[trigger] es[j]).0,
        )
}

/// Some visible key lies strictly under `p/`.
pub open spec fn spec_has_descendant(v: StoreV, p: Seq<u8>) -> bool {
    exists|k: Seq<u8>| p.push(SLASH).is_prefix_of(k) && (#[trigger] spec_get(v, k)) is Some
}

/// Insert every batch entry into the memtable at stamp `s`, in order.
pub open spec fn mem_insert_sets(
    mem: Seq<(Seq<u8>, MemValV)>,
    es: Seq<(Seq<u8>, Seq<u8>)>,
    s: u64,
) -> Seq<(Seq<u8>, MemValV)>
    decreases es.len(),
{
    if es.len() == 0 {
        mem
    } else {
        mem_insert_sets(sorted_insert(mem, es[0].0, MemValV::Scalar(es[0].1, s)), es.skip(1), s)
    }
}

/// Queue a point-write log record for every batch entry at stamp `s`.
pub open spec fn wal_push_sets(wal: Seq<RecV>, es: Seq<(Seq<u8>, Seq<u8>)>, s: u64) -> Seq<RecV>
    decreases es.len(),
{
    if es.len() == 0 {
        wal
    } else {
        wal_push_sets(
            wal.push(RecV { kind: RT_SET, key: es[0].0, value: es[0].1, seq: s }),
            es.skip(1),
            s,
        )
    }
}

/// State after a successful batch. Without a replace anchor, every entry
/// lands at one new stamp (an empty batch changes nothing). With anchor
/// `p`, stamp `seq+1` carries a subtree tombstone at `p/` — and a point
/// tombstone at `p` when `p` held a scalar or had visible descendants —
/// and the entries share the following stamp.
pub open spec fn spec_after_set_many(
    v: StoreV,
    es: Seq<(Seq<u8>, Seq<u8>)>,
    ra: Option<Seq<u8>>,
) -> StoreV {
    match ra {
        None => {
            if es.len() == 0 {
                v
            } else {
                let s = (v.seq + 1) as u64;
                StoreV {
                    seq: s,
                    mem: mem_insert_sets(v.mem, es, s),
                    tombs: v.tombs,
                    l0: v.l0,
                    l1: v.l1,
                    l2: v.l2,
                    wal: wal_push_sets(v.wal, es, s),
                }
            }
        },
        Some(p) => {
            let s1 = (v.seq + 1) as u64;
            let prefix = norm_prefix(p);
            let delp = spec_get(v, p) is Some || spec_has_descendant(v, p);
            let wal1 = v.wal.push(
                RecV { kind: RT_DEL_SUB, key: prefix, value: Seq::empty(), seq: s1 },
            );
            let wal2 = if delp {
                wal1.push(RecV { kind: RT_DEL_POINT, key: p, value: Seq::empty(), seq: s1 })
            } else {
                wal1
            };
            let mem1 = if delp {
                sorted_insert(v.mem, p, MemValV::PointTomb(s1))
            } else {
                v.mem
            };
            let tombs1 = v.tombs.push((prefix, s1));
            if es.len() == 0 {
                StoreV {
                    seq: s1,
                    mem: mem1,
                    tombs: tombs1,
                    l0: v.l0,
                    l1: v.l1,
                    l2: v.l2,
                    wal: wal2,
                }
            } else {
                let s2 = (v.seq + 2) as u64;
                StoreV {
                    seq: s2,
                    mem: mem_insert_sets(mem1, es, s2),
                    tombs: tombs1,
                    l0: v.l0,
                    l1: v.l1,
                    l2: v.l2,
                    wal: wal_push_sets(wal2, es, s2),
                }
            }
        },
    }
}

/// Batch insertion keeps the memtable sorted and every entry is a new
/// batch pair or one already present.
proof fn lemma_mem_insert_sets_props(
    mem: Seq<(Seq<u8>, MemValV)>,
    es: Seq<(Seq<u8>, Seq<u8>)>,
    s: u64,
)
    requires
        mem_sorted(mem),
    ensures
        mem_sorted(mem_insert_sets(mem, es, s)),
        forall|j: int|
            0 <= j < mem_insert_sets(mem, es, s).len() ==> ((exists|m: int|
                0 <= m < mem.len() && mem[m] == #[trigger] mem_insert_sets(mem, es, s)[j])
                || (exists|m: int|
                0 <= m < es.len() && mem_insert_sets(mem, es, s)[j] == (
                es[m].0,
                MemValV::Scalar(es[m].1, s),
            ))),
    decreases es.len(),
{
    if es.len() == 0 {
        assert forall|j: int| 0 <= j < mem_insert_sets(mem, es, s).len() implies (exists|m: int|
            0 <= m < mem.len() && mem[m] == #[trigger] mem_insert_sets(mem, es, s)[j]) by {
            assert(mem_insert_sets(mem, es, s) == mem);
            assert(0 <= j < mem.len() && mem[j] == mem_insert_sets(mem, es, s)[j]);
        }
    } else {
        let mem1 = sorted_insert(mem, es[0].0, MemValV::Scalar(es[0].1, s));
        crate::memtable::lemma_sorted_insert_sorted(mem, es[0].0, MemValV::Scalar(es[0].1, s));
        crate::memtable::lemma_sorted_insert_entries(mem, es[0].0, MemValV::Scalar(es[0].1, s));
        lemma_mem_insert_sets_props(mem1, es.skip(1), s);
        let res = mem_insert_sets(mem, es, s);
        let res1 = mem_insert_sets(mem1, es.skip(1), s);
        assert(res == res1);
        assert forall|j: int|
            0 <= j < mem_insert_sets(mem, es, s).len() implies ((exists|m: int|
            0 <= m < mem.len() && mem[m] == #[trigger] mem_insert_sets(mem, es, s)[j]) || (exists|
            m: int,
        |
            0 <= m < es.len() && mem_insert_sets(mem, es, s)[j] == (
            es[m].0,
            MemValV::Scalar(es[m].1, s),
        ))) by {
            assert((exists|m: int| 0 <= m < mem1.len() && mem1[m] == #[trigger] res1[j]) || (
            exists|m: int|
                0 <= m < es.skip(1).len() && res1[j] == (
                    es.skip(1)[m].0,
                    MemValV::Scalar(es.skip(1)[m].1, s),
                )));
            if exists|m: int| 0 <= m < mem1.len() && mem1[m] == res[j] {
                let m1 = choose|m1: int| 0 <= m1 < mem1.len() && mem1[m1] == res[j];
                if mem1[m1] == (es[0].0, MemValV::Scalar(es[0].1, s)) {
                    assert(0 <= 0 < es.len() && res[j] == (es[0].0, MemValV::Scalar(es[0].1, s)));
                } else {
                    let m0 = choose|m0: int| 0 <= m0 < mem.len() && mem[m0] == mem1[m1];
                    assert(mem[m0] == res[j]);
                }
            } else {
                let m = choose|m: int|
                    0 <= m < es.skip(1).len() && res[j] == (
                        es.skip(1)[m].0,
                        MemValV::Scalar(es.skip(1)[m].1, s),
                    );
                assert(es[m + 1] == es.skip(1)[m]);
                assert(0 <= m + 1 < es.len() && res[j] == (
                    es[m + 1].0,
                    MemValV::Scalar(es[m + 1].1, s),
                ));
            }
        }
    }
}

/// Batch log records extend the queue without touching what was there,
/// and all of them fit the log framing when the entries do.
proof fn lemma_wal_push_sets_ok(wal: Seq<RecV>, es: Seq<(Seq<u8>, Seq<u8>)>, s: u64)
    requires
        forall|i: int| 0 <= i < wal.len() ==> crate::walcodec::wal_rec_ok(#[trigger] wal[i]),
        forall|i: int|
            0 <= i < es.len() ==> (#[trigger] es[i]).0.len() + es[i].1.len() + 17 <= u32::MAX,
    ensures
        wal_push_sets(wal, es, s).len() == wal.len() + es.len(),
        forall|i: int|
            0 <= i < wal_push_sets(wal, es, s).len() ==> crate::walcodec::wal_rec_ok(
                #[trigger] wal_push_sets(wal, es, s)[i],
            ),
    decreases es.len(),
{
    if es.len() > 0 {
        let w1 = wal.push(RecV { kind: RT_SET, key: es[0].0, value: es[0].1, seq: s });
        assert(crate::walcodec::wal_rec_ok(w1[wal.len() as int]));
        assert(forall|i: int|
            0 <= i < w1.len() ==> crate::walcodec::wal_rec_ok(#[trigger] w1[i]));
        lemma_wal_push_sets_ok(w1, es.skip(1), s);
    }
}

impl Store {
    /// Some visible key lies strictly under `prefix/`.
    fn has_visible_descendant(&self, prefix: &[u8]) -> (r: bool)
        requires
            self.wf(),
        ensures
            r == spec_has_descendant(self@, prefix@),
    {
        let mut p = slice_to_bytes(prefix);
        p.push(SLASH);
        let found = self.scan_prefix(p.as_slice(), 1);
        proof {
            if found@.len() > 0 {
                assert(spec_get(self@, found@[0].0@) is Some);
                assert(p@.is_prefix_of(found@[0].0@));
            } else {
                if spec_has_descendant(self@, prefix@) {
                    let k = choose|k: Seq<u8>|
                        prefix@.push(SLASH).is_prefix_of(k) && (#[trigger] spec_get(
                            self@,
                            k,
                        )) is Some;
                    assert(!(exists|i: int| 0 <= i < found@.len() && #[trigger] found@[i].0@ == k));
                    assert(found@.len() == 1);
                }
            }
        }
        found.len() > 0
    }

    /// Apply a batch of point writes atomically: all entries share one new
    /// stamp, or nothing changes. With `replace_subtree_at = Some(p)` the
    /// batch first tombstones everything strictly under `p/` — and `p`
    /// itself if it held a scalar or had descendants — one stamp earlier.
    /// Fails exactly when an entry sits under a visible scalar ancestor or
    /// an entry is an ancestor of another entry.
    pub fn set_many(
        &mut self,
        entries: &Vec<(Vec<u8>, Vec<u8>)>,
        replace_subtree_at: Option<&[u8]>,
    ) -> (r: Result<(), WalDBError>)
        requires
            old(self).wf(),
            forall|i: int| #![trigger entries@[i]]
                0 <= i < entries@.len() ==> entries@[i].0@.len() > 0 && entries@[i].0@.len()
                    + entries@[i].1@.len() + 17 <= u32::MAX,
            replace_subtree_at matches Some(p) ==> p@.len() > 0 && p@.len() + 18 <= u32::MAX,
            old(self).seq + 2 <= u64::MAX,
        ensures
            final(self).wf(),
            ({
                let es = pairs_v(entries@);
                let ra = match replace_subtree_at {
                    Some(p) => Some(p@),
                    None => None,
                };
                match r {
                    Ok(_) => !batch_violation(old(self)@, es) && final(self)@ == spec_after_set_many(
                        old(self)@,
                        es,
                        ra,
                    ),
                    Err(e) => batch_violation(old(self)@, es) && final(self)@ == old(self)@ && e
                        is TreeStructureViolation,
                }
            }),
            final(self).new_files@ == old(self).new_files@,
            final(self).manifest_tail@ == old(self).manifest_tail@,
            final(self).dead_files@ == old(self).dead_files@,
    {
        let ghost pre = self@;
        let ghost es = pairs_v(entries@);
        let n = entries.len();
        let mut i: usize = 0;
        while i < n
            invariant
                self.wf(),
                self@ == pre,
                es == pairs_v(entries@),
                n == entries@.len(),
                i <= n,
                forall|a: int| 0 <= a < i ==> !tree_violation_at(pre, (#[trigger] es[a]).0),
            decreases n - i,
        {
            proof {
                assert(es[i as int].0 == entries@[i as int].0@);
            }
            match self.find_scalar_ancestor(&entries[i].0) {
                Some(parent) => {
                    proof {
                        assert(tree_violation_at(pre, es[i as int].0));
                    }
                    return Err(WalDBError::TreeStructureViolation {
                        path: crate::errors::bytes_to_text(&entries[i].0),
                        parent: crate::errors::bytes_to_text(parent.as_slice()),
                        reason: String::from_str("Cannot write under scalar parent"),
                    });
                },
                None => {},
            }
            i = i + 1;
        }
        proof {
            assert forall|x: int| 0 <= x < es.len() implies (#[trigger] es[x]).0.len() > 0
                && es[x].0.len() + es[x].1.len() + 17 <= u32::MAX by {
                assert(es[x] == (entries@[x].0@, entries@[x].1@));
            }
        }
        let mut a: usize = 0;
        while a < n
            invariant
                self.wf(),
                self@ == pre,
                es == pairs_v(entries@),
                forall|x: int|
                    0 <= x < es.len() ==> (#[trigger] es[x]).0.len() > 0 && es[x].0.len()
                        + es[x].1.len() + 17 <= u32::MAX,
                n == entries@.len(),
                a <= n,
                forall|x: int| 0 <= x < es.len() ==> !tree_violation_at(pre, (#[trigger] es[x]).0),
                forall|x: int, y: int|
                    0 <= x < a && 0 <= y < es.len() ==> !path_ancestor(
                        (#[trigger] es[x]).0,
                        (#[trigger] es[y]).0,
                    ),
            decreases n - a,
        {
            let mut pref = clone_bytes(&entries[a].0);
            pref.push(SLASH);
            proof {
                assert(es[a as int].0 == entries@[a as int].0@);
                assert(pref@ == es[a as int].0.push(SLASH));
            }
            let mut b: usize = 0;
            while b < n
                invariant
                    self.wf(),
                    self@ == pre,
                    es == pairs_v(entries@),
                    forall|x: int|
                        0 <= x < es.len() ==> (#[trigger] es[x]).0.len() > 0 && es[x].0.len()
                            + es[x].1.len() + 17 <= u32::MAX,
                    n == entries@.len(),
                    a < n,
                    b <= n,
                    pref@ == es[a as int].0.push(SLASH),
                    es[a as int].0.len() > 0,
                    forall|y: int|
                        0 <= y < b ==> !path_ancestor(es[a as int].0, (#[trigger] es[y]).0),
                decreases n - b,
            {
                proof {
                    assert(es[b as int].0 == entries@[b as int].0@);
                }
                if crate::order::bytes_starts_with(&entries[b].0, pref.as_slice()) {
                    proof {
                        assert(path_ancestor(es[a as int].0, es[b as int].0));
                    }
                    return Err(WalDBError::TreeStructureViolation {
                        path: crate::errors::bytes_to_text(&entries[b].0),
                        parent: crate::errors::bytes_to_text(&entries[a].0),
                        reason: String::from_str("Cannot write under scalar parent"),
                    });
                }
                b = b + 1;
            }
            a = a + 1;
        }
        proof {
            assert(!batch_violation(pre, es));
        }
        // The checks passed; apply the tombstones and then the writes.
        let mut set_seq: u64 = self.seq + 1;
        match replace_subtree_at {
            Some(p) => {
                let s1 = self.seq + 1;
                let delp_scalar = self.get(p).is_some();
                let delp_desc = self.has_visible_descendant(p);
                let mut prefix = slice_to_bytes(p);
                if prefix[prefix.len() - 1] != SLASH {
                    prefix.push(SLASH);
                }
                proof {
                    assert(prefix@ == norm_prefix(p@));
                }
                self.seq = s1;
                self.wal_buf.push(
                    Rec { kind: RT_DEL_SUB, key: clone_bytes(&prefix), value: Vec::new(), seq: s1 },
                );
                self.subtombs.add(prefix, s1);
                if delp_scalar || delp_desc {
                    self.wal_buf.push(
                        Rec { kind: RT_DEL_POINT, key: slice_to_bytes(p), value: Vec::new(), seq: s1 },
                    );
                    self.memtable.insert(slice_to_bytes(p), MemValue::PointTomb(s1));
                }
                set_seq = if n > 0 {
                    self.seq + 1
                } else {
                    s1
                };
            },
            None => {},
        }
        if n == 0 {
            proof {
                let ra: Option<Seq<u8>> = match replace_subtree_at {
                    Some(p) => Some(p@),
                    None => None,
                };
                let post = spec_after_set_many(pre, es, ra);
                assert(self@.tombs =~= post.tombs);
                assert(self@.wal =~= post.wal);
                assert(self@ == post);
                lemma_batch_wf(pre, self@, es, ra);
            }
            return Ok(());
        }
        self.seq = set_seq;
        let ghost mid = self@;
        let mut i2: usize = 0;
        proof {
            assert(es.skip(0) =~= es);
        }
        while i2 < n
            invariant
                es == pairs_v(entries@),
                n == entries@.len(),
                forall|x: int|
                    0 <= x < es.len() ==> (#[trigger] es[x]).0.len() > 0 && es[x].0.len()
                        + es[x].1.len() + 17 <= u32::MAX,
                i2 <= n,
                n > 0,
                self.memtable.wf(),
                self@.seq == mid.seq,
                self@.tombs == mid.tombs,
                self@.l0 == mid.l0,
                self@.l1 == mid.l1,
                self@.l2 == mid.l2,
                mem_insert_sets(mid.mem, es, set_seq) == mem_insert_sets(
                    self@.mem,
                    es.skip(i2 as int),
                    set_seq,
                ),
                wal_push_sets(mid.wal, es, set_seq) == wal_push_sets(
                    self@.wal,
                    es.skip(i2 as int),
                    set_seq,
                ),
                self.new_files@ == old(self).new_files@,
                self.manifest_tail@ == old(self).manifest_tail@,
                self.dead_files@ == old(self).dead_files@,
                self.l0@ == old(self).l0@,
                self.l1@ == old(self).l1@,
                self.l2@ == old(self).l2@,
                self.seq == set_seq,
                mem_sorted(self@.mem),
            decreases n - i2,
        {
            proof {
                assert(es.skip(i2 as int)[0] == es[i2 as int]);
                assert(es.skip(i2 as int).skip(1) =~= es.skip(i2 + 1));
                assert(es[i2 as int] == (entries@[i2 as int].0@, entries@[i2 as int].1@));
            }
            let ghost wal_before = self@.wal;
            let ghost mem_before = self@.mem;
            self.wal_buf.push(
                Rec {
                    kind: RT_SET,
                    key: clone_bytes(&entries[i2].0),
                    value: clone_bytes(&entries[i2].1),
                    seq: set_seq,
                },
            );
            self.memtable.insert(
                clone_bytes(&entries[i2].0),
                MemValue::Scalar(clone_bytes(&entries[i2].1), set_seq),
            );
            proof {
                let rec = RecV {
                    kind: RT_SET,
                    key: es[i2 as int].0,
                    value: es[i2 as int].1,
                    seq: set_seq,
                };
                assert(self@.wal =~= wal_before.push(rec));
                assert(wal_push_sets(wal_before, es.skip(i2 as int), set_seq) == wal_push_sets(
                    self@.wal,
                    es.skip(i2 + 1),
                    set_seq,
                ));
                assert(self@.mem == sorted_insert(
                    mem_before,
                    es[i2 as int].0,
                    MemValV::Scalar(es[i2 as int].1, set_seq),
                ));
                assert(mem_insert_sets(mem_before, es.skip(i2 as int), set_seq)
                    == mem_insert_sets(self@.mem, es.skip(i2 + 1), set_seq));
            }
            i2 = i2 + 1;
        }
        proof {
            assert(es.skip(i2 as int).len() == 0);
            let ra: Option<Seq<u8>> = match replace_subtree_at {
                Some(p) => Some(p@),
                None => None,
            };
            let post = spec_after_set_many(pre, es, ra);
            assert(self@.mem == mem_insert_sets(mid.mem, es, set_seq));
            assert(self@.wal == wal_push_sets(mid.wal, es, set_seq));
            match ra {
                None => {
                    assert(mid.mem == pre.mem && mid.wal == pre.wal);
                    assert(self@.tombs =~= post.tombs);
                    assert(self@ == post);
                },
                Some(pv) => {
                    assert(self@.tombs =~= post.tombs);
                    assert(mid.wal =~= if spec_get(pre, pv) is Some || spec_has_descendant(
                        pre,
                        pv,
                    ) {
                        pre.wal.push(
                            RecV {
                                kind: RT_DEL_SUB,
                                key: norm_prefix(pv),
                                value: Seq::empty(),
                                seq: (pre.seq + 1) as u64,
                            },
                        ).push(
                            RecV {
                                kind: RT_DEL_POINT,
                                key: pv,
                                value: Seq::empty(),
                                seq: (pre.seq + 1) as u64,
                            },
                        )
                    } else {
                        pre.wal.push(
                            RecV {
                                kind: RT_DEL_SUB,
                                key: norm_prefix(pv),
                                value: Seq::empty(),
                                seq: (pre.seq + 1) as u64,
                            },
                        )
                    });
                    assert(self@ == post);
                },
            }
            lemma_batch_wf(pre, self@, es, ra);
        }
        Ok(())
    }
}

/// A successful batch leaves the store well-formed.
proof fn lemma_batch_wf(pre: StoreV, post: StoreV, es: Seq<(Seq<u8>, Seq<u8>)>, ra: Option<Seq<u8>>)
    requires
        wf_v(pre),
        pre.seq + 2 <= u64::MAX,
        forall|i: int|
            0 <= i < es.len() ==> (#[trigger] es[i]).0.len() > 0 && es[i].0.len() + es[i].1.len()
                + 17 <= u32::MAX,
        ra matches Some(p) ==> p.len() > 0 && p.len() + 18 <= u32::MAX,
        post == spec_after_set_many(pre, es, ra),
    ensures
        wf_v(post),
{
    assert forall|i: int|
        0 <= i < post.wal.len() implies crate::walcodec::wal_rec_ok(#[trigger] post.wal[i]) by {
        lemma_batch_wal_ok(pre, post, es, ra, i);
    }
    match ra {
        None => {
            if es.len() == 0 {
            } else {
                let s = (pre.seq + 1) as u64;
                lemma_mem_insert_sets_props(pre.mem, es, s);
                assert forall|i: int| 0 <= i < post.mem.len() implies {
                    &&& mem_entry_seq(#[trigger] post.mem[i].1) <= post.seq
                    &&& post.mem[i].0.len() + mem_entry_len(post.mem[i].1) + 17 <= u32::MAX
                } by {
                    lemma_batch_entry_bound(pre, post, es, s, i);
                }
                assert(all_segs(post) == all_segs(pre));
            }
        },
        Some(p) => {
            let s1 = (pre.seq + 1) as u64;
            let delp = spec_get(pre, p) is Some || spec_has_descendant(pre, p);
            let mem1 = if delp {
                sorted_insert(pre.mem, p, MemValV::PointTomb(s1))
            } else {
                pre.mem
            };
            crate::memtable::lemma_sorted_insert_sorted(pre.mem, p, MemValV::PointTomb(s1));
            crate::memtable::lemma_sorted_insert_entries(pre.mem, p, MemValV::PointTomb(s1));
            assert(mem_sorted(mem1));
            assert forall|i: int| 0 <= i < mem1.len() implies {
                &&& mem_entry_seq(#[trigger] mem1[i].1) <= post.seq
                &&& mem1[i].0.len() + mem_entry_len(mem1[i].1) + 17 <= u32::MAX
            } by {
                if delp {
                    if mem1[i] != (p, MemValV::PointTomb(s1)) {
                        let m = choose|m: int| 0 <= m < pre.mem.len() && pre.mem[m] == mem1[i];
                        assert(mem_entry_seq(pre.mem[m].1) <= pre.seq);
                    }
                }
            }
            if es.len() == 0 {
                assert(all_segs(post) == all_segs(pre));
            } else {
                let s2 = (pre.seq + 2) as u64;
                lemma_mem_insert_sets_props(mem1, es, s2);
                assert forall|i: int| 0 <= i < post.mem.len() implies {
                    &&& mem_entry_seq(#[trigger] post.mem[i].1) <= post.seq
                    &&& post.mem[i].0.len() + mem_entry_len(post.mem[i].1) + 17 <= u32::MAX
                } by {
                    if exists|m: int| 0 <= m < mem1.len() && mem1[m] == post.mem[i] {
                        let m = choose|m: int| 0 <= m < mem1.len() && mem1[m] == post.mem[i];
                        assert(mem_entry_seq(mem1[m].1) <= post.seq);
                    } else {
                        let m = choose|m: int|
                            0 <= m < es.len() && post.mem[i] == (
                                es[m].0,
                                MemValV::Scalar(es[m].1, s2),
                            );
                    }
                }
                assert(all_segs(post) == all_segs(pre));
            }
        },
    }
}

/// Every memtable entry of a replace-free batch result obeys the bounds.
proof fn lemma_batch_entry_bound(
    pre: StoreV,
    post: StoreV,
    es: Seq<(Seq<u8>, Seq<u8>)>,
    s: u64,
    i: int,
)
    requires
        wf_v(pre),
        s <= post.seq,
        post.mem == mem_insert_sets(pre.mem, es, s),
        pre.seq < s,
        forall|m: int|
            0 <= m < es.len() ==> (#[trigger] es[m]).0.len() > 0 && es[m].0.len() + es[m].1.len()
                + 17 <= u32::MAX,
        0 <= i < post.mem.len(),
    ensures
        mem_entry_seq(post.mem[i].1) <= post.seq,
        post.mem[i].0.len() + mem_entry_len(post.mem[i].1) + 17 <= u32::MAX,
{
    lemma_mem_insert_sets_props(pre.mem, es, s);
    if exists|m: int| 0 <= m < pre.mem.len() && pre.mem[m] == post.mem[i] {
        let m = choose|m: int| 0 <= m < pre.mem.len() && pre.mem[m] == post.mem[i];
        assert(mem_entry_seq(pre.mem[m].1) <= pre.seq);
    } else {
        let m = choose|m: int|
            0 <= m < es.len() && post.mem[i] == (es[m].0, MemValV::Scalar(es[m].1, s));
    }
}

/// Every queued log record after a batch fits the framing.
proof fn lemma_batch_wal_ok(
    pre: StoreV,
    post: StoreV,
    es: Seq<(Seq<u8>, Seq<u8>)>,
    ra: Option<Seq<u8>>,
    i: int,
)
    requires
        wf_v(pre),
        forall|m: int|
            0 <= m < es.len() ==> (#[trigger] es[m]).0.len() > 0 && es[m].0.len() + es[m].1.len()
                + 17 <= u32::MAX,
        ra matches Some(p) ==> p.len() > 0 && p.len() + 18 <= u32::MAX,
        post == spec_after_set_many(pre, es, ra),
        0 <= i < post.wal.len(),
    ensures
        crate::walcodec::wal_rec_ok(post.wal[i]),
{
    match ra {
        None => {
            if es.len() > 0 {
                lemma_wal_push_sets_ok(pre.wal, es, (pre.seq + 1) as u64);
            }
        },
        Some(p) => {
            let s1 = (pre.seq + 1) as u64;
            let delp = spec_get(pre, p) is Some || spec_has_descendant(pre, p);
            let wal1 = pre.wal.push(
                RecV { kind: RT_DEL_SUB, key: norm_prefix(p), value: Seq::empty(), seq: s1 },
            );
            let wal2 = if delp {
                wal1.push(RecV { kind: RT_DEL_POINT, key: p, value: Seq::empty(), seq: s1 })
            } else {
                wal1
            };
            assert(norm_prefix(p).len() <= p.len() + 1);
            assert(forall|m: int|
                0 <= m < wal2.len() ==> crate::walcodec::wal_rec_ok(#[trigger] wal2[m]));
            if es.len() > 0 {
                lemma_wal_push_sets_ok(wal2, es, (pre.seq + 2) as u64);
            }
        },
    }
}

} // verus!
