//! Ordered scans: range queries, prefix scans, and glob-pattern queries.
//!
//! Every scan works the same way: gather the sorted set of candidate keys
//! that appear anywhere in the store, then resolve each candidate through
//! the same visibility rule as a point read. Candidate gathering is
//! complete — a key that is visible anywhere is present somewhere — so the
//! contracts can promise both soundness and completeness of the results.

use vstd::prelude::*;

use crate::memtable::{mem_has_key, mem_lookup, lemma_mem_lookup_has_key, MemValV};
use crate::order::{
    bytes_eq, bytes_le, bytes_lt, bytes_starts_with, lemma_lex_lt_connected, lemma_lex_lt_irrefl,
    lemma_lex_lt_trans, lex_le, lex_lt,
};
use crate::pattern::{matches_pattern, spec_matches};
use crate::rec::{clone_bytes, slice_to_bytes, RecV};
use crate::segment::{seg_has_key, Segment};
use crate::store::{all_segs, spec_get, Store, StoreV};

verus! {

/// Key `k` appears somewhere: in the memtable or in some segment.
pub open spec fn key_present(v: StoreV, k: Seq<u8>) -> bool {
    mem_has_key(v.mem, k) || exists|si: int|
        0 <= si < all_segs(v).len() && seg_has_key(#[trigger] all_segs(v)[si], k)
}

/// The keys of a candidate list as mathematical values.
pub open spec fn kv(ks: Seq<Vec<u8>>) -> Seq<Seq<u8>> {
    ks.map_values(|v: Vec<u8>| v@)
}

/// Strictly ascending, hence duplicate-free.
pub open spec fn keys_sorted(ks: Seq<Seq<u8>>) -> bool {
    forall|i: int, j: int| 0 <= i < j < ks.len() ==> lex_lt(ks[i], ks[j])
}

pub open spec fn keys_contains(ks: Seq<Seq<u8>>, k: Seq<u8>) -> bool {
    exists|i: int| 0 <= i < ks.len() && ks[i] == k
}

/// Insert a key into a sorted candidate list, keeping it sorted and
/// duplicate-free.
fn insert_key(ks: &mut Vec<Vec<u8>>, k: &[u8])
    requires
        keys_sorted(kv(old(ks)@)),
    ensures
        keys_sorted(kv(final(ks)@)),
        forall|x: Seq<u8>| #![trigger keys_contains(kv(final(ks)@), x)]
            keys_contains(kv(final(ks)@), x) <==> (keys_contains(kv(old(ks)@), x) || x == k@),
        final(ks)@.len() <= old(ks)@.len() + 1,
{
    let ghost s = kv(ks@);
    let mut pos: usize = 0;
    loop
        invariant_except_break
            kv(ks@) == s,
            keys_sorted(s),
            pos <= ks@.len(),
            forall|j: int| 0 <= j < pos ==> lex_lt(#[trigger] s[j], k@),
        ensures
            kv(ks@) == s,
            pos <= ks@.len(),
            forall|j: int| 0 <= j < pos ==> lex_lt(#[trigger] s[j], k@),
            pos < ks@.len() ==> !lex_lt(s[pos as int], k@),
        decreases ks@.len() - pos,
    {
        if pos >= ks.len() {
            break ;
        }
        let below = bytes_lt(&ks[pos], k);
        proof {
            assert(s[pos as int] == ks@[pos as int]@);
        }
        if !below {
            break ;
        }
        pos = pos + 1;
    }
    if pos < ks.len() && bytes_eq(&ks[pos], k) {
        proof {
            assert(s[pos as int] == k@);
        }
        return ;
    }
    proof {
        if pos < ks@.len() {
            assert(s[pos as int] != k@);
            assert(lex_lt(k@, s[pos as int])) by {
                if !lex_lt(k@, s[pos as int]) {
                    lemma_lex_lt_connected(k@, s[pos as int]);
                }
            }
        }
    }
    ks.insert(pos, slice_to_bytes(k));
    proof {
        let ns = kv(ks@);
        assert(ns =~= s.take(pos as int) + seq![k@] + s.skip(pos as int));
        assert forall|i: int, j: int| 0 <= i < j < ns.len() implies lex_lt(ns[i], ns[j]) by {
            let p = pos as int;
            if i < p && j == p {
            } else if i < p && j > p {
                assert(ns[i] == s[i] && ns[j] == s[j - 1]);
                if i == j - 1 {
                    assert(lex_lt(s[i], k@));
                    assert(lex_lt(k@, s[i]));
                    lemma_lex_lt_trans(s[i], k@, s[i]);
                    lemma_lex_lt_irrefl(s[i]);
                }
            } else if i == p && j > p {
                assert(ns[j] == s[j - 1]);
                if j - 1 == p {
                    assert(lex_lt(k@, s[p]));
                } else {
                    assert(lex_lt(k@, s[p]));
                    assert(lex_lt(s[p], s[j - 1]));
                    lemma_lex_lt_trans(k@, s[p], s[j - 1]);
                }
            }
        }
        assert forall|x: Seq<u8>|
            keys_contains(ns, x) <==> (keys_contains(s, x) || x == k@) by {
            if keys_contains(ns, x) {
                let i = choose|i: int| 0 <= i < ns.len() && ns[i] == x;
                if i < pos as int {
                    assert(s[i] == x);
                } else if i > pos as int {
                    assert(s[i - 1] == x);
                }
            }
            if keys_contains(s, x) {
                let i = choose|i: int| 0 <= i < s.len() && s[i] == x;
                if i < pos as int {
                    assert(ns[i] == x);
                } else {
                    assert(ns[i + 1] == x);
                }
            }
            if x == k@ {
                assert(ns[pos as int] == x);
            }
        }
    }
}

/// Add every key of one segment to the candidate list.
fn add_seg_keys(ks: &mut Vec<Vec<u8>>, seg: &Segment)
    requires
        keys_sorted(kv(old(ks)@)),
    ensures
        keys_sorted(kv(final(ks)@)),
        forall|x: Seq<u8>| #![trigger keys_contains(kv(final(ks)@), x)]
            keys_contains(kv(final(ks)@), x) <==> (keys_contains(kv(old(ks)@), x) || seg_has_key(
                seg.recs(),
                x,
            )),
        final(ks)@.len() <= old(ks)@.len() + seg.recs().len(),
{
    let ghost rv = seg.recs();
    let mut i: usize = 0;
    while i < seg.records.len()
        invariant
            rv == seg.recs(),
            i <= seg.records.len(),
            keys_sorted(kv(ks@)),
            ks@.len() <= old(ks)@.len() + i,
            forall|x: Seq<u8>|
                keys_contains(kv(ks@), x) <==> (keys_contains(kv(old(ks)@), x) || exists|j: int|
                    0 <= j < i && (#[trigger] rv[j]).key == x),
        decreases seg.records.len() - i,
    {
        proof {
            assert(rv[i as int].key == seg.records@[i as int]@.key);
        }
        let ghost pre = kv(ks@);
        insert_key(ks, &seg.records[i].key);
        proof {
            assert forall|x: Seq<u8>|
                keys_contains(kv(ks@), x) <==> (keys_contains(kv(old(ks)@), x) || exists|j: int|
                    0 <= j < i + 1 && (#[trigger] rv[j]).key == x) by {
                if keys_contains(kv(ks@), x) {
                    if x == rv[i as int].key {
                        let w: int = i as int;
                        assert(0 <= w < i + 1 && rv[w].key == x);
                    }
                }
                if exists|j: int| 0 <= j < i + 1 && (#[trigger] rv[j]).key == x {
                    let j = choose|j: int| 0 <= j < i + 1 && (#[trigger] rv[j]).key == x;
                    if j < i as int {
                        assert(keys_contains(pre, x));
                    } else {
                        assert(x == rv[i as int].key);
                    }
                }
            }
        }
        i = i + 1;
    }
    proof {
        assert forall|x: Seq<u8>|
            keys_contains(kv(ks@), x) <==> (keys_contains(kv(old(ks)@), x) || seg_has_key(
                rv,
                x,
            )) by {
            if seg_has_key(rv, x) {
                let j = choose|j: int| 0 <= j < rv.len() && rv[j].key == x;
                assert(0 <= j < i && rv[j].key == x);
            }
        }
    }
}

/// Some segment of the list holds key `x`.
pub open spec fn level_has_key(segs: Seq<Segment>, x: Seq<u8>) -> bool {
    exists|si: int| 0 <= si < segs.len() && seg_has_key((#[trigger] segs[si]).recs(), x)
}

/// Add the keys of every segment of one level.
fn add_level_keys(ks: &mut Vec<Vec<u8>>, segs: &Vec<Segment>)
    requires
        keys_sorted(kv(old(ks)@)),
    ensures
        keys_sorted(kv(final(ks)@)),
        forall|x: Seq<u8>| #![trigger keys_contains(kv(final(ks)@), x)]
            keys_contains(kv(final(ks)@), x) <==> (keys_contains(kv(old(ks)@), x)
                || level_has_key(segs@, x)),
        final(ks)@.len() <= old(ks)@.len() + segs_size(segs@.map_values(|s: Segment| s.recs())),
{
    let ghost lv = segs@.map_values(|s: Segment| s.recs());
    let mut i: usize = 0;
    while i < segs.len()
        invariant
            lv == segs@.map_values(|s: Segment| s.recs()),
            i <= segs.len(),
            keys_sorted(kv(ks@)),
            ks@.len() <= old(ks)@.len() + segs_size(lv.take(i as int)),
            forall|x: Seq<u8>|
                keys_contains(kv(ks@), x) <==> (keys_contains(kv(old(ks)@), x) || exists|si: int|
                    0 <= si < i && seg_has_key((#[trigger] segs@[si]).recs(), x)),
        decreases segs.len() - i,
    {
        proof {
            assert(lv[i as int] == segs@[i as int].recs());
            lemma_segs_size_take(lv, i as int);
        }
        let ghost pre = kv(ks@);
        let cur = &segs[i];
        proof {
            assert(cur.recs() == segs@[i as int].recs());
        }
        add_seg_keys(ks, cur);
        proof {
            assert forall|x: Seq<u8>|
                keys_contains(kv(ks@), x) <==> (keys_contains(kv(old(ks)@), x) || exists|si: int|
                    0 <= si < i + 1 && seg_has_key((#[trigger] segs@[si]).recs(), x)) by {
                assert(keys_contains(kv(ks@), x) <==> (keys_contains(pre, x) || seg_has_key(
                    cur.recs(),
                    x,
                )));
                if keys_contains(kv(ks@), x) {
                    if seg_has_key(segs@[i as int].recs(), x) {
                        let w: int = i as int;
                        assert(0 <= w < i + 1 && seg_has_key(segs@[w].recs(), x));
                    }
                }
                if exists|si: int|
                    0 <= si < i + 1 && seg_has_key((#[trigger] segs@[si]).recs(), x) {
                    let si = choose|si: int|
                        0 <= si < i + 1 && seg_has_key((#[trigger] segs@[si]).recs(), x);
                    if si < i as int {
                        assert(keys_contains(pre, x));
                    }
                }
            }
        }
        i = i + 1;
    }
    proof {
        assert(lv.take(i as int) =~= lv);
    }
}

/// Total number of records across a list of segments.
pub open spec fn segs_size(segs: Seq<Seq<RecV>>) -> nat
    decreases segs.len(),
{
    if segs.len() == 0 {
        0
    } else {
        segs[0].len() + segs_size(segs.skip(1))
    }
}

/// One more segment adds its record count.
proof fn lemma_segs_size_take(segs: Seq<Seq<RecV>>, i: int)
    requires
        0 <= i < segs.len(),
    ensures
        segs_size(segs.take(i + 1)) == segs_size(segs.take(i)) + segs[i].len(),
    decreases i,
{
    if i == 0 {
        assert(segs.take(1)[0] == segs[0]);
        assert(segs.take(1).skip(1) =~= Seq::<Seq<RecV>>::empty());
        assert(segs.take(0) =~= Seq::<Seq<RecV>>::empty());
    } else {
        assert(segs.take(i + 1)[0] == segs[0]);
        assert(segs.take(i + 1).skip(1) =~= segs.skip(1).take(i));
        assert(segs.take(i)[0] == segs[0]);
        assert(segs.take(i).skip(1) =~= segs.skip(1).take(i - 1));
        lemma_segs_size_take(segs.skip(1), i - 1);
    }
}

/// Record totals add over concatenation.
proof fn lemma_segs_size_concat(a: Seq<Seq<RecV>>, b: Seq<Seq<RecV>>)
    ensures
        segs_size(a + b) == segs_size(a) + segs_size(b),
    decreases a.len(),
{
    if a.len() == 0 {
        assert(a + b =~= b);
    } else {
        assert((a + b)[0] == a[0]);
        assert((a + b).skip(1) =~= a.skip(1) + b);
        lemma_segs_size_concat(a.skip(1), b);
    }
}

/// Total number of records and memtable entries in a store state; an upper
/// bound on how many distinct keys it can hold.
pub open spec fn total_recs(v: StoreV) -> nat {
    v.mem.len() + segs_size(all_segs(v))
}

/// A visible key is present in the memtable or in some segment.
pub proof fn lemma_visible_is_present(v: StoreV, k: Seq<u8>)
    ensures
        spec_get(v, k) is Some ==> key_present(v, k),
{
    if spec_get(v, k) is Some {
        lemma_mem_lookup_has_key(v.mem, k);
        if mem_lookup(v.mem, k) is None {
            crate::store::lemma_best_from_found(all_segs(v), v.tombs, k, None);
        }
    }
}

impl Store {
    /// Every key present anywhere in the store, sorted and without
    /// duplicates.
    fn collect_keys(&self) -> (ks: Vec<Vec<u8>>)
        requires
            self.wf(),
        ensures
            keys_sorted(kv(ks@)),
            forall|x: Seq<u8>| keys_contains(kv(ks@), x) <==> key_present(self@, x),
            ks@.len() <= total_recs(self@),
    {
        let mut ks: Vec<Vec<u8>> = Vec::new();
        let mut i: usize = 0;
        while i < self.memtable.entries.len()
            invariant
                self.wf(),
                i <= self.memtable.entries.len(),
                keys_sorted(kv(ks@)),
                ks@.len() <= i,
                forall|x: Seq<u8>|
                    keys_contains(kv(ks@), x) <==> exists|j: int|
                        0 <= j < i && #[trigger] self@.mem[j].0 == x,
            decreases self.memtable.entries.len() - i,
        {
            proof {
                assert(self@.mem[i as int].0 == self.memtable.entries@[i as int].0@);
            }
            let ghost pre = kv(ks@);
            insert_key(&mut ks, &self.memtable.entries[i].0);
            proof {
                assert forall|x: Seq<u8>|
                    keys_contains(kv(ks@), x) <==> exists|j: int|
                        0 <= j < i + 1 && #[trigger] self@.mem[j].0 == x by {
                    if keys_contains(kv(ks@), x) {
                        if x == self@.mem[i as int].0 {
                            let w: int = i as int;
                            assert(0 <= w < i + 1 && self@.mem[w].0 == x);
                        }
                    }
                    if exists|j: int| 0 <= j < i + 1 && #[trigger] self@.mem[j].0 == x {
                        let j = choose|j: int| 0 <= j < i + 1 && #[trigger] self@.mem[j].0 == x;
                        if j < i as int {
                            assert(keys_contains(pre, x));
                        }
                    }
                }
            }
            i = i + 1;
        }
        let ghost k0 = kv(ks@);
        add_level_keys(&mut ks, &self.l0);
        let ghost k1 = kv(ks@);
        add_level_keys(&mut ks, &self.l1);
        let ghost k2 = kv(ks@);
        add_level_keys(&mut ks, &self.l2);
        proof {
            let v = self@;
            assert forall|x: Seq<u8>| keys_contains(kv(ks@), x) <==> key_present(v, x) by {
                assert(keys_contains(kv(ks@), x) <==> (keys_contains(k2, x) || level_has_key(
                    self.l2@,
                    x,
                )));
                assert(keys_contains(k2, x) <==> (keys_contains(k1, x) || level_has_key(
                    self.l1@,
                    x,
                )));
                assert(keys_contains(k1, x) <==> (keys_contains(k0, x) || level_has_key(
                    self.l0@,
                    x,
                )));
                if keys_contains(kv(ks@), x) {
                    if mem_has_key(v.mem, x) {
                    } else if level_has_key(self.l0@, x) {
                        let si = choose|si: int|
                            0 <= si < self.l0@.len() && seg_has_key(
                                (#[trigger] self.l0@[si]).recs(),
                                x,
                            );
                        assert(all_segs(v)[si] == v.l0[si]);
                        assert(v.l0[si] == self.l0@[si].recs());
                        assert(seg_has_key(all_segs(v)[si], x));
                    } else if level_has_key(self.l1@, x) {
                        let si = choose|si: int|
                            0 <= si < self.l1@.len() && seg_has_key(
                                (#[trigger] self.l1@[si]).recs(),
                                x,
                            );
                        assert(all_segs(v)[v.l0.len() + si] == v.l1[si]);
                        assert(seg_has_key(all_segs(v)[v.l0.len() + si], x));
                    } else if level_has_key(self.l2@, x) {
                        let si = choose|si: int|
                            0 <= si < self.l2@.len() && seg_has_key(
                                (#[trigger] self.l2@[si]).recs(),
                                x,
                            );
                        assert(all_segs(v)[v.l0.len() + v.l1.len() + si] == v.l2[si]);
                        assert(seg_has_key(all_segs(v)[v.l0.len() + v.l1.len() + si], x));
                    }
                }
                if key_present(v, x) {
                    if mem_has_key(v.mem, x) {
                        let j = choose|j: int| 0 <= j < v.mem.len() && v.mem[j].0 == x;
                        assert(0 <= j < i && v.mem[j].0 == x);
                        assert(keys_contains(kv(ks@), x));
                    } else {
                        let si = choose|si: int|
                            0 <= si < all_segs(v).len() && seg_has_key(
                                #[trigger] all_segs(v)[si],
                                x,
                            );
                        if si < v.l0.len() {
                            assert(all_segs(v)[si] == v.l0[si]);
                            assert(v.l0[si] == self.l0@[si].recs());
                            assert(level_has_key(self.l0@, x));
                        } else if si < v.l0.len() + v.l1.len() {
                            assert(all_segs(v)[si] == v.l1[si - v.l0.len()]);
                            assert(v.l1[si - v.l0.len()] == self.l1@[si - v.l0.len()].recs());
                            assert(level_has_key(self.l1@, x));
                        } else {
                            assert(all_segs(v)[si] == v.l2[si - v.l0.len() - v.l1.len()]);
                            assert(v.l2[si - v.l0.len() - v.l1.len()] == self.l2@[si - v.l0.len()
                                - v.l1.len()].recs());
                            assert(level_has_key(self.l2@, x));
                        }
                    }
                }
            }
            assert(segs_size(all_segs(v)) == segs_size(v.l0) + segs_size(v.l1) + segs_size(
                v.l2,
            )) by {
                lemma_segs_size_concat(v.l1, v.l2);
                lemma_segs_size_concat(v.l0, v.l1 + v.l2);
                assert(all_segs(v) =~= v.l0 + (v.l1 + v.l2));
            }
        }
        ks
    }

    /// All visible keys in `[start, end)` with their values, in strictly
    /// ascending key order.
    pub fn get_range(&self, start: &[u8], end: &[u8]) -> (r: Vec<(Vec<u8>, Vec<u8>)>)
        requires
            self.wf(),
        ensures
            forall|i: int, j: int| 0 <= i < j < r@.len() ==> lex_lt(r@[i].0@, r@[j].0@),
            forall|i: int|
                0 <= i < r@.len() ==> lex_le(start@, #[trigger] r@[i].0@) && lex_lt(
                    r@[i].0@,
                    end@,
                ) && spec_get(self@, r@[i].0@) == Some(r@[i].1@),
            forall|k: Seq<u8>|
                lex_le(start@, k) && lex_lt(k, end@) && spec_get(self@, k) is Some ==> exists|
                    i: int,
                |
                    0 <= i < r@.len() && #[trigger] r@[i].0@ == k,
            r@.len() <= total_recs(self@),
    {
        let ks = self.collect_keys();
        let ghost cand = kv(ks@);
        let mut out: Vec<(Vec<u8>, Vec<u8>)> = Vec::new();
        let mut i: usize = 0;
        while i < ks.len()
            invariant
                self.wf(),
                cand == kv(ks@),
                keys_sorted(cand),
                forall|x: Seq<u8>| keys_contains(cand, x) <==> key_present(self@, x),
                i <= ks@.len(),
                out@.len() <= i,
                forall|a: int, b: int| 0 <= a < b < out@.len() ==> lex_lt(out@[a].0@, out@[b].0@),
                forall|a: int|
                    0 <= a < out@.len() ==> lex_le(start@, #[trigger] out@[a].0@) && lex_lt(
                        out@[a].0@,
                        end@,
                    ) && spec_get(self@, out@[a].0@) == Some(out@[a].1@),
                forall|a: int|
                    0 <= a < out@.len() ==> exists|j: int|
                        0 <= j < i && #[trigger] out@[a].0@ == cand[j],
                forall|j: int|
                    0 <= j < i && lex_le(start@, #[trigger] cand[j]) && lex_lt(cand[j], end@)
                        && spec_get(self@, cand[j]) is Some ==> exists|a: int|
                        0 <= a < out@.len() && out@[a].0@ == cand[j],
            decreases ks@.len() - i,
        {
            let key = &ks[i];
            proof {
                assert(cand[i as int] == ks@[i as int]@);
            }
            let ghost preout = out@;
            let lo_ok = bytes_le(start, key.as_slice());
            let hi_ok = bytes_lt(key.as_slice(), end);
            if lo_ok && hi_ok {
                match self.get(key.as_slice()) {
                    Some(val) => {
                        out.push((clone_bytes(key), val));
                        proof {
                            assert(out@[out@.len() - 1].0@ == cand[i as int]);
                            assert forall|a: int, b: int|
                                0 <= a < b < out@.len() implies lex_lt(
                                out@[a].0@,
                                out@[b].0@,
                            ) by {
                                if b == out@.len() - 1 {
                                    let j = choose|j: int|
                                        0 <= j < i && #[trigger] preout[a].0@ == cand[j];
                                    assert(lex_lt(cand[j], cand[i as int]));
                                }
                            }
                        }
                    },
                    None => {},
                }
            }
            proof {
                assert forall|j: int|
                    0 <= j < i + 1 && lex_le(start@, #[trigger] cand[j]) && lex_lt(cand[j], end@)
                        && spec_get(self@, cand[j]) is Some implies exists|a: int|
                    0 <= a < out@.len() && out@[a].0@ == cand[j] by {
                    if j == i as int {
                        assert(out@[out@.len() - 1].0@ == cand[j]);
                    } else {
                        let a = choose|a: int| 0 <= a < preout.len() && preout[a].0@ == cand[j];
                        assert(out@[a].0@ == cand[j]);
                    }
                }
            }
            i = i + 1;
        }
        proof {
            assert forall|k: Seq<u8>|
                lex_le(start@, k) && lex_lt(k, end@) && spec_get(self@, k) is Some implies exists|
                    a: int,
                |
                    0 <= a < out@.len() && #[trigger] out@[a].0@ == k by {
                lemma_visible_is_present(self@, k);
                let j = choose|j: int| 0 <= j < cand.len() && cand[j] == k;
                assert(0 <= j < i as int);
            }
        }
        out
    }

    /// The first `limit` entries of [`Store::get_range`]: ascending, all
    /// in `[start, end)`, and complete up to the cap — anything visible in
    /// range but missing lies beyond the last returned key.
    pub fn get_range_limit(&self, start: &[u8], end: &[u8], limit: usize) -> (r: Vec<
        (Vec<u8>, Vec<u8>),
    >)
        requires
            self.wf(),
        ensures
            r@.len() <= limit,
            forall|i: int, j: int| 0 <= i < j < r@.len() ==> lex_lt(r@[i].0@, r@[j].0@),
            forall|i: int|
                0 <= i < r@.len() ==> lex_le(start@, #[trigger] r@[i].0@) && lex_lt(
                    r@[i].0@,
                    end@,
                ) && spec_get(self@, r@[i].0@) == Some(r@[i].1@),
            forall|k: Seq<u8>|
                (lex_le(start@, k) && lex_lt(k, end@) && spec_get(self@, k) is Some && !(exists|
                    i: int,
                |
                    0 <= i < r@.len() && #[trigger] r@[i].0@ == k)) ==> (r@.len() == limit && (
                limit == 0 || lex_lt(r@[r@.len() - 1].0@, k))),
    {
        let mut r = self.get_range(start, end);
        let ghost full = r@;
        if r.len() > limit {
            r.truncate(limit);
            proof {
                assert(r@ =~= full.take(limit as int));
                assert forall|k: Seq<u8>|
                    (lex_le(start@, k) && lex_lt(k, end@) && spec_get(self@, k) is Some && !(
                    exists|i: int|
                        0 <= i < r@.len() && #[trigger] r@[i].0@ == k)) implies (r@.len() == limit
                    && (limit == 0 || lex_lt(r@[r@.len() - 1].0@, k))) by {
                    let j = choose|j: int| 0 <= j < full.len() && #[trigger] full[j].0@ == k;
                    if j < limit {
                        assert(r@[j].0@ == k);
                        assert(false);
                    }
                    if limit > 0 {
                        assert(lex_lt(full[limit - 1].0@, full[j].0@));
                        assert(r@[r@.len() - 1].0@ == full[limit - 1].0@);
                    }
                }
            }
        }
        r
    }

    /// All visible keys that start with `prefix`, ascending, truncated to
    /// the first `limit` entries.
    pub fn scan_prefix(&self, prefix: &[u8], limit: usize) -> (r: Vec<(Vec<u8>, Vec<u8>)>)
        requires
            self.wf(),
        ensures
            r@.len() <= limit,
            forall|i: int, j: int| 0 <= i < j < r@.len() ==> lex_lt(r@[i].0@, r@[j].0@),
            forall|i: int|
                0 <= i < r@.len() ==> prefix@.is_prefix_of(#[trigger] r@[i].0@) && spec_get(
                    self@,
                    r@[i].0@,
                ) == Some(r@[i].1@),
            forall|k: Seq<u8>|
                (prefix@.is_prefix_of(k) && spec_get(self@, k) is Some && !(exists|i: int|
                    0 <= i < r@.len() && #[trigger] r@[i].0@ == k)) ==> (r@.len() == limit && (
                limit == 0 || lex_lt(r@[r@.len() - 1].0@, k))),
    {
        let ks = self.collect_keys();
        let ghost cand = kv(ks@);
        let mut out: Vec<(Vec<u8>, Vec<u8>)> = Vec::new();
        let mut i: usize = 0;
        while i < ks.len()
            invariant
                self.wf(),
                cand == kv(ks@),
                keys_sorted(cand),
                forall|x: Seq<u8>| keys_contains(cand, x) <==> key_present(self@, x),
                i <= ks@.len(),
                forall|a: int, b: int| 0 <= a < b < out@.len() ==> lex_lt(out@[a].0@, out@[b].0@),
                forall|a: int|
                    0 <= a < out@.len() ==> prefix@.is_prefix_of(#[trigger] out@[a].0@)
                        && spec_get(self@, out@[a].0@) == Some(out@[a].1@),
                forall|a: int|
                    0 <= a < out@.len() ==> exists|j: int|
                        0 <= j < i && #[trigger] out@[a].0@ == cand[j],
                forall|j: int|
                    0 <= j < i && prefix@.is_prefix_of(#[trigger] cand[j]) && spec_get(
                        self@,
                        cand[j],
                    ) is Some ==> exists|a: int| 0 <= a < out@.len() && out@[a].0@ == cand[j],
            decreases ks@.len() - i,
        {
            let key = &ks[i];
            proof {
                assert(cand[i as int] == ks@[i as int]@);
            }
            let ghost preout = out@;
            if bytes_starts_with(key.as_slice(), prefix) {
                match self.get(key.as_slice()) {
                    Some(val) => {
                        out.push((clone_bytes(key), val));
                        proof {
                            assert(out@[out@.len() - 1].0@ == cand[i as int]);
                            assert forall|a: int, b: int|
                                0 <= a < b < out@.len() implies lex_lt(
                                out@[a].0@,
                                out@[b].0@,
                            ) by {
                                if b == out@.len() - 1 {
                                    let j = choose|j: int|
                                        0 <= j < i && #[trigger] preout[a].0@ == cand[j];
                                    assert(lex_lt(cand[j], cand[i as int]));
                                }
                            }
                        }
                    },
                    None => {},
                }
            }
            proof {
                assert forall|j: int|
                    0 <= j < i + 1 && prefix@.is_prefix_of(#[trigger] cand[j]) && spec_get(
                        self@,
                        cand[j],
                    ) is Some implies exists|a: int|
                    0 <= a < out@.len() && out@[a].0@ == cand[j] by {
                    if j == i as int {
                        assert(out@[out@.len() - 1].0@ == cand[j]);
                    } else {
                        let a = choose|a: int| 0 <= a < preout.len() && preout[a].0@ == cand[j];
                        assert(out@[a].0@ == cand[j]);
                    }
                }
            }
            i = i + 1;
        }
        let ghost full = out@;
        proof {
            assert forall|k: Seq<u8>|
                prefix@.is_prefix_of(k) && spec_get(self@, k) is Some implies exists|a: int|
                0 <= a < out@.len() && #[trigger] out@[a].0@ == k by {
                lemma_visible_is_present(self@, k);
                let j = choose|j: int| 0 <= j < cand.len() && cand[j] == k;
                assert(0 <= j < i as int);
            }
        }
        if out.len() > limit {
            out.truncate(limit);
            proof {
                assert(out@ =~= full.take(limit as int));
                assert forall|k: Seq<u8>|
                    (prefix@.is_prefix_of(k) && spec_get(self@, k) is Some && !(exists|a: int|
                        0 <= a < out@.len() && #[trigger] out@[a].0@ == k)) implies (out@.len()
                    == limit && (limit == 0 || lex_lt(out@[out@.len() - 1].0@, k))) by {
                    let j = choose|j: int| 0 <= j < full.len() && #[trigger] full[j].0@ == k;
                    if j < limit {
                        assert(out@[j].0@ == k);
                        assert(false);
                    }
                    if limit > 0 {
                        assert(lex_lt(full[limit - 1].0@, full[j].0@));
                        assert(out@[out@.len() - 1].0@ == full[limit - 1].0@);
                    }
                }
            }
        }
        out
    }

    /// All visible keys matching the glob `pattern` with their values, in
    /// ascending key order.
    pub fn get_pattern(&self, pattern: &[u8]) -> (r: Vec<(Vec<u8>, Vec<u8>)>)
        requires
            self.wf(),
        ensures
            forall|i: int, j: int| 0 <= i < j < r@.len() ==> lex_lt(r@[i].0@, r@[j].0@),
            forall|i: int|
                0 <= i < r@.len() ==> spec_matches(#[trigger] r@[i].0@, pattern@) && spec_get(
                    self@,
                    r@[i].0@,
                ) == Some(r@[i].1@),
            forall|k: Seq<u8>|
                spec_matches(k, pattern@) && spec_get(self@, k) is Some ==> exists|i: int|
                    0 <= i < r@.len() && #[trigger] r@[i].0@ == k,
            r@.len() <= total_recs(self@),
    {
        let ks = self.collect_keys();
        let ghost cand = kv(ks@);
        let mut out: Vec<(Vec<u8>, Vec<u8>)> = Vec::new();
        let mut i: usize = 0;
        while i < ks.len()
            invariant
                self.wf(),
                cand == kv(ks@),
                keys_sorted(cand),
                forall|x: Seq<u8>| keys_contains(cand, x) <==> key_present(self@, x),
                i <= ks@.len(),
                out@.len() <= i,
                forall|a: int, b: int| 0 <= a < b < out@.len() ==> lex_lt(out@[a].0@, out@[b].0@),
                forall|a: int|
                    0 <= a < out@.len() ==> spec_matches(#[trigger] out@[a].0@, pattern@)
                        && spec_get(self@, out@[a].0@) == Some(out@[a].1@),
                forall|a: int|
                    0 <= a < out@.len() ==> exists|j: int|
                        0 <= j < i && #[trigger] out@[a].0@ == cand[j],
                forall|j: int|
                    0 <= j < i && spec_matches(#[trigger] cand[j], pattern@) && spec_get(
                        self@,
                        cand[j],
                    ) is Some ==> exists|a: int| 0 <= a < out@.len() && out@[a].0@ == cand[j],
            decreases ks@.len() - i,
        {
            let key = &ks[i];
            proof {
                assert(cand[i as int] == ks@[i as int]@);
            }
            let ghost preout = out@;
            if matches_pattern(key.as_slice(), pattern) {
                match self.get(key.as_slice()) {
                    Some(val) => {
                        out.push((clone_bytes(key), val));
                        proof {
                            assert(out@[out@.len() - 1].0@ == cand[i as int]);
                            assert forall|a: int, b: int|
                                0 <= a < b < out@.len() implies lex_lt(
                                out@[a].0@,
                                out@[b].0@,
                            ) by {
                                if b == out@.len() - 1 {
                                    let j = choose|j: int|
                                        0 <= j < i && #[trigger] preout[a].0@ == cand[j];
                                    assert(lex_lt(cand[j], cand[i as int]));
                                }
                            }
                        }
                    },
                    None => {},
                }
            }
            proof {
                assert forall|j: int|
                    0 <= j < i + 1 && spec_matches(#[trigger] cand[j], pattern@) && spec_get(
                        self@,
                        cand[j],
                    ) is Some implies exists|a: int|
                    0 <= a < out@.len() && out@[a].0@ == cand[j] by {
                    if j == i as int {
                        assert(out@[out@.len() - 1].0@ == cand[j]);
                    } else {
                        let a = choose|a: int| 0 <= a < preout.len() && preout[a].0@ == cand[j];
                        assert(out@[a].0@ == cand[j]);
                    }
                }
            }
            i = i + 1;
        }
        proof {
            assert forall|k: Seq<u8>|
                spec_matches(k, pattern@) && spec_get(self@, k) is Some implies exists|a: int|
                0 <= a < out@.len() && #[trigger] out@[a].0@ == k by {
                lemma_visible_is_present(self@, k);
                let j = choose|j: int| 0 <= j < cand.len() && cand[j] == k;
                assert(0 <= j < i as int);
            }
        }
        out
    }
}


/// A key present in a well-formed store fits the on-disk framing.
pub proof fn lemma_present_key_bounded(v: StoreV, k: Seq<u8>)
    requires
        crate::store::wf_v(v),
        key_present(v, k),
    ensures
        k.len() + 17 <= u32::MAX,
{
    if mem_has_key(v.mem, k) {
        let i = choose|i: int| 0 <= i < v.mem.len() && v.mem[i].0 == k;
        assert(v.mem[i].0.len() + crate::store::mem_entry_len(v.mem[i].1) + 17 <= u32::MAX);
    } else {
        let si = choose|si: int|
            0 <= si < all_segs(v).len() && seg_has_key(#[trigger] all_segs(v)[si], k);
        let ri = choose|ri: int| 0 <= ri < all_segs(v)[si].len() && all_segs(v)[si][ri].key == k;
        assert(crate::segment::seg_rec_ok(all_segs(v)[si][ri]));
    }
}

/// Two sorted duplicate-free key lists with the same members are the same
/// list, so a sorted list's length is determined by its member set.
pub proof fn lemma_sorted_keys_unique(a: Seq<Seq<u8>>, b: Seq<Seq<u8>>)
    requires
        keys_sorted(a),
        keys_sorted(b),
        forall|k: Seq<u8>| keys_contains(a, k) <==> keys_contains(b, k),
    ensures
        a == b,
    decreases a.len(),
{
    if a.len() == 0 {
        if b.len() > 0 {
            assert(keys_contains(b, b[0]));
            assert(keys_contains(a, b[0]));
            let i = choose|i: int| 0 <= i < a.len() && a[i] == b[0];
            assert(false);
        }
        assert(a =~= b);
    } else {
        assert(keys_contains(a, a[0]));
        assert(keys_contains(b, a[0]));
        let j = choose|j: int| 0 <= j < b.len() && b[j] == a[0];
        assert(keys_contains(b, b[0]));
        assert(keys_contains(a, b[0]));
        let i = choose|i: int| 0 <= i < a.len() && a[i] == b[0];
        assert(a[0] == b[0]) by {
            if j > 0 {
                assert(lex_lt(b[0], b[j]));
                if i > 0 {
                    assert(lex_lt(a[0], a[i]));
                    lemma_lex_lt_trans(a[0], b[0], a[0]);
                    lemma_lex_lt_irrefl(a[0]);
                } else {
                    lemma_lex_lt_irrefl(a[0]);
                }
            }
        }
        let at = a.skip(1);
        let bt = b.skip(1);
        assert(keys_sorted(at)) by {
            assert(forall|m: int| 0 <= m < at.len() ==> at[m] == a[m + 1]);
        }
        assert(keys_sorted(bt)) by {
            assert(forall|m: int| 0 <= m < bt.len() ==> bt[m] == b[m + 1]);
        }
        assert forall|k: Seq<u8>| keys_contains(at, k) <==> keys_contains(bt, k) by {
            if keys_contains(at, k) {
                let m = choose|m: int| 0 <= m < at.len() && at[m] == k;
                assert(a[m + 1] == k);
                assert(k != a[0]) by {
                    assert(lex_lt(a[0], a[m + 1]));
                    lemma_lex_lt_irrefl(k);
                }
                assert(keys_contains(a, k));
                assert(keys_contains(b, k));
                let n = choose|n: int| 0 <= n < b.len() && b[n] == k;
                assert(n > 0);
                assert(bt[n - 1] == k);
                assert(keys_contains(bt, k));
            }
            if keys_contains(bt, k) {
                let m = choose|m: int| 0 <= m < bt.len() && bt[m] == k;
                assert(b[m + 1] == k);
                assert(k != b[0]) by {
                    assert(lex_lt(b[0], b[m + 1]));
                    lemma_lex_lt_irrefl(k);
                }
                assert(keys_contains(b, k));
                assert(keys_contains(a, k));
                let n = choose|n: int| 0 <= n < a.len() && a[n] == k;
                assert(n > 0);
                assert(at[n - 1] == k);
                assert(keys_contains(at, k));
            }
        }
        lemma_sorted_keys_unique(at, bt);
        assert(a.len() == b.len());
        assert forall|m: int| 0 <= m < a.len() implies a[m] == b[m] by {
            if m > 0 {
                assert(a[m] == at[m - 1]);
                assert(b[m] == bt[m - 1]);
            }
        }
        assert(a =~= b);
    }
}

impl Store {
    /// Delete every visible key matching the glob `pattern`, one point
    /// tombstone each, and report how many were deleted. Afterwards every
    /// matched key reads as absent and every other key is untouched.
    pub fn delete_pattern(&mut self, pattern: &[u8]) -> (r: usize)
        requires
            old(self).wf(),
            old(self).seq + total_recs(old(self)@) <= u64::MAX,
        ensures
            final(self).wf(),
            final(self)@.seq == old(self)@.seq + r,
            final(self)@.tombs == old(self)@.tombs,
            final(self)@.l0 == old(self)@.l0,
            final(self)@.l1 == old(self)@.l1,
            final(self)@.l2 == old(self)@.l2,
            forall|k: Seq<u8>|
                (spec_matches(k, pattern@) && spec_get(old(self)@, k) is Some) ==> spec_get(
                    final(self)@,
                    k,
                ) is None,
            forall|k: Seq<u8>|
                !(spec_matches(k, pattern@) && spec_get(old(self)@, k) is Some) ==> spec_get(
                    final(self)@,
                    k,
                ) == spec_get(old(self)@, k),
            (r == 0) <==> (forall|k: Seq<u8>|
                !(spec_matches(k, pattern@) && spec_get(old(self)@, k) is Some)),
            forall|ks: Seq<Seq<u8>>|
                #![trigger keys_sorted(ks)]
                (keys_sorted(ks) && (forall|k: Seq<u8>|
                    #![trigger keys_contains(ks, k)]
                    keys_contains(ks, k) <==> (spec_matches(k, pattern@) && spec_get(
                        old(self)@,
                        k,
                    ) is Some))) ==> ks.len() == r,
            final(self)@.wal.len() == old(self)@.wal.len() + r,
            final(self).new_files@ == old(self).new_files@,
            final(self).manifest_tail@ == old(self).manifest_tail@,
            final(self).dead_files@ == old(self).dead_files@,
    {
        let ghost pre = self@;
        let matches = self.get_pattern(pattern);
        let ghost mv = matches@;
        proof {
            assert forall|a: int, b: int| 0 <= a < b < mv.len() implies mv[a].0@ != mv[b].0@ by {
                assert(lex_lt(mv[a].0@, mv[b].0@));
                lemma_lex_lt_irrefl(mv[a].0@);
            }
        }
        let mut i: usize = 0;
        while i < matches.len()
            invariant
                self.wf(),
                crate::store::wf_v(pre),
                mv == matches@,
                i <= mv.len(),
                pre.seq + total_recs(pre) <= u64::MAX,
                mv.len() <= total_recs(pre),
                self@.seq == pre.seq + i,
                self@.tombs == pre.tombs,
                self@.l0 == pre.l0,
                self@.l1 == pre.l1,
                self@.l2 == pre.l2,
                self@.wal.len() == pre.wal.len() + i,
                self.new_files@ == old(self).new_files@,
                self.manifest_tail@ == old(self).manifest_tail@,
                self.dead_files@ == old(self).dead_files@,
                forall|a: int, b: int| 0 <= a < b < mv.len() ==> mv[a].0@ != mv[b].0@,
                forall|a: int|
                    0 <= a < mv.len() ==> spec_matches(#[trigger] mv[a].0@, pattern@) && spec_get(
                        pre,
                        mv[a].0@,
                    ) is Some,
                forall|k: Seq<u8>|
                    (spec_matches(k, pattern@) && spec_get(pre, k) is Some) ==> exists|a: int|
                        0 <= a < mv.len() && #[trigger] mv[a].0@ == k,
                forall|a: int|
                    0 <= a < i ==> mem_lookup(self@.mem, #[trigger] mv[a].0@) == Some(
                        MemValV::PointTomb((pre.seq + a + 1) as u64),
                    ),
                forall|k: Seq<u8>|
                    !(exists|a: int| 0 <= a < i && #[trigger] mv[a].0@ == k) ==> mem_lookup(
                        self@.mem,
                        k,
                    ) == mem_lookup(pre.mem, k),
            decreases matches@.len() - i,
        {
            let ghost mid = self@;
            proof {
                assert(mv[i as int].0@ == matches@[i as int].0@);
                assert(spec_get(pre, mv[i as int].0@) is Some);
                crate::scan::lemma_visible_is_present(pre, mv[i as int].0@);
                lemma_present_key_bounded(pre, mv[i as int].0@);
                assert(mem_lookup(mid.mem, mv[i as int].0@) == mem_lookup(pre.mem,
                    mv[i as int].0@) || mem_lookup(mid.mem, mv[i as int].0@) is Some);
            }
            self.delete(&matches[i].0);
            proof {
                let post = self@;
                let kcur = mv[i as int].0@;
                assert(post == crate::store::spec_after_delete(mid, kcur));
                crate::memtable::lemma_sorted_insert_lookup(
                    mid.mem,
                    kcur,
                    MemValV::PointTomb(post.seq),
                    kcur,
                );
                assert forall|a: int| 0 <= a < i + 1 implies mem_lookup(
                    post.mem,
                    #[trigger] mv[a].0@,
                ) == Some(MemValV::PointTomb((pre.seq + a + 1) as u64)) by {
                    crate::memtable::lemma_sorted_insert_lookup(
                        mid.mem,
                        kcur,
                        MemValV::PointTomb(post.seq),
                        mv[a].0@,
                    );
                    if a < i as int {
                        assert(mv[a].0@ != kcur);
                    }
                }
                assert forall|k: Seq<u8>|
                    !(exists|a: int| 0 <= a < i + 1 && #[trigger] mv[a].0@ == k) implies
                    mem_lookup(post.mem, k) == mem_lookup(pre.mem, k) by {
                    crate::memtable::lemma_sorted_insert_lookup(
                        mid.mem,
                        kcur,
                        MemValV::PointTomb(post.seq),
                        k,
                    );
                    assert(k != kcur);
                }
            }
            i = i + 1;
        }
        proof {
            let fin = self@;
            assert forall|k: Seq<u8>|
                (spec_matches(k, pattern@) && spec_get(pre, k) is Some) implies spec_get(
                fin,
                k,
            ) is None by {
                let a = choose|a: int| 0 <= a < mv.len() && #[trigger] mv[a].0@ == k;
                assert(mem_lookup(fin.mem, k) == Some(
                    MemValV::PointTomb((pre.seq + a + 1) as u64),
                ));
            }
            assert forall|k: Seq<u8>|
                !(spec_matches(k, pattern@) && spec_get(pre, k) is Some) implies spec_get(
                fin,
                k,
            ) == spec_get(pre, k) by {
                if exists|a: int| 0 <= a < i && #[trigger] mv[a].0@ == k {
                    let a = choose|a: int| 0 <= a < i && #[trigger] mv[a].0@ == k;
                    assert(spec_matches(mv[a].0@, pattern@) && spec_get(pre, mv[a].0@) is Some);
                    assert(false);
                }
                assert(mem_lookup(fin.mem, k) == mem_lookup(pre.mem, k));
                assert(all_segs(fin) == all_segs(pre));
            }
            if mv.len() > 0 {
                assert(spec_matches(mv[0].0@, pattern@) && spec_get(pre, mv[0].0@) is Some);
            }
            // The returned count is the size of the matched key set: the
            // matched keys form a sorted duplicate-free list, and any
            // other such list with the same members has the same length.
            let mk = mv.map_values(|p: (Vec<u8>, Vec<u8>)| p.0@);
            assert(keys_sorted(mk)) by {
                assert forall|a: int, b: int| 0 <= a < b < mk.len() implies lex_lt(
                    mk[a],
                    mk[b],
                ) by {
                    assert(mk[a] == mv[a].0@ && mk[b] == mv[b].0@);
                }
            }
            assert forall|k: Seq<u8>|
                keys_contains(mk, k) <==> (spec_matches(k, pattern@) && spec_get(
                    pre,
                    k,
                ) is Some) by {
                if keys_contains(mk, k) {
                    let a = choose|a: int| 0 <= a < mk.len() && mk[a] == k;
                    assert(mk[a] == mv[a].0@);
                }
                if spec_matches(k, pattern@) && spec_get(pre, k) is Some {
                    let a = choose|a: int| 0 <= a < mv.len() && #[trigger] mv[a].0@ == k;
                    assert(mk[a] == k);
                }
            }
            assert forall|ks: Seq<Seq<u8>>|
                #![trigger keys_sorted(ks)]
                (keys_sorted(ks) && (forall|k: Seq<u8>|
                    #![trigger keys_contains(ks, k)]
                    keys_contains(ks, k) <==> (spec_matches(k, pattern@) && spec_get(
                        pre,
                        k,
                    ) is Some))) implies ks.len() == mv.len() by {
                assert(forall|k: Seq<u8>|
                    keys_contains(ks, k) <==> keys_contains(mk, k));
                lemma_sorted_keys_unique(ks, mk);
            }
        }
        matches.len()
    }
}

} // verus!
