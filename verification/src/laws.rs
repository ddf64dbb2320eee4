//! The store's laws: properties that hold of every state and every run,
//! proved once here over the mathematical images that the operation
//! contracts speak of.

use vstd::prelude::*;

use crate::batch::path_ancestor;
use crate::memtable::{mem_lookup, lemma_sorted_insert_lookup, MemValV};
use crate::rec::{RecV, SLASH};
use crate::segment::{seg_find, sorted_keys};
use crate::store::{
    all_segs, best_from, spec_after_delete, spec_after_delete_subtree, spec_after_set, spec_get,
    spec_get_rec, tree_violation_at, upd_best, wf_v, StoreV,
};
use crate::tombs::covered;

verus! {

/// Monotonic stamps: every mutation assigns the next stamp, so of any two
/// mutations applied in order, the second's stamp is strictly larger.
pub proof fn lemma_mutations_advance_seq(v: StoreV, key: Seq<u8>, val: Seq<u8>, p: Seq<u8>)
    requires
        v.seq < u64::MAX,
    ensures
        spec_after_set(v, key, val, false).seq == v.seq + 1,
        spec_after_set(v, key, val, true).seq == v.seq + 1,
        spec_after_delete(v, key).seq == v.seq + 1,
        spec_after_delete_subtree(v, p).seq == v.seq + 1,
{
}

/// Read-your-writes: immediately after a successful write, reading the
/// written key yields the written value.
pub proof fn lemma_read_your_writes(v: StoreV, key: Seq<u8>, val: Seq<u8>, replace: bool)
    requires
        wf_v(v),
        v.seq < u64::MAX,
    ensures
        spec_get(spec_after_set(v, key, val, replace), key) == Some(val),
{
    let post = spec_after_set(v, key, val, replace);
    let s = (v.seq + 1) as u64;
    lemma_sorted_insert_lookup(v.mem, key, MemValV::Scalar(val, s), key);
    assert(mem_lookup(post.mem, key) == Some(MemValV::Scalar(val, s)));
    assert(!covered(post.tombs, key, s)) by {
        assert forall|i: int|
            0 <= i < post.tombs.len() implies !((#[trigger] post.tombs[i]).0.is_prefix_of(key)
            && post.tombs[i].1 >= s) by {
            if i < v.tombs.len() {
                assert(v.tombs[i].1 <= v.seq);
            } else {
                assert(post.tombs[i].0 == key.push(SLASH));
                assert(key.push(SLASH).len() > key.len());
            }
        }
    }
}

/// Tombstone masking: once a subtree tombstone `(p, t)` is present, no
/// record at or below stamp `t` under prefix `p` is ever the one a read
/// resolves — whatever a read returns for such a key was stamped after the
/// tombstone.
pub proof fn lemma_tombstone_masks(v: StoreV, k: Seq<u8>, i: int)
    requires
        wf_v(v),
        0 <= i < v.tombs.len(),
        v.tombs[i].0.is_prefix_of(k),
    ensures
        spec_get_rec(v, k) matches Some(r) ==> r.seq > v.tombs[i].1,
{
    let t = v.tombs[i].1;
    if spec_get_rec(v, k) is Some {
        let r = spec_get_rec(v, k).unwrap();
        match mem_lookup(v.mem, k) {
            Some(MemValV::Scalar(val, s)) => {
                assert(!covered(v.tombs, k, s));
                if s <= t {
                    assert(v.tombs[i].0.is_prefix_of(k) && v.tombs[i].1 >= s);
                    assert(false);
                }
            },
            Some(MemValV::PointTomb(_)) => {},
            None => {
                crate::store::lemma_best_from_found(all_segs(v), v.tombs, k, None);
                assert(!covered(v.tombs, k, r.seq));
                if r.seq <= t {
                    assert(v.tombs[i].0.is_prefix_of(k) && v.tombs[i].1 >= r.seq);
                    assert(false);
                }
            },
        }
    }
}

/// Coverage looks only at the largest matching stamp, so two tombstone
/// lists that agree on every stamp up to a bound hide the same records up
/// to that bound.
proof fn lemma_best_from_tombs_agree(
    segs: Seq<Seq<RecV>>,
    t1: Seq<(Seq<u8>, u64)>,
    t2: Seq<(Seq<u8>, u64)>,
    k: Seq<u8>,
    init: Option<RecV>,
    bound: u64,
)
    requires
        forall|si: int, ri: int|
            0 <= si < segs.len() && 0 <= ri < segs[si].len() ==> (#[trigger] segs[si][ri]).seq
                <= bound,
        forall|s: u64| s <= bound ==> (covered(t1, k, s) <==> covered(t2, k, s)),
    ensures
        best_from(segs, t1, k, init) == best_from(segs, t2, k, init),
    decreases segs.len(),
{
    if segs.len() > 0 {
        let cand = seg_find(segs[0], k);
        crate::segment::lemma_seg_find_has_key(segs[0], k);
        match cand {
            Some(r) => {
                let ri = choose|ri: int| 0 <= ri < segs[0].len() && segs[0][ri] == r;
                assert(r.seq <= bound);
                assert(covered(t1, k, r.seq) <==> covered(t2, k, r.seq));
            },
            None => {},
        }
        assert(upd_best(init, cand, t1, k) == upd_best(init, cand, t2, k));
        assert forall|si: int, ri: int|
            0 <= si < segs.skip(1).len() && 0 <= ri < segs.skip(1)[si].len() implies (
        #[trigger] segs.skip(1)[si][ri]).seq <= bound by {
            assert(segs.skip(1)[si] == segs[si + 1]);
        }
        lemma_best_from_tombs_agree(segs.skip(1), t1, t2, k, upd_best(init, cand, t1, k), bound);
    }
}

/// Subtree deletion is idempotent: deleting a subtree twice leaves every
/// key reading exactly as it does after deleting it once.
pub proof fn lemma_delete_subtree_idempotent(v: StoreV, p: Seq<u8>, k: Seq<u8>)
    requires
        wf_v(v),
        v.seq + 2 <= u64::MAX,
    ensures
        spec_get(
            spec_after_delete_subtree(spec_after_delete_subtree(v, p), p),
            k,
        ) == spec_get(spec_after_delete_subtree(v, p), k),
{
    let v1 = spec_after_delete_subtree(v, p);
    let v2 = spec_after_delete_subtree(v1, p);
    let s1 = (v.seq + 1) as u64;
    let s2 = (v.seq + 2) as u64;
    let np = crate::store::norm_prefix(p);
    assert(v1.tombs == v.tombs.push((np, s1)));
    assert(v2.tombs == v1.tombs.push((np, s2)));
    assert forall|s: u64| s <= s1 implies (covered(v1.tombs, k, s) <==> covered(
        v2.tombs,
        k,
        s,
    )) by {
        if covered(v2.tombs, k, s) {
            let i = choose|i: int|
                0 <= i < v2.tombs.len() && (#[trigger] v2.tombs[i]).0.is_prefix_of(k)
                    && v2.tombs[i].1 >= s;
            if i < v1.tombs.len() {
                assert(v1.tombs[i].0.is_prefix_of(k) && v1.tombs[i].1 >= s);
            } else {
                assert(v2.tombs[i] == (np, s2));
                let w = v.tombs.len() as int;
                assert(0 <= w < v1.tombs.len());
                assert(v1.tombs[w] == (np, s1));
                assert(v1.tombs[w].0.is_prefix_of(k) && v1.tombs[w].1 >= s);
            }
        }
        if covered(v1.tombs, k, s) {
            let i = choose|i: int|
                0 <= i < v1.tombs.len() && (#[trigger] v1.tombs[i]).0.is_prefix_of(k)
                    && v1.tombs[i].1 >= s;
            assert(v2.tombs[i].0.is_prefix_of(k) && v2.tombs[i].1 >= s);
        }
    }
    match mem_lookup(v1.mem, k) {
        Some(MemValV::Scalar(val, s)) => {
            assert(s <= v.seq) by {
                lemma_mem_lookup_is_entry(v.mem, k);
                let i = choose|i: int|
                    0 <= i < v.mem.len() && v.mem[i] == (k, MemValV::Scalar(val, s));
                assert(crate::store::mem_entry_seq(v.mem[i].1) <= v.seq);
            }
            assert(covered(v1.tombs, k, s) <==> covered(v2.tombs, k, s));
        },
        Some(MemValV::PointTomb(_)) => {},
        None => {
            assert forall|si: int, ri: int|
                0 <= si < all_segs(v1).len() && 0 <= ri < all_segs(v1)[si].len() implies (
            #[trigger] all_segs(v1)[si][ri]).seq <= v.seq by {
                assert(all_segs(v1) == all_segs(v));
            }
            lemma_best_from_tombs_agree(all_segs(v1), v1.tombs, v2.tombs, k, None, v.seq);
            assert(all_segs(v2) == all_segs(v1));
        },
    }
}

/// A found memtable value belongs to some entry, so its stamp obeys the
/// store bound.
proof fn lemma_mem_lookup_is_entry(mem: Seq<(Seq<u8>, MemValV)>, k: Seq<u8>)
    ensures
        mem_lookup(mem, k) matches Some(e) ==> exists|i: int|
            0 <= i < mem.len() && mem[i] == (k, e),
    decreases mem.len(),
{
    if mem.len() > 0 {
        if mem[0].0 == k {
            assert(mem[0] == (k, mem_lookup(mem, k).unwrap()));
        } else {
            lemma_mem_lookup_is_entry(mem.skip(1), k);
            if mem_lookup(mem.skip(1), k) is Some {
                let i = choose|i: int|
                    0 <= i < mem.skip(1).len() && mem.skip(1)[i] == (
                        k,
                        mem_lookup(mem.skip(1), k).unwrap(),
                    );
                assert(mem[i + 1] == (k, mem_lookup(mem, k).unwrap()));
            }
        }
    }
}

/// No visible scalar sits above another visible key.
pub open spec fn tree_ok(v: StoreV) -> bool {
    forall|a: Seq<u8>, k: Seq<u8>|
        path_ancestor(a, k) ==> !((#[trigger] spec_get(v, a)) is Some && (#[trigger] spec_get(
            v,
            k,
        )) is Some)
}

/// A write to `key` leaves every other key reading as before.
pub proof fn lemma_set_other_keys(v: StoreV, key: Seq<u8>, val: Seq<u8>, k2: Seq<u8>)
    requires
        wf_v(v),
        v.seq < u64::MAX,
        k2 != key,
    ensures
        spec_get(spec_after_set(v, key, val, false), k2) == spec_get(v, k2),
{
    let post = spec_after_set(v, key, val, false);
    lemma_sorted_insert_lookup(v.mem, key, MemValV::Scalar(val, (v.seq + 1) as u64), k2);
    assert(mem_lookup(post.mem, k2) == mem_lookup(v.mem, k2));
    assert(post.tombs == v.tombs);
    assert(all_segs(post) == all_segs(v));
}

/// A strict path ancestor is a visible-scalar ancestor in the sense of the
/// write check.
proof fn lemma_ancestor_position(v: StoreV, a: Seq<u8>, key: Seq<u8>)
    requires
        path_ancestor(a, key),
        spec_get(v, a) is Some,
    ensures
        tree_violation_at(v, key),
{
    let i = a.len() as int;
    assert(a.push(SLASH).is_prefix_of(key));
    assert(a.push(SLASH) =~= key.subrange(0, i + 1));
    assert(key[i] == a.push(SLASH)[i]);
    assert(key.take(i) =~= a);
    assert(0 < i < key.len() && key[i] == SLASH && spec_get(v, key.take(i)) is Some);
}

/// Scalar-parent exclusion, preserved by plain writes: a write that passes
/// the ancestor check, into a state where the written key has no visible
/// strict descendant, leaves no visible key above another. Writing a
/// scalar above keys that are already visible is the one way to break the
/// exclusion, and the write path's ancestor walk does not look downwards.
pub proof fn lemma_set_preserves_tree_ok(v: StoreV, key: Seq<u8>, val: Seq<u8>)
    requires
        wf_v(v),
        v.seq < u64::MAX,
        tree_ok(v),
        !tree_violation_at(v, key),
        forall|d: Seq<u8>| path_ancestor(key, d) ==> (#[trigger] spec_get(v, d)) is None,
    ensures
        tree_ok(spec_after_set(v, key, val, false)),
{
    let post = spec_after_set(v, key, val, false);
    assert forall|a: Seq<u8>, k: Seq<u8>|
        path_ancestor(a, k) implies !((#[trigger] spec_get(post, a)) is Some && (
    #[trigger] spec_get(post, k)) is Some) by {
        if spec_get(post, a) is Some && spec_get(post, k) is Some {
            if a == key {
                assert(spec_get(v, k) is None);
                lemma_set_other_keys(v, key, val, k);
                assert(k != key) by {
                    assert(a.push(SLASH).is_prefix_of(k));
                    if k == key {
                        assert(key.push(SLASH).len() > key.len());
                    }
                }
                assert(false);
            } else if k == key {
                assert(a != key) by {
                    if a == key {
                        assert(a.push(SLASH).is_prefix_of(k));
                        assert(key.push(SLASH).len() > key.len());
                    }
                }
                lemma_set_other_keys(v, key, val, a);
                assert(spec_get(v, a) is Some);
                lemma_ancestor_position(v, a, key);
                assert(false);
            } else {
                lemma_set_other_keys(v, key, val, a);
                lemma_set_other_keys(v, key, val, k);
                assert(spec_get(v, a) is Some && spec_get(v, k) is Some);
                assert(false);
            }
        }
    }
}

/// Scalar-parent exclusion, preserved by point deletion: removing a key's
/// visibility cannot create a visible ancestor-descendant pair.
pub proof fn lemma_delete_preserves_tree_ok(v: StoreV, key: Seq<u8>)
    requires
        wf_v(v),
        v.seq < u64::MAX,
        tree_ok(v),
    ensures
        tree_ok(spec_after_delete(v, key)),
{
    let post = spec_after_delete(v, key);
    assert forall|a: Seq<u8>, k: Seq<u8>|
        path_ancestor(a, k) implies !((#[trigger] spec_get(post, a)) is Some && (
    #[trigger] spec_get(post, k)) is Some) by {
        if spec_get(post, a) is Some && spec_get(post, k) is Some {
            assert(spec_get(post, a) == spec_get(v, a) || a == key) by {
                if a != key {
                    lemma_sorted_insert_lookup(
                        v.mem,
                        key,
                        MemValV::PointTomb((v.seq + 1) as u64),
                        a,
                    );
                    assert(all_segs(post) == all_segs(v));
                }
            }
            if a == key {
                lemma_sorted_insert_lookup(v.mem, key, MemValV::PointTomb((v.seq + 1) as u64), a);
                assert(mem_lookup(post.mem, key) is Some);
                assert(false);
            }
            assert(spec_get(post, k) == spec_get(v, k) || k == key) by {
                if k != key {
                    lemma_sorted_insert_lookup(
                        v.mem,
                        key,
                        MemValV::PointTomb((v.seq + 1) as u64),
                        k,
                    );
                    assert(all_segs(post) == all_segs(v));
                }
            }
            if k == key {
                lemma_sorted_insert_lookup(v.mem, key, MemValV::PointTomb((v.seq + 1) as u64), k);
                assert(false);
            }
            assert(spec_get(v, a) is Some && spec_get(v, k) is Some);
            assert(false);
        }
    }
}

/// Scalar-parent exclusion, preserved by subtree deletion: hiding records
/// cannot create a visible ancestor-descendant pair.
pub proof fn lemma_delete_subtree_preserves_tree_ok(v: StoreV, p: Seq<u8>)
    requires
        wf_v(v),
        v.seq < u64::MAX,
        tree_ok(v),
    ensures
        tree_ok(spec_after_delete_subtree(v, p)),
{
    let post = spec_after_delete_subtree(v, p);
    assert forall|a: Seq<u8>, k: Seq<u8>|
        path_ancestor(a, k) implies !((#[trigger] spec_get(post, a)) is Some && (
    #[trigger] spec_get(post, k)) is Some) by {
        if spec_get(post, a) is Some && spec_get(post, k) is Some {
            lemma_delete_subtree_shrinks(v, p, a);
            lemma_delete_subtree_shrinks(v, p, k);
            assert(spec_get(v, a) is Some && spec_get(v, k) is Some);
            assert(false);
        }
    }
}

/// After a subtree deletion, any key that reads as present already did.
proof fn lemma_delete_subtree_shrinks(v: StoreV, p: Seq<u8>, k: Seq<u8>)
    requires
        wf_v(v),
        v.seq < u64::MAX,
    ensures
        spec_get(spec_after_delete_subtree(v, p), k) is Some ==> spec_get(v, k) is Some,
{
    let post = spec_after_delete_subtree(v, p);
    let np = crate::store::norm_prefix(p);
    let s1 = (v.seq + 1) as u64;
    assert(post.tombs == v.tombs.push((np, s1)));
    if np.is_prefix_of(k) {
        // The new tombstone outlasts every stored stamp, so nothing under
        // it reads as present afterwards.
        assert forall|s: u64| s <= v.seq implies covered(post.tombs, k, s) by {
            let w = v.tombs.len() as int;
            assert(post.tombs[w] == (np, s1));
            assert(post.tombs[w].0.is_prefix_of(k) && post.tombs[w].1 >= s);
        }
        match mem_lookup(v.mem, k) {
            Some(MemValV::Scalar(val, s)) => {
                assert(s <= v.seq) by {
                    lemma_mem_lookup_is_entry(v.mem, k);
                    let i = choose|i: int|
                        0 <= i < v.mem.len() && v.mem[i] == (k, MemValV::Scalar(val, s));
                    assert(crate::store::mem_entry_seq(v.mem[i].1) <= v.seq);
                }
                assert(covered(post.tombs, k, s));
            },
            Some(MemValV::PointTomb(_)) => {},
            None => {
                lemma_best_from_all_covered(all_segs(v), post.tombs, k, v.seq);
                assert(all_segs(post) == all_segs(v));
            },
        }
    } else {
        assert forall|s: u64| s <= v.seq implies (covered(v.tombs, k, s) <==> covered(
            post.tombs,
            k,
            s,
        )) by {
            if covered(post.tombs, k, s) {
                let i = choose|i: int|
                    0 <= i < post.tombs.len() && (#[trigger] post.tombs[i]).0.is_prefix_of(k)
                        && post.tombs[i].1 >= s;
                assert(i < v.tombs.len());
                assert(v.tombs[i].0.is_prefix_of(k) && v.tombs[i].1 >= s);
            }
            if covered(v.tombs, k, s) {
                let i = choose|i: int|
                    0 <= i < v.tombs.len() && (#[trigger] v.tombs[i]).0.is_prefix_of(k)
                        && v.tombs[i].1 >= s;
                assert(post.tombs[i].0.is_prefix_of(k) && post.tombs[i].1 >= s);
            }
        }
        match mem_lookup(v.mem, k) {
            Some(MemValV::Scalar(val, s)) => {
                assert(s <= v.seq) by {
                    lemma_mem_lookup_is_entry(v.mem, k);
                    let i = choose|i: int|
                        0 <= i < v.mem.len() && v.mem[i] == (k, MemValV::Scalar(val, s));
                    assert(crate::store::mem_entry_seq(v.mem[i].1) <= v.seq);
                }
            },
            Some(MemValV::PointTomb(_)) => {},
            None => {
                lemma_best_from_tombs_agree(all_segs(v), v.tombs, post.tombs, k, None, v.seq);
                assert(all_segs(post) == all_segs(v));
            },
        }
    }
}

/// When every stored stamp is covered, no segment record survives the
/// fold.
proof fn lemma_best_from_all_covered(
    segs: Seq<Seq<RecV>>,
    tombs: Seq<(Seq<u8>, u64)>,
    k: Seq<u8>,
    bound: u64,
)
    requires
        forall|si: int, ri: int|
            0 <= si < segs.len() && 0 <= ri < segs[si].len() ==> (#[trigger] segs[si][ri]).seq
                <= bound,
        forall|s: u64| s <= bound ==> covered(tombs, k, s),
    ensures
        best_from(segs, tombs, k, None) is None,
    decreases segs.len(),
{
    if segs.len() > 0 {
        let cand = seg_find(segs[0], k);
        crate::segment::lemma_seg_find_has_key(segs[0], k);
        match cand {
            Some(r) => {
                let ri = choose|ri: int| 0 <= ri < segs[0].len() && segs[0][ri] == r;
                assert(r.seq <= bound);
                assert(covered(tombs, k, r.seq));
            },
            None => {},
        }
        assert(upd_best(None, cand, tombs, k) is None);
        assert forall|si: int, ri: int|
            0 <= si < segs.skip(1).len() && 0 <= ri < segs.skip(1)[si].len() implies (
        #[trigger] segs.skip(1)[si][ri]).seq <= bound by {
            assert(segs.skip(1)[si] == segs[si + 1]);
        }
        lemma_best_from_all_covered(segs.skip(1), tombs, k, bound);
    }
}


/// Record `r` is what some segment of the list resolves for key `k`.
pub open spec fn found_in(segs: Seq<Seq<RecV>>, k: Seq<u8>, r: RecV) -> bool {
    exists|si: int| 0 <= si < segs.len() && seg_find(#[trigger] segs[si], k) == Some(r)
}

/// Record `r` sits somewhere in the listed segments under key `k`.
pub open spec fn in_inputs(segs: Seq<Seq<RecV>>, k: Seq<u8>, r: RecV) -> bool {
    r.key == k && exists|si: int, ri: int|
        0 <= si < segs.len() && 0 <= ri < segs[si].len() && segs[si][ri] == r
}

/// At most one record of the list carries key `k`.
pub open spec fn unique_key(rs: Seq<RecV>, k: Seq<u8>) -> bool {
    forall|i: int, j: int|
        0 <= i < j < rs.len() ==> !((#[trigger] rs[i]).key == k && (#[trigger] rs[j]).key == k)
}

/// With at most one record per key, whatever sits at key `k` is what a
/// lookup finds.
proof fn lemma_unique_find(rs: Seq<RecV>, k: Seq<u8>, ri: int)
    requires
        unique_key(rs, k),
        0 <= ri < rs.len(),
        rs[ri].key == k,
    ensures
        seg_find(rs, k) == Some(rs[ri]),
    decreases rs.len(),
{
    if rs[0].key == k {
        assert(ri == 0);
    } else {
        assert(forall|i: int, j: int|
            0 <= i < j < rs.skip(1).len() ==> !((#[trigger] rs.skip(1)[i]).key == k && (
            #[trigger] rs.skip(1)[j]).key == k)) by {
            assert(forall|i: int| 0 <= i < rs.skip(1).len() ==> rs.skip(1)[i] == rs[i + 1]);
        }
        assert(rs.skip(1)[ri - 1] == rs[ri]);
        lemma_unique_find(rs.skip(1), k, ri - 1);
    }
}

/// What one merge step leaves at key `k`.
proof fn lemma_merge_rec_find(acc: Seq<RecV>, r: RecV, k: Seq<u8>)
    requires
        sorted_keys(acc),
    ensures
        sorted_keys(crate::compact::merge_rec(acc, r)),
        seg_find(crate::compact::merge_rec(acc, r), k) == (if r.key == k {
            match seg_find(acc, k) {
                Some(c) => if r.seq > c.seq {
                    Some(r)
                } else {
                    Some(c)
                },
                None => Some(r),
            }
        } else {
            seg_find(acc, k)
        }),
    decreases acc.len(),
{
    let res = crate::compact::merge_rec(acc, r);
    if acc.len() == 0 {
        assert(seq![r].skip(1) =~= Seq::<RecV>::empty());
        assert(sorted_keys(res));
        if r.key == k {
            assert(seg_find(res, k) == Some(r));
        } else {
            assert(seg_find(res, k) is None);
            assert(seg_find(acc, k) is None);
        }
    } else if crate::order::lex_lt(r.key, acc[0].key) {
        assert(res == seq![r] + acc);
        assert(res.skip(1) =~= acc);
        assert(sorted_keys(res)) by {
            assert forall|i: int, j: int| 0 <= i < j < res.len() implies crate::order::lex_lt(
                res[i].key,
                res[j].key,
            ) by {
                if i == 0 {
                    if j > 1 {
                        crate::order::lemma_lex_lt_trans(r.key, acc[0].key, acc[j - 1].key);
                    }
                }
            }
        }
        if r.key != k {
            assert(seg_find(res, k) == seg_find(res.skip(1), k));
            assert(seg_find(res, k) == seg_find(acc, k));
        } else {
            // No record below the head can carry k: k sorts before every key.
            if seg_find(acc, k) is Some {
                crate::segment::lemma_seg_find_has_key(acc, k);
                let i = choose|i: int| 0 <= i < acc.len() && acc[i].key == k;
                if i > 0 {
                    assert(crate::order::lex_lt(acc[0].key, acc[i].key));
                    crate::order::lemma_lex_lt_trans(r.key, acc[0].key, acc[i].key);
                    crate::order::lemma_lex_lt_irrefl(k);
                } else {
                    crate::order::lemma_lex_lt_irrefl(k);
                }
                assert(false);
            }
            assert(seg_find(res, k) == Some(r));
        }
    } else if r.key == acc[0].key {
        if r.seq > acc[0].seq {
            assert(res == seq![r] + acc.skip(1));
            assert(res.skip(1) =~= acc.skip(1));
            if r.key == k {
                assert(seg_find(res, k) == Some(r));
                assert(seg_find(acc, k) == Some(acc[0]));
            } else {
                assert(seg_find(res, k) == seg_find(acc.skip(1), k));
                assert(seg_find(acc, k) == seg_find(acc.skip(1), k));
            }
            assert(sorted_keys(res)) by {
                assert forall|i: int, j: int| 0 <= i < j < res.len() implies crate::order::lex_lt(
                    res[i].key,
                    res[j].key,
                ) by {
                    if i == 0 {
                        assert(res[j] == acc[j]);
                        assert(crate::order::lex_lt(acc[0].key, acc[j].key));
                    } else {
                        assert(res[i] == acc[i] && res[j] == acc[j]);
                    }
                }
            }
        }
    } else {
        assert(crate::order::lex_lt(acc[0].key, r.key)) by {
            if !crate::order::lex_lt(acc[0].key, r.key) {
                crate::order::lemma_lex_lt_connected(r.key, acc[0].key);
            }
        }
        assert(sorted_keys(acc.skip(1))) by {
            assert(forall|i: int| 0 <= i < acc.skip(1).len() ==> acc.skip(1)[i] == acc[i + 1]);
        }
        lemma_merge_rec_find(acc.skip(1), r, k);
        let inner = crate::compact::merge_rec(acc.skip(1), r);
        assert(res == seq![acc[0]] + inner);
        assert(res.skip(1) =~= inner);
        assert(sorted_keys(res)) by {
            lemma_merge_rec_keys(acc.skip(1), r);
            assert forall|i: int, j: int| 0 <= i < j < res.len() implies crate::order::lex_lt(
                res[i].key,
                res[j].key,
            ) by {
                if i == 0 {
                    assert(res[j] == inner[j - 1]);
                    if inner[j - 1].key == r.key {
                        assert(crate::order::lex_lt(acc[0].key, r.key));
                    } else {
                        let m = choose|m: int|
                            0 <= m < acc.skip(1).len() && acc.skip(1)[m].key == inner[j - 1].key;
                        assert(acc[m + 1].key == inner[j - 1].key);
                        assert(crate::order::lex_lt(acc[0].key, acc[m + 1].key));
                    }
                }
            }
        }
        if k == acc[0].key {
            assert(seg_find(res, k) == Some(acc[0]));
            assert(seg_find(acc, k) == Some(acc[0]));
        } else {
            assert(seg_find(res, k) == seg_find(inner, k));
            assert(seg_find(acc, k) == seg_find(acc.skip(1), k));
        }
    }
}

/// Every key a merge step leaves behind was the new record's or one
/// already present.
proof fn lemma_merge_rec_keys(acc: Seq<RecV>, r: RecV)
    ensures
        forall|j: int|
            0 <= j < crate::compact::merge_rec(acc, r).len() ==> ((#[trigger] crate::compact::merge_rec(
                acc,
                r,
            )[j]).key == r.key || exists|m: int|
                0 <= m < acc.len() && acc[m].key == crate::compact::merge_rec(acc, r)[j].key),
    decreases acc.len(),
{
    let res = crate::compact::merge_rec(acc, r);
    if acc.len() == 0 {
    } else if crate::order::lex_lt(r.key, acc[0].key) {
        assert forall|j: int| 0 <= j < res.len() && res[j].key != r.key implies exists|m: int|
            0 <= m < acc.len() && acc[m].key == res[j].key by {
            assert(acc[j - 1] == res[j]);
        }
    } else if r.key == acc[0].key {
        if r.seq > acc[0].seq {
            assert forall|j: int| 0 <= j < res.len() && res[j].key != r.key implies exists|m: int|
                0 <= m < acc.len() && acc[m].key == res[j].key by {
                assert(acc[j] == res[j]);
            }
        } else {
            assert forall|j: int| 0 <= j < res.len() && res[j].key != r.key implies exists|m: int|
                0 <= m < acc.len() && acc[m].key == res[j].key by {
                assert(acc[j].key == res[j].key);
            }
        }
    } else {
        lemma_merge_rec_keys(acc.skip(1), r);
        let inner = crate::compact::merge_rec(acc.skip(1), r);
        assert forall|j: int| 0 <= j < res.len() && res[j].key != r.key implies exists|m: int|
            0 <= m < acc.len() && acc[m].key == res[j].key by {
            if j == 0 {
                assert(acc[0].key == res[0].key);
            } else {
                assert(res[j] == inner[j - 1]);
                let m = choose|m: int|
                    0 <= m < acc.skip(1).len() && acc.skip(1)[m].key == inner[j - 1].key;
                assert(acc[m + 1].key == res[j].key);
            }
        }
    }
}

/// Record `r` sits in the list under key `k`.
pub open spec fn in_recs(rs: Seq<RecV>, k: Seq<u8>, r: RecV) -> bool {
    r.key == k && exists|ri: int| 0 <= ri < rs.len() && rs[ri] == r
}

/// What folding one segment's records leaves at key `k`: the largest stamp
/// seen, starting from the accumulator's record.
proof fn lemma_merge_seg_find(acc: Seq<RecV>, rs: Seq<RecV>, k: Seq<u8>)
    requires
        sorted_keys(acc),
    ensures
        sorted_keys(crate::compact::merge_seg(acc, rs)),
        match seg_find(crate::compact::merge_seg(acc, rs), k) {
            Some(m) => (seg_find(acc, k) == Some(m) || in_recs(rs, k, m)) && (seg_find(
                acc,
                k,
            ) matches Some(c) ==> m.seq >= c.seq) && (forall|r: RecV|
                in_recs(rs, k, r) ==> r.seq <= m.seq),
            None => seg_find(acc, k) is None && (forall|r: RecV| !in_recs(rs, k, r)),
        },
    decreases rs.len(),
{
    if rs.len() == 0 {
        assert(crate::compact::merge_seg(acc, rs) == acc);
        match seg_find(acc, k) {
            Some(m) => {
                assert forall|r: RecV| in_recs(rs, k, r) implies r.seq <= m.seq by {
                    let ri = choose|ri: int| 0 <= ri < rs.len() && rs[ri] == r;
                }
            },
            None => {
                assert forall|r: RecV| !in_recs(rs, k, r) by {
                    if in_recs(rs, k, r) {
                        let ri = choose|ri: int| 0 <= ri < rs.len() && rs[ri] == r;
                    }
                }
            },
        }
    } else {
        lemma_merge_rec_find(acc, rs[0], k);
        let acc1 = crate::compact::merge_rec(acc, rs[0]);
        lemma_merge_seg_find(acc1, rs.skip(1), k);
        let res = crate::compact::merge_seg(acc, rs);
        assert(res == crate::compact::merge_seg(acc1, rs.skip(1)));
        assert forall|r: RecV| in_recs(rs.skip(1), k, r) implies in_recs(rs, k, r) by {
            let ri = choose|ri: int| 0 <= ri < rs.skip(1).len() && rs.skip(1)[ri] == r;
            assert(rs[ri + 1] == r);
        }
        match seg_find(res, k) {
            Some(m) => {
                if seg_find(acc1, k) == Some(m) {
                    if rs[0].key == k && m == rs[0] {
                        assert(in_recs(rs, k, m)) by {
                            assert(rs[0] == m);
                        }
                    }
                }
                assert forall|r: RecV| in_recs(rs, k, r) implies r.seq <= m.seq by {
                    let ri = choose|ri: int| 0 <= ri < rs.len() && rs[ri] == r;
                    if ri == 0 {
                        assert(seg_find(acc1, k) is Some);
                        let c1 = seg_find(acc1, k).unwrap();
                        assert(r.seq <= c1.seq);
                        assert(c1.seq <= m.seq);
                    } else {
                        assert(rs.skip(1)[ri - 1] == r);
                        assert(in_recs(rs.skip(1), k, r));
                    }
                }
            },
            None => {
                assert forall|r: RecV| !in_recs(rs, k, r) by {
                    if in_recs(rs, k, r) {
                        let ri = choose|ri: int| 0 <= ri < rs.len() && rs[ri] == r;
                        if ri == 0 {
                            assert(seg_find(acc1, k) is Some);
                        } else {
                            assert(rs.skip(1)[ri - 1] == r);
                            assert(in_recs(rs.skip(1), k, r));
                        }
                        assert(false);
                    }
                }
            },
        }
    }
}

/// What a whole level merge leaves at key `k`: a record of the inputs with
/// the largest stamp there, or nothing when no input holds the key.
proof fn lemma_merge_segs_find(acc: Seq<RecV>, segs: Seq<Seq<RecV>>, k: Seq<u8>)
    requires
        sorted_keys(acc),
    ensures
        sorted_keys(crate::compact::merge_segs(acc, segs)),
        match seg_find(crate::compact::merge_segs(acc, segs), k) {
            Some(m) => (seg_find(acc, k) == Some(m) || in_inputs(segs, k, m)) && (seg_find(
                acc,
                k,
            ) matches Some(c) ==> m.seq >= c.seq) && (forall|r: RecV|
                in_inputs(segs, k, r) ==> r.seq <= m.seq),
            None => seg_find(acc, k) is None && (forall|r: RecV| !in_inputs(segs, k, r)),
        },
    decreases segs.len(),
{
    if segs.len() == 0 {
        match seg_find(acc, k) {
            Some(m) => {
                assert forall|r: RecV| in_inputs(segs, k, r) implies r.seq <= m.seq by {
                    let (si, ri) = choose|si: int, ri: int|
                        0 <= si < segs.len() && 0 <= ri < segs[si].len() && segs[si][ri] == r;
                }
            },
            None => {
                assert forall|r: RecV| !in_inputs(segs, k, r) by {
                    if in_inputs(segs, k, r) {
                        let (si, ri) = choose|si: int, ri: int|
                            0 <= si < segs.len() && 0 <= ri < segs[si].len() && segs[si][ri] == r;
                    }
                }
            },
        }
    } else {
        lemma_merge_seg_find(acc, segs[0], k);
        let acc1 = crate::compact::merge_seg(acc, segs[0]);
        lemma_merge_segs_find(acc1, segs.skip(1), k);
        let res = crate::compact::merge_segs(acc, segs);
        assert(res == crate::compact::merge_segs(acc1, segs.skip(1)));
        assert forall|r: RecV| in_inputs(segs.skip(1), k, r) implies in_inputs(segs, k, r) by {
            let (si, ri) = choose|si: int, ri: int|
                0 <= si < segs.skip(1).len() && 0 <= ri < segs.skip(1)[si].len() && segs.skip(
                    1,
                )[si][ri] == r;
            assert(segs[si + 1][ri] == r);
        }
        match seg_find(res, k) {
            Some(m) => {
                if seg_find(acc1, k) == Some(m) && !(seg_find(acc, k) == Some(m)) {
                    assert(in_recs(segs[0], k, m));
                    let ri = choose|ri: int| 0 <= ri < segs[0].len() && segs[0][ri] == m;
                    assert(in_inputs(segs, k, m));
                }
                assert forall|r: RecV| in_inputs(segs, k, r) implies r.seq <= m.seq by {
                    let (si, ri) = choose|si: int, ri: int|
                        0 <= si < segs.len() && 0 <= ri < segs[si].len() && segs[si][ri] == r;
                    if si == 0 {
                        assert(in_recs(segs[0], k, r));
                        assert(seg_find(acc1, k) is Some);
                        let c1 = seg_find(acc1, k).unwrap();
                        assert(r.seq <= c1.seq);
                        assert(c1.seq <= m.seq);
                    } else {
                        assert(segs.skip(1)[si - 1][ri] == r);
                        assert(in_inputs(segs.skip(1), k, r));
                    }
                }
            },
            None => {
                assert forall|r: RecV| !in_inputs(segs, k, r) by {
                    if in_inputs(segs, k, r) {
                        let (si, ri) = choose|si: int, ri: int|
                            0 <= si < segs.len() && 0 <= ri < segs[si].len() && segs[si][ri] == r;
                        if si == 0 {
                            assert(in_recs(segs[0], k, r));
                            assert(seg_find(acc1, k) is Some);
                        } else {
                            assert(segs.skip(1)[si - 1][ri] == r);
                            assert(in_inputs(segs.skip(1), k, r));
                        }
                        assert(false);
                    }
                }
            },
        }
    }
}

/// What the read fold resolves: an unhidden record some segment finds for
/// the key, carrying the largest stamp among all such records; or nothing
/// when every such record is hidden.
proof fn lemma_best_charac(
    segs: Seq<Seq<RecV>>,
    tombs: Seq<(Seq<u8>, u64)>,
    k: Seq<u8>,
    init: Option<RecV>,
)
    requires
        init matches Some(c) ==> !covered(tombs, k, c.seq),
    ensures
        match best_from(segs, tombs, k, init) {
            None => init is None && (forall|r: RecV|
                #[trigger] found_in(segs, k, r) ==> covered(tombs, k, r.seq)),
            Some(b) => !covered(tombs, k, b.seq) && (init == Some(b) || found_in(segs, k, b)) && (
            init matches Some(c) ==> b.seq >= c.seq) && (forall|r: RecV|
                #[trigger] found_in(segs, k, r) && !covered(tombs, k, r.seq) ==> r.seq <= b.seq),
        },
    decreases segs.len(),
{
    if segs.len() == 0 {
        match best_from(segs, tombs, k, init) {
            None => {
                assert forall|r: RecV| #[trigger] found_in(segs, k, r) implies covered(
                    tombs,
                    k,
                    r.seq,
                ) by {
                    let si = choose|si: int|
                        0 <= si < segs.len() && seg_find(#[trigger] segs[si], k) == Some(r);
                }
            },
            Some(b) => {
                assert forall|r: RecV|
                    #[trigger] found_in(segs, k, r) && !covered(tombs, k, r.seq) implies r.seq
                    <= b.seq by {
                    let si = choose|si: int|
                        0 <= si < segs.len() && seg_find(#[trigger] segs[si], k) == Some(r);
                }
            },
        }
    } else {
        let cand = seg_find(segs[0], k);
        let next = upd_best(init, cand, tombs, k);
        assert(next matches Some(c) ==> !covered(tombs, k, c.seq));
        lemma_best_charac(segs.skip(1), tombs, k, next);
        assert forall|r: RecV| found_in(segs.skip(1), k, r) implies found_in(segs, k, r) by {
            let si = choose|si: int|
                0 <= si < segs.skip(1).len() && seg_find(#[trigger] segs.skip(1)[si], k) == Some(
                    r,
                );
            assert(segs[si + 1] == segs.skip(1)[si]);
            assert(seg_find(segs[si + 1], k) == Some(r));
        }
        match best_from(segs, tombs, k, init) {
            None => {
                assert(next is None);
                assert(init is None);
                assert forall|r: RecV| #[trigger] found_in(segs, k, r) implies covered(
                    tombs,
                    k,
                    r.seq,
                ) by {
                    let si = choose|si: int|
                        0 <= si < segs.len() && seg_find(#[trigger] segs[si], k) == Some(r);
                    if si == 0 {
                        assert(cand == Some(r));
                        if !covered(tombs, k, r.seq) {
                            assert(next is Some);
                        }
                    } else {
                        assert(segs.skip(1)[si - 1] == segs[si]);
                        assert(found_in(segs.skip(1), k, r));
                    }
                }
            },
            Some(b) => {
                assert(best_from(segs.skip(1), tombs, k, next) == Some(b));
                if next == Some(b) && init != Some(b) {
                    assert(cand == Some(b));
                    assert(found_in(segs, k, b)) by {
                        assert(seg_find(segs[0], k) == Some(b));
                    }
                }
                if found_in(segs.skip(1), k, b) {
                    assert(found_in(segs, k, b));
                }
                assert(init matches Some(c) ==> b.seq >= c.seq) by {
                    if init is Some {
                        let c = init.unwrap();
                        let n = next.unwrap();
                        assert(n.seq >= c.seq);
                        assert(b.seq >= n.seq);
                    }
                }
                assert forall|r: RecV|
                    #[trigger] found_in(segs, k, r) && !covered(tombs, k, r.seq) implies r.seq
                    <= b.seq by {
                    let si = choose|si: int|
                        0 <= si < segs.len() && seg_find(#[trigger] segs[si], k) == Some(r);
                    if si == 0 {
                        assert(cand == Some(r));
                        let n = next.unwrap();
                        assert(r.seq <= n.seq);
                        assert(b.seq >= n.seq);
                    } else {
                        assert(segs.skip(1)[si - 1] == segs[si]);
                        assert(found_in(segs.skip(1), k, r));
                    }
                }
            },
        }
    }
}


/// Compaction preserves visibility: merging the oldest four level-0
/// segments into one level-1 segment leaves every read unchanged, provided
/// each merged segment holds at most one record for the key read and no
/// two records that segments resolve for it share a stamp — which is how
/// every segment this store writes comes out.
pub proof fn lemma_compact0_preserves_get(v: StoreV, k: Seq<u8>)
    requires
        wf_v(v),
        v.l0.len() >= 4,
        forall|si: int| 0 <= si < 4 ==> unique_key(#[trigger] v.l0[si], k),
        forall|r1: RecV, r2: RecV|
            #[trigger] found_in(all_segs(v), k, r1) && #[trigger] found_in(all_segs(v), k, r2)
                && r1 != r2 ==> r1.seq != r2.seq,
    ensures
        spec_get(crate::compact::spec_after_compact0(v), k) == spec_get(v, k),
{
    let after = crate::compact::spec_after_compact0(v);
    assert(after.mem == v.mem && after.tombs == v.tombs);
    match mem_lookup(v.mem, k) {
        Some(_) => {},
        None => {
            let a = all_segs(v);
            let b = all_segs(after);
            let inputs = v.l0.take(4);
            let merged = crate::compact::spec_merge(inputs);
            let n0 = v.l0.len() as int;
            let n1 = v.l1.len() as int;
            let n2 = v.l2.len() as int;
            let mi = (n0 - 4) + n1;
            assert(b.len() == a.len() - 3);
            assert(b[mi] == merged);
            assert(forall|si: int| 0 <= si < n0 - 4 ==> #[trigger] b[si] == a[si + 4]);
            assert(forall|si: int| n0 - 4 <= si < mi ==> #[trigger] b[si] == a[si + 4]);
            assert(forall|si: int| mi < si < b.len() ==> #[trigger] b[si] == a[si + 3]);
            lemma_merge_segs_find(Seq::empty(), inputs, k);
            let m_opt = seg_find(merged, k);
            // A record sitting in the inputs is what its segment resolves.
            assert forall|r: RecV| in_inputs(inputs, k, r) implies #[trigger] found_in(
                a,
                k,
                r,
            ) by {
                let (si, ri) = choose|si: int, ri: int|
                    0 <= si < inputs.len() && 0 <= ri < inputs[si].len() && inputs[si][ri] == r;
                assert(inputs[si] == v.l0[si]);
                lemma_unique_find(v.l0[si], k, ri);
                assert(a[si] == v.l0[si]);
                assert(seg_find(a[si], k) == Some(r));
            }
            lemma_best_charac(a, v.tombs, k, None);
            lemma_best_charac(b, v.tombs, k, None);
            let best_a = best_from(a, v.tombs, k, None);
            let best_b = best_from(b, v.tombs, k, None);
            // Whatever a segment of the compacted store resolves was
            // resolved before, with the merged segment standing in for its
            // inputs.
            assert forall|r: RecV| #[trigger] found_in(b, k, r) implies (m_opt == Some(r)
                || found_in(a, k, r)) by {
                let si = choose|si: int|
                    0 <= si < b.len() && seg_find(#[trigger] b[si], k) == Some(r);
                if si == mi {
                } else if si < mi {
                    assert(seg_find(a[si + 4], k) == Some(r));
                } else {
                    assert(seg_find(a[si + 3], k) == Some(r));
                }
            }
            match best_a {
                Some(bb) => {
                    assert(found_in(a, k, bb));
                    assert(!covered(v.tombs, k, bb.seq));
                    // The resolved record survives into the compacted
                    // lists, possibly as the merged segment's record.
                    assert(found_in(b, k, bb)) by {
                        let si = choose|si: int|
                            0 <= si < a.len() && seg_find(#[trigger] a[si], k) == Some(bb);
                        if si < 4 {
                            assert(a[si] == v.l0[si]);
                            assert(inputs[si] == v.l0[si]);
                            crate::segment::lemma_seg_find_has_key(inputs[si], k);
                            let ri = choose|ri: int|
                                0 <= ri < inputs[si].len() && inputs[si][ri] == bb;
                            assert(in_inputs(inputs, k, bb));
                            assert(m_opt is Some);
                            let m = m_opt.unwrap();
                            assert(m.seq >= bb.seq);
                            assert(in_inputs(inputs, k, m));
                            assert(found_in(a, k, m));
                            assert(!covered(v.tombs, k, m.seq)) by {
                                if covered(v.tombs, k, m.seq) {
                                    crate::tombs::lemma_covered_monotone(
                                        v.tombs,
                                        k,
                                        bb.seq,
                                        m.seq,
                                    );
                                }
                            }
                            assert(m.seq <= bb.seq);
                            assert(m == bb);
                            assert(seg_find(b[mi], k) == Some(bb));
                        } else if si < n0 {
                            assert(b[si - 4] == a[si]);
                            assert(seg_find(b[si - 4], k) == Some(bb));
                        } else if si < n0 + n1 {
                            assert(b[si - 4] == a[si]);
                            assert(seg_find(b[si - 4], k) == Some(bb));
                        } else {
                            assert(b[si - 3] == a[si]);
                            assert(seg_find(b[si - 3], k) == Some(bb));
                        }
                    }
                    assert(best_b is Some) by {
                        if best_b is None {
                            assert(covered(v.tombs, k, bb.seq));
                        }
                    }
                    let b2 = best_b.unwrap();
                    assert(found_in(a, k, b2)) by {
                        if m_opt == Some(b2) {
                            assert(in_inputs(inputs, k, b2));
                        }
                    }
                    assert(b2.seq <= bb.seq);
                    assert(bb.seq <= b2.seq);
                    assert(b2 == bb);
                },
                None => {
                    if best_b is Some {
                        let b2 = best_b.unwrap();
                        assert(!covered(v.tombs, k, b2.seq));
                        assert(found_in(a, k, b2)) by {
                            if m_opt == Some(b2) {
                                assert(in_inputs(inputs, k, b2));
                            }
                        }
                        assert(covered(v.tombs, k, b2.seq));
                        assert(false);
                    }
                },
            }
        },
    }
}


/// What survives the deepest level's tombstone drop at key `k`: the
/// merged record when it is a point write, nothing otherwise.
proof fn lemma_keep_sets_find(rs: Seq<RecV>, k: Seq<u8>)
    requires
        unique_key(rs, k),
    ensures
        seg_find(crate::compact::keep_sets(rs), k) == (match seg_find(rs, k) {
            Some(r) => if r.kind == crate::rec::RT_SET {
                Some(r)
            } else {
                None::<RecV>
            },
            None => None::<RecV>,
        }),
    decreases rs.len(),
{
    broadcast use vstd::seq_lib::group_filter_ensures;
    broadcast use vstd::prelude::Seq::filter_distributes_over_add;

    reveal_with_fuel(Seq::filter, 3);
    let ks = crate::compact::keep_sets(rs);
    if rs.len() == 0 {
        assert(ks =~= Seq::<RecV>::empty());
    } else {
        let head = seq![rs[0]];
        let tail = rs.skip(1);
        assert(rs =~= head + tail);
        assert(head.drop_last() =~= Seq::<RecV>::empty());
        assert(head.last() == rs[0]);
        assert(unique_key(tail, k)) by {
            assert(forall|i: int| 0 <= i < tail.len() ==> tail[i] == rs[i + 1]);
        }
        lemma_keep_sets_find(tail, k);
        let kt = crate::compact::keep_sets(tail);
        let kh = crate::compact::keep_sets(head);
        assert(ks == kh + kt);
        if rs[0].kind == crate::rec::RT_SET {
            assert(kh =~= seq![rs[0]]);
        } else {
            assert(kh =~= Seq::<RecV>::empty());
        }
        if rs[0].key == k {
            assert(seg_find(tail, k) is None) by {
                crate::segment::lemma_seg_find_has_key(tail, k);
                if crate::segment::seg_has_key(tail, k) {
                    let i = choose|i: int| 0 <= i < tail.len() && tail[i].key == k;
                    assert(rs[0].key == k && rs[i + 1].key == k);
                    assert(false);
                }
            }
            if rs[0].kind == crate::rec::RT_SET {
                assert(ks =~= seq![rs[0]] + kt);
                assert(seg_find(ks, k) == Some(rs[0]));
            } else {
                assert(ks =~= kt);
            }
        } else {
            if rs[0].kind == crate::rec::RT_SET {
                assert(ks =~= seq![rs[0]] + kt);
                assert(ks.skip(1) =~= kt);
                assert(seg_find(ks, k) == seg_find(kt, k));
            } else {
                assert(ks =~= kt);
                assert(seg_find(ks, k) == seg_find(kt, k));
            }
        }
    }
}

/// Compaction preserves visibility at the deepest level too, under the
/// same per-key tidiness and one more condition that the tombstone drop
/// forces: when the merged record for the key is a tombstone about to be
/// dropped, no segment outside the merge still holds the key. Without
/// that, dropping the tombstone would revive an older write for the key
/// sitting in another deep segment.
pub proof fn lemma_compact1_preserves_get(v: StoreV, k: Seq<u8>)
    requires
        wf_v(v),
        v.l1.len() >= 10,
        forall|si: int| 0 <= si < 10 ==> unique_key(#[trigger] v.l1[si], k),
        forall|r1: RecV, r2: RecV|
            #[trigger] found_in(all_segs(v), k, r1) && #[trigger] found_in(all_segs(v), k, r2)
                && r1 != r2 ==> r1.seq != r2.seq,
        (seg_find(crate::compact::spec_merge(v.l1.take(10)), k) matches Some(m) && m.kind
            != crate::rec::RT_SET) ==> (forall|si: int|
            0 <= si < all_segs(v).len() && !(v.l0.len() <= si < v.l0.len() + 10) ==> seg_find(
                #[trigger] all_segs(v)[si],
                k,
            ) is None),
    ensures
        spec_get(crate::compact::spec_after_compact1(v), k) == spec_get(v, k),
{
    let after = crate::compact::spec_after_compact1(v);
    assert(after.mem == v.mem && after.tombs == v.tombs);
    match mem_lookup(v.mem, k) {
        Some(_) => {},
        None => {
            let a = all_segs(v);
            let b = all_segs(after);
            let inputs = v.l1.take(10);
            let merged = crate::compact::spec_merge(inputs);
            let dropped = crate::compact::keep_sets(merged);
            let n0 = v.l0.len() as int;
            let n1 = v.l1.len() as int;
            let n2 = v.l2.len() as int;
            let mi = b.len() - 1;
            assert(b.len() == a.len() - 9);
            assert(b[mi] == dropped);
            assert(forall|si: int| 0 <= si < n0 ==> #[trigger] b[si] == a[si]);
            assert(forall|si: int| n0 <= si < mi ==> #[trigger] b[si] == a[si + 10]);
            lemma_merge_segs_find(Seq::empty(), inputs, k);
            assert(unique_key(merged, k)) by {
                assert forall|i: int, j: int|
                    0 <= i < j < merged.len() implies !((#[trigger] merged[i]).key == k && (
                #[trigger] merged[j]).key == k) by {
                    if merged[i].key == k && merged[j].key == k {
                        assert(crate::order::lex_lt(merged[i].key, merged[j].key));
                        crate::order::lemma_lex_lt_irrefl(k);
                    }
                }
            }
            lemma_keep_sets_find(merged, k);
            let m_opt = seg_find(merged, k);
            assert forall|r: RecV| in_inputs(inputs, k, r) implies #[trigger] found_in(
                a,
                k,
                r,
            ) by {
                let (si, ri) = choose|si: int, ri: int|
                    0 <= si < inputs.len() && 0 <= ri < inputs[si].len() && inputs[si][ri] == r;
                assert(inputs[si] == v.l1[si]);
                lemma_unique_find(v.l1[si], k, ri);
                assert(a[n0 + si] == v.l1[si]);
                assert(seg_find(a[n0 + si], k) == Some(r));
            }
            lemma_best_charac(a, v.tombs, k, None);
            lemma_best_charac(b, v.tombs, k, None);
            let best_a = best_from(a, v.tombs, k, None);
            let best_b = best_from(b, v.tombs, k, None);
            let tomb_dropped = m_opt is Some && m_opt.unwrap().kind != crate::rec::RT_SET;
            assert forall|r: RecV| #[trigger] found_in(b, k, r) implies ((m_opt == Some(r)
                && r.kind == crate::rec::RT_SET) || found_in(a, k, r)) by {
                let si = choose|si: int|
                    0 <= si < b.len() && seg_find(#[trigger] b[si], k) == Some(r);
                if si == mi {
                } else if si < n0 {
                    assert(seg_find(a[si], k) == Some(r));
                } else {
                    assert(seg_find(a[si + 10], k) == Some(r));
                }
            }
            match best_a {
                Some(bb) => {
                    assert(found_in(a, k, bb));
                    assert(!covered(v.tombs, k, bb.seq));
                    if tomb_dropped {
                        // Every segment that still resolves the key is one
                        // of the merge's inputs, so the resolved record is
                        // the dropped tombstone itself.
                        let m = m_opt.unwrap();
                        let si = choose|si: int|
                            0 <= si < a.len() && seg_find(#[trigger] a[si], k) == Some(bb);
                        assert(n0 <= si < n0 + 10);
                        assert(a[si] == v.l1[si - n0]);
                        assert(inputs[si - n0] == v.l1[si - n0]);
                        crate::segment::lemma_seg_find_has_key(inputs[si - n0], k);
                        let ri = choose|ri: int|
                            0 <= ri < inputs[si - n0].len() && #[trigger] inputs[si - n0][ri]
                                == bb;
                        assert(in_inputs(inputs, k, bb));
                        assert(bb.seq <= m.seq);
                        assert(in_inputs(inputs, k, m));
                        assert(found_in(a, k, m));
                        assert(!covered(v.tombs, k, m.seq)) by {
                            if covered(v.tombs, k, m.seq) {
                                crate::tombs::lemma_covered_monotone(v.tombs, k, bb.seq, m.seq);
                            }
                        }
                        assert(m.seq <= bb.seq);
                        assert(m == bb);
                        // The read before the merge resolves the tombstone,
                        // and after the merge nothing resolves the key.
                        assert(spec_get(v, k) is None);
                        if best_b is Some {
                            let b2 = best_b.unwrap();
                            assert(found_in(b, k, b2));
                            let sib = choose|sib: int|
                                0 <= sib < b.len() && seg_find(#[trigger] b[sib], k) == Some(b2);
                            if sib == mi {
                                assert(seg_find(dropped, k) is None);
                                assert(false);
                            } else if sib < n0 {
                                assert(seg_find(a[sib], k) == Some(b2));
                                assert(seg_find(a[sib], k) is None);
                                assert(false);
                            } else {
                                assert(seg_find(a[sib + 10], k) == Some(b2));
                                assert(seg_find(a[sib + 10], k) is None);
                                assert(false);
                            }
                        }
                        assert(spec_get(after, k) is None);
                    } else {
                        assert(found_in(b, k, bb)) by {
                            let si = choose|si: int|
                                0 <= si < a.len() && seg_find(#[trigger] a[si], k) == Some(bb);
                            if n0 <= si < n0 + 10 {
                                assert(a[si] == v.l1[si - n0]);
                                assert(inputs[si - n0] == v.l1[si - n0]);
                                crate::segment::lemma_seg_find_has_key(inputs[si - n0], k);
                                let ri = choose|ri: int|
                                    0 <= ri < inputs[si - n0].len() && #[trigger] inputs[si
                                        - n0][ri] == bb;
                                assert(in_inputs(inputs, k, bb));
                                assert(m_opt is Some);
                                let m = m_opt.unwrap();
                                assert(m.seq >= bb.seq);
                                assert(in_inputs(inputs, k, m));
                                assert(found_in(a, k, m));
                                assert(!covered(v.tombs, k, m.seq)) by {
                                    if covered(v.tombs, k, m.seq) {
                                        crate::tombs::lemma_covered_monotone(
                                            v.tombs,
                                            k,
                                            bb.seq,
                                            m.seq,
                                        );
                                    }
                                }
                                assert(m.seq <= bb.seq);
                                assert(m == bb);
                                assert(m.kind == crate::rec::RT_SET);
                                assert(seg_find(dropped, k) == Some(bb));
                                assert(seg_find(b[mi], k) == Some(bb));
                            } else if si < n0 {
                                assert(b[si] == a[si]);
                                assert(seg_find(b[si], k) == Some(bb));
                            } else {
                                assert(b[si - 10] == a[si]);
                                assert(seg_find(b[si - 10], k) == Some(bb));
                            }
                        }
                        assert(best_b is Some) by {
                            if best_b is None {
                                assert(covered(v.tombs, k, bb.seq));
                            }
                        }
                        let b2 = best_b.unwrap();
                        assert(found_in(a, k, b2)) by {
                            if m_opt == Some(b2) && !found_in(a, k, b2) {
                                assert(in_inputs(inputs, k, b2));
                            }
                        }
                        assert(b2.seq <= bb.seq);
                        assert(bb.seq <= b2.seq);
                        assert(b2 == bb);
                    }
                },
                None => {
                    if best_b is Some {
                        let b2 = best_b.unwrap();
                        assert(!covered(v.tombs, k, b2.seq));
                        assert(found_in(a, k, b2)) by {
                            if m_opt == Some(b2) && !found_in(a, k, b2) {
                                assert(in_inputs(inputs, k, b2));
                            }
                        }
                        assert(covered(v.tombs, k, b2.seq));
                        assert(false);
                    }
                },
            }
        },
    }
}


/// After a replacing write, any other key that reads as present already
/// did: the write only adds a tombstone over the key's subtree.
proof fn lemma_set_replace_shrinks(v: StoreV, key: Seq<u8>, val: Seq<u8>, k2: Seq<u8>)
    requires
        wf_v(v),
        v.seq < u64::MAX,
        k2 != key,
    ensures
        spec_get(spec_after_set(v, key, val, true), k2) is Some ==> spec_get(v, k2) is Some,
{
    let post = spec_after_set(v, key, val, true);
    let s1 = (v.seq + 1) as u64;
    let prefix = key.push(SLASH);
    lemma_sorted_insert_lookup(v.mem, key, MemValV::Scalar(val, s1), k2);
    assert(mem_lookup(post.mem, k2) == mem_lookup(v.mem, k2));
    assert(post.tombs == v.tombs.push((prefix, s1)));
    if spec_get(post, k2) is Some {
        if prefix.is_prefix_of(k2) {
            assert forall|s: u64| s <= v.seq implies covered(post.tombs, k2, s) by {
                let w = v.tombs.len() as int;
                assert(post.tombs[w] == (prefix, s1));
                assert(post.tombs[w].0.is_prefix_of(k2) && post.tombs[w].1 >= s);
            }
            match mem_lookup(v.mem, k2) {
                Some(MemValV::Scalar(val2, s2)) => {
                    assert(s2 <= v.seq) by {
                        lemma_mem_lookup_is_entry(v.mem, k2);
                        let i = choose|i: int|
                            0 <= i < v.mem.len() && v.mem[i] == (k2, MemValV::Scalar(val2, s2));
                        assert(crate::store::mem_entry_seq(v.mem[i].1) <= v.seq);
                    }
                    assert(covered(post.tombs, k2, s2));
                },
                Some(MemValV::PointTomb(_)) => {},
                None => {
                    lemma_best_from_all_covered(all_segs(v), post.tombs, k2, v.seq);
                    assert(all_segs(post) == all_segs(v));
                },
            }
        } else {
            assert forall|s: u64| s <= v.seq implies (covered(v.tombs, k2, s) <==> covered(
                post.tombs,
                k2,
                s,
            )) by {
                if covered(post.tombs, k2, s) {
                    let i = choose|i: int|
                        0 <= i < post.tombs.len() && (#[trigger] post.tombs[i]).0.is_prefix_of(
                            k2,
                        ) && post.tombs[i].1 >= s;
                    assert(i < v.tombs.len());
                    assert(v.tombs[i].0.is_prefix_of(k2) && v.tombs[i].1 >= s);
                }
                if covered(v.tombs, k2, s) {
                    let i = choose|i: int|
                        0 <= i < v.tombs.len() && (#[trigger] v.tombs[i]).0.is_prefix_of(k2)
                            && v.tombs[i].1 >= s;
                    assert(post.tombs[i].0.is_prefix_of(k2) && post.tombs[i].1 >= s);
                }
            }
            match mem_lookup(v.mem, k2) {
                Some(MemValV::Scalar(val2, s2)) => {
                    assert(s2 <= v.seq) by {
                        lemma_mem_lookup_is_entry(v.mem, k2);
                        let i = choose|i: int|
                            0 <= i < v.mem.len() && v.mem[i] == (k2, MemValV::Scalar(val2, s2));
                        assert(crate::store::mem_entry_seq(v.mem[i].1) <= v.seq);
                    }
                },
                Some(MemValV::PointTomb(_)) => {},
                None => {
                    lemma_best_from_tombs_agree(all_segs(v), v.tombs, post.tombs, k2, None, v.seq);
                    assert(all_segs(post) == all_segs(v));
                },
            }
        }
    }
}

/// Scalar-parent exclusion, preserved by replacing writes with no side
/// condition: the write's own subtree tombstone hides every previous
/// descendant of the written key, and the ancestor walk rejects the rest.
pub proof fn lemma_set_replace_preserves_tree_ok(v: StoreV, key: Seq<u8>, val: Seq<u8>)
    requires
        wf_v(v),
        v.seq < u64::MAX,
        tree_ok(v),
        !tree_violation_at(v, key),
    ensures
        tree_ok(spec_after_set(v, key, val, true)),
{
    let post = spec_after_set(v, key, val, true);
    let s1 = (v.seq + 1) as u64;
    let prefix = key.push(SLASH);
    assert forall|a: Seq<u8>, k: Seq<u8>|
        path_ancestor(a, k) implies !((#[trigger] spec_get(post, a)) is Some && (
    #[trigger] spec_get(post, k)) is Some) by {
        if spec_get(post, a) is Some && spec_get(post, k) is Some {
            if a == key {
                // The written key's new subtree tombstone outlasts every
                // stored stamp under it.
                assert(prefix.is_prefix_of(k));
                assert(k != key) by {
                    if k == key {
                        assert(prefix.len() > key.len());
                    }
                }
                lemma_sorted_insert_lookup(v.mem, key, MemValV::Scalar(val, s1), k);
                assert(mem_lookup(post.mem, k) == mem_lookup(v.mem, k));
                assert forall|s: u64| s <= v.seq implies covered(post.tombs, k, s) by {
                    let w = v.tombs.len() as int;
                    assert(post.tombs[w] == (prefix, s1));
                    assert(post.tombs[w].0.is_prefix_of(k) && post.tombs[w].1 >= s);
                }
                match mem_lookup(v.mem, k) {
                    Some(MemValV::Scalar(val2, s2)) => {
                        assert(s2 <= v.seq) by {
                            lemma_mem_lookup_is_entry(v.mem, k);
                            let i = choose|i: int|
                                0 <= i < v.mem.len() && v.mem[i] == (
                                    k,
                                    MemValV::Scalar(val2, s2),
                                );
                            assert(crate::store::mem_entry_seq(v.mem[i].1) <= v.seq);
                        }
                        assert(covered(post.tombs, k, s2));
                    },
                    Some(MemValV::PointTomb(_)) => {},
                    None => {
                        lemma_best_from_all_covered(all_segs(v), post.tombs, k, v.seq);
                        assert(all_segs(post) == all_segs(v));
                    },
                }
                assert(false);
            } else if k == key {
                lemma_set_replace_shrinks(v, key, val, a);
                assert(spec_get(v, a) is Some);
                lemma_ancestor_position(v, a, key);
                assert(false);
            } else {
                assert(a != key && k != key) by {
                    if a == key {
                    }
                }
                lemma_set_replace_shrinks(v, key, val, a);
                lemma_set_replace_shrinks(v, key, val, k);
                assert(spec_get(v, a) is Some && spec_get(v, k) is Some);
                assert(false);
            }
        }
    }
}


/// A level merge comes out in strictly ascending key order.
pub proof fn lemma_merge_sorted(segs: Seq<Seq<RecV>>)
    ensures
        sorted_keys(crate::compact::spec_merge(segs)),
{
    lemma_merge_segs_find(Seq::empty(), segs, Seq::empty());
}

/// Dropping tombstones keeps the merge's key order.
pub proof fn lemma_keep_sets_sorted(rs: Seq<RecV>)
    requires
        sorted_keys(rs),
    ensures
        sorted_keys(crate::compact::keep_sets(rs)),
    decreases rs.len(),
{
    broadcast use vstd::prelude::Seq::filter_distributes_over_add;

    reveal_with_fuel(Seq::filter, 3);
    let ks = crate::compact::keep_sets(rs);
    if rs.len() == 0 {
        assert(ks =~= Seq::<RecV>::empty());
    } else {
        let head = seq![rs[0]];
        let tail = rs.skip(1);
        assert(rs =~= head + tail);
        assert(head.drop_last() =~= Seq::<RecV>::empty());
        assert(head.last() == rs[0]);
        assert(sorted_keys(tail)) by {
            assert(forall|i: int| 0 <= i < tail.len() ==> tail[i] == rs[i + 1]);
        }
        lemma_keep_sets_sorted(tail);
        let kt = crate::compact::keep_sets(tail);
        let kh = crate::compact::keep_sets(head);
        assert(ks == kh + kt);
        crate::compact::lemma_filter_sub(tail);
        if rs[0].kind == crate::rec::RT_SET {
            assert(kh =~= seq![rs[0]]);
            assert forall|i: int, j: int|
                0 <= i < j < ks.len() implies crate::order::lex_lt(
                (#[trigger] ks[i]).key,
                (#[trigger] ks[j]).key,
            ) by {
                if i == 0 {
                    assert(ks[j] == kt[j - 1]);
                    let m = choose|m: int| 0 <= m < tail.len() && tail[m] == kt[j - 1];
                    assert(tail[m] == rs[m + 1]);
                    assert(crate::order::lex_lt(rs[0].key, rs[m + 1].key));
                } else {
                    assert(ks[i] == kt[i - 1] && ks[j] == kt[j - 1]);
                }
            }
        } else {
            assert(kh =~= Seq::<RecV>::empty());
            assert(ks =~= kt);
        }
    }
}

} // verus!
