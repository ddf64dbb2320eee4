//! Subtree tombstones.
//!
//! A subtree tombstone `(prefix, seq)` hides every record whose key starts
//! with `prefix` and whose sequence number is at most `seq`. Prefixes end
//! in `/`, so the anchor key itself is never covered. Tombstones only
//! accumulate; an older entry for the same prefix is subsumed by a newer
//! one because coverage looks at the largest matching sequence number.

use vstd::prelude::*;

use crate::order::bytes_starts_with;

verus! {

/// Record `(k, s)` is hidden by some tombstone in `tombs`.
pub open spec fn covered(tombs: Seq<(Seq<u8>, u64)>, k: Seq<u8>, s: u64) -> bool {
    exists|i: int|
        0 <= i < tombs.len() && (#[trigger] tombs[i].0).is_prefix_of(k) && tombs[i].1 >= s
}

/// Coverage is monotone: hiding a record hides everything older at its key.
pub proof fn lemma_covered_monotone(tombs: Seq<(Seq<u8>, u64)>, k: Seq<u8>, s1: u64, s2: u64)
    requires
        covered(tombs, k, s2),
        s1 <= s2,
    ensures
        covered(tombs, k, s1),
{
    let i = choose|i: int|
        0 <= i < tombs.len() && (#[trigger] tombs[i].0).is_prefix_of(k) && tombs[i].1 >= s2;
    assert(tombs[i].0.is_prefix_of(k) && tombs[i].1 >= s1);
}

/// The set of in-flight subtree tombstones.
pub struct TombList {
    pub entries: Vec<(Vec<u8>, u64)>,
}

impl View for TombList {
    type V = Seq<(Seq<u8>, u64)>;

    open spec fn view(&self) -> Seq<(Seq<u8>, u64)> {
        self.entries@.map_values(|p: (Vec<u8>, u64)| (p.0@, p.1))
    }
}

impl TombList {
    /// No tombstones.
    pub fn new() -> (r: TombList)
        ensures
            r@ =~= Seq::<(Seq<u8>, u64)>::empty(),
    {
        TombList { entries: Vec::new() }
    }

    /// Record a new subtree tombstone.
    pub fn add(&mut self, prefix: Vec<u8>, seq: u64)
        ensures
            final(self)@ =~= old(self)@.push((prefix@, seq)),
    {
        self.entries.push((prefix, seq));
    }

    /// Is record `(k, s)` hidden by a tombstone here?
    pub fn is_covered(&self, k: &[u8], s: u64) -> (r: bool)
        ensures
            r == covered(self@, k@, s),
    {
        let mut i: usize = 0;
        while i < self.entries.len()
            invariant
                i <= self.entries.len(),
                forall|j: int|
                    0 <= j < i ==> !((#[trigger] self@[j].0).is_prefix_of(k@) && self@[j].1 >= s),
            decreases self.entries.len() - i,
        {
            if self.entries[i].1 >= s && bytes_starts_with(k, &self.entries[i].0) {
                proof {
                    assert(self@[i as int].0.is_prefix_of(k@) && self@[i as int].1 >= s);
                }
                return true;
            }
            i = i + 1;
        }
        false
    }
}

} // verus!
