//! The memtable: an in-memory ordered map from key to the newest buffered
//! mutation for that key, either a scalar value or a point tombstone.
//!
//! Entries are kept strictly sorted by key, so draining the table into a
//! segment yields an already-sorted run.

use vstd::prelude::*;

use crate::order::{bytes_eq, bytes_lt, lemma_lex_lt_connected, lemma_lex_lt_trans, lex_lt};

verus! {

/// Mathematical image of a memtable entry.
pub enum MemValV {
    Scalar(Seq<u8>, u64),
    PointTomb(u64),
}

/// What the memtable remembers for one key: the newest value written to it,
/// or the tombstone that deleted it.
pub enum MemValue {
    Scalar(Vec<u8>, u64),
    PointTomb(u64),
}

impl View for MemValue {
    type V = MemValV;

    open spec fn view(&self) -> MemValV {
        match self {
            MemValue::Scalar(v, s) => MemValV::Scalar(v@, *s),
            MemValue::PointTomb(s) => MemValV::PointTomb(*s),
        }
    }
}

impl MemValue {
    /// Copy an entry.
    pub fn duplicate(&self) -> (r: MemValue)
        ensures
            r@ == self@,
    {
        match self {
            MemValue::Scalar(v, s) => MemValue::Scalar(crate::rec::clone_bytes(v), *s),
            MemValue::PointTomb(s) => MemValue::PointTomb(*s),
        }
    }
}

/// The entry sequence is strictly ascending by key.
pub open spec fn mem_sorted(s: Seq<(Seq<u8>, MemValV)>) -> bool {
    forall|i: int, j: int| 0 <= i < j < s.len() ==> lex_lt(s[i].0, s[j].0)
}

/// First entry for `k`, if any. On a sorted table this is the only one.
pub open spec fn mem_lookup(s: Seq<(Seq<u8>, MemValV)>, k: Seq<u8>) -> Option<MemValV>
    decreases s.len(),
{
    if s.len() == 0 {
        None
    } else if s[0].0 == k {
        Some(s[0].1)
    } else {
        mem_lookup(s.skip(1), k)
    }
}

/// Some entry carries key `k`.
pub open spec fn mem_has_key(s: Seq<(Seq<u8>, MemValV)>, k: Seq<u8>) -> bool {
    exists|i: int| 0 <= i < s.len() && s[i].0 == k
}

/// Insertion into a sorted entry sequence, replacing an equal key in place.
pub open spec fn sorted_insert(s: Seq<(Seq<u8>, MemValV)>, k: Seq<u8>, v: MemValV) -> Seq<
    (Seq<u8>, MemValV),
>
    decreases s.len(),
{
    if s.len() == 0 {
        seq![(k, v)]
    } else if lex_lt(k, s[0].0) {
        seq![(k, v)] + s
    } else if k == s[0].0 {
        seq![(k, v)] + s.skip(1)
    } else {
        seq![s[0]] + sorted_insert(s.skip(1), k, v)
    }
}

/// Where a linear scan stops is where `sorted_insert` puts the new entry.
proof fn lemma_sorted_insert_at(
    s: Seq<(Seq<u8>, MemValV)>,
    k: Seq<u8>,
    v: MemValV,
    pos: int,
)
    requires
        0 <= pos <= s.len(),
        forall|j: int| 0 <= j < pos ==> lex_lt(#[trigger] s[j].0, k),
        pos < s.len() ==> !lex_lt(s[pos].0, k),
    ensures
        sorted_insert(s, k, v) == if pos < s.len() && s[pos].0 == k {
            s.take(pos) + seq![(k, v)] + s.skip(pos + 1)
        } else {
            s.take(pos) + seq![(k, v)] + s.skip(pos)
        },
    decreases pos,
{
    if pos == 0 {
        if s.len() == 0 {
            assert(sorted_insert(s, k, v) =~= s.take(0) + seq![(k, v)] + s.skip(0));
        } else if s[0].0 == k {
            assert(sorted_insert(s, k, v) =~= s.take(0) + seq![(k, v)] + s.skip(1));
        } else {
            assert(lex_lt(k, s[0].0)) by {
                if !lex_lt(k, s[0].0) {
                    lemma_lex_lt_connected(k, s[0].0);
                }
            }
            assert(sorted_insert(s, k, v) =~= s.take(0) + seq![(k, v)] + s.skip(0));
        }
    } else {
        assert(lex_lt(s[0].0, k));
        assert(!lex_lt(k, s[0].0)) by {
            crate::order::lemma_lex_lt_asymmetric(s[0].0, k);
        }
        assert(s[0].0 != k);
        let s1 = s.skip(1);
        assert(forall|j: int| 0 <= j < pos - 1 ==> lex_lt(#[trigger] s1[j].0, k));
        lemma_sorted_insert_at(s1, k, v, pos - 1);
        assert(sorted_insert(s, k, v) == seq![s[0]] + sorted_insert(s1, k, v));
        if pos < s.len() && s[pos].0 == k {
            assert(s1[pos - 1].0 == k);
            assert(seq![s[0]] + (s1.take(pos - 1) + seq![(k, v)] + s1.skip(pos)) =~= s.take(pos)
                + seq![(k, v)] + s.skip(pos + 1));
        } else {
            assert(seq![s[0]] + (s1.take(pos - 1) + seq![(k, v)] + s1.skip(pos - 1)) =~= s.take(
                pos,
            ) + seq![(k, v)] + s.skip(pos));
        }
    }
}

/// Inserting keeps the table sorted.
pub proof fn lemma_sorted_insert_sorted(s: Seq<(Seq<u8>, MemValV)>, k: Seq<u8>, v: MemValV)
    requires
        mem_sorted(s),
    ensures
        mem_sorted(sorted_insert(s, k, v)),
    decreases s.len(),
{
    if s.len() == 0 {
    } else if lex_lt(k, s[0].0) {
        let r = seq![(k, v)] + s;
        assert forall|i: int, j: int| 0 <= i < j < r.len() implies lex_lt(r[i].0, r[j].0) by {
            if i == 0 {
                if j > 1 {
                    lemma_lex_lt_trans(k, s[0].0, s[j - 1].0);
                }
            }
        }
    } else if k == s[0].0 {
        let r = seq![(k, v)] + s.skip(1);
        assert forall|i: int, j: int| 0 <= i < j < r.len() implies lex_lt(r[i].0, r[j].0) by {
            if i == 0 {
                assert(s[0].0 == k);
                assert(r[j].0 == s[j].0);
            }
        }
    } else {
        assert(lex_lt(s[0].0, k)) by {
            if !lex_lt(s[0].0, k) {
                lemma_lex_lt_connected(k, s[0].0);
            }
        }
        let s1 = s.skip(1);
        assert(mem_sorted(s1)) by {
            assert(forall|i: int, j: int|
                0 <= i < j < s1.len() ==> lex_lt(#[trigger] s1[i].0, #[trigger] s1[j].0));
        }
        lemma_sorted_insert_sorted(s1, k, v);
        let r1 = sorted_insert(s1, k, v);
        let r = seq![s[0]] + r1;
        lemma_sorted_insert_keys(s1, k, v);
        assert forall|i: int, j: int| 0 <= i < j < r.len() implies lex_lt(r[i].0, r[j].0) by {
            if i == 0 {
                assert(r[j].0 == r1[j - 1].0);
                if r1[j - 1].0 == k {
                    assert(lex_lt(s[0].0, k));
                } else {
                    let m = choose|m: int| 0 <= m < s1.len() && s1[m].0 == r1[j - 1].0;
                    assert(lex_lt(s[0].0, s1[m].0));
                }
            }
        }
    }
}

/// Every key after an insertion is the new key or one already present.
pub proof fn lemma_sorted_insert_keys(s: Seq<(Seq<u8>, MemValV)>, k: Seq<u8>, v: MemValV)
    ensures
        forall|j: int|
            0 <= j < sorted_insert(s, k, v).len() ==> (#[trigger] sorted_insert(s, k, v)[j].0 == k
                || exists|m: int| 0 <= m < s.len() && s[m].0 == sorted_insert(s, k, v)[j].0),
    decreases s.len(),
{
    if s.len() == 0 {
    } else if lex_lt(k, s[0].0) {
    } else if k == s[0].0 {
        let r = seq![(k, v)] + s.skip(1);
        assert forall|j: int| 0 <= j < r.len() && r[j].0 != k implies exists|m: int|
            0 <= m < s.len() && s[m].0 == r[j].0 by {
            assert(s[j].0 == r[j].0);
        }
    } else {
        lemma_sorted_insert_keys(s.skip(1), k, v);
        let s1 = s.skip(1);
        let r1 = sorted_insert(s1, k, v);
        let r = seq![s[0]] + r1;
        assert forall|j: int| 0 <= j < r.len() && r[j].0 != k implies exists|m: int|
            0 <= m < s.len() && s[m].0 == r[j].0 by {
            if j == 0 {
                assert(s[0].0 == r[0].0);
            } else {
                assert(r[j].0 == r1[j - 1].0);
                let m = choose|m: int| 0 <= m < s1.len() && s1[m].0 == r1[j - 1].0;
                assert(s[m + 1].0 == r[j].0);
            }
        }
    }
}

/// Every entry after an insertion is the new pair or one already present.
pub proof fn lemma_sorted_insert_entries(s: Seq<(Seq<u8>, MemValV)>, k: Seq<u8>, v: MemValV)
    ensures
        forall|j: int|
            0 <= j < sorted_insert(s, k, v).len() ==> (#[trigger] sorted_insert(s, k, v)[j] == (
            k,
            v,
        ) || exists|m: int| 0 <= m < s.len() && s[m] == sorted_insert(s, k, v)[j]),
    decreases s.len(),
{
    if s.len() == 0 {
    } else if lex_lt(k, s[0].0) {
        let r = seq![(k, v)] + s;
        assert forall|j: int| 0 <= j < r.len() && r[j] != (k, v) implies exists|m: int|
            0 <= m < s.len() && s[m] == r[j] by {
            assert(s[j - 1] == r[j]);
        }
    } else if k == s[0].0 {
        let r = seq![(k, v)] + s.skip(1);
        assert forall|j: int| 0 <= j < r.len() && r[j] != (k, v) implies exists|m: int|
            0 <= m < s.len() && s[m] == r[j] by {
            assert(s[j] == r[j]);
        }
    } else {
        lemma_sorted_insert_entries(s.skip(1), k, v);
        let s1 = s.skip(1);
        let r1 = sorted_insert(s1, k, v);
        let r = seq![s[0]] + r1;
        assert forall|j: int| 0 <= j < r.len() && r[j] != (k, v) implies exists|m: int|
            0 <= m < s.len() && s[m] == r[j] by {
            if j == 0 {
                assert(s[0] == r[0]);
            } else {
                assert(r[j] == r1[j - 1]);
                let m = choose|m: int| 0 <= m < s1.len() && s1[m] == r1[j - 1];
                assert(s[m + 1] == r[j]);
            }
        }
    }
}

/// Lookup after insertion: the new key maps to the new entry, others are
/// untouched.
pub proof fn lemma_sorted_insert_lookup(
    s: Seq<(Seq<u8>, MemValV)>,
    k: Seq<u8>,
    v: MemValV,
    x: Seq<u8>,
)
    ensures
        mem_lookup(sorted_insert(s, k, v), x) == if x == k {
            Some(v)
        } else {
            mem_lookup(s, x)
        },
    decreases s.len(),
{
    if s.len() == 0 {
        let r = seq![(k, v)];
        assert(sorted_insert(s, k, v) == r);
        assert(r[0] == (k, v));
        if x != k {
            assert(mem_lookup(r, x) == mem_lookup(r.skip(1), x));
            assert(r.skip(1).len() == 0);
        }
    } else if lex_lt(k, s[0].0) {
        let r = seq![(k, v)] + s;
        assert(sorted_insert(s, k, v) == r);
        assert(r[0] == (k, v));
        assert(r.skip(1) =~= s);
        if x != k {
            assert(mem_lookup(r, x) == mem_lookup(s, x));
        }
    } else if k == s[0].0 {
        let r = seq![(k, v)] + s.skip(1);
        assert(sorted_insert(s, k, v) == r);
        assert(r[0] == (k, v));
        assert(r.skip(1) =~= s.skip(1));
        if x != k {
            assert(mem_lookup(s, x) == mem_lookup(s.skip(1), x));
        }
    } else {
        lemma_sorted_insert_lookup(s.skip(1), k, v, x);
        let r = seq![s[0]] + sorted_insert(s.skip(1), k, v);
        assert(sorted_insert(s, k, v) == r);
        assert(r[0] == s[0]);
        assert(r.skip(1) =~= sorted_insert(s.skip(1), k, v));
        if x == s[0].0 {
            assert(mem_lookup(r, x) == Some(s[0].1));
            assert(mem_lookup(s, x) == Some(s[0].1));
        } else {
            assert(mem_lookup(r, x) == mem_lookup(sorted_insert(s.skip(1), k, v), x));
            assert(mem_lookup(s, x) == mem_lookup(s.skip(1), x));
        }
    }
}

/// A found key is present, and vice versa.
pub proof fn lemma_mem_lookup_has_key(s: Seq<(Seq<u8>, MemValV)>, k: Seq<u8>)
    ensures
        mem_lookup(s, k) is Some <==> mem_has_key(s, k),
    decreases s.len(),
{
    if s.len() > 0 {
        lemma_mem_lookup_has_key(s.skip(1), k);
        if s[0].0 != k {
            if mem_has_key(s, k) {
                let i = choose|i: int| 0 <= i < s.len() && s[i].0 == k;
                assert(s.skip(1)[i - 1].0 == k);
            }
            if mem_has_key(s.skip(1), k) {
                let i = choose|i: int| 0 <= i < s.skip(1).len() && s.skip(1)[i].0 == k;
                assert(s[i + 1].0 == k);
            }
        }
    }
}

/// The in-memory ordered write buffer.
pub struct MemTable {
    pub entries: Vec<(Vec<u8>, MemValue)>,
}

impl View for MemTable {
    type V = Seq<(Seq<u8>, MemValV)>;

    open spec fn view(&self) -> Seq<(Seq<u8>, MemValV)> {
        self.entries@.map_values(|p: (Vec<u8>, MemValue)| (p.0@, p.1@))
    }
}

impl MemTable {
    /// The entries are strictly sorted by key.
    pub open spec fn wf(&self) -> bool {
        mem_sorted(self@)
    }

    /// An empty memtable.
    pub fn new() -> (r: MemTable)
        ensures
            r@ =~= Seq::<(Seq<u8>, MemValV)>::empty(),
            r.wf(),
    {
        MemTable { entries: Vec::new() }
    }

    pub fn len(&self) -> (r: usize)
        ensures
            r == self@.len(),
    {
        self.entries.len()
    }

    pub fn is_empty(&self) -> (r: bool)
        ensures
            r == (self@.len() == 0),
    {
        self.entries.len() == 0
    }

    /// The newest buffered mutation for `k`, if any.
    pub fn get(&self, k: &[u8]) -> (r: Option<&MemValue>)
        ensures
            match r {
                Some(v) => mem_lookup(self@, k@) == Some(v@),
                None => mem_lookup(self@, k@) is None,
            },
    {
        let mut i: usize = 0;
        proof {
            assert(self@.skip(0) =~= self@);
        }
        while i < self.entries.len()
            invariant
                i <= self.entries.len(),
                mem_lookup(self@, k@) == mem_lookup(self@.skip(i as int), k@),
            decreases self.entries.len() - i,
        {
            proof {
                assert(self@.skip(i as int)[0] == self@[i as int]);
                assert(self@.skip(i as int).skip(1) =~= self@.skip(i + 1));
            }
            if bytes_eq(&self.entries[i].0, k) {
                return Some(&self.entries[i].1);
            }
            i = i + 1;
        }
        proof {
            assert(self@.skip(i as int).len() == 0);
        }
        None
    }

    /// Record the newest mutation for a key, replacing any older one.
    pub fn insert(&mut self, k: Vec<u8>, v: MemValue)
        requires
            old(self).wf(),
        ensures
            final(self).wf(),
            final(self)@ == sorted_insert(old(self)@, k@, v@),
    {
        let ghost s = self@;
        let ghost kv = k@;
        let ghost vv = v@;
        let mut pos: usize = 0;
        loop
            invariant_except_break
                self@ == s,
                kv == k@,
                pos <= self.entries.len(),
                forall|j: int| 0 <= j < pos ==> lex_lt(#[trigger] s[j].0, kv),
            ensures
                self@ == s,
                pos <= self.entries.len(),
                forall|j: int| 0 <= j < pos ==> lex_lt(#[trigger] s[j].0, kv),
                pos < self.entries.len() ==> !lex_lt(s[pos as int].0, kv),
            decreases self.entries.len() - pos,
        {
            if pos >= self.entries.len() {
                break;
            }
            let below = bytes_lt(&self.entries[pos].0, k.as_slice());
            proof {
                assert(s[pos as int] == (self.entries@[pos as int].0@,
                    self.entries@[pos as int].1@));
            }
            if !below {
                break;
            }
            pos = pos + 1;
        }
        proof {
            lemma_sorted_insert_at(s, kv, vv, pos as int);
        }
        if pos < self.entries.len() && bytes_eq(&self.entries[pos].0, k.as_slice()) {
            self.entries[pos] = (k, v);
            proof {
                assert(self@ =~= s.take(pos as int) + seq![(kv, vv)] + s.skip(pos as int + 1));
            }
        } else {
            proof {
                if pos < self.entries.len() {
                    assert(s[pos as int].0 != kv);
                }
            }
            self.entries.insert(pos, (k, v));
            proof {
                assert(self@ =~= s.take(pos as int) + seq![(kv, vv)] + s.skip(pos as int));
            }
        }
        proof {
            lemma_sorted_insert_sorted(s, kv, vv);
        }
    }

    /// Drop every entry.
    pub fn clear(&mut self)
        ensures
            final(self)@ =~= Seq::<(Seq<u8>, MemValV)>::empty(),
            final(self).wf(),
    {
        self.entries.clear();
    }
}

} // verus!
