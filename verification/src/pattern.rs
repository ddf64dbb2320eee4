//! Glob-style pattern matching over keys.
//!
//! `*` matches zero or more bytes, including the `/` separator; `?`
//! matches exactly one byte; every other byte stands for itself. There
//! are no character classes and no escapes.

use vstd::prelude::*;

verus! {

/// The `*` wildcard byte.
pub const STAR: u8 = 42;

/// The `?` wildcard byte.
pub const QMARK: u8 = 63;

/// `key` matches `pat`: `*` spans any run of bytes, `?` exactly one.
pub open spec fn spec_matches(key: Seq<u8>, pat: Seq<u8>) -> bool
    decreases pat.len(), key.len(),
{
    if pat.len() == 0 {
        key.len() == 0
    } else if pat[0] == STAR {
        spec_matches(key, pat.skip(1)) || (key.len() > 0 && spec_matches(key.skip(1), pat))
    } else if key.len() == 0 {
        false
    } else if pat[0] == QMARK {
        spec_matches(key.skip(1), pat.skip(1))
    } else {
        pat[0] == key[0] && spec_matches(key.skip(1), pat.skip(1))
    }
}

fn matches_at(key: &[u8], pat: &[u8], ki: usize, pi: usize) -> (r: bool)
    requires
        ki <= key@.len(),
        pi <= pat@.len(),
    ensures
        r == spec_matches(key@.skip(ki as int), pat@.skip(pi as int)),
    decreases pat@.len() - pi, key@.len() - ki,
{
    proof {
        if ki < key@.len() {
            assert(key@.skip(ki as int)[0] == key@[ki as int]);
            assert(key@.skip(ki as int).skip(1) =~= key@.skip(ki + 1));
        }
        if pi < pat@.len() {
            assert(pat@.skip(pi as int)[0] == pat@[pi as int]);
            assert(pat@.skip(pi as int).skip(1) =~= pat@.skip(pi + 1));
        }
    }
    if pi >= pat.len() {
        return ki >= key.len();
    }
    let p = pat[pi];
    if p == STAR {
        if matches_at(key, pat, ki, pi + 1) {
            return true;
        }
        if ki < key.len() && matches_at(key, pat, ki + 1, pi) {
            return true;
        }
        return false;
    }
    if ki >= key.len() {
        return false;
    }
    if p == QMARK {
        return matches_at(key, pat, ki + 1, pi + 1);
    }
    p == key[ki] && matches_at(key, pat, ki + 1, pi + 1)
}

/// Does `key` match the glob `pattern`?
pub fn matches_pattern(key: &[u8], pattern: &[u8]) -> (r: bool)
    ensures
        r == spec_matches(key@, pattern@),
{
    proof {
        assert(key@.skip(0) =~= key@);
        assert(pattern@.skip(0) =~= pattern@);
    }
    matches_at(key, pattern, 0, 0)
}

/// A lone `*` matches every key.
pub proof fn lemma_star_matches_all(key: Seq<u8>)
    ensures
        spec_matches(key, seq![STAR]),
    decreases key.len(),
{
    let pat = seq![STAR];
    assert(pat.len() == 1);
    assert(pat[0] == STAR);
    assert(pat.skip(1) =~= Seq::<u8>::empty());
    if key.len() == 0 {
        assert(spec_matches(key, pat.skip(1)));
    } else {
        lemma_star_matches_all(key.skip(1));
        assert(spec_matches(key.skip(1), pat));
    }
}

/// A pattern that is a literal prefix followed by `*` matches exactly the
/// keys that start with that prefix.
pub proof fn lemma_prefix_star_matches(key: Seq<u8>, prefix: Seq<u8>)
    requires
        forall|i: int| 0 <= i < prefix.len() ==> prefix[i] != STAR && prefix[i] != QMARK,
    ensures
        spec_matches(key, prefix.push(STAR)) <==> prefix.is_prefix_of(key),
    decreases prefix.len(),
{
    let pat = prefix.push(STAR);
    if prefix.len() == 0 {
        assert(pat =~= seq![STAR]);
        lemma_star_matches_all(key);
        assert(prefix.is_prefix_of(key));
    } else {
        assert(pat[0] == prefix[0]);
        assert(pat.skip(1) =~= prefix.skip(1).push(STAR));
        if key.len() == 0 {
            assert(!prefix.is_prefix_of(key));
        } else {
            lemma_prefix_star_matches(key.skip(1), prefix.skip(1));
            if key[0] == prefix[0] && prefix.skip(1).is_prefix_of(key.skip(1)) {
                assert forall|i: int| 0 <= i < prefix.len() implies prefix[i] == key.subrange(
                    0,
                    prefix.len() as int,
                )[i] by {
                    if i > 0 {
                        assert(prefix[i] == prefix.skip(1)[i - 1]);
                        assert(prefix.skip(1)[i - 1] == key.skip(1).subrange(
                            0,
                            prefix.len() - 1,
                        )[i - 1]);
                        assert(key.skip(1)[i - 1] == key[i]);
                    }
                }
                assert(prefix =~= key.subrange(0, prefix.len() as int));
            }
            if prefix.is_prefix_of(key) {
                assert(key[0] == prefix[0]);
                assert(prefix.skip(1) =~= key.skip(1).subrange(0, prefix.len() - 1));
            }
        }
    }
}

} // verus!
