//! Byte-lexicographic order on byte strings, and the prefix relation.
//!
//! The index stores its keys in strictly increasing byte-lexicographic
//! order; the prefix scan of the query engine rests on the fact that the
//! keys sharing a given prefix form one contiguous run of that order.

use vstd::prelude::*;

verus! {

/// Strict byte-lexicographic order: `a` comes before `b`.
pub open spec fn lex_lt(a: Seq<u8>, b: Seq<u8>) -> bool
    decreases a.len(),
{
    if b.len() == 0 {
        false
    } else if a.len() == 0 {
        true
    } else if a[0] < b[0] {
        true
    } else if a[0] > b[0] {
        false
    } else {
        lex_lt(a.drop_first(), b.drop_first())
    }
}

pub open spec fn lex_le(a: Seq<u8>, b: Seq<u8>) -> bool {
    lex_lt(a, b) || a == b
}

/// `p` is a prefix of `k`.
pub open spec fn is_prefix_of(p: Seq<u8>, k: Seq<u8>) -> bool {
    p.len() <= k.len() && k.subrange(0, p.len() as int) == p
}

pub proof fn lemma_lex_lt_irreflexive(a: Seq<u8>)
    ensures
        !lex_lt(a, a),
    decreases a.len(),
{
    if a.len() > 0 {
        lemma_lex_lt_irreflexive(a.drop_first());
    }
}

pub proof fn lemma_lex_trichotomy(a: Seq<u8>, b: Seq<u8>)
    ensures
        lex_lt(a, b) || lex_lt(b, a) || a == b,
    decreases a.len(),
{
    if a.len() > 0 && b.len() > 0 && a[0] == b[0] {
        lemma_lex_trichotomy(a.drop_first(), b.drop_first());
        if a.drop_first() == b.drop_first() {
            assert(a.drop_first() =~= b.drop_first());
            assert(a.drop_first().len() == b.drop_first().len());
            assert(a.len() == b.len());
            assert forall|j: int| 0 <= j < a.len() implies a[j] == b[j] by {
                if j > 0 {
                    assert(a[j] == a.drop_first()[j - 1]);
                    assert(b[j] == b.drop_first()[j - 1]);
                }
            }
            assert(a =~= b);
        }
    }
}

pub proof fn lemma_lex_asymmetric(a: Seq<u8>, b: Seq<u8>)
    requires
        lex_lt(a, b),
    ensures
        !lex_lt(b, a),
    decreases a.len(),
{
    if a.len() > 0 && b.len() > 0 && a[0] == b[0] {
        lemma_lex_asymmetric(a.drop_first(), b.drop_first());
    }
}

pub proof fn lemma_lex_transitive(a: Seq<u8>, b: Seq<u8>, c: Seq<u8>)
    requires
        lex_lt(a, b),
        lex_lt(b, c),
    ensures
        lex_lt(a, c),
    decreases a.len(),
{
    if a.len() > 0 && b.len() > 0 && c.len() > 0 && a[0] == b[0] && b[0] == c[0] {
        lemma_lex_transitive(a.drop_first(), b.drop_first(), c.drop_first());
    }
}

/// A prefix of `k` never comes after `k`.
pub proof fn lemma_prefix_le(p: Seq<u8>, k: Seq<u8>)
    requires
        is_prefix_of(p, k),
    ensures
        lex_le(p, k),
    decreases p.len(),
{
    if p.len() > 0 {
        assert(k.subrange(0, p.len() as int)[0] == k[0]);
        assert(p[0] == k[0]);
        assert(is_prefix_of(p.drop_first(), k.drop_first())) by {
            assert forall|j: int| 0 <= j < p.len() - 1 implies k.drop_first().subrange(
                0,
                p.len() - 1,
            )[j] == p.drop_first()[j] by {
                assert(k.subrange(0, p.len() as int)[j + 1] == k[j + 1]);
            }
            assert(k.drop_first().subrange(0, p.len() - 1) =~= p.drop_first());
        }
        lemma_prefix_le(p.drop_first(), k.drop_first());
        if p.drop_first() == k.drop_first() {
            assert(p.drop_first() =~= k.drop_first());
            assert(p.drop_first().len() == k.drop_first().len());
            assert(p.len() == k.len());
            assert forall|j: int| 0 <= j < p.len() implies p[j] == k[j] by {
                if j > 0 {
                    assert(p[j] == p.drop_first()[j - 1]);
                    assert(k[j] == k.drop_first()[j - 1]);
                }
            }
            assert(p =~= k);
        }
    } else {
        if k.len() == 0 {
            assert(p =~= k);
        }
    }
}

/// The keys that carry the prefix `p` are one contiguous run of the
/// lexicographic order: anything between `p` and a `p`-prefixed key
/// carries the prefix too.
pub proof fn lemma_prefix_interval(p: Seq<u8>, a: Seq<u8>, b: Seq<u8>)
    requires
        lex_le(p, a),
        lex_le(a, b),
        is_prefix_of(p, b),
    ensures
        is_prefix_of(p, a),
    decreases p.len(),
{
    if p.len() == 0 {
        assert(a.subrange(0, 0) =~= p);
    } else {
        assert(b.subrange(0, p.len() as int)[0] == b[0]);
        assert(p[0] == b[0]);
        if a.len() == 0 {
            assert(!lex_lt(p, a));
            assert(p == a);  // contradiction with p.len() > 0
            assert(false);
        }
        if a[0] < p[0] {
            assert(!lex_lt(p, a));
            assert(p != a);
            assert(false);
        }
        if a[0] > b[0] {
            assert(!lex_lt(a, b));
            assert(a != b);
            assert(false);
        }
        assert(a[0] == p[0] && a[0] == b[0]);
        assert(lex_le(p.drop_first(), a.drop_first()));
        if a == b {
            assert(a.drop_first() == b.drop_first());
        }
        assert(lex_le(a.drop_first(), b.drop_first()));
        assert(is_prefix_of(p.drop_first(), b.drop_first())) by {
            assert forall|j: int| 0 <= j < p.len() - 1 implies b.drop_first().subrange(
                0,
                p.len() - 1,
            )[j] == p.drop_first()[j] by {
                assert(b.subrange(0, p.len() as int)[j + 1] == b[j + 1]);
            }
            assert(b.drop_first().subrange(0, p.len() - 1) =~= p.drop_first());
        }
        lemma_prefix_interval(p.drop_first(), a.drop_first(), b.drop_first());
        assert forall|j: int| 0 <= j < p.len() implies a.subrange(0, p.len() as int)[j] == p[j] by {
            if j > 0 {
                assert(a.drop_first().subrange(0, p.len() - 1)[j - 1] == p.drop_first()[j - 1]);
            }
        }
        assert(a.subrange(0, p.len() as int) =~= p);
    }
}

/// If the first `n` bytes agree, the order is decided past them.
pub proof fn lemma_lex_common_prefix(a: Seq<u8>, b: Seq<u8>, n: int)
    requires
        0 <= n <= a.len(),
        n <= b.len(),
        forall|j: int| 0 <= j < n ==> a[j] == b[j],
    ensures
        lex_lt(a, b) == lex_lt(a.skip(n), b.skip(n)),
    decreases n,
{
    if n > 0 {
        assert(a.len() > 0 && b.len() > 0 && a[0] == b[0]);
        assert(a.drop_first().skip(n - 1) =~= a.skip(n));
        assert(b.drop_first().skip(n - 1) =~= b.skip(n));
        assert(forall|j: int| 0 <= j < n - 1 ==> a.drop_first()[j] == b.drop_first()[j]);
        lemma_lex_common_prefix(a.drop_first(), b.drop_first(), n - 1);
    } else {
        assert(a.skip(0) =~= a);
        assert(b.skip(0) =~= b);
    }
}

/// Three-way test: does `a` come strictly before `b`?
pub fn byte_lt(a: &Vec<u8>, b: &Vec<u8>) -> (r: bool)
    ensures
        r == lex_lt(a@, b@),
{
    let mut i: usize = 0;
    while i < a.len() && i < b.len()
        invariant
            0 <= i <= a.len(),
            i <= b.len(),
            forall|j: int| 0 <= j < i ==> a@[j] == b@[j],
        decreases a.len() - i,
    {
        if a[i] < b[i] {
            proof {
                lemma_lex_common_prefix(a@, b@, i as int);
                assert(a@.skip(i as int)[0] == a@[i as int]);
                assert(b@.skip(i as int)[0] == b@[i as int]);
            }
            return true;
        }
        if a[i] > b[i] {
            proof {
                lemma_lex_common_prefix(a@, b@, i as int);
                assert(a@.skip(i as int)[0] == a@[i as int]);
                assert(b@.skip(i as int)[0] == b@[i as int]);
            }
            return false;
        }
        i = i + 1;
    }
    proof {
        lemma_lex_common_prefix(a@, b@, i as int);
        if i == a.len() && i < b.len() {
            assert(a@.skip(i as int).len() == 0);
            assert(b@.skip(i as int).len() > 0);
        }
        if i == b.len() {
            assert(b@.skip(i as int).len() == 0);
        }
    }
    a.len() < b.len()
}

/// Are the two byte strings equal?
pub fn byte_eq(a: &Vec<u8>, b: &Vec<u8>) -> (r: bool)
    ensures
        r == (a@ == b@),
{
    if a.len() != b.len() {
        return false;
    }
    let mut i: usize = 0;
    while i < a.len()
        invariant
            0 <= i <= a.len(),
            a.len() == b.len(),
            forall|j: int| 0 <= j < i ==> a@[j] == b@[j],
        decreases a.len() - i,
    {
        if a[i] != b[i] {
            return false;
        }
        i = i + 1;
    }
    proof {
        assert(a@ =~= b@);
    }
    true
}

/// Does `k` start with `p`?
pub fn has_prefix(k: &Vec<u8>, p: &Vec<u8>) -> (r: bool)
    ensures
        r == is_prefix_of(p@, k@),
{
    if p.len() > k.len() {
        return false;
    }
    let mut i: usize = 0;
    while i < p.len()
        invariant
            0 <= i <= p.len(),
            p.len() <= k.len(),
            forall|j: int| 0 <= j < i ==> k@[j] == p@[j],
        decreases p.len() - i,
    {
        if k[i] != p[i] {
            proof {
                assert(k@.subrange(0, p@.len() as int)[i as int] == k@[i as int]);
            }
            return false;
        }
        i = i + 1;
    }
    proof {
        assert(k@.subrange(0, p@.len() as int) =~= p@);
    }
    true
}

} // verus!

