//! The sorted name table: an association list from byte-string key to
//! record identifier, kept in strictly increasing byte-lexicographic key
//! order. It collects every (name key, identifier) pair of the record set
//! before the automaton is compiled; a later insertion under an existing
//! key overwrites the earlier one, so the last writer wins.

use vstd::prelude::*;

use crate::order::lex_lt;
use crate::order::lemma_lex_lt_irreflexive;
use crate::order::lemma_lex_transitive;
use crate::order::lemma_lex_trichotomy;
use crate::order::byte_lt;
use crate::order::byte_eq;

verus! {

/// The keys are strictly increasing, hence also pairwise distinct.
pub open spec fn entries_sorted(es: Seq<(Seq<u8>, u64)>) -> bool {
    forall|i: int, j: int| 0 <= i < j < es.len() ==> lex_lt(es[i].0, es[j].0)
}

/// Insertion into a key-sorted association list: replaces the value under
/// an existing key, otherwise places the new pair at its ordered position.
pub open spec fn insert_entry(es: Seq<(Seq<u8>, u64)>, k: Seq<u8>, v: u64) -> Seq<(Seq<u8>, u64)>
    decreases es.len(),
{
    if es.len() == 0 {
        seq![(k, v)]
    } else if lex_lt(es[0].0, k) {
        seq![es[0]] + insert_entry(es.drop_first(), k, v)
    } else if es[0].0 == k {
        es.update(0, (k, v))
    } else {
        seq![(k, v)] + es
    }
}

/// The value associated with `k`, if any.
pub open spec fn tbl_lookup(es: Seq<(Seq<u8>, u64)>, k: Seq<u8>) -> Option<u64>
    decreases es.len(),
{
    if es.len() == 0 {
        None
    } else if es[0].0 == k {
        Some(es[0].1)
    } else {
        tbl_lookup(es.drop_first(), k)
    }
}

/// Every entry of the result is the new pair or one of the old entries.
pub proof fn lemma_insert_entry_elems(es: Seq<(Seq<u8>, u64)>, k: Seq<u8>, v: u64)
    ensures
        forall|j: int|
            0 <= j < insert_entry(es, k, v).len() ==> (#[trigger] insert_entry(es, k, v)[j] == (
            k,
            v,
            ) || es.contains(insert_entry(es, k, v)[j])),
    decreases es.len(),
{
    let r = insert_entry(es, k, v);
    if es.len() == 0 {
    } else if lex_lt(es[0].0, k) {
        lemma_insert_entry_elems(es.drop_first(), k, v);
        let rec = insert_entry(es.drop_first(), k, v);
        assert forall|j: int| 0 <= j < r.len() implies (r[j] == (k, v) || es.contains(r[j])) by {
            if j == 0 {
                assert(r[0] == es[0]);
                assert(es.contains(es[0]));
            } else {
                assert(r[j] == rec[j - 1]);
                if rec[j - 1] == (k, v) {
                } else {
                    let m = choose|m: int| 0 <= m < es.drop_first().len() && es.drop_first()[m] == rec[j - 1];
                    assert(es[m + 1] == rec[j - 1]);
                    assert(es.contains(r[j]));
                }
            }
        }
    } else if es[0].0 == k {
        assert forall|j: int| 0 <= j < r.len() implies (r[j] == (k, v) || es.contains(r[j])) by {
            if j != 0 {
                assert(r[j] == es[j]);
                assert(es.contains(es[j]));
            }
        }
    } else {
        assert forall|j: int| 0 <= j < r.len() implies (r[j] == (k, v) || es.contains(r[j])) by {
            if j != 0 {
                assert(r[j] == es[j - 1]);
                assert(es.contains(es[j - 1]));
            }
        }
    }
}

/// Insertion keeps the list sorted.
pub proof fn lemma_insert_entry_sorted(es: Seq<(Seq<u8>, u64)>, k: Seq<u8>, v: u64)
    requires
        entries_sorted(es),
    ensures
        entries_sorted(insert_entry(es, k, v)),
    decreases es.len(),
{
    let r = insert_entry(es, k, v);
    if es.len() == 0 {
    } else if lex_lt(es[0].0, k) {
        let tail = es.drop_first();
        assert(entries_sorted(tail)) by {
            assert forall|i: int, j: int| 0 <= i < j < tail.len() implies lex_lt(
                tail[i].0,
                tail[j].0,
            ) by {
                assert(tail[i] == es[i + 1]);
                assert(tail[j] == es[j + 1]);
            }
        }
        lemma_insert_entry_sorted(tail, k, v);
        lemma_insert_entry_elems(tail, k, v);
        let rec = insert_entry(tail, k, v);
        assert forall|i: int, j: int| 0 <= i < j < r.len() implies lex_lt(r[i].0, r[j].0) by {
            if i == 0 {
                assert(r[0] == es[0]);
                assert(r[j] == rec[j - 1]);
                if rec[j - 1] == (k, v) {
                    assert(lex_lt(es[0].0, k));
                } else {
                    let m = choose|m: int| 0 <= m < tail.len() && tail[m] == rec[j - 1];
                    assert(tail[m] == es[m + 1]);
                    assert(lex_lt(es[0].0, es[m + 1].0));
                }
            } else {
                assert(r[i] == rec[i - 1]);
                assert(r[j] == rec[j - 1]);
            }
        }
    } else if es[0].0 == k {
        assert forall|i: int, j: int| 0 <= i < j < r.len() implies lex_lt(r[i].0, r[j].0) by {
            assert(r[i].0 == es[i].0);
            assert(r[j].0 == es[j].0);
        }
    } else {
        lemma_lex_trichotomy(k, es[0].0);
        assert(lex_lt(k, es[0].0));
        assert forall|i: int, j: int| 0 <= i < j < r.len() implies lex_lt(r[i].0, r[j].0) by {
            if i == 0 {
                assert(r[j] == es[j - 1]);
                if j - 1 == 0 {
                } else {
                    assert(lex_lt(es[0].0, es[j - 1].0));
                    lemma_lex_transitive(k, es[0].0, es[j - 1].0);
                }
            } else {
                assert(r[i] == es[i - 1]);
                assert(r[j] == es[j - 1]);
            }
        }
    }
}

/// What insertion does to every lookup: the new key now maps to the new
/// value, every other key is untouched.
pub proof fn lemma_insert_entry_lookup(es: Seq<(Seq<u8>, u64)>, k: Seq<u8>, v: u64, q: Seq<u8>)
    ensures
        tbl_lookup(insert_entry(es, k, v), q) == if q == k {
            Some(v)
        } else {
            tbl_lookup(es, q)
        },
    decreases es.len(),
{
    let r = insert_entry(es, k, v);
    if es.len() == 0 {
        if q == k {
        } else {
            assert(r.drop_first() =~= Seq::<(Seq<u8>, u64)>::empty());
        }
    } else if lex_lt(es[0].0, k) {
        lemma_insert_entry_lookup(es.drop_first(), k, v, q);
        assert(r[0] == es[0]);
        assert(r.drop_first() =~= insert_entry(es.drop_first(), k, v));
        if es[0].0 == q {
            lemma_lex_lt_irreflexive(k);
            assert(q != k);
        }
    } else if es[0].0 == k {
        assert(r[0] == (k, v));
        assert(r.drop_first() =~= es.drop_first());
        if q != k {
            assert(tbl_lookup(r, q) == tbl_lookup(r.drop_first(), q));
        }
    } else {
        assert(r[0] == (k, v));
        assert(r.drop_first() =~= es);
    }
}

/// A successful lookup names an entry of the list.
pub proof fn lemma_lookup_contains(es: Seq<(Seq<u8>, u64)>, k: Seq<u8>, v: u64)
    requires
        tbl_lookup(es, k) == Some(v),
    ensures
        es.contains((k, v)),
    decreases es.len(),
{
    if es.len() > 0 {
        if es[0].0 == k {
            assert(es[0] == (k, v));
        } else {
            lemma_lookup_contains(es.drop_first(), k, v);
            let m = choose|m: int| 0 <= m < es.drop_first().len() && es.drop_first()[m] == (k, v);
            assert(es[m + 1] == (k, v));
        }
    }
}

/// In a sorted list the entry at any index is what lookup finds.
pub proof fn lemma_sorted_index_lookup(es: Seq<(Seq<u8>, u64)>, i: int)
    requires
        entries_sorted(es),
        0 <= i < es.len(),
    ensures
        tbl_lookup(es, es[i].0) == Some(es[i].1),
    decreases es.len(),
{
    if i == 0 {
    } else {
        assert(lex_lt(es[0].0, es[i].0));
        lemma_lex_lt_irreflexive(es[0].0);
        assert(es[0].0 != es[i].0);
        let tail = es.drop_first();
        assert(entries_sorted(tail)) by {
            assert forall|a: int, b: int| 0 <= a < b < tail.len() implies lex_lt(
                tail[a].0,
                tail[b].0,
            ) by {
                assert(tail[a] == es[a + 1]);
                assert(tail[b] == es[b + 1]);
            }
        }
        assert(tail[i - 1] == es[i]);
        lemma_sorted_index_lookup(tail, i - 1);
    }
}

/// The sorted name table.
pub struct NameTable {
    entries: Vec<(Vec<u8>, u64)>,
}

impl NameTable {
    /// The table as a sequence of (key, identifier) pairs in key order.
    pub closed spec fn model(self) -> Seq<(Seq<u8>, u64)> {
        self.entries@.map_values(|e: (Vec<u8>, u64)| (e.0@, e.1))
    }

    pub fn new() -> (r: NameTable)
        ensures
            r.model() == Seq::<(Seq<u8>, u64)>::empty(),
    {
        let t = NameTable { entries: Vec::new() };
        proof {
            assert(t.model() =~= Seq::<(Seq<u8>, u64)>::empty());
        }
        t
    }

    pub fn len(&self) -> (n: usize)
        ensures
            n == self.model().len(),
    {
        self.entries.len()
    }

    pub fn entry_at(&self, i: usize) -> (r: &(Vec<u8>, u64))
        requires
            i < self.model().len(),
        ensures
            r.0@ == self.model()[i as int].0,
            r.1 == self.model()[i as int].1,
    {
        &self.entries[i]
    }

    /// Put `id` under `key`, overwriting what an earlier insertion left there.
    pub fn insert(&mut self, key: Vec<u8>, id: u64)
        ensures
            final(self).model() == insert_entry(old(self).model(), key@, id),
    {
        let ghost es = self.model();
        let ghost kk = key@;
        proof {
            assert(self.entries@.len() == es.len());
            assert(es.take(0) =~= Seq::<(Seq<u8>, u64)>::empty());
            assert(es.skip(0) =~= es);
            assert(es.take(0) + insert_entry(es.skip(0), kk, id) =~= insert_entry(es, kk, id));
        }
        let mut i: usize = 0;
        loop
            invariant
                0 <= i <= self.entries.len(),
                *self == *old(self),
                self.model() == es,
                kk == key@,
                self.entries@.len() == es.len(),
                insert_entry(es, kk, id) == es.take(i as int) + insert_entry(
                    es.skip(i as int),
                    kk,
                    id,
                ),
            ensures
                0 <= i <= self.entries.len(),
                *self == *old(self),
                self.model() == es,
                self.entries@.len() == es.len(),
                insert_entry(es, kk, id) == es.take(i as int) + insert_entry(
                    es.skip(i as int),
                    kk,
                    id,
                ),
                i < self.entries.len() ==> !lex_lt(es[i as int].0, kk),
            decreases self.entries.len() - i,
        {
            if i >= self.entries.len() {
                break ;
            }
            if !byte_lt(&self.entries[i].0, &key) {
                proof {
                    assert(self.entries@[i as int].0@ == es[i as int].0);
                }
                break ;
            }
            proof {
                assert(self.entries@[i as int].0@ == es[i as int].0);
                assert(lex_lt(es[i as int].0, kk));
                let rest = es.skip(i as int);
                assert(rest[0] == es[i as int]);
                assert(lex_lt(rest[0].0, kk));
                assert(rest.drop_first() =~= es.skip(i as int + 1));
                assert(insert_entry(rest, kk, id) == seq![rest[0]] + insert_entry(
                    es.skip(i as int + 1),
                    kk,
                    id,
                ));
                assert(es.take(i as int) + insert_entry(rest, kk, id) =~= es.take(i as int + 1)
                    + insert_entry(es.skip(i as int + 1), kk, id));
            }
            i = i + 1;
        }
        let ghost rest = es.skip(i as int);
        if i < self.entries.len() {
            if byte_eq(&self.entries[i].0, &key) {
                proof {
                    assert(self.entries@[i as int].0@ == es[i as int].0);
                    assert(rest[0] == es[i as int]);
                    assert(rest[0].0 == kk);
                    lemma_lex_lt_irreflexive(kk);
                    assert(insert_entry(rest, kk, id) == rest.update(0, (kk, id)));
                }
                self.entries.remove(i);
                self.entries.insert(i, (key, id));
                proof {
                    assert(self.model() =~= es.take(i as int) + rest.update(0, (kk, id)));
                }
                return ;
            }
        }
        proof {
            if i < self.entries.len() {
                assert(self.entries@[i as int].0@ == es[i as int].0);
                assert(rest[0] == es[i as int]);
                assert(!lex_lt(rest[0].0, kk) && rest[0].0 != kk);
                assert(insert_entry(rest, kk, id) =~= seq![(kk, id)] + rest);
            } else {
                assert(rest.len() == 0);
                assert(insert_entry(rest, kk, id) =~= seq![(kk, id)]);
            }
        }
        self.entries.insert(i, (key, id));
        proof {
            assert(self.model() =~= es.take(i as int) + (seq![(kk, id)] + rest));
        }
    }
}

} // verus!

