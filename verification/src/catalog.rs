//! The catalog: the in-memory record store and the compiled name index,
//! built once from a record sequence and immutable afterwards, answering
//! prefix searches and identifier lookups.
//!
//! Every record contributes its lowercased primary name, its lowercased
//! ASCII name when that differs from the primary name, and every trimmed,
//! non-empty, non-duplicate alias from its comma-separated alternate-names
//! field. Keys are collected in a sorted table — a later record's entry
//! overwrites an earlier record's entry under the same key — and the table
//! is compiled into the transducer that `search` walks.

use vstd::prelude::*;
use vstd::utf8::encode_utf8;

use crate::automaton::builder_entries;
use crate::automaton::builder_insert;
use crate::automaton::builder_into_map;
use crate::automaton::builder_new;
use crate::automaton::first_entry_ge;
use crate::automaton::first_entry_gt;
use crate::automaton::fst_entries;
use crate::order::is_prefix_of;
use crate::order::has_prefix;
use crate::order::lex_le;
use crate::order::lex_lt;
use crate::order::lemma_lex_asymmetric;
use crate::order::lemma_lex_lt_irreflexive;
use crate::order::lemma_lex_transitive;
use crate::order::lemma_lex_trichotomy;
use crate::order::lemma_prefix_le;
use crate::table::NameTable;
use crate::table::entries_sorted;
use crate::table::insert_entry;
use crate::table::lemma_insert_entry_lookup;
use crate::table::lemma_insert_entry_sorted;
use crate::table::lemma_lookup_contains;
use crate::table::tbl_lookup;
use crate::text::lower_of;
use crate::text::lowercase;
use crate::text::split_on;
use crate::text::split_char;
use crate::text::trim_of;
use crate::text::trimmed;
use crate::text::utf8_bytes;

verus! {

/// A search never returns more records than this.
pub const RESULT_CAP: usize = 100;

/// One place record, as the store holds it and as callers receive it.
pub struct City {
    pub geonameid: u64,
    pub name: String,
    pub asciiname: String,
    pub alternatenames: String,
    pub country_code: String,
    pub timezone: String,
}

impl Clone for City {
    fn clone(&self) -> (r: City)
        ensures
            r == *self,
    {
        City {
            geonameid: self.geonameid,
            name: self.name.clone(),
            asciiname: self.asciiname.clone(),
            alternatenames: self.alternatenames.clone(),
            country_code: self.country_code.clone(),
            timezone: self.timezone.clone(),
        }
    }
}

/// What a catalog operation can fail with.
#[derive(Debug, PartialEq, Eq, Structural)]
pub enum CatalogError {
    /// No record bears the requested identifier.
    NotFound,
    /// The automaton builder refused a key; unreachable when the keys come
    /// from the sorted table.
    IndexBuild,
}

/// The index key derived from a name: the UTF-8 bytes of its lowercase
/// form.
pub open spec fn key_of(s: Seq<char>) -> Seq<u8> {
    encode_utf8(lower_of(s))
}

/// Whether a trimmed alias is kept: non-empty and not identical to the
/// primary or the ASCII name.
pub open spec fn alias_kept(t: Seq<char>, name: Seq<char>, ascii: Seq<char>) -> bool {
    t.len() > 0 && t != name && t != ascii
}

/// The keys contributed by the alias pieces, in order.
pub open spec fn alias_keys(pieces: Seq<Seq<char>>, name: Seq<char>, ascii: Seq<char>) -> Seq<
    Seq<u8>,
>
    decreases pieces.len(),
{
    if pieces.len() == 0 {
        Seq::empty()
    } else {
        (if alias_kept(trim_of(pieces[0]), name, ascii) {
            seq![key_of(trim_of(pieces[0]))]
        } else {
            Seq::empty()
        }) + alias_keys(pieces.drop_first(), name, ascii)
    }
}

/// Every name key of one record, in insertion order: primary name, ASCII
/// name when it differs, then the kept aliases.
pub open spec fn city_keys(c: City) -> Seq<Seq<u8>> {
    seq![key_of(c.name@)] + (if c.asciiname@ != c.name@ {
        seq![key_of(c.asciiname@)]
    } else {
        Seq::empty()
    }) + (if c.alternatenames@.len() > 0 {
        alias_keys(split_on(c.alternatenames@, ','), c.name@, c.asciiname@)
    } else {
        Seq::empty()
    })
}

/// All keys of one record put into the table, first to last.
pub open spec fn insert_keys(es: Seq<(Seq<u8>, u64)>, ks: Seq<Seq<u8>>, id: u64) -> Seq<
    (Seq<u8>, u64),
>
    decreases ks.len(),
{
    if ks.len() == 0 {
        es
    } else {
        insert_keys(insert_entry(es, ks[0], id), ks.drop_first(), id)
    }
}

/// The sorted name table of a record sequence: each record's keys in
/// order, record after record, so a later record wins a shared key.
pub open spec fn table_for(cities: Seq<City>) -> Seq<(Seq<u8>, u64)>
    decreases cities.len(),
{
    if cities.len() == 0 {
        Seq::empty()
    } else {
        insert_keys(
            table_for(cities.drop_last()),
            city_keys(cities.last()),
            cities.last().geonameid,
        )
    }
}

/// The identifier the table maps `q` to: that of the last record among
/// whose keys `q` appears.
pub open spec fn latest_id_for(cities: Seq<City>, q: Seq<u8>) -> Option<u64>
    decreases cities.len(),
{
    if cities.len() == 0 {
        None
    } else if city_keys(cities.last()).contains(q) {
        Some(cities.last().geonameid)
    } else {
        latest_id_for(cities.drop_last(), q)
    }
}

pub proof fn lemma_insert_keys_push(es: Seq<(Seq<u8>, u64)>, ks: Seq<Seq<u8>>, k: Seq<u8>, id: u64)
    ensures
        insert_keys(es, ks.push(k), id) == insert_entry(insert_keys(es, ks, id), k, id),
    decreases ks.len(),
{
    if ks.len() == 0 {
        assert(ks.push(k)[0] == k);
        assert(ks.push(k).drop_first() =~= Seq::<Seq<u8>>::empty());
        assert(insert_keys(es, ks.push(k), id) == insert_keys(
            insert_entry(es, k, id),
            Seq::<Seq<u8>>::empty(),
            id,
        ));
        assert(insert_keys(insert_entry(es, k, id), Seq::<Seq<u8>>::empty(), id)
            == insert_entry(es, k, id));
        assert(insert_keys(es, ks, id) == es);
    } else {
        assert(ks.push(k)[0] == ks[0]);
        assert(ks.push(k).drop_first() =~= ks.drop_first().push(k));
        lemma_insert_keys_push(insert_entry(es, ks[0], id), ks.drop_first(), k, id);
        assert(insert_keys(es, ks.push(k), id) == insert_keys(
            insert_entry(es, ks[0], id),
            ks.drop_first().push(k),
            id,
        ));
        assert(insert_keys(es, ks, id) == insert_keys(
            insert_entry(es, ks[0], id),
            ks.drop_first(),
            id,
        ));
    }
}

pub proof fn lemma_insert_keys_sorted(es: Seq<(Seq<u8>, u64)>, ks: Seq<Seq<u8>>, id: u64)
    requires
        entries_sorted(es),
    ensures
        entries_sorted(insert_keys(es, ks, id)),
    decreases ks.len(),
{
    if ks.len() > 0 {
        lemma_insert_entry_sorted(es, ks[0], id);
        lemma_insert_keys_sorted(insert_entry(es, ks[0], id), ks.drop_first(), id);
    }
}

pub proof fn lemma_insert_keys_lookup(
    es: Seq<(Seq<u8>, u64)>,
    ks: Seq<Seq<u8>>,
    id: u64,
    q: Seq<u8>,
)
    ensures
        tbl_lookup(insert_keys(es, ks, id), q) == if ks.contains(q) {
            Some(id)
        } else {
            tbl_lookup(es, q)
        },
    decreases ks.len(),
{
    if ks.len() > 0 {
        lemma_insert_entry_lookup(es, ks[0], id, q);
        lemma_insert_keys_lookup(insert_entry(es, ks[0], id), ks.drop_first(), id, q);
        if ks.contains(q) {
            let m = choose|m: int| 0 <= m < ks.len() && ks[m] == q;
            if m > 0 {
                assert(ks.drop_first()[m - 1] == q);
                assert(ks.drop_first().contains(q));
            }
        } else {
            assert(ks[0] != q);
            if ks.drop_first().contains(q) {
                let m = choose|m: int| 0 <= m < ks.drop_first().len() && ks.drop_first()[m] == q;
                assert(ks[m + 1] == q);
                assert(ks.contains(q));
            }
        }
    }
}

pub proof fn lemma_table_sorted(cities: Seq<City>)
    ensures
        entries_sorted(table_for(cities)),
    decreases cities.len(),
{
    if cities.len() > 0 {
        lemma_table_sorted(cities.drop_last());
        lemma_insert_keys_sorted(
            table_for(cities.drop_last()),
            city_keys(cities.last()),
            cities.last().geonameid,
        );
    }
}

/// The table's lookup is the last-writer rule over the record sequence.
pub proof fn lemma_table_lookup(cities: Seq<City>, q: Seq<u8>)
    ensures
        tbl_lookup(table_for(cities), q) == latest_id_for(cities, q),
    decreases cities.len(),
{
    if cities.len() > 0 {
        lemma_table_lookup(cities.drop_last(), q);
        lemma_insert_keys_lookup(
            table_for(cities.drop_last()),
            city_keys(cities.last()),
            cities.last().geonameid,
            q,
        );
    }
}

/// A key the table maps somewhere belongs to a record bearing the mapped
/// identifier.
pub proof fn lemma_latest_id_source(cities: Seq<City>, q: Seq<u8>, id: u64)
    requires
        latest_id_for(cities, q) == Some(id),
    ensures
        exists|c: City|
            #![trigger city_keys(c)]
            cities.contains(c) && city_keys(c).contains(q) && c.geonameid == id,
    decreases cities.len(),
{
    if cities.len() > 0 {
        if city_keys(cities.last()).contains(q) {
            assert(cities.contains(cities.last()));
        } else {
            lemma_latest_id_source(cities.drop_last(), q, id);
            let c = choose|c: City|
                #![trigger city_keys(c)]
                cities.drop_last().contains(c) && city_keys(c).contains(q) && c.geonameid == id;
            let m = choose|m: int|
                0 <= m < cities.drop_last().len() && cities.drop_last()[m] == c;
            assert(cities[m] == c);
            assert(cities.contains(c));
        }
    }
}

/// The catalog: all records in load order, and the compiled name index.
pub struct Catalog {
    cities: Vec<City>,
    index: fst::Map<Vec<u8>>,
}

impl Catalog {
    /// The records, in the order they were loaded.
    pub closed spec fn records(self) -> Seq<City> {
        self.cities@
    }

    /// The (key, identifier) entries of the compiled index, in key order.
    pub closed spec fn index_entries(self) -> Seq<(Seq<u8>, u64)> {
        fst_entries(self.index)
    }

    /// Well-formed: the index holds exactly the sorted name table of the
    /// records.
    pub open spec fn wf(self) -> bool {
        &&& entries_sorted(self.index_entries())
        &&& self.index_entries() == table_for(self.records())
    }

    /// Build the catalog from the loaded records: derive each record's
    /// name keys, collect them in the sorted table, compile the table into
    /// the index. The table is sorted, so the compilation cannot fail.
    #[verifier::loop_isolation(false)]
    pub fn build(cities: Vec<City>) -> (r: Result<Catalog, CatalogError>)
        ensures
            r is Ok,
            r matches Ok(c) ==> c.wf() && c.records() == cities@,
    {
        let mut table = NameTable::new();
        let mut ci: usize = 0;
        proof {
            assert(cities@.take(0) =~= Seq::<City>::empty());
        }
        while ci < cities.len()
            invariant
                0 <= ci <= cities.len(),
                table.model() == table_for(cities@.take(ci as int)),
            decreases cities.len() - ci,
        {
            let c = &cities[ci];
            let id = c.geonameid;
            let ghost es0 = table.model();
            let ghost cc = cities@[ci as int];

            // primary name
            let low = lowercase(c.name.as_str());
            let kb = utf8_bytes(low.as_str());
            proof {
                assert(kb@ == key_of(cc.name@));
            }
            table.insert(kb, id);
            let ghost head = seq![key_of(cc.name@)];
            proof {
                assert(head =~= Seq::<Seq<u8>>::empty().push(key_of(cc.name@)));
                lemma_insert_keys_push(es0, Seq::<Seq<u8>>::empty(), key_of(cc.name@), id);
                assert(table.model() == insert_keys(es0, head, id));
            }

            // ascii name, when it differs
            if c.asciiname != c.name {
                let low2 = lowercase(c.asciiname.as_str());
                let kb2 = utf8_bytes(low2.as_str());
                table.insert(kb2, id);
                proof {
                    lemma_insert_keys_push(es0, head, key_of(cc.asciiname@), id);
                    head = head.push(key_of(cc.asciiname@));
                    assert(table.model() == insert_keys(es0, head, id));
                }
            }
            proof {
                assert(head =~= seq![key_of(cc.name@)] + (if cc.asciiname@ != cc.name@ {
                    seq![key_of(cc.asciiname@)]
                } else {
                    Seq::<Seq<u8>>::empty()
                }));
            }

            // aliases
            if !c.alternatenames.as_str().is_empty() {
                let pieces = split_char(c.alternatenames.as_str(), ',');
                let ghost ps = split_on(cc.alternatenames@, ',');
                let mut pi: usize = 0;
                proof {
                    assert(ps.take(0) =~= Seq::<Seq<char>>::empty());
                    assert(head + alias_keys(ps.take(0), cc.name@, cc.asciiname@) =~= head);
                }
                while pi < pieces.len()
                    invariant
                        0 <= pi <= pieces.len(),
                        table.model() == insert_keys(
                            es0,
                            head + alias_keys(ps.take(pi as int), cc.name@, cc.asciiname@),
                            id,
                        ),
                    decreases pieces.len() - pi,
                {
                    let piece = &pieces[pi];
                    proof {
                        assert(pieces@.map_values(|p: String| p@)[pi as int] == ps[pi as int]);
                        assert(piece@ == ps[pi as int]);
                    }
                    let t = trimmed(piece.as_str());
                    let ghost tv = trim_of(ps[pi as int]);
                    let ghost ks_now = head + alias_keys(ps.take(pi as int), cc.name@, cc.asciiname@);
                    if !t.is_empty() && t.to_owned() != c.name && t.to_owned() != c.asciiname {
                        let low3 = lowercase(t);
                        let kb3 = utf8_bytes(low3.as_str());
                        table.insert(kb3, id);
                        proof {
                            assert(alias_kept(tv, cc.name@, cc.asciiname@));
                            lemma_insert_keys_push(es0, ks_now, key_of(tv), id);
                            lemma_alias_keys_take_step(ps, cc.name@, cc.asciiname@, pi as int);
                            assert(head + alias_keys(
                                ps.take(pi as int + 1),
                                cc.name@,
                                cc.asciiname@,
                            ) =~= ks_now.push(key_of(tv)));
                        }
                    } else {
                        proof {
                            assert(!alias_kept(tv, cc.name@, cc.asciiname@));
                            lemma_alias_keys_take_step(ps, cc.name@, cc.asciiname@, pi as int);
                            assert(head + alias_keys(
                                ps.take(pi as int + 1),
                                cc.name@,
                                cc.asciiname@,
                            ) =~= ks_now);
                        }
                    }
                    pi = pi + 1;
                }
                proof {
                    assert(ps.take(pieces@.len() as int) =~= ps);
                    assert(head + alias_keys(ps, cc.name@, cc.asciiname@) =~= city_keys(cc));
                    assert(table.model() == insert_keys(es0, city_keys(cc), id));
                }
            } else {
                proof {
                    assert(cc.alternatenames@.len() == 0);
                    assert(head + Seq::<Seq<u8>>::empty() =~= head);
                    assert(head =~= city_keys(cc));
                    assert(table.model() == insert_keys(es0, city_keys(cc), id));
                }
            }
            proof {
                assert(cities@.take(ci as int + 1).drop_last() =~= cities@.take(ci as int));
                assert(cities@.take(ci as int + 1).last() == cc);
            }
            ci = ci + 1;
        }
        proof {
            assert(cities@.take(cities@.len() as int) =~= cities@);
            lemma_table_sorted(cities@);
        }

        // compile the sorted table into the transducer
        let ghost tm = table.model();
        let mut b = builder_new();
        let n = table.len();
        let mut i: usize = 0;
        proof {
            assert(tm.take(0) =~= Seq::<(Seq<u8>, u64)>::empty());
        }
        while i < n
            invariant
                0 <= i <= n == tm.len(),
                builder_entries(b) == tm.take(i as int),
            decreases n - i,
        {
            let e = table.entry_at(i);
            proof {
                if i > 0 {
                    assert(tm.take(i as int).last() == tm[i as int - 1]);
                    assert(lex_lt(tm[i as int - 1].0, tm[i as int].0));
                }
            }
            match builder_insert(&mut b, &e.0, e.1) {
                Ok(u) => {
                    proof {
                        assert(tm.take(i as int).push((e.0@, e.1)) =~= tm.take(i as int + 1));
                    }
                },
                Err(_) => {
                    return Err(CatalogError::IndexBuild);
                },
            }
            i = i + 1;
        }
        proof {
            assert(tm.take(tm.len() as int) =~= tm);
        }
        let index = builder_into_map(b);
        Ok(Catalog { cities, index })
    }
}

/// One alias piece extends the alias key list by its key or by nothing.
pub proof fn lemma_alias_keys_take_step(ps: Seq<Seq<char>>, name: Seq<char>, ascii: Seq<char>, i: int)
    requires
        0 <= i < ps.len(),
    ensures
        alias_keys(ps.take(i + 1), name, ascii) == alias_keys(ps.take(i), name, ascii) + (
        if alias_kept(trim_of(ps[i]), name, ascii) {
            seq![key_of(trim_of(ps[i]))]
        } else {
            Seq::<Seq<u8>>::empty()
        }),
    decreases i,
{
    if i == 0 {
        assert(ps.take(1)[0] == ps[0]);
        assert(ps.take(1).drop_first() =~= Seq::<Seq<char>>::empty());
        assert(ps.take(0) =~= Seq::<Seq<char>>::empty());
        assert(alias_keys(ps.take(1), name, ascii) =~= alias_keys(ps.take(0), name, ascii) + (
        if alias_kept(trim_of(ps[0]), name, ascii) {
            seq![key_of(trim_of(ps[0]))]
        } else {
            Seq::<Seq<u8>>::empty()
        }));
    } else {
        lemma_alias_keys_take_step(ps.drop_first(), name, ascii, i - 1);
        assert(ps.take(i + 1)[0] == ps[0]);
        assert(ps.take(i + 1).drop_first() =~= ps.drop_first().take(i));
        assert(ps.take(i)[0] == ps[0]);
        assert(ps.take(i).drop_first() =~= ps.drop_first().take(i - 1));
        assert(ps.drop_first()[i - 1] == ps[i]);
        let h = if alias_kept(trim_of(ps[0]), name, ascii) {
            seq![key_of(trim_of(ps[0]))]
        } else {
            Seq::<Seq<u8>>::empty()
        };
        let t = if alias_kept(trim_of(ps[i]), name, ascii) {
            seq![key_of(trim_of(ps[i]))]
        } else {
            Seq::<Seq<u8>>::empty()
        };
        assert(alias_keys(ps.take(i + 1), name, ascii) == h + alias_keys(
            ps.drop_first().take(i),
            name,
            ascii,
        ));
        assert(alias_keys(ps.take(i), name, ascii) == h + alias_keys(
            ps.drop_first().take(i - 1),
            name,
            ascii,
        ));
        assert(h + (alias_keys(ps.drop_first().take(i - 1), name, ascii) + t) =~= (h + alias_keys(
            ps.drop_first().take(i - 1),
            name,
            ascii,
        )) + t);
    }
}

/// No identifier occurs twice.
pub open spec fn distinct_ids(ids: Seq<u64>) -> bool {
    forall|i: int, j: int| 0 <= i < j < ids.len() ==> ids[i] != ids[j]
}

/// The prefix scan from entry `i` on, with `acc` already collected:
/// entries below the prefix are passed over, the first key past the
/// prefix ends the scan — sortedness makes that sound — and so does
/// reaching the cap of distinct identifiers.
pub open spec fn collect_ids(es: Seq<(Seq<u8>, u64)>, p: Seq<u8>, i: int, acc: Seq<u64>) -> Seq<
    u64,
>
    decreases es.len() - i,
{
    if i < 0 || i >= es.len() {
        acc
    } else if lex_lt(es[i].0, p) {
        collect_ids(es, p, i + 1, acc)
    } else if !is_prefix_of(p, es[i].0) {
        acc
    } else if acc.contains(es[i].1) {
        collect_ids(es, p, i + 1, acc)
    } else if acc.len() + 1 >= RESULT_CAP {
        acc.push(es[i].1)
    } else {
        collect_ids(es, p, i + 1, acc.push(es[i].1))
    }
}

/// The identifiers a search with key `p` collects, in the order of their
/// first matching index key.
pub open spec fn search_ids(es: Seq<(Seq<u8>, u64)>, p: Seq<u8>) -> Seq<u64> {
    collect_ids(es, p, 0, Seq::empty())
}

/// The first record bearing an identifier, in store order.
pub open spec fn first_with_id(cities: Seq<City>, id: u64) -> Option<City>
    decreases cities.len(),
{
    if cities.len() == 0 {
        None
    } else if cities[0].geonameid == id {
        Some(cities[0])
    } else {
        first_with_id(cities.drop_first(), id)
    }
}

/// The records the identifiers resolve to; one without a record is
/// dropped.
pub open spec fn resolve_ids(cities: Seq<City>, ids: Seq<u64>) -> Seq<City>
    decreases ids.len(),
{
    if ids.len() == 0 {
        Seq::empty()
    } else {
        match first_with_id(cities, ids[0]) {
            Some(c) => seq![c] + resolve_ids(cities, ids.drop_first()),
            None => resolve_ids(cities, ids.drop_first()),
        }
    }
}

/// The scan only extends what was already collected.
pub proof fn lemma_collect_ids_extends(es: Seq<(Seq<u8>, u64)>, p: Seq<u8>, i: int, acc: Seq<u64>)
    ensures
        acc.len() <= collect_ids(es, p, i, acc).len(),
        forall|j: int| 0 <= j < acc.len() ==> collect_ids(es, p, i, acc)[j] == acc[j],
    decreases es.len() - i,
{
    if i < 0 || i >= es.len() {
    } else if lex_lt(es[i].0, p) {
        lemma_collect_ids_extends(es, p, i + 1, acc);
    } else if !is_prefix_of(p, es[i].0) {
    } else if acc.contains(es[i].1) {
        lemma_collect_ids_extends(es, p, i + 1, acc);
    } else if acc.len() + 1 >= RESULT_CAP {
        assert forall|j: int| 0 <= j < acc.len() implies collect_ids(es, p, i, acc)[j]
            == acc[j] by {
            assert(acc.push(es[i].1)[j] == acc[j]);
        }
    } else {
        let acc2 = acc.push(es[i].1);
        lemma_collect_ids_extends(es, p, i + 1, acc2);
        assert forall|j: int| 0 <= j < acc.len() implies collect_ids(es, p, i, acc)[j]
            == acc[j] by {
            assert(collect_ids(es, p, i + 1, acc2)[j] == acc2[j]);
            assert(acc2[j] == acc[j]);
        }
    }
}

/// Everything the scan adds is the value of an entry whose key carries
/// the prefix.
pub proof fn lemma_collect_ids_sources(es: Seq<(Seq<u8>, u64)>, p: Seq<u8>, i: int, acc: Seq<u64>)
    ensures
        forall|id: u64|
            #![trigger collect_ids(es, p, i, acc).contains(id)]
            collect_ids(es, p, i, acc).contains(id) ==> acc.contains(id) || exists|m: int|
                0 <= m < es.len() && is_prefix_of(p, #[trigger] es[m].0) && es[m].1 == id,
    decreases es.len() - i,
{
    if i < 0 || i >= es.len() {
    } else if lex_lt(es[i].0, p) {
        lemma_collect_ids_sources(es, p, i + 1, acc);
        assert(collect_ids(es, p, i, acc) == collect_ids(es, p, i + 1, acc));
    } else if !is_prefix_of(p, es[i].0) {
    } else if acc.contains(es[i].1) {
        lemma_collect_ids_sources(es, p, i + 1, acc);
        assert(collect_ids(es, p, i, acc) == collect_ids(es, p, i + 1, acc));
    } else {
        let acc2 = acc.push(es[i].1);
        if acc.len() + 1 >= RESULT_CAP {
            assert forall|id: u64| acc2.contains(id) implies acc.contains(id) || exists|m: int|
                0 <= m < es.len() && is_prefix_of(p, #[trigger] es[m].0) && es[m].1 == id by {
                let j = choose|j: int| 0 <= j < acc2.len() && acc2[j] == id;
                if j < acc.len() {
                    assert(acc[j] == id);
                    assert(acc.contains(id));
                } else {
                    assert(es[i].1 == id);
                    assert(0 <= i < es.len() && is_prefix_of(p, es[i].0) && es[i].1 == id);
                }
            }
        } else {
            lemma_collect_ids_sources(es, p, i + 1, acc2);
            assert forall|id: u64|
                collect_ids(es, p, i, acc).contains(id) implies acc.contains(id) || exists|m: int|
                0 <= m < es.len() && is_prefix_of(p, #[trigger] es[m].0) && es[m].1 == id by {
                assert(collect_ids(es, p, i + 1, acc2).contains(id));
                if acc2.contains(id) {
                    let j = choose|j: int| 0 <= j < acc2.len() && acc2[j] == id;
                    if j < acc.len() {
                        assert(acc[j] == id);
                        assert(acc.contains(id));
                    } else {
                        assert(es[i].1 == id);
                        assert(0 <= i < es.len() && is_prefix_of(p, es[i].0) && es[i].1 == id);
                    }
                }
            }
        }
    }
}

/// Entries strictly below the search key may be passed over silently.
pub proof fn lemma_collect_ids_skip(
    es: Seq<(Seq<u8>, u64)>,
    p: Seq<u8>,
    i: int,
    j: int,
    acc: Seq<u64>,
)
    requires
        0 <= i <= j <= es.len(),
        forall|m: int| i <= m < j ==> lex_lt(#[trigger] es[m].0, p),
    ensures
        collect_ids(es, p, i, acc) == collect_ids(es, p, j, acc),
    decreases j - i,
{
    if i < j {
        lemma_collect_ids_skip(es, p, i + 1, j, acc);
    }
}

/// The records resolved from distinct identifiers bear them one to one.
pub proof fn lemma_resolve_ids_props(cities: Seq<City>, ids: Seq<u64>)
    requires
        distinct_ids(ids),
    ensures
        resolve_ids(cities, ids).len() <= ids.len(),
        forall|n: int|
            0 <= n < resolve_ids(cities, ids).len() ==> ids.contains(
                #[trigger] resolve_ids(cities, ids)[n].geonameid,
            ),
        distinct_ids(resolve_ids(cities, ids).map_values(|c: City| c.geonameid)),
    decreases ids.len(),
{
    let rs = resolve_ids(cities, ids);
    if ids.len() > 0 {
        assert(distinct_ids(ids.drop_first())) by {
            assert forall|a: int, b: int|
                0 <= a < b < ids.drop_first().len() implies ids.drop_first()[a]
                != ids.drop_first()[b] by {
                assert(ids.drop_first()[a] == ids[a + 1]);
                assert(ids.drop_first()[b] == ids[b + 1]);
            }
        }
        lemma_resolve_ids_props(cities, ids.drop_first());
        let rest = resolve_ids(cities, ids.drop_first());
        match first_with_id(cities, ids[0]) {
            Some(c) => {
                lemma_first_with_id_prop(cities, ids[0]);
                assert(c.geonameid == ids[0]);
                assert forall|n: int| 0 <= n < rs.len() implies ids.contains(
                    #[trigger] rs[n].geonameid,
                ) by {
                    if n == 0 {
                        assert(rs[0] == c);
                        assert(ids[0] == c.geonameid);
                    } else {
                        assert(rs[n] == rest[n - 1]);
                        assert(ids.drop_first().contains(rest[n - 1].geonameid));
                        let m = choose|m: int|
                            0 <= m < ids.drop_first().len() && ids.drop_first()[m] == rest[n
                                - 1].geonameid;
                        assert(ids[m + 1] == rest[n - 1].geonameid);
                    }
                }
                let gids = rs.map_values(|cc: City| cc.geonameid);
                assert(distinct_ids(gids)) by {
                    assert forall|a: int, b: int| 0 <= a < b < gids.len() implies gids[a]
                        != gids[b] by {
                        if a == 0 {
                            assert(gids[0] == c.geonameid && c.geonameid == ids[0]);
                            assert(gids[b] == rest[b - 1].geonameid);
                            assert(ids.drop_first().contains(rest[b - 1].geonameid));
                            let m = choose|m: int|
                                0 <= m < ids.drop_first().len() && ids.drop_first()[m] == rest[b
                                    - 1].geonameid;
                            assert(ids[m + 1] == rest[b - 1].geonameid);
                        } else {
                            assert(gids[a] == rest[a - 1].geonameid);
                            assert(gids[b] == rest[b - 1].geonameid);
                            let grest = rest.map_values(|cc: City| cc.geonameid);
                            assert(grest[a - 1] == rest[a - 1].geonameid);
                            assert(grest[b - 1] == rest[b - 1].geonameid);
                        }
                    }
                }
            },
            None => {
                assert(rs == rest);
                assert forall|n: int| 0 <= n < rs.len() implies ids.contains(
                    #[trigger] rs[n].geonameid,
                ) by {
                    assert(ids.drop_first().contains(rest[n].geonameid));
                    let m = choose|m: int|
                        0 <= m < ids.drop_first().len() && ids.drop_first()[m] == rest[n].geonameid;
                    assert(ids[m + 1] == rest[n].geonameid);
                }
            },
        }
    }
}

/// What a found record satisfies: it bears the identifier and stands in
/// the store.
pub proof fn lemma_first_with_id_prop(cities: Seq<City>, id: u64)
    ensures
        match first_with_id(cities, id) {
            Some(c) => c.geonameid == id && cities.contains(c),
            None => forall|j: int| 0 <= j < cities.len() ==> (#[trigger] cities[j]).geonameid != id,
        },
    decreases cities.len(),
{
    if cities.len() > 0 {
        if cities[0].geonameid == id {
            assert(cities.contains(cities[0]));
        } else {
            lemma_first_with_id_prop(cities.drop_first(), id);
            match first_with_id(cities.drop_first(), id) {
                Some(c) => {
                    let m = choose|m: int|
                        0 <= m < cities.drop_first().len() && cities.drop_first()[m] == c;
                    assert(cities[m + 1] == c);
                    assert(cities.contains(c));
                },
                None => {
                    assert forall|j: int| 0 <= j < cities.len() implies (
                    #[trigger] cities[j]).geonameid != id by {
                        if j > 0 {
                            assert(cities.drop_first()[j - 1] == cities[j]);
                        }
                    }
                },
            }
        }
    }
}

impl Catalog {
    /// The records a search with the already-lowercased key `p` returns.
    pub open spec fn search_with_key(self, p: Seq<u8>) -> Seq<City> {
        resolve_ids(self.records(), search_ids(self.index_entries(), p))
    }

    /// The records a search with the given prefix returns.
    pub open spec fn spec_search(self, prefix: Seq<char>) -> Seq<City> {
        self.search_with_key(key_of(prefix))
    }

    /// The first record bearing the identifier, or nothing.
    pub fn find_by_id(&self, id: u64) -> (r: Option<&City>)
        ensures
            match r {
                Some(c) => first_with_id(self.records(), id) == Some(*c),
                None => first_with_id(self.records(), id) is None,
            },
    {
        let ghost cs = self.records();
        let mut i: usize = 0;
        proof {
            assert(cs.skip(0) =~= cs);
        }
        while i < self.cities.len()
            invariant
                0 <= i <= cs.len(),
                cs == self.records(),
                first_with_id(cs, id) == first_with_id(cs.skip(i as int), id),
            decreases cs.len() - i,
        {
            proof {
                assert(cs.skip(i as int)[0] == cs[i as int]);
            }
            if self.cities[i].geonameid == id {
                return Some(&self.cities[i]);
            }
            proof {
                assert(cs.skip(i as int).drop_first() =~= cs.skip(i as int + 1));
            }
            i = i + 1;
        }
        proof {
            assert(cs.skip(cs.len() as int).len() == 0);
        }
        None
    }

    /// Look a record up by identifier: a copy of the first record bearing
    /// it, or `NotFound` when no record does.
    pub fn lookup(&self, id: u64) -> (r: Result<City, CatalogError>)
        ensures
            match first_with_id(self.records(), id) {
                Some(c) => r == Ok::<City, CatalogError>(c),
                None => r == Err::<City, CatalogError>(CatalogError::NotFound),
            },
    {
        match self.find_by_id(id) {
            Some(c) => Ok(c.clone()),
            None => Err(CatalogError::NotFound),
        }
    }

    /// Prefix search: lowercase the prefix, walk the index keys in order
    /// from the first key at or past it, collect up to the cap of
    /// distinct identifiers of keys carrying the prefix, and resolve them
    /// against the store. Never more than the cap, never an identifier
    /// twice.
    pub fn search(&self, prefix: &str) -> (r: Vec<City>)
        requires
            self.wf(),
        ensures
            r@ == self.spec_search(prefix@),
            r@.len() <= RESULT_CAP,
            distinct_ids(r@.map_values(|c: City| c.geonameid)),
    {
        let low = lowercase(prefix);
        let pb = utf8_bytes(low.as_str());
        let ghost es = self.index_entries();
        let ghost p = pb@;
        proof {
            assert(p == key_of(prefix@));
        }

        let mut ids: Vec<u64> = Vec::new();
        let mut cur = first_entry_ge(&self.index, &pb);
        let ghost mut ci: int = es.len() as int;
        proof {
            assert(fst_entries(self.index) == es);
            match &cur {
                Some(e) => {
                    let m = choose|m: int| 0 <= m < es.len() && es[m] == (e.0@, e.1);
                    ci = m;
                    assert forall|j: int| 0 <= j < ci implies lex_lt(#[trigger] es[j].0, p) by {
                        lemma_lex_trichotomy(es[j].0, p);
                        if lex_le(p, es[j].0) {
                            assert(lex_le(e.0@, es[j].0));
                            assert(lex_lt(es[j].0, es[ci].0));
                            if e.0@ == es[j].0 {
                                lemma_lex_lt_irreflexive(es[j].0);
                            } else {
                                lemma_lex_transitive(es[j].0, es[ci].0, es[j].0);
                                lemma_lex_lt_irreflexive(es[j].0);
                            }
                        }
                    }
                    lemma_collect_ids_skip(es, p, 0, ci, Seq::empty());
                },
                None => {
                    assert forall|j: int| 0 <= j < es.len() implies lex_lt(
                        #[trigger] es[j].0,
                        p,
                    ) by {
                        lemma_lex_trichotomy(es[j].0, p);
                    }
                    lemma_collect_ids_skip(es, p, 0, es.len() as int, Seq::empty());
                },
            }
        }
        loop
            invariant_except_break
                ids@.len() < RESULT_CAP,
                distinct_ids(ids@),
                search_ids(es, p) == collect_ids(es, p, ci, ids@),
                ci < es.len() ==> (cur matches Some(e) && e.0@ == es[ci].0 && e.1 == es[ci].1
                    && lex_le(p, e.0@)),
                ci == es.len() ==> cur is None,
            invariant
                es == self.index_entries(),
                entries_sorted(es),
                p == pb@,
                0 <= ci <= es.len(),
            ensures
                ids@ == search_ids(es, p),
                ids@.len() <= RESULT_CAP,
                distinct_ids(ids@),
            decreases es.len() - ci,
        {
            let (k, v) = match cur {
                Some(e) => e,
                None => {
                    proof {
                        assert(ci == es.len());
                        assert(collect_ids(es, p, ci, ids@) == ids@);
                    }
                    break ;
                },
            };
            proof {
                assert(ci < es.len());
            }
            proof {
                // the current key is at or past the search key, so a
                // strictly-smaller comparison cannot hold
                if lex_lt(es[ci].0, p) {
                    if p == es[ci].0 {
                        lemma_lex_lt_irreflexive(p);
                    } else {
                        lemma_lex_transitive(p, es[ci].0, p);
                        lemma_lex_lt_irreflexive(p);
                    }
                }
            }
            if !has_prefix(&k, &pb) {
                proof {
                    assert(!is_prefix_of(p, es[ci].0));
                    assert(collect_ids(es, p, ci, ids@) == ids@);
                }
                break ;
            }
            let already = contains_id(&ids, v);
            let ghost ids0 = ids@;
            if !already {
                ids.push(v);
                proof {
                    assert(distinct_ids(ids@)) by {
                        assert forall|a: int, b: int|
                            0 <= a < b < ids@.len() implies ids@[a] != ids@[b] by {
                            if b == ids@.len() - 1 {
                                assert(ids@[a] == ids0[a]);
                                assert(ids0.contains(ids0[a]));
                            } else {
                                assert(ids@[a] == ids0[a]);
                                assert(ids@[b] == ids0[b]);
                            }
                        }
                    }
                }
                if ids.len() >= RESULT_CAP {
                    proof {
                        assert(collect_ids(es, p, ci, ids0) == ids0.push(es[ci].1));
                        assert(ids@ == ids0.push(es[ci].1));
                    }
                    break ;
                }
                proof {
                    assert(collect_ids(es, p, ci, ids0) == collect_ids(es, p, ci + 1, ids@));
                }
            } else {
                proof {
                    assert(collect_ids(es, p, ci, ids@) == collect_ids(es, p, ci + 1, ids@));
                }
            }
            cur = first_entry_gt(&self.index, &k);
            proof {
                match &cur {
                    Some(e2) => {
                        let m2 = choose|m2: int| 0 <= m2 < es.len() && es[m2] == (e2.0@, e2.1);
                        assert(lex_lt(es[ci].0, es[m2].0));
                        assert(m2 > ci) by {
                            if m2 < ci {
                                assert(lex_lt(es[m2].0, es[ci].0));
                                lemma_lex_asymmetric(es[ci].0, es[m2].0);
                            }
                            if m2 == ci {
                                lemma_lex_lt_irreflexive(es[ci].0);
                            }
                        }
                        assert(m2 == ci + 1) by {
                            if m2 != ci + 1 {
                                assert(ci + 1 < es.len());
                                assert(lex_lt(es[ci].0, es[ci + 1].0));
                                assert(lex_le(es[m2].0, es[ci + 1].0));
                                assert(lex_lt(es[ci + 1].0, es[m2].0));
                                if es[m2].0 == es[ci + 1].0 {
                                    lemma_lex_lt_irreflexive(es[m2].0);
                                } else {
                                    lemma_lex_asymmetric(es[ci + 1].0, es[m2].0);
                                }
                            }
                        }
                        assert(lex_le(p, e2.0@)) by {
                            assert(lex_le(p, es[ci].0));
                            if p == es[ci].0 {
                            } else {
                                lemma_lex_transitive(p, es[ci].0, e2.0@);
                            }
                        }
                        ci = ci + 1;
                        assert(es[ci] == (e2.0@, e2.1));
                    },
                    None => {
                        assert(ci + 1 == es.len()) by {
                            if ci + 1 < es.len() {
                                assert(lex_lt(es[ci].0, es[ci + 1].0));
                            }
                        }
                        ci = ci + 1;
                    },
                }
            }
        }

        let mut out: Vec<City> = Vec::new();
        let ghost allids = ids@;
        let mut ri: usize = 0;
        proof {
            assert(allids.take(0) =~= Seq::<u64>::empty());
        }
        while ri < ids.len()
            invariant
                0 <= ri <= allids.len(),
                allids == ids@,
                out@ == resolve_ids(self.records(), allids.take(ri as int)),
            decreases allids.len() - ri,
        {
            match self.find_by_id(ids[ri]) {
                Some(c) => {
                    let copied = c.clone();
                    out.push(copied);
                },
                None => {},
            }
            proof {
                lemma_resolve_ids_take_step(self.records(), allids, ri as int);
            }
            ri = ri + 1;
        }
        proof {
            assert(allids.take(allids.len() as int) =~= allids);
            lemma_resolve_ids_props(self.records(), allids);
        }
        out
    }
}

/// One more identifier resolves to one more record or to nothing.
pub proof fn lemma_resolve_ids_take_step(cities: Seq<City>, ids: Seq<u64>, i: int)
    requires
        0 <= i < ids.len(),
    ensures
        resolve_ids(cities, ids.take(i + 1)) == resolve_ids(cities, ids.take(i)) + (
        match first_with_id(cities, ids[i]) {
            Some(c) => seq![c],
            None => Seq::<City>::empty(),
        }),
    decreases i,
{
    if i == 0 {
        assert(ids.take(1)[0] == ids[0]);
        assert(ids.take(1).drop_first() =~= Seq::<u64>::empty());
        assert(ids.take(0) =~= Seq::<u64>::empty());
        assert(resolve_ids(cities, Seq::<u64>::empty()) =~= Seq::<City>::empty());
        match first_with_id(cities, ids[0]) {
            Some(c) => {
                assert(resolve_ids(cities, ids.take(1)) =~= seq![c]);
                assert(resolve_ids(cities, ids.take(0)) + seq![c] =~= seq![c]);
            },
            None => {
                assert(resolve_ids(cities, ids.take(1)) =~= Seq::<City>::empty());
                assert(resolve_ids(cities, ids.take(0)) + Seq::<City>::empty() =~= Seq::<
                    City,
                >::empty());
            },
        }
    } else {
        lemma_resolve_ids_take_step(cities, ids.drop_first(), i - 1);
        assert(ids.take(i + 1)[0] == ids[0]);
        assert(ids.take(i + 1).drop_first() =~= ids.drop_first().take(i));
        assert(ids.take(i)[0] == ids[0]);
        assert(ids.take(i).drop_first() =~= ids.drop_first().take(i - 1));
        assert(ids.drop_first()[i - 1] == ids[i]);
        let t = match first_with_id(cities, ids[i]) {
            Some(c) => seq![c],
            None => Seq::<City>::empty(),
        };
        match first_with_id(cities, ids[0]) {
            Some(c0) => {
                assert(seq![c0] + (resolve_ids(cities, ids.drop_first().take(i - 1)) + t) =~= (
                seq![c0] + resolve_ids(cities, ids.drop_first().take(i - 1))) + t);
            },
            None => {},
        }
    }
}

/// `p` at or before a key without carrying it means strictly before, and
/// then every later key also lacks it.
proof fn lemma_lex_asymmetric_helper(p: Seq<u8>, k: Seq<u8>)
    requires
        lex_le(p, k),
        !is_prefix_of(p, k),
    ensures
        lex_lt(p, k),
{
    if p == k {
        assert(k.subrange(0, p.len() as int) =~= p);
        assert(false);
    }
}

/// Does the list hold this identifier?
fn contains_id(ids: &Vec<u64>, v: u64) -> (r: bool)
    ensures
        r == ids@.contains(v),
{
    let mut i: usize = 0;
    while i < ids.len()
        invariant
            0 <= i <= ids@.len(),
            forall|j: int| 0 <= j < i ==> ids@[j] != v,
        decreases ids@.len() - i,
    {
        if ids[i] == v {
            assert(ids@.contains(v)) by {
                assert(ids@[i as int] == v);
            }
            return true;
        }
        i = i + 1;
    }
    proof {
        if ids@.contains(v) {
            let j = choose|j: int| 0 <= j < ids@.len() && ids@[j] == v;
            assert(false);
        }
    }
    false
}

/// No two records share an identifier.
pub open spec fn unique_ids(cities: Seq<City>) -> bool {
    forall|i: int, j: int|
        0 <= i < j < cities.len() ==> cities[i].geonameid != cities[j].geonameid
}

/// With unique identifiers, the record found for an identifier is the
/// record bearing it.
pub proof fn lemma_first_with_id_unique(cities: Seq<City>, c: City)
    requires
        unique_ids(cities),
        cities.contains(c),
    ensures
        first_with_id(cities, c.geonameid) == Some(c),
    decreases cities.len(),
{
    let m = choose|m: int| 0 <= m < cities.len() && cities[m] == c;
    if cities[0].geonameid == c.geonameid {
        if m > 0 {
            assert(cities[0].geonameid != cities[m].geonameid);
            assert(false);
        }
        assert(cities[0] == c);
    } else {
        assert(m > 0);
        assert(unique_ids(cities.drop_first())) by {
            assert forall|a: int, b: int|
                0 <= a < b < cities.drop_first().len() implies cities.drop_first()[a].geonameid
                != cities.drop_first()[b].geonameid by {
                assert(cities.drop_first()[a] == cities[a + 1]);
                assert(cities.drop_first()[b] == cities[b + 1]);
            }
        }
        assert(cities.drop_first()[m - 1] == c);
        assert(cities.drop_first().contains(c));
        lemma_first_with_id_unique(cities.drop_first(), c);
    }
}

/// Every resolved record was found for one of the identifiers.
pub proof fn lemma_resolve_ids_elems(cities: Seq<City>, ids: Seq<u64>)
    ensures
        forall|n: int|
            #![trigger resolve_ids(cities, ids)[n]]
            0 <= n < resolve_ids(cities, ids).len() ==> exists|m: int|
                0 <= m < ids.len() && first_with_id(cities, #[trigger] ids[m]) == Some(
                    resolve_ids(cities, ids)[n],
                ),
    decreases ids.len(),
{
    let rs = resolve_ids(cities, ids);
    if ids.len() > 0 {
        lemma_resolve_ids_elems(cities, ids.drop_first());
        let rest = resolve_ids(cities, ids.drop_first());
        assert forall|n: int| #![trigger rs[n]] 0 <= n < rs.len() implies exists|m: int|
            0 <= m < ids.len() && first_with_id(cities, #[trigger] ids[m]) == Some(rs[n]) by {
            match first_with_id(cities, ids[0]) {
                Some(c) => {
                    if n == 0 {
                        assert(rs[0] == c);
                        assert(first_with_id(cities, ids[0]) == Some(rs[0]));
                    } else {
                        assert(rs[n] == rest[n - 1]);
                        let m = choose|m: int|
                            0 <= m < ids.drop_first().len() && first_with_id(
                                cities,
                                #[trigger] ids.drop_first()[m],
                            ) == Some(rest[n - 1]);
                        assert(ids[m + 1] == ids.drop_first()[m]);
                        assert(first_with_id(cities, ids[m + 1]) == Some(rs[n]));
                    }
                },
                None => {
                    assert(rs[n] == rest[n]);
                    let m = choose|m: int|
                        0 <= m < ids.drop_first().len() && first_with_id(
                            cities,
                            #[trigger] ids.drop_first()[m],
                        ) == Some(rest[n]);
                    assert(ids[m + 1] == ids.drop_first()[m]);
                    assert(first_with_id(cities, ids[m + 1]) == Some(rs[n]));
                },
            }
        }
    }
}

/// Case-insensitivity: prefixes with the same lowercase form return the
/// same records, since a search depends on its prefix only through the
/// lowercased key.
pub proof fn lemma_search_case_insensitive(cat: Catalog, p: Seq<char>, q: Seq<char>)
    requires
        lower_of(p) == lower_of(q),
    ensures
        cat.spec_search(p) == cat.spec_search(q),
{
}

/// The empty search key is carried by every index key: an empty-prefix
/// scan is cut short only by the cap or the end of the index.
pub proof fn lemma_empty_key_matches_all(k: Seq<u8>)
    ensures
        is_prefix_of(Seq::<u8>::empty(), k),
{
    assert(k.subrange(0, 0) =~= Seq::<u8>::empty());
}

/// Every name key leads back to its record: searching with the key
/// itself returns, first, the record the index maps the key to — with
/// unique identifiers, the record owning the key, unless a later record
/// overwrote it.
pub proof fn lemma_key_resolves(cat: Catalog, c: City, k: Seq<u8>)
    requires
        cat.wf(),
        unique_ids(cat.records()),
        cat.records().contains(c),
        city_keys(c).contains(k),
        latest_id_for(cat.records(), k) == Some(c.geonameid),
    ensures
        cat.search_with_key(k).len() > 0,
        cat.search_with_key(k)[0] == c,
{
    let es = cat.index_entries();
    let id = c.geonameid;
    lemma_table_lookup(cat.records(), k);
    assert(tbl_lookup(es, k) == Some(id));
    lemma_lookup_contains(es, k, id);
    let idx = choose|idx: int| 0 <= idx < es.len() && es[idx] == (k, id);
    assert forall|j: int| 0 <= j < idx implies lex_lt(#[trigger] es[j].0, k) by {
        assert(lex_lt(es[j].0, es[idx].0));
    }
    lemma_collect_ids_skip(es, k, 0, idx, Seq::empty());
    assert(is_prefix_of(k, es[idx].0)) by {
        assert(k.subrange(0, k.len() as int) =~= k);
    }
    assert(!lex_lt(es[idx].0, k)) by {
        lemma_lex_lt_irreflexive(k);
    }
    let acc1 = Seq::<u64>::empty().push(id);
    assert(collect_ids(es, k, idx, Seq::empty()) == collect_ids(es, k, idx + 1, acc1));
    lemma_collect_ids_extends(es, k, idx + 1, acc1);
    assert(acc1.len() == 1 && acc1[0] == id);
    assert(collect_ids(es, k, idx + 1, acc1)[0] == acc1[0]);
    let ids = search_ids(es, k);
    assert(ids.len() >= 1 && ids[0] == id);
    lemma_first_with_id_unique(cat.records(), c);
    let rs = cat.search_with_key(k);
    assert(rs == resolve_ids(cat.records(), ids));
    assert(first_with_id(cat.records(), ids[0]) == Some(c));
    assert(rs[0] == c);
}

/// Everything a search returns owns a key that starts with the search
/// key: the record's identifier was collected from such an index entry,
/// and with unique identifiers that entry is the returned record's own.
pub proof fn lemma_results_carry_prefix(cat: Catalog, p: Seq<u8>, n: int)
    requires
        cat.wf(),
        unique_ids(cat.records()),
        0 <= n < cat.search_with_key(p).len(),
    ensures
        exists|k: Seq<u8>|
            is_prefix_of(p, k) && #[trigger] city_keys(cat.search_with_key(p)[n]).contains(k),
{
    let es = cat.index_entries();
    let cities = cat.records();
    let ids = search_ids(es, p);
    let rs = cat.search_with_key(p);
    lemma_resolve_ids_elems(cities, ids);
    let m = choose|m: int|
        0 <= m < ids.len() && first_with_id(cities, #[trigger] ids[m]) == Some(rs[n]);
    let id = ids[m];
    lemma_collect_ids_sources(es, p, 0, Seq::empty());
    assert(ids.contains(id));
    assert(collect_ids(es, p, 0, Seq::empty()).contains(id));
    let m2 = choose|m2: int|
        0 <= m2 < es.len() && is_prefix_of(p, #[trigger] es[m2].0) && es[m2].1 == id;
    crate::table::lemma_sorted_index_lookup(es, m2);
    lemma_table_lookup(cities, es[m2].0);
    assert(latest_id_for(cities, es[m2].0) == Some(id));
    lemma_latest_id_source(cities, es[m2].0, id);
    let c2 = choose|c2: City|
        #![trigger city_keys(c2)]
        cities.contains(c2) && city_keys(c2).contains(es[m2].0) && c2.geonameid == id;
    lemma_first_with_id_unique(cities, c2);
    assert(first_with_id(cities, id) == Some(c2));
    assert(rs[n] == c2);
    assert(city_keys(rs[n]).contains(es[m2].0));
}

/// The early stop of the scan is sound: past the first key at or beyond
/// the search key that does not carry it, no key carries it, because the
/// keys carrying a prefix form one contiguous run of the sorted order.
pub proof fn lemma_prefix_run_ends(es: Seq<(Seq<u8>, u64)>, p: Seq<u8>, i: int, j: int)
    requires
        entries_sorted(es),
        0 <= i <= j < es.len(),
        lex_le(p, es[i].0),
        !is_prefix_of(p, es[i].0),
    ensures
        !is_prefix_of(p, es[j].0),
{
    if is_prefix_of(p, es[j].0) {
        crate::order::lemma_prefix_interval(p, es[i].0, es[j].0);
    }
}

/// Below the cap the scan is complete: it collects the value of every
/// entry whose key carries the search key, beside what it started with.
pub proof fn lemma_collect_ids_complete(es: Seq<(Seq<u8>, u64)>, p: Seq<u8>, i: int, acc: Seq<u64>)
    requires
        entries_sorted(es),
        0 <= i <= es.len(),
        forall|m: int|
            0 <= m < i && is_prefix_of(p, #[trigger] es[m].0) ==> acc.contains(es[m].1),
        collect_ids(es, p, i, acc).len() < RESULT_CAP,
    ensures
        forall|m: int|
            0 <= m < es.len() && is_prefix_of(p, #[trigger] es[m].0) ==> collect_ids(
                es,
                p,
                i,
                acc,
            ).contains(es[m].1),
    decreases es.len() - i,
{
    let r = collect_ids(es, p, i, acc);
    if i < 0 || i >= es.len() {
    } else if lex_lt(es[i].0, p) {
        assert(!is_prefix_of(p, es[i].0)) by {
            if is_prefix_of(p, es[i].0) {
                lemma_prefix_le(p, es[i].0);
                if p == es[i].0 {
                    lemma_lex_lt_irreflexive(p);
                } else {
                    lemma_lex_asymmetric(p, es[i].0);
                }
            }
        }
        lemma_collect_ids_complete(es, p, i + 1, acc);
    } else if !is_prefix_of(p, es[i].0) {
        lemma_lex_trichotomy(es[i].0, p);
        assert(lex_le(p, es[i].0));
        assert forall|m: int|
            0 <= m < es.len() && is_prefix_of(p, #[trigger] es[m].0) implies r.contains(
            es[m].1,
        ) by {
            if m >= i {
                lemma_prefix_run_ends(es, p, i, m);
            } else {
                assert(acc.contains(es[m].1));
            }
        }
    } else if acc.contains(es[i].1) {
        lemma_collect_ids_complete(es, p, i + 1, acc);
    } else if acc.len() + 1 >= RESULT_CAP {
        // the cap is reached here, against the assumption
    } else {
        let acc2 = acc.push(es[i].1);
        assert forall|m: int|
            0 <= m < i + 1 && is_prefix_of(p, #[trigger] es[m].0) implies acc2.contains(
            es[m].1,
        ) by {
            if m < i {
                let n = choose|n: int| 0 <= n < acc.len() && acc[n] == es[m].1;
                assert(acc2[n] == es[m].1);
            } else {
                assert(acc2.last() == es[i].1);
            }
        }
        lemma_collect_ids_complete(es, p, i + 1, acc2);
    }
}

/// A search that comes back under the cap missed nothing: every index
/// entry whose key carries the search key contributed its identifier.
pub proof fn lemma_search_ids_complete(cat: Catalog, p: Seq<u8>)
    requires
        cat.wf(),
        search_ids(cat.index_entries(), p).len() < RESULT_CAP,
    ensures
        forall|m: int|
            0 <= m < cat.index_entries().len() && is_prefix_of(
                p,
                #[trigger] cat.index_entries()[m].0,
            ) ==> search_ids(cat.index_entries(), p).contains(cat.index_entries()[m].1),
{
    lemma_collect_ids_complete(cat.index_entries(), p, 0, Seq::empty());
}

} // verus!
