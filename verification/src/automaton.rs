//! The compiled name index: a minimal finite-state transducer from byte
//! strings to 64-bit identifiers, built once from strictly increasing keys
//! and immutable afterwards. The transducer itself comes from the `fst`
//! crate; these are the declarations and contracts under which the rest of
//! the library uses it.

use vstd::prelude::*;

use fst::IntoStreamer;
use fst::Streamer;

use crate::order::lex_le;
use crate::order::lex_lt;

verus! {

#[verifier::external_type_specification]
#[verifier::external_body]
#[verifier::reject_recursive_types(D)]
pub struct ExFstMap<D>(fst::Map<D>);

#[verifier::external_type_specification]
#[verifier::external_body]
#[verifier::reject_recursive_types(W)]
pub struct ExFstMapBuilder<W>(fst::MapBuilder<W>);

#[verifier::external_type_specification]
#[verifier::external_body]
pub struct ExFstError(fst::Error);

/// The (key, identifier) entries of a compiled transducer, in the order
/// its streams yield them.
pub uninterp spec fn fst_entries(m: fst::Map<Vec<u8>>) -> Seq<(Seq<u8>, u64)>;

/// The entries handed to a transducer builder so far, in insertion order.
pub uninterp spec fn builder_entries(b: fst::MapBuilder<Vec<u8>>) -> Seq<(Seq<u8>, u64)>;

/// Relies on fst::MapBuilder::memory: a fresh in-memory builder holds no
/// entries.
#[verifier::external_body]
pub fn builder_new() -> (r: fst::MapBuilder<Vec<u8>>)
    ensures
        builder_entries(r) == Seq::<(Seq<u8>, u64)>::empty(),
{
    fst::MapBuilder::memory()
}

/// Relies on fst::MapBuilder::insert: appends the pair when the key is
/// strictly greater than every key inserted before, and fails without
/// inserting otherwise; writing to the in-memory buffer cannot fail.
#[verifier::external_body]
pub fn builder_insert(b: &mut fst::MapBuilder<Vec<u8>>, key: &Vec<u8>, id: u64) -> (r: Result<
    (),
    fst::Error,
>)
    ensures
        r is Ok <==> (builder_entries(*old(b)).len() == 0 || lex_lt(
            builder_entries(*old(b)).last().0,
            key@,
        )),
        r is Ok ==> builder_entries(*final(b)) == builder_entries(*old(b)).push((key@, id)),
        r is Err ==> builder_entries(*final(b)) == builder_entries(*old(b)),
{
    b.insert(key.as_slice(), id)
}

/// Relies on fst::MapBuilder::into_map: the compiled transducer holds
/// exactly the entries that were inserted, in that order.
#[verifier::external_body]
pub fn builder_into_map(b: fst::MapBuilder<Vec<u8>>) -> (r: fst::Map<Vec<u8>>)
    ensures
        fst_entries(r) == builder_entries(b),
{
    b.into_map()
}

/// Relies on fst::Map::range with a `ge` bound: the stream yields entries
/// in ascending byte-lexicographic key order starting at the first key
/// that is `bound` or greater, so its first element is the least such
/// entry, and there is none exactly when no key reaches the bound.
#[verifier::external_body]
pub fn first_entry_ge(m: &fst::Map<Vec<u8>>, bound: &Vec<u8>) -> (r: Option<(Vec<u8>, u64)>)
    ensures
        match r {
            Some(e) => {
                &&& fst_entries(*m).contains((e.0@, e.1))
                &&& lex_le(bound@, e.0@)
                &&& forall|i: int|
                    0 <= i < fst_entries(*m).len() && lex_le(
                        bound@,
                        #[trigger] fst_entries(*m)[i].0,
                    ) ==> lex_le(e.0@, fst_entries(*m)[i].0)
            },
            None => forall|i: int|
                0 <= i < fst_entries(*m).len() ==> !lex_le(
                    bound@,
                    #[trigger] fst_entries(*m)[i].0,
                ),
        },
{
    let mut stream = m.range().ge(bound.as_slice()).into_stream();
    stream.next().map(|(k, v)| (k.to_vec(), v))
}

/// Relies on fst::Map::range with a `gt` bound: as with the `ge` bound,
/// but starting at the first key strictly greater than the bound.
#[verifier::external_body]
pub fn first_entry_gt(m: &fst::Map<Vec<u8>>, bound: &Vec<u8>) -> (r: Option<(Vec<u8>, u64)>)
    ensures
        match r {
            Some(e) => {
                &&& fst_entries(*m).contains((e.0@, e.1))
                &&& lex_lt(bound@, e.0@)
                &&& forall|i: int|
                    0 <= i < fst_entries(*m).len() && lex_lt(
                        bound@,
                        #[trigger] fst_entries(*m)[i].0,
                    ) ==> lex_le(e.0@, fst_entries(*m)[i].0)
            },
            None => forall|i: int|
                0 <= i < fst_entries(*m).len() ==> !lex_lt(
                    bound@,
                    #[trigger] fst_entries(*m)[i].0,
                ),
        },
{
    let mut stream = m.range().gt(bound.as_slice()).into_stream();
    stream.next().map(|(k, v)| (k.to_vec(), v))
}

} // verus!
