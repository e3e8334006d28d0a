//! The record loader: tab-separated dataset lines to records. A line with
//! fewer than the required number of fields is skipped; an identifier
//! that does not parse falls back to 0; textual fields are taken
//! verbatim.

use vstd::prelude::*;
use vstd::utf8::encode_utf8;

use crate::catalog::City;
use crate::text::parse_u64;
use crate::text::parse_u64_spec;
use crate::text::split_char;
use crate::text::split_on;

verus! {

/// The number of tab-separated fields a well-formed row carries.
pub const ROW_FIELDS: usize = 19;

/// Is this line well-formed: at least the required number of fields?
pub open spec fn wf_line(l: Seq<char>) -> bool {
    split_on(l, '\t').len() >= ROW_FIELDS
}

/// The identifier a row's first field yields: its decimal value, or 0.
pub open spec fn row_id(f: Seq<char>) -> u64 {
    match parse_u64_spec(encode_utf8(f)) {
        Some(v) => v,
        None => 0u64,
    }
}

/// Does the record hold what the line's fields say?
pub open spec fn city_matches_line(c: City, l: Seq<char>) -> bool {
    let fs = split_on(l, '\t');
    &&& c.geonameid == row_id(fs[0])
    &&& c.name@ == fs[1]
    &&& c.asciiname@ == fs[2]
    &&& c.alternatenames@ == fs[3]
    &&& c.country_code@ == fs[8]
    &&& c.timezone@ == fs[17]
}

/// Parse one line: `None` exactly when it is malformed, the record from
/// its fields otherwise.
pub fn parse_city_line(line: &str) -> (r: Option<City>)
    ensures
        r is Some <==> wf_line(line@),
        r matches Some(c) ==> city_matches_line(c, line@),
{
    let fields = split_char(line, '\t');
    let ghost fs = split_on(line@, '\t');
    proof {
        assert(fields@.map_values(|p: String| p@).len() == fs.len());
    }
    if fields.len() < ROW_FIELDS {
        return None;
    }
    proof {
        assert(fields@.map_values(|p: String| p@)[0] == fs[0]);
        assert(fields@.map_values(|p: String| p@)[1] == fs[1]);
        assert(fields@.map_values(|p: String| p@)[2] == fs[2]);
        assert(fields@.map_values(|p: String| p@)[3] == fs[3]);
        assert(fields@.map_values(|p: String| p@)[8] == fs[8]);
        assert(fields@.map_values(|p: String| p@)[17] == fs[17]);
    }
    let id = match parse_u64(fields[0].as_str()) {
        Some(v) => v,
        None => 0,
    };
    Some(
        City {
            geonameid: id,
            name: fields[1].clone(),
            asciiname: fields[2].clone(),
            alternatenames: fields[3].clone(),
            country_code: fields[8].clone(),
            timezone: fields[17].clone(),
        },
    )
}

/// The records of a line sequence, malformed lines skipped, order kept.
pub open spec fn records_match_lines(lines: Seq<Seq<char>>, rs: Seq<City>) -> bool
    decreases lines.len(),
{
    if lines.len() == 0 {
        rs.len() == 0
    } else if !wf_line(lines[0]) {
        records_match_lines(lines.drop_first(), rs)
    } else {
        rs.len() > 0 && city_matches_line(rs[0], lines[0]) && records_match_lines(
            lines.drop_first(),
            rs.drop_first(),
        )
    }
}

/// A line added at the end extends the match by its record or by nothing.
pub proof fn lemma_records_match_push(
    lines: Seq<Seq<char>>,
    rs: Seq<City>,
    l: Seq<char>,
    c: City,
)
    requires
        records_match_lines(lines, rs),
        wf_line(l) ==> city_matches_line(c, l),
    ensures
        wf_line(l) ==> records_match_lines(lines.push(l), rs.push(c)),
        !wf_line(l) ==> records_match_lines(lines.push(l), rs),
    decreases lines.len(),
{
    if lines.len() == 0 {
        assert(records_match_lines(Seq::<Seq<char>>::empty(), Seq::<City>::empty()));
        assert(records_match_lines(Seq::<Seq<char>>::empty(), rs));
        if wf_line(l) {
            assert(lines.push(l)[0] == l);
            assert(rs.push(c)[0] == c);
            assert(lines.push(l).drop_first() =~= Seq::<Seq<char>>::empty());
            assert(rs.push(c).drop_first() =~= Seq::<City>::empty());
        } else {
            assert(lines.push(l)[0] == l);
            assert(lines.push(l).drop_first() =~= Seq::<Seq<char>>::empty());
        }
    } else {
        assert(lines.push(l)[0] == lines[0]);
        assert(lines.push(l).drop_first() =~= lines.drop_first().push(l));
        if !wf_line(lines[0]) {
            lemma_records_match_push(lines.drop_first(), rs, l, c);
        } else {
            lemma_records_match_push(lines.drop_first(), rs.drop_first(), l, c);
            if wf_line(l) {
                assert(rs.push(c)[0] == rs[0]);
                assert(rs.push(c).drop_first() =~= rs.drop_first().push(c));
            }
        }
    }
}

/// Load records from dataset lines: parse each in order, skip the
/// malformed ones.
pub fn load_records(lines: &Vec<String>) -> (r: Vec<City>)
    ensures
        records_match_lines(lines@.map_values(|l: String| l@), r@),
{
    let ghost ls = lines@.map_values(|l: String| l@);
    let mut out: Vec<City> = Vec::new();
    let mut i: usize = 0;
    proof {
        assert(ls.take(0) =~= Seq::<Seq<char>>::empty());
    }
    while i < lines.len()
        invariant
            0 <= i <= ls.len(),
            ls == lines@.map_values(|l: String| l@),
            records_match_lines(ls.take(i as int), out@),
        decreases ls.len() - i,
    {
        let ghost out0 = out@;
        let ghost l = ls[i as int];
        proof {
            assert(ls[i as int] == lines@[i as int]@);
        }
        match parse_city_line(lines[i].as_str()) {
            Some(c) => {
                proof {
                    lemma_records_match_push(ls.take(i as int), out0, l, c);
                    assert(ls.take(i as int).push(l) =~= ls.take(i as int + 1));
                }
                out.push(c);
            },
            None => {
                proof {
                    lemma_records_match_push_none(ls.take(i as int), out0, l);
                    assert(ls.take(i as int).push(l) =~= ls.take(i as int + 1));
                }
            },
        }
        i = i + 1;
    }
    proof {
        assert(ls.take(ls.len() as int) =~= ls);
    }
    out
}

/// A malformed line added at the end leaves the match unchanged.
pub proof fn lemma_records_match_push_none(lines: Seq<Seq<char>>, rs: Seq<City>, l: Seq<char>)
    requires
        records_match_lines(lines, rs),
        !wf_line(l),
    ensures
        records_match_lines(lines.push(l), rs),
    decreases lines.len(),
{
    if lines.len() == 0 {
        assert(records_match_lines(Seq::<Seq<char>>::empty(), rs));
        assert(lines.push(l)[0] == l);
        assert(lines.push(l).drop_first() =~= Seq::<Seq<char>>::empty());
    } else {
        assert(lines.push(l)[0] == lines[0]);
        assert(lines.push(l).drop_first() =~= lines.drop_first().push(l));
        if !wf_line(lines[0]) {
            lemma_records_match_push_none(lines.drop_first(), rs, l);
        } else {
            lemma_records_match_push_none(lines.drop_first(), rs.drop_first(), l);
        }
    }
}

} // verus!
