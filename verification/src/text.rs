//! Text helpers for the name index: case folding, trimming and splitting
//! delimited fields, and parsing decimal identifiers.

use vstd::prelude::*;

verus! {

/// What `str::to_lowercase` returns for the given characters: the result
/// depends on the characters alone.
pub uninterp spec fn lower_of(s: Seq<char>) -> Seq<char>;

/// What `str::trim` returns for the given characters: the result depends
/// on the characters alone.
pub uninterp spec fn trim_of(s: Seq<char>) -> Seq<char>;

/// Relies on str::to_lowercase: Unicode lowercasing of the whole string;
/// an empty string stays empty.
#[verifier::external_body]
pub fn lowercase(s: &str) -> (r: String)
    ensures
        r@ == lower_of(s@),
        s@.len() == 0 ==> r@.len() == 0,
{
    s.to_lowercase()
}

/// Relies on str::trim: the result is the input without its leading and
/// trailing whitespace, hence a contiguous part of it.
#[verifier::external_body]
pub fn trimmed(s: &str) -> (r: &str)
    ensures
        r@ == trim_of(s@),
        r@.len() <= s@.len(),
{
    s.trim()
}

/// The pieces of `s` between occurrences of `sep`: always at least one
/// piece, and empty pieces are kept.
pub open spec fn split_on(s: Seq<char>, sep: char) -> Seq<Seq<char>>
    decreases s.len(),
{
    if s.len() == 0 {
        seq![Seq::<char>::empty()]
    } else if s[0] == sep {
        seq![Seq::<char>::empty()] + split_on(s.drop_first(), sep)
    } else {
        let r = split_on(s.drop_first(), sep);
        r.update(0, seq![s[0]] + r[0])
    }
}

/// Relies on str::split with a single-character pattern: the substrings
/// between occurrences of the separator, in order, empty ones included.
#[verifier::external_body]
pub fn split_char(s: &str, sep: char) -> (r: Vec<String>)
    ensures
        r@.map_values(|p: String| p@) == split_on(s@, sep),
{
    let mut out: Vec<String> = Vec::new();
    for piece in s.split(sep) {
        out.push(piece.to_string());
    }
    out
}

/// The numeric value of a big-endian decimal digit string.
pub open spec fn dec_val(ds: Seq<u8>) -> int
    decreases ds.len(),
{
    if ds.len() == 0 {
        0
    } else {
        dec_val(ds.drop_last()) * 10 + (ds.last() - 0x30)
    }
}

pub open spec fn all_digits(ds: Seq<u8>) -> bool {
    forall|i: int| 0 <= i < ds.len() ==> 0x30 <= #[trigger] ds[i] <= 0x39
}

/// How a decimal `u64` is read from UTF-8 bytes: an optional leading `+`,
/// then at least one digit, and a value that fits in 64 bits.
pub open spec fn parse_u64_spec(bs: Seq<u8>) -> Option<u64> {
    let ds = if bs.len() > 0 && bs[0] == 0x2b {
        bs.drop_first()
    } else {
        bs
    };
    if ds.len() > 0 && all_digits(ds) && dec_val(ds) <= u64::MAX {
        Some(dec_val(ds) as u64)
    } else {
        None
    }
}

proof fn lemma_dec_val_take_step(ds: Seq<u8>, j: int)
    requires
        0 <= j < ds.len(),
    ensures
        dec_val(ds.take(j + 1)) == dec_val(ds.take(j)) * 10 + (ds[j] - 0x30),
{
    assert(ds.take(j + 1).drop_last() =~= ds.take(j));
    assert(ds.take(j + 1).last() == ds[j]);
}

proof fn lemma_dec_val_nonneg(ds: Seq<u8>)
    requires
        all_digits(ds),
    ensures
        dec_val(ds) >= 0,
    decreases ds.len(),
{
    if ds.len() > 0 {
        assert(all_digits(ds.drop_last())) by {
            assert(forall|i: int|
                0 <= i < ds.len() - 1 ==> #[trigger] ds.drop_last()[i] == ds[i]);
        }
        lemma_dec_val_nonneg(ds.drop_last());
    }
}

proof fn lemma_dec_val_take_le(ds: Seq<u8>, j: int)
    requires
        0 <= j <= ds.len(),
        all_digits(ds),
    ensures
        dec_val(ds.take(j)) <= dec_val(ds),
    decreases ds.len() - j,
{
    if j == ds.len() {
        assert(ds.take(j) =~= ds);
    } else {
        lemma_dec_val_take_step(ds, j);
        assert(all_digits(ds.take(j))) by {
            assert(forall|m: int| 0 <= m < j ==> #[trigger] ds.take(j)[m] == ds[m]);
        }
        lemma_dec_val_nonneg(ds.take(j));
        assert(dec_val(ds.take(j)) <= dec_val(ds.take(j)) * 10 + (ds[j] - 0x30)) by (nonlinear_arith)
            requires
                0x30 <= ds[j] <= 0x39,
                dec_val(ds.take(j)) >= 0,
        ;
        lemma_dec_val_take_le(ds, j + 1);
    }
}

/// Read a decimal `u64` from a string, as the identifier column of the
/// dataset is read: `None` on an empty or ill-formed or overlarge number.
#[verifier::loop_isolation(false)]
pub fn parse_u64(s: &str) -> (r: Option<u64>)
    ensures
        r == parse_u64_spec(vstd::utf8::encode_utf8(s@)),
{
    let bs = s.as_bytes();
    let ghost whole = bs@;
    proof {
        assert(whole == vstd::utf8::encode_utf8(s@));
    }
    let mut i: usize = 0;
    if bs.len() > 0 && bs[0] == 0x2b {
        i = 1;
    }
    let ghost ds = if whole.len() > 0 && whole[0] == 0x2b {
        whole.drop_first()
    } else {
        whole
    };
    let ghost start = i as int;
    proof {
        assert(ds =~= whole.subrange(start, whole.len() as int));
    }
    if i >= bs.len() {
        proof {
            assert(ds.len() == 0);
        }
        return None;
    }
    let mut val: u64 = 0;
    while i < bs.len()
        invariant
            0 <= start <= i <= bs.len(),
            whole == bs@,
            ds == whole.subrange(start, whole.len() as int),
            0 < ds.len() == bs@.len() - start,
            all_digits(ds.take(i - start)),
            val == dec_val(ds.take(i - start)),
        decreases bs.len() - i,
    {
        let b = bs[i];
        proof {
            assert(i < whole.len());
            assert(whole.subrange(start, whole.len() as int)[i - start] == whole[i as int]);
            assert(ds[i - start] == b);
        }
        if b < 0x30 || b > 0x39 {
            proof {
                assert(!all_digits(ds));
            }
            return None;
        }
        if val > (u64::MAX - (b - 0x30) as u64) / 10 {
            proof {
                lemma_dec_val_take_step(ds, i - start);
                let dd: int = ds[i - start] - 0x30;
                assert(dec_val(ds.take(i - start + 1)) > u64::MAX) by (nonlinear_arith)
                    requires
                        dec_val(ds.take(i - start + 1)) == dec_val(ds.take(i - start)) * 10 + dd,
                        dec_val(ds.take(i - start)) == val,
                        0 <= dd <= 9,
                        val > (u64::MAX - dd) / 10,
                ;
                if all_digits(ds) {
                    lemma_dec_val_take_le(ds, i - start + 1);
                }
            }
            return None;
        }
        proof {
            lemma_dec_val_take_step(ds, i - start);
            assert(val * 10 + (b - 0x30) <= u64::MAX) by (nonlinear_arith)
                requires
                    0x30 <= b <= 0x39,
                    val <= (u64::MAX - (b - 0x30) as u64) / 10,
            ;
            assert(all_digits(ds.take(i - start + 1))) by {
                assert(forall|j: int|
                    0 <= j < i - start ==> #[trigger] ds.take(i - start + 1)[j] == ds.take(
                        i - start,
                    )[j]);
                assert(ds.take(i - start + 1)[i - start] == ds[i - start]);
            }
        }
        val = val * 10 + (b - 0x30) as u64;
        i = i + 1;
    }
    proof {
        assert(ds.take(i - start) =~= ds);
    }
    Some(val)
}

/// The UTF-8 bytes of a string, as an owned vector.
#[verifier::loop_isolation(false)]
pub fn utf8_bytes(s: &str) -> (r: Vec<u8>)
    ensures
        r@ == vstd::utf8::encode_utf8(s@),
{
    let bs = s.as_bytes();
    let mut v: Vec<u8> = Vec::new();
    let mut i: usize = 0;
    proof {
        assert(v@ =~= bs@.take(0));
    }
    while i < bs.len()
        invariant
            0 <= i <= bs@.len(),
            v@ == bs@.take(i as int),
        decreases bs@.len() - i,
    {
        v.push(bs[i]);
        proof {
            assert(v@ =~= bs@.take(i as int + 1));
        }
        i = i + 1;
    }
    proof {
        assert(bs@.take(bs@.len() as int) =~= bs@);
    }
    v
}

} // verus!
