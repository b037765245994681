use vstd::prelude::*;
use crate::ascii::{first_non_ws, end_of_non_ws, lemma_trim_scan, trim};
use crate::decimal::{
    dec_digits, digits_value, is_digit, lemma_dec_digits_value, parse_u64_range, spec_parse_u64,
};

verus! {

/// The counter a persisted-counter file's content denotes: its text trimmed
/// of ASCII whitespace and read as a decimal `u64`, and zero when that text
/// is malformed in any way. Reads degrade to zero by design; they never fail.
pub open spec fn spec_load_counter(content: Seq<u8>) -> u64 {
    match spec_parse_u64(trim(content)) {
        Some(v) => v,
        None => 0u64,
    }
}

/// Best-effort read of one persisted counter from file content: whitespace
/// around the number is ignored, and malformed content yields zero.
pub fn parse_counter(content: &[u8]) -> (r: u64)
    ensures
        r == spec_load_counter(content@),
{
    let i = first_non_ws(content, 0, content.len());
    let j = end_of_non_ws(content, i, content.len());
    proof {
        lemma_trim_scan(content@, i as int, j as int);
    }
    match parse_u64_range(content, i, j) {
        Some(v) => v,
        None => 0,
    }
}

/// Best-effort read of one persisted counter. `None` stands for a file that
/// is absent or unreadable; like malformed content, it yields zero rather
/// than an error, so a first run or a deleted state file never fails.
pub fn counter_from_content(content: Option<&[u8]>) -> (r: u64)
    ensures
        content is None ==> r == 0,
        content matches Some(c) ==> r == spec_load_counter(c@),
{
    match content {
        Some(c) => parse_counter(c),
        None => 0,
    }
}

/// The value a counter file's content denotes, with absence as zero.
pub open spec fn spec_counter_of(content: Option<Seq<u8>>) -> u64 {
    match content {
        Some(c) => spec_load_counter(c),
        None => 0u64,
    }
}

/// Law: storing a counter and loading it back yields the stored value, for
/// every `v`: the decimal text of `v` trims to itself and parses back to `v`.
pub proof fn lemma_counter_round_trip(v: u64)
    ensures
        spec_load_counter(dec_digits(v as int)) == v,
{
    lemma_dec_digits_value(v as int);
    let d = dec_digits(v as int);
    assert(is_digit(d[0]) && is_digit(d.last()));
    assert(trim(d) == d);
    assert(d[0] != 43);
    assert(spec_parse_u64(d) == Some((digits_value(d) as u64)));
}

} // verus!
