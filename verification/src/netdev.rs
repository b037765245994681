use vstd::prelude::*;
use crate::ascii::{
    end_of_non_ws, first_non_ws, is_ws, is_ws_byte, lemma_split_lines_head, lemma_tokens_word,
    lemma_tokens_ws, lemma_trim_scan, range_starts_with, split_lines, starts_with, tokens, trim,
};
use crate::counters::ByteState;
use crate::decimal::{parse_u64_range, spec_parse_u64};

verus! {

/// Why reading an interface's counters from the kernel statistics table
/// failed.
#[derive(Clone, Copy, Debug, PartialEq, Eq, Structural)]
pub enum ParseError {
    /// The statistics source itself could not be opened or read.
    SourceUnavailable,
    /// No line of the table is for the requested interface.
    DeviceNotFound,
    /// The matched line has too few whitespace-separated fields.
    TooFewFields,
    /// A counter field does not parse as a non-negative 64-bit decimal.
    BadField,
}

/// The first line whose content, trimmed of ASCII whitespace, starts with
/// the interface name.
pub open spec fn find_line(ls: Seq<Seq<u8>>, dev: Seq<u8>) -> Option<Seq<u8>>
    decreases ls.len(),
{
    if ls.len() == 0 {
        None::<Seq<u8>>
    } else if starts_with(trim(ls[0]), dev) {
        Some(ls[0])
    } else {
        find_line(ls.drop_first(), dev)
    }
}

/// The counters a matched table line denotes. The fields are the line's
/// ASCII-whitespace-separated tokens; the token at index 1 is the received
/// byte counter and the token at index 9 the sent one — the conventional
/// rx-bytes and tx-bytes columns, a fixed position contract. The received
/// field is examined before the field count reaches ten, so a bad received
/// field is reported even on a short line, as the sequential field scan has
/// it.
pub open spec fn parse_line(line: Seq<u8>) -> Result<ByteState, ParseError> {
    let ts = tokens(line);
    if ts.len() < 2 {
        Err(ParseError::TooFewFields)
    } else if spec_parse_u64(ts[1]) is None {
        Err(ParseError::BadField)
    } else if ts.len() < 10 {
        Err(ParseError::TooFewFields)
    } else if spec_parse_u64(ts[9]) is None {
        Err(ParseError::BadField)
    } else {
        Ok(ByteState {
            recv: spec_parse_u64(ts[1])->Some_0,
            send: spec_parse_u64(ts[9])->Some_0,
        })
    }
}

/// What reading the named interface's counters from the full table text
/// yields: the first line for the interface, parsed, or `DeviceNotFound`.
pub open spec fn spec_read_counters(table: Seq<u8>, dev: Seq<u8>) -> Result<ByteState, ParseError> {
    match find_line(split_lines(table), dev) {
        Some(line) => parse_line(line),
        None => Err(ParseError::DeviceNotFound),
    }
}

/// Parses the counters of the line at `[ls, le)` of `s`.
fn parse_line_range(s: &[u8], ls: usize, le: usize) -> (r: Result<ByteState, ParseError>)
    requires
        ls <= le <= s@.len(),
    ensures
        r == parse_line(s@.subrange(ls as int, le as int)),
{
    let ghost line = s@.subrange(ls as int, le as int);
    let mut i: usize = ls;
    let mut count: usize = 0;
    let mut recv: u64 = 0;
    let ghost mut toks: Seq<Seq<u8>> = Seq::empty();
    proof {
        assert(line.skip(0) =~= line);
        assert(toks + tokens(line) =~= tokens(line));
    }
    while i < le
        invariant
            ls <= i <= le <= s@.len(),
            line == s@.subrange(ls as int, le as int),
            count == toks.len(),
            count <= 9,
            tokens(line) == toks + tokens(line.skip(i - ls)),
            count >= 2 ==> spec_parse_u64(toks[1]) == Some(recv),
        decreases le - i,
    {
        let ghost off = i - ls;
        proof {
            assert(line.skip(off)[0] == line[off]);
            assert(line[off] == s@[i as int]);
        }
        if is_ws_byte(s[i]) {
            proof {
                lemma_tokens_ws(line.skip(off));
                assert(line.skip(off).skip(1) =~= line.skip(off + 1));
            }
            i = i + 1;
        } else {
            let mut j: usize = i + 1;
            while j < le && !is_ws_byte(s[j])
                invariant
                    ls <= i < j <= le <= s@.len(),
                    line == s@.subrange(ls as int, le as int),
                    forall|k: int| i <= k < j ==> !is_ws(s@[k]),
                decreases le - j,
            {
                j = j + 1;
            }
            let ghost rem = line.skip(off);
            let ghost word = s@.subrange(i as int, j as int);
            proof {
                assert(rem.len() == le - i);
                assert forall|k: int| 0 <= k < j - i implies !is_ws(rem[k]) by {
                    assert(rem[k] == s@[i + k]);
                }
                if j < le {
                    assert(rem[j - i] == s@[j as int]);
                }
                lemma_tokens_word(rem, j - i);
                assert(rem.take(j - i) =~= word);
                assert(rem.skip(j - i) =~= line.skip(j - ls));
                assert(tokens(line) == toks + (seq![word] + tokens(line.skip(j - ls))));
                assert(toks + (seq![word] + tokens(line.skip(j - ls))) =~= (toks.push(word))
                    + tokens(line.skip(j - ls)));
            }
            if count == 1 {
                match parse_u64_range(s, i, j) {
                    Some(v) => {
                        recv = v;
                    },
                    None => {
                        proof {
                            let ts = tokens(line);
                            assert(ts.len() >= 2);
                            assert(ts[1] == word);
                        }
                        return Err(ParseError::BadField);
                    },
                }
            } else if count == 9 {
                let parsed = parse_u64_range(s, i, j);
                proof {
                    let ts = tokens(line);
                    assert(ts.len() >= 10);
                    assert(ts[9] == word);
                    assert(ts[1] == toks[1]);
                }
                match parsed {
                    Some(v) => {
                        return Ok(ByteState { recv, send: v });
                    },
                    None => {
                        return Err(ParseError::BadField);
                    },
                }
            }
            proof {
                toks = toks.push(word);
            }
            count = count + 1;
            i = j;
        }
    }
    proof {
        assert(line.skip(le - ls) =~= Seq::<u8>::empty());
        assert(tokens(Seq::<u8>::empty()) =~= Seq::<Seq<u8>>::empty());
        assert(toks + Seq::<Seq<u8>>::empty() =~= toks);
        assert(tokens(line) == toks);
        if count >= 2 {
            assert(tokens(line)[1] == toks[1]);
        }
    }
    Err(ParseError::TooFewFields)
}

/// Reads the named interface's cumulative byte counters out of the full text
/// of the kernel interface-statistics table: the first line whose trimmed
/// content starts with the interface name is parsed, taking the fields at
/// positions 1 and 9 of the whitespace-split line as the received and sent
/// byte counts.
pub fn read_counters(table: &[u8], dev: &[u8]) -> (r: Result<ByteState, ParseError>)
    ensures
        r == spec_read_counters(table@, dev@),
{
    let n = table.len();
    let mut pos: usize = 0;
    proof {
        assert(table@.skip(0) =~= table@);
    }
    while pos < n
        invariant
            pos <= n == table@.len(),
            spec_read_counters(table@, dev@) == (match find_line(
                split_lines(table@.skip(pos as int)),
                dev@,
            ) {
                Some(line) => parse_line(line),
                None => Err::<ByteState, ParseError>(ParseError::DeviceNotFound),
            }),
        decreases n - pos,
    {
        let mut e: usize = pos;
        while e < n && table[e] != 10
            invariant
                pos <= e <= n == table@.len(),
                forall|k: int| pos <= k < e ==> table@[k] != 10,
            decreases n - e,
        {
            e = e + 1;
        }
        let ghost rem = table@.skip(pos as int);
        let ghost line = table@.subrange(pos as int, e as int);
        proof {
            assert forall|k: int| 0 <= k < e - pos implies rem[k] != 10 by {
                assert(rem[k] == table@[pos + k]);
            }
            if e < n {
                assert(rem[e - pos] == table@[e as int]);
            }
            lemma_split_lines_head(rem, e - pos);
            assert(rem.take(e - pos) =~= line);
        }
        let i0 = first_non_ws(table, pos, e);
        let j0 = end_of_non_ws(table, i0, e);
        proof {
            assert forall|k: int| 0 <= k < i0 - pos implies is_ws(line[k]) by {
                assert(line[k] == table@[pos + k]);
            }
            assert forall|k: int| j0 - pos <= k < line.len() implies is_ws(line[k]) by {
                assert(line[k] == table@[pos + k]);
            }
            if (i0 as int) < e {
                assert(line[i0 - pos] == table@[i0 as int]);
            }
            if (j0 as int) > (i0 as int) {
                assert(line[j0 - pos - 1] == table@[j0 - 1]);
            }
            lemma_trim_scan(line, i0 - pos, j0 - pos);
            assert(line.subrange(i0 - pos, j0 - pos) =~= table@.subrange(i0 as int, j0 as int));
        }
        if range_starts_with(table, i0, j0, dev) {
            proof {
                assert(split_lines(rem)[0] == line);
                assert(find_line(split_lines(rem), dev@) == Some(line));
            }
            return parse_line_range(table, pos, e);
        }
        proof {
            assert(split_lines(rem)[0] == line);
            assert(!starts_with(trim(line), dev@));
        }
        if e == n {
            proof {
                assert(split_lines(rem) =~= seq![line]);
                assert(split_lines(rem).drop_first() =~= Seq::<Seq<u8>>::empty());
                assert(find_line(Seq::<Seq<u8>>::empty(), dev@) is None);
                assert(find_line(split_lines(rem), dev@) is None);
            }
            return Err(ParseError::DeviceNotFound);
        }
        proof {
            let rest = split_lines(rem.skip(e + 1 - pos));
            assert(split_lines(rem) == seq![line] + rest);
            assert((seq![line] + rest).drop_first() =~= rest);
            assert(rem.skip(e + 1 - pos) =~= table@.skip(e + 1));
        }
        pos = e + 1;
    }
    proof {
        assert(table@.skip(pos as int) =~= Seq::<u8>::empty());
    }
    Err(ParseError::DeviceNotFound)
}

} // verus!
