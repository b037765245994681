use vstd::prelude::*;
use vstd::arithmetic::div_mod::lemma_div_is_ordered;
use crate::decimal::{dec_digits, digits_value, lemma_dec_digits_value, push_decimal};

verus! {

/// The scaled rendering of `v` in units of `unit`: the whole quotient in
/// decimal, and, unless the division is exact, a decimal point and the first
/// fractional digit, truncated (never rounded).
pub open spec fn spec_scaled(v: int, unit: int) -> Seq<u8> {
    if v % unit == 0 {
        dec_digits(v / unit)
    } else {
        dec_digits(v / unit) + seq![46u8, (48 + (v % unit) * 10 / unit) as u8]
    }
}

/// The formatter's output for a byte count. With scaling off it is the plain
/// decimal text. With scaling on, counts strictly above 1048576 are rendered
/// in units of 1048576 with the suffix `MB`, counts strictly above 1024 in
/// units of 1024 with the suffix `KB`, and all others as plain decimal with
/// the suffix `B`; a count exactly at a boundary falls in the lower tier.
pub open spec fn spec_format(v: u64, scaling: bool) -> Seq<u8> {
    if !scaling {
        dec_digits(v as int)
    } else if v > 1048576 {
        spec_scaled(v as int, 1048576) + seq![77u8, 66u8]
    } else if v > 1024 {
        spec_scaled(v as int, 1024) + seq![75u8, 66u8]
    } else {
        dec_digits(v as int) + seq![66u8]
    }
}

/// The one truncated fractional digit is indeed a single digit.
proof fn lemma_frac_digit(v: int, unit: int)
    requires
        v >= 0,
        unit == 1024 || unit == 1048576,
    ensures
        0 <= (v % unit) * 10 / unit <= 9,
{
    let r = v % unit;
    assert(0 <= r < unit);
    assert(r * 10 <= 10 * unit - 10);
    lemma_div_is_ordered(0, r * 10, unit);
    lemma_div_is_ordered(r * 10, 10 * unit - 10, unit);
    assert((10 * 1024 - 10) / 1024 == 9);
    assert((10 * 1048576 - 10) / 1048576 == 9);
}

/// Appends the scaled rendering of `v` in units of `unit` to `out`.
fn push_scaled(v: u64, unit: u64, out: &mut Vec<u8>)
    requires
        unit == 1024 || unit == 1048576,
    ensures
        final(out)@ == old(out)@ + spec_scaled(v as int, unit as int),
{
    let q = v / unit;
    let r = v % unit;
    push_decimal(q, out);
    if r != 0 {
        proof {
            lemma_frac_digit(v as int, unit as int);
        }
        let frac = (r * 10) / unit;
        out.push(46);
        out.push(48 + (frac as u8));
        proof {
            assert((old(out)@ + dec_digits(q as int)).push(46u8).push((48 + frac as int) as u8)
                =~= old(out)@ + spec_scaled(v as int, unit as int));
        }
    } else {
        proof {
            assert(old(out)@ + dec_digits(q as int) =~= old(out)@ + spec_scaled(
                v as int,
                unit as int,
            ));
        }
    }
}

/// Renders a byte count, either as plain decimal text or scaled into `B`,
/// `KB` or `MB` per `spec_format`.
pub fn format_bytes(v: u64, scaling: bool) -> (r: Vec<u8>)
    ensures
        r@ == spec_format(v, scaling),
{
    let mut out: Vec<u8> = Vec::new();
    if !scaling {
        push_decimal(v, &mut out);
        proof {
            assert(Seq::<u8>::empty() + dec_digits(v as int) =~= spec_format(v, scaling));
        }
    } else if v > 1048576 {
        push_scaled(v, 1048576, &mut out);
        out.push(77);
        out.push(66);
        proof {
            assert((Seq::<u8>::empty() + spec_scaled(v as int, 1048576)).push(77u8).push(66u8)
                =~= spec_format(v, scaling));
        }
    } else if v > 1024 {
        push_scaled(v, 1024, &mut out);
        out.push(75);
        out.push(66);
        proof {
            assert((Seq::<u8>::empty() + spec_scaled(v as int, 1024)).push(75u8).push(66u8)
                =~= spec_format(v, scaling));
        }
    } else {
        push_decimal(v, &mut out);
        out.push(66);
        proof {
            assert((Seq::<u8>::empty() + dec_digits(v as int)).push(66u8) =~= spec_format(
                v,
                scaling,
            ));
        }
    }
    out
}

/// Law: with scaling disabled the formatter output is exactly the decimal
/// text of the input, and that text denotes the input value itself.
pub proof fn lemma_format_plain_is_decimal(v: u64)
    ensures
        spec_format(v, false) == dec_digits(v as int),
        digits_value(spec_format(v, false)) == v,
{
    lemma_dec_digits_value(v as int);
}

/// Every byte of a formatter output is ASCII: digits, a decimal point, and
/// the suffix letters `B`, `K`, `M`.
pub proof fn lemma_format_ascii(v: u64, scaling: bool)
    ensures
        forall|k: int| 0 <= k < spec_format(v, scaling).len() ==> spec_format(v, scaling)[k] < 128,
{
    lemma_dec_digits_value(v as int);
    lemma_dec_digits_value(v as int / 1024);
    lemma_dec_digits_value(v as int / 1048576);
    lemma_frac_digit(v as int, 1024);
    lemma_frac_digit(v as int, 1048576);
    assert forall|k: int|
        0 <= k < spec_format(v, scaling).len() implies spec_format(v, scaling)[k] < 128 by {
        let s = spec_format(v, scaling);
        if scaling && v > 1048576 {
            let d = spec_scaled(v as int, 1048576);
            if k < d.len() {
                assert(s[k] == d[k]);
            }
        } else if scaling && v > 1024 {
            let d = spec_scaled(v as int, 1024);
            if k < d.len() {
                assert(s[k] == d[k]);
            }
        }
    }
}

/// The characters of ASCII bytes, one per byte.
pub open spec fn ascii_chars(s: Seq<u8>) -> Seq<char> {
    s.map_values(|b: u8| b as char)
}

/// Relies on alloc's `String::from_utf8`: bytes that are all ASCII are valid
/// UTF-8 and decode to the string whose characters are exactly those bytes.
#[verifier::external_body]
fn ascii_to_string(v: Vec<u8>) -> (r: String)
    requires
        forall|k: int| 0 <= k < v@.len() ==> v@[k] < 128,
    ensures
        r@.len() == v@.len(),
        forall|k: int| 0 <= k < v@.len() ==> r@[k] == v@[k] as char,
{
    match String::from_utf8(v) {
        Ok(s) => s,
        Err(_) => String::new(),
    }
}

/// Renders a byte count as a `String`, either plain decimal or scaled into
/// `B`, `KB` or `MB` per `spec_format`.
pub fn format_bytes_string(v: u64, scaling: bool) -> (r: String)
    ensures
        r@ == ascii_chars(spec_format(v, scaling)),
{
    let bytes = format_bytes(v, scaling);
    proof {
        lemma_format_ascii(v, scaling);
    }
    let s = ascii_to_string(bytes);
    proof {
        assert(s@ =~= ascii_chars(spec_format(v, scaling)));
    }
    s
}

} // verus!
