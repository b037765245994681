use vstd::prelude::*;

verus! {

/// An ASCII decimal digit.
pub open spec fn is_digit(b: u8) -> bool {
    48 <= b <= 57
}

/// Every byte of `s` is a decimal digit.
pub open spec fn all_digits(s: Seq<u8>) -> bool {
    forall|k: int| 0 <= k < s.len() ==> is_digit(s[k])
}

/// The number denoted by a sequence of decimal digit bytes (most significant
/// first); zero for the empty sequence.
pub open spec fn digits_value(s: Seq<u8>) -> int
    decreases s.len(),
{
    if s.len() == 0 {
        0
    } else {
        digits_value(s.drop_last()) * 10 + s.last() - 48
    }
}

/// What `parse::<u64>` yields on this text: an optional leading plus sign,
/// then one or more digits whose value fits in 64 bits; anything else fails.
pub open spec fn spec_parse_u64(s: Seq<u8>) -> Option<u64> {
    let d = if s.len() > 0 && s[0] == 43 {
        s.drop_first()
    } else {
        s
    };
    if d.len() > 0 && all_digits(d) && digits_value(d) <= u64::MAX {
        Some(digits_value(d) as u64)
    } else {
        None::<u64>
    }
}

/// The canonical decimal digit text of a non-negative number: no sign, no
/// leading zero except for the number zero itself.
pub open spec fn dec_digits(n: int) -> Seq<u8>
    decreases n,
{
    if n < 10 {
        seq![(48 + n) as u8]
    } else {
        dec_digits(n / 10) + seq![(48 + n % 10) as u8]
    }
}

/// A sequence of digits denotes a non-negative number.
pub proof fn lemma_digits_value_nonneg(s: Seq<u8>)
    requires
        all_digits(s),
    ensures
        digits_value(s) >= 0,
    decreases s.len(),
{
    if s.len() > 0 {
        lemma_digits_value_nonneg(s.drop_last());
        assert(digits_value(s.drop_last()) * 10 >= 0) by (nonlinear_arith)
            requires digits_value(s.drop_last()) >= 0;
    }
}

/// Extending digit text on the right can only grow its value.
pub proof fn lemma_digits_value_prefix(s: Seq<u8>, m: int)
    requires
        all_digits(s),
        0 <= m <= s.len(),
    ensures
        digits_value(s.take(m)) <= digits_value(s),
    decreases s.len() - m,
{
    assert(all_digits(s.take(m)));
    if m == s.len() {
        assert(s.take(m) =~= s);
    } else {
        assert(s.take(m + 1).drop_last() =~= s.take(m));
        assert(s.take(m + 1).last() == s[m]);
        lemma_digits_value_nonneg(s.take(m));
        assert(digits_value(s.take(m)) * 10 >= digits_value(s.take(m))) by (nonlinear_arith)
            requires digits_value(s.take(m)) >= 0;
        assert(digits_value(s.take(m + 1)) >= digits_value(s.take(m)));
        lemma_digits_value_prefix(s, m + 1);
    }
}

/// The decimal text of `n >= 0` is all digits, is nonempty, and denotes `n`.
pub proof fn lemma_dec_digits_value(n: int)
    requires
        n >= 0,
    ensures
        all_digits(dec_digits(n)),
        dec_digits(n).len() >= 1,
        digits_value(dec_digits(n)) == n,
    decreases n,
{
    if n < 10 {
        let d = dec_digits(n);
        assert(d.drop_last() =~= Seq::<u8>::empty());
        assert(digits_value(Seq::<u8>::empty()) == 0);
        assert(d.last() == (48 + n) as u8);
        assert(digits_value(d) == digits_value(d.drop_last()) * 10 + d.last() - 48);
    } else {
        lemma_dec_digits_value(n / 10);
        let d = dec_digits(n);
        assert(d.drop_last() =~= dec_digits(n / 10));
        assert(d.last() == (48 + n % 10) as u8);
        assert(digits_value(d) == (n / 10) * 10 + n % 10);
    }
}

/// `parse::<u64>` applied to the bytes of `s` in `[from, to)`.
pub fn parse_u64_range(s: &[u8], from: usize, to: usize) -> (r: Option<u64>)
    requires
        from <= to <= s@.len(),
    ensures
        r == spec_parse_u64(s@.subrange(from as int, to as int)),
{
    let ghost w = s@.subrange(from as int, to as int);
    if from == to {
        return None;
    }
    let mut i: usize = from;
    if s[i] == 43 {
        i = i + 1;
    }
    let ghost d = if w[0] == 43 {
        w.drop_first()
    } else {
        w
    };
    proof {
        assert(d =~= s@.subrange(i as int, to as int));
    }
    if i == to {
        return None;
    }
    let ghost start = i as int;
    let mut acc: u64 = 0;
    while i < to
        invariant
            0 <= from as int <= start <= i as int <= to <= s@.len(),
            w == s@.subrange(from as int, to as int),
            w.len() > 0,
            d == (if w[0] == 43 { w.drop_first() } else { w }),
            d == s@.subrange(start, to as int),
            d.len() == to - start,
            d.len() > 0,
            all_digits(d.take(i - start)),
            acc == digits_value(d.take(i - start)),
        decreases to - i,
    {
        let b = s[i];
        proof {
            assert(d[i - start] == b);
        }
        if b < 48 || b > 57 {
            assert(!all_digits(d));
            return None;
        }
        let dd = (b - 48) as u64;
        proof {
            assert(d.take(i - start + 1).drop_last() =~= d.take(i - start));
            assert(d.take(i - start + 1).last() == b);
            assert(digits_value(d.take(i - start + 1)) == acc * 10 + dd);
        }
        if acc > (u64::MAX - dd) / 10 {
            proof {
                assert(acc * 10 + dd > u64::MAX) by (nonlinear_arith)
                    requires
                        acc > (u64::MAX - dd) / 10,
                        dd <= 9,
                        acc >= 0,
                        u64::MAX == 0xffff_ffff_ffff_ffff;
                if all_digits(d) {
                    lemma_digits_value_prefix(d, i - start + 1);
                    assert(digits_value(d) > u64::MAX);
                }
            }
            return None;
        }
        proof {
            assert(acc * 10 + dd <= u64::MAX) by (nonlinear_arith)
                requires
                    acc <= (u64::MAX - dd) / 10,
                    dd <= 9,
                    acc >= 0,
                    u64::MAX == 0xffff_ffff_ffff_ffff;
        }
        acc = acc * 10 + dd;
        i = i + 1;
    }
    proof {
        assert(d.take(to - start) =~= d);
    }
    Some(acc)
}

/// Appends the decimal digit text of `n` to `out`.
pub fn push_decimal(n: u64, out: &mut Vec<u8>)
    ensures
        final(out)@ == old(out)@ + dec_digits(n as int),
    decreases n,
{
    if n < 10 {
        out.push(48 + (n as u8));
        proof {
            assert(old(out)@.push((48 + n as int) as u8) =~= old(out)@ + dec_digits(n as int));
        }
    } else {
        push_decimal(n / 10, out);
        out.push(48 + ((n % 10) as u8));
        proof {
            assert((old(out)@ + dec_digits(n as int / 10)).push((48 + n as int % 10) as u8)
                =~= old(out)@ + dec_digits(n as int));
        }
    }
}

/// The decimal text of a counter value, as persisted to a counter file.
pub fn render_counter(v: u64) -> (r: Vec<u8>)
    ensures
        r@ == dec_digits(v as int),
{
    let mut out: Vec<u8> = Vec::new();
    push_decimal(v, &mut out);
    proof {
        assert(Seq::<u8>::empty() + dec_digits(v as int) =~= dec_digits(v as int));
    }
    out
}

} // verus!
