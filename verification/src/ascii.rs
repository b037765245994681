use vstd::prelude::*;

verus! {

/// ASCII whitespace: space, tab, line feed, form feed, carriage return.
pub open spec fn is_ws(b: u8) -> bool {
    b == 32 || b == 9 || b == 10 || b == 12 || b == 13
}

/// Executable ASCII whitespace test.
pub fn is_ws_byte(b: u8) -> (r: bool)
    ensures
        r == is_ws(b),
{
    b == 32 || b == 9 || b == 10 || b == 12 || b == 13
}

/// `s` begins with the prefix `p`.
pub open spec fn starts_with(s: Seq<u8>, p: Seq<u8>) -> bool {
    p.len() <= s.len() && s.subrange(0, p.len() as int) == p
}

/// Leading ASCII whitespace removed.
pub open spec fn trim_start(s: Seq<u8>) -> Seq<u8>
    decreases s.len(),
{
    if s.len() == 0 || !is_ws(s[0]) {
        s
    } else {
        trim_start(s.drop_first())
    }
}

/// Trailing ASCII whitespace removed.
pub open spec fn trim_end(s: Seq<u8>) -> Seq<u8>
    decreases s.len(),
{
    if s.len() == 0 || !is_ws(s.last()) {
        s
    } else {
        trim_end(s.drop_last())
    }
}

/// ASCII whitespace removed from both ends.
pub open spec fn trim(s: Seq<u8>) -> Seq<u8> {
    trim_end(trim_start(s))
}

/// The ASCII-whitespace-separated words of `s`, in order, each maximal and
/// nonempty.
pub open spec fn tokens(s: Seq<u8>) -> Seq<Seq<u8>>
    decreases s.len(),
{
    if s.len() == 0 {
        Seq::empty()
    } else if is_ws(s[0]) {
        tokens(s.drop_first())
    } else {
        let rest = tokens(s.drop_first());
        if s.len() >= 2 && !is_ws(s[1]) {
            seq![seq![s[0]] + rest[0]] + rest.drop_first()
        } else {
            seq![seq![s[0]]] + rest
        }
    }
}

/// The lines of `s`, split on line feed; text after the final line feed
/// forms a line only when it is nonempty, so a table ending in a line feed
/// has no trailing empty line.
pub open spec fn split_lines(s: Seq<u8>) -> Seq<Seq<u8>>
    decreases s.len(),
{
    if s.len() == 0 {
        Seq::empty()
    } else if s[0] == 10 {
        seq![Seq::<u8>::empty()] + split_lines(s.drop_first())
    } else {
        let rest = split_lines(s.drop_first());
        if rest.len() == 0 {
            seq![seq![s[0]]]
        } else {
            seq![seq![s[0]] + rest[0]] + rest.drop_first()
        }
    }
}

/// A scan that saw only whitespace before `i` and stopped at `i` has found
/// where `trim_start` begins.
pub proof fn lemma_trim_start_scan(s: Seq<u8>, i: int)
    requires
        0 <= i <= s.len(),
        forall|k: int| 0 <= k < i ==> is_ws(s[k]),
        i == s.len() || !is_ws(s[i]),
    ensures
        trim_start(s) == s.skip(i),
    decreases i,
{
    if i == 0 {
        assert(s.skip(0) =~= s);
    } else {
        lemma_trim_start_scan(s.drop_first(), i - 1);
        assert(s.drop_first().skip(i - 1) =~= s.skip(i));
    }
}

/// A scan that saw only whitespace from `j` on has found where `trim_end`
/// ends.
pub proof fn lemma_trim_end_scan(s: Seq<u8>, j: int)
    requires
        0 <= j <= s.len(),
        forall|k: int| j <= k < s.len() ==> is_ws(s[k]),
        j == 0 || !is_ws(s[j - 1]),
    ensures
        trim_end(s) == s.take(j),
    decreases s.len() - j,
{
    if j == s.len() {
        assert(s.take(j) =~= s);
    } else {
        assert(is_ws(s.last()));
        lemma_trim_end_scan(s.drop_last(), j);
        assert(s.drop_last().take(j) =~= s.take(j));
    }
}

/// Whitespace bounds found by scanning both ends locate the trimmed content.
pub proof fn lemma_trim_scan(s: Seq<u8>, i: int, j: int)
    requires
        0 <= i <= j <= s.len(),
        forall|k: int| 0 <= k < i ==> is_ws(s[k]),
        forall|k: int| j <= k < s.len() ==> is_ws(s[k]),
        i == s.len() || !is_ws(s[i]),
        j == i || !is_ws(s[j - 1]),
    ensures
        trim(s) == s.subrange(i, j),
{
    lemma_trim_start_scan(s, i);
    let t = s.skip(i);
    assert forall|k: int| j - i <= k < t.len() implies is_ws(t[k]) by {
        assert(t[k] == s[k + i]);
    }
    lemma_trim_end_scan(t, j - i);
    assert(t.take(j - i) =~= s.subrange(i, j));
}

/// Skipping one whitespace byte does not change the token list.
pub proof fn lemma_tokens_ws(s: Seq<u8>)
    requires
        s.len() > 0,
        is_ws(s[0]),
    ensures
        tokens(s) == tokens(s.skip(1)),
{
    assert(s.drop_first() =~= s.skip(1));
}

/// A maximal nonempty run of non-whitespace at the front of `s` is its first
/// token, and the remaining tokens are those of the rest.
pub proof fn lemma_tokens_word(s: Seq<u8>, j: int)
    requires
        1 <= j <= s.len(),
        forall|k: int| 0 <= k < j ==> !is_ws(s[k]),
        j == s.len() || is_ws(s[j]),
    ensures
        tokens(s) == seq![s.take(j)] + tokens(s.skip(j)),
    decreases j,
{
    if j == 1 {
        assert(seq![s[0]] =~= s.take(1));
        assert(s.drop_first() =~= s.skip(1));
        assert(tokens(s) == seq![seq![s[0]]] + tokens(s.drop_first()));
        assert(tokens(s) =~= seq![s.take(1)] + tokens(s.skip(1)));
    } else {
        let d = s.drop_first();
        assert(d[0] == s[1] && !is_ws(s[1]));
        assert forall|k: int| 0 <= k < j - 1 implies !is_ws(d[k]) by {
            assert(d[k] == s[k + 1]);
        }
        assert(j - 1 == d.len() || is_ws(d[j - 1]));
        lemma_tokens_word(d, j - 1);
        let rest = tokens(d);
        assert(rest == seq![d.take(j - 1)] + tokens(d.skip(j - 1)));
        assert(rest[0] == d.take(j - 1));
        assert(seq![s[0]] + d.take(j - 1) =~= s.take(j));
        assert(rest.drop_first() =~= tokens(d.skip(j - 1)));
        assert(d.skip(j - 1) =~= s.skip(j));
        assert(tokens(s) == seq![seq![s[0]] + rest[0]] + rest.drop_first());
        assert(tokens(s) =~= seq![s.take(j)] + tokens(s.skip(j)));
    }
}

/// The first line of a nonempty `s` runs to the first line feed (or to the
/// end); the remaining lines are those of what follows that line feed.
pub proof fn lemma_split_lines_head(s: Seq<u8>, j: int)
    requires
        s.len() > 0,
        0 <= j <= s.len(),
        forall|k: int| 0 <= k < j ==> s[k] != 10,
        j == s.len() || s[j] == 10,
    ensures
        split_lines(s) == seq![s.take(j)] + (if j < s.len() {
            split_lines(s.skip(j + 1))
        } else {
            Seq::<Seq<u8>>::empty()
        }),
    decreases j,
{
    if j == 0 {
        assert(s[0] == 10);
        assert(s.take(0) =~= Seq::<u8>::empty());
        assert(s.drop_first() =~= s.skip(1));
    } else {
        let d = s.drop_first();
        let rest = split_lines(d);
        if d.len() == 0 {
            assert(j == 1 && j == s.len());
            assert(rest == Seq::<Seq<u8>>::empty());
            assert(seq![s[0]] =~= s.take(1));
            assert(split_lines(s) =~= seq![s.take(j)]);
        } else {
            assert forall|k: int| 0 <= k < j - 1 implies d[k] != 10 by {
                assert(d[k] == s[k + 1]);
            }
            assert(j - 1 == d.len() || d[j - 1] == 10);
            lemma_split_lines_head(d, j - 1);
            if j == s.len() {
                assert(rest == seq![d.take(j - 1)]);
                assert(rest.len() == 1);
                assert(rest[0] == d.take(j - 1));
                assert(seq![s[0]] + d.take(j - 1) =~= s.take(j));
                assert(rest.drop_first() =~= Seq::<Seq<u8>>::empty());
                assert(split_lines(s) =~= seq![s.take(j)]);
            } else {
                assert(rest == seq![d.take(j - 1)] + split_lines(d.skip(j)));
                assert(rest.len() >= 1);
                assert(rest[0] == d.take(j - 1));
                assert(seq![s[0]] + d.take(j - 1) =~= s.take(j));
                assert(rest.drop_first() =~= split_lines(d.skip(j)));
                assert(d.skip(j) =~= s.skip(j + 1));
                assert(split_lines(s) =~= seq![s.take(j)] + split_lines(s.skip(j + 1)));
            }
        }
    }
}

/// First index at or after `from` (and before `to`) holding a byte that is
/// not ASCII whitespace, or `to` when there is none.
pub fn first_non_ws(s: &[u8], from: usize, to: usize) -> (r: usize)
    requires
        from <= to <= s@.len(),
    ensures
        from <= r <= to,
        forall|k: int| from <= k < r ==> is_ws(s@[k]),
        r == to || !is_ws(s@[r as int]),
{
    let mut i: usize = from;
    while i < to
        invariant
            from <= i <= to <= s@.len(),
            forall|k: int| from <= k < i ==> is_ws(s@[k]),
        decreases to - i,
    {
        if !is_ws_byte(s[i]) {
            return i;
        }
        i = i + 1;
    }
    i
}

/// One past the last index in `[from, to)` holding a byte that is not ASCII
/// whitespace, or `from` when there is none.
pub fn end_of_non_ws(s: &[u8], from: usize, to: usize) -> (r: usize)
    requires
        from <= to <= s@.len(),
    ensures
        from <= r <= to,
        forall|k: int| r <= k < to ==> is_ws(s@[k]),
        r == from || !is_ws(s@[r - 1]),
{
    let mut j: usize = to;
    while j > from
        invariant
            from <= j <= to <= s@.len(),
            forall|k: int| j <= k < to ==> is_ws(s@[k]),
        decreases j,
    {
        if !is_ws_byte(s[j - 1]) {
            return j;
        }
        j = j - 1;
    }
    j
}

/// Whether the bytes of `s` in `[from, to)` begin with `p`.
pub fn range_starts_with(s: &[u8], from: usize, to: usize, p: &[u8]) -> (r: bool)
    requires
        from <= to <= s@.len(),
    ensures
        r == starts_with(s@.subrange(from as int, to as int), p@),
{
    let n = p.len();
    if n > to - from {
        return false;
    }
    let mut k: usize = 0;
    while k < n
        invariant
            0 <= k <= n == p@.len(),
            n <= to - from,
            from <= to <= s@.len(),
            forall|m: int| 0 <= m < k ==> s@[from + m] == p@[m],
        decreases n - k,
    {
        if s[from + k] != p[k] {
            assert(s@.subrange(from as int, to as int)[k as int] != p@[k as int]);
            return false;
        }
        k = k + 1;
    }
    assert(s@.subrange(from as int, to as int).subrange(0, n as int) =~= p@);
    true
}

} // verus!
