//! Byte-level text utilities shared by the address parser and the
//! discovery path: ASCII whitespace trimming and separator splitting,
//! each with a specification-level definition that the executable
//! routines are proved to implement.

use vstd::prelude::*;

verus! {

/// ASCII whitespace: space, tab, line feed, carriage return.
pub open spec fn is_ascii_ws(b: u8) -> bool {
    b == 32 || b == 9 || b == 10 || b == 13
}

/// The sequence with leading ASCII whitespace removed.
pub open spec fn trim_start_bytes(s: Seq<u8>) -> Seq<u8>
    decreases s.len(),
{
    if s.len() > 0 && is_ascii_ws(s[0]) {
        trim_start_bytes(s.skip(1))
    } else {
        s
    }
}

/// The sequence with trailing ASCII whitespace removed.
pub open spec fn trim_end_bytes(s: Seq<u8>) -> Seq<u8>
    decreases s.len(),
{
    if s.len() > 0 && is_ascii_ws(s.last()) {
        trim_end_bytes(s.drop_last())
    } else {
        s
    }
}

/// The sequence with surrounding ASCII whitespace removed.
pub open spec fn trim_bytes(s: Seq<u8>) -> Seq<u8> {
    trim_end_bytes(trim_start_bytes(s))
}

proof fn lemma_trim_start_at(s: Seq<u8>, i: int)
    requires
        0 <= i <= s.len(),
        forall|j: int| 0 <= j < i ==> is_ascii_ws(s[j]),
        i == s.len() || !is_ascii_ws(s[i]),
    ensures
        trim_start_bytes(s) == s.skip(i),
    decreases i,
{
    if i == 0 {
        assert(s.skip(0) =~= s);
    } else {
        lemma_trim_start_at(s.skip(1), i - 1);
        assert(s.skip(1).skip(i - 1) =~= s.skip(i));
    }
}

proof fn lemma_trim_end_at(s: Seq<u8>, k: int)
    requires
        0 <= k <= s.len(),
        forall|j: int| k <= j < s.len() ==> is_ascii_ws(s[j]),
        k == 0 || !is_ascii_ws(s[k - 1]),
    ensures
        trim_end_bytes(s) == s.take(k),
    decreases s.len(),
{
    if s.len() > k {
        lemma_trim_end_at(s.drop_last(), k);
        assert(s.drop_last().take(k) =~= s.take(k));
    } else {
        assert(s.take(k) =~= s);
    }
}

fn is_ws_byte(b: u8) -> (r: bool)
    ensures
        r == is_ascii_ws(b),
{
    b == 32 || b == 9 || b == 10 || b == 13
}

/// Removes surrounding ASCII whitespace from a byte string.
pub fn trim_ascii(s: &[u8]) -> (r: Vec<u8>)
    ensures
        r@ == trim_bytes(s@),
{
    let mut lo: usize = 0;
    while lo < s.len() && is_ws_byte(s[lo])
        invariant
            0 <= lo <= s@.len(),
            forall|j: int| 0 <= j < lo ==> is_ascii_ws(s@[j]),
        decreases s@.len() - lo,
    {
        lo = lo + 1;
    }
    proof {
        lemma_trim_start_at(s@, lo as int);
    }
    let mut hi: usize = s.len();
    while hi > lo && is_ws_byte(s[hi - 1])
        invariant
            lo <= hi <= s@.len(),
            forall|j: int| hi <= j < s@.len() ==> is_ascii_ws(s@[j]),
        decreases hi,
    {
        hi = hi - 1;
    }
    proof {
        let t = s@.skip(lo as int);
        lemma_trim_end_at(t, hi - lo);
        assert(t.take(hi - lo) =~= s@.subrange(lo as int, hi as int));
    }
    let mut r: Vec<u8> = Vec::new();
    let mut j: usize = lo;
    while j < hi
        invariant
            lo <= j <= hi <= s@.len(),
            r@ == s@.subrange(lo as int, j as int),
        decreases hi - j,
    {
        r.push(s[j]);
        j = j + 1;
        proof {
            assert(s@.subrange(lo as int, j as int) =~= s@.subrange(lo as int, j - 1).push(
                s@[j - 1],
            ));
        }
    }
    r
}

/// Splits a byte string at every occurrence of `sep`, keeping empty
/// pieces, as `str::split` does for a one-character pattern: the result
/// has one piece more than the string has separators.
pub open spec fn split_bytes(s: Seq<u8>, sep: u8) -> Seq<Seq<u8>>
    decreases s.len(),
{
    if s.len() == 0 {
        seq![Seq::<u8>::empty()]
    } else if s[0] == sep {
        seq![Seq::<u8>::empty()] + split_bytes(s.skip(1), sep)
    } else {
        let rest = split_bytes(s.skip(1), sep);
        seq![seq![s[0]] + rest[0]] + rest.skip(1)
    }
}

/// Joins pieces with the separator; the inverse of `split_bytes`.
pub open spec fn join_bytes(ps: Seq<Seq<u8>>, sep: u8) -> Seq<u8>
    decreases ps.len(),
{
    if ps.len() == 0 {
        Seq::<u8>::empty()
    } else if ps.len() == 1 {
        ps[0]
    } else {
        ps[0] + seq![sep] + join_bytes(ps.skip(1), sep)
    }
}

pub proof fn lemma_split_len(s: Seq<u8>, sep: u8)
    ensures
        split_bytes(s, sep).len() >= 1,
    decreases s.len(),
{
    if s.len() > 0 {
        lemma_split_len(s.skip(1), sep);
    }
}

/// Splitting a separator-free string yields the string as its one piece.
pub proof fn lemma_split_no_sep(s: Seq<u8>, sep: u8)
    requires
        forall|i: int| 0 <= i < s.len() ==> s[i] != sep,
    ensures
        split_bytes(s, sep) == seq![s],
    decreases s.len(),
{
    if s.len() == 0 {
        assert(split_bytes(s, sep) =~~= seq![s]);
    } else {
        assert(forall|i: int| 0 <= i < s.skip(1).len() ==> s.skip(1)[i] != sep);
        lemma_split_no_sep(s.skip(1), sep);
        let rest = split_bytes(s.skip(1), sep);
        assert(rest[0] == s.skip(1));
        assert(seq![s[0]] + rest[0] =~= s);
        assert(split_bytes(s, sep) =~~= seq![s]);
    }
}

/// Splitting `x ++ sep ++ y` where `x` is separator-free peels off `x`.
pub proof fn lemma_split_prefix(x: Seq<u8>, y: Seq<u8>, sep: u8)
    requires
        forall|i: int| 0 <= i < x.len() ==> x[i] != sep,
    ensures
        split_bytes(x + seq![sep] + y, sep) == seq![x] + split_bytes(y, sep),
    decreases x.len(),
{
    let s = x + seq![sep] + y;
    assert(s.len() == x.len() + 1 + y.len());
    if x.len() == 0 {
        assert(s[0] == sep);
        assert(s.skip(1) =~= y);
        assert(split_bytes(s, sep) == seq![Seq::<u8>::empty()] + split_bytes(y, sep));
        assert(seq![Seq::<u8>::empty()] + split_bytes(y, sep) =~~= seq![x] + split_bytes(y, sep));
    } else {
        assert(s[0] == x[0]);
        assert(x[0] != sep);
        assert(s.skip(1) =~= x.skip(1) + seq![sep] + y);
        assert(forall|i: int| 0 <= i < x.skip(1).len() ==> x.skip(1)[i] != sep);
        lemma_split_prefix(x.skip(1), y, sep);
        let rest = split_bytes(s.skip(1), sep);
        assert(rest == seq![x.skip(1)] + split_bytes(y, sep));
        lemma_split_len(y, sep);
        assert(rest[0] == x.skip(1));
        assert(seq![s[0]] + rest[0] =~= x);
        assert(rest.skip(1) =~~= split_bytes(y, sep));
        assert(split_bytes(s, sep) == seq![seq![s[0]] + rest[0]] + rest.skip(1));
        assert(seq![seq![s[0]] + rest[0]] + rest.skip(1) =~~= seq![x] + split_bytes(y, sep));
    }
}

/// Joining the pieces of a split restores the original string.
pub proof fn lemma_join_split(s: Seq<u8>, sep: u8)
    ensures
        join_bytes(split_bytes(s, sep), sep) == s,
    decreases s.len(),
{
    if s.len() == 0 {
    } else if s[0] == sep {
        lemma_join_split(s.skip(1), sep);
        lemma_split_len(s.skip(1), sep);
        let rest = split_bytes(s.skip(1), sep);
        let ps = split_bytes(s, sep);
        assert(ps == seq![Seq::<u8>::empty()] + rest);
        assert(ps.len() >= 2);
        assert(ps[0] == Seq::<u8>::empty());
        assert(ps.skip(1) =~~= rest);
        assert(join_bytes(ps, sep) == ps[0] + seq![sep] + join_bytes(rest, sep));
        assert(ps[0] + seq![sep] + s.skip(1) =~= s);
    } else {
        lemma_join_split(s.skip(1), sep);
        lemma_split_len(s.skip(1), sep);
        let rest = split_bytes(s.skip(1), sep);
        let ps = split_bytes(s, sep);
        assert(ps == seq![seq![s[0]] + rest[0]] + rest.skip(1));
        if rest.len() == 1 {
            assert(join_bytes(rest, sep) == rest[0]);
            assert(ps.len() == 1);
            assert(join_bytes(ps, sep) == ps[0]);
            assert(ps[0] == seq![s[0]] + rest[0]);
            assert(seq![s[0]] + s.skip(1) =~= s);
        } else {
            assert(ps.len() >= 2);
            assert(ps[0] == seq![s[0]] + rest[0]);
            assert(ps.skip(1) =~~= rest.skip(1));
            assert(join_bytes(ps, sep) == ps[0] + seq![sep] + join_bytes(rest.skip(1), sep));
            assert(join_bytes(rest, sep) == rest[0] + seq![sep] + join_bytes(rest.skip(1), sep));
            assert(rest[0] + seq![sep] + join_bytes(rest.skip(1), sep) == s.skip(1));
            assert(seq![s[0]] + rest[0] + seq![sep] + join_bytes(rest.skip(1), sep) =~= seq![s[0]]
                + s.skip(1));
            assert(seq![s[0]] + s.skip(1) =~= s);
        }
    }
}

/// The piece views of an executable split result.
pub open spec fn views_of(ps: Seq<Vec<u8>>) -> Seq<Seq<u8>> {
    ps.map_values(|p: Vec<u8>| p@)
}

/// One partially assembled piece followed by the remaining pieces.
pub open spec fn glue_first(prefix: Seq<u8>, parts: Seq<Seq<u8>>) -> Seq<Seq<u8>> {
    seq![prefix + parts[0]] + parts.skip(1)
}

/// Splits a byte string at every occurrence of `sep`.
pub fn split_on(s: &[u8], sep: u8) -> (parts: Vec<Vec<u8>>)
    ensures
        views_of(parts@) == split_bytes(s@, sep),
        parts@.len() >= 1,
{
    let mut done: Vec<Vec<u8>> = Vec::new();
    let mut cur: Vec<u8> = Vec::new();
    let mut i: usize = 0;
    proof {
        lemma_split_len(s@, sep);
        let ps = split_bytes(s@, sep);
        assert(s@.skip(0) =~= s@);
        assert(Seq::<u8>::empty() + ps[0] =~= ps[0]);
        assert(views_of(done@) + glue_first(cur@, split_bytes(s@.skip(0), sep)) =~~= ps);
    }
    while i < s.len()
        invariant
            0 <= i <= s@.len(),
            split_bytes(s@, sep) == views_of(done@) + glue_first(
                cur@,
                split_bytes(s@.skip(i as int), sep),
            ),
        decreases s@.len() - i,
    {
        let ghost t = s@.skip(i as int);
        proof {
            assert(t.len() > 0);
            assert(t[0] == s@[i as int]);
            assert(t.skip(1) =~= s@.skip(i + 1));
            lemma_split_len(s@.skip(i + 1), sep);
        }
        if s[i] == sep {
            proof {
                let rest = split_bytes(s@.skip(i + 1), sep);
                assert(split_bytes(t, sep) == seq![Seq::<u8>::empty()] + rest);
                assert(glue_first(cur@, seq![Seq::<u8>::empty()] + rest) =~~= seq![cur@]
                    + glue_first(Seq::<u8>::empty(), rest)) by {
                    assert(cur@ + Seq::<u8>::empty() =~= cur@);
                    assert(Seq::<u8>::empty() + rest[0] =~= rest[0]);
                    assert((seq![Seq::<u8>::empty()] + rest).skip(1) =~~= rest);
                    assert(seq![rest[0]] + rest.skip(1) =~~= rest);
                };
                assert(views_of(done@.push(cur)) =~~= views_of(done@).push(cur@));
                assert(views_of(done@) + glue_first(cur@, split_bytes(t, sep)) =~~= views_of(
                    done@.push(cur),
                ) + glue_first(Seq::<u8>::empty(), rest));
            }
            done.push(cur);
            cur = Vec::new();
        } else {
            proof {
                let rest = split_bytes(s@.skip(i + 1), sep);
                assert(split_bytes(t, sep) == seq![seq![t[0]] + rest[0]] + rest.skip(1));
                assert(glue_first(cur@, split_bytes(t, sep)) =~~= glue_first(
                    cur@.push(s@[i as int]),
                    rest,
                )) by {
                    assert(cur@ + (seq![t[0]] + rest[0]) =~= cur@.push(s@[i as int]) + rest[0]);
                    assert((seq![seq![t[0]] + rest[0]] + rest.skip(1)).skip(1) =~~= rest.skip(1));
                };
            }
            cur.push(s[i]);
        }
        i = i + 1;
    }
    proof {
        assert(s@.skip(i as int) =~= Seq::<u8>::empty());
        let rest = split_bytes(s@.skip(i as int), sep);
        assert(rest == seq![Seq::<u8>::empty()]);
        assert(glue_first(cur@, rest) =~~= seq![cur@]) by {
            assert(cur@ + Seq::<u8>::empty() =~= cur@);
            assert((seq![Seq::<u8>::empty()]).skip(1) =~~= Seq::<Seq<u8>>::empty());
        };
        assert(views_of(done@.push(cur)) =~~= views_of(done@) + seq![cur@]);
    }
    done.push(cur);
    proof {
        lemma_split_len(s@, sep);
    }
    done
}

} // verus!
