//! Splitting a sequence at a separator and joining it back, with the facts
//! the line-oriented tools rely on.

use vstd::prelude::*;

verus! {

/// The pieces of `s` between occurrences of `sep`, like `str::split`: a
/// sequence with `n` separators has `n + 1` pieces, some of them empty.
pub open spec fn split_on<T>(s: Seq<T>, sep: T) -> Seq<Seq<T>>
    decreases s.len(),
{
    if s.len() == 0 {
        seq![Seq::<T>::empty()]
    } else {
        let prev = split_on(s.drop_last(), sep);
        if s.last() == sep {
            prev.push(Seq::<T>::empty())
        } else {
            prev.update(prev.len() - 1, prev.last().push(s.last()))
        }
    }
}

/// The pieces of `s` as `str::split_terminator` yields them: a trailing
/// separator does not start an empty final piece, and an empty sequence has
/// no pieces at all.
pub open spec fn terminated_pieces<T>(s: Seq<T>, sep: T) -> Seq<Seq<T>> {
    if s.len() == 0 {
        Seq::<Seq<T>>::empty()
    } else if s.last() == sep {
        split_on(s, sep).drop_last()
    } else {
        split_on(s, sep)
    }
}

/// The pieces joined back together with `sep` between consecutive pieces.
pub open spec fn join_with<T>(parts: Seq<Seq<T>>, sep: T) -> Seq<T>
    decreases parts.len(),
{
    if parts.len() == 0 {
        Seq::<T>::empty()
    } else if parts.len() == 1 {
        parts[0]
    } else {
        join_with(parts.drop_last(), sep) + seq![sep] + parts.last()
    }
}

/// How many elements of `s` equal `x`.
pub open spec fn count_of<T>(s: Seq<T>, x: T) -> nat
    decreases s.len(),
{
    if s.len() == 0 {
        0
    } else {
        count_of(s.drop_last(), x) + if s.last() == x {
            1nat
        } else {
            0nat
        }
    }
}

/// Splitting always yields at least one piece, one more than the number of
/// separators, and no piece holds the separator.
pub proof fn lemma_split_shape<T>(s: Seq<T>, sep: T)
    ensures
        split_on(s, sep).len() >= 1,
        split_on(s, sep).len() == count_of(s, sep) + 1,
        forall|i: int, j: int|
            0 <= i < split_on(s, sep).len() && 0 <= j < split_on(s, sep)[i].len() ==> split_on(
                s,
                sep,
            )[i][j] != sep,
    decreases s.len(),
{
    if s.len() > 0 {
        lemma_split_shape(s.drop_last(), sep);
        let prev = split_on(s.drop_last(), sep);
        let cur = split_on(s, sep);
        if s.last() != sep {
            assert forall|i: int, j: int|
                0 <= i < cur.len() && 0 <= j < cur[i].len() implies cur[i][j] != sep by {
                if i == prev.len() - 1 {
                    if j < prev.last().len() {
                        assert(cur[i][j] == prev[i][j]);
                    }
                } else {
                    assert(cur[i] == prev[i]);
                }
            }
        } else {
            assert forall|i: int, j: int|
                0 <= i < cur.len() && 0 <= j < cur[i].len() implies cur[i][j] != sep by {
                assert(cur[i] == prev[i]);
            }
        }
    }
}

/// Joining the pieces of a split gives back the original sequence.
pub proof fn lemma_join_split<T>(s: Seq<T>, sep: T)
    ensures
        join_with(split_on(s, sep), sep) == s,
    decreases s.len(),
{
    if s.len() > 0 {
        let p = s.drop_last();
        lemma_join_split(p, sep);
        lemma_split_shape(p, sep);
        let prev = split_on(p, sep);
        let cur = split_on(s, sep);
        if s.last() == sep {
            assert(cur.drop_last() == prev);
            assert(join_with(cur, sep) == join_with(prev, sep) + seq![sep] + Seq::<T>::empty());
            assert(s == p.push(sep));
        } else {
            lemma_join_update_last(prev, sep, s.last());
            assert(s == p.push(s.last()));
        }
    }
}

/// Extending the last piece extends the joined sequence.
pub proof fn lemma_join_update_last<T>(parts: Seq<Seq<T>>, sep: T, x: T)
    requires
        parts.len() >= 1,
    ensures
        join_with(parts.update(parts.len() - 1, parts.last().push(x)), sep) == join_with(
            parts,
            sep,
        ).push(x),
{
    let q = parts.update(parts.len() - 1, parts.last().push(x));
    if parts.len() == 1 {
        assert(q[0] == parts[0].push(x));
    } else {
        assert(q.drop_last() == parts.drop_last());
        assert(join_with(q, sep) == join_with(parts.drop_last(), sep) + seq![sep] + parts.last().push(x));
    }
}

/// Joining one more piece appends a separator and that piece.
pub proof fn lemma_join_push<T>(parts: Seq<Seq<T>>, sep: T, piece: Seq<T>)
    requires
        parts.len() >= 1,
    ensures
        join_with(parts.push(piece), sep) == join_with(parts, sep) + seq![sep] + piece,
{
    assert(parts.push(piece).drop_last() == parts);
}

/// The length of the joined pieces: their lengths plus one separator between
/// each pair.
pub open spec fn joined_len<T>(parts: Seq<Seq<T>>) -> nat
    decreases parts.len(),
{
    if parts.len() == 0 {
        0
    } else if parts.len() == 1 {
        parts[0].len()
    } else {
        joined_len(parts.drop_last()) + 1 + parts.last().len()
    }
}

pub proof fn lemma_joined_len<T>(parts: Seq<Seq<T>>, sep: T)
    ensures
        join_with(parts, sep).len() == joined_len(parts),
    decreases parts.len(),
{
    if parts.len() > 1 {
        lemma_joined_len(parts.drop_last(), sep);
    }
}

/// Joining more leading pieces never gives a shorter sequence.
pub proof fn lemma_joined_len_monotone<T>(parts: Seq<Seq<T>>, i: int, j: int)
    requires
        0 <= i <= j <= parts.len(),
    ensures
        joined_len(parts.take(i)) <= joined_len(parts.take(j)),
    decreases j - i,
{
    if i < j {
        lemma_joined_len_monotone(parts, i, j - 1);
        let a = parts.take(j - 1);
        let b = parts.take(j);
        assert(b.drop_last() == a);
        if j - 1 == 0 {
        } else {
        }
    }
}

/// Splitting a concatenation: the last piece of the first part fuses with the
/// first piece of the second part.
pub proof fn lemma_split_concat<T>(s: Seq<T>, t: Seq<T>, sep: T)
    ensures
        split_on(s + t, sep) == split_on(s, sep).drop_last() + seq![
            split_on(s, sep).last() + split_on(t, sep)[0],
        ] + split_on(t, sep).drop_first(),
    decreases t.len(),
{
    lemma_split_shape(s, sep);
    lemma_split_shape(t, sep);
    let ps = split_on(s, sep);
    if t.len() == 0 {
        assert(s + t == s);
        assert(split_on(t, sep) == seq![Seq::<T>::empty()]);
        assert(ps.last() + Seq::<T>::empty() == ps.last());
        assert(ps.drop_last() + seq![ps.last()] == ps);
    } else {
        let t0 = t.drop_last();
        let x = t.last();
        lemma_split_concat(s, t0, sep);
        lemma_split_shape(t0, sep);
        let pt0 = split_on(t0, sep);
        let pt = split_on(t, sep);
        assert((s + t).drop_last() == s + t0);
        assert((s + t).last() == x);
        let prev = split_on(s + t0, sep);
        let a = ps.drop_last();
        if x == sep {
            assert(pt == pt0.push(Seq::<T>::empty()));
            assert(pt[0] == pt0[0]);
            assert(pt.drop_first() == pt0.drop_first().push(Seq::<T>::empty()));
            assert(split_on(s + t, sep) == prev.push(Seq::<T>::empty()));
        } else {
            assert(pt == pt0.update(pt0.len() - 1, pt0.last().push(x)));
            if pt0.len() == 1 {
                assert(pt[0] == pt0[0].push(x));
                assert(pt.drop_first() == Seq::<Seq<T>>::empty());
                assert(pt0.drop_first() == Seq::<Seq<T>>::empty());
                assert(ps.last() + pt0[0].push(x) == (ps.last() + pt0[0]).push(x));
                assert(split_on(s + t, sep) == prev.update(prev.len() - 1, prev.last().push(x)));
            } else {
                assert(pt[0] == pt0[0]);
                assert(pt.drop_first() == pt0.drop_first().update(
                    pt0.len() - 2,
                    pt0.last().push(x),
                ));
                assert(split_on(s + t, sep) == prev.update(prev.len() - 1, prev.last().push(x)));
            }
        }
    }
}

/// Appending one element: the split of `s.push(x)` in terms of the split of
/// `s` (the defining step, restated for callers).
pub proof fn lemma_split_push<T>(s: Seq<T>, x: T, sep: T)
    ensures
        split_on(s.push(x), sep) == if x == sep {
            split_on(s, sep).push(Seq::<T>::empty())
        } else {
            split_on(s, sep).update(
                split_on(s, sep).len() - 1,
                split_on(s, sep).last().push(x),
            )
        },
{
    assert(s.push(x).drop_last() == s);
}

/// Counting over a concatenation adds the counts.
pub proof fn lemma_count_concat<T>(s: Seq<T>, t: Seq<T>, x: T)
    ensures
        count_of(s + t, x) == count_of(s, x) + count_of(t, x),
    decreases t.len(),
{
    if t.len() == 0 {
        assert(s + t == s);
    } else {
        lemma_count_concat(s, t.drop_last(), x);
        assert((s + t).drop_last() == s + t.drop_last());
    }
}

/// A sequence without the separator splits into itself alone.
pub proof fn lemma_split_no_sep<T>(s: Seq<T>, sep: T)
    requires
        forall|i: int| 0 <= i < s.len() ==> s[i] != sep,
    ensures
        split_on(s, sep) == seq![s],
    decreases s.len(),
{
    if s.len() > 0 {
        lemma_split_no_sep(s.drop_last(), sep);
        assert(s.drop_last().push(s.last()) == s);
        let prev = split_on(s.drop_last(), sep);
        assert(s.last() != sep);
        assert(prev.len() == 1);
        assert(prev.last() == s.drop_last());
        assert(prev.update(0, prev.last().push(s.last())) =~= seq![s]);
    } else {
        assert(s =~= Seq::<T>::empty());
    }
}


/// Joining two non-empty runs of pieces puts one separator between them.
pub proof fn lemma_join_concat<T>(a: Seq<Seq<T>>, b: Seq<Seq<T>>, sep: T)
    requires
        a.len() >= 1,
        b.len() >= 1,
    ensures
        join_with(a + b, sep) == join_with(a, sep) + seq![sep] + join_with(b, sep),
    decreases b.len(),
{
    if b.len() == 1 {
        assert(a + b == a.push(b[0]));
        lemma_join_push(a, sep, b[0]);
    } else {
        let b0 = b.drop_last();
        lemma_join_concat(a, b0, sep);
        assert(a + b == (a + b0).push(b.last()));
        lemma_join_push(a + b0, sep, b.last());
        assert(b == b0.push(b.last()));
        lemma_join_push(b0, sep, b.last());
    }
}

/// The pieces of a prefix, short of its last one, are the leading pieces of
/// the whole.
pub proof fn lemma_split_prefix<T>(b: Seq<T>, i: int, sep: T)
    requires
        0 <= i <= b.len(),
    ensures
        split_on(b.take(i), sep).len() <= split_on(b, sep).len(),
        split_on(b, sep).take(split_on(b.take(i), sep).len() - 1) == split_on(b.take(i), sep).drop_last(),
{
    let p = split_on(b.take(i), sep);
    lemma_split_concat(b.take(i), b.skip(i), sep);
    assert(b.take(i) + b.skip(i) == b);
    lemma_split_shape(b.take(i), sep);
    lemma_split_shape(b.skip(i), sep);
    let whole = split_on(b, sep);
    assert(whole.take(p.len() - 1) =~= p.drop_last());
}

/// Byte index just after the `k`-th newline: where the line with index `k`
/// starts.
pub fn line_start(b: &[u8], k: usize) -> (r: usize)
    requires
        1 <= k <= count_of(b@, 10u8),
    ensures
        1 <= r <= b@.len(),
        b@.take(r as int) == join_with(split_on(b@, 10u8).take(k as int), 10u8).push(10u8),
{
    let mut i: usize = 0;
    let mut seen: usize = 0;
    while i < b.len()
        invariant
            0 <= i <= b@.len(),
            seen == count_of(b@.take(i as int), 10u8),
            seen < k,
            k <= count_of(b@, 10u8),
        decreases b@.len() - i,
    {
        proof {
            assert(b@.take(i + 1).drop_last() == b@.take(i as int));
        }
        if b[i] == 10 {
            if seen + 1 == k {
                proof {
                    let t = b@.take(i as int);
                    assert(b@.take(i + 1) == t.push(10u8));
                    lemma_split_push(t, 10u8, 10u8);
                    lemma_split_shape(t, 10u8);
                    lemma_split_prefix(b@, i + 1, 10u8);
                    lemma_join_split(t, 10u8);
                    let pt = split_on(t, 10u8);
                    assert(split_on(b@.take(i + 1), 10u8) == pt.push(Seq::<u8>::empty()));
                    assert(pt.push(Seq::<u8>::empty()).drop_last() == pt);
                    assert(pt.len() == k);
                }
                return i + 1;
            }
            seen = seen + 1;
        }
        i = i + 1;
    }
    proof {
        assert(b@.take(b@.len() as int) == b@);
    }
    // unreachable: fewer than `k` newlines were seen
    0
}

/// The lines with indices in `[start, end)` joined by newlines (empty when
/// the range is empty).
pub open spec fn lines_between(b: Seq<u8>, start: int, end: int) -> Seq<u8> {
    if start < end {
        join_with(split_on(b, 10u8).subrange(start, end), 10u8)
    } else {
        Seq::<u8>::empty()
    }
}

/// The bytes of the lines with indices in `[start, end)`.
pub fn line_range(b: &[u8], start: usize, end: usize, total: usize) -> (r: &[u8])
    requires
        total == split_on(b@, 10u8).len(),
        start < split_on(b@, 10u8).len(),
        end <= split_on(b@, 10u8).len(),
    ensures
        r@ == lines_between(b@, start as int, end as int),
{
    let ghost p = split_on(b@, 10u8);
    proof {
        lemma_split_shape(b@, 10u8);
        lemma_join_split(b@, 10u8);
    }
    let first = if start == 0 {
        0
    } else {
        line_start(b, start)
    };
    if end <= start {
        return &b[first..first];
    }
    let last = if end >= total {
        b.len()
    } else {
        line_start(b, end) - 1
    };
    proof {
        let mid = p.subrange(start as int, end as int);
        let m = join_with(mid, 10u8);
        let js = join_with(p.take(start as int), 10u8);
        // the bytes up to the end of the range
        let upto = if end < p.len() {
            b@.take(last as int)
        } else {
            b@
        };
        if start > 0 {
            assert(p.take(end as int) == p.take(start as int) + mid);
            lemma_join_concat(p.take(start as int), mid, 10u8);
            if end < p.len() {
                assert(b@.take(last as int) == b@.take(last + 1).drop_last());
                assert(upto == js + seq![10u8] + m);
            } else {
                assert(p.take(end as int) == p);
                assert(upto == js + seq![10u8] + m);
            }
            assert(b@.take(first as int) == js.push(10u8));
            assert(b@.take(first as int).len() == first);
            assert(first == js.len() + 1);
            assert(b@.subrange(first as int, last as int) =~= upto.subrange(first as int, last as int));
            assert(upto.subrange(first as int, last as int) =~= m);
        } else {
            assert(p.take(end as int) == mid);
            if end < p.len() {
                assert(b@.take(last as int) == b@.take(last + 1).drop_last());
            } else {
                assert(p == mid);
            }
            assert(upto == m);
            assert(b@.subrange(first as int, last as int) =~= m);
        }
    }
    &b[first..last]
}

} // verus!
