//! Complete-line head truncation and the small text measures the tools
//! report.

use vstd::prelude::*;
use vstd::utf8::*;
use crate::lines::{
    count_of, join_with, joined_len, lemma_count_concat, lemma_join_push, lemma_join_split,
    lemma_joined_len, lemma_joined_len_monotone, lemma_split_concat, lemma_split_push,
    lemma_split_shape, split_on, terminated_pieces,
};
use crate::text::{lemma_ascii_is_boundary, prefix_string, NEWLINE};

verus! {

/// Hard backstop on a single structured tool result, in bytes.
pub const MAX_RESULT_BYTES: usize = 4 * 1024 * 1024;

/// Automatic head-truncation line limit.
pub const DEFAULT_MAX_LINES: usize = 2000;

/// Automatic head-truncation byte limit (50 KiB).
pub const DEFAULT_MAX_BYTES: usize = 50 * 1024;

/// Maximum bytes one bounded file tool reads from a single file (8 MiB).
pub const MAX_FILE_BYTES: usize = 8 * 1024 * 1024;

/// Which limit stopped a head truncation.
#[derive(Clone, Copy, Debug, PartialEq, Eq, Structural)]
pub enum TruncatedBy {
    Lines,
    Bytes,
}

/// Structured receipt for complete-line head truncation.
#[derive(Clone, Debug, PartialEq, Eq)]
pub struct TruncationResult {
    pub content: String,
    pub truncated: bool,
    pub truncated_by: Option<TruncatedBy>,
    pub total_lines: usize,
    pub total_bytes: usize,
    pub output_lines: usize,
    pub output_bytes: usize,
    pub last_line_partial: bool,
    pub first_line_exceeds_limit: bool,
    pub max_lines: usize,
    pub max_bytes: usize,
}

/// The lines of a text in bytes, as `split_terminator('\n')` yields them.
pub open spec fn text_lines(b: Seq<u8>) -> Seq<Seq<u8>> {
    terminated_pieces(b, NEWLINE)
}

/// The first line of a text: everything before its first newline.
pub open spec fn first_line(b: Seq<u8>) -> Seq<u8> {
    split_on(b, NEWLINE)[0]
}

/// The largest `k <= m` such that the first `k` lines, joined by newlines,
/// fit in `max_bytes`.
pub open spec fn fitting_lines(lines: Seq<Seq<u8>>, m: nat, max_bytes: nat) -> nat
    decreases m,
{
    if m == 0 {
        0
    } else if joined_len(lines.take(m as int)) <= max_bytes {
        m
    } else {
        fitting_lines(lines, (m - 1) as nat, max_bytes)
    }
}

pub open spec fn min_nat(a: nat, b: nat) -> nat {
    if a <= b {
        a
    } else {
        b
    }
}

/// How many lines a head truncation keeps, when it has to truncate and the
/// first line fits.
pub open spec fn kept_lines(b: Seq<u8>, max_lines: nat, max_bytes: nat) -> nat {
    fitting_lines(text_lines(b), min_nat(max_lines, text_lines(b).len()), max_bytes)
}

/// Whether the whole text is within both limits.
pub open spec fn fits_limits(b: Seq<u8>, max_lines: nat, max_bytes: nat) -> bool {
    text_lines(b).len() <= max_lines && b.len() <= max_bytes
}

/// The bytes a head truncation keeps.
pub open spec fn head_bytes(b: Seq<u8>, max_lines: nat, max_bytes: nat) -> Seq<u8> {
    if fits_limits(b, max_lines, max_bytes) {
        b
    } else if b.len() > 0 && first_line(b).len() > max_bytes {
        Seq::<u8>::empty()
    } else {
        join_with(text_lines(b).take(kept_lines(b, max_lines, max_bytes) as int), NEWLINE)
    }
}

proof fn lemma_fitting_lines(lines: Seq<Seq<u8>>, m: nat, max_bytes: nat, k: nat)
    requires
        k <= m <= lines.len(),
        joined_len(lines.take(k as int)) <= max_bytes,
        k == m || joined_len(lines.take(k + 1 as int)) > max_bytes,
    ensures
        fitting_lines(lines, m, max_bytes) == k,
    decreases m,
{
    if m > k {
        lemma_joined_len_monotone(lines, k + 1 as int, m as int);
        lemma_fitting_lines(lines, (m - 1) as nat, max_bytes, k);
    } else if m > 0 {
    }
}

/// The number of newline bytes in `bytes`.
pub fn count_newlines(bytes: &[u8]) -> (r: usize)
    ensures
        r == count_of(bytes@, NEWLINE),
{
    let mut i: usize = 0;
    let mut count: usize = 0;
    while i < bytes.len()
        invariant
            0 <= i <= bytes@.len(),
            count == count_of(bytes@.take(i as int), NEWLINE),
            count <= i,
        decreases bytes@.len() - i,
    {
        proof {
            assert(bytes@.take(i + 1).drop_last() == bytes@.take(i as int));
        }
        if bytes[i] == NEWLINE {
            count = count + 1;
        }
        i = i + 1;
    }
    proof {
        assert(bytes@.take(bytes@.len() as int) == bytes@);
    }
    count
}

/// Index of the first newline in `bytes`, or its length when there is none;
/// the bytes before it are the first line.
pub fn first_line_end(bytes: &[u8]) -> (r: usize)
    ensures
        r <= bytes@.len(),
        first_line(bytes@) == bytes@.take(r as int),
{
    let mut i: usize = 0;
    proof {
        assert(bytes@.take(0) =~= Seq::<u8>::empty());
    }
    while i < bytes.len() && bytes[i] != NEWLINE
        invariant
            0 <= i <= bytes@.len(),
            split_on(bytes@.take(i as int), NEWLINE) == seq![bytes@.take(i as int)],
        decreases bytes@.len() - i,
    {
        proof {
            let t = bytes@.take(i as int);
            assert(bytes@.take(i + 1) == t.push(bytes@[i as int]));
            lemma_split_push(t, bytes@[i as int], NEWLINE);
            assert(seq![t].update(0, t.push(bytes@[i as int])) =~= seq![bytes@.take(i + 1)]);
        }
        i = i + 1;
    }
    proof {
        let b = bytes@;
        if i == b.len() {
            assert(b.take(i as int) == b);
        } else {
            let head = b.take(i + 1);
            let t = b.take(i as int);
            assert(head == t.push(NEWLINE));
            lemma_split_push(t, NEWLINE, NEWLINE);
            assert(split_on(head, NEWLINE) == seq![t, Seq::<u8>::empty()]);
            lemma_split_concat(head, b.skip(i + 1), NEWLINE);
            assert(head + b.skip(i + 1) == b);
            lemma_split_shape(b.skip(i + 1), NEWLINE);
            assert(split_on(b, NEWLINE)[0] == t);
        }
    }
    i
}

/// The pieces of a prefix, short of its last one, are the leading pieces of
/// the whole.
proof fn lemma_split_prefix(b: Seq<u8>, i: int)
    requires
        0 <= i <= b.len(),
    ensures
        split_on(b.take(i), NEWLINE).len() <= split_on(b, NEWLINE).len(),
        split_on(b, NEWLINE).take(split_on(b.take(i), NEWLINE).len() - 1) == split_on(
            b.take(i),
            NEWLINE,
        ).drop_last(),
{
    let p = split_on(b.take(i), NEWLINE);
    lemma_split_concat(b.take(i), b.skip(i), NEWLINE);
    assert(b.take(i) + b.skip(i) == b);
    lemma_split_shape(b.take(i), NEWLINE);
    lemma_split_shape(b.skip(i), NEWLINE);
    let whole = split_on(b, NEWLINE);
    assert(whole.take(p.len() - 1) =~= p.drop_last());
}

/// `r` is the head truncation of `content` to `max_lines` lines and
/// `max_bytes` bytes: every field is determined by the text and the limits.
pub open spec fn is_head_truncation(
    content: Seq<char>,
    max_lines: usize,
    max_bytes: usize,
    r: TruncationResult,
) -> bool {
    let b = encode_utf8(content);
    let lines = text_lines(b);
    let m = min_nat(max_lines as nat, lines.len());
    let k = kept_lines(b, max_lines as nat, max_bytes as nat);
    &&& r.total_bytes == b.len()
    &&& r.total_lines == lines.len()
    &&& r.max_lines == max_lines
    &&& r.max_bytes == max_bytes
    &&& !r.last_line_partial
    &&& encode_utf8(r.content@) == head_bytes(b, max_lines as nat, max_bytes as nat)
    &&& r.output_bytes == encode_utf8(r.content@).len()
    &&& r.output_bytes <= max_bytes
    &&& r.output_lines <= max_lines
    &&& r.truncated == !fits_limits(b, max_lines as nat, max_bytes as nat)
    &&& if fits_limits(b, max_lines as nat, max_bytes as nat) {
        &&& r.content@ == content
        &&& r.truncated_by is None
        &&& r.output_lines == lines.len()
        &&& !r.first_line_exceeds_limit
    } else if b.len() > 0 && first_line(b).len() > max_bytes {
        &&& r.truncated_by == Some(TruncatedBy::Bytes)
        &&& r.output_lines == 0
        &&& r.first_line_exceeds_limit
    } else {
        &&& r.output_lines == k
        &&& r.truncated_by == Some(
            if k < m {
                TruncatedBy::Bytes
            } else {
                TruncatedBy::Lines
            },
        )
        &&& !r.first_line_exceeds_limit
    }
}

/// Head-truncates `content` to complete lines: at most `max_lines` lines and
/// `max_bytes` bytes, never cutting a line.
pub fn truncate_head(content: &str, max_lines: usize, max_bytes: usize) -> (r: TruncationResult)
    ensures
        is_head_truncation(content@, max_lines, max_bytes, r),
{
    let bytes = content.as_bytes();
    let n = bytes.len();
    let ghost b = bytes@;
    proof {
        lemma_split_shape(b, NEWLINE);
    }
    let newlines = count_newlines(bytes);
    let ends_with_newline = n > 0 && bytes[n - 1] == NEWLINE;
    proof {
        if n > 0 && !ends_with_newline {
            assert(b == b.drop_last().push(b.last()));
            lemma_count_concat(b.drop_last(), seq![b.last()], NEWLINE);
            assert(count_of(b.drop_last(), NEWLINE) <= b.drop_last().len()) by {
                lemma_count_bound(b.drop_last());
            }
        }
        if n > 0 {
            lemma_count_bound(b);
        }
    }
    let total_lines: usize = if n == 0 {
        0
    } else if ends_with_newline {
        newlines
    } else {
        newlines + 1
    };
    assert(total_lines == text_lines(b).len());
    if total_lines <= max_lines && n <= max_bytes {
        return TruncationResult {
            content: content.to_owned(),
            truncated: false,
            truncated_by: None,
            total_lines,
            total_bytes: n,
            output_lines: total_lines,
            output_bytes: n,
            last_line_partial: false,
            first_line_exceeds_limit: false,
            max_lines,
            max_bytes,
        };
    }
    let first_end = first_line_end(bytes);
    if n > 0 && first_end > max_bytes {
        let empty = String::new();
        proof {
            assert(encode_utf8(empty@) == Seq::<u8>::empty());
        }
        return TruncationResult {
            content: empty,
            truncated: true,
            truncated_by: Some(TruncatedBy::Bytes),
            total_lines,
            total_bytes: n,
            output_lines: 0,
            output_bytes: 0,
            last_line_partial: false,
            first_line_exceeds_limit: true,
            max_lines,
            max_bytes,
        };
    }
    let mut out_lines: usize = 0;
    let mut out_end: usize = 0;
    let mut start: usize = 0;
    let mut i: usize = 0;
    let mut broke = false;
    while i < n && out_lines < max_lines && !broke
        invariant
            n == b.len(),
            bytes@ == b,
            0 <= start <= i <= n,
            out_lines <= max_lines,
            out_end <= max_bytes,
            split_on(b.take(i as int), NEWLINE).len() == out_lines + 1,
            split_on(b.take(i as int), NEWLINE).last() == b.subrange(start as int, i as int),
            join_with(split_on(b.take(i as int), NEWLINE).drop_last(), NEWLINE) == b.take(
                out_end as int,
            ),
            out_lines == 0 ==> start == 0 && out_end == 0,
            out_lines > 0 ==> start >= 1 && out_end == start - 1 && b[out_end as int] == NEWLINE,
            broke ==> i < n && b[i as int] == NEWLINE && i > max_bytes && out_lines < max_lines,
        decreases n - i, (if broke { 0int } else { 1int }),
    {
        let ghost p = split_on(b.take(i as int), NEWLINE);
        proof {
            assert(b.take(i + 1) == b.take(i as int).push(b[i as int]));
            lemma_split_push(b.take(i as int), b[i as int], NEWLINE);
        }
        if bytes[i] == NEWLINE {
            if i > max_bytes {
                broke = true;
            } else {
                proof {
                    let q = split_on(b.take(i + 1), NEWLINE);
                    assert(q == p.push(Seq::<u8>::empty()));
                    assert(q.drop_last() == p);
                    lemma_join_split(b.take(i as int), NEWLINE);
                    if out_lines > 0 {
                        assert(p == p.drop_last().push(p.last()));
                        lemma_join_push(p.drop_last(), NEWLINE, p.last());
                        assert(b.take(i as int) =~= b.take(out_end as int) + seq![NEWLINE]
                            + b.subrange(start as int, i as int));
                    }
                }
                out_lines = out_lines + 1;
                out_end = i;
                start = i + 1;
                i = i + 1;
                proof {
                    assert(split_on(b.take(i as int), NEWLINE).last() =~= b.subrange(
                        start as int,
                        i as int,
                    ));
                }
            }
        } else {
            proof {
                let q = split_on(b.take(i + 1), NEWLINE);
                assert(q.drop_last() == p.drop_last());
                assert(q.last() =~= b.subrange(start as int, i + 1));
            }
            i = i + 1;
        }
    }
    let ghost whole = split_on(b, NEWLINE);
    let ghost lines = text_lines(b);
    proof {
        lemma_split_prefix(b, i as int);
        assert(lines.len() >= whole.len() - 1);
    }
    if !broke && out_lines < max_lines && i == n && start < n {
        // the last line has no terminating newline
        proof {
            assert(b.take(n as int) == b);
            let p = split_on(b, NEWLINE);
            lemma_join_split(b, NEWLINE);
            if out_lines > 0 {
                assert(p == p.drop_last().push(p.last()));
                lemma_join_push(p.drop_last(), NEWLINE, p.last());
            }
            assert(b.last() != NEWLINE) by {
                if b.last() == NEWLINE {
                    assert(p.last() == b.subrange(start as int, n as int));
                    lemma_split_push(b.drop_last(), NEWLINE, NEWLINE);
                    assert(b.drop_last().push(NEWLINE) == b);
                }
            }
            assert(lines == p);
        }
        if n > max_bytes {
            broke = true;
        } else {
            out_lines = out_lines + 1;
            out_end = n;
            proof {
                assert(lines.take(out_lines as int) == lines);
                assert(join_with(lines, NEWLINE) == b);
            }
        }
    }
    proof {
        let m = min_nat(max_lines as nat, lines.len());
        let whole_pieces = split_on(b, NEWLINE);
        if n == 0 || b.last() == NEWLINE {
            assert(lines == whole_pieces.drop_last());
        } else {
            assert(lines == whole_pieces);
        }
        if out_end == n && out_lines > 0 && i == n && start < n && !broke {
            // the unterminated last line was kept
            assert(lines.take(out_lines as int) == lines);
            assert(join_with(lines.take(out_lines as int), NEWLINE) == b.take(out_end as int));
        } else {
            let p = split_on(b.take(i as int), NEWLINE);
            assert(whole_pieces.take(out_lines as int) == p.drop_last());
            assert(lines.take(out_lines as int) == whole_pieces.take(out_lines as int));
        }
        lemma_joined_len(lines.take(out_lines as int), NEWLINE);
        assert(joined_len(lines.take(out_lines as int)) == out_end);
        if broke {
            if i < n && b[i as int] == NEWLINE && i > max_bytes {
                lemma_next_line(b, i as int);
                assert(lines.take(out_lines + 1) == whole_pieces.take(out_lines + 1));
            } else {
                assert(lines.take(out_lines + 1) == lines);
                lemma_join_split(b, NEWLINE);
                lemma_joined_len(lines, NEWLINE);
            }
            assert(out_lines + 1 <= m);
            assert(joined_len(lines.take(out_lines + 1)) > max_bytes);
            lemma_fitting_lines(lines, m, max_bytes as nat, out_lines as nat);
        } else {
            if out_lines < max_lines {
                assert(i == n);
                if start == n {
                    assert(b.take(n as int) == b);
                    if n > 0 && b.last() != NEWLINE {
                        let pb = split_on(b.drop_last(), NEWLINE);
                        assert(b.drop_last().push(b.last()) == b);
                        lemma_split_push(b.drop_last(), b.last(), NEWLINE);
                        assert(whole_pieces.last() == pb.last().push(b.last()));
                    }
                }
            }
            assert(out_lines == m);
            lemma_fitting_lines(lines, m, max_bytes as nat, out_lines as nat);
        }
        if out_end < n && out_lines > 0 {
            lemma_ascii_is_boundary(content@, out_end as int);
        }
        encode_utf8_valid_utf8(content@);
        is_char_boundary_start_end_of_seq(b);
    }
    let kept = prefix_string(content, out_end);
    TruncationResult {
        output_bytes: out_end,
        content: kept,
        truncated: true,
        truncated_by: Some(if broke { TruncatedBy::Bytes } else { TruncatedBy::Lines }),
        total_lines,
        total_bytes: n,
        output_lines: out_lines,
        last_line_partial: false,
        first_line_exceeds_limit: false,
        max_lines,
        max_bytes,
    }
}

/// The line ending at a newline at `i` completes the first pieces of the
/// text, and they join to the bytes before `i`.
proof fn lemma_next_line(b: Seq<u8>, i: int)
    requires
        0 <= i < b.len(),
        b[i] == NEWLINE,
    ensures
        split_on(b, NEWLINE).take(split_on(b.take(i), NEWLINE).len() as int) == split_on(b.take(i), NEWLINE),
        split_on(b.take(i), NEWLINE).len() + 1 <= split_on(b, NEWLINE).len(),
        joined_len(split_on(b.take(i), NEWLINE)) == i,
{
    assert(b.take(i + 1) == b.take(i).push(NEWLINE));
    lemma_split_push(b.take(i), NEWLINE, NEWLINE);
    lemma_split_prefix(b, i + 1);
    let p = split_on(b.take(i), NEWLINE);
    assert(split_on(b.take(i + 1), NEWLINE).drop_last() == p);
    lemma_join_split(b.take(i), NEWLINE);
    lemma_joined_len(p, NEWLINE);
}

pub proof fn lemma_count_bound(s: Seq<u8>)
    ensures
        count_of(s, NEWLINE) <= s.len(),
    decreases s.len(),
{
    if s.len() > 0 {
        lemma_count_bound(s.drop_last());
    }
}

} // verus!
