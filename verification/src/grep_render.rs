//! Rendering content-search matches: `path:line: text` rows, context
//! blocks, clipped long lines and the final notices.

use vstd::prelude::*;
use vstd::utf8::*;
use crate::fs::ToolError;
use crate::lines::{count_of, lemma_split_shape, line_range, lines_between, split_on};
use crate::text::{
    cat, decimal, decimal_string, join_strings, join_texts, lossy_string, texts_of, utf8_lossy,
};
use crate::truncate::{
    count_newlines, fits_limits, head_bytes, is_head_truncation, truncate_head, DEFAULT_MAX_BYTES,
    MAX_RESULT_BYTES,
};
use crate::units::{format_size, size_text, truncate_utf16, utf16_prefix, utf16_units};
use vstd::string::StringExecFns;

verus! {

/// Default number of matches.
pub const DEFAULT_LIMIT: i64 = 100;

/// Longest rendered line, in UTF-16 code units.
pub const MAX_LINE_CHARS: usize = 500;

/// One matching line: its 1-based number and its bytes without the line
/// terminator.
#[derive(Clone, Debug)]
pub struct MatchLine {
    pub line_number: u64,
    pub bytes: Vec<u8>,
}

/// A line's text without one trailing carriage return.
pub open spec fn strip_cr(t: Seq<char>) -> Seq<char> {
    if t.len() > 0 && t.last() == '\r' {
        t.drop_last()
    } else {
        t
    }
}

/// Whether a line is clipped when rendered.
pub open spec fn line_clipped(line: Seq<u8>) -> bool {
    utf16_units(strip_cr(utf8_lossy(line))) > MAX_LINE_CHARS
}

/// A line's rendered text: clipped to 500 UTF-16 units with a marker.
pub open spec fn clipped_text(line: Seq<u8>) -> Seq<char> {
    let t = strip_cr(utf8_lossy(line));
    if utf16_units(t) > MAX_LINE_CHARS {
        utf16_prefix(t, MAX_LINE_CHARS as nat) + "... [truncated]"@
    } else {
        t
    }
}

/// A rendered row: `path:n: text` for a match, `path-n- text` for context.
pub open spec fn row_text(path: Seq<char>, n: nat, is_match: bool, line: Seq<u8>) -> Seq<char> {
    path + (if is_match {
        ":"@
    } else {
        "-"@
    }) + decimal(n) + (if is_match {
        ": "@
    } else {
        "- "@
    }) + clipped_text(line)
}

/// The line numbered `n` (1-based) of a file, or nothing past its end.
pub open spec fn line_at(b: Seq<u8>, n: int) -> Seq<u8> {
    if 1 <= n <= split_on(b, 10u8).len() {
        split_on(b, 10u8)[n - 1]
    } else {
        Seq::<u8>::empty()
    }
}

/// Lines of a file for context rendering: newlines, plus one for a last
/// line without a terminator.
pub open spec fn context_line_count(b: Seq<u8>) -> int {
    count_of(b, 10u8) + if b.len() > 0 && b.last() == 10u8 {
        0int
    } else {
        1int
    }
}

/// First line of the context block around line `n`.
pub open spec fn block_start(n: u64, context: u64) -> int {
    if n > context && n - context > 1 {
        n - context
    } else {
        1
    }
}

/// Last line of the context block around line `n`.
pub open spec fn block_end(n: u64, context: u64, line_count: int) -> int {
    let reach: int = if n + context > u64::MAX {
        u64::MAX as int
    } else {
        n + context
    };
    if reach < line_count {
        reach
    } else {
        line_count
    }
}

/// The rows of the context block around line `n`.
pub open spec fn block_rows(path: Seq<char>, b: Seq<u8>, n: u64, context: u64) -> Seq<Seq<char>> {
    let start = block_start(n, context);
    let end = block_end(n, context, context_line_count(b));
    Seq::new(
        if end >= start {
            (end - start + 1) as nat
        } else {
            0
        },
        |i: int| row_text(path, (start + i) as nat, start + i == n, line_at(b, start + i)),
    )
}

/// Whether any row of the context block around line `n` is clipped.
pub open spec fn block_clipped(b: Seq<u8>, n: u64, context: u64) -> bool {
    let start = block_start(n, context);
    let end = block_end(n, context, context_line_count(b));
    block_clipped_before(b, start, end + 1)
}

/// Whether a line numbered in `[start, stop)` is clipped.
pub open spec fn block_clipped_before(b: Seq<u8>, start: int, stop: int) -> bool {
    exists|k: int| start <= k < stop && line_clipped(#[trigger] line_at(b, k))
}

/// The number and bytes of each match line.
pub open spec fn match_views(lines: Seq<MatchLine>) -> Seq<(u64, Seq<u8>)> {
    lines.map_values(|m: MatchLine| (m.line_number, m.bytes@))
}

/// What one file contributes: a row per match, or with context a block per
/// match whose rows are joined by newlines.
pub open spec fn file_pieces(path: Seq<char>, b: Seq<u8>, matches: Seq<(u64, Seq<u8>)>, context: u64) -> Seq<
    Seq<char>,
> {
    Seq::new(
        matches.len(),
        |i: int|
            if context == 0 {
                row_text(path, matches[i].0 as nat, true, matches[i].1)
            } else {
                join_texts(block_rows(path, b, matches[i].0, context), "\n"@)
            },
    )
}

/// Whether the piece for match `m` has a clipped line.
pub open spec fn match_clipped(b: Seq<u8>, m: (u64, Seq<u8>), context: u64) -> bool {
    if context == 0 {
        line_clipped(m.1)
    } else {
        block_clipped(b, m.0, context)
    }
}

/// Whether any of the first `n` matches has a clipped line.
pub open spec fn clipped_upto(b: Seq<u8>, matches: Seq<(u64, Seq<u8>)>, context: u64, n: int) -> bool {
    exists|i: int| 0 <= i < n && #[trigger] match_clipped(b, matches[i], context)
}

/// Whether any line one file contributes is clipped.
pub open spec fn file_clipped(b: Seq<u8>, matches: Seq<(u64, Seq<u8>)>, context: u64) -> bool {
    clipped_upto(b, matches, context, matches.len() as int)
}

/// Strips one carriage return at the end.
pub fn strip_trailing_cr(text: String) -> (r: String)
    ensures
        r@ == strip_cr(text@),
{
    let bytes = text.as_str().as_bytes();
    let n = bytes.len();
    proof {
        crate::path::lemma_last_char_ascii(text@, '\r');
    }
    if n > 0 && bytes[n - 1] == 13 {
        proof {
            crate::text::lemma_encode_concat(text@.drop_last(), seq![text@.last()]);
            assert(text@ == text@.drop_last() + seq![text@.last()]);
            crate::text::lemma_encode_ascii_char('\r');
            crate::text::lemma_ascii_is_boundary(text@, (n - 1) as int);
            assert(encode_utf8(text@).subrange(0, n - 1) =~= encode_utf8(text@.drop_last()));
            encode_utf8_decode_utf8(text@.drop_last());
        }
        crate::text::prefix_string(text.as_str(), n - 1)
    } else {
        text
    }
}

/// Renders one row.
pub fn render_line(path: &str, line_number: u64, is_match: bool, bytes: &[u8]) -> (r: (String, bool))
    ensures
        r.0@ == row_text(path@, line_number as nat, is_match, bytes@),
        r.1 == line_clipped(bytes@),
{
    let text = strip_trailing_cr(lossy_string(bytes));
    let (mut clipped, was_truncated) = truncate_utf16(text.as_str(), MAX_LINE_CHARS);
    if was_truncated {
        clipped.append("... [truncated]");
    }
    let row = if is_match {
        cat(path, ":")
    } else {
        cat(path, "-")
    };
    let row = cat(row.as_str(), decimal_string(line_number as u128).as_str());
    let row = if is_match {
        cat(row.as_str(), ": ")
    } else {
        cat(row.as_str(), "- ")
    };
    let row = cat(row.as_str(), clipped.as_str());
    proof {
        assert(row@ =~= row_text(path@, line_number as nat, is_match, bytes@));
    }
    (row, was_truncated)
}


/// The bytes of line `n` (1-based) of a file with `total` newline-split
/// pieces.
fn line_at_exec(b: &[u8], n: u64, total: usize) -> (r: &[u8])
    requires
        total == split_on(b@, 10u8).len(),
    ensures
        r@ == line_at(b@, n as int),
{
    if n >= 1 && n <= total as u64 {
        let k = (n - 1) as usize;
        let r = line_range(b, k, k + 1, total);
        proof {
            let p = split_on(b@, 10u8);
            assert(p.subrange(k as int, k + 1) =~= seq![p[k as int]]);
        }
        r
    } else {
        proof {
            assert(Seq::<u8>::empty() == b@.subrange(0, 0));
        }
        &b[0..0]
    }
}

/// The rows of one context block, joined by newlines, and whether any row
/// was clipped.
fn render_block(path: &str, b: &[u8], n: u64, context: u64, line_count: u64, total: usize) -> (r: (String, bool))
    requires
        total == split_on(b@, 10u8).len(),
        total <= crate::truncate::MAX_FILE_BYTES + 1,
        line_count == context_line_count(b@),
        line_count <= total,
    ensures
        r.0@ == join_texts(block_rows(path@, b@, n, context), "\n"@),
        r.1 == block_clipped(b@, n, context),
{
    let start: u64 = if n > context && n - context > 1 {
        n - context
    } else {
        1
    };
    let reach: u64 = if n > u64::MAX - context {
        u64::MAX
    } else {
        n + context
    };
    let end: u64 = if reach < line_count {
        reach
    } else {
        line_count
    };
    let ghost spec_rows = block_rows(path@, b@, n, context);
    proof {
        assert(start == block_start(n, context));
        assert(end == block_end(n, context, context_line_count(b@)));
    }
    let mut rows: Vec<String> = Vec::new();
    let mut clipped = false;
    let mut current: u64 = start;
    while current <= end
        invariant
            start <= current,
            current <= end + 1 || current == start,
            end <= line_count <= total,
            total <= crate::truncate::MAX_FILE_BYTES + 1,
            total == split_on(b@, 10u8).len(),
            start == block_start(n, context),
            end == block_end(n, context, context_line_count(b@)),
            spec_rows == block_rows(path@, b@, n, context),
            texts_of(rows@) =~= spec_rows.take(current - start),
            clipped == block_clipped_before(b@, start as int, current as int),
        decreases end + 1 - current,
    {
        let line = line_at_exec(b, current, total);
        let (row, was) = render_line(path, current, current == n, line);
        let ghost old_rows = rows@;
        rows.push(row);
        proof {
            assert(spec_rows[current - start] == row_text(path@, current as nat, current == n, line_at(b@, current as int)));
            assert(rows@ == old_rows.push(row));
            assert(texts_of(rows@) =~= texts_of(old_rows).push(row@));
            assert(texts_of(rows@) =~= spec_rows.take(current - start + 1));
            if was {
                assert(line_clipped(line_at(b@, current as int)));
            }
            if block_clipped_before(b@, start as int, current + 1) {
                let k = choose|k: int| start <= k < current + 1 && line_clipped(#[trigger] line_at(b@, k));
                if k < current {
                    assert(block_clipped_before(b@, start as int, current as int));
                }
            }
        }
        clipped = clipped || was;
        current = current + 1;
    }
    proof {
        if end >= start {
            assert(spec_rows.take(current - start) =~= spec_rows);
        } else {
            assert(spec_rows.len() == 0);
            assert(spec_rows.take(0) =~= spec_rows);
        }
    }
    (join_strings(&rows, "\n"), clipped)
}

/// What one file contributes to the output: a row per match, or with
/// context a block per match; and whether any line was clipped.
pub fn render_file(path: &str, bytes: &[u8], matches: &Vec<MatchLine>, context: u64) -> (r: (Vec<String>, bool))
    requires
        bytes@.len() <= crate::truncate::MAX_FILE_BYTES,
    ensures
        texts_of(r.0@) == file_pieces(path@, bytes@, match_views(matches@), context),
        r.1 == file_clipped(bytes@, match_views(matches@), context),
{
    let newlines = count_newlines(bytes);
    proof {
        lemma_split_shape(bytes@, 10u8);
        crate::truncate::lemma_count_bound(bytes@);
    }
    let total: usize = newlines + 1;
    let n = bytes.len();
    let line_count: u64 = if n > 0 && bytes[n - 1] == 10 {
        newlines as u64
    } else {
        (newlines + 1) as u64
    };
    let ghost views = match_views(matches@);
    let ghost pieces = file_pieces(path@, bytes@, views, context);
    let mut out: Vec<String> = Vec::new();
    let mut clipped = false;
    let mut i: usize = 0;
    while i < matches.len()
        invariant
            0 <= i <= matches@.len(),
            total == split_on(bytes@, 10u8).len(),
            total <= crate::truncate::MAX_FILE_BYTES + 1,
            line_count == context_line_count(bytes@),
            line_count <= total,
            views == match_views(matches@),
            pieces == file_pieces(path@, bytes@, views, context),
            texts_of(out@) =~= pieces.take(i as int),
            clipped == clipped_upto(bytes@, views, context, i as int),
        decreases matches@.len() - i,
    {
        let m = &matches[i];
        let (piece, was) = if context == 0 {
            render_line(path, m.line_number, true, m.bytes.as_slice())
        } else {
            render_block(path, bytes, m.line_number, context, line_count, total)
        };
        let ghost old_out = out@;
        out.push(piece);
        proof {
            assert(out@ == old_out.push(piece));
            assert(texts_of(out@) =~= texts_of(old_out).push(piece@));
            assert(texts_of(out@) =~= pieces.take(i + 1));
            assert(views[i as int] == (m.line_number, m.bytes@));
            assert(was == match_clipped(bytes@, views[i as int], context));
            if clipped_upto(bytes@, views, context, i + 1) {
                let j = choose|j: int| 0 <= j < i + 1 && #[trigger] match_clipped(bytes@, views[j], context);
                if j < i {
                    assert(clipped_upto(bytes@, views, context, i as int));
                }
            }
        }
        clipped = clipped || was;
        i = i + 1;
    }
    proof {
        assert(pieces.take(matches@.len() as int) =~= pieces);
    }
    (out, clipped)
}

} // verus!
