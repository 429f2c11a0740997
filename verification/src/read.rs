//! `read`: line-range file access with automatic complete-line head
//! truncation at 2,000 lines or 50 KiB and addressable continuation notices.
//!
//! `offset` is 1-indexed; an offset past the end of the file is an error
//! naming the file's line count. Line accounting follows a newline split: an
//! empty file is one empty line, and a terminal newline makes a final empty
//! line. Content is returned verbatim, with invalid UTF-8 replaced.

use vstd::prelude::*;
use vstd::utf8::*;
use crate::fs::{EffectClass, FileStat, ToolContract, ToolError, ToolFs, ToolFsError};
use crate::lines::{count_of, lemma_split_shape, line_range, lines_between, split_on};
use crate::path::{normalize_tool_path, normalized_path};
use crate::text::{cat, decimal, decimal_string, lossy_string, signed_decimal, signed_decimal_string, utf8_lossy};
use crate::truncate::{
    count_newlines, first_line, first_line_end, fits_limits, head_bytes, is_head_truncation,
    kept_lines, min_nat, text_lines, truncate_head, TruncatedBy, TruncationResult, DEFAULT_MAX_BYTES,
    DEFAULT_MAX_LINES, MAX_FILE_BYTES, MAX_RESULT_BYTES,
};
use crate::units::{format_size, size_text};

verus! {

/// Arguments of `read`.
#[derive(Clone, Debug)]
pub struct ReadArgs {
    /// Path to the file to read (relative to the workspace root or absolute
    /// within the granted scope).
    pub path: String,
    /// Line number to start reading from (1-indexed).
    pub offset: Option<i64>,
    /// Maximum number of lines to read.
    pub limit: Option<i64>,
}

/// Result of `read`.
#[derive(Clone, Debug, PartialEq, Eq)]
pub struct ReadOutput {
    /// File content for the selected range, verbatim, plus the range
    /// trailer when partial.
    pub text: String,
    /// 1-indexed first line returned.
    pub start_line: u64,
    /// 1-indexed last line returned.
    pub end_line: u64,
    /// Total lines in the file.
    pub total_lines: u64,
    /// Present only when automatic 2,000-line/50 KiB truncation occurred.
    pub truncation: Option<TruncationResult>,
}

/// The model-facing contract of `read`.
pub fn contract() -> (r: ToolContract)
    ensures
        r.name@ == "read"@,
        r.effect_class == EffectClass::Pure,
        r.description@ == "Read the contents of a file. For text files, output is truncated to 2000 lines or 50KB (whichever is hit first). Use offset/limit for large files. When you need the full file, continue with offset until complete."@,
        r.input_schema@ == "{\"type\":\"object\",\"properties\":{\"path\":{\"type\":\"string\",\"description\":\"Path to the file to read (relative or absolute)\"},\"offset\":{\"type\":\"number\",\"description\":\"Line number to start reading from (1-indexed)\"},\"limit\":{\"type\":\"number\",\"description\":\"Maximum number of lines to read\"}},\"required\":[\"path\"]}"@,
{
    ToolContract {
        name: "read",
        description: "Read the contents of a file. For text files, output is truncated to 2000 lines or 50KB (whichever is hit first). Use offset/limit for large files. When you need the full file, continue with offset until complete.",
        input_schema: "{\"type\":\"object\",\"properties\":{\"path\":{\"type\":\"string\",\"description\":\"Path to the file to read (relative or absolute)\"},\"offset\":{\"type\":\"number\",\"description\":\"Line number to start reading from (1-indexed)\"},\"limit\":{\"type\":\"number\",\"description\":\"Maximum number of lines to read\"}},\"required\":[\"path\"]}",
        effect_class: EffectClass::Pure,
    }
}

/// Number of lines of a file: one more than its newlines.
pub open spec fn file_lines(b: Seq<u8>) -> int {
    split_on(b, 10u8).len() as int
}

/// 0-based index of the first line to return.
pub open spec fn start_index(offset: Option<i64>) -> int {
    match offset {
        Some(o) => if o > 1 {
            o - 1
        } else {
            0
        },
        None => 0,
    }
}

/// Where a caller limit ends, before clamping: `start + limit`, at most the
/// line count.
pub open spec fn numeric_end(start: int, limit: i64, total: int) -> int {
    if start + limit < total {
        start + limit
    } else {
        total
    }
}

/// 0-based index one past the last line to return.
pub open spec fn end_index(start: int, limit: Option<i64>, total: int) -> int {
    match limit {
        Some(l) => {
            let ne = numeric_end(start, l, total);
            let slice_end = if ne < 0 {
                if total + ne > 0 {
                    total + ne
                } else {
                    0
                }
            } else {
                ne
            };
            if slice_end > start {
                slice_end
            } else {
                start
            }
        },
        None => total,
    }
}

/// The selected lines, decoded with invalid UTF-8 replaced.
pub open spec fn window_content(b: Seq<u8>, offset: Option<i64>, limit: Option<i64>) -> Seq<char> {
    let s = start_index(offset);
    utf8_lossy(lines_between(b, s, end_index(s, limit, file_lines(b))))
}

/// Whether the selected content's first line alone is over 50 KiB.
pub open spec fn first_line_too_long(content: Seq<char>) -> bool {
    let cb = encode_utf8(content);
    !fits_limits(cb, DEFAULT_MAX_LINES as nat, DEFAULT_MAX_BYTES as nat) && cb.len() > 0
        && first_line(cb).len() > DEFAULT_MAX_BYTES
}

/// Whether the selected content is over 2,000 lines or 50 KiB.
pub open spec fn over_limits(content: Seq<char>) -> bool {
    !fits_limits(encode_utf8(content), DEFAULT_MAX_LINES as nat, DEFAULT_MAX_BYTES as nat)
}

/// Lines kept by automatic truncation of the selected content.
pub open spec fn kept(content: Seq<char>) -> int {
    kept_lines(encode_utf8(content), DEFAULT_MAX_LINES as nat, DEFAULT_MAX_BYTES as nat) as int
}

/// Whether automatic truncation stopped at the byte limit.
pub open spec fn stopped_by_bytes(content: Seq<char>) -> bool {
    let cb = encode_utf8(content);
    kept(content) < min_nat(DEFAULT_MAX_LINES as nat, text_lines(cb).len())
}

/// Last line returned (1-indexed).
pub open spec fn read_end_line(b: Seq<u8>, offset: Option<i64>, limit: Option<i64>) -> int {
    let s = start_index(offset);
    let content = window_content(b, offset, limit);
    if first_line_too_long(content) {
        s
    } else if over_limits(content) {
        s + kept(content)
    } else {
        end_index(s, limit, file_lines(b))
    }
}

/// The notice for a first line too long to show.
pub open spec fn long_line_text(content: Seq<char>, start_line: int, input_path: Seq<char>) -> Seq<char> {
    "[Line "@ + decimal(start_line as nat) + " is "@ + size_text(
        first_line(encode_utf8(content)).len(),
    ) + ", exceeds "@ + size_text(DEFAULT_MAX_BYTES as nat) + " limit. Use bash: sed -n '"@
        + decimal(start_line as nat) + "p' "@ + input_path + " | head -c "@ + decimal(
        DEFAULT_MAX_BYTES as nat,
    ) + "]"@
}

/// The continuation notice after automatic truncation.
pub open spec fn truncated_notice(start_line: int, end_line: int, total: int, by_bytes: bool) -> Seq<
    char,
> {
    "\n\n[Showing lines "@ + decimal(start_line as nat) + "-"@ + decimal(end_line as nat) + " of "@
        + decimal(total as nat) + (if by_bytes {
        " ("@ + size_text(DEFAULT_MAX_BYTES as nat) + " limit)"@
    } else {
        Seq::<char>::empty()
    }) + ". Use offset="@ + decimal((end_line + 1) as nat) + " to continue.]"@
}

/// The continuation notice after a caller limit that stops early.
pub open spec fn limit_notice(numeric: int, total: int) -> Seq<char> {
    "\n\n["@ + signed_decimal(total - numeric) + " more lines in file. Use offset="@
        + signed_decimal(numeric + 1) + " to continue.]"@
}

/// Where a caller limit ends, when there is one.
pub open spec fn limit_end(s: int, limit: Option<i64>, total: int) -> Option<int> {
    match limit {
        Some(l) => Some(numeric_end(s, l, total)),
        None => None,
    }
}

/// The text for selected `content` that starts at 0-based line `s`.
pub open spec fn window_text(
    content: Seq<char>,
    s: int,
    total: int,
    ne: Option<int>,
    input_path: Seq<char>,
) -> Seq<char> {
    if first_line_too_long(content) {
        long_line_text(content, s + 1, input_path)
    } else if over_limits(content) {
        decode_utf8(head_bytes(encode_utf8(content), DEFAULT_MAX_LINES as nat, DEFAULT_MAX_BYTES as nat))
            + truncated_notice(s + 1, s + kept(content), total, stopped_by_bytes(content))
    } else {
        match ne {
            Some(n) => if n < total {
                content + limit_notice(n, total)
            } else {
                content
            },
            None => content,
        }
    }
}

/// The text `read` returns for a file's bytes and a window.
pub open spec fn read_text(b: Seq<u8>, offset: Option<i64>, limit: Option<i64>, input_path: Seq<char>) -> Seq<char> {
    let total = file_lines(b);
    let s = start_index(offset);
    window_text(window_content(b, offset, limit), s, total, limit_end(s, limit, total), input_path)
}

/// The error for an offset past the end of the file.
pub open spec fn offset_error_text(offset: Option<i64>, total: int) -> Seq<char> {
    "Offset "@ + signed_decimal(
        match offset {
            Some(o) => o as int,
            None => 1,
        },
    ) + " is beyond end of file ("@ + decimal(total as nat) + " lines total)"@
}

/// `r` is what `read` returns for the file bytes `b` and the window.
pub open spec fn is_read_window(
    input_path: Seq<char>,
    b: Seq<u8>,
    offset: Option<i64>,
    limit: Option<i64>,
    r: Result<ReadOutput, ToolError>,
) -> bool {
    let total = file_lines(b);
    let s = start_index(offset);
    let content = window_content(b, offset, limit);
    let text = read_text(b, offset, limit, input_path);
    if s >= total {
        r matches Err(ToolError::Failed(m)) && m@ == offset_error_text(offset, total)
    } else if encode_utf8(text).len() > MAX_RESULT_BYTES {
        r == Err::<ReadOutput, ToolError>(ToolError::ResultTooLarge)
    } else {
        &&& r is Ok
        &&& r->Ok_0.text@ == text
        &&& r->Ok_0.start_line == s + 1
        &&& r->Ok_0.end_line == read_end_line(b, offset, limit)
        &&& r->Ok_0.total_lines == total
        &&& (r->Ok_0.truncation is Some) == over_limits(content)
        &&& (r->Ok_0.truncation matches Some(t) ==> is_head_truncation(
            content,
            DEFAULT_MAX_LINES,
            DEFAULT_MAX_BYTES,
            t,
        ))
    }
}

fn long_line_notice(content: &str, start_line: u64, input_path: &str) -> (r: String)
    ensures
        r@ == long_line_text(content@, start_line as int, input_path@),
{
    let first_size = first_line_end(content.as_bytes());
    let line = decimal_string(start_line as u128);
    let t = cat("[Line ", line.as_str());
    let t = cat(t.as_str(), " is ");
    let t = cat(t.as_str(), format_size(first_size).as_str());
    let t = cat(t.as_str(), ", exceeds ");
    let t = cat(t.as_str(), format_size(DEFAULT_MAX_BYTES).as_str());
    let t = cat(t.as_str(), " limit. Use bash: sed -n '");
    let t = cat(t.as_str(), line.as_str());
    let t = cat(t.as_str(), "p' ");
    let t = cat(t.as_str(), input_path);
    let t = cat(t.as_str(), " | head -c ");
    let t = cat(t.as_str(), decimal_string(DEFAULT_MAX_BYTES as u128).as_str());
    let t = cat(t.as_str(), "]");
    proof {
        assert(first_line(encode_utf8(content@)).len() == first_size);
        assert(t@ =~= long_line_text(content@, start_line as int, input_path@));
    }
    t
}

fn truncated_text(head: &str, start_line: u64, last: u64, total: usize, by_bytes: bool) -> (r: String)
    requires
        last < u64::MAX,
    ensures
        r@ == head@ + truncated_notice(start_line as int, last as int, total as int, by_bytes),
{
    let t = cat(head, "\n\n[Showing lines ");
    let t = cat(t.as_str(), decimal_string(start_line as u128).as_str());
    let t = cat(t.as_str(), "-");
    let t = cat(t.as_str(), decimal_string(last as u128).as_str());
    let t = cat(t.as_str(), " of ");
    let t = cat(t.as_str(), decimal_string(total as u128).as_str());
    let t = if by_bytes {
        let t = cat(t.as_str(), " (");
        let t = cat(t.as_str(), format_size(DEFAULT_MAX_BYTES).as_str());
        cat(t.as_str(), " limit)")
    } else {
        t
    };
    let t = cat(t.as_str(), ". Use offset=");
    let t = cat(t.as_str(), decimal_string((last + 1) as u128).as_str());
    let t = cat(t.as_str(), " to continue.]");
    proof {
        assert(t@ =~= head@ + truncated_notice(start_line as int, last as int, total as int, by_bytes));
    }
    t
}

fn limit_text(content: String, ne: i128, total: usize) -> (r: String)
    requires
        -0x1_0000_0000_0000_0000 <= ne <= total,
    ensures
        r@ == content@ + limit_notice(ne as int, total as int),
{
    let t = cat(content.as_str(), "\n\n[");
    let t = cat(t.as_str(), signed_decimal_string((total as i128) - ne).as_str());
    let t = cat(t.as_str(), " more lines in file. Use offset=");
    let t = cat(t.as_str(), signed_decimal_string(ne + 1).as_str());
    let t = cat(t.as_str(), " to continue.]");
    proof {
        assert(t@ =~= content@ + limit_notice(ne as int, total as int));
    }
    t
}

/// The 0-based start, the 0-based end and the caller limit's end of the
/// window `offset`/`limit` over `total` lines.
fn window_bounds(offset: Option<i64>, limit: Option<i64>, total: usize) -> (r: Result<(usize, usize, Option<i128>), ()>)
    requires
        1 <= total <= MAX_FILE_BYTES + 1,
    ensures
        start_index(offset) >= total <==> r is Err,
        r matches Ok((s, e, ne)) ==> {
            &&& s == start_index(offset)
            &&& e == end_index(s as int, limit, total as int)
            &&& s < total && e <= total
            &&& (match (ne, limit_end(s as int, limit, total as int)) {
                (Some(x), Some(y)) => x == y,
                (None, None) => true,
                _ => false,
            })
            &&& (ne matches Some(x) ==> -0x1_0000_0000_0000_0000 <= x <= total)
        },
{
    let start_i64: i64 = match offset {
        Some(o) => if o > 1 {
            o - 1
        } else {
            0
        },
        None => 0,
    };
    if start_i64 as i128 >= total as i128 {
        return Err(());
    }
    let start = start_i64 as usize;
    match limit {
        Some(l) => {
            let ne: i128 = if (start as i128) + (l as i128) < total as i128 {
                (start as i128) + (l as i128)
            } else {
                total as i128
            };
            let slice_end: i128 = if ne < 0 {
                if (total as i128) + ne > 0 {
                    (total as i128) + ne
                } else {
                    0
                }
            } else {
                ne
            };
            let e: usize = if slice_end > start as i128 {
                slice_end as usize
            } else {
                start
            };
            Ok((start, e, Some(ne)))
        },
        None => Ok((start, total, None)),
    }
}

/// Selects the window `offset`/`limit` of a file's bytes and renders it with
/// the continuation notices.
pub fn read_window(input_path: &str, bytes: &[u8], offset: Option<i64>, limit: Option<i64>) -> (r:
    Result<ReadOutput, ToolError>)
    requires
        bytes@.len() <= MAX_FILE_BYTES,
    ensures
        is_read_window(input_path@, bytes@, offset, limit, r),
{
    let ghost b = bytes@;
    let newlines = count_newlines(bytes);
    proof {
        lemma_split_shape(b, 10u8);
        crate::truncate::lemma_count_bound(b);
    }
    let total: usize = newlines + 1;
    let (start, end, ne) = match window_bounds(offset, limit, total) {
        Ok(bounds) => bounds,
        Err(()) => {
            let shown: i64 = match offset {
                Some(o) => o,
                None => 1,
            };
            let m = cat("Offset ", signed_decimal_string(shown as i128).as_str());
            let m = cat(m.as_str(), " is beyond end of file (");
            let m = cat(m.as_str(), decimal_string(total as u128).as_str());
            let m = cat(m.as_str(), " lines total)");
            proof {
                assert(m@ =~= offset_error_text(offset, total as int));
            }
            return Err(ToolError::Failed(m));
        },
    };
    let selected = line_range(bytes, start, end, total);
    let content = lossy_string(selected);
    let truncation = truncate_head(content.as_str(), DEFAULT_MAX_LINES, DEFAULT_MAX_BYTES);
    let start_line: u64 = (start + 1) as u64;
    let ghost c = content@;
    proof {
        assert(c == window_content(b, offset, limit));
    }
    let text: String;
    let end_line: u64;
    let details: Option<TruncationResult>;
    if truncation.first_line_exceeds_limit {
        text = long_line_notice(content.as_str(), start_line, input_path);
        end_line = start_line - 1;
        details = Some(truncation);
    } else if truncation.truncated {
        let output_lines = truncation.output_lines as u64;
        let last = start_line + output_lines - 1;
        let by_bytes = match truncation.truncated_by {
            Some(TruncatedBy::Lines) => false,
            _ => true,
        };
        proof {
            encode_utf8_decode_utf8(truncation.content@);
        }
        text = truncated_text(truncation.content.as_str(), start_line, last, total, by_bytes);
        end_line = last;
        details = Some(truncation);
    } else {
        text = match ne {
            Some(n) => if n < total as i128 {
                limit_text(truncation.content, n, total)
            } else {
                truncation.content
            },
            None => truncation.content,
        };
        end_line = end as u64;
        details = None;
    }
    proof {
        assert(text@ == read_text(b, offset, limit, input_path@));
    }
    if text.as_str().as_bytes().len() > MAX_RESULT_BYTES {
        return Err(ToolError::ResultTooLarge);
    }
    Ok(
        ReadOutput {
            text,
            start_line,
            end_line,
            total_lines: total as u64,
            truncation: details,
        },
    )
}


/// The error text for a file over the read limit.
pub open spec fn oversized_text(path: Seq<char>) -> Seq<char> {
    "file exceeds "@ + decimal(MAX_FILE_BYTES as nat) + " byte read limit: "@ + path
        + "; offset/limit cannot bypass this limit, use bash to inspect a bounded range or split the file"@
}

fn oversized_file_error(path: &str) -> (r: ToolError)
    ensures
        r matches ToolError::Failed(m) && m@ == oversized_text(path@),
{
    let m = cat("file exceeds ", decimal_string(MAX_FILE_BYTES as u128).as_str());
    let m = cat(m.as_str(), " byte read limit: ");
    let m = cat(m.as_str(), path);
    let m = cat(
        m.as_str(),
        "; offset/limit cannot bypass this limit, use bash to inspect a bounded range or split the file",
    );
    proof {
        assert(m@ =~= oversized_text(path@));
    }
    ToolError::Failed(m)
}

/// What a read learned from the backend: the stat's error, the stat of a
/// path it did not go on to read, or the stat and the bounded read's answer.
pub enum ReadSeen {
    StatFailed(ToolFsError),
    Stat(FileStat),
    Read(FileStat, Result<Seq<u8>, ToolFsError>),
}

/// A bounded read's answer, with the bytes by their view.
pub open spec fn read_answer(answer: Result<Vec<u8>, ToolFsError>) -> Result<Seq<u8>, ToolFsError> {
    match answer {
        Ok(bytes) => Ok(bytes@),
        Err(e) => Err(e),
    }
}

/// Whether `r` is what a read of `input_path` (through its normalized form)
/// returns, given what it learned: the stat's error; a directory, a path that
/// is not a regular file and a file over [`MAX_FILE_BYTES`] by its stat are
/// structured errors; a read over the limit is the oversized error for the
/// path the backend names, any other read error is returned, and bytes read
/// give the window.
pub open spec fn read_outcome(
    seen: ReadSeen,
    input_path: Seq<char>,
    offset: Option<i64>,
    limit: Option<i64>,
    r: Result<ReadOutput, ToolError>,
) -> bool {
    let target = normalized_path(input_path);
    match seen {
        ReadSeen::StatFailed(e) => r == Err::<ReadOutput, ToolError>(ToolError::Fs(e)),
        ReadSeen::Stat(stat) => if stat.is_dir {
            r matches Err(ToolError::Failed(m)) && m@ == "Path is a directory: "@ + target
        } else if !stat.is_file {
            r matches Err(ToolError::Failed(m)) && m@ == "Path is not a file: "@ + target
        } else if stat.size > MAX_FILE_BYTES {
            r matches Err(ToolError::Failed(m)) && m@ == oversized_text(target)
        } else {
            false
        },
        ReadSeen::Read(stat, answer) => {
            &&& !stat.is_dir && stat.is_file && stat.size <= MAX_FILE_BYTES
            &&& match answer {
                Ok(b) => b.len() <= MAX_FILE_BYTES && is_read_window(input_path, b, offset, limit, r),
                Err(ToolFsError::FileTooLarge { path: reported, .. }) => r matches Err(
                    ToolError::Failed(m),
                ) && m@ == oversized_text(reported@),
                Err(e) => r == Err::<ReadOutput, ToolError>(ToolError::Fs(e)),
            }
        },
    }
}

/// Whether every answer in `seen` is one `fs` gave for the normalized path:
/// the stat, and the read bounded by [`MAX_FILE_BYTES`].
pub open spec fn read_seen_from<F: ToolFs>(fs: &F, seen: ReadSeen, input_path: Seq<char>) -> bool {
    let target = normalized_path(input_path);
    match seen {
        ReadSeen::StatFailed(e) => fs.stat_answer(target, Err(e)),
        ReadSeen::Stat(stat) => fs.stat_answer(target, Ok(stat)),
        ReadSeen::Read(stat, answer) => fs.stat_answer(target, Ok(stat)) && fs.bounded_read_answer(
            target,
            MAX_FILE_BYTES as nat,
            answer,
        ),
    }
}

/// Reads the window `offset`/`limit` of the file at `args.path` (normalized)
/// through `fs`: what [`read_outcome`] says for the backend's answers.
pub fn run<F: ToolFs>(args: ReadArgs, fs: &F) -> (r: Result<ReadOutput, ToolError>)
    ensures
        exists|seen: ReadSeen|
            #![trigger read_outcome(seen, args.path@, args.offset, args.limit, r)]
            read_seen_from(fs, seen, args.path@) && read_outcome(seen, args.path@, args.offset, args.limit, r),
{
    let path = normalize_tool_path(args.path.as_str());
    let stat = match fs.stat(path.as_str()) {
        Ok(stat) => stat,
        Err(e) => {
            proof {
                assert(read_seen_from(fs, ReadSeen::StatFailed(e), args.path@) && read_outcome(ReadSeen::StatFailed(e), args.path@, args.offset, args.limit, Err(ToolError::Fs(e))));
            }
            return Err(ToolError::Fs(e));
        },
    };
    if stat.is_dir {
        let r = Err(ToolError::Failed(cat("Path is a directory: ", path.as_str())));
        proof {
            assert(read_seen_from(fs, ReadSeen::Stat(stat), args.path@) && read_outcome(ReadSeen::Stat(stat), args.path@, args.offset, args.limit, r));
        }
        return r;
    }
    if !stat.is_file {
        let r = Err(ToolError::Failed(cat("Path is not a file: ", path.as_str())));
        proof {
            assert(read_seen_from(fs, ReadSeen::Stat(stat), args.path@) && read_outcome(ReadSeen::Stat(stat), args.path@, args.offset, args.limit, r));
        }
        return r;
    }
    if stat.size > MAX_FILE_BYTES as u64 {
        let r = Err(oversized_file_error(path.as_str()));
        proof {
            assert(read_seen_from(fs, ReadSeen::Stat(stat), args.path@) && read_outcome(ReadSeen::Stat(stat), args.path@, args.offset, args.limit, r));
        }
        return r;
    }
    let answer = fs.read_file_bounded(path.as_str(), MAX_FILE_BYTES);
    let ghost seen = ReadSeen::Read(stat, read_answer(answer));
    let bytes = match answer {
        Ok(bytes) => bytes,
        Err(ToolFsError::FileTooLarge { path: reported, .. }) => {
            let r = Err(oversized_file_error(reported.as_str()));
            proof {
                assert(read_seen_from(fs, seen, args.path@) && read_outcome(seen, args.path@, args.offset, args.limit, r));
            }
            return r;
        },
        Err(e) => {
            let r = Err(ToolError::Fs(e));
            proof {
                assert(read_seen_from(fs, seen, args.path@) && read_outcome(seen, args.path@, args.offset, args.limit, r));
            }
            return r;
        },
    };
    let r = read_window(args.path.as_str(), bytes.as_slice(), args.offset, args.limit);
    proof {
        assert(read_seen_from(fs, seen, args.path@) && read_outcome(seen, args.path@, args.offset, args.limit, r));
    }
    r
}

} // verus!
