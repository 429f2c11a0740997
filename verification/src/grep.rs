//! `grep`: search file contents for a pattern over the files a walk finds,
//! rendering bounded `path:line: text` rows.

use vstd::prelude::*;
use vstd::utf8::*;
use crate::fs::{bytes_answer, EffectClass, ToolContract, ToolError, ToolFs, ToolFsError};
use crate::globs::{compile_glob, glob_is_match, glob_matches, glob_compile_error, GlobPattern};
use crate::grep_render::{
    file_clipped, file_pieces, match_views, render_file, MatchLine, DEFAULT_LIMIT, MAX_LINE_CHARS,
};
use crate::path::{normalize_tool_path, normalized_path};
use crate::report::{
    append_notices, head_text, head_truncated, limit_reached_notice, limit_reached_text,
    size_notice, size_notice_text, truncate_listing, with_notices,
};
use crate::text::{cat, debug_quoted, debug_text, is_valid_utf8, join_strings, join_texts, texts_of};
use crate::truncate::{MAX_FILE_BYTES, MAX_RESULT_BYTES};
use crate::walk::{read_walk_file_bounded, settled_read, walk_answer, walk_error, walk_files, walk_result, WalkFile};

verus! {

/// Arguments of `grep`.
#[derive(Clone, Debug)]
pub struct GrepArgs {
    /// Search pattern (regex, or literal string with `literal: true`).
    pub pattern: String,
    /// Directory or file to search (default: workspace root).
    pub path: Option<String>,
    /// Filter files by glob pattern, e.g. `*.ts`.
    pub glob: Option<String>,
    pub ignore_case: bool,
    pub literal: bool,
    /// Lines of context before and after each match (default 0).
    pub context: Option<i64>,
    /// Maximum number of matches (default 100).
    pub limit: Option<i64>,
}

/// What `grep` returns.
#[derive(Clone, Debug, PartialEq, Eq)]
pub struct GrepOutput {
    /// Rendered match rows (`path:line: text`).
    pub text: String,
    pub match_count: u64,
    pub limit_reached: bool,
    pub truncated: bool,
    pub lines_truncated: bool,
}

/// The model-facing contract of `grep`.
pub fn contract() -> (r: ToolContract)
    ensures
        r.name@ == "grep"@,
        r.effect_class == EffectClass::Pure,
        r.description@ == "Search file contents for a pattern. Returns matching lines with file paths and line numbers. Respects .gitignore. Output is truncated to 100 matches or 50KB (whichever is hit first). Long lines are truncated to 500 chars."@,
        r.input_schema@ == "{\"type\":\"object\",\"properties\":{\"pattern\":{\"type\":\"string\",\"description\":\"Search pattern (regex or literal string)\"},\"path\":{\"type\":\"string\",\"description\":\"Directory or file to search (default: current directory)\"},\"glob\":{\"type\":\"string\",\"description\":\"Filter files by glob pattern, e.g. '*.ts' or '**/*.spec.ts'\"},\"ignoreCase\":{\"type\":\"boolean\",\"description\":\"Case-insensitive search (default: false)\"},\"literal\":{\"type\":\"boolean\",\"description\":\"Treat pattern as literal string instead of regex (default: false)\"},\"context\":{\"type\":\"number\",\"description\":\"Number of lines to show before and after each match (default: 0)\"},\"limit\":{\"type\":\"number\",\"description\":\"Maximum number of matches to return (default: 100)\"}},\"required\":[\"pattern\"]}"@,
{
    ToolContract {
        name: "grep",
        description: "Search file contents for a pattern. Returns matching lines with file paths and line numbers. Respects .gitignore. Output is truncated to 100 matches or 50KB (whichever is hit first). Long lines are truncated to 500 chars.",
        input_schema: "{\"type\":\"object\",\"properties\":{\"pattern\":{\"type\":\"string\",\"description\":\"Search pattern (regex or literal string)\"},\"path\":{\"type\":\"string\",\"description\":\"Directory or file to search (default: current directory)\"},\"glob\":{\"type\":\"string\",\"description\":\"Filter files by glob pattern, e.g. '*.ts' or '**/*.spec.ts'\"},\"ignoreCase\":{\"type\":\"boolean\",\"description\":\"Case-insensitive search (default: false)\"},\"literal\":{\"type\":\"boolean\",\"description\":\"Treat pattern as literal string instead of regex (default: false)\"},\"context\":{\"type\":\"number\",\"description\":\"Number of lines to show before and after each match (default: 0)\"},\"limit\":{\"type\":\"number\",\"description\":\"Maximum number of matches to return (default: 100)\"}},\"required\":[\"pattern\"]}",
        effect_class: EffectClass::Pure,
    }
}

#[verifier::external_type_specification]
#[verifier::external_body]
pub struct ExRegexMatcher(grep_regex::RegexMatcher);

/// A compiled search pattern, with what it was compiled from.
pub struct ContentMatcher {
    pattern: String,
    ignore_case: bool,
    literal: bool,
    inner: grep_regex::RegexMatcher,
}

impl View for ContentMatcher {
    type V = (Seq<char>, bool, bool);

    closed spec fn view(&self) -> (Seq<char>, bool, bool) {
        (self.pattern@, self.ignore_case, self.literal)
    }
}

/// A name for what `RegexMatcherBuilder::build` reports for `pattern` with
/// the given case sensitivity and fixed-string setting: the error's text,
/// or `None` when it compiles.
pub uninterp spec fn regex_build_error(pattern: Seq<char>, ignore_case: bool, literal: bool) -> Option<
    Seq<char>,
>;

/// A name for what a searcher with line numbers on, BOM sniffing off and
/// at most `max` matches hands its sink for `haystack`, using a matcher
/// compiled from `pattern`: each matching line's number and bytes, with its
/// line terminator; or the search error's text.
pub uninterp spec fn searched_lines(
    pattern: Seq<char>,
    ignore_case: bool,
    literal: bool,
    haystack: Seq<u8>,
    max: u64,
) -> Result<Seq<(u64, Seq<u8>)>, Seq<char>>;

/// `RegexMatcherBuilder` with `case_insensitive` and `fixed_strings` set,
/// then `build`. The contract claims that the outcome is the one named by
/// [`regex_build_error`] for the pattern and the two settings, and that a
/// compiled matcher remembers them; regex syntax is left to the name.
#[verifier::external_body]
fn build_content_matcher(pattern: &str, ignore_case: bool, literal: bool) -> (r: Result<
    ContentMatcher,
    String,
>)
    ensures
        match r {
            Ok(m) => m@ == (pattern@, ignore_case, literal) && regex_build_error(
                pattern@,
                ignore_case,
                literal,
            ) is None,
            Err(message) => regex_build_error(pattern@, ignore_case, literal) == Some(message@),
        },
{
    let mut builder = grep_regex::RegexMatcherBuilder::new();
    builder.case_insensitive(ignore_case).fixed_strings(literal);
    match builder.build(pattern) {
        Ok(inner) => Ok(ContentMatcher { pattern: pattern.to_string(), ignore_case, literal, inner }),
        Err(error) => Err(error.to_string()),
    }
}

/// A line's bytes without one trailing `\n`.
pub open spec fn without_newline(b: Seq<u8>) -> Seq<u8> {
    if b.len() > 0 && b.last() == 10u8 {
        b.drop_last()
    } else {
        b
    }
}

/// The match lines a search yields for what its sink was handed.
pub open spec fn match_lines_of(emitted: Seq<(u64, Seq<u8>)>) -> Seq<(u64, Seq<u8>)> {
    emitted.map_values(|e: (u64, Seq<u8>)| (e.0, without_newline(e.1)))
}

/// Records one matching line as the search's sink receives it.
fn record_match(found: &mut Vec<MatchLine>, line_number: u64, bytes: &[u8]) -> (keep_going: bool)
    ensures
        match_views(final(found)@) == match_views(old(found)@).push(
            (line_number, without_newline(bytes@)),
        ),
        keep_going,
{
    let n = bytes.len();
    let end = if n > 0 && bytes[n - 1] == 10 {
        n - 1
    } else {
        n
    };
    let mut line: Vec<u8> = Vec::new();
    crate::text::push_bytes(&mut line, &bytes[0..end]);
    proof {
        assert(line@ =~= without_newline(bytes@));
    }
    found.push(MatchLine { line_number, bytes: line });
    proof {
        assert(match_views(found@) =~= match_views(old(found)@).push(
            (line_number, without_newline(bytes@)),
        ));
    }
    true
}

/// `SearcherBuilder` with line numbers on, BOM sniffing off and at most
/// `max` matches, then `search_slice` into a sink that records each match.
/// The contract claims that what the sink is handed is named by
/// [`searched_lines`] for the matcher's pattern and settings, the haystack
/// and `max`; that the recorded lines are those, each without its `\n`; and,
/// as the builder's documentation says, that there are at most `max`. Which
/// lines match is left to the name.
#[verifier::external_body]
fn search_matches(matcher: &ContentMatcher, haystack: &[u8], max: u64) -> (r: Result<
    Vec<MatchLine>,
    String,
>)
    ensures
        match r {
            Ok(found) => searched_lines(matcher@.0, matcher@.1, matcher@.2, haystack@, max) matches Ok(
                emitted,
            ) && match_views(found@) == match_lines_of(emitted) && emitted.len() <= max,
            Err(message) => searched_lines(matcher@.0, matcher@.1, matcher@.2, haystack@, max)
                == Err::<Seq<(u64, Seq<u8>)>, Seq<char>>(message@),
        },
{
    let mut searcher = grep_searcher::SearcherBuilder::new()
        .line_number(true)
        .bom_sniffing(false)
        .max_matches(Some(max))
        .build();
    let mut found: Vec<MatchLine> = Vec::new();
    let sink = grep_searcher::sinks::Bytes(|line_number, bytes| Ok(record_match(&mut found, line_number, bytes)));
    match searcher.search_slice(&matcher.inner, haystack, sink) {
        Ok(()) => Ok(found),
        Err(error) => Err(error.to_string()),
    }
}

/// The notice for lines clipped to 500 UTF-16 units.
pub open spec fn clipped_notice() -> Seq<char> {
    "Some lines truncated to 500 chars. Use read tool to see full lines"@
}

/// The notices of a search, in order: the match limit, the 50 KiB limit,
/// clipped lines.
pub open spec fn grep_notices(raw: Seq<char>, limit_reached: bool, lines_truncated: bool, limit: i64) -> Seq<
    Seq<char>,
> {
    (if limit_reached {
        seq![limit_reached_notice(limit, "matches"@)]
    } else {
        Seq::<Seq<char>>::empty()
    }) + (if head_truncated(raw) {
        seq![size_notice()]
    } else {
        Seq::<Seq<char>>::empty()
    }) + (if lines_truncated {
        seq![clipped_notice()]
    } else {
        Seq::<Seq<char>>::empty()
    })
}

/// The text of a search that found matches, from the pieces the files
/// contributed: joined by newlines, head-truncated to 50 KiB, with its
/// notices.
pub open spec fn grep_text(pieces: Seq<Seq<char>>, limit_reached: bool, lines_truncated: bool, limit: i64) -> Seq<
    char,
> {
    let raw = join_texts(pieces, "\n"@);
    with_notices(head_text(raw), grep_notices(raw, limit_reached, lines_truncated, limit))
}

/// What a search comes to, given the pieces the files contributed and what
/// was counted along the way.
pub open spec fn grep_outcome(
    pieces: Seq<Seq<char>>,
    match_count: u64,
    limit_reached: bool,
    lines_truncated: bool,
    limit: i64,
    r: Result<GrepOutput, ToolError>,
) -> bool {
    if match_count == 0 {
        r matches Ok(out) && out.text@ == "No matches found"@ && out.match_count == 0
            && !out.limit_reached && !out.truncated && !out.lines_truncated
    } else {
        let text = grep_text(pieces, limit_reached, lines_truncated, limit);
        if encode_utf8(text).len() > MAX_RESULT_BYTES {
            r == Err::<GrepOutput, ToolError>(ToolError::ResultTooLarge)
        } else {
            r matches Ok(out) && out.text@ == text && out.match_count == match_count
                && out.limit_reached == limit_reached && out.truncated == head_truncated(
                join_texts(pieces, "\n"@),
            ) && out.lines_truncated == lines_truncated
        }
    }
}

/// Finishes a search from the pieces the files contributed.
pub fn finish_grep(
    pieces: &Vec<String>,
    match_count: u64,
    limit_reached: bool,
    lines_truncated: bool,
    limit: i64,
) -> (r: Result<GrepOutput, ToolError>)
    requires
        limit >= 0,
    ensures
        grep_outcome(texts_of(pieces@), match_count, limit_reached, lines_truncated, limit, r),
{
    if match_count == 0 {
        let text = "No matches found".to_string();
        proof {
            reveal_strlit("No matches found");
        }
        return Ok(
            GrepOutput {
                text,
                match_count,
                limit_reached: false,
                truncated: false,
                lines_truncated: false,
            },
        );
    }
    let raw = join_strings(pieces, "\n");
    let truncation = truncate_listing(raw.as_str());
    let mut notices: Vec<String> = Vec::new();
    if limit_reached {
        notices.push(limit_reached_text(limit, "matches"));
    }
    if truncation.truncated {
        notices.push(size_notice_text());
    }
    if lines_truncated {
        notices.push("Some lines truncated to 500 chars. Use read tool to see full lines".to_string());
    }
    proof {
        reveal_strlit("Some lines truncated to 500 chars. Use read tool to see full lines");
        assert(texts_of(notices@) =~= grep_notices(raw@, limit_reached, lines_truncated, limit));
    }
    let text = append_notices(truncation.content, &notices);
    if text.as_str().as_bytes().len() > MAX_RESULT_BYTES {
        return Err(ToolError::ResultTooLarge);
    }
    Ok(
        GrepOutput {
            text,
            match_count,
            limit_reached,
            truncated: truncation.truncated,
            lines_truncated,
        },
    )
}

/// The match limit in force: the one given, or 100, and at least 1.
pub open spec fn effective_limit(limit: Option<i64>) -> i64 {
    let given = match limit {
        Some(l) => l,
        None => DEFAULT_LIMIT,
    };
    if given < 1 {
        1
    } else {
        given
    }
}

/// The context in force: the count given, or 0; negative counts are 0 and
/// counts beyond `usize::MAX` are `usize::MAX`.
pub open spec fn effective_context(context: Option<i64>) -> u64 {
    let given = match context {
        Some(c) => c,
        None => 0,
    };
    if given < 0 {
        0
    } else if given > usize::MAX {
        usize::MAX as u64
    } else {
        given as u64
    }
}

/// The root a search or find walks: the path given, or `.`, normalized.
pub open spec fn search_root(path: Option<String>) -> Seq<char> {
    normalized_path(
        match path {
            Some(p) => p@,
            None => "."@,
        },
    )
}

/// The error text for a search pattern that does not compile.
pub open spec fn pattern_error_text(pattern: Seq<char>, message: Seq<char>) -> Seq<char> {
    "invalid search pattern "@ + debug_quoted(pattern) + ": "@ + message
}

/// The error text for a glob pattern that does not compile.
pub open spec fn glob_error_text(pattern: Seq<char>, message: Seq<char>) -> Seq<char> {
    "invalid glob pattern "@ + debug_quoted(pattern) + ": "@ + message
}

/// The error text for a root that does not exist.
pub open spec fn path_not_found_text(root: Seq<char>) -> Seq<char> {
    "Path not found: "@ + root
}

/// The error text for a search that fails on a file.
pub open spec fn search_failed_text(relative_path: Seq<char>, message: Seq<char>) -> Seq<char> {
    "failed to search "@ + relative_path + ": "@ + message
}

/// `head` followed by the quoted pattern and the message.
fn pattern_message(head: &str, pattern: &str, message: &str) -> (r: String)
    ensures
        r@ == head@ + debug_quoted(pattern@) + ": "@ + message@,
{
    let quoted = debug_text(pattern);
    let a = cat(head, quoted.as_str());
    let b = cat(a.as_str(), ": ");
    cat(b.as_str(), message)
}

/// Whether the bytes hold a NUL.
pub fn contains_nul(bytes: &[u8]) -> (r: bool)
    ensures
        r == bytes@.contains(0u8),
{
    let mut i: usize = 0;
    while i < bytes.len()
        invariant
            0 <= i <= bytes@.len(),
            forall|k: int| 0 <= k < i ==> bytes@[k] != 0u8,
        decreases bytes@.len() - i,
    {
        if bytes[i] == 0 {
            proof {
                assert(bytes@[i as int] == 0u8);
            }
            return true;
        }
        i = i + 1;
    }
    false
}

/// What a search looks for and how it renders its rows.
pub struct GrepQuery {
    pub pattern: Seq<char>,
    pub ignore_case: bool,
    pub literal: bool,
    pub glob: Option<Seq<char>>,
    pub context: u64,
    pub limit: u64,
}

/// The query a search's arguments make.
pub open spec fn grep_query(args: GrepArgs) -> GrepQuery {
    GrepQuery {
        pattern: args.pattern@,
        ignore_case: args.ignore_case,
        literal: args.literal,
        glob: match args.glob {
            Some(g) => Some(g@),
            None => None,
        },
        context: effective_context(args.context),
        limit: effective_limit(args.limit) as u64,
    }
}

/// Whether a walked entry is searched: a file whose relative path the
/// query's glob, if any, matches.
pub open spec fn grep_selects(f: WalkFile, glob: Option<Seq<char>>) -> bool {
    !f.is_dir && match glob {
        Some(g) => glob_matches(g, f.relative_path@),
        None => true,
    }
}

/// Where a search stands after the first `n` walked entries, given what
/// reading each came to (`None` when it was not read or the read was
/// passed over): the pieces rendered so far, the matches counted, whether
/// the limit was reached, and whether a line was clipped. Once the limit
/// is reached, later entries add nothing; files that are not UTF-8 or hold
/// a NUL are skipped; each file is searched for at most the matches still
/// wanted.
pub open spec fn grep_fold(
    files: Seq<WalkFile>,
    reads: Seq<Option<Seq<u8>>>,
    n: int,
    q: GrepQuery,
) -> (Seq<Seq<char>>, nat, bool, bool)
    decreases n,
{
    if n <= 0 {
        (Seq::<Seq<char>>::empty(), 0, false, false)
    } else {
        let prev = grep_fold(files, reads, n - 1, q);
        let f = files[n - 1];
        if prev.2 || !grep_selects(f, q.glob) {
            prev
        } else {
            match reads[n - 1] {
                None => prev,
                Some(b) => if !valid_utf8(b) || b.contains(0u8) {
                    prev
                } else {
                    match searched_lines(q.pattern, q.ignore_case, q.literal, b, (q.limit - prev.1) as u64) {
                        Ok(emitted) => {
                            let found = match_lines_of(emitted);
                            let count = prev.1 + found.len();
                            (
                                prev.0 + file_pieces(f.relative_path@, b, found, q.context),
                                count,
                                count >= q.limit,
                                prev.3 || file_clipped(b, found, q.context),
                            )
                        },
                        Err(_) => prev,
                    }
                },
            }
        }
    }
}

/// The fold over the first `n` entries looks at the first `n` reads only.
proof fn lemma_grep_fold_prefix(
    files: Seq<WalkFile>,
    r1: Seq<Option<Seq<u8>>>,
    r2: Seq<Option<Seq<u8>>>,
    n: int,
    q: GrepQuery,
)
    requires
        forall|k: int| 0 <= k < n ==> r1[k] == r2[k],
    ensures
        grep_fold(files, r1, n, q) == grep_fold(files, r2, n, q),
    decreases n,
{
    if n > 0 {
        lemma_grep_fold_prefix(files, r1, r2, n - 1, q);
        assert(r1[n - 1] == r2[n - 1]);
    }
}

/// Once the limit is reached, the fold stays where it is.
proof fn lemma_grep_fold_stable(
    files: Seq<WalkFile>,
    reads: Seq<Option<Seq<u8>>>,
    i: int,
    j: int,
    q: GrepQuery,
)
    requires
        0 <= i <= j,
        grep_fold(files, reads, i, q).2,
    ensures
        grep_fold(files, reads, j, q) == grep_fold(files, reads, i, q),
    decreases j - i,
{
    if j > i {
        lemma_grep_fold_stable(files, reads, i, j - 1, q);
    }
}

/// Whether every read that came to bytes came to at most [`MAX_FILE_BYTES`].
pub open spec fn reads_within(reads: Seq<Option<Seq<u8>>>) -> bool {
    forall|k: int| 0 <= k < reads.len() && reads[k] is Some ==> (#[trigger] reads[k])->0.len() <= MAX_FILE_BYTES
}

/// Whether the read recorded for a file, `got`, is what a bounded read
/// answering `answer` settles to: its bytes; nothing when the file is over
/// the limit, or when the read failed and the entry skips read errors.
pub open spec fn read_settles(answer: Result<Seq<u8>, ToolFsError>, skip_read_errors: bool, got: Option<Seq<u8>>) -> bool {
    match answer {
        Ok(bytes) => got == Some(bytes),
        Err(ToolFsError::FileTooLarge { .. }) => got is None,
        Err(_) => skip_read_errors && got is None,
    }
}

/// Whether what was recorded of the `k`th entry is owed by the search: an
/// entry the search reaches before its limit and selects is read, unless
/// its size at walk time is over [`MAX_FILE_BYTES`], and the read recorded
/// settles an answer `fs` gave to a read of its path bounded by that limit.
pub open spec fn read_fits<F: ToolFs>(fs: &F, files: Seq<WalkFile>, reads: Seq<Option<Seq<u8>>>, k: int, q: GrepQuery) -> bool {
    !grep_fold(files, reads, k, q).2 && grep_selects(files[k], q.glob) ==> if files[k].size > MAX_FILE_BYTES {
        reads[k] is None
    } else {
        exists|answer: Result<Seq<u8>, ToolFsError>|
            fs.bounded_read_answer(files[k].path@, MAX_FILE_BYTES as nat, answer) && #[trigger] read_settles(
                answer,
                files[k].skip_read_errors,
                reads[k],
            )
    }
}

/// A settled read's bytes by their view.
pub open spec fn read_view(read: Option<Vec<u8>>) -> Option<Seq<u8>> {
    match read {
        Some(bytes) => Some(bytes@),
        None => None,
    }
}

/// Whether the reads recorded for the first `n` entries are all owed.
pub open spec fn reads_fit<F: ToolFs>(fs: &F, files: Seq<WalkFile>, reads: Seq<Option<Seq<u8>>>, n: int, q: GrepQuery) -> bool {
    forall|k: int| 0 <= k < n ==> #[trigger] read_fits(fs, files, reads, k, q)
}

/// Why a search stopped before its end.
pub enum GrepStop {
    /// Reading a file whose read errors are not skipped failed.
    ReadFailed(ToolFsError),
    /// Searching a file's bytes failed with this message.
    SearchFailed(Seq<u8>, Seq<char>),
}

/// What a search learned: the walk's error; or the walked entries with what
/// reading each came to (see [`grep_fold`]), and, when it stopped early, why
/// it stopped at the entry after those read.
pub enum GrepSeen {
    WalkFailed(ToolError),
    Searched(Seq<WalkFile>, Seq<Option<Seq<u8>>>),
    Stopped(Seq<WalkFile>, Seq<Option<Seq<u8>>>, GrepStop),
}

/// Whether `r` is what a search of `args` returns, given what it learned: a
/// walk that finds the root missing is reported as not found, any other walk
/// error is returned; a search of every walked entry gives the report of
/// [`grep_fold`]; a search stops on a selected file, before the limit is
/// reached, when reading it fails or when searching its bytes fails.
pub open spec fn grep_run_outcome<F: ToolFs>(fs: &F, seen: GrepSeen, args: GrepArgs, r: Result<GrepOutput, ToolError>) -> bool {
    let root = search_root(args.path);
    let q = grep_query(args);
    match seen {
        GrepSeen::WalkFailed(e) => walk_error(fs, root, e) && (if e matches ToolError::Fs(ToolFsError::NotFound(_)) {
            r matches Err(ToolError::Failed(text)) && text@ == path_not_found_text(root)
        } else {
            r == Err::<GrepOutput, ToolError>(e)
        }),
        GrepSeen::Searched(files, reads) => {
            &&& walk_result(fs, root, files)
            &&& reads.len() == files.len()
            &&& reads_within(reads)
            &&& reads_fit(fs, files, reads, files.len() as int, q)
            &&& {
                let done = grep_fold(files, reads, files.len() as int, q);
                grep_outcome(done.0, done.1 as u64, done.2, done.3, effective_limit(args.limit), r)
            }
        },
        GrepSeen::Stopped(files, reads, stop) => {
            let k = reads.len() as int;
            let at = grep_fold(files, reads, k, q);
            &&& walk_result(fs, root, files)
            &&& k < files.len()
            &&& reads_within(reads)
            &&& reads_fit(fs, files, reads, k, q)
            &&& !at.2
            &&& grep_selects(files[k], q.glob)
            &&& match stop {
                GrepStop::ReadFailed(e) => !files[k].skip_read_errors && files[k].size
                    <= MAX_FILE_BYTES && !(e is FileTooLarge) && fs.bounded_read_answer(
                    files[k].path@,
                    MAX_FILE_BYTES as nat,
                    Err(e),
                ) && r == Err::<GrepOutput, ToolError>(ToolError::Fs(e)),
                GrepStop::SearchFailed(b, message) => files[k].size <= MAX_FILE_BYTES
                    && fs.bounded_read_answer(files[k].path@, MAX_FILE_BYTES as nat, Ok(b))
                    && b.len() <= MAX_FILE_BYTES && valid_utf8(b)
                    && !b.contains(0u8) && searched_lines(
                    q.pattern,
                    q.ignore_case,
                    q.literal,
                    b,
                    (q.limit - at.1) as u64,
                ) == Err::<Seq<(u64, Seq<u8>)>, Seq<char>>(message) && (r matches Err(
                    ToolError::Failed(text),
                ) && text@ == search_failed_text(files[k].relative_path@, message)),
            }
        },
    }
}

/// Searches file contents for a pattern.
///
/// The pattern is a regex, or a fixed string with `literal`. The files are
/// those a walk of the root finds, optionally filtered by a glob on their
/// relative paths; directories, files over 8 MiB, non-UTF-8 files and files
/// holding a NUL are skipped. Files are searched in walk order until the
/// match limit is reached: what [`grep_run_outcome`] says for the backend's
/// answers.
pub fn run<F: ToolFs>(args: GrepArgs, fs: &F) -> (r: Result<GrepOutput, ToolError>)
    ensures
        regex_build_error(args.pattern@, args.ignore_case, args.literal) matches Some(message) ==> (
        r matches Err(ToolError::InvalidArgs(text)) && text@ == pattern_error_text(
            args.pattern@,
            message,
        )),
        regex_build_error(args.pattern@, args.ignore_case, args.literal) is None && args.glob is Some
            && glob_compile_error(args.glob->0@) is Some ==> (r matches Err(ToolError::InvalidArgs(text))
            && text@ == glob_error_text(args.glob->0@, glob_compile_error(args.glob->0@)->0)),
        regex_build_error(args.pattern@, args.ignore_case, args.literal) is None && (args.glob is Some
            ==> glob_compile_error(args.glob->0@) is None) ==> exists|seen: GrepSeen|
            #![trigger grep_run_outcome(fs, seen, args, r)]
            grep_run_outcome(fs, seen, args, r),
        r matches Ok(out) ==> out.match_count <= effective_limit(args.limit) && (out.limit_reached
            <==> out.match_count == effective_limit(args.limit)),
{
    let given_limit = match args.limit {
        Some(l) => l,
        None => DEFAULT_LIMIT,
    };
    let effective: i64 = if given_limit < 1 {
        1
    } else {
        given_limit
    };
    let limit = effective as u64;
    let matcher = match build_content_matcher(args.pattern.as_str(), args.ignore_case, args.literal) {
        Ok(m) => m,
        Err(message) => {
            let text = pattern_message("invalid search pattern ", args.pattern.as_str(), message.as_str());
            proof {
                reveal_strlit("invalid search pattern ");
            }
            return Err(ToolError::InvalidArgs(text));
        },
    };
    let glob: Option<GlobPattern> = match &args.glob {
        Some(pattern) => match compile_glob(pattern.as_str()) {
            Ok(g) => Some(g),
            Err(message) => {
                let text = pattern_message("invalid glob pattern ", pattern.as_str(), message.as_str());
                proof {
                    reveal_strlit("invalid glob pattern ");
                }
                return Err(ToolError::InvalidArgs(text));
            },
        },
        None => None,
    };
    let input_root = match &args.path {
        Some(p) => p.clone(),
        None => ".".to_string(),
    };
    let root = normalize_tool_path(input_root.as_str());
    proof {
        assert(root@ == search_root(args.path));
    }
    let walked = walk_files(root.as_str(), fs);
    let ghost answer = walk_answer(walked);
    let files = match walked {
        Ok(files) => files,
        Err(error) => {
            let r = match error {
                ToolError::Fs(ToolFsError::NotFound(_)) => Err(ToolError::Failed(cat("Path not found: ", root.as_str()))),
                _ => Err(error),
            };
            proof {
                assert(grep_run_outcome(fs, GrepSeen::WalkFailed(answer->Err_0), args, r));
            }
            return r;
        },
    };
    let given_context = match args.context {
        Some(c) => c,
        None => 0,
    };
    let context: u64 = if given_context < 0 {
        0
    } else if given_context as u64 > usize::MAX as u64 {
        usize::MAX as u64
    } else {
        given_context as u64
    };
    let ghost q = grep_query(args);
    let mut pieces: Vec<String> = Vec::new();
    let mut match_count: u64 = 0;
    let mut limit_reached = false;
    let mut lines_truncated = false;
    let ghost mut reads: Seq<Option<Seq<u8>>> = Seq::empty();
    let mut i: usize = 0;
    while i < files.len() && !limit_reached
        invariant
            0 <= i <= files@.len(),
            q == grep_query(args),
            limit == effective,
            effective == effective_limit(args.limit),
            q.limit == limit,
            q.context == context,
            matcher@ == (q.pattern, q.ignore_case, q.literal),
            match glob {
                Some(g) => q.glob == Some(g@),
                None => q.glob is None,
            },
            match_count <= limit,
            limit_reached <==> match_count == limit,
            regex_build_error(args.pattern@, args.ignore_case, args.literal) is None,
            args.glob is Some ==> glob_compile_error(args.glob->0@) is None,
            walk_result(fs, search_root(args.path), files@),
            reads.len() == i,
            reads_within(reads),
            reads_fit(fs, files@, reads, i as int, q),
            ({
                let st = grep_fold(files@, reads, i as int, q);
                &&& texts_of(pieces@) == st.0
                &&& match_count == st.1
                &&& limit_reached == st.2
                &&& lines_truncated == st.3
            }),
        decreases files@.len() - i,
    {
        let file = &files[i];
        let ghost prev = grep_fold(files@, reads, i as int, q);
        let selected = !file.is_dir && match &glob {
            Some(g) => glob_is_match(g, file.relative_path.as_str()),
            None => true,
        };
        let ghost mut seen: Option<Seq<u8>> = None;
        if selected {
            let result = read_walk_file_bounded(file, fs, MAX_FILE_BYTES);
            let ghost settled = result;
            let read = match result {
                Ok(read) => read,
                Err(error) => {
                    proof {
                        assert(files@[i as int] == *file);
                        let raw = choose|raw: Result<Vec<u8>, ToolFsError>|
                            #![trigger settled_read(raw, file.skip_read_errors)]
                            fs.bounded_read_answer(file.path@, MAX_FILE_BYTES as nat, bytes_answer(raw))
                                && settled == settled_read(raw, file.skip_read_errors);
                        assert(bytes_answer(raw) == Err::<Seq<u8>, ToolFsError>(error->Fs_0));
                        let stop = GrepStop::ReadFailed(error->Fs_0);
                        assert(grep_run_outcome(fs, GrepSeen::Stopped(files@, reads, stop), args, Err(error)));
                    }
                    return Err(error);
                },
            };
            proof {
                seen = read_view(read);
                assert(files@[i as int] == *file);
                if file.size <= MAX_FILE_BYTES {
                    let raw = choose|raw: Result<Vec<u8>, ToolFsError>|
                        #![trigger settled_read(raw, file.skip_read_errors)]
                        fs.bounded_read_answer(file.path@, MAX_FILE_BYTES as nat, bytes_answer(raw))
                            && settled == settled_read(raw, file.skip_read_errors);
                    assert(read_settles(bytes_answer(raw), file.skip_read_errors, seen));
                }
            }
            match read {
                Some(bytes) => {
                    proof {
                        if file.size <= MAX_FILE_BYTES {
                            let raw = choose|raw: Result<Vec<u8>, ToolFsError>|
                                #![trigger settled_read(raw, file.skip_read_errors)]
                                fs.bounded_read_answer(file.path@, MAX_FILE_BYTES as nat, bytes_answer(raw))
                                    && settled == settled_read(raw, file.skip_read_errors);
                            assert(bytes_answer(raw) == Ok::<Seq<u8>, ToolFsError>(bytes@));
                        }
                    }
                    if is_valid_utf8(bytes.as_slice()) && !contains_nul(bytes.as_slice()) {
                        let remaining = limit - match_count;
                        let found = match search_matches(&matcher, bytes.as_slice(), remaining) {
                            Ok(found) => found,
                            Err(message) => {
                                let a = cat("failed to search ", file.relative_path.as_str());
                                let b = cat(a.as_str(), ": ");
                                let text = cat(b.as_str(), message.as_str());
                                let r = Err(ToolError::Failed(text));
                                proof {
                                    assert(text@ == search_failed_text(
                                        file.relative_path@,
                                        message@,
                                    ));
                                    assert(files@[i as int] == *file);
                                    let stop = GrepStop::SearchFailed(bytes@, message@);
                                    assert(grep_run_outcome(fs, GrepSeen::Stopped(files@, reads, stop), args, r));
                                }
                                return r;
                            },
                        };
                        proof {
                            assert(found@.len() == match_views(found@).len());
                        }
                        match_count = match_count + found.len() as u64;
                        let (file_pieces_vec, clipped) = render_file(
                            file.relative_path.as_str(),
                            bytes.as_slice(),
                            &found,
                            context,
                        );
                        let ghost before = pieces@;
                        let mut more = file_pieces_vec;
                        let ghost added = more@;
                        pieces.append(&mut more);
                        proof {
                            assert(pieces@ == before + added);
                            assert(texts_of(pieces@) =~= texts_of(before) + texts_of(added));
                        }
                        lines_truncated = lines_truncated || clipped;
                        if match_count >= limit {
                            limit_reached = true;
                        }
                    }
                },
                None => {},
            }
        }
        proof {
            let old_reads = reads;
            reads = reads.push(seen);
            lemma_grep_fold_prefix(files@, reads, old_reads, i as int, q);
            assert(reads[i as int] == seen);
            assert(files@[i as int] == *file);
            assert forall|k: int| 0 <= k < i + 1 implies #[trigger] read_fits(fs, files@, reads, k, q) by {
                lemma_grep_fold_prefix(files@, reads, old_reads, k, q);
                if k < i {
                    assert(reads[k] == old_reads[k]);
                    assert(read_fits(fs, files@, old_reads, k, q));
                }
            }
        }
        i = i + 1;
    }
    proof {
        if reads.len() < files@.len() {
            let n = files@.len() - reads.len();
            let extra = Seq::new(n as nat, |k: int| None::<Seq<u8>>);
            let full = reads + extra;
            lemma_grep_fold_prefix(files@, full, reads, i as int, q);
            lemma_grep_fold_stable(files@, full, i as int, files@.len() as int, q);
            assert forall|k: int| 0 <= k < files@.len() implies #[trigger] read_fits(fs, files@, full, k, q) by {
                if k < i {
                    lemma_grep_fold_prefix(files@, full, reads, k, q);
                    assert(full[k] == reads[k]);
                    assert(read_fits(fs, files@, reads, k, q));
                } else {
                    lemma_grep_fold_stable(files@, full, i as int, k, q);
                }
            }
            reads = full;
        }
    }
    let r = finish_grep(&pieces, match_count, limit_reached, lines_truncated, effective);
    proof {
        assert(search_root(args.path) == root@);
        assert(walk_result(fs, search_root(args.path), files@));
        assert(grep_outcome(
            texts_of(pieces@),
            match_count,
            limit_reached,
            lines_truncated,
            effective_limit(args.limit),
            r,
        ));
        let done = grep_fold(files@, reads, files@.len() as int, grep_query(args));
        assert(done.1 as u64 == match_count);
        assert(grep_run_outcome(fs, GrepSeen::Searched(files@, reads), args, r));
    }
    r
}

} // verus!
