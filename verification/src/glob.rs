//! `find`: find files and directories by glob pattern over the entries a
//! walk finds.

use vstd::prelude::*;
use vstd::utf8::*;
use crate::fs::{EffectClass, FileStat, ToolContract, ToolError, ToolFs, ToolFsError};
use crate::globs::{compile_glob, glob_is_match, glob_matches, glob_compile_error};
use crate::grep::{glob_error_text, path_not_found_text, search_root};
use crate::order::lex_le;
use crate::path::{file_name, file_name_of, normalize_tool_path};
use crate::report::{
    append_notices, head_text, head_truncated, limit_reached_notice, limit_reached_text,
    size_notice, size_notice_text, truncate_listing, with_notices,
};
use crate::text::{
    cat, debug_quoted, debug_text, join_strings, join_texts, lemma_encode_contains_ascii,
    string_of_range, texts_of,
};
use crate::truncate::MAX_RESULT_BYTES;
use crate::walk::{walk_answer, walk_error, walk_files, walk_key, walk_result, WalkFile};

verus! {

/// Default number of results.
pub const DEFAULT_LIMIT: i64 = 1000;

/// Arguments of `find`.
#[derive(Clone, Debug)]
pub struct GlobArgs {
    /// Glob pattern, e.g. `*.ts`, `**/*.json`, `src/**/*.spec.ts`.
    pub pattern: String,
    /// Directory to search in (default: workspace root).
    pub path: Option<String>,
    /// Maximum number of results (default 1000).
    pub limit: Option<i64>,
}

/// What `find` returns.
#[derive(Clone, Debug, PartialEq, Eq)]
pub struct GlobOutput {
    /// The model-facing text.
    pub text: String,
    /// Root-relative `/`-separated paths, sorted.
    pub paths: Vec<String>,
    pub limit_reached: bool,
    pub truncated: bool,
}

/// The model-facing contract of `find`.
pub fn contract() -> (r: ToolContract)
    ensures
        r.name@ == "find"@,
        r.effect_class == EffectClass::Pure,
        r.description@ == "Search for files by glob pattern. Returns matching file paths relative to the search directory. Respects .gitignore. Output is truncated to 1000 results or 50KB (whichever is hit first)."@,
        r.input_schema@ == "{\"type\":\"object\",\"properties\":{\"pattern\":{\"type\":\"string\",\"description\":\"Glob pattern to match files, e.g. '*.ts', '**/*.json', or 'src/**/*.spec.ts'\"},\"path\":{\"type\":\"string\",\"description\":\"Directory to search in (default: current directory)\"},\"limit\":{\"type\":\"number\",\"description\":\"Maximum number of results (default: 1000)\"}},\"required\":[\"pattern\"]}"@,
{
    ToolContract {
        name: "find",
        description: "Search for files by glob pattern. Returns matching file paths relative to the search directory. Respects .gitignore. Output is truncated to 1000 results or 50KB (whichever is hit first).",
        input_schema: "{\"type\":\"object\",\"properties\":{\"pattern\":{\"type\":\"string\",\"description\":\"Glob pattern to match files, e.g. '*.ts', '**/*.json', or 'src/**/*.spec.ts'\"},\"path\":{\"type\":\"string\",\"description\":\"Directory to search in (default: current directory)\"},\"limit\":{\"type\":\"number\",\"description\":\"Maximum number of results (default: 1000)\"}},\"required\":[\"pattern\"]}",
        effect_class: EffectClass::Pure,
    }
}

/// The result limit in force: the one given, or 1000, and at least 1.
pub open spec fn find_limit(limit: Option<i64>) -> i64 {
    let given = match limit {
        Some(l) => l,
        None => DEFAULT_LIMIT,
    };
    if given < 1 {
        1
    } else {
        given
    }
}

/// Whether a pattern is matched against whole paths: it holds a `/`.
pub open spec fn is_full_path_pattern(pattern: Seq<char>) -> bool {
    pattern.contains('/')
}

/// The pattern actually compiled: a full-path pattern not anchored at `/`
/// or by a leading `**/`, and not `**` itself, gains a leading `**/`.
pub open spec fn effective_pattern(pattern: Seq<char>) -> Seq<char> {
    if is_full_path_pattern(pattern) && !(pattern.len() > 0 && pattern[0] == '/') && !(
    pattern.len() >= 3 && pattern.take(3) == "**/"@) && pattern != "**"@ {
        "**/"@ + pattern
    } else {
        pattern
    }
}

/// `t` without its trailing `/`s.
pub open spec fn trim_slashes(t: Seq<char>) -> Seq<char>
    decreases t.len(),
{
    if t.len() > 0 && t.last() == '/' {
        trim_slashes(t.drop_last())
    } else {
        t
    }
}

/// Whether an entry matches: a full-path pattern against its path, any
/// other against the file name of its relative path without trailing `/`s.
pub open spec fn entry_matches(pattern: Seq<char>, full_path: bool, f: WalkFile) -> bool {
    if full_path {
        glob_matches(pattern, f.path@)
    } else {
        match file_name_of(trim_slashes(f.relative_path@)) {
            Some(name) => glob_matches(pattern, name),
            None => false,
        }
    }
}

/// The relative paths of the matching entries among the first `n`, in walk
/// order, stopping once `limit` were found.
pub open spec fn found_paths(
    files: Seq<WalkFile>,
    n: int,
    pattern: Seq<char>,
    full_path: bool,
    limit: int,
) -> Seq<Seq<char>>
    decreases n,
{
    if n <= 0 {
        Seq::<Seq<char>>::empty()
    } else {
        let prev = found_paths(files, n - 1, pattern, full_path, limit);
        if prev.len() >= limit {
            prev
        } else if entry_matches(pattern, full_path, files[n - 1]) {
            prev.push(files[n - 1].relative_path@)
        } else {
            prev
        }
    }
}

/// The bytes the listing would take: the paths' bytes and a newline between
/// consecutive paths.
pub open spec fn rendered_size(paths: Seq<Seq<char>>) -> int
    decreases paths.len(),
{
    if paths.len() == 0 {
        0
    } else if paths.len() == 1 {
        encode_utf8(paths[0]).len() as int
    } else {
        rendered_size(paths.drop_last()) + 1 + encode_utf8(paths.last()).len()
    }
}

/// Chooses the pattern to compile, and whether it matches whole paths.
pub fn effective_pattern_of(pattern: &str) -> (r: (String, bool))
    ensures
        r.0@ == effective_pattern(pattern@),
        r.1 == is_full_path_pattern(pattern@),
{
    let bytes = pattern.as_bytes();
    let mut has_slash = false;
    let mut i: usize = 0;
    while i < bytes.len()
        invariant
            0 <= i <= bytes@.len(),
            has_slash == bytes@.take(i as int).contains(47u8),
        decreases bytes@.len() - i,
    {
        proof {
            assert(bytes@.take(i + 1) == bytes@.take(i as int).push(bytes@[i as int]));
            if bytes@.take(i + 1).contains(47u8) {
                let k = choose|k: int| 0 <= k < i + 1 && #[trigger] bytes@.take(i + 1)[k] == 47u8;
                if k < i {
                    assert(bytes@.take(i as int)[k] == 47u8);
                }
            }
            if bytes@.take(i as int).contains(47u8) {
                let k = choose|k: int| 0 <= k < i && #[trigger] bytes@.take(i as int)[k] == 47u8;
                assert(bytes@.take(i + 1)[k] == 47u8);
            }
            if bytes@[i as int] == 47u8 {
                assert(bytes@.take(i + 1)[i as int] == 47u8);
            }
        }
        if bytes[i] == 47 {
            has_slash = true;
        }
        i = i + 1;
    }
    proof {
        assert(bytes@.take(bytes@.len() as int) == bytes@);
        lemma_encode_contains_ascii(pattern@, '/');
        crate::path::lemma_first_char_ascii(pattern@, '/');
        reveal_strlit("**/");
        reveal_strlit("**");
    }
    let n = pattern.unicode_len();
    let rooted = bytes.len() > 0 && bytes[0] == 47;
    let double_star_prefix = n >= 3 && pattern.get_char(0) == '*' && pattern.get_char(1) == '*'
        && pattern.get_char(2) == '/';
    let double_star = n == 2 && pattern.get_char(0) == '*' && pattern.get_char(1) == '*';
    proof {
        if n >= 3 {
            if pattern@.take(3) == "**/"@ {
                assert(pattern@.take(3)[0] == '*');
                assert(pattern@.take(3)[1] == '*');
                assert(pattern@.take(3)[2] == '/');
            }
            if double_star_prefix {
                assert(pattern@.take(3) =~= "**/"@);
            }
        }
        if pattern@ == "**"@ {
            assert(pattern@[0] == '*' && pattern@[1] == '*');
        }
        if double_star {
            assert(pattern@ =~= "**"@);
        }
    }
    if has_slash && !rooted && !double_star_prefix && !double_star {
        (cat("**/", pattern), true)
    } else {
        (pattern.to_string(), has_slash)
    }
}

/// Drops trailing `/`s.
pub fn trim_trailing_slashes(s: &str) -> (r: String)
    ensures
        r@ == trim_slashes(s@),
{
    let bytes = s.as_bytes();
    let mut k: usize = bytes.len();
    let ghost mut cur: Seq<char> = s@;
    proof {
        assert(bytes@.subrange(0, k as int) =~= bytes@);
    }
    while k > 0 && bytes[k - 1] == 47
        invariant
            0 <= k <= bytes@.len(),
            bytes@ == encode_utf8(s@),
            bytes@.subrange(0, k as int) == encode_utf8(cur),
            trim_slashes(cur) == trim_slashes(s@),
        decreases k,
    {
        proof {
            crate::path::lemma_last_char_ascii(cur, '/');
            assert(cur == cur.drop_last() + seq!['/']);
            crate::text::lemma_encode_concat(cur.drop_last(), seq!['/']);
            crate::text::lemma_encode_ascii_char('/');
            assert(bytes@.subrange(0, k - 1) =~= encode_utf8(cur.drop_last()));
            cur = cur.drop_last();
        }
        k = k - 1;
    }
    proof {
        crate::path::lemma_last_char_ascii(cur, '/');
    }
    string_of_range(bytes, 0, k, Ghost(cur))
}

/// Whether an entry matches, as [`entry_matches`] says.
fn entry_matches_exec(glob: &crate::globs::GlobPattern, full_path: bool, f: &WalkFile) -> (r: bool)
    ensures
        r == entry_matches(glob@, full_path, *f),
{
    if full_path {
        glob_is_match(glob, f.path.as_str())
    } else {
        let trimmed = trim_trailing_slashes(f.relative_path.as_str());
        match file_name(trimmed.as_str()) {
            Some(name) => glob_is_match(glob, name.as_str()),
            None => false,
        }
    }
}

/// What a find comes to, given the paths it found.
pub open spec fn find_outcome(
    paths: Seq<Seq<char>>,
    limit_reached: bool,
    limit: i64,
    r: Result<GlobOutput, ToolError>,
) -> bool {
    if rendered_size(paths) > MAX_RESULT_BYTES {
        r == Err::<GlobOutput, ToolError>(ToolError::ResultTooLarge)
    } else if paths.len() == 0 {
        r matches Ok(out) && out.text@ == "No files found matching pattern"@ && out.paths@.len() == 0
            && !out.limit_reached && !out.truncated
    } else {
        let raw = join_texts(paths, "\n"@);
        let notices = (if limit_reached {
            seq![limit_reached_notice(limit, "results"@)]
        } else {
            Seq::<Seq<char>>::empty()
        }) + (if head_truncated(raw) {
            seq![size_notice()]
        } else {
            Seq::<Seq<char>>::empty()
        });
        r matches Ok(out) && out.text@ == with_notices(head_text(raw), notices) && texts_of(
            out.paths@,
        ) == paths && out.limit_reached == limit_reached && out.truncated == head_truncated(raw)
    }
}

/// Whether the listing of `paths` would take more than `MAX_RESULT_BYTES`.
fn listing_too_large(paths: &Vec<String>) -> (r: bool)
    ensures
        r == (rendered_size(texts_of(paths@)) > MAX_RESULT_BYTES),
{
    let ghost ps = texts_of(paths@);
    let mut total: usize = 0;
    let mut i: usize = 0;
    while i < paths.len()
        invariant
            0 <= i <= paths@.len(),
            ps == texts_of(paths@),
            total == rendered_size(ps.take(i as int)),
            total <= MAX_RESULT_BYTES,
        decreases paths@.len() - i,
    {
        let len = paths[i].as_str().as_bytes().len();
        proof {
            assert(ps.take(i + 1).drop_last() == ps.take(i as int));
            assert(ps.take(i + 1).last() == paths@[i as int]@);
        }
        let step: usize = if i > 0 {
            1
        } else {
            0
        };
        if len > MAX_RESULT_BYTES - total || step > MAX_RESULT_BYTES - total - len {
            proof {
                lemma_rendered_size_monotone(ps, i + 1, ps.len() as int);
                assert(ps.take(ps.len() as int) == ps);
            }
            return true;
        }
        total = total + len + step;
        i = i + 1;
    }
    proof {
        assert(ps.take(paths@.len() as int) == ps);
    }
    false
}

/// The listing size only grows as paths are added.
proof fn lemma_rendered_size_monotone(ps: Seq<Seq<char>>, i: int, j: int)
    requires
        0 <= i <= j <= ps.len(),
    ensures
        rendered_size(ps.take(i)) <= rendered_size(ps.take(j)),
    decreases j - i,
{
    if i < j {
        lemma_rendered_size_monotone(ps, i, j - 1);
        assert(ps.take(j).drop_last() == ps.take(j - 1));
    }
}

/// Finishes a find from the paths it found.
pub fn finish_find(paths: Vec<String>, limit_reached: bool, limit: i64) -> (r: Result<
    GlobOutput,
    ToolError,
>)
    requires
        limit >= 0,
    ensures
        find_outcome(texts_of(paths@), limit_reached, limit, r),
{
    if listing_too_large(&paths) {
        return Err(ToolError::ResultTooLarge);
    }
    if paths.len() == 0 {
        proof {
            reveal_strlit("No files found matching pattern");
        }
        return Ok(
            GlobOutput {
                text: "No files found matching pattern".to_string(),
                paths,
                limit_reached: false,
                truncated: false,
            },
        );
    }
    let raw = join_strings(&paths, "\n");
    let truncation = truncate_listing(raw.as_str());
    let mut notices: Vec<String> = Vec::new();
    if limit_reached {
        notices.push(limit_reached_text(limit, "results"));
    }
    if truncation.truncated {
        notices.push(size_notice_text());
    }
    proof {
        assert(texts_of(notices@) =~= (if limit_reached {
            seq![limit_reached_notice(limit, "results"@)]
        } else {
            Seq::<Seq<char>>::empty()
        }) + (if head_truncated(raw@) {
            seq![size_notice()]
        } else {
            Seq::<Seq<char>>::empty()
        }));
    }
    let text = append_notices(truncation.content, &notices);
    Ok(GlobOutput { text, paths, limit_reached, truncated: truncation.truncated })
}

/// The result limit as a count of paths.
pub open spec fn path_limit(limit: i64) -> int {
    if limit > usize::MAX {
        usize::MAX as int
    } else {
        limit as int
    }
}

/// Whether paths are in ascending order of their bytes.
pub open spec fn sorted_paths(ps: Seq<Seq<char>>) -> bool {
    forall|i: int, j: int|
        0 <= i < j < ps.len() ==> lex_le(#[trigger] encode_utf8(ps[i]), #[trigger] encode_utf8(ps[j]))
}

/// The error text for a root that is not a directory.
pub open spec fn not_a_directory_text(root: Seq<char>) -> Seq<char> {
    "Not a directory: "@ + root
}

/// Once the limit is met, later entries add nothing.
proof fn lemma_found_paths_stable(
    files: Seq<WalkFile>,
    i: int,
    j: int,
    pattern: Seq<char>,
    full_path: bool,
    limit: int,
)
    requires
        0 <= i <= j,
        found_paths(files, i, pattern, full_path, limit).len() >= limit,
    ensures
        found_paths(files, j, pattern, full_path, limit) == found_paths(
            files,
            i,
            pattern,
            full_path,
            limit,
        ),
    decreases j - i,
{
    if j > i {
        lemma_found_paths_stable(files, i, j - 1, pattern, full_path, limit);
    }
}

/// No more paths are found than the limit allows.
proof fn lemma_found_paths_bounded(
    files: Seq<WalkFile>,
    n: int,
    pattern: Seq<char>,
    full_path: bool,
    limit: int,
)
    requires
        limit >= 0,
    ensures
        found_paths(files, n, pattern, full_path, limit).len() <= limit,
    decreases n,
{
    if n > 0 {
        lemma_found_paths_bounded(files, n - 1, pattern, full_path, limit);
    }
}

/// Found paths are relative paths of entries among the first `n`, in order.
proof fn lemma_found_paths_from(
    files: Seq<WalkFile>,
    n: int,
    pattern: Seq<char>,
    full_path: bool,
    limit: int,
)
    requires
        0 <= n <= files.len(),
    ensures
        ({
            let found = found_paths(files, n, pattern, full_path, limit);
            &&& found.len() <= n
            &&& forall|i: int|
                0 <= i < found.len() ==> exists|k: int|
                    0 <= k < n && #[trigger] found[i] == files[k].relative_path@
        }),
        crate::walk::sorted_by_relative_path(files) ==> sorted_paths(
            found_paths(files, n, pattern, full_path, limit),
        ),
    decreases n,
{
    if n > 0 {
        lemma_found_paths_from(files, n - 1, pattern, full_path, limit);
        let prev = found_paths(files, n - 1, pattern, full_path, limit);
        let found = found_paths(files, n, pattern, full_path, limit);
        assert forall|i: int| 0 <= i < found.len() implies exists|k: int|
            0 <= k < n && #[trigger] found[i] == files[k].relative_path@ by {
            if i < prev.len() {
                assert(found[i] == prev[i]);
                let k = choose|k: int| 0 <= k < n - 1 && #[trigger] prev[i] == files[k].relative_path@;
                assert(found[i] == files[k].relative_path@);
            } else {
                assert(found[i] == files[n - 1].relative_path@);
            }
        }
        if crate::walk::sorted_by_relative_path(files) {
            assert forall|i: int, j: int| 0 <= i < j < found.len() implies lex_le(
                #[trigger] encode_utf8(found[i]),
                #[trigger] encode_utf8(found[j]),
            ) by {
                if j < prev.len() {
                    assert(found[i] == prev[i]);
                    assert(found[j] == prev[j]);
                } else {
                    assert(found[i] == prev[i]);
                    assert(found[j] == files[n - 1].relative_path@);
                    let k = choose|k: int| 0 <= k < n - 1 && #[trigger] prev[i] == files[k].relative_path@;
                    assert(lex_le(walk_key(files[k]), walk_key(files[n - 1])));
                }
            }
        }
    }
}

/// What a find learned from the backend: the root's stat error, the stat of
/// a root it did not walk, or the root's stat and what the walk returned.
pub enum FindSeen {
    StatFailed(ToolFsError),
    Stat(FileStat),
    Walked(FileStat, Result<Seq<WalkFile>, ToolError>),
}

/// The paths a find selects from walk entries, up to its limit.
pub open spec fn find_selection(files: Seq<WalkFile>, args: GlobArgs) -> Seq<Seq<char>> {
    found_paths(
        files,
        files.len() as int,
        effective_pattern(args.pattern@),
        is_full_path_pattern(args.pattern@),
        path_limit(find_limit(args.limit)),
    )
}

/// Whether `r` is what a find of `args` returns, given what it learned: a
/// missing root is reported as not found, any other stat error is returned,
/// a root that is not a directory is refused; a walk that finds the root
/// missing is reported as not found, any other walk error is returned; the
/// entries of a successful walk give the listing. The stat learned is one
/// `fs` answered for the root, and the walk's outcome one [`walk_files`]
/// states for `fs` and the root.
pub open spec fn find_run_outcome<F: ToolFs>(fs: &F, seen: FindSeen, args: GlobArgs, r: Result<GlobOutput, ToolError>) -> bool {
    let root = search_root(args.path);
    match seen {
        FindSeen::StatFailed(e) => fs.stat_answer(root, Err(e)) && (if e is NotFound {
            r matches Err(ToolError::Failed(text)) && text@ == path_not_found_text(root)
        } else {
            r == Err::<GlobOutput, ToolError>(ToolError::Fs(e))
        }),
        FindSeen::Stat(stat) => fs.stat_answer(root, Ok(stat)) && !stat.is_dir && (r matches Err(
            ToolError::Failed(text),
        ) && text@ == not_a_directory_text(root)),
        FindSeen::Walked(stat, walked) => fs.stat_answer(root, Ok(stat)) && stat.is_dir && (match walked {
            Err(e) => walk_error(fs, root, e) && (if e matches ToolError::Fs(ToolFsError::NotFound(_)) {
                r matches Err(ToolError::Failed(text)) && text@ == path_not_found_text(root)
            } else {
                r == Err::<GlobOutput, ToolError>(e)
            }),
            Ok(files) => walk_result(fs, root, files) && ({
                let found = find_selection(files, args);
                find_outcome(found, found.len() >= path_limit(find_limit(args.limit)), find_limit(args.limit), r)
            }),
        }),
    }
}

/// Finds files and directories by glob pattern.
///
/// A pattern without `/` matches entry names at any depth; one with `/`
/// matches whole paths and usually gains a leading `**/`. The entries are
/// those a walk of the root finds, in its sorted order, up to the limit:
/// what [`find_run_outcome`] says for the backend's answers.
pub fn run<F: ToolFs>(args: GlobArgs, fs: &F) -> (r: Result<GlobOutput, ToolError>)
    ensures
        glob_compile_error(effective_pattern(args.pattern@)) is Some ==> (r matches Err(
            ToolError::InvalidArgs(text),
        ) && text@ == glob_error_text(
            args.pattern@,
            glob_compile_error(effective_pattern(args.pattern@))->0,
        )),
        glob_compile_error(effective_pattern(args.pattern@)) is None ==> exists|seen: FindSeen|
            #![trigger find_run_outcome(fs, seen, args, r)]
            find_run_outcome(fs, seen, args, r),
        r matches Ok(out) ==> sorted_paths(texts_of(out.paths@)),
        r matches Ok(out) ==> out.paths@.len() <= path_limit(find_limit(args.limit)) && (
        out.limit_reached <==> out.paths@.len() >= path_limit(find_limit(args.limit))),
        args.limit is None ==> (r matches Ok(out) ==> out.paths@.len() <= 1000 && (out.limit_reached
            <==> out.paths@.len() == 1000)),
{
    let given_limit = match args.limit {
        Some(l) => l,
        None => DEFAULT_LIMIT,
    };
    let effective: i64 = if given_limit < 1 {
        1
    } else {
        given_limit
    };
    let (pattern, full_path) = effective_pattern_of(args.pattern.as_str());
    let matcher = match compile_glob(pattern.as_str()) {
        Ok(m) => m,
        Err(message) => {
            let quoted = debug_text(args.pattern.as_str());
            let a = cat("invalid glob pattern ", quoted.as_str());
            let b = cat(a.as_str(), ": ");
            return Err(ToolError::InvalidArgs(cat(b.as_str(), message.as_str())));
        },
    };
    let input_root = match &args.path {
        Some(p) => p.clone(),
        None => ".".to_string(),
    };
    let root = normalize_tool_path(input_root.as_str());
    proof {
        assert(root@ == search_root(args.path));
    }
    let stat = match fs.stat(root.as_str()) {
        Ok(stat) => stat,
        Err(error) => {
            let ghost seen = FindSeen::StatFailed(error);
            let r = match error {
                ToolFsError::NotFound(_) => Err(ToolError::Failed(cat("Path not found: ", root.as_str()))),
                _ => Err(ToolError::Fs(error)),
            };
            proof {
                assert(find_run_outcome(fs, seen, args, r));
            }
            return r;
        },
    };
    if !stat.is_dir {
        let r = Err(ToolError::Failed(cat("Not a directory: ", root.as_str())));
        proof {
            assert(find_run_outcome(fs, FindSeen::Stat(stat), args, r));
        }
        return r;
    }
    let walked = walk_files(root.as_str(), fs);
    let ghost seen = FindSeen::Walked(stat, walk_answer(walked));
    let files = match walked {
        Ok(files) => files,
        Err(error) => {
            let r = match error {
                ToolError::Fs(ToolFsError::NotFound(_)) => Err(ToolError::Failed(cat("Path not found: ", root.as_str()))),
                _ => Err(error),
            };
            proof {
                assert(find_run_outcome(fs, seen, args, r));
            }
            return r;
        },
    };
    let limit: usize = if effective as u64 > usize::MAX as u64 {
        usize::MAX
    } else {
        effective as usize
    };
    let ghost pat = pattern@;
    let mut paths: Vec<String> = Vec::new();
    let mut i: usize = 0;
    while i < files.len() && paths.len() < limit
        invariant
            0 <= i <= files@.len(),
            matcher@ == pat,
            limit as int == path_limit(effective),
            texts_of(paths@) == found_paths(files@, i as int, pat, full_path, limit as int),
            paths@.len() <= limit,
        decreases files@.len() - i,
    {
        let file = &files[i];
        let ghost before = paths@;
        if entry_matches_exec(&matcher, full_path, file) {
            paths.push(file.relative_path.clone());
            proof {
                assert(texts_of(paths@) =~= texts_of(before).push(file.relative_path@));
            }
        }
        i = i + 1;
    }
    proof {
        if i < files@.len() {
            lemma_found_paths_stable(files@, i as int, files@.len() as int, pat, full_path, limit as int);
        }
        lemma_found_paths_from(files@, files@.len() as int, pat, full_path, limit as int);
        lemma_found_paths_bounded(files@, files@.len() as int, pat, full_path, limit as int);
    }
    let limit_reached = paths.len() >= limit;
    let ghost found = texts_of(paths@);
    let r = finish_find(paths, limit_reached, effective);
    proof {
        assert(walk_result(fs, search_root(args.path), files@));
        assert(effective == find_limit(args.limit));
        assert(pat == effective_pattern(args.pattern@));
        assert(found == found_paths(
            files@,
            files@.len() as int,
            effective_pattern(args.pattern@),
            is_full_path_pattern(args.pattern@),
            path_limit(find_limit(args.limit)),
        ));
        assert(find_outcome(found, limit_reached, effective, r));
        assert(find_run_outcome(fs, seen, args, r));
        if r is Ok {
            assert(texts_of(r->Ok_0.paths@).len() == r->Ok_0.paths@.len());
        }
    }
    r
}

} // verus!
