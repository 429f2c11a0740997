//! Walking a file or directory tree through a [`ToolFs`], with gitignore
//! rules, in a deterministic order.

use vstd::prelude::*;
use vstd::utf8::*;
use vstd::multiset::Multiset;
use vstd::string::StringExecFns;
use crate::fs::{bytes_answer, names_and_kinds, DirEntry, ToolError, ToolFs, ToolFsError};
use crate::order::{lemma_lex_total, lemma_lex_trans, lex_le, lex_le_exec};
use crate::grep_render::{strip_cr, strip_trailing_cr};
use crate::lines::{lemma_split_prefix, lemma_split_push, lemma_split_shape, split_on};
use crate::fs::FileStat;
use crate::path::{file_name, file_name_of, is_normal, join_path, join_text, relative_path_string, relative_text};
use crate::text::{
    cat, lemma_split_encode, lossy_string, string_of_range, texts_of, utf8_lossy,
};
use crate::truncate::MAX_FILE_BYTES;

verus! {

#[verifier::external_type_specification]
#[verifier::external_body]
pub struct ExGitignore(ignore::gitignore::Gitignore);

/// One file or directory found by a walk.
///
/// `path` is the path to hand back to the [`ToolFs`]; `relative_path` is the
/// `/`-separated path shown to the model, with a trailing `/` on
/// directories.
#[derive(Clone, Debug, PartialEq, Eq)]
pub struct WalkFile {
    pub path: String,
    pub relative_path: String,
    pub is_dir: bool,
    pub size: u64,
    /// Whether a failed read of this entry is passed over rather than
    /// reported: true for entries found in a directory listing, false for a
    /// file named directly as the walk root.
    pub skip_read_errors: bool,
}

/// What a bounded read of a walked entry comes to, given what the backend
/// returned: the bytes; nothing when the file is over the limit, or when the
/// read failed and the entry skips read errors; the error otherwise.
pub open spec fn settled_read(read: Result<Vec<u8>, ToolFsError>, skip_read_errors: bool) -> Result<
    Option<Vec<u8>>,
    ToolError,
> {
    match read {
        Ok(bytes) => Ok(Some(bytes)),
        Err(ToolFsError::FileTooLarge { .. }) => Ok(None),
        Err(error) => if skip_read_errors {
            Ok(None)
        } else {
            Err(ToolError::Fs(error))
        },
    }
}

/// Settles a bounded read as [`settled_read`] says.
pub fn settle_read(read: Result<Vec<u8>, ToolFsError>, skip_read_errors: bool) -> (r: Result<
    Option<Vec<u8>>,
    ToolError,
>)
    ensures
        r == settled_read(read, skip_read_errors),
{
    match read {
        Ok(bytes) => Ok(Some(bytes)),
        Err(ToolFsError::FileTooLarge { .. }) => Ok(None),
        Err(error) => if skip_read_errors {
            Ok(None)
        } else {
            Err(ToolError::Fs(error))
        },
    }
}

/// Reads one entry of a walk, at most `max_bytes` of it.
fn read_walk_entry_bounded<F: ToolFs>(fs: &F, path: &str, max_bytes: usize, skip_read_errors: bool) -> (r:
    Result<Option<Vec<u8>>, ToolError>)
    ensures
        r matches Ok(Some(bytes)) ==> bytes@.len() <= max_bytes,
        r matches Err(e) ==> !skip_read_errors && (e matches ToolError::Fs(inner) && !(inner is FileTooLarge)),
        exists|read: Result<Vec<u8>, ToolFsError>|
            #![trigger settled_read(read, skip_read_errors)]
            fs.bounded_read_answer(path@, max_bytes as nat, bytes_answer(read)) && r == settled_read(
                read,
                skip_read_errors,
            ),
{
    let read = fs.read_file_bounded(path, max_bytes);
    let ghost seen = read;
    let r = settle_read(read, skip_read_errors);
    proof {
        assert(r == settled_read(seen, skip_read_errors));
    }
    r
}

/// Reads a file found by a walk, unless it is a directory or its size at
/// walk time is over `max_bytes`.
///
/// A file named directly as the walk root surfaces read errors; entries
/// found in a directory listing that fail after their stat are skipped, as
/// are files that turn out to be over the limit while being read.
pub fn read_walk_file_bounded<F: ToolFs>(file: &WalkFile, fs: &F, max_bytes: usize) -> (r: Result<
    Option<Vec<u8>>,
    ToolError,
>)
    ensures
        file.is_dir || file.size > max_bytes ==> r == Ok::<Option<Vec<u8>>, ToolError>(None),
        r matches Ok(Some(bytes)) ==> bytes@.len() <= max_bytes && !file.is_dir && file.size
            <= max_bytes,
        r matches Err(e) ==> !file.skip_read_errors && (e matches ToolError::Fs(inner) && !(
        inner is FileTooLarge)),
        !(file.is_dir || file.size > max_bytes) ==> exists|read: Result<Vec<u8>, ToolFsError>|
            #![trigger settled_read(read, file.skip_read_errors)]
            fs.bounded_read_answer(file.path@, max_bytes as nat, bytes_answer(read)) && r
                == settled_read(read, file.skip_read_errors),
{
    if file.is_dir || file.size > max_bytes as u64 {
        return Ok(None);
    }
    read_walk_entry_bounded(fs, file.path.as_str(), max_bytes, file.skip_read_errors)
}

/// The lines `str::lines` yields for `t`: the pieces between `\n`s, a piece
/// ended by `\n` without one `\r` before that `\n`, and no empty piece after
/// a final `\n`.
pub open spec fn str_lines(t: Seq<char>) -> Seq<Seq<char>> {
    let p = split_on(t, '\n');
    let n: nat = if p.last().len() == 0 {
        (p.len() - 1) as nat
    } else {
        p.len()
    };
    Seq::new(
        n,
        |i: int|
            if i < p.len() - 1 {
                strip_cr(p[i])
            } else {
                p[i]
            },
    )
}

/// `t` without its leading byte-order marks.
pub open spec fn trim_boms(t: Seq<char>) -> Seq<char>
    decreases t.len(),
{
    if t.len() > 0 && t[0] == '\u{feff}' {
        trim_boms(t.drop_first())
    } else {
        t
    }
}

/// The lines of an ignore file's text as the rule builder is handed them:
/// its lines, the first without leading byte-order marks.
pub open spec fn ignore_file_lines(t: Seq<char>) -> Seq<Seq<char>> {
    let ls = str_lines(t);
    Seq::new(
        ls.len(),
        |i: int|
            if i == 0 {
                trim_boms(ls[0])
            } else {
                ls[i]
            },
    )
}

/// Drops leading byte-order marks.
fn trim_leading_boms(s: String) -> (r: String)
    ensures
        r@ == trim_boms(s@),
{
    let n = s.as_str().unicode_len();
    let mut k: usize = 0;
    proof {
        assert(s@.skip(0) =~= s@);
    }
    while k < n && s.as_str().get_char(k) == '\u{feff}'
        invariant
            n == s@.len(),
            0 <= k <= n,
            trim_boms(s@) == trim_boms(s@.skip(k as int)),
        decreases n - k,
    {
        proof {
            assert(s@.skip(k as int).drop_first() =~= s@.skip(k + 1));
        }
        k = k + 1;
    }
    let rest = s.as_str().substring_char(k, n);
    proof {
        assert(rest@ =~= s@.skip(k as int));
    }
    String::from_str(rest)
}

/// The lines of an ignore file, decoded as `String::from_utf8_lossy` does.
fn ignore_file_lines_of(bytes: &[u8]) -> (r: Vec<String>)
    ensures
        texts_of(r@) == ignore_file_lines(utf8_lossy(bytes@)),
{
    let text = lossy_string(bytes);
    let enc = text.as_str().as_bytes();
    let ghost t = text@;
    let ghost b = enc@;
    let ghost pc = split_on(t, '\n');
    let ghost whole = split_on(b, 10u8);
    let ghost want = ignore_file_lines(t);
    proof {
        lemma_split_encode(t, '\n');
        lemma_split_shape(t, '\n');
        lemma_split_shape(b, 10u8);
        assert(whole == pc.map_values(|p: Seq<char>| encode_utf8(p)));
        assert(b.take(0) == Seq::<u8>::empty());
    }
    let mut out: Vec<String> = Vec::new();
    let mut start: usize = 0;
    let mut pos: usize = 0;
    while pos < enc.len()
        invariant
            b == enc@,
            t == text@,
            b == encode_utf8(t),
            pc == split_on(t, '\n'),
            whole == split_on(b, 10u8),
            whole == pc.map_values(|p: Seq<char>| encode_utf8(p)),
            want == ignore_file_lines(t),
            0 <= start <= pos <= b.len(),
            split_on(b.take(pos as int), 10u8).len() == out@.len() + 1,
            split_on(b.take(pos as int), 10u8)[out@.len() as int] == b.subrange(start as int, pos as int),
            forall|j: int| 0 <= j < out@.len() ==> #[trigger] out@[j]@ == want[j],
        decreases b.len() - pos,
    {
        let ghost k = out@.len() as int;
        let ghost ps = split_on(b.take(pos as int), 10u8);
        proof {
            assert(b.take(pos + 1) == b.take(pos as int).push(b[pos as int]));
            lemma_split_push(b.take(pos as int), b[pos as int], 10u8);
        }
        if enc[pos] == 10 {
            proof {
                lemma_split_prefix(b, pos + 1, 10u8);
                assert(split_on(b.take(pos + 1), 10u8) == ps.push(Seq::<u8>::empty()));
                assert(whole.take(k + 1) == ps);
                assert(whole[k] == ps[k]);
                assert(encode_utf8(pc[k]) == whole[k]);
            }
            let piece = string_of_range(enc, start, pos, Ghost(pc[k]));
            let line = strip_trailing_cr(piece);
            let line = if out.len() == 0 {
                trim_leading_boms(line)
            } else {
                line
            };
            proof {
                assert(k < pc.len() - 1);
                assert(line@ == want[k]);
            }
            out.push(line);
            start = pos + 1;
            proof {
                assert(b.subrange(start as int, start as int) =~= Seq::<u8>::empty());
            }
        } else {
            proof {
                assert(b.subrange(start as int, pos + 1) =~= b.subrange(start as int, pos as int).push(
                    b[pos as int],
                ));
            }
        }
        pos = pos + 1;
    }
    let ghost k = out@.len() as int;
    proof {
        assert(b.take(pos as int) == b);
        assert(whole[k] == b.subrange(start as int, b.len() as int));
        assert(encode_utf8(pc[k]) == whole[k]);
        assert(k == pc.len() - 1);
    }
    if start < enc.len() {
        let piece = string_of_range(enc, start, enc.len(), Ghost(pc[k]));
        let line = if out.len() == 0 {
            trim_leading_boms(piece)
        } else {
            piece
        };
        proof {
            assert(pc[k].len() > 0);
            assert(line@ == want[k]);
        }
        out.push(line);
    } else {
        proof {
            if pc[k].len() > 0 {
                assert(encode_utf8(pc[k]).len() > 0);
            }
        }
    }
    proof {
        assert(texts_of(out@) =~= want);
    }
    out
}

/// Text put before the message of ignore rules that do not compile.
pub open spec fn ignore_parse_error_text(message: Seq<char>) -> Seq<char> {
    "failed to parse ignore rules: "@ + message
}

/// A name for what `GitignoreBuilder::build` reports for rules rooted at
/// `root` whose lines were added one by one with `add_line`: the error's
/// text, or `None` when they compile.
pub uninterp spec fn gitignore_build_error(root: Seq<char>, lines: Seq<Seq<char>>) -> Option<
    Seq<char>,
>;

/// A name for what `Gitignore::matched` decides for `path` under the rules
/// rooted at `root` made of `lines`: `None` when no rule applies,
/// `Some(true)` when the deciding rule ignores it, `Some(false)` when it
/// whitelists it.
pub uninterp spec fn gitignore_decision(
    root: Seq<char>,
    lines: Seq<Seq<char>>,
    path: Seq<char>,
    is_dir: bool,
) -> Option<bool>;

/// One compiled set of gitignore rules, with the directory they match from
/// and the lines they were made of.
struct IgnoreRules {
    root: String,
    lines: Vec<String>,
    matcher: ignore::gitignore::Gitignore,
}

impl View for IgnoreRules {
    type V = (Seq<char>, Seq<Seq<char>>);

    closed spec fn view(&self) -> (Seq<char>, Seq<Seq<char>>) {
        (self.root@, texts_of(self.lines@))
    }
}

/// `GitignoreBuilder`: a builder rooted at `root`, each of `lines` added
/// with `add_line` (a line it rejects is left out, as the walk has always
/// done), then `build`. The contract ties the outcome to `root` and `lines`
/// through [`gitignore_build_error`] and says nothing of how a line parses.
#[verifier::external_body]
fn compile_ignore_rules(root: String, source: &str, lines: Vec<String>) -> (r: Result<
    IgnoreRules,
    String,
>)
    ensures
        match r {
            Ok(rules) => rules@ == (root@, texts_of(lines@)) && gitignore_build_error(
                root@,
                texts_of(lines@),
            ) is None,
            Err(message) => gitignore_build_error(root@, texts_of(lines@)) == Some(message@),
        },
{
    let mut builder = ignore::gitignore::GitignoreBuilder::new(root.as_str());
    for line in lines.iter() {
        let _ = builder.add_line(Some(std::path::PathBuf::from(source)), line);
    }
    match builder.build() {
        Ok(matcher) => Ok(IgnoreRules { root, lines, matcher }),
        Err(error) => Err(error.to_string()),
    }
}

/// `Gitignore::matched`, reduced to which kind of rule decided. The
/// contract claims that the decision depends on the rules' root and lines
/// and on the path and its kind alone, through [`gitignore_decision`];
/// gitignore semantics are left to the name.
#[verifier::external_body]
fn ignore_decision(rules: &IgnoreRules, path: &str, is_dir: bool) -> (r: Option<bool>)
    ensures
        r == gitignore_decision(rules@.0, rules@.1, path@, is_dir),
{
    match rules.matcher.matched(path, is_dir) {
        ignore::Match::None => None,
        ignore::Match::Ignore(_) => Some(true),
        ignore::Match::Whitelist(_) => Some(false),
    }
}

/// The views of a stack of rule sets.
spec fn rule_views(rules: Seq<IgnoreRules>) -> Seq<(Seq<char>, Seq<Seq<char>>)> {
    rules.map_values(|r: IgnoreRules| r@)
}

/// Whether `path` is ignored under the stacked rule sets: the last set that
/// decides wins, and a path no set decides is kept.
pub open spec fn ignored_by(
    rules: Seq<(Seq<char>, Seq<Seq<char>>)>,
    path: Seq<char>,
    is_dir: bool,
) -> bool
    decreases rules.len(),
{
    if rules.len() == 0 {
        false
    } else {
        match gitignore_decision(rules.last().0, rules.last().1, path, is_dir) {
            Some(ignore) => ignore,
            None => ignored_by(rules.drop_last(), path, is_dir),
        }
    }
}

/// Whether the stacked rule sets ignore `path`.
fn is_ignored(rules: &Vec<IgnoreRules>, path: &str, is_dir: bool) -> (r: bool)
    ensures
        r == ignored_by(rule_views(rules@), path@, is_dir),
{
    let ghost views = rule_views(rules@);
    let mut ignored = false;
    let mut i: usize = 0;
    while i < rules.len()
        invariant
            0 <= i <= rules@.len(),
            views == rule_views(rules@),
            ignored == ignored_by(views.take(i as int), path@, is_dir),
        decreases rules@.len() - i,
    {
        proof {
            assert(views.take(i + 1).drop_last() == views.take(i as int));
            assert(views.take(i + 1).last() == rules@[i as int]@);
        }
        match ignore_decision(&rules[i], path, is_dir) {
            None => {},
            Some(ignore) => {
                ignored = ignore;
            },
        }
        i = i + 1;
    }
    proof {
        assert(views.take(rules@.len() as int) == views);
    }
    ignored
}

/// The rule set an ignore file's bytes make, matched from `match_root`.
fn ignore_rules_from(match_root: &str, ignore_path: &str, bytes: &[u8]) -> (r: Result<
    IgnoreRules,
    ToolError,
>)
    ensures
        ({
            let lines = ignore_file_lines(utf8_lossy(bytes@));
            match gitignore_build_error(match_root@, lines) {
                None => r matches Ok(rules) && rules@ == (match_root@, lines),
                Some(message) => r matches Err(ToolError::Failed(text)) && text@
                    == ignore_parse_error_text(message),
            }
        }),
{
    let lines = ignore_file_lines_of(bytes);
    match compile_ignore_rules(match_root.to_string(), ignore_path, lines) {
        Ok(rules) => Ok(rules),
        Err(message) => Err(ToolError::Failed(cat("failed to parse ignore rules: ", message.as_str()))),
    }
}

/// How a walk fails, as its specification states it.
pub enum WalkFailure {
    /// The backend reported an error.
    Fs(ToolFsError),
    /// Ignore rules did not compile; the message is the builder's.
    IgnoreRules(Seq<char>),
    /// The root, given here, is neither a file nor a directory.
    NotWalkable(Seq<char>),
    /// What was learned is not what the backend answered to the calls the
    /// walk makes, or leaves out a call the walk makes; no error answers to
    /// this.
    Unfit,
}

/// Whether `e` is the tool error for the failure `w`.
pub open spec fn failure_is(e: ToolError, w: WalkFailure) -> bool {
    match w {
        WalkFailure::Fs(inner) => e == ToolError::Fs(inner),
        WalkFailure::IgnoreRules(message) => e matches ToolError::Failed(text) && text@
            == ignore_parse_error_text(message),
        WalkFailure::NotWalkable(root) => e matches ToolError::Failed(text) && text@
            == not_walkable_text(root),
        WalkFailure::Unfit => false,
    }
}

/// What a walk learned when it looked for one ignore file.
pub enum IgnoreSeen {
    /// Its stat failed with this error.
    StatFailed(ToolFsError),
    /// Its stat, which says it is not a file or is over the size limit.
    Stat(FileStat),
    /// Its stat, of a file within the limit, and the bounded read's answer.
    Read(FileStat, Result<Seq<u8>, ToolFsError>),
}

/// Whether a stat says a file that an ignore file is read from: a regular
/// file within [`MAX_FILE_BYTES`].
pub open spec fn readable_ignore_file(stat: FileStat) -> bool {
    stat.is_file && stat.size <= MAX_FILE_BYTES
}

/// The rule stack after looking for the ignore file at `path`, whose rules
/// are matched from `dir`: unchanged when it is missing, not a readable
/// file or its read fails; one more rule set when its lines compile. What
/// was learned must be what `fs` answered to the stat of `path` and, for a
/// readable file, to its bounded read.
pub open spec fn rules_with<F: ToolFs>(
    fs: &F,
    rules: Seq<(Seq<char>, Seq<Seq<char>>)>,
    dir: Seq<char>,
    path: Seq<char>,
    seen: IgnoreSeen,
) -> Result<Seq<(Seq<char>, Seq<Seq<char>>)>, WalkFailure> {
    match seen {
        IgnoreSeen::StatFailed(e) => if !fs.stat_answer(path, Err(e)) {
            Err(WalkFailure::Unfit)
        } else if e is NotFound {
            Ok(rules)
        } else {
            Err(WalkFailure::Fs(e))
        },
        IgnoreSeen::Stat(stat) => if !fs.stat_answer(path, Ok(stat)) || readable_ignore_file(stat) {
            Err(WalkFailure::Unfit)
        } else {
            Ok(rules)
        },
        IgnoreSeen::Read(stat, answer) => if !fs.stat_answer(path, Ok(stat)) || !readable_ignore_file(
            stat,
        ) || !fs.bounded_read_answer(path, MAX_FILE_BYTES as nat, answer) {
            Err(WalkFailure::Unfit)
        } else {
            match answer {
                Ok(bytes) => {
                    let lines = ignore_file_lines(utf8_lossy(bytes));
                    match gitignore_build_error(dir, lines) {
                        None => Ok(rules.push((dir, lines))),
                        Some(message) => Err(WalkFailure::IgnoreRules(message)),
                    }
                },
                Err(_) => Ok(rules),
            }
        },
    }
}

/// Reads the ignore file at `ignore_path`, when there is one that is a file
/// within the size limit, and pushes its rules, matched from `match_root`.
/// Returns what was learned of the file, and on the stack the rules
/// [`rules_with`] says.
fn add_ignore_file<F: ToolFs>(
    fs: &F,
    match_root: &str,
    ignore_path: &str,
    rules: &mut Vec<IgnoreRules>,
) -> (r: (Result<(), ToolError>, Ghost<IgnoreSeen>))
    ensures
        match rules_with(fs, rule_views(old(rules)@), match_root@, ignore_path@, r.1@) {
            Ok(after) => r.0 is Ok && rule_views(final(rules)@) == after,
            Err(w) => r.0 matches Err(e) && failure_is(e, w),
        },
        final(rules)@.len() >= old(rules)@.len(),
        final(rules)@.take(old(rules)@.len() as int) == old(rules)@,
        r.0 matches Err(e) ==> is_walk_error(e) && !(e matches ToolError::Fs(ToolFsError::NotFound(_))),
        r.0 is Err ==> final(rules)@ == old(rules)@,
{
    proof {
        assert(old(rules)@.take(old(rules)@.len() as int) == old(rules)@);
    }
    let stat = match fs.stat(ignore_path) {
        Ok(stat) => stat,
        Err(ToolFsError::NotFound(p)) => {
            return (Ok(()), Ghost(IgnoreSeen::StatFailed(ToolFsError::NotFound(p))));
        },
        Err(error) => {
            return (Err(ToolError::Fs(error)), Ghost(IgnoreSeen::StatFailed(error)));
        },
    };
    if !stat.is_file || stat.size > MAX_FILE_BYTES as u64 {
        return (Ok(()), Ghost(IgnoreSeen::Stat(stat)));
    }
    let read = read_walk_entry_bounded(fs, ignore_path, MAX_FILE_BYTES, true);
    let ghost answer = bytes_answer(
        choose|raw: Result<Vec<u8>, ToolFsError>|
            #![trigger settled_read(raw, true)]
            fs.bounded_read_answer(ignore_path@, MAX_FILE_BYTES as nat, bytes_answer(raw)) && read
                == settled_read(raw, true),
    );
    let ghost seen = IgnoreSeen::Read(stat, answer);
    let bytes = match read {
        Ok(Some(bytes)) => bytes,
        _ => return (Ok(()), Ghost(seen)),
    };
    let made = ignore_rules_from(match_root, ignore_path, bytes.as_slice());
    match made {
        Ok(set) => {
            let ghost before = rule_views(rules@);
            rules.push(set);
            proof {
                assert(rule_views(rules@) =~= before.push(set@));
                assert(rules@.take(old(rules)@.len() as int) =~= old(rules)@);
            }
            (Ok(()), Ghost(seen))
        },
        Err(error) => (Err(error), Ghost(seen)),
    }
}

/// A walk entry's path, relative path, kind and size.
pub open spec fn entry_view(f: WalkFile) -> (Seq<char>, Seq<char>, bool, u64) {
    (f.path@, f.relative_path@, f.is_dir, f.size)
}

/// The views of walk entries.
pub open spec fn entry_views(files: Seq<WalkFile>) -> Seq<(Seq<char>, Seq<char>, bool, u64)> {
    files.map_values(|f: WalkFile| entry_view(f))
}

/// The sort key of a walk entry: the bytes of its relative_path.
pub open spec fn walk_key(e: WalkFile) -> Seq<u8> {
    encode_utf8(e.relative_path@)
}

/// Whether walk entries are in ascending order of their relative_path.
pub open spec fn sorted_by_relative_path(s: Seq<WalkFile>) -> bool {
    forall|i: int, j: int| 0 <= i < j < s.len() ==> lex_le(#[trigger] walk_key(s[i]), #[trigger] walk_key(s[j]))
}

/// Sorts walk entries by relative_path, keeping the order of equal keys.
pub fn sort_walk_files(items: Vec<WalkFile>) -> (r: Vec<WalkFile>)
    ensures
        sorted_by_relative_path(r@),
        r@.to_multiset() == items@.to_multiset(),
        entry_views(r@).to_multiset() == entry_views(items@).to_multiset(),
{
    broadcast use vstd::seq_lib::group_to_multiset_ensures, vstd::multiset::group_multiset_axioms;

    let mut rest = items;
    let mut out: Vec<WalkFile> = Vec::new();
    proof {
        assert(out@.to_multiset() =~= Multiset::<WalkFile>::empty());
        assert(entry_views(out@).to_multiset() =~= Multiset::empty());
        assert(entry_views(out@).to_multiset().add(entry_views(rest@).to_multiset()) =~= entry_views(
            items@,
        ).to_multiset());
    }
    while rest.len() > 0
        invariant
            sorted_by_relative_path(out@),
            out@.to_multiset().add(rest@.to_multiset()) == items@.to_multiset(),
            entry_views(out@).to_multiset().add(entry_views(rest@).to_multiset()) == entry_views(
                items@,
            ).to_multiset(),
        decreases rest@.len(),
    {
        let ghost before_rest = rest@;
        let ghost before_out = out@;
        let x = rest.remove(0);
        let key = x.relative_path.as_str().as_bytes();
        let mut j: usize = 0;
        while j < out.len() && lex_le_exec(out[j].relative_path.as_str().as_bytes(), key)
            invariant
                0 <= j <= out@.len(),
                key@ == walk_key(x),
                out@ == before_out,
                forall|k: int| 0 <= k < j ==> lex_le(#[trigger] walk_key(out@[k]), walk_key(x)),
            decreases out@.len() - j,
        {
            j = j + 1;
        }
        proof {
            if j < out@.len() {
                lemma_lex_total(walk_key(out@[j as int]), walk_key(x), 0);
            }
        }
        out.insert(j, x);
        proof {
            let s = out@;
            assert(s == before_out.insert(j as int, x));
            assert forall|p: int, q: int| 0 <= p < q < s.len() implies lex_le(
                #[trigger] walk_key(s[p]),
                #[trigger] walk_key(s[q]),
            ) by {
                if p < j && q == j {
                } else if p < j && q > j {
                    assert(s[p] == before_out[p]);
                    assert(s[q] == before_out[q - 1]);
                } else if p == j {
                    assert(s[q] == before_out[q - 1]);
                    if q - 1 > j {
                        assert(lex_le(walk_key(before_out[j as int]), walk_key(before_out[q - 1])));
                        lemma_lex_trans(walk_key(x), walk_key(before_out[j as int]), walk_key(before_out[q - 1]), 0);
                    }
                } else if q < j {
                    assert(s[p] == before_out[p]);
                    assert(s[q] == before_out[q]);
                } else {
                    assert(s[p] == before_out[p - 1]);
                    assert(s[q] == before_out[q - 1]);
                }
            }
            assert(before_rest.remove(0) == rest@);
            assert(x == before_rest[0]);
            vstd::seq_lib::to_multiset_insert(before_out, j as int, x);
            vstd::seq_lib::to_multiset_remove(before_rest, 0);
            assert(before_rest.contains(x));
            vstd::seq_lib::to_multiset_contains(before_rest, x);
            assert(before_rest.to_multiset().count(x) > 0);
            assert(out@.to_multiset().add(rest@.to_multiset()) =~= before_out.to_multiset().add(
                before_rest.to_multiset(),
            ));
            let vo = entry_views(before_out);
            let vr = entry_views(before_rest);
            let vx = entry_view(x);
            assert(entry_views(out@) =~= vo.insert(j as int, vx));
            assert(entry_views(rest@) =~= vr.remove(0));
            vstd::seq_lib::to_multiset_insert(vo, j as int, vx);
            vstd::seq_lib::to_multiset_remove(vr, 0);
            assert(vr[0] == vx);
            assert(vr.contains(vx));
            vstd::seq_lib::to_multiset_contains(vr, vx);
            assert(entry_views(out@).to_multiset().add(entry_views(rest@).to_multiset()) =~= vo.to_multiset().add(
                vr.to_multiset(),
            ));
        }
    }
    proof {
        assert(rest@.to_multiset() =~= Multiset::<WalkFile>::empty());
        assert(out@.to_multiset().add(Multiset::<WalkFile>::empty()) =~= out@.to_multiset());
        assert(entry_views(rest@).to_multiset() =~= Multiset::empty());
        assert(entry_views(out@).to_multiset().add(Multiset::empty()) =~= entry_views(out@).to_multiset());
    }
    out
}

/// The sort key of a directory entry: the bytes of its name.
pub open spec fn entry_key(e: DirEntry) -> Seq<u8> {
    encode_utf8(e.name@)
}

/// Whether directory entries are in ascending order of their name.
pub open spec fn sorted_by_name(s: Seq<DirEntry>) -> bool {
    forall|i: int, j: int| 0 <= i < j < s.len() ==> lex_le(#[trigger] entry_key(s[i]), #[trigger] entry_key(s[j]))
}

/// Sorts directory entries by name, keeping the order of equal keys.
pub fn sort_dir_entries(items: Vec<DirEntry>) -> (r: Vec<DirEntry>)
    ensures
        sorted_by_name(r@),
        r@.to_multiset() == items@.to_multiset(),
        names_and_kinds(r@).to_multiset() == names_and_kinds(items@).to_multiset(),
{
    broadcast use vstd::seq_lib::group_to_multiset_ensures, vstd::multiset::group_multiset_axioms;

    let mut rest = items;
    let mut out: Vec<DirEntry> = Vec::new();
    proof {
        assert(out@.to_multiset() =~= Multiset::<DirEntry>::empty());
        assert(names_and_kinds(out@).to_multiset() =~= Multiset::empty());
        assert(names_and_kinds(out@).to_multiset().add(names_and_kinds(rest@).to_multiset()) =~= names_and_kinds(
            items@,
        ).to_multiset());
    }
    while rest.len() > 0
        invariant
            sorted_by_name(out@),
            out@.to_multiset().add(rest@.to_multiset()) == items@.to_multiset(),
            names_and_kinds(out@).to_multiset().add(names_and_kinds(rest@).to_multiset()) == names_and_kinds(
                items@,
            ).to_multiset(),
        decreases rest@.len(),
    {
        let ghost before_rest = rest@;
        let ghost before_out = out@;
        let x = rest.remove(0);
        let key = x.name.as_str().as_bytes();
        let mut j: usize = 0;
        while j < out.len() && lex_le_exec(out[j].name.as_str().as_bytes(), key)
            invariant
                0 <= j <= out@.len(),
                key@ == entry_key(x),
                out@ == before_out,
                forall|k: int| 0 <= k < j ==> lex_le(#[trigger] entry_key(out@[k]), entry_key(x)),
            decreases out@.len() - j,
        {
            j = j + 1;
        }
        proof {
            if j < out@.len() {
                lemma_lex_total(entry_key(out@[j as int]), entry_key(x), 0);
            }
        }
        out.insert(j, x);
        proof {
            let s = out@;
            assert(s == before_out.insert(j as int, x));
            assert forall|p: int, q: int| 0 <= p < q < s.len() implies lex_le(
                #[trigger] entry_key(s[p]),
                #[trigger] entry_key(s[q]),
            ) by {
                if p < j && q == j {
                } else if p < j && q > j {
                    assert(s[p] == before_out[p]);
                    assert(s[q] == before_out[q - 1]);
                } else if p == j {
                    assert(s[q] == before_out[q - 1]);
                    if q - 1 > j {
                        assert(lex_le(entry_key(before_out[j as int]), entry_key(before_out[q - 1])));
                        lemma_lex_trans(entry_key(x), entry_key(before_out[j as int]), entry_key(before_out[q - 1]), 0);
                    }
                } else if q < j {
                    assert(s[p] == before_out[p]);
                    assert(s[q] == before_out[q]);
                } else {
                    assert(s[p] == before_out[p - 1]);
                    assert(s[q] == before_out[q - 1]);
                }
            }
            assert(before_rest.remove(0) == rest@);
            assert(x == before_rest[0]);
            vstd::seq_lib::to_multiset_insert(before_out, j as int, x);
            vstd::seq_lib::to_multiset_remove(before_rest, 0);
            assert(before_rest.contains(x));
            vstd::seq_lib::to_multiset_contains(before_rest, x);
            assert(before_rest.to_multiset().count(x) > 0);
            assert(out@.to_multiset().add(rest@.to_multiset()) =~= before_out.to_multiset().add(
                before_rest.to_multiset(),
            ));
            let vo = names_and_kinds(before_out);
            let vr = names_and_kinds(before_rest);
            let vx = (x.name@, x.is_dir);
            assert(names_and_kinds(out@) =~= vo.insert(j as int, vx));
            assert(names_and_kinds(rest@) =~= vr.remove(0));
            vstd::seq_lib::to_multiset_insert(vo, j as int, vx);
            vstd::seq_lib::to_multiset_remove(vr, 0);
            assert(vr[0] == vx);
            assert(vr.contains(vx));
            vstd::seq_lib::to_multiset_contains(vr, vx);
            assert(names_and_kinds(out@).to_multiset().add(names_and_kinds(rest@).to_multiset()) =~= vo.to_multiset().add(
                vr.to_multiset(),
            ));
        }
    }
    proof {
        assert(rest@.to_multiset() =~= Multiset::<DirEntry>::empty());
        assert(out@.to_multiset().add(Multiset::<DirEntry>::empty()) =~= out@.to_multiset());
        assert(names_and_kinds(rest@).to_multiset() =~= Multiset::empty());
        assert(names_and_kinds(out@).to_multiset().add(Multiset::empty()) =~= names_and_kinds(out@).to_multiset());
    }
    out
}

/// What every entry found in a directory listing satisfies: read errors on
/// it are skipped; a directory's relative path ends with `/` and it has
/// size 0; a file's relative path does not end with `/`.
pub open spec fn listed_entry(f: WalkFile) -> bool {
    let rel = f.relative_path@;
    &&& f.skip_read_errors
    &&& f.is_dir ==> f.size == 0 && rel.len() > 0 && rel.last() == '/'
    &&& !f.is_dir ==> rel.len() == 0 || rel.last() != '/'
}

/// Whether `e` is an error a directory walk can end with: a backend error,
/// or ignore rules that do not compile.
pub open spec fn is_walk_error(e: ToolError) -> bool {
    ||| e is Fs
    ||| (e matches ToolError::Failed(text) && exists|message: Seq<char>|
        text@ == #[trigger] ignore_parse_error_text(message))
}

/// The error text for a root that is neither a file nor a directory.
pub open spec fn not_walkable_text(root: Seq<char>) -> Seq<char> {
    "path "@ + root + " is not a file or directory"@
}

/// The relative path a file named directly as the walk root is shown
/// under: its file name, or the whole path when it has none.
pub open spec fn root_entry_name(root: Seq<char>) -> Seq<char> {
    match file_name_of(root) {
        Some(name) => if name.len() > 0 {
            name
        } else {
            root
        },
        None => root,
    }
}

/// What a successful walk of `root` returns: the entries [`walk_root_spec`]
/// finds for answers `fs` gave to the calls the walk makes, which are the root itself when it
/// is a file, and otherwise entries found in directory listings, sorted by
/// relative path.
pub open spec fn walk_result<F: ToolFs>(fs: &F, root: Seq<char>, files: Seq<WalkFile>) -> bool {
    &&& exists|seen: RootSeen|
        #![trigger walk_root_spec(fs, seen, root)]
        walk_root_spec(fs, seen, root) matches Ok(found) && entry_views(files).to_multiset()
            == found.to_multiset()
    &&& {
        ||| (files.len() == 1 && files[0].path@ == root && files[0].relative_path@ == root_entry_name(
            root,
        ) && !files[0].is_dir && !files[0].skip_read_errors)
        ||| (sorted_by_relative_path(files) && forall|i: int|
            0 <= i < files.len() ==> listed_entry(#[trigger] files[i]))
    }
}

/// What a failed walk of `root` returns: the error [`walk_root_spec`] fails
/// with for answers `fs` gave to the calls the walk makes, which is a backend error, ignore
/// rules that do not compile, or a root that is neither a file nor a
/// directory.
pub open spec fn walk_error<F: ToolFs>(fs: &F, root: Seq<char>, e: ToolError) -> bool {
    &&& exists|seen: RootSeen|
        #![trigger walk_root_spec(fs, seen, root)]
        walk_root_spec(fs, seen, root) matches Err(w) && failure_is(e, w)
    &&& is_walk_error(e) || (e matches ToolError::Failed(text) && text@ == not_walkable_text(root))
}

/// A walk's answer, with the entries by their sequence.
pub open spec fn walk_answer(walked: Result<Vec<WalkFile>, ToolError>) -> Result<Seq<WalkFile>, ToolError> {
    match walked {
        Ok(files) => Ok(files@),
        Err(e) => Err(e),
    }
}

/// The normal components of a path, joined, never end with a separator.
proof fn lemma_relative_text_end(p: Seq<char>)
    ensures
        crate::path::relative_text(p).len() == 0 || crate::path::relative_text(p).last() != '/',
{
    let parts = crate::path::path_parts(p);
    lemma_split_shape(p, '/');
    lemma_normal_parts_from(parts);
    let ns = crate::path::normal_parts(parts);
    if ns.len() == 1 {
        assert(crate::lines::join_with(ns, '/') == ns[0]);
    } else if ns.len() > 1 {
        assert(crate::lines::join_with(ns, '/') == crate::lines::join_with(ns.drop_last(), '/')
            + seq!['/'] + ns.last());
    }
    if ns.len() > 0 {
        let q = ns.last();
        let k = choose|k: int| 0 <= k < parts.len() && parts[k] == q;
        assert(q.len() > 0);
        assert(q[q.len() - 1] != '/');
    }
}

/// Each normal component is one of the pieces, and is not empty.
proof fn lemma_normal_parts_from(parts: Seq<Seq<char>>)
    ensures
        forall|i: int|
            0 <= i < crate::path::normal_parts(parts).len() ==> exists|k: int|
                0 <= k < parts.len() && parts[k] == #[trigger] crate::path::normal_parts(parts)[i],
        forall|i: int|
            0 <= i < crate::path::normal_parts(parts).len() ==> #[trigger] crate::path::normal_parts(
                parts,
            )[i].len() > 0,
    decreases parts.len(),
{
    if parts.len() > 0 {
        lemma_normal_parts_from(parts.drop_last());
        let prev = crate::path::normal_parts(parts.drop_last());
        let cur = crate::path::normal_parts(parts);
        assert forall|i: int| 0 <= i < cur.len() implies exists|k: int|
            0 <= k < parts.len() && parts[k] == #[trigger] cur[i] by {
            if i < prev.len() {
                let k = choose|k: int| 0 <= k < parts.drop_last().len() && parts.drop_last()[k] == prev[i];
                assert(parts[k] == cur[i]);
            } else {
                assert(parts[parts.len() - 1] == cur[i]);
            }
        }
    }
}

/// Whether a name is `.git`.
fn is_git_dir_name(name: &str) -> (r: bool)
    ensures
        r == (name@ == ".git"@),
{
    let dot_git = ".git";
    let a = name.as_bytes();
    let b = dot_git.as_bytes();
    let mut same = a.len() == b.len();
    let mut i: usize = 0;
    while same && i < a.len()
        invariant
            0 <= i <= a@.len(),
            same ==> a@.len() == b@.len() && a@.take(i as int) == b@.take(i as int),
            !same ==> a@ != b@,
        decreases a@.len() - i,
    {
        if a[i] != b[i] {
            same = false;
        } else {
            proof {
                assert(a@.take(i + 1) == a@.take(i as int).push(a@[i as int]));
                assert(b@.take(i + 1) == b@.take(i as int).push(b@[i as int]));
            }
        }
        i = i + 1;
    }
    proof {
        if same {
            assert(a@.take(a@.len() as int) == a@);
            assert(b@.take(b@.len() as int) == b@);
        }
        encode_utf8_decode_utf8(name@);
        encode_utf8_decode_utf8(dot_git@);
    }
    same
}

/// What a walk learned of a directory: the backend's error for its
/// listing, or the listing's names and kinds in the order the walk takes
/// them (by name), with what was learned of each entry.
pub enum DirSeen {
    Unlisted(ToolFsError),
    Listed(Seq<(Seq<char>, bool)>, Seq<EntrySeen>),
}

/// What a walk learned of one listed entry.
pub enum EntrySeen {
    /// Nothing: the entry was passed over before anything was asked.
    Unseen,
    /// A file's stat.
    Stat(Result<FileStat, ToolFsError>),
    /// A directory's ignore file and, when the walk went into it, its
    /// contents.
    Directory(IgnoreSeen, Option<Box<DirSeen>>),
}

/// The entries a walk of `dir` (shown under `rel`) finds, given what it
/// learned, under the stacked ignore rules: a listing error of `dir` ends
/// the walk; otherwise see [`walk_entries_spec`]. What was learned must be
/// what `fs` answered to listing `dir`, in some order.
pub open spec fn walk_dir_spec<F: ToolFs>(
    fs: &F,
    seen: DirSeen,
    dir: Seq<char>,
    rel: Seq<char>,
    rules: Seq<(Seq<char>, Seq<Seq<char>>)>,
    depth: nat,
) -> Result<Seq<(Seq<char>, Seq<char>, bool, u64)>, WalkFailure>
    decreases seen, 0int,
{
    match seen {
        DirSeen::Unlisted(e) => if fs.listing_answer(dir, Err(e)) {
            Err(WalkFailure::Fs(e))
        } else {
            Err(WalkFailure::Unfit)
        },
        DirSeen::Listed(listing, entries) => if exists|raw: Seq<(Seq<char>, bool)>|
            fs.listing_answer(dir, Ok(raw)) && listing.to_multiset() == raw.to_multiset() {
            walk_entries_spec(fs, listing, entries, listing.len() as int, dir, rel, rules, depth)
        } else {
            Err(WalkFailure::Unfit)
        },
    }
}

/// The entries the first `n` listed entries of `dir` contribute, in order.
/// A directory named `.git`, or one the rules ignore, is passed over;
/// otherwise it is an entry with a trailing `/` and size 0, its
/// `.gitignore` adds rules for its contents, and unless `depth` is spent
/// its contents follow; a directory whose listing answers that it is
/// missing has vanished and is passed over. A file the rules ignore is
/// passed over; otherwise its stat decides: a regular file is an entry
/// with its size, anything else is passed over, a missing one too, and any
/// other error ends the walk. For each entry that is not passed over
/// outright, what was learned of it must be what `fs` answered to the
/// calls the walk makes for it (its stat; or its ignore file and, while
/// `depth` remains, its listing); anything else does not fit.
pub open spec fn walk_entries_spec<F: ToolFs>(
    fs: &F,
    listing: Seq<(Seq<char>, bool)>,
    entries: Seq<EntrySeen>,
    n: int,
    dir: Seq<char>,
    rel: Seq<char>,
    rules: Seq<(Seq<char>, Seq<Seq<char>>)>,
    depth: nat,
) -> Result<Seq<(Seq<char>, Seq<char>, bool, u64)>, WalkFailure>
    decreases entries, n,
{
    if n <= 0 {
        Ok(Seq::empty())
    } else {
        match walk_entries_spec(fs, listing, entries, n - 1, dir, rel, rules, depth) {
            Err(w) => Err(w),
            Ok(prev) => {
                let name = listing[n - 1].0;
                let path = join_text(dir, name);
                let relative = join_text(rel, name);
                let learned = if n <= entries.len() {
                    entries[n - 1]
                } else {
                    EntrySeen::Unseen
                };
                if listing[n - 1].1 {
                    if name == ".git"@ || ignored_by(rules, path, true) {
                        Ok(prev)
                    } else {
                        let entry = (path, relative_text(relative) + "/"@, true, 0u64);
                        match learned {
                            EntrySeen::Directory(ignore_seen, sub) => match rules_with(
                                fs,
                                rules,
                                path,
                                join_text(path, ".gitignore"@),
                                ignore_seen,
                            ) {
                                Err(w) => Err(w),
                                Ok(inner) => match sub {
                                    Some(b) => if depth == 0 {
                                        Err(WalkFailure::Unfit)
                                    } else {
                                        proof {
                                            assert(n <= entries.len());
                                            assert(decreases_to!(entries => entries[n - 1]));
                                        }
                                        match walk_dir_spec(fs, *b, path, relative, inner, (depth - 1) as nat) {
                                            Err(WalkFailure::Fs(ToolFsError::NotFound(_))) => if *b is Unlisted {
                                                Ok(prev)
                                            } else {
                                                Err(WalkFailure::Unfit)
                                            },
                                            Err(w) => Err(w),
                                            Ok(found) => Ok(prev.push(entry) + found),
                                        }
                                    },
                                    None => if depth == 0 {
                                        Ok(prev.push(entry))
                                    } else {
                                        Err(WalkFailure::Unfit)
                                    },
                                },
                            },
                            _ => Err(WalkFailure::Unfit),
                        }
                    }
                } else if ignored_by(rules, path, false) {
                    Ok(prev)
                } else {
                    match learned {
                        EntrySeen::Stat(answer) => if !fs.stat_answer(path, answer) {
                            Err(WalkFailure::Unfit)
                        } else {
                            match answer {
                                Ok(stat) => if stat.is_file {
                                    Ok(prev.push((path, relative_text(relative), false, stat.size)))
                                } else {
                                    Ok(prev)
                                },
                                Err(ToolFsError::NotFound(_)) => Ok(prev),
                                Err(e) => Err(WalkFailure::Fs(e)),
                            }
                        },
                        _ => Err(WalkFailure::Unfit),
                    }
                }
            },
        }
    }
}

/// A plain name: a normal component with no `/` in it.
pub open spec fn plain_name(name: Seq<char>) -> bool {
    is_normal(name) && forall|j: int| 0 <= j < name.len() ==> name[j] != '/'
}

/// The first `n` names of a listing.
pub open spec fn listed_names(listing: Seq<(Seq<char>, bool)>, n: int) -> Seq<Seq<char>> {
    listing.take(n).map_values(|e: (Seq<char>, bool)| e.0)
}

/// Whether every name listed in what a walk learned of a directory, and of
/// the subdirectories it went into, is plain, and no listing names one
/// thing twice.
pub open spec fn plain_dir(seen: DirSeen) -> bool
    decreases seen, 0int,
{
    match seen {
        DirSeen::Unlisted(_) => true,
        DirSeen::Listed(listing, entries) => plain_entries(listing, entries, listing.len() as int),
    }
}

/// Whether the first `n` listed names are plain and distinct, and so are
/// those of the subdirectories learned of through them.
pub open spec fn plain_entries(listing: Seq<(Seq<char>, bool)>, entries: Seq<EntrySeen>, n: int) -> bool
    decreases entries, n,
{
    if n <= 0 {
        true
    } else {
        &&& plain_entries(listing, entries, n - 1)
        &&& plain_name(listing[n - 1].0)
        &&& !listed_names(listing, n - 1).contains(listing[n - 1].0)
        &&& if n <= entries.len() {
            match entries[n - 1] {
                EntrySeen::Directory(_, Some(b)) => {
                    proof {
                        assert(decreases_to!(entries => entries[n - 1]));
                    }
                    plain_dir(*b)
                },
                _ => true,
            }
        } else {
            true
        }
    }
}

/// The walk over the first `n` entries looks at what was learned of the
/// first `n` only.
proof fn lemma_walk_entries_prefix<F: ToolFs>(
    fs: &F,
    listing: Seq<(Seq<char>, bool)>,
    e1: Seq<EntrySeen>,
    e2: Seq<EntrySeen>,
    n: int,
    dir: Seq<char>,
    rel: Seq<char>,
    rules: Seq<(Seq<char>, Seq<Seq<char>>)>,
    depth: nat,
)
    requires
        n <= e1.len(),
        n <= e2.len(),
        forall|k: int| 0 <= k < n ==> e1[k] == e2[k],
    ensures
        walk_entries_spec(fs, listing, e1, n, dir, rel, rules, depth) == walk_entries_spec(
            fs,
            listing,
            e2,
            n,
            dir,
            rel,
            rules,
            depth,
        ),
    decreases n,
{
    if n > 0 {
        lemma_walk_entries_prefix(fs, listing, e1, e2, n - 1, dir, rel, rules, depth);
        assert(e1[n - 1] == e2[n - 1]);
    }
}

/// Once the walk over some entries fails, it fails the same way over more.
proof fn lemma_walk_entries_failed<F: ToolFs>(
    fs: &F,
    listing: Seq<(Seq<char>, bool)>,
    entries: Seq<EntrySeen>,
    i: int,
    n: int,
    dir: Seq<char>,
    rel: Seq<char>,
    rules: Seq<(Seq<char>, Seq<Seq<char>>)>,
    depth: nat,
)
    requires
        0 <= i <= n,
        walk_entries_spec(fs, listing, entries, i, dir, rel, rules, depth) is Err,
    ensures
        walk_entries_spec(fs, listing, entries, n, dir, rel, rules, depth) == walk_entries_spec(
            fs,
            listing,
            entries,
            i,
            dir,
            rel,
            rules,
            depth,
        ),
    decreases n - i,
{
    if n > i {
        lemma_walk_entries_failed(fs, listing, entries, i, n - 1, dir, rel, rules, depth);
    }
}


/// Walks the listing of `directory`, pushing what it finds onto `files`,
/// under the stacked ignore rules; nested `.gitignore` files add rules for
/// their directory while it is walked. `depth` bounds how many levels are
/// descended, which no real tree reaches from its start of `usize::MAX`.
/// Returns what was learned along the way, and the entries are those
/// [`walk_dir_spec`] says.
fn walk_directory<F: ToolFs>(
    fs: &F,
    directory: &str,
    relative_directory: &str,
    rules: &mut Vec<IgnoreRules>,
    files: &mut Vec<WalkFile>,
    depth: usize,
) -> (r: (Result<(), ToolError>, Ghost<DirSeen>))
    ensures
        match walk_dir_spec(
            fs,
            r.1@,
            directory@,
            relative_directory@,
            rule_views(old(rules)@),
            depth as nat,
        ) {
            Ok(found) => r.0 is Ok && final(rules)@ == old(rules)@ && entry_views(final(files)@)
                == entry_views(old(files)@) + found,
            Err(w) => r.0 matches Err(e) && failure_is(e, w),
        },
        final(files)@.len() >= old(files)@.len(),
        final(files)@.take(old(files)@.len() as int) == old(files)@,
        forall|i: int|
            old(files)@.len() <= i < final(files)@.len() ==> listed_entry(#[trigger] final(files)@[i]),
        r.0 matches Err(e) ==> is_walk_error(e),
        r.0 matches Err(ToolError::Fs(ToolFsError::NotFound(_))) ==> r.1@ matches DirSeen::Unlisted(
            ToolFsError::NotFound(_),
        ),
        r.1@ is Unlisted ==> final(files)@ == old(files)@ && final(rules)@ == old(rules)@,
    decreases depth,
{
    let listed = match fs.read_dir(directory) {
        Ok(listed) => listed,
        Err(error) => {
            let ghost seen = DirSeen::Unlisted(error);
            proof {
                assert(files@.take(files@.len() as int) == files@);
            }
            return (Err(ToolError::Fs(error)), Ghost(seen));
        },
    };
    let ghost raw = names_and_kinds(listed@);
    let entries = sort_dir_entries(listed);
    let ghost listing = names_and_kinds(entries@);
    proof {
        assert(fs.listing_answer(directory@, Ok(raw)) && listing.to_multiset() == raw.to_multiset());
    }
    let ghost start_files = files@;
    let ghost start_rules = rules@;
    let ghost rv = rule_views(rules@);
    let ghost mut seen: Seq<EntrySeen> = Seq::empty();
    let mut i: usize = 0;
    proof {
        assert(entry_views(files@).skip(start_files.len() as int) =~= Seq::empty());
        assert(files@.take(start_files.len() as int) == start_files);
    }
    while i < entries.len()
        invariant
            0 <= i <= entries@.len(),
            listing == names_and_kinds(entries@),
            fs.listing_answer(directory@, Ok(raw)) && listing.to_multiset() == raw.to_multiset(),
            start_files == old(files)@,
            start_rules == old(rules)@,
            rv == rule_views(start_rules),
            rules@ == start_rules,
            files@.len() >= start_files.len(),
            files@.take(start_files.len() as int) == start_files,
            forall|k: int| start_files.len() <= k < files@.len() ==> listed_entry(#[trigger] files@[k]),
            seen.len() == i,
            walk_entries_spec(fs, listing, seen, i as int, directory@, relative_directory@, rv, depth as nat)
                == Ok::<Seq<(Seq<char>, Seq<char>, bool, u64)>, WalkFailure>(
                entry_views(files@).skip(start_files.len() as int),
            ),
        decreases entries@.len() - i,
    {
        let entry = &entries[i];
        let path = join_path(directory, entry.name.as_str());
        let relative = join_path(relative_directory, entry.name.as_str());
        let ghost before = files@;
        let ghost prev = entry_views(files@).skip(start_files.len() as int);
        let ghost mut this: EntrySeen = EntrySeen::Unseen;
        proof {
            assert(listing[i as int] == (entry.name@, entry.is_dir));
        }
        if entry.is_dir {
            if !is_git_dir_name(entry.name.as_str()) && !is_ignored(rules, path.as_str(), true) {
                let before_len = files.len();
                let shown = relative_path_string(relative.as_str());
                let relative_path = cat(shown.as_str(), "/");
                proof {
                    reveal_strlit("/");
                }
                files.push(
                    WalkFile {
                        path: path.clone(),
                        relative_path,
                        is_dir: true,
                        size: 0,
                        skip_read_errors: true,
                    },
                );
                let ghost with_dir = files@;
                proof {
                    assert(files@.take(start_files.len() as int) == before.take(
                        start_files.len() as int,
                    ));
                    assert(entry_views(files@).skip(start_files.len() as int) =~= prev.push(
                        (path@, relative_text(relative@) + "/"@, true, 0u64),
                    ));
                }
                let count = rules.len();
                let ignore_path = join_path(path.as_str(), ".gitignore");
                let (added, Ghost(ignore_seen)) = add_ignore_file(
                    fs,
                    path.as_str(),
                    ignore_path.as_str(),
                    rules,
                );
                match added {
                    Ok(()) => {},
                    Err(error) => {
                        proof {
                            this = EntrySeen::Directory(ignore_seen, None);
                            let all = seen.push(this);
                            lemma_walk_entries_prefix(fs, listing, all, seen, i as int, directory@, relative_directory@, rv, depth as nat);
                            lemma_walk_entries_failed(fs, listing, all, i + 1, listing.len() as int, directory@, relative_directory@, rv, depth as nat);
                            assert(files@.take(start_files.len() as int) == with_dir.take(start_files.len() as int));
                        }
                        return (Err(error), Ghost(DirSeen::Listed(listing, seen.push(this))));
                    },
                }
                let ghost after_add = rules@;
                proof {
                    assert(after_add.subrange(0, count as int) =~= after_add.take(count as int));
                }
                if depth > 0 {
                    let ghost mid = files@;
                    let (walked, Ghost(sub)) = walk_directory(
                        fs,
                        path.as_str(),
                        relative.as_str(),
                        rules,
                        files,
                        depth - 1,
                    );
                    proof {
                        this = EntrySeen::Directory(ignore_seen, Some(Box::new(sub)));
                        assert forall|k: int| start_files.len() <= k < files@.len() implies listed_entry(
                            #[trigger] files@[k],
                        ) by {
                            if k < mid.len() {
                                assert(files@[k] == files@.take(mid.len() as int)[k]);
                            }
                        }
                        assert(files@.take(start_files.len() as int) == files@.take(
                            mid.len() as int,
                        ).take(start_files.len() as int));
                    }
                    match walked {
                        Ok(()) => {
                            proof {
                                assert(entry_views(files@).skip(start_files.len() as int) =~= entry_views(
                                    mid,
                                ).skip(start_files.len() as int) + (entry_views(files@).skip(mid.len() as int)));
                                assert(entry_views(files@) =~= entry_views(mid) + entry_views(files@).skip(mid.len() as int));
                                let all = seen.push(this);
                                lemma_walk_entries_prefix(fs, listing, all, seen, i as int, directory@, relative_directory@, rv, depth as nat);
                                let found = walk_dir_spec(fs, sub, path@, relative@, rule_views(after_add), (depth - 1) as nat)->Ok_0;
                                let entry = (path@, relative_text(relative@) + "/"@, true, 0u64);
                                assert(entry_views(files@).skip(start_files.len() as int) == prev.push(entry) + found);
                                assert(walk_entries_spec(fs, listing, all, i + 1, directory@, relative_directory@, rv, depth as nat) == Ok::<Seq<(Seq<char>, Seq<char>, bool, u64)>, WalkFailure>(entry_views(files@).skip(start_files.len() as int)));
                            }
                        },
                        Err(ToolError::Fs(ToolFsError::NotFound(_))) => {
                            // The directory vanished after it was listed: its entry goes.
                            files.truncate(before_len);
                            proof {
                                assert(files@ =~= before);
                                let all = seen.push(this);
                                lemma_walk_entries_prefix(fs, listing, all, seen, i as int, directory@, relative_directory@, rv, depth as nat);
                                assert(walk_entries_spec(fs, listing, all, i + 1, directory@, relative_directory@, rv, depth as nat) == Ok::<Seq<(Seq<char>, Seq<char>, bool, u64)>, WalkFailure>(entry_views(files@).skip(start_files.len() as int)));
                            }
                        },
                        Err(error) => {
                            proof {
                                let all = seen.push(this);
                                lemma_walk_entries_prefix(fs, listing, all, seen, i as int, directory@, relative_directory@, rv, depth as nat);
                                lemma_walk_entries_failed(fs, listing, all, i + 1, listing.len() as int, directory@, relative_directory@, rv, depth as nat);
                            }
                            return (Err(error), Ghost(DirSeen::Listed(listing, seen.push(this))));
                        },
                    }
                } else {
                    proof {
                        this = EntrySeen::Directory(ignore_seen, None);
                    }
                }
                rules.truncate(count);
                proof {
                    assert(rules@ =~= start_rules);
                }
            }
        } else if !is_ignored(rules, path.as_str(), false) {
            let stat = fs.stat(path.as_str());
            proof {
                this = EntrySeen::Stat(stat);
            }
            match stat {
                Ok(stat) => {
                    if stat.is_file {
                        let relative_path = relative_path_string(relative.as_str());
                        proof {
                            lemma_relative_text_end(relative@);
                        }
                        files.push(
                            WalkFile {
                                path,
                                relative_path,
                                is_dir: false,
                                size: stat.size,
                                skip_read_errors: true,
                            },
                        );
                        proof {
                            assert(files@.take(start_files.len() as int) == before.take(
                                start_files.len() as int,
                            ));
                            assert(entry_views(files@).skip(start_files.len() as int) =~= prev.push(
                                (path@, relative_text(relative@), false, stat.size),
                            ));
                        }
                    }
                },
                Err(ToolFsError::NotFound(_)) => {},
                Err(error) => {
                    proof {
                        let all = seen.push(this);
                        lemma_walk_entries_prefix(fs, listing, all, seen, i as int, directory@, relative_directory@, rv, depth as nat);
                        lemma_walk_entries_failed(fs, listing, all, i + 1, listing.len() as int, directory@, relative_directory@, rv, depth as nat);
                    }
                    return (Err(ToolError::Fs(error)), Ghost(DirSeen::Listed(listing, seen.push(this))));
                },
            }
        }
        proof {
            let all = seen.push(this);
            lemma_walk_entries_prefix(fs, listing, all, seen, i as int, directory@, relative_directory@, rv, depth as nat);
            seen = all;
        }
        i = i + 1;
    }
    proof {
        assert(entry_views(files@) =~= entry_views(start_files) + entry_views(files@).skip(start_files.len() as int)) by {
            assert(files@.take(start_files.len() as int) == start_files);
        }
    }
    (Ok(()), Ghost(DirSeen::Listed(listing, seen)))
}

/// What a walk learned of its root: the stat's error, a file's size,
/// something that is neither file nor directory, or for a directory what
/// it learned of the root's `.git/info/exclude` and `.gitignore` and of its
/// contents.
pub enum RootSeen {
    StatFailed(ToolFsError),
    /// The root's stat, when it is not a directory.
    Stat(FileStat),
    /// The root's stat, what was learned of its `.git/info/exclude` and
    /// `.gitignore`, and of its listing.
    Directory(FileStat, IgnoreSeen, IgnoreSeen, DirSeen),
}

/// What a walk of `root` finds, given what it learned: a file root alone,
/// under its file name; a directory's entries, under the rules of its
/// exclude and ignore files; an error for anything else. What was learned
/// must be what `fs` answered to the calls the walk makes.
pub open spec fn walk_root_spec<F: ToolFs>(fs: &F, seen: RootSeen, root: Seq<char>) -> Result<
    Seq<(Seq<char>, Seq<char>, bool, u64)>,
    WalkFailure,
> {
    match seen {
        RootSeen::StatFailed(e) => if fs.stat_answer(root, Err(e)) {
            Err(WalkFailure::Fs(e))
        } else {
            Err(WalkFailure::Unfit)
        },
        RootSeen::Stat(stat) => if !fs.stat_answer(root, Ok(stat)) {
            Err(WalkFailure::Unfit)
        } else if stat.is_file {
            Ok(seq![(root, root_entry_name(root), false, stat.size)])
        } else if stat.is_dir {
            Err(WalkFailure::Unfit)
        } else {
            Err(WalkFailure::NotWalkable(root))
        },
        RootSeen::Directory(stat, exclude, ignore, dir) => if !fs.stat_answer(root, Ok(stat))
            || stat.is_file || !stat.is_dir {
            Err(WalkFailure::Unfit)
        } else {
            match rules_with(fs, Seq::empty(), root, join_text(root, ".git/info/exclude"@), exclude) {
                Err(w) => Err(w),
                Ok(first) => match rules_with(fs, first, root, join_text(root, ".gitignore"@), ignore) {
                    Err(w) => Err(w),
                    Ok(rules) => walk_dir_spec(fs, dir, root, ""@, rules, usize::MAX as nat),
                },
            }
        },
    }
}

/// Walks a file or directory using only the [`ToolFs`].
///
/// A file root comes back alone, under its file name. A directory walk
/// includes hidden files, skips every `.git` directory, applies the root's
/// `.git/info/exclude` and `.gitignore` and each nested `.gitignore`, prunes
/// ignored directories, skips listed entries that disappear before they can
/// be resolved (a file whose stat, or a subdirectory whose listing, answers
/// that it is missing), and returns files and directories sorted by
/// relative path; directories carry a trailing `/`. Other stat and listing
/// errors fail the walk, as does a missing root.
pub fn walk_files<F: ToolFs>(root: &str, fs: &F) -> (r: Result<Vec<WalkFile>, ToolError>)
    ensures
        r matches Ok(files) ==> walk_result(fs, root@, files@),
        r matches Err(e) ==> walk_error(fs, root@, e),
{
    let stat = match fs.stat(root) {
        Ok(stat) => stat,
        Err(error) => {
            proof {
                assert(walk_root_spec(fs, RootSeen::StatFailed(error), root@) is Err);
            }
            return Err(ToolError::Fs(error));
        },
    };
    if stat.is_file {
        let relative_path = match file_name(root) {
            Some(name) => if name.as_str().unicode_len() > 0 {
                name
            } else {
                root.to_string()
            },
            None => root.to_string(),
        };
        let mut files: Vec<WalkFile> = Vec::new();
        files.push(
            WalkFile {
                path: root.to_string(),
                relative_path,
                is_dir: false,
                size: stat.size,
                skip_read_errors: false,
            },
        );
        proof {
            let found = walk_root_spec(fs, RootSeen::Stat(stat), root@);
            assert(entry_views(files@) =~= found->Ok_0);
        }
        return Ok(files);
    }
    if !stat.is_dir {
        let head = cat("path ", root);
        let text = cat(head.as_str(), " is not a file or directory");
        proof {
            assert(walk_root_spec(fs, RootSeen::Stat(stat), root@) is Err);
        }
        return Err(ToolError::Failed(text));
    }
    let mut rules: Vec<IgnoreRules> = Vec::new();
    let exclude = join_path(root, ".git/info/exclude");
    let (first, Ghost(exclude_seen)) = add_ignore_file(fs, root, exclude.as_str(), &mut rules);
    proof {
        assert(rule_views(Seq::<IgnoreRules>::empty()) =~= Seq::empty());
    }
    match first {
        Ok(()) => {},
        Err(error) => {
            proof {
                let seen = RootSeen::Directory(stat, exclude_seen, exclude_seen, DirSeen::Listed(Seq::empty(), Seq::empty()));
                assert(walk_root_spec(fs, seen, root@) is Err);
            }
            return Err(error);
        },
    }
    let gitignore = join_path(root, ".gitignore");
    let (second, Ghost(ignore_seen)) = add_ignore_file(fs, root, gitignore.as_str(), &mut rules);
    match second {
        Ok(()) => {},
        Err(error) => {
            proof {
                let seen = RootSeen::Directory(stat, exclude_seen, ignore_seen, DirSeen::Listed(Seq::empty(), Seq::empty()));
                assert(walk_root_spec(fs, seen, root@) is Err);
            }
            return Err(error);
        },
    }
    let mut files: Vec<WalkFile> = Vec::new();
    let ghost stacked = rule_views(rules@);
    let (walked, Ghost(dir_seen)) = walk_directory(fs, root, "", &mut rules, &mut files, usize::MAX);
    let ghost seen = RootSeen::Directory(stat, exclude_seen, ignore_seen, dir_seen);
    proof {
        reveal_strlit("");
        assert(walk_root_spec(fs, seen, root@) == walk_dir_spec(fs, dir_seen, root@, ""@, stacked, usize::MAX as nat));
    }
    match walked {
        Ok(()) => {},
        Err(error) => return Err(error),
    }
    let ghost found = files@;
    let sorted = sort_walk_files(files);
    proof {
        assert(found.take(0) == Seq::<WalkFile>::empty());
        assert(entry_views(Seq::<WalkFile>::empty()) =~= Seq::empty());
        assert(Seq::<(Seq<char>, Seq<char>, bool, u64)>::empty() + entry_views(found) =~= entry_views(found));
        assert forall|i: int| 0 <= i < sorted@.len() implies listed_entry(#[trigger] sorted@[i]) by {
            let x = sorted@[i];
            assert(sorted@.contains(x));
            vstd::seq_lib::to_multiset_contains(sorted@, x);
            vstd::seq_lib::to_multiset_contains(found, x);
            let k = choose|k: int| 0 <= k < found.len() && found[k] == x;
        }
    }
    Ok(sorted)
}

} // verus!
