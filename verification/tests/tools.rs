use std::cell::RefCell;
use std::collections::{BTreeMap, BTreeSet};

use verlet_tools::fs::{DirEntry, FileStat, ToolError, ToolFs, ToolFsError};
use verlet_tools::glob::{GlobArgs, GlobOutput};
use verlet_tools::grep::GrepArgs;
use verlet_tools::read::ReadArgs;
use verlet_tools::truncate::{DEFAULT_MAX_BYTES, MAX_FILE_BYTES};
use verlet_tools::write::{WriteArgs, WriteOutput};

/// An in-memory filesystem rooted at "": paths are `/`-separated, `.` is
/// the root, and `..` may not leave it.
#[derive(Default)]
struct MemFs {
    files: RefCell<BTreeMap<String, Vec<u8>>>,
    dirs: RefCell<BTreeSet<String>>,
    specials: BTreeSet<String>,
    dangling: BTreeSet<String>,
    vanished_dirs: BTreeSet<String>,
    denied_stats: BTreeSet<String>,
    root_alias: Option<String>,
    failing_reads: BTreeSet<String>,
    reads: RefCell<Vec<String>>,
    read_dirs: RefCell<Vec<String>>,
    replacement_on_bounded_read: RefCell<Option<Vec<u8>>>,
}

impl MemFs {
    fn new() -> MemFs {
        let fs = MemFs::default();
        fs.dirs.borrow_mut().insert(String::new());
        fs
    }

    fn key_of(&self, path: &str) -> Result<String, ToolFsError> {
        match &self.root_alias {
            Some(alias) if path == alias => Ok(String::new()),
            Some(alias) if path.starts_with(&format!("{alias}/")) => {
                MemFs::key(&path[alias.len() + 1..])
            }
            _ => MemFs::key(path),
        }
    }

    fn key(path: &str) -> Result<String, ToolFsError> {
        let mut parts: Vec<&str> = Vec::new();
        for part in path.split('/') {
            match part {
                "" | "." => {}
                ".." => {
                    if parts.pop().is_none() {
                        return Err(ToolFsError::Denied(path.to_owned()));
                    }
                }
                other => parts.push(other),
            }
        }
        Ok(parts.join("/"))
    }

    fn parent_key(key: &str) -> String {
        match key.rfind('/') {
            Some(index) => key[..index].to_owned(),
            None => String::new(),
        }
    }

    fn dir(&self, path: &str) {
        let key = MemFs::key(path).unwrap();
        let mut current = String::new();
        for part in key.split('/').filter(|part| !part.is_empty()) {
            if !current.is_empty() {
                current.push('/');
            }
            current.push_str(part);
            self.dirs.borrow_mut().insert(current.clone());
        }
    }

    fn file(&self, path: &str, content: &[u8]) {
        let key = MemFs::key(path).unwrap();
        self.dir(&MemFs::parent_key(&key));
        self.files.borrow_mut().insert(key, content.to_vec());
    }

    fn content(&self, path: &str) -> Option<Vec<u8>> {
        self.files.borrow().get(&MemFs::key(path).unwrap()).cloned()
    }
}

impl ToolFs for MemFs {
    fn read_file(&self, path: &str) -> Result<Vec<u8>, ToolFsError> {
        self.read_file_bounded(path, usize::MAX)
    }

    fn read_file_bounded(&self, path: &str, max_bytes: usize) -> Result<Vec<u8>, ToolFsError> {
        self.reads.borrow_mut().push(path.to_owned());
        if self.failing_reads.contains(path) {
            return Err(ToolFsError::Io(format!("fixture read failure: {path}")));
        }
        let key = self.key_of(path)?;
        if let Some(replacement) = self.replacement_on_bounded_read.borrow_mut().take() {
            self.files.borrow_mut().insert(key.clone(), replacement);
        }
        if let Some(bytes) = self.files.borrow().get(&key) {
            if bytes.len() > max_bytes {
                return Err(ToolFsError::FileTooLarge { path: path.to_owned(), max_bytes });
            }
            return Ok(bytes.clone());
        }
        if self.dirs.borrow().contains(&key) {
            return Err(ToolFsError::Io("Is a directory (os error 21)".to_owned()));
        }
        Err(ToolFsError::NotFound(path.to_owned()))
    }

    fn write_file(&self, path: &str, content: &[u8]) -> Result<(), ToolFsError> {
        let key = self.key_of(path)?;
        if self.dirs.borrow().contains(&key) {
            return Err(ToolFsError::Io("Is a directory (os error 21)".to_owned()));
        }
        if !self.dirs.borrow().contains(&MemFs::parent_key(&key)) {
            return Err(ToolFsError::NotFound(path.to_owned()));
        }
        self.files.borrow_mut().insert(key, content.to_vec());
        Ok(())
    }

    fn mkdir(&self, path: &str, recursive: bool) -> Result<(), ToolFsError> {
        let key = self.key_of(path)?;
        if self.files.borrow().contains_key(&key) {
            return Err(ToolFsError::Io("File exists (os error 17)".to_owned()));
        }
        if !recursive && !self.dirs.borrow().contains(&MemFs::parent_key(&key)) {
            return Err(ToolFsError::NotFound(path.to_owned()));
        }
        self.dir(path);
        Ok(())
    }

    fn stat(&self, path: &str) -> Result<FileStat, ToolFsError> {
        let key = self.key_of(path)?;
        if let Some(bytes) = self.files.borrow().get(&key) {
            return Ok(FileStat { is_dir: false, is_file: true, size: bytes.len() as u64 });
        }
        if self.dirs.borrow().contains(&key) {
            return Ok(FileStat { is_dir: true, is_file: false, size: 0 });
        }
        if self.specials.contains(&key) {
            return Ok(FileStat { is_dir: false, is_file: false, size: 0 });
        }
        if self.denied_stats.contains(&key) {
            return Err(ToolFsError::Denied(path.to_owned()));
        }
        Err(ToolFsError::NotFound(path.to_owned()))
    }

    fn read_dir(&self, path: &str) -> Result<Vec<DirEntry>, ToolFsError> {
        self.read_dirs.borrow_mut().push(path.to_owned());
        let key = self.key_of(path)?;
        if !self.dirs.borrow().contains(&key) {
            return Err(ToolFsError::NotFound(path.to_owned()));
        }
        let mut entries = Vec::new();
        let child = |candidate: &str| -> Option<String> {
            if candidate.is_empty() || MemFs::parent_key(candidate) != key {
                return None;
            }
            Some(candidate.rsplit('/').next().unwrap().to_owned())
        };
        for name in self.dirs.borrow().iter().filter_map(|d| child(d)) {
            entries.push(DirEntry { name, is_dir: true });
        }
        for name in self.files.borrow().keys().filter_map(|f| child(f)) {
            entries.push(DirEntry { name, is_dir: false });
        }
        for name in self.specials.iter().filter_map(|s| child(s)) {
            entries.push(DirEntry { name, is_dir: false });
        }
        for name in self.dangling.iter().chain(self.denied_stats.iter()).filter_map(|s| child(s)) {
            entries.push(DirEntry { name, is_dir: false });
        }
        for name in self.vanished_dirs.iter().filter_map(|s| child(s)) {
            entries.push(DirEntry { name, is_dir: true });
        }
        entries.reverse();
        Ok(entries)
    }

    fn path_exists(&self, path: &str) -> Result<bool, ToolFsError> {
        let key = self.key_of(path)?;
        Ok(self.files.borrow().contains_key(&key)
            || self.dirs.borrow().contains(&key)
            || self.specials.contains(&key))
    }
}

fn json(text: &str) -> serde_json::Value {
    serde_json::from_str(text).unwrap()
}

fn grep_args(pattern: &str) -> GrepArgs {
    GrepArgs {
        pattern: pattern.to_owned(),
        path: None,
        glob: None,
        ignore_case: false,
        literal: false,
        context: None,
        limit: None,
    }
}

fn glob_args(pattern: &str, limit: Option<i64>) -> GlobArgs {
    GlobArgs { pattern: pattern.to_owned(), path: None, limit }
}

fn read_args(path: &str, offset: Option<i64>, limit: Option<i64>) -> ReadArgs {
    ReadArgs { path: path.to_owned(), offset, limit }
}

fn write_args(path: &str, content: &str) -> WriteArgs {
    WriteArgs { path: path.to_owned(), content: content.to_owned() }
}

// ---- find ----

#[test]
fn double_star_matches_hidden_files_with_relative_sorted_paths() {
    let fs = MemFs::new();
    fs.dir("src");
    fs.dir(".git");
    fs.file("src/b.json", b"b");
    fs.file("src/a.json", b"a");
    fs.file(".hidden.json", b"hidden");
    fs.file(".git/secret.json", b"secret");

    let output = verlet_tools::glob::run(glob_args("**/*.json", None), &fs).unwrap();

    assert_eq!(
        output,
        GlobOutput {
            text: ".hidden.json\nsrc/a.json\nsrc/b.json".to_owned(),
            paths: vec![
                ".hidden.json".to_owned(),
                "src/a.json".to_owned(),
                "src/b.json".to_owned(),
            ],
            limit_reached: false,
            truncated: false,
        }
    );
}

#[test]
fn model_facing_contract_is_named_find() {
    assert_eq!(verlet_tools::glob::contract().name, "find");
}

#[test]
fn a_file_search_root_is_a_structured_error() {
    let fs = MemFs::new();
    fs.file("file.txt", b"content");
    let mut search = glob_args("**", None);
    search.path = Some("file.txt".to_owned());

    let error = verlet_tools::glob::run(search, &fs).unwrap_err();

    assert_eq!(error.to_string(), "Not a directory: file.txt");
}

#[test]
fn nested_gitignore_negation_and_info_exclude_are_respected() {
    let fs = MemFs::new();
    fs.dir("nested");
    fs.dir("ignored");
    fs.dir(".git/info");
    fs.file(".gitignore", b"ignored/\n*.tmp\n!keep.tmp\nnested/*.log\n");
    fs.file("nested/.gitignore", b"!important.log\n");
    fs.file(".git/info/exclude", b"excluded.txt\n");
    fs.file("ignored/unseen.txt", b"unseen");
    fs.file("drop.tmp", b"drop");
    fs.file("keep.tmp", b"keep");
    fs.file("excluded.txt", b"excluded");
    fs.file("nested/drop.log", b"drop");
    fs.file("nested/important.log", b"keep");
    fs.file("nested/keep.txt", b"keep");

    let output = verlet_tools::glob::run(glob_args("**", None), &fs).unwrap();

    assert_eq!(
        output.paths,
        vec![
            ".gitignore".to_owned(),
            "keep.tmp".to_owned(),
            "nested/".to_owned(),
            "nested/.gitignore".to_owned(),
            "nested/important.log".to_owned(),
            "nested/keep.txt".to_owned(),
        ]
    );
}

#[test]
fn ignored_directories_are_pruned_without_being_read() {
    let fs = MemFs::new();
    fs.dir("ignored");
    fs.file(".gitignore", b"ignored/\n");
    fs.file("ignored/file.txt", b"hidden");

    verlet_tools::glob::run(glob_args("**", None), &fs).unwrap();

    assert!(!fs.read_dirs.borrow().iter().any(|path| path.ends_with("ignored")));
}

#[test]
fn limit_caps_sorted_results_and_reports_a_partial_listing() {
    let fs = MemFs::new();
    fs.file("c.txt", b"c");
    fs.file("a.txt", b"a");
    fs.file("b.txt", b"b");

    let output = verlet_tools::glob::run(glob_args("**", Some(2)), &fs).unwrap();

    assert_eq!(output.paths, vec!["a.txt".to_owned(), "b.txt".to_owned()]);
    assert!(output.limit_reached);
    assert_eq!(
        output.text,
        "a.txt\nb.txt\n\n[2 results limit reached. Use limit=4 for more, or refine pattern]"
    );
}

#[test]
fn invalid_patterns_are_argument_errors() {
    let fs = MemFs::new();

    let error = verlet_tools::glob::run(glob_args("[", None), &fs).unwrap_err();

    assert!(error.to_string().starts_with("invalid arguments: invalid glob pattern"));
}

#[test]
fn nonpositive_limit_floors_to_one_and_maximum_i64_limit_is_safe() {
    let fs = MemFs::new();
    fs.file("file.txt", b"content");

    let zero = verlet_tools::glob::run(glob_args("**", Some(0)), &fs).unwrap();
    let negative = verlet_tools::glob::run(glob_args("**", Some(-10)), &fs).unwrap();
    let maximum = verlet_tools::glob::run(glob_args("**", Some(i64::MAX)), &fs).unwrap();

    assert_eq!(
        zero.text,
        "file.txt\n\n[1 results limit reached. Use limit=2 for more, or refine pattern]"
    );
    assert_eq!(negative.text, zero.text);
    assert_eq!(maximum.paths, vec!["file.txt"]);
    assert!(!maximum.limit_reached);
}

#[test]
fn no_matches_directories_and_slash_patterns_match_pi() {
    let fs = MemFs::new();
    fs.dir("src/foo/bar");
    fs.file("src/foo/bar/example.spec.ts", b"");

    let no_match = verlet_tools::glob::run(glob_args("*.nope", None), &fs).unwrap();
    let directories = verlet_tools::glob::run(glob_args("bar", None), &fs).unwrap();
    let path_pattern = verlet_tools::glob::run(glob_args("src/**/*.spec.ts", None), &fs).unwrap();
    let leading_double_star =
        verlet_tools::glob::run(glob_args("**/src/**/*.spec.ts", None), &fs).unwrap();
    let root_pattern = verlet_tools::glob::run(glob_args("/", None), &fs).unwrap();

    assert_eq!(no_match.text, "No files found matching pattern");
    assert_eq!(directories.paths, vec!["src/foo/bar/".to_owned()]);
    assert_eq!(directories.text, "src/foo/bar/");
    assert_eq!(path_pattern.paths, vec!["src/foo/bar/example.spec.ts"]);
    assert_eq!(leading_double_star.paths, path_pattern.paths);
    assert_eq!(root_pattern.text, "No files found matching pattern");
}

#[test]
fn byte_truncation_and_contract_strings_match_pi() {
    let fs = MemFs::new();
    for index in 0..240 {
        fs.file(&format!("{}-{index:03}.txt", "x".repeat(220)), b"");
    }

    let output = verlet_tools::glob::run(glob_args("*.txt", None), &fs).unwrap();
    let combined = verlet_tools::glob::run(glob_args("*.txt", Some(240)), &fs).unwrap();

    assert!(output.truncated);
    assert!(output.text.ends_with("\n\n[50.0KB limit reached]"));
    assert!(combined.text.ends_with(
        "\n\n[240 results limit reached. Use limit=480 for more, or refine pattern. 50.0KB limit reached]"
    ));
    assert_eq!(
        verlet_tools::glob::contract().description,
        "Search for files by glob pattern. Returns matching file paths relative to the search directory. Respects .gitignore. Output is truncated to 1000 results or 50KB (whichever is hit first)."
    );
    assert_eq!(
        json(verlet_tools::glob::contract().input_schema),
        json(r#"{
            "type": "object",
            "properties": {
                "pattern": {"type": "string", "description": "Glob pattern to match files, e.g. '*.ts', '**/*.json', or 'src/**/*.spec.ts'"},
                "path": {"type": "string", "description": "Directory to search in (default: current directory)"},
                "limit": {"type": "number", "description": "Maximum number of results (default: 1000)"}
            },
            "required": ["pattern"]
        }"#)
    );
}

// ---- grep ----

#[test]
fn renders_plain_rows_in_deterministic_file_order() {
    let fs = MemFs::new();
    fs.file("b.txt", b"needle b\n");
    fs.file("a.txt", b"zero\nNeedle a\n");
    let mut search = grep_args("needle");
    search.ignore_case = true;

    let output = verlet_tools::grep::run(search, &fs).unwrap();

    assert_eq!(output.text, "a.txt:2: Needle a\nb.txt:1: needle b");
    assert_eq!(output.match_count, 2);
    assert!(!output.limit_reached);
}

#[test]
fn renders_independent_context_blocks_without_separators() {
    let fs = MemFs::new();
    fs.file(
        "file.txt",
        b"before a\nhit one\nafter a\ngap one\ngap two\nbefore b\nhit two\nafter b\n",
    );
    let mut search = grep_args("hit");
    search.context = Some(1);

    let output = verlet_tools::grep::run(search, &fs).unwrap();

    assert_eq!(
        output.text,
        "file.txt-1- before a\n\
         file.txt:2: hit one\n\
         file.txt-3- after a\n\
         file.txt-6- before b\n\
         file.txt:7: hit two\n\
         file.txt-8- after b"
    );
}

#[test]
fn overlapping_context_is_repeated_for_each_match() {
    let fs = MemFs::new();
    fs.file("file.txt", b"before\nhit one\nhit two\nafter\n");
    let mut search = grep_args("hit");
    search.context = Some(1);

    let output = verlet_tools::grep::run(search, &fs).unwrap();

    assert_eq!(
        output.text,
        "file.txt-1- before\nfile.txt:2: hit one\nfile.txt-3- hit two\nfile.txt-2- hit one\nfile.txt:3: hit two\nfile.txt-4- after"
    );
}

#[test]
fn clips_long_rendered_lines_at_five_hundred_utf16_units() {
    let fs = MemFs::new();
    let line = format!("{}needle", "x".repeat(verlet_tools::grep_render::MAX_LINE_CHARS));
    fs.file("long.txt", line.as_bytes());

    let output = verlet_tools::grep::run(grep_args("needle"), &fs).unwrap();

    assert_eq!(
        output.text,
        format!(
            "long.txt:1: {}... [truncated]\n\n[Some lines truncated to 500 chars. Use read tool to see full lines]",
            "x".repeat(verlet_tools::grep_render::MAX_LINE_CHARS)
        )
    );
}

#[test]
fn clips_emoji_on_exact_and_split_utf16_boundaries() {
    let fs = MemFs::new();
    fs.file("a.txt", format!("{}🙂needle", "x".repeat(498)).as_bytes());
    fs.file("b.txt", format!("{}🙂needle", "x".repeat(499)).as_bytes());

    let output = verlet_tools::grep::run(grep_args("needle"), &fs).unwrap();

    assert_eq!(
        output.text,
        format!(
            "a.txt:1: {}🙂... [truncated]\nb.txt:1: {}\u{fffd}... [truncated]\n\n[Some lines truncated to 500 chars. Use read tool to see full lines]",
            "x".repeat(498),
            "x".repeat(499),
        )
    );
}

#[test]
fn literal_mode_matches_regex_metacharacters_exactly() {
    let fs = MemFs::new();
    fs.file("literal.txt", b"value a+b [x] done\n");
    let mut search = grep_args("a+b [x]");
    search.literal = true;

    let output = verlet_tools::grep::run(search, &fs).unwrap();

    assert_eq!(output.text, "literal.txt:1: value a+b [x] done");
    assert_eq!(output.match_count, 1);
}

#[test]
fn no_matches_uses_pi_text() {
    let fs = MemFs::new();
    fs.file("file.txt", b"haystack\n");

    let output = verlet_tools::grep::run(grep_args("needle"), &fs).unwrap();

    assert_eq!(output.text, "No matches found");
}

#[test]
fn match_limit_stops_before_reading_the_next_file() {
    let fs = MemFs::new();
    fs.file("a.txt", b"hit\n");
    fs.file("b.txt", b"hit\n");
    let mut search = grep_args("hit");
    search.limit = Some(1);

    let output = verlet_tools::grep::run(search, &fs).unwrap();

    assert_eq!(
        output.text,
        "a.txt:1: hit\n\n[1 matches limit reached. Use limit=2 for more, or refine pattern]"
    );
    assert_eq!(output.match_count, 1);
    assert!(output.limit_reached);
    assert!(!fs.reads.borrow().iter().any(|path| path.ends_with("b.txt")));
}

#[test]
fn skips_binary_files_containing_nul() {
    let fs = MemFs::new();
    fs.file("binary.dat", b"hit\0more");
    fs.file("text.txt", b"hit\n");

    let output = verlet_tools::grep::run(grep_args("hit"), &fs).unwrap();

    assert_eq!(output.text, "text.txt:1: hit");
    assert_eq!(output.match_count, 1);
}

#[test]
fn skips_nul_anywhere_in_a_file() {
    let fs = MemFs::new();
    let mut content = vec![b'x'; 8 * 1024];
    content.extend_from_slice(b"\0hit\n");
    fs.file("late-nul.dat", &content);
    fs.file("text.txt", b"hit\n");

    let output = verlet_tools::grep::run(grep_args("hit"), &fs).unwrap();

    assert_eq!(output.text, "text.txt:1: hit");
    assert_eq!(output.match_count, 1);
}

#[test]
fn skips_non_utf8_files() {
    let fs = MemFs::new();
    let mut invalid = vec![b'x'; 4 * 1024];
    invalid.extend_from_slice(b"\xffhit\n");
    fs.file("invalid.txt", &invalid);
    fs.file("text.txt", b"hit\n");

    let output = verlet_tools::grep::run(grep_args("hit"), &fs).unwrap();

    assert_eq!(output.text, "text.txt:1: hit");
    assert_eq!(output.match_count, 1);
}

#[test]
fn skips_oversized_files_without_reading_them() {
    let fs = MemFs::new();
    fs.file("oversized.txt", &vec![b'x'; MAX_FILE_BYTES + 1]);
    fs.file("text.txt", b"hit\n");

    let output = verlet_tools::grep::run(grep_args("hit"), &fs).unwrap();

    assert_eq!(output.text, "text.txt:1: hit");
    assert!(!fs.reads.borrow().iter().any(|path| path.ends_with("oversized.txt")));
}

#[test]
fn a_file_that_grows_after_stat_is_skipped_without_searching_a_partial_buffer() {
    let fs = MemFs::new();
    fs.file("changing.txt", b"hit\n");
    *fs.replacement_on_bounded_read.borrow_mut() = Some(vec![b'x'; MAX_FILE_BYTES + 1]);

    let output = verlet_tools::grep::run(grep_args("hit"), &fs).unwrap();

    assert_eq!(output.text, "No matches found");
    assert_eq!(output.match_count, 0);
    assert_eq!(fs.reads.borrow().as_slice(), &["./changing.txt".to_owned()]);
}

#[test]
fn optional_glob_filters_root_relative_file_paths() {
    let fs = MemFs::new();
    fs.dir("src");
    fs.file("src/code.rs", b"hit\n");
    fs.file("src/code.txt", b"hit\n");
    let mut search = grep_args("hit");
    search.glob = Some("**/*.rs".to_owned());

    let output = verlet_tools::grep::run(search, &fs).unwrap();

    assert_eq!(output.text, "src/code.rs:1: hit");
}

#[test]
fn a_direct_file_search_uses_the_file_name_as_its_relative_path() {
    let fs = MemFs::new();
    fs.file("one.txt", b"hit\n");
    let mut search = grep_args("hit");
    search.path = Some("one.txt".to_owned());

    let output = verlet_tools::grep::run(search, &fs).unwrap();

    assert_eq!(output.text, "one.txt:1: hit");
}

#[test]
fn a_directory_search_skips_a_file_that_fails_during_read() {
    let mut fs = MemFs::new();
    fs.failing_reads.insert("./a-unreadable.txt".to_owned());
    fs.file("a-unreadable.txt", b"hit\n");
    fs.file("visible.txt", b"hit\n");

    let output = verlet_tools::grep::run(grep_args("hit"), &fs).unwrap();

    assert_eq!(output.text, "visible.txt:1: hit");
    assert_eq!(output.match_count, 1);
}

#[test]
fn a_direct_file_search_surfaces_a_read_failure() {
    let mut fs = MemFs::new();
    fs.failing_reads.insert("unreadable.txt".to_owned());
    fs.file("unreadable.txt", b"hit\n");
    let mut search = grep_args("hit");
    search.path = Some("unreadable.txt".to_owned());

    let error = verlet_tools::grep::run(search, &fs).unwrap_err();

    assert_eq!(error.to_string(), "fixture read failure: unreadable.txt");
}

#[test]
fn invalid_regex_and_glob_patterns_are_argument_errors() {
    let fs = MemFs::new();
    let regex_error = verlet_tools::grep::run(grep_args("["), &fs).unwrap_err();
    let mut invalid_glob = grep_args("hit");
    invalid_glob.glob = Some("[".to_owned());
    let glob_error = verlet_tools::grep::run(invalid_glob, &fs).unwrap_err();

    assert!(regex_error.to_string().starts_with("invalid arguments: invalid search pattern"));
    assert!(glob_error.to_string().starts_with("invalid arguments: invalid glob pattern"));
}

#[test]
fn numeric_edges_clamp_like_pi() {
    let fs = MemFs::new();
    fs.file("file.txt", b"before\nhit\nafter\n");

    let mut zero_search = grep_args("hit");
    zero_search.limit = Some(0);
    zero_search.context = Some(-10);
    let zero = verlet_tools::grep::run(zero_search, &fs).unwrap();
    let mut maximum_search = grep_args("hit");
    maximum_search.limit = Some(i64::MAX);
    maximum_search.context = Some(i64::MAX);
    let maximum = verlet_tools::grep::run(maximum_search, &fs).unwrap();

    assert_eq!(
        zero.text,
        "file.txt:2: hit\n\n[1 matches limit reached. Use limit=2 for more, or refine pattern]"
    );
    assert_eq!(maximum.text, "file.txt-1- before\nfile.txt:2: hit\nfile.txt-3- after");
    assert!(!maximum.limit_reached);
}

#[test]
fn result_is_head_truncated_at_fifty_kibibytes() {
    let fs = MemFs::new();
    let line = format!("{}hit\n", "🙂".repeat(verlet_tools::grep_render::MAX_LINE_CHARS + 1));
    let line_count = 2200;
    fs.file("large.txt", line.repeat(line_count).as_bytes());
    let mut search = grep_args("hit");
    search.limit = Some(line_count as i64);

    let output = verlet_tools::grep::run(search, &fs).unwrap();

    assert!(output.truncated);
    assert!(output.text.ends_with(
        "\n\n[2200 matches limit reached. Use limit=4400 for more, or refine pattern. 50.0KB limit reached. Some lines truncated to 500 chars. Use read tool to see full lines]"
    ));
}

#[test]
fn glob_and_grep_observe_the_same_shared_walk_file_set() {
    let fs = MemFs::new();
    fs.dir("nested");
    fs.dir("ignored");
    fs.dir(".git");
    fs.file(".gitignore", b"# needle\nignored/\n");
    fs.file("nested/.gitignore", b"# needle\n*.skip\n!keep.skip\n");
    fs.file("visible.txt", b"needle\n");
    fs.file(".hidden", b"needle\n");
    fs.file("nested/visible.txt", b"needle\n");
    fs.file("nested/drop.skip", b"needle\n");
    fs.file("nested/keep.skip", b"needle\n");
    fs.file("ignored/unseen.txt", b"needle\n");
    fs.file(".git/unseen.txt", b"needle\n");

    let glob = verlet_tools::glob::run(glob_args("**", None), &fs).unwrap();
    let grep = verlet_tools::grep::run(grep_args("needle"), &fs).unwrap();
    let grep_paths = grep
        .text
        .lines()
        .map(|line| line.split(':').next().unwrap().to_owned())
        .collect::<Vec<_>>();

    assert_eq!(
        glob.paths.into_iter().filter(|path| !path.ends_with('/')).collect::<Vec<_>>(),
        grep_paths
    );
}

#[test]
fn contract_and_camel_case_schema_match_pi() {
    let contract = verlet_tools::grep::contract();
    assert_eq!(
        contract.description,
        "Search file contents for a pattern. Returns matching lines with file paths and line numbers. Respects .gitignore. Output is truncated to 100 matches or 50KB (whichever is hit first). Long lines are truncated to 500 chars."
    );
    assert_eq!(
        json(contract.input_schema),
        json(r#"{
            "type": "object",
            "properties": {
                "pattern": {"type": "string", "description": "Search pattern (regex or literal string)"},
                "path": {"type": "string", "description": "Directory or file to search (default: current directory)"},
                "glob": {"type": "string", "description": "Filter files by glob pattern, e.g. '*.ts' or '**/*.spec.ts'"},
                "ignoreCase": {"type": "boolean", "description": "Case-insensitive search (default: false)"},
                "literal": {"type": "boolean", "description": "Treat pattern as literal string instead of regex (default: false)"},
                "context": {"type": "number", "description": "Number of lines to show before and after each match (default: 0)"},
                "limit": {"type": "number", "description": "Maximum number of matches to return (default: 100)"}
            },
            "required": ["pattern"]
        }"#)
    );
    let parsed = json(r#"{"pattern": "needle", "ignoreCase": true}"#);
    assert!(json(contract.input_schema)["properties"].get("ignoreCase").is_some());
    assert_eq!(parsed["ignoreCase"], serde_json::Value::Bool(true));
}

// ---- read ----

#[test]
fn reads_a_whole_file_verbatim() {
    let fs = MemFs::new();
    fs.file("file.txt", b"first\nsecond\n");

    let output = verlet_tools::read::run(read_args("file.txt", None, None), &fs).unwrap();

    assert_eq!(output.text, "first\nsecond\n");
    assert_eq!((output.start_line, output.end_line, output.total_lines), (1, 3, 3));
    assert!(output.truncation.is_none());
}

#[test]
fn reads_an_offset_and_limit_window_with_a_trailer() {
    let fs = MemFs::new();
    fs.file("file.txt", b"one\ntwo\nthree\nfour");

    let output = verlet_tools::read::run(read_args("file.txt", Some(2), Some(2)), &fs).unwrap();

    assert_eq!(output.text, "two\nthree\n\n[1 more lines in file. Use offset=4 to continue.]");
    assert_eq!((output.start_line, output.end_line, output.total_lines), (2, 3, 4));
    assert!(output.truncation.is_none());
}

#[test]
fn rejects_an_offset_past_the_end_and_names_the_total() {
    let fs = MemFs::new();
    fs.file("file.txt", b"one\ntwo");

    let error = verlet_tools::read::run(read_args("file.txt", Some(3), None), &fs).unwrap_err();

    assert_eq!(error.to_string(), "Offset 3 is beyond end of file (2 lines total)");
}

#[test]
fn reads_an_empty_file() {
    let fs = MemFs::new();
    fs.file("empty.txt", b"");

    let output = verlet_tools::read::run(read_args("empty.txt", None, None), &fs).unwrap();

    assert_eq!(output.text, "");
    assert_eq!((output.start_line, output.end_line, output.total_lines), (1, 1, 1));
    assert!(output.truncation.is_none());
}

#[test]
fn a_directory_is_a_structured_tool_error() {
    let fs = MemFs::new();

    let error = verlet_tools::read::run(read_args(".", None, None), &fs).unwrap_err();

    assert_eq!(error.to_string(), "Path is a directory: .");
}

#[test]
fn an_oversized_file_is_an_actionable_structured_error_for_every_window() {
    let fs = MemFs::new();
    fs.file("oversized.txt", &vec![b'x'; MAX_FILE_BYTES + 1]);

    let error = verlet_tools::read::run(read_args("oversized.txt", None, None), &fs).unwrap_err();
    let window_error =
        verlet_tools::read::run(read_args("oversized.txt", Some(1), Some(1)), &fs).unwrap_err();

    assert_eq!(
        error.to_string(),
        format!(
            "file exceeds {} byte read limit: oversized.txt; offset/limit cannot bypass this limit, use bash to inspect a bounded range or split the file",
            MAX_FILE_BYTES
        )
    );
    assert_eq!(window_error.to_string(), error.to_string());
}

#[test]
fn reports_an_oversized_first_line_with_pi_text() {
    let fs = MemFs::new();
    fs.file("large.txt", &vec![b'x'; DEFAULT_MAX_BYTES + 1]);

    let output = verlet_tools::read::run(read_args("large.txt", None, None), &fs).unwrap();

    assert_eq!(
        output.text,
        "[Line 1 is 50.0KB, exceeds 50.0KB limit. Use bash: sed -n '1p' large.txt | head -c 51200]"
    );
    assert!(output.truncation.unwrap().first_line_exceeds_limit);
}

#[test]
fn replaces_invalid_utf8_lossily() {
    let fs = MemFs::new();
    fs.file("invalid.txt", &[b'a', 0xff, b'\n']);

    let output = verlet_tools::read::run(read_args("invalid.txt", None, None), &fs).unwrap();

    assert_eq!(output.text, "a\u{fffd}\n");
}

#[test]
fn byte_truncation_uses_complete_lines_and_pi_notice() {
    let fs = MemFs::new();
    let line = format!("{}\n", "x".repeat(1024));
    fs.file("large.txt", line.repeat(60).as_bytes());

    let output = verlet_tools::read::run(read_args("large.txt", None, None), &fs).unwrap();

    assert!(output
        .text
        .ends_with("\n\n[Showing lines 1-49 of 61 (50.0KB limit). Use offset=50 to continue.]"));
}

#[test]
fn zero_and_negative_offsets_start_at_the_first_line_and_zero_limit_is_empty() {
    let fs = MemFs::new();
    fs.file("file.txt", b"content");

    let zero_offset = verlet_tools::read::run(read_args("file.txt", Some(0), None), &fs).unwrap();
    let negative_offset =
        verlet_tools::read::run(read_args("file.txt", Some(-5), None), &fs).unwrap();
    let zero_limit = verlet_tools::read::run(read_args("file.txt", None, Some(0)), &fs).unwrap();

    assert_eq!(zero_offset.text, "content");
    assert_eq!(negative_offset.text, "content");
    assert_eq!(zero_limit.text, "\n\n[1 more lines in file. Use offset=1 to continue.]");
}

#[test]
fn maximum_i64_limit_is_bounded_by_the_available_lines() {
    let fs = MemFs::new();
    fs.file("file.txt", b"one\ntwo");

    let output =
        verlet_tools::read::run(read_args("file.txt", Some(1), Some(i64::MAX)), &fs).unwrap();
    let offset_error =
        verlet_tools::read::run(read_args("file.txt", Some(i64::MAX), Some(i64::MAX)), &fs)
            .unwrap_err();

    assert_eq!(output.text, "one\ntwo");
    assert_eq!(
        offset_error.to_string(),
        format!("Offset {} is beyond end of file (2 lines total)", i64::MAX)
    );
}

#[test]
fn automatically_truncates_at_two_thousand_lines_with_pi_notice() {
    let fs = MemFs::new();
    let content = (1..=2001).map(|line| format!("line {line}")).collect::<Vec<_>>().join("\n");
    fs.file("large.txt", content.as_bytes());

    let output = verlet_tools::read::run(read_args("large.txt", None, None), &fs).unwrap();

    assert!(output
        .text
        .ends_with("line 2000\n\n[Showing lines 1-2000 of 2001. Use offset=2001 to continue.]"));
}

#[test]
fn caller_limit_precedes_automatic_line_truncation_at_the_exact_boundary() {
    let fs = MemFs::new();
    let content = vec!["x"; 2002].join("\n");
    fs.file("large.txt", content.as_bytes());

    let exact = verlet_tools::read::run(read_args("large.txt", Some(2), Some(2000)), &fs).unwrap();
    let over = verlet_tools::read::run(read_args("large.txt", Some(2), Some(2001)), &fs).unwrap();

    assert!(exact.truncation.is_none());
    assert!(exact.text.ends_with("\n\n[1 more lines in file. Use offset=2002 to continue.]"));
    assert_eq!(exact.start_line, 2);
    assert_eq!(exact.end_line, 2001);
    assert!(over.truncation.is_some());
    assert!(over
        .text
        .ends_with("\n\n[Showing lines 2-2001 of 2002. Use offset=2002 to continue.]"));
}

#[test]
fn contract_and_benign_path_normalization_match_pi() {
    let contract = verlet_tools::read::contract();
    assert_eq!(
        contract.description,
        "Read the contents of a file. For text files, output is truncated to 2000 lines or 50KB (whichever is hit first). Use offset/limit for large files. When you need the full file, continue with offset until complete."
    );
    assert_eq!(
        json(contract.input_schema),
        json(r#"{
            "type": "object",
            "properties": {
                "path": {"type": "string", "description": "Path to the file to read (relative or absolute)"},
                "offset": {"type": "number", "description": "Line number to start reading from (1-indexed)"},
                "limit": {"type": "number", "description": "Maximum number of lines to read"}
            },
            "required": ["path"]
        }"#)
    );
    let fs = MemFs::new();
    fs.file("unicode space.txt", b"ok");

    let output =
        verlet_tools::read::run(read_args("@unicode\u{202f}space.txt", None, None), &fs).unwrap();

    assert_eq!(output.text, "ok");
}

// ---- write ----

#[test]
fn creates_a_file_and_nested_parents() {
    let fs = MemFs::new();

    let output =
        verlet_tools::write::run(write_args("nested/deeper/file.txt", "exact content"), &fs)
            .unwrap();

    assert_eq!(
        output,
        WriteOutput {
            text: "Successfully wrote 13 bytes to nested/deeper/file.txt".to_owned(),
            bytes_written: 13,
            replaced: false,
        }
    );
    assert_eq!(fs.content("nested/deeper/file.txt").unwrap(), b"exact content");
}

#[test]
fn overwrites_an_existing_file_unconditionally() {
    let fs = MemFs::new();
    fs.file("file.txt", b"old");

    let output = verlet_tools::write::run(write_args("file.txt", "new"), &fs).unwrap();

    assert_eq!(
        output,
        WriteOutput {
            text: "Successfully wrote 3 bytes to file.txt".to_owned(),
            bytes_written: 3,
            replaced: true,
        }
    );
    assert_eq!(fs.content("file.txt").unwrap(), b"new");
}

#[test]
fn reports_utf16_units_in_text_and_utf8_bytes_in_the_receipt() {
    let fs = MemFs::new();

    let output = verlet_tools::write::run(write_args("unicode.txt", "é🙂"), &fs).unwrap();

    assert_eq!(output.text, "Successfully wrote 3 bytes to unicode.txt");
    assert_eq!(output.bytes_written, 6);
    assert!(!output.replaced);
}

#[test]
fn an_existing_directory_reaches_the_backend_write_error() {
    let fs = MemFs::new();

    let error = verlet_tools::write::run(write_args("", "content"), &fs).unwrap_err();

    assert!(!error.to_string().contains("is not a file"));
}

#[test]
fn rejects_a_fifo_before_opening_it() {
    let mut fs = MemFs::new();
    fs.specials.insert("named.pipe".to_owned());

    let error = verlet_tools::write::run(write_args("named.pipe", "blocked"), &fs).unwrap_err();

    assert_eq!(error.to_string(), "Path is not a file: named.pipe");
}

#[test]
fn contract_and_path_normalization_match_pi() {
    let contract = verlet_tools::write::contract();
    assert_eq!(
        contract.description,
        "Write content to a file. Creates the file if it doesn't exist, overwrites if it does. Automatically creates parent directories."
    );
    assert_eq!(
        json(contract.input_schema),
        json(r#"{
            "type": "object",
            "properties": {
                "path": {"type": "string", "description": "Path to the file to write (relative or absolute)"},
                "content": {"type": "string", "description": "Content to write to the file"}
            },
            "required": ["path", "content"]
        }"#)
    );
    let fs = MemFs::new();

    verlet_tools::write::run(write_args("@unicode\u{2009}space.txt", "new"), &fs).unwrap();

    assert_eq!(fs.content("unicode space.txt").unwrap(), b"new");
}

// ---- walk ----

#[test]
fn walk_skips_oversized_ignore_rules_without_reading_unbounded_content() {
    let fs = MemFs::new();
    let mut ignore = vec![b'#'; MAX_FILE_BYTES + 1];
    ignore.push(b'\n');
    ignore.extend_from_slice(b"hidden.txt\n");
    fs.file(".gitignore", &ignore);
    fs.file("hidden.txt", b"visible");

    let files = verlet_tools::walk::walk_files(".", &fs).unwrap();

    assert!(files.iter().any(|file| file.relative_path == "hidden.txt"));
}

#[test]
fn walk_applies_ignore_rules_at_the_exact_read_limit() {
    let fs = MemFs::new();
    let mut ignore = b"hidden.txt\n".to_vec();
    ignore.resize(MAX_FILE_BYTES, b'#');
    fs.file(".gitignore", &ignore);
    fs.file("hidden.txt", b"hidden");
    fs.file("visible.txt", b"visible");

    let files = verlet_tools::walk::walk_files(".", &fs).unwrap();

    assert!(!files.iter().any(|file| file.relative_path == "hidden.txt"));
    assert!(files.iter().any(|file| file.relative_path == "visible.txt"));
}

#[test]
fn gitignore_matches_git_for_anchoring_directory_rules_and_pruned_negation() {
    let fs = MemFs::new();
    fs.dir("nested/dir");
    fs.dir("pruned");
    fs.file(".gitignore", b"/foo\ndir/\npruned/\n!pruned/keep.txt\n");
    fs.file("foo", b"ignored");
    fs.file("nested/foo", b"visible");
    fs.file("dir", b"visible file");
    fs.file("nested/dir/child", b"ignored");
    fs.file("pruned/keep.txt", b"still ignored");

    let files = verlet_tools::walk::walk_files(".", &fs).unwrap();

    assert_eq!(
        files.iter().map(|file| file.relative_path.as_str()).collect::<Vec<_>>(),
        vec![".gitignore", "dir", "nested/", "nested/foo"]
    );
}

#[test]
fn walk_skips_a_unix_socket_and_returns_regular_files() {
    let mut fs = MemFs::new();
    fs.specials.insert("live.sock".to_owned());
    fs.file("real.txt", b"real");

    let files = verlet_tools::walk::walk_files(".", &fs).unwrap();

    assert_eq!(
        files.iter().map(|file| file.relative_path.as_str()).collect::<Vec<_>>(),
        vec!["real.txt"]
    );
}

#[test]
fn walk_entries_are_strictly_ordered_and_come_with_their_parents() {
    let fs = MemFs::new();
    fs.file("b/c/d.txt", b"d");
    fs.file("b/a.txt", b"a");
    fs.file("a.txt", b"a");
    fs.dir("e/f");

    let files = verlet_tools::walk::walk_files(".", &fs).unwrap();
    let rels: Vec<&str> = files.iter().map(|file| file.relative_path.as_str()).collect();

    assert_eq!(rels, vec!["a.txt", "b/", "b/a.txt", "b/c/", "b/c/d.txt", "e/", "e/f/"]);
    for pair in rels.windows(2) {
        assert!(pair[0] < pair[1]);
    }
    for rel in &rels {
        let trimmed = rel.trim_end_matches('/');
        if let Some(index) = trimmed.rfind('/') {
            let parent = format!("{}/", &trimmed[..index]);
            assert!(rels.contains(&parent.as_str()), "{rel} lacks {parent}");
        }
    }
}

#[test]
fn repeated_writes_report_alike_and_the_second_replaces() {
    let fs = MemFs::new();
    let args = WriteArgs { path: "dir/note.txt".to_owned(), content: "héllo".to_owned() };

    let first = verlet_tools::write::run(args.clone(), &fs).unwrap();
    let second = verlet_tools::write::run(args, &fs).unwrap();

    assert_eq!(first.text, second.text);
    assert_eq!(first.bytes_written, second.bytes_written);
    assert!(!first.replaced);
    assert!(second.replaced);
    assert_eq!(fs.content("dir/note.txt"), Some("héllo".as_bytes().to_vec()));
}

#[test]
fn walk_of_a_missing_root_is_a_backend_error() {
    let fs = MemFs::new();

    let error = verlet_tools::walk::walk_files("missing", &fs).unwrap_err();

    assert_eq!(error, ToolError::Fs(ToolFsError::NotFound("missing".to_owned())));
}


#[test]
fn ignore_files_drop_a_leading_byte_order_mark_and_crlf_endings() {
    let fs = MemFs::new();
    fs.file(".gitignore", "\u{feff}hidden.txt\r\nother.txt".as_bytes());
    fs.file("hidden.txt", b"h");
    fs.file("other.txt", b"o");
    fs.file("kept.txt", b"k");

    let files = verlet_tools::walk::walk_files(".", &fs).unwrap();

    assert_eq!(
        files.iter().map(|file| file.relative_path.as_str()).collect::<Vec<_>>(),
        vec![".gitignore", "kept.txt"]
    );
}

#[test]
fn a_pattern_error_quotes_the_pattern_as_given() {
    let fs = MemFs::new();

    let error = verlet_tools::grep::run(grep_args("a\"["), &fs).unwrap_err();

    assert!(error.to_string().starts_with("invalid arguments: invalid search pattern \"a\\\"[\": "));
}

#[test]
fn a_walked_file_root_keeps_its_path_and_read_errors() {
    let fs = MemFs::new();
    fs.file("dir/one.txt", b"1");

    let files = verlet_tools::walk::walk_files("dir/one.txt", &fs).unwrap();

    assert_eq!(files.len(), 1);
    assert_eq!(files[0].path, "dir/one.txt");
    assert_eq!(files[0].relative_path, "one.txt");
    assert!(!files[0].skip_read_errors);
    assert!(!files[0].is_dir);
    assert_eq!(files[0].size, 1);
}

#[test]
fn walk_skips_a_dangling_symlink_and_returns_real_files() {
    let mut fs = MemFs::new();
    fs.dangling.insert("broken-link".to_owned());
    fs.file("real.txt", b"real");

    let files = verlet_tools::walk::walk_files(".", &fs).unwrap();

    assert_eq!(
        files.iter().map(|file| file.relative_path.as_str()).collect::<Vec<_>>(),
        vec!["real.txt"]
    );
}

#[test]
fn walk_skips_a_listed_directory_that_vanishes_before_its_listing() {
    let mut fs = MemFs::new();
    fs.vanished_dirs.insert("gone".to_owned());
    fs.vanished_dirs.insert("kept/gone-too".to_owned());
    fs.file("a.txt", b"a");
    fs.file("kept/b.txt", b"b");

    let files = verlet_tools::walk::walk_files(".", &fs).unwrap();

    assert_eq!(
        files.iter().map(|file| file.relative_path.as_str()).collect::<Vec<_>>(),
        vec!["a.txt", "kept/", "kept/b.txt"]
    );
}

#[test]
fn find_reports_a_glob_too_deeply_nested_to_compile() {
    let fs = MemFs::new();
    fs.file("a.txt", b"a");
    let pattern = format!("{}a{}", "{".repeat(300), "}".repeat(300));

    let result = verlet_tools::glob::run(glob_args(&pattern, None), &fs);

    match result {
        Err(ToolError::InvalidArgs(text)) => assert!(text.starts_with("invalid glob pattern ")),
        other => panic!("expected an invalid glob pattern, got {other:?}"),
    }
}

#[test]
fn grep_reports_a_glob_filter_too_deeply_nested_to_compile() {
    let fs = MemFs::new();
    fs.file("a.txt", b"needle");
    let mut args = grep_args("needle");
    args.glob = Some(format!("{}a{}", "{".repeat(300), "}".repeat(300)));

    let result = verlet_tools::grep::run(args, &fs);

    assert!(matches!(result, Err(ToolError::InvalidArgs(text)) if text.starts_with("invalid glob pattern ")));
}

#[test]
fn walk_still_propagates_denied_entry_stats() {
    let mut fs = MemFs::new();
    fs.denied_stats.insert("escaped-link".to_owned());

    let error = verlet_tools::walk::walk_files(".", &fs).unwrap_err();

    assert!(matches!(error, ToolError::Fs(ToolFsError::Denied(_))));
}

#[test]
fn absolute_search_root_stays_relative_and_preserves_directory_separators() {
    let mut fs = MemFs::new();
    fs.root_alias = Some("/work/root".to_owned());
    fs.dir("home/user/project");
    fs.file("home/user/project/file.txt", b"");
    let mut search = glob_args("**", None);
    search.path = Some("/work/root".to_owned());

    let output = verlet_tools::glob::run(search, &fs).unwrap();

    assert_eq!(
        output.paths,
        vec![
            "home/".to_owned(),
            "home/user/".to_owned(),
            "home/user/project/".to_owned(),
            "home/user/project/file.txt".to_owned(),
        ]
    );
}
