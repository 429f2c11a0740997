use verlet_tools::confine::{
    check_open_target, check_read_size, is_under, OpenTarget, ResolveAction, ResolveEvent,
    Resolver,
};
use verlet_tools::fs::{map_io_error, DirEntry, IoFailure, ToolError, ToolFsError};
use verlet_tools::glob::{effective_pattern_of, trim_trailing_slashes};
use verlet_tools::grep::{contains_nul, finish_grep};
use verlet_tools::grep_render::{render_line, MatchLine};
use verlet_tools::path::lexical_normalize;
use verlet_tools::report::{append_notices, limit_reached_text};
use verlet_tools::truncate::{truncate_head, DEFAULT_MAX_BYTES};
use verlet_tools::units::truncate_utf16;
use verlet_tools::walk::{settle_read, sort_dir_entries};

fn done(action: ResolveAction) -> Result<String, ToolFsError> {
    match action {
        ResolveAction::Done(result) => result,
        ResolveAction::Inspect(path) => panic!("unexpected inspect of {path}"),
        ResolveAction::Canonicalize(path) => panic!("unexpected canonicalize of {path}"),
    }
}

fn inspected(action: &ResolveAction) -> String {
    match action {
        ResolveAction::Inspect(path) => path.clone(),
        _ => panic!("expected an inspect"),
    }
}

#[test]
fn resolver_denies_a_parent_step_above_the_root() {
    let (_, action) = Resolver::start("/work/root", "/work/root", "../outside.txt");

    assert_eq!(done(action), Err(ToolFsError::Denied("../outside.txt".to_owned())));
}

#[test]
fn resolver_walks_missing_components_beneath_the_root() {
    let (mut resolver, action) = Resolver::start("/work/root", "/work/root", "./a/b.txt");
    assert_eq!(inspected(&action), "/work/root/a");
    let action = resolver.advance(ResolveEvent::Inspected(Err(IoFailure::NotFound)));
    assert_eq!(inspected(&action), "/work/root/a/b.txt");
    let action = resolver.advance(ResolveEvent::Inspected(Err(IoFailure::NotFound)));

    assert_eq!(done(action), Ok("/work/root/a/b.txt".to_owned()));
}

#[test]
fn resolver_denies_a_symlink_that_leaves_the_root() {
    let (mut resolver, action) = Resolver::start("/work/root", "/work/root", "link/secret.txt");
    assert_eq!(inspected(&action), "/work/root/link");
    let action = resolver.advance(ResolveEvent::Inspected(Ok(())));
    match &action {
        ResolveAction::Canonicalize(path) => assert_eq!(path, "/work/root/link"),
        _ => panic!("expected a canonicalize"),
    }
    let action = resolver.advance(ResolveEvent::Canonicalized(Ok("/work/outside".to_owned())));

    assert_eq!(done(action), Err(ToolFsError::Denied("link/secret.txt".to_owned())));
}

#[test]
fn resolver_follows_a_symlink_that_stays_inside() {
    let (mut resolver, _) = Resolver::start("/work/root", "/work/root", "link/../file.txt");
    let _ = resolver.advance(ResolveEvent::Inspected(Ok(())));
    let action =
        resolver.advance(ResolveEvent::Canonicalized(Ok("/work/root/inside/deep".to_owned())));
    assert_eq!(inspected(&action), "/work/root/inside/file.txt");
    let action = resolver.advance(ResolveEvent::Inspected(Err(IoFailure::NotFound)));

    assert_eq!(done(action), Ok("/work/root/inside/file.txt".to_owned()));
}

#[test]
fn resolver_uses_component_prefixes_for_absolute_paths() {
    let (_, sibling) = Resolver::start("/work/root", "/work/root", "/work/rootx/file.txt");
    let (_, inside) = Resolver::start("/work/root", "/real/root", "/work/root/file.txt");
    let (_, canonical) = Resolver::start("/work/root", "/real/root", "/real/root/file.txt");

    assert_eq!(done(sibling), Err(ToolFsError::Denied("/work/rootx/file.txt".to_owned())));
    assert_eq!(inspected(&inside), "/real/root/file.txt");
    assert_eq!(inspected(&canonical), "/real/root/file.txt");
}

#[test]
fn resolver_reports_lookup_failures_for_the_given_path() {
    let (mut resolver, _) = Resolver::start("/r", "/r", "a");
    let action = resolver.advance(ResolveEvent::Inspected(Err(IoFailure::PermissionDenied)));

    assert_eq!(done(action), Err(ToolFsError::Denied("a".to_owned())));
}

#[test]
fn path_prefixes_compare_whole_components() {
    assert!(is_under("/work/root/a", "/work/root"));
    assert!(is_under("/work/root", "/work/root/"));
    assert!(!is_under("/work/rootx", "/work/root"));
    assert!(!is_under("work/root/a", "/work/root"));
}

#[test]
fn lexical_normalization_resolves_dots_without_the_filesystem() {
    assert_eq!(lexical_normalize("/a/./b/../c"), "/a/c");
    assert_eq!(lexical_normalize("a/../../b"), "b");
    assert_eq!(lexical_normalize("/.."), "/");
    assert_eq!(lexical_normalize(""), "");
    assert_eq!(lexical_normalize("./x//y/"), "x/y");
}

#[test]
fn special_files_are_refused_before_they_are_opened() {
    assert_eq!(
        check_open_target("named.pipe", Ok(OpenTarget::Other), false),
        Err(ToolFsError::Io("path is not a regular file: named.pipe".to_owned()))
    );
    assert_eq!(check_open_target("f", Ok(OpenTarget::File), false), Ok(()));
    assert_eq!(check_open_target("new", Err(IoFailure::NotFound), true), Ok(()));
    assert_eq!(
        check_open_target("gone", Err(IoFailure::NotFound), false),
        Err(ToolFsError::NotFound("gone".to_owned()))
    );
    assert_eq!(
        check_open_target("x", Err(IoFailure::Other("boom".to_owned())), false),
        Err(ToolFsError::Io("boom".to_owned()))
    );
}

#[test]
fn bounded_reads_accept_the_exact_limit_only() {
    assert_eq!(check_read_size("f", 10, 10), Ok(()));
    assert_eq!(
        check_read_size("f", 11, 10),
        Err(ToolFsError::FileTooLarge { path: "f".to_owned(), max_bytes: 10 })
    );
    assert_eq!(
        map_io_error("p", IoFailure::PermissionDenied),
        ToolFsError::Denied("p".to_owned())
    );
}

#[test]
fn walked_reads_skip_what_a_listing_may_skip() {
    let denied = || Err(ToolFsError::Denied("d".to_owned()));
    let too_large = || Err(ToolFsError::FileTooLarge { path: "f".to_owned(), max_bytes: 1 });

    assert_eq!(settle_read(Ok(vec![1, 2]), false), Ok(Some(vec![1, 2])));
    assert_eq!(settle_read(too_large(), false), Ok(None));
    assert_eq!(settle_read(denied(), true), Ok(None));
    assert_eq!(
        settle_read(denied(), false),
        Err(ToolError::Fs(ToolFsError::Denied("d".to_owned())))
    );
}

#[test]
fn directory_entries_sort_by_name_bytes() {
    let entries = vec![
        DirEntry { name: "b".to_owned(), is_dir: false },
        DirEntry { name: "B".to_owned(), is_dir: true },
        DirEntry { name: "a".to_owned(), is_dir: false },
        DirEntry { name: "é".to_owned(), is_dir: false },
    ];

    let names = sort_dir_entries(entries).into_iter().map(|e| e.name).collect::<Vec<_>>();

    assert_eq!(names, vec!["B", "a", "b", "é"]);
}

#[test]
fn find_patterns_gain_a_leading_double_star_only_when_they_hold_a_slash() {
    assert_eq!(effective_pattern_of("*.rs"), ("*.rs".to_owned(), false));
    assert_eq!(effective_pattern_of("src/*.rs"), ("**/src/*.rs".to_owned(), true));
    assert_eq!(effective_pattern_of("/src/*.rs"), ("/src/*.rs".to_owned(), true));
    assert_eq!(effective_pattern_of("**/x/y"), ("**/x/y".to_owned(), true));
    assert_eq!(trim_trailing_slashes("dir///"), "dir");
    assert_eq!(trim_trailing_slashes("a/b"), "a/b");
}

#[test]
fn rendered_rows_mark_matches_and_context_differently() {
    assert_eq!(render_line("f.txt", 3, true, b"hit\r"), ("f.txt:3: hit".to_owned(), false));
    assert_eq!(render_line("f.txt", 4, false, b"near"), ("f.txt-4- near".to_owned(), false));
    let long = "y".repeat(501);
    assert_eq!(
        render_line("f", 1, true, long.as_bytes()),
        (format!("f:1: {}... [truncated]", "y".repeat(500)), true)
    );
}

#[test]
fn notices_are_bracketed_and_joined() {
    let notices = vec![limit_reached_text(3, "results"), "second".to_owned()];

    assert_eq!(
        append_notices("body".to_owned(), &notices),
        "body\n\n[3 results limit reached. Use limit=6 for more, or refine pattern. second]"
    );
    assert_eq!(append_notices("body".to_owned(), &Vec::new()), "body");
    assert_eq!(
        limit_reached_text(i64::MAX, "matches"),
        format!(
            "{} matches limit reached. Use limit={} for more, or refine pattern",
            i64::MAX,
            i64::MAX
        )
    );
}

#[test]
fn a_search_with_no_matches_has_no_notices() {
    let output = finish_grep(&Vec::new(), 0, false, true, 5).unwrap();

    assert_eq!(output.text, "No matches found");
    assert!(!output.lines_truncated);
}

#[test]
fn search_pieces_are_joined_and_noticed() {
    let pieces = vec!["a:1: x".to_owned(), "b:2: y".to_owned()];

    let output = finish_grep(&pieces, 2, true, false, 2).unwrap();

    assert_eq!(
        output.text,
        "a:1: x\nb:2: y\n\n[2 matches limit reached. Use limit=4 for more, or refine pattern]"
    );
    assert_eq!(output.match_count, 2);
}

#[test]
fn nul_detection_looks_at_every_byte() {
    assert!(contains_nul(b"abc\0"));
    assert!(!contains_nul(b"abc"));
    let _ = MatchLine { line_number: 1, bytes: vec![] };
}

#[test]
fn truncating_a_truncation_again_changes_nothing() {
    let text = format!("{}\n", "z".repeat(1000)).repeat(80);
    let first = truncate_head(&text, 2000, DEFAULT_MAX_BYTES);
    let second = truncate_head(&first.content, 2000, DEFAULT_MAX_BYTES);

    assert!(first.truncated);
    assert_eq!(second.content, first.content);
    assert!(!second.truncated);
    assert!(text.as_bytes().starts_with(first.content.as_bytes()));
}

#[test]
fn utf16_clipping_never_exceeds_the_limit() {
    let (clipped, was) = truncate_utf16(&"🙂".repeat(10), 5);

    assert!(was);
    assert_eq!(clipped, "🙂🙂\u{fffd}");
    assert!(clipped.encode_utf16().count() <= 5);
}

#[test]
fn lexical_normalization_twice_is_normalization_once() {
    for path in ["/a/../b/./c/", "x/../../y//z", "/", "", "../..", "/./.."] {
        let once = lexical_normalize(path);
        assert_eq!(lexical_normalize(&once), once);
    }
}

#[test]
fn lexical_normalization_leaves_no_dot_parts_and_keeps_rootedness() {
    for path in ["/a/./b/../c", "/../x", "x/../../y//z", "./.", "../..", "/./..", "a/b/."] {
        let normalized = lexical_normalize(path);
        assert!(normalized.split('/').all(|part| part != "." && part != ".."));
        assert_eq!(normalized.starts_with('/'), path.starts_with('/'));
    }
    assert_eq!(lexical_normalize("/../x"), "/x");
}
