use verlet_tools::path::normalize_tool_path;
use verlet_tools::truncate::{truncate_head, TruncatedBy, DEFAULT_MAX_BYTES, DEFAULT_MAX_LINES};
use verlet_tools::units::{format_size, truncate_utf16, utf16_len};

#[test]
fn pi_helpers_pin_truncation_utf16_and_path_normalization() {
    let truncated = truncate_head("one\ntwo\nthree", 2, 50 * 1024);
    assert_eq!(truncated.content, "one\ntwo");
    assert_eq!(truncated.truncated_by, Some(TruncatedBy::Lines));
    assert_eq!(format_size(50 * 1024), "50.0KB");
    assert_eq!(utf16_len("é🙂"), 3);
    assert_eq!(
        truncate_utf16(&"🙂".repeat(251), 500),
        ("🙂".repeat(250), true)
    );
    assert_eq!(
        normalize_tool_path("@a\u{00a0}b\u{2000}c\u{3000}d"),
        "a b c d"
    );
    assert_eq!(normalize_tool_path("~/literal"), "~/literal");
    assert_eq!(normalize_tool_path("file:///literal"), "file:///literal");
}

#[test]
fn truncate_head_pins_exact_line_and_byte_boundaries() {
    let exactly_two_thousand = std::iter::repeat_n("x", DEFAULT_MAX_LINES)
        .collect::<Vec<_>>()
        .join("\n");
    let over_two_thousand = format!("{exactly_two_thousand}\nx");
    let exact_line_boundary =
        truncate_head(&exactly_two_thousand, DEFAULT_MAX_LINES, DEFAULT_MAX_BYTES);
    let over_line_boundary = truncate_head(&over_two_thousand, DEFAULT_MAX_LINES, DEFAULT_MAX_BYTES);

    assert!(!exact_line_boundary.truncated);
    assert!(over_line_boundary.truncated);
    assert_eq!(over_line_boundary.truncated_by, Some(TruncatedBy::Lines));
    assert_eq!(over_line_boundary.output_lines, DEFAULT_MAX_LINES);

    let exactly_fifty_kib = "🙂".repeat(DEFAULT_MAX_BYTES / 4);
    let exact_byte_boundary =
        truncate_head(&exactly_fifty_kib, DEFAULT_MAX_LINES, DEFAULT_MAX_BYTES);
    let complete_first_line = truncate_head(
        &format!("{exactly_fifty_kib}\nx"),
        DEFAULT_MAX_LINES,
        DEFAULT_MAX_BYTES,
    );
    let oversized_first_line = truncate_head(
        &format!("{exactly_fifty_kib}x\ny"),
        DEFAULT_MAX_LINES,
        DEFAULT_MAX_BYTES,
    );

    assert!(!exact_byte_boundary.truncated);
    assert_eq!(exact_byte_boundary.output_bytes, DEFAULT_MAX_BYTES);
    assert!(complete_first_line.truncated);
    assert_eq!(complete_first_line.content, exactly_fifty_kib);
    assert_eq!(complete_first_line.output_lines, 1);
    assert!(!complete_first_line.first_line_exceeds_limit);
    assert!(oversized_first_line.truncated);
    assert!(oversized_first_line.content.is_empty());
    assert!(oversized_first_line.first_line_exceeds_limit);
}

#[test]
fn truncate_utf16_pins_surrogate_pair_boundaries() {
    let exact_pair_boundary = format!("{}🙂tail", "x".repeat(498));
    let split_pair_boundary = format!("{}🙂tail", "x".repeat(499));

    assert_eq!(
        truncate_utf16(&exact_pair_boundary, 500),
        (format!("{}🙂", "x".repeat(498)), true)
    );
    assert_eq!(
        truncate_utf16(&split_pair_boundary, 500),
        (format!("{}\u{fffd}", "x".repeat(499)), true)
    );
}

#[test]
fn format_size_matches_float_formatting() {
    let mut samples: Vec<usize> = (0..5000).collect();
    samples.extend((1000..3000).map(|k| k * 37));
    samples.extend([1280, 1024 * 1024, 1024 * 1024 + 52428, 1024 * 1024 + 52429, 7_549_747]);
    samples.extend([usize::MAX, usize::MAX - 1, (1usize << 53) + 1, (1usize << 60) + 12345]);
    for bytes in samples {
        let expected = if bytes < 1024 {
            format!("{bytes}B")
        } else if bytes < 1024 * 1024 {
            format!("{:.1}KB", bytes as f64 / 1024.0)
        } else {
            format!("{:.1}MB", bytes as f64 / (1024.0 * 1024.0))
        };
        assert_eq!(format_size(bytes), expected, "bytes = {bytes}");
    }
}
