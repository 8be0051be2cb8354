use deep_dive::utils::{
    display_width, finish_display_line, format_size, sanitize_and_truncate, sanitize_display_text,
    truncate_with_ellipsis,
};

#[test]
fn test_format_size() {
    assert_eq!(format_size(0), "0 B");
    assert_eq!(format_size(1024), "1.0 KB");
    assert_eq!(format_size(1024 * 1024), "1.0 MB");
    assert_eq!(format_size(1024 * 1024 * 1024), "1.0 GB");
}

#[test]
fn format_size_rounds_to_one_decimal() {
    assert_eq!(format_size(1023), "1023 B");
    assert_eq!(format_size(1536), "1.5 KB");
    assert_eq!(format_size(1280), "1.2 KB");
    assert_eq!(format_size(1843), "1.8 KB");
    assert_eq!(format_size(10 * 1024 * 1024 + 52429), "10.1 MB");
    assert_eq!(format_size(u64::MAX), "17179869184.0 GB");
}

#[test]
fn test_sanitize_display_text() {
    assert_eq!(sanitize_display_text("hello"), "hello");
    assert_eq!(sanitize_display_text("hello\nworld"), "hello...");
    assert_eq!(sanitize_display_text("hello\rworld"), "hello...");
    assert_eq!(sanitize_display_text("\x1B[31mred\x1B[0m"), "red");
    assert_eq!(sanitize_display_text("hello\tbell\x07"), "hello bell");
}

#[test]
fn test_truncate_with_ellipsis() {
    assert_eq!(truncate_with_ellipsis("hello", 10), "hello");
    assert_eq!(truncate_with_ellipsis("hello world", 8), "hello...");
    assert_eq!(truncate_with_ellipsis("hello world", 3), "...");
    assert_eq!(truncate_with_ellipsis("hello world", 2), "..");
    assert_eq!(truncate_with_ellipsis("hello world", 1), ".");
    assert_eq!(truncate_with_ellipsis("hello world", 0), "");
}

#[test]
fn truncate_counts_wide_characters_as_two_columns() {
    assert_eq!(truncate_with_ellipsis("日本語のテキスト", 9), "日本語...");
    assert_eq!(truncate_with_ellipsis("日本語", 6), "日本語");
}

#[test]
fn sanitize_keeps_line_before_carriage_return_when_no_newline() {
    assert_eq!(sanitize_display_text("a\r\nb"), "a...");
    assert_eq!(sanitize_display_text("x\ry\nz"), "xy...");
}

#[test]
fn sanitize_and_truncate_cleans_then_cuts() {
    assert_eq!(sanitize_and_truncate("\x1B[1mhello world\x1B[0m\nmore", 8), "hello...");
    assert_eq!(sanitize_and_truncate("short", 20), "short");
    assert_eq!(sanitize_and_truncate("tab\there", 20), "tab here");
}

#[test]
fn truncation_never_exceeds_the_width_of_emoji_sequences() {
    let hearts = "\u{2764}\u{fe0f}".repeat(4);
    assert_eq!(display_width(&hearts), 8);
    let cut = truncate_with_ellipsis(&hearts, 5);
    assert_eq!(cut, "\u{2764}\u{fe0f}...");
    assert!(display_width(&cut) <= 5);
}

#[test]
fn display_width_counts_ascii_and_wide_text() {
    assert_eq!(display_width("hello"), 5);
    assert_eq!(display_width("日本語"), 6);
    assert_eq!(display_width(""), 0);
}

#[test]
fn finishing_a_display_line_cleans_and_marks_more() {
    assert_eq!(finish_display_line("a\tb\u{7}c", true), "a bc...");
    assert_eq!(finish_display_line("plain", false), "plain");
}
