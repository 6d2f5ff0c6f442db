use commit_msg::fence::strip_code_fence;
use commit_msg::format::{format_commit_message, normalize_message};
use commit_msg::wrap::wrap_text;

#[test]
fn fence_with_plain_markers_is_removed() {
    assert_eq!(strip_code_fence("```\nAdd parser\n```"), "Add parser");
}

#[test]
fn fence_with_language_tag_is_removed() {
    assert_eq!(strip_code_fence("```text\nAdd parser\n\nBody line.\n```"), "Add parser\n\nBody line.");
}

#[test]
fn fence_first_line_with_space_is_kept() {
    assert_eq!(strip_code_fence("```rust code\nx```"), "rust code\nx");
}

#[test]
fn fence_first_line_of_twenty_chars_is_kept() {
    assert_eq!(strip_code_fence("```abcdefghijklmnopqrst\nx\n```"), "abcdefghijklmnopqrst\nx");
    assert_eq!(strip_code_fence("```abcdefghijklmnopqrs\nx\n```"), "x");
}

#[test]
fn unfenced_text_is_only_trimmed() {
    assert_eq!(strip_code_fence("  \n Fix\nbody text \n\t"), "Fix\nbody text");
    assert_eq!(strip_code_fence("Fix typo\n```"), "Fix typo\n```");
}

#[test]
fn fence_strip_twice_is_once() {
    let once = strip_code_fence("\n```markdown\nUpdate docs\n\nExplain the flags.\n```\n");
    assert_eq!(once, "Update docs\n\nExplain the flags.");
    assert_eq!(strip_code_fence(&once), once);
}

#[test]
fn fence_only_gives_empty() {
    assert_eq!(strip_code_fence("```"), "");
    assert_eq!(strip_code_fence("``````"), "");
    assert_eq!(strip_code_fence(""), "");
}

#[test]
fn wrap_empty_is_empty() {
    assert_eq!(wrap_text("", 72), "");
    assert_eq!(wrap_text(" \n\n  \n", 72), "");
}

#[test]
fn wrap_short_paragraphs_unchanged() {
    let t = "First paragraph stays as it is.\n\nSecond paragraph stays as well.";
    assert_eq!(wrap_text(t, 72), t);
}

#[test]
fn wrap_fills_greedily() {
    let t = "The quick brown fox jumps over the lazy dog and keeps running through the forest until night falls.";
    assert_eq!(
        wrap_text(t, 72),
        "The quick brown fox jumps over the lazy dog and keeps running through\nthe forest until night falls."
    );
    assert_eq!(wrap_text("aaa bbb ccc ddd", 7), "aaa bbb\nccc ddd");
    assert_eq!(wrap_text("aaa bbb ccc ddd", 6), "aaa\nbbb\nccc\nddd");
}

#[test]
fn wrap_joins_lines_of_a_paragraph() {
    assert_eq!(wrap_text("one\ntwo  three\n   four", 72), "one two three four");
}

#[test]
fn wrap_keeps_long_word_whole() {
    let long = "x".repeat(80);
    let t = format!("short {} tail", long);
    assert_eq!(wrap_text(&t, 72), format!("short\n{}\ntail", long));
    assert_eq!(wrap_text(&long, 72), long);
}

#[test]
fn wrap_lines_stay_within_width() {
    let t = "alpha beta gamma delta epsilon zeta eta theta iota kappa lambda mu nu xi omicron pi rho sigma tau upsilon phi chi psi omega";
    let out = wrap_text(t, 20);
    for line in out.lines() {
        assert!(line.chars().count() <= 20, "line too long: {:?}", line);
    }
    assert_eq!(out.split_whitespace().collect::<Vec<_>>(), t.split_whitespace().collect::<Vec<_>>());
}

#[test]
fn wrap_keeps_paragraph_count_and_order() {
    let t = "first one\nstill first\n\nsecond\n\n\n\nthird\n \t\nfourth";
    let out = wrap_text(t, 72);
    assert_eq!(out, "first one still first\n\nsecond\n\nthird fourth");
    assert_eq!(out.split("\n\n").count(), 3);
}

#[test]
fn format_fenced_scenario() {
    let raw = "```\nAdd retry logic\n\nRetries failed requests up to three times when\nthe network is flaky, improving reliability under\nintermittent outages.\n```";
    assert_eq!(
        normalize_message(raw),
        "Add retry logic\n\nRetries failed requests up to three times when the network is flaky,\nimproving reliability under intermittent outages."
    );
}

#[test]
fn format_long_subject_is_cut() {
    let input = "A".repeat(60);
    assert_eq!(format_commit_message(&input), "A".repeat(50));
}

#[test]
fn format_empty_is_empty() {
    assert_eq!(format_commit_message(""), "");
    assert_eq!(normalize_message("  \n "), "");
}

#[test]
fn format_two_paragraphs_unchanged() {
    let input = "Add config loader\n\nRead settings from the user's config directory.\n\nFall back to defaults when no file exists.";
    assert_eq!(format_commit_message(input), input);
}

#[test]
fn format_skips_extra_blank_lines_after_subject() {
    assert_eq!(format_commit_message("Subject\n\n\n  \nBody text"), "Subject\n\nBody text");
    assert_eq!(format_commit_message("Subject\nBody right below"), "Subject\n\nBody right below");
}

#[test]
fn format_single_line_has_no_body() {
    assert_eq!(format_commit_message("Fix crash on start  "), "Fix crash on start");
    assert_eq!(format_commit_message("Fix crash on start\n\n   \n"), "Fix crash on start");
}

#[test]
fn format_subject_cut_then_trimmed() {
    let subject = format!("{} tail of the subject", "b".repeat(49));
    assert_eq!(format_commit_message(&subject), "b".repeat(49));
    let out = format_commit_message(&format!("{}\nbody", "word ".repeat(20)));
    assert!(out.lines().next().unwrap().chars().count() <= 50);
    assert_eq!(out, format!("{}\n\nbody", "word ".repeat(10).trim_end()));
}

#[test]
fn format_counts_characters_not_bytes() {
    let input = "é".repeat(55);
    assert_eq!(format_commit_message(&input), "é".repeat(50));
}

#[test]
fn format_wraps_body_at_seventy_two() {
    let body = "word ".repeat(30);
    let out = format_commit_message(&format!("Subject\n\n{}", body));
    let full = "word ".repeat(14);
    let full = full.trim_end();
    assert_eq!(full.len(), 69);
    assert_eq!(out, format!("Subject\n\n{}\n{}\nword word", full, full));
}

#[test]
fn wrap_whitespace_line_does_not_split_paragraph() {
    assert_eq!(wrap_text("a\n \nb", 72), "a b");
    assert_eq!(wrap_text("a\n\t \t\nb", 72), "a b");
    assert_eq!(wrap_text("a\n \n\nb", 72), "a\n\nb");
}

#[test]
fn wrap_crlf_empty_line_does_not_split_paragraph() {
    assert_eq!(wrap_text("a\r\nb\r\n\r\nc", 72), "a b c");
    assert_eq!(wrap_text("a\r\n\nb", 72), "a\n\nb");
}

#[test]
fn format_crlf_single_line_has_no_body() {
    assert_eq!(format_commit_message("Subject\r\n\r\n\r\n"), "Subject");
}

#[test]
fn format_crlf_message() {
    assert_eq!(
        format_commit_message("Subject\r\n\r\nFirst part\r\nof body\r\n\r\nSecond\r\n"),
        "Subject\n\nFirst part of body\n\nSecond"
    );
}
