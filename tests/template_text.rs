use commit_msg::template::{
    choose_editor, commit_file_text, commit_prompt, guidance_block, signoff_line, strip_comments,
    GENERATION_PROMPT,
};
use commit_msg::text::is_blank_text;

#[test]
fn signoff_trims_name_and_email() {
    assert_eq!(
        signoff_line("Jane Doe\n", " jane@example.com\n"),
        "Signed-off-by: Jane Doe <jane@example.com>\n"
    );
}

#[test]
fn guidance_lists_branch_and_status() {
    let g = guidance_block(Some("main\n".to_string()), " M src/a.rs\n?? b.txt\n");
    assert_eq!(
        g,
        "\n# Please enter the commit message for your changes. Lines starting\n\
         # with '#' will be ignored, and an empty message aborts the commit.\n\
         #\n\
         # On branch main\n\
         # Changes to be committed:\n\
         #  M src/a.rs\n\
         # ?? b.txt\n"
    );
}

#[test]
fn guidance_without_branch_says_detached() {
    let g = guidance_block(None, "");
    assert!(g.contains("# On branch detached HEAD\n"));
    assert!(g.ends_with("# Changes to be committed:\n"));
}

#[test]
fn commit_file_puts_parts_in_order() {
    let t = commit_file_text(
        "Subject\n\nBody",
        Some("Signed-off-by: A <a@b>\n".to_string()),
        Some("\n# comment\n".to_string()),
    );
    assert_eq!(t, "Subject\n\nBody\n\nSigned-off-by: A <a@b>\n\n# comment\n");
    assert_eq!(commit_file_text("Subject", None, None), "Subject");
}

#[test]
fn comments_are_stripped_after_editing() {
    let edited = "Subject\n\nBody\n\n# Please enter\n# On branch main\n";
    assert_eq!(strip_comments(edited), "Subject\n\nBody");
    assert_eq!(strip_comments("# only\n#comments\n\n"), "");
    assert_eq!(strip_comments("  Keep # this\n#drop\nand this"), "Keep # this\nand this");
}

#[test]
fn editor_is_first_configured() {
    let s = |x: &str| Some(x.to_string());
    assert_eq!(choose_editor(s("nano"), s("code"), s("emacs"), "vi"), "nano");
    assert_eq!(choose_editor(None, s("code"), s("emacs"), "vi"), "code");
    assert_eq!(choose_editor(None, None, s("emacs"), "vi"), "emacs");
    assert_eq!(choose_editor(None, None, None, "vi"), "vi");
}

#[test]
fn prompt_is_instructions_then_diff() {
    let p = commit_prompt("diff --git a/x b/x\n");
    assert!(p.starts_with("Generate a git commit message"));
    assert_eq!(p, format!("{}diff --git a/x b/x\n", GENERATION_PROMPT));
}

#[test]
fn blank_text_is_detected() {
    assert!(is_blank_text(""));
    assert!(is_blank_text(" \n\t "));
    assert!(!is_blank_text(" diff "));
}

#[test]
fn comments_are_stripped_from_crlf_file() {
    assert_eq!(strip_comments("Subject\r\n\r\nBody\r\n# comment\r\n"), "Subject\n\nBody");
    assert_eq!(strip_comments("Line one\r\nLine two"), "Line one\nLine two");
}

#[test]
fn guidance_drops_crlf_from_status() {
    let g = guidance_block(Some("main".to_string()), " M a.rs\r\n");
    assert!(g.ends_with("# Changes to be committed:\n#  M a.rs\n"));
}
