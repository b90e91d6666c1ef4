use datetime_parse::markdown::{escape_left_angles, escape_left_parens, fix_title, is_markdown_file, prepare_markdown};

#[test]
fn title_gets_its_own_line() {
    assert_eq!("# 2022 Vacations\n![x]", fix_title("# 2022 Vacations![x]", "2022-Vacations"));
    // The byte after the title must match the file name's last byte.
    assert_eq!("# Other![x]", fix_title("# Other![x]", "2022-Vacations"));
    assert_eq!("no heading", fix_title("no heading", "no"));
    assert_eq!("# T", fix_title("# T", ""));
}

#[test]
fn doubled_newlines_and_trailing_space_go() {
    let content = "# Trip\n\nMarket?\n\n\n\nBeaches:\n\nPueblo\n\nphone.\n\n  \n";
    // The title break makes three newlines, which become two.
    assert_eq!("# Trip\n\nMarket?\n\nBeaches:\nPueblo\nphone.", prepare_markdown(content, "Trip"));
    assert_eq!("a\nb", prepare_markdown("a\n\nb \t\n", "x"));
}

#[test]
fn parens_and_angles_are_escaped() {
    assert_eq!("\\(Rose) and \\(Lily)", escape_left_parens("(Rose) and (Lily)"));
    assert_eq!("a \\< b \\<\\<", escape_left_angles("a < b <<"));
    assert_eq!("", escape_left_parens(""));
}

#[test]
fn markdown_extension_in_any_case() {
    assert!(is_markdown_file(Some("md")));
    assert!(is_markdown_file(Some("MD")));
    assert!(is_markdown_file(Some("mD")));
    assert!(!is_markdown_file(Some("mdx")));
    assert!(!is_markdown_file(Some("txt")));
    assert!(!is_markdown_file(None));
}

#[test]
fn trailing_unicode_space_is_trimmed() {
    assert_eq!("text", prepare_markdown("text\u{00a0}\u{3000}\t\r\n", "x"));
    assert_eq!("text\u{200b}", prepare_markdown("text\u{200b}", "x"));
}
