use datetime_parse::filename::sanitize_filename;

#[test]
fn file_name_escape() {
    // Spaces not sanitized
    assert_eq!(sanitize_filename("2022 Vacations"), "2022 Vacations");

    // Wrapping characters and punctuation removed
    assert_eq!(sanitize_filename("(2022)?!?"), "2022");

    // Separators
    assert_eq!(sanitize_filename("Archive/2022\\Vacations|International:Europe"), "Archive-2022-Vacations-International-Europe");

    // Combination, "and" markers
    assert_eq!(sanitize_filename("Nice <([Gift])> Ideas + History & Log"), "Nice Gift Ideas and History and Log");
}

#[test]
fn separators_collapse_after_a_dash() {
    assert_eq!(sanitize_filename("a//b"), "a-b");
    assert_eq!(sanitize_filename("a-/b"), "a-b");
    assert_eq!(sanitize_filename("a;:|b"), "a-b");
    assert_eq!(sanitize_filename(""), "");
    assert_eq!(sanitize_filename("Café/Été"), "Café-Été");
}
