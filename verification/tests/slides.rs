use flashdeal::slides::{strip_indent, ThematicBreaks};

#[test]
fn strip_nothing() {
    let input = "12 3456     ";
    let stripped = strip_indent(input);
    assert_eq!(stripped, Some(input));
}

#[test]
fn strip_spaces() {
    assert_eq!(strip_indent(" foo"), Some("foo"));
    assert_eq!(strip_indent("  foo"), Some("foo"));
    assert_eq!(strip_indent("   foo"), Some("foo"));
    assert_eq!(strip_indent("    foo"), None);
}

#[test]
fn strip_tabs() {
    assert_eq!(strip_indent("\tfoo"), None);
}

#[test]
fn thematic_empty() {
    let mut sections = ThematicBreaks::new("");
    assert_eq!(sections.next(), Some(""));
}

#[test]
fn thematic_empty_is_used_up() {
    let mut sections = ThematicBreaks::new("");
    assert_eq!(sections.next(), Some(""));
    assert_eq!(sections.next(), None);
}

#[test]
fn thematic_two_sections() {
    let mut sections = ThematicBreaks::new("a\n\n---\n\nb");
    assert_eq!(sections.next(), Some("a\n\n"));
    assert_eq!(sections.next(), Some("\nb"));
    assert_eq!(sections.next(), None);
}

#[test]
fn thematic_setext_heading_is_no_break() {
    // Hyphens directly under a text line underline a Setext heading.
    let mut sections = ThematicBreaks::new("title\n---\nbody");
    assert_eq!(sections.next(), Some("title\n---\nbody"));
    assert_eq!(sections.next(), None);
}

#[test]
fn thematic_indented_code_is_no_break() {
    let mut sections = ThematicBreaks::new("a\n\n    ---\nb");
    assert_eq!(sections.next(), Some("a\n\n    ---\nb"));
    assert_eq!(sections.next(), None);
}

#[test]
fn thematic_needs_three_hyphens() {
    let mut sections = ThematicBreaks::new("a\n\n--\nb");
    assert_eq!(sections.next(), Some("a\n\n--\nb"));
    assert_eq!(sections.next(), None);
}

#[test]
fn thematic_break_at_end_without_newline() {
    let mut sections = ThematicBreaks::new("a\n\n---");
    assert_eq!(sections.next(), Some("a\n\n"));
    assert_eq!(sections.next(), None);
}

#[test]
fn thematic_break_skips_the_character_ending_the_hyphen_run() {
    // The character that stops the hyphen run is passed over; only what
    // follows it must be whitespace.
    let mut sections = ThematicBreaks::new("a\n\n---x  \nb");
    assert_eq!(sections.next(), Some("a\n\n"));
    assert_eq!(sections.next(), Some("b"));
    assert_eq!(sections.next(), None);
    let mut sections = ThematicBreaks::new("a\n\n---xy\nb");
    assert_eq!(sections.next(), Some("a\n\n---xy\nb"));
    assert_eq!(sections.next(), None);
}

#[test]
fn thematic_trailing_whitespace_after_hyphens() {
    let mut sections = ThematicBreaks::new("a\n\n---   \nb");
    assert_eq!(sections.next(), Some("a\n\n"));
    assert_eq!(sections.next(), Some("b"));
    assert_eq!(sections.next(), None);
}
