use docata::frontmatter::{extract_frontmatter, FrontmatterError};

#[test]
fn extracts_block_between_delimiters() {
    let text = "---\nid: foo\ndeps:\n  - bar\n---\n# Title\n";
    let block = extract_frontmatter(text, true).ok().flatten();
    assert_eq!(block.as_deref(), Some("id: foo\ndeps:\n  - bar\n"));
}

#[test]
fn delimiters_may_carry_white_space() {
    let text = "  ---  \nid: foo\n\t---\nrest\n";
    let block = extract_frontmatter(text, true).ok().flatten();
    assert_eq!(block.as_deref(), Some("id: foo\n"));
}

#[test]
fn text_without_opening_delimiter_has_no_block() {
    assert!(matches!(extract_frontmatter("# Title\n---\nid: x\n---\n", true), Ok(None)));
    assert!(matches!(extract_frontmatter("", true), Ok(None)));
}

#[test]
fn unterminated_block_runs_to_the_end() {
    let block = extract_frontmatter("---\nid: a\nlast", true).ok().flatten();
    assert_eq!(block.as_deref(), Some("id: a\nlast"));
}

#[test]
fn oversized_block_is_refused() {
    let mut text = String::from("---\n");
    for _ in 0..4000 {
        text.push_str("key: 123456\n");
    }
    text.push_str("---\n");
    assert!(extract_frontmatter(&text, true).is_err());
    let small = "---\nkey: 1\n---\n";
    assert!(extract_frontmatter(small, true).is_ok());
}

#[test]
fn readable_prefix_with_closed_block_is_enough() {
    let block = extract_frontmatter("---\nid: a\n---\n", false).ok().flatten();
    assert_eq!(block.as_deref(), Some("id: a\n"));
    assert!(matches!(extract_frontmatter("# Title\n", false), Ok(None)));
}

#[test]
fn block_reaching_unreadable_part_fails() {
    assert!(matches!(extract_frontmatter("---\nid: a\n", false), Err(FrontmatterError::Unreadable)));
    assert!(matches!(extract_frontmatter("", false), Err(FrontmatterError::Unreadable)));
    assert!(matches!(extract_frontmatter("---\nid: a\n", true), Ok(Some(_))));
}

#[test]
fn unicode_white_space_around_delimiters_is_trimmed() {
    let text = "\u{a0}---\u{3000}\r\nid: a\r\n\u{2009}---\n";
    let block = extract_frontmatter(text, true).ok().flatten();
    assert_eq!(block.as_deref(), Some("id: a\r\n"));
    assert!(matches!(extract_frontmatter("-- -\nid: a\n", true), Ok(None)));
}
