use arke_core::parser::MarkdownParser;

#[test]
fn test_parse_simple_markdown() {
    let parser = MarkdownParser::new();
    let html = parser.parse_to_html("# Hello\n\nWorld");
    assert!(html.contains("<h1>"));
    assert!(html.contains("Hello"));
}

#[test]
fn test_extract_headings() {
    let parser = MarkdownParser::new();
    let md = "# Title\n## Subtitle\n### Section";
    let parsed = parser.parse(md).unwrap();

    assert_eq!(parsed.headings.len(), 3);
    assert_eq!(parsed.headings[0].level, 1);
    assert_eq!(parsed.headings[0].text, "Title");
    assert_eq!(parsed.headings[1].level, 2);
    assert_eq!(parsed.headings[2].level, 3);
}

#[test]
fn test_extract_code_blocks() {
    let parser = MarkdownParser::new();
    let md = "# Code\n\n```rust\nfn main() {}\n```\n\nText\n\n```python\nprint('hi')\n```";
    let parsed = parser.parse(md).unwrap();

    assert_eq!(parsed.code_blocks.len(), 2);
    assert_eq!(parsed.code_blocks[0].language, Some("rust".to_string()));
    assert_eq!(parsed.code_blocks[1].language, Some("python".to_string()));
}

#[test]
fn test_gfm_extensions() {
    let parser = MarkdownParser::new();

    let table_md = "| Col 1 | Col 2 |\n|-------|-------|\n| A | B |";
    let html = parser.parse_to_html(table_md);
    assert!(html.contains("<table"));

    let strike_md = "~~deleted~~";
    let html = parser.parse_to_html(strike_md);
    assert!(html.contains("<del>") || html.contains("strike"));

    let task_md = "- [ ] Task 1\n- [x] Task 2";
    let html = parser.parse_to_html(task_md);
    assert!(html.contains("checkbox") || html.contains("task"));
}

#[test]
fn test_heading_ids_number_headings_in_order() {
    let parser = MarkdownParser::new();
    let parsed = parser.parse("# One\ntext\n## Two").unwrap();

    assert_eq!(parsed.headings.len(), 2);
    assert_eq!(parsed.headings[0].id, "heading-0");
    assert_eq!(parsed.headings[1].id, "heading-1");
}

#[test]
fn test_heading_levels_beyond_six_are_ignored() {
    let parser = MarkdownParser::new();
    let parsed = parser.parse("####### too deep\n###### just right").unwrap();

    assert_eq!(parsed.headings.len(), 1);
    assert_eq!(parsed.headings[0].level, 6);
    assert_eq!(parsed.headings[0].text, "just right");
}

#[test]
fn test_code_block_without_language() {
    let parser = MarkdownParser::new();
    let parsed = parser.parse("```\nplain\n```").unwrap();

    assert_eq!(parsed.code_blocks.len(), 1);
    assert_eq!(parsed.code_blocks[0].language, None);
    assert_eq!(parsed.code_blocks[0].code, "plain\n");
}

#[test]
fn test_unterminated_code_block_is_dropped() {
    let parser = MarkdownParser::new();
    let parsed = parser.parse("```rust\nfn main() {}\n").unwrap();

    assert_eq!(parsed.code_blocks.len(), 0);
}

#[test]
fn test_parse_keeps_raw_text() {
    let parser = MarkdownParser::new();
    let md = "# A\n\nbody";
    let parsed = parser.parse(md).unwrap();

    assert_eq!(parsed.raw, md);
    assert!(parsed.html.contains("<h1>"));
    assert!(parsed.html.contains("body"));
}
