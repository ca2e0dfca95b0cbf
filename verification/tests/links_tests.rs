use arke_core::links::LinkExtractor;

#[test]
fn test_extract_simple_wikilink() {
    let extractor = LinkExtractor::new();
    let content = "This is a [[test]] link.";
    let links = extractor.extract(content);

    assert_eq!(links.len(), 1);
    assert_eq!(links[0].target, "test");
    assert_eq!(links[0].display, None);
}

#[test]
fn test_extract_wikilink_with_display() {
    let extractor = LinkExtractor::new();
    let content = "See [[target|display text]].";
    let links = extractor.extract(content);

    assert_eq!(links.len(), 1);
    assert_eq!(links[0].target, "target");
    assert_eq!(links[0].display, Some("display text".to_string()));
}

#[test]
fn test_extract_multiple_wikilinks() {
    let extractor = LinkExtractor::new();
    let content = "Links: [[one]], [[two]], and [[three|3]].";
    let links = extractor.extract(content);

    assert_eq!(links.len(), 3);
    assert_eq!(links[0].target, "one");
    assert_eq!(links[1].target, "two");
    assert_eq!(links[2].target, "three");
    assert_eq!(links[2].display, Some("3".to_string()));
}

#[test]
fn test_resolve_link() {
    let extractor = LinkExtractor::new();
    let vault_files = vec![
        String::from("notes/test.md"),
        String::from("docs/readme.md"),
    ];

    let resolved = extractor.resolve_link("test", &vault_files);
    assert_eq!(resolved, Some(String::from("notes/test.md")));

    let resolved = extractor.resolve_link("readme.md", &vault_files);
    assert_eq!(resolved, Some(String::from("docs/readme.md")));

    let resolved = extractor.resolve_link("nonexistent", &vault_files);
    assert_eq!(resolved, None);
}

#[test]
fn test_build_backlinks_map() {
    let extractor = LinkExtractor::new();

    let files = vec![
        (String::from("a.md"), String::from("Link to [[b]]")),
        (String::from("c.md"), String::from("Links to [[b]] and [[a]]")),
    ];

    let vault_files = vec![
        String::from("a.md"),
        String::from("b.md"),
        String::from("c.md"),
    ];

    let links_map = extractor.build_links_map(&files);
    let backlinks_map = extractor.build_backlinks_map(&links_map, &vault_files);

    let b_backlinks = extractor.get_backlinks("b.md", &backlinks_map);
    assert_eq!(b_backlinks.len(), 2);
    assert!(b_backlinks.contains(&String::from("a.md")));
    assert!(b_backlinks.contains(&String::from("c.md")));

    let a_backlinks = extractor.get_backlinks("a.md", &backlinks_map);
    assert_eq!(a_backlinks.len(), 1);
    assert_eq!(a_backlinks[0], String::from("c.md"));
}

#[test]
fn test_find_broken_links() {
    let extractor = LinkExtractor::new();

    let files = vec![(
        String::from("a.md"),
        String::from("Link to [[exists]] and [[missing]]"),
    )];

    let vault_files = vec![String::from("a.md"), String::from("exists.md")];

    let links_map = extractor.build_links_map(&files);
    let broken = extractor.find_broken_links(&links_map, &vault_files);

    assert_eq!(broken.len(), 1);
    let entry = broken.iter().find(|e| e.0.as_str() == "a.md").unwrap();
    assert_eq!(entry.1.len(), 1);
    assert_eq!(entry.1[0], "missing");
}

#[test]
fn test_offsets_are_increasing_byte_positions() {
    let extractor = LinkExtractor::new();
    let content = "x [[a]] y [[b]]";
    let links = extractor.extract(content);

    assert_eq!(links.len(), 2);
    assert_eq!(links[0].position, 2);
    assert_eq!(links[1].position, 10);
    assert!(links[0].position < links[1].position);
    assert!(links[1].position < content.len());
}

#[test]
fn test_offset_counts_bytes_of_wide_characters() {
    let extractor = LinkExtractor::new();
    // The leading character occupies two bytes in UTF-8.
    let content = "\u{e9}[[a]]";
    let links = extractor.extract(content);

    assert_eq!(links.len(), 1);
    assert_eq!(links[0].position, 2);
}

#[test]
fn test_extract_trims_target_and_display() {
    let extractor = LinkExtractor::new();
    let links = extractor.extract("A [[  padded target  |  shown  ]] link");

    assert_eq!(links.len(), 1);
    assert_eq!(links[0].target, "padded target");
    assert_eq!(links[0].display, Some("shown".to_string()));
}

#[test]
fn test_extract_rejects_malformed_spans() {
    let extractor = LinkExtractor::new();
    assert_eq!(extractor.extract("").len(), 0);
    assert_eq!(extractor.extract("no links here").len(), 0);
    assert_eq!(extractor.extract("[[]]").len(), 0);
    assert_eq!(extractor.extract("[[a|]]").len(), 0);
    assert_eq!(extractor.extract("[[a] b]]").len(), 0);
    assert_eq!(extractor.extract("[[unclosed").len(), 0);
}

#[test]
fn test_resolve_link_is_case_insensitive() {
    let extractor = LinkExtractor::new();
    let vault_files = vec![String::from("Notes/Test.md")];

    let resolved = extractor.resolve_link("TEST", &vault_files);
    assert_eq!(resolved, Some(String::from("Notes/Test.md")));
}

#[test]
fn test_resolve_link_prefers_stem_over_qualified_name() {
    let extractor = LinkExtractor::new();
    // The first file's stem is "note.md"; the second file's full name is
    // "note.md". The stem stage wins even though the second file would
    // satisfy the extension-qualified stage.
    let vault_files = vec![String::from("a/note.md.md"), String::from("note.md")];

    let resolved = extractor.resolve_link("note.md", &vault_files);
    assert_eq!(resolved, Some(String::from("a/note.md.md")));
}

#[test]
fn test_backlinks_are_sorted_and_deduplicated() {
    let extractor = LinkExtractor::new();

    let files = vec![
        (String::from("z.md"), String::from("[[b]] and [[b]] again")),
        (String::from("a.md"), String::from("also [[b]]")),
    ];
    let vault_files = vec![
        String::from("a.md"),
        String::from("b.md"),
        String::from("z.md"),
    ];

    let links_map = extractor.build_links_map(&files);
    let backlinks_map = extractor.build_backlinks_map(&links_map, &vault_files);

    let b_backlinks = extractor.get_backlinks("b.md", &backlinks_map);
    assert_eq!(b_backlinks, vec![String::from("a.md"), String::from("z.md")]);
}

#[test]
fn test_links_map_omits_documents_without_links() {
    let extractor = LinkExtractor::new();
    let files = vec![
        (String::from("a.md"), String::from("no references at all")),
        (String::from("b.md"), String::from("one [[a]]")),
    ];

    let links_map = extractor.build_links_map(&files);
    assert_eq!(links_map.len(), 1);
    assert_eq!(links_map[0].0, "b.md");
    assert_eq!(links_map[0].1.len(), 1);
    assert_eq!(links_map[0].1[0].target, "a");
}
