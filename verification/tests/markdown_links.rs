use qownnotes_tui::markdown::{heading_source_offset, note_links, NoteLinkTarget};

#[test]
fn finds_http_links_with_encoded_query_parameters() {
    let source = "- [ ] all issues sorted by likes: <https://github.com/pbek/QOwnNotes/issues?q=is%3Aissue%20state%3Aopen%20sort%3Areactions-%2B1-desc>\n\
                  - [x] bugs: <https://github.com/pbek/QOwnNotes/issues?q=state%3Aopen%20label%3A%22Type%3A%20Bug%22>";

    let links = note_links(source);

    assert_eq!(
        links.iter().map(|link| &link.target).collect::<Vec<_>>(),
        [
            &NoteLinkTarget::Uri("https://github.com/pbek/QOwnNotes/issues?q=is%3Aissue%20state%3Aopen%20sort%3Areactions-%2B1-desc".into()),
            &NoteLinkTarget::Uri("https://github.com/pbek/QOwnNotes/issues?q=state%3Aopen%20label%3A%22Type%3A%20Bug%22".into()),
        ]
    );
}

#[test]
fn finds_supported_note_links_outside_code() {
    let source = "[relative](folder/Note%20one.md#Part) [[Other#Heading|label]]\n\
                  `[[ignored]]` <note://Legacy_note> [web](https://example.com)";

    let links = note_links(source);

    assert_eq!(links.len(), 4);
    assert_eq!(
        links.iter().map(|link| &link.target).collect::<Vec<_>>(),
        [
            &NoteLinkTarget::Path("folder/Note%20one.md#Part".into()),
            &NoteLinkTarget::Wiki("Other#Heading|label".into()),
            &NoteLinkTarget::Legacy("note://Legacy_note".into()),
            &NoteLinkTarget::Uri("https://example.com".into()),
        ]
    );
}

#[test]
fn ignores_undefined_and_code_footnotes() {
    let source = "Undefined[^missing] Text[^source] `Code[^source]`\n```\nFenced[^source]\n```\n[^source]: Explanation";

    let links = note_links(source);

    assert_eq!(links.len(), 2);
    assert_eq!(&source[links[0].range.clone()], "[^source]");
    assert_eq!(links[0].target, NoteLinkTarget::SourceOffset(74));
    assert_eq!(links[1].target, NoteLinkTarget::SourceOffset(24));
}

#[test]
fn links_numeric_and_named_footnotes() {
    let source =
        "Text[^1] and again[^1]. Named[^source].\n\n[^1]: Number\n[^source]: Explanation";
    let links = note_links(source);

    assert_eq!(links.len(), 5);
    assert_eq!(links[0].target, NoteLinkTarget::SourceOffset(41));
    assert_eq!(links[1].target, NoteLinkTarget::SourceOffset(41));
    assert_eq!(links[2].target, NoteLinkTarget::SourceOffset(54));
    assert_eq!(links[3].target, NoteLinkTarget::SourceOffset(4));
    assert_eq!(links[4].target, NoteLinkTarget::SourceOffset(29));
}

#[test]
fn finds_heading_text_and_markdown_anchor() {
    let source = "# First heading\nbody\n## Release Notes! ##\n";

    assert_eq!(heading_source_offset(source, "First heading"), Some(0));
    assert_eq!(heading_source_offset(source, "release-notes"), Some(21));
    assert_eq!(heading_source_offset(source, "missing"), None);
}

#[test]
fn link_ranges_are_byte_offsets_after_multibyte_text() {
    let source = "ä [[Ünïcode]] `x` [a](b.md)";
    let links = note_links(source);
    assert_eq!(links.len(), 2);
    assert_eq!(&source[links[0].range.clone()], "[[Ünïcode]]");
    assert_eq!(links[0].target, NoteLinkTarget::Wiki("Ünïcode".into()));
    assert_eq!(&source[links[1].range.clone()], "[a](b.md)");
}

#[test]
fn heading_offsets_count_bytes_and_skip_fences() {
    let source = "ü\n```\n# Hidden\n```\n# Hidden\n";
    assert_eq!(heading_source_offset(source, "hidden"), Some(source.rfind("# Hidden").unwrap()));
    assert_eq!(source.rfind("# Hidden"), Some(20));
}

#[test]
fn links_come_sorted_by_start_with_ranges_between_characters() {
    let source = "Größe [^a] and [x](b.md) and [[Wiki]].\n\n[^a]: see <https://example.org>";
    let links = note_links(source);
    assert!(links.len() >= 4);
    for pair in links.windows(2) {
        assert!(pair[0].range.start <= pair[1].range.start);
    }
    for link in &links {
        assert!(link.range.start <= link.range.end);
        assert!(source.is_char_boundary(link.range.start));
        assert!(source.is_char_boundary(link.range.end));
    }
}
