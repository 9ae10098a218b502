use qownnotes_tui::highlight::{
    color_link_id, decode_source_offset, encode_source_offset, highlight, highlight_selection,
    link_id_color, link_metadata, selection_metadata,
};
use qownnotes_tui::markdown::{note_links, NoteLinkTarget};
use qownnotes_tui::styled::Color;
use qownnotes_tui::theme::Theme;

#[test]
fn highlights_structural_and_inline_markdown() {
    let text = highlight(
        "# Heading\n- `code` and [link](target)\n```\nbody\n```",
        &Theme::default(),
    );
    assert_eq!(text.lines.len(), 5);
    assert_eq!(text.lines[0].style.fg, Some(Color::Cyan));
    assert_eq!(text.lines[1].spans[0].style.fg, Some(Color::Yellow));
    assert_eq!(text.lines[3].style.fg, Some(Color::Green));
}

#[test]
fn highlights_setext_headings() {
    let text = highlight(
        "First level\n============\nSecond level\n---\n#Not ATX\n===",
        &Theme::default(),
    );

    for line in &text.lines {
        assert_eq!(line.style.fg, Some(Color::Cyan));
        assert!(line.style.add_modifier.bold);
    }
}

#[test]
fn does_not_highlight_setext_like_lines_outside_paragraphs() {
    let text = highlight(
        "---\n    Indented\n    ===\n```\nCode heading\n---\n```",
        &Theme::default(),
    );

    assert_eq!(text.lines[0].style.fg, None);
    assert_eq!(text.lines[1].style.fg, None);
    assert_eq!(text.lines[2].style.fg, None);
    assert_eq!(text.lines[4].style.fg, Some(Color::Green));
    assert_eq!(text.lines[5].style.fg, Some(Color::Green));
}

#[test]
fn highlights_checkbox_list_markers() {
    let text = highlight(
        "- [ ] pending `task`\n* [x] complete\n1. [X] complete\n- [-] partial\n- [no] plain",
        &Theme::default(),
    );

    assert_eq!(text.lines[0].spans[0].content, "- ");
    assert_eq!(text.lines[0].spans[1].content, "[ ]");
    assert_eq!(text.lines[0].spans[1].style.fg, Some(Color::Yellow));
    assert_eq!(text.lines[0].spans[3].content, "`task`");
    assert_eq!(text.lines[0].spans[3].style.fg, Some(Color::Green));
    assert_eq!(text.lines[1].spans[1].content, "[x]");
    assert_eq!(text.lines[1].spans[1].style.fg, Some(Color::Green));
    assert_eq!(text.lines[2].spans[1].content, "[X]");
    assert_eq!(text.lines[2].spans[1].style.fg, Some(Color::Green));
    assert_eq!(text.lines[3].spans[1].content, "[-]");
    assert_eq!(text.lines[3].spans[1].style.fg, Some(Color::DarkGray));
    assert_eq!(
        text.lines[4]
            .spans
            .iter()
            .map(|span| span.content.as_str())
            .collect::<String>(),
        "- [no] plain"
    );
    assert!(text.lines[4].spans[1..]
        .iter()
        .all(|span| span.style.fg.is_none()));
}

#[test]
fn highlights_markdown_uri_autolinks() {
    let text = highlight(
        "See <https://github.com/pbek/QOwnNotes/issues/3690> and <span>.",
        &Theme::default(),
    );

    assert_eq!(
        text.lines[0].spans[1].content,
        "<https://github.com/pbek/QOwnNotes/issues/3690>"
    );
    assert_eq!(text.lines[0].spans[1].style.fg, Some(Color::LightBlue));
    assert!(text.lines[0].spans[1].style.add_modifier.underlined);
    assert_eq!(text.lines[0].spans[3].content, "<");
    assert_eq!(text.lines[0].spans[3].style.fg, None);
}

#[test]
fn highlights_emphasis_and_quotes() {
    let text = highlight("**bold** *it* **open\n> quote\n## Sub", &Theme::default());
    let spans = &text.lines[0].spans;
    assert_eq!(spans[0].content, "**bold**");
    assert!(spans[0].style.add_modifier.bold);
    assert_eq!(spans[2].content, "*it*");
    assert!(spans[2].style.add_modifier.italic);
    assert_eq!(spans[4].content, "*");
    assert!(!spans[4].style.add_modifier.bold);
    assert_eq!(text.lines[1].style.fg, Some(Color::Blue));
    assert!(text.lines[1].style.add_modifier.italic);
    assert_eq!(text.lines[2].style.fg, Some(Color::Cyan));
}

#[test]
fn highlighting_keeps_every_character() {
    let source = "# T\n\n- [x] a `b` [[c]] [d](e) <f:g> **h**\n```\nx\n```\r\nend";
    let text = highlight(source, &Theme::default());
    let rebuilt = text
        .lines
        .iter()
        .map(|line| line.spans.iter().map(|s| s.content.as_str()).collect::<String>())
        .collect::<Vec<_>>()
        .join("\n");
    assert_eq!(rebuilt, source);
}

#[test]
fn highlights_a_multiline_selection_over_markdown_styles() {
    let text = highlight_selection("# Heading\nplain `code` text", &Theme::default(), Some(2..18));

    let selected = text
        .lines
        .iter()
        .flat_map(|line| &line.spans)
        .filter(|span| span.style.add_modifier.reversed)
        .map(|span| span.content.as_str())
        .collect::<String>();

    assert_eq!(selected, "Headingplain `c");
}

#[test]
fn selection_metadata_tracks_grapheme_byte_ranges() {
    let text = selection_metadata("a\u{301}b\n");

    let first = &text.lines[0].spans[0];
    assert_eq!(decode_source_offset(first.style.fg.unwrap()), Some(0));
    assert_eq!(decode_source_offset(first.style.bg.unwrap()), Some(3));
    let second = &text.lines[0].spans[1];
    assert_eq!(decode_source_offset(second.style.fg.unwrap()), Some(3));
    assert_eq!(decode_source_offset(second.style.bg.unwrap()), Some(4));
    assert!(
        text.lines[1].spans.is_empty(),
        "empty source lines must stay empty so wrapping matches the rendered text"
    );
}

#[test]
fn metadata_colors_encode_link_indices() {
    let source = "[[One]] and [[Two]]";
    let links = note_links(source);
    let text = link_metadata(source, &links);
    let spans = &text.lines[0].spans;
    assert_eq!(spans[0].content, "[[One]]");
    assert_eq!(color_link_id(spans[0].style.fg.unwrap()), Some(0));
    assert_eq!(spans[1].content, " and ");
    assert_eq!(spans[2].content, "[[Two]]");
    assert_eq!(color_link_id(spans[2].style.fg.unwrap()), Some(1));
}

#[test]
fn highlights_and_links_numeric_and_named_footnotes() {
    let source = "Text[^1] and again[^1]. Named[^source].\n\n[^1]: Number\n[^source]: Explanation";
    let text = highlight(source, &Theme::default());
    let links = note_links(source);

    let footnote_spans = text
        .lines
        .iter()
        .flat_map(|line| &line.spans)
        .filter(|span| span.content.starts_with("[^") && span.content.ends_with(']'))
        .collect::<Vec<_>>();
    assert_eq!(footnote_spans.len(), 5);
    assert!(footnote_spans
        .iter()
        .all(|span| span.style.fg == Some(Color::LightBlue) && span.style.add_modifier.underlined));
    assert_eq!(links.len(), 5);
    assert_eq!(links[0].target, NoteLinkTarget::SourceOffset(41));
    assert_eq!(links[1].target, NoteLinkTarget::SourceOffset(41));
    assert_eq!(links[2].target, NoteLinkTarget::SourceOffset(54));
    assert_eq!(links[3].target, NoteLinkTarget::SourceOffset(4));
    assert_eq!(links[4].target, NoteLinkTarget::SourceOffset(29));
}

#[test]
fn colors_carry_numbers_both_ways() {
    for n in [0usize, 1, 255, 256, 65_535, 0xff_fffe] {
        assert_eq!(decode_source_offset(encode_source_offset(n).unwrap()), Some(n));
        assert_eq!(color_link_id(link_id_color(n)), Some(n));
    }
    assert_eq!(encode_source_offset(0xff_ffff), None);
    assert_eq!(decode_source_offset(Color::Rgb(0, 0, 0)), None);
    assert_eq!(color_link_id(Color::Cyan), None);
    assert_eq!(link_id_color(0), Color::Rgb(0, 0, 1));
}
