use qownnotes_tui::links::{legacy_link_name, link_heading, normalize_relative_path, resolve_note_link};
use qownnotes_tui::markdown::NoteLinkTarget;

fn paths() -> Vec<String> {
    vec![
        "Other note.md".to_string(),
        "folder/Relative note.md".to_string(),
        "folder/Source.md".to_string(),
    ]
}

#[test]
fn resolves_qownnotes_note_link_formats() {
    let paths = paths();
    let current = Some("folder/Source.md");
    assert_eq!(
        resolve_note_link(
            &paths,
            "/notes",
            current,
            &NoteLinkTarget::Path("Relative%20note.md#Part".into())
        ),
        Some("folder/Relative note.md".into())
    );
    assert_eq!(
        resolve_note_link(&paths, "/notes", current, &NoteLinkTarget::Legacy("note://Other_note".into())),
        Some("Other note.md".into())
    );
    assert_eq!(
        resolve_note_link(
            &paths,
            "/notes",
            current,
            &NoteLinkTarget::Wiki("/Other note#Heading|label".into())
        ),
        Some("Other note.md".into())
    );
}

#[test]
fn resolves_absolute_and_parent_relative_links() {
    let paths = paths();
    let current = Some("folder/Source.md");
    assert_eq!(
        resolve_note_link(
            &paths,
            "/notes",
            current,
            &NoteLinkTarget::Path("file:///notes/other%20NOTE.md".into())
        ),
        Some("Other note.md".into())
    );
    assert_eq!(
        resolve_note_link(&paths, "/notes", current, &NoteLinkTarget::Path("../Other%20note.md".into())),
        Some("Other note.md".into())
    );
    assert_eq!(
        resolve_note_link(&paths, "/notes", current, &NoteLinkTarget::Path("../../x.md".into())),
        None
    );
    assert_eq!(
        resolve_note_link(&paths, "/notes", current, &NoteLinkTarget::Uri("https://x".into())),
        None
    );
}

#[test]
fn wiki_links_prefer_the_spelled_out_path_then_the_current_folder() {
    let paths = vec![
        "a/Topic.md".to_string(),
        "b/Topic.md".to_string(),
        "Topic.md".to_string(),
    ];
    assert_eq!(
        resolve_note_link(&paths, "/n", Some("b/Here.md"), &NoteLinkTarget::Wiki("Topic".into())),
        Some("b/Topic.md".into())
    );
    assert_eq!(
        resolve_note_link(&paths, "/n", Some("b/Here.md"), &NoteLinkTarget::Wiki("/a/Topic".into())),
        Some("a/Topic.md".into())
    );
    assert_eq!(
        resolve_note_link(&paths, "/n", None, &NoteLinkTarget::Wiki("topic".into())),
        Some("Topic.md".into())
    );
}

#[test]
fn normalizes_relative_paths_without_leaving_the_root() {
    assert_eq!(normalize_relative_path("a/b", "../c.md"), Some("a/c.md".into()));
    assert_eq!(normalize_relative_path("", "./x/y.md"), Some("x/y.md".into()));
    assert_eq!(normalize_relative_path("a", "../../c.md"), None);
}

#[test]
fn legacy_names_compare_alphanumerics_in_lower_case() {
    assert_eq!(legacy_link_name("Other note!"), "other_note_");
    assert_eq!(legacy_link_name("Ünïcode 1"), "ünïcode_1");
}

#[test]
fn markdown_links_carry_a_decoded_heading() {
    assert_eq!(
        link_heading(&NoteLinkTarget::Path("Target%20note.md#Section%20One".into())),
        Some("Section One".into())
    );
    assert_eq!(link_heading(&NoteLinkTarget::Path("note.md#".into())), None);
    assert_eq!(link_heading(&NoteLinkTarget::Wiki("a#b".into())), None);
}

#[test]
fn absolute_paths_are_not_normalized_against_a_folder() {
    assert_eq!(normalize_relative_path("", "/a"), None);
    assert_eq!(normalize_relative_path("notes", "/a/b.md"), None);
    assert_eq!(normalize_relative_path("notes", "a/b.md"), Some("notes/a/b.md".into()));
}

#[test]
fn dot_components_add_nothing_when_resolving() {
    assert_eq!(normalize_relative_path("a", "./b.md"), Some("a/b.md".into()));
    assert_eq!(normalize_relative_path("./a", "../b.md"), Some("./b.md".into()));
    assert_eq!(normalize_relative_path("a", "x/./y.md"), Some("a/x/y.md".into()));
}
