use qownnotes_tui::config::NoteSort;
use qownnotes_tui::notes::model::Note;
use qownnotes_tui::notes::search::{path_order_exec, search_terms, sort_notes};

fn note(path: &str, modified: i128, text: &str) -> Note {
    Note {
        relative_path: path.into(),
        size: 0,
        modified,
        search_text_lowercase: text.into(),
    }
}

#[test]
fn search_terms_keep_quoted_phrases_together() {
    assert_eq!(
        search_terms("project \"release plan\""),
        ["project", "release plan"]
    );
}

#[test]
fn sorts_notes_like_qownnotes() {
    let mut notes = vec![note("zebra.md", 0, ""), note("Alpha.md", 1_000_000_000, "")];
    sort_notes(&mut notes, NoteSort::LastModified);
    assert_eq!(notes[0].relative_path, "Alpha.md");
    sort_notes(&mut notes, NoteSort::Alphabetical { descending: true });
    assert_eq!(notes[0].relative_path, "zebra.md");
}

#[test]
fn note_name_is_the_file_stem() {
    assert_eq!(note("work/Plan.v2.md", 0, "").name(), "Plan.v2");
    assert_eq!(note(".hidden", 0, "").name(), ".hidden");
}

#[test]
fn searches_note_names_and_text_with_all_terms() {
    let notes = [
        note("Project Alpha.md", 0, "milestones"),
        note("meeting.md", 0, "project alpha release plan"),
        note("unrelated.md", 0, "project notes"),
    ];
    let terms = search_terms("project alpha");
    let matching: Vec<_> = notes.iter().filter(|n| n.matches_search(&terms)).map(|n| n.relative_path.as_str()).collect();
    assert_eq!(matching, ["Project Alpha.md", "meeting.md"]);
    let terms = search_terms("\"release plan\"");
    let matching: Vec<_> = notes.iter().filter(|n| n.matches_search(&terms)).map(|n| n.relative_path.as_str()).collect();
    assert_eq!(matching, ["meeting.md"]);
}

#[test]
fn paths_order_dot_components_before_names() {
    assert!(path_order_exec("./x", "-x") < 0);
    assert!(path_order_exec("../x", "-x") < 0);
    assert!(path_order_exec("./x", "../x") < 0);
    assert!(path_order_exec("/z", "a") < 0);
    assert_eq!(path_order_exec("a//b", "a/./b"), 0);
}
