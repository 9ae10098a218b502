use qownnotes_tui::notes::naming::{
    automatic_relative_path, initial_content, new_note_file_name, new_note_title, note_name, sanitize,
    strip_leading_emoji, NoteTime,
};

#[test]
fn formats_qownnotes_timestamp_title_and_heading() {
    let now = NoteTime {
        year: 2026,
        month: 8,
        day: 12,
        hour: 14,
        minute: 37,
        second: 5,
    };
    let title = new_note_title(now);

    assert_eq!(title, "Note 2026-08-12 14h37s05");
    assert_eq!(initial_content(&title), "# Note 2026-08-12 14h37s05\n\n");
}

#[test]
fn formats_years_outside_four_digits_with_a_sign() {
    let mut now = NoteTime {
        year: 12345,
        month: 1,
        day: 2,
        hour: 3,
        minute: 4,
        second: 5,
    };
    assert_eq!(new_note_title(now), "Note +12345-01-02 03h04s05");
    now.year = -5;
    assert_eq!(new_note_title(now), "Note -0005-01-02 03h04s05");
    now.year = 42;
    assert_eq!(new_note_title(now), "Note 0042-01-02 03h04s05");
}

#[test]
fn derives_sanitized_filename_from_first_meaningful_line() {
    assert_eq!(
        automatic_relative_path(
            "old.md",
            "---\ntags: test\n---\n# 🚀 Project: alpha/beta\\gamma\nbody",
            &vec![]
        ),
        "Project alphabetagamma.md"
    );
    assert_eq!(
        automatic_relative_path(
            "nested/old.txt",
            "<!-- metadata -->\nSetext title\n============",
            &vec![]
        ),
        "nested/Setext title.txt"
    );
}

#[test]
fn adds_a_suffix_when_the_derived_filename_exists() {
    let existing = vec!["project.md".to_string(), "Project 1.md".to_string()];
    assert_eq!(
        automatic_relative_path("old.md", "# Project\n", &existing),
        "Project 2.md"
    );
}

#[test]
fn keeps_the_current_file_when_only_its_case_differs() {
    let existing = vec!["project.md".to_string()];
    assert_eq!(
        automatic_relative_path("project.md", "# Project\n", &existing),
        "Project.md"
    );
}

#[test]
fn empty_content_names_the_note_note() {
    assert_eq!(note_name(""), "Note");
    assert_eq!(note_name("   \n\n"), "Note");
    assert_eq!(automatic_relative_path("x", "", &vec![]), "Note.md");
}

#[test]
fn sanitizing_drops_separators_and_squeezes_whitespace() {
    assert_eq!(sanitize("  a/b \t c:d\\e  "), "ab cde");
    assert_eq!(sanitize(" / "), "");
}

#[test]
fn strips_a_leading_emoji_and_the_space_after_it() {
    assert_eq!(strip_leading_emoji("🚀 Launch"), "Launch");
    assert_eq!(strip_leading_emoji("☀️ Sunny"), "Sunny");
    assert_eq!(strip_leading_emoji("Plain"), "Plain");
    assert_eq!(strip_leading_emoji(""), "");
}

#[test]
fn automatic_rename_adds_a_collision_suffix() {
    let existing = vec!["old.md".to_string(), "Project.md".to_string()];
    assert_eq!(
        automatic_relative_path("old.md", "# Project\nbody", &existing),
        "Project 1.md"
    );
}

#[test]
fn creates_a_timestamped_note_and_opens_it_for_editing() {
    let title = new_note_title(NoteTime {
        year: 2026,
        month: 1,
        day: 31,
        hour: 23,
        minute: 59,
        second: 59,
    });
    let filename = new_note_file_name(&title);
    assert_eq!(filename, format!("{title}.md"));
    assert!(filename.starts_with("Note "));
    assert!(filename.ends_with(".md"));
    let content = initial_content(&title);
    assert_eq!(content, format!("# {title}\n\n"));
    let editor = qownnotes_tui::editor::Editor::at_end(content.clone());
    assert_eq!(editor.cursor, content.len());
}

#[test]
fn editor_changes_and_saves_a_note() {
    let mut editor = qownnotes_tui::editor::Editor::at_end("content".to_string());
    editor.apply(qownnotes_tui::editor::EditCommand::Insert('!'), 1);
    assert_eq!(editor.content, "content!");
    let existing = vec!["note.md".to_string()];
    assert_eq!(
        automatic_relative_path("note.md", &editor.content, &existing),
        "content!.md"
    );
}
