use qownnotes_tui::app::{
    save_plan, scan_applies, SavePlan,
    autosave_due,
    accepted_interval, adjust_interval, clamp_selection, decode_note, disk_check, DiskCheck, list_item_at, move_index,
    note_position, remove_note, scroll_viewer, type_interval_digit, update_saved_note,
    viewer_max_scroll, NoteReadError, Pane, Rect,
};
use qownnotes_tui::notes::model::Note;

fn note(path: &str) -> Note {
    Note {
        relative_path: path.to_string(),
        size: 0,
        modified: 0,
        search_text_lowercase: String::new(),
    }
}

#[test]
fn selection_stays_in_bounds() {
    assert_eq!(move_index(0, 0, 1), 0);
    assert_eq!(move_index(0, 3, -1), 0);
    assert_eq!(move_index(2, 3, 1), 2);
    assert_eq!(move_index(1, 3, 1), 2);
}

#[test]
fn selection_moves_by_large_steps_without_overflow() {
    assert_eq!(move_index(usize::MAX - 1, 5, isize::MAX), 4);
    assert_eq!(move_index(3, 5, isize::MIN), 0);
}

#[test]
fn maps_mouse_coordinates_to_visible_list_items() {
    let area = Rect {
        x: 10,
        y: 5,
        width: 20,
        height: 6,
    };
    assert_eq!(list_item_at(area, 11, 6, 3, 10), Some(3));
    assert_eq!(list_item_at(area, 11, 9, 3, 10), Some(6));
    assert_eq!(list_item_at(area, 10, 6, 3, 10), None);
    assert_eq!(list_item_at(area, 11, 10, 3, 10), None);
}

#[test]
fn viewer_scrolling_stays_in_bounds() {
    let scroll = scroll_viewer(0, 10, 4);
    assert_eq!(scroll, 4);
    let scroll = scroll_viewer(scroll, 10, 20);
    assert_eq!(scroll, 10);
    let scroll = scroll_viewer(scroll, 10, -20);
    assert_eq!(scroll, 0);
}

#[test]
fn viewer_max_scroll_counts_lines_beyond_the_viewport() {
    assert_eq!(viewer_max_scroll(30, 10), 20);
    assert_eq!(viewer_max_scroll(5, 10), 0);
    assert_eq!(viewer_max_scroll(1_000_000, 10), u16::MAX);
}

#[test]
fn panes_cycle_both_ways() {
    for pane in [Pane::Folders, Pane::Notes, Pane::Viewer] {
        assert_eq!(pane.next().previous(), pane);
        assert_eq!(pane.previous().next(), pane);
        assert_eq!(pane.next().next().next(), pane);
    }
    assert_eq!(Pane::Folders.next(), Pane::Notes);
    assert_eq!(Pane::Folders.previous(), Pane::Viewer);
}

#[test]
fn interval_arrows_adjust_and_keep_at_least_one_second() {
    assert_eq!(adjust_interval("10", 1), "11");
    assert_eq!(adjust_interval("1", -1), "1");
    assert_eq!(adjust_interval("abc", 1), "2");
    assert_eq!(adjust_interval("18446744073709551615", 1), "18446744073709551615");
    assert_eq!(adjust_interval("+7", -1), "6");
}

#[test]
fn interval_digits_replace_a_lone_zero() {
    let mut text = "0".to_string();
    type_interval_digit(&mut text, '5');
    assert_eq!(text, "5");
    type_interval_digit(&mut text, '0');
    assert_eq!(text, "50");
    assert_eq!(accepted_interval("50"), Some(50));
    assert_eq!(accepted_interval("0"), None);
    assert_eq!(accepted_interval(""), None);
}

#[test]
fn reads_notes_with_and_without_a_byte_order_mark() {
    assert_eq!(decode_note(b"plain", "a.md"), Ok("plain".to_string()));
    assert_eq!(
        decode_note(&[0xef, 0xbb, 0xbf, b'h', b'i'], "a.md"),
        Ok("hi".to_string())
    );
    assert_eq!(
        decode_note(&[0xff, 0xfe], "broken.md"),
        Err(NoteReadError::InvalidUtf8("broken.md".to_string()))
    );
}

#[test]
fn finds_and_removes_notes_by_path() {
    let notes = vec![note("a.md"), note("dir/b.md"), note("c.md")];
    assert_eq!(note_position(&notes, "dir/b.md"), Some(1));
    assert_eq!(note_position(&notes, "dir//b.md"), Some(1));
    assert_eq!(note_position(&notes, "missing.md"), None);
    let rest = remove_note(&notes, "dir/b.md");
    assert_eq!(
        rest.iter().map(|n| n.relative_path.as_str()).collect::<Vec<_>>(),
        ["a.md", "c.md"]
    );
    assert_eq!(clamp_selection(5, rest.len()), 1);
    assert_eq!(clamp_selection(0, 0), 0);
}

#[test]
fn a_saved_note_takes_its_new_path_and_text() {
    let mut notes = vec![note("old.md"), note("other.md")];
    update_saved_note(&mut notes, "old.md", "New.md", 7, 42, "new text");
    assert_eq!(notes[0].relative_path, "New.md");
    assert_eq!(notes[0].size, 7);
    assert_eq!(notes[0].modified, 42);
    assert_eq!(notes[0].search_text_lowercase, "new text");
    assert_eq!(notes[1].relative_path, "other.md");
}

#[test]
fn saved_text_reads_back_unless_it_starts_with_a_byte_order_mark() {
    let text = "# Grüße ✓\nline two";
    assert_eq!(decode_note(text.as_bytes(), "n.md"), Ok(text.to_string()));
    let marked = "\u{feff}body";
    assert_eq!(decode_note(marked.as_bytes(), "n.md"), Ok("body".to_string()));
}

#[test]
fn unsaved_edits_are_never_reloaded_over() {
    assert_eq!(disk_check(false, Some("same"), "same"), DiskCheck::Unchanged);
    assert_eq!(disk_check(true, Some("same"), "same"), DiskCheck::Unchanged);
    assert_eq!(disk_check(false, Some("changed"), "same"), DiskCheck::Reload);
    assert_eq!(disk_check(true, Some("changed"), "same"), DiskCheck::Conflict);
    assert_eq!(disk_check(false, None, "same"), DiskCheck::Conflict);
}

#[test]
fn reloads_an_unmodified_note_changed_outside_the_app() {
    assert_eq!(disk_check(false, Some("external"), "original"), DiskCheck::Reload);
    let reloaded = qownnotes_tui::editor::Editor::restore("external".to_string(), 8);
    assert_eq!(reloaded.content, "external");
}

#[test]
fn does_not_overwrite_an_external_change_with_dirty_content() {
    assert_eq!(disk_check(true, Some("external"), "original"), DiskCheck::Conflict);
}

#[test]
fn autosave_waits_for_the_interval_after_the_first_unsaved_edit() {
    let second: u128 = 1_000_000_000;
    assert!(!autosave_due(false, None, 10 * second));
    assert!(!autosave_due(true, Some(9 * second), 10 * second));
    assert!(autosave_due(true, Some(10 * second), 10 * second));
    assert!(autosave_due(true, Some(11 * second), 10 * second));
    assert!(!autosave_due(false, Some(11 * second), 10 * second));
}

#[test]
fn interval_text_parses_like_unsigned_integers() {
    assert_eq!(accepted_interval("+15"), Some(15));
    assert_eq!(accepted_interval("-1"), None);
    assert_eq!(accepted_interval("1x"), None);
    assert_eq!(accepted_interval(""), None);
    assert_eq!(accepted_interval("18446744073709551615"), Some(u64::MAX));
    assert_eq!(accepted_interval("18446744073709551616"), None);
    assert_eq!(adjust_interval("18446744073709551616", 1), "2");
}

#[test]
fn a_note_is_written_only_when_its_file_is_unchanged() {
    let existing = vec!["note.md".to_string()];
    assert_eq!(save_plan(false, DiskCheck::Unchanged, Some("note.md"), "x", &existing), SavePlan::Nothing);
    assert_eq!(save_plan(true, DiskCheck::Conflict, Some("note.md"), "x", &existing), SavePlan::Wait);
    assert_eq!(save_plan(true, DiskCheck::Unchanged, None, "x", &existing), SavePlan::Nothing);
    assert_eq!(
        save_plan(true, DiskCheck::Unchanged, Some("note.md"), "content!", &existing),
        SavePlan::Write { from: "note.md".to_string(), to: "content!.md".to_string() }
    );
}

#[test]
fn scans_of_a_folder_left_meanwhile_are_dropped() {
    assert!(scan_applies(2, 2));
    assert!(!scan_applies(1, 2));
}
