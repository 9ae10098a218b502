use qownnotes_tui::app::Pane;
use qownnotes_tui::editor::{EditCommand, Editor};
use qownnotes_tui::history::{HistoryEntry, NoteHistory};
use qownnotes_tui::keys::{
    editor_action, key_action, Action, EditorAction, Key, KeyCode, KeyContext, KeyModifiers,
    SearchAction,
};

fn editor(content: &str, cursor: usize) -> Editor {
    Editor {
        content: content.to_string(),
        cursor,
    }
}

fn plain() -> KeyModifiers {
    KeyModifiers {
        shift: false,
        control: false,
        alt: false,
        other: false,
    }
}

fn key(code: KeyCode) -> Key {
    Key {
        code,
        modifiers: plain(),
        press: true,
    }
}

fn context() -> KeyContext {
    KeyContext {
        show_help: false,
        show_settings: false,
        confirm_delete: false,
        editing: false,
        searching: false,
        pane: Pane::Notes,
        has_note: true,
        has_query: false,
        cursor_at_start: false,
        cursor_at_end: false,
    }
}

#[test]
fn editor_page_keys_move_by_the_viewport_height() {
    let content = "zero\none\ntwo\nthree\nfour\nfive";
    let mut e = editor(content, "zero\non".len());
    e.apply(EditCommand::PageDown, 3);
    assert_eq!(&e.content[..e.cursor], "zero\none\ntwo\nthree\nfo");
    e.apply(EditCommand::PageUp, 3);
    assert_eq!(&e.content[..e.cursor], "zero\non");
}

#[test]
fn editor_control_home_and_end_move_to_note_boundaries() {
    let mut e = editor("first\nsecond\nthird", "first\nsec".len());
    let mut control = key(KeyCode::Home);
    control.modifiers.control = true;
    let Some(EditorAction::Edit(command)) = editor_action(control, false, false) else {
        panic!("Control+Home edits");
    };
    e.apply(command, 1);
    assert_eq!(e.cursor, 0);
    control.code = KeyCode::End;
    let Some(EditorAction::Edit(command)) = editor_action(control, false, false) else {
        panic!("Control+End edits");
    };
    e.apply(command, 1);
    assert_eq!(e.cursor, e.content.len());
}

#[test]
fn typing_and_backspace_restore_the_text() {
    let mut e = editor("héllo", "hé".len());
    e.apply(EditCommand::Insert('ß'), 1);
    assert_eq!(e.content, "héßllo");
    assert_eq!(e.cursor, "héß".len());
    e.apply(EditCommand::Backspace, 1);
    assert_eq!(e.content, "héllo");
    assert_eq!(e.cursor, "hé".len());
    e.apply(EditCommand::Tab, 1);
    assert_eq!(e.content, "hé    llo");
    e.apply(EditCommand::Delete, 1);
    assert_eq!(e.content, "hé    lo");
}

#[test]
fn home_end_and_vertical_moves_follow_lines() {
    let mut e = editor("ab\nlonger line\nxy", "ab\nlonger".len());
    e.apply(EditCommand::LineStart, 1);
    assert_eq!(e.cursor, "ab\n".len());
    e.apply(EditCommand::LineEnd, 1);
    assert_eq!(e.cursor, "ab\nlonger line".len());
    e.apply(EditCommand::Down, 1);
    assert_eq!(e.cursor, "ab\nlonger line\nxy".len());
    e.apply(EditCommand::Up, 1);
    assert_eq!(e.cursor, "ab\nlo".len());
    e.apply(EditCommand::Up, 1);
    assert_eq!(e.cursor, "ab".len());
    e.apply(EditCommand::Up, 1);
    assert_eq!(e.cursor, "ab".len());
}

#[test]
fn restoring_a_position_keeps_the_cursor_between_characters() {
    let e = Editor::restore("aé".to_string(), 2);
    assert_eq!(e.cursor, 1);
    let e = Editor::restore("ab".to_string(), 10);
    assert_eq!(e.cursor, 2);
}

#[test]
fn scrolling_follows_the_cursor() {
    let e = editor("one\ntwo\nthree\nfour", "one\ntwo\nthree\nfo".len());
    assert_eq!(e.scroll_to_cursor(0, 0, 10, 2), (3, 2, 2, 0));
    assert_eq!(e.scroll_to_cursor(3, 5, 10, 2), (3, 2, 3, 2));
}

#[test]
fn escape_clears_retained_search_and_restores_all_notes() {
    let mut cx = context();
    cx.has_query = true;
    assert_eq!(key_action(key(KeyCode::Esc), cx), Action::ClearSearch);
    cx.searching = true;
    assert_eq!(
        key_action(key(KeyCode::Esc), cx),
        Action::Search(SearchAction::Cancel)
    );
}

#[test]
fn e_on_note_list_opens_the_editor() {
    assert_eq!(key_action(key(KeyCode::Char('e')), context()), Action::StartEditing);
    let mut cx = context();
    cx.pane = Pane::Folders;
    assert_eq!(key_action(key(KeyCode::Char('e')), cx), Action::Nothing);
}

#[test]
fn deletion_requires_confirmation_and_can_be_cancelled() {
    assert_eq!(key_action(key(KeyCode::Char('d')), context()), Action::AskDelete);
    let mut cx = context();
    cx.confirm_delete = true;
    assert_eq!(key_action(key(KeyCode::Char('n')), cx), Action::CancelDelete);
    assert_eq!(key_action(key(KeyCode::Enter), cx), Action::DeleteNote);
    assert_eq!(key_action(key(KeyCode::Char('q')), cx), Action::Nothing);
}

#[test]
fn alt_arrows_walk_the_history_and_other_keys_dispatch_by_mode() {
    let mut alt_left = key(KeyCode::Left);
    alt_left.modifiers.alt = true;
    assert_eq!(key_action(alt_left, context()), Action::HistoryBack);
    alt_left.modifiers.shift = true;
    assert_eq!(key_action(alt_left, context()), Action::PreviousPane);
    let mut released = key(KeyCode::Char('q'));
    released.press = false;
    assert_eq!(key_action(released, context()), Action::Nothing);
    let mut cx = context();
    cx.editing = true;
    assert_eq!(
        key_action(key(KeyCode::Char('x')), cx),
        Action::Editor(EditorAction::Edit(EditCommand::Insert('x')))
    );
    cx.cursor_at_start = true;
    assert_eq!(key_action(key(KeyCode::Backspace), cx), Action::Nothing);
}

fn visit(path: &str, cursor: usize) -> HistoryEntry {
    HistoryEntry {
        path: path.to_string(),
        editor_cursor: cursor,
        editor_scroll: 0,
        editor_horizontal_scroll: 0,
        viewer_scroll: 0,
    }
}

#[test]
fn alt_arrows_navigate_history_and_restore_note_positions() {
    let mut history = NoteHistory::new();
    history.record(visit("first.md", 0));
    history.record(visit("second.md", 0));
    history.capture(visit("second.md", 4));
    let back = history.step_target(-1).unwrap();
    assert_eq!(back, 0);
    history.go_to(back);
    assert_eq!(history.entry(0).path, "first.md");
    let forward = history.step_target(1).unwrap();
    assert_eq!(forward, 1);
    history.go_to(forward);
    assert_eq!(history.entry(1).editor_cursor, 4);
    assert_eq!(history.step_target(1), None);
}

#[test]
fn selecting_a_note_after_going_back_discards_forward_history() {
    let mut history = NoteHistory::new();
    history.record(visit("first.md", 0));
    history.record(visit("second.md", 0));
    let back = history.step_target(-1).unwrap();
    history.go_to(back);
    history.record(visit("third.md", 0));
    assert_eq!(history.entries.len(), 2);
    assert_eq!(history.entries[1].path, "third.md");
    assert_eq!(history.index, Some(1));
}

#[test]
fn deleting_a_note_forgets_its_visits() {
    let mut history = NoteHistory::new();
    history.record(visit("a.md", 0));
    history.record(visit("b.md", 0));
    history.record(visit("a.md", 0));
    history.forget("a.md");
    assert_eq!(history.entries.len(), 1);
    assert_eq!(history.entries[0].path, "b.md");
    assert_eq!(history.index, Some(0));
}

#[test]
fn enter_on_note_moves_focus_to_viewer() {
    assert_eq!(key_action(key(KeyCode::Enter), context()), Action::OpenSelection);
    let mut cx = context();
    cx.show_help = true;
    assert_eq!(key_action(key(KeyCode::Enter), cx), Action::CloseHelp);
}

#[test]
fn renaming_a_saved_note_renames_its_visits() {
    let mut history = NoteHistory::new();
    history.record(visit("old.md", 3));
    history.record(visit("other.md", 0));
    history.record(visit("old.md", 5));
    history.rename("old.md", "New name.md");
    assert_eq!(history.entries[0].path, "New name.md");
    assert_eq!(history.entries[0].editor_cursor, 3);
    assert_eq!(history.entries[1].path, "other.md");
    assert_eq!(history.entries[2].path, "New name.md");
    assert_eq!(history.index, Some(2));
}
