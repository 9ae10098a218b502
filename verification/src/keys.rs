//! What a key press or a mouse event asks of the note browser, given the
//! state it finds the browser in.

use vstd::prelude::*;

use crate::app::{spec_list_item_at, list_item_at, Pane, Rect, inside_border};
use crate::editor::EditCommand;

verus! {

/// The key of a key event.
#[derive(Clone, Copy, Debug, PartialEq, Eq, Structural)]
pub enum KeyCode {
    Char(char),
    Enter,
    Esc,
    Tab,
    Backspace,
    Delete,
    Left,
    Right,
    Up,
    Down,
    PageUp,
    PageDown,
    Home,
    End,
    /// Any other key.
    Other,
}

/// The modifier keys held during a key event.
#[derive(Clone, Copy, Debug, PartialEq, Eq, Structural)]
pub struct KeyModifiers {
    pub shift: bool,
    pub control: bool,
    pub alt: bool,
    /// Super, hyper or meta.
    pub other: bool,
}

/// A key event; `press` is false for repeats and releases.
#[derive(Clone, Copy, Debug, PartialEq, Eq, Structural)]
pub struct Key {
    pub code: KeyCode,
    pub modifiers: KeyModifiers,
    pub press: bool,
}

/// What the browser shows and holds when a key arrives.
#[derive(Clone, Copy, Debug, PartialEq, Eq, Structural)]
pub struct KeyContext {
    pub show_help: bool,
    pub show_settings: bool,
    pub confirm_delete: bool,
    pub editing: bool,
    pub searching: bool,
    pub pane: Pane,
    /// A note is open.
    pub has_note: bool,
    /// A search query is kept.
    pub has_query: bool,
    /// The editor cursor is at the start of the text.
    pub cursor_at_start: bool,
    /// The editor cursor is at the end of the text.
    pub cursor_at_end: bool,
}

/// A key in the settings dialog.
#[derive(Clone, Copy, Debug, PartialEq, Eq, Structural)]
pub enum SettingsAction {
    Close,
    Accept,
    Digit(char),
    Pop,
    Adjust(i64),
}

/// A key while typing a search.
#[derive(Clone, Copy, Debug, PartialEq, Eq, Structural)]
pub enum SearchAction {
    Cancel,
    Finish,
    Pop,
    Push(char),
}

/// A key in the editor.
#[derive(Clone, Copy, Debug, PartialEq, Eq, Structural)]
pub enum EditorAction {
    Save,
    Reload,
    /// Save, and leave the editor when that succeeds.
    Exit,
    Edit(EditCommand),
}

/// What a key asks for.
#[derive(Clone, Copy, Debug, PartialEq, Eq, Structural)]
pub enum Action {
    Nothing,
    CloseHelp,
    Settings(SettingsAction),
    DeleteNote,
    CancelDelete,
    /// Save, and quit when nothing is left unsaved.
    SaveAndQuitWhenClean,
    HistoryBack,
    HistoryForward,
    Editor(EditorAction),
    Search(SearchAction),
    SaveAndQuit,
    ShowHelp,
    ShowSettings,
    CreateNote,
    AskDelete,
    StartSearch,
    ClearSearch,
    StartEditing,
    MoveSelection(i8),
    ScrollPage { down: bool },
    ViewerTop,
    ViewerBottom,
    PreviousPane,
    NextPane,
    OpenSelection,
    Rescan,
}

pub open spec fn control_or_alt(m: KeyModifiers) -> bool {
    m.control || m.alt
}

/// Exactly Alt held.
pub open spec fn only_alt(m: KeyModifiers) -> bool {
    m.alt && !m.shift && !m.control && !m.other
}

/// A key in the settings dialog.
pub open spec fn spec_settings_action(k: Key) -> Option<SettingsAction> {
    match k.code {
        KeyCode::Esc => Some(SettingsAction::Close),
        KeyCode::Enter => Some(SettingsAction::Accept),
        KeyCode::Char(c) => if '0' <= c <= '9' {
            Some(SettingsAction::Digit(c))
        } else {
            None
        },
        KeyCode::Backspace => Some(SettingsAction::Pop),
        KeyCode::Up => Some(SettingsAction::Adjust(1i64)),
        KeyCode::Down => Some(SettingsAction::Adjust(-1i64)),
        _ => None,
    }
}

/// A key while typing a search: characters typed without Control or Alt
/// extend the query.
pub open spec fn spec_search_action(k: Key) -> Option<SearchAction> {
    match k.code {
        KeyCode::Esc => Some(SearchAction::Cancel),
        KeyCode::Enter => Some(SearchAction::Finish),
        KeyCode::Backspace => Some(SearchAction::Pop),
        KeyCode::Char(c) => if !control_or_alt(k.modifiers) {
            Some(SearchAction::Push(c))
        } else {
            None
        },
        _ => None,
    }
}

/// A key in the editor: Control+S saves, Control+R reloads, Esc leaves;
/// other keys edit or move the cursor (Backspace only after the start,
/// Delete only before the end; Control+Home and Control+End go to the
/// ends of the note).
pub open spec fn spec_editor_action(k: Key, at_start: bool, at_end: bool) -> Option<EditorAction> {
    if k.code == KeyCode::Char('s') && k.modifiers.control {
        Some(EditorAction::Save)
    } else if k.code == KeyCode::Char('r') && k.modifiers.control {
        Some(EditorAction::Reload)
    } else {
        match k.code {
            KeyCode::Esc => Some(EditorAction::Exit),
            KeyCode::Char(c) => if !control_or_alt(k.modifiers) {
                Some(EditorAction::Edit(EditCommand::Insert(c)))
            } else {
                None
            },
            KeyCode::Enter => Some(EditorAction::Edit(EditCommand::Newline)),
            KeyCode::Tab => Some(EditorAction::Edit(EditCommand::Tab)),
            KeyCode::Backspace => if !at_start {
                Some(EditorAction::Edit(EditCommand::Backspace))
            } else {
                None
            },
            KeyCode::Delete => if !at_end {
                Some(EditorAction::Edit(EditCommand::Delete))
            } else {
                None
            },
            KeyCode::Left => Some(EditorAction::Edit(EditCommand::Left)),
            KeyCode::Right => Some(EditorAction::Edit(EditCommand::Right)),
            KeyCode::Up => Some(EditorAction::Edit(EditCommand::Up)),
            KeyCode::Down => Some(EditorAction::Edit(EditCommand::Down)),
            KeyCode::PageUp => Some(EditorAction::Edit(EditCommand::PageUp)),
            KeyCode::PageDown => Some(EditorAction::Edit(EditCommand::PageDown)),
            KeyCode::Home => if k.modifiers.control {
                Some(EditorAction::Edit(EditCommand::DocumentStart))
            } else {
                Some(EditorAction::Edit(EditCommand::LineStart))
            },
            KeyCode::End => if k.modifiers.control {
                Some(EditorAction::Edit(EditCommand::DocumentEnd))
            } else {
                Some(EditorAction::Edit(EditCommand::LineEnd))
            },
            _ => None,
        }
    }
}

/// A key in the note lists and the viewer.
pub open spec fn spec_browse_action(k: Key, cx: KeyContext) -> Action {
    match k.code {
        KeyCode::Char('q') => Action::SaveAndQuit,
        KeyCode::Char('?') => Action::ShowHelp,
        KeyCode::Char('s') => Action::ShowSettings,
        KeyCode::Char('n') => Action::CreateNote,
        KeyCode::Char('d') => if cx.has_note {
            Action::AskDelete
        } else {
            Action::Nothing
        },
        KeyCode::Char('/') => Action::StartSearch,
        KeyCode::Esc => if cx.has_query {
            Action::ClearSearch
        } else {
            Action::Nothing
        },
        KeyCode::Char('e') => if (cx.pane == Pane::Notes || cx.pane == Pane::Viewer) && cx.has_note {
            Action::StartEditing
        } else {
            Action::Nothing
        },
        KeyCode::Char('j') | KeyCode::Down => Action::MoveSelection(1i8),
        KeyCode::Char('k') | KeyCode::Up => Action::MoveSelection(-1i8),
        KeyCode::PageDown => Action::ScrollPage { down: true },
        KeyCode::PageUp => Action::ScrollPage { down: false },
        KeyCode::Home => if cx.pane == Pane::Viewer {
            Action::ViewerTop
        } else {
            Action::Nothing
        },
        KeyCode::End => if cx.pane == Pane::Viewer {
            Action::ViewerBottom
        } else {
            Action::Nothing
        },
        KeyCode::Char('h') | KeyCode::Left => Action::PreviousPane,
        KeyCode::Char('l') | KeyCode::Right | KeyCode::Tab => Action::NextPane,
        KeyCode::Enter => Action::OpenSelection,
        KeyCode::Char('R') => Action::Rescan,
        _ => Action::Nothing,
    }
}

/// What a key asks of the browser: releases do nothing; the help closes on
/// any key; the settings dialog and the delete confirmation take the keys
/// first; then Control+C, then Alt with Left or Right walks the history;
/// then the editor, the search line, and the lists and viewer.
pub open spec fn spec_key_action(k: Key, cx: KeyContext) -> Action {
    if !k.press {
        Action::Nothing
    } else if cx.show_help {
        Action::CloseHelp
    } else if cx.show_settings {
        match spec_settings_action(k) {
            Some(a) => Action::Settings(a),
            None => Action::Nothing,
        }
    } else if cx.confirm_delete {
        match k.code {
            KeyCode::Char('y') | KeyCode::Enter => Action::DeleteNote,
            KeyCode::Char('n') | KeyCode::Esc => Action::CancelDelete,
            _ => Action::Nothing,
        }
    } else if k.code == KeyCode::Char('c') && k.modifiers.control {
        Action::SaveAndQuitWhenClean
    } else if only_alt(k.modifiers) && k.code == KeyCode::Left {
        Action::HistoryBack
    } else if only_alt(k.modifiers) && k.code == KeyCode::Right {
        Action::HistoryForward
    } else if cx.editing {
        match spec_editor_action(k, cx.cursor_at_start, cx.cursor_at_end) {
            Some(a) => Action::Editor(a),
            None => Action::Nothing,
        }
    } else if cx.searching {
        match spec_search_action(k) {
            Some(a) => Action::Search(a),
            None => Action::Nothing,
        }
    } else {
        spec_browse_action(k, cx)
    }
}

fn settings_action(k: Key) -> (r: Option<SettingsAction>)
    ensures
        r == spec_settings_action(k),
{
    match k.code {
        KeyCode::Esc => Some(SettingsAction::Close),
        KeyCode::Enter => Some(SettingsAction::Accept),
        KeyCode::Char(c) => if '0' <= c && c <= '9' {
            Some(SettingsAction::Digit(c))
        } else {
            None
        },
        KeyCode::Backspace => Some(SettingsAction::Pop),
        KeyCode::Up => Some(SettingsAction::Adjust(1)),
        KeyCode::Down => Some(SettingsAction::Adjust(-1)),
        _ => None,
    }
}

fn search_action(k: Key) -> (r: Option<SearchAction>)
    ensures
        r == spec_search_action(k),
{
    match k.code {
        KeyCode::Esc => Some(SearchAction::Cancel),
        KeyCode::Enter => Some(SearchAction::Finish),
        KeyCode::Backspace => Some(SearchAction::Pop),
        KeyCode::Char(c) => if !(k.modifiers.control || k.modifiers.alt) {
            Some(SearchAction::Push(c))
        } else {
            None
        },
        _ => None,
    }
}

/// What a key in the editor asks for (see [`spec_editor_action`]).
pub fn editor_action(k: Key, at_start: bool, at_end: bool) -> (r: Option<EditorAction>)
    ensures
        r == spec_editor_action(k, at_start, at_end),
{
    if k.code == KeyCode::Char('s') && k.modifiers.control {
        return Some(EditorAction::Save);
    }
    if k.code == KeyCode::Char('r') && k.modifiers.control {
        return Some(EditorAction::Reload);
    }
    match k.code {
        KeyCode::Esc => Some(EditorAction::Exit),
        KeyCode::Char(c) => if !(k.modifiers.control || k.modifiers.alt) {
            Some(EditorAction::Edit(EditCommand::Insert(c)))
        } else {
            None
        },
        KeyCode::Enter => Some(EditorAction::Edit(EditCommand::Newline)),
        KeyCode::Tab => Some(EditorAction::Edit(EditCommand::Tab)),
        KeyCode::Backspace => if !at_start {
            Some(EditorAction::Edit(EditCommand::Backspace))
        } else {
            None
        },
        KeyCode::Delete => if !at_end {
            Some(EditorAction::Edit(EditCommand::Delete))
        } else {
            None
        },
        KeyCode::Left => Some(EditorAction::Edit(EditCommand::Left)),
        KeyCode::Right => Some(EditorAction::Edit(EditCommand::Right)),
        KeyCode::Up => Some(EditorAction::Edit(EditCommand::Up)),
        KeyCode::Down => Some(EditorAction::Edit(EditCommand::Down)),
        KeyCode::PageUp => Some(EditorAction::Edit(EditCommand::PageUp)),
        KeyCode::PageDown => Some(EditorAction::Edit(EditCommand::PageDown)),
        KeyCode::Home => if k.modifiers.control {
            Some(EditorAction::Edit(EditCommand::DocumentStart))
        } else {
            Some(EditorAction::Edit(EditCommand::LineStart))
        },
        KeyCode::End => if k.modifiers.control {
            Some(EditorAction::Edit(EditCommand::DocumentEnd))
        } else {
            Some(EditorAction::Edit(EditCommand::LineEnd))
        },
        _ => None,
    }
}

fn browse_action(k: Key, cx: KeyContext) -> (r: Action)
    ensures
        r == spec_browse_action(k, cx),
{
    match k.code {
        KeyCode::Char('q') => Action::SaveAndQuit,
        KeyCode::Char('?') => Action::ShowHelp,
        KeyCode::Char('s') => Action::ShowSettings,
        KeyCode::Char('n') => Action::CreateNote,
        KeyCode::Char('d') => if cx.has_note {
            Action::AskDelete
        } else {
            Action::Nothing
        },
        KeyCode::Char('/') => Action::StartSearch,
        KeyCode::Esc => if cx.has_query {
            Action::ClearSearch
        } else {
            Action::Nothing
        },
        KeyCode::Char('e') => if (cx.pane == Pane::Notes || cx.pane == Pane::Viewer) && cx.has_note {
            Action::StartEditing
        } else {
            Action::Nothing
        },
        KeyCode::Char('j') | KeyCode::Down => Action::MoveSelection(1),
        KeyCode::Char('k') | KeyCode::Up => Action::MoveSelection(-1),
        KeyCode::PageDown => Action::ScrollPage { down: true },
        KeyCode::PageUp => Action::ScrollPage { down: false },
        KeyCode::Home => if cx.pane == Pane::Viewer {
            Action::ViewerTop
        } else {
            Action::Nothing
        },
        KeyCode::End => if cx.pane == Pane::Viewer {
            Action::ViewerBottom
        } else {
            Action::Nothing
        },
        KeyCode::Char('h') | KeyCode::Left => Action::PreviousPane,
        KeyCode::Char('l') | KeyCode::Right | KeyCode::Tab => Action::NextPane,
        KeyCode::Enter => Action::OpenSelection,
        KeyCode::Char('R') => Action::Rescan,
        _ => Action::Nothing,
    }
}

/// What a key asks of the browser (see [`spec_key_action`]).
pub fn key_action(k: Key, cx: KeyContext) -> (r: Action)
    ensures
        r == spec_key_action(k, cx),
{
    if !k.press {
        return Action::Nothing;
    }
    if cx.show_help {
        return Action::CloseHelp;
    }
    if cx.show_settings {
        return match settings_action(k) {
            Some(a) => Action::Settings(a),
            None => Action::Nothing,
        };
    }
    if cx.confirm_delete {
        return match k.code {
            KeyCode::Char('y') | KeyCode::Enter => Action::DeleteNote,
            KeyCode::Char('n') | KeyCode::Esc => Action::CancelDelete,
            _ => Action::Nothing,
        };
    }
    if k.code == KeyCode::Char('c') && k.modifiers.control {
        return Action::SaveAndQuitWhenClean;
    }
    let only_alt = k.modifiers.alt && !k.modifiers.shift && !k.modifiers.control && !k.modifiers.other;
    if only_alt && k.code == KeyCode::Left {
        return Action::HistoryBack;
    }
    if only_alt && k.code == KeyCode::Right {
        return Action::HistoryForward;
    }
    if cx.editing {
        return match editor_action(k, cx.cursor_at_start, cx.cursor_at_end) {
            Some(a) => Action::Editor(a),
            None => Action::Nothing,
        };
    }
    if cx.searching {
        return match search_action(k) {
            Some(a) => Action::Search(a),
            None => Action::Nothing,
        };
    }
    browse_action(k, cx)
}

// ---------------------------------------------------------------------------
// The mouse.

/// The kind of a mouse event.
#[derive(Clone, Copy, Debug, PartialEq, Eq, Structural)]
pub enum MouseKind {
    LeftDown,
    ScrollUp,
    ScrollDown,
    Other,
}

/// Where the panes are and what they show when a mouse event arrives.
#[derive(Clone, Copy, Debug, PartialEq, Eq, Structural)]
pub struct MouseContext {
    pub editing: bool,
    pub show_settings: bool,
    pub confirm_delete: bool,
    pub show_help: bool,
    pub folder_area: Rect,
    pub notes_area: Rect,
    pub viewer_area: Rect,
    pub folder_offset: usize,
    pub folder_count: usize,
    pub note_offset: usize,
    pub note_count: usize,
}

/// What a mouse event asks for.
#[derive(Clone, Copy, Debug, PartialEq, Eq, Structural)]
pub enum MouseAction {
    Nothing,
    CloseHelp,
    /// A click in the viewer, at this cell.
    ViewerClick { column: u16, row: u16 },
    SelectFolder(usize),
    SelectNote(usize),
    ScrollViewer(i8),
    ScrollNotes(i8),
    ScrollFolders(i8),
}

/// Whether the cell lies in `area`.
pub open spec fn area_contains(area: Rect, column: int, row: int) -> bool {
    &&& column >= area.x
    &&& column < crate::app::saturating_add_u16(area.x as int, area.width as int)
    &&& row >= area.y
    &&& row < crate::app::saturating_add_u16(area.y as int, area.height as int)
}

/// The mouse moves nothing while editing or in a dialog; with the help
/// shown a click closes it; a click in the viewer focuses it (and may
/// follow a link), a click on a list item selects it; the wheel scrolls
/// the pane under the pointer by three lines.
pub open spec fn spec_mouse_action(kind: MouseKind, column: u16, row: u16, cx: MouseContext) -> MouseAction {
    if cx.editing || cx.show_settings || cx.confirm_delete {
        MouseAction::Nothing
    } else if cx.show_help {
        if kind == MouseKind::LeftDown {
            MouseAction::CloseHelp
        } else {
            MouseAction::Nothing
        }
    } else {
        match kind {
            MouseKind::LeftDown => if area_contains(cx.viewer_area, column as int, row as int) {
                MouseAction::ViewerClick { column, row }
            } else {
                match spec_list_item_at(
                    cx.folder_area,
                    column as int,
                    row as int,
                    cx.folder_offset as int,
                    cx.folder_count as int,
                ) {
                    Some(i) => MouseAction::SelectFolder(i as usize),
                    None => match spec_list_item_at(
                        cx.notes_area,
                        column as int,
                        row as int,
                        cx.note_offset as int,
                        cx.note_count as int,
                    ) {
                        Some(i) => MouseAction::SelectNote(i as usize),
                        None => MouseAction::Nothing,
                    },
                }
            },
            MouseKind::ScrollUp | MouseKind::ScrollDown => {
                let delta: i8 = if kind == MouseKind::ScrollUp {
                    -3i8
                } else {
                    3i8
                };
                if area_contains(cx.viewer_area, column as int, row as int) {
                    MouseAction::ScrollViewer(delta)
                } else if area_contains(cx.notes_area, column as int, row as int) {
                    MouseAction::ScrollNotes(delta)
                } else if area_contains(cx.folder_area, column as int, row as int) {
                    MouseAction::ScrollFolders(delta)
                } else {
                    MouseAction::Nothing
                }
            },
            MouseKind::Other => MouseAction::Nothing,
        }
    }
}

fn area_contains_exec(area: Rect, column: u16, row: u16) -> (b: bool)
    ensures
        b == area_contains(area, column as int, row as int),
{
    column >= area.x && column < area.x.saturating_add(area.width) && row >= area.y && row < area.y.saturating_add(
        area.height,
    )
}

/// What a mouse event asks for (see [`spec_mouse_action`]).
pub fn mouse_action(kind: MouseKind, column: u16, row: u16, cx: MouseContext) -> (r: MouseAction)
    requires
        inside_border(cx.folder_area, column as int, row as int) ==> cx.folder_offset + (row - cx.folder_area.y - 1)
            <= usize::MAX,
        inside_border(cx.notes_area, column as int, row as int) ==> cx.note_offset + (row - cx.notes_area.y - 1)
            <= usize::MAX,
    ensures
        r == spec_mouse_action(kind, column, row, cx),
{
    if cx.editing || cx.show_settings || cx.confirm_delete {
        return MouseAction::Nothing;
    }
    if cx.show_help {
        return if kind == MouseKind::LeftDown {
            MouseAction::CloseHelp
        } else {
            MouseAction::Nothing
        };
    }
    match kind {
        MouseKind::LeftDown => {
            if area_contains_exec(cx.viewer_area, column, row) {
                return MouseAction::ViewerClick { column, row };
            }
            match list_item_at(cx.folder_area, column, row, cx.folder_offset, cx.folder_count) {
                Some(i) => MouseAction::SelectFolder(i),
                None => match list_item_at(cx.notes_area, column, row, cx.note_offset, cx.note_count) {
                    Some(i) => MouseAction::SelectNote(i),
                    None => MouseAction::Nothing,
                },
            }
        },
        MouseKind::ScrollUp | MouseKind::ScrollDown => {
            let delta: i8 = if kind == MouseKind::ScrollUp {
                -3
            } else {
                3
            };
            if area_contains_exec(cx.viewer_area, column, row) {
                MouseAction::ScrollViewer(delta)
            } else if area_contains_exec(cx.notes_area, column, row) {
                MouseAction::ScrollNotes(delta)
            } else if area_contains_exec(cx.folder_area, column, row) {
                MouseAction::ScrollFolders(delta)
            } else {
                MouseAction::Nothing
            }
        },
        MouseKind::Other => MouseAction::Nothing,
    }
}

/// While browsing (no dialog, not editing, not searching), `j` and Down move
/// the selection one step down and `k` and Up one step up, whatever
/// modifiers are held; a released key moves nothing.
pub proof fn lemma_browse_moves(m: KeyModifiers, cx: KeyContext, code: KeyCode)
    requires
        !cx.show_help,
        !cx.show_settings,
        !cx.confirm_delete,
        !cx.editing,
        !cx.searching,
    ensures
        spec_key_action(Key { code: KeyCode::Char('j'), modifiers: m, press: true }, cx) == Action::MoveSelection(1i8),
        spec_key_action(Key { code: KeyCode::Down, modifiers: m, press: true }, cx) == Action::MoveSelection(1i8),
        spec_key_action(Key { code: KeyCode::Char('k'), modifiers: m, press: true }, cx) == Action::MoveSelection(-1i8),
        spec_key_action(Key { code: KeyCode::Up, modifiers: m, press: true }, cx) == Action::MoveSelection(-1i8),
        spec_key_action(Key { code, modifiers: m, press: false }, cx) == Action::Nothing,
{
}

} // verus!
