//! The rules of the note browser: panes, list selection and scrolling,
//! mouse hits, the save-interval setting, and reading note files.

use vstd::prelude::*;
use vstd::utf8::{
    char_is_scalar, char_u32_cast, decode_utf8, encode_scalar, encode_utf8, encode_utf8_decode_utf8,
    encode_utf8_valid_utf8, has_width_1_encoding, has_width_2_encoding, has_width_3_encoding, valid_utf8,
};

use crate::notes::model::{notes_view, Note, NoteModel};
use crate::notes::search::copy_note;
use crate::notes::naming::{automatic_relative_path, spec_automatic_relative_path};
use crate::path::{path_eq, path_eq_exec};
use crate::text::{strings_view, all_ascii_digits, chars_eq, chars_of, parse_digits, digits_value, is_ascii_digit, push_char, push_decimal, decimal, utf8_text};

verus! {

broadcast use vstd::string::group_string_axioms;

/// The pane that has the focus.
#[derive(Clone, Copy, Debug, PartialEq, Eq, Structural)]
pub enum Pane {
    Folders,
    Notes,
    Viewer,
}

/// The pane after `pane`: folders, notes, viewer, and round again.
pub open spec fn spec_next_pane(pane: Pane) -> Pane {
    match pane {
        Pane::Folders => Pane::Notes,
        Pane::Notes => Pane::Viewer,
        Pane::Viewer => Pane::Folders,
    }
}

/// The pane before `pane`.
pub open spec fn spec_previous_pane(pane: Pane) -> Pane {
    match pane {
        Pane::Folders => Pane::Viewer,
        Pane::Notes => Pane::Folders,
        Pane::Viewer => Pane::Notes,
    }
}

impl Pane {
    /// The pane that `Tab` or `l` moves the focus to.
    pub fn next(self) -> (r: Pane)
        ensures
            r == spec_next_pane(self),
    {
        match self {
            Pane::Folders => Pane::Notes,
            Pane::Notes => Pane::Viewer,
            Pane::Viewer => Pane::Folders,
        }
    }

    /// The pane that `h` moves the focus to.
    pub fn previous(self) -> (r: Pane)
        ensures
            r == spec_previous_pane(self),
    {
        match self {
            Pane::Folders => Pane::Viewer,
            Pane::Notes => Pane::Folders,
            Pane::Viewer => Pane::Notes,
        }
    }
}

/// Moving the focus forward and back, in either order, returns to the same
/// pane, and three steps forward come round to the start.
pub proof fn lemma_pane_cycle(pane: Pane)
    ensures
        spec_previous_pane(spec_next_pane(pane)) == pane,
        spec_next_pane(spec_previous_pane(pane)) == pane,
        spec_next_pane(spec_next_pane(spec_next_pane(pane))) == pane,
{
}

// ---------------------------------------------------------------------------
// Selection and scrolling.

/// `current + delta`, saturated to the range of `usize`.
pub open spec fn saturating_add_signed(current: int, delta: int) -> int {
    if current + delta < 0 {
        0
    } else if current + delta > usize::MAX {
        usize::MAX as int
    } else {
        current + delta
    }
}

/// The selected index after moving by `delta` in a list of `count` items:
/// it stays in `0..count` (0 when the list is empty).
pub open spec fn spec_move_index(current: int, count: int, delta: int) -> int {
    if count == 0 {
        0
    } else {
        let moved = saturating_add_signed(current, delta);
        if moved < count - 1 {
            moved
        } else {
            count - 1
        }
    }
}

fn add_signed(current: usize, delta: isize) -> (r: usize)
    ensures
        r == saturating_add_signed(current as int, delta as int),
{
    if delta >= 0 {
        current.saturating_add(delta as usize)
    } else {
        let magnitude = ((-(delta + 1)) as usize) + 1;
        current.saturating_sub(magnitude)
    }
}

/// The selected index after moving by `delta` (see [`spec_move_index`]).
pub fn move_index(current: usize, count: usize, delta: isize) -> (r: usize)
    ensures
        r == spec_move_index(current as int, count as int, delta as int),
        count > 0 ==> r < count,
{
    if count == 0 {
        return 0;
    }
    let moved = add_signed(current, delta);
    if moved < count - 1 {
        moved
    } else {
        count - 1
    }
}

/// The viewer's scroll position after scrolling by `delta` lines: the step
/// is limited to the range of `i16`, and the position stays in
/// `0..=max_scroll`.
pub open spec fn spec_scroll_viewer(scroll: int, max_scroll: int, delta: int) -> int {
    let step = if delta < i16::MIN {
        i16::MIN as int
    } else if delta > i16::MAX {
        i16::MAX as int
    } else {
        delta
    };
    let moved = if scroll + step < 0 {
        0
    } else if scroll + step > u16::MAX {
        u16::MAX as int
    } else {
        scroll + step
    };
    if moved < max_scroll {
        moved
    } else {
        max_scroll
    }
}

/// The viewer's scroll position after scrolling (see
/// [`spec_scroll_viewer`]).
pub fn scroll_viewer(scroll: u16, max_scroll: u16, delta: isize) -> (r: u16)
    ensures
        r == spec_scroll_viewer(scroll as int, max_scroll as int, delta as int),
        r <= max_scroll,
{
    let step: i32 = if delta < -32768 {
        -32768
    } else if delta > 32767 {
        32767
    } else {
        delta as i32
    };
    let sum: i32 = scroll as i32 + step;
    let moved: u16 = if sum < 0 {
        0
    } else if sum > 65535 {
        65535
    } else {
        sum as u16
    };
    if moved < max_scroll {
        moved
    } else {
        max_scroll
    }
}

/// A rectangle of terminal cells.
#[derive(Clone, Copy, Debug, PartialEq, Eq, Structural, Default)]
pub struct Rect {
    pub x: u16,
    pub y: u16,
    pub width: u16,
    pub height: u16,
}

/// `a + b`, saturated to the range of `u16`.
pub open spec fn saturating_add_u16(a: int, b: int) -> int {
    if a + b > u16::MAX {
        u16::MAX as int
    } else {
        a + b
    }
}

/// `a - b`, saturated at 0.
pub open spec fn saturating_sub(a: int, b: int) -> int {
    if a - b < 0 {
        0
    } else {
        a - b
    }
}

/// Whether the cell lies strictly inside the border of `area`.
pub open spec fn inside_border(area: Rect, column: int, row: int) -> bool {
    &&& column > area.x
    &&& column < saturating_sub(saturating_add_u16(area.x as int, area.width as int), 1)
    &&& row > area.y
    &&& row < saturating_sub(saturating_add_u16(area.y as int, area.height as int), 1)
}

/// The index of the list item shown at a cell of a bordered list whose
/// first visible item is `offset`, when the cell is inside the border and
/// shows one of the `count` items.
pub open spec fn spec_list_item_at(area: Rect, column: int, row: int, offset: int, count: int) -> Option<int> {
    if !inside_border(area, column, row) {
        None
    } else {
        let index = offset + (row - area.y - 1);
        if index < count {
            Some(index)
        } else {
            None
        }
    }
}

/// The list item under a mouse cell (see [`spec_list_item_at`]).
pub fn list_item_at(area: Rect, column: u16, row: u16, offset: usize, count: usize) -> (r: Option<usize>)
    requires
        inside_border(area, column as int, row as int) ==> offset + (row - area.y - 1) <= usize::MAX,
    ensures
        match spec_list_item_at(area, column as int, row as int, offset as int, count as int) {
            Some(i) => r == Some(i as usize),
            None => r is None,
        },
{
    let right = area.x.saturating_add(area.width);
    let bottom = area.y.saturating_add(area.height);
    let inside = column > area.x && column < right.saturating_sub(1) && row > area.y && row < bottom.saturating_sub(1);
    if !inside {
        return None;
    }
    let index = offset + ((row - area.y - 1) as usize);
    if index < count {
        Some(index)
    } else {
        None
    }
}

// ---------------------------------------------------------------------------
// The save-interval setting.

/// What `str::parse::<u64>` accepts: an optional `+`, then at least one
/// ASCII digit, and a value in range.
pub open spec fn spec_parse_u64(s: Seq<char>) -> Option<u64> {
    let d = if s.len() > 0 && s[0] == '+' {
        s.skip(1)
    } else {
        s
    };
    if d.len() > 0 && all_ascii_digits(d) && digits_value(d)
        <= u64::MAX {
        Some(digits_value(d) as u64)
    } else {
        None
    }
}

/// What `str::parse::<u64>` gives (see [`spec_parse_u64`]).
fn parse_u64(s: &str) -> (r: Option<u64>)
    ensures
        r == spec_parse_u64(s@),
{
    let c = chars_of(s);
    let from: usize = if c.len() > 0 && c[0] == '+' {
        1
    } else {
        0
    };
    assert(s@.skip(0) =~= s@);
    parse_digits(c.as_slice(), from, 0xffff_ffff_ffff_ffff)
}

/// The interval text after the arrow keys change it by `delta` seconds:
/// the number it holds (1 when it holds none) moved by `delta`, saturated,
/// and at least 1 when lowered.
pub open spec fn spec_adjust_interval(text: Seq<char>, delta: int) -> Seq<char> {
    let current: int = match spec_parse_u64(text) {
        Some(v) => v as int,
        None => 1,
    };
    let value = if delta > 0 {
        if current + delta > u64::MAX {
            u64::MAX as int
        } else {
            current + delta
        }
    } else {
        let lowered = if current + delta < 0 {
            0
        } else {
            current + delta
        };
        if lowered < 1 {
            1
        } else {
            lowered
        }
    };
    decimal(value as nat)
}

/// The interval text after an arrow key (see [`spec_adjust_interval`]).
pub fn adjust_interval(text: &str, delta: i64) -> (r: String)
    ensures
        r@ == spec_adjust_interval(text@, delta as int),
{
    let current = match parse_u64(text) {
        Some(v) => v,
        None => 1,
    };
    let value = if delta > 0 {
        current.saturating_add(delta as u64)
    } else {
        let magnitude: u64 = if delta < 0 {
            ((-(delta + 1)) as u64) + 1
        } else {
            0
        };
        let lowered = current.saturating_sub(magnitude);
        if lowered < 1 {
            1
        } else {
            lowered
        }
    };
    let mut r = String::new();
    push_decimal(&mut r, value);
    r
}

/// The interval text after typing the digit `c`: a lone `0` is replaced.
pub open spec fn spec_type_interval_digit(text: Seq<char>, c: char) -> Seq<char> {
    if text == seq!['0'] {
        seq![c]
    } else {
        text.push(c)
    }
}

/// Types a digit into the interval text (see [`spec_type_interval_digit`]).
pub fn type_interval_digit(text: &mut String, c: char)
    ensures
        final(text)@ == spec_type_interval_digit(old(text)@, c),
{
    let t = chars_of(text.as_str());
    if t.len() == 1 && t[0] == '0' {
        *text = String::new();
        assert(t@ =~= seq!['0']);
    } else {
        proof {
            if t@ == seq!['0'] {
                assert(t@.len() == 1);
            }
        }
    }
    push_char(text, c);
}

/// The interval that the settings dialog accepts: a number of seconds of
/// at least 1.
pub open spec fn spec_accepted_interval(text: Seq<char>) -> Option<u64> {
    match spec_parse_u64(text) {
        Some(v) => if v > 0 {
            Some(v)
        } else {
            None
        },
        None => None,
    }
}

/// The interval the settings dialog accepts (see
/// [`spec_accepted_interval`]).
pub fn accepted_interval(text: &str) -> (r: Option<u64>)
    ensures
        r == spec_accepted_interval(text@),
{
    match parse_u64(text) {
        Some(v) => if v > 0 {
            Some(v)
        } else {
            None
        },
        None => None,
    }
}

/// The save interval in seconds that a configured value gives: at least 1.
pub fn effective_save_interval(seconds: u64) -> (r: u64)
    ensures
        r == if seconds < 1 {
            1
        } else {
            seconds
        },
{
    if seconds < 1 {
        1
    } else {
        seconds
    }
}

/// Whether the open note is due to be saved automatically: it holds unsaved
/// edits, and has held them (`unsaved_for`, `None` when it holds none) for
/// at least the save interval.  Both durations are in nanoseconds.
pub fn autosave_due(dirty: bool, unsaved_for: Option<u128>, interval: u128) -> (r: bool)
    ensures
        r == match unsaved_for {
            Some(elapsed) => dirty && elapsed >= interval,
            None => false,
        },
{
    match unsaved_for {
        Some(elapsed) => dirty && elapsed >= interval,
        None => false,
    }
}

// ---------------------------------------------------------------------------
// Reading notes.

/// Why a note could not be read.
#[derive(Clone, Debug, PartialEq, Eq)]
pub enum NoteReadError {
    /// Reading the file failed; the message says why.
    Io(String),
    /// The file is not UTF-8; it stays read-only.  The path of the note.
    InvalidUtf8(String),
}

/// The text of a note file's bytes: UTF-8 after an optional byte-order
/// mark, or `None` when the bytes are not UTF-8.
pub open spec fn spec_note_text(bytes: Seq<u8>) -> Option<Seq<char>> {
    let b = if bytes.len() >= 3 && bytes.take(3) == crate::notes::scan::utf8_bom() {
        bytes.skip(3)
    } else {
        bytes
    };
    if valid_utf8(b) {
        Some(decode_utf8(b))
    } else {
        None
    }
}

/// The text of the note at `relative` from its bytes (see
/// [`spec_note_text`]); not UTF-8 is an error that names the note.
pub fn decode_note(bytes: &[u8], relative: &str) -> (r: Result<String, NoteReadError>)
    ensures
        match spec_note_text(bytes@) {
            Some(t) => r matches Ok(s) && s@ == t,
            None => r matches Err(NoteReadError::InvalidUtf8(p)) && p@ == relative@,
        },
{
    let has_bom = bytes.len() >= 3 && bytes[0] == 0xef && bytes[1] == 0xbb && bytes[2] == 0xbf;
    assert(has_bom == (bytes@.len() >= 3 && bytes@.take(3) == crate::notes::scan::utf8_bom())) by {
        if bytes@.len() >= 3 && bytes@.take(3) == crate::notes::scan::utf8_bom() {
            assert(bytes@.take(3)[0] == bytes@[0]);
            assert(bytes@.take(3)[1] == bytes@[1]);
            assert(bytes@.take(3)[2] == bytes@[2]);
        }
        if has_bom {
            assert(bytes@.take(3) =~= crate::notes::scan::utf8_bom());
        }
    }
    let text = if has_bom {
        let (_, rest) = bytes.split_at(3);
        assert(rest@ =~= bytes@.skip(3));
        utf8_text(rest)
    } else {
        utf8_text(bytes)
    };
    match text {
        Some(t) => Ok(t),
        None => Err(NoteReadError::InvalidUtf8(relative.to_owned())),
    }
}

proof fn lemma_leading_byte_not_bom(c: u32)
    by (bit_vector)
    ensures
        c <= 0x7F ==> (c & 0x7F) as u8 != 0xefu8,
        0x80 <= c <= 0x7FF ==> (0xC0u8 | ((c >> 6) & 0x1F) as u8) != 0xefu8,
        (0xF0u8 | ((c >> 18) & 0x7) as u8) != 0xefu8,
{
}

proof fn lemma_width_3_bom(c: u32)
    by (bit_vector)
    requires
        0x800 <= c <= 0xFFFF,
        (0xE0u8 | ((c >> 12) & 0x0F) as u8) == 0xefu8,
        (0x80u8 | ((c >> 6) & 0x3F) as u8) == 0xbbu8,
        (0x80u8 | (c & 0x3F) as u8) == 0xbfu8,
    ensures
        c == 0xFEFF,
{
}

/// What is saved reads back: the UTF-8 bytes of a text that does not start
/// with U+FEFF (whose encoding is the byte-order mark) read as that text.
pub proof fn lemma_saved_note_reads_back(text: Seq<char>)
    requires
        text.len() == 0 || text[0] != '\u{feff}',
    ensures
        spec_note_text(encode_utf8(text)) == Some(text),
{
    let b = encode_utf8(text);
    encode_utf8_valid_utf8(text);
    encode_utf8_decode_utf8(text);
    if b.len() >= 3 && b.take(3) == crate::notes::scan::utf8_bom() {
        assert(text.len() > 0);
        let c = text[0] as u32;
        char_is_scalar(text[0]);
        let e = encode_scalar(c);
        assert(b == e + encode_utf8(text.drop_first()));
        assert(b.take(3)[0] == b[0]);
        assert(b.take(3)[1] == b[1]);
        assert(b.take(3)[2] == b[2]);
        lemma_leading_byte_not_bom(c);
        if has_width_1_encoding(c) {
            assert(b[0] == e[0]);
        } else if has_width_2_encoding(c) {
            assert(b[0] == e[0]);
        } else if has_width_3_encoding(c) {
            assert(b[0] == e[0] && b[1] == e[1] && b[2] == e[2]);
            lemma_width_3_bom(c);
            char_u32_cast(text[0], c);
            assert(text[0] == (0xFEFFu32 as char));
            assert(false);
        } else {
            assert(b[0] == e[0]);
        }
    }
}

/// What the file of the open note calls for, looked at again.
#[derive(Clone, Copy, Debug, PartialEq, Eq, Structural)]
pub enum DiskCheck {
    /// The file holds the text last read or saved.
    Unchanged,
    /// The file changed and the note holds no unsaved edits: show the file.
    Reload,
    /// The file changed while the note holds unsaved edits, or it cannot be
    /// read: nothing is written until this is resolved.
    Conflict,
}

/// A file that cannot be read is a conflict; one that holds the text last
/// read or saved is unchanged; a changed file is reloaded when nothing is
/// left unsaved and a conflict otherwise.
pub open spec fn spec_disk_check(dirty: bool, disk: Option<Seq<char>>, persisted: Seq<char>) -> DiskCheck {
    match disk {
        None => DiskCheck::Conflict,
        Some(d) => if d == persisted {
            DiskCheck::Unchanged
        } else if dirty {
            DiskCheck::Conflict
        } else {
            DiskCheck::Reload
        },
    }
}

/// What the open note's file calls for (see [`spec_disk_check`]): `disk` is
/// its text, `None` when it could not be read, and `persisted` the text last
/// read or saved.
pub fn disk_check(dirty: bool, disk: Option<&str>, persisted: &str) -> (r: DiskCheck)
    ensures
        r == spec_disk_check(
            dirty,
            match disk {
                Some(d) => Some(d@),
                None => None,
            },
            persisted@,
        ),
{
    match disk {
        None => DiskCheck::Conflict,
        Some(d) => {
            let dc = chars_of(d);
            let pc = chars_of(persisted);
            if chars_eq(dc.as_slice(), pc.as_slice()) {
                DiskCheck::Unchanged
            } else if dirty {
                DiskCheck::Conflict
            } else {
                DiskCheck::Reload
            }
        },
    }
}

/// What saving the open note comes to.
#[derive(Clone, Debug, PartialEq, Eq)]
pub enum SavePlan {
    /// Nothing is unsaved, or no note is open.
    Nothing,
    /// The note's file changed or cannot be read: nothing is written.
    Wait,
    /// Write the text to the note at `to`, renaming it from `from` first
    /// when the two differ.
    Write { from: String, to: String },
}

/// The save of the open note at `current` with text `content`: nothing when
/// nothing is unsaved; a wait unless the file still holds what was last read
/// or saved (`check`); otherwise a write to the path the content names,
/// where `existing` lists the file names in the note's directory.
pub fn save_plan(dirty: bool, check: DiskCheck, current: Option<&str>, content: &str, existing: &Vec<String>) -> (r:
    SavePlan)
    ensures
        !dirty ==> r == SavePlan::Nothing,
        dirty && check != DiskCheck::Unchanged ==> r == SavePlan::Wait,
        dirty && check == DiskCheck::Unchanged ==> match current {
            None => r == SavePlan::Nothing,
            Some(c) => r matches SavePlan::Write { from, to } && from@ == c@ && to@
                == spec_automatic_relative_path(c@, content@, strings_view(existing@)),
        },
        r matches SavePlan::Write { .. } ==> dirty && check == DiskCheck::Unchanged,
{
    if !dirty {
        return SavePlan::Nothing;
    }
    if check != DiskCheck::Unchanged {
        return SavePlan::Wait;
    }
    match current {
        None => SavePlan::Nothing,
        Some(c) => {
            let to = automatic_relative_path(c, content, existing);
            SavePlan::Write { from: c.to_owned(), to }
        },
    }
}

/// Whether a finished scan of folder `folder` belongs to the active folder;
/// the scan of a folder left meanwhile is dropped.
pub fn scan_applies(folder: usize, active_folder: usize) -> (r: bool)
    ensures
        r == (folder == active_folder),
{
    folder == active_folder
}


// ---------------------------------------------------------------------------
// The note list.

/// The position of the first note at `path` (paths compared as paths).
pub open spec fn note_position_from(notes: Seq<NoteModel>, path: Seq<char>, k: int) -> Option<int>
    decreases notes.len() - k,
{
    if k < 0 || k >= notes.len() {
        None
    } else if path_eq(notes[k].path, path) {
        Some(k)
    } else {
        note_position_from(notes, path, k + 1)
    }
}

/// The position of the note at `path` in `notes`.
pub fn note_position(notes: &Vec<Note>, path: &str) -> (r: Option<usize>)
    ensures
        match note_position_from(notes_view(notes@), path@, 0) {
            Some(i) => r == Some(i as usize) && i < notes.len(),
            None => r is None,
        },
{
    let ghost nv = notes_view(notes@);
    let pc = chars_of(path);
    let mut k: usize = 0;
    while k < notes.len()
        invariant
            k <= notes.len(),
            nv == notes_view(notes@),
            pc@ == path@,
            note_position_from(nv, path@, 0) == note_position_from(nv, path@, k as int),
        decreases notes.len() - k,
    {
        assert(nv[k as int] == notes@[k as int]@);
        let nc = chars_of(notes[k].relative_path.as_str());
        if path_eq_exec(nc.as_slice(), pc.as_slice()) {
            return Some(k);
        }
        k = k + 1;
    }
    None
}

/// The notes that are not at `path`.
pub open spec fn notes_without(notes: Seq<NoteModel>, path: Seq<char>) -> Seq<NoteModel>
    decreases notes.len(),
{
    if notes.len() == 0 {
        seq![]
    } else {
        notes_without(notes.drop_last(), path) + if path_eq(notes.last().path, path) {
            seq![]
        } else {
            seq![notes.last()]
        }
    }
}

/// Drops the notes at `path` (after it was deleted).
pub fn remove_note(notes: &Vec<Note>, path: &str) -> (r: Vec<Note>)
    ensures
        notes_view(r@) == notes_without(notes_view(notes@), path@),
{
    let ghost nv = notes_view(notes@);
    let pc = chars_of(path);
    let mut out: Vec<Note> = Vec::new();
    let mut k: usize = 0;
    assert(notes_view(out@) =~= Seq::<NoteModel>::empty());
    while k < notes.len()
        invariant
            k <= notes.len(),
            nv == notes_view(notes@),
            pc@ == path@,
            notes_view(out@) == notes_without(nv.take(k as int), path@),
        decreases notes.len() - k,
    {
        assert(nv.take(k + 1).drop_last() =~= nv.take(k as int));
        assert(nv.take(k + 1).last() == notes@[k as int]@);
        let ghost before = notes_view(out@);
        let nc = chars_of(notes[k].relative_path.as_str());
        if !path_eq_exec(nc.as_slice(), pc.as_slice()) {
            out.push(copy_note(&notes[k]));
            assert(notes_view(out@) =~= before + seq![notes@[k as int]@]);
        } else {
            assert(notes_view(out@) =~= before + Seq::<NoteModel>::empty());
        }
        k = k + 1;
    }
    assert(nv.take(notes.len() as int) =~= nv);
    out
}

/// A note saved under `current` (it was at `previous`), with its new size,
/// time and text.
pub open spec fn saved_note(n: NoteModel, previous: Seq<char>, current: Seq<char>, size: u64, modified: i128, text: Seq<char>) -> NoteModel {
    if path_eq(n.path, previous) {
        NoteModel { path: current, size, modified, text }
    } else {
        n
    }
}

/// Updates the notes at `previous` after saving one to `current`.
pub fn update_saved_note(
    notes: &mut Vec<Note>,
    previous: &str,
    current: &str,
    size: u64,
    modified: i128,
    text: &str,
)
    ensures
        notes_view(final(notes)@) == notes_view(old(notes)@).map_values(
            |n: NoteModel| saved_note(n, previous@, current@, size, modified, text@),
        ),
{
    let ghost nv = notes_view(notes@);
    let pc = chars_of(previous);
    let mut k: usize = 0;
    while k < notes.len()
        invariant
            k <= notes.len(),
            notes.len() == nv.len(),
            pc@ == previous@,
            forall|m: int| 0 <= m < k ==> notes_view(notes@)[m] == saved_note(nv[m], previous@, current@, size, modified, text@),
            forall|m: int| k <= m < notes.len() ==> notes_view(notes@)[m] == nv[m],
        decreases notes.len() - k,
    {
        let ghost before = notes@;
        assert(notes_view(notes@)[k as int] == notes@[k as int]@);
        assert(notes@[k as int]@ == nv[k as int]);
        let nc = chars_of(notes[k].relative_path.as_str());
        if path_eq_exec(nc.as_slice(), pc.as_slice()) {
            let n = Note { relative_path: current.to_owned(), size, modified, search_text_lowercase: text.to_owned() };
            let ghost nm = n@;
            notes.set(k, n);
            assert(nm == saved_note(nv[k as int], previous@, current@, size, modified, text@));
            assert forall|m: int| 0 <= m < notes.len() && m != k implies notes_view(notes@)[m] == notes_view(
                before,
            )[m] by {
                assert(notes@[m] == before[m]);
            }
            assert(notes_view(notes@)[k as int] == nm);
        } else {
            assert(saved_note(nv[k as int], previous@, current@, size, modified, text@) == nv[k as int]);
        }
        assert forall|m: int| 0 <= m < k + 1 implies notes_view(notes@)[m] == saved_note(
            nv[m],
            previous@,
            current@,
            size,
            modified,
            text@,
        ) by {
            if m < k {
                assert(notes_view(before)[m] == saved_note(nv[m], previous@, current@, size, modified, text@));
            }
        }
        k = k + 1;
    }
    assert(notes_view(notes@) =~= nv.map_values(
        |n: NoteModel| saved_note(n, previous@, current@, size, modified, text@),
    ));
}

/// The selection after the list shrank to `len` notes: at most the last.
pub fn clamp_selection(selected: usize, len: usize) -> (r: usize)
    ensures
        r == if len == 0 {
            0
        } else if selected < len - 1 {
            selected as int
        } else {
            len - 1
        },
{
    let last = if len > 0 {
        len - 1
    } else {
        0
    };
    if selected < last {
        selected
    } else {
        last
    }
}


/// The largest scroll position of the viewer: the lines beyond one
/// viewport, at most what 16 bits hold.
pub fn viewer_max_scroll(line_count: usize, viewport_height: u16) -> (r: u16)
    ensures
        r as int == if line_count - viewport_height < 0 {
            0
        } else if line_count - viewport_height > u16::MAX {
            u16::MAX as int
        } else {
            line_count - viewport_height
        },
{
    let beyond = line_count.saturating_sub(viewport_height as usize);
    if beyond > 65535 {
        65535
    } else {
        beyond as u16
    }
}

} // verus!
