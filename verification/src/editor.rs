//! The note editor: a text and a cursor at a byte offset between its
//! characters, and the edits and cursor moves of the editor's keys.

use vstd::prelude::*;

use crate::markdown::{byte_offsets, line_end, line_end_exec};
use crate::text::{
    byte_len, byte_to_char, char_at_byte, chars_of, lemma_byte_len_increasing, lemma_byte_len_monotone,
    lemma_find_from, selection_end_ok, slice_to_vec, string_of,
};

verus! {

broadcast use vstd::string::group_string_axioms;

/// The text being edited and the cursor, a byte offset into it.
#[derive(Clone, Debug, PartialEq, Eq)]
pub struct Editor {
    pub content: String,
    pub cursor: usize,
}

/// The mathematical value of an [`Editor`]: its text and the cursor as a
/// character position.
pub struct EditorModel {
    pub text: Seq<char>,
    pub cursor: int,
}

impl View for Editor {
    type V = EditorModel;

    open spec fn view(&self) -> EditorModel {
        EditorModel { text: self.content@, cursor: byte_to_char(self.content@, self.cursor as int) }
    }
}

impl Editor {
    /// The cursor lies within the text, between two characters.
    pub open spec fn wf(&self) -> bool {
        self.cursor <= byte_len(self.content@) && selection_end_ok(self.content@, self.cursor as int)
    }
}

/// The byte offset of character position `j` names `j` again.
pub proof fn lemma_byte_to_char_at(s: Seq<char>, j: int)
    requires
        0 <= j <= s.len(),
    ensures
        byte_to_char(s, byte_len(s.take(j)) as int) == j,
        selection_end_ok(s, byte_len(s.take(j)) as int),
        byte_len(s.take(j)) <= byte_len(s),
{
    assert(s.take(s.len() as int) =~= s);
    lemma_byte_len_monotone(s, j, s.len() as int);
    if j < s.len() {
        lemma_byte_len_increasing(s, j, s.len() as int);
        let b = byte_len(s.take(j)) as int;
        assert(exists|k: int| 0 <= k <= s.len() && byte_len(s.take(k)) == b);
        let k = choose|k: int| 0 <= k <= s.len() && byte_len(s.take(k)) == b;
        if k < j {
            lemma_byte_len_increasing(s, k, j);
        } else if k > j {
            lemma_byte_len_increasing(s, j, k);
        }
    }
}

pub proof fn lemma_model_cursor(e: Editor)
    requires
        e.wf(),
    ensures
        0 <= e@.cursor <= e@.text.len(),
        byte_len(e@.text.take(e@.cursor)) == e.cursor,
{
    let s = e.content@;
    assert(s.take(s.len() as int) =~= s);
    if e.cursor < byte_len(s) {
    }
}

/// The editor holding `text` with the cursor at character `k`.
fn editor_at(text: &Vec<char>, k: usize) -> (r: Editor)
    requires
        k <= text.len(),
    ensures
        r.wf(),
        r@ == (EditorModel { text: text@, cursor: k as int }),
{
    let content = string_of(text.as_slice(), 0, text.len());
    assert(content@ =~= text@);
    let total = content.as_str().as_bytes().len();
    let table = byte_offsets(text.as_slice(), total);
    let cursor = table[k];
    proof {
        lemma_byte_to_char_at(text@, k as int);
    }
    Editor { content, cursor }
}

impl Editor {
    /// An editor on `content` with the cursor at its end.
    pub fn at_end(content: String) -> (r: Editor)
        ensures
            r.wf(),
            r@ == (EditorModel { text: content@, cursor: content@.len() as int }),
    {
        let cursor = content.as_str().as_bytes().len();
        proof {
            assert(content@.take(content@.len() as int) =~= content@);
            lemma_byte_to_char_at(content@, content@.len() as int);
        }
        Editor { content, cursor }
    }

    /// The characters of the text and the cursor as a character position.
    fn chars_and_cursor(&self) -> (r: (Vec<char>, usize))
        requires
            self.wf(),
        ensures
            r.0@ == self@.text,
            r.1 == self@.cursor,
            r.1 <= r.0.len(),
    {
        let t = chars_of(self.content.as_str());
        let total = self.content.as_str().as_bytes().len();
        let table = byte_offsets(t.as_slice(), total);
        let k = char_at_byte(t.as_slice(), &table, self.cursor);
        proof {
            lemma_model_cursor(*self);
        }
        (t, k)
    }
}

// ---------------------------------------------------------------------------
// What the editor's keys do, on the model.

/// `ins` inserted at the cursor, the cursor after it.
pub open spec fn spec_insert(m: EditorModel, ins: Seq<char>) -> EditorModel {
    EditorModel { text: m.text.take(m.cursor) + ins + m.text.skip(m.cursor), cursor: m.cursor + ins.len() }
}

/// The character before the cursor removed.
pub open spec fn spec_backspace(m: EditorModel) -> EditorModel {
    if m.cursor > 0 {
        EditorModel { text: m.text.take(m.cursor - 1) + m.text.skip(m.cursor), cursor: m.cursor - 1 }
    } else {
        m
    }
}

/// The character after the cursor removed.
pub open spec fn spec_delete(m: EditorModel) -> EditorModel {
    if m.cursor < m.text.len() {
        EditorModel { text: m.text.take(m.cursor) + m.text.skip(m.cursor + 1), cursor: m.cursor }
    } else {
        m
    }
}

/// The cursor at character position `k`, the text unchanged.
pub open spec fn with_cursor(m: EditorModel, k: int) -> EditorModel {
    EditorModel { text: m.text, cursor: k }
}

/// The start of the line holding position `c`: just after the last line
/// feed before `c`, or 0.
pub open spec fn line_start_at(t: Seq<char>, c: int) -> int
    decreases c,
{
    if c <= 0 {
        0
    } else if t[c - 1] == '\n' {
        c
    } else {
        line_start_at(t, c - 1)
    }
}

pub proof fn lemma_line_start_at(t: Seq<char>, c: int)
    requires
        0 <= c <= t.len(),
    ensures
        0 <= line_start_at(t, c) <= c,
        forall|k: int| line_start_at(t, c) <= k < c ==> #[trigger] t[k] != '\n',
        line_start_at(t, c) > 0 ==> t[line_start_at(t, c) - 1] == '\n',
    decreases c,
{
    if c > 0 && t[c - 1] != '\n' {
        lemma_line_start_at(t, c - 1);
    }
}

/// The cursor moved one line up (`up`) or down, keeping its column where
/// the target line is long enough and going to the line's end otherwise;
/// unchanged on the first line going up and on the last line going down.
pub open spec fn spec_move_vertical(m: EditorModel, up: bool) -> EditorModel {
    let t = m.text;
    let c = m.cursor;
    let ls = line_start_at(t, c);
    let column = c - ls;
    let target = if up {
        if ls == 0 {
            None
        } else {
            Some(line_start_at(t, ls - 1))
        }
    } else {
        let e = line_end(t, c);
        if e >= t.len() {
            None
        } else {
            Some(e + 1)
        }
    };
    match target {
        None => m,
        Some(ts) => {
            let te = line_end(t, ts);
            with_cursor(
                m,
                if column < te - ts {
                    ts + column
                } else {
                    te
                },
            )
        },
    }
}

/// `n` vertical moves.
pub open spec fn spec_move_vertical_times(m: EditorModel, up: bool, n: nat) -> EditorModel
    decreases n,
{
    if n == 0 {
        m
    } else {
        spec_move_vertical_times(spec_move_vertical(m, up), up, (n - 1) as nat)
    }
}

/// What an editor key does.
#[derive(Clone, Copy, Debug, PartialEq, Eq, Structural)]
pub enum EditCommand {
    Insert(char),
    Newline,
    Tab,
    Backspace,
    Delete,
    Left,
    Right,
    Up,
    Down,
    PageUp,
    PageDown,
    DocumentStart,
    DocumentEnd,
    LineStart,
    LineEnd,
}

/// The editor after `cmd`; page moves go `page_size` lines.
pub open spec fn spec_apply(m: EditorModel, cmd: EditCommand, page_size: nat) -> EditorModel {
    match cmd {
        EditCommand::Insert(c) => spec_insert(m, seq![c]),
        EditCommand::Newline => spec_insert(m, seq!['\n']),
        EditCommand::Tab => spec_insert(m, seq![' ', ' ', ' ', ' ']),
        EditCommand::Backspace => spec_backspace(m),
        EditCommand::Delete => spec_delete(m),
        EditCommand::Left => with_cursor(
            m,
            if m.cursor > 0 {
                m.cursor - 1
            } else {
                0
            },
        ),
        EditCommand::Right => with_cursor(
            m,
            if m.cursor < m.text.len() {
                m.cursor + 1
            } else {
                m.cursor
            },
        ),
        EditCommand::Up => spec_move_vertical(m, true),
        EditCommand::Down => spec_move_vertical(m, false),
        EditCommand::PageUp => spec_move_vertical_times(m, true, page_size),
        EditCommand::PageDown => spec_move_vertical_times(m, false, page_size),
        EditCommand::DocumentStart => with_cursor(m, 0),
        EditCommand::DocumentEnd => with_cursor(m, m.text.len() as int),
        EditCommand::LineStart => with_cursor(m, line_start_at(m.text, m.cursor)),
        EditCommand::LineEnd => with_cursor(m, line_end(m.text, m.cursor)),
    }
}

/// Whether `cmd` changes the text (rather than only moving the cursor).
pub open spec fn spec_edits(cmd: EditCommand) -> bool {
    match cmd {
        EditCommand::Insert(_) | EditCommand::Newline | EditCommand::Tab | EditCommand::Backspace
        | EditCommand::Delete => true,
        _ => false,
    }
}

// ---------------------------------------------------------------------------
// The same on the executable editor.

fn line_start_exec(t: &[char], c: usize) -> (r: usize)
    requires
        c <= t.len(),
    ensures
        r == line_start_at(t@, c as int),
{
    let mut k = c;
    while k > 0 && t[k - 1] != '\n'
        invariant
            k <= c <= t.len(),
            line_start_at(t@, c as int) == line_start_at(t@, k as int),
        decreases k,
    {
        k = k - 1;
    }
    k
}

fn move_vertical_exec(t: &[char], c: usize, up: bool) -> (r: usize)
    requires
        c <= t.len(),
    ensures
        r == spec_move_vertical(EditorModel { text: t@, cursor: c as int }, up).cursor,
        r <= t.len(),
{
    let ls = line_start_exec(t, c);
    proof {
        lemma_line_start_at(t@, c as int);
    }
    let column = c - ls;
    let ts = if up {
        if ls == 0 {
            return c;
        }
        proof {
            lemma_line_start_at(t@, ls - 1);
        }
        line_start_exec(t, ls - 1)
    } else {
        let e = line_end_exec(t, c);
        if e >= t.len() {
            return c;
        }
        e + 1
    };
    let te = line_end_exec(t, ts);
    if column < te - ts {
        ts + column
    } else {
        te
    }
}

impl Editor {
    /// Applies an editor key's command (see [`spec_apply`]).
    pub fn apply(&mut self, cmd: EditCommand, page_size: u16)
        requires
            old(self).wf(),
        ensures
            final(self).wf(),
            final(self)@ == spec_apply(old(self)@, cmd, page_size as nat),
    {
        let (t, k) = self.chars_and_cursor();
        let ghost m = self@;
        match cmd {
            EditCommand::Insert(_) | EditCommand::Newline | EditCommand::Tab => {
                let ins: Vec<char> = match cmd {
                    EditCommand::Insert(c) => vec![c],
                    EditCommand::Newline => vec!['\n'],
                    _ => vec![' ', ' ', ' ', ' '],
                };
                let mut text = slice_to_vec(t.as_slice(), 0, k);
                let ghost head = text@;
                let mut i: usize = 0;
                while i < ins.len()
                    invariant
                        i <= ins.len(),
                        text@ == head + ins@.take(i as int),
                    decreases ins.len() - i,
                {
                    text.push(ins[i]);
                    i = i + 1;
                    assert(text@ =~= head + ins@.take(i as int));
                }
                let nk = text.len();
                let mut rest = slice_to_vec(t.as_slice(), k, t.len());
                text.append(&mut rest);
                assert(ins@.take(ins.len() as int) =~= ins@);
                proof {
                    assert(ins@ =~= match cmd {
                        EditCommand::Insert(c) => seq![c],
                        EditCommand::Newline => seq!['\n'],
                        _ => seq![' ', ' ', ' ', ' '],
                    });
                    assert(text@ =~= m.text.take(m.cursor) + ins@ + m.text.skip(m.cursor));
                }
                *self = editor_at(&text, nk);
            },
            EditCommand::Backspace => {
                if k > 0 {
                    let mut text = slice_to_vec(t.as_slice(), 0, k - 1);
                    let mut rest = slice_to_vec(t.as_slice(), k, t.len());
                    text.append(&mut rest);
                    assert(text@ =~= m.text.take(m.cursor - 1) + m.text.skip(m.cursor));
                    *self = editor_at(&text, k - 1);
                }
            },
            EditCommand::Delete => {
                if k < t.len() {
                    let mut text = slice_to_vec(t.as_slice(), 0, k);
                    let mut rest = slice_to_vec(t.as_slice(), k + 1, t.len());
                    text.append(&mut rest);
                    assert(text@ =~= m.text.take(m.cursor) + m.text.skip(m.cursor + 1));
                    *self = editor_at(&text, k);
                }
            },
            _ => {
                let nk = match cmd {
                    EditCommand::Left => if k > 0 {
                        k - 1
                    } else {
                        0
                    },
                    EditCommand::Right => if k < t.len() {
                        k + 1
                    } else {
                        k
                    },
                    EditCommand::Up => move_vertical_exec(t.as_slice(), k, true),
                    EditCommand::Down => move_vertical_exec(t.as_slice(), k, false),
                    EditCommand::PageUp | EditCommand::PageDown => {
                        let up = match cmd {
                            EditCommand::PageUp => true,
                            _ => false,
                        };
                        let mut c = k;
                        let mut n: u16 = 0;
                        while n < page_size
                            invariant
                                c <= t.len(),
                                n <= page_size,
                                spec_move_vertical_times(m, up, page_size as nat) == spec_move_vertical_times(
                                    EditorModel { text: t@, cursor: c as int },
                                    up,
                                    (page_size - n) as nat,
                                ),
                            decreases page_size - n,
                        {
                            c = move_vertical_exec(t.as_slice(), c, up);
                            n = n + 1;
                        }
                        c
                    },
                    EditCommand::DocumentStart => 0,
                    EditCommand::DocumentEnd => t.len(),
                    EditCommand::LineStart => line_start_exec(t.as_slice(), k),
                    _ => {
                        proof {
                            lemma_find_from(t@, k as int, seq!['\n']);
                        }
                        line_end_exec(t.as_slice(), k)
                    },
                };
                proof {
                    lemma_line_start_at(t@, k as int);
                    lemma_find_from(t@, k as int, seq!['\n']);
                }
                *self = editor_at(&t, nk);
            },
        }
    }
}


/// The last character position whose byte offset is at most `b`, looking
/// from position `j` down.
pub open spec fn last_boundary_at_most(t: Seq<char>, b: int, j: int) -> int
    decreases j,
{
    if j <= 0 || byte_len(t.take(j)) <= b {
        if j < 0 {
            0
        } else {
            j
        }
    } else {
        last_boundary_at_most(t, b, j - 1)
    }
}

impl Editor {
    /// An editor on `content` with the cursor at `cursor`, moved back to the
    /// end of the text or to the start of the character it falls in.
    pub fn restore(content: String, cursor: usize) -> (r: Editor)
        ensures
            r.wf(),
            r@ == (EditorModel {
                text: content@,
                cursor: last_boundary_at_most(content@, cursor as int, content@.len() as int),
            }),
    {
        let t = chars_of(content.as_str());
        let total = content.as_str().as_bytes().len();
        let table = byte_offsets(t.as_slice(), total);
        let mut j = t.len();
        while j > 0 && table[j] > cursor
            invariant
                j <= t.len(),
                t@ == content@,
                table.len() == t.len() + 1,
                forall|i: int| 0 <= i <= t.len() ==> #[trigger] table@[i] == byte_len(t@.take(i)),
                last_boundary_at_most(t@, cursor as int, t.len() as int) == last_boundary_at_most(
                    t@,
                    cursor as int,
                    j as int,
                ),
            decreases j,
        {
            j = j - 1;
        }
        editor_at(&t, j)
    }
}


/// The number of line feeds in `t[..c]`.
pub open spec fn newlines_before(t: Seq<char>, c: int) -> int
    decreases c,
{
    if c <= 0 {
        0
    } else {
        newlines_before(t, c - 1) + if t[c - 1] == '\n' {
            1int
        } else {
            0int
        }
    }
}

/// A scroll offset that keeps position `p` in a viewport of `size` cells
/// (at least 1): unchanged when `p` is visible, else the least change
/// that shows it.
pub open spec fn keep_visible(scroll: int, p: int, size: int) -> int {
    if p < scroll {
        p
    } else if p >= crate::app::saturating_add_u16(scroll, size) {
        crate::app::saturating_sub(p, size - 1)
    } else {
        scroll
    }
}

/// The editor's line and column of the cursor (each kept to 16 bits, as
/// the terminal counts cells) and its vertical and horizontal scroll
/// offsets after scrolling the cursor into a viewport of `width` by
/// `height` cells.
pub open spec fn spec_editor_scroll(m: EditorModel, scroll: int, horizontal: int, width: int, height: int) -> (
    int,
    int,
    int,
    int,
) {
    let line = newlines_before(m.text, m.cursor) % 0x10000;
    let column = (m.cursor - line_start_at(m.text, m.cursor)) % 0x10000;
    (line, column, keep_visible(scroll, line, height), keep_visible(horizontal, column, width))
}

fn keep_visible_exec(scroll: u16, p: u16, size: u16) -> (r: u16)
    requires
        size >= 1,
    ensures
        r == keep_visible(scroll as int, p as int, size as int),
{
    if p < scroll {
        p
    } else if p >= scroll.saturating_add(size) {
        p.saturating_sub(size - 1)
    } else {
        scroll
    }
}

impl Editor {
    /// The cursor's line and column and the scroll offsets that show it
    /// (see [`spec_editor_scroll`]).
    pub fn scroll_to_cursor(&self, scroll: u16, horizontal: u16, width: u16, height: u16) -> (r: (u16, u16, u16, u16))
        requires
            self.wf(),
            width >= 1,
            height >= 1,
        ensures
            spec_editor_scroll(self@, scroll as int, horizontal as int, width as int, height as int) == (
                r.0 as int,
                r.1 as int,
                r.2 as int,
                r.3 as int,
            ),
    {
        let (t, k) = self.chars_and_cursor();
        let mut lines: u16 = 0;
        let mut i: usize = 0;
        while i < k
            invariant
                i <= k <= t.len(),
                lines as int == newlines_before(t@, i as int) % 0x10000,
            decreases k - i,
        {
            if t[i] == '\n' {
                lines = if lines == 65535 {
                    0
                } else {
                    lines + 1
                };
            }
            i = i + 1;
        }
        let ls = line_start_exec(t.as_slice(), k);
        proof {
            lemma_line_start_at(t@, k as int);
        }
        let column = ((k - ls) % 65536) as u16;
        let s = keep_visible_exec(scroll, lines, height);
        let h = keep_visible_exec(horizontal, column, width);
        (lines, column, s, h)
    }
}


/// After typing `ins` at the cursor of `r`'s predecessor `m`: the cursor
/// stands just after `ins`, the text before it is the old text before the
/// cursor followed by `ins`, and the text after it is the old text after it.
pub open spec fn typed_after_cursor(m: EditorModel, r: EditorModel, ins: Seq<char>) -> bool {
    &&& r.cursor == m.cursor + ins.len()
    &&& r.text.take(r.cursor) == m.text.take(m.cursor) + ins
    &&& r.text.skip(r.cursor) == m.text.skip(m.cursor)
}

/// Typing a character, Enter and Tab insert `c`, a line feed and four spaces
/// at the cursor and leave the cursor just after what they inserted, so that
/// typing goes on after it.
pub proof fn lemma_typing_moves_the_cursor_past(m: EditorModel, c: char, page_size: nat)
    requires
        0 <= m.cursor <= m.text.len(),
    ensures
        typed_after_cursor(m, spec_apply(m, EditCommand::Insert(c), page_size), seq![c]),
        typed_after_cursor(m, spec_apply(m, EditCommand::Newline, page_size), seq!['\n']),
        typed_after_cursor(m, spec_apply(m, EditCommand::Tab, page_size), seq![' ', ' ', ' ', ' ']),
{
    let ins1 = seq![c];
    let ins2 = seq!['\n'];
    let ins3 = seq![' ', ' ', ' ', ' '];
    let r1 = spec_apply(m, EditCommand::Insert(c), page_size);
    let r2 = spec_apply(m, EditCommand::Newline, page_size);
    let r3 = spec_apply(m, EditCommand::Tab, page_size);
    assert(r1.text.take(r1.cursor) =~= m.text.take(m.cursor) + ins1);
    assert(r1.text.skip(r1.cursor) =~= m.text.skip(m.cursor));
    assert(r2.text.take(r2.cursor) =~= m.text.take(m.cursor) + ins2);
    assert(r2.text.skip(r2.cursor) =~= m.text.skip(m.cursor));
    assert(r3.text.take(r3.cursor) =~= m.text.take(m.cursor) + ins3);
    assert(r3.text.skip(r3.cursor) =~= m.text.skip(m.cursor));
}

/// Typing a character and deleting it with Backspace leaves the text and
/// the cursor as they were.
pub proof fn lemma_insert_then_backspace(m: EditorModel, c: char)
    requires
        0 <= m.cursor <= m.text.len(),
    ensures
        spec_backspace(spec_insert(m, seq![c])) == m,
{
    let i = spec_insert(m, seq![c]);
    assert(i.text.take(m.cursor) =~= m.text.take(m.cursor));
    assert(i.text.skip(m.cursor + 1) =~= m.text.skip(m.cursor));
    assert(m.text.take(m.cursor) + m.text.skip(m.cursor) =~= m.text);
}

/// Moving the cursor right and back left returns it, when there is a
/// character after it; cursor moves never change the text.
pub proof fn lemma_right_then_left(m: EditorModel, page_size: nat)
    requires
        0 <= m.cursor < m.text.len(),
    ensures
        spec_apply(spec_apply(m, EditCommand::Right, page_size), EditCommand::Left, page_size) == m,
        forall|cmd: EditCommand| !spec_edits(cmd) ==> (#[trigger] spec_apply(m, cmd, page_size)).text == m.text,
{
    assert forall|cmd: EditCommand| !spec_edits(cmd) implies (#[trigger] spec_apply(m, cmd, page_size)).text
        == m.text by {
        match cmd {
            EditCommand::PageUp => lemma_vertical_times_keeps_text(m, true, page_size),
            EditCommand::PageDown => lemma_vertical_times_keeps_text(m, false, page_size),
            _ => {},
        }
    }
}

proof fn lemma_vertical_times_keeps_text(m: EditorModel, up: bool, n: nat)
    ensures
        spec_move_vertical_times(m, up, n).text == m.text,
    decreases n,
{
    if n > 0 {
        lemma_vertical_times_keeps_text(spec_move_vertical(m, up), up, (n - 1) as nat);
    }
}

} // verus!
