//! Settings: the QOwnNotes settings file, the application's own
//! configuration values, and the choice of the active note folder.

use vstd::prelude::*;

use crate::markdown::{line_end, line_end_exec};
use crate::path::{
    components, file_name, file_name_exec, is_absolute, join_path, join_path_exec, parent_or_empty,
    parent_or_empty_exec, path_eq, path_eq_exec, strip_prefix, strip_prefix_exec, join_components, lemma_strip_prefix_of_join, inner_components,
};
use crate::text::{strings_view, 
    chars_eq, chars_of, opt_int, parse_i64, spec_parse_i64, find_char_exec, find_from, lemma_find_from, matches_at, matches_at_exec,
    push_char, slice_to_vec, string_of, trim, trim_vec, CharClass,
};

verus! {

/// A note folder: its display name, its root path and whether its
/// subfolders are shown.
#[derive(Clone, Debug, PartialEq, Eq)]
pub struct NoteFolder {
    pub name: String,
    pub path: String,
    pub show_subfolders: bool,
}

/// How the note list is ordered.
#[derive(Clone, Copy, Debug, PartialEq, Eq, Structural)]
pub enum NoteSort {
    /// Most recently modified first.
    LastModified,
    /// By name, ignoring case.
    Alphabetical { descending: bool },
}

/// Locations of the QOwnNotes settings file and database for an optional
/// session name, mirroring QOwnNotes' `--session` handling.
#[derive(Clone, Debug, PartialEq, Eq)]
pub struct QOwnNotesPaths {
    pub settings: String,
    pub database: String,
}

/// The save interval used when the configuration file names none.
pub fn default_save_interval_seconds() -> (r: u64)
    ensures
        r == 10,
{
    10
}

// ---------------------------------------------------------------------------
// QSettings files.
// ---------------------------------------------------------------------------

pub open spec fn general_section() -> Seq<char> {
    seq!['[', 'G', 'e', 'n', 'e', 'r', 'a', 'l', ']']
}

/// The value of `key` in the `[General]` section of a QSettings file,
/// searching from the line at `pos` (`in_general` tells whether that line
/// lies in `[General]`).  Lines are trimmed; a line `key=value` yields the
/// trimmed value.
pub open spec fn qsettings_from(c: Seq<char>, pos: int, in_general: bool, key: Seq<char>) -> Option<Seq<char>>
    decreases c.len() - pos,
{
    if pos < 0 || pos > c.len() {
        None
    } else {
        let e = line_end(c, pos);
        proof {
            lemma_find_from(c, pos, seq!['\n']);
        }
        let line = trim(c.subrange(pos, e), CharClass::Whitespace);
        let header = line.len() > 0 && line[0] == '[' && line.last() == ']';
        if !header && in_general && matches_at(line, 0, key) && key.len() < line.len() && line[key.len() as int] == '=' {
            Some(trim(line.skip((key.len() + 1) as int), CharClass::Whitespace))
        } else if e < c.len() {
            qsettings_from(c, e + 1, if header { line == general_section() } else { in_general }, key)
        } else {
            None
        }
    }
}

pub open spec fn spec_qsettings_value(contents: Seq<char>, key: Seq<char>) -> Option<Seq<char>> {
    qsettings_from(contents, 0, false, key)
}

/// The value of `key` in the `[General]` section of a QSettings file.
pub fn qsettings_value(contents: &str, key: &str) -> (r: Option<String>)
    ensures
        match spec_qsettings_value(contents@, key@) {
            Some(v) => r matches Some(x) && x@ == v,
            None => r is None,
        },
{
    let c = chars_of(contents);
    let k = chars_of(key);
    match qsettings_chars(c.as_slice(), k.as_slice()) {
        Some(v) => Some(string_of(v.as_slice(), 0, v.len())),
        None => None,
    }
}

fn qsettings_chars(s: &[char], k: &[char]) -> (r: Option<Vec<char>>)
    ensures
        match spec_qsettings_value(s@, k@) {
            Some(v) => r matches Some(x) && x@ == v,
            None => r is None,
        },
{
    let general = ['[', 'G', 'e', 'n', 'e', 'r', 'a', 'l', ']'];
    assert(general@ =~= general_section());
    let mut pos: usize = 0;
    let mut in_general = false;
    loop
        invariant
            pos <= s.len(),
            general@ == general_section(),
            spec_qsettings_value(s@, k@) == qsettings_from(s@, pos as int, in_general, k@),
        decreases s.len() - pos,
    {
        let e = line_end_exec(s, pos);
        let raw = slice_to_vec(s, pos, e);
        let line = trim_vec(raw.as_slice(), &CharClass::Whitespace);
        let header = line.len() > 0 && line[0] == '[' && line[line.len() - 1] == ']';
        if !header && in_general && matches_at_exec(line.as_slice(), 0, k) && k.len() < line.len()
            && line[k.len()] == '=' {
            let rest = slice_to_vec(line.as_slice(), k.len() + 1, line.len());
            assert(rest@ =~= line@.skip(k.len() + 1));
            return Some(trim_vec(rest.as_slice(), &CharClass::Whitespace));
        }
        if header {
            in_general = chars_eq(line.as_slice(), &general);
        }
        if e < s.len() {
            pos = e + 1;
        } else {
            return None;
        }
    }
}

/// The note order that the `notesPanelSort` and `notesPanelOrder` settings
/// select.
pub open spec fn spec_note_sort(settings: Seq<char>) -> NoteSort {
    let sort_key = seq!['n', 'o', 't', 'e', 's', 'P', 'a', 'n', 'e', 'l', 'S', 'o', 'r', 't'];
    let order_key = seq!['n', 'o', 't', 'e', 's', 'P', 'a', 'n', 'e', 'l', 'O', 'r', 'd', 'e', 'r'];
    if spec_qsettings_value(settings, sort_key) == Some(seq!['0']) {
        NoteSort::Alphabetical { descending: spec_qsettings_value(settings, order_key) == Some(seq!['1']) }
    } else {
        NoteSort::LastModified
    }
}

/// The note order of a QOwnNotes settings file: alphabetical when
/// `notesPanelSort=0` (descending when `notesPanelOrder=1`), else by
/// modification time.
pub fn note_sort_from_qsettings(settings: &str) -> (r: NoteSort)
    ensures
        r == spec_note_sort(settings@),
{
    let c = chars_of(settings);
    let sort_key = ['n', 'o', 't', 'e', 's', 'P', 'a', 'n', 'e', 'l', 'S', 'o', 'r', 't'];
    let order_key = ['n', 'o', 't', 'e', 's', 'P', 'a', 'n', 'e', 'l', 'O', 'r', 'd', 'e', 'r'];
    assert(sort_key@ =~= seq!['n', 'o', 't', 'e', 's', 'P', 'a', 'n', 'e', 'l', 'S', 'o', 'r', 't']);
    assert(order_key@ =~= seq!['n', 'o', 't', 'e', 's', 'P', 'a', 'n', 'e', 'l', 'O', 'r', 'd', 'e', 'r']);
    let zero = ['0'];
    let one = ['1'];
    assert(zero@ =~= seq!['0']);
    assert(one@ =~= seq!['1']);
    match qsettings_chars(c.as_slice(), &sort_key) {
        Some(v) => {
            if chars_eq(v.as_slice(), &zero) {
                let descending = match qsettings_chars(c.as_slice(), &order_key) {
                    Some(o) => chars_eq(o.as_slice(), &one),
                    None => false,
                };
                NoteSort::Alphabetical { descending }
            } else {
                NoteSort::LastModified
            }
        },
        None => NoteSort::LastModified,
    }
}

// ---------------------------------------------------------------------------
// Ignored subfolders.
// ---------------------------------------------------------------------------

/// `s` with each `\\` replaced by `\` (left to right, without overlap).
pub open spec fn unescape_backslashes(s: Seq<char>) -> Seq<char>
    decreases s.len(),
{
    if s.len() == 0 {
        s
    } else if s.len() >= 2 && s[0] == '\\' && s[1] == '\\' {
        seq!['\\'] + unescape_backslashes(s.skip(2))
    } else {
        seq![s[0]] + unescape_backslashes(s.skip(1))
    }
}

/// The non-empty trimmed pieces of `s[i..]` between `;` separators.
pub open spec fn patterns_from(s: Seq<char>, i: int) -> Seq<Seq<char>>
    decreases s.len() - i,
{
    if i < 0 || i >= s.len() {
        seq![]
    } else {
        let e = match find_from(s, i, seq![';']) {
            Some(e) => e,
            None => s.len() as int,
        };
        proof {
            lemma_find_from(s, i, seq![';']);
        }
        let t = trim(s.subrange(i, e), CharClass::Whitespace);
        (if t.len() > 0 {
            seq![t]
        } else {
            seq![]
        }) + if e < s.len() {
            patterns_from(s, e + 1)
        } else {
            seq![]
        }
    }
}

/// The `ignoreNoteSubFolders` patterns of a QOwnNotes settings file
/// (`^\.` when unset).
pub open spec fn spec_ignored_patterns(settings: Seq<char>) -> Seq<Seq<char>> {
    let key = seq!['i', 'g', 'n', 'o', 'r', 'e', 'N', 'o', 't', 'e', 'S', 'u', 'b', 'F', 'o', 'l', 'd', 'e', 'r', 's'];
    let raw = match spec_qsettings_value(settings, key) {
        Some(v) => v,
        None => seq!['^', '\\', '.'],
    };
    patterns_from(unescape_backslashes(raw), 0)
}

fn unescape_backslashes_exec(s: &[char]) -> (r: Vec<char>)
    ensures
        r@ == unescape_backslashes(s@),
{
    let mut r: Vec<char> = Vec::new();
    let mut i: usize = 0;
    assert(s@.skip(0) =~= s@);
    while i < s.len()
        invariant
            i <= s.len(),
            unescape_backslashes(s@) == r@ + unescape_backslashes(s@.skip(i as int)),
        decreases s.len() - i,
    {
        let ghost rest = s@.skip(i as int);
        if i + 1 < s.len() && s[i] == '\\' && s[i + 1] == '\\' {
            r.push('\\');
            assert(rest.skip(2) =~= s@.skip(i + 2));
            i = i + 2;
        } else {
            r.push(s[i]);
            assert(rest.skip(1) =~= s@.skip(i + 1));
            i = i + 1;
        }
    }
    r
}

/// The `ignoreNoteSubFolders` setting of QOwnNotes: regular expressions,
/// separated by `;`, for subfolder names to leave out (`^\.` when unset).
pub fn ignored_subfolder_patterns_from_qsettings(settings: &str) -> (r: Vec<String>)
    ensures
        strings_view(r@) == spec_ignored_patterns(settings@),
{
    let c = chars_of(settings);
    let key = ['i', 'g', 'n', 'o', 'r', 'e', 'N', 'o', 't', 'e', 'S', 'u', 'b', 'F', 'o', 'l', 'd', 'e', 'r', 's'];
    assert(key@ =~= seq!['i', 'g', 'n', 'o', 'r', 'e', 'N', 'o', 't', 'e', 'S', 'u', 'b', 'F', 'o', 'l', 'd', 'e', 'r', 's']);
    let raw = match qsettings_chars(c.as_slice(), &key) {
        Some(v) => v,
        None => {
            let d = vec!['^', '\\', '.'];
            assert(d@ =~= seq!['^', '\\', '.']);
            d
        },
    };
    let u = unescape_backslashes_exec(raw.as_slice());
    let s = u.as_slice();
    let mut r: Vec<String> = Vec::new();
    let mut i: usize = 0;
    while i < s.len()
        invariant
            i <= s.len(),
            u@ == unescape_backslashes(raw@),
            patterns_from(s@, 0) == strings_view(r@) + patterns_from(s@, i as int),
        decreases s.len() - i,
    {
        let ghost before = strings_view(r@);
        proof {
            lemma_find_from(s@, i as int, seq![';']);
        }
        let e = match find_char_exec(s, i, ';') {
            Some(e) => e,
            None => s.len(),
        };
        let piece = slice_to_vec(s, i, e);
        let t = trim_vec(piece.as_slice(), &CharClass::Whitespace);
        if t.len() > 0 {
            let st = string_of(t.as_slice(), 0, t.len());
            assert(st@ =~= t@);
            r.push(st);
            assert(strings_view(r@) =~= before + seq![t@]);
        } else {
            assert(strings_view(r@) =~= before);
        }
        if e < s.len() {
            i = e + 1;
        } else {
            i = s.len();
        }
    }
    r
}

// ---------------------------------------------------------------------------
// The active note folder and the remembered note.
// ---------------------------------------------------------------------------

/// Index of the first path at or after `k` equal to `sel`.
pub open spec fn first_path_match(paths: Seq<Seq<char>>, sel: Seq<char>, k: int) -> Option<int>
    decreases paths.len() - k,
{
    if k < 0 || k >= paths.len() {
        None
    } else if path_eq(paths[k], sel) {
        Some(k)
    } else {
        first_path_match(paths, sel, k + 1)
    }
}

/// Index of the first folder whose path equals `selected`, else `fallback`.
pub open spec fn spec_selected_folder_index(paths: Seq<Seq<char>>, selected: Option<Seq<char>>, fallback: int) -> int {
    match selected {
        Some(sel) => match first_path_match(paths, sel, 0) {
            Some(k) => k,
            None => fallback,
        },
        None => fallback,
    }
}

pub open spec fn folder_paths(folders: Seq<NoteFolder>) -> Seq<Seq<char>> {
    folders.map_values(|f: NoteFolder| f.path@)
}

/// The folder whose path equals the remembered `selected` folder, else
/// `fallback`.
pub fn selected_folder_index(note_folders: &Vec<NoteFolder>, selected: Option<&str>, fallback: usize) -> (r: usize)
    ensures
        r as int == spec_selected_folder_index(
            folder_paths(note_folders@),
            match selected {
                Some(s) => Some(s@),
                None => None,
            },
            fallback as int,
        ),
{
    let ghost paths = folder_paths(note_folders@);
    let ghost sel_view: Option<Seq<char>> = match selected {
        Some(s) => Some(s@),
        None => None,
    };
    match selected {
        None => fallback,
        Some(sel) => {
            assert(sel_view == Some(sel@));
            let sc = chars_of(sel);
            let mut k: usize = 0;
            while k < note_folders.len()
                invariant
                    k <= note_folders.len(),
                    paths == folder_paths(note_folders@),
                    sc@ == sel@,
                    first_path_match(paths, sel@, 0) == first_path_match(paths, sel@, k as int),
                    sel_view == Some(sel@),
                    selected == Some(sel),
                decreases note_folders.len() - k,
            {
                let pc = chars_of(note_folders[k].path.as_str());
                if path_eq_exec(pc.as_slice(), sc.as_slice()) {
                    assert(paths[k as int] == note_folders@[k as int].path@);
                    assert(pc@ == paths[k as int]);
                    assert(path_eq(paths[k as int], sel@));
                    return k;
                }
                assert(paths[k as int] == note_folders@[k as int].path@);
                k = k + 1;
            }
            fallback
        },
    }
}

/// A remembered note path relative to the note folder `root`, when it lies
/// inside it.
pub fn relative_selected_note(root: &str, selected: Option<&str>) -> (r: Option<String>)
    ensures
        match selected {
            Some(s) => match strip_prefix(s@, root@) {
                Some(x) => r matches Some(v) && v@ == x,
                None => r is None,
            },
            None => r is None,
        },
{
    match selected {
        Some(s) => {
            let sc = chars_of(s);
            let rc = chars_of(root);
            strip_prefix_exec(sc.as_slice(), rc.as_slice())
        },
        None => None,
    }
}

// ---------------------------------------------------------------------------
// The application's configuration file.
// ---------------------------------------------------------------------------

/// The values of the application's own configuration file.
#[derive(Clone, Debug, PartialEq, Eq)]
pub struct FileConfig {
    pub notes_dir: Option<String>,
    pub selected_note_folder: Option<String>,
    pub selected_note: Option<String>,
    pub save_interval_seconds: u64,
}

impl Default for FileConfig {
    fn default() -> (r: Self)
        ensures
            r.notes_dir is None,
            r.selected_note_folder is None,
            r.selected_note is None,
            r.save_interval_seconds == 10,
    {
        FileConfig {
            notes_dir: None,
            selected_note_folder: None,
            selected_note: None,
            save_interval_seconds: default_save_interval_seconds(),
        }
    }
}

/// Sets the save interval, at least one second.
pub fn save_interval_seconds(file: &mut FileConfig, value: u64)
    ensures
        final(file).save_interval_seconds == if value < 1 { 1 } else { value },
        final(file).notes_dir == old(file).notes_dir,
        final(file).selected_note_folder == old(file).selected_note_folder,
        final(file).selected_note == old(file).selected_note,
{
    file.save_interval_seconds = if value < 1 {
        1
    } else {
        value
    };
}

/// Remembers the active note folder.
pub fn selected_note_folder(file: &mut FileConfig, value: &str)
    ensures
        final(file).selected_note_folder matches Some(s) && s@ == value@,
        final(file).notes_dir == old(file).notes_dir,
        final(file).selected_note == old(file).selected_note,
        final(file).save_interval_seconds == old(file).save_interval_seconds,
{
    let c = chars_of(value);
    file.selected_note_folder = Some(string_of(c.as_slice(), 0, c.len()));
}

/// The remembered note, relative to the note folder `root`, when it lies
/// inside it.
pub fn remembered_note(file: &FileConfig, root: &str) -> (r: Option<String>)
    ensures
        match file.selected_note {
            Some(s) => match strip_prefix(s@, root@) {
                Some(x) => r matches Some(v) && v@ == x,
                None => r is None,
            },
            None => r is None,
        },
{
    match &file.selected_note {
        Some(s) => relative_selected_note(root, Some(s.as_str())),
        None => None,
    }
}

/// Remembers the note at `relative` inside the note folder `root` (or
/// forgets it).
pub fn selected_note(file: &mut FileConfig, root: &str, relative: Option<&str>)
    ensures
        match relative {
            Some(r) => final(file).selected_note matches Some(s) && s@ == join_path(root@, r@),
            None => final(file).selected_note is None,
        },
        final(file).notes_dir == old(file).notes_dir,
        final(file).selected_note_folder == old(file).selected_note_folder,
        final(file).save_interval_seconds == old(file).save_interval_seconds,
{
    file.selected_note = match relative {
        Some(r) => {
            let rc = chars_of(root);
            let c = chars_of(r);
            Some(join_path_exec(rc.as_slice(), c.as_slice()))
        },
        None => None,
    };
}

/// A remembered note reads back: once the note at a relative path is
/// remembered for a folder (see [`selected_note`]), the folder's remembered
/// note (see [`remembered_note`]) is that path, its components normalized
/// and, below a named folder, without a leading `.`.
pub proof fn lemma_remembered_note_reads_back(root: Seq<char>, relative: Seq<char>)
    requires
        !is_absolute(relative),
    ensures
        strip_prefix(join_path(root, relative), root) == Some(
            join_components(
                if root.len() > 0 {
                    inner_components(relative)
                } else {
                    components(relative)
                },
            ),
        ),
{
    lemma_strip_prefix_of_join(root, relative);
}

// ---------------------------------------------------------------------------
// QOwnNotes' own files and note folders.
// ---------------------------------------------------------------------------

pub open spec fn app_name(session: Option<Seq<char>>) -> Seq<char> {
    match session {
        Some(s) => seq!['Q', 'O', 'w', 'n', 'N', 'o', 't', 'e', 's', '-'] + s,
        None => seq!['Q', 'O', 'w', 'n', 'N', 'o', 't', 'e', 's'],
    }
}

/// The QOwnNotes settings file and database for a session, under the
/// platform's configuration and data directories.
pub fn qownnotes_paths(config_dir: &str, data_dir: &str, session: Option<&str>) -> (r: QOwnNotesPaths)
    ensures
        r.settings@ == join_path(
            config_dir@,
            seq!['P', 'B', 'E', '/'] + app_name(
                match session {
                    Some(s) => Some(s@),
                    None => None,
                },
            ) + seq!['.', 'c', 'o', 'n', 'f'],
        ),
        r.database@ == join_path(
            data_dir@,
            seq!['P', 'B', 'E', '/'] + app_name(
                match session {
                    Some(s) => Some(s@),
                    None => None,
                },
            ) + seq!['/', 'Q', 'O', 'w', 'n', 'N', 'o', 't', 'e', 's', '.', 's', 'q', 'l', 'i', 't', 'e'],
        ),
{
    let mut app: Vec<char> = vec!['Q', 'O', 'w', 'n', 'N', 'o', 't', 'e', 's'];
    let ghost sess = match session {
        Some(s) => Some(s@),
        None => None,
    };
    match session {
        Some(s) => {
            app.push('-');
            let sc = chars_of(s);
            let mut k: usize = 0;
            let ghost start = app@;
            while k < sc.len()
                invariant
                    k <= sc.len(),
                    app@ == start + sc@.take(k as int),
                decreases sc.len() - k,
            {
                app.push(sc[k]);
                k = k + 1;
                assert(app@ =~= start + sc@.take(k as int));
            }
            assert(sc@.take(sc.len() as int) =~= sc@);
        },
        None => {},
    }
    assert(app@ =~= app_name(sess));
    let mut settings_rel: Vec<char> = vec!['P', 'B', 'E', '/'];
    let mut database_rel: Vec<char> = vec!['P', 'B', 'E', '/'];
    let mut k: usize = 0;
    let ghost s0 = settings_rel@;
    let ghost d0 = database_rel@;
    while k < app.len()
        invariant
            k <= app.len(),
            settings_rel@ == s0 + app@.take(k as int),
            database_rel@ == d0 + app@.take(k as int),
        decreases app.len() - k,
    {
        settings_rel.push(app[k]);
        database_rel.push(app[k]);
        k = k + 1;
        assert(settings_rel@ =~= s0 + app@.take(k as int));
        assert(database_rel@ =~= d0 + app@.take(k as int));
    }
    assert(app@.take(app.len() as int) =~= app@);
    let conf = ['.', 'c', 'o', 'n', 'f'];
    let sqlite = ['/', 'Q', 'O', 'w', 'n', 'N', 'o', 't', 'e', 's', '.', 's', 'q', 'l', 'i', 't', 'e'];
    let ghost s1 = settings_rel@;
    let ghost d1 = database_rel@;
    let mut k: usize = 0;
    while k < conf.len()
        invariant
            k <= conf.len(),
            settings_rel@ == s1 + conf@.take(k as int),
        decreases conf.len() - k,
    {
        settings_rel.push(conf[k]);
        k = k + 1;
        assert(settings_rel@ =~= s1 + conf@.take(k as int));
    }
    let mut k: usize = 0;
    while k < sqlite.len()
        invariant
            k <= sqlite.len(),
            database_rel@ == d1 + sqlite@.take(k as int),
        decreases sqlite.len() - k,
    {
        database_rel.push(sqlite[k]);
        k = k + 1;
        assert(database_rel@ =~= d1 + sqlite@.take(k as int));
    }
    assert(conf@.take(5) =~= seq!['.', 'c', 'o', 'n', 'f']);
    assert(sqlite@.take(17) =~= seq!['/', 'Q', 'O', 'w', 'n', 'N', 'o', 't', 'e', 's', '.', 's', 'q', 'l', 'i', 't', 'e']);
    let cd = chars_of(config_dir);
    let dd = chars_of(data_dir);
    QOwnNotesPaths {
        settings: join_path_exec(cd.as_slice(), settings_rel.as_slice()),
        database: join_path_exec(dd.as_slice(), database_rel.as_slice()),
    }
}

/// The mathematical value of a [`NoteFolder`].
pub struct FolderModel {
    pub name: Seq<char>,
    pub path: Seq<char>,
    pub show_subfolders: bool,
}

impl View for NoteFolder {
    type V = FolderModel;

    open spec fn view(&self) -> FolderModel {
        FolderModel { name: self.name@, path: self.path@, show_subfolders: self.show_subfolders }
    }
}

pub open spec fn folders_view(v: Seq<NoteFolder>) -> Seq<FolderModel> {
    v.map_values(|f: NoteFolder| f@)
}

/// A row of QOwnNotes' `noteFolder` table.
pub struct FolderRecord {
    pub id: i64,
    pub name: String,
    pub local_path: String,
    pub show_subfolders: bool,
}

/// No configured note folder of QOwnNotes exists.
#[derive(Clone, Copy, Debug, PartialEq, Eq)]
pub enum DiscoveryError {
    NoAvailableFolders,
}

/// Where a note folder stored in the QOwnNotes database lies: absolute
/// paths as they are, relative ones against the database's directory.
pub open spec fn spec_resolve_folder_path(database_path: Seq<char>, stored: Seq<char>) -> Seq<char> {
    if is_absolute(stored) {
        stored
    } else {
        join_path(parent_or_empty(database_path), stored)
    }
}

pub fn resolve_folder_path(database_path: &str, stored: &str) -> (r: String)
    ensures
        r@ == spec_resolve_folder_path(database_path@, stored@),
{
    let st = chars_of(stored);
    if st.len() > 0 && st[0] == '/' {
        return string_of(st.as_slice(), 0, st.len());
    }
    let db = chars_of(database_path);
    let parent = parent_or_empty_exec(db.as_slice());
    let pc = chars_of(parent.as_str());
    join_path_exec(pc.as_slice(), st.as_slice())
}

/// The display name of a folder: its stored name, or when that is blank,
/// the final component of its path (or the whole path).
pub open spec fn folder_display_name(name: Seq<char>, path: Seq<char>) -> Seq<char> {
    if trim(name, CharClass::Whitespace).len() == 0 {
        match file_name(path) {
            Some(n) => n,
            None => path,
        }
    } else {
        name
    }
}

pub open spec fn current_folder_key() -> Seq<char> {
    seq!['c', 'u', 'r', 'r', 'e', 'n', 't', 'N', 'o', 't', 'e', 'F', 'o', 'l', 'd', 'e', 'r', 'I', 'd']
}

pub open spec fn notes_path_key() -> Seq<char> {
    seq!['n', 'o', 't', 'e', 's', 'P', 'a', 't', 'h']
}

/// The folder that QOwnNotes has active: by id, or by the `notesPath`
/// setting resolved like a stored path.
pub open spec fn is_active_folder(id: i64, path: Seq<char>, active_id: Option<i64>, active_path: Option<Seq<char>>, database_path: Seq<char>) -> bool {
    active_id == Some(id) || match active_path {
        Some(a) => path_eq(spec_resolve_folder_path(database_path, a), path),
        None => false,
    }
}

/// The available folders among the first `n` records (those whose resolved
/// path is a directory, `dirs[k]`) and the position of the last active one.
pub open spec fn choose_fold(
    ids: Seq<i64>,
    names: Seq<Seq<char>>,
    paths: Seq<Seq<char>>,
    shows: Seq<bool>,
    dirs: Seq<bool>,
    n: int,
    active_id: Option<i64>,
    active_path: Option<Seq<char>>,
    database_path: Seq<char>,
) -> (Seq<FolderModel>, Option<int>)
    decreases n,
{
    if n <= 0 {
        (seq![], None)
    } else {
        let (f, a) = choose_fold(ids, names, paths, shows, dirs, n - 1, active_id, active_path, database_path);
        let k = n - 1;
        if !dirs[k] {
            (f, a)
        } else {
            let model = FolderModel {
                name: folder_display_name(names[k], paths[k]),
                path: paths[k],
                show_subfolders: shows[k],
            };
            (
                f.push(model),
                if is_active_folder(ids[k], paths[k], active_id, active_path, database_path) {
                    Some(f.len() as int)
                } else {
                    a
                },
            )
        }
    }
}

/// The note folders configured in QOwnNotes and the active one.  `records`
/// are the `noteFolder` rows in priority order with their paths resolved by
/// [`resolve_folder_path`]; `is_dir[k]` tells whether record `k` is an
/// existing directory.  Folders that are not are left out; the active folder
/// is the last one matching `currentNoteFolderId` or `notesPath` of the
/// settings, else the first.
pub fn discover_qownnotes_note_folders(
    settings: &str,
    database_path: &str,
    records: &Vec<FolderRecord>,
    is_dir: &Vec<bool>,
) -> (r: Result<(Vec<NoteFolder>, usize), DiscoveryError>)
    requires
        is_dir.len() == records.len(),
    ensures
        ({
            let active_id = match spec_qsettings_value(settings@, current_folder_key()) {
                Some(v) => spec_parse_i64(v),
                None => None,
            };
            let active_path = spec_qsettings_value(settings@, notes_path_key());
            let (f, a) = choose_fold(
                records@.map_values(|x: FolderRecord| x.id),
                records@.map_values(|x: FolderRecord| x.name@),
                records@.map_values(|x: FolderRecord| x.local_path@),
                records@.map_values(|x: FolderRecord| x.show_subfolders),
                is_dir@,
                records.len() as int,
                active_id,
                active_path,
                database_path@,
            );
            match r {
                Ok((folders, active)) => f.len() > 0 && folders_view(folders@) == f && active as int == match a {
                    Some(i) => i,
                    None => 0,
                },
                Err(_) => f.len() == 0,
            }
        }),
{
    let c = chars_of(settings);
    let id_key = ['c', 'u', 'r', 'r', 'e', 'n', 't', 'N', 'o', 't', 'e', 'F', 'o', 'l', 'd', 'e', 'r', 'I', 'd'];
    let path_key = ['n', 'o', 't', 'e', 's', 'P', 'a', 't', 'h'];
    assert(id_key@ =~= current_folder_key());
    assert(path_key@ =~= notes_path_key());
    let active_id = match qsettings_chars(c.as_slice(), &id_key) {
        Some(v) => {
            let vs = string_of(v.as_slice(), 0, v.len());
            assert(vs@ =~= v@);
            parse_i64(vs.as_str())
        },
        None => None,
    };
    let active_path = qsettings_chars(c.as_slice(), &path_key);
    let active_resolved = match &active_path {
        Some(a) => {
            let s = string_of(a.as_slice(), 0, a.len());
            assert(s@ =~= a@);
            let r = resolve_folder_path(database_path, s.as_str());
            Some(chars_of(r.as_str()))
        },
        None => None,
    };
    let ghost ids = records@.map_values(|x: FolderRecord| x.id);
    let ghost names = records@.map_values(|x: FolderRecord| x.name@);
    let ghost paths = records@.map_values(|x: FolderRecord| x.local_path@);
    let ghost shows = records@.map_values(|x: FolderRecord| x.show_subfolders);
    let ghost aid = match spec_qsettings_value(settings@, current_folder_key()) {
        Some(v) => spec_parse_i64(v),
        None => None,
    };
    let ghost apath = spec_qsettings_value(settings@, notes_path_key());
    let mut available: Vec<NoteFolder> = Vec::new();
    let mut active: Option<usize> = None;
    let mut k: usize = 0;
    while k < records.len()
        invariant
            k <= records.len(),
            is_dir.len() == records.len(),
            ids == records@.map_values(|x: FolderRecord| x.id),
            names == records@.map_values(|x: FolderRecord| x.name@),
            paths == records@.map_values(|x: FolderRecord| x.local_path@),
            shows == records@.map_values(|x: FolderRecord| x.show_subfolders),
            active_id == aid,
            match apath {
                Some(a) => active_resolved matches Some(x) && x@ == spec_resolve_folder_path(database_path@, a),
                None => active_resolved is None,
            },
            ({
                let (f, a) = choose_fold(ids, names, paths, shows, is_dir@, k as int, aid, apath, database_path@);
                &&& folders_view(available@) == f
                &&& opt_int(active) == a
            }),
            available.len() <= k,
        decreases records.len() - k,
    {
        let ghost before = folders_view(available@);
        let rec = &records[k];
        assert(ids[k as int] == rec.id && names[k as int] == rec.name@ && paths[k as int] == rec.local_path@
            && shows[k as int] == rec.show_subfolders);
        if is_dir[k] {
            let pc = chars_of(rec.local_path.as_str());
            let by_path = match &active_resolved {
                Some(a) => path_eq_exec(a.as_slice(), pc.as_slice()),
                None => false,
            };
            let is_active = match active_id {
                Some(id) => id == rec.id,
                None => false,
            } || by_path;
            if is_active {
                active = Some(available.len());
            }
            let nc = chars_of(rec.name.as_str());
            let trimmed = trim_vec(nc.as_slice(), &CharClass::Whitespace);
            let name = if trimmed.len() == 0 {
                match file_name_exec(pc.as_slice()) {
                    Some(n) => string_of(n.as_slice(), 0, n.len()),
                    None => string_of(pc.as_slice(), 0, pc.len()),
                }
            } else {
                string_of(nc.as_slice(), 0, nc.len())
            };
            proof {
                assert(nc@.subrange(0, nc@.len() as int) =~= nc@);
                assert(pc@.subrange(0, pc@.len() as int) =~= pc@);
                if let Some(n) = file_name(pc@) {
                    assert(n.subrange(0, n.len() as int) =~= n);
                }
            }
            available.push(NoteFolder { name, path: string_of(pc.as_slice(), 0, pc.len()), show_subfolders: rec.show_subfolders });
            assert(folders_view(available@) =~= before.push(available@.last()@));
        }
        k = k + 1;
    }
    assert(records@.len() == k);
    if available.len() == 0 {
        return Err(DiscoveryError::NoAvailableFolders);
    }
    let active_folder = match active {
        Some(a) => a,
        None => 0,
    };
    Ok((available, active_folder))
}

/// The note root to open: the one given on the command line (or in its
/// environment variable), else the one of the configuration file, if any.
pub fn chosen_notes_dir(command_line: Option<&str>, file: Option<&str>) -> (r: Option<String>)
    ensures
        match command_line {
            Some(c) => r matches Some(v) && v@ == c@,
            None => match file {
                Some(f) => r matches Some(v) && v@ == f@,
                None => r is None,
            },
        },
{
    match command_line {
        Some(c) => Some(c.to_owned()),
        None => match file {
            Some(f) => Some(f.to_owned()),
            None => None,
        },
    }
}

/// The folder that a configured note root `path` gives: named after its
/// last component (the whole path when it has none), with subfolders shown.
pub fn root_folder(path: &str) -> (r: NoteFolder)
    ensures
        r.path@ == path@,
        r.name@ == match file_name(path@) {
            Some(n) => n,
            None => path@,
        },
        r.show_subfolders,
{
    let pc = chars_of(path);
    let name = match file_name_exec(pc.as_slice()) {
        Some(n) => string_of(n.as_slice(), 0, n.len()),
        None => path.to_owned(),
    };
    proof {
        if let Some(n) = file_name(path@) {
            assert(name@ =~= n);
        }
    }
    NoteFolder { name, path: path.to_owned(), show_subfolders: true }
}

} // verus!
