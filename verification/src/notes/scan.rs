//! Rules of note-folder scanning: which files are notes, which directories
//! are left out, and how scanned paths become note paths.

use vstd::prelude::*;
use vstd::utf8::{decode_utf8, valid_utf8};

use crate::notes::model::{notes_view, Note, NoteModel};
use crate::notes::search::{lemma_path_order, path_order, path_order_exec};
use crate::path::{comps_view, components, components_exec, file_name, file_name_exec, strip_prefix, strip_prefix_exec};
use crate::text::{strings_view, lowercase_str, str_lowercase, utf8_text, chars_eq, chars_of, eq_ignore_ascii_case, eq_ignore_ascii_case_exec, rfind_char, rfind_char_exec};

verus! {

#[verifier::external_type_specification]
#[verifier::external_body]
pub struct ExRegex(regex::Regex);

/// Whether `pattern` is a regular expression that the `regex` crate accepts.
pub uninterp spec fn regex_compiles(pattern: Seq<char>) -> bool;

/// Whether the `regex` crate's expression `pattern` matches somewhere in `text`.
pub uninterp spec fn regex_is_match(pattern: Seq<char>, text: Seq<char>) -> bool;

/// A compiled pattern for subfolder names to leave out, with its source.
pub struct SubfolderPattern {
    pattern: String,
    regex: regex::Regex,
}

impl SubfolderPattern {
    pub closed spec fn source(&self) -> Seq<char> {
        self.pattern@
    }
}

/// `regex::Regex::new`: compiles `pattern`, keeping its source beside it;
/// `None` when the crate rejects the pattern.
#[verifier::external_body]
fn compile_pattern(pattern: &str) -> (r: Option<SubfolderPattern>)
    ensures
        r is Some == regex_compiles(pattern@),
        r matches Some(p) ==> p.source() == pattern@,
{
    match regex::Regex::new(pattern) {
        Ok(regex) => Some(SubfolderPattern { pattern: pattern.to_string(), regex }),
        Err(_) => None,
    }
}

/// `regex::Regex::is_match` of the compiled pattern on `text`.
#[verifier::external_body]
fn pattern_matches(p: &SubfolderPattern, text: &str) -> (r: bool)
    ensures
        r == regex_is_match(p.source(), text@),
{
    p.regex.is_match(text)
}

pub open spec fn patterns_view(v: Seq<SubfolderPattern>) -> Seq<Seq<char>> {
    v.map_values(|p: SubfolderPattern| p.source())
}

/// The patterns that compile, in order; the others are skipped.
pub open spec fn compiled_patterns(sources: Seq<Seq<char>>) -> Seq<Seq<char>>
    decreases sources.len(),
{
    if sources.len() == 0 {
        seq![]
    } else {
        compiled_patterns(sources.drop_last()) + if regex_compiles(sources.last()) {
            seq![sources.last()]
        } else {
            seq![]
        }
    }
}

/// Compiles the ignored-subfolder patterns, skipping invalid ones.
pub fn compile_patterns(sources: &Vec<String>) -> (r: Vec<SubfolderPattern>)
    ensures
        patterns_view(r@) == compiled_patterns(strings_view(sources@)),
{
    let ghost sv = strings_view(sources@);
    let mut r: Vec<SubfolderPattern> = Vec::new();
    let mut k: usize = 0;
    while k < sources.len()
        invariant
            k <= sources.len(),
            sv == strings_view(sources@),
            patterns_view(r@) == compiled_patterns(sv.take(k as int)),
        decreases sources.len() - k,
    {
        let ghost before = patterns_view(r@);
        assert(sv.take(k + 1).drop_last() =~= sv.take(k as int));
        assert(sv.take(k + 1).last() == sources@[k as int]@);
        match compile_pattern(sources[k].as_str()) {
            Some(p) => {
                r.push(p);
                assert(patterns_view(r@) =~= before + seq![sources@[k as int]@]);
            },
            None => {
                assert(patterns_view(r@) =~= before + Seq::<Seq<char>>::empty());
            },
        }
        k = k + 1;
    }
    assert(sv.take(sources.len() as int) =~= sv);
    r
}

/// Directories that never hold notes.
pub open spec fn is_reserved_directory(name: Seq<char>) -> bool {
    ||| name == seq!['.', 'g', 'i', 't']
    ||| name == seq!['m', 'e', 'd', 'i', 'a']
    ||| name == seq!['a', 't', 't', 'a', 'c', 'h', 'm', 'e', 'n', 't', 's']
    ||| name == seq!['t', 'r', 'a', 's', 'h']
}

/// Whether the walk enters an entry: the root, every file, and every
/// directory that is neither reserved nor matched by an ignored pattern.
pub open spec fn spec_keeps_entry(depth: nat, is_dir: bool, name: Seq<char>, patterns: Seq<Seq<char>>) -> bool {
    depth == 0 || !is_dir || (!is_reserved_directory(name) && forall|k: int|
        0 <= k < patterns.len() ==> !regex_is_match(#[trigger] patterns[k], name))
}

/// Whether the scan enters a directory entry (see [`spec_keeps_entry`]).
pub fn keeps_entry(depth: usize, is_dir: bool, name: &str, patterns: &Vec<SubfolderPattern>) -> (r: bool)
    ensures
        r == spec_keeps_entry(depth as nat, is_dir, name@, patterns_view(patterns@)),
{
    if depth == 0 || !is_dir {
        return true;
    }
    let n = chars_of(name);
    let reserved = chars_eq(n.as_slice(), &['.', 'g', 'i', 't']) || chars_eq(n.as_slice(), &['m', 'e', 'd', 'i', 'a'])
        || chars_eq(n.as_slice(), &['a', 't', 't', 'a', 'c', 'h', 'm', 'e', 'n', 't', 's']) || chars_eq(
        n.as_slice(),
        &['t', 'r', 'a', 's', 'h'],
    );
    assert(reserved == is_reserved_directory(name@)) by {
        assert(['.', 'g', 'i', 't']@ =~= seq!['.', 'g', 'i', 't']);
        assert(['m', 'e', 'd', 'i', 'a']@ =~= seq!['m', 'e', 'd', 'i', 'a']);
        assert(['a', 't', 't', 'a', 'c', 'h', 'm', 'e', 'n', 't', 's']@ =~= seq!['a', 't', 't', 'a', 'c', 'h', 'm', 'e', 'n', 't', 's']);
        assert(['t', 'r', 'a', 's', 'h']@ =~= seq!['t', 'r', 'a', 's', 'h']);
    }
    if reserved {
        return false;
    }
    let ghost pv = patterns_view(patterns@);
    let mut k: usize = 0;
    while k < patterns.len()
        invariant
            k <= patterns.len(),
            pv == patterns_view(patterns@),
            forall|m: int| 0 <= m < k ==> !regex_is_match(#[trigger] pv[m], name@),
            pv.len() == patterns.len(),
            !reserved,
            reserved == is_reserved_directory(name@),
            depth != 0 && is_dir,
        decreases patterns.len() - k,
    {
        assert(pv[k as int] == patterns@[k as int].source());
        if pattern_matches(&patterns[k], name) {
            assert(regex_is_match(pv[k as int], name@));
            return false;
        }
        k = k + 1;
    }
    true
}

/// The extension of the file name of `p` (`Path::extension`): the text after
/// its last `.`, unless that dot leads the name.
pub open spec fn extension(p: Seq<char>) -> Option<Seq<char>> {
    match file_name(p) {
        Some(n) => match rfind_char(n, '.') {
            Some(d) => if d == 0 {
                None
            } else {
                Some(n.skip(d + 1))
            },
            None => None,
        },
        None => None,
    }
}

/// Note files have the extension `md`, `txt` or `markdown` (any ASCII case).
pub open spec fn spec_is_note(p: Seq<char>) -> bool {
    match extension(p) {
        Some(e) => eq_ignore_ascii_case(e, seq!['m', 'd']) || eq_ignore_ascii_case(e, seq!['t', 'x', 't'])
            || eq_ignore_ascii_case(e, seq!['m', 'a', 'r', 'k', 'd', 'o', 'w', 'n']),
        None => false,
    }
}

/// Whether the file at `path` is a note, by its extension.
pub fn is_note(path: &str) -> (r: bool)
    ensures
        r == spec_is_note(path@),
{
    let p = chars_of(path);
    match file_name_exec(p.as_slice()) {
        Some(n) => match rfind_char_exec(n.as_slice(), n.len(), '.') {
            Some(d) => {
                assert(n@.take(n.len() as int) =~= n@);
                if d == 0 {
                    false
                } else {
                    assert(n@.skip(d + 1) =~= n@.subrange(d + 1, n.len() as int));
                    eq_ignore_ascii_case_exec(n.as_slice(), d + 1, n.len(), &['m', 'd'])
                        || eq_ignore_ascii_case_exec(n.as_slice(), d + 1, n.len(), &['t', 'x', 't'])
                        || eq_ignore_ascii_case_exec(
                        n.as_slice(),
                        d + 1,
                        n.len(),
                        &['m', 'a', 'r', 'k', 'd', 'o', 'w', 'n'],
                    )
                }
            },
            None => {
                assert(n@.take(n.len() as int) =~= n@);
                false
            },
        },
        None => false,
    }
}

/// Why a scanned path is no note path.
#[derive(Clone, Copy, Debug, PartialEq, Eq)]
pub enum NotePathError {
    /// The path lies outside the note root.
    OutsideRoot,
    /// The path is the root itself or climbs out of it with `..`.
    Unsafe,
}

/// `path` relative to `root`, when it lies strictly inside it without `..`.
pub open spec fn spec_safe_relative_path(root: Seq<char>, path: Seq<char>) -> Result<Seq<char>, NotePathError> {
    match strip_prefix(path, root) {
        None => Err(NotePathError::OutsideRoot),
        Some(rel) => if rel.len() == 0 || components(rel).contains(seq!['.', '.']) {
            Err(NotePathError::Unsafe)
        } else {
            Ok(rel)
        },
    }
}

/// The path of a scanned entry relative to the note root; refused when it
/// lies outside the root, is the root, or holds `..`.
pub fn safe_relative_path(root: &str, path: &str) -> (r: Result<String, NotePathError>)
    ensures
        match spec_safe_relative_path(root@, path@) {
            Ok(rel) => r matches Ok(v) && v@ == rel,
            Err(e) => r == Err::<String, NotePathError>(e),
        },
{
    let rc = chars_of(root);
    let pc = chars_of(path);
    match strip_prefix_exec(pc.as_slice(), rc.as_slice()) {
        None => Err(NotePathError::OutsideRoot),
        Some(rel) => {
            let relc = chars_of(rel.as_str());
            if relc.len() == 0 {
                return Err(NotePathError::Unsafe);
            }
            let comps = components_exec(relc.as_slice());
            let ghost cv = comps_view(comps@);
            let mut k: usize = 0;
            while k < comps.len()
                invariant
                    k <= comps.len(),
                    cv == comps_view(comps@),
                    forall|m: int| 0 <= m < k ==> cv[m] != seq!['.', '.'],
                    cv.len() == comps.len(),
                    cv == components(rel@),
                    rel@ == relc@,
                    relc.len() > 0,
                    strip_prefix(path@, root@) == Some(rel@),
                decreases comps.len() - k,
            {
                assert(cv[k as int] == comps@[k as int]@);
                if chars_eq(comps[k].as_slice(), &['.', '.']) {
                    assert(['.', '.']@ =~= seq!['.', '.']);
                    assert(cv.contains(seq!['.', '.']));
                    return Err(NotePathError::Unsafe);
                }
                assert(['.', '.']@ =~= seq!['.', '.']);
                k = k + 1;
            }
            assert(!cv.contains(seq!['.', '.']));
            Ok(rel)
        },
    }
}

// ---------------------------------------------------------------------------
// The inventory of a note folder.

/// The byte-order mark that a UTF-8 file may start with.
pub open spec fn utf8_bom() -> Seq<u8> {
    seq![0xefu8, 0xbbu8, 0xbfu8]
}

/// The searchable text of a note file's bytes: after an optional byte-order
/// mark, the UTF-8 text in lower case; nothing when the bytes are not UTF-8.
pub open spec fn spec_searchable_text(bytes: Seq<u8>) -> Seq<char> {
    let b = if bytes.len() >= 3 && bytes.take(3) == utf8_bom() {
        bytes.skip(3)
    } else {
        bytes
    };
    if valid_utf8(b) {
        str_lowercase(decode_utf8(b))
    } else {
        seq![]
    }
}

/// The searchable text of a note file (see [`spec_searchable_text`]).
pub fn searchable_text(bytes: &[u8]) -> (r: String)
    ensures
        r@ == spec_searchable_text(bytes@),
{
    let has_bom = bytes.len() >= 3 && bytes[0] == 0xef && bytes[1] == 0xbb && bytes[2] == 0xbf;
    assert(has_bom == (bytes@.len() >= 3 && bytes@.take(3) == utf8_bom())) by {
        if bytes@.len() >= 3 && bytes@.take(3) == utf8_bom() {
            assert(bytes@.take(3)[0] == bytes@[0]);
            assert(bytes@.take(3)[1] == bytes@[1]);
            assert(bytes@.take(3)[2] == bytes@[2]);
        }
        if has_bom {
            assert(bytes@.take(3) =~= utf8_bom());
        }
    }
    let text = if has_bom {
        let (_, rest) = bytes.split_at(3);
        assert(rest@ =~= bytes@.skip(3));
        utf8_text(rest)
    } else {
        utf8_text(bytes)
    };
    match text {
        Some(t) => lowercase_str(t.as_str()),
        None => String::new(),
    }
}

/// What the file system reported of an entry's metadata.
#[derive(Clone, Copy, Debug, PartialEq, Eq)]
pub struct EntryMetadata {
    pub size: u64,
    /// Modification time in nanoseconds since the Unix epoch (0 when the
    /// system does not report one).
    pub modified: i128,
}

/// One entry of the walk over a note folder, in walk order.
#[derive(Clone, Debug, PartialEq, Eq)]
pub struct ScanEntry {
    /// The entry's path, starting with the walked root.
    pub path: String,
    /// 0 for the root, 1 for its children, and so on.
    pub depth: usize,
    pub is_dir: bool,
    pub is_file: bool,
    /// `None` when the metadata could not be read.
    pub metadata: Option<EntryMetadata>,
    /// The file's bytes (empty when it could not be read).
    pub contents: Vec<u8>,
}

/// Why a scan failed.
#[derive(Clone, Debug, PartialEq, Eq)]
pub enum ScanError {
    /// The entry at this path is no note path.
    Path(NotePathError, String),
    /// The metadata of the note at this path could not be read.
    Metadata(String),
}

/// The notes of a folder, in walk order, and its subfolders relative to it,
/// in path order.
#[derive(Debug, PartialEq, Eq)]
pub struct NoteInventory {
    pub notes: Vec<Note>,
    pub subfolders: Vec<String>,
}

/// Inserts path `x` into `sorted` after every path it does not precede.
pub open spec fn insert_path(sorted: Seq<Seq<char>>, x: Seq<char>) -> Seq<Seq<char>>
    decreases sorted.len(),
{
    if sorted.len() == 0 {
        seq![x]
    } else if path_order(x, sorted.last()) >= 0 {
        sorted.push(x)
    } else {
        insert_path(sorted.drop_last(), x).push(sorted.last())
    }
}

/// Paths in path order; equal paths keep their order.
pub open spec fn sort_paths(s: Seq<Seq<char>>) -> Seq<Seq<char>>
    decreases s.len(),
{
    if s.len() == 0 {
        s
    } else {
        insert_path(sort_paths(s.drop_last()), s.last())
    }
}

proof fn lemma_insert_path_at(sorted: Seq<Seq<char>>, x: Seq<char>, j: int)
    requires
        0 <= j <= sorted.len(),
        forall|k: int| j <= k < sorted.len() ==> path_order(x, #[trigger] sorted[k]) < 0,
        j > 0 ==> path_order(x, sorted[j - 1]) >= 0,
    ensures
        insert_path(sorted, x) == sorted.take(j).push(x) + sorted.skip(j),
    decreases sorted.len(),
{
    if sorted.len() == 0 {
        assert(sorted.take(j).push(x) + sorted.skip(j) =~= seq![x]);
    } else if path_order(x, sorted.last()) >= 0 {
        assert(j == sorted.len());
        assert(sorted.take(j).push(x) + sorted.skip(j) =~= sorted.push(x));
    } else {
        let d = sorted.drop_last();
        lemma_insert_path_at(d, x, j);
        assert((d.take(j).push(x) + d.skip(j)).push(sorted.last()) =~= sorted.take(j).push(x) + sorted.skip(j));
    }
}

fn insert_path_exec(v: &mut Vec<String>, x: String)
    ensures
        strings_view(final(v)@) == insert_path(strings_view(old(v)@), x@),
{
    let ghost ov = strings_view(v@);
    let mut j = v.len();
    while j > 0 && path_order_exec(x.as_str(), v[j - 1].as_str()) < 0
        invariant
            j <= v.len(),
            ov == strings_view(v@),
            forall|k: int| j <= k < v.len() ==> path_order(x@, #[trigger] ov[k]) < 0,
        decreases j,
    {
        j = j - 1;
    }
    proof {
        lemma_insert_path_at(ov, x@, j as int);
    }
    v.insert(j, x);
    assert(strings_view(v@) =~= ov.take(j as int).push(x@) + ov.skip(j as int));
}

/// Sorts paths by path order (a stable insertion sort).
pub fn sort_paths_exec(paths: Vec<String>) -> (r: Vec<String>)
    ensures
        strings_view(r@) == sort_paths(strings_view(paths@)),
{
    let ghost orig = strings_view(paths@);
    let mut r: Vec<String> = Vec::new();
    let mut k: usize = 0;
    while k < paths.len()
        invariant
            k <= paths.len(),
            orig == strings_view(paths@),
            strings_view(r@) == sort_paths(orig.take(k as int)),
        decreases paths.len() - k,
    {
        assert(orig.take(k + 1).drop_last() =~= orig.take(k as int));
        insert_path_exec(&mut r, paths[k].clone());
        k = k + 1;
    }
    assert(orig.take(paths.len() as int) =~= orig);
    r
}

/// What one walk entry adds to the notes and subfolders found so far.
pub open spec fn entry_step(
    root: Seq<char>,
    include_subfolders: bool,
    e: ScanEntry,
    notes: Seq<NoteModel>,
    dirs: Seq<Seq<char>>,
) -> Result<(Seq<NoteModel>, Seq<Seq<char>>), ScanError> {
    if !include_subfolders && e.depth > 1 {
        Ok((notes, dirs))
    } else if include_subfolders && e.depth > 0 && e.is_dir {
        match spec_safe_relative_path(root, e.path@) {
            Ok(rel) => Ok((notes, dirs.push(rel))),
            Err(k) => Err(ScanError::Path(k, e.path)),
        }
    } else if !e.is_file || !spec_is_note(e.path@) {
        Ok((notes, dirs))
    } else {
        match spec_safe_relative_path(root, e.path@) {
            Err(k) => Err(ScanError::Path(k, e.path)),
            Ok(rel) => match e.metadata {
                None => Err(ScanError::Metadata(e.path)),
                Some(m) => Ok(
                    (
                        notes.push(
                            NoteModel {
                                path: rel,
                                size: m.size,
                                modified: m.modified,
                                text: spec_searchable_text(e.contents@),
                            },
                        ),
                        dirs,
                    ),
                ),
            },
        }
    }
}

/// The notes and subfolders of the walk `entries` under `root`, in walk
/// order, or the first entry's error.
pub open spec fn inventory_from(root: Seq<char>, include_subfolders: bool, entries: Seq<ScanEntry>) -> Result<
    (Seq<NoteModel>, Seq<Seq<char>>),
    ScanError,
>
    decreases entries.len(),
{
    if entries.len() == 0 {
        Ok((seq![], seq![]))
    } else {
        match inventory_from(root, include_subfolders, entries.drop_last()) {
            Err(e) => Err(e),
            Ok((notes, dirs)) => entry_step(root, include_subfolders, entries.last(), notes, dirs),
        }
    }
}

/// The inventory of a walk: its notes in walk order and its subfolders in
/// path order, or the first error.
pub open spec fn spec_scan(root: Seq<char>, include_subfolders: bool, entries: Seq<ScanEntry>) -> Result<
    (Seq<NoteModel>, Seq<Seq<char>>),
    ScanError,
> {
    match inventory_from(root, include_subfolders, entries) {
        Ok((notes, dirs)) => Ok((notes, sort_paths(dirs))),
        Err(e) => Err(e),
    }
}

/// Once a prefix of the walk fails, the whole walk fails the same way.
proof fn lemma_inventory_error_stays(root: Seq<char>, include_subfolders: bool, entries: Seq<ScanEntry>, k: int)
    requires
        0 <= k <= entries.len(),
        inventory_from(root, include_subfolders, entries.take(k)) is Err,
    ensures
        inventory_from(root, include_subfolders, entries) == inventory_from(
            root,
            include_subfolders,
            entries.take(k),
        ),
    decreases entries.len() - k,
{
    if k < entries.len() {
        assert(entries.take(k + 1).drop_last() =~= entries.take(k));
        lemma_inventory_error_stays(root, include_subfolders, entries, k + 1);
    } else {
        assert(entries.take(k) =~= entries);
    }
}

/// The inventory of the walk `entries` over the folder `root` (see
/// [`spec_scan`]); subfolders are collected when `include_subfolders`.
pub fn scan_with_subfolders(root: &str, include_subfolders: bool, entries: &Vec<ScanEntry>) -> (r: Result<
    NoteInventory,
    ScanError,
>)
    ensures
        match spec_scan(root@, include_subfolders, entries@) {
            Ok((notes, dirs)) => r matches Ok(inv) && notes_view(inv.notes@) == notes && strings_view(
                inv.subfolders@,
            ) == dirs,
            Err(e) => r == Err::<NoteInventory, ScanError>(e),
        },
{
    let mut notes: Vec<Note> = Vec::new();
    let mut dirs: Vec<String> = Vec::new();
    let mut k: usize = 0;
    assert(entries@.take(0) =~= Seq::<ScanEntry>::empty());
    assert(notes_view(notes@) =~= Seq::<NoteModel>::empty());
    assert(strings_view(dirs@) =~= Seq::<Seq<char>>::empty());
    while k < entries.len()
        invariant
            k <= entries.len(),
            inventory_from(root@, include_subfolders, entries@.take(k as int)) == Ok::<
                (Seq<NoteModel>, Seq<Seq<char>>),
                ScanError,
            >((notes_view(notes@), strings_view(dirs@))),
        decreases entries.len() - k,
    {
        let e = &entries[k];
        assert(entries@.take(k + 1).drop_last() =~= entries@.take(k as int));
        assert(entries@.take(k + 1).last() == *e);
        if !include_subfolders && e.depth > 1 {
        } else if include_subfolders && e.depth > 0 && e.is_dir {
            match safe_relative_path(root, e.path.as_str()) {
                Ok(rel) => {
                    let ghost before = strings_view(dirs@);
                    dirs.push(rel);
                    assert(strings_view(dirs@) =~= before.push(rel@));
                },
                Err(kind) => {
                    proof {
                        lemma_inventory_error_stays(root@, include_subfolders, entries@, k + 1);
                    }
                    return Err(ScanError::Path(kind, e.path.clone()));
                },
            }
        } else if !e.is_file || !is_note(e.path.as_str()) {
        } else {
            match safe_relative_path(root, e.path.as_str()) {
                Err(kind) => {
                    proof {
                        lemma_inventory_error_stays(root@, include_subfolders, entries@, k + 1);
                    }
                    return Err(ScanError::Path(kind, e.path.clone()));
                },
                Ok(rel) => match e.metadata {
                    None => {
                        proof {
                            lemma_inventory_error_stays(root@, include_subfolders, entries@, k + 1);
                        }
                        return Err(ScanError::Metadata(e.path.clone()));
                    },
                    Some(m) => {
                        let text = searchable_text(e.contents.as_slice());
                        let ghost before = notes_view(notes@);
                        let note = Note { relative_path: rel, size: m.size, modified: m.modified, search_text_lowercase: text };
                        notes.push(note);
                        assert(notes_view(notes@) =~= before.push(note@));
                    },
                },
            }
        }
        k = k + 1;
    }
    assert(entries@.take(entries.len() as int) =~= entries@);
    let subfolders = sort_paths_exec(dirs);
    Ok(NoteInventory { notes, subfolders })
}

/// The inventory of a full walk of `root`, subfolders included.
pub fn scan(root: &str, entries: &Vec<ScanEntry>) -> (r: Result<NoteInventory, ScanError>)
    ensures
        match spec_scan(root@, true, entries@) {
            Ok((notes, dirs)) => r matches Ok(inv) && notes_view(inv.notes@) == notes && strings_view(
                inv.subfolders@,
            ) == dirs,
            Err(e) => r == Err::<NoteInventory, ScanError>(e),
        },
{
    scan_with_subfolders(root, true, entries)
}

/// `s` is in path order.
pub open spec fn paths_sorted(s: Seq<Seq<char>>) -> bool {
    forall|i: int, j: int| 0 <= i < j < s.len() ==> path_order(#[trigger] s[i], #[trigger] s[j]) <= 0
}

proof fn lemma_insert_path_multiset(s: Seq<Seq<char>>, x: Seq<char>)
    ensures
        insert_path(s, x).to_multiset() == s.to_multiset().insert(x),
    decreases s.len(),
{
    broadcast use vstd::seq_lib::group_to_multiset_ensures;

    if s.len() == 0 {
        assert(seq![x] =~= Seq::<Seq<char>>::empty().push(x));
    } else if path_order(x, s.last()) >= 0 {
    } else {
        lemma_insert_path_multiset(s.drop_last(), x);
        assert(s =~= s.drop_last().push(s.last()));
    }
}

proof fn lemma_insert_path_sorted(s: Seq<Seq<char>>, x: Seq<char>)
    requires
        paths_sorted(s),
    ensures
        paths_sorted(insert_path(s, x)),
    decreases s.len(),
{
    broadcast use vstd::seq_lib::group_to_multiset_ensures;

    if s.len() == 0 {
    } else if path_order(x, s.last()) >= 0 {
        let r = s.push(x);
        assert forall|i: int, j: int| 0 <= i < j < r.len() implies path_order(#[trigger] r[i], #[trigger] r[j]) <= 0 by {
            if j == s.len() {
                lemma_path_order(s.last(), x, x);
                if i < s.len() - 1 {
                    assert(path_order(s[i], s[s.len() - 1]) <= 0);
                    lemma_path_order(s[i], s.last(), x);
                }
            }
        }
    } else {
        let d = s.drop_last();
        assert forall|i: int, j: int| 0 <= i < j < d.len() implies path_order(#[trigger] d[i], #[trigger] d[j]) <= 0 by {
            assert(d[i] == s[i] && d[j] == s[j]);
        }
        lemma_insert_path_sorted(d, x);
        lemma_insert_path_multiset(d, x);
        let t = insert_path(d, x);
        let r = t.push(s.last());
        assert forall|i: int, j: int| 0 <= i < j < r.len() implies path_order(#[trigger] r[i], #[trigger] r[j]) <= 0 by {
            if j == t.len() {
                let e = t[i];
                assert(t.contains(e));
                assert(t.to_multiset().count(e) > 0);
                if e == x {
                    lemma_path_order(x, s.last(), s.last());
                } else {
                    assert(d.to_multiset().count(e) > 0);
                    assert(d.contains(e));
                    let k = choose|k: int| 0 <= k < d.len() && d[k] == e;
                    assert(s[k] == e);
                    assert(path_order(s[k], s[s.len() - 1]) <= 0);
                }
            }
        }
    }
}

/// Sorting paths puts them in path order and keeps every path.
pub proof fn lemma_sort_paths(s: Seq<Seq<char>>)
    ensures
        paths_sorted(sort_paths(s)),
        sort_paths(s).to_multiset() == s.to_multiset(),
    decreases s.len(),
{
    broadcast use vstd::seq_lib::group_to_multiset_ensures;

    if s.len() > 0 {
        lemma_sort_paths(s.drop_last());
        lemma_insert_path_sorted(sort_paths(s.drop_last()), s.last());
        lemma_insert_path_multiset(sort_paths(s.drop_last()), s.last());
        assert(s =~= s.drop_last().push(s.last()));
    }
}

/// A scan lists the subfolders it met, each as often as the walk met it,
/// in path order.
pub proof fn lemma_scan_subfolders_sorted(root: Seq<char>, include_subfolders: bool, entries: Seq<ScanEntry>)
    ensures
        inventory_from(root, include_subfolders, entries) matches Ok((notes, met)) ==> (spec_scan(
            root,
            include_subfolders,
            entries,
        ) matches Ok((n, dirs)) && paths_sorted(dirs) && dirs.to_multiset() == met.to_multiset()),
{
    if let Ok((notes, met)) = inventory_from(root, include_subfolders, entries) {
        lemma_sort_paths(met);
    }
}

/// `path` is the path, relative to `root`, of a note file of the walk; a
/// top-level one (depth at most 1) unless subfolders are included.
pub open spec fn note_file_of_walk(
    root: Seq<char>,
    include_subfolders: bool,
    entries: Seq<ScanEntry>,
    path: Seq<char>,
) -> bool {
    exists|i: int|
        0 <= i < entries.len() && entries[i].is_file && spec_is_note(#[trigger] entries[i].path@)
            && (include_subfolders || entries[i].depth <= 1)
            && spec_safe_relative_path(root, entries[i].path@) == Ok::<Seq<char>, NotePathError>(path)
}

proof fn lemma_inventory_notes_from_walk(root: Seq<char>, include_subfolders: bool, entries: Seq<ScanEntry>)
    ensures
        inventory_from(root, include_subfolders, entries) matches Ok((notes, dirs)) ==> forall|k: int|
            0 <= k < notes.len() ==> note_file_of_walk(root, include_subfolders, entries, #[trigger] notes[k].path),
    decreases entries.len(),
{
    if entries.len() > 0 {
        let d = entries.drop_last();
        lemma_inventory_notes_from_walk(root, include_subfolders, d);
        assert forall|p: Seq<char>| note_file_of_walk(root, include_subfolders, d, p) implies note_file_of_walk(
            root,
            include_subfolders,
            entries,
            p,
        ) by {
            let i = choose|i: int|
                0 <= i < d.len() && d[i].is_file && spec_is_note(#[trigger] d[i].path@) && (include_subfolders
                    || d[i].depth <= 1) && spec_safe_relative_path(root, d[i].path@) == Ok::<
                    Seq<char>,
                    NotePathError,
                >(p);
            assert(entries[i] == d[i]);
        }
        let e = entries.last();
        assert(entries[entries.len() - 1] == e);
    }
}

/// Every note a scan finds is a note file of the walk, strictly inside the
/// root and without `..`, named by its path relative to the root; without
/// subfolders, only top-level files count.
pub proof fn lemma_scan_notes_come_from_note_files(root: Seq<char>, include_subfolders: bool, entries: Seq<ScanEntry>)
    ensures
        spec_scan(root, include_subfolders, entries) matches Ok((notes, dirs)) ==> forall|k: int|
            0 <= k < notes.len() ==> note_file_of_walk(root, include_subfolders, entries, #[trigger] notes[k].path),
{
    lemma_inventory_notes_from_walk(root, include_subfolders, entries);
}

proof fn lemma_inventory_without_subfolders(root: Seq<char>, entries: Seq<ScanEntry>)
    ensures
        inventory_from(root, false, entries) matches Ok((notes, dirs)) ==> dirs.len() == 0,
    decreases entries.len(),
{
    if entries.len() > 0 {
        lemma_inventory_without_subfolders(root, entries.drop_last());
    }
}

/// Without subfolders a scan lists no subfolder, and each note it finds is
/// a top-level note file of the walk.
pub proof fn lemma_scan_without_subfolders(root: Seq<char>, entries: Seq<ScanEntry>)
    ensures
        spec_scan(root, false, entries) matches Ok((notes, dirs)) ==> dirs.len() == 0 && forall|k: int|
            0 <= k < notes.len() ==> note_file_of_walk(root, false, entries, #[trigger] notes[k].path),
{
    lemma_inventory_without_subfolders(root, entries);
    lemma_inventory_notes_from_walk(root, false, entries);
    if let Ok((notes, met)) = inventory_from(root, false, entries) {
        assert(met.len() == 0);
        assert(sort_paths(met) == met);
    }
}

} // verus!
