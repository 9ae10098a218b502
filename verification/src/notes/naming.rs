//! Naming of notes: the title of a new note, its first heading, and the file
//! name that a note's content gives it.

use vstd::prelude::*;

use unicode_segmentation::UnicodeSegmentation;

use crate::text::strings_view;
use crate::notes::scan::extension;
use crate::path::{
    comps_view, components, components_exec, file_name, file_name_exec, join_path, join_path_exec,
    parent_or_empty, parent_or_empty_exec, path_eq, path_eq_exec,
};
use crate::text::{
    eq_ignore_ascii_case, eq_ignore_ascii_case_exec, rfind_char_exec,
    chars_of, decimal, find_char_exec, find_exec, find_from, is_white_space, is_whitespace, matches_at,
    matches_at_exec, padded_decimal, push_char, push_decimal, slice_to_vec, trim, trim_start, trim_start_vec,
    trim_vec, CharClass,
};

verus! {

broadcast use vstd::string::group_string_axioms;

/// A date and time of day to the second, in the proleptic Gregorian calendar.
#[derive(Clone, Copy, Debug, PartialEq, Eq)]
pub struct NoteTime {
    pub year: i32,
    pub month: u32,
    pub day: u32,
    pub hour: u32,
    pub minute: u32,
    pub second: u32,
}

pub open spec fn is_leap_year(y: int) -> bool {
    (y % 4 == 0 && y % 100 != 0) || y % 400 == 0
}

pub open spec fn days_in_month(y: int, m: int) -> int {
    if m == 2 {
        if is_leap_year(y) {
            29
        } else {
            28
        }
    } else if m == 4 || m == 6 || m == 9 || m == 11 {
        30
    } else {
        31
    }
}

impl NoteTime {
    /// A real date, in the range of years that `chrono` represents, and a
    /// time of day without leap second.
    pub open spec fn wf(&self) -> bool {
        &&& -262143 <= self.year <= 262142
        &&& 1 <= self.month <= 12
        &&& 1 <= self.day <= days_in_month(self.year as int, self.month as int)
        &&& self.hour < 24
        &&& self.minute < 60
        &&& self.second < 60
    }
}

/// `%Y`: the year with at least four digits, and a sign outside 0..=9999.
pub open spec fn year_text(y: int) -> Seq<char> {
    if 0 <= y <= 9999 {
        padded_decimal(y as nat, 4)
    } else if y < 0 {
        seq!['-'] + padded_decimal((-y) as nat, 4)
    } else {
        seq!['+'] + padded_decimal(y as nat, 4)
    }
}

/// `%Y-%m-%d %Hh%Ms%S`: the time stamp of a new note's title.
pub open spec fn timestamp_text(t: NoteTime) -> Seq<char> {
    year_text(t.year as int) + seq!['-'] + padded_decimal(t.month as nat, 2) + seq!['-'] + padded_decimal(
        t.day as nat,
        2,
    ) + seq![' '] + padded_decimal(t.hour as nat, 2) + seq!['h'] + padded_decimal(t.minute as nat, 2)
        + seq!['s'] + padded_decimal(t.second as nat, 2)
}

/// `chrono`'s `NaiveDateTime::format` with the pattern `%Y-%m-%d %Hh%Ms%S`,
/// on the date and time `t`.  The contract states what `chrono`'s
/// documentation gives for each specifier: `%Y` the year zero-padded to four
/// digits, with a sign before years outside 0..=9999; `%m`, `%d`, `%H`,
/// `%M`, `%S` two zero-padded digits.
#[verifier::external_body]
fn format_timestamp(t: &NoteTime) -> (r: String)
    requires
        t.wf(),
    ensures
        r@ == timestamp_text(*t),
{
    let date = chrono::NaiveDate::from_ymd_opt(t.year, t.month, t.day).unwrap();
    let time = date.and_hms_opt(t.hour, t.minute, t.second).unwrap();
    time.format("%Y-%m-%d %Hh%Ms%S").to_string()
}

pub open spec fn note_prefix() -> Seq<char> {
    seq!['N', 'o', 't', 'e', ' ']
}

/// The title of a note created at `now`: `Note ` and the time stamp.
pub fn new_note_title(now: NoteTime) -> (r: String)
    requires
        now.wf(),
    ensures
        r@ == note_prefix() + timestamp_text(now),
{
    let mut r = String::new();
    push_char(&mut r, 'N');
    push_char(&mut r, 'o');
    push_char(&mut r, 't');
    push_char(&mut r, 'e');
    push_char(&mut r, ' ');
    let stamp = format_timestamp(&now);
    let sc = chars_of(stamp.as_str());
    let ghost start = r@;
    let mut k: usize = 0;
    while k < sc.len()
        invariant
            k <= sc.len(),
            sc@ == stamp@,
            r@ == start + sc@.take(k as int),
        decreases sc.len() - k,
    {
        push_char(&mut r, sc[k]);
        k = k + 1;
        assert(r@ =~= start + sc@.take(k as int));
    }
    assert(sc@.take(sc.len() as int) =~= sc@);
    assert(start =~= note_prefix());
    r
}

/// The first content of a new note: the trimmed title as a level-one heading
/// and an empty line.
pub open spec fn spec_initial_content(title: Seq<char>) -> Seq<char> {
    seq!['#', ' '] + trim(title, CharClass::Whitespace) + seq!['\n', '\n']
}

fn append_chars(r: &mut String, c: &[char])
    ensures
        final(r)@ == old(r)@ + c@,
{
    let ghost start = r@;
    let mut k: usize = 0;
    while k < c.len()
        invariant
            k <= c.len(),
            r@ == start + c@.take(k as int),
        decreases c.len() - k,
    {
        push_char(r, c[k]);
        k = k + 1;
        assert(r@ =~= start + c@.take(k as int));
    }
    assert(c@.take(c.len() as int) =~= c@);
}

/// The file name of a new note titled `title`: the title and `.md`.
pub fn new_note_file_name(title: &str) -> (r: String)
    ensures
        r@ == title@ + seq!['.', 'm', 'd'],
{
    let mut r = title.to_owned();
    push_char(&mut r, '.');
    push_char(&mut r, 'm');
    push_char(&mut r, 'd');
    r
}

/// The content a new note starts with (see [`spec_initial_content`]).
pub fn initial_content(title: &str) -> (r: String)
    ensures
        r@ == spec_initial_content(title@),
{
    let tc = chars_of(title);
    let t = trim_vec(tc.as_slice(), &CharClass::Whitespace);
    let mut r = String::new();
    push_char(&mut r, '#');
    push_char(&mut r, ' ');
    append_chars(&mut r, t.as_slice());
    push_char(&mut r, '\n');
    push_char(&mut r, '\n');
    r
}


// ---------------------------------------------------------------------------
// The name a note's content gives it.

/// `s` without one leading line feed.
pub open spec fn skip_newline(s: Seq<char>) -> Seq<char> {
    if s.len() > 0 && s[0] == '\n' {
        s.skip(1)
    } else {
        s
    }
}

pub open spec fn front_matter_open() -> Seq<char> {
    seq!['-', '-', '-', '\n']
}

pub open spec fn front_matter_close() -> Seq<char> {
    seq!['\n', '-', '-', '-']
}

pub open spec fn comment_open() -> Seq<char> {
    seq!['<', '!', '-', '-']
}

pub open spec fn comment_close() -> Seq<char> {
    seq!['-', '-', '>']
}

/// The content after a leading `---` front-matter block or a leading HTML
/// comment, and one line feed after it; the content itself when it has
/// neither (or when the block is not closed).
pub open spec fn spec_without_leading_metadata(c: Seq<char>) -> Seq<char> {
    if matches_at(c, 0, front_matter_open()) && find_from(c, 4, front_matter_close()) is Some {
        skip_newline(c.skip(find_from(c, 4, front_matter_close()).unwrap() + 4))
    } else if matches_at(c, 0, comment_open()) && find_from(c, 0, comment_close()) is Some {
        skip_newline(c.skip(find_from(c, 0, comment_close()).unwrap() + 3))
    } else {
        c
    }
}

/// The text of `s` before its first line feed.
pub open spec fn first_line(s: Seq<char>) -> Seq<char> {
    match find_from(s, 0, seq!['\n']) {
        Some(e) => s.take(e),
        None => s,
    }
}

/// The first non-blank line after the metadata, trimmed, without a leading
/// `# ` heading marker.
pub open spec fn headline(content: Seq<char>) -> Seq<char> {
    let line = trim(
        first_line(trim(spec_without_leading_metadata(content), CharClass::Whitespace)),
        CharClass::Whitespace,
    );
    if matches_at(line, 0, seq!['#', ' ']) {
        line.skip(2)
    } else {
        line
    }
}

/// Characters that start the emoji a note title may begin with.
pub open spec fn is_emoji_start(c: char) -> bool {
    let v = c as u32;
    ||| 0x1f300 <= v <= 0x1faff
    ||| 0x2702 <= v <= 0x27b0
    ||| 0x1f100 <= v <= 0x1f1ff
    ||| 0x2600 <= v <= 0x26ff
}

/// The number of characters in the first extended grapheme cluster of `s`,
/// as `unicode-segmentation` splits it.
pub uninterp spec fn first_grapheme_len(s: Seq<char>) -> nat;

/// `UnicodeSegmentation::graphemes(s, true)`: the number of characters of
/// the first extended grapheme cluster of `s`, 0 when `s` is empty.  The
/// clusters are non-empty pieces of `s`, so the first one of a non-empty `s`
/// has between one and `s.len()` characters.
#[verifier::external_body]
fn first_grapheme_chars(s: &str) -> (r: usize)
    ensures
        r == first_grapheme_len(s@),
        s@.len() == 0 ==> r == 0,
        s@.len() > 0 ==> 1 <= r <= s@.len(),
{
    match s.graphemes(true).next() {
        Some(g) => g.chars().count(),
        None => 0,
    }
}

/// `value` without a leading emoji: when its first character starts an
/// emoji, the first `grapheme` characters (the emoji's grapheme cluster) and
/// the whitespace after them are dropped.
pub open spec fn spec_strip_emoji_grapheme(value: Seq<char>, grapheme: nat) -> Seq<char> {
    if value.len() > 0 && is_emoji_start(value[0]) {
        trim_start(value.skip(grapheme as int), CharClass::Whitespace)
    } else {
        value
    }
}

pub open spec fn spec_strip_leading_emoji(value: Seq<char>) -> Seq<char> {
    spec_strip_emoji_grapheme(value, first_grapheme_len(value))
}

/// Drops a leading emoji whose grapheme cluster has `grapheme` characters
/// (see [`spec_strip_emoji_grapheme`]).
pub fn strip_emoji_grapheme(value: &str, grapheme: usize) -> (r: String)
    requires
        grapheme <= value@.len(),
    ensures
        r@ == spec_strip_emoji_grapheme(value@, grapheme as nat),
{
    let v = chars_of(value);
    if v.len() > 0 && is_emoji_start_exec(v[0]) {
        let rest = slice_to_vec(v.as_slice(), grapheme, v.len());
        assert(rest@ =~= value@.skip(grapheme as int));
        let t = trim_start_vec(rest.as_slice(), &CharClass::Whitespace);
        let mut r = String::new();
        append_chars(&mut r, t.as_slice());
        r
    } else {
        value.to_owned()
    }
}

fn is_emoji_start_exec(c: char) -> (b: bool)
    ensures
        b == is_emoji_start(c),
{
    let v = c as u32;
    (0x1f300 <= v && v <= 0x1faff) || (0x2702 <= v && v <= 0x27b0) || (0x1f100 <= v && v <= 0x1f1ff) || (0x2600
        <= v && v <= 0x26ff)
}

/// `value` without a leading emoji and the whitespace after it.
pub fn strip_leading_emoji(value: &str) -> (r: String)
    ensures
        r@ == spec_strip_leading_emoji(value@),
{
    let g = first_grapheme_chars(value);
    strip_emoji_grapheme(value, g)
}

pub open spec fn is_unsafe_name_char(c: char) -> bool {
    c == '/' || c == '\\' || c == ':'
}

/// The text so far and whether a gap of whitespace is pending, after
/// reading `s`: `/`, `\` and `:` are dropped, and each run of whitespace
/// between words becomes one space.
pub open spec fn sanitize_fold(s: Seq<char>) -> (Seq<char>, bool)
    decreases s.len(),
{
    if s.len() == 0 {
        (seq![], false)
    } else {
        let (out, gap) = sanitize_fold(s.drop_last());
        let c = s.last();
        if is_unsafe_name_char(c) {
            (out, gap)
        } else if is_white_space(c) {
            (out, out.len() > 0)
        } else if gap {
            (out + seq![' ', c], false)
        } else {
            (out.push(c), false)
        }
    }
}

/// `value` without `/`, `\` and `:`, its words joined by single spaces.
pub open spec fn spec_sanitize(value: Seq<char>) -> Seq<char> {
    sanitize_fold(value).0
}

/// A sanitized name holds no `/`, `\` or `:`, and neither starts nor ends
/// with whitespace.
pub proof fn lemma_sanitize_clean(value: Seq<char>)
    ensures
        forall|k: int|
            0 <= k < spec_sanitize(value).len() ==> !is_unsafe_name_char(#[trigger] spec_sanitize(value)[k]),
        spec_sanitize(value).len() > 0 ==> !is_white_space(spec_sanitize(value)[0]) && !is_white_space(
            spec_sanitize(value).last(),
        ),
        sanitize_fold(value).1 ==> sanitize_fold(value).0.len() > 0,
    decreases value.len(),
{
    if value.len() > 0 {
        lemma_sanitize_clean(value.drop_last());
        let (out, gap) = sanitize_fold(value.drop_last());
        let c = value.last();
        if !is_unsafe_name_char(c) && !is_white_space(c) {
            if gap {
                assert((out + seq![' ', c])[0] == out[0]);
            } else {
                assert(out.push(c)[0] == if out.len() > 0 { out[0] } else { c });
            }
        }
    }
}

/// Sanitizes a file name (see [`spec_sanitize`]).
pub fn sanitize(value: &str) -> (r: String)
    ensures
        r@ == spec_sanitize(value@),
{
    let v = chars_of(value);
    let mut out = String::new();
    let mut count: usize = 0;
    let mut gap = false;
    let mut k: usize = 0;
    while k < v.len()
        invariant
            k <= v.len(),
            v@ == value@,
            (out@, gap) == sanitize_fold(v@.take(k as int)),
            count == out@.len(),
            count + (if gap { 1int } else { 0int }) <= k,
        decreases v.len() - k,
    {
        let c = v[k];
        assert(v@.take(k + 1).drop_last() =~= v@.take(k as int));
        assert(v@.take(k + 1).last() == c);
        if c == '/' || c == '\\' || c == ':' {
        } else if is_whitespace(c) {
            gap = count > 0;
        } else {
            if gap {
                push_char(&mut out, ' ');
                count = count + 1;
            }
            push_char(&mut out, c);
            count = count + 1;
            gap = false;
            assert(out@ =~= sanitize_fold(v@.take(k + 1)).0);
        }
        k = k + 1;
    }
    assert(v@.take(v.len() as int) =~= v@);
    out
}

/// The name a note's content gives it: the sanitized headline without a
/// leading emoji, or `Note` when nothing is left.
pub open spec fn spec_note_name(content: Seq<char>) -> Seq<char> {
    let s = spec_sanitize(spec_strip_leading_emoji(headline(content)));
    if s.len() == 0 {
        seq!['N', 'o', 't', 'e']
    } else {
        s
    }
}

/// The content after leading metadata (see [`spec_without_leading_metadata`]).
pub fn without_leading_metadata(c: &[char]) -> (r: Vec<char>)
    ensures
        r@ == spec_without_leading_metadata(c@),
{
    let fm_open = ['-', '-', '-', '\n'];
    let fm_close = ['\n', '-', '-', '-'];
    let cm_open = ['<', '!', '-', '-'];
    let cm_close = ['-', '-', '>'];
    assert(fm_open@ =~= front_matter_open());
    assert(fm_close@ =~= front_matter_close());
    assert(cm_open@ =~= comment_open());
    assert(cm_close@ =~= comment_close());
    if matches_at_exec(c, 0, &fm_open) {
        match find_exec(c, 4, &fm_close) {
            Some(end) => {
                return after_newline(c, end + 4);
            },
            None => {},
        }
    }
    if matches_at_exec(c, 0, &cm_open) {
        match find_exec(c, 0, &cm_close) {
            Some(end) => {
                return after_newline(c, end + 3);
            },
            None => {},
        }
    }
    slice_to_vec(c, 0, c.len())
}

/// `c[from..]` without one leading line feed.
fn after_newline(c: &[char], from: usize) -> (r: Vec<char>)
    requires
        from <= c.len(),
    ensures
        r@ == skip_newline(c@.skip(from as int)),
{
    let start = if from < c.len() && c[from] == '\n' {
        from + 1
    } else {
        from
    };
    let r = slice_to_vec(c, start, c.len());
    assert(r@ =~= skip_newline(c@.skip(from as int)));
    r
}

fn headline_exec(content: &str) -> (r: String)
    ensures
        r@ == headline(content@),
{
    let c = chars_of(content);
    let body = without_leading_metadata(c.as_slice());
    let t = trim_vec(body.as_slice(), &CharClass::Whitespace);
    let end = match find_char_exec(t.as_slice(), 0, '\n') {
        Some(e) => e,
        None => t.len(),
    };
    let first = slice_to_vec(t.as_slice(), 0, end);
    assert(first@ =~= first_line(t@));
    let line = trim_vec(first.as_slice(), &CharClass::Whitespace);
    let marker = ['#', ' '];
    assert(marker@ =~= seq!['#', ' ']);
    let from: usize = if matches_at_exec(line.as_slice(), 0, &marker) {
        2
    } else {
        0
    };
    let mut r = String::new();
    let rest = slice_to_vec(line.as_slice(), from, line.len());
    append_chars(&mut r, rest.as_slice());
    assert(r@ =~= headline(content@));
    r
}

/// The name a note's content gives it (see [`spec_note_name`]).
pub fn note_name(content: &str) -> (r: String)
    ensures
        r@ == spec_note_name(content@),
{
    let h = headline_exec(content);
    let stripped = strip_leading_emoji(h.as_str());
    let s = sanitize(stripped.as_str());
    if s.as_str().is_empty() {
        let mut r = String::new();
        push_char(&mut r, 'N');
        push_char(&mut r, 'o');
        push_char(&mut r, 't');
        push_char(&mut r, 'e');
        r
    } else {
        s
    }
}


// ---------------------------------------------------------------------------
// The path a note is renamed to.

/// `Path::parent`: `None` for a path without components.
pub open spec fn spec_parent(p: Seq<char>) -> Option<Seq<char>> {
    if components(p).len() == 0 {
        None
    } else {
        Some(parent_or_empty(p))
    }
}

/// Two paths in the same directory whose file names agree up to ASCII case.
pub open spec fn same_filename(left: Seq<char>, right: Seq<char>) -> bool {
    &&& match (spec_parent(left), spec_parent(right)) {
        (Some(a), Some(b)) => path_eq(a, b),
        (None, None) => true,
        _ => false,
    }
    &&& match (file_name(left), file_name(right)) {
        (Some(a), Some(b)) => eq_ignore_ascii_case(a, b),
        _ => false,
    }
}

/// Whether the directory listing `existing` holds the file name of
/// `candidate`, up to ASCII case.
pub open spec fn name_taken(existing: Seq<Seq<char>>, candidate: Seq<char>) -> bool {
    match file_name(candidate) {
        Some(f) => exists|i: int| 0 <= i < existing.len() && eq_ignore_ascii_case(#[trigger] existing[i], f),
        None => false,
    }
}

/// `name`, and for `k > 0` a space and `k`.
pub open spec fn suffixed(name: Seq<char>, k: nat) -> Seq<char> {
    if k == 0 {
        name
    } else {
        name + seq![' '] + decimal(k)
    }
}

/// The `k`-th candidate path: `parent/name k.extension`.
pub open spec fn candidate_path(parent: Seq<char>, name: Seq<char>, ext: Seq<char>, k: nat) -> Seq<char> {
    join_path(parent, suffixed(name, k) + seq!['.'] + ext)
}

/// The highest suffix tried.
pub open spec fn max_suffix() -> nat {
    1000
}

/// The first candidate from the `k`-th on that is the current file or whose
/// name is free, or `current` when none of them up to [`max_suffix`] is.
pub open spec fn free_candidate(
    parent: Seq<char>,
    name: Seq<char>,
    ext: Seq<char>,
    current: Seq<char>,
    existing: Seq<Seq<char>>,
    k: nat,
) -> Seq<char>
    decreases max_suffix() + 1 - k,
{
    if k > max_suffix() {
        current
    } else {
        let c = candidate_path(parent, name, ext, k);
        if same_filename(c, current) || !name_taken(existing, c) {
            c
        } else {
            free_candidate(parent, name, ext, current, existing, k + 1)
        }
    }
}

/// The extension of `current`, `md` when it has none.
pub open spec fn note_extension(current: Seq<char>) -> Seq<char> {
    match extension(current) {
        Some(e) => e,
        None => seq!['m', 'd'],
    }
}

/// Where a note at `current` goes when its file is named after its content:
/// beside `current`, named by [`spec_note_name`], keeping the extension,
/// with the first suffix that does not collide with another file of
/// `existing` (the names in that directory).
pub open spec fn spec_automatic_relative_path(
    current: Seq<char>,
    content: Seq<char>,
    existing: Seq<Seq<char>>,
) -> Seq<char> {
    free_candidate(
        parent_or_empty(current),
        spec_note_name(content),
        note_extension(current),
        current,
        existing,
        0,
    )
}

fn extension_exec(p: &[char]) -> (r: Vec<char>)
    ensures
        r@ == note_extension(p@),
{
    match file_name_exec(p) {
        Some(n) => match rfind_char_exec(n.as_slice(), n.len(), '.') {
            Some(d) => {
                assert(n@.take(n.len() as int) =~= n@);
                if d == 0 {
                    vec!['m', 'd']
                } else {
                    let e = slice_to_vec(n.as_slice(), d + 1, n.len());
                    assert(e@ =~= n@.skip(d + 1));
                    e
                }
            },
            None => {
                assert(n@.take(n.len() as int) =~= n@);
                vec!['m', 'd']
            },
        },
        None => vec!['m', 'd'],
    }
}

fn parent_exec(p: &[char]) -> (r: Option<String>)
    ensures
        match spec_parent(p@) {
            Some(a) => r matches Some(s) && s@ == a,
            None => r is None,
        },
{
    let c = components_exec(p);
    if c.len() == 0 {
        None
    } else {
        Some(parent_or_empty_exec(p))
    }
}

fn same_filename_exec(left: &[char], right: &[char]) -> (b: bool)
    ensures
        b == same_filename(left@, right@),
{
    let parents_match = match (parent_exec(left), parent_exec(right)) {
        (Some(a), Some(b)) => {
            let ac = chars_of(a.as_str());
            let bc = chars_of(b.as_str());
            path_eq_exec(ac.as_slice(), bc.as_slice())
        },
        (None, None) => true,
        _ => false,
    };
    if !parents_match {
        return false;
    }
    match (file_name_exec(left), file_name_exec(right)) {
        (Some(a), Some(b)) => {
            let r = eq_ignore_ascii_case_exec(a.as_slice(), 0, a.len(), b.as_slice());
            assert(a@.subrange(0, a.len() as int) =~= a@);
            r
        },
        _ => false,
    }
}

fn name_taken_exec(existing: &Vec<Vec<char>>, candidate: &[char]) -> (b: bool)
    ensures
        b == name_taken(comps_view(existing@), candidate@),
{
    let ghost ev = comps_view(existing@);
    match file_name_exec(candidate) {
        Some(f) => {
            let mut i: usize = 0;
            while i < existing.len()
                invariant
                    i <= existing.len(),
                    ev == comps_view(existing@),
                    ev.len() == existing.len(),
                    file_name(candidate@) == Some(f@),
                    forall|m: int| 0 <= m < i ==> !eq_ignore_ascii_case(#[trigger] ev[m], f@),
                decreases existing.len() - i,
            {
                let e = &existing[i];
                assert(ev[i as int] == e@);
                assert(e@.subrange(0, e.len() as int) =~= e@);
                if eq_ignore_ascii_case_exec(e.as_slice(), 0, e.len(), f.as_slice()) {
                    return true;
                }
                i = i + 1;
            }
            false
        },
        None => false,
    }
}

/// The path a note at `current` with `content` is renamed to, where
/// `existing` lists the file names in its directory (see
/// [`spec_automatic_relative_path`]).
pub fn automatic_relative_path(current: &str, content: &str, existing: &Vec<String>) -> (r: String)
    ensures
        r@ == spec_automatic_relative_path(current@, content@, strings_view(existing@)),
{
    let cur = chars_of(current);
    let parent = parent_or_empty_exec(cur.as_slice());
    let parent_chars = chars_of(parent.as_str());
    let ext = extension_exec(cur.as_slice());
    let name = note_name(content);
    let name_chars = chars_of(name.as_str());
    let mut names: Vec<Vec<char>> = Vec::new();
    let mut i: usize = 0;
    while i < existing.len()
        invariant
            i <= existing.len(),
            comps_view(names@) == strings_view(existing@).take(i as int),
        decreases existing.len() - i,
    {
        let v = chars_of(existing[i].as_str());
        let ghost before = names@;
        names.push(v);
        assert(comps_view(names@) =~= comps_view(before).push(v@));
        assert(strings_view(existing@).take(i + 1) =~= strings_view(existing@).take(i as int).push(
            existing@[i as int]@,
        ));
        i = i + 1;
        assert(comps_view(names@) =~= strings_view(existing@).take(i as int));
    }
    assert(strings_view(existing@).take(existing.len() as int) =~= strings_view(existing@));
    let ghost ev = strings_view(existing@);
    let ghost pv = parent_or_empty(current@);
    let ghost nv = spec_note_name(content@);
    let ghost xv = note_extension(current@);
    let mut k: u64 = 0;
    while k <= 1000
        invariant
            cur@ == current@,
            parent_chars@ == pv,
            name_chars@ == nv,
            ext@ == xv,
            comps_view(names@) == ev,
            pv == parent_or_empty(current@),
            nv == spec_note_name(content@),
            xv == note_extension(current@),
            ev == strings_view(existing@),
            free_candidate(pv, nv, xv, current@, ev, 0) == free_candidate(pv, nv, xv, current@, ev, k as nat),
        decreases 1001 - k,
    {
        let mut base = String::new();
        append_chars(&mut base, name_chars.as_slice());
        if k > 0 {
            push_char(&mut base, ' ');
            push_decimal(&mut base, k);
        }
        push_char(&mut base, '.');
        append_chars(&mut base, ext.as_slice());
        assert(base@ =~= suffixed(nv, k as nat) + seq!['.'] + xv);
        let base_chars = chars_of(base.as_str());
        let candidate = join_path_exec(parent_chars.as_slice(), base_chars.as_slice());
        let cand_chars = chars_of(candidate.as_str());
        assert(candidate@ == candidate_path(pv, nv, xv, k as nat));
        if same_filename_exec(cand_chars.as_slice(), cur.as_slice()) || !name_taken_exec(
            &names,
            cand_chars.as_slice(),
        ) {
            return candidate;
        }
        k = k + 1;
    }
    current.to_owned()
}


/// The name a note's content gives it is never empty and holds no `/`,
/// `\` or `:`, so the derived file stays in the note's directory.
pub proof fn lemma_note_name_clean(content: Seq<char>)
    ensures
        spec_note_name(content).len() > 0,
        forall|k: int|
            0 <= k < spec_note_name(content).len() ==> !is_unsafe_name_char(#[trigger] spec_note_name(content)[k]),
{
    lemma_sanitize_clean(spec_strip_leading_emoji(headline(content)));
}

} // verus!
