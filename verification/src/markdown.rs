//! Markdown link discovery and heading lookup for note text.
//!
//! Offsets handed out by this module are UTF-8 byte offsets into the note
//! source; internally the parsers walk the source character by character.

use std::ops::Range;
use vstd::prelude::*;

use crate::text::{
    eq_ignore_ascii_case, eq_ignore_ascii_case_exec, find_char_exec, find_exec, find_from, is_ascii_alnum,
    is_ascii_alpha, lemma_find_from, matches_at, matches_at_exec, opt_int, rfind_char, rfind_char_exec, byte_len, leading, chars_of, char_lowercase, char_is_alphanumeric, is_white_space, lowercase_char, is_alphanumeric, is_whitespace, trim_start, trim_end, trim_start_vec, trim_end_vec, char_width, lemma_byte_len_take, lemma_byte_len_monotone, selection_end_ok,
    slice_to_vec, string_of, trim, trim_vec, CharClass, skip_class, chars_eq,
};

verus! {

/// Where a link in a note points to.
#[derive(Clone, Debug, PartialEq, Eq)]
pub enum NoteLinkTarget {
    /// A relative or absolute Markdown link to a note file.
    Path(String),
    /// A legacy `note://` link naming a note.
    Legacy(String),
    /// A wiki link `[[...]]`.
    Wiki(String),
    /// An `http` or `https` URI.
    Uri(String),
    /// A byte offset inside the same note (footnote references and definitions).
    SourceOffset(usize),
}

/// A link found in a note: the byte range it covers and its target.
#[derive(Debug, PartialEq, Eq)]
pub struct NoteLink {
    pub range: Range<usize>,
    pub target: NoteLinkTarget,
}

impl Clone for NoteLink {
    fn clone(&self) -> (r: Self)
        ensures
            r.range == self.range,
    {
        NoteLink { range: self.range.start..self.range.end, target: self.target.clone() }
    }
}

/// The mathematical value of a [`NoteLinkTarget`].
pub enum TargetModel {
    Path(Seq<char>),
    Legacy(Seq<char>),
    Wiki(Seq<char>),
    Uri(Seq<char>),
    SourceOffset(int),
}

/// The mathematical value of a [`NoteLink`]; `start` and `end` are offsets.
pub struct LinkModel {
    pub start: int,
    pub end: int,
    pub target: TargetModel,
}

impl View for NoteLinkTarget {
    type V = TargetModel;

    open spec fn view(&self) -> TargetModel {
        match self {
            NoteLinkTarget::Path(s) => TargetModel::Path(s@),
            NoteLinkTarget::Legacy(s) => TargetModel::Legacy(s@),
            NoteLinkTarget::Wiki(s) => TargetModel::Wiki(s@),
            NoteLinkTarget::Uri(s) => TargetModel::Uri(s@),
            NoteLinkTarget::SourceOffset(o) => TargetModel::SourceOffset(*o as int),
        }
    }
}

impl View for NoteLink {
    type V = LinkModel;

    open spec fn view(&self) -> LinkModel {
        LinkModel { start: self.range.start as int, end: self.range.end as int, target: self.target@ }
    }
}

pub open spec fn links_view(v: Seq<NoteLink>) -> Seq<LinkModel> {
    v.map_values(|l: NoteLink| l@)
}

// ---------------------------------------------------------------------------
// Pieces of inline syntax, at character position `i` of a line `l`.
// ---------------------------------------------------------------------------

/// How far an inline code span that opens at `l[i] == '`'` reaches: to just
/// after the closing backtick, or one character when there is none.
pub open spec fn code_span_step(l: Seq<char>, i: int) -> int {
    match find_from(l, i + 1, seq!['`']) {
        Some(e) => e + 1 - i,
        None => 1,
    }
}

/// Position of the `]]` that closes a wiki link opening at `i`.
pub open spec fn wiki_close(l: Seq<char>, i: int) -> Option<int> {
    if matches_at(l, i, seq!['[', '[']) {
        find_from(l, i + 2, seq![']', ']'])
    } else {
        None
    }
}

/// For a Markdown link `[label](target)` opening at `i`: the positions of
/// the first `](` and of the first `)` after it.
pub open spec fn markdown_link(l: Seq<char>, i: int) -> Option<(int, int)> {
    if 0 <= i < l.len() && l[i] == '[' {
        match find_from(l, i, seq![']', '(']) {
            Some(le) => match find_from(l, le + 2, seq![')']) {
                Some(te) => Some((le, te)),
                None => None,
            },
            None => None,
        }
    } else {
        None
    }
}

/// Position of the `>` closing a `<note://...>` link opening at `i`.
pub open spec fn legacy_close(l: Seq<char>, i: int) -> Option<int> {
    if matches_at(l, i, seq!['<', 'n', 'o', 't', 'e', ':', '/', '/']) {
        find_from(l, i + 8, seq!['>'])
    } else {
        None
    }
}

pub open spec fn is_scheme_char(c: char) -> bool {
    is_ascii_alnum(c) || c == '+' || c == '-' || c == '.'
}

/// A URI scheme as CommonMark autolinks accept it.
pub open spec fn valid_scheme(s: Seq<char>) -> bool {
    &&& 2 <= s.len() <= 32
    &&& is_ascii_alpha(s[0])
    &&& forall|k: int| 0 <= k < s.len() ==> is_scheme_char(#[trigger] s[k])
}

pub open spec fn is_ascii_control(c: char) -> bool {
    (c as u32) < 0x20 || (c as u32) == 0x7F
}

pub open spec fn is_ascii_whitespace(c: char) -> bool {
    c == ' ' || c == '\t' || c == '\n' || (c as u32) == 0x0C || c == '\r'
}

pub open spec fn valid_autolink_char(c: char) -> bool {
    !is_ascii_control(c) && !is_ascii_whitespace(c) && c != '<'
}

/// Length in characters of a URI autolink `<scheme:...>` opening at `i`.
pub open spec fn autolink_len(l: Seq<char>, i: int) -> Option<int> {
    if 0 <= i < l.len() && l[i] == '<' {
        match find_from(l, i + 1, seq!['>']) {
            Some(e) => {
                let d = l.subrange(i + 1, e);
                match find_from(d, 0, seq![':']) {
                    Some(k) => if valid_scheme(d.take(k)) && (forall|m: int|
                        0 <= m < d.len() ==> valid_autolink_char(#[trigger] d[m])) {
                        Some(e - i + 1)
                    } else {
                        None
                    },
                    None => None,
                }
            },
            None => None,
        }
    } else {
        None
    }
}

/// An `http:` or `https:` URI (scheme compared without ASCII case).
pub open spec fn is_web_uri(t: Seq<char>) -> bool {
    match find_from(t, 0, seq![':']) {
        Some(k) => eq_ignore_ascii_case(t.take(k), seq!['h', 't', 't', 'p'])
            || eq_ignore_ascii_case(t.take(k), seq!['h', 't', 't', 'p', 's']),
        None => false,
    }
}

/// A link target naming a note file: before any `#`, the extension is
/// `md`, `txt` or `markdown` (without ASCII case).
pub open spec fn is_note_path(t: Seq<char>) -> bool {
    let p = match find_from(t, 0, seq!['#']) {
        Some(k) => t.take(k),
        None => t,
    };
    match rfind_char(p, '.') {
        Some(d) => {
            let ext = p.skip(d + 1);
            eq_ignore_ascii_case(ext, seq!['m', 'd']) || eq_ignore_ascii_case(ext, seq!['t', 'x', 't'])
                || eq_ignore_ascii_case(ext, seq!['m', 'a', 'r', 'k', 'd', 'o', 'w', 'n'])
        },
        None => false,
    }
}

/// The kind of link a Markdown link target denotes, if any.
pub open spec fn link_target_kind(t: Seq<char>) -> Option<TargetModel> {
    if matches_at(t, 0, seq!['n', 'o', 't', 'e', ':', '/', '/']) {
        Some(TargetModel::Legacy(t))
    } else if is_web_uri(t) {
        Some(TargetModel::Uri(t))
    } else if is_note_path(t) {
        Some(TargetModel::Path(t))
    } else {
        None
    }
}

/// The target of a Markdown link `[..](target)` held in `l[a..b]`: trimmed
/// of whitespace, then of angle brackets.
pub open spec fn markdown_target(l: Seq<char>, a: int, b: int) -> Seq<char> {
    trim(trim(l.subrange(a, b), CharClass::Whitespace), CharClass::AngleBracket)
}

/// One step of scanning line `l` at character `i`: where scanning goes on
/// and the link found there, if any (positions shifted by `base`).  Inline
/// code spans are skipped whole.
#[verifier::opaque]
pub open spec fn line_step(l: Seq<char>, i: int, base: int) -> (int, Option<LinkModel>) {
    if l[i] == '`' {
        (i + code_span_step(l, i), None)
    } else if wiki_close(l, i) is Some {
        let e = wiki_close(l, i)->0;
        (e + 2, Some(LinkModel { start: base + i, end: base + e + 2, target: TargetModel::Wiki(l.subrange(i + 2, e)) }))
    } else if markdown_link(l, i) is Some {
        let (le, te) = markdown_link(l, i)->0;
        (te + 1, match link_target_kind(markdown_target(l, le + 2, te)) {
            Some(k) => Some(LinkModel { start: base + i, end: base + te + 1, target: k }),
            None => None,
        })
    } else if legacy_close(l, i) is Some {
        let e = legacy_close(l, i)->0;
        (e + 1, Some(LinkModel { start: base + i, end: base + e + 1, target: TargetModel::Legacy(l.subrange(i + 1, e)) }))
    } else if autolink_len(l, i) is Some {
        let n = autolink_len(l, i)->0;
        let t = l.subrange(i + 1, i + n - 1);
        (i + n, if is_web_uri(t) {
            Some(LinkModel { start: base + i, end: base + i + n, target: TargetModel::Uri(t) })
        } else {
            None
        })
    } else {
        (i + 1, None)
    }
}

pub proof fn lemma_line_step(l: Seq<char>, i: int, base: int)
    requires
        0 <= i < l.len(),
    ensures
        i < line_step(l, i, base).0 <= l.len(),
{
    reveal(line_step);
    lemma_find_from(l, i + 1, seq!['`']);
    lemma_find_from(l, i + 2, seq![']', ']']);
    lemma_find_from(l, i, seq![']', '(']);
    if markdown_link(l, i) is Some {
        let (le, te) = markdown_link(l, i)->0;
        lemma_find_from(l, le + 2, seq![')']);
    }
    lemma_find_from(l, i + 8, seq!['>']);
    lemma_find_from(l, i + 1, seq!['>']);
}

/// The links of one line `l`, scanning from character `i`; positions are
/// shifted by `base`.  Inline code spans hide links.
pub open spec fn line_links_from(l: Seq<char>, i: int, base: int) -> Seq<LinkModel>
    decreases l.len() - i,
{
    if i < 0 || i >= l.len() {
        seq![]
    } else {
        let (n, found) = line_step(l, i, base);
        proof {
            lemma_line_step(l, i, base);
        }
        match found {
            Some(x) => seq![x] + line_links_from(l, n, base),
            None => line_links_from(l, n, base),
        }
    }
}

// ---------------------------------------------------------------------------
// Lines, fences and footnotes.
// ---------------------------------------------------------------------------

/// End of the line starting at `pos`: the next `'\n'` or the end of `s`.
pub open spec fn line_end(s: Seq<char>, pos: int) -> int {
    match find_from(s, pos, seq!['\n']) {
        Some(e) => e,
        None => s.len() as int,
    }
}

/// A fence marker "```" or "~~~" at position `i` of `l`.
pub open spec fn is_fence_at(l: Seq<char>, i: int) -> bool {
    matches_at(l, i, seq!['`', '`', '`']) || matches_at(l, i, seq!['~', '~', '~'])
}

/// A line opening or closing a fenced code block: after the leading
/// characters of `class` it starts with a fence marker.
pub open spec fn is_fence_line(l: Seq<char>, class: CharClass) -> bool {
    is_fence_at(l, leading(l, 0, class))
}

/// The links of the lines of `s` from the line starting at `pos` on,
/// outside fenced code blocks (`in_fence` tells whether `pos` is inside one).
pub open spec fn doc_links_from(s: Seq<char>, pos: int, in_fence: bool) -> Seq<LinkModel>
    decreases s.len() - pos,
{
    if pos < 0 || pos > s.len() {
        seq![]
    } else {
        let e = line_end(s, pos);
        let l = s.subrange(pos, e);
        let fence = is_fence_line(l, CharClass::Whitespace);
        let here = if fence || in_fence {
            seq![]
        } else {
            line_links_from(l, 0, pos)
        };
        let next_fence = if fence {
            !in_fence
        } else {
            in_fence
        };
        proof {
            lemma_find_from(s, pos, seq!['\n']);
        }
        here + if e < s.len() {
            doc_links_from(s, e + 1, next_fence)
        } else {
            seq![]
        }
    }
}

/// Length of a footnote label `[^label]` at position `i`: the label is not
/// empty and holds no line break.
pub open spec fn footnote_label_len(l: Seq<char>, i: int) -> Option<int> {
    if matches_at(l, i, seq!['[', '^']) {
        match find_from(l, i + 2, seq![']']) {
            Some(e) => if e > i + 2 && (forall|m: int| i + 2 <= m < e ==> #[trigger] l[m] != '\r' && l[m] != '\n') {
                Some(e - i + 1)
            } else {
                None
            },
            None => None,
        }
    } else {
        None
    }
}

/// A footnote definition `[^label]:` or reference `[^label]`: its label
/// and the character range of the bracketed label.
pub struct FootnoteModel {
    pub label: Seq<char>,
    pub start: int,
    pub end: int,
}

/// The footnote definition on line `l` (starting at `pos`), if any: at most
/// three spaces or tabs of indentation, then `[^label]:`.
pub open spec fn line_definition(l: Seq<char>, pos: int) -> Option<FootnoteModel> {
    let indent = leading(l, 0, CharClass::SpaceOrTab);
    if indent <= 3 {
        match footnote_label_len(l, indent) {
            Some(n) => if indent + n < l.len() && l[indent + n] == ':' {
                Some(FootnoteModel { label: l.subrange(indent + 2, indent + n - 1), start: pos + indent, end: pos + indent + n })
            } else {
                None
            },
            None => None,
        }
    } else {
        None
    }
}

/// The footnote definitions of `s` from the line starting at `pos` on,
/// outside fenced code blocks.
pub open spec fn doc_definitions_from(s: Seq<char>, pos: int, in_fence: bool) -> Seq<FootnoteModel>
    decreases s.len() - pos,
{
    if pos < 0 || pos > s.len() {
        seq![]
    } else {
        let e = line_end(s, pos);
        let l = s.subrange(pos, e);
        let fence = is_fence_line(l, CharClass::SpaceOrTab);
        let here = if fence || in_fence {
            seq![]
        } else {
            match line_definition(l, pos) {
                Some(d) => seq![d],
                None => seq![],
            }
        };
        let next_fence = if fence {
            !in_fence
        } else {
            in_fence
        };
        proof {
            lemma_find_from(s, pos, seq!['\n']);
        }
        here + if e < s.len() {
            doc_definitions_from(s, e + 1, next_fence)
        } else {
            seq![]
        }
    }
}

/// Index of the first footnote in `f` at or after `k` with label `label`.
pub open spec fn first_with_label(f: Seq<FootnoteModel>, label: Seq<char>, k: int) -> Option<int>
    decreases f.len() - k,
{
    if k < 0 || k >= f.len() {
        None
    } else if f[k].label == label {
        Some(k)
    } else {
        first_with_label(f, label, k + 1)
    }
}

/// The footnote references of line `l` (shifted by `base`) from `i` on:
/// labels outside inline code, not followed by `:`, that some definition in
/// `defs` declares.
pub open spec fn line_references_from(l: Seq<char>, i: int, base: int, defs: Seq<FootnoteModel>) -> Seq<FootnoteModel>
    decreases l.len() - i,
{
    if i < 0 || i >= l.len() {
        seq![]
    } else if l[i] == '`' {
        proof {
            lemma_find_from(l, i + 1, seq!['`']);
        }
        line_references_from(l, i + code_span_step(l, i), base, defs)
    } else if footnote_label_len(l, i) is Some {
        let n = footnote_label_len(l, i)->0;
        proof {
            lemma_find_from(l, i + 2, seq![']']);
        }
        let label = l.subrange(i + 2, i + n - 1);
        let rest = line_references_from(l, i + n, base, defs);
        if !(i + n < l.len() && l[i + n] == ':') && first_with_label(defs, label, 0) is Some {
            seq![FootnoteModel { label, start: base + i, end: base + i + n }] + rest
        } else {
            rest
        }
    } else {
        line_references_from(l, i + 1, base, defs)
    }
}

/// The footnote references of `s` from the line starting at `pos` on.
pub open spec fn doc_references_from(s: Seq<char>, pos: int, in_fence: bool, defs: Seq<FootnoteModel>) -> Seq<FootnoteModel>
    decreases s.len() - pos,
{
    if pos < 0 || pos > s.len() {
        seq![]
    } else {
        let e = line_end(s, pos);
        let l = s.subrange(pos, e);
        let fence = is_fence_line(l, CharClass::Whitespace);
        let here = if fence || in_fence {
            seq![]
        } else {
            line_references_from(l, 0, pos, defs)
        };
        let next_fence = if fence {
            !in_fence
        } else {
            in_fence
        };
        proof {
            lemma_find_from(s, pos, seq!['\n']);
        }
        here + if e < s.len() {
            doc_references_from(s, e + 1, next_fence, defs)
        } else {
            seq![]
        }
    }
}

/// Links from each reference to the first definition of its label.
pub open spec fn reference_links(refs: Seq<FootnoteModel>, defs: Seq<FootnoteModel>) -> Seq<LinkModel>
    decreases refs.len(),
{
    if refs.len() == 0 {
        seq![]
    } else {
        let r = refs.last();
        reference_links(refs.drop_last(), defs) + match first_with_label(defs, r.label, 0) {
            Some(k) => seq![LinkModel { start: r.start, end: r.end, target: TargetModel::SourceOffset(defs[k].start) }],
            None => seq![],
        }
    }
}

/// Links from each definition to the first reference of its label.
pub open spec fn definition_links(defs: Seq<FootnoteModel>, refs: Seq<FootnoteModel>) -> Seq<LinkModel>
    decreases defs.len(),
{
    if defs.len() == 0 {
        seq![]
    } else {
        let d = defs.last();
        definition_links(defs.drop_last(), refs) + match first_with_label(refs, d.label, 0) {
            Some(k) => seq![LinkModel { start: d.start, end: d.end, target: TargetModel::SourceOffset(refs[k].start) }],
            None => seq![],
        }
    }
}

/// Inserts `x` into `sorted` after every element whose start is not greater.
pub open spec fn insert_by_start(sorted: Seq<LinkModel>, x: LinkModel) -> Seq<LinkModel>
    decreases sorted.len(),
{
    if sorted.len() == 0 {
        seq![x]
    } else if sorted.last().start <= x.start {
        sorted.push(x)
    } else {
        insert_by_start(sorted.drop_last(), x).push(sorted.last())
    }
}

/// Stable sort by start position.
pub open spec fn sort_by_start(s: Seq<LinkModel>) -> Seq<LinkModel>
    decreases s.len(),
{
    if s.len() == 0 {
        s
    } else {
        insert_by_start(sort_by_start(s.drop_last()), s.last())
    }
}

/// Links ordered by their start.
pub open spec fn sorted_by_start(v: Seq<LinkModel>) -> bool {
    forall|i: int, j: int| 0 <= i < j < v.len() ==> v[i].start <= v[j].start
}

proof fn lemma_insert_by_start_sorted(sorted: Seq<LinkModel>, x: LinkModel)
    requires
        sorted_by_start(sorted),
    ensures
        sorted_by_start(insert_by_start(sorted, x)),
        insert_by_start(sorted, x).len() == sorted.len() + 1,
        forall|k: int|
            0 <= k < insert_by_start(sorted, x).len() ==> #[trigger] insert_by_start(sorted, x)[k] == x
                || sorted.contains(insert_by_start(sorted, x)[k]),
    decreases sorted.len(),
{
    let r = insert_by_start(sorted, x);
    if sorted.len() == 0 {
    } else if sorted.last().start <= x.start {
        assert forall|k: int| 0 <= k < r.len() implies #[trigger] r[k] == x || sorted.contains(r[k]) by {
            if k < sorted.len() {
                assert(r[k] == sorted[k]);
            }
        }
    } else {
        let d = sorted.drop_last();
        lemma_insert_by_start_sorted(d, x);
        let m = insert_by_start(d, x);
        assert forall|k: int| 0 <= k < m.len() implies #[trigger] m[k].start <= sorted.last().start by {
            if m[k] != x {
                let w = choose|w: int| 0 <= w < d.len() && d[w] == m[k];
                assert(sorted[w] == d[w]);
            }
        }
        assert forall|k: int| 0 <= k < r.len() implies #[trigger] r[k] == x || sorted.contains(r[k]) by {
            if k < m.len() {
                assert(r[k] == m[k]);
                if m[k] != x {
                    let w = choose|w: int| 0 <= w < d.len() && d[w] == m[k];
                    assert(sorted[w] == d[w]);
                }
            } else {
                assert(r[k] == sorted[sorted.len() - 1]);
            }
        }
        assert forall|i: int, j: int| 0 <= i < j < r.len() implies r[i].start <= r[j].start by {
            if j < m.len() {
                assert(r[i] == m[i] && r[j] == m[j]);
            } else {
                assert(r[i] == m[i]);
            }
        }
    }
}

/// A stable sort by start leaves the links ordered by start.
pub proof fn lemma_sort_by_start_sorted(v: Seq<LinkModel>)
    ensures
        sorted_by_start(sort_by_start(v)),
        sort_by_start(v).len() == v.len(),
    decreases v.len(),
{
    if v.len() > 0 {
        lemma_sort_by_start_sorted(v.drop_last());
        lemma_insert_by_start_sorted(sort_by_start(v.drop_last()), v.last());
    }
}

/// All links of `s`, at character positions, in source order.
pub open spec fn char_links(s: Seq<char>) -> Seq<LinkModel> {
    let defs = doc_definitions_from(s, 0, false);
    let refs = doc_references_from(s, 0, false, defs);
    sort_by_start(doc_links_from(s, 0, false) + reference_links(refs, defs) + definition_links(defs, refs))
}

/// A link with character positions turned into UTF-8 byte offsets.
pub open spec fn link_in_bytes(s: Seq<char>, l: LinkModel) -> LinkModel {
    LinkModel {
        start: byte_len(s.take(l.start)) as int,
        end: byte_len(s.take(l.end)) as int,
        target: match l.target {
            TargetModel::SourceOffset(o) => TargetModel::SourceOffset(byte_len(s.take(o)) as int),
            t => t,
        },
    }
}

/// The links of a note, as [`note_links`] returns them: Markdown links to
/// notes and web URIs, wiki links, `note://` links, URI autolinks and
/// footnote references and definitions, outside code, sorted by position.
pub open spec fn spec_note_links(s: Seq<char>) -> Seq<LinkModel> {
    char_links(s).map_values(|l: LinkModel| link_in_bytes(s, l))
}

/// Every position a link mentions lies in `0..=n`.
pub open spec fn links_within(v: Seq<LinkModel>, n: int) -> bool {
    forall|k: int| 0 <= k < v.len() ==> {
        &&& 0 <= #[trigger] v[k].start <= v[k].end <= n
        &&& (v[k].target matches TargetModel::SourceOffset(o) ==> 0 <= o <= n)
    }
}

pub proof fn lemma_links_within_push(v: Seq<LinkModel>, x: LinkModel, n: int)
    requires
        links_within(v, n),
        0 <= x.start <= x.end <= n,
        x.target matches TargetModel::SourceOffset(o) ==> 0 <= o <= n,
    ensures
        links_within(v.push(x), n),
{
    assert forall|k: int| 0 <= k < v.push(x).len() implies {
        &&& 0 <= #[trigger] v.push(x)[k].start <= v.push(x)[k].end <= n
        &&& (v.push(x)[k].target matches TargetModel::SourceOffset(o) ==> 0 <= o <= n)
    } by {
        if k < v.len() {
            assert(v.push(x)[k] == v[k]);
        }
    }
}

pub proof fn lemma_links_within_mono(v: Seq<LinkModel>, n: int, m: int)
    requires
        links_within(v, n),
        n <= m,
    ensures
        links_within(v, m),
{
}

// ---------------------------------------------------------------------------
// Executable scanners for the pieces above.
// ---------------------------------------------------------------------------

fn code_span_step_exec(l: &[char], i: usize) -> (r: usize)
    requires
        i < l.len(),
    ensures
        r == code_span_step(l@, i as int),
        1 <= r,
        i + r <= l.len(),
{
    proof {
        lemma_find_from(l@, i + 1, seq!['`']);
    }
    match find_char_exec(l, i + 1, '`') {
        Some(e) => e + 1 - i,
        None => 1,
    }
}

pub fn wiki_close_exec(l: &[char], i: usize) -> (r: Option<usize>)
    requires
        i < l.len(),
    ensures
        opt_int(r) == wiki_close(l@, i as int),
        r matches Some(e) ==> i + 2 <= e && e + 2 <= l.len(),
{
    if matches_at_exec(l, i, &['[', '[']) {
        find_exec(l, i + 2, &[']', ']'])
    } else {
        None
    }
}

pub fn markdown_link_exec(l: &[char], i: usize) -> (r: Option<(usize, usize)>)
    requires
        i < l.len(),
    ensures
        r matches Some((a, b)) ==> markdown_link(l@, i as int) == Some((a as int, b as int)),
        r is None ==> markdown_link(l@, i as int) is None,
        r matches Some((le, te)) ==> i <= le && le + 2 <= te && te < l.len(),
{
    if l[i] != '[' {
        return None;
    }
    match find_exec(l, i, &[']', '(']) {
        Some(le) => match find_char_exec(l, le + 2, ')') {
            Some(te) => Some((le, te)),
            None => None,
        },
        None => None,
    }
}

fn legacy_close_exec(l: &[char], i: usize) -> (r: Option<usize>)
    requires
        i < l.len(),
    ensures
        opt_int(r) == legacy_close(l@, i as int),
        r matches Some(e) ==> i + 8 <= e < l.len(),
{
    if matches_at_exec(l, i, &['<', 'n', 'o', 't', 'e', ':', '/', '/']) {
        find_char_exec(l, i + 8, '>')
    } else {
        None
    }
}

fn is_scheme_char_exec(c: char) -> (b: bool)
    ensures
        b == is_scheme_char(c),
{
    ('A' <= c && c <= 'Z') || ('a' <= c && c <= 'z') || ('0' <= c && c <= '9') || c == '+'
        || c == '-' || c == '.'
}

fn valid_autolink_char_exec(c: char) -> (b: bool)
    ensures
        b == valid_autolink_char(c),
{
    let v = c as u32;
    !(v < 0x20 || v == 0x7F) && !(c == ' ' || c == '\t' || c == '\n' || v == 0x0C || c == '\r')
        && c != '<'
}

/// Length of a URI autolink `<scheme:...>` at `l[i]`, in characters.
pub fn markdown_autolink_length(l: &[char], i: usize) -> (r: Option<usize>)
    requires
        i < l.len(),
    ensures
        opt_int(r) == autolink_len(l@, i as int),
        r matches Some(n) ==> 2 <= n && i + n <= l.len(),
{
    if l[i] != '<' {
        return None;
    }
    let e = match find_char_exec(l, i + 1, '>') {
        Some(e) => e,
        None => return None,
    };
    let d = slice_to_vec(l, i + 1, e);
    let k = match find_char_exec(d.as_slice(), 0, ':') {
        Some(k) => k,
        None => return None,
    };
    let ghost scheme = d@.take(k as int);
    let mut valid = 2 <= k && k <= 32 && ('A' <= d[0] && d[0] <= 'Z' || 'a' <= d[0] && d[0] <= 'z');
    let mut m: usize = 0;
    while m < k
        invariant
            k < d.len(),
            m <= k,
            scheme == d@.take(k as int),
            valid == ((2 <= k <= 32 && is_ascii_alpha(d@[0])) && forall|j: int|
                0 <= j < m ==> is_scheme_char(#[trigger] scheme[j])),
        decreases k - m,
    {
        assert(scheme[m as int] == d@[m as int]);
        valid = valid && is_scheme_char_exec(d[m]);
        m = m + 1;
    }
    assert(scheme.len() == k);
    assert(k > 0 ==> scheme[0] == d@[0]);
    assert(valid == valid_scheme(scheme));
    let mut m: usize = 0;
    while m < d.len()
        invariant
            m <= d.len(),
            valid == (valid_scheme(scheme) && forall|j: int|
                0 <= j < m ==> valid_autolink_char(#[trigger] d@[j])),
        decreases d.len() - m,
    {
        valid = valid && valid_autolink_char_exec(d[m]);
        m = m + 1;
    }
    if valid {
        Some(e - i + 1)
    } else {
        None
    }
}

/// Whether `t` is an `http:` or `https:` URI.
fn is_web_uri_exec(t: &[char]) -> (b: bool)
    ensures
        b == is_web_uri(t@),
{
    match find_char_exec(t, 0, ':') {
        Some(k) => eq_ignore_ascii_case_exec(t, 0, k, &['h', 't', 't', 'p'])
            || eq_ignore_ascii_case_exec(t, 0, k, &['h', 't', 't', 'p', 's']),
        None => false,
    }
}

/// Whether `t` names a note file by its extension.
fn is_note_path_exec(t: &[char]) -> (b: bool)
    ensures
        b == is_note_path(t@),
{
    let end = match find_char_exec(t, 0, '#') {
        Some(k) => k,
        None => t.len(),
    };
    assert(t@.take(t.len() as int) =~= t@);
    match rfind_char_exec(t, end, '.') {
        Some(d) => {
            assert(t@.take(end as int).skip(d + 1) =~= t@.subrange(d + 1, end as int));
            eq_ignore_ascii_case_exec(t, d + 1, end, &['m', 'd'])
                || eq_ignore_ascii_case_exec(t, d + 1, end, &['t', 'x', 't'])
                || eq_ignore_ascii_case_exec(t, d + 1, end, &['m', 'a', 'r', 'k', 'd', 'o', 'w', 'n'])
        },
        None => false,
    }
}

fn link_target_kind_exec(t: &[char]) -> (r: Option<NoteLinkTarget>)
    ensures
        match link_target_kind(t@) {
            Some(k) => r matches Some(x) && x@ == k,
            None => r is None,
        },
{
    assert(t@.subrange(0, t@.len() as int) =~= t@);
    if matches_at_exec(t, 0, &['n', 'o', 't', 'e', ':', '/', '/']) {
        Some(NoteLinkTarget::Legacy(string_of(t, 0, t.len())))
    } else if is_web_uri_exec(t) {
        Some(NoteLinkTarget::Uri(string_of(t, 0, t.len())))
    } else if is_note_path_exec(t) {
        Some(NoteLinkTarget::Path(string_of(t, 0, t.len())))
    } else {
        None
    }
}

/// One scanning step of [`parse_line_links`] at `line[index]`.
#[verifier::rlimit(30)]
fn line_step_exec(line: &[char], index: usize, line_offset: usize) -> (r: (usize, Option<NoteLink>))
    requires
        index < line.len(),
        line_offset + line.len() <= usize::MAX,
    ensures
        r.0 == line_step(line@, index as int, line_offset as int).0,
        index < r.0 <= line.len(),
        match r.1 {
            Some(x) => line_step(line@, index as int, line_offset as int).1 == Some(x@),
            None => line_step(line@, index as int, line_offset as int).1 is None,
        },
        r.1 matches Some(x) ==> line_offset <= x@.start <= x@.end <= line_offset + line.len()
            && !(x@.target is SourceOffset),
{
    proof {
        reveal(line_step);
        lemma_line_step(line@, index as int, line_offset as int);
    }
    let ghost l = line@;
    if line[index] == '`' {
        return (index + code_span_step_exec(line, index), None);
    }
    if let Some(e) = wiki_close_exec(line, index) {
        let target = string_of(line, index + 2, e);
        return (e + 2, Some(NoteLink { range: (line_offset + index)..(line_offset + e + 2), target: NoteLinkTarget::Wiki(target) }));
    }
    if let Some((le, te)) = markdown_link_exec(line, index) {
        let raw = slice_to_vec(line, le + 2, te);
        let trimmed = trim_vec(raw.as_slice(), &CharClass::Whitespace);
        let target = trim_vec(trimmed.as_slice(), &CharClass::AngleBracket);
        assert(target@ == markdown_target(l, le + 2, te as int));
        return match link_target_kind_exec(target.as_slice()) {
            Some(kind) => (te + 1, Some(NoteLink { range: (line_offset + index)..(line_offset + te + 1), target: kind })),
            None => (te + 1, None),
        };
    }
    if let Some(e) = legacy_close_exec(line, index) {
        let target = string_of(line, index + 1, e);
        return (e + 1, Some(NoteLink { range: (line_offset + index)..(line_offset + e + 1), target: NoteLinkTarget::Legacy(target) }));
    }
    if let Some(n) = markdown_autolink_length(line, index) {
        let t = slice_to_vec(line, index + 1, index + n - 1);
        if is_web_uri_exec(t.as_slice()) {
            let target = string_of(line, index + 1, index + n - 1);
            return (index + n, Some(NoteLink { range: (line_offset + index)..(line_offset + index + n), target: NoteLinkTarget::Uri(target) }));
        }
        return (index + n, None);
    }
    (index + 1, None)
}

/// Appends the links of `line` (starting at character `line_offset` of the
/// note) to `links`.
fn parse_line_links(line: &[char], line_offset: usize, links: &mut Vec<NoteLink>)
    requires
        line_offset + line.len() <= usize::MAX,
    ensures
        links_view(final(links)@) == links_view(old(links)@) + line_links_from(
            line@,
            0,
            line_offset as int,
        ),
        links_within(links_view(old(links)@), (line_offset + line.len()) as int) ==> links_within(
            links_view(final(links)@),
            (line_offset + line.len()) as int,
        ),
{
    let ghost l = line@;
    let ghost base = line_offset as int;
    let ghost start = links_view(links@);
    let mut index: usize = 0;
    while index < line.len()
        invariant
            l == line@,
            base == line_offset,
            line_offset + line.len() <= usize::MAX,
            index <= line.len(),
            start + line_links_from(l, 0, base) == links_view(links@) + line_links_from(l, index as int, base),
            links_within(start, (line_offset + line.len()) as int) ==> links_within(
                links_view(links@),
                (line_offset + line.len()) as int,
            ),
        decreases line.len() - index,
    {
        let ghost before = links_view(links@);
        let (next, found) = line_step_exec(line, index, line_offset);
        match found {
            Some(link) => {
                let ghost lv = link@;
                links.push(link);
                assert(links_view(links@) =~= before + seq![lv]);
                assert(links_within(start, (line_offset + line.len()) as int) ==> links_within(
                    links_view(links@),
                    (line_offset + line.len()) as int,
                )) by {
                    if links_within(start, (line_offset + line.len()) as int) {
                        assert forall|k: int| 0 <= k < links_view(links@).len() implies {
                            &&& 0 <= #[trigger] links_view(links@)[k].start <= links_view(links@)[k].end
                                <= (line_offset + line.len()) as int
                            &&& (links_view(links@)[k].target matches TargetModel::SourceOffset(o) ==> 0 <= o
                                <= (line_offset + line.len()) as int)
                        } by {
                            if k < before.len() {
                                assert(links_view(links@)[k] == before[k]);
                            } else {
                                assert(links_view(links@)[k] == lv);
                            }
                        }
                    }
                }
            },
            None => {
                assert(links_view(links@) =~= before);
            },
        }
        index = next;
    }
}

/// Whether `l` opens or closes a fenced code block.
pub fn is_fence_line_exec(l: &[char], class: &CharClass) -> (b: bool)
    ensures
        b == is_fence_line(l@, *class),
{
    let t = skip_class(l, 0, class);
    matches_at_exec(l, t, &['`', '`', '`']) || matches_at_exec(l, t, &['~', '~', '~'])
}

/// End of the line of `s` starting at `pos`.
pub fn line_end_exec(s: &[char], pos: usize) -> (e: usize)
    requires
        pos <= s.len(),
    ensures
        e == line_end(s@, pos as int),
        pos <= e <= s.len(),
{
    proof {
        lemma_find_from(s@, pos as int, seq!['\n']);
    }
    match find_char_exec(s, pos, '\n') {
        Some(e) => e,
        None => s.len(),
    }
}

/// Appends the links of all lines of `src` outside fenced code blocks.
fn collect_line_links(src: &[char], links: &mut Vec<NoteLink>)
    requires
        old(links)@.len() == 0,
    ensures
        links_view(final(links)@) == links_view(old(links)@) + doc_links_from(src@, 0, false),
        links_within(links_view(final(links)@), src.len() as int),
{
    let ghost s = src@;
    let ghost start = links_view(links@);
    let mut pos: usize = 0;
    let mut in_fence = false;
    let mut done = false;
    while !done
        invariant
            s == src@,
            pos <= src.len(),
            !done ==> start + doc_links_from(s, 0, false) == links_view(links@) + doc_links_from(s, pos as int, in_fence),
            done ==> start + doc_links_from(s, 0, false) == links_view(links@),
            links_within(links_view(links@), if done { src.len() as int } else { pos as int }),
        decreases src.len() - pos + if done { 0int } else { 1int },
    {
        let ghost before = links_view(links@);
        let ghost old_fence = in_fence;
        let e = line_end_exec(src, pos);
        let line = slice_to_vec(src, pos, e);
        let fence = is_fence_line_exec(line.as_slice(), &CharClass::Whitespace);
        if fence {
            in_fence = !in_fence;
        } else if !in_fence {
            proof {
                lemma_links_within_mono(links_view(links@), pos as int, pos + line.len());
            }
            parse_line_links(line.as_slice(), pos, links);
        }
        assert(doc_links_from(s, pos as int, old_fence) == (if fence || old_fence {
            seq![]
        } else {
            line_links_from(line@, 0, pos as int)
        }) + if e < s.len() {
            doc_links_from(s, e + 1, in_fence)
        } else {
            seq![]
        });
        proof {
            if fence || old_fence {
                lemma_links_within_mono(links_view(links@), pos as int, e as int);
            }
            lemma_links_within_mono(links_view(links@), e as int, e + 1);
        }
        if e < src.len() {
            assert(links_view(links@) == before + (if fence || old_fence {
                seq![]
            } else {
                line_links_from(line@, 0, pos as int)
            }));
            pos = e + 1;
        } else {
            done = true;
        }
    }
}

/// A footnote definition or reference: its label and character range.
struct Footnote {
    label: Vec<char>,
    start: usize,
    end: usize,
}

impl View for Footnote {
    type V = FootnoteModel;

    closed spec fn view(&self) -> FootnoteModel {
        FootnoteModel { label: self.label@, start: self.start as int, end: self.end as int }
    }
}

spec fn footnotes_view(v: Seq<Footnote>) -> Seq<FootnoteModel> {
    v.map_values(|f: Footnote| f@)
}

/// Length of a footnote label `[^label]` at `l[i]`.
pub fn footnote_label_length(l: &[char], i: usize) -> (r: Option<usize>)
    requires
        i < l.len(),
    ensures
        opt_int(r) == footnote_label_len(l@, i as int),
        r matches Some(n) ==> 4 <= n && i + n <= l.len(),
{
    if !matches_at_exec(l, i, &['[', '^']) {
        return None;
    }
    proof {
        lemma_find_from(l@, i + 2, seq![']']);
    }
    let e = match find_char_exec(l, i + 2, ']') {
        Some(e) => e,
        None => return None,
    };
    if e <= i + 2 {
        return None;
    }
    let mut m = i + 2;
    while m < e
        invariant
            i + 2 <= m <= e < l.len(),
            i + 2 < e,
            matches_at(l@, i as int, seq!['[', '^']),
            find_from(l@, i + 2, seq![']']) == Some(e as int),
            forall|k: int| i + 2 <= k < m ==> #[trigger] l@[k] != '\r' && l@[k] != '\n',
        decreases e - m,
    {
        if l[m] == '\r' || l[m] == '\n' {
            assert(!(l@[m as int] != '\r' && l@[m as int] != '\n'));
            return None;
        }
        m = m + 1;
    }
    Some(e - i + 1)
}

/// The footnote definition on `line`, which starts at character `pos`.
fn line_definition_exec(line: &[char], pos: usize) -> (r: Option<Footnote>)
    requires
        pos + line.len() <= usize::MAX,
    ensures
        match line_definition(line@, pos as int) {
            Some(d) => r matches Some(f) && f@ == d,
            None => r is None,
        },
        r matches Some(f) ==> f@.start <= f@.end <= pos + line.len(),
{
    let indent = skip_class(line, 0, &CharClass::SpaceOrTab);
    if indent > 3 || indent >= line.len() {
        proof {
            if indent >= line.len() {
                assert(!matches_at(line@, indent as int, seq!['[', '^']));
            }
        }
        return None;
    }
    match footnote_label_length(line, indent) {
        Some(n) => if indent + n < line.len() && line[indent + n] == ':' {
            Some(Footnote { label: slice_to_vec(line, indent + 2, indent + n - 1), start: pos + indent, end: pos + indent + n })
        } else {
            None
        },
        None => None,
    }
}

/// The footnote definitions of `src` outside fenced code blocks.
fn footnote_definitions(src: &[char]) -> (defs: Vec<Footnote>)
    ensures
        footnotes_view(defs@) == doc_definitions_from(src@, 0, false),
        forall|k: int| 0 <= k < defs.len() ==> 0 <= (#[trigger] defs@[k])@.start <= defs@[k]@.end <= src.len(),
{
    let ghost s = src@;
    let mut defs: Vec<Footnote> = Vec::new();
    let mut pos: usize = 0;
    let mut in_fence = false;
    let mut done = false;
    while !done
        invariant
            s == src@,
            pos <= src.len(),
            !done ==> doc_definitions_from(s, 0, false) == footnotes_view(defs@) + doc_definitions_from(s, pos as int, in_fence),
            done ==> doc_definitions_from(s, 0, false) == footnotes_view(defs@),
            forall|k: int| 0 <= k < defs.len() ==> 0 <= (#[trigger] defs@[k])@.start <= defs@[k]@.end <= src.len(),
        decreases src.len() - pos + if done { 0int } else { 1int },
    {
        let ghost before = footnotes_view(defs@);
        let ghost old_fence = in_fence;
        let e = line_end_exec(src, pos);
        let line = slice_to_vec(src, pos, e);
        let fence = is_fence_line_exec(line.as_slice(), &CharClass::SpaceOrTab);
        if fence {
            in_fence = !in_fence;
        } else if !in_fence {
            if let Some(d) = line_definition_exec(line.as_slice(), pos) {
                defs.push(d);
                assert(footnotes_view(defs@) =~= before + seq![defs@.last()@]);
            }
        }
        let ghost here = if fence || old_fence {
            Seq::<FootnoteModel>::empty()
        } else {
            match line_definition(line@, pos as int) {
                Some(d) => seq![d],
                None => seq![],
            }
        };
        assert(footnotes_view(defs@) =~= before + here);
        assert(doc_definitions_from(s, pos as int, old_fence) == here + if e < s.len() {
            doc_definitions_from(s, e + 1, in_fence)
        } else {
            seq![]
        });
        if e < src.len() {
            pos = e + 1;
        } else {
            done = true;
        }
    }
    defs
}

/// Index of the first footnote in `f` with label `label`.
fn first_with_label_exec(f: &Vec<Footnote>, label: &[char]) -> (r: Option<usize>)
    ensures
        opt_int(r) == first_with_label(footnotes_view(f@), label@, 0),
        r matches Some(k) ==> k < f.len(),
{
    let ghost fv = footnotes_view(f@);
    let mut k: usize = 0;
    while k < f.len()
        invariant
            fv == footnotes_view(f@),
            k <= f.len(),
            first_with_label(fv, label@, 0) == first_with_label(fv, label@, k as int),
        decreases f.len() - k,
    {
        if chars_eq(f[k].label.as_slice(), label) {
            return Some(k);
        }
        k = k + 1;
    }
    None
}

/// Appends the footnote references of `line` (starting at `base`).
fn line_references(line: &[char], base: usize, defs: &Vec<Footnote>, refs: &mut Vec<Footnote>)
    requires
        base + line.len() <= usize::MAX,
    ensures
        footnotes_view(final(refs)@) == footnotes_view(old(refs)@) + line_references_from(
            line@,
            0,
            base as int,
            footnotes_view(defs@),
        ),
        forall|k: int| 0 <= k < old(refs).len() ==> final(refs)@[k] == old(refs)@[k],
        old(refs).len() <= final(refs).len(),
        forall|k: int| old(refs).len() <= k < final(refs).len() ==> 0 <= (#[trigger] final(refs)@[k])@.start <= final(refs)@[k]@.end <= base + line.len(),
{
    let ghost l = line@;
    let ghost dv = footnotes_view(defs@);
    let ghost start = footnotes_view(refs@);
    let mut index: usize = 0;
    while index < line.len()
        invariant
            l == line@,
            dv == footnotes_view(defs@),
            base + line.len() <= usize::MAX,
            index <= line.len(),
            start + line_references_from(l, 0, base as int, dv) == footnotes_view(refs@)
                + line_references_from(l, index as int, base as int, dv),
            forall|k: int| 0 <= k < old(refs).len() ==> refs@[k] == old(refs)@[k],
            old(refs).len() <= refs.len(),
            forall|k: int| old(refs).len() <= k < refs.len() ==> 0 <= (#[trigger] refs@[k])@.start <= refs@[k]@.end <= base + line.len(),
        decreases line.len() - index,
    {
        let ghost before = footnotes_view(refs@);
        if line[index] == '`' {
            index = index + code_span_step_exec(line, index);
            continue;
        }
        if let Some(n) = footnote_label_length(line, index) {
            let label = slice_to_vec(line, index + 2, index + n - 1);
            let colon = index + n < line.len() && line[index + n] == ':';
            if !colon && first_with_label_exec(defs, label.as_slice()).is_some() {
                refs.push(Footnote { label, start: base + index, end: base + index + n });
                assert(footnotes_view(refs@) =~= before + seq![refs@.last()@]);
            }
            index = index + n;
            continue;
        }
        index = index + 1;
    }
}

/// The footnote references of `src` to labels that `defs` defines.
fn footnote_references(src: &[char], defs: &Vec<Footnote>) -> (refs: Vec<Footnote>)
    ensures
        footnotes_view(refs@) == doc_references_from(src@, 0, false, footnotes_view(defs@)),
        forall|k: int| 0 <= k < refs.len() ==> 0 <= (#[trigger] refs@[k])@.start <= refs@[k]@.end <= src.len(),
{
    let ghost s = src@;
    let ghost dv = footnotes_view(defs@);
    let mut refs: Vec<Footnote> = Vec::new();
    let mut pos: usize = 0;
    let mut in_fence = false;
    let mut done = false;
    while !done
        invariant
            s == src@,
            dv == footnotes_view(defs@),
            pos <= src.len(),
            !done ==> doc_references_from(s, 0, false, dv) == footnotes_view(refs@) + doc_references_from(s, pos as int, in_fence, dv),
            done ==> doc_references_from(s, 0, false, dv) == footnotes_view(refs@),
            forall|k: int| 0 <= k < refs.len() ==> 0 <= (#[trigger] refs@[k])@.start <= refs@[k]@.end <= src.len(),
        decreases src.len() - pos + if done { 0int } else { 1int },
    {
        let ghost before = footnotes_view(refs@);
        let ghost old_fence = in_fence;
        let e = line_end_exec(src, pos);
        let line = slice_to_vec(src, pos, e);
        let fence = is_fence_line_exec(line.as_slice(), &CharClass::Whitespace);
        if fence {
            in_fence = !in_fence;
        } else if !in_fence {
            line_references(line.as_slice(), pos, defs, &mut refs);
        }
        let ghost here = if fence || old_fence {
            Seq::<FootnoteModel>::empty()
        } else {
            line_references_from(line@, 0, pos as int, dv)
        };
        assert(footnotes_view(refs@) =~= before + here);
        assert(doc_references_from(s, pos as int, old_fence, dv) == here + if e < s.len() {
            doc_references_from(s, e + 1, in_fence, dv)
        } else {
            seq![]
        });
        if e < src.len() {
            pos = e + 1;
        } else {
            done = true;
        }
    }
    refs
}

/// Appends, for each reference, a link to the first definition of its label.
fn reference_links_exec(refs: &Vec<Footnote>, defs: &Vec<Footnote>, n: usize, out: &mut Vec<NoteLink>)
    requires
        links_within(links_view(old(out)@), n as int),
        forall|k: int| 0 <= k < refs.len() ==> 0 <= (#[trigger] refs@[k])@.start <= refs@[k]@.end <= n,
        forall|k: int| 0 <= k < defs.len() ==> 0 <= (#[trigger] defs@[k])@.start <= defs@[k]@.end <= n,
    ensures
        links_view(final(out)@) == links_view(old(out)@) + reference_links(footnotes_view(refs@), footnotes_view(defs@)),
        links_within(links_view(final(out)@), n as int),
{
    let ghost rv = footnotes_view(refs@);
    let ghost dv = footnotes_view(defs@);
    let ghost start = links_view(out@);
    let mut k: usize = 0;
    while k < refs.len()
        invariant
            rv == footnotes_view(refs@),
            dv == footnotes_view(defs@),
            k <= refs.len(),
            links_view(out@) == start + reference_links(rv.take(k as int), dv),
            links_within(links_view(out@), n as int),
            forall|k: int| 0 <= k < refs.len() ==> 0 <= (#[trigger] refs@[k])@.start <= refs@[k]@.end <= n,
            forall|k: int| 0 <= k < defs.len() ==> 0 <= (#[trigger] defs@[k])@.start <= defs@[k]@.end <= n,
        decreases refs.len() - k,
    {
        let ghost before = links_view(out@);
        assert(rv.take(k + 1).drop_last() =~= rv.take(k as int));
        assert(rv.take(k + 1).last() == refs@[k as int]@);
        match first_with_label_exec(defs, refs[k].label.as_slice()) {
            Some(j) => {
                assert(defs@[j as int]@ == dv[j as int]);
                let link = NoteLink { range: refs[k].start..refs[k].end, target: NoteLinkTarget::SourceOffset(defs[j].start) };
                let ghost lv = link@;
                proof {
                    let _ = refs@[k as int]@;
                    let _ = defs@[j as int]@;
                    lemma_links_within_push(before, lv, n as int);
                }
                out.push(link);
                assert(links_view(out@) =~= before.push(lv));
            },
            None => {
                assert(links_view(out@) =~= before + Seq::<LinkModel>::empty());
            },
        }
        k = k + 1;
    }
    assert(rv.take(refs.len() as int) =~= rv);
}

/// Appends, for each definition, a link to the first reference of its label.
fn definition_links_exec(defs: &Vec<Footnote>, refs: &Vec<Footnote>, n: usize, out: &mut Vec<NoteLink>)
    requires
        links_within(links_view(old(out)@), n as int),
        forall|k: int| 0 <= k < refs.len() ==> 0 <= (#[trigger] refs@[k])@.start <= refs@[k]@.end <= n,
        forall|k: int| 0 <= k < defs.len() ==> 0 <= (#[trigger] defs@[k])@.start <= defs@[k]@.end <= n,
    ensures
        links_view(final(out)@) == links_view(old(out)@) + definition_links(footnotes_view(defs@), footnotes_view(refs@)),
        links_within(links_view(final(out)@), n as int),
{
    let ghost rv = footnotes_view(refs@);
    let ghost dv = footnotes_view(defs@);
    let ghost start = links_view(out@);
    let mut k: usize = 0;
    while k < defs.len()
        invariant
            rv == footnotes_view(refs@),
            dv == footnotes_view(defs@),
            k <= defs.len(),
            links_view(out@) == start + definition_links(dv.take(k as int), rv),
            links_within(links_view(out@), n as int),
            forall|k: int| 0 <= k < refs.len() ==> 0 <= (#[trigger] refs@[k])@.start <= refs@[k]@.end <= n,
            forall|k: int| 0 <= k < defs.len() ==> 0 <= (#[trigger] defs@[k])@.start <= defs@[k]@.end <= n,
        decreases defs.len() - k,
    {
        let ghost before = links_view(out@);
        assert(dv.take(k + 1).drop_last() =~= dv.take(k as int));
        assert(dv.take(k + 1).last() == defs@[k as int]@);
        match first_with_label_exec(refs, defs[k].label.as_slice()) {
            Some(j) => {
                assert(refs@[j as int]@ == rv[j as int]);
                let link = NoteLink { range: defs[k].start..defs[k].end, target: NoteLinkTarget::SourceOffset(refs[j].start) };
                let ghost lv = link@;
                proof {
                    let _ = defs@[k as int]@;
                    let _ = refs@[j as int]@;
                    lemma_links_within_push(before, lv, n as int);
                }
                out.push(link);
                assert(links_view(out@) =~= before.push(lv));
            },
            None => {
                assert(links_view(out@) =~= before + Seq::<LinkModel>::empty());
            },
        }
        k = k + 1;
    }
    assert(dv.take(defs.len() as int) =~= dv);
}

proof fn lemma_insert_at(sorted: Seq<LinkModel>, x: LinkModel, j: int)
    requires
        0 <= j <= sorted.len(),
        forall|k: int| j <= k < sorted.len() ==> (#[trigger] sorted[k]).start > x.start,
        j > 0 ==> sorted[j - 1].start <= x.start,
    ensures
        insert_by_start(sorted, x) == sorted.take(j).push(x) + sorted.skip(j),
    decreases sorted.len(),
{
    if sorted.len() == 0 {
        assert(sorted.take(j).push(x) + sorted.skip(j) =~= seq![x]);
    } else if sorted.last().start <= x.start {
        assert(j == sorted.len());
        assert(sorted.take(j).push(x) + sorted.skip(j) =~= sorted.push(x));
    } else {
        let d = sorted.drop_last();
        lemma_insert_at(d, x, j);
        assert(d.take(j).push(x) + d.skip(j) + seq![sorted.last()] =~= sorted.take(j).push(x) + sorted.skip(j));
        assert((d.take(j).push(x) + d.skip(j)).push(sorted.last()) =~= d.take(j).push(x) + d.skip(j) + seq![sorted.last()]);
    }
}

/// Inserts `x` into the start-sorted `v` after all links that start no later.
fn insert_link(v: &mut Vec<NoteLink>, x: NoteLink)
    ensures
        links_view(final(v)@) == insert_by_start(links_view(old(v)@), x@),
        forall|k: int| 0 <= k < final(v)@.len() ==> old(v)@.contains(#[trigger] final(v)@[k]) || final(v)@[k] == x,
{
    let ghost ov = links_view(v@);
    let mut j = v.len();
    while j > 0 && v[j - 1].range.start > x.range.start
        invariant
            j <= v.len(),
            ov == links_view(v@),
            forall|k: int| j <= k < v.len() ==> (#[trigger] ov[k]).start > x@.start,
        decreases j,
    {
        j = j - 1;
    }
    proof {
        lemma_insert_at(ov, x@, j as int);
    }
    let ghost v0 = v@;
    v.insert(j, x);
    assert(links_view(v@) =~= ov.take(j as int).push(x@) + ov.skip(j as int));
    assert forall|k: int| 0 <= k < v@.len() implies v0.contains(#[trigger] v@[k]) || v@[k] == x by {
        if k < j {
            assert(v@[k] == v0[k]);
        } else if k > j {
            assert(v@[k] == v0[k - 1]);
        }
    }
}

/// Stable sort of links by start position.
fn sort_links(v: Vec<NoteLink>, n: usize) -> (r: Vec<NoteLink>)
    requires
        links_within(links_view(v@), n as int),
    ensures
        links_view(r@) == sort_by_start(links_view(v@)),
        links_within(links_view(r@), n as int),
{
    let ghost orig = links_view(v@);
    let mut rest = v;
    let mut sorted: Vec<NoteLink> = Vec::new();
    let ghost mut k: int = 0;
    while rest.len() > 0
        invariant
            0 <= k <= orig.len(),
            links_view(rest@) == orig.skip(k),
            links_view(sorted@) == sort_by_start(orig.take(k)),
            links_within(orig, n as int),
            links_within(links_view(sorted@), n as int),
        decreases rest.len(),
    {
        let ghost rv = rest@;
        assert(links_view(rv).len() == rv.len());
        assert(links_view(rv)[0] == rv[0]@);
        assert(orig.skip(k)[0] == orig[k]);
        let x = rest.remove(0);
        assert(x == rv[0]);
        assert(x@ == orig[k]);
        assert(rv.remove(0) =~= rv.subrange(1, rv.len() as int));
        assert(rest@ =~= rv.subrange(1, rv.len() as int));
        assert forall|i: int| 0 <= i < rest@.len() implies #[trigger] links_view(rest@)[i] == orig.skip(k + 1)[i] by {
            assert(links_view(rest@)[i] == rest@[i]@);
            assert(rest@[i] == rv[i + 1]);
            assert(links_view(rv)[i + 1] == rv[i + 1]@);
            assert(orig.skip(k)[i + 1] == orig[k + 1 + i]);
        }
        assert(links_view(rest@) =~= orig.skip(k + 1));
        assert(orig.take(k + 1).drop_last() =~= orig.take(k));
        let ghost sv = sorted@;
        insert_link(&mut sorted, x);
        proof {
            assert forall|m: int| 0 <= m < links_view(sorted@).len() implies {
                &&& 0 <= #[trigger] links_view(sorted@)[m].start <= links_view(sorted@)[m].end <= n
                &&& (links_view(sorted@)[m].target matches TargetModel::SourceOffset(o) ==> 0 <= o <= n)
            } by {
                if sv.contains(sorted@[m]) {
                    let w = choose|w: int| 0 <= w < sv.len() && sv[w] == sorted@[m];
                    assert(links_view(sv)[w] == sorted@[m]@);
                } else {
                    assert(sorted@[m]@ == orig[k]);
                }
            }
            k = k + 1;
        }
    }
    assert(orig.take(k) =~= orig);
    sorted
}

/// `table[i]` is the byte offset of character `i` of `src`.
pub fn byte_offsets(src: &[char], total: usize) -> (table: Vec<usize>)
    requires
        byte_len(src@) == total,
    ensures
        table.len() == src.len() + 1,
        forall|i: int| 0 <= i <= src.len() ==> #[trigger] table@[i] == byte_len(src@.take(i)),
{
    let mut table: Vec<usize> = Vec::new();
    let mut acc: usize = 0;
    let mut i: usize = 0;
    assert(src@.take(0) =~= Seq::<char>::empty());
    assert(src@.take(src.len() as int) =~= src@);
    while i < src.len()
        invariant
            i <= src.len(),
            byte_len(src@) == total,
            src@.take(src.len() as int) == src@,
            table.len() == i,
            acc == byte_len(src@.take(i as int)),
            forall|m: int| 0 <= m < i ==> #[trigger] table@[m] == byte_len(src@.take(m)),
        decreases src.len() - i,
    {
        table.push(acc);
        proof {
            lemma_byte_len_take(src@, i as int);
            lemma_byte_len_monotone(src@, i + 1, src.len() as int);
        }
        acc = acc + char_width(src[i]);
        i = i + 1;
    }
    table.push(acc);
    table
}

/// Turns character positions into byte offsets.
fn links_in_bytes(src: &[char], links: Vec<NoteLink>, table: &Vec<usize>) -> (r: Vec<NoteLink>)
    requires
        links_within(links_view(links@), src.len() as int),
        table.len() == src.len() + 1,
        forall|i: int| 0 <= i <= src.len() ==> #[trigger] table@[i] == byte_len(src@.take(i)),
    ensures
        links_view(r@) == links_view(links@).map_values(|l: LinkModel| link_in_bytes(src@, l)),
{
    let ghost orig = links_view(links@);
    let mut rest = links;
    let mut out: Vec<NoteLink> = Vec::new();
    let ghost mut k: int = 0;
    while rest.len() > 0
        invariant
            0 <= k <= orig.len(),
            links_view(rest@) == orig.skip(k),
            links_view(out@) == orig.take(k).map_values(|l: LinkModel| link_in_bytes(src@, l)),
            links_within(orig, src.len() as int),
            table.len() == src.len() + 1,
            forall|i: int| 0 <= i <= src.len() ==> #[trigger] table@[i] == byte_len(src@.take(i)),
        decreases rest.len(),
    {
        let ghost rv = rest@;
        assert(links_view(rv).len() == rv.len());
        assert(links_view(rv)[0] == rv[0]@);
        assert(orig.skip(k)[0] == orig[k]);
        let x = rest.remove(0);
        assert(x == rv[0]);
        assert(x@ == orig[k]);
        assert(rv.remove(0) =~= rv.subrange(1, rv.len() as int));
        assert(rest@ =~= rv.subrange(1, rv.len() as int));
        assert forall|i: int| 0 <= i < rest@.len() implies #[trigger] links_view(rest@)[i] == orig.skip(k + 1)[i] by {
            assert(links_view(rest@)[i] == rest@[i]@);
            assert(rest@[i] == rv[i + 1]);
            assert(links_view(rv)[i + 1] == rv[i + 1]@);
            assert(orig.skip(k)[i + 1] == orig[k + 1 + i]);
        }
        assert(links_view(rest@) =~= orig.skip(k + 1));
        let target = match x.target {
            NoteLinkTarget::SourceOffset(o) => NoteLinkTarget::SourceOffset(table[o]),
            other => other,
        };
        let link = NoteLink { range: table[x.range.start]..table[x.range.end], target };
        assert(link@ == link_in_bytes(src@, orig[k]));
        out.push(link);
        assert(orig.take(k + 1).map_values(|l: LinkModel| link_in_bytes(src@, l)) =~= orig.take(k).map_values(
            |l: LinkModel| link_in_bytes(src@, l),
        ).push(link_in_bytes(src@, orig[k])));
        assert(links_view(out@) =~= orig.take(k + 1).map_values(|l: LinkModel| link_in_bytes(src@, l)));
        proof {
            k = k + 1;
        }
    }
    assert(orig.take(k) =~= orig);
    out
}

/// The links of a note: Markdown links to notes and web URIs, wiki links,
/// `note://` links, URI autolinks, and footnote references (linked to the
/// first definition of their label) and definitions (linked to the first
/// reference), outside inline code and fenced code blocks.  Ranges and
/// footnote targets are byte offsets; links are sorted by start, keeping
/// source order among equal starts.
pub fn note_links(source: &str) -> (links: Vec<NoteLink>)
    ensures
        links_view(links@) == spec_note_links(source@),
        sorted_by_start(links_view(links@)),
        crate::highlight::links_fit(source@, links_view(links@)),
{
    let src = chars_of(source);
    let total = source.as_bytes().len();
    let s = src.as_slice();
    let defs = footnote_definitions(s);
    let mut links: Vec<NoteLink> = Vec::new();
    collect_line_links(s, &mut links);
    let refs = footnote_references(s, &defs);
    reference_links_exec(&refs, &defs, s.len(), &mut links);
    definition_links_exec(&defs, &refs, s.len(), &mut links);
    proof {
        assert(links_view(links@) =~= doc_links_from(src@, 0, false) + reference_links(
            footnotes_view(refs@),
            footnotes_view(defs@),
        ) + definition_links(footnotes_view(defs@), footnotes_view(refs@)));
    }
    let ghost collected = links_view(links@);
    let sorted = sort_links(links, s.len());
    let ghost c = links_view(sorted@);
    proof {
        lemma_sort_by_start_sorted(collected);
    }
    let table = byte_offsets(s, total);
    let r = links_in_bytes(s, sorted, &table);
    proof {
        let rv = links_view(r@);
        assert(rv.len() == c.len());
        assert forall|i: int, j: int| 0 <= i < j < rv.len() implies rv[i].start <= rv[j].start by {
            assert(rv[i] == link_in_bytes(src@, c[i]));
            assert(rv[j] == link_in_bytes(src@, c[j]));
            assert(0 <= c[i].start <= c[j].start <= src@.len());
            lemma_byte_len_monotone(src@, c[i].start, c[j].start);
        }
        assert forall|k: int| 0 <= k < rv.len() && #[trigger] rv[k].end <= byte_len(src@) implies rv[k].start
            <= rv[k].end && selection_end_ok(src@, rv[k].start) && selection_end_ok(src@, rv[k].end) by {
            assert(rv[k] == link_in_bytes(src@, c[k]));
            assert(0 <= c[k].start <= c[k].end <= src@.len());
            lemma_byte_len_monotone(src@, c[k].start, c[k].end);
            assert(byte_len(src@.take(c[k].start)) == rv[k].start);
            assert(byte_len(src@.take(c[k].end)) == rv[k].end);
        }
    }
    r
}

// ---------------------------------------------------------------------------
// Headings.
// ---------------------------------------------------------------------------

/// The characters of `s`, each replaced by its lower case mapping.
pub open spec fn lower_all(s: Seq<char>) -> Seq<char>
    decreases s.len(),
{
    if s.len() == 0 {
        seq![]
    } else {
        lower_all(s.drop_last()) + char_lowercase(s.last())
    }
}

/// One character of a heading anchor: letters, digits and `_` are kept;
/// whitespace and `-` separate words with a single `-`; anything else is
/// dropped.
pub open spec fn anchor_push(st: (Seq<char>, bool), c: char) -> (Seq<char>, bool) {
    if char_is_alphanumeric(c) || c == '_' {
        let t = if st.1 && st.0.len() > 0 {
            st.0.push('-')
        } else {
            st.0
        };
        (t.push(c), false)
    } else if is_white_space(c) || c == '-' {
        (st.0, true)
    } else {
        st
    }
}

pub open spec fn anchor_fold(st: (Seq<char>, bool), cs: Seq<char>) -> (Seq<char>, bool)
    decreases cs.len(),
{
    if cs.len() == 0 {
        st
    } else {
        anchor_push(anchor_fold(st, cs.drop_last()), cs.last())
    }
}

pub proof fn lemma_anchor_fold_concat(st: (Seq<char>, bool), a: Seq<char>, b: Seq<char>)
    ensures
        anchor_fold(st, a + b) == anchor_fold(anchor_fold(st, a), b),
    decreases b.len(),
{
    if b.len() == 0 {
        assert(a + b =~= a);
    } else {
        assert((a + b).drop_last() =~= a + b.drop_last());
        lemma_anchor_fold_concat(st, a, b.drop_last());
    }
}

/// The Markdown anchor of a heading: lower case words joined by `-`.
pub open spec fn spec_heading_anchor(h: Seq<char>) -> Seq<char> {
    anchor_fold((seq![], false), lower_all(h)).0
}

/// The text of an ATX heading line (`#` to `######`, then whitespace), with
/// surrounding whitespace and closing `#`s removed.
pub open spec fn atx_heading_text(l: Seq<char>) -> Option<Seq<char>> {
    let t = trim_start(l, CharClass::Whitespace);
    let hashes = leading(t, 0, CharClass::Hash);
    if 1 <= hashes <= 6 && hashes < t.len() && is_white_space(t[hashes]) {
        Some(trim(trim_end(trim(t.skip(hashes), CharClass::Whitespace), CharClass::Hash), CharClass::Whitespace))
    } else {
        None
    }
}

/// A heading matches a link target by its text (ignoring ASCII case) or by
/// its anchor.
pub open spec fn heading_matches(h: Seq<char>, target: Seq<char>) -> bool {
    eq_ignore_ascii_case(h, target) || spec_heading_anchor(h) == spec_heading_anchor(target)
}

/// Character position of the first line from `pos` on, outside fenced code,
/// holding a heading that matches `target`.
pub open spec fn heading_line_from(s: Seq<char>, pos: int, in_fence: bool, target: Seq<char>) -> Option<int>
    decreases s.len() - pos,
{
    if pos < 0 || pos > s.len() {
        None
    } else {
        let e = line_end(s, pos);
        let l = s.subrange(pos, e);
        let fence = is_fence_line(l, CharClass::Whitespace);
        proof {
            lemma_find_from(s, pos, seq!['\n']);
        }
        if !fence && !in_fence && atx_heading_text(l) is Some && heading_matches(atx_heading_text(l)->0, target) {
            Some(pos)
        } else if e < s.len() {
            heading_line_from(s, e + 1, if fence { !in_fence } else { in_fence }, target)
        } else {
            None
        }
    }
}

/// Byte offset of the line holding the heading that `target` names.
pub open spec fn spec_heading_source_offset(s: Seq<char>, target: Seq<char>) -> Option<int> {
    match heading_line_from(s, 0, false, target) {
        Some(p) => Some(byte_len(s.take(p)) as int),
        None => None,
    }
}

/// The anchor of heading text `h`.
fn heading_anchor(h: &[char]) -> (r: Vec<char>)
    ensures
        r@ == spec_heading_anchor(h@),
{
    let mut anchor: Vec<char> = Vec::new();
    let mut separator = false;
    let mut i: usize = 0;
    assert(h@.take(0) =~= Seq::<char>::empty());
    while i < h.len()
        invariant
            i <= h.len(),
            (anchor@, separator) == anchor_fold((seq![], false), lower_all(h@.take(i as int))),
        decreases h.len() - i,
    {
        let lower = lowercase_char(h[i]);
        let ghost st0 = (anchor@, separator);
        let mut j: usize = 0;
        assert(lower@.take(0) =~= Seq::<char>::empty());
        while j < lower.len()
            invariant
                j <= lower.len(),
                (anchor@, separator) == anchor_fold(st0, lower@.take(j as int)),
            decreases lower.len() - j,
        {
            let c = lower[j];
            assert(lower@.take(j + 1).drop_last() =~= lower@.take(j as int));
            if is_alphanumeric(c) || c == '_' {
                if separator && anchor.len() > 0 {
                    anchor.push('-');
                }
                separator = false;
                anchor.push(c);
            } else if is_whitespace(c) || c == '-' {
                separator = true;
            }
            j = j + 1;
        }
        proof {
            assert(lower@.take(lower.len() as int) =~= lower@);
            assert(h@.take(i + 1).drop_last() =~= h@.take(i as int));
            lemma_anchor_fold_concat((seq![], false), lower_all(h@.take(i as int)), lower@);
        }
        i = i + 1;
    }
    assert(h@.take(h.len() as int) =~= h@);
    anchor
}

/// The text of the ATX heading on `line`, if it is one.
fn atx_heading_text_exec(line: &[char]) -> (r: Option<Vec<char>>)
    ensures
        match atx_heading_text(line@) {
            Some(h) => r matches Some(v) && v@ == h,
            None => r is None,
        },
{
    let t = trim_start_vec(line, &CharClass::Whitespace);
    let hashes = skip_class(t.as_slice(), 0, &CharClass::Hash);
    if 1 <= hashes && hashes <= 6 && hashes < t.len() && is_whitespace(t[hashes]) {
        let rest = slice_to_vec(t.as_slice(), hashes, t.len());
        assert(rest@ =~= t@.skip(hashes as int));
        let a = trim_vec(rest.as_slice(), &CharClass::Whitespace);
        let b = trim_end_vec(a.as_slice(), &CharClass::Hash);
        Some(trim_vec(b.as_slice(), &CharClass::Whitespace))
    } else {
        None
    }
}

/// Byte offset of the first line, outside fenced code blocks, holding an
/// ATX heading whose text equals `target` ignoring ASCII case or whose
/// Markdown anchor equals the anchor of `target`.
pub fn heading_source_offset(source: &str, target: &str) -> (r: Option<usize>)
    ensures
        opt_int(r) == spec_heading_source_offset(source@, target@),
{
    let src = chars_of(source);
    let tgt = chars_of(target);
    let s = src.as_slice();
    let target_anchor = heading_anchor(tgt.as_slice());
    let mut pos: usize = 0;
    let mut in_fence = false;
    loop
        invariant
            pos <= s.len(),
            s@ == source@,
            tgt@ == target@,
            target_anchor@ == spec_heading_anchor(target@),
            heading_line_from(s@, 0, false, target@) == heading_line_from(s@, pos as int, in_fence, target@),
        decreases s.len() - pos,
    {
        let e = line_end_exec(s, pos);
        let line = slice_to_vec(s, pos, e);
        let fence = is_fence_line_exec(line.as_slice(), &CharClass::Whitespace);
        if fence {
            in_fence = !in_fence;
        } else if !in_fence {
            if let Some(h) = atx_heading_text_exec(line.as_slice()) {
                let matches = eq_ignore_ascii_case_exec(h.as_slice(), 0, h.len(), tgt.as_slice()) || chars_eq(
                    heading_anchor(h.as_slice()).as_slice(),
                    target_anchor.as_slice(),
                );
                assert(h@.subrange(0, h@.len() as int) =~= h@);
                if matches {
                    let total = source.as_bytes().len();
                    let table = byte_offsets(s, total);
                    return Some(table[pos]);
                }
            }
        }
        if e < s.len() {
            pos = e + 1;
        } else {
            return None;
        }
    }
}

} // verus!
