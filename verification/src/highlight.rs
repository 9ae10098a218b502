//! Markdown highlighting: the styled lines the viewer and the editor show
//! for a note's source.

use vstd::prelude::*;

use unicode_segmentation::UnicodeSegmentation;

use crate::markdown::{
    autolink_len, footnote_label_len, footnote_label_length, is_fence_at, is_fence_line, is_fence_line_exec,
    line_end, line_end_exec, markdown_autolink_length, markdown_link, markdown_link_exec, wiki_close,
    wiki_close_exec,
};
use crate::styled::{
    make_styled_line, no_modifiers, plain_style, spans_text, spans_view, styled_line, Color, Line, LineModel,
    Modifiers, Span, SpanModel, Style, Text, lines_view,
};
use crate::text::{
    byte_len, byte_to_char, char_at_byte, lemma_byte_len_increasing, selection_end_ok,
    chars_of, find_char_exec, find_exec, find_from, is_white_space, is_whitespace, leading, lemma_find_from,
    lemma_leading, matches_at, matches_at_exec, skip_class, skip_class_back, slice_to_vec, string_of,
    trailing, trim_end, trim_start, CharClass,
};
use crate::theme::Theme;

verus! {

broadcast use vstd::string::group_string_axioms;

// ---------------------------------------------------------------------------
// Inline syntax.

/// What an inline piece of a line is.
#[derive(Clone, Copy, Debug, PartialEq, Eq, Structural)]
pub enum InlineKind {
    Plain,
    Code,
    Link,
    Bold,
    Italic,
}

/// Characters at which inline syntax may start.
pub open spec fn is_inline_marker(c: char) -> bool {
    c == '`' || c == '[' || c == '<' || c == '*'
}

/// The first position at or after `i` holding an inline marker, or the end.
pub open spec fn next_marker(l: Seq<char>, i: int) -> int
    decreases l.len() - i,
{
    if i < 0 || i >= l.len() {
        l.len() as int
    } else if is_inline_marker(l[i]) {
        i
    } else {
        next_marker(l, i + 1)
    }
}

pub proof fn lemma_next_marker(l: Seq<char>, i: int)
    requires
        0 <= i <= l.len(),
    ensures
        i <= next_marker(l, i) <= l.len(),
        forall|k: int| i <= k < next_marker(l, i) ==> !is_inline_marker(#[trigger] l[k]),
        next_marker(l, i) < l.len() ==> is_inline_marker(l[next_marker(l, i)]),
    decreases l.len() - i,
{
    if i < l.len() && !is_inline_marker(l[i]) {
        lemma_next_marker(l, i + 1);
    }
}

/// The length and kind of the inline piece starting at `l[i]`: plain text
/// up to the next marker; a code span; a footnote label, wiki link, Markdown
/// link or URI autolink; text in `**` or `*`; or else one plain character.
pub open spec fn inline_step(l: Seq<char>, i: int) -> (int, InlineKind) {
    if !is_inline_marker(l[i]) {
        (next_marker(l, i) - i, InlineKind::Plain)
    } else if l[i] == '`' && find_from(l, i + 1, seq!['`']) is Some {
        (find_from(l, i + 1, seq!['`']).unwrap() + 1 - i, InlineKind::Code)
    } else if footnote_label_len(l, i) is Some {
        (footnote_label_len(l, i).unwrap(), InlineKind::Link)
    } else if wiki_close(l, i) is Some {
        (wiki_close(l, i).unwrap() + 2 - i, InlineKind::Link)
    } else if markdown_link(l, i) is Some {
        (markdown_link(l, i).unwrap().1 + 1 - i, InlineKind::Link)
    } else if autolink_len(l, i) is Some {
        (autolink_len(l, i).unwrap(), InlineKind::Link)
    } else if matches_at(l, i, seq!['*', '*']) {
        if find_from(l, i + 2, seq!['*', '*']) is Some {
            (find_from(l, i + 2, seq!['*', '*']).unwrap() + 2 - i, InlineKind::Bold)
        } else {
            (1, InlineKind::Plain)
        }
    } else if l[i] == '*' && find_from(l, i + 1, seq!['*']) is Some {
        (find_from(l, i + 1, seq!['*']).unwrap() + 1 - i, InlineKind::Italic)
    } else {
        (1, InlineKind::Plain)
    }
}

pub proof fn lemma_inline_step(l: Seq<char>, i: int)
    requires
        0 <= i < l.len(),
    ensures
        1 <= inline_step(l, i).0 <= l.len() - i,
{
    lemma_next_marker(l, i);
    lemma_find_from(l, i + 1, seq!['`']);
    lemma_find_from(l, i + 2, seq!['*', '*']);
    lemma_find_from(l, i + 1, seq!['*']);
    lemma_find_from(l, i + 2, seq![']']);
    lemma_find_from(l, i + 2, seq![']', ']']);
    lemma_find_from(l, i, seq![']', '(']);
    lemma_find_from(l, i + 1, seq!['>']);
    if markdown_link(l, i) is Some {
        let le = find_from(l, i, seq![']', '(']).unwrap();
        lemma_find_from(l, le + 2, seq![')']);
    }
}

proof fn lemma_find_first(s: Seq<char>, from: int, pat: Seq<char>, j: int)
    requires
        0 <= from <= j,
        matches_at(s, j, pat),
        forall|k: int| from <= k < j ==> !matches_at(s, k, pat),
    ensures
        find_from(s, from, pat) == Some(j),
    decreases j - from,
{
    assert(from + pat.len() <= s.len());
    if pat.len() == 0 {
        assert(s.subrange(from, from) =~= pat);
        assert(matches_at(s, from, pat));
        assert(j == from);
    } else if matches_at(s, from, pat) {
        assert(j == from);
    } else {
        lemma_find_first(s, from + 1, pat, j);
    }
}

proof fn lemma_no_match_at(s: Seq<char>, k: int, pat: Seq<char>)
    requires
        0 <= k < s.len(),
        pat.len() > 0,
        s[k] != pat[0],
    ensures
        !matches_at(s, k, pat),
{
    if matches_at(s, k, pat) {
        assert(s.subrange(k, k + pat.len())[0] == s[k]);
    }
}

/// A Markdown link `[label](target)` after plain text (which holds none of
/// the inline markers `` ` ``, `[`, `<`, `*`) is highlighted as one piece in
/// the theme's link color, underlined: when the label holds no `]` and
/// starts with neither `[` nor `^` (which would make a wiki link or a
/// footnote), and the target holds no `)`.
pub proof fn lemma_markdown_link_is_highlighted(
    p: Seq<char>,
    label: Seq<char>,
    target: Seq<char>,
    rest: Seq<char>,
    theme: Theme,
)
    requires
        forall|k: int| 0 <= k < p.len() ==> #[trigger] p[k] != '`' && p[k] != '[' && p[k] != '<' && p[k] != '*',
        forall|k: int| 0 <= k < label.len() ==> #[trigger] label[k] != ']',
        label.len() > 0 ==> label[0] != '[' && label[0] != '^',
        forall|k: int| 0 <= k < target.len() ==> #[trigger] target[k] != ')',
    ensures
        ({
            let link = seq!['['] + label + seq![']', '('] + target + seq![')'];
            let spans = inline_spans(p + link + rest, theme);
            let at = if p.len() > 0 { 1int } else { 0int };
            &&& spans.len() > at
            &&& spans[at].content == link
            &&& spans[at].style.fg == Some(theme.link)
            &&& spans[at].style.add_modifier.underlined
            &&& p.len() > 0 ==> spans[0].content == p && spans[0].style == plain_style()
        }),
{
    let link = seq!['['] + label + seq![']', '('] + target + seq![')'];
    let l = p + link + rest;
    let i = p.len() as int;
    let le = i + 1 + label.len();
    let te = le + 2 + target.len();
    assert(l[i] == '[');
    assert forall|k: int| 0 <= k < i implies l[k] == p[k] by {}
    assert forall|k: int| i < k < le implies l[k] == label[k - i - 1] by {}
    assert(l[le] == ']' && l[le + 1] == '(');
    assert forall|k: int| le + 2 <= k < te implies l[k] == target[k - le - 2] by {}
    assert(l[te] == ')');
    // The first `](` from `i` is at `le`.
    assert(l.subrange(le, le + 2) =~= seq![']', '(']);
    assert forall|k: int| i <= k < le implies !matches_at(l, k, seq![']', '(']) by {
        if k > i {
            assert(l[k] == label[k - i - 1]);
        }
        lemma_no_match_at(l, k, seq![']', '(']);
    }
    lemma_find_first(l, i, seq![']', '('], le);
    // The first `)` after it is at `te`.
    assert(l.subrange(te, te + 1) =~= seq![')']);
    assert forall|k: int| le + 2 <= k < te implies !matches_at(l, k, seq![')']) by {
        assert(l[k] == target[k - le - 2]);
        lemma_no_match_at(l, k, seq![')']);
    }
    lemma_find_first(l, le + 2, seq![')'], te);
    assert(markdown_link(l, i) == Some((le, te)));
    // Neither a footnote label nor a wiki link starts here.
    assert(l[i + 1] != '^' && l[i + 1] != '[') by {
        if label.len() > 0 {
            assert(l[i + 1] == label[0]);
        }
    }
    if matches_at(l, i, seq!['[', '^']) {
        assert(l.subrange(i, i + 2)[1] == l[i + 1]);
    }
    if matches_at(l, i, seq!['[', '[']) {
        assert(l.subrange(i, i + 2)[1] == l[i + 1]);
    }
    assert(inline_step(l, i) == (te + 1 - i, InlineKind::Link));
    assert(l.subrange(i, te + 1) =~= link);
    if p.len() > 0 {
        lemma_next_marker(l, 0);
        let nm = next_marker(l, 0);
        if nm > i {
            assert(!is_inline_marker(l[i]));
        }
        if nm < i {
            assert(l[nm] == p[nm]);
        }
        assert(nm == i);
        assert(inline_step(l, 0) == (i, InlineKind::Plain));
        assert(l.subrange(0, i) =~= p);
        lemma_inline_step(l, 0);
        assert(inline_spans_from(l, 0, theme)[0].content == p);
        assert(inline_spans_from(l, 0, theme) == seq![SpanModel { content: l.subrange(0, i), style: inline_style(InlineKind::Plain, theme) }] + inline_spans_from(l, i, theme));
    }
    lemma_inline_step(l, i);
    assert(inline_spans_from(l, i, theme)[0] == SpanModel { content: l.subrange(i, te + 1), style: inline_style(InlineKind::Link, theme) });
}

/// The style of an inline piece.
pub open spec fn inline_style(k: InlineKind, theme: Theme) -> Style {
    match k {
        InlineKind::Plain => plain_style(),
        InlineKind::Code => Style { fg: Some(theme.code), bg: None, add_modifier: no_modifiers() },
        InlineKind::Link => Style {
            fg: Some(theme.link),
            bg: None,
            add_modifier: Modifiers { bold: false, italic: false, underlined: true, reversed: false },
        },
        InlineKind::Bold => Style {
            fg: None,
            bg: None,
            add_modifier: Modifiers { bold: true, italic: false, underlined: false, reversed: false },
        },
        InlineKind::Italic => Style {
            fg: None,
            bg: None,
            add_modifier: Modifiers { bold: false, italic: true, underlined: false, reversed: false },
        },
    }
}

/// The styled pieces of `l` from position `i` on.
pub open spec fn inline_spans_from(l: Seq<char>, i: int, theme: Theme) -> Seq<SpanModel>
    decreases l.len() - i,
{
    if i < 0 || i >= l.len() {
        seq![]
    } else {
        let (n, k) = inline_step(l, i);
        proof {
            lemma_inline_step(l, i);
        }
        seq![SpanModel { content: l.subrange(i, i + n), style: inline_style(k, theme) }] + inline_spans_from(
            l,
            i + n,
            theme,
        )
    }
}

/// The styled pieces of the text `l`.
pub open spec fn inline_spans(l: Seq<char>, theme: Theme) -> Seq<SpanModel> {
    inline_spans_from(l, 0, theme)
}

/// The pieces spell the text they were cut from.
pub proof fn lemma_inline_spans_text(l: Seq<char>, i: int, theme: Theme)
    requires
        0 <= i <= l.len(),
    ensures
        spans_text(inline_spans_from(l, i, theme)) == l.skip(i),
    decreases l.len() - i,
{
    if i < l.len() {
        lemma_inline_step(l, i);
        let (n, k) = inline_step(l, i);
        let head = SpanModel { content: l.subrange(i, i + n), style: inline_style(k, theme) };
        lemma_inline_spans_text(l, i + n, theme);
        lemma_spans_text_prepend(head, inline_spans_from(l, i + n, theme));
        assert(l.skip(i) =~= l.subrange(i, i + n) + l.skip(i + n));
    } else {
        assert(l.skip(i) =~= Seq::<char>::empty());
    }
}

pub proof fn lemma_spans_text_prepend(head: SpanModel, rest: Seq<SpanModel>)
    ensures
        spans_text(seq![head] + rest) == head.content + spans_text(rest),
    decreases rest.len(),
{
    if rest.len() == 0 {
        assert(seq![head] + rest =~= seq![head]);
        let one = seq![head];
        assert(one.len() == 1);
        assert(one.last() == head);
        assert(one.drop_last() =~= Seq::<SpanModel>::empty());
        assert(spans_text(one.drop_last()) =~= Seq::<char>::empty());
        assert(spans_text(one) == spans_text(one.drop_last()) + head.content);
        assert(spans_text(one) =~= head.content);
        assert(spans_text(rest) =~= Seq::<char>::empty());
        assert(head.content + Seq::<char>::empty() =~= head.content);
    } else {
        lemma_spans_text_prepend(head, rest.drop_last());
        assert((seq![head] + rest).drop_last() =~= seq![head] + rest.drop_last());
        assert(head.content + spans_text(rest.drop_last()) + rest.last().content =~= head.content + (spans_text(
            rest.drop_last(),
        ) + rest.last().content));
    }
}

pub proof fn lemma_spans_text_concat(a: Seq<SpanModel>, b: Seq<SpanModel>)
    ensures
        spans_text(a + b) == spans_text(a) + spans_text(b),
    decreases b.len(),
{
    if b.len() == 0 {
        assert(a + b =~= a);
        assert(spans_text(a) + Seq::<char>::empty() =~= spans_text(a));
    } else {
        lemma_spans_text_concat(a, b.drop_last());
        assert((a + b).drop_last() =~= a + b.drop_last());
        assert(spans_text(a) + spans_text(b.drop_last()) + b.last().content =~= spans_text(a) + (spans_text(
            b.drop_last(),
        ) + b.last().content));
    }
}

fn inline_style_exec(k: InlineKind, theme: &Theme) -> (r: Style)
    ensures
        r == inline_style(k, *theme),
{
    match k {
        InlineKind::Plain => Style::plain(),
        InlineKind::Code => Style::colored(theme.code, false, false, false),
        InlineKind::Link => Style::colored(theme.link, false, false, true),
        InlineKind::Bold => Style {
            fg: None,
            bg: None,
            add_modifier: Modifiers { bold: true, italic: false, underlined: false, reversed: false },
        },
        InlineKind::Italic => Style {
            fg: None,
            bg: None,
            add_modifier: Modifiers { bold: false, italic: true, underlined: false, reversed: false },
        },
    }
}

fn is_inline_marker_exec(c: char) -> (b: bool)
    ensures
        b == is_inline_marker(c),
{
    c == '`' || c == '[' || c == '<' || c == '*'
}

fn inline_step_exec(l: &[char], i: usize) -> (r: (usize, InlineKind))
    requires
        i < l.len(),
    ensures
        r.0 as int == inline_step(l@, i as int).0,
        r.1 == inline_step(l@, i as int).1,
{
    proof {
        lemma_inline_step(l@, i as int);
    }
    if !is_inline_marker_exec(l[i]) {
        let mut j = i;
        proof {
            lemma_next_marker(l@, i as int);
        }
        while j < l.len() && !is_inline_marker_exec(l[j])
            invariant
                i <= j <= l.len(),
                next_marker(l@, i as int) == next_marker(l@, j as int),
            decreases l.len() - j,
        {
            j = j + 1;
        }
        return (j - i, InlineKind::Plain);
    }
    if l[i] == '`' {
        match find_char_exec(l, i + 1, '`') {
            Some(e) => {
                return (e + 1 - i, InlineKind::Code);
            },
            None => {},
        }
    }
    match footnote_label_length(l, i) {
        Some(n) => {
            return (n, InlineKind::Link);
        },
        None => {},
    }
    match wiki_close_exec(l, i) {
        Some(e) => {
            return (e + 2 - i, InlineKind::Link);
        },
        None => {},
    }
    match markdown_link_exec(l, i) {
        Some((_, te)) => {
            return (te + 1 - i, InlineKind::Link);
        },
        None => {},
    }
    match markdown_autolink_length(l, i) {
        Some(n) => {
            return (n, InlineKind::Link);
        },
        None => {},
    }
    let two = ['*', '*'];
    assert(two@ =~= seq!['*', '*']);
    if matches_at_exec(l, i, &two) {
        return match find_exec(l, i + 2, &two) {
            Some(e) => (e + 2 - i, InlineKind::Bold),
            None => (1, InlineKind::Plain),
        };
    }
    if l[i] == '*' {
        match find_char_exec(l, i + 1, '*') {
            Some(e) => {
                return (e + 1 - i, InlineKind::Italic);
            },
            None => {},
        }
    }
    (1, InlineKind::Plain)
}

/// The styled pieces of the text `l` (see [`inline_spans`]).
pub fn highlight_inline(l: &[char], theme: &Theme) -> (r: Vec<Span>)
    ensures
        spans_view(r@) == inline_spans(l@, *theme),
{
    let mut out: Vec<Span> = Vec::new();
    let mut i: usize = 0;
    assert(spans_view(out@) =~= Seq::<SpanModel>::empty());
    while i < l.len()
        invariant
            i <= l.len(),
            inline_spans(l@, *theme) == spans_view(out@) + inline_spans_from(l@, i as int, *theme),
        decreases l.len() - i,
    {
        let (n, k) = inline_step_exec(l, i);
        proof {
            lemma_inline_step(l@, i as int);
        }
        let content = string_of(l, i, i + n);
        let span = Span { content, style: inline_style_exec(k, theme) };
        let ghost before = spans_view(out@);
        out.push(span);
        assert(spans_view(out@) =~= before.push(span@));
        assert(before + inline_spans_from(l@, i as int, *theme) =~= spans_view(out@) + inline_spans_from(
            l@,
            i + n,
            *theme,
        ));
        i = i + n;
    }
    assert(spans_view(out@) + inline_spans_from(l@, i as int, *theme) =~= spans_view(out@));
    out
}


// ---------------------------------------------------------------------------
// Block syntax.

/// The state of a task-list checkbox.
#[derive(Clone, Copy, Debug, PartialEq, Eq, Structural)]
pub enum CheckboxState {
    Unchecked,
    Partial,
    Checked,
}

/// Where the list marker of `l` ends (`- `, `* `, `+ ` or `1. ` after the
/// indentation), if `l` is a list item.
pub open spec fn list_marker_end(l: Seq<char>) -> Option<int> {
    let ind = leading(l, 0, CharClass::Whitespace);
    if matches_at(l, ind, seq!['-', ' ']) || matches_at(l, ind, seq!['*', ' ']) || matches_at(
        l,
        ind,
        seq!['+', ' '],
    ) {
        Some(ind + 2)
    } else {
        let d = leading(l, ind, CharClass::AsciiDigit);
        if d > 0 && matches_at(l, ind + d, seq!['.', ' ']) {
            Some(ind + d + 2)
        } else {
            None
        }
    }
}

/// The checkbox `[ ]`, `[-]`, `[x]` or `[X]` that `t` starts with, when the
/// text ends there or whitespace follows.
pub open spec fn checkbox_marker(t: Seq<char>) -> Option<CheckboxState> {
    let state = if matches_at(t, 0, seq!['[', ' ', ']']) {
        Some(CheckboxState::Unchecked)
    } else if matches_at(t, 0, seq!['[', '-', ']']) {
        Some(CheckboxState::Partial)
    } else if matches_at(t, 0, seq!['[', 'x', ']']) || matches_at(t, 0, seq!['[', 'X', ']']) {
        Some(CheckboxState::Checked)
    } else {
        None
    };
    if state is Some && (t.len() == 3 || is_white_space(t[3])) {
        state
    } else {
        None
    }
}

/// An ATX heading: `#`s followed by whitespace.
pub open spec fn is_atx_heading(t: Seq<char>) -> bool {
    let h = leading(t, 0, CharClass::Hash);
    t.len() > 0 && t[0] == '#' && h < t.len() && is_white_space(t[h])
}

pub open spec fn all_chars(s: Seq<char>, c: char) -> bool {
    forall|k: int| 0 <= k < s.len() ==> #[trigger] s[k] == c
}

/// A setext underline: at most three spaces, then only `=` or only `-`,
/// then spaces or tabs.
pub open spec fn is_setext_underline(l: Seq<char>) -> bool {
    let indent = leading(l, 0, CharClass::Space);
    let marker = trim_end(l.skip(indent), CharClass::SpaceOrTab);
    indent <= 3 && marker.len() > 0 && (all_chars(marker, '=') || all_chars(marker, '-'))
}

/// A line that a setext underline below it would turn into a heading.
pub open spec fn is_setext_title(l: Seq<char>) -> bool {
    let t = trim_start(l, CharClass::Whitespace);
    &&& t.len() > 0
    &&& !is_setext_underline(l)
    &&& !is_atx_heading(t)
    &&& t[0] != '>'
    &&& list_marker_end(l) is None
}

pub open spec fn colored(c: Color, bold: bool, italic: bool) -> Style {
    Style {
        fg: Some(c),
        bg: None,
        add_modifier: Modifiers { bold, italic, underlined: false, reversed: false },
    }
}

pub open spec fn checkbox_color(state: CheckboxState, theme: Theme) -> Color {
    match state {
        CheckboxState::Unchecked => theme.warning,
        CheckboxState::Partial => theme.muted,
        CheckboxState::Checked => theme.success,
    }
}

/// The spans of a list item whose marker ends at `m`: the marker, a
/// checkbox if one follows, and the highlighted rest.
pub open spec fn list_spans(l: Seq<char>, m: int, theme: Theme) -> Seq<SpanModel> {
    let marker = SpanModel { content: l.take(m), style: colored(theme.warning, true, false) };
    match checkbox_marker(l.skip(m)) {
        Some(state) => seq![
            marker,
            SpanModel { content: l.subrange(m, m + 3), style: colored(checkbox_color(state, theme), true, false) },
        ] + inline_spans(l.skip(m + 3), theme),
        None => seq![marker] + inline_spans(l.skip(m), theme),
    }
}

/// One highlighted line `l`, with `next` the line after it, inside a fence
/// or not, after a setext title or not: the line and the two flags for the
/// next line.
pub open spec fn highlight_line(
    l: Seq<char>,
    next: Option<Seq<char>>,
    in_fence: bool,
    after_title: bool,
    theme: Theme,
) -> (LineModel, bool, bool) {
    let t = trim_start(l, CharClass::Whitespace);
    if is_fence_line(l, CharClass::Whitespace) {
        (styled_line(l, colored(theme.fence, true, false)), !in_fence, false)
    } else if in_fence {
        (styled_line(l, colored(theme.code, false, false)), true, false)
    } else {
        let title = is_setext_title(l) && (next matches Some(n) && is_setext_underline(n));
        let line = if after_title || title || is_atx_heading(t) {
            styled_line(l, colored(theme.heading, true, false))
        } else if t.len() > 0 && t[0] == '>' {
            styled_line(l, colored(theme.quote, false, true))
        } else {
            match list_marker_end(l) {
                Some(m) => LineModel { spans: list_spans(l, m, theme), style: plain_style() },
                None => LineModel { spans: inline_spans(l, theme), style: plain_style() },
            }
        };
        (line, false, title)
    }
}

/// The highlighted lines of `s` from the line starting at `pos` on.
pub open spec fn highlight_from(s: Seq<char>, pos: int, in_fence: bool, after_title: bool, theme: Theme) -> Seq<
    LineModel,
>
    decreases s.len() - pos,
{
    if pos < 0 || pos > s.len() {
        seq![]
    } else {
        let e = line_end(s, pos);
        proof {
            lemma_find_from(s, pos, seq!['\n']);
        }
        let next = if e < s.len() {
            Some(s.subrange(e + 1, line_end(s, e + 1)))
        } else {
            None
        };
        let (line, fence, title) = highlight_line(s.subrange(pos, e), next, in_fence, after_title, theme);
        seq![line] + if e < s.len() {
            highlight_from(s, e + 1, fence, title, theme)
        } else {
            seq![]
        }
    }
}

/// The highlighted lines of a note's source: one per line of `s`.
pub open spec fn spec_highlight(s: Seq<char>, theme: Theme) -> Seq<LineModel> {
    highlight_from(s, 0, false, false, theme)
}

fn list_marker_end_exec(l: &[char]) -> (r: Option<usize>)
    ensures
        opt_usize(r) == list_marker_end(l@),
        r matches Some(m) ==> m <= l.len(),
{
    let ind = skip_class(l, 0, &CharClass::Whitespace);
    if matches_at_exec(l, ind, &['-', ' ']) || matches_at_exec(l, ind, &['*', ' ']) || matches_at_exec(
        l,
        ind,
        &['+', ' '],
    ) {
        assert(['-', ' ']@ =~= seq!['-', ' ']);
        assert(['*', ' ']@ =~= seq!['*', ' ']);
        assert(['+', ' ']@ =~= seq!['+', ' ']);
        return Some(ind + 2);
    }
    assert(['-', ' ']@ =~= seq!['-', ' ']);
    assert(['*', ' ']@ =~= seq!['*', ' ']);
    assert(['+', ' ']@ =~= seq!['+', ' ']);
    let after = skip_class(l, ind, &CharClass::AsciiDigit);
    let d = after - ind;
    assert(['.', ' ']@ =~= seq!['.', ' ']);
    if d > 0 && matches_at_exec(l, after, &['.', ' ']) {
        Some(after + 2)
    } else {
        None
    }
}

pub open spec fn opt_usize(o: Option<usize>) -> Option<int> {
    match o {
        Some(x) => Some(x as int),
        None => None,
    }
}

fn checkbox_marker_exec(t: &[char]) -> (r: Option<CheckboxState>)
    ensures
        r == checkbox_marker(t@),
{
    assert(['[', ' ', ']']@ =~= seq!['[', ' ', ']']);
    assert(['[', '-', ']']@ =~= seq!['[', '-', ']']);
    assert(['[', 'x', ']']@ =~= seq!['[', 'x', ']']);
    assert(['[', 'X', ']']@ =~= seq!['[', 'X', ']']);
    let state = if matches_at_exec(t, 0, &['[', ' ', ']']) {
        Some(CheckboxState::Unchecked)
    } else if matches_at_exec(t, 0, &['[', '-', ']']) {
        Some(CheckboxState::Partial)
    } else if matches_at_exec(t, 0, &['[', 'x', ']']) || matches_at_exec(t, 0, &['[', 'X', ']']) {
        Some(CheckboxState::Checked)
    } else {
        None
    };
    if state.is_some() && (t.len() == 3 || is_whitespace(t[3])) {
        state
    } else {
        None
    }
}

fn is_atx_heading_exec(t: &[char]) -> (b: bool)
    ensures
        b == is_atx_heading(t@),
{
    let h = skip_class(t, 0, &CharClass::Hash);
    t.len() > 0 && t[0] == '#' && h < t.len() && is_whitespace(t[h])
}

fn all_chars_exec(s: &[char], c: char) -> (b: bool)
    ensures
        b == all_chars(s@, c),
{
    let mut k: usize = 0;
    while k < s.len()
        invariant
            k <= s.len(),
            forall|m: int| 0 <= m < k ==> s@[m] == c,
        decreases s.len() - k,
    {
        if s[k] != c {
            return false;
        }
        k = k + 1;
    }
    true
}

fn is_setext_underline_exec(l: &[char]) -> (b: bool)
    ensures
        b == is_setext_underline(l@),
{
    let indent = skip_class(l, 0, &CharClass::Space);
    let rest = slice_to_vec(l, indent, l.len());
    assert(rest@ =~= l@.skip(indent as int));
    let end = skip_class_back(rest.as_slice(), rest.len(), &CharClass::SpaceOrTab);
    let marker = slice_to_vec(rest.as_slice(), 0, end);
    assert(marker@ =~= trim_end(l@.skip(indent as int), CharClass::SpaceOrTab));
    indent <= 3 && marker.len() > 0 && (all_chars_exec(marker.as_slice(), '=') || all_chars_exec(
        marker.as_slice(),
        '-',
    ))
}

fn is_setext_title_exec(l: &[char]) -> (b: bool)
    ensures
        b == is_setext_title(l@),
{
    let start = skip_class(l, 0, &CharClass::Whitespace);
    let t = slice_to_vec(l, start, l.len());
    assert(t@ =~= trim_start(l@, CharClass::Whitespace));
    t.len() > 0 && !is_setext_underline_exec(l) && !is_atx_heading_exec(t.as_slice()) && t[0] != '>'
        && list_marker_end_exec(l).is_none()
}

fn list_spans_exec(l: &[char], m: usize, theme: &Theme) -> (r: Vec<Span>)
    requires
        m <= l.len(),
    ensures
        spans_view(r@) == list_spans(l@, m as int, *theme),
{
    let mut out: Vec<Span> = Vec::new();
    out.push(Span { content: string_of(l, 0, m), style: Style::colored(theme.warning, true, false, false) });
    let rest = slice_to_vec(l, m, l.len());
    assert(rest@ =~= l@.skip(m as int));
    match checkbox_marker_exec(rest.as_slice()) {
        Some(state) => {
            let color = match state {
                CheckboxState::Unchecked => theme.warning,
                CheckboxState::Partial => theme.muted,
                CheckboxState::Checked => theme.success,
            };
            out.push(Span { content: string_of(l, m, m + 3), style: Style::colored(color, true, false, false) });
            let tail = slice_to_vec(l, m + 3, l.len());
            assert(tail@ =~= l@.skip(m + 3));
            let mut spans = highlight_inline(tail.as_slice(), theme);
            let ghost head = spans_view(out@);
            let ghost more = spans_view(spans@);
            out.append(&mut spans);
            assert(spans_view(out@) =~= head + more);
        },
        None => {
            let mut spans = highlight_inline(rest.as_slice(), theme);
            let ghost head = spans_view(out@);
            let ghost more = spans_view(spans@);
            out.append(&mut spans);
            assert(spans_view(out@) =~= head + more);
        },
    }
    out
}

fn highlight_line_exec(
    l: &[char],
    next: Option<&[char]>,
    in_fence: bool,
    after_title: bool,
    theme: &Theme,
) -> (r: (Line, bool, bool))
    ensures
        ({
            let (line, fence, title) = highlight_line(
                l@,
                match next {
                    Some(n) => Some(n@),
                    None => None,
                },
                in_fence,
                after_title,
                *theme,
            );
            r.0@ == line && r.1 == fence && r.2 == title
        }),
{
    let start = skip_class(l, 0, &CharClass::Whitespace);
    let t = slice_to_vec(l, start, l.len());
    assert(t@ =~= trim_start(l@, CharClass::Whitespace));
    let content = string_of(l, 0, l.len());
    assert(content@ =~= l@);
    if is_fence_line_exec(l, &CharClass::Whitespace) {
        return (make_styled_line(content, Style::colored(theme.fence, true, false, false)), !in_fence, false);
    }
    if in_fence {
        return (make_styled_line(content, Style::colored(theme.code, false, false, false)), true, false);
    }
    let title = is_setext_title_exec(l) && match next {
        Some(n) => is_setext_underline_exec(n),
        None => false,
    };
    let line = if after_title || title || is_atx_heading_exec(t.as_slice()) {
        make_styled_line(content, Style::colored(theme.heading, true, false, false))
    } else if t.len() > 0 && t[0] == '>' {
        make_styled_line(content, Style::colored(theme.quote, false, true, false))
    } else {
        match list_marker_end_exec(l) {
            Some(m) => Line { spans: list_spans_exec(l, m, theme), style: Style::plain() },
            None => Line { spans: highlight_inline(l, theme), style: Style::plain() },
        }
    };
    (line, false, title)
}

/// The highlighted lines of a note's source (see [`spec_highlight`]).
pub fn highlight(source: &str, theme: &Theme) -> (r: Text)
    ensures
        r@ == spec_highlight(source@, *theme),
{
    let s = chars_of(source);
    let mut lines: Vec<Line> = Vec::new();
    let mut pos: usize = 0;
    let mut in_fence = false;
    let mut after_title = false;
    let mut e = line_end_exec(s.as_slice(), 0);
    assert(lines_view(lines@) =~= Seq::<LineModel>::empty());
    loop
        invariant_except_break
            pos <= e <= s.len(),
            e == line_end(s@, pos as int),
            spec_highlight(s@, *theme) == lines_view(lines@) + highlight_from(
                s@,
                pos as int,
                in_fence,
                after_title,
                *theme,
            ),
        invariant
            s@ == source@,
        ensures
            spec_highlight(s@, *theme) == lines_view(lines@),
        decreases s.len() - pos,
    {
        let l = slice_to_vec(s.as_slice(), pos, e);
        let has_next = e < s.len();
        let next_end = if has_next {
            line_end_exec(s.as_slice(), e + 1)
        } else {
            e
        };
        let nl = if has_next {
            slice_to_vec(s.as_slice(), e + 1, next_end)
        } else {
            Vec::new()
        };
        let next: Option<&[char]> = if has_next {
            Some(nl.as_slice())
        } else {
            None
        };
        let (line, fence, title) = highlight_line_exec(l.as_slice(), next, in_fence, after_title, theme);
        let ghost before = lines_view(lines@);
        lines.push(line);
        assert(lines_view(lines@) =~= before.push(line@));
        if !has_next {
            assert(highlight_from(s@, pos as int, in_fence, after_title, *theme) =~= seq![line@]);
            assert(lines_view(lines@) =~= before + seq![line@]);
            break;
        }
        assert(before + highlight_from(s@, pos as int, in_fence, after_title, *theme) =~= lines_view(lines@)
            + highlight_from(s@, e + 1, fence, title, *theme));
        pos = e + 1;
        e = next_end;
        in_fence = fence;
        after_title = title;
    }
    Text { lines }
}


// ---------------------------------------------------------------------------
// Highlighting keeps the text.

/// The lines of `s` from the line starting at `pos` on, split at `'\n'`.
pub open spec fn lines_from(s: Seq<char>, pos: int) -> Seq<Seq<char>>
    decreases s.len() - pos,
{
    if pos < 0 || pos > s.len() {
        seq![]
    } else {
        let e = line_end(s, pos);
        proof {
            lemma_find_from(s, pos, seq!['\n']);
        }
        seq![s.subrange(pos, e)] + if e < s.len() {
            lines_from(s, e + 1)
        } else {
            seq![]
        }
    }
}

proof fn lemma_styled_line_text(l: Seq<char>, style: Style)
    ensures
        spans_text(styled_line(l, style).spans) == l,
{
    if l.len() > 0 {
        lemma_spans_text_prepend(SpanModel { content: l, style: plain_style() }, seq![]);
        assert(seq![SpanModel { content: l, style: plain_style() }] + Seq::<SpanModel>::empty() =~= seq![
            SpanModel { content: l, style: plain_style() },
        ]);
        assert(l + Seq::<char>::empty() =~= l);
    } else {
        assert(l =~= Seq::<char>::empty());
    }
}

proof fn lemma_highlight_line_text(
    l: Seq<char>,
    next: Option<Seq<char>>,
    in_fence: bool,
    after_title: bool,
    theme: Theme,
)
    ensures
        spans_text(highlight_line(l, next, in_fence, after_title, theme).0.spans) == l,
{
    let t = trim_start(l, CharClass::Whitespace);
    lemma_styled_line_text(l, colored(theme.fence, true, false));
    lemma_styled_line_text(l, colored(theme.code, false, false));
    lemma_styled_line_text(l, colored(theme.heading, true, false));
    lemma_styled_line_text(l, colored(theme.quote, false, true));
    lemma_inline_spans_text(l, 0, theme);
    assert(l.skip(0) =~= l);
    match list_marker_end(l) {
        Some(m) => lemma_list_spans_text(l, m, theme),
        None => {},
    }
}

proof fn lemma_list_spans_text(l: Seq<char>, m: int, theme: Theme)
    requires
        list_marker_end(l) == Some(m),
    ensures
        spans_text(list_spans(l, m, theme)) == l,
{
    let ind = leading(l, 0, CharClass::Whitespace);
    lemma_leading(l, 0, CharClass::Whitespace);
    if !(matches_at(l, ind, seq!['-', ' ']) || matches_at(l, ind, seq!['*', ' ']) || matches_at(
        l,
        ind,
        seq!['+', ' '],
    )) {
        lemma_leading(l, ind, CharClass::AsciiDigit);
    }
    assert(m <= l.len());
    let marker = SpanModel { content: l.take(m), style: colored(theme.warning, true, false) };
    match checkbox_marker(l.skip(m)) {
        Some(state) => {
            let cb = SpanModel {
                content: l.subrange(m, m + 3),
                style: colored(checkbox_color(state, theme), true, false),
            };
            let rest = inline_spans(l.skip(m + 3), theme);
            lemma_inline_spans_text(l.skip(m + 3), 0, theme);
            assert(l.skip(m + 3).skip(0) =~= l.skip(m + 3));
            lemma_spans_text_concat(seq![marker, cb], rest);
            lemma_spans_text_prepend(cb, seq![]);
            lemma_spans_text_prepend(marker, seq![cb]);
            assert(seq![cb] + Seq::<SpanModel>::empty() =~= seq![cb]);
            assert(seq![marker] + seq![cb] =~= seq![marker, cb]);
            assert(l =~= l.take(m) + (l.subrange(m, m + 3) + Seq::<char>::empty()) + l.skip(m + 3));
        },
        None => {
            let rest = inline_spans(l.skip(m), theme);
            lemma_inline_spans_text(l.skip(m), 0, theme);
            assert(l.skip(m).skip(0) =~= l.skip(m));
            lemma_spans_text_prepend(marker, rest);
            assert(l =~= l.take(m) + l.skip(m));
        },
    }
}

/// Highlighting changes no text: the highlighted source has one line per
/// line of the source, and the spans of each spell that line.
pub proof fn lemma_highlight_keeps_text(s: Seq<char>, pos: int, in_fence: bool, after_title: bool, theme: Theme)
    requires
        0 <= pos <= s.len(),
    ensures
        highlight_from(s, pos, in_fence, after_title, theme).len() == lines_from(s, pos).len(),
        forall|k: int|
            0 <= k < lines_from(s, pos).len() ==> spans_text(
                #[trigger] highlight_from(s, pos, in_fence, after_title, theme)[k].spans,
            ) == lines_from(s, pos)[k],
    decreases s.len() - pos,
{
    let e = line_end(s, pos);
    lemma_find_from(s, pos, seq!['\n']);
    let next = if e < s.len() {
        Some(s.subrange(e + 1, line_end(s, e + 1)))
    } else {
        None
    };
    let (line, fence, title) = highlight_line(s.subrange(pos, e), next, in_fence, after_title, theme);
    lemma_highlight_line_text(s.subrange(pos, e), next, in_fence, after_title, theme);
    if e < s.len() {
        lemma_highlight_keeps_text(s, e + 1, fence, title, theme);
        let h = highlight_from(s, pos, in_fence, after_title, theme);
        let ls = lines_from(s, pos);
        assert forall|k: int| 0 <= k < ls.len() implies spans_text(#[trigger] h[k].spans) == ls[k] by {
            if k > 0 {
                assert(h[k] == highlight_from(s, e + 1, fence, title, theme)[k - 1]);
                assert(ls[k] == lines_from(s, e + 1)[k - 1]);
            }
        }
    }
}


// ---------------------------------------------------------------------------
// Selections.

pub open spec fn clamp(x: int, lo: int, hi: int) -> int {
    if x < lo {
        lo
    } else if x > hi {
        hi
    } else {
        x
    }
}

pub open spec fn reversed(st: Style) -> Style {
    Style {
        fg: st.fg,
        bg: st.bg,
        add_modifier: Modifiers {
            bold: st.add_modifier.bold,
            italic: st.add_modifier.italic,
            underlined: st.add_modifier.underlined,
            reversed: true,
        },
    }
}

/// A span at character offset `off` of the source, cut at the selection
/// `a..b`: the part before it, the selected part shown reversed, and the
/// part after it, each in the span's style patched onto the line style.
pub open spec fn select_span(sp: SpanModel, line_style: Style, off: int, a: int, b: int) -> Seq<SpanModel> {
    let n = sp.content.len() as int;
    let st = crate::styled::patch_style(line_style, sp.style);
    let x = clamp(a, off, off + n) - off;
    let y = clamp(b, off, off + n) - off;
    (if x > 0 {
        seq![SpanModel { content: sp.content.take(x), style: st }]
    } else {
        seq![]
    }) + (if y > x {
        seq![SpanModel { content: sp.content.subrange(x, y), style: reversed(st) }]
    } else {
        seq![]
    }) + (if y < n {
        seq![SpanModel { content: sp.content.skip(y), style: st }]
    } else {
        seq![]
    })
}

/// The spans from the `j`-th on, the `j`-th at offset `off`, cut at the
/// selection.
pub open spec fn select_spans_from(spans: Seq<SpanModel>, j: int, off: int, line_style: Style, a: int, b: int) -> Seq<
    SpanModel,
>
    decreases spans.len() - j,
{
    if j < 0 || j >= spans.len() {
        seq![]
    } else {
        select_span(spans[j], line_style, off, a, b) + select_spans_from(
            spans,
            j + 1,
            off + spans[j].content.len(),
            line_style,
            a,
            b,
        )
    }
}

/// A highlighted line starting at offset `off`, cut at the selection; its
/// line style moves into the spans.
pub open spec fn select_line(line: LineModel, off: int, a: int, b: int) -> LineModel {
    LineModel { spans: select_spans_from(line.spans, 0, off, line.style, a, b), style: plain_style() }
}

/// The highlighted lines from the line starting at `pos` on, with the
/// character selection `a..b` shown reversed.
pub open spec fn select_from(
    s: Seq<char>,
    pos: int,
    in_fence: bool,
    after_title: bool,
    theme: Theme,
    a: int,
    b: int,
) -> Seq<LineModel>
    decreases s.len() - pos,
{
    if pos < 0 || pos > s.len() {
        seq![]
    } else {
        let e = line_end(s, pos);
        proof {
            lemma_find_from(s, pos, seq!['\n']);
        }
        let next = if e < s.len() {
            Some(s.subrange(e + 1, line_end(s, e + 1)))
        } else {
            None
        };
        let (line, fence, title) = highlight_line(s.subrange(pos, e), next, in_fence, after_title, theme);
        seq![select_line(line, pos, a, b)] + if e < s.len() {
            select_from(s, e + 1, fence, title, theme, a, b)
        } else {
            seq![]
        }
    }
}

/// The highlighted source with the byte range `selection` shown reversed.
pub open spec fn spec_highlight_selection(s: Seq<char>, theme: Theme, selection: Option<(int, int)>) -> Seq<
    LineModel,
> {
    match selection {
        None => spec_highlight(s, theme),
        Some((a, b)) => select_from(s, 0, false, false, theme, byte_to_char(s, a), byte_to_char(s, b)),
    }
}

fn clamp_exec(x: usize, lo: usize, hi: usize) -> (r: usize)
    requires
        lo <= hi,
    ensures
        r == clamp(x as int, lo as int, hi as int),
{
    if x < lo {
        lo
    } else if x > hi {
        hi
    } else {
        x
    }
}

fn select_span_exec(sp: &Span, line_style: Style, off: usize, a: usize, b: usize, out: &mut Vec<Span>)
    requires
        off + sp.content@.len() <= usize::MAX,
    ensures
        spans_view(final(out)@) == spans_view(old(out)@) + select_span(sp@, line_style, off as int, a as int, b as int),
{
    let c = chars_of(sp.content.as_str());
    let n = c.len();
    let st = line_style.patch(sp.style);
    let x = clamp_exec(a, off, off + n) - off;
    let y = clamp_exec(b, off, off + n) - off;
    let ghost start = spans_view(out@);
    if x > 0 {
        out.push(Span { content: string_of(c.as_slice(), 0, x), style: st });
    }
    let ghost mid = spans_view(out@);
    if y > x {
        let rs = Style {
            fg: st.fg,
            bg: st.bg,
            add_modifier: Modifiers {
                bold: st.add_modifier.bold,
                italic: st.add_modifier.italic,
                underlined: st.add_modifier.underlined,
                reversed: true,
            },
        };
        out.push(Span { content: string_of(c.as_slice(), x, y), style: rs });
    }
    let ghost mid2 = spans_view(out@);
    if y < n {
        out.push(Span { content: string_of(c.as_slice(), y, n), style: st });
    }
    proof {
        let sel = select_span(sp@, line_style, off as int, a as int, b as int);
        assert(c@.take(x as int) =~= c@.subrange(0, x as int));
        assert(c@.skip(y as int) =~= c@.subrange(y as int, n as int));
        assert(spans_view(out@) =~= start + sel);
    }
}

proof fn lemma_spans_text_take(spans: Seq<SpanModel>, j: int)
    requires
        0 <= j < spans.len(),
    ensures
        spans_text(spans.take(j + 1)) == spans_text(spans.take(j)) + spans[j].content,
        spans_text(spans.take(j)).len() + spans[j].content.len() <= spans_text(spans).len(),
{
    assert(spans.take(j + 1).drop_last() =~= spans.take(j));
    lemma_spans_text_concat(spans.take(j + 1), spans.skip(j + 1));
    assert(spans.take(j + 1) + spans.skip(j + 1) =~= spans);
}

fn select_line_exec(line: &Line, off: usize, a: usize, b: usize) -> (r: Line)
    requires
        off + spans_text(line@.spans).len() <= usize::MAX,
    ensures
        r@ == select_line(line@, off as int, a as int, b as int),
{
    let ghost sv = line@.spans;
    let mut out: Vec<Span> = Vec::new();
    let mut cur = off;
    let mut j: usize = 0;
    assert(sv.take(0) =~= Seq::<SpanModel>::empty());
    assert(spans_view(out@) =~= Seq::<SpanModel>::empty());
    while j < line.spans.len()
        invariant
            sv == line@.spans,
            sv.len() == line.spans.len(),
            j <= line.spans.len(),
            off + spans_text(sv).len() <= usize::MAX,
            cur == off + spans_text(sv.take(j as int)).len(),
            select_spans_from(sv, 0, off as int, line.style, a as int, b as int) == spans_view(out@)
                + select_spans_from(sv, j as int, cur as int, line.style, a as int, b as int),
        decreases line.spans.len() - j,
    {
        proof {
            lemma_spans_text_take(sv, j as int);
        }
        assert(sv[j as int] == line.spans@[j as int]@);
        let ghost before = spans_view(out@);
        select_span_exec(&line.spans[j], line.style, cur, a, b, &mut out);
        let ghost piece = select_span(sv[j as int], line.style, cur as int, a as int, b as int);
        assert(before + select_spans_from(sv, j as int, cur as int, line.style, a as int, b as int) =~= before
            + piece + select_spans_from(
            sv,
            j + 1,
            cur + sv[j as int].content.len(),
            line.style,
            a as int,
            b as int,
        ));
        let n = chars_of(line.spans[j].content.as_str()).len();
        cur = cur + n;
        j = j + 1;
    }
    assert(spans_view(out@) + select_spans_from(sv, j as int, cur as int, line.style, a as int, b as int)
        =~= spans_view(out@));
    Line { spans: out, style: Style::plain() }
}

/// The highlighted source with the byte range `selection` shown reversed
/// (see [`spec_highlight_selection`]); the ends of the selection lie
/// between characters.
pub fn highlight_selection(source: &str, theme: &Theme, selection: Option<std::ops::Range<usize>>) -> (r: Text)
    requires
        selection matches Some(sel) ==> selection_end_ok(source@, sel.start as int) && selection_end_ok(
            source@,
            sel.end as int,
        ),
    ensures
        r@ == spec_highlight_selection(
            source@,
            *theme,
            match selection {
                Some(sel) => Some((sel.start as int, sel.end as int)),
                None => None,
            },
        ),
{
    let (start, end) = match selection {
        None => {
            return highlight(source, theme);
        },
        Some(sel) => (sel.start, sel.end),
    };
    let s = chars_of(source);
    let total = source.as_bytes().len();
    let table = crate::markdown::byte_offsets(s.as_slice(), total);
    let a = char_at_byte(s.as_slice(), &table, start);
    let b = char_at_byte(s.as_slice(), &table, end);
    let mut lines: Vec<Line> = Vec::new();
    let mut pos: usize = 0;
    let mut in_fence = false;
    let mut after_title = false;
    let mut e = line_end_exec(s.as_slice(), 0);
    assert(lines_view(lines@) =~= Seq::<LineModel>::empty());
    loop
        invariant_except_break
            pos <= e <= s.len(),
            e == line_end(s@, pos as int),
            select_from(s@, 0, false, false, *theme, a as int, b as int) == lines_view(lines@) + select_from(
                s@,
                pos as int,
                in_fence,
                after_title,
                *theme,
                a as int,
                b as int,
            ),
        invariant
            s@ == source@,
        ensures
            select_from(s@, 0, false, false, *theme, a as int, b as int) == lines_view(lines@),
        decreases s.len() - pos,
    {
        let l = slice_to_vec(s.as_slice(), pos, e);
        let has_next = e < s.len();
        let next_end = if has_next {
            line_end_exec(s.as_slice(), e + 1)
        } else {
            e
        };
        let nl = if has_next {
            slice_to_vec(s.as_slice(), e + 1, next_end)
        } else {
            Vec::new()
        };
        let next: Option<&[char]> = if has_next {
            Some(nl.as_slice())
        } else {
            None
        };
        let (line, fence, title) = highlight_line_exec(l.as_slice(), next, in_fence, after_title, theme);
        proof {
            lemma_highlight_line_text(
                l@,
                match next {
                    Some(n) => Some(n@),
                    None => None,
                },
                in_fence,
                after_title,
                *theme,
            );
        }
        let selected = select_line_exec(&line, pos, a, b);
        let ghost before = lines_view(lines@);
        lines.push(selected);
        assert(lines_view(lines@) =~= before.push(selected@));
        if !has_next {
            assert(select_from(s@, pos as int, in_fence, after_title, *theme, a as int, b as int) =~= seq![
                selected@,
            ]);
            assert(lines_view(lines@) =~= before + seq![selected@]);
            break;
        }
        assert(before + select_from(s@, pos as int, in_fence, after_title, *theme, a as int, b as int)
            =~= lines_view(lines@) + select_from(s@, e + 1, fence, title, *theme, a as int, b as int));
        pos = e + 1;
        e = next_end;
        in_fence = fence;
        after_title = title;
    }
    Text { lines }
}


// ---------------------------------------------------------------------------
// Colors that carry numbers: link indices and source offsets.

/// The color that stands for the number `n < 2^24`: its three bytes as
/// red, green and blue.
pub open spec fn number_color(n: int) -> Color {
    Color::Rgb(((n / 0x10000) % 0x100) as u8, ((n / 0x100) % 0x100) as u8, (n % 0x100) as u8)
}

/// The number an RGB color stands for, less one; `None` for black and for
/// colors that are not RGB.
pub open spec fn color_number(c: Color) -> Option<int> {
    match c {
        Color::Rgb(r, g, b) => if r as int * 0x10000 + g as int * 0x100 + b as int > 0 {
            Some(r as int * 0x10000 + g as int * 0x100 + b as int - 1)
        } else {
            None
        },
        _ => None,
    }
}

fn color_number_exec(c: Color) -> (r: Option<usize>)
    ensures
        opt_usize(r) == color_number(c),
{
    match c {
        Color::Rgb(r, g, b) => {
            let encoded = (r as usize) * 0x10000 + (g as usize) * 0x100 + (b as usize);
            if encoded > 0 {
                Some(encoded - 1)
            } else {
                None
            }
        },
        _ => None,
    }
}

/// The color that marks the link with index `index`.
pub open spec fn spec_link_id_color(index: int) -> Color {
    number_color(index + 1)
}

/// The color that marks the link with index `index`; the color keeps the
/// low 24 bits of `index + 1`.
pub fn link_id_color(index: usize) -> (r: Color)
    requires
        index < usize::MAX,
    ensures
        r == spec_link_id_color(index as int),
{
    let id = index + 1;
    Color::Rgb(((id / 0x10000) % 0x100) as u8, ((id / 0x100) % 0x100) as u8, (id % 0x100) as u8)
}

/// The index of the link a color marks.
pub fn color_link_id(color: Color) -> (r: Option<usize>)
    ensures
        opt_usize(r) == color_number(color),
{
    color_number_exec(color)
}

/// The color that carries the source offset `offset`, when `offset + 1`
/// fits in 24 bits.
pub open spec fn spec_encode_source_offset(offset: int) -> Option<Color> {
    if offset + 1 <= 0xffffff {
        Some(number_color(offset + 1))
    } else {
        None
    }
}

/// The color that carries a source offset (see
/// [`spec_encode_source_offset`]).
pub fn encode_source_offset(offset: usize) -> (r: Option<Color>)
    ensures
        r == spec_encode_source_offset(offset as int),
{
    if offset >= 0xffffff {
        return None;
    }
    let encoded = offset + 1;
    Some(Color::Rgb(((encoded / 0x10000) % 0x100) as u8, ((encoded / 0x100) % 0x100) as u8, (encoded % 0x100) as u8))
}

/// The source offset a color carries.
pub fn decode_source_offset(color: Color) -> (r: Option<usize>)
    ensures
        opt_usize(r) == color_number(color),
{
    color_number_exec(color)
}

proof fn lemma_number_color(n: int)
    requires
        0 < n <= 0xffffff,
    ensures
        color_number(number_color(n)) == Some(n - 1),
{
    let r = (n / 0x10000) % 0x100;
    let g = (n / 0x100) % 0x100;
    let b = n % 0x100;
    assert(r * 0x10000 + g * 0x100 + b == n) by (nonlinear_arith)
        requires
            0 < n <= 0xffffff,
            r == (n / 0x10000) % 0x100,
            g == (n / 0x100) % 0x100,
            b == n % 0x100,
    ;
    assert(0 <= r < 0x100 && 0 <= g < 0x100 && 0 <= b < 0x100);
}

/// Decoding the color that carries a source offset gives the offset back.
pub proof fn lemma_source_offset_round_trip(offset: int)
    requires
        0 <= offset,
        offset + 1 <= 0xffffff,
    ensures
        spec_encode_source_offset(offset) matches Some(c) && color_number(c) == Some(offset),
{
    lemma_number_color(offset + 1);
}

/// The color of a link index names that index again, for the first
/// `2^24 - 1` links.
pub proof fn lemma_link_id_round_trip(index: int)
    requires
        0 <= index,
        index + 1 <= 0xffffff,
    ensures
        color_number(spec_link_id_color(index)) == Some(index),
{
    lemma_number_color(index + 1);
}


// ---------------------------------------------------------------------------
// Metadata texts: the source again, with colors that carry link indices or
// source offsets.

/// A link's byte range as character positions, for a link that ends in
/// `s`.
pub open spec fn link_chars(s: Seq<char>, l: crate::markdown::LinkModel) -> Option<(int, int)> {
    if l.end <= byte_len(s) {
        Some((byte_to_char(s, l.start), byte_to_char(s, l.end)))
    } else {
        None
    }
}

/// The links that end in `s` are well formed: they do not end before they
/// start, and both ends fall between characters.
pub open spec fn links_fit(s: Seq<char>, links: Seq<crate::markdown::LinkModel>) -> bool {
    forall|k: int|
        0 <= k < links.len() && #[trigger] links[k].end <= byte_len(s) ==> links[k].start <= links[k].end
            && selection_end_ok(s, links[k].start) && selection_end_ok(s, links[k].end)
}

/// The spans of the line `s[pos..e]` for the links from the `k`-th on, the
/// text before position `p` already emitted: each link that lies in the
/// line in the color of its index, the text between links unstyled.
pub open spec fn link_spans(
    s: Seq<char>,
    pos: int,
    e: int,
    links: Seq<crate::markdown::LinkModel>,
    k: int,
    p: int,
) -> Seq<SpanModel>
    decreases links.len() - k,
{
    if k < 0 || k >= links.len() {
        if p < e {
            seq![SpanModel { content: s.subrange(p, e), style: plain_style() }]
        } else {
            seq![]
        }
    } else {
        match link_chars(s, links[k]) {
            Some((a, b)) => if pos <= a && b <= e {
                (if p < a {
                    seq![SpanModel { content: s.subrange(p, a), style: plain_style() }]
                } else {
                    seq![]
                }) + seq![
                    SpanModel {
                        content: s.subrange(a, b),
                        style: Style { fg: Some(spec_link_id_color(k)), bg: None, add_modifier: no_modifiers() },
                    },
                ] + link_spans(s, pos, e, links, k + 1, b)
            } else {
                link_spans(s, pos, e, links, k + 1, p)
            },
            None => link_spans(s, pos, e, links, k + 1, p),
        }
    }
}

/// The link metadata lines from the line starting at `pos` on.
pub open spec fn link_metadata_from(s: Seq<char>, pos: int, links: Seq<crate::markdown::LinkModel>) -> Seq<
    LineModel,
>
    decreases s.len() - pos,
{
    if pos < 0 || pos > s.len() {
        seq![]
    } else {
        let e = line_end(s, pos);
        proof {
            lemma_find_from(s, pos, seq!['\n']);
        }
        seq![LineModel { spans: link_spans(s, pos, e, links, 0, pos), style: plain_style() }] + if e < s.len() {
            link_metadata_from(s, e + 1, links)
        } else {
            seq![]
        }
    }
}

fn link_spans_exec(
    s: &[char],
    pos: usize,
    e: usize,
    links: &Vec<crate::markdown::NoteLink>,
    chars: &Vec<Option<(usize, usize)>>,
) -> (r: Vec<Span>)
    requires
        pos <= e <= s.len(),
        chars.len() == links.len(),
        forall|k: int|
            0 <= k < links.len() ==> match #[trigger] link_chars(s@, links@[k]@) {
                Some((a, b)) => chars@[k] matches Some((x, y)) && x == a && y == b,
                None => chars@[k] is None,
            },
        forall|k: int| 0 <= k < links.len() ==> (#[trigger] chars@[k] matches Some((x, y)) ==> x <= y <= s.len()),
    ensures
        spans_view(r@) == link_spans(s@, pos as int, e as int, crate::markdown::links_view(links@), 0, pos as int),
{
    let ghost lv = crate::markdown::links_view(links@);
    let mut out: Vec<Span> = Vec::new();
    let mut p = pos;
    let mut k: usize = 0;
    assert(spans_view(out@) =~= Seq::<SpanModel>::empty());
    while k < links.len()
        invariant
            pos <= p <= e <= s.len(),
            k <= links.len(),
            lv == crate::markdown::links_view(links@),
            lv.len() == links.len(),
            chars.len() == links.len(),
            forall|m: int|
                0 <= m < links.len() ==> match #[trigger] link_chars(s@, links@[m]@) {
                    Some((a, b)) => chars@[m] matches Some((x, y)) && x == a && y == b,
                    None => chars@[m] is None,
                },
            forall|m: int| 0 <= m < links.len() ==> (#[trigger] chars@[m] matches Some((x, y)) ==> x <= y <= s.len()),
            link_spans(s@, pos as int, e as int, lv, 0, pos as int) == spans_view(out@) + link_spans(
                s@,
                pos as int,
                e as int,
                lv,
                k as int,
                p as int,
            ),
        decreases links.len() - k,
    {
        assert(lv[k as int] == links@[k as int]@);
        let ghost lc = link_chars(s@, links@[k as int]@);
        let ghost before = spans_view(out@);
        match chars[k] {
            Some((a, b)) => {
                if pos <= a && b <= e {
                    if p < a {
                        out.push(Span { content: string_of(s, p, a), style: Style::plain() });
                    }
                    out.push(
                        Span {
                            content: string_of(s, a, b),
                            style: Style { fg: Some(link_id_color(k)), bg: None, add_modifier: Modifiers { bold: false, italic: false, underlined: false, reversed: false } },
                        },
                    );
                    assert(spans_view(out@) + link_spans(s@, pos as int, e as int, lv, k + 1, b as int) =~= before
                        + link_spans(s@, pos as int, e as int, lv, k as int, p as int));
                    p = b;
                }
            },
            None => {},
        }
        k = k + 1;
    }
    if p < e {
        out.push(Span { content: string_of(s, p, e), style: Style::plain() });
    }
    assert(spans_view(out@) =~= link_spans(s@, pos as int, e as int, lv, 0, pos as int));
    out
}

/// The source with every link that lies in one line colored by its index
/// (see [`link_metadata_from`]); the text between links is unstyled.
pub fn link_metadata(source: &str, links: &Vec<crate::markdown::NoteLink>) -> (r: Text)
    requires
        links_fit(source@, crate::markdown::links_view(links@)),
    ensures
        r@ == link_metadata_from(source@, 0, crate::markdown::links_view(links@)),
{
    let s = chars_of(source);
    let total = source.as_bytes().len();
    let table = crate::markdown::byte_offsets(s.as_slice(), total);
    let ghost lv = crate::markdown::links_view(links@);
    let mut chars: Vec<Option<(usize, usize)>> = Vec::new();
    let mut k: usize = 0;
    while k < links.len()
        invariant
            s@ == source@,
            byte_len(s@) == total,
            table.len() == s.len() + 1,
            forall|i: int| 0 <= i <= s.len() ==> #[trigger] table@[i] == byte_len(s@.take(i)),
            k <= links.len(),
            lv == crate::markdown::links_view(links@),
            links_fit(s@, lv),
            chars.len() == k,
            forall|m: int|
                0 <= m < k ==> match #[trigger] link_chars(s@, links@[m]@) {
                    Some((a, b)) => chars@[m] matches Some((x, y)) && x == a && y == b,
                    None => chars@[m] is None,
                },
            forall|m: int| 0 <= m < k ==> (#[trigger] chars@[m] matches Some((x, y)) ==> x <= y <= s.len()),
        decreases links.len() - k,
    {
        let l = &links[k];
        assert(lv[k as int] == l@);
        if l.range.end <= total {
            assert(lv[k as int].end <= byte_len(s@));
            assert(lv[k as int].start == l.range.start && lv[k as int].end == l.range.end);
            let a = char_at_byte(s.as_slice(), &table, l.range.start);
            let b = char_at_byte(s.as_slice(), &table, l.range.end);
            proof {
                lemma_byte_to_char_monotone(s@, l.range.start as int, l.range.end as int);
                lemma_byte_to_char_monotone(s@, l.range.end as int, l.range.end as int);
            }
            chars.push(Some((a, b)));
        } else {
            chars.push(None);
        }
        k = k + 1;
    }
    let mut lines: Vec<Line> = Vec::new();
    let mut pos: usize = 0;
    let mut e = line_end_exec(s.as_slice(), 0);
    assert(lines_view(lines@) =~= Seq::<LineModel>::empty());
    loop
        invariant_except_break
            pos <= e <= s.len(),
            e == line_end(s@, pos as int),
            link_metadata_from(s@, 0, lv) == lines_view(lines@) + link_metadata_from(s@, pos as int, lv),
        invariant
            s@ == source@,
            lv == crate::markdown::links_view(links@),
            chars.len() == links.len(),
            forall|m: int|
                0 <= m < links.len() ==> match #[trigger] link_chars(s@, links@[m]@) {
                    Some((a, b)) => chars@[m] matches Some((x, y)) && x == a && y == b,
                    None => chars@[m] is None,
                },
            forall|m: int| 0 <= m < links.len() ==> (#[trigger] chars@[m] matches Some((x, y)) ==> x <= y <= s.len()),
        ensures
            link_metadata_from(s@, 0, lv) == lines_view(lines@),
        decreases s.len() - pos,
    {
        let spans = link_spans_exec(s.as_slice(), pos, e, links, &chars);
        let line = Line { spans, style: Style::plain() };
        let ghost before = lines_view(lines@);
        lines.push(line);
        assert(lines_view(lines@) =~= before.push(line@));
        if e >= s.len() {
            assert(link_metadata_from(s@, pos as int, lv) =~= seq![line@]);
            assert(lines_view(lines@) =~= before + seq![line@]);
            break;
        }
        let next_end = line_end_exec(s.as_slice(), e + 1);
        assert(before + link_metadata_from(s@, pos as int, lv) =~= lines_view(lines@) + link_metadata_from(
            s@,
            e + 1,
            lv,
        ));
        pos = e + 1;
        e = next_end;
    }
    Text { lines }
}

proof fn lemma_byte_to_char_monotone(s: Seq<char>, x: int, y: int)
    requires
        x <= y,
        selection_end_ok(s, x),
        selection_end_ok(s, y),
    ensures
        byte_to_char(s, x) <= byte_to_char(s, y),
        0 <= byte_to_char(s, x) <= s.len(),
{
    let a = byte_to_char(s, x);
    let b = byte_to_char(s, y);
    if x < byte_len(s) {
        assert(byte_len(s.take(a)) == x && 0 <= a <= s.len());
    }
    if y < byte_len(s) {
        assert(byte_len(s.take(b)) == y && 0 <= b <= s.len());
        if a > b {
            lemma_byte_len_increasing(s, b, a);
        }
    }
}


/// The number of characters of each extended grapheme cluster of `s`, in
/// order, as `unicode-segmentation` splits it.
pub uninterp spec fn grapheme_lengths(s: Seq<char>) -> Seq<int>;

/// The sum of `v[k..]`.
pub open spec fn sum_from(v: Seq<usize>, k: int) -> int
    decreases v.len() - k,
{
    if k < 0 || k >= v.len() {
        0
    } else {
        v[k] + sum_from(v, k + 1)
    }
}

/// `UnicodeSegmentation::grapheme_indices(s, true)`: the number of
/// characters of each extended grapheme cluster of `s`.  The clusters are
/// non-empty and, one after the other, make up `s`.
#[verifier::external_body]
fn grapheme_char_lengths(s: &str) -> (r: Vec<usize>)
    ensures
        r@.len() == grapheme_lengths(s@).len(),
        forall|k: int| 0 <= k < r@.len() ==> r@[k] as int == #[trigger] grapheme_lengths(s@)[k],
        forall|k: int| 0 <= k < r@.len() ==> #[trigger] r@[k] >= 1,
        sum_from(r@, 0) == s@.len(),
{
    let mut r: Vec<usize> = Vec::new();
    for (_, g) in s.grapheme_indices(true) {
        r.push(g.chars().count());
    }
    r
}

/// The spans of the graphemes of the line starting at `pos`, from the
/// `k`-th on, that one starting `c` characters into the line: each shows
/// its grapheme with the byte offsets of its start and end carried by its
/// foreground and background colors; a grapheme whose offsets do not fit
/// in the colors is left out.
pub open spec fn grapheme_spans(s: Seq<char>, pos: int, gl: Seq<int>, k: int, c: int) -> Seq<SpanModel>
    decreases gl.len() - k,
{
    if k < 0 || k >= gl.len() {
        seq![]
    } else {
        let a = pos + c;
        let b = a + gl[k];
        let here = match (
            spec_encode_source_offset(byte_len(s.take(a)) as int),
            spec_encode_source_offset(byte_len(s.take(b)) as int),
        ) {
            (Some(f), Some(g)) => seq![
                SpanModel { content: s.subrange(a, b), style: Style { fg: Some(f), bg: Some(g), add_modifier: no_modifiers() } },
            ],
            _ => seq![],
        };
        here + grapheme_spans(s, pos, gl, k + 1, c + gl[k])
    }
}

/// The selection metadata lines from the line starting at `pos` on.
pub open spec fn selection_metadata_from(s: Seq<char>, pos: int) -> Seq<LineModel>
    decreases s.len() - pos,
{
    if pos < 0 || pos > s.len() {
        seq![]
    } else {
        let e = line_end(s, pos);
        proof {
            lemma_find_from(s, pos, seq!['\n']);
        }
        seq![
            LineModel {
                spans: grapheme_spans(s, pos, grapheme_lengths(s.subrange(pos, e)), 0, 0),
                style: plain_style(),
            },
        ] + if e < s.len() {
            selection_metadata_from(s, e + 1)
        } else {
            seq![]
        }
    }
}

fn grapheme_spans_exec(s: &[char], table: &Vec<usize>, pos: usize, e: usize) -> (r: Vec<Span>)
    requires
        pos <= e <= s.len(),
        table.len() == s.len() + 1,
        forall|i: int| 0 <= i <= s.len() ==> #[trigger] table@[i] == byte_len(s@.take(i)),
    ensures
        spans_view(r@) == grapheme_spans(s@, pos as int, grapheme_lengths(s@.subrange(pos as int, e as int)), 0, 0),
{
    let line = string_of(s, pos, e);
    let gl = grapheme_char_lengths(line.as_str());
    let ghost gv = grapheme_lengths(line@);
    let mut out: Vec<Span> = Vec::new();
    let mut c: usize = 0;
    let mut k: usize = 0;
    assert(spans_view(out@) =~= Seq::<SpanModel>::empty());
    while k < gl.len()
        invariant
            pos <= e <= s.len(),
            table.len() == s.len() + 1,
            forall|i: int| 0 <= i <= s.len() ==> #[trigger] table@[i] == byte_len(s@.take(i)),
            line@ == s@.subrange(pos as int, e as int),
            gv == grapheme_lengths(line@),
            gl@.len() == gv.len(),
            forall|m: int| 0 <= m < gl@.len() ==> gl@[m] as int == #[trigger] gv[m],
            forall|m: int| 0 <= m < gl@.len() ==> #[trigger] gl@[m] >= 1,
            k <= gl.len(),
            c + sum_from(gl@, k as int) == e - pos,
            grapheme_spans(s@, pos as int, gv, 0, 0) == spans_view(out@) + grapheme_spans(
                s@,
                pos as int,
                gv,
                k as int,
                c as int,
            ),
        decreases gl.len() - k,
    {
        proof {
            lemma_sum_from_nonneg(gl@, k + 1);
        }
        let a = pos + c;
        let b = a + gl[k];
        let ghost before = spans_view(out@);
        match (encode_source_offset(table[a]), encode_source_offset(table[b])) {
            (Some(f), Some(g)) => {
                out.push(
                    Span {
                        content: string_of(s, a, b),
                        style: Style { fg: Some(f), bg: Some(g), add_modifier: Modifiers { bold: false, italic: false, underlined: false, reversed: false } },
                    },
                );
            },
            _ => {},
        }
        assert(spans_view(out@) + grapheme_spans(s@, pos as int, gv, k + 1, (c + gl[k as int]) as int) =~= before
            + grapheme_spans(s@, pos as int, gv, k as int, c as int));
        c = c + gl[k];
        k = k + 1;
    }
    assert(spans_view(out@) + grapheme_spans(s@, pos as int, gv, k as int, c as int) =~= spans_view(out@));
    out
}

proof fn lemma_sum_from_nonneg(v: Seq<usize>, k: int)
    requires
        0 <= k,
    ensures
        sum_from(v, k) >= 0,
    decreases v.len() - k,
{
    if k < v.len() {
        lemma_sum_from_nonneg(v, k + 1);
    }
}

/// The source with each grapheme carrying its byte range in its colors
/// (see [`selection_metadata_from`]).
pub fn selection_metadata(source: &str) -> (r: Text)
    ensures
        r@ == selection_metadata_from(source@, 0),
{
    let s = chars_of(source);
    let total = source.as_bytes().len();
    let table = crate::markdown::byte_offsets(s.as_slice(), total);
    let mut lines: Vec<Line> = Vec::new();
    let mut pos: usize = 0;
    let mut e = line_end_exec(s.as_slice(), 0);
    assert(lines_view(lines@) =~= Seq::<LineModel>::empty());
    loop
        invariant_except_break
            pos <= e <= s.len(),
            e == line_end(s@, pos as int),
            selection_metadata_from(s@, 0) == lines_view(lines@) + selection_metadata_from(s@, pos as int),
        invariant
            s@ == source@,
            table.len() == s.len() + 1,
            forall|i: int| 0 <= i <= s.len() ==> #[trigger] table@[i] == byte_len(s@.take(i)),
        ensures
            selection_metadata_from(s@, 0) == lines_view(lines@),
        decreases s.len() - pos,
    {
        let spans = grapheme_spans_exec(s.as_slice(), &table, pos, e);
        let line = Line { spans, style: Style::plain() };
        let ghost before = lines_view(lines@);
        lines.push(line);
        assert(lines_view(lines@) =~= before.push(line@));
        if e >= s.len() {
            assert(selection_metadata_from(s@, pos as int) =~= seq![line@]);
            assert(lines_view(lines@) =~= before + seq![line@]);
            break;
        }
        let next_end = line_end_exec(s.as_slice(), e + 1);
        assert(before + selection_metadata_from(s@, pos as int) =~= lines_view(lines@) + selection_metadata_from(
            s@,
            e + 1,
        ));
        pos = e + 1;
        e = next_end;
    }
    Text { lines }
}

} // verus!
