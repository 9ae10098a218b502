//! Search queries and note order.

use vstd::prelude::*;

use crate::config::NoteSort;
use crate::notes::model::{note_name, note_name_exec, notes_view, spec_matches_search, Note, NoteModel};
use crate::text::strings_view;
use crate::path::{comps_view, components, components_exec, is_absolute};
use crate::text::{chars_eq, chars_of, is_white_space, is_whitespace, lowercase_str, push_char, str_lowercase};

verus! {

// ---------------------------------------------------------------------------
// Search terms.
// ---------------------------------------------------------------------------

/// The state of splitting a query into terms.
pub struct TermState {
    pub terms: Seq<Seq<char>>,
    pub term: Seq<char>,
    pub quoted: bool,
}

/// One query character: `"` toggles quoting; whitespace outside quotes
/// ends the current term (kept in lower case when not empty); anything else
/// extends it.
pub open spec fn term_step(st: TermState, c: char) -> TermState {
    if c == '"' {
        TermState { quoted: !st.quoted, ..st }
    } else if is_white_space(c) && !st.quoted {
        if st.term.len() > 0 {
            TermState { terms: st.terms.push(str_lowercase(st.term)), term: seq![], quoted: st.quoted }
        } else {
            st
        }
    } else {
        TermState { term: st.term.push(c), ..st }
    }
}

pub open spec fn term_fold(q: Seq<char>) -> TermState
    decreases q.len(),
{
    if q.len() == 0 {
        TermState { terms: seq![], term: seq![], quoted: false }
    } else {
        term_step(term_fold(q.drop_last()), q.last())
    }
}

/// The lower case terms of a search query; quoted phrases stay together.
pub open spec fn spec_search_terms(q: Seq<char>) -> Seq<Seq<char>> {
    let st = term_fold(q);
    if st.term.len() > 0 {
        st.terms.push(str_lowercase(st.term))
    } else {
        st.terms
    }
}

/// Splits a search query into lower case terms at whitespace; text in
/// double quotes forms one term.
pub fn search_terms(query: &str) -> (r: Vec<String>)
    ensures
        strings_view(r@) == spec_search_terms(query@),
{
    let q = chars_of(query);
    let mut terms: Vec<String> = Vec::new();
    let mut term = String::new();
    let mut quoted = false;
    let mut i: usize = 0;
    assert(q@.take(0) =~= Seq::<char>::empty());
    assert(strings_view(terms@) =~= Seq::<Seq<char>>::empty());
    assert(term_fold(q@.take(0)) == (TermState { terms: strings_view(terms@), term: term@, quoted }));
    while i < q.len()
        invariant
            i <= q.len(),
            term_fold(q@.take(i as int)) == (TermState { terms: strings_view(terms@), term: term@, quoted }),
        decreases q.len() - i,
    {
        let c = q[i];
        assert(q@.take(i + 1).drop_last() =~= q@.take(i as int));
        if c == '"' {
            quoted = !quoted;
        } else if is_whitespace(c) && !quoted {
            if !term.as_str().is_empty() {
                let lower = lowercase_str(term.as_str());
                let ghost before = strings_view(terms@);
                terms.push(lower);
                assert(strings_view(terms@) =~= before.push(lower@));
                term = String::new();
            }
        } else {
            push_char(&mut term, c);
        }
        i = i + 1;
    }
    assert(q@.take(q.len() as int) =~= q@);
    if !term.as_str().is_empty() {
        let lower = lowercase_str(term.as_str());
        let ghost before = strings_view(terms@);
        terms.push(lower);
        assert(strings_view(terms@) =~= before.push(lower@));
    }
    terms
}

// ---------------------------------------------------------------------------
// Note order.
// ---------------------------------------------------------------------------

/// Lexicographic comparison of character sequences by code point:
/// negative, zero or positive.
pub open spec fn seq_order(a: Seq<char>, b: Seq<char>) -> int
    decreases a.len(),
{
    if a.len() == 0 {
        if b.len() == 0 {
            0
        } else {
            -1
        }
    } else if b.len() == 0 {
        1
    } else if (a[0] as u32) < (b[0] as u32) {
        -1
    } else if (a[0] as u32) > (b[0] as u32) {
        1
    } else {
        seq_order(a.drop_first(), b.drop_first())
    }
}

/// The kind of a path component, in the order that paths compare them:
/// the root (kept as an empty component), a leading `.`, `..`, a name.
pub open spec fn comp_rank(c: Seq<char>) -> int {
    if c.len() == 0 {
        0
    } else if c == seq!['.'] {
        1
    } else if c == seq!['.', '.'] {
        2
    } else {
        3
    }
}

/// Comparison of two components: by kind, then names by their characters.
pub open spec fn comp_order(a: Seq<char>, b: Seq<char>) -> int {
    if comp_rank(a) < comp_rank(b) {
        -1
    } else if comp_rank(a) > comp_rank(b) {
        1
    } else {
        seq_order(a, b)
    }
}

/// Lexicographic comparison of component lists.
pub open spec fn comps_order(a: Seq<Seq<char>>, b: Seq<Seq<char>>) -> int
    decreases a.len(),
{
    if a.len() == 0 {
        if b.len() == 0 {
            0
        } else {
            -1
        }
    } else if b.len() == 0 {
        1
    } else if comp_order(a[0], b[0]) != 0 {
        comp_order(a[0], b[0])
    } else {
        comps_order(a.drop_first(), b.drop_first())
    }
}

/// The components that paths are ordered by: the root (as an empty
/// component, which orders first) of an absolute path, then its components.
pub open spec fn path_key(p: Seq<char>) -> Seq<Seq<char>> {
    (if is_absolute(p) {
        seq![Seq::<char>::empty()]
    } else {
        Seq::<Seq<char>>::empty()
    }) + components(p)
}

/// Path order: component by component.
pub open spec fn path_order(a: Seq<char>, b: Seq<char>) -> int {
    comps_order(path_key(a), path_key(b))
}

/// `x` comes strictly before `y` in the note list.  By modification time:
/// newer first, then by path.  Alphabetically: by lower case name, then by
/// path, reversed when descending.
pub open spec fn note_before(x: NoteModel, y: NoteModel, sort: NoteSort) -> bool {
    match sort {
        NoteSort::LastModified => x.modified > y.modified || (x.modified == y.modified && path_order(x.path, y.path) < 0),
        NoteSort::Alphabetical { descending } => {
            let c = seq_order(str_lowercase(note_name(x.path)), str_lowercase(note_name(y.path)));
            if descending {
                c > 0 || (c == 0 && path_order(x.path, y.path) > 0)
            } else {
                c < 0 || (c == 0 && path_order(x.path, y.path) < 0)
            }
        },
    }
}

/// Inserts `x` into `sorted` after every element it does not come before.
pub open spec fn insert_note(sorted: Seq<NoteModel>, x: NoteModel, sort: NoteSort) -> Seq<NoteModel>
    decreases sorted.len(),
{
    if sorted.len() == 0 {
        seq![x]
    } else if !note_before(x, sorted.last(), sort) {
        sorted.push(x)
    } else {
        insert_note(sorted.drop_last(), x, sort).push(sorted.last())
    }
}

/// The notes in list order; notes that compare equal keep their order.
pub open spec fn spec_sort_notes(s: Seq<NoteModel>, sort: NoteSort) -> Seq<NoteModel>
    decreases s.len(),
{
    if s.len() == 0 {
        s
    } else {
        insert_note(spec_sort_notes(s.drop_last(), sort), s.last(), sort)
    }
}

fn compare_chars(a: &[char], b: &[char]) -> (r: i8)
    ensures
        r as int == seq_order(a@, b@),
{
    let mut i: usize = 0;
    assert(a@.skip(0) =~= a@);
    assert(b@.skip(0) =~= b@);
    while i < a.len() && i < b.len()
        invariant
            i <= a.len(),
            i <= b.len(),
            seq_order(a@, b@) == seq_order(a@.skip(i as int), b@.skip(i as int)),
        decreases a.len() - i,
    {
        assert(a@.skip(i as int).drop_first() =~= a@.skip(i + 1));
        assert(b@.skip(i as int).drop_first() =~= b@.skip(i + 1));
        if (a[i] as u32) < (b[i] as u32) {
            return -1;
        }
        if (a[i] as u32) > (b[i] as u32) {
            return 1;
        }
        i = i + 1;
    }
    if a.len() == i {
        if b.len() == i {
            0
        } else {
            -1
        }
    } else {
        1
    }
}

fn component_rank(c: &[char]) -> (r: i8)
    ensures
        r as int == comp_rank(c@),
{
    assert(['.']@ =~= seq!['.']);
    assert(['.', '.']@ =~= seq!['.', '.']);
    if c.len() == 0 {
        0
    } else if chars_eq(c, &['.']) {
        1
    } else if chars_eq(c, &['.', '.']) {
        2
    } else {
        3
    }
}

fn compare_component(a: &[char], b: &[char]) -> (r: i8)
    ensures
        r as int == comp_order(a@, b@),
{
    let ra = component_rank(a);
    let rb = component_rank(b);
    if ra < rb {
        -1
    } else if ra > rb {
        1
    } else {
        compare_chars(a, b)
    }
}

fn compare_comps(a: &Vec<Vec<char>>, b: &Vec<Vec<char>>) -> (r: i8)
    ensures
        r as int == comps_order(comps_view(a@), comps_view(b@)),
{
    let ghost av = comps_view(a@);
    let ghost bv = comps_view(b@);
    let mut i: usize = 0;
    assert(av.skip(0) =~= av);
    assert(bv.skip(0) =~= bv);
    while i < a.len() && i < b.len()
        invariant
            av == comps_view(a@),
            bv == comps_view(b@),
            i <= a.len(),
            i <= b.len(),
            comps_order(av, bv) == comps_order(av.skip(i as int), bv.skip(i as int)),
        decreases a.len() - i,
    {
        assert(av.skip(i as int).drop_first() =~= av.skip(i + 1));
        assert(bv.skip(i as int).drop_first() =~= bv.skip(i + 1));
        assert(av.skip(i as int)[0] == a@[i as int]@);
        assert(bv.skip(i as int)[0] == b@[i as int]@);
        let c = compare_component(a[i].as_slice(), b[i].as_slice());
        if c != 0 {
            return c;
        }
        i = i + 1;
    }
    if a.len() == i {
        if b.len() == i {
            0
        } else {
            -1
        }
    } else {
        1
    }
}

fn path_key_exec(p: &[char]) -> (r: Vec<Vec<char>>)
    ensures
        comps_view(r@) == path_key(p@),
{
    let c = components_exec(p);
    if p.len() > 0 && p[0] == '/' {
        let mut r: Vec<Vec<char>> = Vec::new();
        r.push(Vec::new());
        let mut rest = c;
        let ghost cv = comps_view(rest@);
        let ghost mut k: int = 0;
        while rest.len() > 0
            invariant
                0 <= k <= cv.len(),
                comps_view(rest@) == cv.skip(k),
                comps_view(r@) == seq![Seq::<char>::empty()] + cv.take(k),
            decreases rest.len(),
        {
            let ghost rv = rest@;
            assert(comps_view(rv).len() == rv.len());
            assert(comps_view(rv)[0] == rv[0]@);
            assert(cv.skip(k)[0] == cv[k]);
            let x = rest.remove(0);
            assert(x == rv[0]);
            assert(x@ == cv[k]);
            assert(rv.remove(0) =~= rv.subrange(1, rv.len() as int));
            assert forall|i: int| 0 <= i < rest@.len() implies #[trigger] comps_view(rest@)[i] == cv.skip(k + 1)[i] by {
                assert(comps_view(rest@)[i] == rest@[i]@);
                assert(rest@[i] == rv[i + 1]);
                assert(comps_view(rv)[i + 1] == rv[i + 1]@);
                assert(cv.skip(k)[i + 1] == cv[k + 1 + i]);
            }
            assert(comps_view(rest@) =~= cv.skip(k + 1));
            let ghost before = comps_view(r@);
            let ghost xv = x@;
            r.push(x);
            assert(comps_view(r@) =~= before.push(xv));
            assert(cv.take(k + 1) =~= cv.take(k).push(cv[k]));
            assert(comps_view(r@) =~= seq![Seq::<char>::empty()] + cv.take(k + 1));
            proof {
                k = k + 1;
            }
        }
        assert(cv.take(k) =~= cv);
        r
    } else {
        assert(comps_view(c@) =~= path_key(p@));
        c
    }
}

pub fn path_order_exec(a: &str, b: &str) -> (r: i8)
    ensures
        r as int == path_order(a@, b@),
{
    let ac = chars_of(a);
    let bc = chars_of(b);
    compare_comps(&path_key_exec(ac.as_slice()), &path_key_exec(bc.as_slice()))
}

fn lower_name(n: &Note) -> (r: Vec<char>)
    ensures
        r@ == str_lowercase(note_name(n.relative_path@)),
{
    let name = n.name();
    let lower = lowercase_str(name.as_str());
    chars_of(lower.as_str())
}

fn note_before_exec(x: &Note, y: &Note, sort: NoteSort) -> (r: bool)
    ensures
        r == note_before(x@, y@, sort),
{
    match sort {
        NoteSort::LastModified => x.modified > y.modified || (x.modified == y.modified && path_order_exec(
            x.relative_path.as_str(),
            y.relative_path.as_str(),
        ) < 0),
        NoteSort::Alphabetical { descending } => {
            let c = compare_chars(lower_name(x).as_slice(), lower_name(y).as_slice());
            if descending {
                c > 0 || (c == 0 && path_order_exec(x.relative_path.as_str(), y.relative_path.as_str()) > 0)
            } else {
                c < 0 || (c == 0 && path_order_exec(x.relative_path.as_str(), y.relative_path.as_str()) < 0)
            }
        },
    }
}

proof fn lemma_insert_note_at(sorted: Seq<NoteModel>, x: NoteModel, sort: NoteSort, j: int)
    requires
        0 <= j <= sorted.len(),
        forall|k: int| j <= k < sorted.len() ==> note_before(x, #[trigger] sorted[k], sort),
        j > 0 ==> !note_before(x, sorted[j - 1], sort),
    ensures
        insert_note(sorted, x, sort) == sorted.take(j).push(x) + sorted.skip(j),
    decreases sorted.len(),
{
    if sorted.len() == 0 {
        assert(sorted.take(j).push(x) + sorted.skip(j) =~= seq![x]);
    } else if !note_before(x, sorted.last(), sort) {
        assert(j == sorted.len());
        assert(sorted.take(j).push(x) + sorted.skip(j) =~= sorted.push(x));
    } else {
        let d = sorted.drop_last();
        lemma_insert_note_at(d, x, sort, j);
        assert((d.take(j).push(x) + d.skip(j)).push(sorted.last()) =~= sorted.take(j).push(x) + sorted.skip(j));
    }
}

fn insert_note_exec(v: &mut Vec<Note>, x: Note, sort: NoteSort)
    ensures
        notes_view(final(v)@) == insert_note(notes_view(old(v)@), x@, sort),
{
    let ghost ov = notes_view(v@);
    let mut j = v.len();
    while j > 0 && note_before_exec(&x, &v[j - 1], sort)
        invariant
            j <= v.len(),
            ov == notes_view(v@),
            forall|k: int| j <= k < v.len() ==> note_before(x@, #[trigger] ov[k], sort),
        decreases j,
    {
        j = j - 1;
    }
    proof {
        lemma_insert_note_at(ov, x@, sort, j as int);
    }
    v.insert(j, x);
    assert(notes_view(v@) =~= ov.take(j as int).push(x@) + ov.skip(j as int));
}

/// Orders notes for the note list (a stable sort): by modification time,
/// newest first, or alphabetically by lower case name; ties are broken by
/// path.
pub fn sort_notes(notes: &mut Vec<Note>, sort: NoteSort)
    ensures
        notes_view(final(notes)@) == spec_sort_notes(notes_view(old(notes)@), sort),
{
    let ghost orig = notes_view(notes@);
    let mut rest: Vec<Note> = Vec::new();
    std::mem::swap(notes, &mut rest);
    let ghost mut k: int = 0;
    while rest.len() > 0
        invariant
            0 <= k <= orig.len(),
            notes_view(rest@) == orig.skip(k),
            notes_view(notes@) == spec_sort_notes(orig.take(k), sort),
        decreases rest.len(),
    {
        let ghost rv = rest@;
        assert(notes_view(rv).len() == rv.len());
        assert(notes_view(rv)[0] == rv[0]@);
        assert(orig.skip(k)[0] == orig[k]);
        let x = rest.remove(0);
        assert(rv.remove(0) =~= rv.subrange(1, rv.len() as int));
        assert forall|i: int| 0 <= i < rest@.len() implies #[trigger] notes_view(rest@)[i] == orig.skip(k + 1)[i] by {
            assert(notes_view(rest@)[i] == rest@[i]@);
            assert(rest@[i] == rv[i + 1]);
            assert(notes_view(rv)[i + 1] == rv[i + 1]@);
            assert(orig.skip(k)[i + 1] == orig[k + 1 + i]);
        }
        assert(notes_view(rest@) =~= orig.skip(k + 1));
        assert(orig.take(k + 1).drop_last() =~= orig.take(k));
        insert_note_exec(notes, x, sort);
        proof {
            k = k + 1;
        }
    }
    assert(orig.take(k) =~= orig);
}


// ---------------------------------------------------------------------------
// Searching the note list.
// ---------------------------------------------------------------------------

/// The notes that match all `terms`, in order.
pub open spec fn filter_matches(notes: Seq<NoteModel>, terms: Seq<Seq<char>>) -> Seq<NoteModel>
    decreases notes.len(),
{
    if notes.len() == 0 {
        seq![]
    } else {
        filter_matches(notes.drop_last(), terms) + if spec_matches_search(notes.last(), terms) {
            seq![notes.last()]
        } else {
            seq![]
        }
    }
}

/// The notes a search query shows: those matching all of its terms, in
/// order (all notes for a query without terms).
pub open spec fn spec_search_notes(notes: Seq<NoteModel>, query: Seq<char>) -> Seq<NoteModel> {
    filter_matches(notes, spec_search_terms(query))
}

/// A copy of a note.
pub fn copy_note(n: &Note) -> (r: Note)
    ensures
        r@ == n@,
{
    Note {
        relative_path: n.relative_path.clone(),
        size: n.size,
        modified: n.modified,
        search_text_lowercase: n.search_text_lowercase.clone(),
    }
}

/// The notes a search query shows (see [`spec_search_notes`]).
pub fn search_notes(notes: &Vec<Note>, query: &str) -> (r: Vec<Note>)
    ensures
        notes_view(r@) == spec_search_notes(notes_view(notes@), query@),
{
    let terms = search_terms(query);
    let ghost nv = notes_view(notes@);
    let ghost tv = strings_view(terms@);
    let mut out: Vec<Note> = Vec::new();
    let mut k: usize = 0;
    assert(notes_view(out@) =~= Seq::<NoteModel>::empty());
    while k < notes.len()
        invariant
            k <= notes.len(),
            nv == notes_view(notes@),
            tv == strings_view(terms@),
            tv == spec_search_terms(query@),
            notes_view(out@) == filter_matches(nv.take(k as int), tv),
        decreases notes.len() - k,
    {
        assert(nv.take(k + 1).drop_last() =~= nv.take(k as int));
        assert(nv.take(k + 1).last() == notes@[k as int]@);
        let ghost before = notes_view(out@);
        if notes[k].matches_search(&terms) {
            let c = copy_note(&notes[k]);
            out.push(c);
            assert(notes_view(out@) =~= before + seq![notes@[k as int]@]);
        } else {
            assert(notes_view(out@) =~= before + Seq::<NoteModel>::empty());
        }
        k = k + 1;
    }
    assert(nv.take(notes.len() as int) =~= nv);
    out
}


// ---------------------------------------------------------------------------
// Laws of the note order.
// ---------------------------------------------------------------------------

/// Character sequences are totally ordered by [`seq_order`].
pub proof fn lemma_seq_order_antisym(a: Seq<char>, b: Seq<char>)
    ensures
        seq_order(a, b) == -seq_order(b, a),
        -1 <= seq_order(a, b) <= 1,
        (seq_order(a, b) == 0) == (a == b),
    decreases a.len(),
{
    if a.len() > 0 && b.len() > 0 && (a[0] as u32) == (b[0] as u32) {
        lemma_seq_order_antisym(a.drop_first(), b.drop_first());
        vstd::utf8::char_u32_cast(a[0], a[0] as u32);
        vstd::utf8::char_u32_cast(b[0], b[0] as u32);
        assert(a[0] == b[0]);
        if a.drop_first() == b.drop_first() {
            assert(a =~= seq![a[0]] + a.drop_first());
            assert(b =~= seq![b[0]] + b.drop_first());
        }
    } else if a.len() > 0 && b.len() > 0 {
        if a == b {
            assert(a[0] == b[0]);
        }
    } else if a.len() == 0 && b.len() == 0 {
        assert(a =~= b);
    }
}

pub proof fn lemma_seq_order_trans(a: Seq<char>, b: Seq<char>, c: Seq<char>)
    ensures
        seq_order(a, b) <= 0 && seq_order(b, c) <= 0 ==> seq_order(a, c) <= 0,
        (seq_order(a, b) < 0 && seq_order(b, c) <= 0) || (seq_order(a, b) <= 0 && seq_order(b, c) < 0)
            ==> seq_order(a, c) < 0,
    decreases a.len(),
{
    lemma_seq_order_antisym(a, b);
    lemma_seq_order_antisym(b, c);
    lemma_seq_order_antisym(a, c);
    if a.len() > 0 && b.len() > 0 && c.len() > 0 {
        lemma_seq_order_trans(a.drop_first(), b.drop_first(), c.drop_first());
    }
}

proof fn lemma_comp_order(a: Seq<char>, b: Seq<char>, c: Seq<char>)
    ensures
        comp_order(a, b) == -comp_order(b, a),
        -1 <= comp_order(a, b) <= 1,
        (comp_order(a, b) == 0) == (a == b),
        comp_order(a, b) <= 0 && comp_order(b, c) <= 0 ==> comp_order(a, c) <= 0,
        (comp_order(a, b) < 0 && comp_order(b, c) <= 0) || (comp_order(a, b) <= 0 && comp_order(b, c) < 0)
            ==> comp_order(a, c) < 0,
{
    lemma_seq_order_antisym(a, b);
    lemma_seq_order_antisym(b, c);
    lemma_seq_order_antisym(a, c);
    lemma_seq_order_trans(a, b, c);
}

/// Component lists are totally ordered by [`comps_order`].
pub proof fn lemma_comps_order_antisym(a: Seq<Seq<char>>, b: Seq<Seq<char>>)
    ensures
        comps_order(a, b) == -comps_order(b, a),
        -1 <= comps_order(a, b) <= 1,
        (comps_order(a, b) == 0) == (a == b),
    decreases a.len(),
{
    if a.len() > 0 && b.len() > 0 {
        lemma_comp_order(a[0], b[0], b[0]);
        if comp_order(a[0], b[0]) == 0 {
            lemma_comps_order_antisym(a.drop_first(), b.drop_first());
            if a.drop_first() == b.drop_first() {
                assert(a =~= seq![a[0]] + a.drop_first());
                assert(b =~= seq![b[0]] + b.drop_first());
            }
        } else if a == b {
            assert(a[0] == b[0]);
        }
    } else if a.len() == 0 && b.len() == 0 {
        assert(a =~= b);
    }
}

pub proof fn lemma_comps_order_trans(a: Seq<Seq<char>>, b: Seq<Seq<char>>, c: Seq<Seq<char>>)
    ensures
        comps_order(a, b) <= 0 && comps_order(b, c) <= 0 ==> comps_order(a, c) <= 0,
        (comps_order(a, b) < 0 && comps_order(b, c) <= 0) || (comps_order(a, b) <= 0 && comps_order(b, c) < 0)
            ==> comps_order(a, c) < 0,
    decreases a.len(),
{
    lemma_comps_order_antisym(a, b);
    lemma_comps_order_antisym(b, c);
    lemma_comps_order_antisym(a, c);
    if a.len() > 0 && b.len() > 0 && c.len() > 0 {
        lemma_comp_order(a[0], b[0], c[0]);
        lemma_comp_order(b[0], c[0], a[0]);
        lemma_comp_order(a[0], c[0], b[0]);
        lemma_comps_order_trans(a.drop_first(), b.drop_first(), c.drop_first());
    }
}

pub proof fn lemma_path_order(a: Seq<char>, b: Seq<char>, c: Seq<char>)
    ensures
        path_order(a, b) == -path_order(b, a),
        path_order(a, b) <= 0 && path_order(b, c) <= 0 ==> path_order(a, c) <= 0,
        (path_order(a, b) < 0 && path_order(b, c) <= 0) || (path_order(a, b) <= 0 && path_order(b, c) < 0)
            ==> path_order(a, c) < 0,
{
    lemma_comps_order_antisym(path_key(a), path_key(b));
    lemma_comps_order_trans(path_key(a), path_key(b), path_key(c));
}

/// The note order is a strict weak order: no note comes before itself or
/// before a note that comes before it, and a note that comes after two
/// notes in a row comes after the first.
pub proof fn lemma_note_before_order(x: NoteModel, y: NoteModel, z: NoteModel, sort: NoteSort)
    ensures
        note_before(x, y, sort) ==> !note_before(y, x, sort),
        !note_before(x, y, sort) && !note_before(y, z, sort) ==> !note_before(x, z, sort),
{
    lemma_path_order(x.path, y.path, z.path);
    lemma_path_order(z.path, y.path, x.path);
    lemma_path_order(x.path, z.path, y.path);
    lemma_path_order(y.path, x.path, z.path);
    let lx = str_lowercase(note_name(x.path));
    let ly = str_lowercase(note_name(y.path));
    let lz = str_lowercase(note_name(z.path));
    lemma_seq_order_antisym(lx, ly);
    lemma_seq_order_antisym(ly, lz);
    lemma_seq_order_antisym(lx, lz);
    lemma_seq_order_trans(lx, ly, lz);
    lemma_seq_order_trans(lz, ly, lx);
}

/// `s` is in note order: no note comes before one listed earlier.
pub open spec fn notes_sorted(s: Seq<NoteModel>, sort: NoteSort) -> bool {
    forall|i: int, j: int| 0 <= i < j < s.len() ==> !note_before(#[trigger] s[j], #[trigger] s[i], sort)
}

proof fn lemma_insert_note_multiset(s: Seq<NoteModel>, x: NoteModel, sort: NoteSort)
    ensures
        insert_note(s, x, sort).to_multiset() == s.to_multiset().insert(x),
    decreases s.len(),
{
    broadcast use vstd::seq_lib::group_to_multiset_ensures;

    if s.len() == 0 {
        assert(seq![x] =~= Seq::<NoteModel>::empty().push(x));
    } else if !note_before(x, s.last(), sort) {
    } else {
        lemma_insert_note_multiset(s.drop_last(), x, sort);
        assert(s =~= s.drop_last().push(s.last()));
    }
}

proof fn lemma_insert_note_sorted(s: Seq<NoteModel>, x: NoteModel, sort: NoteSort)
    requires
        notes_sorted(s, sort),
    ensures
        notes_sorted(insert_note(s, x, sort), sort),
    decreases s.len(),
{
    broadcast use vstd::seq_lib::group_to_multiset_ensures;

    if s.len() == 0 {
    } else if !note_before(x, s.last(), sort) {
        let r = s.push(x);
        assert forall|i: int, j: int| 0 <= i < j < r.len() implies !note_before(#[trigger] r[j], #[trigger] r[i], sort) by {
            if j == s.len() {
                if i < s.len() - 1 {
                    assert(!note_before(s.last(), s[i], sort));
                    lemma_note_before_order(x, s.last(), s[i], sort);
                }
            }
        }
    } else {
        let d = s.drop_last();
        assert forall|i: int, j: int| 0 <= i < j < d.len() implies !note_before(#[trigger] d[j], #[trigger] d[i], sort) by {
            assert(d[i] == s[i] && d[j] == s[j]);
        }
        lemma_insert_note_sorted(d, x, sort);
        lemma_insert_note_multiset(d, x, sort);
        let t = insert_note(d, x, sort);
        let r = t.push(s.last());
        assert forall|i: int, j: int| 0 <= i < j < r.len() implies !note_before(#[trigger] r[j], #[trigger] r[i], sort) by {
            if j == t.len() {
                let e = t[i];
                assert(t.contains(e));
                assert(t.to_multiset().count(e) > 0);
                if e == x {
                    lemma_note_before_order(x, s.last(), s.last(), sort);
                } else {
                    assert(d.to_multiset().count(e) > 0);
                    assert(d.contains(e));
                    let k = choose|k: int| 0 <= k < d.len() && d[k] == e;
                    assert(s[k] == e);
                    assert(!note_before(s[s.len() - 1], s[k], sort));
                }
            }
        }
    }
}

/// Sorting puts the notes in note order and keeps every note: the result
/// is sorted and holds the same notes, as often, as before.
pub proof fn lemma_sort_notes(s: Seq<NoteModel>, sort: NoteSort)
    ensures
        notes_sorted(spec_sort_notes(s, sort), sort),
        spec_sort_notes(s, sort).to_multiset() == s.to_multiset(),
    decreases s.len(),
{
    broadcast use vstd::seq_lib::group_to_multiset_ensures;

    if s.len() > 0 {
        lemma_sort_notes(s.drop_last(), sort);
        lemma_insert_note_sorted(spec_sort_notes(s.drop_last(), sort), s.last(), sort);
        lemma_insert_note_multiset(spec_sort_notes(s.drop_last(), sort), s.last(), sort);
        assert(s =~= s.drop_last().push(s.last()));
    }
}

/// `a` comes strictly before `b` in dictionary order of code points: after
/// a common beginning, `a` ends while `b` goes on, or `a` has the smaller
/// character.
pub open spec fn lex_less(a: Seq<char>, b: Seq<char>) -> bool {
    exists|i: int|
        0 <= i <= a.len() && i <= b.len() && #[trigger] a.take(i) == b.take(i) && ((i == a.len() && i < b.len()) || (i
            < a.len() && i < b.len() && (a[i] as u32) < (b[i] as u32)))
}

proof fn lemma_lex_less_order(a: Seq<char>, b: Seq<char>, i: int)
    requires
        0 <= i <= a.len(),
        i <= b.len(),
        a.take(i) == b.take(i),
        (i == a.len() && i < b.len()) || (i < a.len() && i < b.len() && (a[i] as u32) < (b[i] as u32)),
    ensures
        seq_order(a, b) < 0,
    decreases i,
{
    if i > 0 {
        assert(a.take(i)[0] == a[0]);
        assert(b.take(i)[0] == b[0]);
        assert(a.drop_first().take(i - 1) =~= a.take(i).drop_first());
        assert(b.drop_first().take(i - 1) =~= b.take(i).drop_first());
        if i < a.len() {
            assert(a.drop_first()[i - 1] == a[i]);
        }
        if i < b.len() {
            assert(b.drop_first()[i - 1] == b[i]);
        }
        lemma_lex_less_order(a.drop_first(), b.drop_first(), i - 1);
    }
}

/// The lower case name that alphabetical order compares.
pub open spec fn sort_name(n: NoteModel) -> Seq<char> {
    str_lowercase(note_name(n.path))
}

/// Alphabetical order puts a note whose lower case name comes first in
/// dictionary order before the other; descending order is ascending order
/// read backwards; by modification time a newer note comes first.
pub proof fn lemma_note_order_laws(x: NoteModel, y: NoteModel)
    ensures
        lex_less(sort_name(x), sort_name(y)) ==> note_before(x, y, NoteSort::Alphabetical { descending: false }),
        note_before(x, y, NoteSort::Alphabetical { descending: true }) == note_before(
            y,
            x,
            NoteSort::Alphabetical { descending: false },
        ),
        x.modified > y.modified ==> note_before(x, y, NoteSort::LastModified),
{
    let lx = sort_name(x);
    let ly = sort_name(y);
    if lex_less(lx, ly) {
        let i = choose|i: int|
            0 <= i <= lx.len() && i <= ly.len() && #[trigger] lx.take(i) == ly.take(i) && ((i == lx.len() && i
                < ly.len()) || (i < lx.len() && i < ly.len() && (lx[i] as u32) < (ly[i] as u32)));
        lemma_lex_less_order(lx, ly, i);
    }
    lemma_seq_order_antisym(lx, ly);
    lemma_path_order(x.path, y.path, y.path);
}

/// The note list comes in the order asked for: alphabetically ascending no
/// note follows one whose lower case name it precedes in dictionary order,
/// descending no note precedes one whose name precedes its own, and by
/// modification time no note follows a newer one.
pub proof fn lemma_sorted_note_list(s: Seq<NoteModel>)
    ensures
        ({
            let up = spec_sort_notes(s, NoteSort::Alphabetical { descending: false });
            forall|i: int, j: int| 0 <= i < j < up.len() ==> !lex_less(sort_name(#[trigger] up[j]), sort_name(#[trigger] up[i]))
        }),
        ({
            let down = spec_sort_notes(s, NoteSort::Alphabetical { descending: true });
            forall|i: int, j: int| 0 <= i < j < down.len() ==> !lex_less(sort_name(#[trigger] down[i]), sort_name(#[trigger] down[j]))
        }),
        ({
            let recent = spec_sort_notes(s, NoteSort::LastModified);
            forall|i: int, j: int| 0 <= i < j < recent.len() ==> (#[trigger] recent[i]).modified >= (#[trigger] recent[j]).modified
        }),
{
    let up = spec_sort_notes(s, NoteSort::Alphabetical { descending: false });
    let down = spec_sort_notes(s, NoteSort::Alphabetical { descending: true });
    let recent = spec_sort_notes(s, NoteSort::LastModified);
    lemma_sort_notes(s, NoteSort::Alphabetical { descending: false });
    lemma_sort_notes(s, NoteSort::Alphabetical { descending: true });
    lemma_sort_notes(s, NoteSort::LastModified);
    assert forall|i: int, j: int| 0 <= i < j < up.len() implies !lex_less(sort_name(#[trigger] up[j]), sort_name(
        #[trigger] up[i],
    )) by {
        lemma_note_order_laws(up[j], up[i]);
        assert(!note_before(up[j], up[i], NoteSort::Alphabetical { descending: false }));
    }
    assert forall|i: int, j: int| 0 <= i < j < down.len() implies !lex_less(sort_name(#[trigger] down[i]), sort_name(
        #[trigger] down[j],
    )) by {
        lemma_note_order_laws(down[i], down[j]);
        lemma_note_order_laws(down[j], down[i]);
        assert(!note_before(down[j], down[i], NoteSort::Alphabetical { descending: true }));
    }
    assert forall|i: int, j: int| 0 <= i < j < recent.len() implies (#[trigger] recent[i]).modified >= (
    #[trigger] recent[j]).modified by {
        lemma_note_order_laws(recent[j], recent[i]);
        assert(!note_before(recent[j], recent[i], NoteSort::LastModified));
    }
}

/// The search shows exactly the notes that match every term, in order.
pub proof fn lemma_search_is_filter(notes: Seq<NoteModel>, terms: Seq<Seq<char>>)
    ensures
        filter_matches(notes, terms) == notes.filter(|n: NoteModel| spec_matches_search(n, terms)),
    decreases notes.len(),
{
    reveal(Seq::filter);
    if notes.len() > 0 {
        lemma_search_is_filter(notes.drop_last(), terms);
    }
}

} // verus!
