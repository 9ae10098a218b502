//! A note of a note folder.

use vstd::prelude::*;

use crate::path::{file_name, file_name_exec};
use crate::text::{strings_view, 
    chars_of, find_exec, find_from, lemma_find_from, matches_at, rfind_char, rfind_char_exec, slice_to_vec, string_of, str_lowercase,
    lowercase_str,
};

verus! {

/// A note: its path relative to the note folder, its size, its
/// modification time in nanoseconds since the Unix epoch, and its text in
/// lower case for searching.
#[derive(Clone, Debug, PartialEq, Eq)]
pub struct Note {
    /// Normalized path relative to the configured note root.
    pub relative_path: String,
    pub size: u64,
    pub modified: i128,
    pub search_text_lowercase: String,
}

/// The mathematical value of a [`Note`].
pub struct NoteModel {
    pub path: Seq<char>,
    pub size: u64,
    pub modified: i128,
    pub text: Seq<char>,
}

impl View for Note {
    type V = NoteModel;

    open spec fn view(&self) -> NoteModel {
        NoteModel {
            path: self.relative_path@,
            size: self.size,
            modified: self.modified,
            text: self.search_text_lowercase@,
        }
    }
}

pub open spec fn notes_view(v: Seq<Note>) -> Seq<NoteModel> {
    v.map_values(|n: Note| n@)
}

/// The stem of a file name (`Path::file_stem`): the name without its last
/// `.extension`; a name whose only dot leads it has no extension.
pub open spec fn stem(name: Seq<char>) -> Seq<char> {
    match rfind_char(name, '.') {
        Some(d) => if d == 0 {
            name
        } else {
            name.take(d)
        },
        None => name,
    }
}

/// The name of the note at `path`: the stem of its file name, or the whole
/// path when it has no file name.
pub open spec fn note_name(path: Seq<char>) -> Seq<char> {
    match file_name(path) {
        Some(n) => stem(n),
        None => path,
    }
}

/// `s` contains `t`.
pub open spec fn contains(s: Seq<char>, t: Seq<char>) -> bool {
    find_from(s, 0, t) is Some
}

/// A note matches a search when every term occurs in its lower case name
/// or in its lower case text.
pub open spec fn spec_matches_search(n: NoteModel, terms: Seq<Seq<char>>) -> bool {
    forall|k: int| 0 <= k < terms.len() ==> contains(str_lowercase(note_name(n.path)), #[trigger] terms[k])
        || contains(n.text, terms[k])
}

/// The name of the note at `path`.
pub fn note_name_exec(path: &[char]) -> (r: Vec<char>)
    ensures
        r@ == note_name(path@),
{
    match file_name_exec(path) {
        Some(n) => match rfind_char_exec(n.as_slice(), n.len(), '.') {
            Some(d) => {
                assert(n@.take(n.len() as int) =~= n@);
                if d == 0 {
                    n
                } else {
                    slice_to_vec(n.as_slice(), 0, d)
                }
            },
            None => {
                assert(n@.take(n.len() as int) =~= n@);
                n
            },
        },
        None => slice_to_vec(path, 0, path.len()),
    }
}

impl Note {
    /// The note's name: the stem of its file name.
    pub fn name(&self) -> (r: String)
        ensures
            r@ == note_name(self.relative_path@),
    {
        let p = chars_of(self.relative_path.as_str());
        let n = note_name_exec(p.as_slice());
        let r = string_of(n.as_slice(), 0, n.len());
        assert(r@ =~= n@);
        r
    }

    /// Whether every term occurs in the note's lower case name or text.
    pub fn matches_search(&self, terms: &Vec<String>) -> (r: bool)
        ensures
            r == spec_matches_search(self@, strings_view(terms@)),
    {
        let name = self.name();
        let lower = lowercase_str(name.as_str());
        let lc = chars_of(lower.as_str());
        let text = chars_of(self.search_text_lowercase.as_str());
        let ghost tv = strings_view(terms@);
        let mut k: usize = 0;
        while k < terms.len()
            invariant
                k <= terms.len(),
                tv == strings_view(terms@),
                lc@ == str_lowercase(note_name(self.relative_path@)),
                text@ == self.search_text_lowercase@,
                forall|m: int| 0 <= m < k ==> contains(lc@, #[trigger] tv[m]) || contains(text@, tv[m]),
            decreases terms.len() - k,
        {
            let t = chars_of(terms[k].as_str());
            assert(tv[k as int] == t@);
            let in_name = find_exec(lc.as_slice(), 0, t.as_slice()).is_some();
            let in_text = find_exec(text.as_slice(), 0, t.as_slice()).is_some();
            if !in_name && !in_text {
                return false;
            }
            k = k + 1;
        }
        true
    }
}

/// `t` occurs in `s`: some run of consecutive characters of `s` spells `t`.
pub open spec fn occurs_in(t: Seq<char>, s: Seq<char>) -> bool {
    exists|j: int| 0 <= j && j + t.len() <= s.len() && #[trigger] s.subrange(j, j + t.len()) == t
}

proof fn lemma_contains_occurs(s: Seq<char>, t: Seq<char>)
    ensures
        contains(s, t) == occurs_in(t, s),
{
    lemma_find_from(s, 0, t);
    if let Some(j) = find_from(s, 0, t) {
        assert(s.subrange(j, j + t.len()) == t);
    } else {
        if occurs_in(t, s) {
            let j = choose|j: int| 0 <= j && j + t.len() <= s.len() && #[trigger] s.subrange(j, j + t.len()) == t;
            assert(matches_at(s, j, t));
        }
    }
}

/// A search keeps a note exactly when each of its terms occurs in the
/// note's lower case name or in its lower case text: no terms keep every
/// note, one term is looked for in both, and the terms of two lists must
/// all be found, whatever their positions.
pub proof fn lemma_search_needs_every_term(n: NoteModel, a: Seq<Seq<char>>, b: Seq<Seq<char>>, t: Seq<char>)
    ensures
        spec_matches_search(n, seq![]),
        spec_matches_search(n, seq![t]) == (occurs_in(t, str_lowercase(note_name(n.path))) || occurs_in(t, n.text)),
        spec_matches_search(n, a + b) == (spec_matches_search(n, a) && spec_matches_search(n, b)),
{
    let name = str_lowercase(note_name(n.path));
    lemma_contains_occurs(name, t);
    lemma_contains_occurs(n.text, t);
    let one = seq![t];
    assert(one[0] == t);
    if spec_matches_search(n, a + b) {
        assert forall|k: int| 0 <= k < a.len() implies contains(name, #[trigger] a[k]) || contains(n.text, a[k]) by {
            assert((a + b)[k] == a[k]);
        }
        assert forall|k: int| 0 <= k < b.len() implies contains(name, #[trigger] b[k]) || contains(n.text, b[k]) by {
            assert((a + b)[a.len() + k] == b[k]);
        }
    }
    if spec_matches_search(n, a) && spec_matches_search(n, b) {
        assert forall|k: int| 0 <= k < (a + b).len() implies contains(name, #[trigger] (a + b)[k]) || contains(
            n.text,
            (a + b)[k],
        ) by {
            if k < a.len() {
                assert((a + b)[k] == a[k]);
            } else {
                assert((a + b)[k] == b[k - a.len()]);
            }
        }
    }
}

} // verus!
