//! Following links between notes: which note a Markdown, legacy `note://`
//! or wiki link names, among the notes of the folder.

use vstd::prelude::*;
use vstd::utf8::{decode_utf8, encode_utf8, valid_utf8};

use crate::markdown::{NoteLinkTarget, TargetModel};
use crate::notes::model::{note_name, note_name_exec, stem};
use crate::text::strings_view;
use crate::notes::naming::spec_parent;
use crate::path::{
    comps_view, components, components_exec, file_name, file_name_exec, is_absolute, join_components, join_from,
    join_path, join_path_exec, parent_or_empty, parent_or_empty_exec, path_eq, path_eq_exec, strip_prefix,
    strip_prefix_exec,
};
use crate::text::{
    char_is_alphanumeric, chars_eq, chars_of, eq_ignore_ascii_case, eq_ignore_ascii_case_exec, find_char_exec,
    find_from, is_alphanumeric, lowercase_str, matches_at, matches_at_exec, push_char, rfind_char_exec,
    skip_class, skip_class_back, slice_to_vec, str_lowercase, string_of, trim, trim_end, trim_start, trim_vec,
    CharClass,
};

verus! {

broadcast use vstd::string::group_string_axioms;

// ---------------------------------------------------------------------------
// Percent decoding.

/// The value of an ASCII hexadecimal digit byte.
pub open spec fn hex_byte_value(b: u8) -> Option<u8> {
    if 0x30 <= b <= 0x39 {
        Some((b - 0x30) as u8)
    } else if 0x61 <= b <= 0x66 {
        Some((b - 0x61 + 10) as u8)
    } else if 0x41 <= b <= 0x46 {
        Some((b - 0x41 + 10) as u8)
    } else {
        None
    }
}

/// The bytes after percent decoding: each `%` followed by two hexadecimal
/// digits becomes the byte they write; every other byte stays.
pub open spec fn percent_decode_bytes(b: Seq<u8>) -> Seq<u8>
    decreases b.len(),
{
    if b.len() == 0 {
        seq![]
    } else if b[0] == 0x25 && b.len() >= 3 && hex_byte_value(b[1]) is Some && hex_byte_value(b[2]) is Some {
        seq![(hex_byte_value(b[1]).unwrap() * 16 + hex_byte_value(b[2]).unwrap()) as u8] + percent_decode_bytes(
            b.skip(3),
        )
    } else {
        seq![b[0]] + percent_decode_bytes(b.skip(1))
    }
}

/// The text that percent decoding `s` and reading the bytes as UTF-8
/// (invalid sequences replaced) gives.
pub uninterp spec fn percent_decoded(s: Seq<char>) -> Seq<char>;

/// `percent_encoding::percent_decode_str(s).decode_utf8_lossy()`.  When the
/// decoded bytes are valid UTF-8, the text is what they encode; otherwise
/// invalid sequences become U+FFFD, which the contract leaves to the name.
#[verifier::external_body]
fn percent_decode(s: &str) -> (r: String)
    ensures
        r@ == percent_decoded(s@),
        valid_utf8(percent_decode_bytes(encode_utf8(s@))) ==> r@ == decode_utf8(
            percent_decode_bytes(encode_utf8(s@)),
        ),
{
    percent_encoding::percent_decode_str(s).decode_utf8_lossy().into_owned()
}

// ---------------------------------------------------------------------------
// Paths.

/// The text of `s` before its first `c` (`str::split(c).next()`).
pub open spec fn before_char(s: Seq<char>, c: char) -> Seq<char> {
    match find_from(s, 0, seq![c]) {
        Some(e) => s.take(e),
        None => s,
    }
}

/// The components of `base`, then those of `path` pushed one by one: `.`
/// adds nothing, `..` removes the last one (and fails when there is none).
pub open spec fn push_components(acc: Seq<Seq<char>>, comps: Seq<Seq<char>>) -> Option<Seq<Seq<char>>>
    decreases comps.len(),
{
    if comps.len() == 0 {
        Some(acc)
    } else if comps[0] == seq!['.'] {
        push_components(acc, comps.drop_first())
    } else if comps[0] == seq!['.', '.'] {
        if acc.len() == 0 {
            None
        } else {
            push_components(acc.drop_last(), comps.drop_first())
        }
    } else {
        push_components(acc.push(comps[0]), comps.drop_first())
    }
}

/// The relative path `path` resolved against the directory `base`: `None`
/// when `path` is absolute or when `..` climbs above the note folder.
pub open spec fn spec_normalize_relative_path(base: Seq<char>, path: Seq<char>) -> Option<Seq<char>> {
    if is_absolute(path) {
        None
    } else {
        match push_components(components(base), components(path)) {
            Some(c) => Some(join_components(c)),
            None => None,
        }
    }
}

/// The directory that links of the current note are relative to.
pub open spec fn link_base(current: Option<Seq<char>>) -> Seq<char> {
    match current {
        Some(c) => parent_or_empty(c),
        None => seq![],
    }
}

/// The first of `paths` equal to `rel` up to ASCII case.
pub open spec fn first_path_like(paths: Seq<Seq<char>>, rel: Seq<char>, k: int) -> Option<Seq<char>>
    decreases paths.len() - k,
{
    if k < 0 || k >= paths.len() {
        None
    } else if eq_ignore_ascii_case(paths[k], rel) {
        Some(paths[k])
    } else {
        first_path_like(paths, rel, k + 1)
    }
}

/// The note that a Markdown link to `target` names: the path before `#`,
/// percent-decoded, without a `file://` prefix; an absolute path inside
/// the note folder `root`, or a path relative to the current note's folder.
pub open spec fn resolve_path_link(
    paths: Seq<Seq<char>>,
    root: Seq<char>,
    current: Option<Seq<char>>,
    target: Seq<char>,
) -> Option<Seq<char>> {
    let t0 = percent_decoded(before_char(target, '#'));
    let t = if matches_at(t0, 0, seq!['f', 'i', 'l', 'e', ':', '/', '/']) {
        t0.skip(7)
    } else {
        t0
    };
    let relative = if is_absolute(t) {
        strip_prefix(t, root)
    } else {
        spec_normalize_relative_path(link_base(current), t)
    };
    match relative {
        Some(rel) => first_path_like(paths, rel, 0),
        None => None,
    }
}

/// A note name as legacy links compare it: every character that is not
/// alphanumeric becomes `_`, then all in lower case.
pub open spec fn spec_legacy_link_name(name: Seq<char>) -> Seq<char> {
    str_lowercase(name.map_values(|c: char| if char_is_alphanumeric(c) { c } else { '_' }))
}

/// The first of `paths` whose note name compares equal to `name` as legacy
/// links compare names.
pub open spec fn first_legacy_match(paths: Seq<Seq<char>>, name: Seq<char>, k: int) -> Option<Seq<char>>
    decreases paths.len() - k,
{
    if k < 0 || k >= paths.len() {
        None
    } else if spec_legacy_link_name(note_name(paths[k])) == spec_legacy_link_name(name) {
        Some(paths[k])
    } else {
        first_legacy_match(paths, name, k + 1)
    }
}

/// The note a legacy link `note://Name#part` names: the text after
/// `note://`, before `#`, without trailing `@`, percent-decoded.
pub open spec fn resolve_legacy_link(paths: Seq<Seq<char>>, target: Seq<char>) -> Option<Seq<char>> {
    let t1 = if matches_at(target, 0, seq!['n', 'o', 't', 'e', ':', '/', '/']) {
        target.skip(7)
    } else {
        target
    };
    let name = percent_decoded(trim_end(before_char(t1, '#'), CharClass::At));
    first_legacy_match(paths, name, 0)
}

/// `Path::file_stem`.
pub open spec fn file_stem(p: Seq<char>) -> Option<Seq<char>> {
    match file_name(p) {
        Some(n) => Some(stem(n)),
        None => None,
    }
}

/// `p` without the extension of its file name (`with_extension("")`).
pub open spec fn without_extension(p: Seq<char>) -> Seq<char> {
    match file_name(p) {
        Some(n) => join_path(parent_or_empty(p), stem(n)),
        None => p,
    }
}

/// The number of components `Path::components` yields for a relative
/// path: a leading `.` counts as one.
pub open spec fn component_count(p: Seq<char>) -> int {
    components(p).len() + if p == seq!['.'] || matches_at(p, 0, seq!['.', '/']) {
        1int
    } else {
        0int
    }
}

/// How well a note at `p` fits a wiki link: 0 when it is the path the link
/// spells out, 1 when it lies in the current note's folder, 2 otherwise.
pub open spec fn wiki_rank(p: Seq<char>, expected: Option<Seq<char>>, base: Seq<char>) -> int {
    if expected matches Some(x) && eq_ignore_ascii_case(without_extension(p), x) {
        0
    } else if spec_parent(p) matches Some(q) && path_eq(q, base) {
        1
    } else {
        2
    }
}

/// Whether the note at `p` has the wiki link's file stem, up to ASCII case.
pub open spec fn wiki_candidate(p: Seq<char>, stem_target: Seq<char>) -> bool {
    file_stem(p) matches Some(s) && eq_ignore_ascii_case(s, stem_target)
}

/// The best candidate from the `k`-th path on: the first with the lowest
/// rank.
pub open spec fn best_wiki_match(
    paths: Seq<Seq<char>>,
    stem_target: Seq<char>,
    expected: Option<Seq<char>>,
    base: Seq<char>,
    k: int,
) -> Option<Seq<char>>
    decreases paths.len() - k,
{
    if k < 0 || k >= paths.len() {
        None
    } else {
        let rest = best_wiki_match(paths, stem_target, expected, base, k + 1);
        if !wiki_candidate(paths[k], stem_target) {
            rest
        } else {
            match rest {
                Some(r) => if wiki_rank(r, expected, base) < wiki_rank(paths[k], expected, base) {
                    Some(r)
                } else {
                    Some(paths[k])
                },
                None => Some(paths[k]),
            }
        }
    }
}

/// The note a wiki link `[[path#heading|label]]` names: among the notes with
/// the link's file stem, the one at the path the link spells out (when it
/// has more than one component), else one in the current note's folder,
/// else the first.
pub open spec fn resolve_wiki_link(paths: Seq<Seq<char>>, current: Option<Seq<char>>, target: Seq<char>) -> Option<
    Seq<char>,
> {
    let w1 = trim(before_char(target, '|'), CharClass::Whitespace);
    let w2 = trim(before_char(w1, '#'), CharClass::Whitespace);
    let root_relative = w2.len() > 0 && w2[0] == '/';
    let w3 = trim_start(w2, CharClass::Slash);
    let base = link_base(current);
    let expected = if component_count(w3) > 1 {
        match spec_normalize_relative_path(
            if root_relative {
                seq![]
            } else {
                base
            },
            w3,
        ) {
            Some(p) => Some(without_extension(p)),
            None => None,
        }
    } else {
        None
    };
    let stem_target = match file_stem(w3) {
        Some(s) => s,
        None => w3,
    };
    best_wiki_match(paths, stem_target, expected, base, 0)
}

/// The note a link names, among the notes at `paths` of the folder `root`,
/// seen from the note at `current`.
pub open spec fn spec_resolve_note_link(
    paths: Seq<Seq<char>>,
    root: Seq<char>,
    current: Option<Seq<char>>,
    target: TargetModel,
) -> Option<Seq<char>> {
    match target {
        TargetModel::Path(t) => resolve_path_link(paths, root, current, t),
        TargetModel::Legacy(t) => resolve_legacy_link(paths, t),
        TargetModel::Wiki(t) => resolve_wiki_link(paths, current, t),
        _ => None,
    }
}


// ---------------------------------------------------------------------------
// Executable resolution.

fn before_char_exec(s: &[char], c: char) -> (r: Vec<char>)
    ensures
        r@ == before_char(s@, c),
{
    match find_char_exec(s, 0, c) {
        Some(e) => slice_to_vec(s, 0, e),
        None => slice_to_vec(s, 0, s.len()),
    }
}

fn push_components_exec(base: &[char], comps: &Vec<Vec<char>>) -> (r: Option<Vec<Vec<char>>>)
    ensures
        match push_components(components(base@), comps_view(comps@)) {
            Some(c) => r matches Some(v) && comps_view(v@) == c,
            None => r is None,
        },
{
    let mut acc = components_exec(base);
    let ghost a0 = comps_view(acc@);
    let ghost cv = comps_view(comps@);
    let mut k: usize = 0;
    assert(cv.skip(0) =~= cv);
    while k < comps.len()
        invariant
            k <= comps.len(),
            cv == comps_view(comps@),
            a0 == components(base@),
            push_components(a0, cv) == push_components(comps_view(acc@), cv.skip(k as int)),
        decreases comps.len() - k,
    {
        let ghost av = comps_view(acc@);
        assert(cv.skip(k as int)[0] == comps@[k as int]@);
        assert(cv.skip(k as int).drop_first() =~= cv.skip(k + 1));
        assert(av.len() == acc.len());
        assert(['.']@ =~= seq!['.']);
        assert(['.', '.']@ =~= seq!['.', '.']);
        if chars_eq(comps[k].as_slice(), &['.']) {
        } else if chars_eq(comps[k].as_slice(), &['.', '.']) {
            if acc.len() == 0 {
                assert(push_components(av, cv.skip(k as int)) is None);
                return None;
            }
            acc.pop();
            assert(comps_view(acc@) =~= av.drop_last());
        } else {
            assert(['.', '.']@ =~= seq!['.', '.']);
            acc.push(comps[k].clone());
            assert(comps_view(acc@) =~= av.push(cv[k as int]));
        }
        k = k + 1;
    }
    assert(cv.skip(k as int) =~= Seq::<Seq<char>>::empty());
    Some(acc)
}

/// The relative path `path` resolved against the directory `base` (see
/// [`spec_normalize_relative_path`]).
pub fn normalize_relative_path(base: &str, path: &str) -> (r: Option<String>)
    ensures
        match spec_normalize_relative_path(base@, path@) {
            Some(p) => r matches Some(v) && v@ == p,
            None => r is None,
        },
        is_absolute(path@) ==> r is None,
{
    let b = chars_of(base);
    let p = chars_of(path);
    if p.len() > 0 && p[0] == '/' {
        return None;
    }
    let pc = components_exec(p.as_slice());
    match push_components_exec(b.as_slice(), &pc) {
        Some(c) => {
            let r = join_from(&c, 0);
            assert(comps_view(c@).skip(0) =~= comps_view(c@));
            Some(r)
        },
        None => None,
    }
}

/// The name as legacy links compare it (see [`spec_legacy_link_name`]).
pub fn legacy_link_name(name: &str) -> (r: String)
    ensures
        r@ == spec_legacy_link_name(name@),
{
    let c = chars_of(name);
    let mut mapped = String::new();
    let mut k: usize = 0;
    while k < c.len()
        invariant
            k <= c.len(),
            c@ == name@,
            mapped@ == c@.take(k as int).map_values(|ch: char| if char_is_alphanumeric(ch) { ch } else { '_' }),
        decreases c.len() - k,
    {
        let ch = c[k];
        if is_alphanumeric(ch) {
            push_char(&mut mapped, ch);
        } else {
            push_char(&mut mapped, '_');
        }
        k = k + 1;
        assert(mapped@ =~= c@.take(k as int).map_values(
            |ch: char|
                if char_is_alphanumeric(ch) {
                    ch
                } else {
                    '_'
                },
        ));
    }
    assert(c@.take(c.len() as int) =~= c@);
    lowercase_str(mapped.as_str())
}

fn first_path_like_exec(paths: &Vec<Vec<char>>, rel: &[char]) -> (r: Option<usize>)
    ensures
        match first_path_like(comps_view(paths@), rel@, 0) {
            Some(p) => r matches Some(i) && i < paths.len() && paths@[i as int]@ == p,
            None => r is None,
        },
{
    let ghost pv = comps_view(paths@);
    let mut k: usize = 0;
    while k < paths.len()
        invariant
            k <= paths.len(),
            pv == comps_view(paths@),
            first_path_like(pv, rel@, 0) == first_path_like(pv, rel@, k as int),
        decreases paths.len() - k,
    {
        assert(pv[k as int] == paths@[k as int]@);
        let p = &paths[k];
        assert(p@.subrange(0, p.len() as int) =~= p@);
        if eq_ignore_ascii_case_exec(p.as_slice(), 0, p.len(), rel) {
            return Some(k);
        }
        k = k + 1;
    }
    None
}

fn file_stem_exec(p: &[char]) -> (r: Option<Vec<char>>)
    ensures
        match file_stem(p@) {
            Some(s) => r matches Some(v) && v@ == s,
            None => r is None,
        },
{
    match file_name_exec(p) {
        Some(n) => {
            let v = note_name_exec(p);
            Some(v)
        },
        None => None,
    }
}

fn without_extension_exec(p: &[char]) -> (r: Vec<char>)
    ensures
        r@ == without_extension(p@),
{
    match file_name_exec(p) {
        Some(n) => {
            let st = note_name_exec(p);
            let parent = parent_or_empty_exec(p);
            let pc = chars_of(parent.as_str());
            let joined = join_path_exec(pc.as_slice(), st.as_slice());
            chars_of(joined.as_str())
        },
        None => slice_to_vec(p, 0, p.len()),
    }
}

fn wiki_rank_exec(p: &[char], expected: &Option<Vec<char>>, base: &[char]) -> (r: u8)
    ensures
        r as int == wiki_rank(
            p@,
            match expected {
                Some(x) => Some(x@),
                None => None,
            },
            base@,
        ),
{
    match expected {
        Some(x) => {
            let w = without_extension_exec(p);
            assert(w@.subrange(0, w.len() as int) =~= w@);
            if eq_ignore_ascii_case_exec(w.as_slice(), 0, w.len(), x.as_slice()) {
                return 0;
            }
        },
        None => {},
    }
    let comps = components_exec(p);
    if comps.len() > 0 {
        let parent = parent_or_empty_exec(p);
        let pc = chars_of(parent.as_str());
        if path_eq_exec(pc.as_slice(), base) {
            return 1;
        }
    }
    2
}

fn best_wiki_match_exec(
    paths: &Vec<Vec<char>>,
    stem_target: &[char],
    expected: &Option<Vec<char>>,
    base: &[char],
) -> (r: Option<usize>)
    ensures
        match best_wiki_match(
            comps_view(paths@),
            stem_target@,
            match expected {
                Some(x) => Some(x@),
                None => None,
            },
            base@,
            0,
        ) {
            Some(p) => r matches Some(i) && i < paths.len() && paths@[i as int]@ == p,
            None => r is None,
        },
{
    let ghost pv = comps_view(paths@);
    let ghost ev = match expected {
        Some(x) => Some(x@),
        None => None::<Seq<char>>,
    };
    let mut best: Option<(usize, u8)> = None;
    let mut k: usize = paths.len();
    while k > 0
        invariant
            k <= paths.len(),
            pv == comps_view(paths@),
            ev == match expected {
                Some(x) => Some(x@),
                None => None::<Seq<char>>,
            },
            match best_wiki_match(pv, stem_target@, ev, base@, k as int) {
                Some(p) => best matches Some((i, rk)) && k <= i < paths.len() && paths@[i as int]@ == p && rk
                    == wiki_rank(p, ev, base@),
                None => best is None,
            },
        decreases k,
    {
        k = k - 1;
        assert(pv[k as int] == paths@[k as int]@);
        let p = &paths[k];
        let candidate = match file_stem_exec(p.as_slice()) {
            Some(st) => {
                assert(st@.subrange(0, st.len() as int) =~= st@);
                eq_ignore_ascii_case_exec(st.as_slice(), 0, st.len(), stem_target)
            },
            None => false,
        };
        if candidate {
            let rk = wiki_rank_exec(p.as_slice(), expected, base);
            best = match best {
                Some((i, r)) => if r < rk {
                    Some((i, r))
                } else {
                    Some((k, rk))
                },
                None => Some((k, rk)),
            };
        }
    }
    match best {
        Some((i, _)) => Some(i),
        None => None,
    }
}

fn has_several_components(p: &[char]) -> (r: bool)
    ensures
        r == (component_count(p@) > 1),
{
    let comps = components_exec(p);
    let dot_slash = ['.', '/'];
    assert(dot_slash@ =~= seq!['.', '/']);
    let lead = (p.len() == 1 && p[0] == '.') || matches_at_exec(p, 0, &dot_slash);
    assert((p.len() == 1 && p[0] == '.') == (p@ == seq!['.'])) by {
        if p@ == seq!['.'] {
            assert(p@.len() == 1);
        }
        if p.len() == 1 && p[0] == '.' {
            assert(p@ =~= seq!['.']);
        }
    }
    comps.len() > 1 || (lead && comps.len() > 0)
}

fn first_legacy_match_exec(paths: &Vec<String>, name: &str) -> (r: Option<usize>)
    ensures
        match first_legacy_match(strings_view(paths@), name@, 0) {
            Some(p) => r matches Some(i) && i < paths.len() && paths@[i as int]@ == p,
            None => r is None,
        },
{
    let wanted = legacy_link_name(name);
    let wc = chars_of(wanted.as_str());
    let mut k: usize = 0;
    let ghost pv = strings_view(paths@);
    while k < paths.len()
        invariant
            k <= paths.len(),
            pv == strings_view(paths@),
            wc@ == spec_legacy_link_name(name@),
            first_legacy_match(pv, name@, 0) == first_legacy_match(pv, name@, k as int),
        decreases paths.len() - k,
    {
        assert(pv[k as int] == paths@[k as int]@);
        let pc = chars_of(paths[k].as_str());
        let nm = note_name_exec(pc.as_slice());
        let nms = string_of(nm.as_slice(), 0, nm.len());
        assert(nms@ =~= nm@);
        let ln = legacy_link_name(nms.as_str());
        let lc = chars_of(ln.as_str());
        if chars_eq(lc.as_slice(), wc.as_slice()) {
            return Some(k);
        }
        k = k + 1;
    }
    None
}

/// The note a link names (see [`spec_resolve_note_link`]), among the notes
/// at `paths` in the folder `root`, seen from the note at `current`.
pub fn resolve_note_link(paths: &Vec<String>, root: &str, current: Option<&str>, target: &NoteLinkTarget) -> (r:
    Option<String>)
    ensures
        match spec_resolve_note_link(
            strings_view(paths@),
            root@,
            match current {
                Some(c) => Some(c@),
                None => None,
            },
            target@,
        ) {
            Some(p) => r matches Some(v) && v@ == p,
            None => r is None,
        },
{
    let ghost cur = match current {
        Some(c) => Some(c@),
        None => None::<Seq<char>>,
    };
    let mut pcs: Vec<Vec<char>> = Vec::new();
    let mut i: usize = 0;
    while i < paths.len()
        invariant
            i <= paths.len(),
            comps_view(pcs@) == strings_view(paths@).take(i as int),
        decreases paths.len() - i,
    {
        let v = chars_of(paths[i].as_str());
        let ghost before = pcs@;
        pcs.push(v);
        assert(comps_view(pcs@) =~= comps_view(before).push(v@));
        assert(strings_view(paths@).take(i + 1) =~= strings_view(paths@).take(i as int).push(paths@[i as int]@));
        i = i + 1;
    }
    assert(strings_view(paths@).take(paths.len() as int) =~= strings_view(paths@));
    let base: String = match current {
        Some(c) => {
            let cc = chars_of(c);
            parent_or_empty_exec(cc.as_slice())
        },
        None => String::new(),
    };
    assert(base@ == link_base(cur));
    let found: Option<usize> = match target {
        NoteLinkTarget::Path(t) => {
            let tc = chars_of(t.as_str());
            let before = before_char_exec(tc.as_slice(), '#');
            let decoded = percent_decode(string_of(before.as_slice(), 0, before.len()).as_str());
            assert(before@.subrange(0, before.len() as int) =~= before@);
            let dc = chars_of(decoded.as_str());
            let prefix = ['f', 'i', 'l', 'e', ':', '/', '/'];
            assert(prefix@ =~= seq!['f', 'i', 'l', 'e', ':', '/', '/']);
            let tt = if matches_at_exec(dc.as_slice(), 0, &prefix) {
                slice_to_vec(dc.as_slice(), 7, dc.len())
            } else {
                slice_to_vec(dc.as_slice(), 0, dc.len())
            };
            assert(dc@.subrange(7, dc.len() as int) =~= dc@.skip(7) || !matches_at(dc@, 0, prefix@));
            assert(dc@.subrange(0, dc.len() as int) =~= dc@);
            let relative = if tt.len() > 0 && tt[0] == '/' {
                let rc = chars_of(root);
                strip_prefix_exec(tt.as_slice(), rc.as_slice())
            } else {
                let ts = string_of(tt.as_slice(), 0, tt.len());
                assert(ts@ =~= tt@);
                normalize_relative_path(base.as_str(), ts.as_str())
            };
            match relative {
                Some(rel) => {
                    let relc = chars_of(rel.as_str());
                    first_path_like_exec(&pcs, relc.as_slice())
                },
                None => None,
            }
        },
        NoteLinkTarget::Legacy(t) => {
            let tc = chars_of(t.as_str());
            let prefix = ['n', 'o', 't', 'e', ':', '/', '/'];
            assert(prefix@ =~= seq!['n', 'o', 't', 'e', ':', '/', '/']);
            let t1 = if matches_at_exec(tc.as_slice(), 0, &prefix) {
                slice_to_vec(tc.as_slice(), 7, tc.len())
            } else {
                slice_to_vec(tc.as_slice(), 0, tc.len())
            };
            assert(tc@.subrange(7, tc.len() as int) =~= tc@.skip(7) || !matches_at(tc@, 0, prefix@));
            assert(tc@.subrange(0, tc.len() as int) =~= tc@);
            let b = before_char_exec(t1.as_slice(), '#');
            let end = skip_class_back(b.as_slice(), b.len(), &CharClass::At);
            let trimmed = string_of(b.as_slice(), 0, end);
            assert(trimmed@ =~= trim_end(b@, CharClass::At));
            let name = percent_decode(trimmed.as_str());
            first_legacy_match_exec(paths, name.as_str())
        },
        NoteLinkTarget::Wiki(t) => {
            let tc = chars_of(t.as_str());
            let w1 = trim_vec(before_char_exec(tc.as_slice(), '|').as_slice(), &CharClass::Whitespace);
            let w2 = trim_vec(before_char_exec(w1.as_slice(), '#').as_slice(), &CharClass::Whitespace);
            let root_relative = w2.len() > 0 && w2[0] == '/';
            let start = skip_class(w2.as_slice(), 0, &CharClass::Slash);
            let w3 = slice_to_vec(w2.as_slice(), start, w2.len());
            assert(w3@ =~= trim_start(w2@, CharClass::Slash));
            let expected: Option<Vec<char>> = if has_several_components(w3.as_slice()) {
                let from = if root_relative {
                    String::new()
                } else {
                    base.clone()
                };
                let w3s = string_of(w3.as_slice(), 0, w3.len());
                assert(w3s@ =~= w3@);
                match normalize_relative_path(from.as_str(), w3s.as_str()) {
                    Some(pth) => {
                        let pc = chars_of(pth.as_str());
                        Some(without_extension_exec(pc.as_slice()))
                    },
                    None => None,
                }
            } else {
                None
            };
            let stem_target = match file_stem_exec(w3.as_slice()) {
                Some(st) => st,
                None => slice_to_vec(w3.as_slice(), 0, w3.len()),
            };
            assert(w3@.subrange(0, w3.len() as int) =~= w3@);
            let bc = chars_of(base.as_str());
            best_wiki_match_exec(&pcs, stem_target.as_slice(), &expected, bc.as_slice())
        },
        _ => None,
    };
    match found {
        Some(i) => {
            assert(comps_view(pcs@)[i as int] == pcs@[i as int]@);
            assert(strings_view(paths@)[i as int] == paths@[i as int]@);
            Some(paths[i].clone())
        },
        None => None,
    }
}

/// The heading a Markdown link points to: its percent-decoded text after
/// the first `#`, when there is any.
pub open spec fn spec_link_heading(target: TargetModel) -> Option<Seq<char>> {
    match target {
        TargetModel::Path(t) => match find_from(t, 0, seq!['#']) {
            Some(e) => if e + 1 < t.len() {
                Some(percent_decoded(t.skip(e + 1)))
            } else {
                None
            },
            None => None,
        },
        _ => None,
    }
}

/// The heading a link points to (see [`spec_link_heading`]).
pub fn link_heading(target: &NoteLinkTarget) -> (r: Option<String>)
    ensures
        match spec_link_heading(target@) {
            Some(h) => r matches Some(v) && v@ == h,
            None => r is None,
        },
{
    match target {
        NoteLinkTarget::Path(t) => {
            let tc = chars_of(t.as_str());
            match find_char_exec(tc.as_slice(), 0, '#') {
                Some(e) => if e + 1 < tc.len() {
                    let h = string_of(tc.as_slice(), e + 1, tc.len());
                    assert(h@ =~= tc@.skip(e + 1));
                    Some(percent_decode(h.as_str()))
                } else {
                    None
                },
                None => None,
            }
        },
        _ => None,
    }
}


/// Pushing components never leaves a `..` behind.
proof fn lemma_push_components_no_parent(acc: Seq<Seq<char>>, comps: Seq<Seq<char>>)
    requires
        !acc.contains(seq!['.', '.']),
    ensures
        push_components(acc, comps) matches Some(c) ==> !c.contains(seq!['.', '.']),
        push_components(acc, comps) matches Some(c) ==> c.len() <= acc.len() + comps.len(),
    decreases comps.len(),
{
    if comps.len() > 0 {
        if comps[0] == seq!['.'] {
            lemma_push_components_no_parent(acc, comps.drop_first());
        } else if comps[0] == seq!['.', '.'] {
            if acc.len() > 0 {
                assert forall|k: int| 0 <= k < acc.drop_last().len() implies acc.drop_last()[k] != seq!['.', '.'] by {
                    assert(acc.drop_last()[k] == acc[k]);
                }
                lemma_push_components_no_parent(acc.drop_last(), comps.drop_first());
            }
        } else {
            assert forall|k: int| 0 <= k < acc.push(comps[0]).len() implies acc.push(comps[0])[k] != seq![
                '.',
                '.',
            ] by {
                if k < acc.len() {
                    assert(acc.push(comps[0])[k] == acc[k]);
                }
            }
            lemma_push_components_no_parent(acc.push(comps[0]), comps.drop_first());
        }
    }
}

/// A link resolved against a folder never climbs above the note folder: the
/// resolved path holds no `..` when the folder holds none.
pub proof fn lemma_normalized_stays_inside(base: Seq<char>, path: Seq<char>)
    requires
        !components(base).contains(seq!['.', '.']),
    ensures
        spec_normalize_relative_path(base, path) is Some ==> !push_components(
            components(base),
            components(path),
        ).unwrap().contains(seq!['.', '.']),
{
    lemma_push_components_no_parent(components(base), components(path));
}

} // verus!
