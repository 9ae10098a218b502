//! Paths as `/`-separated text.
//!
//! A path is absolute when it starts with `/`; its components are the
//! pieces between separators, without empty pieces and without `.`.  Two
//! paths are equal when they agree on both.

use vstd::prelude::*;

use crate::text::{find_from, lemma_find_from, matches_at, find_char_exec, slice_to_vec, chars_eq, push_char, opt_int};

verus! {

pub open spec fn is_absolute(s: Seq<char>) -> bool {
    s.len() > 0 && s[0] == '/'
}

/// The components of `s[i..]`.
pub open spec fn components_from(s: Seq<char>, i: int) -> Seq<Seq<char>>
    decreases s.len() - i,
{
    if i < 0 || i >= s.len() {
        seq![]
    } else {
        let e = match find_from(s, i, seq!['/']) {
            Some(e) => e,
            None => s.len() as int,
        };
        proof {
            lemma_find_from(s, i, seq!['/']);
        }
        let piece = s.subrange(i, e);
        let here = if piece.len() > 0 && piece != seq!['.'] {
            seq![piece]
        } else {
            seq![]
        };
        here + if e < s.len() {
            components_from(s, e + 1)
        } else {
            seq![]
        }
    }
}

/// Whether `s` starts with a `.` component: `.` alone or followed by `/`.
pub open spec fn has_leading_cur_dir(s: Seq<char>) -> bool {
    s.len() > 0 && s[0] == '.' && (s.len() == 1 || s[1] == '/')
}

/// The `.` component that a path starting with one keeps (`Path::components`
/// keeps a leading `.`, and drops the others).
pub open spec fn cur_dir_prefix(s: Seq<char>) -> Seq<Seq<char>> {
    if has_leading_cur_dir(s) {
        seq![seq!['.']]
    } else {
        seq![]
    }
}

/// The components of path `s`: a leading `.`, if any, then the pieces
/// between separators that are neither empty nor `.`.
pub open spec fn components(s: Seq<char>) -> Seq<Seq<char>> {
    cur_dir_prefix(s) + components_from(s, 0)
}

/// Path equality: same absoluteness and same components.
pub open spec fn path_eq(a: Seq<char>, b: Seq<char>) -> bool {
    is_absolute(a) == is_absolute(b) && components(a) == components(b)
}

pub open spec fn comps_view(v: Seq<Vec<char>>) -> Seq<Seq<char>> {
    v.map_values(|x: Vec<char>| x@)
}

/// The components of `s`.
pub fn components_exec(s: &[char]) -> (r: Vec<Vec<char>>)
    ensures
        comps_view(r@) == components(s@),
{
    let mut r: Vec<Vec<char>> = Vec::new();
    if s.len() > 0 && s[0] == '.' && (s.len() == 1 || s[1] == '/') {
        let dot = vec!['.'];
        assert(dot@ =~= seq!['.']);
        r.push(dot);
        assert(comps_view(r@) =~= cur_dir_prefix(s@));
    } else {
        assert(comps_view(r@) =~= cur_dir_prefix(s@));
    }
    let mut i: usize = 0;
    while i < s.len()
        invariant
            i <= s.len(),
            components(s@) == comps_view(r@) + components_from(s@, i as int),
        decreases s.len() - i,
    {
        let ghost before = comps_view(r@);
        proof {
            lemma_find_from(s@, i as int, seq!['/']);
        }
        let e = match find_char_exec(s, i, '/') {
            Some(e) => e,
            None => s.len(),
        };
        let piece = slice_to_vec(s, i, e);
        let keep = piece.len() > 0 && !(piece.len() == 1 && piece[0] == '.');
        if keep {
            assert(piece@ != seq!['.']);
            r.push(piece);
            assert(comps_view(r@) =~= before + seq![r@.last()@]);
        } else {
            assert(piece@.len() == 0 || piece@ =~= seq!['.']);
            assert(comps_view(r@) =~= before);
        }
        if e < s.len() {
            i = e + 1;
        } else {
            i = s.len();
            assert(components_from(s@, i as int) == Seq::<Seq<char>>::empty());
        }
    }
    r
}

/// Whether two component lists are equal.
fn comps_eq(a: &Vec<Vec<char>>, b: &Vec<Vec<char>>) -> (r: bool)
    ensures
        r == (comps_view(a@) == comps_view(b@)),
{
    if a.len() != b.len() {
        assert(comps_view(a@).len() != comps_view(b@).len());
        return false;
    }
    let mut k: usize = 0;
    while k < a.len()
        invariant
            a.len() == b.len(),
            k <= a.len(),
            forall|m: int| 0 <= m < k ==> comps_view(a@)[m] == comps_view(b@)[m],
        decreases a.len() - k,
    {
        if !chars_eq(a[k].as_slice(), b[k].as_slice()) {
            assert(comps_view(a@)[k as int] != comps_view(b@)[k as int]);
            return false;
        }
        k = k + 1;
    }
    assert(comps_view(a@) =~= comps_view(b@));
    true
}

/// Whether two paths are equal.
pub fn path_eq_exec(a: &[char], b: &[char]) -> (r: bool)
    ensures
        r == path_eq(a@, b@),
{
    let abs_a = a.len() > 0 && a[0] == '/';
    let abs_b = b.len() > 0 && b[0] == '/';
    if abs_a != abs_b {
        return false;
    }
    comps_eq(&components_exec(a), &components_exec(b))
}

/// Components joined by `/` (a relative path).
pub open spec fn join_components(c: Seq<Seq<char>>) -> Seq<char>
    decreases c.len(),
{
    if c.len() == 0 {
        seq![]
    } else if c.len() == 1 {
        c[0]
    } else {
        join_components(c.drop_last()) + seq!['/'] + c.last()
    }
}

/// `path` relative to `root` when `root` is a prefix of it
/// (`Path::strip_prefix`): the remaining components joined by `/`.
pub open spec fn strip_prefix(path: Seq<char>, root: Seq<char>) -> Option<Seq<char>> {
    let p = components(path);
    let r = components(root);
    if is_absolute(path) == is_absolute(root) && r.len() <= p.len() && p.take(r.len() as int) == r {
        Some(join_components(p.skip(r.len() as int)))
    } else {
        None
    }
}

fn append_chars(s: &mut String, c: &Vec<char>)
    ensures
        final(s)@ == old(s)@ + c@,
{
    let mut k: usize = 0;
    let ghost start = s@;
    while k < c.len()
        invariant
            k <= c.len(),
            s@ == start + c@.take(k as int),
        decreases c.len() - k,
    {
        push_char(s, c[k]);
        k = k + 1;
        assert(s@ =~= start + c@.take(k as int));
    }
    assert(c@.take(c.len() as int) =~= c@);
}

/// The components `c[from..]` joined by `/`.
pub fn join_from(c: &Vec<Vec<char>>, from: usize) -> (r: String)
    requires
        from <= c.len(),
    ensures
        r@ == join_components(comps_view(c@).skip(from as int)),
{
    let mut r = String::new();
    let mut k = from;
    let ghost cv = comps_view(c@);
    assert(cv.skip(from as int).take(0) =~= Seq::<Seq<char>>::empty());
    while k < c.len()
        invariant
            from <= k <= c.len(),
            cv == comps_view(c@),
            r@ == join_components(cv.skip(from as int).take(k - from)),
        decreases c.len() - k,
    {
        let ghost t = cv.skip(from as int).take(k + 1 - from);
        assert(t.drop_last() =~= cv.skip(from as int).take(k - from));
        assert(t.last() == c@[k as int]@);
        if k > from {
            push_char(&mut r, '/');
        }
        append_chars(&mut r, &c[k]);
        k = k + 1;
    }
    assert(cv.skip(from as int).take(c.len() - from) =~= cv.skip(from as int));
    r
}

/// `path` relative to `root`, if `root` is a prefix of it.
pub fn strip_prefix_exec(path: &[char], root: &[char]) -> (r: Option<String>)
    ensures
        match strip_prefix(path@, root@) {
            Some(x) => r matches Some(v) && v@ == x,
            None => r is None,
        },
{
    let abs_p = path.len() > 0 && path[0] == '/';
    let abs_r = root.len() > 0 && root[0] == '/';
    let p = components_exec(path);
    let rc = components_exec(root);
    if abs_p != abs_r || rc.len() > p.len() {
        assert(comps_view(p@).len() == p.len() && comps_view(rc@).len() == rc.len());
        return None;
    }
    let mut k: usize = 0;
    while k < rc.len()
        invariant
            rc.len() <= p.len(),
            k <= rc.len(),
            comps_view(p@) == components(path@),
            comps_view(rc@) == components(root@),
            is_absolute(path@) == is_absolute(root@),
            forall|m: int| 0 <= m < k ==> comps_view(p@)[m] == comps_view(rc@)[m],
        decreases rc.len() - k,
    {
        if !chars_eq(p[k].as_slice(), rc[k].as_slice()) {
            assert(comps_view(p@)[k as int] == p@[k as int]@);
            assert(comps_view(rc@)[k as int] == rc@[k as int]@);
            assert(comps_view(p@).take(rc.len() as int)[k as int] != comps_view(rc@)[k as int]);
            assert(comps_view(p@).take(rc.len() as int) != comps_view(rc@));
            return None;
        }
        k = k + 1;
    }
    assert(comps_view(p@).take(rc.len() as int) =~= comps_view(rc@));
    Some(join_from(&p, rc.len()))
}

/// `base` joined with `rel` (`PathBuf::push`): `rel` when it is absolute,
/// else `base`, a separator unless `base` is empty or ends with one, and
/// `rel`.
pub open spec fn join_path(base: Seq<char>, rel: Seq<char>) -> Seq<char> {
    if is_absolute(rel) {
        rel
    } else if base.len() == 0 || base.last() == '/' {
        base + rel
    } else {
        base + seq!['/'] + rel
    }
}

fn append_slice(s: &mut String, c: &[char])
    ensures
        final(s)@ == old(s)@ + c@,
{
    let mut k: usize = 0;
    let ghost start = s@;
    while k < c.len()
        invariant
            k <= c.len(),
            s@ == start + c@.take(k as int),
        decreases c.len() - k,
    {
        push_char(s, c[k]);
        k = k + 1;
        assert(s@ =~= start + c@.take(k as int));
    }
    assert(c@.take(c.len() as int) =~= c@);
}

pub fn join_path_exec(base: &[char], rel: &[char]) -> (r: String)
    ensures
        r@ == join_path(base@, rel@),
{
    let mut r = String::new();
    if rel.len() > 0 && rel[0] == '/' {
        append_slice(&mut r, rel);
        assert(r@ =~= rel@);
        return r;
    }
    append_slice(&mut r, base);
    if !(base.len() == 0 || base[base.len() - 1] == '/') {
        push_char(&mut r, '/');
    }
    append_slice(&mut r, rel);
    r
}

/// The parent of `p` (`Path::parent`), or the empty path when it has none.
pub open spec fn parent_or_empty(p: Seq<char>) -> Seq<char> {
    let c = components(p);
    if c.len() == 0 {
        seq![]
    } else if is_absolute(p) {
        seq!['/'] + join_components(c.drop_last())
    } else {
        join_components(c.drop_last())
    }
}

pub fn parent_or_empty_exec(p: &[char]) -> (r: String)
    ensures
        r@ == parent_or_empty(p@),
{
    let c = components_exec(p);
    if c.len() == 0 {
        return String::new();
    }
    let mut r = String::new();
    if p.len() > 0 && p[0] == '/' {
        push_char(&mut r, '/');
    }
    let mut k: usize = 0;
    let ghost cv = comps_view(c@);
    let ghost start = r@;
    assert(cv.drop_last().take(0) =~= Seq::<Seq<char>>::empty());
    while k + 1 < c.len()
        invariant
            k + 1 <= c.len(),
            cv == comps_view(c@),
            r@ == start + join_components(cv.drop_last().take(k as int)),
        decreases c.len() - k,
    {
        let ghost t = cv.drop_last().take(k + 1);
        assert(t.drop_last() =~= cv.drop_last().take(k as int));
        assert(t.last() == c@[k as int]@);
        if k > 0 {
            push_char(&mut r, '/');
        }
        append_slice(&mut r, c[k].as_slice());
        k = k + 1;
        assert(r@ =~= start + join_components(cv.drop_last().take(k as int)));
    }
    assert(cv.drop_last().take(k as int) =~= cv.drop_last());
    r
}

/// The final component of `p` (`Path::file_name`), unless it is `..` or
/// `.`.
pub open spec fn file_name(p: Seq<char>) -> Option<Seq<char>> {
    let c = components(p);
    if c.len() == 0 || c.last() == seq!['.', '.'] || c.last() == seq!['.'] {
        None
    } else {
        Some(c.last())
    }
}

pub fn file_name_exec(p: &[char]) -> (r: Option<Vec<char>>)
    ensures
        match file_name(p@) {
            Some(n) => r matches Some(v) && v@ == n,
            None => r is None,
        },
{
    let mut c = components_exec(p);
    if c.len() == 0 {
        return None;
    }
    let ghost cv = comps_view(c@);
    let last = c.pop().unwrap();
    assert(last@ == cv.last());
    assert(['.', '.']@ =~= seq!['.', '.']);
    assert(['.']@ =~= seq!['.']);
    if chars_eq(last.as_slice(), &['.', '.']) || chars_eq(last.as_slice(), &['.']) {
        return None;
    }
    Some(last)
}

// ---------------------------------------------------------------------------
// Components of joined paths.

proof fn lemma_slash_at(s: Seq<char>, k: int)
    requires
        0 <= k < s.len(),
    ensures
        matches_at(s, k, seq!['/']) == (s[k] == '/'),
{
    if s[k] == '/' {
        assert(s.subrange(k, k + 1) =~= seq!['/']);
    } else {
        assert(s.subrange(k, k + 1)[0] == s[k]);
    }
}

/// Looking for `/` in `p + q` past `p` is looking for it in `q`.
proof fn lemma_find_slash_shift(p: Seq<char>, q: Seq<char>, j: int)
    requires
        0 <= j,
    ensures
        find_from(p + q, p.len() + j, seq!['/']) == match find_from(q, j, seq!['/']) {
            Some(x) => Some(x + p.len()),
            None => None,
        },
    decreases q.len() - j,
{
    let s = p + q;
    if j < q.len() {
        lemma_slash_at(s, p.len() + j);
        lemma_slash_at(q, j);
        assert(s[p.len() + j] == q[j]);
        lemma_find_slash_shift(p, q, j + 1);
        assert(p.len() + j + 1 == p.len() + (j + 1));
    }
}

/// The components of `p + q` past `p` are those of `q`.
proof fn lemma_components_shift(p: Seq<char>, q: Seq<char>, j: int)
    requires
        0 <= j,
    ensures
        components_from(p + q, p.len() + j) == components_from(q, j),
    decreases q.len() - j,
{
    let s = p + q;
    if j < q.len() {
        lemma_find_slash_shift(p, q, j);
        lemma_find_from(q, j, seq!['/']);
        let e = match find_from(q, j, seq!['/']) {
            Some(e) => e,
            None => q.len() as int,
        };
        assert(s.subrange(p.len() + j, p.len() + e) =~= q.subrange(j, e));
        if e < q.len() {
            lemma_components_shift(p, q, e + 1);
            assert(p.len() + e + 1 == p.len() + (e + 1));
        }
    }
}

/// Looking for `/` in `a + r` from inside `a` finds the one in `a`, if any.
proof fn lemma_find_slash_prefix(a: Seq<char>, r: Seq<char>, i: int)
    requires
        0 <= i <= a.len(),
    ensures
        find_from(a + r, i, seq!['/']) == match find_from(a, i, seq!['/']) {
            Some(x) => Some(x),
            None => find_from(a + r, a.len() as int, seq!['/']),
        },
    decreases a.len() - i,
{
    let s = a + r;
    if i < a.len() {
        lemma_slash_at(s, i);
        lemma_slash_at(a, i);
        assert(s[i] == a[i]);
        lemma_find_slash_prefix(a, r, i + 1);
    }
}

/// The components of `a + "/" + b` from inside `a` are those of `a` there,
/// then those of `b`.
proof fn lemma_components_split(a: Seq<char>, b: Seq<char>, i: int)
    requires
        0 <= i <= a.len(),
    ensures
        components_from(a + seq!['/'] + b, i) == components_from(a, i) + components_from(b, 0),
    decreases a.len() - i,
{
    let s = a + seq!['/'] + b;
    let p = a + seq!['/'];
    assert(s =~= p + b);
    lemma_components_shift(p, b, 0);
    assert(p.len() + 0 == a.len() + 1);
    lemma_slash_at(s, a.len() as int);
    assert(s[a.len() as int] == '/');
    assert(find_from(s, a.len() as int, seq!['/']) == Some(a.len() as int));
    if i == a.len() {
        assert(s.subrange(i, i) =~= Seq::<char>::empty());
        assert(components_from(a, i) =~= Seq::<Seq<char>>::empty());
        assert(components_from(a, i) + components_from(b, 0) =~= components_from(b, 0));
    } else {
        lemma_find_slash_prefix(a, seq!['/'] + b, i);
        assert(a + (seq!['/'] + b) =~= s);
        lemma_find_from(a, i, seq!['/']);
        match find_from(a, i, seq!['/']) {
            Some(e) => {
                assert(s.subrange(i, e) =~= a.subrange(i, e));
                lemma_components_split(a, b, e + 1);
                let here = if a.subrange(i, e).len() > 0 && a.subrange(i, e) != seq!['.'] {
                    seq![a.subrange(i, e)]
                } else {
                    seq![]
                };
                assert(here + components_from(a, e + 1) + components_from(b, 0) =~= here + (components_from(a, e + 1)
                    + components_from(b, 0)));
            },
            None => {
                assert(s.subrange(i, a.len() as int) =~= a.subrange(i, a.len() as int));
                let piece = a.subrange(i, a.len() as int);
                let here = if piece.len() > 0 && piece != seq!['.'] {
                    seq![piece]
                } else {
                    seq![]
                };
                assert(components_from(a, i) =~= here + Seq::<Seq<char>>::empty());
            },
        }
    }
}

/// The components of `base` joined with a relative `rel`: those of `base`,
/// then those of `rel` past a leading `.` (which `base` stands for).
pub proof fn lemma_join_path_components(base: Seq<char>, rel: Seq<char>)
    requires
        !is_absolute(rel),
        base.len() > 0,
    ensures
        components(join_path(base, rel)) == components(base) + components_from(rel, 0),
        is_absolute(join_path(base, rel)) == is_absolute(base),
{
    let j = join_path(base, rel);
    if base.last() == '/' {
        let a = base.drop_last();
        assert(base =~= a + seq!['/'] + Seq::<char>::empty());
        lemma_components_split(a, Seq::<char>::empty(), 0);
        assert(components_from(Seq::<char>::empty(), 0) =~= Seq::<Seq<char>>::empty());
        assert(components_from(a, 0) + Seq::<Seq<char>>::empty() =~= components_from(a, 0));
        assert(j =~= a + seq!['/'] + rel);
        lemma_components_split(a, rel, 0);
        assert(j[0] == base[0]);
        if base.len() > 1 {
            assert(j[1] == base[1]);
        }
        assert(has_leading_cur_dir(j) == has_leading_cur_dir(base));
    } else {
        assert(j =~= base + seq!['/'] + rel);
        lemma_components_split(base, rel, 0);
        assert(j[0] == base[0]);
        if base.len() > 1 {
            assert(j[1] == base[1]);
        } else {
            assert(j[1] == '/');
        }
        assert(has_leading_cur_dir(j) == has_leading_cur_dir(base));
    }
    assert(components(j) =~= components(base) + components_from(rel, 0));
}

/// The components of a relative path past a leading `.`.
pub open spec fn inner_components(rel: Seq<char>) -> Seq<Seq<char>> {
    components_from(rel, 0)
}

/// What a note path joined to its folder gives back when stripped of the
/// folder: the relative path with its components normalized (and without
/// a leading `.`, unless the folder is the empty path).
pub proof fn lemma_strip_prefix_of_join(root: Seq<char>, rel: Seq<char>)
    requires
        !is_absolute(rel),
    ensures
        strip_prefix(join_path(root, rel), root) == Some(
            join_components(
                if root.len() > 0 {
                    inner_components(rel)
                } else {
                    components(rel)
                },
            ),
        ),
{
    if root.len() == 0 {
        assert(join_path(root, rel) =~= rel);
        assert(components(root) =~= Seq::<Seq<char>>::empty());
        assert(components(rel).take(0) =~= Seq::<Seq<char>>::empty());
        assert(components(rel).skip(0) =~= components(rel));
    } else {
        lemma_join_path_components(root, rel);
        let p = components(join_path(root, rel));
        let r = components(root);
        assert(p.take(r.len() as int) =~= r);
        assert(p.skip(r.len() as int) =~= components_from(rel, 0));
    }
}

} // verus!
