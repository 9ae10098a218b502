//! Character-level text utilities shared by the parsers of this crate.
//!
//! Text is processed as a sequence of `char`s; offsets that leave the crate
//! are UTF-8 byte offsets, related to character positions by [`byte_len`].

use vstd::prelude::*;
use vstd::std_specs::iter::IteratorSpec;
use vstd::utf8::*;

verus! {

broadcast use vstd::string::group_string_axioms;

/// The texts of a sequence of strings.
pub open spec fn strings_view(v: Seq<String>) -> Seq<Seq<char>> {
    v.map_values(|s: String| s@)
}

/// Number of bytes in the UTF-8 encoding of a character sequence.
pub open spec fn byte_len(cs: Seq<char>) -> nat {
    encode_utf8(cs).len()
}

/// Number of bytes in the UTF-8 encoding of one character.
pub open spec fn char_byte_len(c: char) -> nat {
    encode_scalar(c as u32).len()
}

pub proof fn lemma_char_byte_len(c: char)
    ensures
        1 <= char_byte_len(c) <= 4,
        (c as u32) < 0x80 ==> char_byte_len(c) == 1,
{
}

pub proof fn lemma_byte_len_concat(a: Seq<char>, b: Seq<char>)
    ensures
        byte_len(a + b) == byte_len(a) + byte_len(b),
    decreases a.len(),
{
    if a.len() == 0 {
        assert(a + b =~= b);
    } else {
        assert((a + b).drop_first() =~= a.drop_first() + b);
        lemma_byte_len_concat(a.drop_first(), b);
    }
}

pub proof fn lemma_byte_len_push(a: Seq<char>, c: char)
    ensures
        byte_len(a.push(c)) == byte_len(a) + char_byte_len(c),
{
    lemma_byte_len_concat(a, seq![c]);
    assert(a.push(c) =~= a + seq![c]);
    assert(seq![c].drop_first() =~= Seq::<char>::empty());
    assert(encode_utf8(Seq::<char>::empty()) =~= Seq::<u8>::empty());
    assert(encode_utf8(seq![c]) =~= encode_scalar(c as u32) + encode_utf8(seq![c].drop_first()));
}

pub proof fn lemma_byte_len_take(s: Seq<char>, i: int)
    requires
        0 <= i < s.len(),
    ensures
        byte_len(s.take(i + 1)) == byte_len(s.take(i)) + char_byte_len(s[i]),
{
    assert(s.take(i + 1) =~= s.take(i).push(s[i]));
    lemma_byte_len_push(s.take(i), s[i]);
}

pub proof fn lemma_byte_len_monotone(s: Seq<char>, i: int, j: int)
    requires
        0 <= i <= j <= s.len(),
    ensures
        byte_len(s.take(i)) <= byte_len(s.take(j)),
{
    assert(s.take(j) =~= s.take(i) + s.subrange(i, j));
    lemma_byte_len_concat(s.take(i), s.subrange(i, j));
}

/// Byte offsets grow strictly with character positions.
pub proof fn lemma_byte_len_increasing(s: Seq<char>, i: int, j: int)
    requires
        0 <= i < j <= s.len(),
    ensures
        byte_len(s.take(i)) < byte_len(s.take(j)),
{
    lemma_byte_len_take(s, i);
    lemma_char_byte_len(s[i]);
    lemma_byte_len_monotone(s, i + 1, j);
}

/// The number of UTF-8 bytes of `c`, as `char::len_utf8` computes it.
pub fn char_width(c: char) -> (n: usize)
    ensures
        n == char_byte_len(c),
        1 <= n <= 4,
{
    let v = c as u32;
    proof {
        char_is_scalar(c);
    }
    if v <= 0x7F {
        1
    } else if v <= 0x7FF {
        2
    } else if v <= 0xFFFF {
        3
    } else {
        4
    }
}

/// The characters of a string slice, in order.
pub fn chars_of(s: &str) -> (v: Vec<char>)
    ensures
        v@ == s@,
{
    let mut v: Vec<char> = Vec::new();
    for c in iter: s.chars()
        invariant
            v@ == iter.seq().take(iter.index() as int),
    {
        v.push(c);
    }
    assert(v@ =~= s@);
    v
}


/// An optional position as a mathematical integer.
pub open spec fn opt_int(o: Option<usize>) -> Option<int> {
    match o {
        Some(x) => Some(x as int),
        None => None,
    }
}

/// `pat` occurs in `s` at position `i`.
pub open spec fn matches_at(s: Seq<char>, i: int, pat: Seq<char>) -> bool {
    0 <= i && i + pat.len() <= s.len() && s.subrange(i, i + pat.len()) == pat
}

/// The first position `j >= from` at which `pat` occurs in `s`.
pub open spec fn find_from(s: Seq<char>, from: int, pat: Seq<char>) -> Option<int>
    decreases s.len() - from,
{
    if from < 0 || from + pat.len() > s.len() {
        None
    } else if pat.len() == 0 || matches_at(s, from, pat) {
        Some(from)
    } else {
        find_from(s, from + 1, pat)
    }
}

pub proof fn lemma_find_from(s: Seq<char>, from: int, pat: Seq<char>)
    requires
        0 <= from,
    ensures
        find_from(s, from, pat) matches Some(j) ==> from <= j && j + pat.len() <= s.len()
            && matches_at(s, j, pat) && forall|k: int| from <= k < j ==> !matches_at(s, k, pat),
        find_from(s, from, pat) is None ==> forall|k: int|
            from <= k && k + pat.len() <= s.len() ==> !matches_at(s, k, pat),
    decreases s.len() - from,
{
    if from + pat.len() > s.len() {
    } else if pat.len() == 0 || matches_at(s, from, pat) {
        if pat.len() == 0 {
            assert(s.subrange(from, from) =~= pat);
        }
    } else {
        lemma_find_from(s, from + 1, pat);
    }
}

pub fn matches_at_exec(s: &[char], i: usize, pat: &[char]) -> (b: bool)
    ensures
        b == matches_at(s@, i as int, pat@),
{
    if i > s.len() || pat.len() > s.len() - i {
        return false;
    }
    let mut k: usize = 0;
    while k < pat.len()
        invariant
            i + pat.len() <= s.len(),
            k <= pat.len(),
            forall|m: int| 0 <= m < k ==> s@[i + m] == pat@[m],
        decreases pat.len() - k,
    {
        if s[i + k] != pat[k] {
            assert(s@.subrange(i as int, i + pat.len())[k as int] != pat@[k as int]);
            return false;
        }
        k = k + 1;
    }
    assert(s@.subrange(i as int, i + pat.len()) =~= pat@);
    true
}

/// Position of the first occurrence of `pat` in `s` at or after `from`.
pub fn find_exec(s: &[char], from: usize, pat: &[char]) -> (r: Option<usize>)
    ensures
        opt_int(r) == find_from(s@, from as int, pat@),
        r matches Some(j) ==> from <= j && j + pat.len() <= s.len(),
{
    if pat.len() == 0 {
        if from <= s.len() {
            return Some(from);
        }
        return None;
    }
    let mut j = from;
    proof {
        lemma_find_from(s@, from as int, pat@);
    }
    while j < s.len() && pat.len() <= s.len() - j
        invariant
            from <= j,
            pat.len() > 0,
            find_from(s@, from as int, pat@) == find_from(s@, j as int, pat@),
        decreases s.len() - j,
    {
        if matches_at_exec(s, j, pat) {
            return Some(j);
        }
        assert(find_from(s@, j as int, pat@) == find_from(s@, j + 1, pat@));
        j = j + 1;
    }
    None
}

/// Position of the first `c` in `s` at or after `from`.
pub fn find_char_exec(s: &[char], from: usize, c: char) -> (r: Option<usize>)
    ensures
        opt_int(r) == find_from(s@, from as int, seq![c]),
        r matches Some(j) ==> from <= j < s.len(),
{
    let pat = [c];
    assert(pat@ =~= seq![c]);
    find_exec(s, from, &pat)
}

/// Whether two character sequences are equal.
pub fn chars_eq(a: &[char], b: &[char]) -> (r: bool)
    ensures
        r == (a@ == b@),
{
    if a.len() != b.len() {
        return false;
    }
    let mut k: usize = 0;
    while k < a.len()
        invariant
            a.len() == b.len(),
            k <= a.len(),
            forall|m: int| 0 <= m < k ==> a@[m] == b@[m],
        decreases a.len() - k,
    {
        if a[k] != b[k] {
            return false;
        }
        k = k + 1;
    }
    assert(a@ =~= b@);
    true
}

/// A copy of `s[a..b]`.
pub fn slice_to_vec(s: &[char], a: usize, b: usize) -> (v: Vec<char>)
    requires
        a <= b <= s.len(),
    ensures
        v@ == s@.subrange(a as int, b as int),
{
    let mut v: Vec<char> = Vec::new();
    let mut k = a;
    while k < b
        invariant
            a <= k <= b <= s.len(),
            v@ == s@.subrange(a as int, k as int),
        decreases b - k,
    {
        v.push(s[k]);
        k = k + 1;
        assert(v@ =~= s@.subrange(a as int, k as int));
    }
    v
}

/// Appends one character to a `String` (`String::push`).
#[verifier::external_body]
pub(crate) fn push_char(s: &mut String, c: char)
    ensures
        final(s)@ == old(s)@.push(c),
{
    s.push(c);
}

/// A `String` holding the characters `s[a..b]`.
pub fn string_of(s: &[char], a: usize, b: usize) -> (r: String)
    requires
        a <= b <= s.len(),
    ensures
        r@ == s@.subrange(a as int, b as int),
{
    let mut r = String::new();
    let mut k = a;
    while k < b
        invariant
            a <= k <= b <= s.len(),
            r@ == s@.subrange(a as int, k as int),
        decreases b - k,
    {
        push_char(&mut r, s[k]);
        k = k + 1;
        assert(r@ =~= s@.subrange(a as int, k as int));
    }
    r
}

/// The Unicode `White_Space` property, which `char::is_whitespace` tests.
pub open spec fn is_white_space(c: char) -> bool {
    let v = c as u32;
    ||| 0x09 <= v <= 0x0D
    ||| v == 0x20
    ||| v == 0x85
    ||| v == 0xA0
    ||| v == 0x1680
    ||| 0x2000 <= v <= 0x200A
    ||| v == 0x2028
    ||| v == 0x2029
    ||| v == 0x202F
    ||| v == 0x205F
    ||| v == 0x3000
}

/// Whether `c` has the Unicode `White_Space` property (what
/// `char::is_whitespace` tests).
pub(crate) fn is_whitespace(c: char) -> (b: bool)
    ensures
        b == is_white_space(c),
{
    let v = c as u32;
    (0x09 <= v && v <= 0x0D) || v == 0x20 || v == 0x85 || v == 0xA0 || v == 0x1680 || (0x2000 <= v && v
        <= 0x200A) || v == 0x2028 || v == 0x2029 || v == 0x202F || v == 0x205F || v == 0x3000
}


pub open spec fn is_ascii_upper(c: char) -> bool {
    'A' <= c <= 'Z'
}

pub open spec fn is_ascii_alpha(c: char) -> bool {
    'A' <= c <= 'Z' || 'a' <= c <= 'z'
}

pub open spec fn is_ascii_digit(c: char) -> bool {
    '0' <= c <= '9'
}

pub open spec fn is_ascii_alnum(c: char) -> bool {
    is_ascii_alpha(c) || is_ascii_digit(c)
}

/// `char::to_ascii_lowercase`.
pub open spec fn ascii_lower(c: char) -> char {
    if is_ascii_upper(c) {
        ((c as u8) + 32) as char
    } else {
        c
    }
}

pub fn ascii_lower_exec(c: char) -> (r: char)
    ensures
        r == ascii_lower(c),
{
    if 'A' <= c && c <= 'Z' {
        ((c as u8) + 32u8) as char
    } else {
        c
    }
}

/// `str::eq_ignore_ascii_case` on character sequences.
pub open spec fn eq_ignore_ascii_case(a: Seq<char>, b: Seq<char>) -> bool {
    a.len() == b.len() && forall|k: int| 0 <= k < a.len() ==> ascii_lower(#[trigger] a[k]) == ascii_lower(b[k])
}

/// Compares `s[from..to]` with `lit`, ignoring ASCII case.
pub fn eq_ignore_ascii_case_exec(s: &[char], from: usize, to: usize, lit: &[char]) -> (b: bool)
    requires
        from <= to <= s.len(),
    ensures
        b == eq_ignore_ascii_case(s@.subrange(from as int, to as int), lit@),
{
    if to - from != lit.len() {
        return false;
    }
    let mut k: usize = 0;
    while k < lit.len()
        invariant
            to - from == lit.len(),
            from <= to <= s.len(),
            k <= lit.len(),
            forall|m: int| 0 <= m < k ==> ascii_lower(s@[from + m]) == ascii_lower(lit@[m]),
        decreases lit.len() - k,
    {
        if ascii_lower_exec(s[from + k]) != ascii_lower_exec(lit[k]) {
            assert(s@.subrange(from as int, to as int)[k as int] == s@[from + k]);
            return false;
        }
        k = k + 1;
    }
    assert forall|m: int| 0 <= m < lit.len() implies ascii_lower(
        #[trigger] s@.subrange(from as int, to as int)[m],
    ) == ascii_lower(lit@[m]) by {
        assert(s@.subrange(from as int, to as int)[m] == s@[from + m]);
    }
    true
}

/// The last position of `c` in `s`.
pub open spec fn rfind_char(s: Seq<char>, c: char) -> Option<int>
    decreases s.len(),
{
    if s.len() == 0 {
        None
    } else if s.last() == c {
        Some(s.len() - 1)
    } else {
        rfind_char(s.drop_last(), c)
    }
}

pub fn rfind_char_exec(s: &[char], to: usize, c: char) -> (r: Option<usize>)
    requires
        to <= s.len(),
    ensures
        opt_int(r) == rfind_char(s@.take(to as int), c),
        r matches Some(j) ==> j < to,
{
    let mut k = to;
    while k > 0
        invariant
            k <= to <= s.len(),
            rfind_char(s@.take(to as int), c) == rfind_char(s@.take(k as int), c),
        decreases k,
    {
        assert(s@.take(k as int).drop_last() =~= s@.take(k - 1));
        if s[k - 1] == c {
            return Some(k - 1);
        }
        k = k - 1;
    }
    None
}


/// What `char::to_lowercase` yields for `c` (Unicode case mapping of the
/// standard library's Unicode version).
pub uninterp spec fn char_lowercase(c: char) -> Seq<char>;

/// What `str::to_lowercase` returns for `s` (Unicode case mapping,
/// including the final-sigma rule).
pub uninterp spec fn str_lowercase(s: Seq<char>) -> Seq<char>;

/// Whether `c` is alphabetic or numeric in Unicode (`char::is_alphanumeric`).
pub uninterp spec fn char_is_alphanumeric(c: char) -> bool;

/// `char::to_lowercase`, collected.  For an ASCII character the result is
/// that character in ASCII lower case.
#[verifier::external_body]
pub(crate) fn lowercase_char(c: char) -> (v: Vec<char>)
    ensures
        v@ == char_lowercase(c),
        (c as u32) < 0x80 ==> v@ == seq![ascii_lower(c)],
{
    c.to_lowercase().collect()
}

/// `str::to_lowercase`.  For ASCII text the result is that text with each
/// letter in ASCII lower case.
#[verifier::external_body]
pub(crate) fn lowercase_str(s: &str) -> (r: String)
    ensures
        r@ == str_lowercase(s@),
        (forall|k: int| 0 <= k < s@.len() ==> (#[trigger] s@[k] as u32) < 0x80) ==> r@ == s@.map_values(
            |c: char| ascii_lower(c),
        ),
{
    s.to_lowercase()
}

/// `char::is_alphanumeric`.  For an ASCII character this is ASCII
/// letters and digits.
#[verifier::external_body]
pub(crate) fn is_alphanumeric(c: char) -> (b: bool)
    ensures
        b == char_is_alphanumeric(c),
        (c as u32) < 0x80 ==> (b == is_ascii_alnum(c)),
{
    c.is_alphanumeric()
}


/// The decimal value of the digits `d` (most significant first).
pub open spec fn digits_value(d: Seq<char>) -> int
    decreases d.len(),
{
    if d.len() == 0 {
        0
    } else {
        digits_value(d.drop_last()) * 10 + (d.last() as int - '0' as int)
    }
}

/// Every character of `d` is an ASCII digit.
pub open spec fn all_ascii_digits(d: Seq<char>) -> bool {
    forall|k: int| 0 <= k < d.len() ==> is_ascii_digit(#[trigger] d[k])
}

/// `s` after an optional leading `+` or `-`.
pub open spec fn unsigned_part(s: Seq<char>) -> Seq<char> {
    if s.len() > 0 && (s[0] == '-' || s[0] == '+') {
        s.skip(1)
    } else {
        s
    }
}

/// What `str::parse::<i64>` accepts: an optional `+` or `-`, then at least
/// one ASCII digit, and a value in range.
pub open spec fn spec_parse_i64(s: Seq<char>) -> Option<i64> {
    let neg = s.len() > 0 && s[0] == '-';
    let d = unsigned_part(s);
    let v = if neg { -digits_value(d) } else { digits_value(d) };
    if d.len() > 0 && all_ascii_digits(d) && i64::MIN <= v <= i64::MAX {
        Some(v as i64)
    } else {
        None
    }
}

proof fn lemma_digits_value_nonneg(d: Seq<char>)
    requires
        all_ascii_digits(d),
    ensures
        digits_value(d) >= 0,
    decreases d.len(),
{
    if d.len() > 0 {
        let e = d.drop_last();
        assert forall|k: int| 0 <= k < e.len() implies is_ascii_digit(#[trigger] e[k]) by {
            assert(e[k] == d[k]);
        }
        lemma_digits_value_nonneg(e);
        assert(is_ascii_digit(d[d.len() - 1]));
    }
}

/// A longer run of digits has at least the value of its prefix.
proof fn lemma_digits_value_prefix(d: Seq<char>, i: int)
    requires
        0 <= i <= d.len(),
        all_ascii_digits(d),
    ensures
        digits_value(d.take(i)) <= digits_value(d),
    decreases d.len() - i,
{
    if i < d.len() {
        lemma_digits_value_prefix(d, i + 1);
        let t = d.take(i + 1);
        assert(t.drop_last() =~= d.take(i));
        assert(t.last() == d[i]);
        assert(is_ascii_digit(d[i]));
        let p = d.take(i);
        assert forall|k: int| 0 <= k < p.len() implies is_ascii_digit(#[trigger] p[k]) by {
            assert(p[k] == d[k]);
        }
        lemma_digits_value_nonneg(p);
    } else {
        assert(d.take(i) =~= d);
    }
}

/// The value of the ASCII digits `d[from..]`, when there is at least one,
/// all of them are digits and the value is at most `limit`.
pub(crate) fn parse_digits(d: &[char], from: usize, limit: u64) -> (r: Option<u64>)
    requires
        from <= d.len(),
    ensures
        ({
            let t = d@.skip(from as int);
            if t.len() > 0 && all_ascii_digits(t) && digits_value(t) <= limit {
                r == Some(digits_value(t) as u64) && digits_value(t) >= 0
            } else {
                r is None
            }
        }),
{
    let ghost t = d@.skip(from as int);
    if from >= d.len() {
        return None;
    }
    let mut acc: u64 = 0;
    let mut k: usize = from;
    assert(t.take(0) =~= Seq::<char>::empty());
    while k < d.len()
        invariant
            from <= k <= d.len(),
            t == d@.skip(from as int),
            t.len() == d.len() - from,
            forall|j: int| 0 <= j < k - from ==> is_ascii_digit(#[trigger] t[j]),
            acc as int == digits_value(t.take(k - from)),
            acc <= limit,
        decreases d.len() - k,
    {
        let c = d[k];
        assert(t[k - from] == c);
        if !('0' <= c && c <= '9') {
            assert(!all_ascii_digits(t));
            return None;
        }
        let digit: u32 = (c as u32) - ('0' as u32);
        let next: u128 = (acc as u128) * 10 + (digit as u128);
        let ghost i = k - from;
        assert(t.take(i + 1).drop_last() =~= t.take(i));
        assert(t.take(i + 1).last() == c);
        assert(next == digits_value(t.take(i + 1)));
        if next > limit as u128 {
            proof {
                if all_ascii_digits(t) {
                    lemma_digits_value_prefix(t, i + 1);
                }
            }
            return None;
        }
        acc = next as u64;
        k = k + 1;
    }
    assert(t.take(t.len() as int) =~= t);
    assert(all_ascii_digits(t));
    Some(acc)
}

/// What `str::parse::<i64>` gives (see [`spec_parse_i64`]).
pub(crate) fn parse_i64(s: &str) -> (r: Option<i64>)
    ensures
        r == spec_parse_i64(s@),
{
    let c = chars_of(s);
    let neg = c.len() > 0 && c[0] == '-';
    let signed = c.len() > 0 && (c[0] == '-' || c[0] == '+');
    let from: usize = if signed {
        1
    } else {
        0
    };
    assert(s@.skip(0) =~= s@);
    let ghost d = unsigned_part(s@);
    assert(c@.skip(from as int) == d);
    let ghost dv = digits_value(d);
    let limit: u64 = if neg {
        0x8000_0000_0000_0000
    } else {
        0x7fff_ffff_ffff_ffff
    };
    match parse_digits(c.as_slice(), from, limit) {
        Some(m) => {
            if neg {
                if m == 0x8000_0000_0000_0000 {
                    Some(i64::MIN)
                } else {
                    Some(-(m as i64))
                }
            } else {
                Some(m as i64)
            }
        },
        None => {
            proof {
                if d.len() > 0 && all_ascii_digits(d) {
                    lemma_digits_value_nonneg(d);
                }
            }
            None
        },
    }
}

/// Character classes that the parsers trim or skip.
pub enum CharClass {
    /// `char::is_whitespace`.
    Whitespace,
    /// `' '` and `'\t'`.
    SpaceOrTab,
    /// `' '` only.
    Space,
    /// `'<'` and `'>'`.
    AngleBracket,
    /// `'#'`.
    Hash,
    /// ASCII digits.
    AsciiDigit,
    /// `'@'`.
    At,
    /// `'/'`.
    Slash,
}

pub open spec fn in_class(c: char, class: CharClass) -> bool {
    match class {
        CharClass::Whitespace => is_white_space(c),
        CharClass::SpaceOrTab => c == ' ' || c == '\t',
        CharClass::Space => c == ' ',
        CharClass::AngleBracket => c == '<' || c == '>',
        CharClass::Hash => c == '#',
        CharClass::AsciiDigit => '0' <= c <= '9',
        CharClass::At => c == '@',
        CharClass::Slash => c == '/',
    }
}

pub fn in_class_exec(c: char, class: &CharClass) -> (b: bool)
    ensures
        b == in_class(c, *class),
{
    match class {
        CharClass::Whitespace => is_whitespace(c),
        CharClass::SpaceOrTab => c == ' ' || c == '\t',
        CharClass::Space => c == ' ',
        CharClass::AngleBracket => c == '<' || c == '>',
        CharClass::Hash => c == '#',
        CharClass::AsciiDigit => '0' <= c && c <= '9',
        CharClass::At => c == '@',
        CharClass::Slash => c == '/',
    }
}

/// Number of characters of `class` at the start of `s[from..]`.
pub open spec fn leading(s: Seq<char>, from: int, class: CharClass) -> int
    decreases s.len() - from,
{
    if from < 0 || from >= s.len() || !in_class(s[from], class) {
        0
    } else {
        1 + leading(s, from + 1, class)
    }
}

/// Number of characters of `class` at the end of `s[..to]`.
pub open spec fn trailing(s: Seq<char>, to: int, class: CharClass) -> int
    decreases to,
{
    if to <= 0 || to > s.len() || !in_class(s[to - 1], class) {
        0
    } else {
        1 + trailing(s, to - 1, class)
    }
}

pub proof fn lemma_leading(s: Seq<char>, from: int, class: CharClass)
    requires
        0 <= from <= s.len(),
    ensures
        0 <= leading(s, from, class) <= s.len() - from,
        forall|k: int| from <= k < from + leading(s, from, class) ==> in_class(#[trigger] s[k], class),
        from + leading(s, from, class) < s.len() ==> !in_class(s[from + leading(s, from, class)], class),
    decreases s.len() - from,
{
    if from < s.len() && in_class(s[from], class) {
        lemma_leading(s, from + 1, class);
    }
}

pub proof fn lemma_trailing(s: Seq<char>, to: int, class: CharClass)
    requires
        0 <= to <= s.len(),
    ensures
        0 <= trailing(s, to, class) <= to,
    decreases to,
{
    if to > 0 && in_class(s[to - 1], class) {
        lemma_trailing(s, to - 1, class);
    }
}

/// Index of the first character at or after `from` that is not of `class`
/// (or `s.len()`).
pub fn skip_class(s: &[char], from: usize, class: &CharClass) -> (r: usize)
    requires
        from <= s.len(),
    ensures
        r == from + leading(s@, from as int, *class),
        from <= r <= s.len(),
{
    let mut r = from;
    proof {
        lemma_leading(s@, from as int, *class);
    }
    while r < s.len() && in_class_exec(s[r], class)
        invariant
            from <= r <= s.len(),
            from + leading(s@, from as int, *class) == r + leading(s@, r as int, *class),
        decreases s.len() - r,
    {
        r = r + 1;
    }
    r
}

/// Index just after the last character of `s[..to]` that is not of `class`
/// (or 0).
pub fn skip_class_back(s: &[char], to: usize, class: &CharClass) -> (r: usize)
    requires
        to <= s.len(),
    ensures
        r == to - trailing(s@, to as int, *class),
        r <= to,
{
    let mut r = to;
    proof {
        lemma_trailing(s@, to as int, *class);
    }
    while r > 0 && in_class_exec(s[r - 1], class)
        invariant
            r <= to <= s.len(),
            to - trailing(s@, to as int, *class) == r - trailing(s@, r as int, *class),
        decreases r,
    {
        r = r - 1;
    }
    r
}

/// `s` without its leading characters of `class` (`str::trim_start_matches`).
pub open spec fn trim_start(s: Seq<char>, class: CharClass) -> Seq<char> {
    s.skip(leading(s, 0, class))
}

/// `s` without its trailing characters of `class` (`str::trim_end_matches`).
pub open spec fn trim_end(s: Seq<char>, class: CharClass) -> Seq<char> {
    s.take(s.len() - trailing(s, s.len() as int, class))
}

/// `s` without leading and trailing characters of `class`
/// (`str::trim_matches`; `str::trim` for whitespace).
pub open spec fn trim(s: Seq<char>, class: CharClass) -> Seq<char> {
    trim_end(trim_start(s, class), class)
}

pub fn trim_start_vec(s: &[char], class: &CharClass) -> (r: Vec<char>)
    ensures
        r@ == trim_start(s@, *class),
{
    let a = skip_class(s, 0, class);
    let r = slice_to_vec(s, a, s.len());
    assert(r@ =~= s@.skip(a as int));
    r
}

pub fn trim_end_vec(s: &[char], class: &CharClass) -> (r: Vec<char>)
    ensures
        r@ == trim_end(s@, *class),
{
    let b = skip_class_back(s, s.len(), class);
    let r = slice_to_vec(s, 0, b);
    assert(r@ =~= s@.take(b as int));
    r
}

pub fn trim_vec(s: &[char], class: &CharClass) -> (r: Vec<char>)
    ensures
        r@ == trim(s@, *class),
{
    let t = trim_start_vec(s, class);
    trim_end_vec(t.as_slice(), class)
}


/// The ASCII digit for `d < 10`.
pub open spec fn digit_char(d: nat) -> char {
    seq!['0', '1', '2', '3', '4', '5', '6', '7', '8', '9'][d as int]
}

/// The decimal digits of `n`, without leading zeros (`"0"` for zero).
pub open spec fn decimal(n: nat) -> Seq<char>
    decreases n,
{
    if n < 10 {
        seq![digit_char(n)]
    } else {
        decimal(n / 10).push(digit_char(n % 10))
    }
}

/// The decimal digits of `n`, padded on the left with `'0'` to at least
/// `width` characters.
pub open spec fn padded_decimal(n: nat, width: nat) -> Seq<char> {
    let d = decimal(n);
    if d.len() < width {
        Seq::new((width - d.len()) as nat, |_i: int| '0') + d
    } else {
        d
    }
}

/// Appends the decimal digits of `n` to `s`.
pub fn push_decimal(s: &mut String, n: u64)
    ensures
        final(s)@ == old(s)@ + decimal(n as nat),
    decreases n,
{
    let digits = ['0', '1', '2', '3', '4', '5', '6', '7', '8', '9'];
    assert(digits@ =~= seq!['0', '1', '2', '3', '4', '5', '6', '7', '8', '9']);
    if n >= 10 {
        push_decimal(s, n / 10);
    }
    let d = (n % 10) as usize;
    push_char(s, digits[d]);
    assert(s@ =~= old(s)@ + decimal(n as nat));
}


/// `std::str::from_utf8`, copied into a `String`: `Some` exactly when
/// `bytes` is valid UTF-8, holding the characters that they encode.
#[verifier::external_body]
pub(crate) fn utf8_text(bytes: &[u8]) -> (r: Option<String>)
    ensures
        r is Some == valid_utf8(bytes@),
        r matches Some(t) ==> t@ == decode_utf8(bytes@),
{
    std::str::from_utf8(bytes).ok().map(|t| t.to_string())
}


/// The character position at byte offset `b` of `s` (its end when `b` lies
/// beyond it).
pub open spec fn byte_to_char(s: Seq<char>, b: int) -> int {
    if b >= byte_len(s) {
        s.len() as int
    } else {
        choose|k: int| 0 <= k <= s.len() && byte_len(s.take(k)) == b
    }
}

/// A selection end that falls between characters of `s` or beyond it.
pub open spec fn selection_end_ok(s: Seq<char>, b: int) -> bool {
    b >= byte_len(s) || exists|k: int| 0 <= k <= s.len() && byte_len(s.take(k)) == b
}

/// The character position of byte offset `b`, from the table of byte
/// offsets of the characters of `s`.
pub fn char_at_byte(s: &[char], table: &Vec<usize>, b: usize) -> (k: usize)
    requires
        table.len() == s.len() + 1,
        forall|i: int| 0 <= i <= s.len() ==> #[trigger] table@[i] == byte_len(s@.take(i)),
        selection_end_ok(s@, b as int),
    ensures
        k == byte_to_char(s@, b as int),
{
    assert(s@.take(s.len() as int) =~= s@);
    if b >= table[s.len()] {
        return s.len();
    }
    let mut k: usize = 0;
    while k < s.len() && table[k] != b
        invariant
            k <= s.len(),
            table.len() == s.len() + 1,
            forall|i: int| 0 <= i <= s.len() ==> #[trigger] table@[i] == byte_len(s@.take(i)),
            forall|i: int| 0 <= i < k ==> byte_len(s@.take(i)) != b,
        decreases s.len() - k,
    {
        k = k + 1;
    }
    proof {
        let w = choose|i: int| 0 <= i <= s.len() && byte_len(s@.take(i)) == b;
        assert(byte_len(s@.take(w)) == b);
        if w < k {
        } else if w > k {
            if k < s.len() {
                lemma_byte_len_increasing(s@, k as int, w);
            } else {
                assert(w <= s.len());
            }
        }
        assert(w == k);
    }
    k
}

} // verus!
