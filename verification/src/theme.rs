//! The color theme: its default colors, and colors written as text.

use vstd::prelude::*;

use crate::styled::Color;
use crate::text::{
    ascii_lower, ascii_lower_exec, byte_len, char_byte_len, char_width, chars_eq, chars_of, decimal,
    lemma_byte_len_monotone, lemma_byte_len_take, lemma_char_byte_len, push_char, push_decimal, slice_to_vec,
};

verus! {

broadcast use vstd::string::group_string_axioms;

/// The colors of the user interface.
#[derive(Clone, Copy, Debug, PartialEq, Eq, Structural)]
pub struct Theme {
    pub background: Color,
    pub foreground: Color,
    pub muted: Color,
    pub accent: Color,
    pub accent_foreground: Color,
    pub success: Color,
    pub warning: Color,
    pub error: Color,
    pub heading: Color,
    pub quote: Color,
    pub code: Color,
    pub link: Color,
    pub fence: Color,
    pub field_background: Color,
}

/// The theme used when none is configured.
pub open spec fn default_theme() -> Theme {
    Theme {
        background: Color::Reset,
        foreground: Color::Reset,
        muted: Color::DarkGray,
        accent: Color::Cyan,
        accent_foreground: Color::Black,
        success: Color::Green,
        warning: Color::Yellow,
        error: Color::Red,
        heading: Color::Cyan,
        quote: Color::Blue,
        code: Color::Green,
        link: Color::LightBlue,
        fence: Color::Magenta,
        field_background: Color::White,
    }
}

impl Default for Theme {
    fn default() -> (r: Theme)
        ensures
            r == default_theme(),
    {
        Theme {
            background: Color::Reset,
            foreground: Color::Reset,
            muted: Color::DarkGray,
            accent: Color::Cyan,
            accent_foreground: Color::Black,
            success: Color::Green,
            warning: Color::Yellow,
            error: Color::Red,
            heading: Color::Cyan,
            quote: Color::Blue,
            code: Color::Green,
            link: Color::LightBlue,
            fence: Color::Magenta,
            field_background: Color::White,
        }
    }
}

/// The color a (lower case) color name stands for.
pub open spec fn named_color(n: Seq<char>) -> Option<Color> {
    if n == "reset"@ {
        Some(Color::Reset)
    } else if n == "black"@ {
        Some(Color::Black)
    } else if n == "red"@ {
        Some(Color::Red)
    } else if n == "green"@ {
        Some(Color::Green)
    } else if n == "yellow"@ {
        Some(Color::Yellow)
    } else if n == "blue"@ {
        Some(Color::Blue)
    } else if n == "magenta"@ {
        Some(Color::Magenta)
    } else if n == "cyan"@ {
        Some(Color::Cyan)
    } else if n == "gray"@ || n == "grey"@ {
        Some(Color::Gray)
    } else if n == "dark-gray"@ || n == "dark-grey"@ {
        Some(Color::DarkGray)
    } else if n == "light-red"@ {
        Some(Color::LightRed)
    } else if n == "light-green"@ {
        Some(Color::LightGreen)
    } else if n == "light-yellow"@ {
        Some(Color::LightYellow)
    } else if n == "light-blue"@ {
        Some(Color::LightBlue)
    } else if n == "light-magenta"@ {
        Some(Color::LightMagenta)
    } else if n == "light-cyan"@ {
        Some(Color::LightCyan)
    } else if n == "white"@ {
        Some(Color::White)
    } else {
        None
    }
}

/// The value of a hexadecimal digit.
pub open spec fn hex_value(c: char) -> Option<u8> {
    if '0' <= c <= '9' {
        Some((c as u32 - '0' as u32) as u8)
    } else if 'a' <= c <= 'f' {
        Some((c as u32 - 'a' as u32 + 10) as u8)
    } else if 'A' <= c <= 'F' {
        Some((c as u32 - 'A' as u32 + 10) as u8)
    } else {
        None
    }
}

/// `u8::from_str_radix` with radix 16 on the two characters `a`, `b`: two
/// hexadecimal digits, or `+` and one digit.
pub open spec fn hex_pair(a: char, b: char) -> Option<u8> {
    if a == '+' {
        hex_value(b)
    } else {
        match (hex_value(a), hex_value(b)) {
            (Some(x), Some(y)) => Some((x * 16 + y) as u8),
            _ => None,
        }
    }
}

pub open spec fn lower_seq(s: Seq<char>) -> Seq<char> {
    s.map_values(|c: char| ascii_lower(c))
}

/// `#rrggbb` with six hexadecimal digits: the color with those components.
pub open spec fn hex_color(h: Seq<char>) -> Option<Color> {
    if h.len() == 6 {
        match (hex_pair(h[0], h[1]), hex_pair(h[2], h[3]), hex_pair(h[4], h[5])) {
            (Some(r), Some(g), Some(b)) => Some(Color::Rgb(r, g, b)),
            _ => None,
        }
    } else {
        None
    }
}

/// The text after `#` of a color value that is no name, in lower case.
pub open spec fn hex_part(value: Seq<char>) -> Option<Seq<char>> {
    let n = lower_seq(value);
    if named_color(n) is None && n.len() > 0 && n[0] == '#' {
        Some(n.skip(1))
    } else {
        None
    }
}

/// Whether byte offset `b` of the UTF-8 encoding of `s` falls between
/// characters.
pub open spec fn is_char_boundary(s: Seq<char>, b: int) -> bool {
    exists|k: int| 0 <= k <= s.len() && byte_len(s.take(k)) == b
}

/// A color value that reading it splits within a character: six bytes
/// after `#` whose second or fourth byte ends inside a character.
pub open spec fn splits_a_character(value: Seq<char>) -> bool {
    match hex_part(value) {
        Some(h) => byte_len(h) == 6 && !(is_char_boundary(h, 2) && is_char_boundary(h, 4)),
        None => false,
    }
}

/// The color a theme value names, ignoring ASCII case: a color name
/// (`gray` and `grey` both accepted), or `#` and six hexadecimal digits.
pub open spec fn spec_parse_color(value: Seq<char>) -> Option<Color> {
    let n = lower_seq(value);
    match named_color(n) {
        Some(c) => Some(c),
        None => match hex_part(value) {
            Some(h) => if byte_len(h) == 6 {
                hex_color(h)
            } else {
                None
            },
            None => None,
        },
    }
}

fn is_name(n: &[char], name: &str) -> (b: bool)
    ensures
        b == (n@ == name@),
{
    let v = chars_of(name);
    chars_eq(n, v.as_slice())
}

fn named_color_exec(n: &[char]) -> (r: Option<Color>)
    ensures
        r == named_color(n@),
{
    if is_name(n, "reset") {
        Some(Color::Reset)
    } else if is_name(n, "black") {
        Some(Color::Black)
    } else if is_name(n, "red") {
        Some(Color::Red)
    } else if is_name(n, "green") {
        Some(Color::Green)
    } else if is_name(n, "yellow") {
        Some(Color::Yellow)
    } else if is_name(n, "blue") {
        Some(Color::Blue)
    } else if is_name(n, "magenta") {
        Some(Color::Magenta)
    } else if is_name(n, "cyan") {
        Some(Color::Cyan)
    } else if is_name(n, "gray") || is_name(n, "grey") {
        Some(Color::Gray)
    } else if is_name(n, "dark-gray") || is_name(n, "dark-grey") {
        Some(Color::DarkGray)
    } else if is_name(n, "light-red") {
        Some(Color::LightRed)
    } else if is_name(n, "light-green") {
        Some(Color::LightGreen)
    } else if is_name(n, "light-yellow") {
        Some(Color::LightYellow)
    } else if is_name(n, "light-blue") {
        Some(Color::LightBlue)
    } else if is_name(n, "light-magenta") {
        Some(Color::LightMagenta)
    } else if is_name(n, "light-cyan") {
        Some(Color::LightCyan)
    } else if is_name(n, "white") {
        Some(Color::White)
    } else {
        None
    }
}

fn hex_value_exec(c: char) -> (r: Option<u8>)
    ensures
        r == hex_value(c),
{
    if '0' <= c && c <= '9' {
        Some(((c as u32) - ('0' as u32)) as u8)
    } else if 'a' <= c && c <= 'f' {
        Some(((c as u32) - ('a' as u32) + 10) as u8)
    } else if 'A' <= c && c <= 'F' {
        Some(((c as u32) - ('A' as u32) + 10) as u8)
    } else {
        None
    }
}

fn hex_pair_exec(a: char, b: char) -> (r: Option<u8>)
    ensures
        r == hex_pair(a, b),
{
    if a == '+' {
        hex_value_exec(b)
    } else {
        match (hex_value_exec(a), hex_value_exec(b)) {
            (Some(x), Some(y)) => Some(x * 16 + y),
            _ => None,
        }
    }
}

/// `value` in ASCII lower case.
fn lower_chars(value: &str) -> (r: Vec<char>)
    ensures
        r@ == lower_seq(value@),
{
    let v = chars_of(value);
    let mut n: Vec<char> = Vec::new();
    let mut k: usize = 0;
    while k < v.len()
        invariant
            k <= v.len(),
            v@ == value@,
            n@ == lower_seq(v@.take(k as int)),
        decreases v.len() - k,
    {
        n.push(ascii_lower_exec(v[k]));
        k = k + 1;
        assert(n@ =~= lower_seq(v@.take(k as int)));
    }
    assert(v@.take(v.len() as int) =~= v@);
    n
}

/// Whether the UTF-8 encoding of `h` has six bytes, and whether it does and
/// its byte offsets 2 and 4 do not both fall between characters.
fn hex_bytes(h: &[char]) -> (r: (bool, bool))
    ensures
        r.0 == (byte_len(h@) == 6),
        r.1 == (byte_len(h@) == 6 && !(is_char_boundary(h@, 2) && is_char_boundary(h@, 4))),
{
    let mut acc: usize = 0;
    let mut found2 = false;
    let mut found4 = false;
    let mut k: usize = 0;
    assert(h@.take(0) =~= Seq::<char>::empty());
    assert(vstd::utf8::encode_utf8(Seq::<char>::empty()) =~= Seq::<u8>::empty());
    while k < h.len() && acc <= 6
        invariant
            k <= h.len(),
            acc == byte_len(h@.take(k as int)),
            found2 == exists|j: int| 0 <= j <= k && byte_len(h@.take(j)) == 2,
            found4 == exists|j: int| 0 <= j <= k && byte_len(h@.take(j)) == 4,
        decreases h.len() - k,
    {
        proof {
            lemma_byte_len_take(h@, k as int);
        }
        acc = acc + char_width(h[k]);
        k = k + 1;
        if acc == 2 {
            found2 = true;
        }
        if acc == 4 {
            found4 = true;
        }
        proof {
            if found2 {
                if acc == 2 {
                    assert(byte_len(h@.take(k as int)) == 2);
                }
            } else {
                assert forall|j: int| 0 <= j <= k implies byte_len(h@.take(j)) != 2 by {
                    if j == k {
                    }
                }
            }
            if found4 {
                if acc == 4 {
                    assert(byte_len(h@.take(k as int)) == 4);
                }
            } else {
                assert forall|j: int| 0 <= j <= k implies byte_len(h@.take(j)) != 4 by {
                    if j == k {
                    }
                }
            }
        }
    }
    assert(h@.take(h.len() as int) =~= h@);
    if k < h.len() {
        proof {
            lemma_byte_len_monotone(h@, k as int, h.len() as int);
        }
        return (false, false);
    }
    (acc == 6, acc == 6 && !(found2 && found4))
}

/// Whether reading `value` as a color would split a character
/// (see [`splits_a_character`]).
pub fn color_value_splits_a_character(value: &str) -> (b: bool)
    ensures
        b == splits_a_character(value@),
{
    let n = lower_chars(value);
    if named_color_exec(n.as_slice()).is_some() || n.len() == 0 || n[0] != '#' {
        return false;
    }
    let h = slice_to_vec(n.as_slice(), 1, n.len());
    assert(h@ =~= n@.skip(1));
    let (_, split) = hex_bytes(h.as_slice());
    split
}

/// The color a theme value names (see [`spec_parse_color`]).
pub fn parse_color(value: &str) -> (r: Option<Color>)
    requires
        !splits_a_character(value@),
    ensures
        r == spec_parse_color(value@),
{
    let n = lower_chars(value);
    match named_color_exec(n.as_slice()) {
        Some(c) => return Some(c),
        None => {},
    }
    if n.len() == 0 || n[0] != '#' {
        return None;
    }
    let h = slice_to_vec(n.as_slice(), 1, n.len());
    assert(h@ =~= n@.skip(1));
    let (six, _) = hex_bytes(h.as_slice());
    if !six {
        return None;
    }
    if h.len() != 6 {
        return None;
    }
    match (hex_pair_exec(h[0], h[1]), hex_pair_exec(h[2], h[3]), hex_pair_exec(h[4], h[5])) {
        (Some(r), Some(g), Some(b)) => Some(Color::Rgb(r, g, b)),
        _ => None,
    }
}


/// The lower case hexadecimal digit for `d < 16`.
pub open spec fn hex_digit_char(d: nat) -> char {
    seq!['0', '1', '2', '3', '4', '5', '6', '7', '8', '9', 'a', 'b', 'c', 'd', 'e', 'f'][d as int]
}

/// Two lower case hexadecimal digits for `x`.
pub open spec fn hex2(x: u8) -> Seq<char> {
    seq![hex_digit_char((x / 16) as nat), hex_digit_char((x % 16) as nat)]
}

/// How a theme file writes a color: its name, `#rrggbb`, or `indexed-N`.
pub open spec fn spec_color_name(c: Color) -> Seq<char> {
    match c {
        Color::Reset => "reset"@,
        Color::Black => "black"@,
        Color::Red => "red"@,
        Color::Green => "green"@,
        Color::Yellow => "yellow"@,
        Color::Blue => "blue"@,
        Color::Magenta => "magenta"@,
        Color::Cyan => "cyan"@,
        Color::Gray => "gray"@,
        Color::DarkGray => "dark-gray"@,
        Color::LightRed => "light-red"@,
        Color::LightGreen => "light-green"@,
        Color::LightYellow => "light-yellow"@,
        Color::LightBlue => "light-blue"@,
        Color::LightMagenta => "light-magenta"@,
        Color::LightCyan => "light-cyan"@,
        Color::White => "white"@,
        Color::Rgb(r, g, b) => seq!['#'] + hex2(r) + hex2(g) + hex2(b),
        Color::Indexed(i) => "indexed-"@ + decimal(i as nat),
    }
}

fn push_hex2(s: &mut String, x: u8)
    ensures
        final(s)@ == old(s)@ + hex2(x),
{
    let digits = ['0', '1', '2', '3', '4', '5', '6', '7', '8', '9', 'a', 'b', 'c', 'd', 'e', 'f'];
    assert(digits@ =~= seq!['0', '1', '2', '3', '4', '5', '6', '7', '8', '9', 'a', 'b', 'c', 'd', 'e', 'f']);
    push_char(s, digits[(x / 16) as usize]);
    push_char(s, digits[(x % 16) as usize]);
    assert(s@ =~= old(s)@ + hex2(x));
}

/// How a theme file writes the color `c` (see [`spec_color_name`]).
pub fn color_name(c: Color) -> (r: String)
    ensures
        r@ == spec_color_name(c),
{
    match c {
        Color::Reset => "reset".to_owned(),
        Color::Black => "black".to_owned(),
        Color::Red => "red".to_owned(),
        Color::Green => "green".to_owned(),
        Color::Yellow => "yellow".to_owned(),
        Color::Blue => "blue".to_owned(),
        Color::Magenta => "magenta".to_owned(),
        Color::Cyan => "cyan".to_owned(),
        Color::Gray => "gray".to_owned(),
        Color::DarkGray => "dark-gray".to_owned(),
        Color::LightRed => "light-red".to_owned(),
        Color::LightGreen => "light-green".to_owned(),
        Color::LightYellow => "light-yellow".to_owned(),
        Color::LightBlue => "light-blue".to_owned(),
        Color::LightMagenta => "light-magenta".to_owned(),
        Color::LightCyan => "light-cyan".to_owned(),
        Color::White => "white".to_owned(),
        Color::Rgb(r, g, b) => {
            let mut s = String::new();
            push_char(&mut s, '#');
            push_hex2(&mut s, r);
            push_hex2(&mut s, g);
            push_hex2(&mut s, b);
            assert(s@ =~= seq!['#'] + hex2(r) + hex2(g) + hex2(b));
            s
        },
        Color::Indexed(i) => {
            let mut s = "indexed-".to_owned();
            push_decimal(&mut s, i as u64);
            s
        },
    }
}

proof fn lemma_hex2_reads_back(x: u8)
    ensures
        hex_pair(hex2(x)[0], hex2(x)[1]) == Some(x),
        '0' <= hex2(x)[0] <= 'f' && '0' <= hex2(x)[1] <= 'f',
        hex2(x)[0] != '#' && hex2(x)[1] != '#',
        ascii_lower(hex2(x)[0]) == hex2(x)[0] && ascii_lower(hex2(x)[1]) == hex2(x)[1],
{
    let hi = (x / 16) as nat;
    let lo = (x % 16) as nat;
    assert(hi < 16 && lo < 16);
    assert(forall|d: nat| d < 16 ==> hex_value(#[trigger] hex_digit_char(d)) == Some(d as u8)) by {
        assert forall|d: nat| d < 16 implies hex_value(#[trigger] hex_digit_char(d)) == Some(d as u8) by {
            if d < 10 {
                assert(hex_digit_char(d) == ('0' as u32 + d) as char) by {
                    reveal_with_fuel(hex_digit_char, 1);
                }
            }
            assert(d == 0 || d == 1 || d == 2 || d == 3 || d == 4 || d == 5 || d == 6 || d == 7 || d == 8 || d == 9
                || d == 10 || d == 11 || d == 12 || d == 13 || d == 14 || d == 15);
        }
    }
    assert(hex_value(hex_digit_char(hi)) == Some(hi as u8));
    assert(hex_value(hex_digit_char(lo)) == Some(lo as u8));
    assert(hi * 16 + lo == x);
}

/// Reading back what [`color_name`] writes gives the same color, for every
/// color but the indexed ones (which no theme value names).
pub proof fn lemma_color_name_round_trip(c: Color)
    requires
        !(c is Indexed),
    ensures
        !splits_a_character(spec_color_name(c)),
        spec_parse_color(spec_color_name(c)) == Some(c),
{
    reveal_strlit("reset");
    reveal_strlit("black");
    reveal_strlit("red");
    reveal_strlit("green");
    reveal_strlit("yellow");
    reveal_strlit("blue");
    reveal_strlit("magenta");
    reveal_strlit("cyan");
    reveal_strlit("gray");
    reveal_strlit("grey");
    reveal_strlit("dark-gray");
    reveal_strlit("dark-grey");
    reveal_strlit("light-red");
    reveal_strlit("light-green");
    reveal_strlit("light-yellow");
    reveal_strlit("light-blue");
    reveal_strlit("light-magenta");
    reveal_strlit("light-cyan");
    reveal_strlit("white");
    let n = spec_color_name(c);
    match c {
        Color::Rgb(r, g, b) => {
            lemma_hex2_reads_back(r);
            lemma_hex2_reads_back(g);
            lemma_hex2_reads_back(b);
            let h = hex2(r) + hex2(g) + hex2(b);
            assert(n =~= seq!['#'] + h);
            assert(lower_seq(n) =~= n);
            assert(n.skip(1) =~= h);
            assert(vstd::utf8::is_ascii_chars(h));
            assert(vstd::utf8::is_ascii_chars(h.take(2)));
            assert(vstd::utf8::is_ascii_chars(h.take(4)));
            vstd::utf8::is_ascii_chars_encode_utf8(h);
            vstd::utf8::is_ascii_chars_encode_utf8(h.take(2));
            vstd::utf8::is_ascii_chars_encode_utf8(h.take(4));
            assert(is_char_boundary(h, 2));
            assert(is_char_boundary(h, 4));
            assert(n[0] == '#');
            assert(named_color(n) is None);
            assert(hex_part(n) == Some(h));
            assert(byte_len(h) == 6);
            assert(h[0] == hex2(r)[0] && h[1] == hex2(r)[1]);
            assert(h[2] == hex2(g)[0] && h[3] == hex2(g)[1]);
            assert(h[4] == hex2(b)[0] && h[5] == hex2(b)[1]);
            assert(hex_color(h) == Some(c));
            assert(lower_seq(n) == n);
            assert(named_color(lower_seq(n)) is None);
            assert(spec_parse_color(n) == Some(c));
        },
        Color::Reset => {
            assert(n =~= "reset"@);
            assert(lower_seq(n) =~= n);

        },
        Color::Black => {
            assert(n =~= "black"@);
            assert(lower_seq(n) =~= n);
            assert("reset"@[0] != n[0]);
        },
        Color::Red => {
            assert(n =~= "red"@);
            assert(lower_seq(n) =~= n);
            assert("reset"@.len() != n.len());
            assert("black"@.len() != n.len());
        },
        Color::Green => {
            assert(n =~= "green"@);
            assert(lower_seq(n) =~= n);
            assert("reset"@[0] != n[0]);
            assert("black"@[0] != n[0]);
            assert("red"@.len() != n.len());
        },
        Color::Yellow => {
            assert(n =~= "yellow"@);
            assert(lower_seq(n) =~= n);
            assert("reset"@.len() != n.len());
            assert("black"@.len() != n.len());
            assert("red"@.len() != n.len());
            assert("green"@.len() != n.len());
        },
        Color::Blue => {
            assert(n =~= "blue"@);
            assert(lower_seq(n) =~= n);
            assert("reset"@.len() != n.len());
            assert("black"@.len() != n.len());
            assert("red"@.len() != n.len());
            assert("green"@.len() != n.len());
            assert("yellow"@.len() != n.len());
        },
        Color::Magenta => {
            assert(n =~= "magenta"@);
            assert(lower_seq(n) =~= n);
            assert("reset"@.len() != n.len());
            assert("black"@.len() != n.len());
            assert("red"@.len() != n.len());
            assert("green"@.len() != n.len());
            assert("yellow"@.len() != n.len());
            assert("blue"@.len() != n.len());
        },
        Color::Cyan => {
            assert(n =~= "cyan"@);
            assert(lower_seq(n) =~= n);
            assert("reset"@.len() != n.len());
            assert("black"@.len() != n.len());
            assert("red"@.len() != n.len());
            assert("green"@.len() != n.len());
            assert("yellow"@.len() != n.len());
            assert("blue"@[0] != n[0]);
            assert("magenta"@.len() != n.len());
        },
        Color::Gray => {
            assert(n =~= "gray"@);
            assert(lower_seq(n) =~= n);
            assert("reset"@.len() != n.len());
            assert("black"@.len() != n.len());
            assert("red"@.len() != n.len());
            assert("green"@.len() != n.len());
            assert("yellow"@.len() != n.len());
            assert("blue"@[0] != n[0]);
            assert("magenta"@.len() != n.len());
            assert("cyan"@[0] != n[0]);
        },
        Color::DarkGray => {
            assert(n =~= "dark-gray"@);
            assert(lower_seq(n) =~= n);
            assert("reset"@.len() != n.len());
            assert("black"@.len() != n.len());
            assert("red"@.len() != n.len());
            assert("green"@.len() != n.len());
            assert("yellow"@.len() != n.len());
            assert("blue"@.len() != n.len());
            assert("magenta"@.len() != n.len());
            assert("cyan"@.len() != n.len());
            assert("gray"@.len() != n.len());
            assert("grey"@.len() != n.len());
        },
        Color::LightRed => {
            assert(n =~= "light-red"@);
            assert(lower_seq(n) =~= n);
            assert("reset"@.len() != n.len());
            assert("black"@.len() != n.len());
            assert("red"@.len() != n.len());
            assert("green"@.len() != n.len());
            assert("yellow"@.len() != n.len());
            assert("blue"@.len() != n.len());
            assert("magenta"@.len() != n.len());
            assert("cyan"@.len() != n.len());
            assert("gray"@.len() != n.len());
            assert("grey"@.len() != n.len());
            assert("dark-gray"@[0] != n[0]);
            assert("dark-grey"@[0] != n[0]);
        },
        Color::LightGreen => {
            assert(n =~= "light-green"@);
            assert(lower_seq(n) =~= n);
            assert("reset"@.len() != n.len());
            assert("black"@.len() != n.len());
            assert("red"@.len() != n.len());
            assert("green"@.len() != n.len());
            assert("yellow"@.len() != n.len());
            assert("blue"@.len() != n.len());
            assert("magenta"@.len() != n.len());
            assert("cyan"@.len() != n.len());
            assert("gray"@.len() != n.len());
            assert("grey"@.len() != n.len());
            assert("dark-gray"@.len() != n.len());
            assert("dark-grey"@.len() != n.len());
            assert("light-red"@.len() != n.len());
        },
        Color::LightYellow => {
            assert(n =~= "light-yellow"@);
            assert(lower_seq(n) =~= n);
            assert("reset"@.len() != n.len());
            assert("black"@.len() != n.len());
            assert("red"@.len() != n.len());
            assert("green"@.len() != n.len());
            assert("yellow"@.len() != n.len());
            assert("blue"@.len() != n.len());
            assert("magenta"@.len() != n.len());
            assert("cyan"@.len() != n.len());
            assert("gray"@.len() != n.len());
            assert("grey"@.len() != n.len());
            assert("dark-gray"@.len() != n.len());
            assert("dark-grey"@.len() != n.len());
            assert("light-red"@.len() != n.len());
            assert("light-green"@.len() != n.len());
        },
        Color::LightBlue => {
            assert(n =~= "light-blue"@);
            assert(lower_seq(n) =~= n);
            assert("reset"@.len() != n.len());
            assert("black"@.len() != n.len());
            assert("red"@.len() != n.len());
            assert("green"@.len() != n.len());
            assert("yellow"@.len() != n.len());
            assert("blue"@.len() != n.len());
            assert("magenta"@.len() != n.len());
            assert("cyan"@.len() != n.len());
            assert("gray"@.len() != n.len());
            assert("grey"@.len() != n.len());
            assert("dark-gray"@.len() != n.len());
            assert("dark-grey"@.len() != n.len());
            assert("light-red"@.len() != n.len());
            assert("light-green"@.len() != n.len());
            assert("light-yellow"@.len() != n.len());
        },
        Color::LightMagenta => {
            assert(n =~= "light-magenta"@);
            assert(lower_seq(n) =~= n);
            assert("reset"@.len() != n.len());
            assert("black"@.len() != n.len());
            assert("red"@.len() != n.len());
            assert("green"@.len() != n.len());
            assert("yellow"@.len() != n.len());
            assert("blue"@.len() != n.len());
            assert("magenta"@.len() != n.len());
            assert("cyan"@.len() != n.len());
            assert("gray"@.len() != n.len());
            assert("grey"@.len() != n.len());
            assert("dark-gray"@.len() != n.len());
            assert("dark-grey"@.len() != n.len());
            assert("light-red"@.len() != n.len());
            assert("light-green"@.len() != n.len());
            assert("light-yellow"@.len() != n.len());
            assert("light-blue"@.len() != n.len());
        },
        Color::LightCyan => {
            assert(n =~= "light-cyan"@);
            assert(lower_seq(n) =~= n);
            assert("reset"@.len() != n.len());
            assert("black"@.len() != n.len());
            assert("red"@.len() != n.len());
            assert("green"@.len() != n.len());
            assert("yellow"@.len() != n.len());
            assert("blue"@.len() != n.len());
            assert("magenta"@.len() != n.len());
            assert("cyan"@.len() != n.len());
            assert("gray"@.len() != n.len());
            assert("grey"@.len() != n.len());
            assert("dark-gray"@.len() != n.len());
            assert("dark-grey"@.len() != n.len());
            assert("light-red"@.len() != n.len());
            assert("light-green"@.len() != n.len());
            assert("light-yellow"@.len() != n.len());
            assert("light-blue"@[6] != n[6]);
            assert("light-magenta"@.len() != n.len());
        },
        Color::White => {
            assert(n =~= "white"@);
            assert(lower_seq(n) =~= n);
            assert("reset"@[0] != n[0]);
            assert("black"@[0] != n[0]);
            assert("red"@.len() != n.len());
            assert("green"@[0] != n[0]);
            assert("yellow"@.len() != n.len());
            assert("blue"@.len() != n.len());
            assert("magenta"@.len() != n.len());
            assert("cyan"@.len() != n.len());
            assert("gray"@.len() != n.len());
            assert("grey"@.len() != n.len());
            assert("dark-gray"@.len() != n.len());
            assert("dark-grey"@.len() != n.len());
            assert("light-red"@.len() != n.len());
            assert("light-green"@.len() != n.len());
            assert("light-yellow"@.len() != n.len());
            assert("light-blue"@.len() != n.len());
            assert("light-magenta"@.len() != n.len());
            assert("light-cyan"@.len() != n.len());
        },
        Color::Indexed(_) => {},
    }
}

} // verus!
