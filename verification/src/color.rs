//! ANSI colour codes and the colours that style directives name.
use vstd::prelude::*;
use vstd::utf8::{encode_utf8, is_char_boundary};
use crate::text::{chars_eq, push_char, to_chars, to_lowercase, lowercase_of};

verus! {

/// The ANSI escape sequences the renderers use.
pub struct Ansi;

impl Ansi {
    pub const RESET: &'static str = "\x1b[0m";
    pub const BOLD: &'static str = "\x1b[1m";
    pub const DIM: &'static str = "\x1b[2m";
    pub const RED: &'static str = "\x1b[31m";
    pub const GREEN: &'static str = "\x1b[32m";
    pub const YELLOW: &'static str = "\x1b[33m";
    pub const BLUE: &'static str = "\x1b[34m";
    pub const MAGENTA: &'static str = "\x1b[35m";
    pub const CYAN: &'static str = "\x1b[36m";
    pub const WHITE: &'static str = "\x1b[37m";
    pub const BRIGHT_BLUE: &'static str = "\x1b[94m";
    pub const BRIGHT_CYAN: &'static str = "\x1b[96m";
    pub const BRIGHT_GREEN: &'static str = "\x1b[92m";
    pub const BRIGHT_YELLOW: &'static str = "\x1b[93m";
    pub const BRIGHT_MAGENTA: &'static str = "\x1b[95m";
}

/// A Select Graphic Rendition sequence: `ESC [ code m`.
pub open spec fn sgr(code: Seq<char>) -> Seq<char> {
    seq!['\x1b', '['] + code + seq!['m']
}

pub open spec fn reset() -> Seq<char> {
    sgr(seq!['0'])
}

pub open spec fn bold() -> Seq<char> {
    sgr(seq!['1'])
}

pub open spec fn dim() -> Seq<char> {
    sgr(seq!['2'])
}

pub open spec fn red() -> Seq<char> {
    sgr(seq!['3', '1'])
}

pub open spec fn green() -> Seq<char> {
    sgr(seq!['3', '2'])
}

pub open spec fn yellow() -> Seq<char> {
    sgr(seq!['3', '3'])
}

pub open spec fn blue() -> Seq<char> {
    sgr(seq!['3', '4'])
}

pub open spec fn magenta() -> Seq<char> {
    sgr(seq!['3', '5'])
}

pub open spec fn cyan() -> Seq<char> {
    sgr(seq!['3', '6'])
}

pub open spec fn white() -> Seq<char> {
    sgr(seq!['3', '7'])
}

pub open spec fn bright_cyan() -> Seq<char> {
    sgr(seq!['9', '6'])
}

pub open spec fn bright_green() -> Seq<char> {
    sgr(seq!['9', '2'])
}

pub open spec fn bright_yellow() -> Seq<char> {
    sgr(seq!['9', '3'])
}

/// The escape sequences of `Ansi` are the SGR sequences above.
pub proof fn lemma_ansi_codes()
    ensures
        Ansi::RESET@ == reset(),
        Ansi::BOLD@ == bold(),
        Ansi::DIM@ == dim(),
        Ansi::RED@ == red(),
        Ansi::GREEN@ == green(),
        Ansi::YELLOW@ == yellow(),
        Ansi::BLUE@ == blue(),
        Ansi::MAGENTA@ == magenta(),
        Ansi::CYAN@ == cyan(),
        Ansi::WHITE@ == white(),
        Ansi::BRIGHT_CYAN@ == bright_cyan(),
        Ansi::BRIGHT_GREEN@ == bright_green(),
        Ansi::BRIGHT_YELLOW@ == bright_yellow(),
{
    reveal_strlit("\x1b[0m");
    reveal_strlit("\x1b[1m");
    reveal_strlit("\x1b[2m");
    reveal_strlit("\x1b[31m");
    reveal_strlit("\x1b[32m");
    reveal_strlit("\x1b[33m");
    reveal_strlit("\x1b[34m");
    reveal_strlit("\x1b[35m");
    reveal_strlit("\x1b[36m");
    reveal_strlit("\x1b[37m");
    reveal_strlit("\x1b[96m");
    reveal_strlit("\x1b[92m");
    reveal_strlit("\x1b[93m");
    assert(Ansi::RESET@ =~= reset());
    assert(Ansi::BOLD@ =~= bold());
    assert(Ansi::DIM@ =~= dim());
    assert(Ansi::RED@ =~= red());
    assert(Ansi::GREEN@ =~= green());
    assert(Ansi::YELLOW@ =~= yellow());
    assert(Ansi::BLUE@ =~= blue());
    assert(Ansi::MAGENTA@ =~= magenta());
    assert(Ansi::CYAN@ =~= cyan());
    assert(Ansi::WHITE@ =~= white());
    assert(Ansi::BRIGHT_CYAN@ =~= bright_cyan());
    assert(Ansi::BRIGHT_GREEN@ =~= bright_green());
    assert(Ansi::BRIGHT_YELLOW@ =~= bright_yellow());
}

/// The decimal digit for `d < 10`.
pub open spec fn digit(d: int) -> char {
    if d == 0 {
        '0'
    } else if d == 1 {
        '1'
    } else if d == 2 {
        '2'
    } else if d == 3 {
        '3'
    } else if d == 4 {
        '4'
    } else if d == 5 {
        '5'
    } else if d == 6 {
        '6'
    } else if d == 7 {
        '7'
    } else if d == 8 {
        '8'
    } else {
        '9'
    }
}

/// The decimal numeral of `n`, without leading zeros.
pub open spec fn decimal(n: nat) -> Seq<char>
    decreases n,
{
    if n < 10 {
        seq![digit(n as int)]
    } else {
        decimal(n / 10).push(digit((n % 10) as int))
    }
}

fn digit_exec(d: u8) -> (c: char)
    requires
        d < 10,
    ensures
        c == digit(d as int),
{
    if d == 0 {
        '0'
    } else if d == 1 {
        '1'
    } else if d == 2 {
        '2'
    } else if d == 3 {
        '3'
    } else if d == 4 {
        '4'
    } else if d == 5 {
        '5'
    } else if d == 6 {
        '6'
    } else if d == 7 {
        '7'
    } else if d == 8 {
        '8'
    } else {
        '9'
    }
}

/// Appends the decimal numeral of `n`.
pub(crate) fn push_decimal(s: &mut String, n: usize)
    ensures
        final(s)@ == old(s)@ + decimal(n as nat),
    decreases n,
{
    let ghost start = old(s)@;
    if n >= 10 {
        push_decimal(s, n / 10);
    }
    push_char(s, digit_exec((n % 10) as u8));
    proof {
        if n >= 10 {
            assert(decimal(n as nat) == decimal((n / 10) as nat).push(digit((n % 10) as int)));
            assert(s@ =~= start + decimal(n as nat));
        } else {
            assert(s@ =~= start + decimal(n as nat));
        }
    }
}

/// The 24-bit colour sequence `ESC[38;2;r;g;bm`.
pub open spec fn rgb_code(r: u8, g: u8, b: u8) -> Seq<char> {
    sgr(
        seq!['3', '8', ';', '2', ';'] + decimal(r as nat) + seq![';'] + decimal(g as nat) + seq![';']
            + decimal(b as nat),
    )
}

impl Ansi {
    /// The 24-bit foreground colour sequence for `(r, g, b)`.
    pub fn rgb(r: u8, g: u8, b: u8) -> (s: String)
        ensures
            s@ == rgb_code(r, g, b),
    {
        let mut s = String::new();
        push_char(&mut s, '\x1b');
        push_char(&mut s, '[');
        push_char(&mut s, '3');
        push_char(&mut s, '8');
        push_char(&mut s, ';');
        push_char(&mut s, '2');
        push_char(&mut s, ';');
        push_decimal(&mut s, r as usize);
        push_char(&mut s, ';');
        push_decimal(&mut s, g as usize);
        push_char(&mut s, ';');
        push_decimal(&mut s, b as usize);
        push_char(&mut s, 'm');
        assert(s@ =~= rgb_code(r, g, b));
        s
    }
}

pub open spec fn is_hex_digit(c: char) -> bool {
    ('0' <= c <= '9') || ('a' <= c <= 'f') || ('A' <= c <= 'F')
}

pub open spec fn hex_value(c: char) -> int {
    if '0' <= c <= '9' {
        c as int - '0' as int
    } else if 'a' <= c <= 'f' {
        c as int - 'a' as int + 10
    } else {
        c as int - 'A' as int + 10
    }
}

/// `u8::from_str_radix` in base 16 on a two-character string: an optional
/// `+` followed by hexadecimal digits only.
pub open spec fn hex_pair(a: char, b: char) -> Option<u8> {
    if is_hex_digit(a) && is_hex_digit(b) {
        Some((16 * hex_value(a) + hex_value(b)) as u8)
    } else if a == '+' && is_hex_digit(b) {
        Some(hex_value(b) as u8)
    } else {
        None
    }
}

fn hex_digit_exec(c: char) -> (r: Option<u8>)
    ensures
        r matches Some(v) ==> is_hex_digit(c) && v as int == hex_value(c),
        r is None ==> !is_hex_digit(c),
{
    if '0' <= c && c <= '9' {
        Some(((c as u32) - ('0' as u32)) as u8)
    } else if 'a' <= c && c <= 'f' {
        Some(((c as u32) - ('a' as u32) + 10) as u8)
    } else if 'A' <= c && c <= 'F' {
        Some(((c as u32) - ('A' as u32) + 10) as u8)
    } else {
        None
    }
}

fn hex_pair_exec(a: char, b: char) -> (r: Option<u8>)
    ensures
        r == hex_pair(a, b),
{
    match (hex_digit_exec(a), hex_digit_exec(b)) {
        (Some(x), Some(y)) => Some(16 * x + y),
        (None, Some(y)) => {
            if a == '+' {
                Some(y)
            } else {
                None
            }
        },
        _ => None,
    }
}

/// The colour sequence a lower-cased colour word gives: a named colour, a
/// `#rrggbb` triple, or cyan otherwise.
pub open spec fn color_of_lower(l: Seq<char>) -> Seq<char> {
    if l == "red"@ {
        red()
    } else if l == "green"@ {
        green()
    } else if l == "yellow"@ || l == "orange"@ {
        yellow()
    } else if l == "blue"@ {
        blue()
    } else if l == "magenta"@ || l == "purple"@ {
        magenta()
    } else if l == "cyan"@ {
        cyan()
    } else if l == "white"@ {
        white()
    } else if l.len() == 7 && l[0] == '#' && hex_pair(l[1], l[2]) is Some && hex_pair(l[3], l[4]) is Some
        && hex_pair(l[5], l[6]) is Some {
        rgb_code(hex_pair(l[1], l[2])->0, hex_pair(l[3], l[4])->0, hex_pair(l[5], l[6])->0)
    } else {
        cyan()
    }
}

/// Whether reading a lower-cased colour word as `#rrggbb` would slice it
/// inside a character: seven bytes starting with `#` whose byte 3 or 5 is
/// not a character boundary.
pub open spec fn color_panics(l: Seq<char>) -> bool {
    let bytes = encode_utf8(l);
    &&& l.len() > 0
    &&& l[0] == '#'
    &&& bytes.len() == 7
    &&& !(is_char_boundary(bytes, 3) && is_char_boundary(bytes, 5))
}

fn lit(s: &str) -> (r: Vec<char>)
    ensures
        r@ == s@,
{
    to_chars(s)
}

/// The colour sequence for a lower-cased colour word.
pub fn color_from_lowercase(lower: &str) -> (s: String)
    requires
        !color_panics(lower@),
    ensures
        s@ == color_of_lower(lower@),
{
    proof {
        lemma_ansi_codes();
    }
    let l = to_chars(lower);
    if chars_eq(&l, &lit("red")) {
        Ansi::RED.to_owned()
    } else if chars_eq(&l, &lit("green")) {
        Ansi::GREEN.to_owned()
    } else if chars_eq(&l, &lit("yellow")) || chars_eq(&l, &lit("orange")) {
        Ansi::YELLOW.to_owned()
    } else if chars_eq(&l, &lit("blue")) {
        Ansi::BLUE.to_owned()
    } else if chars_eq(&l, &lit("magenta")) || chars_eq(&l, &lit("purple")) {
        Ansi::MAGENTA.to_owned()
    } else if chars_eq(&l, &lit("cyan")) {
        Ansi::CYAN.to_owned()
    } else if chars_eq(&l, &lit("white")) {
        Ansi::WHITE.to_owned()
    } else if l.len() == 7 && l[0] == '#' {
        match (hex_pair_exec(l[1], l[2]), hex_pair_exec(l[3], l[4]), hex_pair_exec(l[5], l[6])) {
            (Some(r), Some(g), Some(b)) => Ansi::rgb(r, g, b),
            _ => Ansi::CYAN.to_owned(),
        }
    } else {
        Ansi::CYAN.to_owned()
    }
}

/// Whether `color_from_lowercase` would find this word out of its reach.
pub fn color_would_panic(lower: &str) -> (b: bool)
    ensures
        b == color_panics(lower@),
{
    let l = to_chars(lower);
    let bytes = lower.as_bytes();
    if l.len() == 0 || l[0] != '#' || bytes.len() != 7 {
        return false;
    }
    !(lower.is_char_boundary(3) && lower.is_char_boundary(5))
}

impl Ansi {
    /// The colour sequence for a colour word of a style directive (`red`,
    /// `Purple`, `#ffaa00`), read case-insensitively.
    pub fn parse_color(c: &str) -> (s: String)
        requires
            !color_panics(lowercase_of(c@)),
        ensures
            s@ == color_of_lower(lowercase_of(c@)),
    {
        let lower = to_lowercase(c);
        color_from_lowercase(lower.as_str())
    }

    /// The colour sequence for a colour word, or `None` where reading it as
    /// `#rrggbb` would slice it inside a character.
    pub fn try_parse_color(c: &str) -> (s: Option<String>)
        ensures
            s is None <==> color_panics(lowercase_of(c@)),
            s matches Some(t) ==> t@ == color_of_lower(lowercase_of(c@)),
    {
        let lower = to_lowercase(c);
        if color_would_panic(lower.as_str()) {
            None
        } else {
            Some(color_from_lowercase(lower.as_str()))
        }
    }
}

/// The hexadecimal digit for `v` (0 to 15), in upper or lower case.
pub open spec fn hex_char(v: int, upper: bool) -> char {
    if v < 10 {
        (48 + v) as char
    } else if upper {
        (55 + v) as char
    } else {
        (87 + v) as char
    }
}

/// `#rrggbb` for a colour, with two hexadecimal digits per component.
pub open spec fn hex_word(r: u8, g: u8, b: u8, upper: bool) -> Seq<char> {
    seq![
        '#',
        hex_char((r / 16) as int, upper),
        hex_char((r % 16) as int, upper),
        hex_char((g / 16) as int, upper),
        hex_char((g % 16) as int, upper),
        hex_char((b / 16) as int, upper),
        hex_char((b % 16) as int, upper),
    ]
}

proof fn lemma_hex_char(v: int, upper: bool)
    requires
        0 <= v < 16,
    ensures
        is_hex_digit(hex_char(v, upper)),
        hex_value(hex_char(v, upper)) == v,
{
}

proof fn lemma_hex_pair(x: u8, upper: bool)
    ensures
        hex_pair(hex_char((x / 16) as int, upper), hex_char((x % 16) as int, upper)) == Some(x),
{
    lemma_hex_char((x / 16) as int, upper);
    lemma_hex_char((x % 16) as int, upper);
}

/// A colour written `#rrggbb`, in either case, reads back as the 24-bit
/// colour sequence of its components.
pub proof fn lemma_hex_round_trip(r: u8, g: u8, b: u8, upper: bool)
    ensures
        color_of_lower(hex_word(r, g, b, upper)) == rgb_code(r, g, b),
{
    let w = hex_word(r, g, b, upper);
    reveal_strlit("red");
    reveal_strlit("green");
    reveal_strlit("yellow");
    reveal_strlit("orange");
    reveal_strlit("blue");
    reveal_strlit("magenta");
    reveal_strlit("purple");
    reveal_strlit("cyan");
    reveal_strlit("white");
    assert(w[0] == '#');
    assert(w != "magenta"@ && w != "red"@ && w != "green"@ && w != "yellow"@ && w != "orange"@);
    assert(w != "blue"@ && w != "purple"@ && w != "cyan"@ && w != "white"@);
    lemma_hex_pair(r, upper);
    lemma_hex_pair(g, upper);
    lemma_hex_pair(b, upper);
}

} // verus!
