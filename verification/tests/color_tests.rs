use mermaid_term::color::Ansi;

#[test]
fn rgb_writes_truecolor_sequence() {
    assert_eq!(Ansi::rgb(255, 0, 16), "\x1b[38;2;255;0;16m");
    assert_eq!(Ansi::rgb(0, 0, 0), "\x1b[38;2;0;0;0m");
    assert_eq!(Ansi::rgb(7, 42, 128), "\x1b[38;2;7;42;128m");
}

#[test]
fn named_colors_are_case_insensitive() {
    assert_eq!(Ansi::parse_color("red"), Ansi::RED);
    assert_eq!(Ansi::parse_color("RED"), Ansi::RED);
    assert_eq!(Ansi::parse_color("green"), Ansi::GREEN);
    assert_eq!(Ansi::parse_color("Orange"), Ansi::YELLOW);
    assert_eq!(Ansi::parse_color("yellow"), Ansi::YELLOW);
    assert_eq!(Ansi::parse_color("blue"), Ansi::BLUE);
    assert_eq!(Ansi::parse_color("Purple"), Ansi::MAGENTA);
    assert_eq!(Ansi::parse_color("magenta"), Ansi::MAGENTA);
    assert_eq!(Ansi::parse_color("cyan"), Ansi::CYAN);
    assert_eq!(Ansi::parse_color("White"), Ansi::WHITE);
}

#[test]
fn hex_colors_become_truecolor() {
    assert_eq!(Ansi::parse_color("#ffaa00"), "\x1b[38;2;255;170;0m");
    assert_eq!(Ansi::parse_color("#FFAA00"), "\x1b[38;2;255;170;0m");
    assert_eq!(Ansi::parse_color("#00ff7f"), "\x1b[38;2;0;255;127m");
    // `u8::from_str_radix` accepts a leading `+`.
    assert_eq!(Ansi::parse_color("#+f+f+f"), "\x1b[38;2;15;15;15m");
}

#[test]
fn unknown_colors_fall_back_to_cyan() {
    assert_eq!(Ansi::parse_color("chartreuse"), Ansi::CYAN);
    assert_eq!(Ansi::parse_color("#zzzzzz"), Ansi::CYAN);
    assert_eq!(Ansi::parse_color("#fff"), Ansi::CYAN);
    assert_eq!(Ansi::parse_color(""), Ansi::CYAN);
    assert_eq!(Ansi::parse_color("#ffaa0"), Ansi::CYAN);
    // Seven bytes, but the first pair is one two-byte character.
    assert_eq!(Ansi::parse_color("#\u{e9}1234"), Ansi::CYAN);
}

#[test]
fn try_parse_color_refuses_words_cut_inside_a_character() {
    // `#a` then a two-byte character: byte 3 falls inside it.
    assert_eq!(Ansi::try_parse_color("#a\u{e9}234"), None);
    assert_eq!(Ansi::try_parse_color("#\u{e9}1234"), Some(Ansi::CYAN.to_string()));
    assert_eq!(Ansi::try_parse_color("Blue"), Some(Ansi::BLUE.to_string()));
    assert_eq!(Ansi::try_parse_color("#102030"), Some("\x1b[38;2;16;32;48m".to_string()));
}

#[test]
fn ansi_constants() {
    assert_eq!(Ansi::RESET, "\x1b[0m");
    assert_eq!(Ansi::BOLD, "\x1b[1m");
    assert_eq!(Ansi::DIM, "\x1b[2m");
    assert_eq!(Ansi::BRIGHT_BLUE, "\x1b[94m");
    assert_eq!(Ansi::BRIGHT_MAGENTA, "\x1b[95m");
}

#[test]
fn hex_words_read_back_as_their_components() {
    for &(r, g, b) in &[(0u8, 0u8, 0u8), (1, 15, 16), (127, 128, 200), (255, 254, 171), (10, 160, 9)] {
        assert_eq!(Ansi::parse_color(&format!("#{:02x}{:02x}{:02x}", r, g, b)), Ansi::rgb(r, g, b));
        assert_eq!(Ansi::parse_color(&format!("#{:02X}{:02X}{:02X}", r, g, b)), Ansi::rgb(r, g, b));
    }
}
