use qownnotes_tui::styled::Color;
use qownnotes_tui::theme::{color_name, color_value_splits_a_character, parse_color, Theme};

#[test]
fn parses_partial_theme_with_hex_and_named_colors() {
    assert_eq!(parse_color("#89b4fa"), Some(Color::Rgb(0x89, 0xb4, 0xfa)));
    assert_eq!(parse_color("white"), Some(Color::White));
    assert_eq!(parse_color("reset"), Some(Color::Reset));
    assert_eq!(Theme::default().warning, Color::Yellow);
}

#[test]
fn rejects_invalid_theme_colors() {
    assert_eq!(parse_color("#12345"), None);
    assert_eq!(parse_color("purple"), None);
}

#[test]
fn color_names_ignore_case_and_accept_both_grays() {
    assert_eq!(parse_color("Dark-Grey"), Some(Color::DarkGray));
    assert_eq!(parse_color("GRAY"), Some(Color::Gray));
    assert_eq!(parse_color("#FFffFF"), Some(Color::Rgb(255, 255, 255)));
    assert_eq!(parse_color("#+f+f+f"), Some(Color::Rgb(15, 15, 15)));
    assert_eq!(parse_color("#-fffff"), None);
}

#[test]
fn color_names_read_back() {
    let colors = [
        Color::Reset,
        Color::Black,
        Color::DarkGray,
        Color::LightMagenta,
        Color::White,
        Color::Rgb(0x89, 0xb4, 0x0a),
    ];
    for color in colors {
        assert_eq!(parse_color(&color_name(color)), Some(color));
    }
    assert_eq!(color_name(Color::Rgb(1, 2, 255)), "#0102ff");
    assert_eq!(color_name(Color::Indexed(42)), "indexed-42");
}

#[test]
fn detects_hex_values_that_split_a_character() {
    assert!(color_value_splits_a_character("#aébcd"));
    assert!(!color_value_splits_a_character("#ééé"));
    assert!(!color_value_splits_a_character("#123456"));
    assert_eq!(parse_color("#ééé"), None);
}

#[test]
fn default_theme_follows_the_terminal_palette() {
    let theme = Theme::default();
    assert_eq!(theme.heading, Color::Cyan);
    assert_eq!(theme.code, Color::Green);
    assert_eq!(theme.fence, Color::Magenta);
    assert_eq!(theme.quote, Color::Blue);
    assert_eq!(theme.link, Color::LightBlue);
    assert_eq!(theme.muted, Color::DarkGray);
    assert_eq!(theme.background, Color::Reset);
}
