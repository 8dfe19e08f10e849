use yate::format::{parse_field, Color, FormatState};
use yate::palette::Palette;

#[test]
fn parse_plain_number() {
    assert_eq!(parse_field(b"31"), Some(31));
    assert_eq!(parse_field(b"0"), Some(0));
    assert_eq!(parse_field(b"+7"), Some(7));
    assert_eq!(parse_field(b"4294967295"), Some(4294967295));
}

#[test]
fn parse_rejects_non_numbers() {
    assert_eq!(parse_field(b""), None);
    assert_eq!(parse_field(b"+"), None);
    assert_eq!(parse_field(b"-1"), None);
    assert_eq!(parse_field(b"3a"), None);
    assert_eq!(parse_field(b"4294967296"), None);
}

#[test]
fn apply_code_sets_and_resets() {
    let mut f = FormatState::new();
    f.apply_code(94);
    assert_eq!(f.color, Color::BrightBlue);
    f.apply_code(4);
    assert_eq!(f.color, Color::BrightBlue);
    f.underline = true;
    f.apply_code(0);
    assert_eq!(f, FormatState { color: Color::White, underline: false });
}

#[test]
fn apply_sequence_uses_first_bracket() {
    let mut f = FormatState::new();
    f.apply_sequence(b"\x1b5[35m");
    assert_eq!(f.color, Color::Magenta);
    f.apply_sequence(b"\x1b[31H");
    assert_eq!(f.color, Color::Magenta);
}

#[test]
fn apply_params_splits_on_semicolons() {
    let mut f = FormatState::new();
    f.apply_params(b"33;;90");
    assert_eq!(f.color, Color::Grey);
}

fn sample_palette() -> Palette {
    let c = |n: u8| [n, n, n, 255];
    Palette {
        background: c(0),
        white: c(1),
        black: c(2),
        red: c(3),
        green: c(4),
        yellow: c(5),
        blue: c(6),
        magenta: c(7),
        cyan: c(8),
        grey: c(9),
        bright_red: c(10),
        bright_green: c(11),
        bright_yellow: c(12),
        bright_blue: c(13),
        bright_magenta: c(14),
        bright_cyan: c(15),
    }
}

#[test]
fn palette_resolves_each_slot() {
    let p = sample_palette();
    assert_eq!(p.resolve(Color::White), [1, 1, 1, 255]);
    assert_eq!(p.resolve(Color::Red), [3, 3, 3, 255]);
    assert_eq!(p.resolve(Color::Grey), [9, 9, 9, 255]);
    assert_eq!(p.resolve(Color::BrightCyan), [15, 15, 15, 255]);
}
