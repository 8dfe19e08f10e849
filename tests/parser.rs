use yate::format::{Color, FormatState};
use yate::parser::{StreamParser, StyledRun};

fn fresh() -> StreamParser {
    StreamParser::new(FormatState::new())
}

fn plain() -> FormatState {
    FormatState { color: Color::White, underline: false }
}

fn with_color(color: Color) -> FormatState {
    FormatState { color, underline: false }
}

fn texts(runs: &[StyledRun]) -> Vec<(String, FormatState)> {
    runs.iter().map(|r| (r.text.clone(), r.format)).collect()
}

fn run(text: &str, format: FormatState) -> (String, FormatState) {
    (text.to_string(), format)
}

#[test]
fn plain_text_is_one_run() {
    let mut p = fresh();
    p.append_new_output(b"hello");
    assert_eq!(texts(p.runs()), vec![run("hello", plain())]);
    assert!(p.partial_sequence().is_empty());
}

#[test]
fn empty_chunk_changes_nothing() {
    let mut p = fresh();
    p.append_new_output(b"");
    assert!(p.runs().is_empty());
    assert_eq!(p.format(), plain());
}

#[test]
fn base_color_red() {
    let mut p = fresh();
    p.append_new_output(b"\x1b[31mhi");
    assert_eq!(texts(p.runs()), vec![run("hi", with_color(Color::Red))]);
    assert_eq!(p.format(), with_color(Color::Red));
}

#[test]
fn bright_color_red() {
    let mut p = fresh();
    p.append_new_output(b"\x1b[91mhi");
    assert_eq!(texts(p.runs()), vec![run("hi", with_color(Color::BrightRed))]);
}

#[test]
fn every_color_code() {
    let table = [
        (30, Color::Black),
        (31, Color::Red),
        (32, Color::Green),
        (33, Color::Yellow),
        (34, Color::Blue),
        (35, Color::Magenta),
        (36, Color::Cyan),
        (37, Color::White),
        (90, Color::Grey),
        (91, Color::BrightRed),
        (92, Color::BrightGreen),
        (93, Color::BrightYellow),
        (94, Color::BrightBlue),
        (95, Color::BrightMagenta),
        (96, Color::BrightCyan),
        (97, Color::White),
    ];
    for (code, color) in table {
        let mut p = fresh();
        p.append_new_output(format!("\x1b[{}mx", code).as_bytes());
        assert_eq!(texts(p.runs()), vec![run("x", with_color(color))], "code {}", code);
    }
}

#[test]
fn reset_restores_default() {
    let mut p = StreamParser::new(FormatState { color: Color::Blue, underline: true });
    p.append_new_output(b"\x1b[0mok");
    assert_eq!(texts(p.runs()), vec![run("ok", plain())]);
    assert_eq!(p.format(), plain());
}

#[test]
fn reset_after_color() {
    let mut p = fresh();
    p.append_new_output(b"\x1b[32ma\x1b[0mb");
    assert_eq!(
        texts(p.runs()),
        vec![run("a", with_color(Color::Green)), run("b", plain())]
    );
}

#[test]
fn unknown_sequence_is_discarded() {
    let mut p = fresh();
    p.append_new_output(b"\x1b[2Jok");
    assert_eq!(texts(p.runs()), vec![run("ok", plain())]);
    assert_eq!(p.format(), plain());
}

#[test]
fn unknown_sequence_keeps_color() {
    let mut p = fresh();
    p.append_new_output(b"\x1b[33m");
    p.append_new_output(b"\x1b[2Jok");
    assert_eq!(texts(p.runs()), vec![run("ok", with_color(Color::Yellow))]);
}

#[test]
fn unterminated_sequence_carries_over() {
    let mut split = fresh();
    split.append_new_output(b"\x1b[3");
    assert!(split.runs().is_empty());
    assert_eq!(split.partial_sequence(), b"\x1b[3");
    split.append_new_output(b"1mhi");
    let mut whole = fresh();
    whole.append_new_output(b"\x1b[31mhi");
    assert_eq!(texts(split.runs()), texts(whole.runs()));
    assert_eq!(split.format(), whole.format());
    assert_eq!(texts(split.runs()), vec![run("hi", with_color(Color::Red))]);
}

#[test]
fn split_sequence_sets_green() {
    let mut split = fresh();
    split.append_new_output(b"\x1b[3");
    split.append_new_output(b"2mhi");
    assert_eq!(texts(split.runs()), vec![run("hi", with_color(Color::Green))]);
}

#[test]
fn line_breaks_are_runs() {
    let mut p = fresh();
    p.append_new_output(b"a\nb");
    assert_eq!(
        texts(p.runs()),
        vec![run("a", plain()), run("\n", plain()), run("b", plain())]
    );
}

#[test]
fn carriage_return_is_a_run() {
    let mut p = fresh();
    p.append_new_output(b"\x1b[34mx\r\n");
    let blue = with_color(Color::Blue);
    assert_eq!(
        texts(p.runs()),
        vec![run("x", blue), run("\r", blue), run("\n", blue)]
    );
}

#[test]
fn split_at_sequence_boundary_matches_whole() {
    let input: &[u8] = b"ab\x1b[35mcd\nef\x1b[1;96mgh\x1b[Kij";
    let mut whole = fresh();
    whole.append_new_output(input);
    // every cut but those inside plain text (1, 8, 11, 20 and 25)
    let cuts = [0, 2, 3, 4, 5, 6, 7, 9, 10, 12, 13, 14, 15, 16, 17, 18, 19, 21, 22, 23, 24, 26];
    for cut in cuts {
        let (a, b) = input.split_at(cut);
        let mut split = fresh();
        split.append_new_output(a);
        split.append_new_output(b);
        assert_eq!(texts(split.runs()), texts(whole.runs()), "cut at {}", cut);
        assert_eq!(split.format(), whole.format());
    }
}

#[test]
fn split_inside_text_gives_two_runs() {
    let mut p = fresh();
    p.append_new_output(b"ab");
    p.append_new_output(b"cd");
    assert_eq!(texts(p.runs()), vec![run("ab", plain()), run("cd", plain())]);
}

#[test]
fn several_parameters_apply_in_order() {
    let mut p = fresh();
    p.append_new_output(b"\x1b[31;0;92mz");
    assert_eq!(texts(p.runs()), vec![run("z", with_color(Color::BrightGreen))]);
}

#[test]
fn bad_fields_are_ignored() {
    let mut p = fresh();
    p.append_new_output(b"\x1b[?;;99999999999;+36mz");
    assert_eq!(texts(p.runs()), vec![run("z", with_color(Color::Cyan))]);
}

#[test]
fn sequence_without_bracket_is_discarded() {
    let mut p = fresh();
    p.append_new_output(b"\x1b(Bq");
    assert_eq!(texts(p.runs()), vec![run("q", plain())]);
}

#[test]
fn invalid_utf8_is_replaced() {
    let mut p = fresh();
    p.append_new_output(b"a\xffb");
    assert_eq!(texts(p.runs()), vec![run("a\u{fffd}b", plain())]);
}

#[test]
fn runs_accumulate_across_calls() {
    let mut p = fresh();
    p.append_new_output(b"one\n");
    p.append_new_output(b"\x1b[31mtwo");
    assert_eq!(
        texts(p.runs()),
        vec![
            run("one", plain()),
            run("\n", plain()),
            run("two", with_color(Color::Red))
        ]
    );
}

fn styled_chars(runs: &[StyledRun]) -> Vec<(char, FormatState)> {
    runs.iter()
        .flat_map(|r| r.text.chars().map(move |c| (c, r.format)))
        .collect()
}

#[test]
fn any_split_shows_the_same_styled_text() {
    let input: &[u8] = b"ab\x1b[35mcd\nef\x1b[1;96mgh\x1b[Kij\x1b[0mkl";
    let mut whole = fresh();
    whole.append_new_output(input);
    for cut in 0..=input.len() {
        let (a, b) = input.split_at(cut);
        let mut split = fresh();
        split.append_new_output(a);
        split.append_new_output(b);
        assert_eq!(styled_chars(split.runs()), styled_chars(whole.runs()), "cut at {}", cut);
    }
}
