use tedbot::model::Letter::{Correct, Incorrect, Partial};
use tedbot::model::{decode_glyph, encode_letter, Letter, Score};
use tedbot::parser::{parse, ParseError};

const LOSS: &str = "Wordle 213 X/6

\u{2b1c}\u{2b1c}\u{2b1c}\u{2b1c}\u{1f7e8}
\u{2b1c}\u{2b1c}\u{1f7e8}\u{2b1c}\u{1f7e8}
\u{1f7e9}\u{1f7e9}\u{1f7e9}\u{2b1c}\u{2b1c}
\u{1f7e9}\u{1f7e9}\u{1f7e9}\u{2b1c}\u{2b1c}
\u{1f7e9}\u{1f7e9}\u{1f7e9}\u{2b1c}\u{2b1c}
\u{1f7e9}\u{1f7e9}\u{1f7e9}\u{2b1c}\u{2b1c}
this was a hard one";

const WIN_HARD: &str = "Wordle 224 4/6*
\u{2b1b}\u{2b1b}\u{2b1b}\u{2b1b}\u{2b1b}
\u{2b1b}\u{1f7e8}\u{2b1b}\u{1f7e8}\u{2b1b}
\u{1f7e9}\u{1f7e8}\u{1f7e9}\u{2b1b}\u{2b1b}
\u{1f7e9}\u{1f7e9}\u{1f7e9}\u{1f7e9}\u{1f7e9}";

fn loss_score() -> Score {
    Score {
        day: 213,
        success: false,
        guesses: 6,
        hard_mode: false,
        grid: vec![
            vec![Incorrect, Incorrect, Incorrect, Incorrect, Partial],
            vec![Incorrect, Incorrect, Partial, Incorrect, Partial],
            vec![Correct, Correct, Correct, Incorrect, Incorrect],
            vec![Correct, Correct, Correct, Incorrect, Incorrect],
            vec![Correct, Correct, Correct, Incorrect, Incorrect],
            vec![Correct, Correct, Correct, Incorrect, Incorrect],
        ],
    }
}

fn win_hard_score() -> Score {
    Score {
        day: 224,
        success: true,
        guesses: 4,
        hard_mode: true,
        grid: vec![
            vec![Incorrect, Incorrect, Incorrect, Incorrect, Incorrect],
            vec![Incorrect, Partial, Incorrect, Partial, Incorrect],
            vec![Correct, Partial, Correct, Incorrect, Incorrect],
            vec![Correct, Correct, Correct, Correct, Correct],
        ],
    }
}

#[test]
fn parser_wordle_loss() {
    let output = parse(LOSS);
    let expected = Ok(("this was a hard one", loss_score()));
    assert_eq!(output, expected);
}

#[test]
fn parser_wordle_win_hard_mode() {
    let output = parse(WIN_HARD);
    let expected = Ok(("", win_hard_score()));
    assert_eq!(output, expected);
}

#[test]
fn wordle_wordle_loss() {
    let output = parse(LOSS);
    let expected = Ok(("this was a hard one", loss_score()));
    assert_eq!(output, expected);
}

#[test]
fn wordle_wordle_win_hard_mode() {
    let output = parse(WIN_HARD);
    let expected = Ok(("", win_hard_score()));
    assert_eq!(output, expected);
}

fn row_text(row: &[Letter]) -> String {
    row.iter().map(|l| encode_letter(*l)).collect()
}

#[test]
fn every_guess_count_parses() {
    for g in 1u8..=6 {
        for hard in [false, true] {
            let mut text = format!("Wordle 1000 {}/6{}\n", g, if hard { "*" } else { "" });
            let row = [Correct, Partial, Incorrect, Correct, Partial];
            for _ in 0..g {
                text.push_str(&row_text(&row));
                text.push('\n');
            }
            text.push_str("gg");
            let (rest, score) = parse(&text).unwrap();
            assert_eq!(rest, "gg");
            assert_eq!(score.day, 1000);
            assert_eq!(score.guesses, g);
            assert!(score.success);
            assert_eq!(score.hard_mode, hard);
            assert_eq!(score.grid.len(), g as usize);
        }
    }
}

#[test]
fn loss_ignores_trailing_digits() {
    let row = row_text(&[Incorrect; 5]);
    let text = format!("Wordle 5 X/9\n{}\n{}\n{}\n{}\n{}\n{}", row, row, row, row, row, row);
    let (rest, score) = parse(&text).unwrap();
    assert_eq!(rest, "");
    assert!(!score.success);
    assert_eq!(score.guesses, 6);
}

#[test]
fn crlf_and_blank_line() {
    let row = row_text(&[Correct; 5]);
    let text = format!("Wordle 7 1/6\r\n\r\n{}\r\nnext", row);
    let (rest, score) = parse(&text).unwrap();
    assert_eq!(rest, "next");
    assert_eq!(score.grid, vec![vec![Correct; 5]]);
}

#[test]
fn header_failures() {
    let row = row_text(&[Correct; 5]);
    for header in [
        "wordle 7 1/6",
        "Wordle7 1/6",
        "Wordle  1/6",
        "Wordle 7 0/6",
        "Wordle 7 7/6",
        "Wordle 7 Y/6",
        "Wordle 7 1-6",
        "Wordle 7 1/",
        "Wordle 7 1/6 extra",
        "Wordle 4294967296 1/6",
    ] {
        let text = format!("{}\n{}", header, row);
        assert_eq!(parse(&text), Err(ParseError::Header), "{}", header);
    }
    assert_eq!(parse(""), Err(ParseError::Header));
    assert_eq!(parse("hello there"), Err(ParseError::Header));
}

#[test]
fn largest_day_parses() {
    let row = row_text(&[Correct; 5]);
    let text = format!("Wordle 4294967295 1/6\n{}", row);
    assert_eq!(parse(&text).unwrap().1.day, u32::MAX);
}

#[test]
fn grid_failures() {
    let row = row_text(&[Correct; 5]);
    let short = row_text(&[Correct; 4]);
    // Too few rows.
    assert_eq!(parse(&format!("Wordle 7 2/6\n{}\n", row)), Err(ParseError::Grid));
    // A row of four glyphs.
    assert_eq!(parse(&format!("Wordle 7 1/6\n{}\n", short)), Err(ParseError::Grid));
    // A foreign glyph.
    assert_eq!(parse(&format!("Wordle 7 1/6\n{}x\n", short)), Err(ParseError::Grid));
    // Two blank lines.
    assert_eq!(parse(&format!("Wordle 7 1/6\n\n\n{}", row)), Err(ParseError::Grid));
    // Text straight after the last row.
    assert_eq!(parse(&format!("Wordle 7 1/6\n{}!", row)), Err(ParseError::Grid));
    // Header alone.
    assert_eq!(parse("Wordle 7 1/6"), Err(ParseError::Grid));
}

#[test]
fn extra_rows_are_left() {
    let row = row_text(&[Correct; 5]);
    let text = format!("Wordle 7 1/6\n{}\n{}\n", row, row);
    let (rest, _) = parse(&text).unwrap();
    assert_eq!(rest, format!("{}\n", row));
}

#[test]
fn glyphs() {
    assert_eq!(decode_glyph('\u{1f7e9}'), Some(Correct));
    assert_eq!(decode_glyph('\u{1f7e8}'), Some(Partial));
    assert_eq!(decode_glyph('\u{2b1b}'), Some(Incorrect));
    assert_eq!(decode_glyph('\u{2b1c}'), Some(Incorrect));
    assert_eq!(decode_glyph('x'), None);
    for l in [Correct, Partial, Incorrect] {
        assert_eq!(decode_glyph(encode_letter(l)), Some(l));
    }
    assert!(Correct > Partial && Partial > Incorrect);
}

#[test]
fn loss_with_trailing_text() {
    let input = "Wordle 213 X/6\n\n\u{2b1c}\u{2b1c}\u{2b1c}\u{2b1c}\u{1f7e8}\n\u{2b1c}\u{2b1c}\u{1f7e8}\u{2b1c}\u{1f7e8}\n\u{1f7e9}\u{1f7e9}\u{1f7e9}\u{2b1c}\u{2b1c}\n\u{1f7e9}\u{1f7e9}\u{1f7e9}\u{2b1c}\u{2b1c}\n\u{1f7e9}\u{1f7e9}\u{1f7e9}\u{2b1c}\u{2b1c}\n\u{1f7e9}\u{1f7e9}\u{1f7e9}\u{2b1c}\u{2b1c}\ntrailing text";
    assert_eq!(parse(input), Ok(("trailing text", loss_score())));
}

#[test]
fn win_in_one_at_end_of_input() {
    let text = format!("Wordle 1 1/6\n{}", row_text(&[Correct; 5]));
    let (rest, score) = parse(&text).unwrap();
    assert_eq!(rest, "");
    assert_eq!(
        score,
        Score { day: 1, success: true, guesses: 1, hard_mode: false, grid: vec![vec![Correct; 5]] }
    );
}
