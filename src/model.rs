//! The score model: letters, grids, scores and timestamped scores.

use vstd::prelude::*;

verus! {

/// The result of one letter of a guess. The derived order puts `Correct` above
/// `Partial` above `Incorrect`.
#[derive(Debug, Clone, Copy, PartialEq, Eq, Structural, PartialOrd, Ord, Hash)]
pub enum Letter {
    Incorrect,
    Partial,
    Correct,
}

/// Green square.
pub const GLYPH_CORRECT: char = '\u{1f7e9}';

/// Yellow square.
pub const GLYPH_PARTIAL: char = '\u{1f7e8}';

/// Black square (dark theme).
pub const GLYPH_INCORRECT_DARK: char = '\u{2b1b}';

/// White square (light theme).
pub const GLYPH_INCORRECT_LIGHT: char = '\u{2b1c}';

/// The letter that a grid glyph stands for, if it is one of the four glyphs.
pub open spec fn glyph_letter(c: char) -> Option<Letter> {
    if c == GLYPH_CORRECT {
        Some(Letter::Correct)
    } else if c == GLYPH_PARTIAL {
        Some(Letter::Partial)
    } else if c == GLYPH_INCORRECT_DARK || c == GLYPH_INCORRECT_LIGHT {
        Some(Letter::Incorrect)
    } else {
        None
    }
}

/// The glyph written for a letter.
pub open spec fn letter_glyph(l: Letter) -> char {
    match l {
        Letter::Correct => GLYPH_CORRECT,
        Letter::Partial => GLYPH_PARTIAL,
        Letter::Incorrect => GLYPH_INCORRECT_LIGHT,
    }
}

/// Reads one grid glyph; any other character gives `None`.
pub fn decode_glyph(c: char) -> (r: Option<Letter>)
    ensures
        r == glyph_letter(c),
{
    if c == GLYPH_CORRECT {
        Some(Letter::Correct)
    } else if c == GLYPH_PARTIAL {
        Some(Letter::Partial)
    } else if c == GLYPH_INCORRECT_DARK || c == GLYPH_INCORRECT_LIGHT {
        Some(Letter::Incorrect)
    } else {
        None
    }
}

/// Writes the glyph of a letter (the light-theme square for `Incorrect`).
pub fn encode_letter(l: Letter) -> (c: char)
    ensures
        c == letter_glyph(l),
        glyph_letter(c) == Some(l),
{
    match l {
        Letter::Correct => GLYPH_CORRECT,
        Letter::Partial => GLYPH_PARTIAL,
        Letter::Incorrect => GLYPH_INCORRECT_LIGHT,
    }
}

/// One reported game.
#[derive(Debug, Clone, PartialEq, Eq)]
pub struct Score {
    pub day: u32,
    pub success: bool,
    pub guesses: u8,
    pub hard_mode: bool,
    pub grid: Vec<Vec<Letter>>,
}

/// The mathematical value of a [`Score`].
pub struct ScoreView {
    pub day: u32,
    pub success: bool,
    pub guesses: u8,
    pub hard_mode: bool,
    pub grid: Seq<Seq<Letter>>,
}

impl ScoreView {
    /// Between one and six rows, as many as guesses, each of five letters.
    pub open spec fn valid(self) -> bool {
        &&& 1 <= self.guesses <= 6
        &&& self.grid.len() == self.guesses as int
        &&& forall|i: int| 0 <= i < self.grid.len() ==> (#[trigger] self.grid[i]).len() == 5
    }
}

pub open spec fn grid_view(g: Seq<Vec<Letter>>) -> Seq<Seq<Letter>> {
    g.map_values(|r: Vec<Letter>| r@)
}

impl View for Score {
    type V = ScoreView;

    open spec fn view(&self) -> ScoreView {
        ScoreView {
            day: self.day,
            success: self.success,
            guesses: self.guesses,
            hard_mode: self.hard_mode,
            grid: grid_view(self.grid@),
        }
    }
}

/// A score with the time (seconds since the Unix epoch) of the message that
/// reported it: the unit that the leaderboard stores.
#[derive(Debug, Clone, PartialEq, Eq)]
pub struct TimestampedScore {
    pub timestamp: i64,
    pub score: Score,
}

pub struct TimestampedScoreView {
    pub timestamp: i64,
    pub score: ScoreView,
}

impl View for TimestampedScore {
    type V = TimestampedScoreView;

    open spec fn view(&self) -> TimestampedScoreView {
        TimestampedScoreView { timestamp: self.timestamp, score: self.score@ }
    }
}

} // verus!
