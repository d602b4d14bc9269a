//! The grammar of a shared Wordle result, and a recursive-descent parser for it.
//!
//! A report is a header line `Wordle <day> <g>/<n>[*]`, where `<g>` is a digit
//! from 1 to 6 or `X`, then at most one blank line, then one grid row of five
//! glyphs per guess. Every row ends with a line ending; the last may end the
//! input instead. Whatever follows the grid is handed back untouched.

use vstd::prelude::*;
use crate::model::{Letter, Score, ScoreView, decode_glyph, glyph_letter, grid_view, letter_glyph};

verus! {

/// Why a message is not a score report.
#[derive(Debug, Clone, Copy, PartialEq, Eq, Structural)]
pub enum ParseError {
    /// The first line is not a well-formed header.
    Header,
    /// The grid does not hold the announced number of well-formed rows.
    Grid,
}

/// What the header line announces.
pub struct Header {
    pub day: u32,
    pub success: bool,
    pub guesses: u8,
    pub hard_mode: bool,
}

pub open spec fn is_space(c: char) -> bool {
    c == ' ' || c == '\t'
}

pub open spec fn is_digit(c: char) -> bool {
    '0' <= c && c <= '9'
}

pub open spec fn in_class(c: char, digits: bool) -> bool {
    if digits {
        is_digit(c)
    } else {
        is_space(c)
    }
}

pub open spec fn digit_value(c: char) -> nat {
    (c as int - '0' as int) as nat
}

/// Length of the longest prefix of `s` made of digits (or of spaces).
pub open spec fn run_len(s: Seq<char>, digits: bool) -> nat
    decreases s.len(),
{
    if s.len() > 0 && in_class(s[0], digits) {
        1 + run_len(s.drop_first(), digits)
    } else {
        0
    }
}

/// The number that a string of decimal digits writes.
pub open spec fn decimal(s: Seq<char>) -> nat
    decreases s.len(),
{
    if s.len() == 0 {
        0
    } else {
        decimal(s.drop_last()) * 10 + digit_value(s.last())
    }
}

/// Length of the line ending (`\n` or `\r\n`) at the front of `s`; 0 if none.
pub open spec fn line_end_len(s: Seq<char>) -> nat {
    if s.len() >= 1 && s[0] == '\n' {
        1
    } else if s.len() >= 2 && s[0] == '\r' && s[1] == '\n' {
        2
    } else {
        0
    }
}

pub open spec fn tag() -> Seq<char> {
    seq!['W', 'o', 'r', 'd', 'l', 'e']
}

/// `1` to `6` announce a win in that many guesses; `X` a loss, counted as six.
pub open spec fn guess_indicator(c: char) -> Option<(bool, u8)> {
    if '1' <= c && c <= '6' {
        Some((true, digit_value(c) as u8))
    } else if c == 'X' {
        Some((false, 6))
    } else {
        None
    }
}

/// The header at the front of `s`, with the number of characters it takes,
/// its line ending included.
pub open spec fn header_spec(s: Seq<char>) -> Option<(Header, int)> {
    let p2: int = 6 + run_len(s.skip(6), false) as int;
    let p3: int = p2 + run_len(s.skip(p2), true) as int;
    let p4: int = p3 + run_len(s.skip(p3), false) as int;
    let p6: int = p4 + 2;
    let p7: int = p6 + run_len(s.skip(p6), true) as int;
    let star = p7 < s.len() && s[p7] == '*';
    let p8: int = if star {
        p7 + 1
    } else {
        p7
    };
    let day = decimal(s.subrange(p2, p3));
    if s.len() >= 6 && s.take(6) == tag() && p2 > 6 && p3 > p2 && day <= u32::MAX && p4 > p3
        && p4 + 1 < s.len() && guess_indicator(s[p4]) is Some && s[p4 + 1] == '/' && p7 > p6
        && (p8 == s.len() || line_end_len(s.skip(p8)) > 0) {
        let ind = guess_indicator(s[p4])->Some_0;
        Some(
            (
                Header { day: day as u32, success: ind.0, guesses: ind.1, hard_mode: star },
                p8 + line_end_len(s.skip(p8)),
            ),
        )
    } else {
        None
    }
}

/// The row of five letters written by the first five glyphs of `s`.
pub open spec fn row_spec(s: Seq<char>) -> Option<Seq<Letter>> {
    if s.len() >= 5 && forall|j: int| 0 <= j < 5 ==> (#[trigger] glyph_letter(s[j])) is Some {
        Some(Seq::new(5, |j: int| glyph_letter(s[j])->Some_0))
    } else {
        None
    }
}

/// `n` grid rows at the front of `s`, with the number of characters they take.
pub open spec fn grid_spec(s: Seq<char>, n: nat) -> Option<(Seq<Seq<Letter>>, int)>
    decreases n,
{
    if n == 0 {
        Some((seq![], 0))
    } else {
        match row_spec(s) {
            None => None,
            Some(row) => {
                let le: int = line_end_len(s.skip(5)) as int;
                if le == 0 && !(n == 1 && s.len() == 5) {
                    None
                } else {
                    match grid_spec(s.skip(5 + le), (n - 1) as nat) {
                        None => None,
                        Some((rows, k)) => Some((seq![row] + rows, 5 + le + k)),
                    }
                }
            },
        }
    }
}

/// The score that `s` reports, with the number of characters the report takes.
pub open spec fn parse_spec(s: Seq<char>) -> Result<(ScoreView, int), ParseError> {
    match header_spec(s) {
        None => Err(ParseError::Header),
        Some((h, k)) => {
            let k2: int = k + line_end_len(s.skip(k));
            match grid_spec(s.skip(k2), h.guesses as nat) {
                None => Err(ParseError::Grid),
                Some((g, m)) => Ok(
                    (
                        ScoreView {
                            day: h.day,
                            success: h.success,
                            guesses: h.guesses,
                            hard_mode: h.hard_mode,
                            grid: g,
                        },
                        k2 + m,
                    ),
                ),
            }
        },
    }
}

proof fn lemma_grid_shape(s: Seq<char>, n: nat)
    ensures
        grid_spec(s, n) matches Some((g, k)) ==> g.len() == n && forall|i: int|
            0 <= i < g.len() ==> (#[trigger] g[i]).len() == 5,
    decreases n,
{
    if n > 0 {
        if let Some(row) = row_spec(s) {
            let le: int = line_end_len(s.skip(5)) as int;
            lemma_grid_shape(s.skip(5 + le), (n - 1) as nat);
            if let Some((rows, k)) = grid_spec(s.skip(5 + le), (n - 1) as nat) {
                let g = seq![row] + rows;
                assert forall|i: int| 0 <= i < g.len() implies (#[trigger] g[i]).len() == 5 by {
                    if i > 0 {
                        assert(g[i] == rows[i - 1]);
                    }
                }
            }
        }
    }
}

/// A report that parses describes a valid score.
pub proof fn lemma_parse_valid(s: Seq<char>)
    ensures
        parse_spec(s) matches Ok((v, k)) ==> v.valid(),
{
    if let Some((h, k)) = header_spec(s) {
        let k2: int = k + line_end_len(s.skip(k));
        lemma_grid_shape(s.skip(k2), h.guesses as nat);
    }
}

/// Whatever the input, a report that parses as a loss counts six guesses;
/// only the `X` indicator gives a loss, whatever digits follow its slash.
pub proof fn lemma_loss_counts_six(s: Seq<char>)
    ensures
        parse_spec(s) matches Ok((v, k)) ==> (!v.success ==> v.guesses == 6),
{
}

fn char_in_class(c: char, digits: bool) -> (r: bool)
    ensures
        r == in_class(c, digits),
{
    if digits {
        '0' <= c && c <= '9'
    } else {
        c == ' ' || c == '\t'
    }
}

/// End of the run of digits (or spaces) that starts at `p`.
fn skip_run(s: &str, n: usize, p: usize, digits: bool) -> (e: usize)
    requires
        n == s@.len(),
        p <= n,
    ensures
        p <= e <= n,
        e == p + run_len(s@.skip(p as int), digits),
        forall|i: int| p <= i < e ==> in_class(#[trigger] s@[i], digits),
{
    let mut e = p;
    while e < n
        invariant
            n == s@.len(),
            p <= e <= n,
            run_len(s@.skip(p as int), digits) == (e - p) + run_len(s@.skip(e as int), digits),
            forall|i: int| p <= i < e ==> in_class(#[trigger] s@[i], digits),
        decreases n - e,
    {
        assert(s@.skip(e as int).drop_first() =~= s@.skip(e + 1));
        let c = s.get_char(e);
        if !char_in_class(c, digits) {
            return e;
        }
        e = e + 1;
    }
    e
}

proof fn lemma_decimal_prefix(t: Seq<char>, k: int)
    requires
        0 <= k <= t.len(),
    ensures
        decimal(t.take(k)) <= decimal(t),
    decreases t.len(),
{
    if k < t.len() {
        lemma_decimal_prefix(t.drop_last(), k);
        assert(t.drop_last().take(k) =~= t.take(k));
    } else {
        assert(t.take(k) =~= t);
    }
}

/// The value of the digits in `p..e`, if it fits in a `u32`.
fn read_u32(s: &str, n: usize, p: usize, e: usize) -> (r: Option<u32>)
    requires
        n == s@.len(),
        p <= e <= n,
        forall|i: int| p <= i < e ==> is_digit(#[trigger] s@[i]),
    ensures
        r == (if decimal(s@.subrange(p as int, e as int)) <= u32::MAX {
            Some(decimal(s@.subrange(p as int, e as int)) as u32)
        } else {
            None::<u32>
        }),
{
    let mut v: u64 = 0;
    let mut i = p;
    assert(s@.subrange(p as int, p as int) =~= Seq::<char>::empty());
    while i < e
        invariant
            n == s@.len(),
            p <= i <= e <= n,
            forall|j: int| p <= j < e ==> is_digit(#[trigger] s@[j]),
            v == decimal(s@.subrange(p as int, i as int)),
            v <= u32::MAX,
        decreases e - i,
    {
        let c = s.get_char(i);
        assert(is_digit(s@[i as int]));
        let d = (c as u32 - '0' as u32) as u64;
        assert(s@.subrange(p as int, i + 1).drop_last() =~= s@.subrange(p as int, i as int));
        v = v * 10 + d;
        i = i + 1;
        if v > u32::MAX as u64 {
            proof {
                lemma_decimal_prefix(s@.subrange(p as int, e as int), i - p);
                assert(s@.subrange(p as int, e as int).take(i - p) =~= s@.subrange(
                    p as int,
                    i as int,
                ));
            }
            return None;
        }
    }
    Some(v as u32)
}

/// Length of the line ending at `p`; 0 if none.
fn line_end(s: &str, n: usize, p: usize) -> (k: usize)
    requires
        n == s@.len(),
        p <= n,
    ensures
        k == line_end_len(s@.skip(p as int)),
        p + k <= n,
{
    if p < n && s.get_char(p) == '\n' {
        1
    } else if n - p >= 2 && s.get_char(p) == '\r' && s.get_char(p + 1) == '\n' {
        2
    } else {
        0
    }
}


/// The header at the front of `s`, with the position just past its line ending.
fn header(s: &str, n: usize) -> (r: Option<(Header, usize)>)
    requires
        n == s@.len(),
    ensures
        header_spec(s@) == (match r {
            Some((h, k)) => Some((h, k as int)),
            None => None::<(Header, int)>,
        }),
        r matches Some((h, k)) ==> k <= n,
{
    proof {
        reveal_strlit("Wordle");
    }
    if n < 6 {
        return None;
    }
    if !(s.get_char(0) == 'W' && s.get_char(1) == 'o' && s.get_char(2) == 'r' && s.get_char(3)
        == 'd' && s.get_char(4) == 'l' && s.get_char(5) == 'e') {
        assert(s@.take(6)[0] != 'W' || s@.take(6)[1] != 'o' || s@.take(6)[2] != 'r' || s@.take(
            6,
        )[3] != 'd' || s@.take(6)[4] != 'l' || s@.take(6)[5] != 'e');
        assert(s@.take(6) != tag());
        return None;
    }
    assert(s@.take(6) =~= tag());
    let p2 = skip_run(s, n, 6, false);
    if p2 == 6 {
        return None;
    }
    let p3 = skip_run(s, n, p2, true);
    if p3 == p2 {
        return None;
    }
    let day = match read_u32(s, n, p2, p3) {
        Some(d) => d,
        None => {
            return None;
        },
    };
    let p4 = skip_run(s, n, p3, false);
    if p4 == p3 || n - p4 < 2 {
        return None;
    }
    let c = s.get_char(p4);
    let (success, guesses) = if '1' <= c && c <= '6' {
        (true, (c as u32 - '0' as u32) as u8)
    } else if c == 'X' {
        (false, 6u8)
    } else {
        return None;
    };
    if s.get_char(p4 + 1) != '/' {
        return None;
    }
    let p6 = p4 + 2;
    let p7 = skip_run(s, n, p6, true);
    if p7 == p6 {
        return None;
    }
    let star = p7 < n && s.get_char(p7) == '*';
    let p8 = if star {
        p7 + 1
    } else {
        p7
    };
    let le = line_end(s, n, p8);
    if p8 < n && le == 0 {
        return None;
    }
    Some((Header { day, success, guesses, hard_mode: star }, p8 + le))
}

/// The five letters of the row at `p`.
fn row(s: &str, n: usize, p: usize) -> (r: Option<Vec<Letter>>)
    requires
        n == s@.len(),
        p <= n,
    ensures
        row_spec(s@.skip(p as int)) == (match r {
            Some(v) => Some(v@),
            None => None::<Seq<Letter>>,
        }),
{
    let ghost t = s@.skip(p as int);
    if n - p < 5 {
        return None;
    }
    let mut v: Vec<Letter> = Vec::new();
    let mut j: usize = 0;
    while j < 5
        invariant
            n == s@.len(),
            p + 5 <= n,
            t == s@.skip(p as int),
            j <= 5,
            forall|i: int| 0 <= i < j ==> (#[trigger] glyph_letter(t[i])) is Some,
            v@ =~= Seq::new(j as nat, |i: int| glyph_letter(t[i])->Some_0),
        decreases 5 - j,
    {
        let c = s.get_char(p + j);
        assert(t[j as int] == c);
        match decode_glyph(c) {
            Some(l) => {
                v.push(l);
            },
            None => {
                assert(glyph_letter(t[j as int]) is None);
                return None;
            },
        }
        j = j + 1;
    }
    Some(v)
}

/// `g` grid rows from position `p`, with the position just past them.
fn grid(s: &str, n: usize, p: usize, g: u8) -> (r: Option<(Vec<Vec<Letter>>, usize)>)
    requires
        n == s@.len(),
        p <= n,
    ensures
        grid_spec(s@.skip(p as int), g as nat) == (match r {
            Some((v, q)) => Some((grid_view(v@), q - p)),
            None => None::<(Seq<Seq<Letter>>, int)>,
        }),
        r matches Some((v, q)) ==> p <= q <= n,
{
    let mut rows: Vec<Vec<Letter>> = Vec::new();
    let mut q = p;
    let mut k: u8 = 0;
    while k < g
        invariant
            n == s@.len(),
            p <= q <= n,
            k <= g,
            grid_spec(s@.skip(p as int), g as nat) == (match grid_spec(
                s@.skip(q as int),
                (g - k) as nat,
            ) {
                Some((rest, m)) => Some((grid_view(rows@) + rest, (q - p) + m)),
                None => None::<(Seq<Seq<Letter>>, int)>,
            }),
        decreases g - k,
    {
        let ghost t = s@.skip(q as int);
        let ghost m = (g - k) as nat;
        let next = match row(s, n, q) {
            Some(v) => v,
            None => {
                return None;
            },
        };
        let le = line_end(s, n, q + 5);
        assert(t.skip(5) =~= s@.skip(q + 5));
        if le == 0 && !(g - k == 1 && q + 5 == n) {
            return None;
        }
        assert(t.skip(5 + le) =~= s@.skip(q + 5 + le));
        proof {
            let ghost old_view = grid_view(rows@);
            assert(grid_view(rows@.push(next)) =~= old_view.push(next@));
            match grid_spec(s@.skip(q + 5 + le), (m - 1) as nat) {
                Some((rest, mm)) => {
                    assert(old_view + (seq![next@] + rest) =~= old_view.push(next@) + rest);
                },
                None => {},
            }
        }
        rows.push(next);
        q = q + 5 + le;
        k = k + 1;
    }
    assert(grid_view(rows@) + seq![] =~= grid_view(rows@));
    Some((rows, q))
}

/// Reads a score report from the front of `input`. On success, returns what
/// follows the report (anything after the last grid row and its line ending)
/// and the score; otherwise says which part did not match. `input` is not
/// required to hold anything else.
pub fn parse(input: &str) -> (r: Result<(&str, Score), ParseError>)
    ensures
        match parse_spec(input@) {
            Ok((v, k)) => r matches Ok((rest, score)) && score@ == v && rest@ == input@.skip(k),
            Err(e) => r == Err::<(&str, Score), ParseError>(e),
        },
        r matches Ok((rest, score)) ==> score@.valid(),
{
    proof {
        lemma_parse_valid(input@);
    }
    let n = input.unicode_len();
    let (h, k) = match header(input, n) {
        Some(hk) => hk,
        None => {
            return Err(ParseError::Header);
        },
    };
    let k2 = k + line_end(input, n, k);
    let (rows, q) = match grid(input, n, k2, h.guesses) {
        Some(gq) => gq,
        None => {
            return Err(ParseError::Grid);
        },
    };
    let rest = input.substring_char(q, n);
    assert(rest@ =~= input@.skip(q as int));
    Ok(
        (
            rest,
            Score {
                day: h.day,
                success: h.success,
                guesses: h.guesses,
                hard_mode: h.hard_mode,
                grid: rows,
            },
        ),
    )
}

/// The line that writes a row of letters.
pub open spec fn row_line(r: Seq<Letter>) -> Seq<char> {
    Seq::new(5, |j: int| letter_glyph(r[j])).push('\n')
}

/// The lines that write a grid.
pub open spec fn rows_text(rows: Seq<Seq<Letter>>) -> Seq<char>
    decreases rows.len(),
{
    if rows.len() == 0 {
        seq![]
    } else {
        row_line(rows[0]) + rows_text(rows.drop_first())
    }
}

/// The header line `Wordle <digits> <ind>/<tail>[*]`, with its line ending.
pub open spec fn header_line(digits: Seq<char>, ind: char, tail: Seq<char>, hard: bool) -> Seq<
    char,
> {
    tag() + seq![' '] + digits + seq![' ', ind, '/'] + tail + (if hard {
        seq!['*']
    } else {
        seq![]
    }) + seq!['\n']
}

/// A whole report: header, an optional blank line, the grid.
pub open spec fn report_text(
    digits: Seq<char>,
    ind: char,
    tail: Seq<char>,
    hard: bool,
    blank: bool,
    rows: Seq<Seq<Letter>>,
) -> Seq<char> {
    header_line(digits, ind, tail, hard) + (if blank {
        seq!['\n']
    } else {
        seq![]
    }) + rows_text(rows)
}

proof fn lemma_run_at(s: Seq<char>, p: int, len: int, digits: bool)
    requires
        0 <= p,
        0 <= len,
        p + len <= s.len(),
        forall|i: int| p <= i < p + len ==> in_class(#[trigger] s[i], digits),
        p + len == s.len() || !in_class(s[p + len], digits),
    ensures
        run_len(s.skip(p), digits) == len,
    decreases len,
{
    assert(s.skip(p).len() > 0 ==> s.skip(p)[0] == s[p]);
    if len > 0 {
        assert(s.skip(p).drop_first() =~= s.skip(p + 1));
        lemma_run_at(s, p + 1, len - 1, digits);
    }
}

proof fn lemma_rows_parse(rows: Seq<Seq<Letter>>, rest: Seq<char>)
    requires
        forall|i: int| 0 <= i < rows.len() ==> (#[trigger] rows[i]).len() == 5,
    ensures
        rows_text(rows).len() == 6 * rows.len(),
        grid_spec(rows_text(rows) + rest, rows.len()) == Some((rows, 6 * rows.len() as int)),
    decreases rows.len(),
{
    if rows.len() > 0 {
        let r = rows[0];
        let tl = rows.drop_first();
        assert forall|i: int| 0 <= i < tl.len() implies (#[trigger] tl[i]).len() == 5 by {
            assert(tl[i] == rows[i + 1]);
        }
        lemma_rows_parse(tl, rest);
        let s = rows_text(rows) + rest;
        let line = row_line(r);
        assert(s =~= line + (rows_text(tl) + rest));
        assert forall|j: int| 0 <= j < 5 implies (#[trigger] glyph_letter(s[j])) is Some by {
            assert(s[j] == letter_glyph(r[j]));
        }
        assert(row_spec(s) == Some(r)) by {
            assert(Seq::new(5, |j: int| glyph_letter(s[j])->Some_0) =~= r);
        }
        assert(s.skip(5)[0] == '\n');
        assert(s.skip(6) =~= rows_text(tl) + rest);
        assert(seq![r] + tl =~= rows);
    } else {
        assert(rows_text(rows) + rest =~= rest);
    }
}

proof fn lemma_header_chars(digits: Seq<char>, ind: char, tail: Seq<char>, hard: bool, t: Seq<char>)
    ensures
        ({
            let s = header_line(digits, ind, tail, hard) + t;
            let d = digits.len() as int;
            let l = tail.len() as int;
            let st: int = if hard {
                1
            } else {
                0
            };
            &&& header_line(digits, ind, tail, hard).len() == 11 + d + l + st
            &&& s.take(6) == tag()
            &&& s[6] == ' '
            &&& s.subrange(7, 7 + d) == digits
            &&& s[7 + d] == ' '
            &&& s[8 + d] == ind
            &&& s[9 + d] == '/'
            &&& s.subrange(10 + d, 10 + d + l) == tail
            &&& (hard ==> s[10 + d + l] == '*')
            &&& s[10 + d + l + st] == '\n'
        }),
{
    let s = header_line(digits, ind, tail, hard) + t;
    let d = digits.len() as int;
    let l = tail.len() as int;
    assert(s.take(6) =~= tag());
    assert(s.subrange(7, 7 + d) =~= digits);
    assert(s.subrange(10 + d, 10 + d + l) =~= tail);
}

proof fn lemma_header_parses(digits: Seq<char>, ind: char, tail: Seq<char>, hard: bool, t: Seq<char>)
    requires
        digits.len() > 0,
        forall|i: int| 0 <= i < digits.len() ==> is_digit(#[trigger] digits[i]),
        decimal(digits) <= u32::MAX,
        tail.len() > 0,
        forall|i: int| 0 <= i < tail.len() ==> is_digit(#[trigger] tail[i]),
        ('1' <= ind && ind <= '6') || ind == 'X',
    ensures
        header_spec(header_line(digits, ind, tail, hard) + t) == Some(
            (
                Header {
                    day: decimal(digits) as u32,
                    success: ind != 'X',
                    guesses: if ind == 'X' {
                        6
                    } else {
                        digit_value(ind) as u8
                    },
                    hard_mode: hard,
                },
                header_line(digits, ind, tail, hard).len() as int,
            ),
        ),
{
    let s = header_line(digits, ind, tail, hard) + t;
    let d = digits.len() as int;
    let l = tail.len() as int;
    let st: int = if hard {
        1
    } else {
        0
    };
    lemma_header_chars(digits, ind, tail, hard, t);
    assert forall|i: int| 7 <= i < 7 + d implies is_digit(#[trigger] s[i]) by {
        assert(s[i] == s.subrange(7, 7 + d)[i - 7]);
    }
    assert forall|i: int| 10 + d <= i < 10 + d + l implies is_digit(#[trigger] s[i]) by {
        assert(s[i] == s.subrange(10 + d, 10 + d + l)[i - 10 - d]);
    }
    assert(s[10 + d + l] == '*' || s[10 + d + l] == '\n');
    lemma_run_at(s, 6, 1, false);
    lemma_run_at(s, 7, d, true);
    lemma_run_at(s, 7 + d, 1, false);
    lemma_run_at(s, 10 + d, l, true);
    assert(s.skip(10 + d + l + st)[0] == '\n');
}

/// A report built from a day number's digits, a guess indicator (`1` to `6`
/// or `X`), any digits after the slash, the hard-mode marker or not, a blank
/// line or not, and as many rows of five letters as the indicator announces,
/// parses, whatever follows it, to that score: won in that many guesses, or
/// lost in six for `X`, in hard mode exactly when the marker is there.
pub proof fn lemma_report_parses(
    digits: Seq<char>,
    ind: char,
    tail: Seq<char>,
    hard: bool,
    blank: bool,
    rows: Seq<Seq<Letter>>,
    rest: Seq<char>,
)
    requires
        digits.len() > 0,
        forall|i: int| 0 <= i < digits.len() ==> is_digit(#[trigger] digits[i]),
        decimal(digits) <= u32::MAX,
        tail.len() > 0,
        forall|i: int| 0 <= i < tail.len() ==> is_digit(#[trigger] tail[i]),
        ('1' <= ind && ind <= '6') || ind == 'X',
        rows.len() == (if ind == 'X' {
            6
        } else {
            digit_value(ind)
        }),
        forall|i: int| 0 <= i < rows.len() ==> (#[trigger] rows[i]).len() == 5,
    ensures
        parse_spec(report_text(digits, ind, tail, hard, blank, rows) + rest) == Ok::<
            (ScoreView, int),
            ParseError,
        >(
            (
                ScoreView {
                    day: decimal(digits) as u32,
                    success: ind != 'X',
                    guesses: rows.len() as u8,
                    hard_mode: hard,
                    grid: rows,
                },
                report_text(digits, ind, tail, hard, blank, rows).len() as int,
            ),
        ),
{
    let h = header_line(digits, ind, tail, hard);
    let b: Seq<char> = if blank {
        seq!['\n']
    } else {
        seq![]
    };
    let rt = rows_text(rows);
    let t = b + (rt + rest);
    let s = report_text(digits, ind, tail, hard, blank, rows) + rest;
    lemma_rows_parse(rows, rest);
    assert(s =~= h + t);
    lemma_header_parses(digits, ind, tail, hard, t);
    lemma_after_header(b, rows, rest);
    assert(s.skip(h.len() as int) =~= t);
    assert(s.skip((h.len() + b.len()) as int) =~= rt + rest);
    lemma_parse_parts(s, h.len() as int, b.len(), rows, rest);
}

proof fn lemma_after_header(b: Seq<char>, rows: Seq<Seq<Letter>>, rest: Seq<char>)
    requires
        b == seq!['\n'] || b == Seq::<char>::empty(),
        rows.len() > 0,
        rows[0].len() == 5,
    ensures
        line_end_len(b + (rows_text(rows) + rest)) == b.len(),
{
    let t = b + (rows_text(rows) + rest);
    assert(rows_text(rows)[0] == letter_glyph(rows[0][0]));
    assert(b.len() == 0 ==> t[0] == letter_glyph(rows[0][0]));
    assert(b.len() == 1 ==> t[0] == '\n');
}

proof fn lemma_parse_parts(s: Seq<char>, k: int, b: nat, rows: Seq<Seq<Letter>>, rest: Seq<char>)
    requires
        header_spec(s) matches Some((h, kk)) && kk == k && h.guesses == rows.len(),
        line_end_len(s.skip(k)) == b,
        s.skip(k + b) == rows_text(rows) + rest,
        grid_spec(rows_text(rows) + rest, rows.len()) == Some((rows, 6 * rows.len() as int)),
    ensures
        parse_spec(s) == Ok::<(ScoreView, int), ParseError>(
            (
                ScoreView {
                    day: header_spec(s)->Some_0.0.day,
                    success: header_spec(s)->Some_0.0.success,
                    guesses: header_spec(s)->Some_0.0.guesses,
                    hard_mode: header_spec(s)->Some_0.0.hard_mode,
                    grid: rows,
                },
                k + b + 6 * rows.len(),
            ),
        ),
{
}

} // verus!
