//! The stored form of scores and the keys of the leaderboard.
//!
//! Integers are written big-endian at a fixed width, so that the byte order of
//! keys is their numeric order. A stored value is, in order: the timestamp (8
//! bytes, two's complement), the day (4), success (1), guesses (1), hard mode
//! (1), the number of rows (8), then for each row its length (8) and one 4-byte
//! code per letter (0 correct, 1 partial, 2 incorrect).

use vstd::prelude::*;
use crate::model::{Letter, Score, ScoreView, TimestampedScore, TimestampedScoreView, grid_view};

verus! {

/// Width of the header of a stored value, before its rows.
pub const HEAD_LEN: usize = 23;

/// Width of one stored row of five letters.
pub const ROW_LEN: usize = 28;

pub open spec fn pow256(n: nat) -> nat
    decreases n,
{
    if n == 0 {
        1
    } else {
        256 * pow256((n - 1) as nat)
    }
}

/// The low `w` bytes of `v`, most significant first.
pub open spec fn be_bytes(v: nat, w: nat) -> Seq<u8>
    decreases w,
{
    if w == 0 {
        seq![]
    } else {
        be_bytes(v / 256, (w - 1) as nat).push((v % 256) as u8)
    }
}

/// The number that big-endian bytes write.
pub open spec fn be_value(b: Seq<u8>) -> nat
    decreases b.len(),
{
    if b.len() == 0 {
        0
    } else {
        be_value(b.drop_last()) * 256 + b.last() as nat
    }
}

/// The two's complement bits of a timestamp, as a number.
pub open spec fn i64_bits(t: i64) -> nat {
    if t >= 0 {
        t as nat
    } else {
        (t + pow256(8)) as nat
    }
}

/// The timestamp whose two's complement bits are `v`.
pub open spec fn i64_of_bits(v: nat) -> i64 {
    if v <= i64::MAX {
        v as i64
    } else {
        (v - pow256(8)) as i64
    }
}

pub open spec fn letter_code(l: Letter) -> nat {
    match l {
        Letter::Correct => 0,
        Letter::Partial => 1,
        Letter::Incorrect => 2,
    }
}

pub open spec fn code_letter(c: nat) -> Option<Letter> {
    if c == 0 {
        Some(Letter::Correct)
    } else if c == 1 {
        Some(Letter::Partial)
    } else if c == 2 {
        Some(Letter::Incorrect)
    } else {
        None
    }
}

pub open spec fn bool_byte(b: bool) -> u8 {
    if b {
        1
    } else {
        0
    }
}

pub open spec fn letters_bytes(r: Seq<Letter>) -> Seq<u8>
    decreases r.len(),
{
    if r.len() == 0 {
        seq![]
    } else {
        letters_bytes(r.drop_last()) + be_bytes(letter_code(r.last()), 4)
    }
}

pub open spec fn row_bytes(r: Seq<Letter>) -> Seq<u8> {
    be_bytes(r.len(), 8) + letters_bytes(r)
}

pub open spec fn rows_bytes(g: Seq<Seq<Letter>>) -> Seq<u8>
    decreases g.len(),
{
    if g.len() == 0 {
        seq![]
    } else {
        rows_bytes(g.drop_last()) + row_bytes(g.last())
    }
}

pub open spec fn head_bytes(v: TimestampedScoreView) -> Seq<u8> {
    be_bytes(i64_bits(v.timestamp), 8) + be_bytes(v.score.day as nat, 4) + seq![
        bool_byte(v.score.success),
        v.score.guesses,
        bool_byte(v.score.hard_mode),
    ] + be_bytes(v.score.grid.len(), 8)
}

/// The stored form of a timestamped score.
pub open spec fn encode_spec(v: TimestampedScoreView) -> Seq<u8> {
    head_bytes(v) + rows_bytes(v.score.grid)
}

/// The number written at `b[at..at + w]`.
pub open spec fn field(b: Seq<u8>, at: int, w: int) -> nat {
    be_value(b.subrange(at, at + w))
}

pub open spec fn row_at(i: int) -> int {
    HEAD_LEN + ROW_LEN * i
}

/// The code of letter `j` of row `i`.
pub open spec fn code_at(b: Seq<u8>, i: int, j: int) -> nat {
    field(b, row_at(i) + 8 + 4 * j, 4)
}

pub open spec fn valid_bool(x: u8) -> bool {
    x == 0 || x == 1
}

/// Whether `b` is a well-formed stored value: the right length for its guesses,
/// flags of 0 or 1, between one and six rows, each of five letters.
pub open spec fn well_formed(b: Seq<u8>) -> bool {
    &&& b.len() >= HEAD_LEN
    &&& valid_bool(b[12]) && valid_bool(b[14])
    &&& 1 <= b[13] <= 6
    &&& field(b, 15, 8) == b[13] as nat
    &&& b.len() == row_at(b[13] as int)
    &&& forall|i: int| 0 <= i < b[13] ==> #[trigger] field(b, row_at(i), 8) == 5
    &&& forall|i: int, j: int|
        0 <= i < b[13] && 0 <= j < 5 ==> (#[trigger] code_at(b, i, j)) <= 2
}

/// The timestamped score that well-formed bytes hold.
pub open spec fn decoded(b: Seq<u8>) -> TimestampedScoreView {
    TimestampedScoreView {
        timestamp: i64_of_bits(field(b, 0, 8)),
        score: ScoreView {
            day: field(b, 8, 4) as u32,
            success: b[12] == 1,
            guesses: b[13],
            hard_mode: b[14] == 1,
            grid: Seq::new(
                b[13] as nat,
                |i: int| Seq::new(5, |j: int| code_letter(code_at(b, i, j))->Some_0),
            ),
        },
    }
}

/// What stored bytes decode to: `None` for anything but a well-formed value.
pub open spec fn decode_spec(b: Seq<u8>) -> Option<TimestampedScoreView> {
    if well_formed(b) {
        Some(decoded(b))
    } else {
        None
    }
}

pub proof fn lemma_pow256_8()
    ensures
        pow256(4) == 0x1_0000_0000,
        pow256(8) == 0x1_0000_0000_0000_0000,
{
    reveal_with_fuel(pow256, 9);
}

/// Appends the low `w` bytes of `x`, most significant first.
fn push_be(out: &mut Vec<u8>, x: u64, w: usize)
    requires
        w <= 8,
    ensures
        final(out)@ == old(out)@ + be_bytes(x as nat, w as nat),
    decreases w,
{
    if w > 0 {
        push_be(out, x / 256, w - 1);
        out.push((x % 256) as u8);
        assert(final(out)@ =~= old(out)@ + be_bytes(x as nat, w as nat));
    } else {
        assert(final(out)@ =~= old(out)@ + be_bytes(x as nat, w as nat));
    }
}

fn letter_to_code(l: Letter) -> (c: u64)
    ensures
        c as nat == letter_code(l),
{
    match l {
        Letter::Correct => 0,
        Letter::Partial => 1,
        Letter::Incorrect => 2,
    }
}

fn bool_to_byte(b: bool) -> (x: u8)
    ensures
        x == bool_byte(b),
{
    if b {
        1
    } else {
        0
    }
}

/// Writes a timestamped score in its stored form.
pub fn encode(ts: &TimestampedScore) -> (r: Vec<u8>)
    ensures
        r@ == encode_spec(ts@),
{
    let mut out: Vec<u8> = Vec::new();
    proof {
        lemma_pow256_8();
    }
    let bits: u64 = if ts.timestamp >= 0 {
        ts.timestamp as u64
    } else {
        (ts.timestamp as i128 + 0x1_0000_0000_0000_0000i128) as u64
    };
    push_be(&mut out, bits, 8);
    push_be(&mut out, ts.score.day as u64, 4);
    out.push(bool_to_byte(ts.score.success));
    out.push(ts.score.guesses);
    out.push(bool_to_byte(ts.score.hard_mode));
    let g = &ts.score.grid;
    push_be(&mut out, g.len() as u64, 8);
    assert(out@ =~= head_bytes(ts@));
    let ghost gv = grid_view(g@);
    let mut i: usize = 0;
    assert(gv.take(0) =~= Seq::<Seq<Letter>>::empty());
    while i < g.len()
        invariant
            gv == grid_view(g@),
            i <= g.len(),
            out@ == head_bytes(ts@) + rows_bytes(gv.take(i as int)),
        decreases g.len() - i,
    {
        let r = &g[i];
        let ghost before = out@;
        push_be(&mut out, r.len() as u64, 8);
        let mut j: usize = 0;
        assert(r@.take(0) =~= Seq::<Letter>::empty());
        while j < r.len()
            invariant
                j <= r.len(),
                out@ == before + be_bytes(r@.len(), 8) + letters_bytes(r@.take(j as int)),
            decreases r.len() - j,
        {
            push_be(&mut out, letter_to_code(r[j]), 4);
            assert(r@.take(j + 1).drop_last() =~= r@.take(j as int));
            assert(out@ =~= before + be_bytes(r@.len(), 8) + letters_bytes(r@.take(j + 1)));
            j = j + 1;
        }
        assert(r@.take(j as int) =~= r@);
        assert(gv.take(i + 1).drop_last() =~= gv.take(i as int));
        assert(gv[i as int] == r@);
        assert(out@ =~= head_bytes(ts@) + rows_bytes(gv.take(i + 1)));
        i = i + 1;
    }
    assert(gv.take(i as int) =~= gv);
    out
}


proof fn lemma_pow256_mono(a: nat, b: nat)
    requires
        a <= b,
    ensures
        pow256(a) <= pow256(b),
    decreases b,
{
    if a < b {
        lemma_pow256_mono(a, (b - 1) as nat);
    }
}

/// The number at `b[at..at + w]`.
fn read_be(b: &[u8], at: usize, w: usize) -> (v: u64)
    requires
        w <= 8,
        at + w <= b@.len(),
    ensures
        v as nat == field(b@, at as int, w as int),
        (v as nat) < pow256(w as nat),
{
    let n = b.len();
    let mut v: u64 = 0;
    let mut i: usize = 0;
    assert(b@.subrange(at as int, at as int) =~= Seq::<u8>::empty());
    while i < w
        invariant
            n == b@.len(),
            w <= 8,
            at + w <= b@.len(),
            i <= w,
            v as nat == be_value(b@.subrange(at as int, at + i)),
            (v as nat) < pow256(i as nat),
        decreases w - i,
    {
        let x = b[at + i];
        proof {
            lemma_pow256_8();
            lemma_pow256_mono((i + 1) as nat, 8);
            let p = pow256(i as nat);
            assert(v * 256 + x < 256 * p) by (nonlinear_arith)
                requires
                    v < p,
                    x < 256,
            ;
            assert(b@.subrange(at as int, at + i + 1).drop_last() =~= b@.subrange(
                at as int,
                at + i,
            ));
        }
        v = v * 256 + x as u64;
        i = i + 1;
    }
    v
}

fn code_to_letter(c: u64) -> (r: Option<Letter>)
    ensures
        r == code_letter(c as nat),
{
    if c == 0 {
        Some(Letter::Correct)
    } else if c == 1 {
        Some(Letter::Partial)
    } else if c == 2 {
        Some(Letter::Incorrect)
    } else {
        None
    }
}

/// Reads a stored value back; `None` when the bytes are not a well-formed
/// value (wrong length, a flag other than 0 or 1, a row count outside one to
/// six, a row not of five letters, an unknown letter code).
pub fn decode(b: &[u8]) -> (r: Option<TimestampedScore>)
    ensures
        match decode_spec(b@) {
            Some(v) => r matches Some(ts) && ts@ == v,
            None => r is None,
        },
        r matches Some(ts) ==> ts@.score.valid(),
{
    let n = b.len();
    if n < HEAD_LEN {
        return None;
    }
    let bits = read_be(b, 0, 8);
    let day = read_be(b, 8, 4);
    let success = b[12];
    let guesses = b[13];
    let hard = b[14];
    if !(success == 0 || success == 1) || !(hard == 0 || hard == 1) || guesses < 1 || guesses > 6 {
        return None;
    }
    if read_be(b, 15, 8) != guesses as u64 {
        return None;
    }
    if n != HEAD_LEN + ROW_LEN * guesses as usize {
        return None;
    }
    let ghost bv = b@;
    let ghost target = Seq::new(
        guesses as nat,
        |i: int| Seq::new(5, |j: int| code_letter(code_at(bv, i, j))->Some_0),
    );
    let mut rows: Vec<Vec<Letter>> = Vec::new();
    let mut i: usize = 0;
    while i < guesses as usize
        invariant
            bv == b@,
            n == b@.len(),
            1 <= guesses <= 6,
            guesses == b@[13],
            n == row_at(guesses as int),
            i <= guesses,
            forall|k: int| 0 <= k < i ==> #[trigger] field(bv, row_at(k), 8) == 5,
            forall|k: int, j: int| 0 <= k < i && 0 <= j < 5 ==> (#[trigger] code_at(bv, k, j)) <= 2,
            target == Seq::new(
                guesses as nat,
                |k: int| Seq::new(5, |j: int| code_letter(code_at(bv, k, j))->Some_0),
            ),
            grid_view(rows@) =~= target.take(i as int),
        decreases guesses - i,
    {
        let at = HEAD_LEN + ROW_LEN * i;
        if read_be(b, at, 8) != 5 {
            assert(field(bv, row_at(i as int), 8) != 5);
            return None;
        }
        let mut r: Vec<Letter> = Vec::new();
        let mut j: usize = 0;
        while j < 5
            invariant
                bv == b@,
                n == b@.len(),
                i < guesses <= 6,
                n == row_at(guesses as int),
                at == row_at(i as int),
                j <= 5,
                forall|jj: int| 0 <= jj < j ==> (#[trigger] code_at(bv, i as int, jj)) <= 2,
                r@ =~= Seq::new(j as nat, |jj: int| code_letter(code_at(bv, i as int, jj))->Some_0),
            decreases 5 - j,
        {
            let c = read_be(b, at + 8 + 4 * j, 4);
            match code_to_letter(c) {
                Some(l) => r.push(l),
                None => {
                    assert(code_at(bv, i as int, j as int) > 2);
                    return None;
                },
            }
            j = j + 1;
        }
        proof {
            assert(grid_view(rows@.push(r)) =~= grid_view(rows@).push(r@));
            assert(target.take(i + 1) =~= target.take(i as int).push(target[i as int]));
        }
        rows.push(r);
        i = i + 1;
    }
    assert(target.take(i as int) =~= target);
    proof {
        lemma_pow256_8();
    }
    let timestamp: i64 = if bits <= i64::MAX as u64 {
        bits as i64
    } else {
        (bits as i128 - 0x1_0000_0000_0000_0000i128) as i64
    };
    Some(
        TimestampedScore {
            timestamp,
            score: Score {
                day: day as u32,
                success: success == 1,
                guesses,
                hard_mode: hard == 1,
                grid: rows,
            },
        },
    )
}

proof fn lemma_be_len(x: nat, w: nat)
    ensures
        be_bytes(x, w).len() == w,
    decreases w,
{
    if w > 0 {
        lemma_be_len(x / 256, (w - 1) as nat);
    }
}

proof fn lemma_be_round_trip(x: nat, w: nat)
    requires
        x < pow256(w),
    ensures
        be_value(be_bytes(x, w)) == x,
    decreases w,
{
    if w > 0 {
        let p = pow256((w - 1) as nat);
        assert(x / 256 < p) by (nonlinear_arith)
            requires
                x < 256 * p,
        ;
        lemma_be_round_trip(x / 256, (w - 1) as nat);
        assert(be_bytes(x, w).drop_last() =~= be_bytes(x / 256, (w - 1) as nat));
    }
}

proof fn lemma_prefix_window(a: Seq<u8>, c: Seq<u8>, lo: int, hi: int)
    requires
        0 <= lo <= hi <= a.len(),
    ensures
        (a + c).subrange(lo, hi) == a.subrange(lo, hi),
{
    assert((a + c).subrange(lo, hi) =~= a.subrange(lo, hi));
}

proof fn lemma_suffix_window(a: Seq<u8>, c: Seq<u8>)
    ensures
        (a + c).subrange(a.len() as int, (a.len() + c.len()) as int) == c,
{
    assert((a + c).subrange(a.len() as int, (a.len() + c.len()) as int) =~= c);
}

proof fn lemma_letters_len(r: Seq<Letter>)
    ensures
        letters_bytes(r).len() == 4 * r.len(),
    decreases r.len(),
{
    if r.len() > 0 {
        lemma_letters_len(r.drop_last());
        lemma_be_len(letter_code(r.last()), 4);
    }
}

proof fn lemma_letters_slice(r: Seq<Letter>, j: int)
    requires
        0 <= j < r.len(),
    ensures
        letters_bytes(r).len() == 4 * r.len(),
        letters_bytes(r).subrange(4 * j, 4 * j + 4) == be_bytes(letter_code(r[j]), 4),
    decreases r.len(),
{
    let a = letters_bytes(r.drop_last());
    let c = be_bytes(letter_code(r.last()), 4);
    lemma_letters_len(r);
    lemma_letters_len(r.drop_last());
    lemma_be_len(letter_code(r.last()), 4);
    assert(letters_bytes(r) == a + c);
    if j == r.len() - 1 {
        lemma_suffix_window(a, c);
    } else {
        lemma_letters_slice(r.drop_last(), j);
        lemma_prefix_window(a, c, 4 * j, 4 * j + 4);
        assert(r.drop_last()[j] == r[j]);
    }
}

proof fn lemma_rows_len(g: Seq<Seq<Letter>>)
    requires
        forall|k: int| 0 <= k < g.len() ==> (#[trigger] g[k]).len() == 5,
    ensures
        rows_bytes(g).len() == ROW_LEN * g.len(),
    decreases g.len(),
{
    if g.len() > 0 {
        lemma_rows_len(g.drop_last());
        lemma_be_len(5, 8);
        lemma_letters_len(g.last());
    }
}

proof fn lemma_rows_slice(g: Seq<Seq<Letter>>, i: int)
    requires
        0 <= i < g.len(),
        forall|k: int| 0 <= k < g.len() ==> (#[trigger] g[k]).len() == 5,
    ensures
        rows_bytes(g).len() == ROW_LEN * g.len(),
        rows_bytes(g).subrange(ROW_LEN * i, ROW_LEN * i + ROW_LEN) == row_bytes(g[i]),
    decreases g.len(),
{
    let a = rows_bytes(g.drop_last());
    let c = row_bytes(g.last());
    lemma_rows_len(g);
    lemma_rows_len(g.drop_last());
    lemma_be_len(5, 8);
    lemma_letters_len(g.last());
    assert(rows_bytes(g) == a + c);
    if i == g.len() - 1 {
        lemma_suffix_window(a, c);
    } else {
        lemma_rows_slice(g.drop_last(), i);
        lemma_prefix_window(a, c, ROW_LEN * i, ROW_LEN * i + ROW_LEN);
        assert(g.drop_last()[i] == g[i]);
    }
}

proof fn lemma_encode_head(v: TimestampedScoreView)
    requires
        v.score.valid(),
    ensures
        encode_spec(v).len() == row_at(v.score.grid.len() as int),
        field(encode_spec(v), 0, 8) == i64_bits(v.timestamp),
        field(encode_spec(v), 8, 4) == v.score.day as nat,
        field(encode_spec(v), 15, 8) == v.score.grid.len(),
        encode_spec(v)[12] == bool_byte(v.score.success),
        encode_spec(v)[13] == v.score.guesses,
        encode_spec(v)[14] == bool_byte(v.score.hard_mode),
{
    let b = encode_spec(v);
    let g = v.score.grid;
    lemma_pow256_8();
    lemma_be_len(i64_bits(v.timestamp), 8);
    lemma_be_len(v.score.day as nat, 4);
    lemma_be_len(g.len(), 8);
    lemma_rows_len(g);
    assert(head_bytes(v).len() == HEAD_LEN);
    assert(b.subrange(0, 8) =~= be_bytes(i64_bits(v.timestamp), 8));
    assert(b.subrange(8, 12) =~= be_bytes(v.score.day as nat, 4));
    assert(b.subrange(15, 23) =~= be_bytes(g.len(), 8));
    lemma_be_round_trip(i64_bits(v.timestamp), 8);
    lemma_be_round_trip(v.score.day as nat, 4);
    lemma_be_round_trip(g.len(), 8);
}

proof fn lemma_window(a: Seq<u8>, c: Seq<u8>, at: int, w: int, lo: int, hi: int)
    requires
        0 <= at,
        at + w <= c.len(),
        0 <= lo <= hi <= w,
    ensures
        (a + c).subrange(a.len() + at + lo, a.len() + at + hi) == c.subrange(at, at + w).subrange(
            lo,
            hi,
        ),
{
    assert((a + c).subrange(a.len() + at + lo, a.len() + at + hi) =~= c.subrange(
        at,
        at + w,
    ).subrange(lo, hi));
}

proof fn lemma_row_fields(r: Seq<Letter>, j: int)
    requires
        r.len() == 5,
        0 <= j < 5,
    ensures
        row_bytes(r).subrange(0, 8) == be_bytes(5, 8),
        row_bytes(r).subrange(8 + 4 * j, 8 + 4 * j + 4) == be_bytes(letter_code(r[j]), 4),
{
    lemma_be_len(5, 8);
    lemma_letters_slice(r, j);
    let x = be_bytes(5, 8);
    let y = letters_bytes(r);
    assert((x + y).subrange(0, 8) =~= x);
    assert((x + y).subrange(8 + 4 * j, 8 + 4 * j + 4) =~= y.subrange(4 * j, 4 * j + 4));
}

proof fn lemma_encode_row(v: TimestampedScoreView, i: int, j: int)
    requires
        v.score.valid(),
        0 <= i < v.score.grid.len(),
        0 <= j < 5,
    ensures
        field(encode_spec(v), row_at(i), 8) == 5,
        code_at(encode_spec(v), i, j) == letter_code(v.score.grid[i][j]),
{
    let g = v.score.grid;
    let h = head_bytes(v);
    let rb = rows_bytes(g);
    lemma_pow256_8();
    lemma_be_len(i64_bits(v.timestamp), 8);
    lemma_be_len(v.score.day as nat, 4);
    lemma_be_len(g.len(), 8);
    assert(h.len() == HEAD_LEN);
    lemma_rows_slice(g, i);
    lemma_row_fields(g[i], j);
    lemma_window(h, rb, ROW_LEN * i, ROW_LEN as int, 0, 8);
    lemma_window(h, rb, ROW_LEN * i, ROW_LEN as int, 8 + 4 * j, 8 + 4 * j + 4);
    lemma_be_round_trip(letter_code(g[i][j]), 4);
    lemma_be_round_trip(5, 8);
}

/// Decoding the stored form of a valid timestamped score gives that score
/// back.
pub proof fn lemma_round_trip(v: TimestampedScoreView)
    requires
        v.score.valid(),
    ensures
        decode_spec(encode_spec(v)) == Some(v),
{
    let b = encode_spec(v);
    let g = v.score.grid;
    lemma_pow256_8();
    lemma_encode_head(v);
    assert forall|i: int| 0 <= i < g.len() implies #[trigger] field(b, row_at(i), 8) == 5 by {
        lemma_encode_row(v, i, 0);
    }
    assert forall|i: int, j: int| 0 <= i < g.len() && 0 <= j < 5 implies (#[trigger] code_at(
        b,
        i,
        j,
    )) <= 2 by {
        lemma_encode_row(v, i, j);
    }
    assert(well_formed(b));
    let d = decoded(b);
    assert forall|i: int| 0 <= i < g.len() implies d.score.grid[i] =~= g[i] by {
        assert forall|j: int| 0 <= j < 5 implies d.score.grid[i][j] == g[i][j] by {
            lemma_encode_row(v, i, j);
        }
    }
    assert(d.score.grid =~= g);
}

/// The key of a puzzle day: four bytes, big-endian.
pub fn day_key(day: u32) -> (r: Vec<u8>)
    ensures
        r@ == be_bytes(day as nat, 4),
{
    let mut out: Vec<u8> = Vec::new();
    push_be(&mut out, day as u64, 4);
    assert(out@ =~= be_bytes(day as nat, 4));
    out
}

/// The name of a player's partition: the id in eight bytes, big-endian.
pub fn player_key(id: u64) -> (r: Vec<u8>)
    ensures
        r@ == be_bytes(id as nat, 8),
{
    let mut out: Vec<u8> = Vec::new();
    push_be(&mut out, id, 8);
    assert(out@ =~= be_bytes(id as nat, 8));
    out
}

/// The day that a key names; `None` unless it is four bytes long.
pub fn key_day(k: &[u8]) -> (r: Option<u32>)
    ensures
        r == (if k@.len() == 4 {
            Some(be_value(k@) as u32)
        } else {
            None::<u32>
        }),
{
    if k.len() != 4 {
        return None;
    }
    let v = read_be(k, 0, 4);
    assert(k@.subrange(0, 4) =~= k@);
    proof {
        lemma_pow256_8();
    }
    Some(v as u32)
}

/// What well-formed bytes decode to is a valid score.
pub proof fn lemma_decoded_valid(b: Seq<u8>)
    ensures
        decode_spec(b) matches Some(v) ==> v.score.valid(),
{
}

/// Byte-wise lexicographic order, a proper prefix coming first.
pub open spec fn lex_less(a: Seq<u8>, b: Seq<u8>) -> bool
    decreases a.len(),
{
    if a.len() == 0 {
        b.len() > 0
    } else if b.len() == 0 {
        false
    } else if a[0] != b[0] {
        a[0] < b[0]
    } else {
        lex_less(a.drop_first(), b.drop_first())
    }
}

pub proof fn lemma_be_value_bound(x: Seq<u8>)
    ensures
        be_value(x) < pow256(x.len()),
    decreases x.len(),
{
    if x.len() > 0 {
        lemma_be_value_bound(x.drop_last());
        let v = be_value(x.drop_last());
        let p = pow256((x.len() - 1) as nat);
        let l = x.last();
        assert(v * 256 + l < 256 * p) by (nonlinear_arith)
            requires
                v < p,
                l < 256,
        ;
    }
}

proof fn lemma_be_value_first(x: Seq<u8>)
    requires
        x.len() > 0,
    ensures
        be_value(x) == x[0] * pow256((x.len() - 1) as nat) + be_value(x.drop_first()),
    decreases x.len(),
{
    if x.len() == 1 {
        assert(be_value(x.drop_last()) == 0);
        assert(be_value(x.drop_first()) == 0);
        assert(pow256(0) == 1);
        assert(x.last() == x[0]);
        assert(be_value(x) == x[0] * pow256(0) + be_value(x.drop_first())) by (nonlinear_arith)
            requires
                be_value(x) == be_value(x.drop_last()) * 256 + x.last(),
                be_value(x.drop_last()) == 0,
                be_value(x.drop_first()) == 0,
                pow256(0) == 1,
                x.last() == x[0],
        ;
    } else {
        lemma_be_value_first(x.drop_last());
        assert(x.drop_first().drop_last() =~= x.drop_last().drop_first());
        assert(x.drop_last()[0] == x[0]);
        assert(x.drop_first().last() == x.last());
        let a = x[0] as int;
        let p = pow256((x.len() - 2) as nat);
        assert(pow256((x.len() - 1) as nat) == 256 * p);
        let m = be_value(x.drop_last().drop_first()) as int;
        let l = x.last() as int;
        assert(be_value(x.drop_first()) == m * 256 + l);
        assert(be_value(x) == (a * p + m) * 256 + l);
        assert((a * p + m) * 256 + l == a * (256 * p) + (m * 256 + l)) by (nonlinear_arith);
        assert(be_value(x) == a * pow256((x.len() - 1) as nat) + be_value(x.drop_first()));
    }
}

/// For keys of one length, byte order is the order of the numbers they write.
pub proof fn lemma_lex_less_value(a: Seq<u8>, b: Seq<u8>)
    requires
        a.len() == b.len(),
        lex_less(a, b),
    ensures
        be_value(a) < be_value(b),
    decreases a.len(),
{
    lemma_be_value_first(a);
    lemma_be_value_first(b);
    let p = pow256((a.len() - 1) as nat);
    if a[0] != b[0] {
        lemma_be_value_bound(a.drop_first());
        let x = a[0] as int;
        let y = b[0] as int;
        let ra = be_value(a.drop_first()) as int;
        let rb = be_value(b.drop_first()) as int;
        assert(x * p + ra < y * p + rb) by (nonlinear_arith)
            requires
                x < y,
                0 <= ra < p,
                0 <= rb,
        ;
    } else {
        lemma_lex_less_value(a.drop_first(), b.drop_first());
    }
}

} // verus!
