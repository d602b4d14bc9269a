//! Statistics over a player's entries.

use vstd::prelude::*;
use crate::model::TimestampedScore;

verus! {

/// Counts over the entries considered. The mean number of guesses is
/// `guess_sum / total`; the win rate is `successes / total`.
#[derive(Debug, Clone, Copy, PartialEq, Eq, Structural)]
pub struct Stats {
    pub total: u64,
    pub successes: u64,
    pub guess_sum: u128,
    pub hard_mode_count: u64,
}

/// The counts as numbers.
pub struct Tally {
    pub total: nat,
    pub successes: nat,
    pub guess_sum: nat,
    pub hard_mode_count: nat,
}

impl View for Stats {
    type V = Tally;

    open spec fn view(&self) -> Tally {
        Tally {
            total: self.total as nat,
            successes: self.successes as nat,
            guess_sum: self.guess_sum as nat,
            hard_mode_count: self.hard_mode_count as nat,
        }
    }
}

/// Whether an entry (day, score) is considered under a day filter.
pub open spec fn considered(e: (u32, TimestampedScore), day: Option<u32>) -> bool {
    match day {
        Some(d) => e.0 == d,
        None => true,
    }
}

pub open spec fn flag(b: bool) -> nat {
    if b {
        1
    } else {
        0
    }
}

/// The counts over the entries considered: how many, how many won, the sum of
/// their guesses (a loss counts six), how many were played in hard mode.
pub open spec fn tally(e: Seq<(u32, TimestampedScore)>, day: Option<u32>) -> Tally
    decreases e.len(),
{
    if e.len() == 0 {
        Tally { total: 0, successes: 0, guess_sum: 0, hard_mode_count: 0 }
    } else {
        let t = tally(e.drop_last(), day);
        let x = e.last();
        if considered(x, day) {
            Tally {
                total: t.total + 1,
                successes: t.successes + flag(x.1.score.success),
                guess_sum: t.guess_sum + x.1.score.guesses as nat,
                hard_mode_count: t.hard_mode_count + flag(x.1.score.hard_mode),
            }
        } else {
            t
        }
    }
}

proof fn lemma_tally_bounds(e: Seq<(u32, TimestampedScore)>, day: Option<u32>)
    ensures
        tally(e, day).total <= e.len(),
        tally(e, day).successes <= tally(e, day).total,
        tally(e, day).hard_mode_count <= tally(e, day).total,
        tally(e, day).guess_sum <= 255 * tally(e, day).total,
    decreases e.len(),
{
    if e.len() > 0 {
        lemma_tally_bounds(e.drop_last(), day);
    }
}

/// The statistics of the entries on `day` (of all entries when `day` is
/// `None`); `None` when no entry is considered, so that no rate is computed
/// over nothing.
pub fn aggregate(entries: &Vec<(u32, TimestampedScore)>, day: Option<u32>) -> (r: Option<Stats>)
    ensures
        match r {
            None => tally(entries@, day).total == 0,
            Some(s) => s@ == tally(entries@, day) && s.total > 0,
        },
{
    let mut total: u64 = 0;
    let mut successes: u64 = 0;
    let mut guess_sum: u128 = 0;
    let mut hard: u64 = 0;
    let mut i: usize = 0;
    while i < entries.len()
        invariant
            i <= entries@.len(),
            (Stats { total, successes, guess_sum, hard_mode_count: hard })@ == tally(
                entries@.take(i as int),
                day,
            ),
        decreases entries@.len() - i,
    {
        let e = &entries[i];
        proof {
            assert(entries@.take(i + 1).drop_last() =~= entries@.take(i as int));
            lemma_tally_bounds(entries@.take(i as int), day);
            lemma_tally_bounds(entries@.take(i + 1), day);
        }
        let counted = match day {
            Some(d) => e.0 == d,
            None => true,
        };
        if counted {
            total = total + 1;
            if e.1.score.success {
                successes = successes + 1;
            }
            guess_sum = guess_sum + e.1.score.guesses as u128;
            if e.1.score.hard_mode {
                hard = hard + 1;
            }
        }
        i = i + 1;
    }
    assert(entries@.take(i as int) =~= entries@);
    if total == 0 {
        None
    } else {
        Some(Stats { total, successes, guess_sum, hard_mode_count: hard })
    }
}

} // verus!
