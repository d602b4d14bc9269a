//! Taking in reports: one live message at a time, or a channel's history read
//! newest first (a backfill), which stops at the first message older than the
//! configured bound.

use std::collections::HashSet;
use vstd::prelude::*;
use crate::model::TimestampedScore;
use crate::parser::{parse, parse_spec};
use crate::store::{Leaderboard, Outcome, StoreError, outcome_spec};

verus! {

broadcast use vstd::std_specs::hash::group_hash_axioms;

pub const SECONDS_PER_DAY: i64 = 86400;

/// The first moment of `day`, counted from the first moment of day one.
pub open spec fn day_start(day_one: int, day: int) -> int {
    day_one + (day - 1) * SECONDS_PER_DAY
}

/// Seconds from the first moment of day one to that of `day`.
fn day_span(day: u32) -> (r: i128)
    requires
        1 <= day,
    ensures
        r == (day - 1) * SECONDS_PER_DAY,
        0 <= r <= 0xffff_ffff * SECONDS_PER_DAY,
{
    let days: i128 = day as i128 - 1;
    assert(0 <= days * 86400 <= 0xffff_ffff * 86400) by (nonlinear_arith)
        requires
            0 <= days <= 0xffff_ffff,
    ;
    days * (SECONDS_PER_DAY as i128)
}

/// The first moment of a puzzle day, in seconds since the Unix epoch, given
/// that of day one.
pub fn day_to_datetime(day_one: i64, day: u32) -> (r: i64)
    requires
        1 <= day,
        i64::MIN <= day_start(day_one as int, day as int) <= i64::MAX,
    ensures
        r == day_start(day_one as int, day as int),
{
    let span = day_span(day);
    (day_one as i128 + span) as i64
}

/// Whether a report of `day`, sent at `timestamp`, was sent within `window`
/// seconds of the first moment of that day.
pub open spec fn day_ok_spec(day_one: i64, day: u32, timestamp: i64, window: i64) -> bool {
    let d = day_start(day_one as int, day as int) - timestamp;
    &&& day >= 1
    &&& -window <= d <= window
}

/// Whether a report of `day`, sent at `timestamp`, was sent within `window`
/// seconds of the first moment of that day (day one begins at `day_one`).
pub fn wordle_day_ok(day_one: i64, day: u32, timestamp: i64, window: i64) -> (r: bool)
    ensures
        r == day_ok_spec(day_one, day, timestamp, window),
{
    if day == 0 {
        return false;
    }
    let d: i128 = day_one as i128 + day_span(day) - timestamp as i128;
    -(window as i128) <= d && d <= window as i128
}

/// How far back a backfill reads, and which reports it takes.
#[derive(Debug, Clone, Copy, PartialEq, Eq, Structural)]
pub struct LoadConfig {
    /// First moment of day one, in seconds since the Unix epoch.
    pub day_one: i64,
    /// How long before day one the backfill still reads.
    pub grace: i64,
    /// When set, a report is taken only if sent within this many seconds of
    /// the first moment of its day.
    pub day_window: Option<i64>,
}

/// Whether a message sent at `timestamp` lies before what the backfill reads.
pub open spec fn before_bound(config: LoadConfig, timestamp: i64) -> bool {
    timestamp < config.day_one - config.grace
}

/// Whether the backfill takes the message: it is a report, and its day passes
/// the day check when there is one.
pub open spec fn taken(config: LoadConfig, text: Seq<char>, timestamp: i64) -> bool {
    match parse_spec(text) {
        Ok((v, k)) => match config.day_window {
            Some(w) => day_ok_spec(config.day_one, v.day, timestamp, w),
            None => true,
        },
        Err(_) => false,
    }
}

/// Whether the backfill goes on to older messages.
#[derive(Debug, Clone, Copy, PartialEq, Eq, Structural)]
pub enum Step {
    Continue,
    Stop,
}

/// Takes in a live message: a report is offered to the leaderboard under its
/// author, with the message's time; anything else gives `Ok(None)`.
pub fn ingest(board: &Leaderboard, text: &str, timestamp: i64, author: u64) -> (r: Result<
    Option<Outcome>,
    StoreError,
>)
    ensures
        parse_spec(text@) is Err <==> r matches Ok(None),
        r matches Ok(Some(o)) ==> parse_spec(text@) matches Ok((v, k)) && exists|old: Option<Seq<u8>>|
            outcome_spec(old, crate::model::TimestampedScoreView { timestamp, score: v }) == Some(o),
{
    match parse(text) {
        Err(_) => Ok(None),
        Ok((_, score)) => {
            let candidate = TimestampedScore { timestamp, score };
            match board.upsert(author, &candidate) {
                Ok(o) => Ok(Some(o)),
                Err(e) => Err(e),
            }
        },
    }
}

/// The counters of a backfill.
pub struct BulkLoad {
    /// Messages read at or after the bound.
    pub scanned: u64,
    /// Reports that were inserted or replaced an entry.
    pub stored: u64,
    /// Messages that are not reports, or whose day check failed.
    pub ignored: u64,
    /// Reports that the leaderboard could not take.
    pub failed: u64,
    /// Authors of the stored reports.
    pub players: HashSet<u64>,
}

/// The counters as numbers.
pub struct LoadView {
    pub scanned: nat,
    pub stored: nat,
    pub ignored: nat,
    pub failed: nat,
    pub players: Set<u64>,
}

impl LoadView {
    /// One more message read.
    pub open spec fn read(self) -> LoadView {
        LoadView { scanned: self.scanned + 1, ..self }
    }

    /// One more message passed over.
    pub open spec fn ignore(self) -> LoadView {
        LoadView { ignored: self.ignored + 1, ..self }
    }

    /// One more report stored, by `author`.
    pub open spec fn store(self, author: u64) -> LoadView {
        LoadView { stored: self.stored + 1, players: self.players.insert(author), ..self }
    }

    /// One more report that could not be stored.
    pub open spec fn fail(self) -> LoadView {
        LoadView { failed: self.failed + 1, ..self }
    }
}

impl View for BulkLoad {
    type V = LoadView;

    open spec fn view(&self) -> LoadView {
        LoadView {
            scanned: self.scanned as nat,
            stored: self.stored as nat,
            ignored: self.ignored as nat,
            failed: self.failed as nat,
            players: self.players@,
        }
    }
}

impl BulkLoad {
    /// Each message read is counted at most once among the outcomes.
    pub open spec fn wf(&self) -> bool {
        self.stored + self.ignored + self.failed <= self.scanned
    }

    pub fn new() -> (r: Self)
        ensures
            r.wf(),
            r@ == (LoadView { scanned: 0, stored: 0, ignored: 0, failed: 0, players: Set::empty() }),
    {
        BulkLoad { scanned: 0, stored: 0, ignored: 0, failed: 0, players: HashSet::new() }
    }

    /// Counts what offering a report of `author` to the leaderboard gave.
    pub fn record(&mut self, author: u64, result: &Result<Outcome, StoreError>)
        requires
            old(self).stored + old(self).ignored + old(self).failed < old(self).scanned,
        ensures
            final(self).wf(),
            final(self)@ == match result {
                Ok(Outcome::Unchanged) => old(self)@,
                Ok(_) => old(self)@.store(author),
                Err(_) => old(self)@.fail(),
            },
    {
        match result {
            Ok(Outcome::Unchanged) => {},
            Ok(_) => {
                self.stored = self.stored + 1;
                self.players.insert(author);
            },
            Err(_) => {
                self.failed = self.failed + 1;
            },
        }
    }

    /// Takes one message of the history, newest first: `Stop` for a message
    /// before the bound, which is not counted; otherwise the message is counted
    /// as read and, if taken, offered to the leaderboard under its author.
    pub fn offer(
        &mut self,
        board: &Leaderboard,
        config: &LoadConfig,
        text: &str,
        timestamp: i64,
        author: u64,
    ) -> (r: Step)
        requires
            old(self).wf(),
            old(self).scanned < u64::MAX,
        ensures
            final(self).wf(),
            before_bound(*config, timestamp) ==> r == Step::Stop && final(self)@ == old(self)@,
            !before_bound(*config, timestamp) && !taken(*config, text@, timestamp) ==> r
                == Step::Continue && final(self)@ == old(self)@.read().ignore(),
            !before_bound(*config, timestamp) && taken(*config, text@, timestamp) ==> {
                &&& r == Step::Continue
                &&& final(self)@ == old(self)@.read().store(author)
                    || final(self)@ == old(self)@.read().fail()
                    || final(self)@ == old(self)@.read()
            },
    {
        if (timestamp as i128) < config.day_one as i128 - config.grace as i128 {
            return Step::Stop;
        }
        self.scanned = self.scanned + 1;
        let score = match parse(text) {
            Err(_) => {
                self.ignored = self.ignored + 1;
                return Step::Continue;
            },
            Ok((_, score)) => score,
        };
        let day_passes = match config.day_window {
            Some(w) => wordle_day_ok(config.day_one, score.day, timestamp, w),
            None => true,
        };
        if !day_passes {
            self.ignored = self.ignored + 1;
            return Step::Continue;
        }
        let candidate = TimestampedScore { timestamp, score };
        let result = board.upsert(author, &candidate);
        self.record(author, &result);
        Step::Continue
    }
}

} // verus!
