use tedbot::codec::encode;
use tedbot::loader::{day_to_datetime, ingest, wordle_day_ok, BulkLoad, LoadConfig, Step};
use tedbot::model::Letter::{Correct, Incorrect};
use tedbot::model::{Score, TimestampedScore};
use tedbot::stats::{aggregate, Stats};
use tedbot::store::{next_value, read_entry, upsert_outcome, Leaderboard, Outcome, StoreError};

fn board() -> Leaderboard {
    Leaderboard::new(sled::Config::new().temporary(true).open().unwrap())
}

fn score(day: u32, success: bool, guesses: u8, hard_mode: bool) -> Score {
    let mut grid = vec![vec![Incorrect; 5]; guesses as usize];
    if success {
        grid[guesses as usize - 1] = vec![Correct; 5];
    }
    Score { day, success, guesses, hard_mode, grid }
}

fn stamped(timestamp: i64, s: Score) -> TimestampedScore {
    TimestampedScore { timestamp, score: s }
}

#[test]
fn upsert_policy() {
    let b = board();
    let late = stamped(200, score(3, true, 4, false));
    let early = stamped(100, score(3, true, 2, false));
    assert!(matches!(b.upsert(1, &late), Ok(Outcome::Inserted)));
    assert!(matches!(b.upsert(1, &early), Ok(Outcome::Replaced)));
    assert!(matches!(b.upsert(1, &late), Ok(Outcome::Unchanged)));
    assert_eq!(b.get(1, 3).unwrap(), Some(early));
    assert_eq!(b.get(1, 4).unwrap(), None);
    assert_eq!(b.get(2, 3).unwrap(), None);
}

#[test]
fn upsert_twice_is_unchanged() {
    let b = board();
    let c = stamped(100, score(9, false, 6, true));
    assert!(matches!(b.upsert(7, &c), Ok(Outcome::Inserted)));
    let after_first = b.scores(7).unwrap();
    assert!(matches!(b.upsert(7, &c), Ok(Outcome::Unchanged)));
    assert_eq!(b.scores(7).unwrap(), after_first);
}

#[test]
fn earliest_wins_either_order() {
    let c1 = stamped(10, score(5, true, 3, false));
    let c2 = stamped(20, score(5, true, 5, false));
    for first_early in [true, false] {
        let b = board();
        let (x, y) = if first_early { (&c1, &c2) } else { (&c2, &c1) };
        b.upsert(1, x).unwrap();
        b.upsert(1, y).unwrap();
        assert_eq!(b.get(1, 5).unwrap().unwrap().timestamp, 10);
    }
}

#[test]
fn equal_timestamps_keep_first() {
    let b = board();
    let a = stamped(10, score(5, true, 3, false));
    let c = stamped(10, score(5, true, 5, false));
    b.upsert(1, &a).unwrap();
    assert!(matches!(b.upsert(1, &c), Ok(Outcome::Unchanged)));
    assert_eq!(b.get(1, 5).unwrap(), Some(a));
}

#[test]
fn policy_functions() {
    let cand = stamped(50, score(1, true, 1, false));
    let enc = encode(&cand);
    let later = encode(&stamped(60, score(1, true, 2, false)));
    let earlier = encode(&stamped(40, score(1, true, 2, false)));
    assert_eq!(next_value(None, &cand, &enc), Some(enc.clone()));
    assert_eq!(next_value(Some(&later), &cand, &enc), Some(enc.clone()));
    assert_eq!(next_value(Some(&earlier), &cand, &enc), Some(earlier.clone()));
    assert_eq!(next_value(Some(&[1, 2]), &cand, &enc), Some(vec![1, 2]));
    assert!(matches!(upsert_outcome(None, &cand), Ok(Outcome::Inserted)));
    assert!(matches!(upsert_outcome(Some(&later), &cand), Ok(Outcome::Replaced)));
    assert!(matches!(upsert_outcome(Some(&earlier), &cand), Ok(Outcome::Unchanged)));
    assert!(matches!(upsert_outcome(Some(&[1, 2]), &cand), Err(StoreError::Corrupt)));
    assert!(matches!(read_entry(None), Ok(None)));
    assert!(matches!(read_entry(Some(&[0])), Err(StoreError::Corrupt)));
    assert_eq!(read_entry(Some(&enc)).unwrap(), Some(cand));
}

#[test]
fn scores_in_day_order() {
    let b = board();
    for day in [300u32, 2, 256, 1] {
        b.upsert(4, &stamped(day as i64, score(day, true, 3, false))).unwrap();
    }
    let days: Vec<u32> = b.scores(4).unwrap().iter().map(|e| e.0).collect();
    assert_eq!(days, vec![1, 2, 256, 300]);
    assert!(!b.is_empty(4).unwrap());
    assert!(b.is_empty(5).unwrap());
    b.flush().unwrap();
}

#[test]
fn aggregation_example() {
    let b = board();
    b.upsert(1, &stamped(1, score(1, true, 3, false))).unwrap();
    b.upsert(1, &stamped(2, score(2, false, 6, false))).unwrap();
    let s = b.stats(1, None).unwrap().unwrap();
    assert_eq!(s.total, 2);
    assert_eq!(s.successes, 1);
    assert_eq!(s.hard_mode_count, 0);
    assert_eq!(s.guess_sum as f64 / s.total as f64, 4.5);
    let day2 = b.stats(1, Some(2)).unwrap().unwrap();
    assert_eq!(
        day2,
        Stats { total: 1, successes: 0, guess_sum: 6, hard_mode_count: 0 }
    );
    assert_eq!(b.stats(1, Some(3)).unwrap(), None);
}

#[test]
fn empty_player_has_no_stats() {
    let b = board();
    assert_eq!(b.stats(99, None).unwrap(), None);
    assert_eq!(aggregate(&vec![], None), None);
}

#[test]
fn aggregate_counts() {
    let entries = vec![
        (1, stamped(1, score(1, true, 3, true))),
        (2, stamped(2, score(2, true, 1, true))),
        (3, stamped(3, score(3, false, 6, false))),
    ];
    assert_eq!(
        aggregate(&entries, None),
        Some(Stats { total: 3, successes: 2, guess_sum: 10, hard_mode_count: 2 })
    );
    assert_eq!(
        aggregate(&entries, Some(2)),
        Some(Stats { total: 1, successes: 1, guess_sum: 1, hard_mode_count: 1 })
    );
}

const REPORT: &str = "Wordle 2 2/6\n\u{2b1b}\u{2b1b}\u{2b1b}\u{2b1b}\u{2b1b}\n\u{1f7e9}\u{1f7e9}\u{1f7e9}\u{1f7e9}\u{1f7e9}";

#[test]
fn ingest_live_message() {
    let b = board();
    assert!(matches!(ingest(&b, "just chatting", 5, 1), Ok(None)));
    assert!(matches!(ingest(&b, REPORT, 500, 1), Ok(Some(Outcome::Inserted))));
    assert!(matches!(ingest(&b, REPORT, 400, 1), Ok(Some(Outcome::Replaced))));
    assert_eq!(b.get(1, 2).unwrap().unwrap().timestamp, 400);
}

#[test]
fn day_arithmetic() {
    assert_eq!(day_to_datetime(1_624_060_800, 1), 1_624_060_800);
    assert_eq!(day_to_datetime(1_624_060_800, 3), 1_624_060_800 + 2 * 86_400);
    assert!(wordle_day_ok(0, 2, 86_400, 0));
    assert!(wordle_day_ok(0, 2, 86_400 + 3_600, 3_600));
    assert!(!wordle_day_ok(0, 2, 86_400 + 3_601, 3_600));
    assert!(!wordle_day_ok(0, 0, 0, 1_000_000));
}

#[test]
fn backfill_counts_and_stops() {
    let b = board();
    let config = LoadConfig { day_one: 1_000, grace: 100, day_window: None };
    let mut load = BulkLoad::new();
    assert_eq!(load.offer(&b, &config, REPORT, 5_000, 1), Step::Continue);
    assert_eq!(load.offer(&b, &config, REPORT, 4_000, 2), Step::Continue);
    assert_eq!(load.offer(&b, &config, REPORT, 3_000, 1), Step::Continue);
    assert_eq!(load.offer(&b, &config, REPORT, 3_500, 1), Step::Continue);
    assert_eq!(load.offer(&b, &config, "hello", 2_000, 3), Step::Continue);
    assert_eq!(load.offer(&b, &config, REPORT, 900, 3), Step::Continue);
    assert_eq!(load.offer(&b, &config, REPORT, 899, 3), Step::Stop);
    assert_eq!(load.scanned, 6);
    assert_eq!(load.stored, 4);
    assert_eq!(load.ignored, 1);
    assert_eq!(load.failed, 0);
    assert_eq!(load.players.len(), 3);
    assert_eq!(b.get(1, 2).unwrap().unwrap().timestamp, 3_000);
}

#[test]
fn backfill_day_window() {
    let b = board();
    let config = LoadConfig { day_one: 0, grace: 0, day_window: Some(86_400) };
    let mut load = BulkLoad::new();
    // Day 2 begins at 86 400.
    assert_eq!(load.offer(&b, &config, REPORT, 86_400 * 3, 1), Step::Continue);
    assert_eq!(load.offer(&b, &config, REPORT, 86_400 * 2, 1), Step::Continue);
    assert_eq!(load.ignored, 1);
    assert_eq!(load.stored, 1);
}
