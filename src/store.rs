//! The leaderboard: one `sled` tree per player, keyed by puzzle day, holding the
//! stored form of the earliest report seen for that day.

use vstd::prelude::*;
use crate::codec::{decode, decode_spec, encode, encode_spec, day_key, key_day, be_value, lex_less, player_key};
use crate::model::{TimestampedScore, TimestampedScoreView};
use crate::stats::{Stats, aggregate, tally};

verus! {

#[verifier::external_type_specification]
#[verifier::external_body]
pub struct ExDb(sled::Db);

#[verifier::external_type_specification]
#[verifier::external_body]
pub struct ExTree(sled::Tree);

#[verifier::external_type_specification]
#[verifier::external_body]
pub struct ExSledError(sled::Error);

/// What offering a score to the leaderboard did.
#[derive(Debug, Clone, Copy, PartialEq, Eq, Structural)]
pub enum Outcome {
    /// The day had no entry; the score is now stored.
    Inserted,
    /// The stored entry was reported later; the score took its place.
    Replaced,
    /// The stored entry was reported no later; it stays.
    Unchanged,
}

/// Why a leaderboard operation failed.
#[derive(Debug)]
pub enum StoreError {
    /// The storage engine failed.
    Io(sled::Error),
    /// A stored key or value is not in the stored form.
    Corrupt,
}

pub open spec fn opt_view(o: Option<&[u8]>) -> Option<Seq<u8>> {
    match o {
        Some(b) => Some(b@),
        None => None,
    }
}

/// The value a day holds after `cand` is offered to it, when it held `old`:
/// the candidate if the day was empty or held a later report; otherwise the
/// old value, also where that value cannot be read.
pub open spec fn next_value_spec(old: Option<Seq<u8>>, cand: TimestampedScoreView) -> Option<
    Seq<u8>,
> {
    match old {
        None => Some(encode_spec(cand)),
        Some(b) => match decode_spec(b) {
            Some(prev) => if prev.timestamp > cand.timestamp {
                Some(encode_spec(cand))
            } else {
                Some(b)
            },
            None => Some(b),
        },
    }
}

/// What offering `cand` to a day that held `old` did; `None` where the old
/// value cannot be read.
pub open spec fn outcome_spec(old: Option<Seq<u8>>, cand: TimestampedScoreView) -> Option<Outcome> {
    match old {
        None => Some(Outcome::Inserted),
        Some(b) => match decode_spec(b) {
            Some(prev) => if prev.timestamp > cand.timestamp {
                Some(Outcome::Replaced)
            } else {
                Some(Outcome::Unchanged)
            },
            None => None,
        },
    }
}

/// The new value of a day that held `old`, once `cand` (stored form
/// `encoded`) is offered to it.
pub fn next_value(old: Option<&[u8]>, cand: &TimestampedScore, encoded: &[u8]) -> (r: Option<
    Vec<u8>,
>)
    requires
        encoded@ == encode_spec(cand@),
    ensures
        next_value_spec(opt_view(old), cand@) == (match r {
            Some(v) => Some(v@),
            None => None::<Seq<u8>>,
        }),
{
    match old {
        None => Some(vstd::slice::slice_to_vec(encoded)),
        Some(b) => match decode(b) {
            Some(prev) => {
                if prev.timestamp > cand.timestamp {
                    Some(vstd::slice::slice_to_vec(encoded))
                } else {
                    Some(vstd::slice::slice_to_vec(b))
                }
            },
            None => Some(vstd::slice::slice_to_vec(b)),
        },
    }
}

/// What offering `cand` did to a day that held `old`.
pub fn upsert_outcome(old: Option<&[u8]>, cand: &TimestampedScore) -> (r: Result<
    Outcome,
    StoreError,
>)
    ensures
        match outcome_spec(opt_view(old), cand@) {
            Some(o) => r matches Ok(x) && x == o,
            None => r matches Err(StoreError::Corrupt),
        },
{
    match old {
        None => Ok(Outcome::Inserted),
        Some(b) => match decode(b) {
            Some(prev) => {
                if prev.timestamp > cand.timestamp {
                    Ok(Outcome::Replaced)
                } else {
                    Ok(Outcome::Unchanged)
                }
            },
            None => Err(StoreError::Corrupt),
        },
    }
}

/// Offering a score twice leaves the day as the first offer left it, and the
/// second offer reports `Unchanged`; the day must be empty or readable.
pub proof fn lemma_upsert_idempotent(old: Option<Seq<u8>>, cand: TimestampedScoreView)
    requires
        cand.score.valid(),
        old matches Some(b) ==> decode_spec(b) is Some,
    ensures
        next_value_spec(next_value_spec(old, cand), cand) == next_value_spec(old, cand),
        outcome_spec(next_value_spec(old, cand), cand) == Some(Outcome::Unchanged),
{
    crate::codec::lemma_round_trip(cand);
}

/// Of two reports for one empty day, the earlier one is kept, whichever is
/// offered first.
pub proof fn lemma_earliest_wins(c1: TimestampedScoreView, c2: TimestampedScoreView)
    requires
        c1.score.valid(),
        c2.score.valid(),
        c1.timestamp < c2.timestamp,
    ensures
        next_value_spec(next_value_spec(None, c1), c2) == Some(encode_spec(c1)),
        next_value_spec(next_value_spec(None, c2), c1) == Some(encode_spec(c1)),
        decode_spec(encode_spec(c1)) == Some(c1),
{
    crate::codec::lemma_round_trip(c1);
    crate::codec::lemma_round_trip(c2);
}

/// Relies on `sled::Db::open_tree`: opens the tree of that name, creating it
/// if it does not exist.
#[verifier::external_body]
fn open_tree(db: &sled::Db, name: &[u8]) -> (r: Result<sled::Tree, sled::Error>) {
    db.open_tree(name)
}

/// Relies on `sled::Tree::fetch_and_update`: atomically sets `key` to
/// `next_value` of what it holds, retrying on concurrent change, and returns
/// the value it replaced.
#[verifier::external_body]
fn fetch_and_update(tree: &sled::Tree, key: &[u8], cand: &TimestampedScore, encoded: &[u8]) -> (r:
    Result<Option<Vec<u8>>, sled::Error>)
    requires
        encoded@ == encode_spec(cand@),
{
    tree.fetch_and_update(key, |old| next_value(old, cand, encoded)).map(|v| v.map(|b| b.to_vec()))
}

/// Relies on `sled::Tree::get`: the value at `key`, if any.
#[verifier::external_body]
fn tree_get(tree: &sled::Tree, key: &[u8]) -> (r: Result<Option<Vec<u8>>, sled::Error>) {
    tree.get(key).map(|v| v.map(|b| b.to_vec()))
}

/// Relies on `sled::Tree::iter`: the keys and values of the tree, each key
/// coming strictly after the one before it in byte order.
#[verifier::external_body]
fn tree_entries(tree: &sled::Tree) -> (r: Result<Vec<(Vec<u8>, Vec<u8>)>, sled::Error>)
    ensures
        r matches Ok(v) ==> forall|i: int, j: int|
            0 <= i < j < v@.len() ==> lex_less(#[trigger] v@[i].0@, #[trigger] v@[j].0@),
{
    tree.iter().map(|e| e.map(|(k, v)| (k.to_vec(), v.to_vec()))).collect()
}

/// Relies on `sled::Tree::is_empty`: whether the tree holds no entry.
#[verifier::external_body]
fn tree_is_empty(tree: &sled::Tree) -> (r: bool) {
    tree.is_empty()
}

/// Relies on `sled::Db::flush`: writes every buffered change to disk and
/// returns the number of bytes written.
#[verifier::external_body]
fn db_flush(db: &sled::Db) -> (r: Result<usize, sled::Error>) {
    db.flush()
}

/// A stored value, read: `Ok(None)` for an empty day.
pub fn read_entry(raw: Option<&[u8]>) -> (r: Result<Option<TimestampedScore>, StoreError>)
    ensures
        match raw {
            None => r matches Ok(None),
            Some(b) => match decode_spec(b@) {
                Some(v) => r matches Ok(Some(ts)) && ts@ == v,
                None => r matches Err(StoreError::Corrupt),
            },
        },
{
    match raw {
        None => Ok(None),
        Some(b) => match decode(b) {
            Some(ts) => Ok(Some(ts)),
            None => Err(StoreError::Corrupt),
        },
    }
}

/// Whether stored entries (key, value) all read back as (day, score).
pub open spec fn entries_read(raw: Seq<(Vec<u8>, Vec<u8>)>, out: Seq<(u32, TimestampedScore)>) -> bool {
    &&& out.len() == raw.len()
    &&& forall|i: int|
        0 <= i < raw.len() ==> {
            &&& (#[trigger] raw[i]).0@.len() == 4
            &&& out[i].0 == be_value(raw[i].0@) as u32
            &&& decode_spec(raw[i].1@) == Some(out[i].1@)
        }
}

/// Stored entries read back as (day, score) pairs, in the same order; an error
/// if any key is not a day key or any value is not in the stored form.
pub fn read_entries(raw: &Vec<(Vec<u8>, Vec<u8>)>) -> (r: Result<Vec<(u32, TimestampedScore)>, StoreError>)
    ensures
        match r {
            Ok(out) => entries_read(raw@, out@),
            Err(e) => e is Corrupt && exists|i: int|
                0 <= i < raw@.len() && ((#[trigger] raw@[i]).0@.len() != 4 || decode_spec(
                    raw@[i].1@,
                ) is None),
        },
{
    let mut out: Vec<(u32, TimestampedScore)> = Vec::new();
    let mut i: usize = 0;
    while i < raw.len()
        invariant
            i <= raw@.len(),
            entries_read(raw@.take(i as int), out@),
        decreases raw@.len() - i,
    {
        let (k, v) = &raw[i];
        let day = match key_day(k.as_slice()) {
            Some(d) => d,
            None => {
                assert(raw@[i as int].0@.len() != 4);
                return Err(StoreError::Corrupt);
            },
        };
        let ts = match decode(v.as_slice()) {
            Some(ts) => ts,
            None => {
                assert(decode_spec(raw@[i as int].1@) is None);
                return Err(StoreError::Corrupt);
            },
        };
        let ghost before = out@;
        out.push((day, ts));
        assert(raw@.take(i + 1).drop_last() =~= raw@.take(i as int));
        assert forall|j: int| 0 <= j < i + 1 implies {
            &&& (#[trigger] raw@.take(i + 1)[j]).0@.len() == 4
            &&& out@[j].0 == be_value(raw@.take(i + 1)[j].0@) as u32
            &&& decode_spec(raw@.take(i + 1)[j].1@) == Some(out@[j].1@)
        } by {
            if j < i {
                assert(raw@.take(i + 1)[j] == raw@.take(i as int)[j]);
                assert(out@[j] == before[j]);
            }
        }
        i = i + 1;
    }
    assert(raw@.take(i as int) =~= raw@);
    Ok(out)
}

/// The leaderboard, over a `sled` database that the caller opened.
pub struct Leaderboard {
    db: sled::Db,
}

impl Leaderboard {
    pub fn new(db: sled::Db) -> (r: Self) {
        Leaderboard { db }
    }

    /// The tree of a player, created on first use.
    pub fn partition(&self, player: u64) -> (r: Result<sled::Tree, StoreError>)
        ensures
            r matches Err(e) ==> e is Io,
    {
        let name = player_key(player);
        match open_tree(&self.db, name.as_slice()) {
            Ok(t) => Ok(t),
            Err(e) => Err(StoreError::Io(e)),
        }
    }

    /// Offers a score reported by `player` for the day of the score: stored if
    /// the day has no entry or holds a later report. The read, the comparison
    /// and the write are one atomic step on that key.
    pub fn upsert(&self, player: u64, candidate: &TimestampedScore) -> (r: Result<
        Outcome,
        StoreError,
    >)
        requires
            candidate@.score.valid(),
        ensures
            r matches Ok(o) ==> exists|old: Option<Seq<u8>>| outcome_spec(old, candidate@) == Some(o),
    {
        let tree = match self.partition(player) {
            Ok(t) => t,
            Err(e) => {
                return Err(e);
            },
        };
        let key = day_key(candidate.score.day);
        let encoded = encode(candidate);
        match fetch_and_update(&tree, key.as_slice(), candidate, encoded.as_slice()) {
            Err(e) => Err(StoreError::Io(e)),
            Ok(prev) => {
                let old: Option<&[u8]> = match &prev {
                    Some(v) => Some(v.as_slice()),
                    None => None,
                };
                let r = upsert_outcome(old, candidate);
                assert(r matches Ok(o) ==> outcome_spec(opt_view(old), candidate@) == Some(o));
                r
            },
        }
    }

    /// The entry of `player` for `day`, if any.
    pub fn get(&self, player: u64, day: u32) -> (r: Result<Option<TimestampedScore>, StoreError>)
        ensures
            r matches Ok(Some(ts)) ==> ts@.score.valid(),
    {
        let tree = match self.partition(player) {
            Ok(t) => t,
            Err(e) => {
                return Err(e);
            },
        };
        let key = day_key(day);
        match tree_get(&tree, key.as_slice()) {
            Err(e) => Err(StoreError::Io(e)),
            Ok(raw) => {
                let b: Option<&[u8]> = match &raw {
                    Some(v) => Some(v.as_slice()),
                    None => None,
                };
                read_entry(b)
            },
        }
    }

    /// Every entry of `player` as (day, score), by ascending day.
    pub fn scores(&self, player: u64) -> (r: Result<Vec<(u32, TimestampedScore)>, StoreError>)
        ensures
            r matches Ok(v) ==> forall|i: int| 0 <= i < v@.len() ==> (#[trigger] v@[i]).1@.score.valid(),
            r matches Ok(v) ==> forall|i: int, j: int|
                0 <= i < j < v@.len() ==> (#[trigger] v@[i]).0 < (#[trigger] v@[j]).0,
    {
        let tree = match self.partition(player) {
            Ok(t) => t,
            Err(e) => {
                return Err(e);
            },
        };
        match tree_entries(&tree) {
            Err(e) => Err(StoreError::Io(e)),
            Ok(raw) => {
                let r = read_entries(&raw);
                proof {
                    if r is Ok {
                        let v = r->Ok_0;
                        assert forall|i: int| 0 <= i < v@.len() implies (#[trigger] v@[i]).1@.score.valid() by {
                            assert(raw@[i].0@.len() == 4);
                            crate::codec::lemma_decoded_valid(raw@[i].1@);
                        }
                        assert forall|i: int, j: int| 0 <= i < j < v@.len() implies (#[trigger] v@[i]).0
                            < (#[trigger] v@[j]).0 by {
                            assert(raw@[i].0@.len() == 4 && raw@[j].0@.len() == 4);
                            crate::codec::lemma_lex_less_value(raw@[i].0@, raw@[j].0@);
                            crate::codec::lemma_be_value_bound(raw@[i].0@);
                            crate::codec::lemma_be_value_bound(raw@[j].0@);
                            crate::codec::lemma_pow256_8();
                        }
                    }
                }
                r
            },
        }
    }

    /// The statistics of `player`, over the entries of `day` or over all of
    /// them; `Ok(None)` when there is nothing to count.
    pub fn stats(&self, player: u64, day: Option<u32>) -> (r: Result<Option<Stats>, StoreError>)
        ensures
            r matches Ok(x) ==> exists|e: Seq<(u32, TimestampedScore)>|
                match x {
                    None => tally(e, day).total == 0,
                    Some(s) => s@ == #[trigger] tally(e, day) && s.total > 0,
                },
    {
        match self.scores(player) {
            Ok(entries) => {
                let x = aggregate(&entries, day);
                assert(match x {
                    None => tally(entries@, day).total == 0,
                    Some(s) => s@ == tally(entries@, day) && s.total > 0,
                });
                Ok(x)
            },
            Err(e) => Err(e),
        }
    }

    /// Whether `player` has no entry.
    pub fn is_empty(&self, player: u64) -> (r: Result<bool, StoreError>)
        ensures
            r matches Err(e) ==> e is Io,
    {
        match self.partition(player) {
            Ok(t) => Ok(tree_is_empty(&t)),
            Err(e) => Err(e),
        }
    }

    /// Writes every buffered change to disk.
    pub fn flush(&self) -> (r: Result<usize, StoreError>)
        ensures
            r matches Err(e) ==> e is Io,
    {
        match db_flush(&self.db) {
            Ok(n) => Ok(n),
            Err(e) => Err(StoreError::Io(e)),
        }
    }
}

} // verus!
