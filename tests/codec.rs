use tedbot::codec::{day_key, decode, encode, key_day, player_key};
use tedbot::model::Letter::{Correct, Incorrect, Partial};
use tedbot::model::{Score, TimestampedScore};

fn sample(timestamp: i64) -> TimestampedScore {
    TimestampedScore {
        timestamp,
        score: Score {
            day: 224,
            success: true,
            guesses: 2,
            hard_mode: true,
            grid: vec![
                vec![Incorrect, Partial, Incorrect, Partial, Incorrect],
                vec![Correct, Correct, Correct, Correct, Correct],
            ],
        },
    }
}

#[test]
fn encode_layout() {
    let bytes = encode(&sample(1));
    assert_eq!(bytes.len(), 23 + 2 * 28);
    assert_eq!(&bytes[0..8], &[0, 0, 0, 0, 0, 0, 0, 1]);
    assert_eq!(&bytes[8..12], &[0, 0, 0, 224]);
    assert_eq!(&bytes[12..15], &[1, 2, 1]);
    assert_eq!(&bytes[15..23], &[0, 0, 0, 0, 0, 0, 0, 2]);
    assert_eq!(&bytes[23..31], &[0, 0, 0, 0, 0, 0, 0, 5]);
    assert_eq!(&bytes[31..35], &[0, 0, 0, 2]);
    assert_eq!(&bytes[35..39], &[0, 0, 0, 1]);
}

#[test]
fn round_trip() {
    for t in [0, 1, -1, i64::MIN, i64::MAX, 1_655_000_000] {
        let ts = sample(t);
        assert_eq!(decode(&encode(&ts)), Some(ts));
    }
}

#[test]
fn negative_timestamp_bits() {
    let bytes = encode(&sample(-2));
    assert_eq!(&bytes[0..8], &[0xff, 0xff, 0xff, 0xff, 0xff, 0xff, 0xff, 0xfe]);
}

#[test]
fn decode_rejects_malformed() {
    let good = encode(&sample(5));
    assert_eq!(decode(&good[..good.len() - 1]), None);
    assert_eq!(decode(&[]), None);
    let mut extra = good.clone();
    extra.push(0);
    assert_eq!(decode(&extra), None);
    let mut bad_flag = good.clone();
    bad_flag[12] = 2;
    assert_eq!(decode(&bad_flag), None);
    let mut bad_letter = good.clone();
    bad_letter[34] = 3;
    assert_eq!(decode(&bad_letter), None);
    let mut bad_row = good.clone();
    bad_row[30] = 4;
    assert_eq!(decode(&bad_row), None);
    let mut zero_guesses = good.clone();
    zero_guesses[13] = 0;
    assert_eq!(decode(&zero_guesses), None);
}

#[test]
fn keys_are_big_endian() {
    assert_eq!(day_key(0x0102_0304), vec![1, 2, 3, 4]);
    assert_eq!(player_key(0x0102_0304_0506_0708), vec![1, 2, 3, 4, 5, 6, 7, 8]);
    assert_eq!(key_day(&day_key(213)), Some(213));
    assert_eq!(key_day(&[1, 2, 3]), None);
    assert!(day_key(255) < day_key(256));
}
