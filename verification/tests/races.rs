use aoc2023::races::{multiply, read_long_race, read_races, RaceError};

const SHEET: &str = "Time:      7  15   30\nDistance:  9  40  200\n";

#[test]
fn races_pair_times_with_distances() {
    assert_eq!(read_races(SHEET), Ok(vec![(7, 9), (15, 40), (30, 200)]));
    assert_eq!(read_races("Time: 7\nDistance: 9 40 200\n"), Ok(vec![(7, 9)]));
    assert_eq!(read_races("t: \nd: \n"), Ok(vec![]));
}

#[test]
fn long_race_joins_the_digits() {
    assert_eq!(read_long_race(SHEET), Ok((71530, 940200)));
    assert_eq!(read_long_race("a1b2\nc3 4d\n"), Ok((12, 34)));
}

#[test]
fn sheet_errors() {
    assert_eq!(read_races(""), Err(RaceError::MissingTimes));
    assert_eq!(read_races("Time: 7\n"), Err(RaceError::MissingDistances));
    assert_eq!(read_races("Time 7\nDistance: 9\n"), Err(RaceError::MissingTimes));
    assert_eq!(read_races("Time: 7\nDistance 9\n"), Err(RaceError::MissingDistances));
    assert_eq!(read_races("Time: x\nDistance 9\n"), Err(RaceError::MissingDistances));
    assert_eq!(read_races("Time: x\nDistance: 9\n"), Err(RaceError::BadNumber));
    assert_eq!(read_races("Time: 7\nDistance: y\n"), Err(RaceError::BadNumber));
    assert_eq!(read_races("Time: 7 8\nDistance: 9\n"), Err(RaceError::MissingDistance));
}

#[test]
fn long_race_errors() {
    assert_eq!(read_long_race(""), Err(RaceError::MissingTimes));
    assert_eq!(read_long_race("Time: 7\n"), Err(RaceError::MissingDistances));
    assert_eq!(read_long_race("Time:\nDistance: 9\n"), Err(RaceError::BadNumber));
    assert_eq!(read_long_race("Time: 7\u{b2}\nDistance: 9\n"), Err(RaceError::BadNumber));
    assert_eq!(read_long_race("Time: 7\nDistance: 99999999999999999999\n"), Err(RaceError::BadNumber));
    assert_eq!(read_long_race("Time: -7\nDistance: 9\n"), Ok((7, 9)));
}

#[test]
fn counts_multiply_in_order() {
    assert_eq!(multiply(&vec![4, 8, 9]), Ok(288));
    assert_eq!(multiply(&vec![]), Ok(1));
    assert_eq!(multiply(&vec![-3, 5]), Ok(-15));
    assert_eq!(multiply(&vec![i64::MAX, 1]), Ok(i64::MAX));
    assert_eq!(multiply(&vec![i64::MAX, 2]), Err(RaceError::Overflow));
    assert_eq!(multiply(&vec![i64::MAX, 2, 0]), Err(RaceError::Overflow));
    assert_eq!(multiply(&vec![0, i64::MAX, 2]), Ok(0));
    assert_eq!(multiply(&vec![i64::MIN, -1]), Err(RaceError::Overflow));
}
