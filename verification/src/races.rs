//! Boat races: a sheet names the time of each race and the distance to beat.
//! This module reads the sheet and multiplies the numbers of ways to win; how
//! many ways there are to win one race is counted elsewhere.

use vstd::prelude::*;
use crate::grid::rows_of;
use crate::text::{
    is_numeric_char,
    lines_of,
    number_of,
    numbers_in,
    parse_number,
    parse_numbers,
    prefix_parts,
    prefix_split,
    text_lines,
    lemma_number_fits,
};

verus! {

/// What can go wrong with a sheet of races.
#[derive(Clone, Copy, Debug, PartialEq, Eq, Structural)]
pub enum RaceError {
    /// The line of the times is missing, or is not of the form
    /// `<name>: <numbers>`.
    MissingTimes,
    /// The line of the distances is missing, or is not of the form
    /// `<name>: <numbers>`.
    MissingDistances,
    /// Something that should be a number of 64 bits is none.
    BadNumber,
    /// There are more times than distances.
    MissingDistance,
    /// The product does not fit in 64 bits.
    Overflow,
}

/// The numbers that a line of the form `<name>: <numbers>` holds.
pub open spec fn row_numbers(lines: Seq<Seq<char>>, i: int, missing: RaceError) -> Result<
    Seq<i64>,
    RaceError,
> {
    if i >= lines.len() {
        Err(missing)
    } else {
        match prefix_split(lines[i]) {
            None => Err(missing),
            Some((name, data)) => match numbers_in(data) {
                Ok(numbers) => Ok(numbers),
                Err(e) => Err(RaceError::BadNumber),
            },
        }
    }
}

/// The races of a sheet: each time of its first line with the distance that
/// stands at the same place of its second line. The two lines are looked at
/// before their numbers are read.
pub open spec fn races_of(text: Seq<char>) -> Result<Seq<(i64, i64)>, RaceError> {
    let lines = lines_of(text);
    if lines.len() < 1 {
        Err(RaceError::MissingTimes)
    } else if lines.len() < 2 {
        Err(RaceError::MissingDistances)
    } else {
        match prefix_split(lines[0]) {
            None => Err(RaceError::MissingTimes),
            Some(first) => match prefix_split(lines[1]) {
                None => Err(RaceError::MissingDistances),
                Some(second) => match row_numbers(lines, 0, RaceError::MissingTimes) {
                    Err(e) => Err(e),
                    Ok(times) => match row_numbers(lines, 1, RaceError::MissingDistances) {
                        Err(e) => Err(e),
                        Ok(distances) => if times.len() > distances.len() {
                            Err(RaceError::MissingDistance)
                        } else {
                            Ok(Seq::new(times.len(), |i: int| (times[i], distances[i])))
                        },
                    },
                },
            },
        }
    }
}

/// Reads the numbers of line `i` of a sheet.
pub fn read_row(lines: &Vec<Vec<char>>, i: usize, missing: RaceError) -> (r: Result<
    Vec<i64>,
    RaceError,
>)
    ensures
        match r {
            Ok(numbers) => row_numbers(rows_of(lines@), i as int, missing) == Ok::<
                Seq<i64>,
                RaceError,
            >(numbers@),
            Err(e) => row_numbers(rows_of(lines@), i as int, missing) == Err::<
                Seq<i64>,
                RaceError,
            >(e),
        },
{
    if i >= lines.len() {
        return Err(missing);
    }
    match prefix_parts(&lines[i]) {
        None => Err(missing),
        Some((name, data)) => match parse_numbers(&data) {
            Ok(numbers) => Ok(numbers),
            Err(e) => Err(RaceError::BadNumber),
        },
    }
}

/// Reads the races of a sheet: the times from its first line, the distances to
/// beat from its second.
pub fn read_races(s: &str) -> (r: Result<Vec<(i64, i64)>, RaceError>)
    ensures
        match r {
            Ok(races) => races_of(s@) == Ok::<Seq<(i64, i64)>, RaceError>(races@),
            Err(e) => races_of(s@) == Err::<Seq<(i64, i64)>, RaceError>(e),
        },
{
    let lines = text_lines(s);
    if lines.len() < 1 {
        return Err(RaceError::MissingTimes);
    }
    if lines.len() < 2 {
        return Err(RaceError::MissingDistances);
    }
    if prefix_parts(&lines[0]).is_none() {
        return Err(RaceError::MissingTimes);
    }
    if prefix_parts(&lines[1]).is_none() {
        return Err(RaceError::MissingDistances);
    }
    let times = match read_row(&lines, 0, RaceError::MissingTimes) {
        Ok(numbers) => numbers,
        Err(e) => {
            return Err(e);
        },
    };
    let distances = match read_row(&lines, 1, RaceError::MissingDistances) {
        Ok(numbers) => numbers,
        Err(e) => {
            return Err(e);
        },
    };
    if times.len() > distances.len() {
        return Err(RaceError::MissingDistance);
    }
    let mut races: Vec<(i64, i64)> = Vec::new();
    let mut i: usize = 0;
    while i < times.len()
        invariant
            i <= times.len() <= distances.len(),
            races@.len() == i,
            forall|k: int| 0 <= k < i ==> #[trigger] races@[k] == (times@[k], distances@[k]),
        decreases times.len() - i,
    {
        races.push((times[i], distances[i]));
        i += 1;
    }
    proof {
        assert(races@ =~= Seq::new(times@.len(), |i: int| (times@[i], distances@[i])));
    }
    Ok(races)
}

/// The numeric characters of `line`, in order.
pub open spec fn numeric_part(line: Seq<char>) -> Seq<char>
    decreases line.len(),
{
    if line.len() == 0 {
        line
    } else if is_numeric_char(line.last()) {
        numeric_part(line.drop_last()).push(line.last())
    } else {
        numeric_part(line.drop_last())
    }
}

/// The number that the numeric characters of line `i` write together.
pub open spec fn joined_number(lines: Seq<Seq<char>>, i: int, missing: RaceError) -> Result<
    i64,
    RaceError,
> {
    if i >= lines.len() {
        Err(missing)
    } else {
        match number_of(numeric_part(lines[i])) {
            Ok(v) => Ok(v as i64),
            Err(e) => Err(RaceError::BadNumber),
        }
    }
}

/// The one race of a sheet whose numbers are read as written without the
/// spaces between them: its time and the distance to beat.
pub open spec fn long_race_of(text: Seq<char>) -> Result<(i64, i64), RaceError> {
    let lines = lines_of(text);
    match joined_number(lines, 0, RaceError::MissingTimes) {
        Err(e) => Err(e),
        Ok(time) => match joined_number(lines, 1, RaceError::MissingDistances) {
            Err(e) => Err(e),
            Ok(distance) => Ok((time, distance)),
        },
    }
}

/// Reads the number that the numeric characters of line `i` write together.
pub fn read_joined(lines: &Vec<Vec<char>>, i: usize, missing: RaceError) -> (r: Result<
    i64,
    RaceError,
>)
    ensures
        r == joined_number(rows_of(lines@), i as int, missing),
{
    if i >= lines.len() {
        return Err(missing);
    }
    let line = &lines[i];
    let mut digits: Vec<char> = Vec::new();
    let mut k: usize = 0;
    proof {
        assert(line@.take(0) =~= Seq::<char>::empty());
    }
    while k < line.len()
        invariant
            k <= line.len(),
            digits@ == numeric_part(line@.take(k as int)),
        decreases line.len() - k,
    {
        proof {
            assert(line@.take(k + 1).drop_last() =~= line@.take(k as int));
        }
        if line[k].is_numeric() {
            digits.push(line[k]);
        }
        k += 1;
    }
    proof {
        assert(line@.take(line.len() as int) =~= line@);
        lemma_number_fits(digits@);
    }
    match parse_number(&digits) {
        Ok(v) => Ok(v),
        Err(e) => Err(RaceError::BadNumber),
    }
}

/// Reads the one long race of a sheet.
pub fn read_long_race(s: &str) -> (r: Result<(i64, i64), RaceError>)
    ensures
        r == long_race_of(s@),
{
    let lines = text_lines(s);
    let time = match read_joined(&lines, 0, RaceError::MissingTimes) {
        Ok(v) => v,
        Err(e) => {
            return Err(e);
        },
    };
    let distance = match read_joined(&lines, 1, RaceError::MissingDistances) {
        Ok(v) => v,
        Err(e) => {
            return Err(e);
        },
    };
    Ok((time, distance))
}

/// The product of the first `n` of `counts`, multiplied in order; `None` as
/// soon as it leaves 64 bits.
pub open spec fn product(counts: Seq<i64>, n: int) -> Option<i64>
    decreases n,
{
    if n <= 0 {
        Some(1)
    } else {
        match product(counts, n - 1) {
            None => None,
            Some(p) => if i64::MIN <= p * counts[n - 1] <= i64::MAX {
                Some((p * counts[n - 1]) as i64)
            } else {
                None
            },
        }
    }
}

/// An overflow among the first factors is the outcome for all of them.
pub proof fn lemma_product_none_stays(counts: Seq<i64>, n: int, more: int)
    requires
        0 <= n <= more,
        product(counts, n) is None,
    ensures
        product(counts, more) is None,
    decreases more - n,
{
    if n < more {
        lemma_product_none_stays(counts, n, more - 1);
    }
}

/// Multiplies the numbers of ways to win the races.
pub fn multiply(counts: &Vec<i64>) -> (r: Result<i64, RaceError>)
    ensures
        match r {
            Ok(p) => product(counts@, counts@.len() as int) == Some(p),
            Err(e) => e == RaceError::Overflow && product(counts@, counts@.len() as int) is None,
        },
{
    let mut total: i64 = 1;
    let mut i: usize = 0;
    while i < counts.len()
        invariant
            i <= counts.len(),
            product(counts@, i as int) == Some(total),
        decreases counts.len() - i,
    {
        match total.checked_mul(counts[i]) {
            Some(next) => {
                total = next;
            },
            None => {
                proof {
                    assert(product(counts@, i + 1) is None);
                    lemma_product_none_stays(counts@, i + 1, counts@.len() as int);
                }
                return Err(RaceError::Overflow);
            },
        }
        i += 1;
    }
    Ok(total)
}

} // verus!
