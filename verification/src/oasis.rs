//! Histories of readings: the value that follows a history is found from its
//! differences, and the differences of those, down to a constant row.

use vstd::prelude::*;
use crate::grid::rows_of;
use crate::text::{
    lines_of,
    numbers_in,
    parse_numbers,
    signed_decimal,
    signed_decimal_string,
    text_lines,
};

verus! {

/// What can go wrong with a report of histories.
#[derive(Clone, Copy, Debug, PartialEq, Eq, Structural)]
pub enum OasisError {
    /// A line holds something that is no number of 64 bits.
    BadNumber,
    /// A line holds no number.
    EmptyHistory,
    /// A difference or a sum does not fit in 64 bits.
    Overflow,
}

/// Whether `n` fits in 64 bits.
pub open spec fn fits(n: int) -> bool {
    i64::MIN <= n <= i64::MAX
}

/// Every value of `seq` equals the one before it.
pub open spec fn constant(seq: Seq<i64>) -> bool {
    forall|i: int| 0 < i < seq.len() ==> #[trigger] seq[i] == seq[i - 1]
}

/// Every difference between a value of `seq` and the one before it fits in 64
/// bits.
pub open spec fn differences_fit(seq: Seq<i64>) -> bool {
    forall|i: int| 0 < i < seq.len() ==> fits(#[trigger] seq[i] - seq[i - 1])
}

/// The differences between each value of `seq` and the one before it.
pub open spec fn differences(seq: Seq<i64>) -> Seq<i64> {
    Seq::new(
        if seq.len() == 0 {
            0
        } else {
            (seq.len() - 1) as nat
        },
        |i: int| (seq[i + 1] - seq[i]) as i64,
    )
}

/// The value that follows `seq`: its last value where `seq` is constant, and
/// else its last value plus the value that follows its differences.
pub open spec fn extrapolated(seq: Seq<i64>) -> Result<i64, OasisError>
    decreases seq.len(),
{
    if seq.len() == 0 {
        Err(OasisError::EmptyHistory)
    } else if constant(seq) {
        Ok(seq.last())
    } else if !differences_fit(seq) {
        Err(OasisError::Overflow)
    } else {
        match extrapolated(differences(seq)) {
            Ok(v) => if fits(seq.last() + v) {
                Ok((seq.last() + v) as i64)
            } else {
                Err(OasisError::Overflow)
            },
            Err(e) => Err(e),
        }
    }
}

/// Whether every value of `seq` equals the one before it.
pub fn all_same(seq: &Vec<i64>) -> (r: bool)
    ensures
        r == constant(seq@),
{
    let mut i: usize = 1;
    while i < seq.len()
        invariant
            1 <= i,
            forall|j: int| 0 < j < i && j < seq.len() ==> #[trigger] seq@[j] == seq@[j - 1],
        decreases seq.len() - i,
    {
        if seq[i] != seq[i - 1] {
            return false;
        }
        i += 1;
    }
    true
}

/// The differences between each value of `seq` and the one before it, or
/// `None` when one of them does not fit in 64 bits.
pub fn get_diffs(seq: &Vec<i64>) -> (r: Option<Vec<i64>>)
    ensures
        match r {
            Some(d) => differences_fit(seq@) && d@ == differences(seq@),
            None => !differences_fit(seq@),
        },
{
    let mut diffs: Vec<i64> = Vec::new();
    let mut i: usize = 1;
    while i < seq.len()
        invariant
            1 <= i,
            i <= seq.len() || (seq.len() == 0 && i == 1),
            diffs@.len() == i - 1,
            forall|j: int| 0 < j < i && j < seq.len() ==> fits(#[trigger] seq@[j] - seq@[j - 1]),
            forall|j: int| 0 <= j < diffs@.len() ==> #[trigger] diffs@[j] == seq@[j + 1] - seq@[j],
        decreases seq.len() - i,
    {
        match seq[i].checked_sub(seq[i - 1]) {
            Some(d) => {
                diffs.push(d);
            },
            None => {
                assert(!fits(seq@[i as int] - seq@[i - 1]));
                return None;
            },
        }
        i += 1;
    }
    proof {
        let target = differences(seq@);
        assert(diffs@.len() == target.len());
        assert forall|k: int| 0 <= k < diffs@.len() implies diffs@[k] == target[k] by {
            let j = k + 1;
            assert(fits(seq@[j] - seq@[j - 1]));
        }
        assert(diffs@ =~= target);
    }
    Some(diffs)
}

/// The value that follows `seq`. Fails with `EmptyHistory` when `seq` is
/// empty, and with `Overflow` when a difference or a sum on the way does not
/// fit in 64 bits.
pub fn extrapolate(seq: &Vec<i64>) -> (r: Result<i64, OasisError>)
    ensures
        r == extrapolated(seq@),
    decreases seq@.len(),
{
    if seq.len() == 0 {
        return Err(OasisError::EmptyHistory);
    }
    let last = seq[seq.len() - 1];
    if all_same(seq) {
        Ok(last)
    } else {
        match get_diffs(seq) {
            None => Err(OasisError::Overflow),
            Some(diffs) => match extrapolate(&diffs) {
                Ok(v) => match last.checked_add(v) {
                    Some(sum) => Ok(sum),
                    None => Err(OasisError::Overflow),
                },
                Err(e) => Err(e),
            },
        }
    }
}

/// The value that follows the history written on `line`, read backwards when
/// `backwards`.
pub open spec fn line_value(line: Seq<char>, backwards: bool) -> Result<i64, OasisError> {
    match numbers_in(line) {
        Ok(seq) => extrapolated(
            if backwards {
                seq.reverse()
            } else {
                seq
            },
        ),
        Err(e) => Err(OasisError::BadNumber),
    }
}

/// The sum of the values that follow the histories on `lines`, or the error of
/// the first line that has none, or `Overflow` once the sum leaves 64 bits.
pub open spec fn report_sum(lines: Seq<Seq<char>>, backwards: bool) -> Result<i64, OasisError>
    decreases lines.len(),
{
    if lines.len() == 0 {
        Ok(0)
    } else {
        match report_sum(lines.drop_last(), backwards) {
            Err(e) => Err(e),
            Ok(total) => match line_value(lines.last(), backwards) {
                Err(e) => Err(e),
                Ok(v) => if fits(total + v) {
                    Ok((total + v) as i64)
                } else {
                    Err(OasisError::Overflow)
                },
            },
        }
    }
}

/// An error among the first lines is the error of the whole report.
pub proof fn lemma_report_error_stays(lines: Seq<Seq<char>>, n: int, backwards: bool)
    requires
        0 <= n <= lines.len(),
        report_sum(lines.take(n), backwards) is Err,
    ensures
        report_sum(lines, backwards) == report_sum(lines.take(n), backwards),
    decreases lines.len() - n,
{
    if n < lines.len() {
        assert(lines.take(n + 1).drop_last() =~= lines.take(n));
        lemma_report_error_stays(lines, n + 1, backwards);
    } else {
        assert(lines.take(n) =~= lines);
    }
}

/// `seq` in reverse order.
pub fn reversed(seq: &Vec<i64>) -> (r: Vec<i64>)
    ensures
        r@ == seq@.reverse(),
{
    let mut out: Vec<i64> = Vec::new();
    let mut k: usize = seq.len();
    while k > 0
        invariant
            k <= seq.len(),
            out@ == seq@.reverse().take(seq.len() - k),
        decreases k,
    {
        k -= 1;
        out.push(seq[k]);
        proof {
            assert(out@ =~= seq@.reverse().take(seq.len() - k));
        }
    }
    proof {
        assert(seq@.reverse().take(seq.len() as int) =~= seq@.reverse());
    }
    out
}

/// Sums, over the lines of `s`, the value that follows each history, read
/// backwards when `backwards`.
pub fn sum_report(s: &str, backwards: bool) -> (r: Result<i64, OasisError>)
    ensures
        r == report_sum(lines_of(s@), backwards),
{
    let lines = text_lines(s);
    let ghost all = lines_of(s@);
    let mut total: i64 = 0;
    let mut i: usize = 0;
    proof {
        assert(all.take(0) =~= Seq::<Seq<char>>::empty());
    }
    while i < lines.len()
        invariant
            i <= lines.len(),
            all == rows_of(lines@),
            all == lines_of(s@),
            report_sum(all.take(i as int), backwards) == Ok::<i64, OasisError>(total),
        decreases lines.len() - i,
    {
        proof {
            assert(all.take(i + 1).drop_last() =~= all.take(i as int));
            assert(all.take(i + 1).last() == lines@[i as int]@);
        }
        let value = match parse_numbers(&lines[i]) {
            Ok(seq) => if backwards {
                extrapolate(&reversed(&seq))
            } else {
                extrapolate(&seq)
            },
            Err(e) => Err(OasisError::BadNumber),
        };
        let next = match value {
            Ok(v) => match total.checked_add(v) {
                Some(sum) => Ok(sum),
                None => Err(OasisError::Overflow),
            },
            Err(e) => Err(e),
        };
        match next {
            Ok(sum) => {
                total = sum;
            },
            Err(e) => {
                proof {
                    assert(report_sum(all.take(i + 1), backwards) == Err::<i64, OasisError>(e));
                    lemma_report_error_stays(all, i + 1, backwards);
                }
                return Err(e);
            },
        }
        i += 1;
    }
    proof {
        assert(all.take(lines.len() as int) =~= all);
    }
    Ok(total)
}

/// The sum of the values that follow the histories of the report, in decimal.
pub fn part_1(s: &str) -> (r: Result<String, OasisError>)
    ensures
        match r {
            Ok(answer) => report_sum(lines_of(s@), false) matches Ok(n) && answer@
                == signed_decimal(n as int),
            Err(e) => report_sum(lines_of(s@), false) == Err::<i64, OasisError>(e),
        },
{
    match sum_report(s, false) {
        Ok(total) => Ok(signed_decimal_string(total)),
        Err(e) => Err(e),
    }
}

/// The sum of the values that come before the histories of the report, in
/// decimal: each history is read backwards.
pub fn part_2(s: &str) -> (r: Result<String, OasisError>)
    ensures
        match r {
            Ok(answer) => report_sum(lines_of(s@), true) matches Ok(n) && answer@ == signed_decimal(
                n as int,
            ),
            Err(e) => report_sum(lines_of(s@), true) == Err::<i64, OasisError>(e),
        },
{
    match sum_report(s, true) {
        Ok(total) => Ok(signed_decimal_string(total)),
        Err(e) => Err(e),
    }
}

} // verus!
