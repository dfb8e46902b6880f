//! Calibration values: the first and the last digit of every line make a
//! number of two digits, and the numbers are summed. Digits may be spelled out.

use vstd::prelude::*;
use crate::grid::rows_of;
use crate::text::{
    chars_of,
    decimal,
    decimal_of,
    digit_of,
    digit_value,
    is_numeric_char,
    lines_of,
    matches_at,
    stands_at,
    string_of,
    text_lines,
};

verus! {

/// What can go wrong with a calibration document.
#[derive(Clone, Copy, Debug, PartialEq, Eq, Structural)]
pub enum CalibrationError {
    /// A line holds no numeric character.
    NoDigit,
    /// The first or the last numeric character of a line is no decimal digit.
    BadDigit,
    /// The sum does not fit in 32 bits.
    Overflow,
}

/// The words for the digits 1 to 9, each with its digit.
pub open spec fn digit_words() -> Seq<(Seq<char>, char)> {
    seq![
        (seq!['o', 'n', 'e'], '1'),
        (seq!['t', 'w', 'o'], '2'),
        (seq!['t', 'h', 'r', 'e', 'e'], '3'),
        (seq!['f', 'o', 'u', 'r'], '4'),
        (seq!['f', 'i', 'v', 'e'], '5'),
        (seq!['s', 'i', 'x'], '6'),
        (seq!['s', 'e', 'v', 'e', 'n'], '7'),
        (seq!['e', 'i', 'g', 'h', 't'], '8'),
        (seq!['n', 'i', 'n', 'e'], '9'),
    ]
}

/// The words of a list as sequences.
pub open spec fn words_of(words: Seq<(Vec<char>, char)>) -> Seq<(Seq<char>, char)> {
    Seq::new(words.len(), |i: int| (words[i].0@, words[i].1))
}

/// The first of the first `n` of `words` that stands in `s` at place `i`, with
/// its digit.
pub open spec fn word_among(s: Seq<char>, i: int, words: Seq<(Seq<char>, char)>, n: int) -> Option<
    (Seq<char>, char),
>
    decreases n,
{
    if n <= 0 {
        None
    } else {
        match word_among(s, i, words, n - 1) {
            Some(w) => Some(w),
            None => if stands_at(s, i, words[n - 1].0) {
                Some(words[n - 1])
            } else {
                None
            },
        }
    }
}

/// The digit word that stands in `s` at place `i`, with its digit.
pub open spec fn word_at(s: Seq<char>, i: int) -> Option<(Seq<char>, char)> {
    word_among(s, i, digit_words(), digit_words().len() as int)
}

/// Reading the first `n` characters of `s`: what has been written out, and the
/// place before which plain characters are not written. Where a digit word
/// begins, its digit is written and the characters that it covers are not;
/// a word that begins inside another one still gives its digit.
pub open spec fn rewritten(s: Seq<char>, n: nat) -> (Seq<char>, int)
    decreases n,
{
    if n == 0 {
        (Seq::empty(), 0)
    } else {
        let (out, covered) = rewritten(s, (n - 1) as nat);
        match word_at(s, n - 1) {
            Some((word, digit)) => (out.push(digit), n - 1 + word.len()),
            None => if n - 1 >= covered {
                (out.push(s[n - 1]), covered)
            } else {
                (out, covered)
            },
        }
    }
}

/// `s` with every digit word replaced by its digit.
pub open spec fn digits_for_words(s: Seq<char>) -> Seq<char> {
    rewritten(s, s.len()).0
}

/// The words for the digits 1 to 9, each with its digit.
pub fn new_digit_word_map() -> (words: Vec<(Vec<char>, char)>)
    ensures
        words_of(words@) == digit_words(),
{
    let mut words: Vec<(Vec<char>, char)> = Vec::new();
    words.push((vec!['o', 'n', 'e'], '1'));
    words.push((vec!['t', 'w', 'o'], '2'));
    words.push((vec!['t', 'h', 'r', 'e', 'e'], '3'));
    words.push((vec!['f', 'o', 'u', 'r'], '4'));
    words.push((vec!['f', 'i', 'v', 'e'], '5'));
    words.push((vec!['s', 'i', 'x'], '6'));
    words.push((vec!['s', 'e', 'v', 'e', 'n'], '7'));
    words.push((vec!['e', 'i', 'g', 'h', 't'], '8'));
    words.push((vec!['n', 'i', 'n', 'e'], '9'));
    proof {
        let got = words_of(words@);
        let want = digit_words();
        assert(got.len() == want.len());
        assert forall|i: int| 0 <= i < got.len() implies got[i] == want[i] by {
            assert(got[i].0 =~= want[i].0);
        }
        assert(got =~= want);
    }
    words
}

/// The first of `words` that stands in `text` at place `i`: its length and its
/// digit.
pub fn find_word(text: &Vec<char>, i: usize, words: &Vec<(Vec<char>, char)>) -> (r: Option<
    (usize, char),
>)
    ensures
        match r {
            Some((len, digit)) => word_among(
                text@,
                i as int,
                words_of(words@),
                words@.len() as int,
            ) matches Some((word, d)) && word.len() == len && d == digit,
            None => word_among(text@, i as int, words_of(words@), words@.len() as int) is None,
        },
{
    let ghost all = words_of(words@);
    let mut k: usize = 0;
    while k < words.len()
        invariant
            k <= words.len(),
            all == words_of(words@),
            word_among(text@, i as int, all, k as int) is None,
        decreases words.len() - k,
    {
        proof {
            assert(all[k as int] == (words@[k as int].0@, words@[k as int].1));
        }
        if matches_at(text, i, &words[k].0) {
            proof {
                lemma_word_found(text@, i as int, all, k + 1, all.len() as int);
            }
            return Some((words[k].0.len(), words[k].1));
        }
        k += 1;
    }
    None
}

/// A word found among the first `n` is the word found among any more.
pub proof fn lemma_word_found(
    s: Seq<char>,
    i: int,
    words: Seq<(Seq<char>, char)>,
    n: int,
    more: int,
)
    requires
        word_among(s, i, words, n) is Some,
        n <= more,
    ensures
        word_among(s, i, words, more) == word_among(s, i, words, n),
    decreases more - n,
{
    if n < more {
        lemma_word_found(s, i, words, n, more - 1);
    }
}

/// Replaces every digit word of `s` by its digit.
pub fn words_to_digits(s: &str) -> (r: String)
    ensures
        r@ == digits_for_words(s@),
{
    let chars = chars_of(s);
    let words = new_digit_word_map();
    let mut out: Vec<char> = Vec::new();
    let mut next_push_unmatched: usize = 0;
    let mut i: usize = 0;
    while i < chars.len()
        invariant
            i <= chars.len(),
            chars@ == s@,
            words_of(words@) == digit_words(),
            rewritten(s@, i as nat) == (out@, next_push_unmatched as int),
            next_push_unmatched <= chars.len(),
        decreases chars.len() - i,
    {
        match find_word(&chars, i, &words) {
            Some((len, digit)) => {
                proof {
                    lemma_word_fits(s@, i as int, digit_words(), digit_words().len() as int);
                }
                out.push(digit);
                next_push_unmatched = i + len;
            },
            None => {
                if i >= next_push_unmatched {
                    out.push(chars[i]);
                }
            },
        }
        i += 1;
    }
    string_of(&out)
}

/// A word that stands at a place ends inside the text.
pub proof fn lemma_word_fits(s: Seq<char>, i: int, words: Seq<(Seq<char>, char)>, n: int)
    ensures
        word_among(s, i, words, n) matches Some((word, d)) ==> i + word.len() <= s.len(),
    decreases n,
{
    if n > 0 {
        lemma_word_fits(s, i, words, n - 1);
    }
}

/// The first numeric character of `line`, or the last when `backwards`.
/// `line.len()` stands for none.
pub open spec fn numeric_index(line: Seq<char>, backwards: bool) -> int {
    if backwards {
        last_numeric(line)
    } else {
        first_numeric(line, 0)
    }
}

/// The place of the first numeric character of `line` from `from` on, or the
/// length of `line` when there is none.
pub open spec fn first_numeric(line: Seq<char>, from: int) -> int
    decreases line.len() - from,
{
    if from < 0 || from >= line.len() {
        line.len() as int
    } else if is_numeric_char(line[from]) {
        from
    } else {
        first_numeric(line, from + 1)
    }
}

/// The place of the last numeric character of `line`, or the length of `line`
/// when there is none.
pub open spec fn last_numeric(line: Seq<char>) -> int
    decreases line.len(),
{
    if line.len() == 0 {
        0
    } else if is_numeric_char(line.last()) {
        line.len() - 1
    } else {
        let before = last_numeric(line.drop_last());
        if before == line.len() - 1 {
            line.len() as int
        } else {
            before
        }
    }
}

/// The first numeric character of `chars`, or the last when `backwards`;
/// `None` when it holds none.
pub fn first_digit(chars: &Vec<char>, backwards: bool) -> (r: Option<char>)
    ensures
        match r {
            Some(c) => numeric_index(chars@, backwards) < chars@.len() && c == chars@[numeric_index(
                chars@,
                backwards,
            )],
            None => numeric_index(chars@, backwards) == chars@.len(),
        },
{
    if backwards {
        let mut k: usize = chars.len();
        while k > 0
            invariant
                backwards,
                k <= chars.len(),
                forall|j: int| k <= j < chars@.len() ==> !is_numeric_char(chars@[j]),
            decreases k,
        {
            k -= 1;
            if chars[k].is_numeric() {
                proof {
                    lemma_last_numeric_at(chars@, k as int);
                }
                return Some(chars[k]);
            }
        }
        proof {
            lemma_no_numeric(chars@);
        }
        None
    } else {
        let mut i: usize = 0;
        while i < chars.len()
            invariant
                !backwards,
                i <= chars.len(),
                first_numeric(chars@, 0) == first_numeric(chars@, i as int),
            decreases chars.len() - i,
        {
            if chars[i].is_numeric() {
                assert(first_numeric(chars@, i as int) == i);
                return Some(chars[i]);
            }
            i += 1;
        }
        None
    }
}

/// Where the last numeric character stands, given that none stands behind `k`.
pub proof fn lemma_last_numeric_at(line: Seq<char>, k: int)
    requires
        0 <= k < line.len(),
        is_numeric_char(line[k]),
        forall|j: int| k < j < line.len() ==> !is_numeric_char(line[j]),
    ensures
        last_numeric(line) == k,
    decreases line.len(),
{
    if !is_numeric_char(line.last()) {
        lemma_last_numeric_at(line.drop_last(), k);
    }
}

/// The calibration value of `line`: ten times its first digit plus its last
/// digit.
pub open spec fn line_value(line: Seq<char>) -> Result<u32, CalibrationError> {
    let first = first_numeric(line, 0);
    let last = last_numeric(line);
    if first >= line.len() {
        Err(CalibrationError::NoDigit)
    } else {
        match (digit_value(line[first]), digit_value(line[last])) {
            (Some(a), Some(b)) => Ok((10 * a + b) as u32),
            _ => Err(CalibrationError::BadDigit),
        }
    }
}

/// The calibration values of `lines`, or the error of the first line that has
/// none.
pub open spec fn line_values(lines: Seq<Seq<char>>) -> Result<Seq<u32>, CalibrationError>
    decreases lines.len(),
{
    if lines.len() == 0 {
        Ok(Seq::empty())
    } else {
        match line_values(lines.drop_last()) {
            Err(e) => Err(e),
            Ok(values) => match line_value(lines.last()) {
                Err(e) => Err(e),
                Ok(v) => Ok(values.push(v)),
            },
        }
    }
}

/// The sum of the first `n` of `values`.
pub open spec fn sum_of(values: Seq<u32>, n: int) -> nat
    decreases n,
{
    if n <= 0 {
        0
    } else {
        sum_of(values, n - 1) + values[n - 1] as nat
    }
}

/// The sum of the calibration values of `lines`. A line without a value is
/// reported before a sum that does not fit in 32 bits.
pub open spec fn calibration_sum(lines: Seq<Seq<char>>) -> Result<u32, CalibrationError> {
    match line_values(lines) {
        Err(e) => Err(e),
        Ok(values) => if sum_of(values, values.len() as int) <= u32::MAX {
            Ok(sum_of(values, values.len() as int) as u32)
        } else {
            Err(CalibrationError::Overflow)
        },
    }
}

/// An error among the first lines is the error of all of them.
pub proof fn lemma_values_error_stays(lines: Seq<Seq<char>>, n: int)
    requires
        0 <= n <= lines.len(),
        line_values(lines.take(n)) is Err,
    ensures
        line_values(lines) == line_values(lines.take(n)),
    decreases lines.len() - n,
{
    if n < lines.len() {
        assert(lines.take(n + 1).drop_last() =~= lines.take(n));
        lemma_values_error_stays(lines, n + 1);
    } else {
        assert(lines.take(n) =~= lines);
    }
}

/// A sum of more values is no smaller.
pub proof fn lemma_sum_grows(values: Seq<u32>, n: int, more: int)
    requires
        0 <= n <= more,
    ensures
        sum_of(values, n) <= sum_of(values, more),
    decreases more - n,
{
    if n < more {
        lemma_sum_grows(values, n, more - 1);
    }
}

/// A line with a first numeric character has a last one, and the other way
/// round.
pub proof fn lemma_first_and_last(line: Seq<char>, from: int)
    requires
        0 <= from <= line.len(),
        forall|i: int| 0 <= i < from ==> !is_numeric_char(line[i]),
    ensures
        (first_numeric(line, from) == line.len()) == (last_numeric(line) == line.len()),
    decreases line.len() - from,
{
    if from < line.len() {
        if is_numeric_char(line[from]) {
            lemma_has_numeric(line, from);
        } else {
            lemma_first_and_last(line, from + 1);
        }
    } else {
        lemma_no_numeric(line);
    }
}

/// A line with a numeric character has a last one.
pub proof fn lemma_has_numeric(line: Seq<char>, at: int)
    requires
        0 <= at < line.len(),
        is_numeric_char(line[at]),
    ensures
        last_numeric(line) < line.len(),
    decreases line.len(),
{
    if !is_numeric_char(line.last()) {
        lemma_has_numeric(line.drop_last(), at);
    }
}

/// A line without a numeric character has no last one.
pub proof fn lemma_no_numeric(line: Seq<char>)
    requires
        forall|i: int| 0 <= i < line.len() ==> !is_numeric_char(line[i]),
    ensures
        last_numeric(line) == line.len(),
    decreases line.len(),
{
    if line.len() > 0 {
        lemma_no_numeric(line.drop_last());
    }
}

/// The calibration value of one line.
pub fn calibration_value(line: &Vec<char>) -> (r: Result<u32, CalibrationError>)
    ensures
        r == line_value(line@),
{
    proof {
        lemma_first_and_last(line@, 0);
    }
    let first = match first_digit(line, false) {
        Some(c) => c,
        None => {
            return Err(CalibrationError::NoDigit);
        },
    };
    let last = match first_digit(line, true) {
        Some(c) => c,
        None => {
            return Err(CalibrationError::NoDigit);
        },
    };
    match (digit_of(first), digit_of(last)) {
        (Some(a), Some(b)) => Ok((a as u32) * 10 + b as u32),
        _ => Err(CalibrationError::BadDigit),
    }
}

/// The sum of the calibration values of the lines of `s`, in decimal.
pub fn part_1(s: &str) -> (r: Result<String, CalibrationError>)
    ensures
        match r {
            Ok(answer) => calibration_sum(lines_of(s@)) matches Ok(n) && answer@ == decimal(
                n as nat,
            ),
            Err(e) => calibration_sum(lines_of(s@)) == Err::<u32, CalibrationError>(e),
        },
{
    let lines = text_lines(s);
    let ghost all = lines_of(s@);
    let mut cal: Vec<u32> = Vec::new();
    let mut i: usize = 0;
    proof {
        assert(all.take(0) =~= Seq::<Seq<char>>::empty());
    }
    while i < lines.len()
        invariant
            i <= lines.len(),
            all == rows_of(lines@),
            all == lines_of(s@),
            line_values(all.take(i as int)) == Ok::<Seq<u32>, CalibrationError>(cal@),
        decreases lines.len() - i,
    {
        proof {
            assert(all.take(i + 1).drop_last() =~= all.take(i as int));
            assert(all.take(i + 1).last() == lines@[i as int]@);
        }
        match calibration_value(&lines[i]) {
            Ok(v) => {
                cal.push(v);
            },
            Err(e) => {
                proof {
                    assert(line_values(all.take(i + 1)) == Err::<Seq<u32>, CalibrationError>(e));
                    lemma_values_error_stays(all, i + 1);
                }
                return Err(e);
            },
        }
        i += 1;
    }
    proof {
        assert(all.take(lines.len() as int) =~= all);
    }
    let mut total: u32 = 0;
    let mut k: usize = 0;
    while k < cal.len()
        invariant
            k <= cal.len(),
            all == lines_of(s@),
            line_values(all) == Ok::<Seq<u32>, CalibrationError>(cal@),
            total == sum_of(cal@, k as int),
        decreases cal.len() - k,
    {
        match total.checked_add(cal[k]) {
            Some(sum) => {
                total = sum;
            },
            None => {
                proof {
                    lemma_sum_grows(cal@, k + 1, cal@.len() as int);
                }
                return Err(CalibrationError::Overflow);
            },
        }
        k += 1;
    }
    let digits = decimal_of(total as u64);
    Ok(string_of(&digits))
}

/// The sum of the calibration values of the lines of `s` after every digit
/// word has been replaced by its digit, in decimal.
pub fn part_2(s: &str) -> (r: Result<String, CalibrationError>)
    ensures
        match r {
            Ok(answer) => calibration_sum(lines_of(digits_for_words(s@))) matches Ok(n) && answer@
                == decimal(n as nat),
            Err(e) => calibration_sum(lines_of(digits_for_words(s@))) == Err::<
                u32,
                CalibrationError,
            >(e),
        },
{
    let fixed = words_to_digits(s);
    part_1(fixed.as_str())
}

} // verus!
