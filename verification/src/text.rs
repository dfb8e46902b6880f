//! Text as sequences of characters: lines, tokens and decimal numbers.

use vstd::prelude::*;
use crate::grid::rows_of;

verus! {

/// `String::push` of the standard library appends one character to the end of
/// the string and leaves the rest as it was.
pub assume_specification[ String::push ](s: &mut String, ch: char)
    ensures
        final(s)@ == old(s)@.push(ch),
;

/// Whether `c` is numeric, as `char::is_numeric` of the standard library tells
/// it: whether it has one of the general categories for numbers.
pub uninterp spec fn is_numeric_char(c: char) -> bool;

/// `char::is_numeric` of the standard library depends on the character alone.
pub assume_specification[ char::is_numeric ](c: char) -> (r: bool)
    ensures
        r == is_numeric_char(c),
;

/// Whether `c` is alphabetic, as `char::is_alphabetic` of the standard library
/// tells it: whether it has the property `Alphabetic`.
pub uninterp spec fn is_alphabetic_char(c: char) -> bool;

/// `char::is_alphabetic` of the standard library depends on the character
/// alone.
pub assume_specification[ char::is_alphabetic ](c: char) -> (r: bool)
    ensures
        r == is_alphabetic_char(c),
;

/// The characters of `s`, in order.
pub fn chars_of(s: &str) -> (r: Vec<char>)
    ensures
        r@ == s@,
{
    let mut out: Vec<char> = Vec::new();
    for c in it: s.chars()
        invariant
            it.seq() == s@,
            out@ == it.seq().take(it.index() as int),
    {
        out.push(c);
        proof {
            assert(out@ =~= it.seq().take(it.index() + 1));
        }
    }
    proof {
        assert(out@ =~= s@);
    }
    out
}

/// The length of the first line of `s`: the number of characters before its
/// first line feed, or all of them when it holds none.
pub open spec fn line_end(s: Seq<char>) -> nat
    decreases s.len(),
{
    if s.len() == 0 || s[0] == '\n' {
        0
    } else {
        1 + line_end(s.drop_first())
    }
}

/// `line` without the carriage return at its end, if it has one there.
pub open spec fn without_return(line: Seq<char>) -> Seq<char> {
    if line.len() > 0 && line.last() == '\r' {
        line.drop_last()
    } else {
        line
    }
}

/// The lines of `s`. A line ends at a line feed, or at a carriage return
/// directly followed by a line feed; neither belongs to the line. What follows
/// the last line feed is a line of its own unless it is empty, and keeps a
/// carriage return at its end.
pub open spec fn lines_of(s: Seq<char>) -> Seq<Seq<char>>
    decreases s.len(),
{
    if s.len() == 0 {
        Seq::empty()
    } else {
        let n = line_end(s);
        if n < s.len() {
            seq![without_return(s.take(n as int))] + lines_of(s.skip(n as int + 1))
        } else {
            seq![s]
        }
    }
}

/// Where the first line feed of `s` stands, given that none stands before `n`.
pub proof fn lemma_line_end(s: Seq<char>, n: int)
    requires
        0 <= n <= s.len(),
        forall|i: int| 0 <= i < n ==> s[i] != '\n',
        n == s.len() || s[n] == '\n',
    ensures
        line_end(s) == n,
    decreases n,
{
    if n > 0 {
        let rest = s.drop_first();
        assert forall|i: int| 0 <= i < n - 1 implies rest[i] != '\n' by {
            assert(rest[i] == s[i + 1]);
        }
        lemma_line_end(rest, n - 1);
    }
}

/// The first line is no longer than the text.
pub proof fn lemma_line_end_bound(s: Seq<char>)
    ensures
        line_end(s) <= s.len(),
    decreases s.len(),
{
    if !(s.len() == 0 || s[0] == '\n') {
        lemma_line_end_bound(s.drop_first());
    }
}

/// Splits `text` into its lines, without their line endings.
pub fn lines(text: &Vec<char>) -> (out: Vec<Vec<char>>)
    ensures
        rows_of(out@) == lines_of(text@),
{
    let mut out: Vec<Vec<char>> = Vec::new();
    let mut cur: Vec<char> = Vec::new();
    let mut i: usize = 0;
    let ghost mut begin: int = 0;
    proof {
        assert(text@.skip(0) =~= text@);
        assert(rows_of(out@) + lines_of(text@) =~= lines_of(text@));
    }
    while i < text.len()
        invariant
            0 <= begin <= i <= text.len(),
            cur@ == text@.subrange(begin, i as int),
            forall|x: int| begin <= x < i ==> text@[x] != '\n',
            lines_of(text@) == rows_of(out@) + lines_of(text@.skip(begin)),
        decreases text.len() - i,
    {
        let c = text[i];
        if c == '\n' {
            proof {
                let rest = text@.skip(begin);
                lemma_line_end(rest, i - begin);
                assert(rest.take(i - begin) =~= cur@);
                assert(rest.skip(i - begin + 1) =~= text@.skip(i + 1));
            }
            let ghost whole = cur@;
            if cur.len() > 0 && cur[cur.len() - 1] == '\r' {
                cur.pop();
            }
            assert(cur@ =~= without_return(whole));
            let ghost before = rows_of(out@);
            out.push(cur);
            proof {
                assert(rows_of(out@) =~= before + seq![without_return(whole)]);
                assert(lines_of(text@) =~= rows_of(out@) + lines_of(text@.skip(i + 1)));
                begin = i + 1;
            }
            cur = Vec::new();
            assert(cur@ =~= text@.subrange(begin, i + 1));
        } else {
            cur.push(c);
            assert(cur@ =~= text@.subrange(begin, i + 1));
        }
        i += 1;
    }
    proof {
        let rest = text@.skip(begin);
        assert(rest =~= cur@);
        if rest.len() > 0 {
            lemma_line_end(rest, rest.len() as int);
        }
    }
    if cur.len() > 0 {
        let ghost before = rows_of(out@);
        let ghost last = cur@;
        out.push(cur);
        proof {
            assert(rows_of(out@) =~= before + seq![last]);
        }
    } else {
        proof {
            assert(rows_of(out@) + Seq::<Seq<char>>::empty() =~= rows_of(out@));
        }
    }
    out
}

/// The character that writes the digit `d`.
pub open spec fn digit_char(d: nat) -> char
    recommends
        d < 10,
{
    if d == 0 {
        '0'
    } else if d == 1 {
        '1'
    } else if d == 2 {
        '2'
    } else if d == 3 {
        '3'
    } else if d == 4 {
        '4'
    } else if d == 5 {
        '5'
    } else if d == 6 {
        '6'
    } else if d == 7 {
        '7'
    } else if d == 8 {
        '8'
    } else {
        '9'
    }
}

/// `n` written in decimal, without leading zeros.
pub open spec fn decimal(n: nat) -> Seq<char>
    decreases n,
{
    if n < 10 {
        seq![digit_char(n)]
    } else {
        decimal(n / 10).push(digit_char(n % 10))
    }
}

/// The character that writes the digit `d`.
pub fn digit_to_char(d: u8) -> (c: char)
    requires
        d < 10,
    ensures
        c == digit_char(d as nat),
{
    if d == 0 {
        '0'
    } else if d == 1 {
        '1'
    } else if d == 2 {
        '2'
    } else if d == 3 {
        '3'
    } else if d == 4 {
        '4'
    } else if d == 5 {
        '5'
    } else if d == 6 {
        '6'
    } else if d == 7 {
        '7'
    } else if d == 8 {
        '8'
    } else {
        '9'
    }
}

/// Writes `n` in decimal.
pub fn decimal_string(n: usize) -> (s: String)
    ensures
        s@ == decimal(n as nat),
{
    let digits = decimal_of(n as u64);
    string_of(&digits)
}

/// The number of characters in all of `rows` together.
pub open spec fn total_len(rows: Seq<Seq<char>>) -> nat
    decreases rows.len(),
{
    if rows.len() == 0 {
        0
    } else {
        rows[0].len() + total_len(rows.drop_first())
    }
}

/// The lines of a text hold no more characters than the text.
pub proof fn lemma_lines_fit(s: Seq<char>)
    ensures
        total_len(lines_of(s)) <= s.len(),
    decreases s.len(),
{
    if s.len() > 0 {
        let n = line_end(s);
        lemma_line_end_bound(s);
        let all = lines_of(s);
        if n < s.len() {
            let rest = lines_of(s.skip(n as int + 1));
            lemma_lines_fit(s.skip(n as int + 1));
            assert(all.drop_first() =~= rest);
            assert(all[0] == without_return(s.take(n as int)));
            assert(all[0].len() <= n);
            assert(total_len(all) == all[0].len() + total_len(all.drop_first()));
        } else {
            assert(all.drop_first() =~= Seq::<Seq<char>>::empty());
            assert(all[0] == s);
            assert(total_len(all) == all[0].len() + total_len(all.drop_first()));
        }
    }
}

/// Rows that all have the length of the first hold as many characters as
/// there are rows, times that length.
pub proof fn lemma_total_len_rectangle(rows: Seq<Seq<char>>, cols: nat)
    requires
        forall|i: int| 0 <= i < rows.len() ==> (#[trigger] rows[i]).len() == cols,
    ensures
        total_len(rows) == rows.len() * cols,
    decreases rows.len(),
{
    if rows.len() > 0 {
        let rest = rows.drop_first();
        assert forall|i: int| 0 <= i < rest.len() implies (#[trigger] rest[i]).len() == cols by {
            assert(rest[i] == rows[i + 1]);
        }
        lemma_total_len_rectangle(rest, cols);
        assert(rows.len() * cols == cols + (rows.len() - 1) * cols) by (nonlinear_arith)
            requires
                rows.len() >= 1,
        ;
    } else {
        assert(rows.len() * cols == 0) by (nonlinear_arith)
            requires
                rows.len() == 0,
        ;
    }
}

/// Whether `c` is white space: one of the characters U+0009 to U+000D, U+0020,
/// U+0085, U+00A0, U+1680, U+2000 to U+200A, U+2028, U+2029, U+202F, U+205F
/// and U+3000.
pub open spec fn is_white_space(c: char) -> bool {
    let u = c as u32;
    ||| 0x09 <= u <= 0x0D
    ||| u == 0x20
    ||| u == 0x85
    ||| u == 0xA0
    ||| u == 0x1680
    ||| 0x2000 <= u <= 0x200A
    ||| u == 0x2028
    ||| u == 0x2029
    ||| u == 0x202F
    ||| u == 0x205F
    ||| u == 0x3000
}

/// Whether `c` is white space.
pub fn is_space(c: char) -> (r: bool)
    ensures
        r == is_white_space(c),
{
    let u: u32 = c as u32;
    (0x09 <= u && u <= 0x0D) || u == 0x20 || u == 0x85 || u == 0xA0 || u == 0x1680 || (0x2000 <= u
        && u <= 0x200A) || u == 0x2028 || u == 0x2029 || u == 0x202F || u == 0x205F || u == 0x3000
}

/// Reading `s` from the left: the tokens that have ended so far, and the
/// characters of the token that is still open (empty when none is).
pub open spec fn scan(s: Seq<char>) -> (Seq<Seq<char>>, Seq<char>)
    decreases s.len(),
{
    if s.len() == 0 {
        (Seq::empty(), Seq::empty())
    } else {
        let (done, open) = scan(s.drop_last());
        if is_white_space(s.last()) {
            if open.len() > 0 {
                (done.push(open), Seq::empty())
            } else {
                (done, open)
            }
        } else {
            (done, open.push(s.last()))
        }
    }
}

/// The tokens of `s`: its longest runs of characters that are not white space,
/// in order.
pub open spec fn tokens_of(s: Seq<char>) -> Seq<Seq<char>> {
    let (done, open) = scan(s);
    if open.len() > 0 {
        done.push(open)
    } else {
        done
    }
}

/// Splits `text` at white space into its tokens. No token is empty.
pub fn split_whitespace(text: &Vec<char>) -> (out: Vec<Vec<char>>)
    ensures
        rows_of(out@) == tokens_of(text@),
{
    let mut out: Vec<Vec<char>> = Vec::new();
    let mut cur: Vec<char> = Vec::new();
    let mut i: usize = 0;
    proof {
        assert(text@.take(0) =~= Seq::<char>::empty());
        assert(rows_of(out@) =~= Seq::<Seq<char>>::empty());
    }
    while i < text.len()
        invariant
            i <= text.len(),
            scan(text@.take(i as int)) == (rows_of(out@), cur@),
        decreases text.len() - i,
    {
        let c = text[i];
        proof {
            assert(text@.take(i + 1).drop_last() =~= text@.take(i as int));
        }
        if is_space(c) {
            if cur.len() > 0 {
                let ghost before = rows_of(out@);
                let ghost token = cur@;
                out.push(cur);
                cur = Vec::new();
                proof {
                    assert(rows_of(out@) =~= before.push(token));
                }
            }
        } else {
            cur.push(c);
        }
        i += 1;
    }
    proof {
        assert(text@.take(text.len() as int) =~= text@);
    }
    if cur.len() > 0 {
        let ghost before = rows_of(out@);
        let ghost token = cur@;
        out.push(cur);
        proof {
            assert(rows_of(out@) =~= before.push(token));
        }
    }
    out
}

/// Why a token is not a number that fits in 64 bits.
#[derive(Clone, Copy, Debug, PartialEq, Eq, Structural)]
pub enum NumberError {
    /// The token is empty.
    Empty,
    /// The token holds a character that is no decimal digit, or only a sign.
    InvalidDigit,
    /// The number is too large.
    PosOverflow,
    /// The number is too small.
    NegOverflow,
}

/// The value of the decimal digit `c`, if it is one.
pub open spec fn digit_value(c: char) -> Option<int> {
    if c == '0' {
        Some(0)
    } else if c == '1' {
        Some(1)
    } else if c == '2' {
        Some(2)
    } else if c == '3' {
        Some(3)
    } else if c == '4' {
        Some(4)
    } else if c == '5' {
        Some(5)
    } else if c == '6' {
        Some(6)
    } else if c == '7' {
        Some(7)
    } else if c == '8' {
        Some(8)
    } else if c == '9' {
        Some(9)
    } else {
        None
    }
}

/// The value of the decimal digit `c`, if it is one.
pub fn digit_of(c: char) -> (r: Option<u8>)
    ensures
        match r {
            Some(d) => digit_value(c) == Some(d as int),
            None => digit_value(c) is None,
        },
{
    if c == '0' {
        Some(0)
    } else if c == '1' {
        Some(1)
    } else if c == '2' {
        Some(2)
    } else if c == '3' {
        Some(3)
    } else if c == '4' {
        Some(4)
    } else if c == '5' {
        Some(5)
    } else if c == '6' {
        Some(6)
    } else if c == '7' {
        Some(7)
    } else if c == '8' {
        Some(8)
    } else if c == '9' {
        Some(9)
    } else {
        None
    }
}

/// The number that the digits `s` write, read from the left and counted
/// downwards when `negative`. The first character that is no digit, or that
/// takes the number out of the range of 64 bits, decides the error.
pub open spec fn digits_value(s: Seq<char>, negative: bool) -> Result<int, NumberError>
    decreases s.len(),
{
    if s.len() == 0 {
        Ok(0)
    } else {
        match digits_value(s.drop_last(), negative) {
            Err(e) => Err(e),
            Ok(v) => match digit_value(s.last()) {
                None => Err(NumberError::InvalidDigit),
                Some(d) => if negative {
                    if v * 10 - d < i64::MIN {
                        Err(NumberError::NegOverflow)
                    } else {
                        Ok(v * 10 - d)
                    }
                } else {
                    if v * 10 + d > i64::MAX {
                        Err(NumberError::PosOverflow)
                    } else {
                        Ok(v * 10 + d)
                    }
                },
            },
        }
    }
}

/// The number that `token` writes in decimal: an optional sign, `+` or `-`,
/// and then at least one digit.
pub open spec fn number_of(token: Seq<char>) -> Result<int, NumberError> {
    if token.len() == 0 {
        Err(NumberError::Empty)
    } else if token[0] == '-' || token[0] == '+' {
        if token.len() == 1 {
            Err(NumberError::InvalidDigit)
        } else {
            digits_value(token.drop_first(), token[0] == '-')
        }
    } else {
        digits_value(token, false)
    }
}

/// Reads a decimal number of 64 bits from `token`.
pub fn parse_number(token: &Vec<char>) -> (r: Result<i64, NumberError>)
    ensures
        match r {
            Ok(v) => number_of(token@) == Ok::<int, NumberError>(v as int),
            Err(e) => number_of(token@) == Err::<int, NumberError>(e),
        },
{
    if token.len() == 0 {
        return Err(NumberError::Empty);
    }
    let negative = token[0] == '-';
    let signed = negative || token[0] == '+';
    if signed && token.len() == 1 {
        return Err(NumberError::InvalidDigit);
    }
    let first: usize = if signed {
        1
    } else {
        0
    };
    let ghost digits = token@.skip(first as int);
    proof {
        if signed {
            assert(digits =~= token@.drop_first());
        } else {
            assert(digits =~= token@);
        }
        assert(digits.take(0) =~= Seq::<char>::empty());
        assert(number_of(token@) == digits_value(digits, negative));
    }
    let mut value: i64 = 0;
    let mut i: usize = first;
    while i < token.len()
        invariant
            first <= i <= token.len(),
            digits == token@.skip(first as int),
            number_of(token@) == digits_value(digits, negative),
            digits_value(digits.take(i - first), negative) == Ok::<int, NumberError>(value as int),
            negative ==> value <= 0,
            !negative ==> value >= 0,
        decreases token.len() - i,
    {
        let ghost upto = digits.take(i + 1 - first);
        proof {
            assert(upto.drop_last() =~= digits.take(i - first));
            assert(upto.last() == token@[i as int]);
        }
        let d = match digit_of(token[i]) {
            Some(d) => d,
            None => {
                proof {
                    assert(digits_value(upto, negative) == Err::<int, NumberError>(
                        NumberError::InvalidDigit,
                    ));
                    lemma_digits_error_stays(digits, i + 1 - first, negative);
                }
                return Err(NumberError::InvalidDigit);
            },
        };
        let wide: i128 = if negative {
            value as i128 * 10 - d as i128
        } else {
            value as i128 * 10 + d as i128
        };
        if wide < i64::MIN as i128 {
            proof {
                assert(digits_value(upto, negative) == Err::<int, NumberError>(
                    NumberError::NegOverflow,
                ));
                lemma_digits_error_stays(digits, i + 1 - first, negative);
            }
            return Err(NumberError::NegOverflow);
        }
        if wide > i64::MAX as i128 {
            proof {
                assert(digits_value(upto, negative) == Err::<int, NumberError>(
                    NumberError::PosOverflow,
                ));
                lemma_digits_error_stays(digits, i + 1 - first, negative);
            }
            return Err(NumberError::PosOverflow);
        }
        proof {
            assert(digits_value(upto, negative) == Ok::<int, NumberError>(wide as int));
        }
        value = wide as i64;
        i += 1;
    }
    proof {
        assert(digits.take(token.len() - first) =~= digits);
    }
    Ok(value)
}

/// An error in a prefix of the digits is the error of all of them.
pub proof fn lemma_digits_error_stays(s: Seq<char>, n: int, negative: bool)
    requires
        0 <= n <= s.len(),
        digits_value(s.take(n), negative) is Err,
    ensures
        digits_value(s, negative) == digits_value(s.take(n), negative),
    decreases s.len() - n,
{
    if n < s.len() {
        assert(s.take(n + 1).drop_last() =~= s.take(n));
        lemma_digits_error_stays(s, n + 1, negative);
    } else {
        assert(s.take(n) =~= s);
    }
}

/// The numbers that `tokens` write, or the error of the first token that
/// writes none.
pub open spec fn numbers_of(tokens: Seq<Seq<char>>) -> Result<Seq<i64>, NumberError>
    decreases tokens.len(),
{
    if tokens.len() == 0 {
        Ok(Seq::empty())
    } else {
        match numbers_of(tokens.drop_last()) {
            Err(e) => Err(e),
            Ok(values) => match number_of(tokens.last()) {
                Err(e) => Err(e),
                Ok(v) => Ok(values.push(v as i64)),
            },
        }
    }
}

/// An error among the first tokens is the error of all of them.
pub proof fn lemma_numbers_error_stays(tokens: Seq<Seq<char>>, n: int)
    requires
        0 <= n <= tokens.len(),
        numbers_of(tokens.take(n)) is Err,
    ensures
        numbers_of(tokens) == numbers_of(tokens.take(n)),
    decreases tokens.len() - n,
{
    if n < tokens.len() {
        assert(tokens.take(n + 1).drop_last() =~= tokens.take(n));
        lemma_numbers_error_stays(tokens, n + 1);
    } else {
        assert(tokens.take(n) =~= tokens);
    }
}

/// The numbers that `text` holds, separated by white space, or the error of
/// the first token that is no number of 64 bits.
pub open spec fn numbers_in(text: Seq<char>) -> Result<Seq<i64>, NumberError> {
    numbers_of(tokens_of(text))
}

/// Reads the decimal numbers that `text` holds, separated by white space.
/// Fails with the error of the first token that is no number of 64 bits.
pub fn parse_numbers(text: &Vec<char>) -> (r: Result<Vec<i64>, NumberError>)
    ensures
        match r {
            Ok(v) => numbers_in(text@) == Ok::<Seq<i64>, NumberError>(v@),
            Err(e) => numbers_in(text@) == Err::<Seq<i64>, NumberError>(e),
        },
{
    let tokens = split_whitespace(text);
    let ghost all = tokens_of(text@);
    let mut v: Vec<i64> = Vec::new();
    let mut i: usize = 0;
    proof {
        assert(all.take(0) =~= Seq::<Seq<char>>::empty());
    }
    while i < tokens.len()
        invariant
            i <= tokens.len(),
            all == rows_of(tokens@),
            all == tokens_of(text@),
            numbers_of(all.take(i as int)) == Ok::<Seq<i64>, NumberError>(v@),
        decreases tokens.len() - i,
    {
        proof {
            assert(all.take(i + 1).drop_last() =~= all.take(i as int));
            assert(all.take(i + 1).last() == tokens@[i as int]@);
        }
        match parse_number(&tokens[i]) {
            Ok(value) => {
                v.push(value);
            },
            Err(e) => {
                proof {
                    assert(numbers_of(all.take(i + 1)) == Err::<Seq<i64>, NumberError>(e));
                    lemma_numbers_error_stays(all, i + 1);
                }
                return Err(e);
            },
        }
        i += 1;
    }
    proof {
        assert(all.take(tokens.len() as int) =~= all);
    }
    Ok(v)
}

/// Reads the decimal numbers that `s` holds, separated by white space. Fails
/// with the error of the first token that is no number of 64 bits.
pub fn parse_on_whitespace(s: &str) -> (r: Result<Vec<i64>, NumberError>)
    ensures
        match r {
            Ok(v) => numbers_in(s@) == Ok::<Seq<i64>, NumberError>(v@),
            Err(e) => numbers_in(s@) == Err::<Seq<i64>, NumberError>(e),
        },
{
    let text = chars_of(s);
    parse_numbers(&text)
}

/// `n` written in decimal, with a minus sign before it when it is negative.
pub open spec fn signed_decimal(n: int) -> Seq<char> {
    if n < 0 {
        seq!['-'] + decimal((-n) as nat)
    } else {
        decimal(n as nat)
    }
}

/// Writes `n` in decimal.
pub fn decimal_of(n: u64) -> (s: Vec<char>)
    ensures
        s@ == decimal(n as nat),
{
    let mut digits: Vec<char> = Vec::new();
    let mut rest: u64 = n;
    while rest >= 10
        invariant
            decimal(n as nat) == decimal(rest as nat) + digits@.reverse(),
        decreases rest,
    {
        let d = (rest % 10) as u8;
        let ghost old_digits = digits@;
        let ghost old_rest = rest;
        digits.push(digit_to_char(d));
        rest = rest / 10;
        proof {
            let c = digit_char((old_rest % 10) as nat);
            assert(digits@.reverse() =~= seq![c] + old_digits.reverse());
            assert(decimal(old_rest as nat) =~= decimal(rest as nat) + seq![c]);
            assert(decimal(rest as nat) + digits@.reverse() =~= decimal(old_rest as nat)
                + old_digits.reverse());
        }
    }
    let mut s: Vec<char> = Vec::new();
    s.push(digit_to_char(rest as u8));
    proof {
        assert(s@ =~= decimal(rest as nat));
        assert(digits@.reverse().skip(0) =~= digits@.reverse());
    }
    let mut k: usize = digits.len();
    while k > 0
        invariant
            k <= digits.len(),
            decimal(n as nat) == s@ + digits@.reverse().skip(digits.len() - k),
        decreases k,
    {
        k -= 1;
        let ghost before = s@;
        s.push(digits[k]);
        proof {
            let rev = digits@.reverse();
            assert(rev[digits.len() - k - 1] == digits@[k as int]);
            assert(before + rev.skip(digits.len() - k - 1) =~= s@ + rev.skip(digits.len() - k));
        }
    }
    proof {
        assert(s@ + digits@.reverse().skip(digits.len() as int) =~= s@);
    }
    s
}

/// The string that holds the characters `text`.
pub fn string_of(text: &Vec<char>) -> (s: String)
    ensures
        s@ == text@,
{
    let mut s = String::new();
    let mut i: usize = 0;
    while i < text.len()
        invariant
            i <= text.len(),
            s@ == text@.take(i as int),
        decreases text.len() - i,
    {
        s.push(text[i]);
        proof {
            assert(s@ =~= text@.take(i + 1));
        }
        i += 1;
    }
    proof {
        assert(text@.take(text.len() as int) =~= text@);
    }
    s
}

/// Writes `n` in decimal, with a minus sign before it when it is negative.
pub fn signed_decimal_string(n: i64) -> (s: String)
    ensures
        s@ == signed_decimal(n as int),
{
    if n < 0 {
        let magnitude: u64 = (-(n as i128)) as u64;
        let digits = decimal_of(magnitude);
        let mut s = String::new();
        s.push('-');
        let mut i: usize = 0;
        while i < digits.len()
            invariant
                i <= digits.len(),
                s@ == seq!['-'] + digits@.take(i as int),
            decreases digits.len() - i,
        {
            s.push(digits[i]);
            proof {
                assert(s@ =~= seq!['-'] + digits@.take(i + 1));
            }
            i += 1;
        }
        proof {
            assert(digits@.take(digits.len() as int) =~= digits@);
        }
        s
    } else {
        let digits = decimal_of(n as u64);
        string_of(&digits)
    }
}

/// The lines of `s`, each as its characters.
pub fn text_lines(s: &str) -> (out: Vec<Vec<char>>)
    ensures
        rows_of(out@) == lines_of(s@),
{
    let text = chars_of(s);
    lines(&text)
}

/// Where `c` first stands in `s`: the number of characters before it, or the
/// length of `s` when `s` does not hold it.
pub open spec fn offset_of(s: Seq<char>, c: char) -> nat
    decreases s.len(),
{
    if s.len() == 0 || s[0] == c {
        0
    } else {
        1 + offset_of(s.drop_first(), c)
    }
}

/// Where `c` first stands in `s`, given that it does not stand before `n`.
pub proof fn lemma_offset_of(s: Seq<char>, c: char, n: int)
    requires
        0 <= n <= s.len(),
        forall|i: int| 0 <= i < n ==> s[i] != c,
        n == s.len() || s[n] == c,
    ensures
        offset_of(s, c) == n,
    decreases n,
{
    if n > 0 {
        let rest = s.drop_first();
        assert forall|i: int| 0 <= i < n - 1 implies rest[i] != c by {
            assert(rest[i] == s[i + 1]);
        }
        lemma_offset_of(rest, c, n - 1);
    }
}

/// The place where `c` first stands in `text`, or `None` when `text` does not
/// hold it.
pub fn find_char(text: &Vec<char>, c: char) -> (r: Option<usize>)
    ensures
        match r {
            Some(i) => i < text@.len() && offset_of(text@, c) == i && text@[i as int] == c,
            None => offset_of(text@, c) == text@.len(),
        },
{
    let mut i: usize = 0;
    while i < text.len()
        invariant
            i <= text.len(),
            forall|j: int| 0 <= j < i ==> text@[j] != c,
        decreases text.len() - i,
    {
        if text[i] == c {
            proof {
                lemma_offset_of(text@, c, i as int);
            }
            return Some(i);
        }
        i += 1;
    }
    proof {
        lemma_offset_of(text@, c, text@.len() as int);
    }
    None
}

/// A copy of the characters of `text` from `from` up to, but not including,
/// `to`.
pub fn slice_of(text: &Vec<char>, from: usize, to: usize) -> (out: Vec<char>)
    requires
        from <= to <= text@.len(),
    ensures
        out@ == text@.subrange(from as int, to as int),
{
    let mut out: Vec<char> = Vec::new();
    let mut i: usize = from;
    while i < to
        invariant
            from <= i <= to <= text@.len(),
            out@ == text@.subrange(from as int, i as int),
        decreases to - i,
    {
        out.push(text[i]);
        proof {
            assert(out@ =~= text@.subrange(from as int, i + 1));
        }
        i += 1;
    }
    out
}

/// The two parts of a line of the form `<prefix>: <data>`: what stands before
/// its first colon, and what stands after the character that follows the
/// colon. `None` when the line holds no colon, or when what follows the first
/// colon is not one character of the ASCII range.
pub open spec fn prefix_split(s: Seq<char>) -> Option<(Seq<char>, Seq<char>)> {
    let i = offset_of(s, ':') as int;
    if i + 1 < s.len() && (s[i + 1] as u32) < 128 {
        Some((s.take(i), s.skip(i + 2)))
    } else {
        None
    }
}

/// Splits a line of the form `<prefix>: <data>` into its prefix and its data.
pub fn split_prefix(s: &str) -> (r: Option<(&str, &str)>)
    ensures
        match r {
            Some((prefix, data)) => prefix_split(s@) == Some((prefix@, data@)),
            None => prefix_split(s@) is None,
        },
{
    let text = chars_of(s);
    let n: usize = text.len();
    match find_char(&text, ':') {
        Some(i) => {
            if i + 1 < n && (text[i + 1] as u32) < 128 {
                let prefix = s.substring_char(0, i);
                let data = s.substring_char(i + 2, n);
                proof {
                    assert(s@.take(i as int) =~= s@.subrange(0, i as int));
                    assert(s@.skip(i + 2) =~= s@.subrange(i + 2, s@.len() as int));
                }
                Some((prefix, data))
            } else {
                None
            }
        },
        None => None,
    }
}

/// Whether `pattern` stands in `s` at place `i`.
pub open spec fn stands_at(s: Seq<char>, i: int, pattern: Seq<char>) -> bool {
    0 <= i && i + pattern.len() <= s.len() && s.subrange(i, i + pattern.len()) == pattern
}

/// Whether `pattern` stands in `text` at place `i`.
pub fn matches_at(text: &Vec<char>, i: usize, pattern: &Vec<char>) -> (r: bool)
    ensures
        r == stands_at(text@, i as int, pattern@),
{
    if pattern.len() > text.len() || i > text.len() - pattern.len() {
        return false;
    }
    let mut k: usize = 0;
    while k < pattern.len()
        invariant
            k <= pattern.len(),
            i + pattern.len() <= text.len(),
            forall|j: int| 0 <= j < k ==> text@[i + j] == pattern@[j],
        decreases pattern.len() - k,
    {
        if text[i + k] != pattern[k] {
            proof {
                let part = text@.subrange(i as int, i + pattern.len());
                assert(part[k as int] != pattern@[k as int]);
            }
            return false;
        }
        k += 1;
    }
    proof {
        assert(text@.subrange(i as int, i + pattern.len()) =~= pattern@);
    }
    true
}

/// The parts of `s` between the places where `pattern` stands, found from the
/// left and without overlap. One more part than there are such places; a part
/// may be empty. `upto` is the number of characters of `s` that the part
/// that is being read already holds.
pub open spec fn parts_from(s: Seq<char>, pattern: Seq<char>, upto: int) -> Seq<Seq<char>>
    decreases s.len() - upto,
{
    if pattern.len() == 0 || upto < 0 || upto >= s.len() {
        seq![s]
    } else if stands_at(s, upto, pattern) {
        seq![s.take(upto)] + parts_from(s.skip(upto + pattern.len()), pattern, 0)
    } else {
        parts_from(s, pattern, upto + 1)
    }
}

/// The parts of `s` between the places where `pattern` stands.
pub open spec fn parts_of(s: Seq<char>, pattern: Seq<char>) -> Seq<Seq<char>> {
    parts_from(s, pattern, 0)
}

/// Splits `text` at every place where `pattern` stands, found from the left
/// and without overlap.
pub fn split_on(text: &Vec<char>, pattern: &Vec<char>) -> (out: Vec<Vec<char>>)
    requires
        pattern@.len() > 0,
    ensures
        rows_of(out@) == parts_of(text@, pattern@),
{
    let mut out: Vec<Vec<char>> = Vec::new();
    let mut begin: usize = 0;
    let mut i: usize = 0;
    proof {
        assert(text@.skip(0) =~= text@);
        assert(rows_of(out@) + parts_from(text@, pattern@, 0) =~= parts_from(text@, pattern@, 0));
    }
    while i < text.len()
        invariant
            pattern@.len() > 0,
            begin <= i <= text.len(),
            parts_of(text@, pattern@) == rows_of(out@) + parts_from(
                text@.skip(begin as int),
                pattern@,
                i - begin,
            ),
        decreases text.len() - i,
    {
        let ghost rest = text@.skip(begin as int);
        if matches_at(text, i, pattern) {
            proof {
                assert(rest.subrange(i - begin, i - begin + pattern@.len()) =~= text@.subrange(
                    i as int,
                    i + pattern@.len(),
                ));
                assert(stands_at(rest, i - begin, pattern@));
                assert(rest.skip(i - begin + pattern@.len()) =~= text@.skip(i + pattern@.len()));
                assert(rest.take(i - begin) =~= text@.subrange(begin as int, i as int));
            }
            let ghost before = rows_of(out@);
            let part = slice_of(text, begin, i);
            out.push(part);
            proof {
                assert(rows_of(out@) =~= before + seq![rest.take(i - begin)]);
                assert(parts_of(text@, pattern@) =~= rows_of(out@) + parts_from(
                    text@.skip(i + pattern@.len()),
                    pattern@,
                    0,
                ));
            }
            i = i + pattern.len();
            begin = i;
        } else {
            proof {
                if stands_at(rest, i - begin, pattern@) {
                    assert(rest.subrange(i - begin, i - begin + pattern@.len()) =~= text@.subrange(
                        i as int,
                        i + pattern@.len(),
                    ));
                    assert(stands_at(text@, i as int, pattern@));
                }
            }
            i += 1;
        }
    }
    let ghost before = rows_of(out@);
    let part = slice_of(text, begin, text.len());
    out.push(part);
    proof {
        let rest = text@.skip(begin as int);
        assert(rest =~= text@.subrange(begin as int, text@.len() as int));
        assert(rows_of(out@) =~= before + seq![rest]);
    }
    out
}

/// The number of 32 bits that `token` writes in decimal.
pub open spec fn small_number_of(token: Seq<char>) -> Option<i32> {
    match number_of(token) {
        Ok(v) => if i32::MIN <= v <= i32::MAX {
            Some(v as i32)
        } else {
            None
        },
        Err(e) => None,
    }
}

/// Reads a decimal number of 32 bits from `token`: an optional sign and then
/// at least one digit. `None` for anything else, and for a number that does not
/// fit.
pub fn parse_small_number(token: &Vec<char>) -> (r: Option<i32>)
    ensures
        r == small_number_of(token@),
{
    match parse_number(token) {
        Ok(v) => if v < i32::MIN as i64 || v > i32::MAX as i64 {
            proof {
                lemma_number_fits(token@);
            }
            None
        } else {
            Some(v as i32)
        },
        Err(e) => {
            proof {
                lemma_number_fits(token@);
            }
            None
        },
    }
}

/// A number that a token writes fits in 64 bits; one that would not fit is an
/// error.
pub proof fn lemma_number_fits(token: Seq<char>)
    ensures
        number_of(token) matches Ok(v) ==> i64::MIN <= v <= i64::MAX,
{
    if token.len() > 0 {
        if token[0] == '-' || token[0] == '+' {
            lemma_digits_fit(token.drop_first(), token[0] == '-');
        } else {
            lemma_digits_fit(token, false);
        }
    }
}

/// The number that digits write fits in 64 bits.
pub proof fn lemma_digits_fit(s: Seq<char>, negative: bool)
    ensures
        digits_value(s, negative) matches Ok(v) ==> i64::MIN <= v <= i64::MAX && (negative ==> v
            <= 0) && (!negative ==> v >= 0),
    decreases s.len(),
{
    if s.len() > 0 {
        lemma_digits_fit(s.drop_last(), negative);
    }
}

/// How many bytes the character `c` takes in a string.
pub open spec fn byte_len(c: char) -> nat {
    let u = c as u32;
    if u < 0x80 {
        1
    } else if u < 0x800 {
        2
    } else if u < 0x10000 {
        3
    } else {
        4
    }
}

/// How many characters at the front of `s` take exactly `bytes` bytes
/// together, or `None` when no number of them does.
pub open spec fn chars_in_bytes(s: Seq<char>, bytes: nat) -> Option<nat>
    decreases s.len(),
{
    if bytes == 0 {
        Some(0)
    } else if s.len() == 0 || byte_len(s[0]) > bytes {
        None
    } else {
        match chars_in_bytes(s.drop_first(), (bytes - byte_len(s[0])) as nat) {
            Some(n) => Some(n + 1),
            None => None,
        }
    }
}

/// The characters of `s` that lie from byte `from` up to, but not including,
/// byte `to`. `None` unless a character begins at `from` and a character, or
/// the end of `s`, stands at `to`.
pub open spec fn byte_range(s: Seq<char>, from: nat, to: nat) -> Option<Seq<char>> {
    if from > to {
        None
    } else {
        match (chars_in_bytes(s, from), chars_in_bytes(s, to)) {
            (Some(i), Some(j)) => Some(s.subrange(i as int, j as int)),
            _ => None,
        }
    }
}

/// How many bytes the character `c` takes in a string.
pub fn utf8_len(c: char) -> (r: usize)
    ensures
        r == byte_len(c),
{
    let u: u32 = c as u32;
    if u < 0x80 {
        1
    } else if u < 0x800 {
        2
    } else if u < 0x10000 {
        3
    } else {
        4
    }
}

/// Dropping characters from the front carries over to the count of characters
/// in a number of bytes.
pub proof fn lemma_chars_in_bytes_step(s: Seq<char>, n: int, used: nat, bytes: nat)
    requires
        0 <= n <= s.len(),
        chars_in_bytes(s.take(n), used) == Some(n as nat),
        used <= bytes,
    ensures
        chars_in_bytes(s, bytes) == match chars_in_bytes(s.skip(n), (bytes - used) as nat) {
            Some(k) => Some((n + k) as nat),
            None => None,
        },
    decreases n,
{
    if n == 0 {
        assert(s.skip(0) =~= s);
        assert(used == 0) by {
            if used > 0 {
                assert(s.take(0).len() == 0);
            }
        }
    } else {
        let head = s.take(n);
        assert(head[0] == s[0]);
        assert(used > 0);
        let l = byte_len(s[0]);
        assert(head.drop_first() =~= s.drop_first().take(n - 1));
        assert(chars_in_bytes(head.drop_first(), (used - l) as nat) == Some((n - 1) as nat));
        lemma_chars_in_bytes_step(s.drop_first(), n - 1, (used - l) as nat, (bytes - l) as nat);
        assert(s.drop_first().skip(n - 1) =~= s.skip(n));
    }
}

/// The number of characters at the front of `text` that take exactly `bytes`
/// bytes together.
pub fn count_chars_in_bytes(text: &Vec<char>, bytes: usize) -> (r: Option<usize>)
    ensures
        match r {
            Some(n) => chars_in_bytes(text@, bytes as nat) == Some(n as nat) && n <= text@.len(),
            None => chars_in_bytes(text@, bytes as nat) is None,
        },
{
    let mut i: usize = 0;
    let mut used: usize = 0;
    proof {
        assert(text@.take(0) =~= Seq::<char>::empty());
    }
    while used < bytes
        invariant
            i <= text.len(),
            used <= bytes,
            chars_in_bytes(text@.take(i as int), used as nat) == Some(i as nat),
        decreases bytes - used,
    {
        proof {
            lemma_chars_in_bytes_step(text@, i as int, used as nat, bytes as nat);
        }
        if i >= text.len() {
            proof {
                assert(text@.skip(i as int).len() == 0);
            }
            return None;
        }
        let l = utf8_len(text[i]);
        proof {
            assert(text@.skip(i as int)[0] == text@[i as int]);
        }
        if l > bytes - used {
            return None;
        }
        proof {
            lemma_chars_in_bytes_grow(text@, i as int, used as nat);
        }
        used += l;
        i += 1;
    }
    proof {
        lemma_chars_in_bytes_step(text@, i as int, used as nat, bytes as nat);
    }
    Some(i)
}

/// One more character takes its bytes more.
pub proof fn lemma_chars_in_bytes_grow(s: Seq<char>, n: int, used: nat)
    requires
        0 <= n < s.len(),
        chars_in_bytes(s.take(n), used) == Some(n as nat),
    ensures
        chars_in_bytes(s.take(n + 1), used + byte_len(s[n])) == Some((n + 1) as nat),
    decreases n,
{
    let longer = s.take(n + 1);
    if n == 0 {
        assert(used == 0) by {
            if used > 0 {
                assert(s.take(0).len() == 0);
            }
        }
        assert(longer[0] == s[0]);
        assert(longer.drop_first().len() == 0);
        assert(chars_in_bytes(longer.drop_first(), 0) == Some(0nat));
    } else {
        let head = s.take(n);
        assert(head[0] == s[0]);
        assert(longer[0] == s[0]);
        let l = byte_len(s[0]);
        assert(used > 0);
        assert(head.drop_first() =~= s.drop_first().take(n - 1));
        assert(longer.drop_first() =~= s.drop_first().take(n));
        lemma_chars_in_bytes_grow(s.drop_first(), n - 1, (used - l) as nat);
        assert(s.drop_first()[n - 1] == s[n]);
    }
}

/// The characters of `text` that lie from byte `from` up to, but not
/// including, byte `to`.
pub fn byte_slice(text: &Vec<char>, from: usize, to: usize) -> (r: Option<Vec<char>>)
    ensures
        match r {
            Some(part) => byte_range(text@, from as nat, to as nat) == Some(part@),
            None => byte_range(text@, from as nat, to as nat) is None,
        },
{
    if from > to {
        return None;
    }
    let i = match count_chars_in_bytes(text, from) {
        Some(i) => i,
        None => {
            return None;
        },
    };
    let j = match count_chars_in_bytes(text, to) {
        Some(j) => j,
        None => {
            return None;
        },
    };
    if i > j {
        proof {
            lemma_chars_in_bytes_ordered(text@, from as nat, to as nat);
        }
        return None;
    }
    Some(slice_of(text, i, j))
}

/// More bytes hold no fewer characters.
pub proof fn lemma_chars_in_bytes_ordered(s: Seq<char>, a: nat, b: nat)
    requires
        a <= b,
        chars_in_bytes(s, a) is Some,
        chars_in_bytes(s, b) is Some,
    ensures
        chars_in_bytes(s, a)->0 <= chars_in_bytes(s, b)->0,
    decreases s.len(),
{
    if a > 0 {
        let l = byte_len(s[0]);
        lemma_chars_in_bytes_ordered(s.drop_first(), (a - l) as nat, (b - l) as nat);
    }
}

/// Splits the characters of a line of the form `<prefix>: <data>` into its
/// prefix and its data.
pub fn prefix_parts(line: &Vec<char>) -> (r: Option<(Vec<char>, Vec<char>)>)
    ensures
        match r {
            Some((prefix, data)) => prefix_split(line@) == Some((prefix@, data@)),
            None => prefix_split(line@) is None,
        },
{
    let n: usize = line.len();
    match find_char(line, ':') {
        Some(i) => {
            if i + 1 < n && (line[i + 1] as u32) < 128 {
                let prefix = slice_of(line, 0, i);
                let data = slice_of(line, i + 2, n);
                proof {
                    assert(line@.take(i as int) =~= line@.subrange(0, i as int));
                    assert(line@.skip(i + 2) =~= line@.subrange(i + 2, n as int));
                }
                Some((prefix, data))
            } else {
                None
            }
        },
        None => None,
    }
}

/// Whether two texts hold the same characters.
pub fn same_text(a: &Vec<char>, b: &Vec<char>) -> (r: bool)
    ensures
        r == (a@ == b@),
{
    if a.len() != b.len() {
        return false;
    }
    let mut i: usize = 0;
    while i < a.len()
        invariant
            i <= a.len(),
            a.len() == b.len(),
            forall|j: int| 0 <= j < i ==> a@[j] == b@[j],
        decreases a.len() - i,
    {
        if a[i] != b[i] {
            return false;
        }
        i += 1;
    }
    proof {
        assert(a@ =~= b@);
    }
    true
}

/// No line holds a line feed.
pub proof fn lemma_lines_plain(s: Seq<char>)
    ensures
        forall|i: int, j: int|
            0 <= i < lines_of(s).len() && 0 <= j < lines_of(s)[i].len() ==> (#[trigger] lines_of(
                s,
            )[i][j]) != '\n',
    decreases s.len(),
{
    if s.len() > 0 {
        let n = line_end(s);
        lemma_line_end_bound(s);
        lemma_line_end_plain(s);
        let all = lines_of(s);
        if n < s.len() {
            let rest = lines_of(s.skip(n as int + 1));
            lemma_lines_plain(s.skip(n as int + 1));
            assert forall|i: int, j: int| 0 <= i < all.len() && 0 <= j < all[i].len() implies (
            #[trigger] all[i][j]) != '\n' by {
                if i == 0 {
                    assert(all[0] == without_return(s.take(n as int)));
                    assert(all[0][j] == s[j]);
                } else {
                    assert(all[i] == rest[i - 1]);
                }
            }
        }
    }
}

/// No line feed stands before the end of the first line.
pub proof fn lemma_line_end_plain(s: Seq<char>)
    ensures
        line_end(s) <= s.len(),
        forall|j: int| 0 <= j < line_end(s) ==> s[j] != '\n',
    decreases s.len(),
{
    lemma_line_end_bound(s);
    if !(s.len() == 0 || s[0] == '\n') {
        let rest = s.drop_first();
        lemma_line_end_plain(rest);
        assert forall|j: int| 0 <= j < line_end(s) implies s[j] != '\n' by {
            if j > 0 {
                assert(s[j] == rest[j - 1]);
            }
        }
    }
}

/// No token is empty, and no token holds white space; nor does the token that
/// is still open while a text is read.
pub proof fn lemma_tokens_plain(s: Seq<char>)
    ensures
        forall|i: int|
            0 <= i < scan(s).0.len() ==> (#[trigger] scan(s).0[i]).len() > 0 && forall|j: int|
                0 <= j < scan(s).0[i].len() ==> !is_white_space(#[trigger] scan(s).0[i][j]),
        forall|j: int| 0 <= j < scan(s).1.len() ==> !is_white_space(#[trigger] scan(s).1[j]),
        forall|i: int|
            0 <= i < tokens_of(s).len() ==> (#[trigger] tokens_of(s)[i]).len() > 0 && forall|j: int|
                0 <= j < tokens_of(s)[i].len() ==> !is_white_space(#[trigger] tokens_of(s)[i][j]),
    decreases s.len(),
{
    if s.len() > 0 {
        lemma_tokens_plain(s.drop_last());
        let (done, open) = scan(s.drop_last());
        let (now_done, now_open) = scan(s);
        assert forall|i: int| 0 <= i < now_done.len() implies (#[trigger] now_done[i]).len() > 0
            && forall|j: int|
            0 <= j < now_done[i].len() ==> !is_white_space(#[trigger] now_done[i][j]) by {
            if i < done.len() {
                assert(now_done[i] == done[i]);
            } else {
                assert(now_done[i] == open);
            }
        }
        assert forall|j: int| 0 <= j < now_open.len() implies !is_white_space(
            #[trigger] now_open[j],
        ) by {
            if j < open.len() {
                assert(now_open[j] == open[j]);
            }
        }
    }
    let (done, open) = scan(s);
    let tokens = tokens_of(s);
    assert forall|i: int| 0 <= i < tokens.len() implies (#[trigger] tokens[i]).len() > 0 && forall|
        j: int,
    |
        0 <= j < tokens[i].len() ==> !is_white_space(#[trigger] tokens[i][j]) by {
        if i < done.len() {
            assert(tokens[i] == done[i]);
        } else {
            assert(tokens[i] == open);
        }
    }
}

/// What is written in decimal is read back as the same number.
pub proof fn lemma_decimal_round_trip(n: nat)
    requires
        n <= i64::MAX,
    ensures
        number_of(decimal(n)) == Ok::<int, NumberError>(n as int),
{
    lemma_decimal_digits(n);
    let s = decimal(n);
    assert(s.len() > 0);
    assert(digit_value(s[0]) is Some);
}

/// The decimal digits of a number write that number, and all are digits.
pub proof fn lemma_decimal_digits(n: nat)
    requires
        n <= i64::MAX,
    ensures
        decimal(n).len() > 0,
        forall|j: int| 0 <= j < decimal(n).len() ==> digit_value(#[trigger] decimal(n)[j]) is Some,
        digits_value(decimal(n), false) == Ok::<int, NumberError>(n as int),
    decreases n,
{
    if n >= 10 {
        let before = decimal(n / 10);
        lemma_decimal_digits(n / 10);
        let s = decimal(n);
        assert(s.drop_last() =~= before);
        assert(s.last() == digit_char(n % 10));
        assert(digit_value(digit_char(n % 10)) == Some((n % 10) as int));
        assert forall|j: int| 0 <= j < s.len() implies digit_value(#[trigger] s[j]) is Some by {
            if j < before.len() {
                assert(s[j] == before[j]);
            }
        }
    } else {
        let s = decimal(n);
        assert(s.drop_last() =~= Seq::<char>::empty());
        assert(digit_value(digit_char(n)) == Some(n as int));
        assert(digits_value(s.drop_last(), false) == Ok::<int, NumberError>(0));
    }
}

} // verus!
