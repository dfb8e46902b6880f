//! Games of cubes drawn from a bag: every game shows several rounds, every
//! round several samples, a number of cubes of one colour each.

use vstd::prelude::*;
use crate::grid::rows_of;
use crate::text::{
    chars_in_bytes,
    count_chars_in_bytes,
    find_char,
    lines_of,
    offset_of,
    parse_small_number,
    parts_of,
    prefix_parts,
    prefix_split,
    same_text,
    signed_decimal,
    signed_decimal_string,
    slice_of,
    small_number_of,
    split_on,
    text_lines,
};

verus! {

/// What can go wrong with a record of games.
#[derive(Clone, Copy, Debug, PartialEq, Eq, Structural)]
pub enum CubeError {
    /// A line is not of the form `Game <id>: <rounds>`.
    BadGame,
    /// A sample is not of the form `<number> <colour>`.
    BadSample,
    /// A number is no number of 32 bits.
    BadNumber,
    /// A sample names a colour that the bag does not hold.
    UnknownColor,
    /// A sum or a product does not fit in 32 bits.
    Overflow,
}

/// The two parts of a line of the form `Game <id>: <rounds>`: what stands
/// between byte 5 and the first colon, and what stands after the character
/// that follows the colon.
pub open spec fn game_parts(line: Seq<char>) -> Option<(Seq<char>, Seq<char>)> {
    match prefix_split(line) {
        Some((prefix, rounds)) => match chars_in_bytes(prefix, 5) {
            Some(skipped) => Some((prefix.skip(skipped as int), rounds)),
            None => None,
        },
        None => None,
    }
}

/// Splits a line of the form `Game <id>: <rounds>` into the text of its id and
/// the text of its rounds.
pub fn partition_game_str(line: &Vec<char>) -> (r: Option<(Vec<char>, Vec<char>)>)
    ensures
        match r {
            Some((id, rounds)) => game_parts(line@) == Some((id@, rounds@)),
            None => game_parts(line@) is None,
        },
{
    match prefix_parts(line) {
        Some((prefix, rounds)) => match count_chars_in_bytes(&prefix, 5) {
            Some(skipped) => {
                let id = slice_of(&prefix, skipped, prefix.len());
                proof {
                    assert(prefix@.skip(skipped as int) =~= prefix@.subrange(
                        skipped as int,
                        prefix@.len() as int,
                    ));
                }
                Some((id, rounds))
            },
            None => None,
        },
        None => None,
    }
}

/// The sample that `s` writes: the number before its first space, and the
/// colour after it.
pub open spec fn sample_of(s: Seq<char>) -> Result<(Seq<char>, i32), CubeError> {
    let i = offset_of(s, ' ') as int;
    if i >= s.len() {
        Err(CubeError::BadSample)
    } else {
        match small_number_of(s.take(i)) {
            Some(n) => Ok((s.skip(i + 1), n)),
            None => Err(CubeError::BadNumber),
        }
    }
}

/// The samples that `parts` write, in order, or the error of the first that
/// writes none.
pub open spec fn samples_of(parts: Seq<Seq<char>>) -> Result<Seq<(Seq<char>, i32)>, CubeError>
    decreases parts.len(),
{
    if parts.len() == 0 {
        Ok(Seq::empty())
    } else {
        match samples_of(parts.drop_last()) {
            Err(e) => Err(e),
            Ok(samples) => match sample_of(parts.last()) {
                Err(e) => Err(e),
                Ok(sample) => Ok(samples.push(sample)),
            },
        }
    }
}

/// The samples of all of `rounds`, in order: a round holds samples separated
/// by a comma and a space.
pub open spec fn rounds_samples(rounds: Seq<Seq<char>>) -> Result<
    Seq<(Seq<char>, i32)>,
    CubeError,
>
    decreases rounds.len(),
{
    if rounds.len() == 0 {
        Ok(Seq::empty())
    } else {
        match rounds_samples(rounds.drop_last()) {
            Err(e) => Err(e),
            Ok(before) => match samples_of(parts_of(rounds.last(), seq![',', ' '])) {
                Err(e) => Err(e),
                Ok(samples) => Ok(before + samples),
            },
        }
    }
}

/// The samples of a game: its rounds are separated by a semicolon and a
/// space.
pub open spec fn samples_in(round_str: Seq<char>) -> Result<Seq<(Seq<char>, i32)>, CubeError> {
    rounds_samples(parts_of(round_str, seq![';', ' ']))
}

/// The samples of a list, with their colours as sequences of characters.
pub open spec fn samples_view(samples: Seq<(Vec<char>, i32)>) -> Seq<(Seq<char>, i32)> {
    Seq::new(samples.len(), |i: int| (samples[i].0@, samples[i].1))
}

/// Reads the sample that `s` writes.
pub fn read_sample(s: &Vec<char>) -> (r: Result<(Vec<char>, i32), CubeError>)
    ensures
        match r {
            Ok(sample) => sample_of(s@) == Ok::<(Seq<char>, i32), CubeError>(
                (sample.0@, sample.1),
            ),
            Err(e) => sample_of(s@) == Err::<(Seq<char>, i32), CubeError>(e),
        },
{
    let n: usize = s.len();
    match find_char(s, ' ') {
        Some(i) => {
            let number_s = slice_of(s, 0, i);
            let color = slice_of(s, i + 1, n);
            proof {
                assert(s@.take(i as int) =~= s@.subrange(0, i as int));
                assert(s@.skip(i + 1) =~= s@.subrange(i + 1, n as int));
            }
            match parse_small_number(&number_s) {
                Some(number) => Ok((color, number)),
                None => Err(CubeError::BadNumber),
            }
        },
        None => Err(CubeError::BadSample),
    }
}

/// An error among the first samples is the error of all of them.
pub proof fn lemma_samples_error_stays(parts: Seq<Seq<char>>, n: int)
    requires
        0 <= n <= parts.len(),
        samples_of(parts.take(n)) is Err,
    ensures
        samples_of(parts) == samples_of(parts.take(n)),
    decreases parts.len() - n,
{
    if n < parts.len() {
        assert(parts.take(n + 1).drop_last() =~= parts.take(n));
        lemma_samples_error_stays(parts, n + 1);
    } else {
        assert(parts.take(n) =~= parts);
    }
}

/// An error among the first rounds is the error of all of them.
pub proof fn lemma_rounds_error_stays(rounds: Seq<Seq<char>>, n: int)
    requires
        0 <= n <= rounds.len(),
        rounds_samples(rounds.take(n)) is Err,
    ensures
        rounds_samples(rounds) == rounds_samples(rounds.take(n)),
    decreases rounds.len() - n,
{
    if n < rounds.len() {
        assert(rounds.take(n + 1).drop_last() =~= rounds.take(n));
        lemma_rounds_error_stays(rounds, n + 1);
    } else {
        assert(rounds.take(n) =~= rounds);
    }
}

/// Reads all samples of a game, round by round.
pub fn get_samples(round_str: &Vec<char>) -> (r: Result<Vec<(Vec<char>, i32)>, CubeError>)
    ensures
        match r {
            Ok(samples) => samples_in(round_str@) == Ok::<Seq<(Seq<char>, i32)>, CubeError>(
                samples_view(samples@),
            ),
            Err(e) => samples_in(round_str@) == Err::<Seq<(Seq<char>, i32)>, CubeError>(e),
        },
{
    let mut all_samples: Vec<(Vec<char>, i32)> = Vec::new();
    let between_rounds: Vec<char> = vec![';', ' '];
    let between_samples: Vec<char> = vec![',', ' '];
    proof {
        assert(between_rounds@ =~= seq![';', ' ']);
        assert(between_samples@ =~= seq![',', ' ']);
    }
    let rounds = split_on(round_str, &between_rounds);
    let ghost all_rounds = rows_of(rounds@);
    let mut i: usize = 0;
    proof {
        assert(all_rounds.take(0) =~= Seq::<Seq<char>>::empty());
        assert(samples_view(all_samples@) =~= Seq::<(Seq<char>, i32)>::empty());
    }
    while i < rounds.len()
        invariant
            i <= rounds.len(),
            between_samples@ == seq![',', ' '],
            all_rounds == rows_of(rounds@),
            all_rounds == parts_of(round_str@, seq![';', ' ']),
            rounds_samples(all_rounds.take(i as int)) == Ok::<Seq<(Seq<char>, i32)>, CubeError>(
                samples_view(all_samples@),
            ),
        decreases rounds.len() - i,
    {
        proof {
            assert(all_rounds.take(i + 1).drop_last() =~= all_rounds.take(i as int));
            assert(all_rounds.take(i + 1).last() == rounds@[i as int]@);
        }
        let samples = split_on(&rounds[i], &between_samples);
        let ghost parts = rows_of(samples@);
        let ghost before = samples_view(all_samples@);
        let mut j: usize = 0;
        proof {
            assert(parts.take(0) =~= Seq::<Seq<char>>::empty());
            assert(before + Seq::<(Seq<char>, i32)>::empty() =~= before);
        }
        while j < samples.len()
            invariant
                j <= samples.len(),
                i < rounds.len(),
                parts == rows_of(samples@),
                parts == parts_of(rounds@[i as int]@, seq![',', ' ']),
                all_rounds == rows_of(rounds@),
                all_rounds == parts_of(round_str@, seq![';', ' ']),
                all_rounds.take(i + 1).drop_last() == all_rounds.take(i as int),
                all_rounds.take(i + 1).last() == rounds@[i as int]@,
                rounds_samples(all_rounds.take(i as int)) == Ok::<
                    Seq<(Seq<char>, i32)>,
                    CubeError,
                >(before),
                samples_of(parts.take(j as int)) is Ok,
                samples_view(all_samples@) == before + samples_of(parts.take(j as int))->Ok_0,
            decreases samples.len() - j,
        {
            proof {
                assert(parts.take(j + 1).drop_last() =~= parts.take(j as int));
                assert(parts.take(j + 1).last() == samples@[j as int]@);
            }
            match read_sample(&samples[j]) {
                Ok(sample) => {
                    let ghost old_view = samples_view(all_samples@);
                    all_samples.push(sample);
                    proof {
                        assert(samples_view(all_samples@) =~= old_view.push(
                            (sample.0@, sample.1),
                        ));
                        assert(samples_view(all_samples@) =~= before + samples_of(
                            parts.take(j + 1),
                        )->Ok_0);
                    }
                },
                Err(e) => {
                    proof {
                        assert(samples_of(parts.take(j + 1)) is Err);
                        lemma_samples_error_stays(parts, j + 1);
                        assert(rounds_samples(all_rounds.take(i + 1)) is Err);
                        lemma_rounds_error_stays(all_rounds, i + 1);
                    }
                    return Err(e);
                },
            }
            j += 1;
        }
        proof {
            assert(parts.take(samples.len() as int) =~= parts);
        }
        i += 1;
    }
    proof {
        assert(all_rounds.take(rounds.len() as int) =~= all_rounds);
    }
    Ok(all_samples)
}

/// How many cubes of `color` the bag holds: the number of the last entry for
/// that colour among the first `n`.
pub open spec fn held(bag: Seq<(Seq<char>, i32)>, color: Seq<char>, n: int) -> Option<i32>
    decreases n,
{
    if n <= 0 {
        None
    } else if bag[n - 1].0 == color {
        Some(bag[n - 1].1)
    } else {
        held(bag, color, n - 1)
    }
}

/// Whether the bag can have shown the first `n` of `samples`: none of them
/// shows more cubes of its colour than the bag holds. The first sample that
/// decides does so; one of an unknown colour before it is an error.
pub open spec fn possible(
    samples: Seq<(Seq<char>, i32)>,
    bag: Seq<(Seq<char>, i32)>,
    from: int,
) -> Result<bool, CubeError>
    decreases samples.len() - from,
{
    if from < 0 || from >= samples.len() {
        Ok(true)
    } else {
        match held(bag, samples[from].0, bag.len() as int) {
            None => Err(CubeError::UnknownColor),
            Some(limit) => if samples[from].1 > limit {
                Ok(false)
            } else {
                possible(samples, bag, from + 1)
            },
        }
    }
}

/// Whether the bag can have shown the game that `rounds_str` writes.
pub open spec fn game_possible(rounds_str: Seq<char>, bag: Seq<(Seq<char>, i32)>) -> Result<
    bool,
    CubeError,
> {
    match samples_in(rounds_str) {
        Err(e) => Err(e),
        Ok(samples) => possible(samples, bag, 0),
    }
}

/// How many cubes of `color` the bag holds.
pub fn look_up(bag: &Vec<(Vec<char>, i32)>, color: &Vec<char>) -> (r: Option<i32>)
    ensures
        r == held(samples_view(bag@), color@, bag@.len() as int),
{
    let ghost all = samples_view(bag@);
    let mut k: usize = bag.len();
    while k > 0
        invariant
            k <= bag.len(),
            all == samples_view(bag@),
            held(all, color@, bag@.len() as int) == held(all, color@, k as int),
        decreases k,
    {
        k -= 1;
        proof {
            assert(all[k as int] == (bag@[k as int].0@, bag@[k as int].1));
        }
        if same_text(&bag[k].0, color) {
            return Some(bag[k].1);
        }
    }
    None
}

/// Whether the bag can have shown the game that `rounds_str` writes.
pub fn is_possible(rounds_str: &Vec<char>, bag: &Vec<(Vec<char>, i32)>) -> (r: Result<
    bool,
    CubeError,
>)
    ensures
        r == game_possible(rounds_str@, samples_view(bag@)),
{
    let samples = match get_samples(rounds_str) {
        Ok(samples) => samples,
        Err(e) => {
            return Err(e);
        },
    };
    let ghost all = samples_view(samples@);
    let mut i: usize = 0;
    while i < samples.len()
        invariant
            i <= samples.len(),
            all == samples_view(samples@),
            samples_in(rounds_str@) == Ok::<Seq<(Seq<char>, i32)>, CubeError>(all),
            possible(all, samples_view(bag@), 0) == possible(all, samples_view(bag@), i as int),
        decreases samples.len() - i,
    {
        proof {
            assert(all[i as int] == (samples@[i as int].0@, samples@[i as int].1));
        }
        match look_up(bag, &samples[i].0) {
            None => {
                return Err(CubeError::UnknownColor);
            },
            Some(limit) => {
                if samples[i].1 > limit {
                    return Ok(false);
                }
            },
        }
        i += 1;
    }
    Ok(true)
}

/// The colours of the first `n` samples, each once, in the order in which they
/// first occur, each with the largest number that a sample shows of it.
pub open spec fn maxima(samples: Seq<(Seq<char>, i32)>, n: int) -> Seq<(Seq<char>, i32)>
    decreases n,
{
    if n <= 0 {
        Seq::empty()
    } else {
        raised(maxima(samples, n - 1), samples[n - 1])
    }
}

/// Where `color` stands in `table`, or the length of `table` when it holds no
/// entry for it.
pub open spec fn place_of(table: Seq<(Seq<char>, i32)>, color: Seq<char>) -> int
    decreases table.len(),
{
    if table.len() == 0 {
        0
    } else if table[0].0 == color {
        0
    } else {
        1 + place_of(table.drop_first(), color)
    }
}

/// `table` after a sample has been seen: a new colour is added at the end, a
/// larger number replaces a smaller one.
pub open spec fn raised(table: Seq<(Seq<char>, i32)>, sample: (Seq<char>, i32)) -> Seq<
    (Seq<char>, i32),
> {
    let p = place_of(table, sample.0);
    if p >= table.len() {
        table.push(sample)
    } else if sample.1 > table[p].1 {
        table.update(p, sample)
    } else {
        table
    }
}

/// The product of the numbers of the first `n` entries of `table`.
pub open spec fn product(table: Seq<(Seq<char>, i32)>, n: int) -> int
    decreases n,
{
    if n <= 0 {
        1
    } else {
        product(table, n - 1) * table[n - 1].1
    }
}

/// The power of the game that `rounds_str` writes: the product, over the
/// colours that it shows, of the largest number shown of each.
pub open spec fn power(rounds_str: Seq<char>) -> Result<i32, CubeError> {
    match samples_in(rounds_str) {
        Err(e) => Err(e),
        Ok(samples) => {
            let table = maxima(samples, samples.len() as int);
            let p = product(table, table.len() as int);
            if i32::MIN <= p <= i32::MAX {
                Ok(p as i32)
            } else {
                Err(CubeError::Overflow)
            }
        },
    }
}

/// Where `color` stands in `table`.
pub fn find_color(table: &Vec<(Vec<char>, i32)>, color: &Vec<char>) -> (r: usize)
    ensures
        r == place_of(samples_view(table@), color@),
        r <= table@.len(),
{
    let ghost all = samples_view(table@);
    let mut i: usize = 0;
    proof {
        assert(all.skip(0) =~= all);
    }
    while i < table.len()
        invariant
            i <= table.len(),
            all == samples_view(table@),
            place_of(all, color@) == i + place_of(all.skip(i as int), color@),
        decreases table.len() - i,
    {
        proof {
            assert(all.skip(i as int)[0] == (table@[i as int].0@, table@[i as int].1));
            assert(all.skip(i as int).drop_first() =~= all.skip(i + 1));
        }
        if same_text(&table[i].0, color) {
            return i;
        }
        i += 1;
    }
    proof {
        assert(all.skip(table@.len() as int).len() == 0);
    }
    i
}

/// Without a zero among its factors, a product is at least as far from zero as
/// the product of the first of them.
pub proof fn lemma_product_grows(table: Seq<(Seq<char>, i32)>, n: int, more: int)
    requires
        0 <= n <= more <= table.len(),
        forall|i: int| 0 <= i < table.len() ==> (#[trigger] table[i]).1 != 0,
    ensures
        product(table, n) >= 0 ==> product(table, more) >= product(table, n) || product(
            table,
            more,
        ) <= -product(table, n),
        product(table, n) <= 0 ==> product(table, more) <= product(table, n) || product(
            table,
            more,
        ) >= -product(table, n),
    decreases more - n,
{
    if n < more {
        lemma_product_grows(table, n, more - 1);
        let before = product(table, more - 1);
        let factor = table[more - 1].1 as int;
        let small = product(table, n);
        assert(factor != 0);
        assert(product(table, more) == before * factor);
        if small >= 0 {
            assert(before * factor >= small || before * factor <= -small) by (nonlinear_arith)
                requires
                    before >= small || before <= -small,
                    small >= 0,
                    factor != 0,
            ;
        }
        if small <= 0 {
            assert(before * factor <= small || before * factor >= -small) by (nonlinear_arith)
                requires
                    before <= small || before >= -small,
                    small <= 0,
                    factor != 0,
            ;
        }
    }
}

/// With a zero among its factors, a product is zero.
pub proof fn lemma_product_zero(table: Seq<(Seq<char>, i32)>, z: int, n: int)
    requires
        0 <= z < n <= table.len(),
        table[z].1 == 0,
    ensures
        product(table, n) == 0,
    decreases n,
{
    if z < n - 1 {
        lemma_product_zero(table, z, n - 1);
        assert(product(table, n) == 0 * table[n - 1].1) by {
            assert(product(table, n - 1) == 0);
        }
    } else {
        assert(product(table, n) == product(table, n - 1) * 0);
        assert(product(table, n - 1) * 0 == 0) by (nonlinear_arith);
    }
}

/// The power of the game that `rounds_str` writes.
pub fn minimum_power(rounds_str: &Vec<char>) -> (r: Result<i32, CubeError>)
    ensures
        r == power(rounds_str@),
{
    let samples = match get_samples(rounds_str) {
        Ok(samples) => samples,
        Err(e) => {
            return Err(e);
        },
    };
    let ghost shown = samples_view(samples@);
    let mut max: Vec<(Vec<char>, i32)> = Vec::new();
    let mut i: usize = 0;
    proof {
        assert(samples_view(max@) =~= maxima(shown, 0));
    }
    while i < samples.len()
        invariant
            i <= samples.len(),
            shown == samples_view(samples@),
            samples_view(max@) == maxima(shown, i as int),
        decreases samples.len() - i,
    {
        let ghost before = samples_view(max@);
        proof {
            assert(shown[i as int] == (samples@[i as int].0@, samples@[i as int].1));
        }
        let p = find_color(&max, &samples[i].0);
        let number = samples[i].1;
        if p >= max.len() {
            let color = samples[i].0.clone();
            proof {
                assert(color@ =~= samples@[i as int].0@);
            }
            max.push((color, number));
            proof {
                assert(samples_view(max@) =~= before.push(shown[i as int]));
            }
        } else if number > max[p].1 {
            let color = samples[i].0.clone();
            proof {
                assert(color@ =~= samples@[i as int].0@);
            }
            max[p] = (color, number);
            proof {
                assert(samples_view(max@) =~= before.update(p as int, shown[i as int]));
            }
        }
        i += 1;
    }
    let ghost table = samples_view(max@);
    let mut z: usize = 0;
    while z < max.len()
        invariant
            z <= max.len(),
            table == samples_view(max@),
            forall|k: int| 0 <= k < z ==> (#[trigger] table[k]).1 != 0,
            power(rounds_str@) == if i32::MIN <= product(table, table.len() as int) <= i32::MAX {
                Ok::<i32, CubeError>(product(table, table.len() as int) as i32)
            } else {
                Err::<i32, CubeError>(CubeError::Overflow)
            },
        decreases max.len() - z,
    {
        proof {
            assert(table[z as int] == (max@[z as int].0@, max@[z as int].1));
        }
        if max[z].1 == 0 {
            proof {
                lemma_product_zero(table, z as int, table.len() as int);
            }
            return Ok(0);
        }
        z += 1;
    }
    let mut total: i64 = 1;
    let mut k: usize = 0;
    while k < max.len()
        invariant
            k <= max.len(),
            table == samples_view(max@),
            forall|x: int| 0 <= x < table.len() ==> (#[trigger] table[x]).1 != 0,
            total == product(table, k as int),
            -0x8000_0000 <= total <= 0x8000_0000,
            power(rounds_str@) == if i32::MIN <= product(table, table.len() as int) <= i32::MAX {
                Ok::<i32, CubeError>(product(table, table.len() as int) as i32)
            } else {
                Err::<i32, CubeError>(CubeError::Overflow)
            },
        decreases max.len() - k,
    {
        proof {
            assert(table[k as int] == (max@[k as int].0@, max@[k as int].1));
        }
        let factor = max[k].1 as i64;
        assert(-0x4000_0000_0000_0000 <= total * factor <= 0x4000_0000_0000_0000)
            by (nonlinear_arith)
            requires
                -0x8000_0000 <= total <= 0x8000_0000,
                -0x8000_0000 <= factor <= 0x8000_0000,
        ;
        let next = total * factor;
        if next > 0x8000_0000 || next < -0x8000_0000 {
            proof {
                lemma_product_grows(table, k + 1, table.len() as int);
            }
            return Err(CubeError::Overflow);
        }
        total = next;
        k += 1;
    }
    if total > i32::MAX as i64 {
        Err(CubeError::Overflow)
    } else {
        Ok(total as i32)
    }
}

/// The bag of the first question: 12 red cubes, 13 green ones and 14 blue
/// ones.
pub open spec fn standard_bag() -> Seq<(Seq<char>, i32)> {
    seq![
        (seq!['r', 'e', 'd'], 12i32),
        (seq!['g', 'r', 'e', 'e', 'n'], 13i32),
        (seq!['b', 'l', 'u', 'e'], 14i32),
    ]
}

/// What a game adds to the sum of the first question: its id if the bag can
/// have shown it, and else nothing.
pub open spec fn game_score(line: Seq<char>) -> Result<i32, CubeError> {
    match game_parts(line) {
        None => Err(CubeError::BadGame),
        Some((id, rounds)) => match small_number_of(id) {
            None => Err(CubeError::BadNumber),
            Some(game_id) => match game_possible(rounds, standard_bag()) {
                Err(e) => Err(e),
                Ok(yes) => Ok(
                    if yes {
                        game_id
                    } else {
                        0i32
                    },
                ),
            },
        },
    }
}

/// What a game adds to the sum of the second question: its power.
pub open spec fn game_power(line: Seq<char>) -> Result<i32, CubeError> {
    match game_parts(line) {
        None => Err(CubeError::BadGame),
        Some((id, rounds)) => power(rounds),
    }
}

/// What a game adds to the sum of a question.
pub open spec fn game_value(line: Seq<char>, powers: bool) -> Result<i32, CubeError> {
    if powers {
        game_power(line)
    } else {
        game_score(line)
    }
}

/// The sum of what the games of `lines` add, or the error of the first line
/// that adds none, or `Overflow` once the sum leaves 32 bits.
pub open spec fn games_sum(lines: Seq<Seq<char>>, powers: bool) -> Result<i32, CubeError>
    decreases lines.len(),
{
    if lines.len() == 0 {
        Ok(0)
    } else {
        match games_sum(lines.drop_last(), powers) {
            Err(e) => Err(e),
            Ok(total) => match game_value(lines.last(), powers) {
                Err(e) => Err(e),
                Ok(v) => if i32::MIN <= total + v <= i32::MAX {
                    Ok((total + v) as i32)
                } else {
                    Err(CubeError::Overflow)
                },
            },
        }
    }
}

/// An error among the first games is the error of all of them.
pub proof fn lemma_games_error_stays(lines: Seq<Seq<char>>, n: int, powers: bool)
    requires
        0 <= n <= lines.len(),
        games_sum(lines.take(n), powers) is Err,
    ensures
        games_sum(lines, powers) == games_sum(lines.take(n), powers),
    decreases lines.len() - n,
{
    if n < lines.len() {
        assert(lines.take(n + 1).drop_last() =~= lines.take(n));
        lemma_games_error_stays(lines, n + 1, powers);
    } else {
        assert(lines.take(n) =~= lines);
    }
}

/// The bag of the first question.
pub fn new_bag() -> (bag: Vec<(Vec<char>, i32)>)
    ensures
        samples_view(bag@) == standard_bag(),
{
    let mut bag: Vec<(Vec<char>, i32)> = Vec::new();
    bag.push((vec!['r', 'e', 'd'], 12));
    bag.push((vec!['g', 'r', 'e', 'e', 'n'], 13));
    bag.push((vec!['b', 'l', 'u', 'e'], 14));
    proof {
        let got = samples_view(bag@);
        let want = standard_bag();
        assert(got.len() == want.len());
        assert forall|i: int| 0 <= i < got.len() implies got[i] == want[i] by {
            assert(got[i].0 =~= want[i].0);
        }
        assert(got =~= want);
    }
    bag
}

/// What one game adds to the sum of a question.
fn value_game(line: &Vec<char>, powers: bool, bag: &Vec<(Vec<char>, i32)>) -> (r: Result<
    i32,
    CubeError,
>)
    requires
        samples_view(bag@) == standard_bag(),
    ensures
        r == game_value(line@, powers),
{
    let (game_id_str, rounds_str) = match partition_game_str(line) {
        Some(parts) => parts,
        None => {
            return Err(CubeError::BadGame);
        },
    };
    if powers {
        minimum_power(&rounds_str)
    } else {
        let game_id = match parse_small_number(&game_id_str) {
            Some(game_id) => game_id,
            None => {
                return Err(CubeError::BadNumber);
            },
        };
        match is_possible(&rounds_str, bag) {
            Ok(yes) => if yes {
                Ok(game_id)
            } else {
                Ok(0)
            },
            Err(e) => Err(e),
        }
    }
}

/// Sums what the games of `s` add to a question.
pub fn sum_games(s: &str, powers: bool) -> (r: Result<i32, CubeError>)
    ensures
        r == games_sum(lines_of(s@), powers),
{
    let bag = new_bag();
    let lines = text_lines(s);
    let ghost all = lines_of(s@);
    let mut total: i32 = 0;
    let mut i: usize = 0;
    proof {
        assert(all.take(0) =~= Seq::<Seq<char>>::empty());
    }
    while i < lines.len()
        invariant
            i <= lines.len(),
            samples_view(bag@) == standard_bag(),
            all == rows_of(lines@),
            all == lines_of(s@),
            games_sum(all.take(i as int), powers) == Ok::<i32, CubeError>(total),
        decreases lines.len() - i,
    {
        proof {
            assert(all.take(i + 1).drop_last() =~= all.take(i as int));
            assert(all.take(i + 1).last() == lines@[i as int]@);
        }
        let next = match value_game(&lines[i], powers, &bag) {
            Ok(v) => match total.checked_add(v) {
                Some(sum) => Ok(sum),
                None => Err(CubeError::Overflow),
            },
            Err(e) => Err(e),
        };
        match next {
            Ok(sum) => {
                total = sum;
            },
            Err(e) => {
                proof {
                    assert(games_sum(all.take(i + 1), powers) == Err::<i32, CubeError>(e));
                    lemma_games_error_stays(all, i + 1, powers);
                }
                return Err(e);
            },
        }
        i += 1;
    }
    proof {
        assert(all.take(lines.len() as int) =~= all);
    }
    Ok(total)
}

/// The sum of the ids of the games that a bag of 12 red, 13 green and 14 blue
/// cubes can have shown, in decimal.
pub fn part_1(s: &str) -> (r: Result<String, CubeError>)
    ensures
        match r {
            Ok(answer) => games_sum(lines_of(s@), false) matches Ok(n) && answer@
                == signed_decimal(n as int),
            Err(e) => games_sum(lines_of(s@), false) == Err::<i32, CubeError>(e),
        },
{
    match sum_games(s, false) {
        Ok(total) => Ok(signed_decimal_string(total as i64)),
        Err(e) => Err(e),
    }
}

/// The sum of the powers of the games, in decimal.
pub fn part_2(s: &str) -> (r: Result<String, CubeError>)
    ensures
        match r {
            Ok(answer) => games_sum(lines_of(s@), true) matches Ok(n) && answer@ == signed_decimal(
                n as int,
            ),
            Err(e) => games_sum(lines_of(s@), true) == Err::<i32, CubeError>(e),
        },
{
    match sum_games(s, true) {
        Ok(total) => Ok(signed_decimal_string(total as i64)),
        Err(e) => Err(e),
    }
}

} // verus!
